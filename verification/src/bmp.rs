//! The container format: one buffer holding the original payload length,
//! the serialized coding tree, an opaque 54-byte passthrough header, and the
//! packed payload bits — and the image type whose payload it compresses.

use crate::bits::{
    lemma_u32_le_roundtrip, lemma_u64_le_roundtrip, pad_bits, push_u32_le, push_u64_le,
    read_u32_le, read_u64_le, u32_from_le, u32_le, u64_from_le, u64_le, unpack,
};
use crate::huffman_tree::{built_root, HuffmanTree};
use crate::model::{
    code_of, data_bits, decode_bits, lemma_code_exists, lemma_decode_data_bits, lemma_parse_ser,
    lemma_ser_len, parse_node, ser_shape,
};
use vstd::prelude::*;
use vstd::slice::{slice_subrange, slice_to_vec};

verus! {

/// The byte count of the passthrough header that a container carries
/// verbatim.
pub const HEADER_LEN: usize = 54;

/// Why decompression rejected a container.
#[derive(Clone, Copy, Debug, PartialEq, Eq, Structural)]
pub enum CodecError {
    /// The buffer ends before a fixed field, the declared tree blob, the
    /// header, or the declared number of payload bytes can be read.
    TruncatedInput,
    /// The tree blob does not parse: a discriminator, a symbol, or a child
    /// is missing.
    MalformedTree,
    /// A nonzero payload length is declared but no tree blob is present.
    EmptyAlphabetMismatch,
}

/// An image as the codec sees it: an opaque fixed-size header and the
/// payload bytes to be compressed.
pub struct BmpImage {
    pub header: Vec<u8>,
    pub data: Vec<u8>,
}

/// What decompressing a container buffer yields: the passthrough header and
/// the payload, or the error that rejects the buffer.
///
/// The layout is: original payload length (8 bytes, little endian), tree
/// blob length (4 bytes, little endian), tree blob, 54-byte header, packed
/// payload bits.
pub open spec fn decompress_spec(c: Seq<u8>) -> Result<(Seq<u8>, Seq<u8>), CodecError> {
    if c.len() < 12 {
        Err(CodecError::TruncatedInput)
    } else {
        let orig = u64_from_le(c.subrange(0, 8)) as int;
        let tlen = u32_from_le(c.subrange(8, 12)) as int;
        if 12 + tlen + 54 > c.len() {
            Err(CodecError::TruncatedInput)
        } else {
            let header = c.subrange(12 + tlen, 12 + tlen + 54);
            if orig == 0 {
                Ok((header, Seq::<u8>::empty()))
            } else if orig > usize::MAX as int {
                Err(CodecError::TruncatedInput)
            } else if tlen == 0 {
                Err(CodecError::EmptyAlphabetMismatch)
            } else {
                let blob = c.subrange(12, 12 + tlen);
                match parse_node(blob, 0) {
                    None => Err(CodecError::MalformedTree),
                    Some((sh, j)) => {
                        let packed = c.subrange(12 + tlen + 54, c.len() as int);
                        let out = decode_bits(sh, unpack(packed), orig as nat);
                        if out.len() == orig {
                            Ok((header, out))
                        } else {
                            Err(CodecError::TruncatedInput)
                        }
                    },
                }
            }
        }
    }
}

impl BmpImage {
    /// The header has the fixed passthrough size.
    pub open spec fn wf(self) -> bool {
        self.header@.len() == HEADER_LEN
    }

    /// Compresses the payload into a fresh container: build the coding tree
    /// from the payload, then write the payload length, the serialized
    /// tree, the header verbatim, and the packed payload bits.
    /// Decompressing the result yields the header and payload back; an
    /// empty payload yields exactly the 66-byte container with both length
    /// fields zero and no tree blob; otherwise the four regions after the
    /// length fields are exactly the built tree's serialization, the
    /// header, and that tree's padded encoding of the payload.
    pub fn compress(&self) -> (container: Vec<u8>)
        requires
            self.wf(),
        ensures
            decompress_spec(container@) == Ok::<(Seq<u8>, Seq<u8>), CodecError>(
                (self.header@, self.data@),
            ),
            container@.len() >= 66,
            container@.subrange(0, 8) == u64_le(self.data@.len() as u64),
            self.data@.len() == 0 ==> container@ == u64_le(0u64) + u32_le(0u32) + self.header@,
            self.data@.len() > 0 ==> (built_root(self.data@) matches Some(root) && {
                let bl = ser_shape(root.shape()).len() as int;
                let bits = data_bits(root.shape(), self.data@);
                &&& container@.len() == 12 + bl + 54 + (bits.len() + 7) / 8
                &&& container@.subrange(8, 12) == u32_le(bl as u32)
                &&& container@.subrange(12, 12 + bl) == ser_shape(root.shape())
                &&& container@.subrange(12 + bl, 12 + bl + 54) == self.header@
                &&& unpack(container@.subrange(12 + bl + 54, container@.len() as int)) == pad_bits(
                    bits,
                )
            }),
    {
        let dlen = self.data.len();
        let mut tree = HuffmanTree::new();
        tree.build(self.data.as_slice());
        let encoded = tree.encode(self.data.as_slice());
        let mut tree_blob = tree.serialize();
        proof {
            match tree.shape() {
                Some(sh) => {
                    lemma_ser_len(sh);
                },
                None => {},
            }
            assert(tree_blob@.len() <= 767);
        }
        let blob_len = tree_blob.len();
        let ghost blob_s = tree_blob@;
        let ghost packed_s = encoded@;
        let mut result: Vec<u8> = Vec::new();
        push_u64_le(&mut result, dlen as u64);
        push_u32_le(&mut result, blob_len as u32);
        result.append(&mut tree_blob);
        result.extend_from_slice(self.header.as_slice());
        let mut packed = encoded;
        result.append(&mut packed);
        proof {
            let c = result@;
            let n = dlen as int;
            let bl = blob_s.len() as int;
            assert(c =~= u64_le(dlen as u64) + u32_le(blob_len as u32) + blob_s + self.header@
                + packed_s);
            assert(c.len() == 12 + bl + 54 + packed_s.len());
            assert(c.subrange(0, 8) =~= u64_le(dlen as u64));
            assert(c.subrange(8, 12) =~= u32_le(blob_len as u32));
            lemma_u64_le_roundtrip(dlen as u64);
            lemma_u32_le_roundtrip(blob_len as u32);
            assert(u64_from_le(c.subrange(0, 8)) == dlen as u64);
            assert(u32_from_le(c.subrange(8, 12)) == blob_len as u32);
            assert(c.subrange(12 + bl, 12 + bl + 54) =~= self.header@);
            if n == 0 {
                assert(self.data@ =~= Seq::<u8>::empty());
                assert(decompress_spec(c) == Ok::<(Seq<u8>, Seq<u8>), CodecError>(
                    (self.header@, self.data@),
                ));
                assert(c =~= u64_le(0u64) + u32_le(0u32) + self.header@);
            } else {
                let sh = tree.shape().unwrap();
                lemma_ser_len(sh);
                assert(bl >= 2);
                assert(c.subrange(12, 12 + bl) =~= ser_shape(sh));
                assert(ser_shape(sh).subrange(0, bl) =~= ser_shape(sh));
                lemma_parse_ser(sh, ser_shape(sh), 0);
                assert(parse_node(c.subrange(12, 12 + bl), 0) == Some((sh, bl)));
                assert(c.subrange(12 + bl + 54, c.len() as int) =~= packed_s);
                let bits0 = data_bits(sh, self.data@);
                assert(unpack(packed_s) == pad_bits(bits0));
                assert forall|i: int|
                    0 <= i < self.data@.len() implies code_of(sh, #[trigger] self.data@[i])
                    is Some by {
                    assert(self.data@.to_set().contains(self.data@[i]));
                    lemma_code_exists(sh, self.data@[i]);
                }
                lemma_decode_data_bits(
                    sh,
                    self.data@,
                    Seq::new(((8 - bits0.len() % 8) % 8) as nat, |x: int| false),
                );
                assert(decode_bits(sh, pad_bits(bits0), self.data@.len() as nat) == self.data@);
                assert(decompress_spec(c) == Ok::<(Seq<u8>, Seq<u8>), CodecError>(
                    (self.header@, self.data@),
                ));
                assert(built_root(self.data@) matches Some(root) && root.shape() == sh);
            }
        }
        result
    }

    /// Decompresses a container buffer, rebuilding the coding tree from its
    /// blob and decoding the packed payload bits; rejects a buffer that is
    /// truncated anywhere, carries an unparsable tree, or declares payload
    /// with no tree.
    pub fn decompress(compressed: &[u8]) -> (result: Result<BmpImage, CodecError>)
        ensures
            match result {
                Ok(img) => img.header@.len() == 54 && decompress_spec(compressed@) == Ok::<
                    (Seq<u8>, Seq<u8>),
                    CodecError,
                >((img.header@, img.data@)),
                Err(e) => decompress_spec(compressed@) == Err::<(Seq<u8>, Seq<u8>), CodecError>(e),
            },
    {
        let n = compressed.len();
        if n < 12 {
            return Err(CodecError::TruncatedInput);
        }
        let orig = read_u64_le(compressed, 0);
        let tlen32 = read_u32_le(compressed, 8);
        let tlen = tlen32 as usize;
        if n - 12 < tlen || n - 12 - tlen < HEADER_LEN {
            return Err(CodecError::TruncatedInput);
        }
        let header = slice_to_vec(slice_subrange(compressed, 12 + tlen, 12 + tlen + HEADER_LEN));
        if orig == 0 {
            return Ok(BmpImage { header, data: Vec::new() });
        }
        if orig > usize::MAX as u64 {
            return Err(CodecError::TruncatedInput);
        }
        if tlen == 0 {
            return Err(CodecError::EmptyAlphabetMismatch);
        }
        let blob = slice_subrange(compressed, 12, 12 + tlen);
        let tree = match HuffmanTree::deserialize(blob) {
            Some(t) => t,
            None => {
                return Err(CodecError::MalformedTree);
            },
        };
        let packed = slice_subrange(compressed, 12 + tlen + HEADER_LEN, n);
        let data = tree.decode(packed, orig as usize);
        if data.len() == orig as usize {
            Ok(BmpImage { header, data })
        } else {
            Err(CodecError::TruncatedInput)
        }
    }
}

} // verus!
