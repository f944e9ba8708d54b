//! The compressors that the document store can be configured with.
use vstd::prelude::*;

verus! {

#[verifier::external_type_specification]
#[verifier::external_body]
pub struct ExIoError(std::io::Error);

/// A compressor of document store blocks.
pub trait StoreCompressor {
    /// Appends the compressed form of `uncompressed` to `compressed`.
    fn compress(&self, uncompressed: &[u8], compressed: &mut Vec<u8>) -> std::io::Result<()>;

    /// Appends the decompressed form of `compressed` to `decompressed`.
    fn decompress(&self, compressed: &[u8], decompressed: &mut Vec<u8>) -> std::io::Result<()>;

    /// The identifier written in the store to name the compressor.
    fn get_compressor_id() -> u8;
}

/// The compressor used on the document store.
#[derive(Clone, Copy, Debug, PartialEq, Eq, Structural)]
pub enum Compressor {
    /// The lz4 block format.
    Lz4Block,
    /// The lz4 frame format.
    Lz4Frame,
    /// Brotli.
    Brotli,
    /// Snappy.
    Snap,
}

impl Compressor {
    /// The identifier of each compressor in the store.
    pub open spec fn id_spec(self) -> u8 {
        match self {
            Compressor::Lz4Block => 1,
            Compressor::Lz4Frame => 2,
            Compressor::Brotli => 3,
            Compressor::Snap => 4,
        }
    }

    /// The compressor named by `id`, which must be one of 1 to 4.
    pub fn from_id(id: u8) -> (r: Compressor)
        requires
            1 <= id <= 4,
        ensures
            r.id_spec() == id,
    {
        match id {
            1 => Compressor::Lz4Block,
            2 => Compressor::Lz4Frame,
            3 => Compressor::Brotli,
            _ => Compressor::Snap,
        }
    }

    /// The identifier of the compressor in the store.
    pub fn get_id(&self) -> (r: u8)
        ensures
            r == self.id_spec(),
    {
        match self {
            Compressor::Lz4Block => 1,
            Compressor::Lz4Frame => 2,
            Compressor::Brotli => 3,
            Compressor::Snap => 4,
        }
    }
}

/// Reading back the identifier of a compressor gives the same compressor.
pub proof fn lemma_id_round_trip(c: Compressor)
    ensures
        1 <= c.id_spec() <= 4,
        forall|d: Compressor| d.id_spec() == c.id_spec() ==> d == c,
{
}

} // verus!
