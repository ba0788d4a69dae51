//! MD5 digests of data that arrives in blocks.

use vstd::prelude::*;

verus! {

/// The MD5 digest of a byte sequence: sixteen bytes.
pub uninterp spec fn spec_md5(data: Seq<u8>) -> Seq<u8>;

/// Calls `md5::compute` and takes the sixteen bytes out of the digest. The
/// digest depends on the bytes alone; the contract gives it the name
/// `spec_md5` and claims nothing else of it.
#[verifier::external_body]
pub(crate) fn md5_digest(data: &[u8]) -> (sum: [u8; 16])
    ensures
        sum@ == spec_md5(data@),
{
    md5::compute(data).0
}

/// Reads its input block by block.
pub struct Hasher {
    pub block_size: usize,
}

/// The bytes of the blocks up to and including the first one that is shorter
/// than `block_size`, which ends the input.
pub open spec fn spec_input(blocks: Seq<Vec<u8>>, block_size: usize) -> Seq<u8>
    decreases blocks.len(),
{
    if blocks.len() == 0 {
        Seq::empty()
    } else if blocks[0]@.len() < block_size {
        blocks[0]@
    } else {
        blocks[0]@ + spec_input(blocks.drop_first(), block_size)
    }
}

impl Hasher {
    /// A hasher that reads blocks of one gibibyte.
    pub fn new() -> (h: Hasher)
        ensures
            h.block_size == 0x4000_0000,
    {
        Hasher { block_size: 0x4000_0000 }
    }

    /// Whether a block of `bytes_read` bytes is the last one of its input.
    pub fn is_last_block(&self, bytes_read: usize) -> (last: bool)
        ensures
            last == (bytes_read < self.block_size),
    {
        bytes_read < self.block_size
    }

    /// The digest of the input that arrives as `blocks`: everything up to
    /// and including the first short block.
    pub fn hash_blocks(&self, blocks: &[Vec<u8>]) -> (sum: [u8; 16])
        ensures
            sum@ == spec_md5(spec_input(blocks@, self.block_size)),
    {
        let mut input: Vec<u8> = Vec::new();
        let mut i: usize = 0;
        assert(blocks@.skip(0) =~= blocks@);
        assert(input@ + spec_input(blocks@, self.block_size) =~= spec_input(
            blocks@,
            self.block_size,
        ));
        while i < blocks.len()
            invariant
                i <= blocks@.len(),
                spec_input(blocks@, self.block_size) == input@ + spec_input(
                    blocks@.skip(i as int),
                    self.block_size,
                ),
            decreases blocks@.len() - i,
        {
            let block = &blocks[i];
            let ghost rest = blocks@.skip(i as int);
            assert(rest[0] == blocks@[i as int]);
            assert(rest.drop_first() == blocks@.skip(i + 1));
            let ghost fed = input@;
            input.extend_from_slice(block.as_slice());
            if self.is_last_block(block.len()) {
                assert(spec_input(rest, self.block_size) == block@);
                assert(input@ == spec_input(blocks@, self.block_size));
                return md5_digest(input.as_slice());
            }
            assert(fed + (block@ + spec_input(rest.drop_first(), self.block_size)) =~= input@
                + spec_input(blocks@.skip(i + 1), self.block_size));
            i += 1;
        }
        assert(spec_input(blocks@.skip(i as int), self.block_size) == Seq::<u8>::empty());
        assert(input@ + Seq::<u8>::empty() =~= input@);
        md5_digest(input.as_slice())
    }
}

} // verus!
