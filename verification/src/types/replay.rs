//! Chains from stored blocks.
use vstd::prelude::*;
use crate::error::BtcError;
use crate::ledger::{admit_blocks, lemma_admit_blocks_next, ChainView};
use crate::types::block::{block_views, chain_encoding, decode_chain, encode_chain, parse_chain, Block};
use crate::types::blockchain::Blockchain;

verus! {

impl Blockchain {
    /// The chain that admits `blocks` one after the other, or the error of
    /// the first block that is refused.
    pub fn from_blocks(blocks: Vec<Block>) -> (r: Result<Blockchain, BtcError>)
        ensures
            match r {
                Ok(chain) => chain.wf() && admit_blocks(ChainView::empty(), block_views(blocks@))
                    == Ok::<ChainView, BtcError>(chain@),
                Err(e) => admit_blocks(ChainView::empty(), block_views(blocks@)) == Err::<
                    ChainView,
                    BtcError,
                >(e),
            },
    {
        let ghost all = block_views(blocks@);
        let mut chain = Blockchain::new();
        let mut rest = blocks;
        let ghost mut done: int = 0;
        assert(all.take(0) =~= Seq::empty());
        while rest.len() > 0
            invariant
                0 <= done <= all.len(),
                all == block_views(blocks@),
                rest@.len() == all.len() - done,
                block_views(rest@) == all.skip(done),
                chain.wf(),
                admit_blocks(ChainView::empty(), all.take(done)) == Ok::<ChainView, BtcError>(
                    chain@,
                ),
            decreases rest.len(),
        {
            let ghost raw = rest@;
            let ghost rest_before = block_views(rest@);
            let ghost before = chain@;
            let block = rest.remove(0);
            proof {
                assert(rest_before[0] == block@);
                assert(block@ == all[done]);
                lemma_admit_blocks_next(ChainView::empty(), all, done, before);
                assert(rest@ == raw.remove(0));
                assert forall|i: int| 0 <= i < rest@.len() implies block_views(rest@)[i] == all[done
                    + 1 + i] by {
                    assert(rest@[i] == raw[i + 1]);
                    assert(rest_before[i + 1] == all[done + 1 + i]);
                }
                assert(block_views(rest@) =~= all.skip(done + 1));
            }
            match chain.add_block(block) {
                Err(e) => {
                    return Err(e);
                },
                Ok(_) => {},
            }
            proof {
                done = done + 1;
            }
        }
        assert(all.take(done) =~= all);
        Ok(chain)
    }

    /// The encoding of the chain: the number of its blocks, then the blocks.
    /// Target and unspent outputs follow from the blocks; pending
    /// transactions are not kept.
    pub fn to_bytes(&self) -> (bytes: Vec<u8>)
        ensures
            bytes@ == chain_encoding(self@.blocks),
    {
        encode_chain(self.blocks())
    }

    /// The chain that admits the blocks that `data` spells, one after the
    /// other. `IoError` where `data` is not the encoding of a chain;
    /// otherwise the error of the first block that is refused, if any.
    pub fn from_bytes(data: &[u8]) -> (r: Result<Blockchain, BtcError>)
        ensures
            match parse_chain(data@) {
                None => r matches Err(e) && e == BtcError::IoError,
                Some(blocks) => match r {
                    Ok(chain) => chain.wf() && admit_blocks(ChainView::empty(), blocks) == Ok::<
                        ChainView,
                        BtcError,
                    >(chain@),
                    Err(e) => admit_blocks(ChainView::empty(), blocks) == Err::<
                        ChainView,
                        BtcError,
                    >(e),
                },
            },
    {
        match decode_chain(data) {
            Err(e) => Err(e),
            Ok(blocks) => Blockchain::from_blocks(blocks),
        }
    }
}

} // verus!
