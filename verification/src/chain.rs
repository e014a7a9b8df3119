//! Storage collaborator model: the chain as consecutive blocks from genesis,
//! indexed by height. The protocol treats it as authoritative.

use crate::wire::{Block, BlockId};
use vstd::prelude::*;

verus! {

/// What happens to the chain when one block is offered for import: it is
/// appended iff it extends the current head, otherwise it is ignored.
pub open spec fn import_step(s: Seq<Block>, b: Block) -> Seq<Block> {
    if b.number == s.len() {
        s.push(b)
    } else {
        s
    }
}

/// Importing a batch offers each block in order.
pub open spec fn spec_import(s: Seq<Block>, bs: Seq<Block>) -> Seq<Block>
    decreases bs.len(),
{
    if bs.len() == 0 {
        s
    } else {
        spec_import(import_step(s, bs[0]), bs.drop_first())
    }
}

pub struct Chain {
    pub blocks: Vec<Block>,
}

impl Chain {
    /// Genesis is present and the block at height `i` sits at index `i`.
    pub open spec fn wf(self) -> bool {
        self.blocks@.len() >= 1 && forall|i: int|
            0 <= i < self.blocks@.len() ==> self.blocks@[i].number == i
    }

    pub open spec fn spec_genesis_hash(self) -> u64 {
        self.blocks@[0].hash
    }

    pub open spec fn spec_best_number(self) -> int {
        self.blocks@.len() - 1
    }

    pub open spec fn spec_best_hash(self) -> u64 {
        self.blocks@[self.blocks@.len() - 1].hash
    }

    pub open spec fn has_hash(self, h: u64) -> bool {
        exists|i: int| 0 <= i < self.blocks@.len() && self.blocks@[i].hash == h
    }

    /// The lowest height whose block carries hash `h`.
    pub open spec fn first_hash(self, h: u64) -> int {
        choose|i: int|
            0 <= i < self.blocks@.len() && self.blocks@[i].hash == h && (forall|j: int|
                0 <= j < i ==> self.blocks@[j].hash != h)
    }

    /// Where a block identifier points in this chain, if anywhere.
    pub open spec fn spec_resolve(self, id: BlockId) -> Option<int> {
        match id {
            BlockId::Number(n) => if n < self.blocks@.len() {
                Some(n as int)
            } else {
                None
            },
            BlockId::Hash(h) => if self.has_hash(h) {
                Some(self.first_hash(h))
            } else {
                None
            },
        }
    }

    pub fn new(genesis_hash: u64) -> (c: Chain)
        ensures
            c.wf(),
            c.blocks@.len() == 1,
            c.blocks@[0] == (Block { number: 0, hash: genesis_hash }),
    {
        let mut blocks: Vec<Block> = Vec::new();
        blocks.push(Block { number: 0, hash: genesis_hash });
        Chain { blocks }
    }

    pub fn genesis_hash(&self) -> (h: u64)
        requires
            self.wf(),
        ensures
            h == self.spec_genesis_hash(),
    {
        self.blocks[0].hash
    }

    pub fn best_number(&self) -> (n: u64)
        requires
            self.wf(),
        ensures
            n == self.spec_best_number(),
    {
        proof {
            assert(self.blocks@[self.blocks@.len() - 1].number == self.blocks@.len() - 1);
        }
        self.blocks[self.blocks.len() - 1].number
    }

    pub fn best_hash(&self) -> (h: u64)
        requires
            self.wf(),
        ensures
            h == self.spec_best_hash(),
    {
        self.blocks[self.blocks.len() - 1].hash
    }

    pub fn num_blocks(&self) -> (n: usize)
        ensures
            n == self.blocks@.len(),
    {
        self.blocks.len()
    }

    pub fn block_at(&self, i: usize) -> (b: Block)
        requires
            i < self.blocks@.len(),
        ensures
            b == self.blocks@[i as int],
    {
        self.blocks[i]
    }

    /// Resolves a block identifier to a height: directly for a height, by a
    /// first-match scan for a hash.
    pub fn resolve(&self, id: &BlockId) -> (r: Option<usize>)
        requires
            self.wf(),
        ensures
            match r {
                Some(i) => self.spec_resolve(*id) == Some(i as int) && i < self.blocks@.len(),
                None => self.spec_resolve(*id) is None,
            },
    {
        match *id {
            BlockId::Number(n) => {
                if n < self.blocks.len() as u64 {
                    Some(n as usize)
                } else {
                    None
                }
            }
            BlockId::Hash(h) => {
                let mut i: usize = 0;
                while i < self.blocks.len()
                    invariant
                        *id == BlockId::Hash(h),
                        i <= self.blocks@.len(),
                        forall|j: int| 0 <= j < i ==> self.blocks@[j].hash != h,
                    decreases self.blocks@.len() - i,
                {
                    if self.blocks[i].hash == h {
                        proof {
                            let w = i as int;
                            assert(0 <= w < self.blocks@.len() && self.blocks@[w].hash == h
                                && (forall|j: int| 0 <= j < w ==> self.blocks@[j].hash != h));
                            assert(self.has_hash(h));
                            let c = self.first_hash(h);
                            assert(0 <= c < self.blocks@.len() && self.blocks@[c].hash == h
                                && (forall|j: int| 0 <= j < c ==> self.blocks@[j].hash != h));
                            assert(c == w) by {
                                if c < w {
                                    assert(self.blocks@[c].hash != h);
                                    assert(false);
                                }
                                if w < c {
                                    assert(self.blocks@[w].hash != h);
                                    assert(false);
                                }
                            }
                            assert(self.spec_resolve(*id) == Some(w));
                        }
                        return Some(i);
                    }
                    i = i + 1;
                }
                None
            }
        }
    }

    /// Looks a block up by height or by hash.
    pub fn get_block(&self, id: &BlockId) -> (r: Option<Block>)
        requires
            self.wf(),
        ensures
            match r {
                Some(b) => (exists|i: int|
                    self.spec_resolve(*id) == Some(i) && 0 <= i < self.blocks@.len() && b
                        == self.blocks@[i]),
                None => self.spec_resolve(*id) is None,
            },
    {
        match self.resolve(id) {
            Some(i) => Some(self.blocks[i]),
            None => None,
        }
    }

    /// Offers each block for import in order; a block is appended iff it
    /// extends the current head, and is ignored otherwise.
    pub fn import_blocks(&mut self, new_blocks: Vec<Block>)
        requires
            old(self).wf(),
        ensures
            final(self).wf(),
            final(self).blocks@ == spec_import(old(self).blocks@, new_blocks@),
    {
        let ghost orig = self.blocks@;
        let ghost bs = new_blocks@;
        let mut j: usize = 0;
        proof {
            assert(bs.subrange(0, bs.len() as int) =~= bs);
        }
        while j < new_blocks.len()
            invariant
                j <= bs.len(),
                bs == new_blocks@,
                self.wf(),
                spec_import(orig, bs) == spec_import(self.blocks@, bs.subrange(j as int, bs.len() as int)),
            decreases bs.len() - j,
        {
            let b = new_blocks[j];
            proof {
                let tail = bs.subrange(j as int, bs.len() as int);
                assert(tail[0] == bs[j as int]);
                assert(tail.drop_first() =~= bs.subrange(j as int + 1, bs.len() as int));
            }
            if b.number == self.blocks.len() as u64 {
                self.blocks.push(b);
            }
            j = j + 1;
        }
        proof {
            assert(bs.subrange(bs.len() as int, bs.len() as int) =~= Seq::<Block>::empty());
        }
    }
}

} // verus!
