use vstd::prelude::*;
use crate::ir::{block_in_bounds, inst_in_bounds, term_in_bounds, Block, Inst, Terminator};

verus! {

/// Builds a function block by block. Instructions go to the current block;
/// a block is sealed once all of its predecessors are known, and no edge
/// may be added into a sealed block.
pub struct FnBuilder {
    pub blocks: Vec<Block>,
    pub current: usize,
    pub num_values: usize,
    pub num_slots: usize,
    pub num_data: usize,
}

/// The block is sealed and terminated.
pub open spec fn settled(b: Block) -> bool {
    b.sealed && b.term != Terminator::Open
}

impl FnBuilder {
    pub open spec fn wf(&self) -> bool {
        &&& self.current < self.blocks@.len()
        &&& forall|b: int| 0 <= b < self.blocks@.len() ==>
            block_in_bounds(#[trigger] self.blocks@[b], self.num_values as nat,
                self.num_slots as nat, self.num_data as nat, self.blocks@.len())
    }

    pub open spec fn cur_block(&self) -> Block {
        self.blocks@[self.current as int]
    }

    /// The current block can take more instructions.
    pub open spec fn is_open(&self) -> bool {
        self.cur_block().term == Terminator::Open
    }

    /// A builder with one entry block, sealed, which is the current block.
    pub fn new(num_slots: usize, num_data: usize) -> (r: FnBuilder)
        ensures
            r.wf(),
            r.blocks@.len() == 1,
            r.current == 0,
            r.cur_block().insts@.len() == 0,
            r.cur_block().sealed,
            r.is_open(),
            r.num_values == 0,
            r.num_slots == num_slots,
            r.num_data == num_data,
    {
        let mut blocks: Vec<Block> = Vec::new();
        blocks.push(Block { insts: Vec::new(), term: Terminator::Open, sealed: true });
        FnBuilder { blocks, current: 0, num_values: 0, num_slots, num_data }
    }

    /// Appends a new empty, open and unsealed block and returns its index.
    pub fn create_block(&mut self) -> (r: usize)
        requires
            old(self).wf(),
            old(self).blocks@.len() < usize::MAX,
        ensures
            final(self).wf(),
            r == old(self).blocks@.len(),
            final(self).blocks@.len() == r + 1,
            forall|b: int| 0 <= b < r ==> #[trigger] final(self).blocks@[b] == old(self).blocks@[b],
            final(self).blocks@[r as int].insts@.len() == 0,
            final(self).blocks@[r as int].term == Terminator::Open,
            !final(self).blocks@[r as int].sealed,
            final(self).current == old(self).current,
            final(self).num_values == old(self).num_values,
            final(self).num_slots == old(self).num_slots,
            final(self).num_data == old(self).num_data,
    {
        let r = self.blocks.len();
        self.blocks.push(Block { insts: Vec::new(), term: Terminator::Open, sealed: false });
        proof {
            assert forall|b: int| 0 <= b < self.blocks@.len() implies
                block_in_bounds(#[trigger] self.blocks@[b], self.num_values as nat,
                self.num_slots as nat, self.num_data as nat, self.blocks@.len()) by {
                if b < r {
                    let bb = self.blocks@[b];
                    assert(block_in_bounds(old(self).blocks@[b], self.num_values as nat,
                        self.num_slots as nat, self.num_data as nat, old(self).blocks@.len()));
                    assert(forall|k: int| 0 <= k < bb.insts@.len() ==>
                        #[trigger] inst_in_bounds(bb.insts@[k], self.num_values as nat,
                        self.num_slots as nat, self.num_data as nat));
                }
            }
        }
        r
    }

    /// Makes `b` the block that receives instructions.
    pub fn switch_to_block(&mut self, b: usize)
        requires
            old(self).wf(),
            b < old(self).blocks@.len(),
        ensures
            final(self).wf(),
            final(self).current == b,
            final(self).blocks@ == old(self).blocks@,
            final(self).num_values == old(self).num_values,
            final(self).num_slots == old(self).num_slots,
            final(self).num_data == old(self).num_data,
    {
        self.current = b;
    }

    /// Records that all predecessors of `b` are known.
    pub fn seal_block(&mut self, b: usize)
        requires
            old(self).wf(),
            b < old(self).blocks@.len(),
            !old(self).blocks@[b as int].sealed,
        ensures
            final(self).wf(),
            final(self).blocks@.len() == old(self).blocks@.len(),
            forall|i: int| 0 <= i < old(self).blocks@.len() && i != b ==>
                #[trigger] final(self).blocks@[i] == old(self).blocks@[i],
            final(self).blocks@[b as int].sealed,
            final(self).blocks@[b as int].term == old(self).blocks@[b as int].term,
            final(self).blocks@[b as int].insts@ == old(self).blocks@[b as int].insts@,
            final(self).current == old(self).current,
            final(self).num_values == old(self).num_values,
            final(self).num_slots == old(self).num_slots,
            final(self).num_data == old(self).num_data,
    {
        self.blocks[b].sealed = true;
        proof {
            assert(block_in_bounds(self.blocks@[b as int], self.num_values as nat,
                self.num_slots as nat, self.num_data as nat, self.blocks@.len())) by {
                assert(block_in_bounds(old(self).blocks@[b as int], self.num_values as nat,
                    self.num_slots as nat, self.num_data as nat, self.blocks@.len()));
            }
        }
    }

    /// A fresh value number.
    pub fn new_value(&mut self) -> (r: usize)
        requires
            old(self).wf(),
            old(self).num_values < usize::MAX,
        ensures
            final(self).wf(),
            r == old(self).num_values,
            final(self).num_values == r + 1,
            final(self).blocks@ == old(self).blocks@,
            final(self).current == old(self).current,
            final(self).num_slots == old(self).num_slots,
            final(self).num_data == old(self).num_data,
    {
        let r = self.num_values;
        self.num_values = r + 1;
        proof {
            assert forall|b: int| 0 <= b < self.blocks@.len() implies
                block_in_bounds(#[trigger] self.blocks@[b], self.num_values as nat,
                self.num_slots as nat, self.num_data as nat, self.blocks@.len()) by {
                let bb = self.blocks@[b];
                assert(block_in_bounds(old(self).blocks@[b], r as nat,
                    self.num_slots as nat, self.num_data as nat, self.blocks@.len()));
                assert forall|k: int| 0 <= k < bb.insts@.len() implies
                    #[trigger] inst_in_bounds(bb.insts@[k], self.num_values as nat,
                    self.num_slots as nat, self.num_data as nat) by {
                    assert(inst_in_bounds(bb.insts@[k], r as nat,
                        self.num_slots as nat, self.num_data as nat));
                }
            }
        }
        r
    }

    /// Appends an instruction to the current block.
    pub fn ins(&mut self, i: Inst)
        requires
            old(self).wf(),
            old(self).is_open(),
            inst_in_bounds(i, old(self).num_values as nat, old(self).num_slots as nat,
                old(self).num_data as nat),
        ensures
            final(self).wf(),
            final(self).is_open(),
            final(self).blocks@.len() == old(self).blocks@.len(),
            forall|b: int| 0 <= b < old(self).blocks@.len() && b != old(self).current ==>
                #[trigger] final(self).blocks@[b] == old(self).blocks@[b],
            final(self).cur_block().insts@ == old(self).cur_block().insts@.push(i),
            final(self).cur_block().sealed == old(self).cur_block().sealed,
            final(self).current == old(self).current,
            final(self).num_values == old(self).num_values,
            final(self).num_slots == old(self).num_slots,
            final(self).num_data == old(self).num_data,
    {
        let c = self.current;
        self.blocks[c].insts.push(i);
        proof {
            let bb = self.blocks@[c as int];
            let ob = old(self).blocks@[c as int];
            assert(block_in_bounds(ob, self.num_values as nat,
                self.num_slots as nat, self.num_data as nat, self.blocks@.len()));
            assert forall|k: int| 0 <= k < bb.insts@.len() implies
                #[trigger] inst_in_bounds(bb.insts@[k], self.num_values as nat,
                self.num_slots as nat, self.num_data as nat) by {
                if k < ob.insts@.len() {
                    assert(bb.insts@[k] == ob.insts@[k]);
                }
            }
        }
    }

    /// Ends the current block with `t`. No edge may go into a sealed block.
    pub fn terminate(&mut self, t: Terminator)
        requires
            old(self).wf(),
            old(self).is_open(),
            t != Terminator::Open,
            term_in_bounds(t, old(self).num_values as nat, old(self).blocks@.len()),
            t matches Terminator::Jump { target } ==> !old(self).blocks@[target as int].sealed,
            t matches Terminator::Brz { if_zero, if_nonzero, .. } ==>
                !old(self).blocks@[if_zero as int].sealed
                && !old(self).blocks@[if_nonzero as int].sealed,
        ensures
            final(self).wf(),
            final(self).blocks@.len() == old(self).blocks@.len(),
            forall|b: int| 0 <= b < old(self).blocks@.len() && b != old(self).current ==>
                #[trigger] final(self).blocks@[b] == old(self).blocks@[b],
            final(self).cur_block().insts@ == old(self).cur_block().insts@,
            final(self).cur_block().term == t,
            final(self).cur_block().sealed == old(self).cur_block().sealed,
            final(self).current == old(self).current,
            final(self).num_values == old(self).num_values,
            final(self).num_slots == old(self).num_slots,
            final(self).num_data == old(self).num_data,
    {
        let c = self.current;
        self.blocks[c].term = t;
        proof {
            let bb = self.blocks@[c as int];
            let ob = old(self).blocks@[c as int];
            assert(block_in_bounds(ob, self.num_values as nat,
                self.num_slots as nat, self.num_data as nat, self.blocks@.len()));
            assert(bb.insts@ == ob.insts@);
        }
    }

    /// Appends an instruction that defines the next value number.
    pub fn ins_value(&mut self, i: Inst)
        requires
            old(self).wf(),
            old(self).is_open(),
            old(self).num_values < usize::MAX,
            inst_in_bounds(i, (old(self).num_values + 1) as nat, old(self).num_slots as nat,
                old(self).num_data as nat),
        ensures
            final(self).wf(),
            final(self).is_open(),
            final(self).num_values == old(self).num_values + 1,
            final(self).blocks@.len() == old(self).blocks@.len(),
            forall|b: int| 0 <= b < old(self).blocks@.len() && b != old(self).current ==>
                #[trigger] final(self).blocks@[b] == old(self).blocks@[b],
            final(self).cur_block().insts@ == old(self).cur_block().insts@.push(i),
            final(self).cur_block().sealed == old(self).cur_block().sealed,
            final(self).current == old(self).current,
            final(self).num_slots == old(self).num_slots,
            final(self).num_data == old(self).num_data,
    {
        self.new_value();
        self.ins(i);
    }
}

} // verus!
