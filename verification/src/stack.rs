//! The operand stack: a fixed array and the number of its slots in use.

use vstd::prelude::*;
use vstd::slice::slice_subrange;

verus! {

/// An operand stack of at most `DEPTH` values. Its view is the operands, the top
/// of the stack last.
pub struct OperandStack<const DEPTH: usize> {
    slots: [u64; DEPTH],
    used: usize,
}

impl<const DEPTH: usize> View for OperandStack<DEPTH> {
    type V = Seq<u64>;

    closed spec fn view(&self) -> Seq<u64> {
        self.slots@.take(self.used as int)
    }
}

impl<const DEPTH: usize> OperandStack<DEPTH> {
    pub closed spec fn slots_in_use(&self) -> nat {
        self.used as nat
    }

    /// No more slots are in use than there are.
    pub open spec fn wf(&self) -> bool {
        self@.len() == self.slots_in_use() <= DEPTH
    }

    /// An empty stack.
    pub fn new() -> (stack: Self)
        ensures
            stack.wf(),
            stack@ == Seq::<u64>::empty(),
    {
        let stack = OperandStack { slots: [0u64; DEPTH], used: 0 };
        assert(stack@ =~= Seq::<u64>::empty());
        stack
    }

    /// The number of operands.
    pub fn len(&self) -> (n: usize)
        requires
            self.wf(),
        ensures
            n == self@.len(),
            n <= DEPTH,
    {
        self.used
    }

    /// Puts `value` on top, reporting whether there was room for it.
    pub fn push(&mut self, value: u64) -> (fits: bool)
        requires
            old(self).wf(),
        ensures
            final(self).wf(),
            fits <==> old(self)@.len() < DEPTH,
            fits ==> final(self)@ == old(self)@.push(value),
            !fits ==> final(self)@ == old(self)@,
    {
        if self.used == DEPTH {
            return false;
        }
        self.slots[self.used] = value;
        self.used += 1;
        assert(self@ =~= old(self)@.push(value));
        true
    }

    /// Takes the top operand off, where there is one.
    pub fn pop(&mut self) -> (top: Option<u64>)
        requires
            old(self).wf(),
        ensures
            final(self).wf(),
            top is None <==> old(self)@.len() == 0,
            top matches Some(value) ==> {
                &&& value == old(self)@.last()
                &&& final(self)@ == old(self)@.drop_last()
            },
            top is None ==> final(self)@ == old(self)@,
    {
        if self.used == 0 {
            return None;
        }
        self.used -= 1;
        assert(self@ =~= old(self)@.drop_last());
        Some(self.slots[self.used])
    }

    /// The top operand, where there is one.
    pub fn top(&self) -> (top: Option<u64>)
        requires
            self.wf(),
        ensures
            top is None <==> self@.len() == 0,
            top matches Some(value) ==> value == self@.last(),
    {
        if self.used == 0 {
            None
        } else {
            Some(self.slots[self.used - 1])
        }
    }

    /// Writes `value` beneath the `above` topmost operands, reporting whether there
    /// was room for it.
    pub fn insert_beneath(&mut self, above: usize, value: u64) -> (fits: bool)
        requires
            old(self).wf(),
            above <= old(self)@.len(),
        ensures
            final(self).wf(),
            fits <==> old(self)@.len() < DEPTH,
            fits ==> final(self)@ == old(self)@.take(old(self)@.len() - above) + seq![value]
                + old(self)@.skip(old(self)@.len() - above),
            !fits ==> final(self)@ == old(self)@,
    {
        if self.used == DEPTH {
            return false;
        }
        let base: usize = self.used - above;
        let mut k: usize = self.used;
        while k > base
            invariant
                base <= k <= self.used < DEPTH,
                self.used == old(self).used,
                forall|i: int| 0 <= i < k ==> self.slots@[i] == old(self).slots@[i],
                forall|i: int| k < i <= self.used ==> self.slots@[i] == old(self).slots@[i - 1],
            decreases k,
        {
            let operand: u64 = self.slots[k - 1];
            self.slots[k] = operand;
            k -= 1;
        }
        self.slots[base] = value;
        self.used += 1;
        assert(self@ =~= old(self)@.take(base as int) + seq![value] + old(self)@.skip(base as int));
        true
    }

    /// The operands from position `base` up.
    pub fn from(&self, base: usize) -> (operands: &[u64])
        requires
            self.wf(),
            base <= self@.len(),
        ensures
            operands@ == self@.skip(base as int),
    {
        let operands = slice_subrange(self.slots.as_slice(), base, self.used);
        assert(operands@ =~= self@.skip(base as int));
        operands
    }

    /// Drops the operands from position `base` up.
    pub fn truncate(&mut self, base: usize)
        requires
            old(self).wf(),
            base <= old(self)@.len(),
        ensures
            final(self).wf(),
            final(self)@ == old(self)@.take(base as int),
    {
        self.used = base;
        assert(self@ =~= old(self)@.take(base as int));
    }
}

} // verus!
