//! A fixed-size window over the most recent numbers.

use crate::num::Num;
use vstd::prelude::*;

verus! {

/// `s` after `x` arrived in a window of `size`: the oldest entry leaves a full window.
pub open spec fn slide(s: Seq<Num>, size: nat, x: Num) -> Seq<Num> {
    if s.len() < size {
        s.push(x)
    } else {
        s.drop_first().push(x)
    }
}

/// The last `size` numbers that were pushed, oldest first, in a buffer that is
/// allocated once.
pub struct Ring {
    buf: Vec<Num>,
    filled: usize,
    head: usize,
}

impl Ring {
    pub closed spec fn view(&self) -> Seq<Num> {
        if self.filled < self.buf@.len() {
            self.buf@.take(self.filled as int)
        } else {
            self.buf@.skip(self.head as int) + self.buf@.take(self.head as int)
        }
    }

    /// How many numbers the window holds at most.
    pub closed spec fn size(&self) -> nat {
        self.buf@.len()
    }

    pub closed spec fn wf(&self) -> bool {
        &&& self.filled <= self.buf@.len()
        &&& self.filled < self.buf@.len() ==> self.head == self.filled
        &&& self.head <= self.buf@.len()
        &&& self.buf@.len() > 0 ==> self.head < self.buf@.len()
    }

    /// The window never holds more than its size.
    pub proof fn lemma_len(&self)
        requires
            self.wf(),
        ensures
            self@.len() <= self.size(),
    {
    }

    /// An empty window.
    pub fn new(size: usize) -> (r: Ring)
        ensures
            r.wf(),
            r.size() == size,
            r@ == Seq::<Num>::empty(),
    {
        let mut buf: Vec<Num> = Vec::with_capacity(size);
        let mut k: usize = 0;
        while k < size
            invariant
                k <= size,
                buf@.len() == k,
            decreases size - k,
        {
            buf.push(Num { bits: 0 });
            k = k + 1;
        }
        let r = Ring { buf, filled: 0, head: 0 };
        assert(r@ =~= Seq::<Num>::empty());
        r
    }

    /// How many numbers are in the window.
    pub fn len(&self) -> (r: usize)
        requires
            self.wf(),
        ensures
            r == self@.len(),
    {
        self.filled
    }

    /// Whether the window holds as many numbers as it can.
    pub fn is_full(&self) -> (r: bool)
        requires
            self.wf(),
        ensures
            r == (self@.len() == self.size()),
    {
        self.filled == self.buf.len()
    }

    /// The oldest number in the window.
    pub fn oldest(&self) -> (r: Num)
        requires
            self.wf(),
            self@.len() > 0,
        ensures
            r == self@[0],
    {
        if self.filled < self.buf.len() {
            self.buf[0]
        } else {
            self.buf[self.head]
        }
    }

    /// The number at position `i`, counted from the oldest.
    pub fn get(&self, i: usize) -> (r: Num)
        requires
            self.wf(),
            i < self@.len(),
        ensures
            r == self@[i as int],
    {
        let n: usize = self.buf.len();
        if self.filled < n {
            self.buf[i]
        } else if i < n - self.head {
            self.buf[self.head + i]
        } else {
            self.buf[i - (n - self.head)]
        }
    }

    /// The newest number in the window.
    pub fn newest(&self) -> (r: Num)
        requires
            self.wf(),
            self@.len() > 0,
        ensures
            r == self@.last(),
    {
        if self.filled < self.buf.len() {
            self.buf[self.filled - 1]
        } else if self.head == 0 {
            self.buf[self.buf.len() - 1]
        } else {
            self.buf[self.head - 1]
        }
    }

    /// Takes in one more number.
    pub fn push(&mut self, x: Num)
        requires
            old(self).wf(),
            old(self).size() > 0,
        ensures
            final(self).wf(),
            final(self).size() == old(self).size(),
            final(self)@ == slide(old(self)@, old(self).size(), x),
    {
        let ghost before = *self;
        let n: usize = self.buf.len();
        self.buf.set(self.head, x);
        self.head = if self.head + 1 == n {
            0
        } else {
            self.head + 1
        };
        if self.filled < n {
            self.filled = self.filled + 1;
        }
        assert(self@ =~= slide(before@, before.size(), x));
    }
}

/// A window keeps the latest numbers in their order: the newest is last, a full window
/// loses its oldest, and one that is not full loses none.
pub proof fn law_windows_keep_the_latest(s: Seq<Num>, size: nat, x: Num, i: int)
    requires
        0 < size,
        s.len() <= size,
        0 <= i < s.len(),
    ensures
        slide(s, size, x).last() == x,
        s.len() < size ==> slide(s, size, x).len() == s.len() + 1 && slide(s, size, x)[i] == s[i],
        s.len() == size ==> slide(s, size, x).len() == size && (i > 0 ==> slide(s, size, x)[i - 1]
            == s[i]),
{
}

} // verus!
