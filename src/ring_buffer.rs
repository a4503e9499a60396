use std::collections::VecDeque;
use vstd::prelude::*;

verus! {

/// `2` to the power `m`.
pub open spec fn pow2(m: nat) -> nat
    decreases m,
{
    if m == 0 {
        1
    } else {
        2 * pow2((m - 1) as nat)
    }
}

/// A bounded first-in first-out buffer whose capacity is one less than a
/// power of two.
pub struct SyncRingBuf<T> {
    items: VecDeque<T>,
    cap: usize,
}

impl<T> SyncRingBuf<T> {
    /// The queued elements, oldest first.
    pub closed spec fn queued(&self) -> Seq<T> {
        self.items@
    }

    /// How many elements the buffer holds at most.
    pub closed spec fn bound(&self) -> nat {
        self.cap as nat
    }

    /// The buffer's invariant: it never holds more than its capacity.
    pub closed spec fn wf(&self) -> bool {
        self.items@.len() <= self.cap
    }

    /// An empty buffer whose capacity is the least number of the form
    /// `2^m - 1` that is at least `cap_at_least`.
    pub fn with_capacity_at_least(cap_at_least: usize) -> (b: SyncRingBuf<T>)
        requires
            1 < cap_at_least <= usize::MAX / 2,
        ensures
            b.wf(),
            b.queued().len() == 0,
            exists|m: nat|
                b.bound() + 1 == #[trigger] pow2(m) && b.bound() >= cap_at_least && (m == 0 || pow2(
                    (m - 1) as nat,
                ) <= cap_at_least),
    {
        let mut len: usize = 1;
        let ghost mut m: nat = 0;
        while len <= cap_at_least
            invariant
                1 < cap_at_least <= usize::MAX / 2,
                len == pow2(m),
                m == 0 || pow2((m - 1) as nat) <= cap_at_least,
                len <= 2 * cap_at_least,
                len >= 1,
            decreases 2 * cap_at_least - len,
        {
            len = len * 2;
            proof {
                m = m + 1;
            }
        }
        let b = SyncRingBuf { items: VecDeque::new(), cap: len - 1 };
        assert(b.bound() + 1 == pow2(m));
        b
    }

    /// How many elements the buffer holds at most.
    pub fn capacity(&self) -> (c: usize)
        ensures
            c == self.bound(),
    {
        self.cap
    }

    /// Appends `t` unless the buffer is full; a refused element is handed
    /// back.
    pub fn try_send(&mut self, t: T) -> (r: Option<T>)
        requires
            old(self).wf(),
        ensures
            final(self).wf(),
            final(self).bound() == old(self).bound(),
            old(self).queued().len() < old(self).bound() ==> r is None && final(self).queued()
                == old(self).queued().push(t),
            old(self).queued().len() >= old(self).bound() ==> r == Some(t) && final(self).queued()
                == old(self).queued(),
    {
        if self.items.len() < self.cap {
            self.items.push_back(t);
            None
        } else {
            Some(t)
        }
    }

    /// Takes the oldest element, if any.
    pub fn try_recv(&mut self) -> (r: Option<T>)
        requires
            old(self).wf(),
        ensures
            final(self).wf(),
            final(self).bound() == old(self).bound(),
            old(self).queued().len() == 0 ==> r is None && final(self).queued() == old(self).queued(),
            old(self).queued().len() > 0 ==> r == Some(old(self).queued()[0]) && final(self).queued()
                == old(self).queued().drop_first(),
    {
        self.items.pop_front()
    }

    /// How many elements are queued.
    pub fn len_at_least(&self) -> (n: usize)
        ensures
            n == self.queued().len(),
    {
        self.items.len()
    }

    /// How many more elements fit.
    pub fn remaining_at_least(&self) -> (n: usize)
        requires
            self.wf(),
        ensures
            n == self.bound() - self.queued().len(),
    {
        self.cap - self.items.len()
    }
}

} // verus!
