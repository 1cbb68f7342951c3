//! Fixed-capacity rolling history buffer: samples are appended at the tail
//! and the oldest are evicted from the head once the capacity is reached.

use vstd::prelude::*;

verus! {

/// The suffix of `xs` that a rolling buffer of capacity `cap` retains:
/// all of `xs` while it still fits, otherwise the last `cap` elements.
pub open spec fn recent<T>(cap: nat, xs: Seq<T>) -> Seq<T> {
    if xs.len() <= cap {
        xs
    } else {
        xs.skip(xs.len() - cap)
    }
}

/// The retained window never exceeds the capacity, and it consists of the
/// most recently appended values in append order.
pub proof fn lemma_recent_is_suffix<T>(cap: nat, xs: Seq<T>)
    ensures
        recent(cap, xs).len() == if xs.len() <= cap { xs.len() } else { cap },
        forall|i: int|
            0 <= i < recent(cap, xs).len() ==> recent(cap, xs)[i] == xs[xs.len() - recent(
                cap,
                xs,
            ).len() + i],
{
}

/// One more append keeps the buffer tracking the full history: if a buffer
/// holds the last `cap` values of `xs`, then pushing `v` (and evicting the
/// head if the buffer is full) yields the last `cap` values of `xs.push(v)`.
pub proof fn lemma_recent_step<T>(cap: nat, xs: Seq<T>, v: T)
    requires
        cap >= 1,
    ensures
        recent(cap, xs.push(v)) == if recent(cap, xs).len() < cap {
            recent(cap, xs).push(v)
        } else {
            recent(cap, xs).drop_first().push(v)
        },
{
    if xs.len() < cap {
        assert(recent(cap, xs.push(v)) =~= recent(cap, xs).push(v));
    } else {
        assert(recent(cap, xs.push(v)) =~= recent(cap, xs).drop_first().push(v));
    }
}

/// Rolling history of the most recent `cap` samples, oldest first.
pub struct BoundedSeries<T> {
    items: Vec<T>,
    cap: usize,
}

impl<T> View for BoundedSeries<T> {
    type V = Seq<T>;

    closed spec fn view(&self) -> Seq<T> {
        self.items@
    }
}

impl<T> BoundedSeries<T> {
    /// The fixed maximum number of retained samples.
    pub closed spec fn spec_capacity(&self) -> nat {
        self.cap as nat
    }

    /// The buffer never holds more than its capacity, and the capacity is
    /// at least one so that `append` always retains the newest sample.
    pub closed spec fn wf(&self) -> bool {
        &&& self.items@.len() <= self.cap
        &&& self.cap >= 1
    }

    pub fn new(cap: usize) -> (s: BoundedSeries<T>)
        requires
            cap >= 1,
        ensures
            s.wf(),
            s@ == Seq::<T>::empty(),
            s.spec_capacity() == cap,
    {
        BoundedSeries { items: Vec::new(), cap }
    }

    /// Appends unconditionally; evicts the oldest sample when the buffer
    /// would otherwise exceed its capacity.
    pub fn append(&mut self, v: T)
        requires
            old(self).wf(),
        ensures
            final(self).wf(),
            final(self).spec_capacity() == old(self).spec_capacity(),
            final(self)@ == recent(old(self).spec_capacity(), old(self)@.push(v)),
    {
        self.items.push(v);
        if self.items.len() > self.cap {
            self.items.remove(0);
            proof {
                assert(self.items@ =~= recent(old(self).spec_capacity(), old(self)@.push(v)));
            }
        }
    }

    /// The retained samples, oldest first.
    pub fn as_slice(&self) -> (r: &[T])
        ensures
            r@ == self@,
    {
        self.items.as_slice()
    }

    pub fn len(&self) -> (n: usize)
        ensures
            n == self@.len(),
    {
        self.items.len()
    }

    pub fn capacity(&self) -> (c: usize)
        ensures
            c == self.spec_capacity(),
    {
        self.cap
    }
}

impl<T: Copy> BoundedSeries<T> {
    /// The most recent sample, or `None` while no sample has been appended.
    pub fn latest(&self) -> (r: Option<T>)
        ensures
            match r {
                Some(x) => self@.len() > 0 && x == self@.last(),
                None => self@.len() == 0,
            },
    {
        let n = self.items.len();
        if n > 0 {
            Some(self.items[n - 1])
        } else {
            None
        }
    }
}

} // verus!
