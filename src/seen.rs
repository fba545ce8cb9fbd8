use vstd::prelude::*;
use std::collections::VecDeque;

verus! {

/// The ids after a lookup of `id` in a window of at most `max` ids.
pub open spec fn seen_id_step(s: Seq<u64>, id: u64, max: nat) -> Seq<u64> {
    if s.contains(id) {
        s
    } else if s.len() + 1 > max {
        s.push(id).drop_first()
    } else {
        s.push(id)
    }
}

/// Bounded first-in first-out set of message ids.
pub struct SeenCache {
    buf: VecDeque<u64>,
    max: usize,
}

impl View for SeenCache {
    type V = Seq<u64>;

    closed spec fn view(&self) -> Seq<u64> {
        self.buf@
    }
}

impl SeenCache {
    pub closed spec fn capacity(&self) -> nat {
        self.max as nat
    }

    pub fn new(max: usize) -> (r: Self)
        ensures
            r@ == Seq::<u64>::empty(),
            r.capacity() == max,
    {
        SeenCache { buf: VecDeque::new(), max }
    }

    /// Reports whether `id` is already known; if not, remembers it, forgetting
    /// the oldest id when over capacity.
    pub fn seen(&mut self, id: u64) -> (r: bool)
        ensures
            r == old(self)@.contains(id),
            final(self)@ == seen_id_step(old(self)@, id, old(self).capacity()),
            final(self).capacity() == old(self).capacity(),
    {
        let n = self.buf.len();
        let mut i: usize = 0;
        while i < n
            invariant
                n == self.buf@.len(),
                i <= n,
                self@ == old(self)@,
                self.max == old(self).max,
                forall|j: int| 0 <= j < i ==> #[trigger] self@[j] != id,
            decreases n - i,
        {
            if self.buf[i] == id {
                assert(self@[i as int] == id);
                return true;
            }
            i = i + 1;
        }
        assert(!self@.contains(id));
        self.buf.push_back(id);
        if self.buf.len() > self.max {
            let _ = self.buf.pop_front();
            assert(self@ =~= old(self)@.push(id).drop_first());
        }
        false
    }
}

} // verus!
