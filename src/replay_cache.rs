use vstd::prelude::*;
use std::collections::VecDeque;
use crate::wire::same_id;

verus! {

/// How many keys the cache remembers.
pub const MAX_CACHE: usize = 2048;

/// Identifies one frame: its sender and its message id.
#[derive(Clone, Copy, Debug)]
pub struct ReplayKey {
    pub sender: [u8; 8],
    pub msg_id: [u8; 8],
}

/// A key as the cache compares it.
pub type KeyView = (Seq<u8>, Seq<u8>);

impl View for ReplayKey {
    type V = KeyView;

    open spec fn view(&self) -> KeyView {
        (self.sender@, self.msg_id@)
    }
}

/// The window after a new key enters at the back: the oldest key leaves once
/// the window is over capacity.
pub open spec fn push_window(s: Seq<KeyView>, k: KeyView) -> Seq<KeyView> {
    let t = s.push(k);
    if t.len() > MAX_CACHE {
        t.drop_first()
    } else {
        t
    }
}

/// One lookup of `seen`: a known key changes nothing, a new key enters.
pub open spec fn seen_step(s: Seq<KeyView>, k: KeyView) -> Seq<KeyView> {
    if s.contains(k) {
        s
    } else {
        push_window(s, k)
    }
}

/// The window after a series of lookups, in order.
pub open spec fn seen_all(s: Seq<KeyView>, ks: Seq<KeyView>) -> Seq<KeyView>
    decreases ks.len(),
{
    if ks.len() == 0 {
        s
    } else {
        seen_all(seen_step(s, ks[0]), ks.drop_first())
    }
}

/// How many of a series of lookups inserted a new key.
pub open spec fn insertions(s: Seq<KeyView>, ks: Seq<KeyView>) -> nat
    decreases ks.len(),
{
    if ks.len() == 0 {
        0
    } else {
        (if s.contains(ks[0]) {
            0nat
        } else {
            1nat
        }) + insertions(seen_step(s, ks[0]), ks.drop_first())
    }
}

/// Bounded first-in first-out set of recently seen frame keys.
pub struct ReplayCache {
    order: VecDeque<ReplayKey>,
}

impl View for ReplayCache {
    type V = Seq<KeyView>;

    closed spec fn view(&self) -> Seq<KeyView> {
        self.order@.map_values(|k: ReplayKey| k@)
    }
}

impl ReplayCache {
    pub open spec fn wf(&self) -> bool {
        self@.len() <= MAX_CACHE && self@.no_duplicates()
    }

    pub fn new() -> (r: Self)
        ensures
            r@ == Seq::<KeyView>::empty(),
            r.wf(),
    {
        let r = ReplayCache { order: VecDeque::new() };
        assert(r@ =~= Seq::<KeyView>::empty());
        r
    }

    /// Reports whether `key` is already known; if not, remembers it, forgetting
    /// the oldest key when the cache is full.
    pub fn seen(&mut self, key: ReplayKey) -> (r: bool)
        requires
            old(self).wf(),
        ensures
            r == old(self)@.contains(key@),
            final(self)@ == seen_step(old(self)@, key@),
            final(self).wf(),
    {
        let n = self.order.len();
        let mut i: usize = 0;
        while i < n
            invariant
                n == self.order@.len(),
                i <= n,
                self.wf(),
                forall|j: int| 0 <= j < i ==> #[trigger] self@[j] != key@,
            decreases n - i,
        {
            let k = &self.order[i];
            assert(self@[i as int] == k@);
            if same_id(&k.sender, &key.sender) && same_id(&k.msg_id, &key.msg_id) {
                assert(self@[i as int] == key@);
                return true;
            }
            i = i + 1;
        }
        let ghost before = self@;
        assert(!before.contains(key@));
        self.order.push_back(key);
        assert(self@ =~= before.push(key@));
        if self.order.len() > MAX_CACHE {
            let _ = self.order.pop_front();
            assert(self@ =~= before.push(key@).drop_first());
        }
        proof {
            assert(before.push(key@).no_duplicates());
        }
        false
    }
}

proof fn lemma_step_keeps(s: Seq<KeyView>, k: KeyView, x: KeyView, i: int)
    requires
        s.len() <= MAX_CACHE,
        0 <= i < s.len(),
        s[i] == x,
        !s.contains(k) ==> s.len() - i < MAX_CACHE,
    ensures
        ({
            let t = seen_step(s, k);
            let d = if s.contains(k) { 0int } else { 1int };
            t.len() <= MAX_CACHE && exists|j: int|
                0 <= j < t.len() && t[j] == x && t.len() - 1 - j == s.len() - 1 - i + d
        }),
{
    let t = seen_step(s, k);
    if s.contains(k) {
        assert(t[i] == x);
    } else {
        let u = s.push(k);
        assert(u[i] == x);
        if u.len() > MAX_CACHE {
            assert(t[i - 1] == x);
        } else {
            assert(t[i] == x);
        }
    }
}

proof fn lemma_kept_at(s: Seq<KeyView>, ks: Seq<KeyView>, x: KeyView, i: int)
    requires
        s.len() <= MAX_CACHE,
        0 <= i < s.len(),
        s[i] == x,
        s.len() - 1 - i + insertions(s, ks) < MAX_CACHE,
    ensures
        seen_all(s, ks).contains(x),
    decreases ks.len(),
{
    if ks.len() == 0 {
        assert(s[i] == x);
    } else {
        let t = seen_step(s, ks[0]);
        lemma_step_keeps(s, ks[0], x, i);
        let j = choose|j: int|
            0 <= j < t.len() && t[j] == x && t.len() - 1 - j == s.len() - 1 - i + (if s.contains(
                ks[0],
            ) {
                0int
            } else {
                1int
            });
        lemma_kept_at(t, ks.drop_first(), x, j);
    }
}

/// A key stays known while fewer than `MAX_CACHE` other keys have entered after
/// it: once a lookup has inserted `k`, looking it up again after any series of
/// lookups that inserts fewer than `MAX_CACHE` new keys reports it as seen.
pub proof fn lemma_recent_key_remembered(s: Seq<KeyView>, k: KeyView, ks: Seq<KeyView>)
    requires
        s.len() <= MAX_CACHE,
        !s.contains(k),
        insertions(seen_step(s, k), ks) < MAX_CACHE,
    ensures
        seen_all(seen_step(s, k), ks).contains(k),
{
    let t = seen_step(s, k);
    assert(t[t.len() - 1] == k);
    lemma_kept_at(t, ks, k, t.len() - 1);
}

/// With the cache full, inserting a new key forgets the oldest one, which a
/// later lookup then reports as unseen.
pub proof fn lemma_full_window_forgets_oldest(s: Seq<KeyView>, k: KeyView)
    requires
        s.len() == MAX_CACHE,
        s.no_duplicates(),
        !s.contains(k),
    ensures
        !seen_step(s, k).contains(s[0]),
{
    let t = seen_step(s, k);
    assert(t =~= s.drop_first().push(k));
    if t.contains(s[0]) {
        let j = choose|j: int| 0 <= j < t.len() && t[j] == s[0];
        if j < t.len() - 1 {
            assert(s[j + 1] == s[0]);
        }
    }
}

} // verus!
