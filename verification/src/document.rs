//! The document: an ordered map from identifiers to values, with a local
//! operation clock and the per-level allocation biases.

use vstd::prelude::*;

use crate::key::{
    end_segs, key_compare, key_equiv, key_lt, lemma_key_equiv_lt_left, lemma_key_equiv_lt_right,
    lemma_key_equiv_refl, lemma_key_equiv_symm, lemma_key_equiv_trans, lemma_key_lt_asymm,
    lemma_key_lt_trans, lemma_key_trichotomy, lemma_start_min, picked_in_window, seg_at, segs_wf,
    start_segs, Id, InsertionStrategy, Key, Segment, INITIAL_WIDTH, MAX_DEPTH,
};

verus! {

/// What one slot of a document holds: an identifier's path, the clock it
/// was written under, and its value.  The two fixed boundary slots hold
/// no value.
#[verifier::ext_equal]
pub struct DocEntry<V> {
    pub key: Seq<Segment>,
    pub clock: u64,
    pub value: Option<V>,
}

/// The content is strictly ascending.
pub open spec fn entries_sorted<V>(s: Seq<DocEntry<V>>) -> bool {
    forall|i: int, j: int| 0 <= i < j < s.len() ==> key_lt(s[i].key, s[j].key)
}

/// A well-formed document content: at least the two boundary slots,
/// strictly ascending well-formed identifier paths, the boundary slots
/// first and last with no value, and a value in every slot between them.
pub open spec fn entries_wf<V>(s: Seq<DocEntry<V>>) -> bool {
    &&& s.len() >= 2
    &&& (forall|i: int| 0 <= i < s.len() ==> segs_wf(#[trigger] s[i].key))
    &&& entries_sorted(s)
    &&& s[0].key == start_segs()
    &&& s[s.len() - 1].key == end_segs()
    &&& s[0].value is None
    &&& s[s.len() - 1].value is None
    &&& s[0].clock == 0
    &&& s[s.len() - 1].clock == 0
    &&& (forall|i: int| 0 < i < s.len() - 1 ==> (#[trigger] s[i]).value is Some)
}

/// A replicated ordered sequence: an ordered map from identifiers to
/// values, the sticky per-level allocation biases, and the local
/// operation clock.
pub struct Document<V> {
    entries: Vec<(Key, Option<V>)>,
    strategies: Vec<InsertionStrategy>,
    clock: u64,
}

impl<V> View for Document<V> {
    type V = Seq<DocEntry<V>>;

    closed spec fn view(&self) -> Seq<DocEntry<V>> {
        self.entries@.map(
            |i: int, e: (Key, Option<V>)| DocEntry { key: e.0@, clock: e.0.clock, value: e.1 },
        )
    }
}

impl<V> Document<V> {
    /// A well-formed document.
    pub open spec fn wf(&self) -> bool {
        entries_wf(self@)
    }

    /// The local operation clock.
    pub closed spec fn clock_spec(&self) -> u64 {
        self.clock
    }

    /// The sticky per-level allocation biases assigned so far.
    pub closed spec fn strategies_spec(&self) -> Seq<InsertionStrategy> {
        self.strategies@
    }

    /// The fixed identifier that bounds the document from below.
    pub fn start(&self) -> (k: Key)
        ensures
            k@ == start_segs(),
            k.clock == 0,
            k.wf(),
    {
        let mut position: Vec<Segment> = Vec::new();
        position.push((0u64, Id::Sentinel));
        proof {
            assert(position@ =~= start_segs());
        }
        Key { position, clock: 0 }
    }

    /// The fixed identifier that bounds the document from above.
    pub fn end(&self) -> (k: Key)
        ensures
            k@ == end_segs(),
            k.clock == 0,
            k.wf(),
    {
        let mut position: Vec<Segment> = Vec::new();
        position.push((INITIAL_WIDTH, Id::Sentinel));
        proof {
            assert(position@ =~= end_segs());
        }
        Key { position, clock: 0 }
    }

    /// Builds an empty document: the two boundary slots, one randomly
    /// chosen bias for depth 0, and the clock just past the two slots.
    pub fn new() -> (d: Document<V>)
        ensures
            d.wf(),
            d@.len() == 2,
            d.clock_spec() == 2,
            d.strategies_spec().len() == 1,
    {
        let mut entries: Vec<(Key, Option<V>)> = Vec::new();
        let mut spos: Vec<Segment> = Vec::new();
        spos.push((0u64, Id::Sentinel));
        let mut epos: Vec<Segment> = Vec::new();
        epos.push((INITIAL_WIDTH, Id::Sentinel));
        entries.push((Key { position: spos, clock: 0 }, None));
        entries.push((Key { position: epos, clock: 0 }, None));
        let mut strategies: Vec<InsertionStrategy> = Vec::new();
        let first = crate::key::initial_strategy();
        strategies.push(first);
        let d = Document { entries, strategies, clock: 2 };
        proof {
            assert(d@[0].key =~= start_segs());
            assert(d@[1].key =~= end_segs());
            assert(key_lt(start_segs(), end_segs()));
        }
        d
    }

    /// The number of elements, the two boundary slots not counted.
    pub fn len(&self) -> (n: usize)
        requires
            self.wf(),
        ensures
            n == self@.len() - 2,
    {
        self.entries.len() - 2
    }

    /// Whether the document holds no element.
    pub fn is_empty(&self) -> (r: bool)
        requires
            self.wf(),
        ensures
            r <==> self@.len() == 2,
    {
        self.len() == 0
    }
}

/// In a strictly ascending content, everything before the first slot not
/// below `k` lies below `k`, so no slot at all compares equal to `k` when
/// that first slot lies above `k`.
pub proof fn lemma_no_hit<V>(s: Seq<DocEntry<V>>, k: Seq<Segment>, r: int)
    requires
        forall|i: int, j: int| 0 <= i < j < s.len() ==> key_lt(s[i].key, s[j].key),
        0 <= r <= s.len(),
        forall|j: int| 0 <= j < r ==> key_lt(#[trigger] s[j].key, k),
        r < s.len() ==> key_lt(k, s[r].key),
    ensures
        forall|i: int| 0 <= i < s.len() ==> !key_equiv(#[trigger] s[i].key, k),
{
    assert forall|i: int| 0 <= i < s.len() implies !key_equiv(#[trigger] s[i].key, k) by {
        if i > r {
            lemma_key_lt_trans(k, s[r].key, s[i].key);
        }
        lemma_key_trichotomy(s[i].key, k);
    }
}

/// In a strictly ascending content, at most one slot compares equal to a
/// given path.
pub proof fn lemma_unique_hit<V>(s: Seq<DocEntry<V>>, k: Seq<Segment>, h: int)
    requires
        forall|i: int, j: int| 0 <= i < j < s.len() ==> key_lt(s[i].key, s[j].key),
        0 <= h < s.len(),
        key_equiv(s[h].key, k),
    ensures
        forall|i: int| 0 <= i < s.len() && i != h ==> !key_equiv(#[trigger] s[i].key, k),
{
    assert forall|i: int| 0 <= i < s.len() && i != h implies !key_equiv(
        #[trigger] s[i].key,
        k,
    ) by {
        if key_equiv(s[i].key, k) {
            lemma_key_equiv_symm(s[h].key, k);
            lemma_key_equiv_trans(s[i].key, k, s[h].key);
            lemma_key_trichotomy(s[i].key, s[h].key);
        }
    }
}

impl<V> Document<V> {
    /// The first slot whose identifier does not order below `key`; the
    /// number of slots when every one does.
    fn find_index(&self, key: &Key) -> (r: usize)
        requires
            self.wf(),
        ensures
            r <= self@.len(),
            forall|j: int| 0 <= j < r ==> key_lt(#[trigger] self@[j].key, key@),
            r < self@.len() ==> !key_lt(self@[r as int].key, key@),
    {
        let mut i: usize = 0;
        while i < self.entries.len()
            invariant
                self.wf(),
                i <= self@.len(),
                forall|j: int| 0 <= j < i ==> key_lt(#[trigger] self@[j].key, key@),
            decreases self@.len() - i,
        {
            let e = &self.entries[i];
            match key_compare(&e.0, &key) {
                core::cmp::Ordering::Less => {
                    i = i + 1;
                },
                _ => {
                    return i;
                },
            }
        }
        i
    }

    /// Looks up the value stored under an identifier: nothing for an
    /// absent identifier, and nothing for the two boundary identifiers,
    /// whose slots never hold a value.
    pub fn get(&self, key: &Key) -> (r: Option<&V>)
        requires
            self.wf(),
        ensures
            (forall|i: int|
                0 <= i < self@.len() ==> !key_equiv(#[trigger] self@[i].key, key@)) ==> r is None,
            forall|i: int|
                0 <= i < self@.len() && key_equiv(#[trigger] self@[i].key, key@) ==> match self@[i].value {
                    Some(v) => r is Some && *r->0 == v,
                    None => r is None,
                },
    {
        let i = self.find_index(key);
        if i < self.entries.len() {
            let e = &self.entries[i];
            match key_compare(&e.0, &key) {
                core::cmp::Ordering::Equal => {
                    proof {
                        lemma_unique_hit(self@, key@, i as int);
                    }
                    e.1.as_ref()
                },
                _ => {
                    proof {
                        lemma_no_hit(self@, key@, i as int);
                    }
                    None
                },
            }
        } else {
            proof {
                lemma_no_hit(self@, key@, i as int);
            }
            None
        }
    }
}

/// An entry of a document's content.
pub open spec fn entry<V>(k: Seq<Segment>, c: u64, v: Option<V>) -> DocEntry<V> {
    DocEntry { key: k, clock: c, value: v }
}

/// The content after a replayed insertion of `v` under the path `k`
/// written at clock `c`: a slot whose identifier compares equal to `k`
/// has its value replaced (its stored identifier and clock stay); absent
/// `k`, a fresh slot enters at its place in the order.
pub open spec fn inserted<V>(s: Seq<DocEntry<V>>, k: Seq<Segment>, c: u64, v: V) -> Seq<
    DocEntry<V>,
>
    decreases s.len(),
{
    if s.len() == 0 {
        seq![entry(k, c, Some(v))]
    } else if key_lt(k, s[0].key) {
        seq![entry(k, c, Some(v))] + s
    } else if key_equiv(k, s[0].key) {
        s.update(0, entry(s[0].key, s[0].clock, Some(v)))
    } else {
        seq![s[0]] + inserted(s.drop_first(), k, c, v)
    }
}

/// The content after a local insertion of `v` under the freshly picked
/// path `k` at clock `c`: a slot whose identifier compares equal to `k`
/// is evicted and rewritten — identifier, clock and value — but only
/// when the stored clock is older; absent `k`, a fresh slot enters at
/// its place in the order.
pub open spec fn inserted_local<V>(s: Seq<DocEntry<V>>, k: Seq<Segment>, c: u64, v: V) -> Seq<
    DocEntry<V>,
>
    decreases s.len(),
{
    if s.len() == 0 {
        seq![entry(k, c, Some(v))]
    } else if key_lt(k, s[0].key) {
        seq![entry(k, c, Some(v))] + s
    } else if key_equiv(k, s[0].key) {
        if s[0].clock < c {
            s.update(0, entry(k, c, Some(v)))
        } else {
            s
        }
    } else {
        seq![s[0]] + inserted_local(s.drop_first(), k, c, v)
    }
}

/// The content after a removal carrying the path `k` and the clock `c`:
/// the slot whose identifier compares equal to `k` leaves, but only when
/// its stored clock matches `c`; with no such slot nothing changes.
pub open spec fn removed<V>(s: Seq<DocEntry<V>>, k: Seq<Segment>, c: u64) -> Seq<DocEntry<V>>
    decreases s.len(),
{
    if s.len() == 0 {
        s
    } else if key_lt(k, s[0].key) {
        s
    } else if key_equiv(k, s[0].key) {
        if s[0].clock == c {
            s.drop_first()
        } else {
            s
        }
    } else {
        seq![s[0]] + removed(s.drop_first(), k, c)
    }
}

/// Where the recursion of `inserted` lands when `r` is the first slot
/// not below `k`: an update in place on a hit, a fresh slot at `r`
/// otherwise.
pub proof fn lemma_inserted_at<V>(s: Seq<DocEntry<V>>, k: Seq<Segment>, c: u64, v: V, r: int)
    requires
        0 <= r <= s.len(),
        forall|j: int| 0 <= j < r ==> key_lt(#[trigger] s[j].key, k),
        r < s.len() ==> !key_lt(s[r].key, k),
    ensures
        r < s.len() && key_equiv(k, s[r].key) ==> inserted(s, k, c, v) == s.update(
            r,
            entry(s[r].key, s[r].clock, Some(v)),
        ),
        (r == s.len() || !key_equiv(k, s[r].key)) ==> inserted(s, k, c, v) == s.insert(
            r,
            entry(k, c, Some(v)),
        ),
    decreases s.len(),
{
    if r == 0 {
        if s.len() == 0 {
            assert(inserted(s, k, c, v) =~= s.insert(0, entry(k, c, Some(v))));
        } else if key_equiv(k, s[0].key) {
            lemma_key_trichotomy(k, s[0].key);
        } else {
            lemma_key_trichotomy(k, s[0].key);
            assert(key_lt(k, s[0].key));
            assert(inserted(s, k, c, v) =~= s.insert(0, entry(k, c, Some(v))));
        }
    } else {
        lemma_key_lt_asymm(s[0].key, k);
        lemma_key_trichotomy(k, s[0].key);
        let s1 = s.drop_first();
        assert(forall|j: int| 0 <= j < r - 1 ==> key_lt(#[trigger] s1[j].key, k));
        lemma_inserted_at(s1, k, c, v, r - 1);
        if r < s.len() && key_equiv(k, s[r].key) {
            assert(inserted(s, k, c, v) =~= s.update(r, entry(s[r].key, s[r].clock, Some(v))));
        } else {
            assert(inserted(s, k, c, v) =~= s.insert(r, entry(k, c, Some(v))));
        }
    }
}

/// Where the recursion of `inserted_local` lands when `r` is the first
/// slot not below `k`: an eviction on a hit with an older stored clock,
/// no change on a hit with a newer one, a fresh slot at `r` otherwise.
pub proof fn lemma_inserted_local_at<V>(s: Seq<DocEntry<V>>, k: Seq<Segment>, c: u64, v: V, r: int)
    requires
        0 <= r <= s.len(),
        forall|j: int| 0 <= j < r ==> key_lt(#[trigger] s[j].key, k),
        r < s.len() ==> !key_lt(s[r].key, k),
    ensures
        r < s.len() && key_equiv(k, s[r].key) && s[r].clock < c ==> inserted_local(s, k, c, v)
            == s.update(r, entry(k, c, Some(v))),
        r < s.len() && key_equiv(k, s[r].key) && s[r].clock >= c ==> inserted_local(s, k, c, v)
            == s,
        (r == s.len() || !key_equiv(k, s[r].key)) ==> inserted_local(s, k, c, v) == s.insert(
            r,
            entry(k, c, Some(v)),
        ),
    decreases s.len(),
{
    if r == 0 {
        if s.len() == 0 {
            assert(inserted_local(s, k, c, v) =~= s.insert(0, entry(k, c, Some(v))));
        } else if key_equiv(k, s[0].key) {
            lemma_key_trichotomy(k, s[0].key);
        } else {
            lemma_key_trichotomy(k, s[0].key);
            assert(inserted_local(s, k, c, v) =~= s.insert(0, entry(k, c, Some(v))));
        }
    } else {
        lemma_key_lt_asymm(s[0].key, k);
        lemma_key_trichotomy(k, s[0].key);
        let s1 = s.drop_first();
        assert(forall|j: int| 0 <= j < r - 1 ==> key_lt(#[trigger] s1[j].key, k));
        lemma_inserted_local_at(s1, k, c, v, r - 1);
        if r < s.len() && key_equiv(k, s[r].key) && s[r].clock < c {
            assert(inserted_local(s, k, c, v) =~= s.update(r, entry(k, c, Some(v))));
        } else if r < s.len() && key_equiv(k, s[r].key) {
            assert(inserted_local(s, k, c, v) =~= s);
        } else {
            assert(inserted_local(s, k, c, v) =~= s.insert(r, entry(k, c, Some(v))));
        }
    }
}

/// Where the recursion of `removed` lands when `r` is the first slot not
/// below `k`: the slot at `r` leaves on a hit with the matching clock,
/// nothing changes otherwise.
pub proof fn lemma_removed_at<V>(s: Seq<DocEntry<V>>, k: Seq<Segment>, c: u64, r: int)
    requires
        0 <= r <= s.len(),
        forall|j: int| 0 <= j < r ==> key_lt(#[trigger] s[j].key, k),
        r < s.len() ==> !key_lt(s[r].key, k),
    ensures
        r < s.len() && key_equiv(k, s[r].key) && s[r].clock == c ==> removed(s, k, c) == s.remove(
            r,
        ),
        r < s.len() && key_equiv(k, s[r].key) && s[r].clock != c ==> removed(s, k, c) == s,
        (r == s.len() || !key_equiv(k, s[r].key)) ==> removed(s, k, c) == s,
    decreases s.len(),
{
    if r == 0 {
        if s.len() == 0 {
        } else if key_equiv(k, s[0].key) {
            lemma_key_trichotomy(k, s[0].key);
            if s[0].clock == c {
                assert(removed(s, k, c) =~= s.remove(0));
            }
        } else {
            lemma_key_trichotomy(k, s[0].key);
        }
    } else {
        lemma_key_lt_asymm(s[0].key, k);
        lemma_key_trichotomy(k, s[0].key);
        let s1 = s.drop_first();
        assert(forall|j: int| 0 <= j < r - 1 ==> key_lt(#[trigger] s1[j].key, k));
        lemma_removed_at(s1, k, c, r - 1);
        if r < s.len() && key_equiv(k, s[r].key) && s[r].clock == c {
            assert(removed(s, k, c) =~= s.remove(r));
        } else if r < s.len() && key_equiv(k, s[r].key) {
            assert(removed(s, k, c) =~= s);
        } else {
            assert(removed(s, k, c) =~= s);
        }
    }
}

/// A fresh slot strictly between its neighbours, at a place strictly
/// inside the boundary slots, keeps the content well formed.
pub proof fn lemma_wf_insert<V>(s: Seq<DocEntry<V>>, e: DocEntry<V>, r: int)
    requires
        entries_wf(s),
        1 <= r <= s.len() - 1,
        segs_wf(e.key),
        e.value is Some,
        forall|j: int| 0 <= j < r ==> key_lt(#[trigger] s[j].key, e.key),
        forall|j: int| r <= j < s.len() ==> key_lt(e.key, #[trigger] s[j].key),
    ensures
        entries_wf(s.insert(r, e)),
{
    let t = s.insert(r, e);
    assert(t[0] == s[0]);
    assert(t[t.len() - 1] == s[s.len() - 1]);
    assert forall|i: int, j: int| 0 <= i < j < t.len() implies key_lt(t[i].key, t[j].key) by {
        if i < r && j < r {
            assert(t[i] == s[i] && t[j] == s[j]);
        } else if i < r && j == r {
            assert(t[i] == s[i]);
        } else if i < r && j > r {
            assert(t[i] == s[i] && t[j] == s[j - 1]);
        } else if i == r {
            assert(t[j] == s[j - 1]);
        } else {
            assert(t[i] == s[i - 1] && t[j] == s[j - 1]);
        }
    }
    assert forall|i: int| 0 <= i < t.len() implies segs_wf(#[trigger] t[i].key) by {
        if i < r {
            assert(t[i] == s[i]);
        } else if i == r {
        } else {
            assert(t[i] == s[i - 1]);
        }
    }
    assert forall|i: int| 0 < i < t.len() - 1 implies (#[trigger] t[i]).value is Some by {
        if i < r {
            assert(t[i] == s[i]);
        } else if i > r {
            assert(t[i] == s[i - 1]);
        }
    }
}

/// Rewriting a slot strictly inside the boundary slots — its identifier
/// replaced by one that compares equal, its value by a present one —
/// keeps the content well formed.
pub proof fn lemma_wf_update<V>(s: Seq<DocEntry<V>>, e: DocEntry<V>, r: int)
    requires
        entries_wf(s),
        1 <= r <= s.len() - 2,
        segs_wf(e.key),
        e.value is Some,
        key_equiv(e.key, s[r].key),
    ensures
        entries_wf(s.update(r, e)),
{
    let t = s.update(r, e);
    assert(t[0] == s[0]);
    assert(t[t.len() - 1] == s[s.len() - 1]);
    lemma_key_equiv_symm(e.key, s[r].key);
    assert forall|i: int, j: int| 0 <= i < j < t.len() implies key_lt(t[i].key, t[j].key) by {
        if i == r {
            lemma_key_equiv_lt_left(e.key, s[r].key, s[j].key);
        } else if j == r {
            lemma_key_equiv_symm(s[r].key, e.key);
            lemma_key_equiv_lt_right(s[i].key, s[r].key, e.key);
        }
    }
}

/// A slot leaving from strictly inside the boundary slots keeps the
/// content well formed.
pub proof fn lemma_wf_remove<V>(s: Seq<DocEntry<V>>, r: int)
    requires
        entries_wf(s),
        1 <= r <= s.len() - 2,
    ensures
        entries_wf(s.remove(r)),
{
    let t = s.remove(r);
    assert(t[0] == s[0]);
    assert(t[t.len() - 1] == s[s.len() - 1]);
    assert forall|i: int, j: int| 0 <= i < j < t.len() implies key_lt(t[i].key, t[j].key) by {
        let i0 = if i < r {
            i
        } else {
            i + 1
        };
        let j0 = if j < r {
            j
        } else {
            j + 1
        };
        assert(t[i] == s[i0] && t[j] == s[j0]);
    }
    assert forall|i: int| 0 <= i < t.len() implies segs_wf(#[trigger] t[i].key) by {
        if i >= r {
            assert(t[i] == s[i + 1]);
        }
    }
    assert forall|i: int| 0 < i < t.len() - 1 implies (#[trigger] t[i]).value is Some by {
        if i >= r {
            assert(t[i] == s[i + 1]);
        }
    }
}

/// Removal is idempotent: applying the same removal to a strictly
/// ascending content a second time changes nothing more.
pub proof fn lemma_remove_idempotent<V>(s: Seq<DocEntry<V>>, k: Seq<Segment>, c: u64)
    requires
        forall|i: int, j: int| 0 <= i < j < s.len() ==> key_lt(s[i].key, s[j].key),
    ensures
        removed(removed(s, k, c), k, c) == removed(s, k, c),
    decreases s.len(),
{
    if s.len() == 0 {
    } else if key_lt(k, s[0].key) {
    } else if key_equiv(k, s[0].key) {
        if s[0].clock == c {
            let s1 = s.drop_first();
            if s1.len() > 0 {
                lemma_key_equiv_lt_left(k, s[0].key, s1[0].key);
            }
        }
    } else {
        let s1 = s.drop_first();
        lemma_remove_idempotent(s1, k, c);
        let r = seq![s[0]] + removed(s1, k, c);
        assert(r.drop_first() =~= removed(s1, k, c));
        assert(removed(r, k, c) =~= seq![s[0]] + removed(removed(s1, k, c), k, c));
        assert(removed(removed(s, k, c), k, c) =~= removed(s, k, c));
    }
}

/// Two replayed insertions under paths that do not compare equal land in
/// the same content whichever arrives first; stated here for the lower
/// path applied second.
proof fn lemma_insert_insert_swap<V>(
    s: Seq<DocEntry<V>>,
    k1: Seq<Segment>,
    c1: u64,
    v1: V,
    k2: Seq<Segment>,
    c2: u64,
    v2: V,
)
    requires
        key_lt(k1, k2),
    ensures
        inserted(inserted(s, k1, c1, v1), k2, c2, v2) == inserted(
            inserted(s, k2, c2, v2),
            k1,
            c1,
            v1,
        ),
    decreases s.len(),
{
    let e1 = entry(k1, c1, Some(v1));
    let e2 = entry(k2, c2, Some(v2));
    lemma_key_lt_asymm(k1, k2);
    lemma_key_trichotomy(k1, k2);
    if key_equiv(k2, k1) {
        lemma_key_equiv_symm(k2, k1);
    }
    if s.len() == 0 {
        assert(inserted(s, k1, c1, v1) == seq![e1]);
        assert(seq![e1][0] == e1);
        assert(seq![e1].drop_first() =~= s);
        assert(inserted(seq![e1], k2, c2, v2) == seq![e1] + inserted(s, k2, c2, v2));
        assert(inserted(s, k2, c2, v2) == seq![e2]);
        assert(seq![e2][0] == e2);
        assert(inserted(seq![e2], k1, c1, v1) == seq![e1] + seq![e2]);
    } else {
        let h = s[0];
        let s1 = s.drop_first();
        let a = seq![e1] + s;
        if key_lt(k2, h.key) {
            lemma_key_lt_trans(k1, k2, h.key);
            assert(inserted(s, k1, c1, v1) == a);
            assert(a[0] == e1);
            assert(a.drop_first() =~= s);
            assert(inserted(a, k2, c2, v2) == seq![e1] + inserted(s, k2, c2, v2));
            let b = seq![e2] + s;
            assert(inserted(s, k2, c2, v2) == b);
            assert(b[0] == e2);
            assert(inserted(b, k1, c1, v1) == seq![e1] + b);
        } else if key_equiv(k2, h.key) {
            lemma_key_equiv_lt_right(k1, k2, h.key);
            lemma_key_trichotomy(k2, h.key);
            let hu = entry(h.key, h.clock, Some(v2));
            assert(inserted(s, k1, c1, v1) == a);
            assert(a[0] == e1);
            assert(a.drop_first() =~= s);
            assert(inserted(a, k2, c2, v2) == seq![e1] + inserted(s, k2, c2, v2));
            let b = s.update(0, hu);
            assert(inserted(s, k2, c2, v2) == b);
            assert(b[0] == hu);
            assert(inserted(b, k1, c1, v1) == seq![e1] + b);
        } else {
            lemma_key_trichotomy(k2, h.key);
            assert(key_lt(h.key, k2));
            lemma_key_lt_asymm(h.key, k2);
            if key_lt(k1, h.key) {
                assert(inserted(s, k1, c1, v1) == a);
                assert(a[0] == e1);
                assert(a.drop_first() =~= s);
                assert(inserted(a, k2, c2, v2) == seq![e1] + inserted(s, k2, c2, v2));
                let b = seq![h] + inserted(s1, k2, c2, v2);
                assert(inserted(s, k2, c2, v2) == b);
                assert(b[0] == h);
                assert(inserted(b, k1, c1, v1) == seq![e1] + b);
            } else if key_equiv(k1, h.key) {
                lemma_key_trichotomy(k1, h.key);
                let hu = entry(h.key, h.clock, Some(v1));
                let au = s.update(0, hu);
                assert(inserted(s, k1, c1, v1) == au);
                assert(au[0] == hu);
                assert(au.drop_first() =~= s1);
                assert(inserted(au, k2, c2, v2) == seq![hu] + inserted(s1, k2, c2, v2));
                let b = seq![h] + inserted(s1, k2, c2, v2);
                assert(inserted(s, k2, c2, v2) == b);
                assert(b[0] == h);
                assert(inserted(b, k1, c1, v1) == b.update(0, hu));
                assert(b.update(0, hu) =~= seq![hu] + inserted(s1, k2, c2, v2));
            } else {
                lemma_key_trichotomy(k1, h.key);
                assert(key_lt(h.key, k1));
                lemma_key_lt_asymm(h.key, k1);
                lemma_insert_insert_swap(s1, k1, c1, v1, k2, c2, v2);
                let a1 = seq![h] + inserted(s1, k1, c1, v1);
                assert(inserted(s, k1, c1, v1) == a1);
                assert(a1[0] == h);
                assert(a1.drop_first() =~= inserted(s1, k1, c1, v1));
                assert(inserted(a1, k2, c2, v2) == seq![h] + inserted(
                    inserted(s1, k1, c1, v1),
                    k2,
                    c2,
                    v2,
                ));
                let b1 = seq![h] + inserted(s1, k2, c2, v2);
                assert(inserted(s, k2, c2, v2) == b1);
                assert(b1[0] == h);
                assert(b1.drop_first() =~= inserted(s1, k2, c2, v2));
                assert(inserted(b1, k1, c1, v1) == seq![h] + inserted(
                    inserted(s1, k2, c2, v2),
                    k1,
                    c1,
                    v1,
                ));
            }
        }
    }
}

/// Convergence under reordering, insertion against insertion: two
/// replayed insertions under paths that do not compare equal yield the
/// same content in either application order.
pub proof fn lemma_insert_insert_commute<V>(
    s: Seq<DocEntry<V>>,
    k1: Seq<Segment>,
    c1: u64,
    v1: V,
    k2: Seq<Segment>,
    c2: u64,
    v2: V,
)
    requires
        !key_equiv(k1, k2),
    ensures
        inserted(inserted(s, k1, c1, v1), k2, c2, v2) == inserted(
            inserted(s, k2, c2, v2),
            k1,
            c1,
            v1,
        ),
{
    lemma_key_trichotomy(k1, k2);
    if key_lt(k1, k2) {
        lemma_insert_insert_swap(s, k1, c1, v1, k2, c2, v2);
    } else {
        lemma_insert_insert_swap(s, k2, c2, v2, k1, c1, v1);
    }
}

/// Convergence under reordering, removal against removal: two removals
/// yield the same strictly ascending content in either application
/// order.
pub proof fn lemma_remove_remove_commute<V>(
    s: Seq<DocEntry<V>>,
    k1: Seq<Segment>,
    c1: u64,
    k2: Seq<Segment>,
    c2: u64,
)
    requires
        forall|i: int, j: int| 0 <= i < j < s.len() ==> key_lt(s[i].key, s[j].key),
    ensures
        removed(removed(s, k1, c1), k2, c2) == removed(removed(s, k2, c2), k1, c1),
    decreases s.len(),
{
    if s.len() == 0 {
    } else {
        let h = s[0];
        let s1 = s.drop_first();
        if s1.len() > 0 {
            // anything at or below the head orders below the rest
            assert(key_lt(h.key, s1[0].key));
            if key_lt(k1, h.key) {
                lemma_key_lt_trans(k1, h.key, s1[0].key);
            }
            if key_equiv(k1, h.key) {
                lemma_key_equiv_lt_left(k1, h.key, s1[0].key);
            }
            if key_lt(k2, h.key) {
                lemma_key_lt_trans(k2, h.key, s1[0].key);
            }
            if key_equiv(k2, h.key) {
                lemma_key_equiv_lt_left(k2, h.key, s1[0].key);
            }
        }
        if key_lt(k1, h.key) || (key_equiv(k1, h.key) && h.clock != c1) {
            // the first removal leaves the content alone at the head
            if key_lt(k2, h.key) || (key_equiv(k2, h.key) && h.clock != c2) {
            } else if key_equiv(k2, h.key) {
                // the second drops the head; the first then sees a rest
                // it orders below
                if s1.len() > 0 {
                    lemma_key_trichotomy(k1, s1[0].key);
                }
            } else {
                lemma_key_trichotomy(k2, h.key);
                let t = seq![h] + removed(s1, k2, c2);
                assert(removed(s, k2, c2) == t);
                assert(t[0] == h);
            }
        } else if key_equiv(k1, h.key) {
            // the first removal drops the head
            if key_lt(k2, h.key) || (key_equiv(k2, h.key) && h.clock != c2) {
                if s1.len() > 0 {
                    lemma_key_trichotomy(k2, s1[0].key);
                }
            } else if key_equiv(k2, h.key) {
                // both drop the head; afterwards each sees a rest it
                // orders below
                if s1.len() > 0 {
                    lemma_key_trichotomy(k1, s1[0].key);
                    lemma_key_trichotomy(k2, s1[0].key);
                }
            } else {
                lemma_key_trichotomy(k2, h.key);
                lemma_key_trichotomy(k1, h.key);
                let t = seq![h] + removed(s1, k2, c2);
                assert(removed(s, k2, c2) == t);
                assert(t[0] == h);
                assert(t.drop_first() =~= removed(s1, k2, c2));
                assert(removed(t, k1, c1) == removed(s1, k2, c2));
            }
        } else {
            lemma_key_trichotomy(k1, h.key);
            assert(key_lt(h.key, k1));
            let t1 = seq![h] + removed(s1, k1, c1);
            assert(removed(s, k1, c1) == t1);
            assert(t1[0] == h);
            assert(t1.drop_first() =~= removed(s1, k1, c1));
            if key_lt(k2, h.key) || (key_equiv(k2, h.key) && h.clock != c2) {
            } else if key_equiv(k2, h.key) {
                lemma_key_trichotomy(k2, h.key);
                assert(removed(t1, k2, c2) == t1.drop_first());
            } else {
                lemma_key_trichotomy(k2, h.key);
                assert(key_lt(h.key, k2));
                assert(forall|i: int, j: int|
                    0 <= i < j < s1.len() ==> key_lt(s1[i].key, s1[j].key));
                lemma_remove_remove_commute(s1, k1, c1, k2, c2);
                let t2 = seq![h] + removed(s1, k2, c2);
                assert(removed(s, k2, c2) == t2);
                assert(t2[0] == h);
                assert(t2.drop_first() =~= removed(s1, k2, c2));
                assert(removed(t1, k2, c2) == seq![h] + removed(removed(s1, k1, c1), k2, c2));
                assert(removed(t2, k1, c1) == seq![h] + removed(removed(s1, k2, c2), k1, c1));
            }
        }
    }
}

/// Every slot of the content after a replayed insertion carries the
/// inserted path or the path of a slot of the content before it.
proof fn lemma_inserted_keys<V>(s: Seq<DocEntry<V>>, k: Seq<Segment>, c: u64, v: V, i: int)
    requires
        0 <= i < inserted(s, k, c, v).len(),
    ensures
        inserted(s, k, c, v)[i].key == k || exists|j: int|
            0 <= j < s.len() && s[j].key == inserted(s, k, c, v)[i].key,
    decreases s.len(),
{
    let t = inserted(s, k, c, v);
    if s.len() == 0 {
    } else if key_lt(k, s[0].key) {
        if i > 0 {
            assert(s[i - 1].key == t[i].key);
        }
    } else if key_equiv(k, s[0].key) {
        assert(s[i].key == t[i].key);
    } else {
        assert(t == seq![s[0]] + inserted(s.drop_first(), k, c, v));
        if i == 0 {
            assert(s[0].key == t[0].key);
        } else {
            lemma_inserted_keys(s.drop_first(), k, c, v, i - 1);
            if inserted(s.drop_first(), k, c, v)[i - 1].key != k {
                let j0 = choose|j: int|
                    0 <= j < s.drop_first().len() && s.drop_first()[j].key == inserted(
                        s.drop_first(),
                        k,
                        c,
                        v,
                    )[i - 1].key;
                assert(s[j0 + 1].key == t[i].key);
            }
        }
    }
}

/// Every slot of the content after a removal carries the path of a slot
/// of the content before it.
proof fn lemma_removed_keys<V>(s: Seq<DocEntry<V>>, k: Seq<Segment>, c: u64, i: int)
    requires
        0 <= i < removed(s, k, c).len(),
    ensures
        exists|j: int| 0 <= j < s.len() && s[j].key == removed(s, k, c)[i].key,
    decreases s.len(),
{
    let t = removed(s, k, c);
    if s.len() == 0 {
    } else if key_lt(k, s[0].key) {
        assert(s[i].key == t[i].key);
    } else if key_equiv(k, s[0].key) {
        if s[0].clock == c {
            assert(s[i + 1].key == t[i].key);
        } else {
            assert(s[i].key == t[i].key);
        }
    } else {
        assert(t == seq![s[0]] + removed(s.drop_first(), k, c));
        if i == 0 {
            assert(s[0].key == t[0].key);
        } else {
            lemma_removed_keys(s.drop_first(), k, c, i - 1);
            let j0 = choose|j: int|
                0 <= j < s.drop_first().len() && s.drop_first()[j].key == removed(
                    s.drop_first(),
                    k,
                    c,
                )[i - 1].key;
            assert(s[j0 + 1].key == t[i].key);
        }
    }
}

/// A replayed insertion keeps the content strictly ascending.
pub proof fn lemma_inserted_sorted<V>(s: Seq<DocEntry<V>>, k: Seq<Segment>, c: u64, v: V)
    requires
        entries_sorted(s),
    ensures
        entries_sorted(inserted(s, k, c, v)),
    decreases s.len(),
{
    let t = inserted(s, k, c, v);
    if s.len() == 0 {
    } else if key_lt(k, s[0].key) {
        assert forall|i: int, j: int| 0 <= i < j < t.len() implies key_lt(t[i].key, t[j].key) by {
            if i == 0 {
                if j > 1 {
                    lemma_key_lt_trans(k, s[0].key, s[j - 1].key);
                }
            } else {
                assert(t[i] == s[i - 1] && t[j] == s[j - 1]);
            }
        }
    } else if key_equiv(k, s[0].key) {
    } else {
        lemma_key_trichotomy(k, s[0].key);
        assert(key_lt(s[0].key, k));
        let s1 = s.drop_first();
        lemma_inserted_sorted(s1, k, c, v);
        let t1 = inserted(s1, k, c, v);
        assert(t == seq![s[0]] + t1);
        assert forall|i: int, j: int| 0 <= i < j < t.len() implies key_lt(t[i].key, t[j].key) by {
            if i == 0 {
                lemma_inserted_keys(s1, k, c, v, j - 1);
                if t1[j - 1].key != k {
                    let j0 = choose|m: int| 0 <= m < s1.len() && s1[m].key == t1[j - 1].key;
                    assert(s[j0 + 1].key == t1[j - 1].key);
                }
            } else {
                assert(t[i] == t1[i - 1] && t[j] == t1[j - 1]);
            }
        }
    }
}

/// A removal keeps the content strictly ascending.
pub proof fn lemma_removed_sorted<V>(s: Seq<DocEntry<V>>, k: Seq<Segment>, c: u64)
    requires
        entries_sorted(s),
    ensures
        entries_sorted(removed(s, k, c)),
    decreases s.len(),
{
    let t = removed(s, k, c);
    if s.len() == 0 {
    } else if key_lt(k, s[0].key) {
    } else if key_equiv(k, s[0].key) {
        if s[0].clock == c {
            assert forall|i: int, j: int| 0 <= i < j < t.len() implies key_lt(
                t[i].key,
                t[j].key,
            ) by {
                assert(t[i] == s[i + 1] && t[j] == s[j + 1]);
            }
        }
    } else {
        lemma_key_trichotomy(k, s[0].key);
        let s1 = s.drop_first();
        lemma_removed_sorted(s1, k, c);
        let t1 = removed(s1, k, c);
        assert(t == seq![s[0]] + t1);
        assert forall|i: int, j: int| 0 <= i < j < t.len() implies key_lt(t[i].key, t[j].key) by {
            if i == 0 {
                lemma_removed_keys(s1, k, c, j - 1);
                let j0 = choose|m: int| 0 <= m < s1.len() && s1[m].key == t1[j - 1].key;
                assert(s[j0 + 1].key == t1[j - 1].key);
            } else {
                assert(t[i] == t1[i - 1] && t[j] == t1[j - 1]);
            }
        }
    }
}

/// Convergence under reordering, insertion against removal: a replayed
/// insertion and a removal under paths that do not compare equal yield
/// the same strictly ascending content in either application order.
pub proof fn lemma_insert_remove_commute<V>(
    s: Seq<DocEntry<V>>,
    k1: Seq<Segment>,
    c1: u64,
    v1: V,
    k2: Seq<Segment>,
    c2: u64,
)
    requires
        forall|i: int, j: int| 0 <= i < j < s.len() ==> key_lt(s[i].key, s[j].key),
        !key_equiv(k1, k2),
    ensures
        removed(inserted(s, k1, c1, v1), k2, c2) == inserted(removed(s, k2, c2), k1, c1, v1),
    decreases s.len(),
{
    let e1 = entry(k1, c1, Some(v1));
    if key_equiv(k2, k1) {
        lemma_key_equiv_symm(k2, k1);
    }
    if s.len() == 0 {
        assert(inserted(s, k1, c1, v1) == seq![e1]);
        assert(seq![e1][0] == e1);
        assert(e1.key == k1);
        lemma_key_trichotomy(k2, k1);
        if !key_lt(k2, k1) {
            assert(seq![e1].drop_first() =~= s);
            assert(removed(seq![e1], k2, c2) == seq![e1] + removed(s, k2, c2));
            assert(seq![e1] + s =~= seq![e1]);
        }
    } else {
        let h = s[0];
        let s1 = s.drop_first();
        if s1.len() > 0 {
            assert(key_lt(h.key, s1[0].key));
        }
        if key_lt(k1, h.key) {
            let a = seq![e1] + s;
            assert(inserted(s, k1, c1, v1) == a);
            assert(a[0] == e1);
            assert(a.drop_first() =~= s);
            lemma_key_trichotomy(k2, k1);
            if key_lt(k2, h.key) || (key_equiv(k2, h.key) && h.clock != c2) {
                assert(removed(s, k2, c2) == s);
                if key_lt(k2, k1) {
                    assert(removed(a, k2, c2) == a);
                } else {
                    assert(removed(a, k2, c2) == seq![e1] + removed(s, k2, c2));
                    assert(seq![e1] + s =~= a);
                }
            } else if key_equiv(k2, h.key) {
                // the removal drops the head; the fresh slot still leads
                lemma_key_equiv_symm(k2, h.key);
                lemma_key_equiv_lt_right(k1, h.key, k2);
                lemma_key_lt_asymm(k1, k2);
                assert(removed(s, k2, c2) == s1);
                assert(removed(a, k2, c2) == seq![e1] + removed(s, k2, c2));
                if s1.len() > 0 {
                    lemma_key_lt_trans(k1, h.key, s1[0].key);
                    assert(inserted(s1, k1, c1, v1) == seq![e1] + s1);
                } else {
                    assert(inserted(s1, k1, c1, v1) =~= seq![e1] + s1);
                }
            } else {
                lemma_key_trichotomy(k2, h.key);
                assert(key_lt(h.key, k2));
                lemma_key_lt_trans(k1, h.key, k2);
                lemma_key_lt_asymm(k1, k2);
                let t = seq![h] + removed(s1, k2, c2);
                assert(removed(s, k2, c2) == t);
                assert(t[0] == h);
                assert(removed(a, k2, c2) == seq![e1] + removed(s, k2, c2));
                assert(inserted(t, k1, c1, v1) == seq![e1] + t);
            }
        } else if key_equiv(k1, h.key) {
            lemma_key_trichotomy(k1, h.key);
            if key_equiv(k2, h.key) {
                lemma_key_equiv_symm(k2, h.key);
                lemma_key_equiv_trans(k1, h.key, k2);
                assert(false);
            }
            let hu = entry(h.key, h.clock, Some(v1));
            let au = s.update(0, hu);
            assert(inserted(s, k1, c1, v1) == au);
            assert(au[0] == hu);
            assert(au.drop_first() =~= s1);
            if key_lt(k2, h.key) {
                assert(removed(s, k2, c2) == s);
                assert(removed(au, k2, c2) == au);
            } else {
                lemma_key_trichotomy(k2, h.key);
                assert(key_lt(h.key, k2));
                let t = seq![h] + removed(s1, k2, c2);
                assert(removed(s, k2, c2) == t);
                assert(t[0] == h);
                assert(t.drop_first() =~= removed(s1, k2, c2));
                assert(removed(au, k2, c2) == seq![hu] + removed(s1, k2, c2));
                assert(inserted(t, k1, c1, v1) == t.update(0, hu));
                assert(t.update(0, hu) =~= seq![hu] + removed(s1, k2, c2));
            }
        } else {
            lemma_key_trichotomy(k1, h.key);
            assert(key_lt(h.key, k1));
            let a = seq![h] + inserted(s1, k1, c1, v1);
            assert(inserted(s, k1, c1, v1) == a);
            assert(a[0] == h);
            assert(a.drop_first() =~= inserted(s1, k1, c1, v1));
            if key_lt(k2, h.key) || (key_equiv(k2, h.key) && h.clock != c2) {
                assert(removed(s, k2, c2) == s);
                assert(removed(a, k2, c2) == a);
            } else if key_equiv(k2, h.key) {
                lemma_key_trichotomy(k2, h.key);
                assert(removed(s, k2, c2) == s1);
                assert(removed(a, k2, c2) == a.drop_first());
            } else {
                lemma_key_trichotomy(k2, h.key);
                assert(key_lt(h.key, k2));
                lemma_insert_remove_commute(s1, k1, c1, v1, k2, c2);
                let t = seq![h] + removed(s1, k2, c2);
                assert(removed(s, k2, c2) == t);
                assert(t[0] == h);
                assert(t.drop_first() =~= removed(s1, k2, c2));
                assert(removed(a, k2, c2) == seq![h] + removed(inserted(s1, k1, c1, v1), k2, c2));
                assert(inserted(t, k1, c1, v1) == seq![h] + inserted(
                    removed(s1, k2, c2),
                    k1,
                    c1,
                    v1,
                ));
            }
        }
    }
}

/// One operation as it reaches a replica from elsewhere: a value to
/// store under a fully formed identifier, or a removal carrying an
/// identifier and its clock.
pub enum ReplayOp<V> {
    Insert(Seq<Segment>, u64, V),
    Remove(Seq<Segment>, u64),
}

/// The identifier path an operation touches.
pub open spec fn op_path<V>(op: ReplayOp<V>) -> Seq<Segment> {
    match op {
        ReplayOp::Insert(k, _, _) => k,
        ReplayOp::Remove(k, _) => k,
    }
}

/// The content after one replayed operation: exactly what `insert_at`
/// promises of the content for an insertion, and what `remove` promises
/// for a removal.
pub open spec fn applied<V>(s: Seq<DocEntry<V>>, op: ReplayOp<V>) -> Seq<DocEntry<V>> {
    match op {
        ReplayOp::Insert(k, c, v) => inserted(s, k, c, v),
        ReplayOp::Remove(k, c) => removed(s, k, c),
    }
}

/// The content after a sequence of replayed operations, applied first to
/// last.
pub open spec fn applied_all<V>(s: Seq<DocEntry<V>>, ops: Seq<ReplayOp<V>>) -> Seq<DocEntry<V>>
    decreases ops.len(),
{
    if ops.len() == 0 {
        s
    } else {
        applied_all(applied(s, ops[0]), ops.drop_first())
    }
}

/// One replayed operation keeps the content strictly ascending.
pub proof fn lemma_applied_sorted<V>(s: Seq<DocEntry<V>>, op: ReplayOp<V>)
    requires
        entries_sorted(s),
    ensures
        entries_sorted(applied(s, op)),
{
    match op {
        ReplayOp::Insert(k, c, v) => lemma_inserted_sorted(s, k, c, v),
        ReplayOp::Remove(k, c) => lemma_removed_sorted(s, k, c),
    }
}

/// Two replayed operations on paths that do not compare equal yield the
/// same strictly ascending content in either order.
pub proof fn lemma_applied_commute<V>(s: Seq<DocEntry<V>>, op1: ReplayOp<V>, op2: ReplayOp<V>)
    requires
        entries_sorted(s),
        !key_equiv(op_path(op1), op_path(op2)),
    ensures
        applied(applied(s, op1), op2) == applied(applied(s, op2), op1),
{
    match (op1, op2) {
        (ReplayOp::Insert(k1, c1, v1), ReplayOp::Insert(k2, c2, v2)) => {
            lemma_insert_insert_commute(s, k1, c1, v1, k2, c2, v2);
        },
        (ReplayOp::Insert(k1, c1, v1), ReplayOp::Remove(k2, c2)) => {
            lemma_insert_remove_commute(s, k1, c1, v1, k2, c2);
        },
        (ReplayOp::Remove(k1, c1), ReplayOp::Insert(k2, c2, v2)) => {
            if key_equiv(k2, k1) {
                lemma_key_equiv_symm(k2, k1);
            }
            lemma_insert_remove_commute(s, k2, c2, v2, k1, c1);
        },
        (ReplayOp::Remove(k1, c1), ReplayOp::Remove(k2, c2)) => {
            lemma_remove_remove_commute(s, k1, c1, k2, c2);
        },
    }
}

/// Convergence under reordering: swapping two neighbouring operations
/// whose paths do not compare equal leaves the final content unchanged.
/// Every permutation of a batch of operations on pairwise distinct
/// positions is a chain of such swaps, so every arrival order yields the
/// same document content.
pub proof fn lemma_reorder_invariant<V>(s: Seq<DocEntry<V>>, ops: Seq<ReplayOp<V>>, i: int)
    requires
        entries_sorted(s),
        0 <= i < ops.len() - 1,
        !key_equiv(op_path(ops[i]), op_path(ops[i + 1])),
    ensures
        applied_all(s, ops) == applied_all(s, ops.update(i, ops[i + 1]).update(i + 1, ops[i])),
    decreases i,
{
    let swapped = ops.update(i, ops[i + 1]).update(i + 1, ops[i]);
    if i == 0 {
        lemma_applied_commute(s, ops[0], ops[1]);
        assert(ops.drop_first().drop_first() =~= swapped.drop_first().drop_first());
        assert(ops.drop_first()[0] == ops[1]);
        assert(applied_all(s, ops) == applied_all(applied(s, ops[0]), ops.drop_first()));
        assert(applied_all(applied(s, ops[0]), ops.drop_first()) == applied_all(
            applied(applied(s, ops[0]), ops[1]),
            ops.drop_first().drop_first(),
        ));
        assert(swapped[0] == ops[1]);
        assert(swapped.drop_first()[0] == ops[0]);
        assert(applied_all(s, swapped) == applied_all(applied(s, ops[1]), swapped.drop_first()));
        assert(applied_all(applied(s, ops[1]), swapped.drop_first()) == applied_all(
            applied(applied(s, ops[1]), ops[0]),
            swapped.drop_first().drop_first(),
        ));
    } else {
        lemma_applied_sorted(s, ops[0]);
        lemma_reorder_invariant(applied(s, ops[0]), ops.drop_first(), i - 1);
        assert(swapped.drop_first() =~= ops.drop_first().update(i - 1, ops.drop_first()[i]).update(
            i,
            ops.drop_first()[i - 1],
        ));
        assert(swapped[0] == ops[0]);
    }
}

impl<V> Document<V> {
    /// The slot found for `key` lies strictly inside the boundary slots
    /// whenever `key` orders strictly between them.
    proof fn lemma_find_bounds(&self, key: Seq<Segment>, r: int)
        requires
            self.wf(),
            key_lt(start_segs(), key),
            key_lt(key, end_segs()),
            0 <= r <= self@.len(),
            forall|j: int| 0 <= j < r ==> key_lt(#[trigger] self@[j].key, key),
            r < self@.len() ==> !key_lt(self@[r].key, key),
        ensures
            1 <= r <= self@.len() - 1,
    {
        if r == 0 {
            assert(key_lt(self@[0].key, key));
            lemma_key_lt_asymm(start_segs(), key);
        }
        if r == self@.len() {
            assert(key_lt(self@[self@.len() - 1].key, key));
            lemma_key_lt_asymm(key, end_segs());
        }
    }

    /// Replays an insertion produced elsewhere: stores `value` under the
    /// caller-supplied identifier exactly as it arrived.  An identifier
    /// already present keeps its stored path and clock and has only its
    /// value replaced.
    pub fn insert_at(&mut self, key: Key, value: V)
        requires
            old(self).wf(),
            key.wf(),
            key_lt(start_segs(), key@),
            key_lt(key@, end_segs()),
        ensures
            final(self).wf(),
            final(self)@ == inserted(old(self)@, key@, key.clock, value),
            final(self).clock_spec() == old(self).clock_spec(),
            final(self).strategies_spec() == old(self).strategies_spec(),
    {
        let ghost s0 = self@;
        let i = self.find_index(&key);
        proof {
            self.lemma_find_bounds(key@, i as int);
        }
        let e = &self.entries[i];
        match key_compare(&e.0, &key) {
            core::cmp::Ordering::Equal => {
                proof {
                    lemma_key_equiv_symm(s0[i as int].key, key@);
                    // an equal identifier cannot sit on the end boundary
                    if i as int == s0.len() - 1 {
                        lemma_key_trichotomy(key@, s0[i as int].key);
                    }
                }
                let (stored, _old_value) = self.entries.remove(i);
                self.entries.insert(i, (stored, Some(value)));
                proof {
                    assert(self@ =~= s0.update(
                        i as int,
                        entry(s0[i as int].key, s0[i as int].clock, Some(value)),
                    ));
                    lemma_inserted_at(s0, key@, key.clock, value, i as int);
                    lemma_key_equiv_refl(s0[i as int].key);
                    lemma_wf_update(
                        s0,
                        entry(s0[i as int].key, s0[i as int].clock, Some(value)),
                        i as int,
                    );
                }
            },
            _ => {
                proof {
                    if key_equiv(key@, s0[i as int].key) {
                        lemma_key_equiv_symm(key@, s0[i as int].key);
                    }
                    assert(key_lt(key@, s0[i as int].key));
                }
                self.entries.insert(i, (key, Some(value)));
                proof {
                    assert(self@ =~= s0.insert(
                        i as int,
                        entry(key@, key.clock, Some(value)),
                    ));
                    lemma_inserted_at(s0, key@, key.clock, value, i as int);
                    assert forall|j: int| i <= j < s0.len() implies key_lt(
                        key@,
                        #[trigger] s0[j].key,
                    ) by {
                        if j > i {
                            lemma_key_lt_trans(key@, s0[i as int].key, s0[j].key);
                        }
                    }
                    lemma_wf_insert(s0, entry(key@, key.clock, Some(value)), i as int);
                }
            },
        }
    }

    /// Applies a removal, local or replayed: the slot whose identifier
    /// compares equal to `key` leaves, but only when its stored clock
    /// matches the carried one — a late removal does not erase a newer
    /// write at the same path.  Absent the identifier, nothing happens:
    /// removal is idempotent.
    pub fn remove(&mut self, key: Key)
        requires
            old(self).wf(),
            key_lt(start_segs(), key@),
            key_lt(key@, end_segs()),
        ensures
            final(self).wf(),
            final(self)@ == removed(old(self)@, key@, key.clock),
            final(self).clock_spec() == old(self).clock_spec(),
            final(self).strategies_spec() == old(self).strategies_spec(),
    {
        let ghost s0 = self@;
        let i = self.find_index(&key);
        proof {
            self.lemma_find_bounds(key@, i as int);
        }
        let e = &self.entries[i];
        match key_compare(&e.0, &key) {
            core::cmp::Ordering::Equal => {
                proof {
                    lemma_key_equiv_symm(s0[i as int].key, key@);
                    if i as int == s0.len() - 1 {
                        lemma_key_trichotomy(key@, s0[i as int].key);
                    }
                    lemma_removed_at(s0, key@, key.clock, i as int);
                }
                if e.0.clock == key.clock {
                    let _removed_entry = self.entries.remove(i);
                    proof {
                        assert(self@ =~= s0.remove(i as int));
                        lemma_wf_remove(s0, i as int);
                    }
                }
            },
            _ => {
                proof {
                    if key_equiv(key@, s0[i as int].key) {
                        lemma_key_equiv_symm(key@, s0[i as int].key);
                    }
                    lemma_removed_at(s0, key@, key.clock, i as int);
                }
            },
        }
    }

    /// The local-edit path: picks a fresh identifier strictly between
    /// `left` and `right`, tags it with the current clock, stores `value`
    /// under it, steps the clock, and returns the identifier for the
    /// caller to broadcast.  In the rare case that the picked path is
    /// already present, the slot is rewritten only when the stored clock
    /// is older; the clock steps and the identifier returns either way.
    pub fn insert(&mut self, site_id: u64, left: &Key, right: &Key, value: V) -> (k: Key)
        requires
            old(self).wf(),
            left.wf(),
            right.wf(),
            left@.len() < MAX_DEPTH,
            right@.len() < MAX_DEPTH,
            key_lt(left@, right@),
            key_equiv(right@, end_segs()) || key_lt(right@, end_segs()),
            old(self).clock_spec() < u64::MAX,
        ensures
            final(self).wf(),
            k.wf(),
            k.clock == old(self).clock_spec(),
            key_lt(left@, k@),
            key_lt(k@, right@),
            final(self)@ == inserted_local(old(self)@, k@, k.clock, value),
            final(self).clock_spec() == old(self).clock_spec() + 1,
            final(self).strategies_spec().len() >= old(self).strategies_spec().len(),
            forall|j: int|
                0 <= j < old(self).strategies_spec().len() ==> final(self).strategies_spec()[j]
                    == old(self).strategies_spec()[j],
            picked_in_window(left@, right@, final(self).strategies_spec(), k@),
            forall|j: int| 0 <= j < k@.len() - 1 ==> k@[j] == seg_at(left@, j),
            k@[k@.len() - 1].1 == Id::Site(site_id),
    {
        let key = left.pick(right, site_id, self.clock, &mut self.strategies);
        proof {
            // the fresh identifier lies strictly between the boundaries
            lemma_start_min(left@);
            lemma_key_trichotomy(start_segs(), left@);
            if key_equiv(start_segs(), left@) {
                lemma_key_equiv_lt_left(start_segs(), left@, key@);
            } else {
                lemma_key_lt_trans(start_segs(), left@, key@);
            }
            if key_equiv(right@, end_segs()) {
                lemma_key_equiv_lt_right(key@, right@, end_segs());
            } else {
                lemma_key_lt_trans(key@, right@, end_segs());
            }
        }
        let ghost s0 = self@;
        let i = self.find_index(&key);
        proof {
            self.lemma_find_bounds(key@, i as int);
        }
        let stored = key.clone();
        let e = &self.entries[i];
        match key_compare(&e.0, &key) {
            core::cmp::Ordering::Equal => {
                proof {
                    lemma_key_equiv_symm(s0[i as int].key, key@);
                    if i as int == s0.len() - 1 {
                        lemma_key_trichotomy(key@, s0[i as int].key);
                    }
                    lemma_inserted_local_at(s0, key@, key.clock, value, i as int);
                }
                if e.0.clock < key.clock {
                    let _evicted = self.entries.remove(i);
                    self.entries.insert(i, (stored, Some(value)));
                    proof {
                        assert(self@ =~= s0.update(
                            i as int,
                            entry(key@, key.clock, Some(value)),
                        ));
                        lemma_wf_update(s0, entry(key@, key.clock, Some(value)), i as int);
                    }
                }
            },
            _ => {
                proof {
                    if key_equiv(key@, s0[i as int].key) {
                        lemma_key_equiv_symm(key@, s0[i as int].key);
                    }
                    assert(key_lt(key@, s0[i as int].key));
                }
                self.entries.insert(i, (stored, Some(value)));
                proof {
                    assert(self@ =~= s0.insert(
                        i as int,
                        entry(key@, key.clock, Some(value)),
                    ));
                    lemma_inserted_local_at(s0, key@, key.clock, value, i as int);
                    assert forall|j: int| i <= j < s0.len() implies key_lt(
                        key@,
                        #[trigger] s0[j].key,
                    ) by {
                        if j > i {
                            lemma_key_lt_trans(key@, s0[i as int].key, s0[j].key);
                        }
                    }
                    lemma_wf_insert(s0, entry(key@, key.clock, Some(value)), i as int);
                }
            },
        }
        self.clock = self.clock + 1;
        key
    }

    /// All live values, in ascending identifier order; the two boundary
    /// slots never appear.
    pub fn iter(&self) -> (r: Vec<&V>)
        requires
            self.wf(),
        ensures
            r@.len() == self@.len() - 2,
            forall|j: int|
                0 <= j < r@.len() ==> self@[j + 1].value is Some && *(#[trigger] r@[j])
                    == self@[j + 1].value->0,
    {
        let mut out: Vec<&V> = Vec::new();
        let mut i: usize = 1;
        while i < self.entries.len() - 1
            invariant
                self.wf(),
                1 <= i <= self@.len() - 1,
                out@.len() == i - 1,
                forall|j: int|
                    0 <= j < out@.len() ==> self@[j + 1].value is Some && *(#[trigger] out@[j])
                        == self@[j + 1].value->0,
            decreases self@.len() - i,
        {
            let e = &self.entries[i];
            match &e.1 {
                Some(v) => {
                    out.push(v);
                },
                None => {
                    proof {
                        assert(self@[i as int].value == self.entries@[i as int].1);
                        assert(false);
                    }
                },
            }
            i = i + 1;
        }
        out
    }
}

} // verus!
