//! Position identifiers: their total order and the dense-allocation
//! algorithm that picks a fresh identifier strictly between two others.

use vstd::prelude::*;

verus! {

/// The origin of a path segment: either the marker reserved for the two
/// fixed boundary identifiers of a document, or the site that allocated
/// the segment.  `Sentinel` orders before every site.
#[derive(Clone, Copy, Debug, PartialEq, Eq, Structural, Hash)]
pub enum Id {
    Sentinel,
    Site(u64),
}

/// One step of an identifier's path: an index inside the level's width,
/// and the origin that allocated it.
pub type Segment = (u64, Id);

/// Strict order on origins: `Sentinel` comes first, sites follow in the
/// order of their numbers.
pub open spec fn id_lt(a: Id, b: Id) -> bool {
    match (a, b) {
        (Id::Sentinel, Id::Sentinel) => false,
        (Id::Sentinel, Id::Site(_)) => true,
        (Id::Site(_), Id::Sentinel) => false,
        (Id::Site(x), Id::Site(y)) => x < y,
    }
}

/// Strict order on segments: by index, then by origin.
pub open spec fn seg_lt(a: Segment, b: Segment) -> bool {
    a.0 < b.0 || (a.0 == b.0 && id_lt(a.1, b.1))
}

/// The segment of a path at depth `i`; a path too short to reach `i` is
/// read as continuing with `(0, Sentinel)`.
pub open spec fn seg_at(s: Seq<Segment>, i: int) -> Segment {
    if 0 <= i < s.len() {
        s[i]
    } else {
        (0u64, Id::Sentinel)
    }
}

/// The path with its first segment removed; the empty path stays empty.
pub open spec fn rest(s: Seq<Segment>) -> Seq<Segment> {
    if s.len() == 0 {
        s
    } else {
        s.drop_first()
    }
}

/// Strict lexicographic order on identifier paths.  A missing segment on
/// the shorter side is read as `(0, Sentinel)`, so paths of different
/// depth compare without special cases.
pub open spec fn key_lt(a: Seq<Segment>, b: Seq<Segment>) -> bool
    decreases a.len() + b.len(),
{
    if a.len() == 0 && b.len() == 0 {
        false
    } else if seg_lt(seg_at(a, 0), seg_at(b, 0)) {
        true
    } else {
        seg_at(a, 0) == seg_at(b, 0) && key_lt(rest(a), rest(b))
    }
}

/// Paths that compare as equal: segment for segment, with the shorter
/// side padded by `(0, Sentinel)`.
pub open spec fn key_equiv(a: Seq<Segment>, b: Seq<Segment>) -> bool
    decreases a.len() + b.len(),
{
    if a.len() == 0 && b.len() == 0 {
        true
    } else {
        seg_at(a, 0) == seg_at(b, 0) && key_equiv(rest(a), rest(b))
    }
}

/// Reading depth `j` of the rest of a path is reading depth `j + 1` of
/// the path itself.
pub proof fn lemma_seg_at_rest(s: Seq<Segment>, j: int)
    requires
        0 <= j,
    ensures
        seg_at(rest(s), j) == seg_at(s, j + 1),
{
}

/// No path compares below the empty path.
pub proof fn lemma_key_lt_empty(a: Seq<Segment>)
    ensures
        !key_lt(a, Seq::<Segment>::empty()),
    decreases a.len(),
{
    if a.len() != 0 {
        lemma_key_lt_empty(rest(a));
        assert(rest(Seq::<Segment>::empty()) == Seq::<Segment>::empty());
    }
}

/// The order on paths is asymmetric.
pub proof fn lemma_key_lt_asymm(a: Seq<Segment>, b: Seq<Segment>)
    requires
        key_lt(a, b),
    ensures
        !key_lt(b, a),
    decreases a.len() + b.len(),
{
    if !(a.len() == 0 && b.len() == 0) {
        if seg_at(a, 0) == seg_at(b, 0) {
            lemma_key_lt_asymm(rest(a), rest(b));
        }
    }
}

/// Exactly one of `a < b`, `a == b`, `b < a` holds of two paths.
pub proof fn lemma_key_trichotomy(a: Seq<Segment>, b: Seq<Segment>)
    ensures
        key_lt(a, b) || key_equiv(a, b) || key_lt(b, a),
        key_equiv(a, b) ==> !key_lt(a, b) && !key_lt(b, a),
    decreases a.len() + b.len(),
{
    if a.len() == 0 && b.len() == 0 {
    } else {
        lemma_key_trichotomy(rest(a), rest(b));
    }
}

/// The order on paths is transitive.
pub proof fn lemma_key_lt_trans(a: Seq<Segment>, b: Seq<Segment>, c: Seq<Segment>)
    requires
        key_lt(a, b),
        key_lt(b, c),
    ensures
        key_lt(a, c),
    decreases a.len() + b.len() + c.len(),
{
    let ha = seg_at(a, 0);
    let hb = seg_at(b, 0);
    let hc = seg_at(c, 0);
    if ha == hb && hb == hc {
        lemma_key_lt_trans(rest(a), rest(b), rest(c));
    } else {
        assert(seg_lt(ha, hb) || ha == hb);
        assert(seg_lt(hb, hc) || hb == hc);
        assert(seg_lt(ha, hc));
    }
}

/// Nothing orders below the start boundary's path.
pub proof fn lemma_start_min(a: Seq<Segment>)
    ensures
        !key_lt(a, start_segs()),
{
    if key_lt(a, start_segs()) {
        assert(seg_at(start_segs(), 0) == (0u64, Id::Sentinel));
        assert(rest(start_segs()) =~= Seq::<Segment>::empty());
        lemma_key_lt_empty(rest(a));
    }
}

/// Comparing as equal is reflexive.
pub proof fn lemma_key_equiv_refl(a: Seq<Segment>)
    ensures
        key_equiv(a, a),
    decreases a.len(),
{
    if a.len() != 0 {
        lemma_key_equiv_refl(rest(a));
    }
}

/// Comparing as equal is symmetric.
pub proof fn lemma_key_equiv_symm(a: Seq<Segment>, b: Seq<Segment>)
    requires
        key_equiv(a, b),
    ensures
        key_equiv(b, a),
    decreases a.len() + b.len(),
{
    if !(a.len() == 0 && b.len() == 0) {
        lemma_key_equiv_symm(rest(a), rest(b));
    }
}

/// Comparing as equal is transitive.
pub proof fn lemma_key_equiv_trans(a: Seq<Segment>, b: Seq<Segment>, c: Seq<Segment>)
    requires
        key_equiv(a, b),
        key_equiv(b, c),
    ensures
        key_equiv(a, c),
    decreases a.len() + b.len() + c.len(),
{
    if !(a.len() == 0 && b.len() == 0 && c.len() == 0) {
        lemma_key_equiv_trans(rest(a), rest(b), rest(c));
    }
}

/// A path equal to `a` sits below everything `a` sits below.
pub proof fn lemma_key_equiv_lt_left(a: Seq<Segment>, b: Seq<Segment>, c: Seq<Segment>)
    requires
        key_equiv(a, b),
        key_lt(b, c),
    ensures
        key_lt(a, c),
    decreases a.len() + b.len() + c.len(),
{
    if seg_at(b, 0) == seg_at(c, 0) {
        lemma_key_equiv_lt_left(rest(a), rest(b), rest(c));
    }
}

/// A path equal to `b` sits above everything `b` sits above.
pub proof fn lemma_key_equiv_lt_right(a: Seq<Segment>, b: Seq<Segment>, c: Seq<Segment>)
    requires
        key_lt(a, b),
        key_equiv(b, c),
    ensures
        key_lt(a, c),
    decreases a.len() + b.len() + c.len(),
{
    if seg_at(a, 0) == seg_at(b, 0) {
        lemma_key_equiv_lt_right(rest(a), rest(b), rest(c));
    }
}

/// Two paths that agree below depth `i` and differ in `a`'s favor at
/// depth `i` stand in the order, whatever follows deeper.
pub proof fn lemma_agree_then_lt(a: Seq<Segment>, b: Seq<Segment>, i: int)
    requires
        0 <= i,
        forall|j: int| 0 <= j < i ==> seg_at(a, j) == seg_at(b, j),
        seg_lt(seg_at(a, i), seg_at(b, i)),
    ensures
        key_lt(a, b),
    decreases i,
{
    if i == 0 {
    } else {
        assert forall|j: int| 0 <= j < i - 1 implies seg_at(rest(a), j) == seg_at(rest(b), j) by {
            lemma_seg_at_rest(a, j);
            lemma_seg_at_rest(b, j);
        }
        lemma_seg_at_rest(a, i - 1);
        lemma_seg_at_rest(b, i - 1);
        lemma_agree_then_lt(rest(a), rest(b), i - 1);
        assert(seg_at(a, 0) == seg_at(b, 0));
    }
}

/// The part of a path from depth `i` down; past the end it is empty.
pub open spec fn suffix(s: Seq<Segment>, i: int) -> Seq<Segment> {
    if i >= s.len() {
        Seq::<Segment>::empty()
    } else {
        s.skip(i)
    }
}

/// Dropping the head of the suffix at `i` gives the suffix at `i + 1`.
pub proof fn lemma_suffix_rest(s: Seq<Segment>, i: int)
    requires
        0 <= i,
    ensures
        rest(suffix(s, i)) == suffix(s, i + 1),
{
    assert(rest(suffix(s, i)) =~= suffix(s, i + 1));
}

/// The head of the suffix at `i` is the segment at depth `i`.
pub proof fn lemma_suffix_head(s: Seq<Segment>, i: int)
    requires
        0 <= i,
    ensures
        seg_at(suffix(s, i), 0) == seg_at(s, i),
{
}

/// The number of slots the virtual order offers at depth 0.
pub const INITIAL_WIDTH: u64 = 5;

/// Width of the window, at the favoured edge of a gap, from which a fresh
/// index is drawn.
pub const STEP: u64 = 2;

/// The deepest level an identifier may reach; keeps every level's width
/// inside a machine word.
pub const MAX_DEPTH: usize = 56;

/// The number of slots the virtual order offers at a depth level; it
/// doubles with each level.
pub open spec fn spec_width(level: nat) -> int
    decreases level,
{
    if level == 0 {
        INITIAL_WIDTH as int
    } else {
        2 * spec_width((level - 1) as nat)
    }
}

/// Widths are at least the width of level 0.
pub proof fn lemma_width_pos(level: nat)
    ensures
        spec_width(level) >= INITIAL_WIDTH,
    decreases level,
{
    if level != 0 {
        lemma_width_pos((level - 1) as nat);
    }
}

/// Widths grow with depth.
pub proof fn lemma_width_mono(i: nat, j: nat)
    requires
        i <= j,
    ensures
        spec_width(i) <= spec_width(j),
    decreases j,
{
    if i < j {
        lemma_width_mono(i, (j - 1) as nat);
        lemma_width_pos((j - 1) as nat);
    }
}

/// A width is its level's power of two, scaled by the width of level 0.
pub proof fn lemma_width_pow2(level: nat)
    ensures
        spec_width(level) == INITIAL_WIDTH * vstd::arithmetic::power2::pow2(level),
    decreases level,
{
    if level == 0 {
        vstd::arithmetic::power2::lemma2_to64();
    } else {
        lemma_width_pow2((level - 1) as nat);
        vstd::arithmetic::power2::lemma_pow2_unfold(level);
    }
}

/// Every width up to the deepest level fits comfortably in a machine word.
pub proof fn lemma_width_bound(level: nat)
    requires
        level <= MAX_DEPTH,
    ensures
        spec_width(level) < 0x0800_0000_0000_0000,
{
    lemma_width_mono(level, MAX_DEPTH as nat);
    lemma_width_pow2(MAX_DEPTH as nat);
    vstd::arithmetic::power2::lemma2_to64_rest();
}

/// Computes the width of a depth level.
pub fn width(level: usize) -> (w: u64)
    requires
        level <= MAX_DEPTH,
    ensures
        w == spec_width(level as nat),
{
    let mut w: u64 = INITIAL_WIDTH;
    let mut i: usize = 0;
    while i < level
        invariant
            i <= level,
            level <= MAX_DEPTH,
            w == spec_width(i as nat),
        decreases level - i,
    {
        proof {
            lemma_width_mono((i + 1) as nat, MAX_DEPTH as nat);
            lemma_width_bound(MAX_DEPTH as nat);
        }
        w = w * 2;
        i = i + 1;
    }
    w
}

/// A well-formed identifier path: non-empty, not deeper than the deepest
/// level, and with every index inside its level's width.
pub open spec fn segs_wf(s: Seq<Segment>) -> bool {
    &&& 1 <= s.len() <= MAX_DEPTH
    &&& forall|i: int| 0 <= i < s.len() ==> #[trigger] s[i].0 <= spec_width(i as nat)
}

/// The path of the fixed identifier before every element of a document.
pub open spec fn start_segs() -> Seq<Segment> {
    seq![(0u64, Id::Sentinel)]
}

/// The path of the fixed identifier after every element of a document.
pub open spec fn end_segs() -> Seq<Segment> {
    seq![(INITIAL_WIDTH, Id::Sentinel)]
}

/// A position identifier: a path through the virtual dense order, plus
/// the allocating document's operation clock at creation time.  The clock
/// takes no part in comparison; it only guards against a stale write when
/// the very same path is reused.
#[derive(Debug, Hash)]
pub struct Key {
    pub position: Vec<Segment>,
    pub clock: u64,
}

impl View for Key {
    type V = Seq<Segment>;

    open spec fn view(&self) -> Seq<Segment> {
        self.position@
    }
}

impl Key {
    /// A well-formed identifier.
    pub open spec fn wf(&self) -> bool {
        segs_wf(self@)
    }
}

/// The sticky bias a depth level uses when it allocates a fresh index:
/// cluster near the low end of the gap, or near the high end.
#[derive(Clone, Copy, Debug, PartialEq, Eq, Structural, Hash)]
pub enum InsertionStrategy {
    Front,
    Back,
}

/// Relies on rand::random_range: returns a value of the given range,
/// drawn uniformly from the thread-local generator, and panics only when
/// the range is empty.
#[verifier::external_body]
fn random_u64_below(n: u64) -> (r: u64)
    requires
        n > 0,
    ensures
        r < n,
{
    rand::random_range(0..n)
}

/// Compares two origins.
fn id_less(a: Id, b: Id) -> (r: bool)
    ensures
        r == id_lt(a, b),
{
    match (a, b) {
        (Id::Sentinel, Id::Site(_)) => true,
        (Id::Site(x), Id::Site(y)) => x < y,
        _ => false,
    }
}

/// Draws a fresh index from the half-open gap `[lo, hi)`, clustered in a
/// window of `STEP` slots at the edge the strategy favours.
fn pick_index(lo: u64, hi: u64, strategy: InsertionStrategy) -> (r: u64)
    requires
        lo < hi,
    ensures
        lo <= r < hi,
        strategy == InsertionStrategy::Front ==> r < lo + STEP,
        strategy == InsertionStrategy::Back ==> r + STEP >= hi,
{
    let span = hi - lo;
    let window = if span > STEP {
        STEP
    } else {
        span
    };
    match strategy {
        InsertionStrategy::Front => lo + random_u64_below(window),
        InsertionStrategy::Back => (hi - window) + random_u64_below(window),
    }
}

/// Draws the bias of a depth level seen for the first time: a uniform
/// choice between the two edges.
pub(crate) fn initial_strategy() -> InsertionStrategy {
    let draw = random_u64_below(2);
    if draw == 0 {
        InsertionStrategy::Front
    } else {
        InsertionStrategy::Back
    }
}

/// Looks up the bias of a depth level, assigning biases to levels seen
/// for the first time by random choice.  A level's bias, once assigned,
/// never changes.
fn get_strategy(strategies: &mut Vec<InsertionStrategy>, level: usize) -> (s: InsertionStrategy)
    requires
        level < usize::MAX,
    ensures
        final(strategies)@.len() >= level + 1,
        final(strategies)@.len() >= old(strategies)@.len(),
        forall|j: int|
            0 <= j < old(strategies)@.len() ==> final(strategies)@[j] == old(strategies)@[j],
        old(strategies)@.len() >= level + 1 ==> final(strategies)@ == old(strategies)@,
        s == final(strategies)@[level as int],
{
    while strategies.len() <= level
        invariant
            level < usize::MAX,
            strategies@.len() >= old(strategies)@.len(),
            forall|j: int| 0 <= j < old(strategies)@.len() ==> strategies@[j] == old(
                strategies,
            )@[j],
            strategies@.len() <= level + 1 || strategies@ == old(strategies)@,
        decreases level + 1 - strategies@.len(),
    {
        let bias = initial_strategy();
        strategies.push(bias);
    }
    strategies[level]
}

/// The index that bounds a fresh allocation at depth `d` from above:
/// `r`'s own index there, or the level's width where `r` has run out of
/// segments.
pub open spec fn rbound(r: Seq<Segment>, d: int) -> int {
    if 0 <= d < r.len() {
        r[d].0 as int
    } else {
        spec_width(d as nat)
    }
}

/// How the trailing segment of a freshly picked path `k` relates to the
/// gap it was allocated in: either it reuses the left bound's index (the
/// tie broken by the site alone), or it lies strictly inside the gap, in
/// the window of `STEP` slots at the edge the level's sticky bias
/// favours.
pub open spec fn picked_in_window(
    l: Seq<Segment>,
    r: Seq<Segment>,
    strats: Seq<InsertionStrategy>,
    k: Seq<Segment>,
) -> bool {
    let d = k.len() - 1;
    let lo = seg_at(l, d).0 as int;
    let hi = rbound(r, d);
    let idx = k[d].0 as int;
    ||| idx == lo
    ||| {
        &&& lo + 1 <= idx < hi
        &&& d < strats.len()
        &&& (strats[d] == InsertionStrategy::Front ==> idx < lo + 1 + STEP)
        &&& (strats[d] == InsertionStrategy::Back ==> idx + STEP >= hi)
    }
}

impl Key {
    /// Walks the two bounding paths level by level and returns a fresh
    /// identifier strictly between them: the first level with a free slot
    /// ends the walk with a segment drawn near the edge its sticky bias
    /// favours; a level where the bounds are adjacent and the requesting
    /// site orders above the left origin reuses the left index; any other
    /// level copies the left segment and descends.
    pub(crate) fn pick(
        &self,
        other: &Key,
        site: u64,
        clock: u64,
        strategies: &mut Vec<InsertionStrategy>,
    ) -> (k: Key)
        requires
            self.wf(),
            other.wf(),
            self@.len() < MAX_DEPTH,
            other@.len() < MAX_DEPTH,
            key_lt(self@, other@),
        ensures
            k.wf(),
            key_lt(self@, k@),
            key_lt(k@, other@),
            k.clock == clock,
            final(strategies)@.len() >= old(strategies)@.len(),
            forall|j: int|
                0 <= j < old(strategies)@.len() ==> final(strategies)@[j] == old(strategies)@[j],
            forall|j: int| 0 <= j < k@.len() - 1 ==> k@[j] == seg_at(self@, j),
            k@[k@.len() - 1].1 == Id::Site(site),
            picked_in_window(self@, other@, final(strategies)@, k@),
    {
        let mut ret: Vec<Segment> = Vec::new();
        let mut level: usize = 0;
        // whether the segments copied so far already put the result
        // strictly below `other`, and the depth where that was decided
        let ghost mut decided: bool = false;
        let ghost mut dd: int = 0;

        proof {
            assert(suffix(self@, 0) =~= self@);
            assert(suffix(other@, 0) =~= other@);
        }
        loop
            invariant_except_break
                self.wf(),
                other.wf(),
                self@.len() < MAX_DEPTH,
                other@.len() < MAX_DEPTH,
                key_lt(self@, other@),
                level <= self@.len() || level <= other@.len(),
                ret@.len() == level,
                forall|j: int| 0 <= j < level ==> ret@[j] == seg_at(self@, j),
                strategies@.len() >= old(strategies)@.len(),
                forall|j: int|
                    0 <= j < old(strategies)@.len() ==> strategies@[j] == old(strategies)@[j],
                !decided ==> {
                    &&& (forall|j: int| 0 <= j < level ==> seg_at(self@, j) == seg_at(other@, j))
                    &&& key_lt(suffix(self@, level as int), suffix(other@, level as int))
                },
                decided ==> {
                    &&& 0 <= dd < level
                    &&& (forall|j: int| 0 <= j < dd ==> ret@[j] == seg_at(other@, j))
                    &&& seg_lt(ret@[dd], seg_at(other@, dd))
                },
            ensures
                1 <= ret@.len() <= MAX_DEPTH,
                forall|j: int| 0 <= j < ret@.len() - 1 ==> ret@[j] == seg_at(self@, j),
                forall|j: int| 0 <= j < ret@.len() ==> ret@[j].0 <= spec_width(j as nat),
                ret@[ret@.len() - 1].1 == Id::Site(site),
                key_lt(self@, ret@),
                key_lt(ret@, other@),
                strategies@.len() >= old(strategies)@.len(),
                forall|j: int|
                    0 <= j < old(strategies)@.len() ==> strategies@[j] == old(strategies)@[j],
                picked_in_window(self@, other@, strategies@, ret@),
            decreases MAX_DEPTH - level,
        {
            let lseg = if level < self.position.len() {
                self.position[level]
            } else {
                (0u64, Id::Sentinel)
            };
            let rpos = if level < other.position.len() {
                other.position[level].0
            } else {
                width(level)
            };
            proof {
                assert(lseg == seg_at(self@, level as int));
                assert(rpos == rbound(other@, level as int));
                lemma_width_bound(level as nat);
                if !decided {
                    // the right bound still has a segment at this level:
                    // nothing orders below the empty path
                    lemma_suffix_head(self@, level as int);
                    lemma_suffix_head(other@, level as int);
                    if level >= other@.len() {
                        lemma_key_lt_empty(suffix(self@, level as int));
                        assert(false);
                    }
                }
            }
            if lseg.0 + 1 < rpos {
                // a free slot: draw an index near the favoured edge
                let strategy = get_strategy(strategies, level);
                let pos = pick_index(lseg.0 + 1, rpos, strategy);
                ret.push((pos, Id::Site(site)));
                proof {
                    lemma_agree_then_lt(self@, ret@, level as int);
                    if decided {
                        lemma_agree_then_lt(ret@, other@, dd);
                    } else {
                        lemma_agree_then_lt(ret@, other@, level as int);
                    }
                    assert forall|j: int| 0 <= j < ret@.len() implies ret@[j].0 <= spec_width(
                        j as nat,
                    ) by {
                        lemma_width_pos(j as nat);
                        if j < level {
                            assert(ret@[j] == seg_at(self@, j));
                            if 0 <= j < self@.len() {
                                assert(self@[j].0 <= spec_width(j as nat));
                            }
                        } else {
                            assert(ret@[j] == (pos, Id::Site(site)));
                            if (level as int) < other@.len() {
                                assert(other@[level as int].0 <= spec_width(level as nat));
                            }
                            assert(pos < rbound(other@, level as int));
                        }
                    }
                }
                break ;
            } else if lseg.0 + 1 == rpos && id_less(lseg.1, Id::Site(site)) {
                // adjacent indices: the requesting site's identity alone
                // keeps the new path above the left bound
                ret.push((lseg.0, Id::Site(site)));
                proof {
                    lemma_agree_then_lt(self@, ret@, level as int);
                    if decided {
                        lemma_agree_then_lt(ret@, other@, dd);
                    } else {
                        lemma_agree_then_lt(ret@, other@, level as int);
                    }
                    assert forall|j: int| 0 <= j < ret@.len() implies ret@[j].0 <= spec_width(
                        j as nat,
                    ) by {
                        lemma_width_pos(j as nat);
                        if j < level {
                            assert(ret@[j] == seg_at(self@, j));
                            if 0 <= j < self@.len() {
                                assert(self@[j].0 <= spec_width(j as nat));
                            }
                        } else {
                            assert(ret@[j] == (lseg.0, Id::Site(site)));
                            if (level as int) < self@.len() {
                                assert(self@[level as int].0 <= spec_width(level as nat));
                            }
                        }
                    }
                }
                break ;
            } else {
                // no slot here: keep the left segment and descend
                proof {
                    if level >= self@.len() && level >= other@.len() {
                        lemma_width_pos(level as nat);
                        assert(false);
                    }
                    if !decided {
                        let lh = seg_at(self@, level as int);
                        let rh = seg_at(other@, level as int);
                        assert(seg_lt(lh, rh) || (lh == rh && key_lt(
                            rest(suffix(self@, level as int)),
                            rest(suffix(other@, level as int)),
                        )));
                        if lh == rh {
                            lemma_suffix_rest(self@, level as int);
                            lemma_suffix_rest(other@, level as int);
                        } else {
                            decided = true;
                            dd = level as int;
                        }
                    }
                }
                ret.push(lseg);
                level = level + 1;
            }
        }
        Key { position: ret, clock }
    }
}

/// Two paths that agree at every depth either reaches compare as equal.
pub proof fn lemma_agree_equiv(a: Seq<Segment>, b: Seq<Segment>, n: int)
    requires
        a.len() <= n,
        b.len() <= n,
        forall|j: int| 0 <= j < n ==> seg_at(a, j) == seg_at(b, j),
    ensures
        key_equiv(a, b),
    decreases a.len() + b.len(),
{
    if !(a.len() == 0 && b.len() == 0) {
        assert(seg_at(a, 0) == seg_at(b, 0));
        assert forall|j: int| 0 <= j < n - 1 implies seg_at(rest(a), j) == seg_at(rest(b), j) by {
            lemma_seg_at_rest(a, j);
            lemma_seg_at_rest(b, j);
        }
        lemma_agree_equiv(rest(a), rest(b), n - 1);
    }
}

/// Compares two identifiers segment for segment, the shorter path read
/// as padded with `(0, Sentinel)`.
pub fn key_compare(a: &Key, b: &Key) -> (r: core::cmp::Ordering)
    ensures
        r == core::cmp::Ordering::Less <==> key_lt(a@, b@),
        r == core::cmp::Ordering::Equal <==> key_equiv(a@, b@),
        r == core::cmp::Ordering::Greater <==> key_lt(b@, a@),
{
    let alen = a.position.len();
    let blen = b.position.len();
    let n = if alen > blen {
        alen
    } else {
        blen
    };
    let mut i: usize = 0;
    while i < n
        invariant
            n == if a@.len() > b@.len() {
                a@.len()
            } else {
                b@.len()
            },
            i <= n,
            forall|j: int| 0 <= j < i ==> seg_at(a@, j) == seg_at(b@, j),
        decreases n - i,
    {
        let sa = if i < a.position.len() {
            a.position[i]
        } else {
            (0u64, Id::Sentinel)
        };
        let sb = if i < b.position.len() {
            b.position[i]
        } else {
            (0u64, Id::Sentinel)
        };
        proof {
            assert(sa == seg_at(a@, i as int));
            assert(sb == seg_at(b@, i as int));
        }
        if sa.0 < sb.0 || (sa.0 == sb.0 && id_less(sa.1, sb.1)) {
            proof {
                lemma_agree_then_lt(a@, b@, i as int);
                lemma_key_trichotomy(a@, b@);
                lemma_key_lt_asymm(a@, b@);
            }
            return core::cmp::Ordering::Less;
        }
        if sb.0 < sa.0 || (sa.0 == sb.0 && id_less(sb.1, sa.1)) {
            proof {
                lemma_agree_then_lt(b@, a@, i as int);
                lemma_key_trichotomy(a@, b@);
                lemma_key_lt_asymm(b@, a@);
            }
            return core::cmp::Ordering::Greater;
        }
        i = i + 1;
    }
    proof {
        lemma_agree_equiv(a@, b@, n as int);
        lemma_key_trichotomy(a@, b@);
    }
    core::cmp::Ordering::Equal
}

impl Clone for Key {
    /// An identifier clones to one with the same path and clock.
    fn clone(&self) -> (k: Self)
        ensures
            k@ == self@,
            k.clock == self.clock,
    {
        let mut position: Vec<Segment> = Vec::new();
        let mut i: usize = 0;
        while i < self.position.len()
            invariant
                i <= self@.len(),
                position@ == self@.take(i as int),
            decreases self@.len() - i,
        {
            position.push(self.position[i]);
            proof {
                assert(position@ =~= self@.take(i + 1));
            }
            i = i + 1;
        }
        proof {
            assert(self@.take(self@.len() as int) =~= self@);
        }
        Key { position, clock: self.clock }
    }
}

impl PartialEq for Key {
    /// Two identifiers are equal exactly when their paths are equal,
    /// segment for segment; the clock takes no part.
    fn eq(&self, other: &Self) -> (r: bool) {
        if self.position.len() != other.position.len() {
            proof {
                assert(self.position@ != other.position@);
            }
            return false;
        }
        let mut i: usize = 0;
        while i < self.position.len()
            invariant
                self@.len() == other@.len(),
                i <= self@.len(),
                forall|j: int| 0 <= j < i ==> self@[j] == other@[j],
            decreases self@.len() - i,
        {
            let sa = self.position[i];
            let sb = other.position[i];
            if sa.0 != sb.0 || sa.1 != sb.1 {
                proof {
                    assert(self@[i as int] != other@[i as int]);
                }
                return false;
            }
            i = i + 1;
        }
        proof {
            assert(self.position@ =~= other.position@);
        }
        true
    }
}

impl vstd::std_specs::cmp::PartialEqSpecImpl for Key {
    open spec fn obeys_eq_spec() -> bool {
        true
    }

    open spec fn eq_spec(&self, other: &Key) -> bool {
        self.position@ == other.position@
    }
}

impl PartialOrd for Key {
    /// Identifiers are totally ordered by their paths.
    fn partial_cmp(&self, other: &Self) -> (r: Option<core::cmp::Ordering>) {
        proof {
            lemma_key_trichotomy(self@, other@);
            if key_lt(self@, other@) {
                lemma_key_lt_asymm(self@, other@);
            }
        }
        Some(key_compare(self, other))
    }
}

impl vstd::std_specs::cmp::PartialOrdSpecImpl for Key {
    open spec fn obeys_partial_cmp_spec() -> bool {
        true
    }

    open spec fn partial_cmp_spec(&self, other: &Key) -> Option<core::cmp::Ordering> {
        if key_lt(self@, other@) {
            Some(core::cmp::Ordering::Less)
        } else if key_lt(other@, self@) {
            Some(core::cmp::Ordering::Greater)
        } else {
            Some(core::cmp::Ordering::Equal)
        }
    }
}

} // verus!
