//! Ranges are constraints defining sets of versions.
//!
//! A range is kept as an ordered list of half-open intervals `[lo, hi)`.
//! Only the last interval may be unbounded. The intervals are never empty,
//! they are sorted, and two neighbours never touch, so that a set of versions
//! has exactly one list of intervals.

use crate::version::Version;
use vstd::prelude::*;
use vstd::std_specs::cmp::PartialEqSpecImpl;
use vstd::string::StringExecFns;

verus! {

/// An interval of versions, its lower bound included, its upper bound (if
/// any) excluded.
pub type Interval<V> = (V, Option<V>);

/// The positions of the two bounds of an interval.
pub type Bounds = (nat, Option<nat>);

/// Whether the version at position `v` lies in the interval.
pub open spec fn within<V: Version>(seg: Interval<V>, v: nat) -> bool {
    seg.0@ <= v && (seg.1 matches Some(hi) ==> v < hi@)
}

/// Whether one of the intervals from index `from` on holds the position `v`.
pub open spec fn covers_from<V: Version>(segs: Seq<Interval<V>>, from: int, v: nat) -> bool {
    exists|k: int| from <= k < segs.len() && #[trigger] within(segs[k], v)
}

/// Whether one of the intervals holds the position `v`.
pub open spec fn covers<V: Version>(segs: Seq<Interval<V>>, v: nat) -> bool {
    covers_from(segs, 0, v)
}

/// Whether the interval holds at least one position.
pub open spec fn inhabited<V: Version>(seg: Interval<V>) -> bool {
    seg.1 matches Some(hi) ==> seg.0@ < hi@
}

/// Whether the first interval is bounded and ends strictly below the start of
/// the second.
pub open spec fn apart<V: Version>(first: Interval<V>, second: Interval<V>) -> bool {
    first.1 matches Some(hi) && hi@ < second.0@
}

/// The canonical form: no interval is empty, every interval but the last is
/// bounded, and each one ends strictly below the start of all later ones.
pub open spec fn canonical<V: Version>(segs: Seq<Interval<V>>) -> bool {
    &&& forall|k: int| 0 <= k < segs.len() ==> inhabited(#[trigger] segs[k])
    &&& forall|i: int, j: int|
        #![trigger segs[i], segs[j]]
        0 <= i < j < segs.len() ==> apart(segs[i], segs[j])
}

/// The positions of the bounds of one interval.
pub open spec fn bounds_of<V: Version>(seg: Interval<V>) -> Bounds {
    (
        seg.0@,
        match seg.1 {
            Some(hi) => Some(hi@),
            None => None,
        },
    )
}

/// Adding an interval at the end adds the positions it holds.
proof fn lemma_covers_push<V: Version>(segs: Seq<Interval<V>>, seg: Interval<V>, v: nat)
    ensures
        covers(segs.push(seg), v) <==> (covers(segs, v) || within(seg, v)),
{
    let more = segs.push(seg);
    if covers(segs, v) {
        let k = choose|k: int| 0 <= k < segs.len() && within(segs[k], v);
        assert(within(more[k], v));
    }
    if within(seg, v) {
        assert(within(more[segs.len() as int], v));
    }
    if covers(more, v) {
        let k = choose|k: int| 0 <= k < more.len() && within(more[k], v);
        if k < segs.len() {
            assert(within(segs[k], v));
        }
    }
}

/// The positions held from index `from` on are not below the start of the
/// interval at `from`.
proof fn lemma_covers_from_low<V: Version>(segs: Seq<Interval<V>>, from: int, v: nat)
    requires
        canonical(segs),
        0 <= from,
        covers_from(segs, from, v),
    ensures
        from < segs.len(),
        segs[from].0@ <= v,
{
    let k = choose|k: int| from <= k < segs.len() && within(segs[k], v);
    if k > from {
        assert(segs[from].1 is Some);
    }
}

/// What is held from index `from` on is held by the interval at `from` or
/// from the next index on.
proof fn lemma_covers_from_step<V: Version>(segs: Seq<Interval<V>>, from: int, v: nat)
    requires
        0 <= from < segs.len(),
    ensures
        covers_from(segs, from, v) <==> (within(segs[from], v) || covers_from(segs, from + 1, v)),
{
    if covers_from(segs, from, v) {
        let k = choose|k: int| from <= k < segs.len() && within(segs[k], v);
        if k > from {
            assert(covers_from(segs, from + 1, v));
        }
    }
    if covers_from(segs, from + 1, v) {
        let k = choose|k: int| from + 1 <= k < segs.len() && within(segs[k], v);
        assert(within(segs[k], v));
    }
}

/// What is held from some index on is held by the whole list.
proof fn lemma_covers_from_all<V: Version>(segs: Seq<Interval<V>>, from: int, v: nat)
    requires
        0 <= from,
        covers_from(segs, from, v),
    ensures
        covers(segs, v),
{
    let k = choose|k: int| from <= k < segs.len() && within(segs[k], v);
    assert(within(segs[k], v));
}

/// The positions held by a list followed by the tail of another one.
proof fn lemma_covers_concat<V: Version>(
    a: Seq<Interval<V>>,
    b: Seq<Interval<V>>,
    from: int,
    v: nat,
)
    requires
        0 <= from <= b.len(),
    ensures
        covers(a + b.subrange(from, b.len() as int), v) <==> (covers(a, v) || covers_from(
            b,
            from,
            v,
        )),
{
    let tail = b.subrange(from, b.len() as int);
    let all = a + tail;
    if covers(a, v) {
        let k = choose|k: int| 0 <= k < a.len() && within(a[k], v);
        assert(within(all[k], v));
    }
    if covers_from(b, from, v) {
        let k = choose|k: int| from <= k < b.len() && within(b[k], v);
        assert(all[a.len() + (k - from)] == b[k]);
        assert(within(all[a.len() + (k - from)], v));
    }
    if covers(all, v) {
        let k = choose|k: int| 0 <= k < all.len() && within(all[k], v);
        if k < a.len() {
            assert(within(a[k], v));
        } else {
            assert(all[k] == b[from + (k - a.len())]);
            assert(within(b[from + (k - a.len())], v));
        }
    }
}

/// A canonical list followed by the tail of another one is canonical when
/// the first list ends below the start of that tail.
proof fn lemma_canonical_concat<V: Version>(a: Seq<Interval<V>>, b: Seq<Interval<V>>, from: int)
    requires
        canonical(a),
        canonical(b),
        0 <= from <= b.len(),
        from < b.len() ==> forall|k: int|
            0 <= k < a.len() ==> ((#[trigger] a[k]).1 matches Some(h) && h@ < b[from].0@),
    ensures
        canonical(a + b.subrange(from, b.len() as int)),
{
    let tail = b.subrange(from, b.len() as int);
    let all = a + tail;
    assert(all.len() == a.len() + b.len() - from);
    if from == b.len() {
        assert(all =~= a);
    } else {
        assert forall|k: int| 0 <= k < all.len() implies inhabited(#[trigger] all[k]) by {
            if k >= a.len() {
                assert(all[k] == b[from + (k - a.len())]);
            } else {
                assert(all[k] == a[k]);
            }
        }
        assert forall|i: int, j: int|
            #![trigger all[i], all[j]]
            0 <= i < j < all.len() implies apart(all[i], all[j]) by {
            if j >= a.len() {
                let jb = from + (j - a.len());
                assert(all[j] == b[jb]);
                if i >= a.len() {
                    let ib = from + (i - a.len());
                    assert(all[i] == b[ib]);
                } else {
                    assert(all[i] == a[i]);
                    if jb > from {
                        assert(apart(b[from], b[jb]));
                    }
                }
            } else {
                assert(all[i] == a[i]);
                assert(all[j] == a[j]);
            }
        }
    }
}

/// In a list of inhabited intervals of which each is apart from the next,
/// each is apart from all later ones.
proof fn lemma_apart_chain<V: Version>(segs: Seq<Interval<V>>, a: int, b: int)
    requires
        0 <= a < b < segs.len(),
        forall|k: int| 0 <= k < segs.len() ==> inhabited(#[trigger] segs[k]),
        forall|k: int| 0 < k < segs.len() ==> #[trigger] apart(segs[k - 1], segs[k]),
    ensures
        apart(segs[a], segs[b]),
    decreases b - a,
{
    assert(apart(segs[b - 1], segs[b]));
    if a < b - 1 {
        lemma_apart_chain(segs, a, b - 1);
        assert(inhabited(segs[b - 1]));
    }
}

/// In two canonical lists that hold the same positions and agree below index
/// `m`, the second has an interval at `m` whenever the first has one, and that
/// interval starts no later.
proof fn lemma_next_start<V: Version>(a: Seq<Interval<V>>, b: Seq<Interval<V>>, m: int)
    requires
        canonical(a),
        canonical(b),
        forall|v: nat| covers(a, v) <==> covers(b, v),
        0 <= m < a.len(),
        forall|k: int| 0 <= k < m && k < b.len() ==> bounds_of(a[k]) == bounds_of(#[trigger] b[k]),
    ensures
        m < b.len(),
        b[m].0@ <= a[m].0@,
{
    let v = a[m].0@;
    assert(inhabited(a[m]));
    assert(within(a[m], v));
    assert(covers(b, v));
    let kb = choose|k: int| 0 <= k < b.len() && within(b[k], v);
    if kb < m {
        assert(apart(a[kb], a[m]));
        assert(bounds_of(a[kb]) == bounds_of(b[kb]));
    } else if kb > m {
        assert(apart(b[m], b[kb]));
        assert(inhabited(b[m]));
    }
}

/// In two canonical lists that hold the same positions, two intervals at the
/// same index that start together are such that the second ends no later than
/// the first.
proof fn lemma_next_end<V: Version>(a: Seq<Interval<V>>, b: Seq<Interval<V>>, m: int)
    requires
        canonical(a),
        canonical(b),
        forall|v: nat| covers(a, v) <==> covers(b, v),
        0 <= m < a.len(),
        m < b.len(),
        a[m].0@ == b[m].0@,
    ensures
        a[m].1 matches Some(h) ==> (b[m].1 matches Some(g) && g@ <= h@),
{
    if let Some(h) = a[m].1 {
        let v = h@;
        assert(inhabited(a[m]));
        assert forall|k: int| 0 <= k < a.len() implies !within(#[trigger] a[k], v) by {
            if k < m {
                assert(apart(a[k], a[m]));
            } else if k > m {
                assert(apart(a[m], a[k]));
            }
        }
        assert(!covers(a, v));
        assert(!within(b[m], v));
    }
}

/// Whether two lists both have an interval at index `m`, with the same
/// bounds, or both have none.
spec fn agree_at<V: Version>(a: Seq<Interval<V>>, b: Seq<Interval<V>>, m: int) -> bool {
    &&& (m < a.len()) <==> (m < b.len())
    &&& m < a.len() ==> bounds_of(a[m]) == bounds_of(b[m])
}

/// Two canonical lists that hold the same positions and agree below index
/// `m` agree at `m`.
proof fn lemma_same_at<V: Version>(a: Seq<Interval<V>>, b: Seq<Interval<V>>, m: int)
    requires
        canonical(a),
        canonical(b),
        forall|v: nat| covers(a, v) <==> covers(b, v),
        0 <= m,
        forall|j: int| 0 <= j < m ==> #[trigger] agree_at(a, b, j),
    ensures
        agree_at(a, b, m),
{
    assert forall|j: int| 0 <= j < m && j < b.len() implies bounds_of(a[j]) == bounds_of(
        #[trigger] b[j],
    ) by {
        assert(agree_at(a, b, j));
    }
    assert forall|j: int| 0 <= j < m && j < a.len() implies bounds_of(b[j]) == bounds_of(
        #[trigger] a[j],
    ) by {
        assert(agree_at(a, b, j));
    }
    if m < a.len() {
        lemma_next_start(a, b, m);
    }
    if m < b.len() {
        lemma_next_start(b, a, m);
    }
    if m < a.len() {
        lemma_next_end(a, b, m);
        lemma_next_end(b, a, m);
    }
}

/// Two canonical lists that hold the same positions agree at every index
/// below `k`.
proof fn lemma_same_prefix<V: Version>(a: Seq<Interval<V>>, b: Seq<Interval<V>>, k: nat)
    requires
        canonical(a),
        canonical(b),
        forall|v: nat| covers(a, v) <==> covers(b, v),
    ensures
        forall|m: int| 0 <= m < k ==> #[trigger] agree_at(a, b, m),
    decreases k,
{
    if k > 0 {
        lemma_same_prefix(a, b, (k - 1) as nat);
        lemma_same_at(a, b, k - 1);
    }
}

/// A set of versions has one canonical list of intervals only.
proof fn lemma_canonical_unique<V: Version>(a: Seq<Interval<V>>, b: Seq<Interval<V>>)
    requires
        canonical(a),
        canonical(b),
        forall|v: nat| covers(a, v) <==> covers(b, v),
    ensures
        a.map_values(|seg: Interval<V>| bounds_of(seg)) == b.map_values(
            |seg: Interval<V>| bounds_of(seg),
        ),
{
    lemma_same_prefix(a, b, a.len() + b.len() + 1);
    let ma = a.map_values(|seg: Interval<V>| bounds_of(seg));
    let mb = b.map_values(|seg: Interval<V>| bounds_of(seg));
    assert(a.len() == b.len()) by {
        assert(agree_at(a, b, a.len() as int));
        assert(agree_at(a, b, b.len() as int));
    }
    assert forall|m: int| 0 <= m < ma.len() implies ma[m] == mb[m] by {
        assert(agree_at(a, b, m));
    }
    assert(ma =~= mb);
}

/// Lists with the same bounds hold the same positions.
proof fn lemma_bounds_cover<V: Version>(a: Seq<Interval<V>>, b: Seq<Interval<V>>, v: nat)
    requires
        a.map_values(|seg: Interval<V>| bounds_of(seg)) == b.map_values(
            |seg: Interval<V>| bounds_of(seg),
        ),
        covers(a, v),
    ensures
        covers(b, v),
{
    let ma = a.map_values(|seg: Interval<V>| bounds_of(seg));
    let mb = b.map_values(|seg: Interval<V>| bounds_of(seg));
    assert(ma.len() == mb.len());
    let k = choose|k: int| 0 <= k < a.len() && within(a[k], v);
    assert(ma[k] == bounds_of(a[k]));
    assert(mb[k] == bounds_of(b[k]));
    assert(within(b[k], v));
}

/// How an interval is written among others: its bounds between square
/// brackets, the second one turned outwards.
pub open spec fn interval_text<V: Version>(bounds: Bounds) -> Seq<char> {
    match bounds.1 {
        Some(end) => "[ "@ + V::text_at(bounds.0) + ", "@ + V::text_at(end) + " ["@,
        None => "[ "@ + V::text_at(bounds.0) + ", ∞ ["@,
    }
}

/// How the first `n` of some intervals are written, two spaces between one
/// and the next.
pub open spec fn joined_text<V: Version>(bounds: Seq<Bounds>, n: nat) -> Seq<char>
    decreases n,
{
    if n == 0 || n > bounds.len() {
        Seq::empty()
    } else if n == 1 {
        interval_text::<V>(bounds[0])
    } else {
        joined_text::<V>(bounds, (n - 1) as nat) + "  "@ + interval_text::<V>(bounds[n - 1])
    }
}

/// How a range is written. The empty set and the set of all versions have a
/// sign of their own. A range of one interval is written as a condition on
/// the version `v`, or as the version itself if it holds one only. Other
/// ranges are written as the list of their intervals.
pub open spec fn range_text<V: Version>(bounds: Seq<Bounds>) -> Seq<char> {
    if bounds.len() == 0 {
        "∅"@
    } else if bounds.len() == 1 {
        let start = bounds[0].0;
        match bounds[0].1 {
            None => if start == 0 {
                "∗"@
            } else {
                V::text_at(start) + " <= v"@
            },
            Some(end) => if end == start + 1 {
                V::text_at(start)
            } else if start == 0 {
                "v < "@ + V::text_at(end)
            } else {
                V::text_at(start) + " <= v < "@ + V::text_at(end)
            },
        }
    } else {
        joined_text::<V>(bounds, bounds.len())
    }
}

/// An interval, written out between square brackets.
pub fn interval_to_string<V: Version>(interval: &Interval<V>) -> (s: String)
    ensures
        s@ == interval_text::<V>(bounds_of(*interval)),
{
    let mut s = String::from_str("[ ");
    s.append(interval.0.to_text().as_str());
    match interval.1 {
        Some(end) => {
            s.append(", ");
            s.append(end.to_text().as_str());
            s.append(" [");
        },
        None => {
            s.append(", ∞ [");
        },
    }
    proof {
        match interval.1 {
            Some(end) => {
                assert(s@ =~= "[ "@ + V::text_at(interval.0@) + ", "@ + V::text_at(end@) + " ["@);
            },
            None => {
                assert(s@ =~= "[ "@ + V::text_at(interval.0@) + ", ∞ ["@);
            },
        }
    }
    s
}

/// What a set of versions has to offer, whatever it is made of.
pub trait RangeSet: Sized {
    /// The versions that the set is made of.
    type VERSION: Version;

    /// The positions of the versions that the set holds.
    spec fn versions(&self) -> Set<nat>;

    /// The empty set.
    fn none() -> (r: Self)
        ensures
            r.versions() == Set::<nat>::empty(),
    ;

    /// Set of all possible versions.
    fn any() -> (r: Self)
        ensures
            r.versions() == Set::<nat>::full(),
    ;

    /// Set containing exactly one version.
    fn exact(v: Self::VERSION) -> (r: Self)
        requires
            v.has_successor(),
        ensures
            r.versions() == set![v@],
    ;

    /// Compute the complement set of versions.
    fn negate(&self) -> (r: Self)
        ensures
            r.versions() == self.versions().complement(),
    ;

    /// Compute the intersection of two sets of versions.
    fn intersection(&self, other: &Self) -> (r: Self)
        ensures
            r.versions() == self.versions().intersect(other.versions()),
    ;

    /// Check if a range contains a given version.
    fn contains(&self, version: &Self::VERSION) -> (b: bool)
        ensures
            b == self.versions().contains(version@),
    ;

    /// Compute the union of two sets of versions.
    fn union(&self, other: &Self) -> (r: Self)
        ensures
            r.versions() == self.versions().union(other.versions()),
    {
        let r = self.negate().intersection(&other.negate()).negate();
        assert(r.versions() =~= self.versions().union(other.versions()));
        r
    }
}

/// A set of versions.
#[derive(Debug)]
pub struct Range<V: Version> {
    segments: Vec<Interval<V>>,
}

impl<V: Version> View for Range<V> {
    type V = Set<nat>;

    /// The positions of the versions that the range holds.
    closed spec fn view(&self) -> Set<nat> {
        Set::new(|v: nat| covers(self.segments@, v))
    }
}

impl<V: Version> Range<V> {
    /// Every range is in canonical form.
    #[verifier::type_invariant]
    pub closed spec fn wf(&self) -> bool {
        canonical(self.segments@)
    }

    /// The bounds of the intervals of the range, in order.
    pub closed spec fn bounds(&self) -> Seq<Bounds> {
        self.segments@.map_values(|seg: Interval<V>| bounds_of(seg))
    }

    /// Empty set of versions.
    pub fn none() -> (r: Self)
        ensures
            r.wf(),
            r@ == Set::<nat>::empty(),
            r.bounds() == Seq::<Bounds>::empty(),
    {
        let r = Range { segments: Vec::new() };
        assert(r@ =~= Set::<nat>::empty());
        assert(r.bounds() =~= Seq::<Bounds>::empty());
        r
    }

    /// Set of all possible versions.
    pub fn any() -> (r: Self)
        ensures
            r.wf(),
            r@ == Set::<nat>::full(),
            r.bounds() == seq![(0nat, None::<nat>)],
    {
        let r = Self::higher_than(V::lowest());
        assert(r@ =~= Set::<nat>::full());
        r
    }

    /// Set containing exactly one version.
    pub fn exact(v: V) -> (r: Self)
        requires
            v.has_successor(),
        ensures
            r.wf(),
            r@ == set![v@],
            r.bounds() == seq![(v@, Some(v@ + 1))],
    {
        let next = v.bump();
        let mut segments: Vec<Interval<V>> = Vec::new();
        segments.push((v, Some(next)));
        let r = Range { segments };
        assert(within(r.segments@[0], v@));
        assert(r@ =~= set![v@]);
        assert(r.bounds() =~= seq![(v@, Some(v@ + 1))]);
        r
    }

    /// Set of all versions higher or equal to some version.
    pub fn higher_than(v: V) -> (r: Self)
        ensures
            r.wf(),
            r@ == Set::<nat>::new(|w: nat| v@ <= w),
            r.bounds() == seq![(v@, None::<nat>)],
    {
        let mut segments: Vec<Interval<V>> = Vec::new();
        segments.push((v, None));
        let r = Range { segments };
        assert forall|w: nat| v@ <= w implies r@.contains(w) by {
            assert(within(r.segments@[0], w));
        }
        assert(r@ =~= Set::<nat>::new(|w: nat| v@ <= w));
        assert(r.bounds() =~= seq![(v@, None::<nat>)]);
        r
    }

    /// Set of all versions strictly lower than some version.
    pub fn strictly_lower_than(v: V) -> (r: Self)
        ensures
            r.wf(),
            r@ == Set::<nat>::new(|w: nat| w < v@),
            r.bounds() == if v@ == 0 {
                Seq::<Bounds>::empty()
            } else {
                seq![(0nat, Some(v@))]
            },
    {
        let lowest = V::lowest();
        if v.same(&lowest) {
            let r = Self::none();
            assert(r@ =~= Set::<nat>::new(|w: nat| w < v@));
            r
        } else {
            let mut segments: Vec<Interval<V>> = Vec::new();
            segments.push((lowest, Some(v)));
            let r = Range { segments };
            assert forall|w: nat| w < v@ implies r@.contains(w) by {
                assert(within(r.segments@[0], w));
            }
            assert(r@ =~= Set::<nat>::new(|w: nat| w < v@));
            assert(r.bounds() =~= seq![(0nat, Some(v@))]);
            r
        }
    }

    /// Set of all versions comprised between two given versions.
    /// The lower bound is included and the higher bound excluded.
    /// `v1 <= v < v2`.
    pub fn between(v1: V, v2: V) -> (r: Self)
        ensures
            r.wf(),
            r@ == Set::<nat>::new(|w: nat| v1@ <= w < v2@),
            r.bounds() == if v1@ < v2@ {
                seq![(v1@, Some(v2@))]
            } else {
                Seq::<Bounds>::empty()
            },
    {
        if v1.lt(&v2) {
            let mut segments: Vec<Interval<V>> = Vec::new();
            segments.push((v1, Some(v2)));
            let r = Range { segments };
            assert forall|w: nat| v1@ <= w < v2@ implies r@.contains(w) by {
                assert(within(r.segments@[0], w));
            }
            assert(r@ =~= Set::<nat>::new(|w: nat| v1@ <= w < v2@));
            assert(r.bounds() =~= seq![(v1@, Some(v2@))]);
            r
        } else {
            let r = Self::none();
            assert(r@ =~= Set::<nat>::new(|w: nat| v1@ <= w < v2@));
            r
        }
    }

    /// Check if a range contains a given version.
    pub fn contains(&self, version: &V) -> (b: bool)
        ensures
            b == self@.contains(version@),
    {
        proof {
            use_type_invariant(self);
        }
        let n = self.segments.len();
        let mut i: usize = 0;
        while i < n
            invariant
                i <= n,
                n == self.segments.len(),
                canonical(self.segments@),
                forall|k: int| 0 <= k < i ==> !within(#[trigger] self.segments@[k], version@),
            decreases n - i,
        {
            let (v1, some_v2) = self.segments[i];
            match some_v2 {
                None => {
                    let b = !version.lt(&v1);
                    if b {
                        assert(within(self.segments@[i as int], version@));
                    }
                    return b;
                },
                Some(v2) => {
                    if version.lt(&v1) {
                        return false;
                    } else if version.lt(&v2) {
                        assert(within(self.segments@[i as int], version@));
                        return true;
                    }
                },
            }
            i += 1;
        }
        false
    }

    /// Compute the complement set of versions.
    pub fn negate(&self) -> (r: Self)
        ensures
            r.wf(),
            r@ == self@.complement(),
    {
        proof {
            use_type_invariant(self);
        }
        if self.segments.len() == 0 {
            // Complement of the empty set is everything.
            let r = Self::any();
            assert(r@ =~= self@.complement());
            r
        } else {
            let lowest = V::lowest();
            let (v1, some_v2) = self.segments[0];
            assert(within(self.segments@[0], v1@));
            match some_v2 {
                // First high bound is unbounded.
                None => {
                    assert forall|w: nat| v1@ <= w implies self@.contains(w) by {
                        assert(within(self.segments@[0], w));
                    }
                    if v1.same(&lowest) {
                        // Complement of everything is the empty set.
                        let r = Self::none();
                        assert(r@ =~= self@.complement());
                        r
                    } else {
                        // Complement of "v <= _" is "_ < v".
                        let r = Self::strictly_lower_than(v1);
                        assert(r@ =~= self@.complement());
                        r
                    }
                },
                // First high bound is bounded.
                Some(v2) => {
                    if v1.same(&lowest) {
                        let segments = Self::negate_segments(v2, &self.segments, 1);
                        let r = Range { segments };
                        assert forall|w: nat| r@.contains(w) == !self@.contains(w) by {
                            if w < v2@ {
                                assert(within(self.segments@[0], w));
                            }
                        }
                        assert(r@ =~= self@.complement());
                        r
                    } else {
                        let segments = Self::negate_segments(lowest, &self.segments, 0);
                        let r = Range { segments };
                        assert(r@ =~= self@.complement());
                        r
                    }
                },
            }
        }
    }

    /// Helper function performing the negation of intervals in segments.
    /// For example:
    ///    [ (v1, None) ] => [ (start, Some(v1)) ]
    ///    [ (v1, Some(v2)) ] => [ (start, Some(v1)), (v2, None) ]
    #[verifier::rlimit(50)]
    fn negate_segments(start: V, segments: &Vec<Interval<V>>, from: usize) -> (out: Vec<
        Interval<V>,
    >)
        requires
            canonical(segments@),
            from <= segments.len(),
            from < segments.len() ==> start@ < segments[from as int].0@,
        ensures
            canonical(out@),
            forall|v: nat| covers(out@, v) <==> (start@ <= v && !covers_from(segments@, from as int, v)),
    {
        let n = segments.len();
        let mut out: Vec<Interval<V>> = Vec::new();
        let mut cur: Option<V> = Some(start);
        let mut i: usize = from;
        while i < n
            invariant
                from <= i <= n,
                n == segments.len(),
                canonical(segments@),
                canonical(out@),
                cur is None ==> i == n && forall|v: nat|
                    covers(out@, v) <==> (start@ <= v && !covers_from(segments@, from as int, v)),
                cur matches Some(c) ==> {
                    &&& start@ <= c@
                    &&& i < n ==> c@ < segments[i as int].0@
                    &&& forall|k: int|
                        0 <= k < out.len() ==> ((#[trigger] out[k]).1 matches Some(h) && h@ < c@)
                    &&& forall|k: int|
                        from <= k < i ==> ((#[trigger] segments[k]).1 matches Some(h) && h@ <= c@)
                    &&& forall|v: nat|
                        covers(out@, v) <==> (start@ <= v < c@ && !covers_from(
                            segments@,
                            from as int,
                            v,
                        ))
                },
            decreases n - i,
        {
            let (v1, some_v2) = segments[i];
            let c = cur.unwrap();
            let ghost before = out@;
            out.push((c, Some(v1)));
            proof {
                assert(out@ == before.push((c, Some(v1))));
                match some_v2 {
                    Some(v2) => {
                        assert forall|v: nat|
                            covers(out@, v) <==> (start@ <= v < v2@ && !covers_from(
                                segments@,
                                from as int,
                                v,
                            )) by {
                            lemma_covers_push(before, (c, Some(v1)), v);
                            assert(covers(before, v) <==> (start@ <= v < c@ && !covers_from(
                                segments@,
                                from as int,
                                v,
                            )));
                            if v1@ <= v < v2@ {
                                assert(within(segments@[i as int], v));
                            }
                            if covers_from(segments@, from as int, v) {
                                let k = choose|k: int|
                                    from <= k < segments.len() && within(segments@[k], v);
                                if k < i {
                                    assert(segments@[k].1 is Some);
                                } else if k > i {
                                    assert(segments@[i as int].1 is Some);
                                }
                            }
                        }
                    },
                    None => {
                        if i + 1 < n {
                            let next = segments@[i + 1];
                            assert(segments@[i as int].1 is Some);
                        }
                        assert forall|v: nat|
                            covers(out@, v) <==> (start@ <= v && !covers_from(
                                segments@,
                                from as int,
                                v,
                            )) by {
                            lemma_covers_push(before, (c, Some(v1)), v);
                            assert(covers(before, v) <==> (start@ <= v < c@ && !covers_from(
                                segments@,
                                from as int,
                                v,
                            )));
                            if v1@ <= v {
                                assert(within(segments@[i as int], v));
                            }
                            if covers_from(segments@, from as int, v) {
                                let k = choose|k: int|
                                    from <= k < segments.len() && within(segments@[k], v);
                                if k < i {
                                    assert(segments@[k].1 is Some);
                                }
                            }
                        }
                    },
                }
            }
            cur = some_v2;
            i += 1;
        }
        if let Some(last) = cur {
            let ghost before = out@;
            out.push((last, None));
            proof {
                assert(out@[before.len() as int] == (last, None::<V>));
                assert forall|v: nat|
                    covers(out@, v) <==> (start@ <= v && !covers_from(
                        segments@,
                        from as int,
                        v,
                    )) by {
                    if covers(before, v) {
                        let k = choose|k: int| 0 <= k < before.len() && within(before[k], v);
                        assert(within(out@[k], v));
                    }
                    if last@ <= v {
                        assert(within(out@[before.len() as int], v));
                    }
                }
            }
        }
        out
    }

    /// Compute the intersection of two sets of versions.
    pub fn intersection(&self, other: &Self) -> (r: Self)
        ensures
            r.wf(),
            r@ == self@.intersect(other@),
    {
        proof {
            use_type_invariant(self);
            use_type_invariant(other);
        }
        let segments = Self::intersection_segments(&self.segments, &other.segments);
        let r = Range { segments };
        assert(r@ =~= self@.intersect(other@));
        r
    }

    /// Compute the union of two sets of versions.
    pub fn union(&self, other: &Self) -> (r: Self)
        ensures
            r.wf(),
            r@ == self@.union(other@),
    {
        let r = self.negate().intersection(&other.negate()).negate();
        assert(r@ =~= self@.union(other@));
        r
    }

    /// Copies the intervals of `src` from index `from` on to the end of `out`.
    fn extend_from(out: &mut Vec<Interval<V>>, src: &Vec<Interval<V>>, from: usize)
        requires
            from <= src.len(),
        ensures
            final(out)@ == old(out)@ + src@.subrange(from as int, src.len() as int),
    {
        let ghost before = out@;
        let n = src.len();
        let mut k: usize = from;
        while k < n
            invariant
                from <= k <= n,
                n == src.len(),
                out@ == before + src@.subrange(from as int, k as int),
            decreases n - k,
        {
            out.push(src[k]);
            k += 1;
            assert(out@ =~= before + src@.subrange(from as int, k as int));
        }
    }

    /// The larger of two versions.
    fn later(a: V, b: V) -> (m: V)
        ensures
            m@ == if a@ < b@ {
                b@
            } else {
                a@
            },
    {
        if a.lt(&b) {
            b
        } else {
            a
        }
    }

    /// Helper function performing intersection of two interval segments.
    #[verifier::rlimit(50)]
    fn intersection_segments(s1: &Vec<Interval<V>>, s2: &Vec<Interval<V>>) -> (out: Vec<
        Interval<V>,
    >)
        requires
            canonical(s1@),
            canonical(s2@),
        ensures
            canonical(out@),
            forall|v: nat| covers(out@, v) <==> (covers(s1@, v) && covers(s2@, v)),
    {
        let n1 = s1.len();
        let n2 = s2.len();
        let mut out: Vec<Interval<V>> = Vec::new();
        let mut i: usize = 0;
        let mut j: usize = 0;
        while i < n1 && j < n2
            invariant
                i <= n1,
                j <= n2,
                n1 == s1.len(),
                n2 == s2.len(),
                canonical(s1@),
                canonical(s2@),
                canonical(out@),
                forall|k: int|
                    0 <= k < out.len() ==> ((#[trigger] out[k]).1 matches Some(h) && (i < n1 && j
                        < n2 ==> h@ < s1[i as int].0@ || h@ < s2[j as int].0@)),
                forall|v: nat| covers(out@, v) ==> covers(s1@, v) && covers(s2@, v),
                forall|v: nat|
                    covers(s1@, v) && covers(s2@, v) ==> covers(out@, v) || (covers_from(
                        s1@,
                        i as int,
                        v,
                    ) && covers_from(s2@, j as int, v)),
            decreases (n1 - i) + (n2 - j),
        {
            let (l1, some_l2) = s1[i];
            let (r1, some_r2) = s2[j];
            let ghost before = out@;
            let ghost left = s1@[i as int];
            let ghost right = s2@[j as int];
            proof {
                if i + 1 < n1 {
                    let next = s1@[i + 1];
                    assert(left.1 is Some);
                }
                if j + 1 < n2 {
                    let next = s2@[j + 1];
                    assert(right.1 is Some);
                }
            }
            match (some_l2, some_r2) {
                // Both left and right still contain a finite interval:
                (Some(l2), Some(r2)) => {
                    if !r1.lt(&l2) {
                        // Intervals are disjoint, progress on the left.
                        proof {
                            Self::lemma_skip(s1@, s2@, i as int, j as int, before);
                        }
                        i += 1;
                    } else if !l1.lt(&r2) {
                        // Intervals are disjoint, progress on the right.
                        proof {
                            Self::lemma_skip(s2@, s1@, j as int, i as int, before);
                        }
                        j += 1;
                    } else {
                        // Intervals are not disjoint.
                        let start = Self::later(l1, r1);
                        if l2.lt(&r2) {
                            out.push((start, Some(l2)));
                            proof {
                                Self::lemma_emit(s1@, s2@, i as int, j as int, before, start);
                            }
                            i += 1;
                        } else {
                            out.push((start, Some(r2)));
                            proof {
                                Self::lemma_emit(s2@, s1@, j as int, i as int, before, start);
                            }
                            j += 1;
                        }
                    }
                },
                // Right contains an infinite interval:
                (Some(l2), None) => {
                    if l2.lt(&r1) {
                        proof {
                            Self::lemma_skip(s1@, s2@, i as int, j as int, before);
                        }
                        i += 1;
                    } else if l2.same(&r1) {
                        Self::extend_from(&mut out, s1, i + 1);
                        proof {
                            Self::lemma_rest(s1@, s2@, i as int, j as int, before, before);
                        }
                        return out;
                    } else {
                        let start = Self::later(l1, r1);
                        out.push((start, Some(l2)));
                        let ghost mid = out@;
                        Self::extend_from(&mut out, s1, i + 1);
                        proof {
                            Self::lemma_emit(s1@, s2@, i as int, j as int, before, start);
                            Self::lemma_rest(s1@, s2@, i as int, j as int, before, mid);
                        }
                        return out;
                    }
                },
                // Left contains an infinite interval:
                (None, Some(r2)) => {
                    if r2.lt(&l1) {
                        proof {
                            Self::lemma_skip(s2@, s1@, j as int, i as int, before);
                        }
                        j += 1;
                    } else if r2.same(&l1) {
                        Self::extend_from(&mut out, s2, j + 1);
                        proof {
                            Self::lemma_rest(s2@, s1@, j as int, i as int, before, before);
                        }
                        return out;
                    } else {
                        let start = Self::later(l1, r1);
                        out.push((start, Some(r2)));
                        let ghost mid = out@;
                        Self::extend_from(&mut out, s2, j + 1);
                        proof {
                            Self::lemma_emit(s2@, s1@, j as int, i as int, before, start);
                            Self::lemma_rest(s2@, s1@, j as int, i as int, before, mid);
                        }
                        return out;
                    }
                },
                // Both sides contain an infinite interval:
                (None, None) => {
                    let start = Self::later(l1, r1);
                    out.push((start, None));
                    proof {
                        assert(out@ == before.push((start, None::<V>)));
                        assert forall|v: nat|
                            covers(out@, v) <==> (covers(s1@, v) && covers(s2@, v)) by {
                            lemma_covers_push(before, (start, None::<V>), v);
                            if within((start, None::<V>), v) {
                                assert(within(s1@[i as int], v));
                                assert(within(s2@[j as int], v));
                            }
                            if covers(s1@, v) && covers(s2@, v) && !covers(before, v) {
                                lemma_covers_from_low(s1@, i as int, v);
                                lemma_covers_from_low(s2@, j as int, v);
                            }
                        }
                    }
                    return out;
                },
            }
        }
        proof {
            assert forall|v: nat| covers(s1@, v) && covers(s2@, v) implies covers(out@, v) by {
                if !covers(out@, v) {
                    assert(covers_from(s1@, i as int, v) && covers_from(s2@, j as int, v));
                }
            }
        }
        out
    }

    /// State of the merge: `out` holds exactly the common positions that lie
    /// outside of what is left of `a` from `i` on and of `b` from `j` on.
    spec fn merged(
        a: Seq<Interval<V>>,
        b: Seq<Interval<V>>,
        i: int,
        j: int,
        out: Seq<Interval<V>>,
    ) -> bool {
        &&& canonical(a)
        &&& canonical(b)
        &&& canonical(out)
        &&& 0 <= i <= a.len()
        &&& 0 <= j <= b.len()
        &&& forall|k: int|
            0 <= k < out.len() ==> ((#[trigger] out[k]).1 matches Some(h) && (i < a.len() && j
                < b.len() ==> h@ < a[i].0@ || h@ < b[j].0@))
        &&& forall|v: nat| covers(out, v) ==> covers(a, v) && covers(b, v)
        &&& forall|v: nat|
            covers(a, v) && covers(b, v) ==> covers(out, v) || (covers_from(a, i, v)
                && covers_from(b, j, v))
    }

    /// The interval of `a` at `i` ends before the one of `b` at `j` starts:
    /// it holds no common position and is passed over.
    proof fn lemma_skip(
        a: Seq<Interval<V>>,
        b: Seq<Interval<V>>,
        i: int,
        j: int,
        out: Seq<Interval<V>>,
    )
        requires
            Self::merged(a, b, i, j, out),
            i < a.len(),
            j < b.len(),
            a[i].1 matches Some(hi) && hi@ <= b[j].0@,
        ensures
            Self::merged(a, b, i + 1, j, out),
            Self::merged(b, a, j, i + 1, out),
    {
        assert forall|k: int| 0 <= k < out.len() implies ((#[trigger] out[k]).1 matches Some(h) && (
        i + 1 < a.len() && j < b.len() ==> h@ < a[i + 1].0@ || h@ < b[j].0@)) by {
            if i + 1 < a.len() {
                let next = a[i + 1];
                assert(a[i].1 is Some);
            }
        }
        assert forall|v: nat| covers(a, v) && covers(b, v) implies covers(out, v) || (covers_from(
            a,
            i + 1,
            v,
        ) && covers_from(b, j, v)) by {
            if !covers(out, v) {
                lemma_covers_from_step(a, i, v);
                lemma_covers_from_low(b, j, v);
            }
        }
    }

    /// The intervals of `a` at `i` and of `b` at `j` overlap and the first
    /// ends first: their common part is emitted and the first is passed.
    #[verifier::rlimit(50)]
    proof fn lemma_emit(
        a: Seq<Interval<V>>,
        b: Seq<Interval<V>>,
        i: int,
        j: int,
        out: Seq<Interval<V>>,
        start: V,
    )
        requires
            Self::merged(a, b, i, j, out),
            i < a.len(),
            j < b.len(),
            a[i].1 is Some,
            b[j].0@ < a[i].1->0@,
            b[j].1 matches Some(hi) ==> a[i].1->0@ <= hi@ && a[i].0@ < hi@,
            start@ == if a[i].0@ < b[j].0@ {
                b[j].0@
            } else {
                a[i].0@
            },
        ensures
            Self::merged(a, b, i + 1, j, out.push((start, a[i].1))),
            Self::merged(b, a, j, i + 1, out.push((start, a[i].1))),
    {
        let seg = (start, a[i].1);
        let more = out.push(seg);
        assert(a[i].0@ < a[i].1->0@);
        assert forall|k: int| 0 <= k < more.len() implies ((#[trigger] more[k]).1 matches Some(h)
            && (i + 1 < a.len() && j < b.len() ==> h@ < a[i + 1].0@ || h@ < b[j].0@)) by {
            if i + 1 < a.len() {
                let next = a[i + 1];
                assert(a[i].1 is Some);
            }
            if k < out.len() {
                assert(more[k] == out[k]);
            }
        }
        assert(canonical(more)) by {
            assert forall|k: int| 0 <= k < more.len() implies inhabited(#[trigger] more[k]) by {
                if k < out.len() {
                    assert(more[k] == out[k]);
                }
            }
            assert forall|x: int, y: int|
                #![trigger more[x], more[y]]
                0 <= x < y < more.len() implies apart(more[x], more[y]) by {
                assert(more[x] == out[x]);
                if y < out.len() {
                    assert(more[y] == out[y]);
                }
            }
        }
        assert forall|v: nat| covers(more, v) implies covers(a, v) && covers(b, v) by {
            lemma_covers_push(out, seg, v);
            if within(seg, v) {
                assert(within(a[i], v));
                assert(within(b[j], v));
            }
        }
        assert forall|v: nat| covers(a, v) && covers(b, v) implies covers(more, v) || (covers_from(
            a,
            i + 1,
            v,
        ) && covers_from(b, j, v)) by {
            lemma_covers_push(out, seg, v);
            if !covers(out, v) {
                lemma_covers_from_step(a, i, v);
                lemma_covers_from_low(b, j, v);
            }
        }
    }

    /// The interval of `b` at `j` is unbounded and starts no later than the
    /// interval of `a` at `i` ends: once that interval is dealt with, what is
    /// left of `a` is the rest of the result.
    #[verifier::rlimit(50)]
    proof fn lemma_rest(
        a: Seq<Interval<V>>,
        b: Seq<Interval<V>>,
        i: int,
        j: int,
        out: Seq<Interval<V>>,
        mid: Seq<Interval<V>>,
    )
        requires
            Self::merged(a, b, i, j, out),
            i < a.len(),
            j < b.len(),
            b[j].1 is None,
            a[i].1 matches Some(hi) && b[j].0@ <= hi@,
            a[i].1->0@ == b[j].0@ ==> mid == out,
            a[i].1->0@ != b[j].0@ ==> Self::merged(a, b, i + 1, j, mid),
        ensures
            canonical(mid + a.subrange(i + 1, a.len() as int)),
            forall|v: nat|
                covers(mid + a.subrange(i + 1, a.len() as int), v) <==> (covers(a, v) && covers(
                    b,
                    v,
                )),
            forall|v: nat|
                covers(mid + a.subrange(i + 1, a.len() as int), v) <==> (covers(b, v) && covers(
                    a,
                    v,
                )),
    {
        let all = mid + a.subrange(i + 1, a.len() as int);
        if a[i].1->0@ == b[j].0@ {
            Self::lemma_skip(a, b, i, j, out);
        }
        assert(Self::merged(a, b, i + 1, j, mid));
        if i + 1 < a.len() {
            let next = a[i + 1];
            assert(a[i].1 is Some);
            assert forall|k: int| 0 <= k < mid.len() implies ((#[trigger] mid[k]).1 matches Some(h)
                && h@ < a[i + 1].0@) by {}
        }
        lemma_canonical_concat(mid, a, i + 1);
        assert forall|v: nat| covers(all, v) <==> (covers(a, v) && covers(b, v)) by {
            lemma_covers_concat(mid, a, i + 1, v);
            if covers_from(a, i + 1, v) {
                lemma_covers_from_all(a, i + 1, v);
                lemma_covers_from_low(a, i + 1, v);
                assert(within(b[j], v));
            }
        }
    }

    /// Return the lowest version in the range (if there is one).
    pub fn lowest_version(&self) -> (r: Option<V>)
        ensures
            match r {
                None => self@ == Set::<nat>::empty(),
                Some(v) => self@.contains(v@) && forall|w: nat| self@.contains(w) ==> v@ <= w,
            },
    {
        proof {
            use_type_invariant(self);
        }
        if self.segments.len() == 0 {
            assert(self@ =~= Set::<nat>::empty());
            None
        } else {
            let (start, _) = self.segments[0];
            assert(within(self.segments@[0], start@));
            Some(start)
        }
    }
}

impl<V: Version> RangeSet for Range<V> {
    type VERSION = V;

    open spec fn versions(&self) -> Set<nat> {
        self@
    }

    fn none() -> (r: Self) {
        Range::none()
    }

    fn any() -> (r: Self) {
        Range::any()
    }

    fn exact(v: V) -> (r: Self) {
        Range::exact(v)
    }

    fn negate(&self) -> (r: Self) {
        Range::negate(self)
    }

    fn intersection(&self, other: &Self) -> (r: Self) {
        Range::intersection(self, other)
    }

    fn contains(&self, version: &V) -> (b: bool) {
        Range::contains(self, version)
    }
}

impl<V: Version> Range<V> {
    /// The intervals of the range, in order.
    pub fn segments(&self) -> (segments: &Vec<Interval<V>>)
        ensures
            canonical(segments@),
            segments@.map_values(|seg: Interval<V>| bounds_of(seg)) == self.bounds(),
            forall|v: nat| self@.contains(v) <==> covers(segments@, v),
    {
        proof {
            use_type_invariant(self);
        }
        &self.segments
    }

    /// The range, written out.
    #[verifier::rlimit(50)]
    pub fn to_string(&self) -> (s: String)
        ensures
            s@ == range_text::<V>(self.bounds()),
    {
        let n = self.segments.len();
        if n == 0 {
            String::from_str("∅")
        } else if n == 1 {
            let (start, some_end) = self.segments[0];
            assert(self.bounds()[0] == bounds_of(self.segments@[0]));
            let lowest = V::lowest();
            match some_end {
                None => {
                    if start.same(&lowest) {
                        String::from_str("∗")
                    } else {
                        let mut s = start.to_text();
                        s.append(" <= v");
                        s
                    }
                },
                Some(end) => {
                    let single = start.can_bump() && start.bump().same(&end);
                    proof {
                        if end@ == start@ + 1 {
                            V::followed(start, end);
                        }
                    }
                    if single {
                        start.to_text()
                    } else if start.same(&lowest) {
                        let mut s = String::from_str("v < ");
                        s.append(end.to_text().as_str());
                        s
                    } else {
                        let mut s = start.to_text();
                        s.append(" <= v < ");
                        s.append(end.to_text().as_str());
                        proof {
                            assert(s@ =~= V::text_at(start@) + " <= v < "@ + V::text_at(end@));
                        }
                        s
                    }
                },
            }
        } else {
            let mut s = interval_to_string(&self.segments[0]);
            let mut k: usize = 1;
            assert(self.bounds()[0] == bounds_of(self.segments@[0]));
            while k < n
                invariant
                    1 <= k <= n,
                    n == self.segments.len(),
                    s@ == joined_text::<V>(self.bounds(), k as nat),
                decreases n - k,
            {
                let ghost before = s@;
                assert(self.bounds()[k as int] == bounds_of(self.segments@[k as int]));
                s.append("  ");
                s.append(interval_to_string(&self.segments[k]).as_str());
                k += 1;
                assert(s@ =~= before + "  "@ + interval_text::<V>(self.bounds()[k - 1]));
            }
            s
        }
    }

    /// The range made of the given intervals, if they are in canonical form:
    /// none is empty, all but the last are bounded, and each ends strictly
    /// below the start of the next.
    pub fn from_segments(segments: Vec<Interval<V>>) -> (r: Option<Self>)
        ensures
            r is Some <==> canonical(segments@),
            r matches Some(range) ==> range.bounds() == segments@.map_values(
                |seg: Interval<V>| bounds_of(seg),
            ) && forall|v: nat| range@.contains(v) <==> covers(segments@, v),
    {
        let n = segments.len();
        let mut i: usize = 0;
        while i < n
            invariant
                i <= n,
                n == segments.len(),
                forall|k: int| 0 <= k < i ==> inhabited(#[trigger] segments@[k]),
                forall|k: int|
                    0 < k < i ==> #[trigger] apart(segments@[k - 1], segments@[k]),
            decreases n - i,
        {
            let (lo, some_hi) = segments[i];
            if let Some(hi) = some_hi {
                if !lo.lt(&hi) {
                    assert(!inhabited(segments@[i as int]));
                    return None;
                }
            }
            if i > 0 {
                let (_, before) = segments[i - 1];
                let sound = match before {
                    Some(end) => end.lt(&lo),
                    None => false,
                };
                if !sound {
                    assert(!apart(segments@[i - 1], segments@[i as int]));
                    return None;
                }
            }
            i += 1;
        }
        proof {
            assert forall|a: int, b: int|
                #![trigger segments@[a], segments@[b]]
                0 <= a < b < segments.len() implies apart(segments@[a], segments@[b]) by {
                lemma_apart_chain(segments@, a, b);
            }
        }
        Some(Range { segments })
    }
}

impl<V: Version> Clone for Range<V> {
    fn clone(&self) -> (r: Self)
        ensures
            r.wf(),
            r@ == self@,
            r.bounds() == self.bounds(),
    {
        proof {
            use_type_invariant(self);
        }
        let mut segments: Vec<Interval<V>> = Vec::new();
        Self::extend_from(&mut segments, &self.segments, 0);
        assert(segments@ =~= self.segments@);
        Range { segments }
    }
}

impl<V: Version> PartialEq for Range<V> {
    /// Two ranges are equal when they hold the same versions, which is when
    /// they are made of the same intervals.
    fn eq(&self, other: &Self) -> (b: bool) {
        proof {
            use_type_invariant(self);
            use_type_invariant(other);
            Self::law_canonical_form(*self, *other);
        }
        let n = self.segments.len();
        assert(self.bounds().len() == n);
        assert(other.bounds().len() == other.segments.len());
        if n != other.segments.len() {
            return false;
        }
        let ghost same = self@ == other@;
        let mut i: usize = 0;
        while i < n
            invariant
                i <= n,
                n == self.segments.len(),
                n == other.segments.len(),
                same == (self@ == other@),
                same <==> self.bounds() == other.bounds(),
                forall|k: int|
                    0 <= k < i ==> bounds_of(#[trigger] self.segments@[k]) == bounds_of(
                        other.segments@[k],
                    ),
            decreases n - i,
        {
            let (a1, a2) = self.segments[i];
            let (b1, b2) = other.segments[i];
            let same_end = match (a2, b2) {
                (Some(x), Some(y)) => x.same(&y),
                (None, None) => true,
                _ => false,
            };
            if !a1.same(&b1) || !same_end {
                proof {
                    assert(bounds_of(self.segments@[i as int]) != bounds_of(
                        other.segments@[i as int],
                    ));
                    assert(self.bounds()[i as int] == bounds_of(self.segments@[i as int]));
                    assert(other.bounds()[i as int] == bounds_of(other.segments@[i as int]));
                }
                return false;
            }
            i += 1;
        }
        assert(self.bounds() =~= other.bounds());
        true
    }
}

impl<V: Version> PartialEqSpecImpl for Range<V> {
    open spec fn obeys_eq_spec() -> bool {
        true
    }

    open spec fn eq_spec(&self, other: &Self) -> bool {
        self@ == other@
    }
}

impl<V: Version> Range<V> {
    /// Two ranges hold the same versions exactly when their lists of
    /// intervals are identical.
    pub proof fn law_canonical_form(a: Self, b: Self)
        requires
            a.wf(),
            b.wf(),
        ensures
            a@ == b@ <==> a.bounds() == b.bounds(),
    {
        if a@ == b@ {
            assert forall|v: nat| covers(a.segments@, v) <==> covers(b.segments@, v) by {
                assert(a@.contains(v) == b@.contains(v));
            }
            lemma_canonical_unique(a.segments@, b.segments@);
        }
        if a.bounds() == b.bounds() {
            assert forall|v: nat| a@.contains(v) == b@.contains(v) by {
                if covers(a.segments@, v) {
                    lemma_bounds_cover(a.segments@, b.segments@, v);
                }
                if covers(b.segments@, v) {
                    lemma_bounds_cover(b.segments@, a.segments@, v);
                }
            }
            assert(a@ =~= b@);
        }
    }

    /// The empty set is the range without intervals, and the set of all
    /// versions is the range made of one unbounded interval from the lowest
    /// version.
    pub proof fn law_extremes(r: Self)
        requires
            r.wf(),
        ensures
            r@ == Set::<nat>::empty() <==> r.bounds() == Seq::<Bounds>::empty(),
            r@ == Set::<nat>::full() <==> r.bounds() == seq![(0nat, None::<nat>)],
    {
        let segs = r.segments@;
        if r@ == Set::<nat>::empty() && segs.len() > 0 {
            assert(inhabited(segs[0]));
            assert(within(segs[0], segs[0].0@));
            assert(r@.contains(segs[0].0@));
        }
        if r@ == Set::<nat>::empty() {
            assert(r.bounds() =~= Seq::<Bounds>::empty());
        }
        if r.bounds() == Seq::<Bounds>::empty() {
            assert(segs.len() == r.bounds().len());
            assert(r@ =~= Set::<nat>::empty());
        }
        if r@ == Set::<nat>::full() {
            assert(r@.contains(0));
            let k = choose|k: int| 0 <= k < segs.len() && within(segs[k], 0);
            if k > 0 {
                assert(apart(segs[0], segs[k]));
            }
            if let Some(h) = segs[0].1 {
                assert(r@.contains(h@));
                let j = choose|j: int| 0 <= j < segs.len() && within(segs[j], h@);
                if j > 0 {
                    assert(apart(segs[0], segs[j]));
                }
            }
            if segs.len() > 1 {
                assert(apart(segs[0], segs[1]));
            }
            assert(r.bounds()[0] == bounds_of(segs[0]));
            assert(r.bounds() =~= seq![(0nat, None::<nat>)]);
        }
        if r.bounds() == seq![(0nat, None::<nat>)] {
            assert(segs.len() == r.bounds().len());
            assert(r.bounds()[0] == bounds_of(segs[0]));
            assert forall|v: nat| r@.contains(v) by {
                assert(within(segs[0], v));
            }
            assert(r@ =~= Set::<nat>::full());
        }
    }

    /// Negating a range twice gives the range back.
    pub proof fn law_double_negation(r: Self, n: Self, nn: Self)
        requires
            r.wf(),
            nn.wf(),
            n@ == r@.complement(),
            nn@ == n@.complement(),
        ensures
            nn@ == r@,
            nn.bounds() == r.bounds(),
    {
        assert(nn@ =~= r@);
        Self::law_canonical_form(nn, r);
    }

    /// A range and its negation have no version in common.
    pub proof fn law_negation_excludes(r: Self, n: Self, both: Self)
        requires
            both.wf(),
            n@ == r@.complement(),
            both@ == r@.intersect(n@),
        ensures
            both@ == Set::<nat>::empty(),
            both.bounds() == Seq::<Bounds>::empty(),
    {
        assert(both@ =~= Set::<nat>::empty());
        Self::law_extremes(both);
    }

    /// A range and its negation hold every version between them.
    pub proof fn law_negation_completes(r: Self, n: Self, either: Self)
        requires
            either.wf(),
            n@ == r@.complement(),
            either@ == r@.union(n@),
        ensures
            either@ == Set::<nat>::full(),
            either.bounds() == seq![(0nat, None::<nat>)],
    {
        assert(either@ =~= Set::<nat>::full());
        Self::law_extremes(either);
    }

    /// Intersection does not depend on the order of its operands.
    pub proof fn law_intersection_commutative(a: Self, b: Self, ab: Self, ba: Self)
        requires
            ab.wf(),
            ba.wf(),
            ab@ == a@.intersect(b@),
            ba@ == b@.intersect(a@),
        ensures
            ab@ == ba@,
            ab.bounds() == ba.bounds(),
    {
        assert(ab@ =~= ba@);
        Self::law_canonical_form(ab, ba);
    }

    /// Intersection does not depend on how its operands are grouped.
    pub proof fn law_intersection_associative(
        a: Self,
        b: Self,
        c: Self,
        ab: Self,
        bc: Self,
        left: Self,
        right: Self,
    )
        requires
            left.wf(),
            right.wf(),
            ab@ == a@.intersect(b@),
            bc@ == b@.intersect(c@),
            left@ == ab@.intersect(c@),
            right@ == a@.intersect(bc@),
        ensures
            left@ == right@,
            left.bounds() == right.bounds(),
    {
        assert(left@ =~= right@);
        Self::law_canonical_form(left, right);
    }

    /// Intersecting twice with the same range changes nothing more.
    pub proof fn law_intersection_idempotent(a: Self, b: Self, ab: Self, abb: Self)
        requires
            ab.wf(),
            abb.wf(),
            ab@ == a@.intersect(b@),
            abb@ == ab@.intersect(b@),
        ensures
            abb@ == ab@,
            abb.bounds() == ab.bounds(),
    {
        assert(abb@ =~= ab@);
        Self::law_canonical_form(abb, ab);
    }

    /// Intersecting with the set of all versions gives the range back.
    pub proof fn law_intersection_identity(any: Self, r: Self, x: Self)
        requires
            r.wf(),
            x.wf(),
            any@ == Set::<nat>::full(),
            x@ == any@.intersect(r@),
        ensures
            x@ == r@,
            x.bounds() == r.bounds(),
    {
        assert(x@ =~= r@);
        Self::law_canonical_form(x, r);
    }

    /// Intersecting with the empty set gives the empty set.
    pub proof fn law_intersection_absorbing(none: Self, r: Self, x: Self)
        requires
            x.wf(),
            none@ == Set::<nat>::empty(),
            x@ == none@.intersect(r@),
        ensures
            x@ == Set::<nat>::empty(),
            x.bounds() == Seq::<Bounds>::empty(),
    {
        assert(x@ =~= Set::<nat>::empty());
        Self::law_extremes(x);
    }

    /// A range holds a version exactly when it includes the range made of
    /// that version alone, which is when intersecting with that range gives
    /// that range.
    pub proof fn law_contains_exact(r: Self, v: nat, exact: Self, x: Self)
        requires
            exact.wf(),
            x.wf(),
            exact@ == set![v],
            x@ == r@.intersect(exact@),
        ensures
            r@.contains(v) <==> exact@.subset_of(r@),
            r@.contains(v) <==> x@ == exact@,
            r@.contains(v) <==> x.bounds() == exact.bounds(),
    {
        assert(exact@.contains(v));
        if r@.contains(v) {
            assert(x@ =~= exact@);
        }
        if x@ == exact@ {
            assert(x@.contains(v));
        }
        Self::law_canonical_form(x, exact);
    }

    /// An intersection holds a version exactly when both operands hold it.
    pub proof fn law_intersection_contains(a: Self, b: Self, ab: Self, v: nat)
        requires
            ab@ == a@.intersect(b@),
        ensures
            ab@.contains(v) <==> a@.contains(v) && b@.contains(v),
    {
    }

    /// A union holds a version exactly when one of the operands holds it.
    pub proof fn law_union_contains(a: Self, b: Self, ab: Self, v: nat)
        requires
            ab@ == a@.union(b@),
        ensures
            ab@.contains(v) <==> a@.contains(v) || b@.contains(v),
    {
    }
}

} // verus!
