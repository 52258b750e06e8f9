use vstd::prelude::*;

verus! {

/// Which operand of a boolean combination a boundary belongs to.
#[derive(Clone, Copy, PartialEq, Eq, Debug, Structural)]
pub enum Owner {
    A,
    B,
}

/// A point where a ray crosses the surface of a solid.
///
/// `key` orders boundaries by their signed distance along the ray: a smaller
/// key lies nearer the ray's origin, equal keys lie at the same distance.
/// `hit` is the caller's record of the crossing; `inverted` says that the
/// record's surface normal is to be read negated.
#[derive(Clone, Copy, Debug)]
pub struct Boundary<T> {
    pub key: u64,
    pub inverted: bool,
    pub hit: T,
}

/// The same crossing with its normal read the other way.
pub open spec fn inverse<T>(b: Boundary<T>) -> Boundary<T> {
    Boundary { key: b.key, inverted: !b.inverted, hit: b.hit }
}

impl<T: Copy> Boundary<T> {
    /// Negates the normal: an exit read as an entry, or the other way round.
    pub fn inverse(self) -> (r: Boundary<T>)
        ensures
            r == inverse(self),
    {
        Boundary { key: self.key, inverted: !self.inverted, hit: self.hit }
    }
}

/// One end of a region of the ray: a boundary, or the ray's end at either
/// infinity.
#[derive(Clone, Copy, Debug)]
pub enum Bound<T> {
    NegInfinity,
    At(Boundary<T>),
    PosInfinity,
}

/// A stretch of the ray between two consecutive boundaries, and whether it
/// lies inside operand `A` and inside operand `B`.
#[derive(Clone, Copy, Debug)]
pub struct Region<T> {
    pub start: Bound<T>,
    pub end: Bound<T>,
    pub a: bool,
    pub b: bool,
}

/// The boolean combinations of two solids.
#[derive(Clone, Copy, PartialEq, Eq, Debug, Structural)]
pub enum CsgOp {
    Intersection,
    Difference,
}

/// Whether a region belongs to the combination `op` of its operands.
pub open spec fn keeps<T>(op: CsgOp, r: Region<T>) -> bool {
    match op {
        CsgOp::Intersection => r.a && r.b,
        CsgOp::Difference => r.a && !r.b,
    }
}

/// The boundary events of one operand's entry/exit pairs: each entry as it
/// is, each exit inverted, since it ends the operand's ownership.
pub open spec fn flatten<T>(pairs: Seq<(Boundary<T>, Boundary<T>)>, owner: Owner) -> Seq<
    (Boundary<T>, Owner),
>
    decreases pairs.len(),
{
    if pairs.len() == 0 {
        seq![]
    } else {
        flatten(pairs.drop_last(), owner) + seq![
            (pairs.last().0, owner),
            (inverse(pairs.last().1), owner),
        ]
    }
}

/// The events of both operands, those of `A` first.
pub open spec fn events<T>(
    a: Seq<(Boundary<T>, Boundary<T>)>,
    b: Seq<(Boundary<T>, Boundary<T>)>,
) -> Seq<(Boundary<T>, Owner)> {
    flatten(a, Owner::A) + flatten(b, Owner::B)
}

/// `s` with `e` placed after every element whose key is not greater than
/// its own, and before the rest.
pub open spec fn insert_event<T>(s: Seq<(Boundary<T>, Owner)>, e: (Boundary<T>, Owner)) -> Seq<
    (Boundary<T>, Owner),
>
    decreases s.len(),
{
    if s.len() == 0 || s.last().0.key <= e.0.key {
        s.push(e)
    } else {
        insert_event(s.drop_last(), e).push(s.last())
    }
}

/// The stable sort of `s` by key: events of equal key keep their order.
pub open spec fn sort_events<T>(s: Seq<(Boundary<T>, Owner)>) -> Seq<(Boundary<T>, Owner)>
    decreases s.len(),
{
    if s.len() == 0 {
        s
    } else {
        insert_event(sort_events(s.drop_last()), s.last())
    }
}

/// Whether the keys of `s` never decrease.
pub open spec fn is_sorted<T>(s: Seq<(Boundary<T>, Owner)>) -> bool {
    forall|i: int, j: int| 0 <= i <= j < s.len() ==> s[i].0.key <= s[j].0.key
}

/// Number of events of `s` that belong to `owner`.
pub open spec fn count_owner<T>(s: Seq<(Boundary<T>, Owner)>, owner: Owner) -> nat
    decreases s.len(),
{
    if s.len() == 0 {
        0
    } else {
        count_owner(s.drop_last(), owner) + if s.last().1 == owner {
            1nat
        } else {
            0nat
        }
    }
}

/// Whether the ray is inside `owner` after the first `k` events of `s`:
/// each of its events toggles membership.
pub open spec fn inside<T>(s: Seq<(Boundary<T>, Owner)>, k: int, owner: Owner) -> bool {
    count_owner(s.take(k), owner) % 2 == 1
}

/// The `k`-th region of the sweep over the sorted events `s`: region 0
/// starts at minus infinity, region `s.len()` ends at plus infinity, and
/// every other one lies between two consecutive events.
pub open spec fn region_at<T>(s: Seq<(Boundary<T>, Owner)>, k: int) -> Region<T> {
    Region {
        start: if k == 0 {
            Bound::NegInfinity
        } else {
            Bound::At(s[k - 1].0)
        },
        end: if k == s.len() {
            Bound::PosInfinity
        } else {
            Bound::At(inverse(s[k].0))
        },
        a: inside(s, k, Owner::A),
        b: inside(s, k, Owner::B),
    }
}

/// All regions of the sweep over the sorted events `s`.
pub open spec fn regions_of<T>(s: Seq<(Boundary<T>, Owner)>) -> Seq<Region<T>> {
    Seq::new(s.len() + 1, |k: int| region_at(s, k))
}

/// The regions into which the boundaries of operands `a` and `b` cut the
/// ray.
pub open spec fn regions<T>(
    a: Seq<(Boundary<T>, Boundary<T>)>,
    b: Seq<(Boundary<T>, Boundary<T>)>,
) -> Seq<Region<T>> {
    regions_of(sort_events(events(a, b)))
}

/// The boundary at a region's end; the ends at infinity are never asked for.
pub open spec fn bound_hit<T>(b: Bound<T>) -> Boundary<T> {
    match b {
        Bound::At(h) => h,
        _ => arbitrary(),
    }
}

/// Whether the combination `op` keeps region `r` as an entry/exit pair:
/// the region belongs to the combination and has some length along the
/// ray. A region of no length, between two coinciding boundaries, is no
/// part of any solid.
pub open spec fn selects<T>(op: CsgOp, r: Region<T>) -> bool {
    keeps(op, r) && bound_hit(r.start).key < bound_hit(r.end).key
}

/// The entry/exit pairs of the regions of `rs` that `op` selects, in order.
pub open spec fn kept<T>(rs: Seq<Region<T>>, op: CsgOp) -> Seq<(Boundary<T>, Boundary<T>)>
    decreases rs.len(),
{
    if rs.len() == 0 {
        seq![]
    } else {
        kept(rs.drop_last(), op) + if selects(op, rs.last()) {
            seq![(bound_hit(rs.last().start), bound_hit(rs.last().end))]
        } else {
            seq![]
        }
    }
}

/// The entry/exit pairs of the combination `op` of operands `a` and `b`.
pub open spec fn combined<T>(
    op: CsgOp,
    a: Seq<(Boundary<T>, Boundary<T>)>,
    b: Seq<(Boundary<T>, Boundary<T>)>,
) -> Seq<(Boundary<T>, Boundary<T>)> {
    kept(regions(a, b), op)
}

proof fn lemma_count_push<T>(s: Seq<(Boundary<T>, Owner)>, e: (Boundary<T>, Owner), o: Owner)
    ensures
        count_owner(s.push(e), o) == count_owner(s, o) + if e.1 == o {
            1nat
        } else {
            0nat
        },
{
    assert(s.push(e).drop_last() =~= s);
}

proof fn lemma_count_insert<T>(s: Seq<(Boundary<T>, Owner)>, e: (Boundary<T>, Owner), o: Owner)
    ensures
        count_owner(insert_event(s, e), o) == count_owner(s, o) + if e.1 == o {
            1nat
        } else {
            0nat
        },
        insert_event(s, e).len() == s.len() + 1,
    decreases s.len(),
{
    if s.len() == 0 || s.last().0.key <= e.0.key {
        lemma_count_push(s, e, o);
    } else {
        lemma_count_insert(s.drop_last(), e, o);
        lemma_count_push(insert_event(s.drop_last(), e), s.last(), o);
    }
}

proof fn lemma_count_sort<T>(s: Seq<(Boundary<T>, Owner)>, o: Owner)
    ensures
        count_owner(sort_events(s), o) == count_owner(s, o),
        sort_events(s).len() == s.len(),
    decreases s.len(),
{
    if s.len() > 0 {
        lemma_count_sort(s.drop_last(), o);
        lemma_count_insert(sort_events(s.drop_last()), s.last(), o);
    }
}

proof fn lemma_count_concat<T>(x: Seq<(Boundary<T>, Owner)>, y: Seq<(Boundary<T>, Owner)>, o: Owner)
    ensures
        count_owner(x + y, o) == count_owner(x, o) + count_owner(y, o),
    decreases y.len(),
{
    if y.len() > 0 {
        lemma_count_concat(x, y.drop_last(), o);
        assert((x + y).drop_last() =~= x + y.drop_last());
    } else {
        assert(x + y =~= x);
    }
}

proof fn lemma_count_flatten<T>(pairs: Seq<(Boundary<T>, Boundary<T>)>, w: Owner, o: Owner)
    ensures
        count_owner(flatten(pairs, w), o) == if w == o {
            2 * pairs.len()
        } else {
            0
        },
    decreases pairs.len(),
{
    if pairs.len() > 0 {
        let last = seq![(pairs.last().0, w), (inverse(pairs.last().1), w)];
        lemma_count_flatten(pairs.drop_last(), w, o);
        lemma_count_concat(flatten(pairs.drop_last(), w), last, o);
        assert(last.drop_last().drop_last() =~= seq![]);
        assert(count_owner(last.drop_last().drop_last(), o) == 0);
        assert(count_owner(last.drop_last(), o) == if w == o {
            1nat
        } else {
            0nat
        });
        assert(count_owner(last, o) == if w == o {
            2nat
        } else {
            0nat
        });
    }
}

/// The events of any two operands leave the ray outside both after the
/// last of them, as before the first.
proof fn lemma_outer_regions<T>(a: Seq<(Boundary<T>, Boundary<T>)>, b: Seq<(Boundary<T>, Boundary<T>)>)
    ensures
        forall|o: Owner| !inside(#[trigger] sort_events(events(a, b)), 0, o),
        forall|o: Owner|
            !inside(
                #[trigger] sort_events(events(a, b)),
                sort_events(events(a, b)).len() as int,
                o,
            ),
        sort_events(events(a, b)).len() == events(a, b).len(),
{
    let e = events(a, b);
    let s = sort_events(e);
    assert forall|o: Owner| !inside(s, 0, o) by {
        assert(s.take(0) =~= seq![]);
    }
    assert forall|o: Owner| !inside(s, s.len() as int, o) by {
        lemma_count_sort(e, o);
        lemma_count_concat(flatten(a, Owner::A), flatten(b, Owner::B), o);
        lemma_count_flatten(a, Owner::A, o);
        lemma_count_flatten(b, Owner::B, o);
        assert(s.take(s.len() as int) =~= s);
    }
    lemma_count_sort(e, Owner::A);
}

/// Only regions between two events can be kept, whatever the combination.
proof fn lemma_kept_regions_bounded<T>(
    a: Seq<(Boundary<T>, Boundary<T>)>,
    b: Seq<(Boundary<T>, Boundary<T>)>,
    op: CsgOp,
)
    ensures
        forall|k: int|
            0 <= k < regions(a, b).len() && keeps(op, #[trigger] regions(a, b)[k]) ==> (
            regions(a, b)[k].start is At && regions(a, b)[k].end is At),
{
    lemma_outer_regions(a, b);
    let s = sort_events(events(a, b));
    assert forall|k: int|
        0 <= k < regions(a, b).len() && keeps(op, #[trigger] regions(a, b)[k]) implies (regions(
        a,
        b,
    )[k].start is At && regions(a, b)[k].end is At) by {
        assert(regions(a, b)[k] == region_at(s, k));
        assert(inside(s, k, Owner::A));
    }
}

proof fn lemma_insert_at<T>(s: Seq<(Boundary<T>, Owner)>, e: (Boundary<T>, Owner), j: int)
    requires
        0 <= j <= s.len(),
        forall|k: int| j <= k < s.len() ==> s[k].0.key > e.0.key,
        j == 0 || s[j - 1].0.key <= e.0.key,
    ensures
        insert_event(s, e) == s.insert(j, e),
    decreases s.len(),
{
    if s.len() == j {
        assert(s.insert(j, e) =~= s.push(e));
    } else {
        lemma_insert_at(s.drop_last(), e, j);
        assert(s.drop_last().insert(j, e).push(s.last()) =~= s.insert(j, e));
    }
}

proof fn lemma_insert_bounded<T>(s: Seq<(Boundary<T>, Owner)>, e: (Boundary<T>, Owner), m: u64)
    requires
        e.0.key <= m,
        forall|i: int| 0 <= i < s.len() ==> s[i].0.key <= m,
    ensures
        forall|i: int| 0 <= i < insert_event(s, e).len() ==> insert_event(s, e)[i].0.key <= m,
    decreases s.len(),
{
    lemma_count_insert(s, e, Owner::A);
    if !(s.len() == 0 || s.last().0.key <= e.0.key) {
        lemma_insert_bounded(s.drop_last(), e, m);
        lemma_count_insert(s.drop_last(), e, Owner::A);
    }
}

proof fn lemma_insert_sorted<T>(s: Seq<(Boundary<T>, Owner)>, e: (Boundary<T>, Owner))
    requires
        is_sorted(s),
    ensures
        is_sorted(insert_event(s, e)),
    decreases s.len(),
{
    if !(s.len() == 0 || s.last().0.key <= e.0.key) {
        let t = insert_event(s.drop_last(), e);
        lemma_insert_sorted(s.drop_last(), e);
        lemma_insert_bounded(s.drop_last(), e, s.last().0.key);
        lemma_count_insert(s.drop_last(), e, Owner::A);
        assert(is_sorted(t.push(s.last())));
    }
}

/// The stable sort orders events by key.
proof fn lemma_sort_sorted<T>(s: Seq<(Boundary<T>, Owner)>)
    ensures
        is_sorted(sort_events(s)),
    decreases s.len(),
{
    if s.len() > 0 {
        lemma_sort_sorted(s.drop_last());
        lemma_insert_sorted(sort_events(s.drop_last()), s.last());
    }
}

/// Whether an event lies at key `k`.
pub open spec fn at_key<T>(k: u64) -> spec_fn((Boundary<T>, Owner)) -> bool {
    |e: (Boundary<T>, Owner)| e.0.key == k
}

proof fn lemma_insert_stable<T>(s: Seq<(Boundary<T>, Owner)>, e: (Boundary<T>, Owner), k: u64)
    ensures
        insert_event(s, e).to_multiset() == s.to_multiset().insert(e),
        insert_event(s, e).filter(at_key(k)) == if e.0.key == k {
            s.filter(at_key(k)).push(e)
        } else {
            s.filter(at_key(k))
        },
    decreases s.len(),
{
    broadcast use vstd::seq_lib::to_multiset_build, vstd::seq::Seq::lemma_filter_push;

    if !(s.len() == 0 || s.last().0.key <= e.0.key) {
        let front = s.drop_last();
        let last = s.last();
        lemma_insert_stable(front, e, k);
        assert(front.push(last) =~= s);
        assert(insert_event(s, e).to_multiset() =~= s.to_multiset().insert(e));
    }
}

/// The spec sort is a stable sort by key: its result is sorted, holds the
/// same events as its input, and keeps the events of each key in their
/// input order.
pub proof fn lemma_sort_events_stable<T>(s: Seq<(Boundary<T>, Owner)>)
    ensures
        is_sorted(sort_events(s)),
        sort_events(s).to_multiset() == s.to_multiset(),
        forall|k: u64| #[trigger] sort_events(s).filter(at_key(k)) == s.filter(at_key(k)),
    decreases s.len(),
{
    broadcast use vstd::seq_lib::to_multiset_build, vstd::seq::Seq::lemma_filter_push;

    lemma_sort_sorted(s);
    if s.len() == 0 {
    } else {
        let front = s.drop_last();
        let last = s.last();
        lemma_sort_events_stable(front);
        assert(front.push(last) =~= s);
        lemma_insert_stable(sort_events(front), last, 0);
        assert forall|k: u64| #[trigger] sort_events(s).filter(at_key(k)) == s.filter(at_key(k)) by {
            lemma_insert_stable(sort_events(front), last, k);
        }
    }
}

/// Appends the events of one operand's entry/exit pairs.
fn push_events<T: Copy>(
    events: &mut Vec<(Boundary<T>, Owner)>,
    pairs: &Vec<(Boundary<T>, Boundary<T>)>,
    owner: Owner,
)
    ensures
        final(events)@ == old(events)@ + flatten(pairs@, owner),
{
    let mut i: usize = 0;
    while i < pairs.len()
        invariant
            i <= pairs@.len(),
            events@ == old(events)@ + flatten(pairs@.take(i as int), owner),
        decreases pairs@.len() - i,
    {
        let (entry, exit) = pairs[i];
        events.push((entry, owner));
        events.push((exit.inverse(), owner));
        assert(pairs@.take(i + 1).drop_last() =~= pairs@.take(i as int));
        assert(events@ =~= old(events)@ + flatten(pairs@.take(i + 1), owner));
        i = i + 1;
    }
    assert(pairs@.take(i as int) =~= pairs@);
}

/// Inserts `e` into the sorted `events` after every event whose key is not
/// greater than its own.
fn insert_sorted<T: Copy>(events: &mut Vec<(Boundary<T>, Owner)>, e: (Boundary<T>, Owner))
    ensures
        final(events)@ == insert_event(old(events)@, e),
{
    let mut j: usize = events.len();
    while j > 0 && events[j - 1].0.key > e.0.key
        invariant
            j <= events@.len(),
            forall|k: int| j <= k < events@.len() ==> events@[k].0.key > e.0.key,
        decreases j,
    {
        j = j - 1;
    }
    proof {
        lemma_insert_at(events@, e, j as int);
    }
    events.insert(j, e);
}

/// The events sorted by key; events of equal key keep their order.
fn sorted_events<T: Copy>(events: &Vec<(Boundary<T>, Owner)>) -> (r: Vec<(Boundary<T>, Owner)>)
    ensures
        r@ == sort_events(events@),
{
    let mut r: Vec<(Boundary<T>, Owner)> = Vec::new();
    let mut i: usize = 0;
    while i < events.len()
        invariant
            i <= events@.len(),
            r@ == sort_events(events@.take(i as int)),
        decreases events@.len() - i,
    {
        assert(events@.take(i + 1).drop_last() =~= events@.take(i as int));
        insert_sorted(&mut r, events[i]);
        i = i + 1;
    }
    assert(events@.take(i as int) =~= events@);
    r
}

/// Sweeps the boundaries of both operands in order along the ray and
/// returns every region between them, with its membership in each operand.
pub fn get_regions<T: Copy>(
    a: &Vec<(Boundary<T>, Boundary<T>)>,
    b: &Vec<(Boundary<T>, Boundary<T>)>,
) -> (r: Vec<Region<T>>)
    ensures
        r@ == regions(a@, b@),
{
    let mut unsorted: Vec<(Boundary<T>, Owner)> = Vec::new();
    push_events(&mut unsorted, a, Owner::A);
    push_events(&mut unsorted, b, Owner::B);
    assert(unsorted@ =~= events(a@, b@));
    let events = sorted_events(&unsorted);
    let ghost s = events@;
    proof {
        assert(s.take(0) =~= seq![]);
    }
    let mut regions: Vec<Region<T>> = Vec::new();
    regions.push(
        Region { start: Bound::NegInfinity, end: Bound::NegInfinity, a: false, b: false },
    );
    let mut i: usize = 0;
    while i < events.len()
        invariant
            s == events@,
            i <= s.len(),
            regions@.len() == i + 1,
            forall|k: int| 0 <= k < i ==> #[trigger] regions@[k] == region_at(s, k),
            regions@[i as int].start == region_at(s, i as int).start,
            regions@[i as int].a == inside(s, i as int, Owner::A),
            regions@[i as int].b == inside(s, i as int, Owner::B),
        decreases s.len() - i,
    {
        let (boundary, owner) = events[i];
        let previous = regions[i];
        regions.set(
            i,
            Region { start: previous.start, end: Bound::At(boundary.inverse()), a: previous.a, b: previous.b },
        );
        let (a_inside, b_inside) = match owner {
            Owner::A => (!previous.a, previous.b),
            Owner::B => (previous.a, !previous.b),
        };
        proof {
            assert(s.take(i + 1).drop_last() =~= s.take(i as int));
            assert(inside(s, i + 1, Owner::A) == a_inside);
            assert(inside(s, i + 1, Owner::B) == b_inside);
        }
        regions.push(Region { start: Bound::At(boundary), end: Bound::At(boundary), a: a_inside, b: b_inside });
        i = i + 1;
    }
    let last = regions[i];
    regions.set(i, Region { start: last.start, end: Bound::PosInfinity, a: last.a, b: last.b });
    assert(regions@ =~= regions_of(s));
    regions
}

fn keeps_region<T: Copy>(op: CsgOp, r: &Region<T>) -> (k: bool)
    ensures
        k == keeps(op, *r),
{
    match op {
        CsgOp::Intersection => r.a && r.b,
        CsgOp::Difference => r.a && !r.b,
    }
}

/// The entry/exit pairs of the combination `op` of two operands, given the
/// entry/exit pairs of each along the same ray.
pub fn combine<T: Copy>(
    op: CsgOp,
    a: &Vec<(Boundary<T>, Boundary<T>)>,
    b: &Vec<(Boundary<T>, Boundary<T>)>,
) -> (r: Vec<(Boundary<T>, Boundary<T>)>)
    ensures
        r@ == combined(op, a@, b@),
{
    let rs = get_regions(a, b);
    proof {
        lemma_kept_regions_bounded(a@, b@, op);
    }
    let mut r: Vec<(Boundary<T>, Boundary<T>)> = Vec::new();
    let mut k: usize = 0;
    while k < rs.len()
        invariant
            rs@ == regions(a@, b@),
            k <= rs@.len(),
            r@ == kept(rs@.take(k as int), op),
            forall|j: int|
                0 <= j < rs@.len() && keeps(op, #[trigger] rs@[j]) ==> (
                rs@[j].start is At && rs@[j].end is At),
        decreases rs@.len() - k,
    {
        let region = rs[k];
        assert(rs@.take(k + 1).drop_last() =~= rs@.take(k as int));
        if keeps_region(op, &region) {
            if let Bound::At(start) = region.start {
                if let Bound::At(end) = region.end {
                    if start.key < end.key {
                        r.push((start, end));
                    }
                }
            }
        }
        assert(r@ =~= kept(rs@.take(k + 1), op));
        k = k + 1;
    }
    assert(rs@.take(k as int) =~= rs@);
    r
}

/// The stretches of the ray inside both operands.
pub fn intersection<T: Copy>(
    a: &Vec<(Boundary<T>, Boundary<T>)>,
    b: &Vec<(Boundary<T>, Boundary<T>)>,
) -> (r: Vec<(Boundary<T>, Boundary<T>)>)
    ensures
        r@ == combined(CsgOp::Intersection, a@, b@),
{
    combine(CsgOp::Intersection, a, b)
}

/// The stretches of the ray inside operand `a` and outside operand `b`.
pub fn difference<T: Copy>(
    a: &Vec<(Boundary<T>, Boundary<T>)>,
    b: &Vec<(Boundary<T>, Boundary<T>)>,
) -> (r: Vec<(Boundary<T>, Boundary<T>)>)
    ensures
        r@ == combined(CsgOp::Difference, a@, b@),
{
    combine(CsgOp::Difference, a, b)
}

/// Whether each pair of `pairs` enters strictly before it exits, and each
/// pair exits no later than the next one enters: the pairs come nearest
/// first and do not overlap.
pub open spec fn pairs_sorted<T>(pairs: Seq<(Boundary<T>, Boundary<T>)>) -> bool {
    &&& forall|i: int| 0 <= i < pairs.len() ==> (#[trigger] pairs[i]).0.key < pairs[i].1.key
    &&& forall|i: int, j: int|
        0 <= i < j < pairs.len() ==> (#[trigger] pairs[i]).1.key <= (#[trigger] pairs[j]).0.key
}

proof fn lemma_kept_prefix_sorted<T>(
    a: Seq<(Boundary<T>, Boundary<T>)>,
    b: Seq<(Boundary<T>, Boundary<T>)>,
    op: CsgOp,
    m: int,
)
    requires
        0 <= m <= regions(a, b).len(),
    ensures
        pairs_sorted(kept(regions(a, b).take(m), op)),
        1 <= m <= sort_events(events(a, b)).len() ==> forall|i: int|
            0 <= i < kept(regions(a, b).take(m), op).len() ==> (#[trigger] kept(
                regions(a, b).take(m),
                op,
            )[i]).1.key <= sort_events(events(a, b))[m - 1].0.key,
    decreases m,
{
    let s = sort_events(events(a, b));
    let rs = regions(a, b);
    lemma_sort_sorted(events(a, b));
    lemma_kept_regions_bounded(a, b, op);
    lemma_outer_regions(a, b);
    if m == 0 {
        assert(rs.take(0) =~= Seq::<Region<T>>::empty());
    } else {
        let p = m - 1;
        lemma_kept_prefix_sorted(a, b, op, p);
        let front = kept(rs.take(p), op);
        let ks = kept(rs.take(m), op);
        assert(rs.take(m).drop_last() =~= rs.take(p));
        assert(rs.take(m).last() == rs[p]);
        assert(rs[p] == region_at(s, p));
        if selects(op, rs[p]) {
            assert(0 < p < s.len());
            assert(ks == front.push((s[p - 1].0, inverse(s[p].0))));
            assert(s[p - 1].0.key <= s[p].0.key);
            assert forall|i: int, j: int| 0 <= i < j < ks.len() implies (#[trigger] ks[i]).1.key
                <= (#[trigger] ks[j]).0.key by {
                if j < front.len() {
                    assert(ks[i] == front[i] && ks[j] == front[j]);
                } else {
                    assert(ks[i] == front[i]);
                    assert(front[i].1.key <= s[p - 1].0.key);
                }
            }
            assert forall|i: int| 0 <= i < ks.len() implies (#[trigger] ks[i]).0.key < ks[i].1.key by {
                if i < front.len() {
                    assert(ks[i] == front[i]);
                }
            }
            assert forall|i: int| 0 <= i < ks.len() implies (#[trigger] ks[i]).1.key <= s[m - 1].0.key by {
                if i < front.len() {
                    assert(ks[i] == front[i]);
                    assert(front[i].1.key <= s[p - 1].0.key);
                }
            }
        } else {
            assert(ks =~= front);
            if 1 <= m <= s.len() && p >= 1 {
                assert(s[p - 1].0.key <= s[p].0.key);
            }
            if p == 0 {
                assert(!selects(op, rs[0]));
                assert(front =~= Seq::<(Boundary<T>, Boundary<T>)>::empty());
            }
        }
    }
}

/// The entry/exit pairs of a combination come out nearest first: each
/// enters strictly before it exits, and exits no later than the next one
/// enters. The first pair is therefore the nearest.
pub proof fn lemma_combined_pairs_sorted<T>(
    op: CsgOp,
    a: Seq<(Boundary<T>, Boundary<T>)>,
    b: Seq<(Boundary<T>, Boundary<T>)>,
)
    ensures
        pairs_sorted(combined(op, a, b)),
{
    let rs = regions(a, b);
    lemma_kept_prefix_sorted(a, b, op, rs.len() as int);
    assert(rs.take(rs.len() as int) =~= rs);
}

proof fn lemma_inside_steps<T>(s: Seq<(Boundary<T>, Owner)>, o: Owner)
    ensures
        !inside(s, 0, o),
        forall|k: int|
            0 <= k < s.len() ==> #[trigger] inside(s, k + 1, o) == (inside(s, k, o) != (s[k].1
                == o)),
{
    assert(s.take(0) =~= seq![]);
    assert forall|k: int| 0 <= k < s.len() implies #[trigger] inside(s, k + 1, o) == (inside(
        s,
        k,
        o,
    ) != (s[k].1 == o)) by {
        assert(s.take(k + 1).drop_last() =~= s.take(k));
    }
}

proof fn lemma_kept_none<T>(rs: Seq<Region<T>>, op: CsgOp)
    requires
        forall|i: int| 0 <= i < rs.len() ==> !selects(op, #[trigger] rs[i]),
    ensures
        kept(rs, op) == Seq::<(Boundary<T>, Boundary<T>)>::empty(),
    decreases rs.len(),
{
    if rs.len() > 0 {
        lemma_kept_none(rs.drop_last(), op);
        assert(kept(rs, op) =~= Seq::<(Boundary<T>, Boundary<T>)>::empty());
    }
}

proof fn lemma_kept_one<T>(rs: Seq<Region<T>>, op: CsgOp, k: int)
    requires
        0 <= k < rs.len(),
        selects(op, rs[k]),
        forall|i: int| 0 <= i < rs.len() && i != k ==> !selects(op, #[trigger] rs[i]),
    ensures
        kept(rs, op) == seq![(bound_hit(rs[k].start), bound_hit(rs[k].end))],
    decreases rs.len(),
{
    let front = rs.drop_last();
    if k == rs.len() - 1 {
        lemma_kept_none(front, op);
        assert(kept(rs, op) =~= seq![(bound_hit(rs[k].start), bound_hit(rs[k].end))]);
    } else {
        lemma_kept_one(front, op, k);
        assert(kept(rs, op) =~= seq![(bound_hit(rs[k].start), bound_hit(rs[k].end))]);
    }
}

proof fn lemma_sort_prefixes<T>(s: Seq<(Boundary<T>, Owner)>)
    ensures
        sort_events(s.take(0)) == Seq::<(Boundary<T>, Owner)>::empty(),
        sort_events(s.take(s.len() as int)) == sort_events(s),
        forall|i: int|
            0 <= i < s.len() ==> #[trigger] sort_events(s.take(i + 1)) == insert_event(
                sort_events(s.take(i)),
                s[i],
            ),
{
    assert(s.take(0) =~= Seq::<(Boundary<T>, Owner)>::empty());
    assert(s.take(s.len() as int) =~= s);
    assert forall|i: int| 0 <= i < s.len() implies #[trigger] sort_events(s.take(i + 1))
        == insert_event(sort_events(s.take(i)), s[i]) by {
        assert(s.take(i + 1).drop_last() =~= s.take(i));
    }
}

proof fn lemma_flatten_one<T>(pairs: Seq<(Boundary<T>, Boundary<T>)>, o: Owner)
    requires
        pairs.len() == 1,
    ensures
        flatten(pairs, o) == seq![(pairs[0].0, o), (inverse(pairs[0].1), o)],
{
    assert(pairs.drop_last() =~= Seq::<(Boundary<T>, Boundary<T>)>::empty());
    assert(flatten(pairs.drop_last(), o) =~= Seq::<(Boundary<T>, Owner)>::empty());
    assert(pairs.last() == pairs[0]);
    assert(flatten(pairs, o) =~= seq![(pairs[0].0, o), (inverse(pairs[0].1), o)]);
}

proof fn lemma_flatten_none<T>(pairs: Seq<(Boundary<T>, Boundary<T>)>, o: Owner)
    requires
        pairs.len() == 0,
    ensures
        flatten(pairs, o) == Seq::<(Boundary<T>, Owner)>::empty(),
{
}

/// The pairs of at most one entry and one exit, the entry strictly nearer
/// than the exit: what a sphere or a plane yields for one ray.
pub open spec fn is_single_span<T>(pairs: Seq<(Boundary<T>, Boundary<T>)>) -> bool {
    pairs.len() <= 1 && (pairs.len() == 1 ==> pairs[0].0.key < pairs[0].1.key)
}

/// Intersecting a solid crossed once with itself gives back its own
/// entry/exit pair: intersection is idempotent.
pub proof fn lemma_intersection_idempotent<T>(a: Seq<(Boundary<T>, Boundary<T>)>)
    requires
        is_single_span(a),
    ensures
        combined(CsgOp::Intersection, a, a) == a,
{
    let op = CsgOp::Intersection;
    let ev = events(a, a);
    let s = sort_events(ev);
    let rs = regions(a, a);
    lemma_sort_prefixes(ev);
    lemma_inside_steps(s, Owner::A);
    lemma_inside_steps(s, Owner::B);
    if a.len() == 0 {
        lemma_flatten_none(a, Owner::A);
        lemma_flatten_none(a, Owner::B);
        assert(ev =~= Seq::<(Boundary<T>, Owner)>::empty());
        assert(ev.take(0) =~= ev);
        lemma_kept_none(rs, op);
        assert(a =~= Seq::<(Boundary<T>, Boundary<T>)>::empty());
    } else {
        let (e, x) = a[0];
        lemma_flatten_one(a, Owner::A);
        lemma_flatten_one(a, Owner::B);
        let s0 = (e, Owner::A);
        let s1 = (inverse(x), Owner::A);
        let s2 = (e, Owner::B);
        let s3 = (inverse(x), Owner::B);
        assert(ev =~= seq![s0, s1, s2, s3]);
        let e0 = Seq::<(Boundary<T>, Owner)>::empty();
        assert(insert_event(e0, s0) =~= seq![s0]);
        assert(insert_event(seq![s0], s1) =~= seq![s0, s1]);
        assert(seq![s0, s1].drop_last() =~= seq![s0]);
        assert(insert_event(seq![s0], s2) =~= seq![s0, s2]);
        assert(insert_event(seq![s0, s1], s2) =~= seq![s0, s2, s1]);
        assert(insert_event(seq![s0, s2, s1], s3) =~= seq![s0, s2, s1, s3]);
        assert(s == seq![s0, s2, s1, s3]);
        assert(inverse(inverse(x)) == x);
        assert forall|i: int| 0 <= i < rs.len() && i != 2 implies !selects(op, #[trigger] rs[i]) by {
            assert(rs[i] == region_at(s, i));
        }
        assert(rs[2] == region_at(s, 2));
        lemma_kept_one(rs, op, 2);
        assert(combined(op, a, a) =~= a);
    }
}

/// Whether two single spans share no point of the ray: one ends strictly
/// before the other begins.
pub open spec fn spans_disjoint<T>(
    a: Seq<(Boundary<T>, Boundary<T>)>,
    b: Seq<(Boundary<T>, Boundary<T>)>,
) -> bool {
    a.len() == 1 && b.len() == 1 ==> (b[0].1.key < a[0].0.key || a[0].1.key < b[0].0.key)
}

/// Cutting away a solid that the ray crosses nowhere near the first one
/// leaves the first one's entry/exit pair unchanged.
pub proof fn lemma_difference_disjoint<T>(
    a: Seq<(Boundary<T>, Boundary<T>)>,
    b: Seq<(Boundary<T>, Boundary<T>)>,
)
    requires
        is_single_span(a),
        is_single_span(b),
        spans_disjoint(a, b),
    ensures
        combined(CsgOp::Difference, a, b) == a,
{
    let op = CsgOp::Difference;
    let ev = events(a, b);
    let s = sort_events(ev);
    let rs = regions(a, b);
    let e0 = Seq::<(Boundary<T>, Owner)>::empty();
    lemma_sort_prefixes(ev);
    lemma_inside_steps(s, Owner::A);
    lemma_inside_steps(s, Owner::B);
    if a.len() == 0 {
        lemma_flatten_none(a, Owner::A);
        assert(a =~= Seq::<(Boundary<T>, Boundary<T>)>::empty());
        if b.len() == 0 {
            lemma_flatten_none(b, Owner::B);
            assert(ev =~= e0);
        } else {
            lemma_flatten_one(b, Owner::B);
            let t0 = (b[0].0, Owner::B);
            let t1 = (inverse(b[0].1), Owner::B);
            assert(ev =~= seq![t0, t1]);
            assert(insert_event(e0, t0) =~= seq![t0]);
            assert(insert_event(seq![t0], t1) =~= seq![t0, t1]);
            assert(s == seq![t0, t1]);
        }
        assert forall|i: int| 0 <= i < rs.len() implies !selects(op, #[trigger] rs[i]) by {
            assert(rs[i] == region_at(s, i));
        }
        lemma_kept_none(rs, op);
    } else {
        let (e, x) = a[0];
        lemma_flatten_one(a, Owner::A);
        let s0 = (e, Owner::A);
        let s1 = (inverse(x), Owner::A);
        assert(inverse(inverse(x)) == x);
        let k: int;
        if b.len() == 0 {
            lemma_flatten_none(b, Owner::B);
            assert(ev =~= seq![s0, s1]);
            assert(insert_event(e0, s0) =~= seq![s0]);
            assert(insert_event(seq![s0], s1) =~= seq![s0, s1]);
            assert(s == seq![s0, s1]);
            k = 1;
        } else {
            let (f, y) = b[0];
            lemma_flatten_one(b, Owner::B);
            let s2 = (f, Owner::B);
            let s3 = (inverse(y), Owner::B);
            assert(ev =~= seq![s0, s1, s2, s3]);
            assert(insert_event(e0, s0) =~= seq![s0]);
            assert(insert_event(seq![s0], s1) =~= seq![s0, s1]);
            if y.key < e.key {
                assert(insert_event(e0, s2) =~= seq![s2]);
                assert(seq![s0, s1].drop_last() =~= seq![s0]);
                assert(f.key < e.key);
                assert(seq![s0].drop_last() =~= e0);
                assert(insert_event(seq![s0], s2) =~= seq![s2, s0]);
                assert(insert_event(seq![s0, s1], s2) =~= seq![s2, s0, s1]);
                assert(seq![s2, s0, s1].drop_last() =~= seq![s2, s0]);
                assert(seq![s2, s0].drop_last() =~= seq![s2]);
                assert(insert_event(seq![s2], s3) =~= seq![s2, s3]);
                assert(insert_event(seq![s2, s0], s3) =~= seq![s2, s3, s0]);
                assert(insert_event(seq![s2, s0, s1], s3) =~= seq![s2, s3, s0, s1]);
                assert(s == seq![s2, s3, s0, s1]);
                k = 3;
            } else {
                assert(insert_event(seq![s0, s1], s2) =~= seq![s0, s1, s2]);
                assert(insert_event(seq![s0, s1, s2], s3) =~= seq![s0, s1, s2, s3]);
                assert(s == seq![s0, s1, s2, s3]);
                k = 1;
            }
        }
        assert forall|i: int| 0 <= i < rs.len() && i != k implies !selects(op, #[trigger] rs[i]) by {
            assert(rs[i] == region_at(s, i));
        }
        assert(rs[k] == region_at(s, k));
        lemma_kept_one(rs, op, k);
        assert(combined(op, a, b) =~= a);
    }
}

/// Cutting a solid away from itself leaves nothing: the two coinciding
/// entries and exits bound only regions of no length.
pub proof fn lemma_difference_self<T>(a: Seq<(Boundary<T>, Boundary<T>)>)
    requires
        is_single_span(a),
    ensures
        combined(CsgOp::Difference, a, a).len() == 0,
{
    let op = CsgOp::Difference;
    let ev = events(a, a);
    let s = sort_events(ev);
    let rs = regions(a, a);
    let e0 = Seq::<(Boundary<T>, Owner)>::empty();
    lemma_sort_prefixes(ev);
    lemma_inside_steps(s, Owner::A);
    lemma_inside_steps(s, Owner::B);
    if a.len() == 0 {
        lemma_flatten_none(a, Owner::A);
        lemma_flatten_none(a, Owner::B);
        assert(ev =~= e0);
    } else {
        let (e, x) = a[0];
        lemma_flatten_one(a, Owner::A);
        lemma_flatten_one(a, Owner::B);
        let s0 = (e, Owner::A);
        let s1 = (inverse(x), Owner::A);
        let s2 = (e, Owner::B);
        let s3 = (inverse(x), Owner::B);
        assert(ev =~= seq![s0, s1, s2, s3]);
        assert(insert_event(e0, s0) =~= seq![s0]);
        assert(insert_event(seq![s0], s1) =~= seq![s0, s1]);
        assert(seq![s0, s1].drop_last() =~= seq![s0]);
        assert(insert_event(seq![s0], s2) =~= seq![s0, s2]);
        assert(insert_event(seq![s0, s1], s2) =~= seq![s0, s2, s1]);
        assert(insert_event(seq![s0, s2, s1], s3) =~= seq![s0, s2, s1, s3]);
        assert(s == seq![s0, s2, s1, s3]);
    }
    assert forall|i: int| 0 <= i < rs.len() implies !selects(op, #[trigger] rs[i]) by {
        assert(rs[i] == region_at(s, i));
    }
    lemma_kept_none(rs, op);
}

} // verus!
