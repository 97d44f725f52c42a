//! Gluing the outer fragments of a multipolygon into closed rings.

use crate::geom::LonLat;
use vstd::prelude::*;

verus! {

/// The point sequences held by a list of vectors.
pub open spec fn rings_view(v: Seq<Vec<LonLat>>) -> Seq<Seq<LonLat>> {
    v.map_values(|x: Vec<LonLat>| x@)
}

/// A ring is closed when its first point is its last.
pub open spec fn is_closed(p: Seq<LonLat>) -> bool {
    p.len() > 0 && p[0] == p.last()
}

/// The closed sequences, in their order.
pub open spec fn closed_parts(s: Seq<Seq<LonLat>>) -> Seq<Seq<LonLat>>
    decreases s.len(),
{
    if s.len() == 0 {
        Seq::empty()
    } else if is_closed(s.last()) {
        closed_parts(s.drop_last()).push(s.last())
    } else {
        closed_parts(s.drop_last())
    }
}

/// The open sequences, in their order.
pub open spec fn open_parts(s: Seq<Seq<LonLat>>) -> Seq<Seq<LonLat>>
    decreases s.len(),
{
    if s.len() == 0 {
        Seq::empty()
    } else if !is_closed(s.last()) {
        open_parts(s.drop_last()).push(s.last())
    } else {
        open_parts(s.drop_last())
    }
}

/// Every point that occurs in one of the sequences.
pub open spec fn points_of(s: Seq<Seq<LonLat>>) -> Set<LonLat> {
    Set::new(|p: LonLat| exists|r: Seq<LonLat>| s.contains(r) && r.contains(p))
}

pub open spec fn all_nonempty(s: Seq<Seq<LonLat>>) -> bool {
    forall|i: int| 0 <= i < s.len() ==> (#[trigger] s[i]).len() > 0
}

/// The fragment starts or ends at `p`.
pub open spec fn attaches(f: Seq<LonLat>, p: LonLat) -> bool {
    f[0] == p || f.last() == p
}

/// The first fragment of `pool` that starts or ends at `p`.
pub open spec fn first_attachable(pool: Seq<Seq<LonLat>>, p: LonLat) -> Option<int> {
    if exists|i: int| 0 <= i < pool.len() && attaches(pool[i], p) {
        Some(
            choose|i: int|
                0 <= i < pool.len() && attaches(pool[i], p) && forall|j: int|
                    0 <= j < i ==> !attaches(pool[j], p),
        )
    } else {
        None
    }
}

/// Splices the fragments of `pool` onto the end of `acc`, one at a time: the first
/// fragment that starts or ends where `acc` ends is appended (turned around if it ends
/// there), the shared point kept once. When none fits, `acc` is turned around, once;
/// when none fits after that either, the gluing fails.
pub open spec fn splice(acc: Seq<LonLat>, pool: Seq<Seq<LonLat>>, reversed: bool) -> Option<
    Seq<LonLat>,
>
    decreases 2 * pool.len() + if reversed {
        0int
    } else {
        1int
    },
{
    if pool.len() == 0 {
        Some(acc)
    } else {
        match first_attachable(pool, acc.last()) {
            Some(i) => if 0 <= i < pool.len() {
                let f = pool[i];
                let app = if f[0] == acc.last() {
                    f
                } else {
                    f.reverse()
                };
                splice(acc.drop_last() + app, pool.remove(i), reversed)
            } else {
                None
            },
            None => if reversed {
                None
            } else {
                splice(acc.reverse(), pool, true)
            },
        }
    }
}

/// A ring closed by a straight segment when its ends are apart.
pub open spec fn close_ring(r: Seq<LonLat>) -> Seq<LonLat> {
    if is_closed(r) {
        r
    } else {
        r.push(r[0])
    }
}

/// The rings glued from `frags`: the closed ones as they are, then the open ones spliced
/// together starting from the last of them, and closed; nothing at all when the
/// splicing fails.
pub open spec fn glue_spec(frags: Seq<Seq<LonLat>>) -> Seq<Seq<LonLat>> {
    let c = closed_parts(frags);
    let o = open_parts(frags);
    if o.len() == 0 {
        c
    } else {
        match splice(o.last(), o.drop_last(), false) {
            Some(ring) => c.push(close_ring(ring)),
            None => Seq::empty(),
        }
    }
}

/// Two point sequences have a common end.
pub open spec fn share_an_end(a: Seq<LonLat>, b: Seq<LonLat>) -> bool {
    a[0] == b[0] || a[0] == b.last() || a.last() == b[0] || a.last() == b.last()
}

/// What gluing `frags` into `rings` guarantees, whichever way it went.
pub open spec fn glue_outcome(frags: Seq<Seq<LonLat>>, rings: Seq<Seq<LonLat>>) -> bool {
    &&& forall|k: int| 0 <= k < rings.len() ==> is_closed(#[trigger] rings[k])
    &&& (open_parts(frags).len() == 0 ==> rings == closed_parts(frags))
    &&& (open_parts(frags).len() == 1 ==> rings == closed_parts(frags).push(
        open_parts(frags)[0].push(open_parts(frags)[0][0]),
    ))
    &&& (open_parts(frags).len() > 0 && rings.len() > 0 ==> {
        &&& rings.len() == closed_parts(frags).len() + 1
        &&& rings.drop_last() == closed_parts(frags)
        &&& points_of(seq![rings.last()]) == points_of(open_parts(frags))
    })
    &&& (rings.len() > 0 ==> points_of(rings) == points_of(frags))
    &&& (open_parts(frags).len() == 2 && share_an_end(open_parts(frags)[0], open_parts(frags)[1])
        ==> rings.len() > 0)
}

pub proof fn lemma_parts_contain(s: Seq<Seq<LonLat>>)
    ensures
        forall|r: Seq<LonLat>|
            #[trigger] closed_parts(s).contains(r) <==> (s.contains(r) && is_closed(r)),
        forall|r: Seq<LonLat>|
            #[trigger] open_parts(s).contains(r) <==> (s.contains(r) && !is_closed(r)),
    decreases s.len(),
{
    if s.len() > 0 {
        lemma_parts_contain(s.drop_last());
        assert forall|r: Seq<LonLat>| #[trigger] s.contains(r) <==> (s.drop_last().contains(r) || r
            == s.last()) by {
            if s.contains(r) {
                let i = choose|i: int| 0 <= i < s.len() && s[i] == r;
                if i < s.len() - 1 {
                    assert(s.drop_last()[i] == r);
                }
            }
            if s.drop_last().contains(r) {
                let i = choose|i: int| 0 <= i < s.drop_last().len() && s.drop_last()[i] == r;
                assert(s[i] == r);
            }
            if r == s.last() {
                assert(s[s.len() - 1] == r);
            }
        }
        assert forall|r: Seq<LonLat>| #[trigger] closed_parts(s).contains(r) <==> (s.contains(r)
            && is_closed(r)) by {
            let c = closed_parts(s.drop_last());
            if is_closed(s.last()) {
                assert(closed_parts(s) == c.push(s.last()));
                if c.push(s.last()).contains(r) && r != s.last() {
                    let i = choose|i: int| 0 <= i < c.len() + 1 && c.push(s.last())[i] == r;
                    assert(c[i] == r);
                }
                if c.contains(r) {
                    let i = choose|i: int| 0 <= i < c.len() && c[i] == r;
                    assert(c.push(s.last())[i] == r);
                }
                if r == s.last() {
                    assert(c.push(s.last())[c.len() as int] == r);
                }
            }
        }
        assert forall|r: Seq<LonLat>| #[trigger] open_parts(s).contains(r) <==> (s.contains(r)
            && !is_closed(r)) by {
            let c = open_parts(s.drop_last());
            if !is_closed(s.last()) {
                assert(open_parts(s) == c.push(s.last()));
                if c.push(s.last()).contains(r) && r != s.last() {
                    let i = choose|i: int| 0 <= i < c.len() + 1 && c.push(s.last())[i] == r;
                    assert(c[i] == r);
                }
                if c.contains(r) {
                    let i = choose|i: int| 0 <= i < c.len() && c[i] == r;
                    assert(c.push(s.last())[i] == r);
                }
                if r == s.last() {
                    assert(c.push(s.last())[c.len() as int] == r);
                }
            }
        }
    }
}

pub proof fn lemma_seq_contains_push<T>(s: Seq<T>, x: T)
    ensures
        forall|y: T| #[trigger] s.push(x).contains(y) <==> (s.contains(y) || y == x),
{
    assert forall|y: T| #[trigger] s.push(x).contains(y) <==> (s.contains(y) || y == x) by {
        if s.push(x).contains(y) && y != x {
            let i = choose|i: int| 0 <= i < s.len() + 1 && s.push(x)[i] == y;
            assert(s[i] == y);
        }
        if s.contains(y) {
            let i = choose|i: int| 0 <= i < s.len() && s[i] == y;
            assert(s.push(x)[i] == y);
        }
        if y == x {
            assert(s.push(x)[s.len() as int] == y);
        }
    }
}

proof fn lemma_points_push(s: Seq<Seq<LonLat>>, x: Seq<LonLat>)
    ensures
        points_of(s.push(x)) == points_of(s).union(x.to_set()),
{
    lemma_seq_contains_push(s, x);
    assert forall|p: LonLat| #[trigger] points_of(s.push(x)).contains(p) <==> points_of(s).union(
        x.to_set(),
    ).contains(p) by {
        if points_of(s.push(x)).contains(p) {
            let r = choose|r: Seq<LonLat>| s.push(x).contains(r) && r.contains(p);
            if r != x {
                assert(s.contains(r));
            }
        }
        if x.to_set().contains(p) {
            assert(s.push(x).contains(x));
        }
        if points_of(s).contains(p) {
            let r = choose|r: Seq<LonLat>| s.contains(r) && r.contains(p);
            assert(s.push(x).contains(r));
        }
    }
    assert(points_of(s.push(x)) =~= points_of(s).union(x.to_set()));
}

proof fn lemma_points_single(x: Seq<LonLat>)
    ensures
        points_of(seq![x]) == x.to_set(),
{
    lemma_points_push(Seq::empty(), x);
    assert(Seq::<Seq<LonLat>>::empty().push(x) =~= seq![x]);
    assert(points_of(Seq::<Seq<LonLat>>::empty()) =~= Set::empty());
    assert(Set::<LonLat>::empty().union(x.to_set()) =~= x.to_set());
}

proof fn lemma_points_remove(s: Seq<Seq<LonLat>>, i: int)
    requires
        0 <= i < s.len(),
    ensures
        points_of(s) == points_of(s.remove(i)).union(s[i].to_set()),
{
    assert forall|r: Seq<LonLat>| #[trigger] s.contains(r) <==> (s.remove(i).contains(r) || r
        == s[i]) by {
        if s.contains(r) && r != s[i] {
            let j = choose|j: int| 0 <= j < s.len() && s[j] == r;
            if j < i {
                assert(s.remove(i)[j] == r);
            } else {
                assert(s.remove(i)[j - 1] == r);
            }
        }
        if s.remove(i).contains(r) {
            let j = choose|j: int| 0 <= j < s.len() - 1 && s.remove(i)[j] == r;
            if j < i {
                assert(s[j] == r);
            } else {
                assert(s[j + 1] == r);
            }
        }
    }
    assert forall|p: LonLat| #[trigger] points_of(s).contains(p) <==> points_of(s.remove(i)).union(
        s[i].to_set(),
    ).contains(p) by {
        if points_of(s).contains(p) {
            let r = choose|r: Seq<LonLat>| s.contains(r) && r.contains(p);
            if r != s[i] {
                assert(s.remove(i).contains(r));
            }
        }
        if s[i].to_set().contains(p) {
            assert(s.contains(s[i]));
        }
        if points_of(s.remove(i)).contains(p) {
            let r = choose|r: Seq<LonLat>| s.remove(i).contains(r) && r.contains(p);
            assert(s.contains(r));
        }
    }
    assert(points_of(s) =~= points_of(s.remove(i)).union(s[i].to_set()));
}

proof fn lemma_points_split(s: Seq<Seq<LonLat>>)
    ensures
        points_of(s) == points_of(closed_parts(s)).union(points_of(open_parts(s))),
{
    lemma_parts_contain(s);
    assert forall|p: LonLat| #[trigger] points_of(s).contains(p) <==> points_of(
        closed_parts(s),
    ).union(points_of(open_parts(s))).contains(p) by {
        if points_of(s).contains(p) {
            let r = choose|r: Seq<LonLat>| s.contains(r) && r.contains(p);
            if is_closed(r) {
                assert(closed_parts(s).contains(r));
            } else {
                assert(open_parts(s).contains(r));
            }
        }
        if points_of(closed_parts(s)).contains(p) {
            let r = choose|r: Seq<LonLat>| closed_parts(s).contains(r) && r.contains(p);
            assert(s.contains(r));
        }
        if points_of(open_parts(s)).contains(p) {
            let r = choose|r: Seq<LonLat>| open_parts(s).contains(r) && r.contains(p);
            assert(s.contains(r));
        }
    }
    assert(points_of(s) =~= points_of(closed_parts(s)).union(points_of(open_parts(s))));
}

/// Splicing `b` onto `a` at their shared point keeps every point of both.
proof fn lemma_splice_points(a: Seq<LonLat>, b: Seq<LonLat>)
    requires
        a.len() > 0,
        b.len() > 0,
        b[0] == a.last(),
    ensures
        (a.drop_last() + b).to_set() == a.to_set().union(b.to_set()),
{
    let c = a.drop_last() + b;
    assert forall|p: LonLat| #[trigger] c.to_set().contains(p) <==> a.to_set().union(
        b.to_set(),
    ).contains(p) by {
        if c.contains(p) {
            let i = choose|i: int| 0 <= i < c.len() && c[i] == p;
            if i < a.len() - 1 {
                assert(a[i] == p);
            } else {
                assert(b[i - (a.len() - 1)] == p);
            }
        }
        if a.contains(p) {
            let i = choose|i: int| 0 <= i < a.len() && a[i] == p;
            if i < a.len() - 1 {
                assert(c[i] == p);
            } else {
                assert(c[a.len() - 1] == p);
            }
        }
        if b.contains(p) {
            let i = choose|i: int| 0 <= i < b.len() && b[i] == p;
            assert(c[a.len() - 1 + i] == p);
        }
    }
    assert(c.to_set() =~= a.to_set().union(b.to_set()));
}

proof fn lemma_open_parts_props(s: Seq<Seq<LonLat>>)
    requires
        all_nonempty(s),
    ensures
        all_nonempty(open_parts(s)),
        all_nonempty(closed_parts(s)),
        forall|k: int| 0 <= k < open_parts(s).len() ==> !is_closed(#[trigger] open_parts(s)[k]),
        forall|k: int| 0 <= k < closed_parts(s).len() ==> is_closed(#[trigger] closed_parts(s)[k]),
{
    lemma_parts_contain(s);
    assert forall|k: int| 0 <= k < open_parts(s).len() implies (#[trigger] open_parts(s)[k]).len()
        > 0 && !is_closed(open_parts(s)[k]) by {
        assert(open_parts(s).contains(open_parts(s)[k]));
        let j = choose|j: int| 0 <= j < s.len() && s[j] == open_parts(s)[k];
    }
    assert forall|k: int| 0 <= k < closed_parts(s).len() implies (#[trigger] closed_parts(
        s,
    )[k]).len() > 0 && is_closed(closed_parts(s)[k]) by {
        assert(closed_parts(s).contains(closed_parts(s)[k]));
    }
}

/// Index of the first fragment that starts or ends at `pt`.
fn find_attachable(frags: &Vec<Vec<LonLat>>, pt: LonLat) -> (r: Option<usize>)
    requires
        all_nonempty(rings_view(frags@)),
    ensures
        r matches Some(i) ==> i < frags@.len() && (frags@[i as int]@[0] == pt
            || frags@[i as int]@.last() == pt),
        r is None ==> forall|i: int|
            0 <= i < frags@.len() ==> frags@[i]@[0] != pt && frags@[i]@.last() != pt,
        r matches Some(i) ==> forall|j: int|
            0 <= j < i ==> frags@[j]@[0] != pt && frags@[j]@.last() != pt,
{
    let mut i: usize = 0;
    while i < frags.len()
        invariant
            i <= frags@.len(),
            all_nonempty(rings_view(frags@)),
            forall|j: int| 0 <= j < i ==> frags@[j]@[0] != pt && frags@[j]@.last() != pt,
        decreases frags@.len() - i,
    {
        assert(rings_view(frags@)[i as int].len() > 0);
        let f = &frags[i];
        if f[0] == pt || f[f.len() - 1] == pt {
            return Some(i);
        }
        i = i + 1;
    }
    None
}

/// Closes a ring whose ends were clipped apart, with a straight segment from its last
/// point back to its first.
pub fn extrude_to_boundary(boundary_polygon: &Vec<LonLat>, result: &mut Vec<LonLat>)
    requires
        old(result)@.len() > 0,
    ensures
        is_closed(final(result)@),
        final(result)@ == if is_closed(old(result)@) {
            old(result)@
        } else {
            old(result)@.push(old(result)@[0])
        },
        final(result)@.to_set() == old(result)@.to_set(),
{
    let first_pt = result[0];
    let last_pt = result[result.len() - 1];
    if first_pt == last_pt {
        return;
    }
    let ghost before = result@;
    result.push(first_pt);
    proof {
        lemma_seq_contains_push(before, first_pt);
        assert(before.contains(before[0]));
        assert(result@.to_set() =~= before.to_set());
    }
}

/// Glues the outer fragments of one multipolygon into closed rings.
///
/// Rings that are closed already come out unchanged and first, in their order. The open
/// fragments are glued end to end into one more ring, starting from the last of them;
/// a fragment may be turned around, and the ring is turned around at most once. When no
/// fragment fits, nothing at all is returned. A ring whose ends stay apart is closed by
/// a straight segment.
#[verifier::rlimit(80)]
pub fn glue_multipolygon(pts_per_way: Vec<Vec<LonLat>>, boundary_polygon: &Vec<LonLat>) -> (r: Vec<
    Vec<LonLat>,
>)
    requires
        all_nonempty(rings_view(pts_per_way@)),
    ensures
        rings_view(r@) == glue_spec(rings_view(pts_per_way@)),
        glue_outcome(rings_view(pts_per_way@), rings_view(r@)),
{
    let ghost frags = rings_view(pts_per_way@);
    let mut polygons: Vec<Vec<LonLat>> = Vec::new();
    let mut open: Vec<Vec<LonLat>> = Vec::new();
    let mut i: usize = 0;
    while i < pts_per_way.len()
        invariant
            i <= pts_per_way@.len(),
            frags == rings_view(pts_per_way@),
            all_nonempty(frags),
            rings_view(polygons@) == closed_parts(frags.take(i as int)),
            rings_view(open@) == open_parts(frags.take(i as int)),
        decreases pts_per_way@.len() - i,
    {
        assert(frags[i as int].len() > 0);
        let pts = copy_points(&pts_per_way[i]);
        assert(frags.take(i + 1).drop_last() =~= frags.take(i as int));
        assert(frags.take(i + 1).last() == pts@);
        let ghost pv = polygons@;
        let ghost ov = open@;
        if pts[0] == pts[pts.len() - 1] {
            polygons.push(pts);
            assert(rings_view(polygons@) =~= rings_view(pv).push(polygons@.last()@));
        } else {
            open.push(pts);
            assert(rings_view(open@) =~= rings_view(ov).push(open@.last()@));
        }
        i = i + 1;
    }
    assert(frags.take(pts_per_way@.len() as int) =~= frags);
    proof {
        lemma_open_parts_props(frags);
        lemma_points_split(frags);
        lemma_parts_contain(frags);
    }
    if open.len() == 0 {
        assert(open_parts(frags).len() == 0);
        assert(points_of(open_parts(frags)) =~= Set::empty());
        assert(points_of(frags) =~= points_of(closed_parts(frags)));
        return polygons;
    }
    let ghost opens = open_parts(frags);
    let ghost last_open = opens.last();
    let mut result = open.pop().unwrap();
    assert(rings_view(open@) =~= opens.drop_last());
    assert(opens.len() == 2 ==> open@[0]@ == rings_view(open@)[0]);
    proof {
        lemma_points_remove(opens, opens.len() - 1);
        assert(opens.remove(opens.len() - 1) =~= opens.drop_last());
    }
    let mut reversed = false;
    let ghost target = splice(last_open, opens.drop_last(), false);
    while open.len() > 0
        invariant
            last_open == opens.last(),
            target == splice(last_open, opens.drop_last(), false),
            splice(result@, rings_view(open@), reversed) == target,
            result@.len() > 0,
            all_nonempty(rings_view(open@)),
            open@.len() < opens.len(),
            opens == open_parts(frags),
            frags == rings_view(pts_per_way@),
            rings_view(polygons@) == closed_parts(frags),
            opens.len() == 1 ==> result@ == opens[0],
            opens.len() == 2 && open@.len() == 1 ==> open@[0]@ == opens[0] && (!reversed
                ==> result@[0] == opens[1][0] && result@.last() == opens[1].last()) && (reversed
                ==> result@.last() == opens[1][0] && opens[0][0] != opens[1].last() && opens[0].last()
                != opens[1].last()),
            result@.to_set().union(points_of(rings_view(open@))) == points_of(opens),
        decreases 2 * open@.len() + if reversed {
            0int
        } else {
            1int
        },
    {
        let glue_pt = result[result.len() - 1];
        match find_attachable(&open, glue_pt) {
            Some(idx) => {
                let ghost ov = rings_view(open@);
                let frag = open.remove(idx);
                assert(rings_view(open@) =~= ov.remove(idx as int));
                assert(ov[idx as int] == frag@);
                let mut append = if frag[0] == glue_pt {
                    frag
                } else {
                    reversed_points(&frag)
                };
                assert(append@.to_set() == frag@.to_set()) by {
                    if frag@[0] == glue_pt {
                    }
                }
                assert(append@[0] == glue_pt) by {
                    if frag@[0] != glue_pt {
                        assert(append@[0] == frag@[frag@.len() - 1]);
                    }
                }
                let ghost before = result@;
                let ghost append_v = append@;
                proof {
                    assert(append_v == if frag@[0] == before.last() { frag@ } else { frag@.reverse() });
                    assert(ov[idx as int] == frag@);
                    assert(first_attachable(ov, before.last()) == Some(idx as int)) by {
                        assert(attaches(ov[idx as int], before.last()));
                        let c = choose|i: int|
                            0 <= i < ov.len() && attaches(ov[i], before.last()) && forall|j: int|
                                0 <= j < i ==> !attaches(ov[j], before.last());
                        assert(forall|j: int| 0 <= j < idx ==> !attaches(ov[j], before.last()));
                        if c < idx {
                            assert(!attaches(ov[c], before.last()));
                        } else if c > idx {
                            assert(!attaches(ov[idx as int], before.last()));
                        }
                    }
                }
                result.pop();
                result.append(&mut append);
                proof {
                    assert(result@ == before.drop_last() + append_v);
                    assert(splice(before, ov, reversed) == splice(result@, rings_view(open@), reversed));
                    assert(before.subrange(0, before.len() - 1) =~= before.drop_last());
                    lemma_splice_points(before, append_v);
                    lemma_points_remove(ov, idx as int);
                    assert(result@.to_set().union(points_of(rings_view(open@))) =~= points_of(
                        opens,
                    ));
                }
            },
            None => {
                let ghost ov = rings_view(open@);
                assert(first_attachable(ov, result@.last()) is None) by {
                    assert forall|i: int| 0 <= i < ov.len() implies !attaches(ov[i], result@.last()) by {
                        assert(ov[i] == open@[i]@);
                    }
                }
                if reversed {
                    let r: Vec<Vec<LonLat>> = Vec::new();
                    assert(rings_view(r@) =~= Seq::empty());
                    assert(target is None);
                    assert(glue_spec(frags) == Seq::<Seq<LonLat>>::empty());
                    assert(rings_view(open@)[0] == open@[0]@);
                    return r;
                }
                reversed = true;
                let ghost before = result@;
                result = reversed_points(&result);
                assert(result@.last() == before[0]);
                assert(splice(before, ov, false) == splice(result@, ov, true));
            },
        }
    }
    assert(points_of(rings_view(open@)) =~= Set::empty());
    assert(result@.to_set() =~= points_of(opens));
    assert(splice(result@, rings_view(open@), reversed) == Some(result@));
    let ghost spliced = result@;
    extrude_to_boundary(boundary_polygon, &mut result);
    assert(result@ == close_ring(spliced));
    let ghost ring = result@;
    let ghost pv = polygons@;
    polygons.push(result);
    proof {
        assert(rings_view(polygons@) =~= closed_parts(frags).push(ring));
        assert(rings_view(polygons@).drop_last() =~= closed_parts(frags));
        lemma_points_single(ring);
        lemma_points_push(closed_parts(frags), ring);
    }
    polygons
}

proof fn lemma_same_members_same_points(a: Seq<Seq<LonLat>>, b: Seq<Seq<LonLat>>)
    requires
        forall|r: Seq<LonLat>| a.contains(r) <==> b.contains(r),
    ensures
        points_of(a) == points_of(b),
{
    assert(points_of(a) =~= points_of(b));
}

/// Gluing does not depend on the order of the fragments, as far as points go. Take the
/// same fragments in two orders, each glued into a nonempty result: both results hold
/// the same closed rings, their glued rings run over the same points, and all of their
/// points are the points of the fragments.
pub proof fn lemma_glue_order_independent(
    f1: Seq<Seq<LonLat>>,
    f2: Seq<Seq<LonLat>>,
    r1: Seq<Seq<LonLat>>,
    r2: Seq<Seq<LonLat>>,
)
    requires
        f1.to_multiset() == f2.to_multiset(),
        glue_outcome(f1, r1),
        glue_outcome(f2, r2),
        r1.len() > 0,
        r2.len() > 0,
    ensures
        points_of(r1) == points_of(r2),
        points_of(r1) == points_of(f1),
        open_parts(f1).len() > 0 <==> open_parts(f2).len() > 0,
        forall|x: Seq<LonLat>|
            #[trigger] closed_parts(f1).contains(x) <==> closed_parts(f2).contains(x),
        open_parts(f1).len() > 0 ==> points_of(seq![r1.last()]) == points_of(seq![r2.last()]),
{
    f1.to_multiset_ensures();
    f2.to_multiset_ensures();
    assert forall|r: Seq<LonLat>| f1.contains(r) <==> f2.contains(r) by {
        assert(f1.contains(r) <==> f1.to_multiset().count(r) > 0);
        assert(f2.contains(r) <==> f2.to_multiset().count(r) > 0);
    }
    lemma_same_members_same_points(f1, f2);
    lemma_parts_contain(f1);
    lemma_parts_contain(f2);
    lemma_same_members_same_points(open_parts(f1), open_parts(f2));
    if open_parts(f1).len() > 0 {
        assert(open_parts(f1).contains(open_parts(f1)[0]));
        assert(open_parts(f2).contains(open_parts(f1)[0]));
    }
    if open_parts(f2).len() > 0 {
        assert(open_parts(f2).contains(open_parts(f2)[0]));
        assert(open_parts(f1).contains(open_parts(f2)[0]));
    }
}

/// Closed rings handed to the assembler come back unchanged and in their order, ahead of
/// the ring glued from the open fragments.
pub proof fn lemma_closed_rings_kept(frags: Seq<Seq<LonLat>>, rings: Seq<Seq<LonLat>>)
    requires
        glue_outcome(frags, rings),
        rings.len() > 0,
    ensures
        rings.len() >= closed_parts(frags).len(),
        rings.take(closed_parts(frags).len() as int) == closed_parts(frags),
{
    if open_parts(frags).len() == 0 {
        assert(rings.take(rings.len() as int) =~= rings);
    } else {
        assert(rings.take(closed_parts(frags).len() as int) =~= rings.drop_last());
    }
}

proof fn lemma_reverse_props(f: Seq<LonLat>)
    ensures
        f.reverse().len() == f.len(),
        forall|i: int| 0 <= i < f.len() ==> #[trigger] f.reverse()[i] == f[f.len() - 1 - i],
        f.no_duplicates() ==> f.reverse().no_duplicates(),
        forall|p: LonLat| #[trigger] f.reverse().contains(p) <==> f.contains(p),
{
    assert forall|p: LonLat| #[trigger] f.reverse().contains(p) <==> f.contains(p) by {
        if f.reverse().contains(p) {
            let i = choose|i: int| 0 <= i < f.len() && f.reverse()[i] == p;
            assert(f[f.len() - 1 - i] == p);
        }
        if f.contains(p) {
            let i = choose|i: int| 0 <= i < f.len() && f[i] == p;
            assert(f.reverse()[f.len() - 1 - i] == p);
        }
    }
}

/// `acc` with `f` spliced on at `v`, where `acc` ends and `f` starts or ends.
pub open spec fn splice_onto(acc: Seq<LonLat>, f: Seq<LonLat>, v: LonLat) -> Seq<LonLat> {
    acc.drop_last() + if f[0] == v {
        f
    } else {
        f.reverse()
    }
}

/// Splicing `f` onto `acc`, which ends at their only common point `v`.
proof fn lemma_splice_two(acc: Seq<LonLat>, f: Seq<LonLat>, v: LonLat, b: bool)
    requires
        acc.len() >= 2,
        f.len() >= 2,
        acc.no_duplicates(),
        f.no_duplicates(),
        acc.last() == v,
        f[0] == v || f.last() == v,
        forall|p: LonLat| acc.contains(p) && f.contains(p) ==> p == v,
    ensures
        ({
            let ring = splice_onto(acc, f, v);
            &&& splice(acc, seq![f], b) == Some(ring)
            &&& ring.len() == acc.len() + f.len() - 1
            &&& ring.no_duplicates()
            &&& ring[0] == acc[0]
            &&& ring.last() != acc[0]
            &&& forall|p: LonLat| #[trigger] ring.contains(p) <==> (acc.contains(p) || f.contains(p))
        }),
{
    lemma_reverse_props(f);
    let app = if f[0] == v { f } else { f.reverse() };
    let ring = splice_onto(acc, f, v);
    assert(ring == acc.drop_last() + app);
    let pool = seq![f];
    assert(attaches(pool[0], acc.last()));
    assert(first_attachable(pool, acc.last()) == Some(0int));
    assert(pool.remove(0) =~= Seq::<Seq<LonLat>>::empty());
    assert(splice(ring, Seq::<Seq<LonLat>>::empty(), b) == Some(ring));
    assert(splice(acc, pool, b) == splice(ring, pool.remove(0), b));
    assert(app[0] == v);
    assert(app.no_duplicates());
    assert forall|p: LonLat| #[trigger] app.contains(p) <==> f.contains(p) by {}
    assert forall|p: LonLat| #[trigger] ring.contains(p) <==> (acc.contains(p) || f.contains(p)) by {
        if ring.contains(p) {
            let i = choose|i: int| 0 <= i < ring.len() && ring[i] == p;
            if i < acc.len() - 1 {
                assert(acc[i] == p);
            } else {
                assert(app[i - (acc.len() - 1)] == p);
            }
        }
        if acc.contains(p) {
            let i = choose|i: int| 0 <= i < acc.len() && acc[i] == p;
            if i < acc.len() - 1 {
                assert(ring[i] == p);
            } else {
                assert(ring[acc.len() - 1] == p);
            }
        }
        if app.contains(p) {
            let i = choose|i: int| 0 <= i < app.len() && app[i] == p;
            assert(ring[acc.len() - 1 + i] == p);
        }
    }
    assert forall|a: int, b: int| 0 <= a < ring.len() && 0 <= b < ring.len() && a != b implies ring[a]
        != ring[b] by {
        let n = acc.len() - 1;
        if a < n && b < n {
        } else if a >= n && b >= n {
            assert(ring[a] == app[a - n] && ring[b] == app[b - n]);
        } else {
            let (x, y) = if a < n { (a, b) } else { (b, a) };
            assert(ring[x] == acc[x]);
            assert(ring[y] == app[y - n]);
            assert(acc.contains(acc[x]));
            assert(app.contains(app[y - n]));
            if acc[x] == app[y - n] {
                assert(f.contains(acc[x]));
                assert(acc[x] == v);
                assert(acc[acc.len() - 1] == v);
            }
        }
    }
    let w = ring.last();
    assert(app.contains(app[app.len() - 1]));
    assert(w == app[app.len() - 1]);
    if w == acc[0] {
        assert(acc.contains(acc[0]));
        assert(f.contains(w));
        assert(w == v);
        assert(app[0] == app[app.len() - 1]);
    }
}

/// Two open fragments whose only common point is an end of each glue into one ring:
/// every point of both, the common one once, closed by a repeat of its first point.
pub proof fn lemma_two_fragments_one_ring(f1: Seq<LonLat>, f2: Seq<LonLat>, v: LonLat)
    requires
        f1.len() >= 2,
        f2.len() >= 2,
        f1.no_duplicates(),
        f2.no_duplicates(),
        f1[0] == v || f1.last() == v,
        f2[0] == v || f2.last() == v,
        forall|p: LonLat| f1.contains(p) && f2.contains(p) ==> p == v,
    ensures
        ({
            let r = glue_spec(seq![f1, f2]);
            &&& r.len() == 1
            &&& r[0].len() == f1.len() + f2.len()
            &&& is_closed(r[0])
            &&& r[0].drop_last().no_duplicates()
            &&& forall|p: LonLat| #[trigger] r[0].contains(p) <==> (f1.contains(p) || f2.contains(p))
        }),
{
    let frags = seq![f1, f2];
    assert(!is_closed(f1)) by {
        assert(f1[0] != f1[f1.len() - 1]);
    }
    assert(!is_closed(f2)) by {
        assert(f2[0] != f2[f2.len() - 1]);
    }
    assert(frags.drop_last() =~= seq![f1]);
    assert(seq![f1].drop_last() =~= Seq::<Seq<LonLat>>::empty());
    assert(seq![f1].last() == f1);
    assert(frags.last() == f2);
    assert(open_parts(Seq::<Seq<LonLat>>::empty()) == Seq::<Seq<LonLat>>::empty());
    assert(closed_parts(Seq::<Seq<LonLat>>::empty()) == Seq::<Seq<LonLat>>::empty());
    assert(open_parts(seq![f1]) =~= seq![f1]);
    assert(open_parts(frags) =~= seq![f1, f2]);
    assert(closed_parts(seq![f1]) =~= Seq::<Seq<LonLat>>::empty());
    assert(closed_parts(frags) =~= Seq::<Seq<LonLat>>::empty());
    let pool = seq![f1];
    lemma_reverse_props(f2);
    let ring = if f2.last() == v {
        lemma_splice_two(f2, f1, v, false);
        splice_onto(f2, f1, v)
    } else {
        assert(f2[0] == v);
        let w = if f1[0] == v { f1.last() } else { f1[0] };
        assert(f1.contains(f1[0]) && f1.contains(f1[f1.len() - 1]));
        assert(f2.contains(f2[f2.len() - 1]));
        assert(!attaches(pool[0], f2.last())) by {
            if f1[0] == f2.last() || f1.last() == f2.last() {
                assert(f2[f2.len() - 1] == v);
                assert(f2[0] == f2[f2.len() - 1]);
            }
        }
        assert(first_attachable(pool, f2.last()) is None);
        let rv = f2.reverse();
        assert(rv.last() == v);
        assert forall|p: LonLat| rv.contains(p) && f1.contains(p) implies p == v by {}
        lemma_splice_two(rv, f1, v, true);
        assert(splice(f2, pool, false) == splice(rv, pool, true));
        assert forall|p: LonLat| #[trigger] splice_onto(rv, f1, v).contains(p) <==> (f1.contains(p)
            || f2.contains(p)) by {
            assert(rv.contains(p) <==> f2.contains(p));
        }
        splice_onto(rv, f1, v)
    };
    let r = glue_spec(frags);
    assert(splice(f2, pool, false) == Some(ring));
    assert(!is_closed(ring));
    assert(close_ring(ring).drop_last() =~= ring);
    assert forall|p: LonLat| #[trigger] close_ring(ring).contains(p) <==> ring.contains(p) by {
        lemma_seq_contains_push(ring, ring[0]);
        assert(ring.contains(ring[0]));
    }
    assert(open_parts(frags).last() == f2);
    assert(open_parts(frags).drop_last() =~= pool);
    assert(r == Seq::<Seq<LonLat>>::empty().push(close_ring(ring)));
    assert(r.len() == 1);
    assert(r[0] == close_ring(ring));
    assert(ring.len() == f1.len() + f2.len() - 1);
    assert(ring.no_duplicates());
    assert(forall|p: LonLat| #[trigger] ring.contains(p) <==> (f1.contains(p) || f2.contains(p)));
}

/// A copy of a point sequence.
pub fn copy_points(v: &Vec<LonLat>) -> (r: Vec<LonLat>)
    ensures
        r@ == v@,
{
    let mut r: Vec<LonLat> = Vec::new();
    let mut i: usize = 0;
    while i < v.len()
        invariant
            i <= v@.len(),
            r@ == v@.take(i as int),
        decreases v@.len() - i,
    {
        r.push(v[i]);
        i = i + 1;
        assert(r@ =~= v@.take(i as int));
    }
    assert(r@ =~= v@);
    r
}

/// The points in the opposite order.
pub fn reversed_points(v: &Vec<LonLat>) -> (r: Vec<LonLat>)
    ensures
        r@.len() == v@.len(),
        forall|i: int| 0 <= i < v@.len() ==> #[trigger] r@[i] == v@[v@.len() - 1 - i],
        r@.to_set() == v@.to_set(),
        r@ == v@.reverse(),
{
    let mut r: Vec<LonLat> = Vec::new();
    let mut i: usize = v.len();
    while i > 0
        invariant
            i <= v@.len(),
            r@.len() == v@.len() - i,
            forall|j: int| 0 <= j < r@.len() ==> #[trigger] r@[j] == v@[v@.len() - 1 - j],
        decreases i,
    {
        i = i - 1;
        r.push(v[i]);
    }
    assert forall|p: LonLat| r@.contains(p) <==> v@.contains(p) by {
        if r@.contains(p) {
            let j = choose|j: int| 0 <= j < r@.len() && r@[j] == p;
            assert(v@[v@.len() - 1 - j] == p);
        }
        if v@.contains(p) {
            let j = choose|j: int| 0 <= j < v@.len() && v@[j] == p;
            assert(r@[v@.len() - 1 - j] == p);
        }
    }
    assert(r@.to_set() =~= v@.to_set());
    assert(r@ =~= v@.reverse());
    r
}

} // verus!
