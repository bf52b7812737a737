//! The plane sweep: an event queue of segment endpoints ordered along the
//! sweep direction, a set of segments currently crossing the sweep line,
//! and the enumeration of all pairwise intersections, each reported exactly
//! once.
use vstd::prelude::*;
use crate::geom::{Segment, IntersectionResult, smin, smax, smin_exec, smax_exec, seg_intersection,
    segment_intersection, lemma_intersection_x_overlap};

verus! {

/// What happens at an event point: a segment starts or ends there.
#[derive(Clone, Copy, PartialEq, Eq, Structural, Debug)]
pub enum EventKind {
    Start,
    End,
}

/// A sweep event: a position, a kind, and the segment it belongs to.
#[derive(Clone, Copy, PartialEq, Eq, Structural, Debug)]
pub struct Event {
    pub x: i64,
    pub kind: EventKind,
    pub y: i64,
    pub seg: usize,
}

pub open spec fn kind_rank(k: EventKind) -> int {
    match k {
        EventKind::Start => 0,
        EventKind::End => 1,
    }
}

/// The total order of the event queue: events are processed left to right;
/// at one sweep abscissa every start is handled before any end, so segments
/// that merely touch the sweep position are still tested against each
/// other; remaining ties are broken by `y` and by segment index to make the
/// order total.
pub open spec fn event_le(e1: Event, e2: Event) -> bool {
    if e1.x != e2.x {
        e1.x < e2.x
    } else if kind_rank(e1.kind) != kind_rank(e2.kind) {
        kind_rank(e1.kind) < kind_rank(e2.kind)
    } else if e1.y != e2.y {
        e1.y < e2.y
    } else {
        e1.seg <= e2.seg
    }
}

pub fn event_le_exec(e1: &Event, e2: &Event) -> (r: bool)
    ensures
        r == event_le(*e1, *e2),
{
    let r1: u8 = match e1.kind {
        EventKind::Start => 0,
        EventKind::End => 1,
    };
    let r2: u8 = match e2.kind {
        EventKind::Start => 0,
        EventKind::End => 1,
    };
    if e1.x != e2.x {
        e1.x < e2.x
    } else if r1 != r2 {
        r1 < r2
    } else if e1.y != e2.y {
        e1.y < e2.y
    } else {
        e1.seg <= e2.seg
    }
}

/// The event at which segment `i` enters the sweep.
pub open spec fn start_event(segs: Seq<Segment>, i: int) -> Event {
    Event { x: smin(segs[i]).x, kind: EventKind::Start, y: smin(segs[i]).y, seg: i as usize }
}

/// The event at which segment `i` leaves the sweep.
pub open spec fn end_event(segs: Seq<Segment>, i: int) -> Event {
    Event { x: smax(segs[i]).x, kind: EventKind::End, y: smax(segs[i]).y, seg: i as usize }
}

pub open spec fn sorted(evs: Seq<Event>) -> bool {
    forall|k1: int, k2: int| 0 <= k1 <= k2 < evs.len() ==> event_le(evs[k1], evs[k2])
}

/// A well-formed event queue for the first `n` segments: sorted, one start
/// and one end event per segment, and nothing else.
pub open spec fn evs_wf(evs: Seq<Event>, segs: Seq<Segment>, n: int) -> bool {
    &&& evs.len() == 2 * n
    &&& sorted(evs)
    &&& forall|k: int|
        0 <= k < evs.len() ==> (#[trigger] evs[k]).seg < n && (evs[k] == start_event(
            segs,
            evs[k].seg as int,
        ) || evs[k] == end_event(segs, evs[k].seg as int))
    &&& forall|i: int|
        0 <= i < n ==> evs.contains(#[trigger] start_event(segs, i)) && evs.contains(
            end_event(segs, i),
        )
    &&& evs.no_duplicates()
}

/// The position of the first event not ordered before `e`.
fn find_insert_pos(evs: &Vec<Event>, e: &Event) -> (pos: usize)
    requires
        sorted(evs@),
    ensures
        pos <= evs@.len(),
        forall|k: int| 0 <= k < pos ==> event_le(evs@[k], *e),
        (pos as int) < evs@.len() ==> !event_le(evs@[pos as int], *e),
{
    let mut pos: usize = 0;
    while pos < evs.len()
        invariant
            pos <= evs@.len(),
            forall|k: int| 0 <= k < pos ==> event_le(evs@[k], *e),
        decreases evs@.len() - pos,
    {
        if !event_le_exec(&evs[pos], e) {
            return pos;
        }
        pos = pos + 1;
    }
    pos
}

/// Insert an event into the sorted queue, keeping it sorted.
fn insert_event(evs: &mut Vec<Event>, e: Event)
    requires
        sorted(old(evs)@),
    ensures
        sorted(final(evs)@),
        final(evs)@.len() == old(evs)@.len() + 1,
        final(evs)@.contains(e),
        forall|v: Event| old(evs)@.contains(v) ==> final(evs)@.contains(v),
        forall|v: Event| final(evs)@.contains(v) ==> v == e || old(evs)@.contains(v),
        old(evs)@.no_duplicates() && !old(evs)@.contains(e) ==> final(evs)@.no_duplicates(),
{
    let pos = find_insert_pos(evs, &e);
    evs.insert(pos, e);
    proof {
        old(evs)@.insert_ensures(pos as int, e);
        let n0 = old(evs)@.len() as int;
        assert forall|k1: int, k2: int| 0 <= k1 <= k2 < evs@.len() implies event_le(
            evs@[k1],
            evs@[k2],
        ) by {
            if (pos as int) < n0 {
                assert(event_le(e, old(evs)@[pos as int]));
            }
            if k1 < pos {
                assert(evs@[k1] == old(evs)@[k1]);
            }
            if k2 < pos {
                assert(evs@[k2] == old(evs)@[k2]);
            }
            if k1 > pos {
                assert(evs@[k1] == old(evs)@[k1 - 1]);
            }
            if k2 > pos {
                assert(evs@[k2] == old(evs)@[k2 - 1]);
                assert(event_le(old(evs)@[pos as int], old(evs)@[k2 - 1]));
            }
        }
        assert(evs@[pos as int] == e);
        assert forall|v: Event| old(evs)@.contains(v) implies evs@.contains(v) by {
            let k = choose|k: int| 0 <= k < n0 && old(evs)@[k] == v;
            if k < pos {
                assert(evs@[k] == v);
            } else {
                assert(evs@[k + 1] == v);
            }
        }
        assert forall|v: Event| evs@.contains(v) implies v == e || old(evs)@.contains(v) by {
            let k = choose|k: int| 0 <= k < evs@.len() && evs@[k] == v;
            if k < pos {
                assert(old(evs)@[k] == v);
            } else if k > pos {
                assert(old(evs)@[k - 1] == v);
            }
        }
        if old(evs)@.no_duplicates() && !old(evs)@.contains(e) {
            assert forall|k1: int, k2: int|
                0 <= k1 < evs@.len() && 0 <= k2 < evs@.len() && k1 != k2 implies evs@[k1]
                != evs@[k2] by {
                if k1 != pos && k2 != pos {
                    let j1: int = if k1 < pos {
                        k1
                    } else {
                        k1 - 1
                    };
                    let j2: int = if k2 < pos {
                        k2
                    } else {
                        k2 - 1
                    };
                    assert(evs@[k1] == old(evs)@[j1]);
                    assert(evs@[k2] == old(evs)@[j2]);
                } else if k1 == pos {
                    let j2: int = if k2 < pos {
                        k2
                    } else {
                        k2 - 1
                    };
                    assert(evs@[k2] == old(evs)@[j2]);
                } else {
                    let j1: int = if k1 < pos {
                        k1
                    } else {
                        k1 - 1
                    };
                    assert(evs@[k1] == old(evs)@[j1]);
                }
            }
        }
    }
}

/// Build the sorted event queue: one start and one end event per segment.
fn build_events(segs: &Vec<Segment>) -> (evs: Vec<Event>)
    ensures
        evs_wf(evs@, segs@, segs@.len() as int),
{
    let mut evs: Vec<Event> = Vec::new();
    let mut i: usize = 0;
    while i < segs.len()
        invariant
            i <= segs@.len(),
            evs_wf(evs@, segs@, i as int),
        decreases segs@.len() - i,
    {
        let p = smin_exec(&segs[i]);
        let q = smax_exec(&segs[i]);
        let se = Event { x: p.x, kind: EventKind::Start, y: p.y, seg: i };
        let ee = Event { x: q.x, kind: EventKind::End, y: q.y, seg: i };
        proof {
            assert(se == start_event(segs@, i as int));
            assert(ee == end_event(segs@, i as int));
            assert(!evs@.contains(se)) by {
                if evs@.contains(se) {
                    let k = choose|k: int| 0 <= k < evs@.len() && evs@[k] == se;
                    assert(evs@[k].seg < i);
                }
            }
        }
        let ghost evs0 = evs@;
        insert_event(&mut evs, se);
        proof {
            assert(!evs@.contains(ee)) by {
                if evs@.contains(ee) {
                    assert(ee == se || evs0.contains(ee));
                    if evs0.contains(ee) {
                        let k = choose|k: int| 0 <= k < evs0.len() && evs0[k] == ee;
                        assert(evs0[k].seg < i);
                    }
                }
            }
        }
        let ghost evs1 = evs@;
        insert_event(&mut evs, ee);
        proof {
            let n1 = i + 1;
            assert forall|k: int| 0 <= k < evs@.len() implies (#[trigger] evs@[k]).seg < n1 && (
            evs@[k] == start_event(segs@, evs@[k].seg as int) || evs@[k] == end_event(
                segs@,
                evs@[k].seg as int,
            )) by {
                assert(evs@.contains(evs@[k]));
                let v = evs@[k];
                if v == ee || v == se {
                } else {
                    assert(evs1.contains(v));
                    assert(v == se || evs0.contains(v));
                    let m = choose|m: int| 0 <= m < evs0.len() && evs0[m] == v;
                    assert(evs0[m].seg < i);
                }
            }
            assert forall|j: int| 0 <= j < n1 implies evs@.contains(#[trigger] start_event(
                segs@,
                j,
            )) && evs@.contains(end_event(segs@, j)) by {
                if j < i {
                    assert(evs0.contains(start_event(segs@, j)));
                    assert(evs0.contains(end_event(segs@, j)));
                    assert(evs1.contains(start_event(segs@, j)));
                    assert(evs1.contains(end_event(segs@, j)));
                } else {
                    assert(evs1.contains(se));
                    assert(evs@.contains(se));
                    assert(evs@.contains(ee));
                }
            }
        }
        i = i + 1;
    }
    evs
}


/// Segment `i` has entered the sweep before event position `k`.
pub open spec fn started(evs: Seq<Event>, segs: Seq<Segment>, i: int, k: int) -> bool {
    exists|m: int| 0 <= m < k && evs[m] == start_event(segs, i)
}

/// Segment `i` has left the sweep before event position `k`.
pub open spec fn ended(evs: Seq<Event>, segs: Seq<Segment>, i: int, k: int) -> bool {
    exists|m: int| 0 <= m < k && evs[m] == end_event(segs, i)
}

/// One reported intersection: the indices of the two segments involved
/// (always `i < j`) and how they intersect.
#[derive(Clone, Copy, Debug)]
pub struct Reported {
    pub i: usize,
    pub j: usize,
    pub res: IntersectionResult,
}

/// The entry names a genuine pair and carries its exact intersection.
pub open spec fn entry_ok(segs: Seq<Segment>, e: Reported) -> bool {
    &&& (e.i as int) < (e.j as int)
    &&& (e.j as int) < segs.len()
    &&& seg_intersection(segs[e.i as int], segs[e.j as int]) == Some(e.res)
}

pub open spec fn pair_reported(out: Seq<Reported>, i: int, j: int) -> bool {
    exists|m: int| 0 <= m < out.len() && (out[m].i as int) == i && (out[m].j as int) == j
}

pub open spec fn distinct_pairs(out: Seq<Reported>) -> bool {
    forall|m1: int, m2: int|
        0 <= m1 < m2 < out.len() ==> !(out[m1].i == out[m2].i && out[m1].j == out[m2].j)
}

/// The output contract of the sweep: every entry is a genuine intersection
/// of the pair it names; no pair is reported twice; and every intersecting
/// pair is reported.
pub open spec fn reports(segs: Seq<Segment>, out: Seq<Reported>) -> bool {
    &&& forall|m: int| 0 <= m < out.len() ==> entry_ok(segs, #[trigger] out[m])
    &&& distinct_pairs(out)
    &&& forall|i: int, j: int|
        0 <= i < j < segs.len() && seg_intersection(segs[i], segs[j]) is Some ==> pair_reported(
            out,
            i,
            j,
        )
}

/// `{i, j}` is the unordered pair `{x, y}`.
pub open spec fn is_pair(i: int, j: int, x: int, y: int) -> bool {
    (i == x && j == y) || (i == y && j == x)
}

/// The active set holds exactly the segments that have started and not yet
/// ended, each once.
pub open spec fn active_ok(active: Seq<usize>, evs: Seq<Event>, segs: Seq<Segment>, k: int) -> bool {
    &&& active.no_duplicates()
    &&& forall|m: int|
        0 <= m < active.len() ==> ((#[trigger] active[m]) as int) < segs.len() && started(
            evs,
            segs,
            active[m] as int,
            k,
        ) && !ended(evs, segs, active[m] as int, k)
    &&& forall|i: int|
        0 <= i < segs.len() && started(evs, segs, i, k) && !ended(evs, segs, i, k)
            ==> active.contains(i as usize)
}

/// A pair is reported exactly when both of its segments have started and
/// the pair intersects.
pub open spec fn out_iff(out: Seq<Reported>, evs: Seq<Event>, segs: Seq<Segment>, k: int) -> bool {
    forall|i: int, j: int|
        0 <= i < j < segs.len() ==> (pair_reported(out, i, j) <==> (started(evs, segs, i, k)
            && started(evs, segs, j, k) && seg_intersection(segs[i], segs[j]) is Some))
}

/// Remove the one occurrence of `v` from the set.
fn remove_value(active: &mut Vec<usize>, v: usize)
    requires
        old(active)@.no_duplicates(),
        old(active)@.contains(v),
    ensures
        final(active)@.no_duplicates(),
        final(active)@.len() == old(active)@.len() - 1,
        forall|w: usize| final(active)@.contains(w) <==> (old(active)@.contains(w) && w != v),
{
    let mut idx: usize = 0;
    while idx < active.len()
        invariant
            idx <= active@.len(),
            active@ == old(active)@,
            active@.no_duplicates(),
            active@.contains(v),
            forall|m: int| 0 <= m < idx ==> active@[m] != v,
        decreases active@.len() - idx,
    {
        if active[idx] == v {
            let ghost pre = active@;
            active.remove(idx);
            proof {
                pre.remove_ensures(idx as int);
                assert forall|w: usize| active@.contains(w) implies (pre.contains(w) && w
                    != v) by {
                    let m = choose|m: int| 0 <= m < active@.len() && active@[m] == w;
                    if m < idx {
                        assert(pre[m] == w);
                    } else {
                        assert(pre[m + 1] == w);
                        assert(pre[m + 1] != pre[idx as int]);
                    }
                }
                assert forall|w: usize| pre.contains(w) && w != v implies active@.contains(
                    w,
                ) by {
                    let m = choose|m: int| 0 <= m < pre.len() && pre[m] == w;
                    if m < idx {
                        assert(active@[m] == w);
                    } else {
                        assert(m != idx);
                        assert(active@[m - 1] == w);
                    }
                }
                assert forall|m1: int, m2: int|
                    0 <= m1 < active@.len() && 0 <= m2 < active@.len() && m1 != m2 implies
                    active@[m1] != active@[m2] by {
                    let j1: int = if m1 < idx {
                        m1
                    } else {
                        m1 + 1
                    };
                    let j2: int = if m2 < idx {
                        m2
                    } else {
                        m2 + 1
                    };
                    assert(active@[m1] == pre[j1]);
                    assert(active@[m2] == pre[j2]);
                }
            }
            return;
        }
        idx = idx + 1;
    }
    proof {
        let m = choose|m: int| 0 <= m < active@.len() && active@[m] == v;
        assert(false);
    }
}

/// Enumerate all pairwise intersections among the segments by a left-to-
/// right plane sweep.  Each event either starts a segment, which is tested
/// against every segment crossing the sweep line, or ends one, removing it.
/// The event order guarantees that no intersecting pair is missed and no
/// pair is ever tested twice.
#[verifier::rlimit(60)]
pub fn find_intersections(segs: &Vec<Segment>) -> (out: Vec<Reported>)
    requires
        forall|i: int| 0 <= i < segs@.len() ==> (#[trigger] segs@[i]).wf(),
    ensures
        reports(segs@, out@),
{
    let evs = build_events(segs);
    let mut active: Vec<usize> = Vec::new();
    let mut out: Vec<Reported> = Vec::new();
    let mut k: usize = 0;
    while k < evs.len()
        invariant
            forall|i: int| 0 <= i < segs@.len() ==> (#[trigger] segs@[i]).wf(),
            evs_wf(evs@, segs@, segs@.len() as int),
            k <= evs@.len(),
            active_ok(active@, evs@, segs@, k as int),
            forall|m: int| 0 <= m < out@.len() ==> entry_ok(segs@, #[trigger] out@[m]),
            distinct_pairs(out@),
            out_iff(out@, evs@, segs@, k as int),
        decreases evs@.len() - k,
    {
        let e = evs[k];
        let ghost s = e.seg as int;
        let ghost n = segs@.len() as int;
        let ghost kk = k as int;
        match e.kind {
            EventKind::Start => {
                proof {
                    assert(e == start_event(segs@, s));
                    assert(!started(evs@, segs@, s, kk)) by {
                        if started(evs@, segs@, s, kk) {
                            let m = choose|m: int|
                                0 <= m < kk && evs@[m] == start_event(segs@, s);
                            assert(evs@[m] == evs@[kk]);
                        }
                    }
                }
                let ghost act0 = active@;
                let mut a: usize = 0;
                while a < active.len()
                    invariant
                        forall|i: int| 0 <= i < segs@.len() ==> (#[trigger] segs@[i]).wf(),
                        evs_wf(evs@, segs@, segs@.len() as int),
                        kk == k as int,
                        0 <= kk < evs@.len(),
                        n == segs@.len() as int,
                        0 <= s < n,
                        e == evs@[kk],
                        e == start_event(segs@, s),
                        e.seg as int == s,
                        !started(evs@, segs@, s, kk),
                        active@ == act0,
                        active_ok(active@, evs@, segs@, kk),
                        a <= active@.len(),
                        forall|m: int| 0 <= m < out@.len() ==> entry_ok(segs@, #[trigger] out@[m]),
                        distinct_pairs(out@),
                        forall|i: int, j: int|
                            0 <= i < j < n ==> (pair_reported(out@, i, j) <==> ((started(
                                evs@,
                                segs@,
                                i,
                                kk,
                            ) && started(evs@, segs@, j, kk) && seg_intersection(
                                segs@[i],
                                segs@[j],
                            ) is Some) || (exists|m: int|
                                0 <= m < a && is_pair(i, j, s, act0[m] as int)
                                    && seg_intersection(segs@[i], segs@[j]) is Some))),
                    decreases active@.len() - a,
                {
                    let o = active[a];
                    proof {
                        assert(active@[a as int] == o);
                        assert(started(evs@, segs@, o as int, kk));
                        assert(o as int != s);
                    }
                    let lo: usize = if o < e.seg {
                        o
                    } else {
                        e.seg
                    };
                    let hi: usize = if o < e.seg {
                        e.seg
                    } else {
                        o
                    };
                    let ghost out_pre = out@;
                    let r = segment_intersection(&segs[lo], &segs[hi]);
                    if let Some(res) = r {
                        out.push(Reported { i: lo, j: hi, res });
                        proof {
                            assert(!pair_reported(out_pre, lo as int, hi as int)) by {
                                if pair_reported(out_pre, lo as int, hi as int) {
                                    assert(started(evs@, segs@, s, kk) || (exists|m: int|
                                        0 <= m < a && is_pair(
                                            lo as int,
                                            hi as int,
                                            s,
                                            act0[m] as int,
                                        ) && seg_intersection(
                                            segs@[lo as int],
                                            segs@[hi as int],
                                        ) is Some));
                                    if !started(evs@, segs@, s, kk) {
                                        let m = choose|m: int|
                                            0 <= m < a && is_pair(
                                                lo as int,
                                                hi as int,
                                                s,
                                                act0[m] as int,
                                            ) && seg_intersection(
                                                segs@[lo as int],
                                                segs@[hi as int],
                                            ) is Some;
                                        assert(act0[m] == act0[a as int]);
                                    }
                                }
                            }
                            assert forall|m1: int, m2: int|
                                0 <= m1 < m2 < out@.len() implies !(out@[m1].i == out@[m2].i
                                && out@[m1].j == out@[m2].j) by {
                                if m2 == out_pre.len() as int {
                                    if out@[m1].i == out@[m2].i && out@[m1].j == out@[m2].j {
                                        assert(pair_reported(out_pre, lo as int, hi as int));
                                    }
                                }
                            }
                        }
                    }
                    proof {
                        assert forall|i: int, j: int| 0 <= i < j < n implies (pair_reported(
                            out@,
                            i,
                            j,
                        ) <==> ((started(evs@, segs@, i, kk) && started(evs@, segs@, j, kk)
                            && seg_intersection(segs@[i], segs@[j]) is Some) || (exists|m: int|
                            0 <= m < a + 1 && is_pair(i, j, s, act0[m] as int)
                                && seg_intersection(segs@[i], segs@[j]) is Some))) by {
                            if pair_reported(out@, i, j) {
                                let m = choose|m: int|
                                    0 <= m < out@.len() && (out@[m].i as int) == i && (
                                    out@[m].j as int) == j;
                                if m < out_pre.len() {
                                    assert(pair_reported(out_pre, i, j));
                                } else {
                                    assert(out@[m].i == lo && out@[m].j == hi);
                                    assert(is_pair(i, j, s, act0[a as int] as int));
                                }
                            }
                            if started(evs@, segs@, i, kk) && started(evs@, segs@, j, kk)
                                && seg_intersection(segs@[i], segs@[j]) is Some {
                                assert(pair_reported(out_pre, i, j));
                                let m = choose|m: int|
                                    0 <= m < out_pre.len() && (out_pre[m].i as int) == i && (
                                    out_pre[m].j as int) == j;
                                assert(out@[m] == out_pre[m]);
                                assert(pair_reported(out@, i, j));
                            }
                            if exists|m: int|
                                0 <= m < a + 1 && is_pair(i, j, s, act0[m] as int)
                                    && seg_intersection(segs@[i], segs@[j]) is Some {
                                let m = choose|m: int|
                                    0 <= m < a + 1 && is_pair(i, j, s, act0[m] as int)
                                        && seg_intersection(segs@[i], segs@[j]) is Some;
                                if m < a {
                                    assert(pair_reported(out_pre, i, j));
                                    let m2 = choose|m2: int|
                                        0 <= m2 < out_pre.len() && (out_pre[m2].i as int) == i
                                            && (out_pre[m2].j as int) == j;
                                    assert(out@[m2] == out_pre[m2]);
                                } else {
                                    assert(is_pair(i, j, s, o as int));
                                    assert(i == lo as int && j == hi as int);
                                    assert(seg_intersection(segs@[lo as int], segs@[hi as int])
                                        is Some);
                                    assert((out@[out_pre.len() as int].i as int) == i);
                                }
                            }
                        }
                    }
                    a = a + 1;
                }
                active.push(e.seg);
                proof {
                    let kk1 = kk + 1;
                    assert forall|i: int| 0 <= i < n implies (started(evs@, segs@, i, kk1) <==> (
                    started(evs@, segs@, i, kk) || i == s)) by {
                        if started(evs@, segs@, i, kk1) {
                            let m = choose|m: int|
                                0 <= m < kk1 && evs@[m] == start_event(segs@, i);
                            if m == kk {
                                assert(start_event(segs@, i).seg as int == i);
                            }
                        }
                        if i == s {
                            assert(evs@[kk] == start_event(segs@, i));
                        }
                    }
                    assert forall|i: int| 0 <= i < n implies (ended(evs@, segs@, i, kk1) <==>
                    ended(evs@, segs@, i, kk)) by {
                        if ended(evs@, segs@, i, kk1) {
                            let m = choose|m: int| 0 <= m < kk1 && evs@[m] == end_event(segs@, i);
                            assert(m != kk);
                        }
                    }
                    assert(!ended(evs@, segs@, s, kk)) by {
                        if ended(evs@, segs@, s, kk) {
                            let m = choose|m: int| 0 <= m < kk && evs@[m] == end_event(segs@, s);
                            assert(event_le(evs@[m], evs@[kk]));
                            assert(smin(segs@[s]).x <= smax(segs@[s]).x);
                        }
                    }
                    assert(!act0.contains(e.seg));
                    assert(active@ == act0.push(e.seg));
                    assert forall|m1: int, m2: int|
                        0 <= m1 < active@.len() && 0 <= m2 < active@.len() && m1 != m2 implies
                        active@[m1] != active@[m2] by {
                        if m1 < act0.len() && m2 < act0.len() {
                            assert(active@[m1] == act0[m1]);
                            assert(active@[m2] == act0[m2]);
                        } else if m1 < act0.len() {
                            assert(act0.contains(act0[m1]));
                            assert(active@[m1] == act0[m1]);
                        } else {
                            assert(act0.contains(act0[m2]));
                            assert(active@[m2] == act0[m2]);
                        }
                    }
                    assert forall|i: int|
                        0 <= i < n && started(evs@, segs@, i, kk1) && !ended(
                            evs@,
                            segs@,
                            i,
                            kk1,
                        ) implies active@.contains(i as usize) by {
                        if i == s {
                            assert(active@[act0.len() as int] == e.seg);
                        } else {
                            assert(act0.contains(i as usize));
                            let m = choose|m: int| 0 <= m < act0.len() && act0[m] == i as usize;
                            assert(active@[m] == i as usize);
                        }
                    }
                    assert forall|m: int|
                        0 <= m < active@.len() implies ((#[trigger] active@[m]) as int) < n
                        && started(evs@, segs@, active@[m] as int, kk1) && !ended(
                        evs@,
                        segs@,
                        active@[m] as int,
                        kk1,
                    ) by {
                        if m < act0.len() {
                            assert(active@[m] == act0[m]);
                        } else {
                            assert(active@[m] == e.seg);
                        }
                    }
                    assert forall|i: int, j: int| 0 <= i < j < n implies (pair_reported(
                        out@,
                        i,
                        j,
                    ) <==> (started(evs@, segs@, i, kk1) && started(evs@, segs@, j, kk1)
                        && seg_intersection(segs@[i], segs@[j]) is Some)) by {
                        if pair_reported(out@, i, j) {
                            assert((started(evs@, segs@, i, kk) && started(evs@, segs@, j, kk)
                                && seg_intersection(segs@[i], segs@[j]) is Some) || (exists|m: int|
                                0 <= m < act0.len() && is_pair(i, j, s, act0[m] as int)
                                    && seg_intersection(segs@[i], segs@[j]) is Some));
                            if !(started(evs@, segs@, i, kk) && started(evs@, segs@, j, kk)
                                && seg_intersection(segs@[i], segs@[j]) is Some) {
                                let m = choose|m: int|
                                    0 <= m < act0.len() && is_pair(i, j, s, act0[m] as int)
                                        && seg_intersection(segs@[i], segs@[j]) is Some;
                                assert(started(evs@, segs@, act0[m] as int, kk));
                            }
                        }
                        if started(evs@, segs@, i, kk1) && started(evs@, segs@, j, kk1)
                            && seg_intersection(segs@[i], segs@[j]) is Some {
                            if started(evs@, segs@, i, kk) && started(evs@, segs@, j, kk) {
                            } else {
                                let oth: int = if i == s {
                                    j
                                } else {
                                    i
                                };
                                assert(is_pair(i, j, s, oth));
                                assert(started(evs@, segs@, oth, kk));
                                lemma_intersection_x_overlap(segs@[i], segs@[j]);
                                assert(!ended(evs@, segs@, oth, kk)) by {
                                    if ended(evs@, segs@, oth, kk) {
                                        let m = choose|m: int|
                                            0 <= m < kk && evs@[m] == end_event(segs@, oth);
                                        assert(event_le(evs@[m], evs@[kk]));
                                        assert(smax(segs@[oth]).x < smin(segs@[s]).x);
                                    }
                                }
                                assert(act0.contains(oth as usize));
                                let m = choose|m: int|
                                    0 <= m < act0.len() && act0[m] == oth as usize;
                                assert(is_pair(i, j, s, act0[m] as int));
                            }
                        }
                    }
                }
            },
            EventKind::End => {
                proof {
                    assert(e == end_event(segs@, s));
                    assert(started(evs@, segs@, s, kk)) by {
                        assert(evs@.contains(start_event(segs@, s)));
                        let m = choose|m: int|
                            0 <= m < evs@.len() && evs@[m] == start_event(segs@, s);
                        assert(evs@[m] != evs@[kk]);
                        if m > kk {
                            assert(event_le(evs@[kk], evs@[m]));
                            assert(smin(segs@[s]).x <= smax(segs@[s]).x);
                        }
                    }
                    assert(!ended(evs@, segs@, s, kk)) by {
                        if ended(evs@, segs@, s, kk) {
                            let m = choose|m: int| 0 <= m < kk && evs@[m] == end_event(segs@, s);
                            assert(evs@[m] == evs@[kk]);
                        }
                    }
                    assert(active@.contains(e.seg));
                }
                let ghost act0 = active@;
                remove_value(&mut active, e.seg);
                proof {
                    let kk1 = kk + 1;
                    assert forall|i: int| 0 <= i < n implies (started(evs@, segs@, i, kk1) <==>
                    started(evs@, segs@, i, kk)) by {
                        if started(evs@, segs@, i, kk1) {
                            let m = choose|m: int|
                                0 <= m < kk1 && evs@[m] == start_event(segs@, i);
                            assert(m != kk);
                        }
                    }
                    assert forall|i: int| 0 <= i < n implies (ended(evs@, segs@, i, kk1) <==> (
                    ended(evs@, segs@, i, kk) || i == s)) by {
                        if ended(evs@, segs@, i, kk1) {
                            let m = choose|m: int| 0 <= m < kk1 && evs@[m] == end_event(segs@, i);
                            if m == kk {
                                assert(end_event(segs@, i).seg as int == i);
                            }
                        }
                        if i == s {
                            assert(evs@[kk] == end_event(segs@, i));
                        }
                    }
                    assert forall|m: int|
                        0 <= m < active@.len() implies ((#[trigger] active@[m]) as int) < n
                        && started(evs@, segs@, active@[m] as int, kk1) && !ended(
                        evs@,
                        segs@,
                        active@[m] as int,
                        kk1,
                    ) by {
                        assert(active@.contains(active@[m]));
                        assert(act0.contains(active@[m]) && active@[m] != e.seg);
                        let m0 = choose|m0: int| 0 <= m0 < act0.len() && act0[m0] == active@[m];
                    }
                    assert forall|i: int|
                        0 <= i < n && started(evs@, segs@, i, kk1) && !ended(
                            evs@,
                            segs@,
                            i,
                            kk1,
                        ) implies active@.contains(i as usize) by {
                        assert(i != s);
                        assert(act0.contains(i as usize));
                    }
                    assert(out_iff(out@, evs@, segs@, kk1)) by {
                        assert forall|i: int, j: int| 0 <= i < j < n implies (pair_reported(
                            out@,
                            i,
                            j,
                        ) <==> (started(evs@, segs@, i, kk1) && started(evs@, segs@, j, kk1)
                            && seg_intersection(segs@[i], segs@[j]) is Some)) by {
                            assert(started(evs@, segs@, i, kk1) <==> started(evs@, segs@, i, kk));
                            assert(started(evs@, segs@, j, kk1) <==> started(evs@, segs@, j, kk));
                        }
                    }
                }
            },
        }
        k = k + 1;
    }
    proof {
        assert forall|i: int, j: int|
            0 <= i < j < segs@.len() && seg_intersection(segs@[i], segs@[j]) is Some implies
        pair_reported(out@, i, j) by {
            assert(evs@.contains(start_event(segs@, i)));
            assert(evs@.contains(start_event(segs@, j)));
            let mi = choose|m: int| 0 <= m < evs@.len() && evs@[m] == start_event(segs@, i);
            let mj = choose|m: int| 0 <= m < evs@.len() && evs@[m] == start_event(segs@, j);
            assert(started(evs@, segs@, i, evs@.len() as int));
            assert(started(evs@, segs@, j, evs@.len() as int));
        }
    }
    out
}


/// The quadratic oracle: test every pair directly.  It satisfies the same
/// output contract as the sweep, which pins both outputs down to the same
/// multiset of reports.
pub fn brute_force_intersections(segs: &Vec<Segment>) -> (out: Vec<Reported>)
    requires
        forall|i: int| 0 <= i < segs@.len() ==> (#[trigger] segs@[i]).wf(),
    ensures
        reports(segs@, out@),
{
    let ghost n = segs@.len() as int;
    let mut out: Vec<Reported> = Vec::new();
    let mut i: usize = 0;
    while i < segs.len()
        invariant
            forall|m: int| 0 <= m < segs@.len() ==> (#[trigger] segs@[m]).wf(),
            n == segs@.len() as int,
            i <= segs@.len(),
            forall|m: int| 0 <= m < out@.len() ==> entry_ok(segs@, #[trigger] out@[m]),
            distinct_pairs(out@),
            forall|p: int, q: int|
                0 <= p < q < n ==> (pair_reported(out@, p, q) <==> (p < i && seg_intersection(
                    segs@[p],
                    segs@[q],
                ) is Some)),
        decreases segs@.len() - i,
    {
        let mut j: usize = i + 1;
        while j < segs.len()
            invariant
                forall|m: int| 0 <= m < segs@.len() ==> (#[trigger] segs@[m]).wf(),
                n == segs@.len() as int,
                i < segs@.len(),
                i < j <= segs@.len(),
                forall|m: int| 0 <= m < out@.len() ==> entry_ok(segs@, #[trigger] out@[m]),
                distinct_pairs(out@),
                forall|p: int, q: int|
                    0 <= p < q < n ==> (pair_reported(out@, p, q) <==> ((p < i || (p == i && q
                        < j)) && seg_intersection(segs@[p], segs@[q]) is Some)),
            decreases segs@.len() - j,
        {
            let ghost out_pre = out@;
            if let Some(res) = segment_intersection(&segs[i], &segs[j]) {
                out.push(Reported { i, j, res });
                proof {
                    assert(!pair_reported(out_pre, i as int, j as int));
                    assert forall|m1: int, m2: int|
                        0 <= m1 < m2 < out@.len() implies !(out@[m1].i == out@[m2].i
                        && out@[m1].j == out@[m2].j) by {
                        if m2 == out_pre.len() as int {
                            if out@[m1].i == out@[m2].i && out@[m1].j == out@[m2].j {
                                assert(pair_reported(out_pre, i as int, j as int));
                            }
                        }
                    }
                }
            }
            proof {
                assert forall|p: int, q: int| 0 <= p < q < n implies (pair_reported(out@, p, q)
                    <==> ((p < i || (p == i && q < j + 1)) && seg_intersection(
                    segs@[p],
                    segs@[q],
                ) is Some)) by {
                    if pair_reported(out@, p, q) {
                        let m = choose|m: int|
                            0 <= m < out@.len() && (out@[m].i as int) == p && (out@[m].j as int)
                                == q;
                        if m < out_pre.len() {
                            assert(pair_reported(out_pre, p, q));
                        }
                    }
                    if (p < i || (p == i && q < j + 1)) && seg_intersection(segs@[p], segs@[q])
                        is Some {
                        if p < i || (p == i && q < j) {
                            assert(pair_reported(out_pre, p, q));
                            let m = choose|m: int|
                                0 <= m < out_pre.len() && (out_pre[m].i as int) == p && (
                                out_pre[m].j as int) == q;
                            assert(out@[m] == out_pre[m]);
                        } else {
                            assert(p == i as int && q == j as int);
                            assert((out@[out_pre.len() as int].i as int) == p);
                        }
                    }
                }
            }
            j = j + 1;
        }
        i = i + 1;
    }
    out
}

/// Any two report sequences over the same segments are the same multiset:
/// the output contract determines the result up to order.  In particular
/// the sweep agrees with the quadratic oracle, and running the sweep twice
/// yields the same multiset of reports.
pub proof fn lemma_reports_determined(segs: Seq<Segment>, out1: Seq<Reported>, out2: Seq<Reported>)
    requires
        reports(segs, out1),
        reports(segs, out2),
    ensures
        out1.to_multiset() == out2.to_multiset(),
{
    broadcast use vstd::seq_lib::group_to_multiset_ensures;

    assert forall|m1: int, m2: int|
        0 <= m1 < out1.len() && 0 <= m2 < out1.len() && m1 != m2 implies out1[m1] != out1[m2] by {
        assert(entry_ok(segs, out1[m1]));
    }
    assert forall|m1: int, m2: int|
        0 <= m1 < out2.len() && 0 <= m2 < out2.len() && m1 != m2 implies out2[m1] != out2[m2] by {
        assert(entry_ok(segs, out2[m1]));
    }
    assert(out1.no_duplicates());
    assert(out2.no_duplicates());
    assert forall|e: Reported| out1.contains(e) implies out2.contains(e) by {
        let m = choose|m: int| 0 <= m < out1.len() && out1[m] == e;
        assert(entry_ok(segs, out1[m]));
        assert(pair_reported(out2, e.i as int, e.j as int));
        let m2 = choose|m2: int|
            0 <= m2 < out2.len() && (out2[m2].i as int) == e.i && (out2[m2].j as int) == e.j;
        assert(entry_ok(segs, out2[m2]));
        assert(out2[m2] == e);
    }
    assert forall|e: Reported| out2.contains(e) implies out1.contains(e) by {
        let m = choose|m: int| 0 <= m < out2.len() && out2[m] == e;
        assert(entry_ok(segs, out2[m]));
        assert(pair_reported(out1, e.i as int, e.j as int));
        let m2 = choose|m2: int|
            0 <= m2 < out1.len() && (out1[m2].i as int) == e.i && (out1[m2].j as int) == e.j;
        assert(entry_ok(segs, out1[m2]));
        assert(out1[m2] == e);
    }
    out1.lemma_multiset_has_no_duplicates();
    out2.lemma_multiset_has_no_duplicates();
    assert forall|e: Reported| #[trigger] out1.to_multiset().count(e) == out2.to_multiset().count(
        e,
    ) by {
        if out1.contains(e) {
            assert(out1.to_multiset().count(e) == 1);
            assert(out2.to_multiset().count(e) == 1);
        } else {
            assert(out1.to_multiset().count(e) == 0);
            assert(out2.to_multiset().count(e) == 0);
        }
    }
    assert(out1.to_multiset() =~= out2.to_multiset());
}

/// A collinear overlap is reported exactly once for the pair involved,
/// never split into several reports.
pub proof fn lemma_collinear_reported_once(
    segs: Seq<Segment>,
    out: Seq<Reported>,
    i: int,
    j: int,
)
    requires
        reports(segs, out),
        0 <= i < j < segs.len(),
        seg_intersection(segs[i], segs[j]) matches Some(IntersectionResult::Collinear { .. }),
    ensures
        exists|m: int|
            0 <= m < out.len() && (#[trigger] out[m].i as int) == i && (out[m].j as int) == j && (
            out[m].res matches IntersectionResult::Collinear { .. }),
        forall|m1: int, m2: int|
            (0 <= m1 < out.len() && 0 <= m2 < out.len() && (out[m1].i as int) == i && (
            out[m1].j as int) == j && (out[m2].i as int) == i && (out[m2].j as int) == j) ==> m1
                == m2,
{
    assert(pair_reported(out, i, j));
    let m = choose|m: int| 0 <= m < out.len() && (out[m].i as int) == i && (out[m].j as int) == j;
    assert(entry_ok(segs, out[m]));
    assert((out[m].i as int) == i && (out[m].j as int) == j && (
    out[m].res matches IntersectionResult::Collinear { .. }));
}

/// What one report contributes to the summary count: a single point
/// counts one, a collinear overlap counts two.
pub open spec fn report_weight(r: IntersectionResult) -> int {
    match r {
        IntersectionResult::SinglePoint { .. } => 1,
        IntersectionResult::Collinear { .. } => 2,
    }
}

pub open spec fn total_count(out: Seq<Reported>) -> int
    decreases out.len(),
{
    if out.len() == 0 {
        0
    } else {
        total_count(out.drop_last()) + report_weight(out.last().res)
    }
}

/// The summary count of a report sequence.
pub fn count_intersections(out: &Vec<Reported>) -> (c: u64)
    requires
        out@.len() <= 0x7fff_ffff_ffff_ffff,
    ensures
        c as int == total_count(out@),
{
    let mut c: u64 = 0;
    let mut m: usize = 0;
    while m < out.len()
        invariant
            m <= out@.len(),
            out@.len() <= 0x7fff_ffff_ffff_ffff,
            c as int == total_count(out@.take(m as int)),
            c <= 2 * m,
        decreases out@.len() - m,
    {
        match out[m].res {
            IntersectionResult::SinglePoint { .. } => {
                c = c + 1;
            },
            IntersectionResult::Collinear { .. } => {
                c = c + 2;
            },
        }
        proof {
            assert(out@.take(m + 1).drop_last() =~= out@.take(m as int));
            assert(out@.take(m + 1).last() == out@[m as int]);
        }
        m = m + 1;
    }
    proof {
        assert(out@.take(out@.len() as int) =~= out@);
    }
    c
}

/// Zero segments produce zero reports, not an error.
pub proof fn lemma_empty_input(segs: Seq<Segment>, out: Seq<Reported>)
    requires
        reports(segs, out),
        segs.len() == 0,
    ensures
        out.len() == 0,
{
    if out.len() > 0 {
        assert(entry_ok(segs, out[0]));
    }
}

} // verus!
