//! The breadth-first search engine: one reusable traversal over any
//! `Explorable` problem, returning a minimal-length action path to a goal.

use vstd::prelude::*;
use crate::explorable::Explorable;

verus! {

/// Some successor of `a` is the state `b`, produced by the action `act`.
pub open spec fn is_edge<E: Explorable>(e: &E, a: E::State, b: E::State, act: E::Action) -> bool {
    exists|j: int|
        0 <= j < e.succ(a).len() && (#[trigger] e.succ(a)[j]).0 == b && e.succ(a)[j].2 == act
}

/// The action sequence `acts` can drive the problem from `from` to `to`,
/// one successor step per action.
pub open spec fn reaches<E: Explorable>(
    e: &E,
    from: E::State,
    acts: Seq<E::Action>,
    to: E::State,
) -> bool
    decreases acts.len(),
{
    if acts.len() == 0 {
        from == to
    } else {
        exists|mid: E::State|
            #[trigger] is_edge(e, from, mid, acts[0]) && reaches(e, mid, acts.drop_first(), to)
    }
}

/// The action sequence `acts`, taken from `from`, ends in some goal state.
pub open spec fn reaches_goal<E: Explorable>(e: &E, from: E::State, acts: Seq<E::Action>) -> bool {
    exists|t: E::State| #[trigger] reaches(e, from, acts, t) && e.goal(t)
}

/// `space` is a finite set of states that contains `start` and is closed
/// under taking successors: exploration from `start` can never leave it.
pub open spec fn finite_span<E: Explorable>(e: &E, space: Set<E::State>, start: E::State) -> bool {
    &&& space.finite()
    &&& space.contains(start)
    &&& forall|s: E::State, j: int|
        space.contains(s) && 0 <= j < e.succ(s).len() ==> space.contains(
            (#[trigger] e.succ(s)[j]).0,
        )
}

proof fn lemma_distinct_in_space<S>(states: Seq<S>, space: Set<S>)
    requires
        states.no_duplicates(),
        space.finite(),
        forall|i: int| 0 <= i < states.len() ==> space.contains(#[trigger] states[i]),
    ensures
        states.len() <= space.len(),
{
    states.unique_seq_to_set();
    assert forall|a: S| states.to_set().contains(a) implies space.contains(a) by {
        let i = choose|i: int| 0 <= i < states.len() && states[i] == a;
        assert(space.contains(states[i]));
    };
    assert(states.to_set() <= space);
    vstd::set_lib::lemma_len_subset(states.to_set(), space);
}

pub open spec fn pred_idx<A>(preds: Seq<Option<(usize, A)>>, i: int) -> int {
    (preds[i]->0).0 as int
}

pub open spec fn act_of<A>(preds: Seq<Option<(usize, A)>>, i: int) -> A {
    (preds[i]->0).1
}

pub open spec fn visited_state<S>(states: Seq<S>, s: S) -> bool {
    exists|k: int| 0 <= k < states.len() && states[k] == s
}

/// The discovery record is well formed: entry 0 is the start with no
/// predecessor, and every later entry points at an earlier entry through a
/// real edge, one step deeper than its predecessor.
spec fn links_ok<E: Explorable>(
    e: &E,
    start: E::State,
    states: Seq<E::State>,
    preds: Seq<Option<(usize, E::Action)>>,
    dists: Seq<int>,
) -> bool {
    &&& states.len() >= 1
    &&& preds.len() == states.len()
    &&& dists.len() == states.len()
    &&& states[0] == start
    &&& preds[0] is None
    &&& dists[0] == 0
    &&& forall|i: int| 1 <= i < states.len() ==> (#[trigger] preds[i]) is Some
    &&& forall|i: int| 1 <= i < states.len() ==> 0 <= #[trigger] pred_idx(preds, i) < i
    &&& forall|i: int|
        1 <= i < states.len() ==> is_edge(
            e,
            states[pred_idx(preds, i)],
            #[trigger] states[i],
            act_of(preds, i),
        )
    &&& forall|i: int|
        1 <= i < states.len() ==> dists[i] == dists[#[trigger] pred_idx(preds, i)] + 1
}

/// The action sequence recorded for entry `i`, read off the predecessor
/// links back to the start and written in travel order.
pub open spec fn path_of<A>(preds: Seq<Option<(usize, A)>>, i: int) -> Seq<A>
    decreases i,
{
    if 0 <= i < preds.len() && preds[i] is Some && 0 <= pred_idx(preds, i) < i {
        path_of(preds, pred_idx(preds, i)).push(act_of(preds, i))
    } else {
        Seq::empty()
    }
}

proof fn lemma_reaches_push<E: Explorable>(
    e: &E,
    f: E::State,
    acts: Seq<E::Action>,
    m: E::State,
    t: E::State,
    a: E::Action,
)
    requires
        reaches(e, f, acts, m),
        is_edge(e, m, t, a),
    ensures
        reaches(e, f, acts.push(a), t),
    decreases acts.len(),
{
    let acts2 = acts.push(a);
    if acts.len() == 0 {
        assert(acts2.drop_first() =~= Seq::<E::Action>::empty());
        assert(reaches(e, t, acts2.drop_first(), t));
        assert(acts2[0] == a);
        assert(is_edge(e, f, t, acts2[0]));
        assert(reaches(e, f, acts2, t));
    } else {
        let mid = choose|mid: E::State|
            #[trigger] is_edge(e, f, mid, acts[0]) && reaches(e, mid, acts.drop_first(), m);
        lemma_reaches_push(e, mid, acts.drop_first(), m, t, a);
        assert(acts2.drop_first() =~= acts.drop_first().push(a));
        assert(acts2[0] == acts[0]);
        assert(is_edge(e, f, mid, acts2[0]) && reaches(e, mid, acts2.drop_first(), t));
        assert(reaches(e, f, acts2, t));
    }
}

proof fn lemma_path_of_reaches<E: Explorable>(
    e: &E,
    start: E::State,
    states: Seq<E::State>,
    preds: Seq<Option<(usize, E::Action)>>,
    dists: Seq<int>,
    i: int,
)
    requires
        links_ok(e, start, states, preds, dists),
        0 <= i < states.len(),
    ensures
        reaches(e, start, path_of(preds, i), states[i]),
        path_of(preds, i).len() == dists[i],
    decreases i,
{
    if i == 0 {
        assert(path_of(preds, 0) =~= Seq::<E::Action>::empty());
        assert(reaches(e, start, path_of(preds, 0), states[0]));
    } else {
        let p = pred_idx(preds, i);
        lemma_path_of_reaches(e, start, states, preds, dists, p);
        lemma_reaches_push(e, start, path_of(preds, p), states[p], states[i], act_of(preds, i));
    }
}

proof fn lemma_reaches_last<E: Explorable>(e: &E, f: E::State, acts: Seq<E::Action>, t: E::State)
    requires
        reaches(e, f, acts, t),
        acts.len() > 0,
    ensures
        exists|w: E::State|
            #[trigger] reaches(e, f, acts.drop_last(), w) && is_edge(e, w, t, acts.last()),
    decreases acts.len(),
{
    let mid = choose|mid: E::State|
        #[trigger] is_edge(e, f, mid, acts[0]) && reaches(e, mid, acts.drop_first(), t);
    if acts.len() == 1 {
        assert(acts.drop_first() =~= Seq::<E::Action>::empty());
        assert(mid == t);
        assert(acts.drop_last() =~= Seq::<E::Action>::empty());
        assert(reaches(e, f, acts.drop_last(), f));
        assert(acts.last() == acts[0]);
        assert(is_edge(e, f, t, acts.last()));
    } else {
        lemma_reaches_last(e, mid, acts.drop_first(), t);
        let w = choose|w: E::State|
            #[trigger] reaches(e, mid, acts.drop_first().drop_last(), w) && is_edge(
                e,
                w,
                t,
                acts.drop_first().last(),
            );
        assert(acts.drop_first().last() == acts.last());
        assert(acts.drop_first().drop_last() =~= acts.drop_last().drop_first());
        assert(acts.drop_last()[0] == acts[0]);
        assert(is_edge(e, f, mid, acts.drop_last()[0]) && reaches(
            e,
            mid,
            acts.drop_last().drop_first(),
            w,
        ));
        assert(reaches(e, f, acts.drop_last(), w));
        assert(is_edge(e, w, t, acts.last()));
    }
}

proof fn lemma_closed_reaches<E: Explorable>(
    e: &E,
    states: Seq<E::State>,
    f: E::State,
    acts: Seq<E::Action>,
    t: E::State,
)
    requires
        reaches(e, f, acts, t),
        visited_state(states, f),
        forall|i: int, j: int|
            0 <= i < states.len() && 0 <= j < e.succ(states[i]).len() ==> visited_state(
                states,
                (#[trigger] e.succ(states[i])[j]).0,
            ),
    ensures
        visited_state(states, t),
    decreases acts.len(),
{
    if acts.len() == 0 {
        assert(t == f);
    } else {
        let mid = choose|mid: E::State|
            #[trigger] is_edge(e, f, mid, acts[0]) && reaches(e, mid, acts.drop_first(), t);
        let k = choose|k: int| 0 <= k < states.len() && states[k] == f;
        let j = choose|j: int|
            0 <= j < e.succ(f).len() && (#[trigger] e.succ(f)[j]).0 == mid && e.succ(f)[j].2
                == acts[0];
        assert(visited_state(states, (e.succ(states[k])[j]).0));
        lemma_closed_reaches(e, states, mid, acts.drop_first(), t);
    }
}

proof fn lemma_frontier_step<E: Explorable>(
    e: &E,
    start: E::State,
    states: Seq<E::State>,
    dists: Seq<int>,
    oh: int,
)
    requires
        dists.len() == states.len(),
        0 <= oh,
        0 <= dists[oh],
        oh + 1 < states.len(),
        forall|i: int, j: int|
            0 <= i <= j < dists.len() ==> #[trigger] dists[i] <= #[trigger] dists[j],
        dists[oh] <= dists[oh + 1] <= dists[oh] + 1,
        forall|i: int, j: int|
            0 <= i < oh + 1 && 0 <= j < e.succ(states[i]).len() ==> visited_state(
                states,
                (#[trigger] e.succ(states[i])[j]).0,
            ),
        forall|acts: Seq<E::Action>, k: int|
            0 <= k < states.len() && #[trigger] reaches(e, start, acts, states[k]) ==> dists[k]
                <= acts.len(),
        forall|acts: Seq<E::Action>, t: E::State|
            #[trigger] reaches(e, start, acts, t) && acts.len() <= dists[oh] ==> visited_state(
                states,
                t,
            ),
    ensures
        forall|acts: Seq<E::Action>, t: E::State|
            #[trigger] reaches(e, start, acts, t) && acts.len() <= dists[oh + 1]
                ==> visited_state(states, t),
{
    let nh = oh + 1;
    assert forall|acts: Seq<E::Action>, t: E::State|
        #[trigger] reaches(e, start, acts, t) && acts.len() <= dists[nh] implies visited_state(
        states,
        t,
    ) by {
        if acts.len() <= dists[oh] {
            assert(visited_state(states, t));
        } else {
            assert(acts.len() == dists[oh] + 1);
            assert(acts.len() == dists[oh] + 1);
            assert(acts.len() > 0);
            lemma_reaches_last(e, start, acts, t);
            let w = choose|w: E::State|
                #[trigger] reaches(e, start, acts.drop_last(), w) && is_edge(
                    e,
                    w,
                    t,
                    acts.last(),
                );
            assert(acts.drop_last().len() <= dists[oh]);
            assert(visited_state(states, w));
            let kw = choose|kw: int| 0 <= kw < states.len() && states[kw] == w;
            assert(dists[kw] <= acts.drop_last().len());
            assert(kw < nh) by {
                if kw >= nh {
                    assert(dists[nh] <= dists[kw]);
                }
            }
            let j = choose|j: int|
                0 <= j < e.succ(w).len() && (#[trigger] e.succ(w)[j]).0 == t && e.succ(w)[j].2
                    == acts.last();
            assert(visited_state(states, (e.succ(states[kw])[j]).0));
        }
    };
}

proof fn lemma_no_shorter_goal<E: Explorable>(
    e: &E,
    start: E::State,
    states: Seq<E::State>,
    dists: Seq<int>,
    h: int,
)
    requires
        dists.len() == states.len(),
        0 <= h < states.len(),
        forall|i: int, j: int|
            0 <= i <= j < dists.len() ==> #[trigger] dists[i] <= #[trigger] dists[j],
        forall|i: int| 0 <= i < h ==> !e.goal(#[trigger] states[i]),
        forall|acts: Seq<E::Action>, k: int|
            0 <= k < states.len() && #[trigger] reaches(e, start, acts, states[k]) ==> dists[k]
                <= acts.len(),
        forall|acts: Seq<E::Action>, t: E::State|
            #[trigger] reaches(e, start, acts, t) && acts.len() <= dists[h] ==> visited_state(
                states,
                t,
            ),
    ensures
        forall|acts: Seq<E::Action>|
            #[trigger] reaches_goal(e, start, acts) ==> dists[h] <= acts.len(),
{
    assert forall|acts: Seq<E::Action>| #[trigger] reaches_goal(e, start, acts) implies dists[h]
        <= acts.len() by {
        let t = choose|t: E::State| #[trigger] reaches(e, start, acts, t) && e.goal(t);
        if acts.len() < dists[h] {
            assert(visited_state(states, t));
            let k2 = choose|k2: int| 0 <= k2 < states.len() && states[k2] == t;
            assert(dists[k2] <= acts.len());
            assert(k2 < h) by {
                if k2 >= h {
                    assert(dists[h] <= dists[k2]);
                }
            }
            assert(!e.goal(states[k2]));
            assert(false);
        }
    };
}

/// The record grown by discovering the first `j` successors in `succs`, in
/// order: a successor state already on record is skipped, a new one is
/// appended with the predecessor link `(h, action)`.
pub open spec fn discover_upto<S, A>(
    succs: Seq<(S, i32, A)>,
    h: int,
    states: Seq<S>,
    preds: Seq<Option<(usize, A)>>,
    j: int,
) -> (Seq<S>, Seq<Option<(usize, A)>>)
    decreases j,
{
    if j <= 0 {
        (states, preds)
    } else {
        let prev = discover_upto(succs, h, states, preds, j - 1);
        let trip = succs[j - 1];
        if visited_state(prev.0, trip.0) {
            prev
        } else {
            (prev.0.push(trip.0), prev.1.push(Some((h as usize, trip.2))))
        }
    }
}

/// The discovery record after the first `k` entries have been expanded in
/// order: breadth-first discovery over the successor relation alone,
/// ignoring costs.
pub open spec fn bfs_record<E: Explorable>(e: &E, start: E::State, k: nat) -> (
    Seq<E::State>,
    Seq<Option<(usize, E::Action)>>,
)
    decreases k,
{
    if k == 0 {
        (seq![start], seq![Option::<(usize, E::Action)>::None])
    } else {
        let prev = bfs_record(e, start, (k - 1) as nat);
        if k - 1 < prev.0.len() {
            discover_upto(
                e.succ(prev.0[k - 1]),
                k - 1,
                prev.0,
                prev.1,
                e.succ(prev.0[k - 1]).len() as int,
            )
        } else {
            prev
        }
    }
}

/// Entry `k` is the first goal state in discovery order: every entry
/// expanded before it is not a goal.
pub open spec fn first_goal_at<E: Explorable>(e: &E, start: E::State, k: int) -> bool {
    let r = bfs_record(e, start, k as nat);
    &&& 0 <= k < r.0.len()
    &&& e.goal(r.0[k])
    &&& forall|i: int| 0 <= i < k ==> !e.goal(#[trigger] r.0[i])
}

/// The one result breadth-first search returns: the predecessor-link path
/// of the first goal state discovered, or nothing when discovery closes
/// without reaching a goal. A function of the problem and the start alone,
/// so repeated searches of an unchanged problem return equal results, and
/// the costs in the successor triples never influence the outcome.
pub open spec fn bfs_spec<E: Explorable>(e: &E, start: E::State) -> Option<Seq<E::Action>> {
    if exists|k: int| first_goal_at(e, start, k) {
        let k = choose|k: int| first_goal_at(e, start, k);
        Some(path_of(bfs_record(e, start, k as nat).1, k))
    } else {
        None
    }
}

proof fn lemma_discover_prefix<S, A>(
    succs: Seq<(S, i32, A)>,
    h: int,
    states: Seq<S>,
    preds: Seq<Option<(usize, A)>>,
    j: int,
)
    requires
        states.len() == preds.len(),
    ensures
        discover_upto(succs, h, states, preds, j).0.len() == discover_upto(
            succs,
            h,
            states,
            preds,
            j,
        ).1.len(),
        discover_upto(succs, h, states, preds, j).0.len() >= states.len(),
        discover_upto(succs, h, states, preds, j).0.take(states.len() as int) == states,
        discover_upto(succs, h, states, preds, j).1.take(preds.len() as int) == preds,
    decreases j,
{
    if j > 0 {
        lemma_discover_prefix(succs, h, states, preds, j - 1);
        let prev = discover_upto(succs, h, states, preds, j - 1);
        let cur = discover_upto(succs, h, states, preds, j);
        if visited_state(prev.0, succs[j - 1].0) {
            assert(cur == prev);
        } else {
            assert(cur.0 == prev.0.push(succs[j - 1].0));
            assert(cur.1 == prev.1.push(Some((h as usize, succs[j - 1].2))));
            assert(cur.0.take(states.len() as int) =~= prev.0.take(states.len() as int));
            assert(cur.1.take(preds.len() as int) =~= prev.1.take(preds.len() as int));
        }
    } else {
        assert(discover_upto(succs, h, states, preds, j) == (states, preds));
        assert(states.take(states.len() as int) =~= states);
        assert(preds.take(preds.len() as int) =~= preds);
    }
}

proof fn lemma_record_shape<E: Explorable>(e: &E, start: E::State, k: nat)
    ensures
        bfs_record(e, start, k).0.len() == bfs_record(e, start, k).1.len(),
        bfs_record(e, start, k).0.len() >= 1,
    decreases k,
{
    if k > 0 {
        lemma_record_shape(e, start, (k - 1) as nat);
        let prev = bfs_record(e, start, (k - 1) as nat);
        if k - 1 < prev.0.len() {
            lemma_discover_prefix(
                e.succ(prev.0[k - 1]),
                k - 1,
                prev.0,
                prev.1,
                e.succ(prev.0[k - 1]).len() as int,
            );
        }
    }
}

proof fn lemma_record_prefix<E: Explorable>(e: &E, start: E::State, k1: nat, k2: nat)
    requires
        k1 <= k2,
    ensures
        bfs_record(e, start, k1).0.len() <= bfs_record(e, start, k2).0.len(),
        bfs_record(e, start, k2).0.take(bfs_record(e, start, k1).0.len() as int) == bfs_record(
            e,
            start,
            k1,
        ).0,
        bfs_record(e, start, k2).1.take(bfs_record(e, start, k1).1.len() as int) == bfs_record(
            e,
            start,
            k1,
        ).1,
    decreases k2 - k1,
{
    lemma_record_shape(e, start, k1);
    let r1 = bfs_record(e, start, k1);
    if k2 == k1 {
        assert(r1.0.take(r1.0.len() as int) =~= r1.0);
        assert(r1.1.take(r1.1.len() as int) =~= r1.1);
    } else {
        lemma_record_prefix(e, start, k1, (k2 - 1) as nat);
        lemma_record_shape(e, start, (k2 - 1) as nat);
        let prev = bfs_record(e, start, (k2 - 1) as nat);
        let cur = bfs_record(e, start, k2);
        if k2 - 1 < prev.0.len() {
            lemma_discover_prefix(
                e.succ(prev.0[k2 - 1]),
                k2 - 1,
                prev.0,
                prev.1,
                e.succ(prev.0[k2 - 1]).len() as int,
            );
            assert(cur.0.take(prev.0.len() as int) == prev.0);
            assert(cur.1.take(prev.1.len() as int) == prev.1);
            assert(cur.0.take(r1.0.len() as int) =~= cur.0.take(prev.0.len() as int).take(
                r1.0.len() as int,
            ));
            assert(cur.1.take(r1.1.len() as int) =~= cur.1.take(prev.1.len() as int).take(
                r1.1.len() as int,
            ));
        } else {
            assert(cur == prev);
        }
    }
}

proof fn lemma_record_stable<E: Explorable>(e: &E, start: E::State, m: nat, k: nat)
    requires
        m <= k,
        bfs_record(e, start, m).0.len() <= m,
    ensures
        bfs_record(e, start, k) == bfs_record(e, start, m),
    decreases k - m,
{
    if k > m {
        lemma_record_stable(e, start, m, (k - 1) as nat);
    }
}

proof fn lemma_first_goal_unique<E: Explorable>(e: &E, start: E::State, k1: int, k2: int)
    requires
        first_goal_at(e, start, k1),
        first_goal_at(e, start, k2),
    ensures
        k1 == k2,
{
    if k1 < k2 {
        lemma_record_prefix(e, start, k1 as nat, k2 as nat);
        assert(bfs_record(e, start, k2 as nat).0[k1] == bfs_record(e, start, k1 as nat).0[k1]);
        assert(false);
    }
    if k2 < k1 {
        lemma_record_prefix(e, start, k2 as nat, k1 as nat);
        assert(bfs_record(e, start, k1 as nat).0[k2] == bfs_record(e, start, k2 as nat).0[k2]);
        assert(false);
    }
}

/// Walks the predecessor links from entry `h` back to the start and returns
/// the recorded actions in travel order.
fn reconstruct_path<E: Explorable>(
    explorable: &E,
    states: &Vec<E::State>,
    preds: &Vec<Option<(usize, E::Action)>>,
    Ghost(start_s): Ghost<E::State>,
    Ghost(dists): Ghost<Seq<int>>,
    h: usize,
) -> (path: Vec<E::Action>)
    requires
        links_ok(explorable, start_s, states@, preds@, dists),
        h < states@.len(),
    ensures
        path@ == path_of(preds@, h as int),
{
    let ghost full = path_of(preds@, h as int);
    let mut back: Vec<E::Action> = Vec::new();
    let mut cur: usize = h;
    proof {
        assert(full =~= path_of(preds@, cur as int) + back@.reverse());
    }
    while preds[cur].is_some()
        invariant
            links_ok(explorable, start_s, states@, preds@, dists),
            cur < states@.len(),
            full == path_of(preds@, cur as int) + back@.reverse(),
        decreases cur,
    {
        let step = preds[cur];
        proof {
            assert(path_of(preds@, cur as int) == path_of(
                preds@,
                pred_idx(preds@, cur as int),
            ).push(act_of(preds@, cur as int)));
        }
        match step {
            Some((p, a)) => {
                back.push(a);
                proof {
                    assert(back@ =~= back@.drop_last().push(a));
                    assert(back@.reverse() =~= seq![a] + back@.drop_last().reverse());
                    assert(path_of(preds@, cur as int) + back@.drop_last().reverse() =~= path_of(
                        preds@,
                        p as int,
                    ) + back@.reverse());
                }
                cur = p;
            },
            None => {
                proof {
                    assert(false);
                }
            },
        }
    }
    proof {
        assert(cur == 0) by {
            if cur != 0 {
                assert(preds@[cur as int] is Some);
            }
        }
        assert(path_of(preds@, cur as int) =~= Seq::<E::Action>::empty());
        assert(full =~= back@.reverse());
    }
    let mut path: Vec<E::Action> = Vec::new();
    let mut k: usize = back.len();
    while k > 0
        invariant
            k <= back.len(),
            path@ =~= back@.subrange(k as int, back@.len() as int).reverse(),
        decreases k,
    {
        k = k - 1;
        let a = back[k];
        path.push(a);
        proof {
            assert(back@.subrange(k as int, back@.len() as int) =~= back@.subrange(
                k as int + 1,
                back@.len() as int,
            ).insert(0, a));
            assert(back@.subrange(k as int, back@.len() as int).reverse() =~= back@.subrange(
                k as int + 1,
                back@.len() as int,
            ).reverse().push(a));
        }
    }
    proof {
        assert(back@.subrange(0, back@.len() as int) =~= back@);
        assert(path@ =~= full);
    }
    path
}


proof fn lemma_expand_closed<E: Explorable>(
    e: &E,
    states: Seq<E::State>,
    succs0: Seq<(E::State, i32, E::Action)>,
    h: int,
)
    requires
        0 <= h < states.len(),
        succs0 == e.succ(states[h]),
        forall|j: int| 0 <= j < succs0.len() ==> visited_state(states, (#[trigger] succs0[j]).0),
        forall|i: int, j: int|
            0 <= i < h && 0 <= j < e.succ(states[i]).len() ==> visited_state(
                states,
                (#[trigger] e.succ(states[i])[j]).0,
            ),
    ensures
        forall|i: int, j: int|
            0 <= i < h + 1 && 0 <= j < e.succ(states[i]).len() ==> visited_state(
                states,
                (#[trigger] e.succ(states[i])[j]).0,
            ),
{
    assert forall|i: int, j: int|
        0 <= i < h + 1 && 0 <= j < e.succ(states[i]).len() implies visited_state(
        states,
        (#[trigger] e.succ(states[i])[j]).0,
    ) by {
        if i == h {
            assert(e.succ(states[i]) == succs0);
            assert(visited_state(states, (succs0[j]).0));
        }
    };
}

/// Expands one discovered state: every not-yet-discovered successor is
/// recorded with its predecessor link, one step deeper than `h`.
#[verifier::rlimit(100)]
fn expand_state<E: Explorable>(
    explorable: &E,
    states: &mut Vec<E::State>,
    preds: &mut Vec<Option<(usize, E::Action)>>,
    Ghost(dists_in): Ghost<Seq<int>>,
    h: usize,
    Ghost(start_s): Ghost<E::State>,
    Ghost(space): Ghost<Set<E::State>>,
) -> (dists_out: Ghost<Seq<int>>)
    requires
        finite_span(explorable, space, start_s),
        old(states)@.no_duplicates(),
        forall|i: int|
            0 <= i < old(states)@.len() ==> space.contains(#[trigger] old(states)@[i]),
        old(states)@.len() <= space.len(),
        h < old(states)@.len(),
        links_ok(explorable, start_s, old(states)@, old(preds)@, dists_in),
        forall|i: int, j: int|
            0 <= i <= j < dists_in.len() ==> #[trigger] dists_in[i] <= #[trigger] dists_in[j],
        forall|i: int| 0 <= i < dists_in.len() ==> #[trigger] dists_in[i] >= 0,
        forall|i: int|
            0 <= i < dists_in.len() ==> #[trigger] dists_in[i] <= dists_in[h as int] + 1,
        !explorable.goal(old(states)@[h as int]),
        forall|i: int| 0 <= i < h ==> !explorable.goal(#[trigger] old(states)@[i]),
        forall|i: int, j: int|
            0 <= i < h && 0 <= j < explorable.succ(old(states)@[i]).len() ==> visited_state(
                old(states)@,
                (#[trigger] explorable.succ(old(states)@[i])[j]).0,
            ),
        forall|acts: Seq<E::Action>, k: int|
            0 <= k < old(states)@.len() && #[trigger] reaches(
                explorable,
                start_s,
                acts,
                old(states)@[k],
            ) ==> dists_in[k] <= acts.len(),
        forall|acts: Seq<E::Action>, t: E::State|
            #[trigger] reaches(explorable, start_s, acts, t) && acts.len() <= dists_in[h as int]
                ==> visited_state(old(states)@, t),
    ensures
        final(states)@.no_duplicates(),
        forall|i: int|
            0 <= i < final(states)@.len() ==> space.contains(#[trigger] final(states)@[i]),
        final(states)@.len() <= space.len(),
        old(states)@.len() <= final(states)@.len(),
        links_ok(explorable, start_s, final(states)@, final(preds)@, dists_out@),
        forall|i: int, j: int|
            0 <= i <= j < dists_out@.len() ==> #[trigger] dists_out@[i] <= #[trigger] dists_out@[j],
        forall|i: int| 0 <= i < dists_out@.len() ==> #[trigger] dists_out@[i] >= 0,
        forall|i: int|
            0 <= i < dists_out@.len() ==> #[trigger] dists_out@[i] <= dists_out@[h as int] + 1,
        dists_out@[h as int] == dists_in[h as int],
        forall|i: int| 0 <= i < h + 1 ==> !explorable.goal(#[trigger] final(states)@[i]),
        forall|i: int, j: int|
            0 <= i < h + 1 && 0 <= j < explorable.succ(final(states)@[i]).len() ==> visited_state(
                final(states)@,
                (#[trigger] explorable.succ(final(states)@[i])[j]).0,
            ),
        forall|acts: Seq<E::Action>, k: int|
            0 <= k < final(states)@.len() && #[trigger] reaches(
                explorable,
                start_s,
                acts,
                final(states)@[k],
            ) ==> dists_out@[k] <= acts.len(),
        forall|acts: Seq<E::Action>, t: E::State|
            #[trigger] reaches(explorable, start_s, acts, t) && acts.len() <= dists_out@[h as int]
                ==> visited_state(final(states)@, t),
        final(states)@ == discover_upto(
            explorable.succ(old(states)@[h as int]),
            h as int,
            old(states)@,
            old(preds)@,
            explorable.succ(old(states)@[h as int]).len() as int,
        ).0,
        final(preds)@ == discover_upto(
            explorable.succ(old(states)@[h as int]),
            h as int,
            old(states)@,
            old(preds)@,
            explorable.succ(old(states)@[h as int]).len() as int,
        ).1,
{
    let ghost mut dists: Seq<int> = dists_in;
    let mut succs = explorable.successors(&states[h]);
    let ghost succs0 = succs@;
    let ghost hd = dists[h as int];
    proof {
        assert(discover_upto(succs0, h as int, old(states)@, old(preds)@, 0).0 == states@);
        assert(discover_upto(succs0, h as int, old(states)@, old(preds)@, 0).1 == preds@);
    }
    while succs.len() > 0
        invariant
            finite_span(explorable, space, start_s),
            states@.no_duplicates(),
            forall|i: int| 0 <= i < states@.len() ==> space.contains(#[trigger] states@[i]),
            states@.len() <= space.len(),
            old(states)@.len() <= states@.len(),
            h < states.len(),
            links_ok(explorable, start_s, states@, preds@, dists),
            forall|i: int, j: int|
                0 <= i <= j < dists.len() ==> #[trigger] dists[i] <= #[trigger] dists[j],
            forall|i: int| 0 <= i < dists.len() ==> #[trigger] dists[i] >= 0,
            forall|i: int| 0 <= i < dists.len() ==> #[trigger] dists[i] <= hd + 1,
            hd == dists[h as int],
            !explorable.goal(states@[h as int]),
            succs0 == explorable.succ(states@[h as int]),
            succs0 == explorable.succ(old(states)@[h as int]),
            states@ == discover_upto(
                succs0,
                h as int,
                old(states)@,
                old(preds)@,
                succs0.len() - succs@.len(),
            ).0,
            preds@ == discover_upto(
                succs0,
                h as int,
                old(states)@,
                old(preds)@,
                succs0.len() - succs@.len(),
            ).1,
            succs0.len() >= succs.len(),
            succs@ =~= succs0.subrange(succs0.len() - succs.len(), succs0.len() as int),
            forall|j: int|
                0 <= j < succs0.len() - succs.len() ==> visited_state(
                    states@,
                    (#[trigger] succs0[j]).0,
                ),
            forall|i: int| 0 <= i < h ==> !explorable.goal(#[trigger] states@[i]),
            forall|i: int, j: int|
                0 <= i < h && 0 <= j < explorable.succ(states@[i]).len() ==> visited_state(
                    states@,
                    (#[trigger] explorable.succ(states@[i])[j]).0,
                ),
            forall|acts: Seq<E::Action>, k: int|
                0 <= k < states@.len() && #[trigger] reaches(
                    explorable,
                    start_s,
                    acts,
                    states@[k],
                ) ==> dists[k] <= acts.len(),
            forall|acts: Seq<E::Action>, t: E::State|
                #[trigger] reaches(explorable, start_s, acts, t) && acts.len() <= hd
                    ==> visited_state(states@, t),
        decreases succs.len(),
    {
        let ghost done = succs0.len() - succs@.len();
        let triple = succs.remove(0);
        let ghost old_states = states@;
        let ghost old_preds = preds@;
        let ghost old_dists = dists;
        let s = triple.0;
        let a = triple.2;
        proof {
            assert(succs0[done as int] == triple);
        }
        let mut t: usize = 0;
        let mut found = false;
        while t < states.len() && !found
            invariant
                t <= states.len(),
                found ==> t < states.len() && states@[t as int] == s,
                !found ==> forall|i: int| 0 <= i < t ==> states@[i] != s,
            decreases states.len() - t, (if found { 0int } else { 1int }),
        {
            if explorable.same_state(&states[t], &s) {
                found = true;
            } else {
                t = t + 1;
            }
        }
        if !found {
            states.push(s);
            preds.push(Some((h, a)));
            proof {
                dists = dists.push(hd + 1);
                assert(states@ =~= old_states.push(s));
                let n = old_states.len() as int;
                assert(space.contains(s)) by {
                    assert(space.contains((explorable.succ(states@[h as int])[done as int]).0));
                }
                assert(states@.no_duplicates()) by {
                    assert(forall|i: int| 0 <= i < n ==> #[trigger] states@[i] != s);
                }
                lemma_distinct_in_space(states@, space);
                assert(preds@ =~= old_preds.push(Some((h, a))));
                assert(dists =~= old_dists.push(hd + 1));
                assert(pred_idx(preds@, n) == h as int);
                assert(act_of(preds@, n) == a);
                assert(explorable.succ(states@[h as int]) == succs0) by {
                    assert(states@[h as int] == old_states[h as int]);
                }
                assert(is_edge(explorable, states@[h as int], s, a)) by {
                    assert((explorable.succ(states@[h as int])[done as int]).0 == s);
                    assert((explorable.succ(states@[h as int])[done as int]).2 == a);
                }
                assert forall|i: int| 1 <= i < states@.len() implies 0 <= #[trigger] pred_idx(
                    preds@,
                    i,
                ) < i && is_edge(
                    explorable,
                    states@[pred_idx(preds@, i)],
                    states@[i],
                    act_of(preds@, i),
                ) && dists[i] == dists[pred_idx(preds@, i)] + 1 by {
                    if i < n {
                        assert(preds@[i] == old_preds[i]);
                        assert(states@[i] == old_states[i]);
                        assert(dists[i] == old_dists[i]);
                        assert(pred_idx(preds@, i) == pred_idx(old_preds, i));
                        assert(act_of(preds@, i) == act_of(old_preds, i));
                        assert(is_edge(
                            explorable,
                            old_states[pred_idx(old_preds, i)],
                            old_states[i],
                            act_of(old_preds, i),
                        ));
                        assert(states@[pred_idx(preds@, i)] == old_states[pred_idx(old_preds, i)]);
                        assert(dists[pred_idx(preds@, i)] == old_dists[pred_idx(old_preds, i)]);
                    } else {
                        assert(i == n);
                        assert(dists[n] == dists[h as int] + 1);
                    }
                };
                // any way to the newly discovered state is longer than hd
                assert forall|acts: Seq<E::Action>, k: int|
                    0 <= k < states@.len() && #[trigger] reaches(
                        explorable,
                        start_s,
                        acts,
                        states@[k],
                    ) implies dists[k] <= acts.len() by {
                    if k == n {
                        if acts.len() <= hd {
                            assert(visited_state(old_states, s));
                            assert(false);
                        }
                    }
                };
                assert forall|j: int| 0 <= j < done + 1 implies visited_state(
                    states@,
                    (#[trigger] succs0[j]).0,
                ) by {
                    if j < done {
                        assert(visited_state(old_states, succs0[j].0));
                        let k2 = choose|k2: int|
                            0 <= k2 < old_states.len() && old_states[k2] == succs0[j].0;
                        assert(states@[k2] == succs0[j].0);
                    } else {
                        assert(states@[n] == s);
                    }
                };
                assert forall|i: int, j: int|
                    0 <= i < h && 0 <= j < explorable.succ(states@[i]).len() implies visited_state(
                    states@,
                    (#[trigger] explorable.succ(states@[i])[j]).0,
                ) by {
                    assert(visited_state(old_states, explorable.succ(old_states[i])[j].0));
                    let k2 = choose|k2: int|
                        0 <= k2 < old_states.len() && old_states[k2] == explorable.succ(
                            old_states[i],
                        )[j].0;
                    assert(states@[k2] == explorable.succ(states@[i])[j].0);
                };
                assert forall|acts: Seq<E::Action>, t2: E::State|
                    #[trigger] reaches(explorable, start_s, acts, t2) && acts.len() <= hd
                        implies visited_state(states@, t2) by {
                    assert(visited_state(old_states, t2));
                    let k2 = choose|k2: int| 0 <= k2 < old_states.len() && old_states[k2] == t2;
                    assert(states@[k2] == t2);
                };
                assert(!visited_state(old_states, s)) by {
                    if visited_state(old_states, s) {
                        let k2 = choose|k2: int|
                            0 <= k2 < old_states.len() && old_states[k2] == s;
                        assert(old_states[k2] != s);
                    }
                }
                assert(discover_upto(
                    succs0,
                    h as int,
                    old(states)@,
                    old(preds)@,
                    done + 1,
                ).0 == old_states.push(s));
                assert(discover_upto(
                    succs0,
                    h as int,
                    old(states)@,
                    old(preds)@,
                    done + 1,
                ).1 == old_preds.push(Some((h, a))));
            }
        } else {
            proof {
                assert(visited_state(states@, succs0[done as int].0));
                assert forall|j: int| 0 <= j < done + 1 implies visited_state(
                    states@,
                    (#[trigger] succs0[j]).0,
                ) by {};
                assert(discover_upto(succs0, h as int, old(states)@, old(preds)@, done + 1)
                    == discover_upto(succs0, h as int, old(states)@, old(preds)@, done as int));
            }
        }
        proof {
            assert(succs@ =~= succs0.subrange(succs0.len() - succs@.len(), succs0.len() as int));
        }
    }
    proof {
        assert(states@ == discover_upto(
            succs0,
            h as int,
            old(states)@,
            old(preds)@,
            succs0.len() as int,
        ).0);
        assert(preds@ == discover_upto(
            succs0,
            h as int,
            old(states)@,
            old(preds)@,
            succs0.len() as int,
        ).1);
        lemma_expand_closed(explorable, states@, succs0, h as int);
    }
    Ghost(dists)
}

/// Breadth-first search over the implicit graph that `explorable` defines.
///
/// Returns `Some(path)` exactly when some goal state is reachable from
/// `start`: the returned actions, taken in order from `start`, end in a goal
/// state, and no action sequence ending in a goal state is shorter. Returns
/// `None` exactly when no goal state is reachable.
///
/// The result equals `bfs_spec`, a function of the successor relation and
/// the start alone: repeated searches of an unchanged problem return equal
/// results, ties between equal-length paths go to the states enumerated
/// earliest by `successors`, and the costs in the successor triples never
/// influence the outcome.
///
/// The caller vouches that exploration from `start` stays inside some finite
/// state space; on an unbounded problem the caller must impose its own
/// horizon (such as a move-count bound) before searching, since the engine
/// runs to exhaustion or goal.
#[verifier::rlimit(100)]
pub fn bfs_search<E: Explorable>(explorable: &E, start: E::State) -> (r: Option<Vec<E::Action>>)
    requires
        exists|space: Set<E::State>| finite_span(explorable, space, start),
    ensures
        match r {
            Some(path) => reaches_goal(explorable, start, path@) && bfs_spec(explorable, start)
                == Some(path@) && forall|acts: Seq<E::Action>|
                #[trigger] reaches_goal(explorable, start, acts) ==> path@.len() <= acts.len(),
            None => bfs_spec(explorable, start) is None && forall|acts: Seq<E::Action>|
                !reaches_goal(explorable, start, acts),
        },
{
    let ghost start_s = start;
    let ghost space = choose|space: Set<E::State>| finite_span(explorable, space, start_s);
    let mut states: Vec<E::State> = Vec::new();
    let mut preds: Vec<Option<(usize, E::Action)>> = Vec::new();
    let ghost mut dists: Seq<int> = Seq::empty().push(0);
    states.push(start);
    preds.push(None);
    let mut h: usize = 0;
    proof {
        assert(states@ =~= seq![start_s]);
        assert(preds@ =~= seq![Option::<(usize, E::Action)>::None]);
    }

    while h < states.len()
        invariant
            start_s == start,
            finite_span(explorable, space, start_s),
            states@.no_duplicates(),
            forall|i: int| 0 <= i < states@.len() ==> space.contains(#[trigger] states@[i]),
            states@.len() <= space.len(),
            h <= states.len(),
            states@ == bfs_record(explorable, start_s, h as nat).0,
            preds@ == bfs_record(explorable, start_s, h as nat).1,
            links_ok(explorable, start_s, states@, preds@, dists),
            // distances never decrease along the discovery order
            forall|i: int, j: int|
                0 <= i <= j < dists.len() ==> #[trigger] dists[i] <= #[trigger] dists[j],
            forall|i: int| 0 <= i < dists.len() ==> #[trigger] dists[i] >= 0,
            h < states.len() ==> forall|i: int|
                0 <= i < dists.len() ==> #[trigger] dists[i] <= dists[h as int] + 1,
            // the states already expanded are not goals
            forall|i: int| 0 <= i < h ==> !explorable.goal(#[trigger] states@[i]),
            // every successor of an expanded state has been discovered
            forall|i: int, j: int|
                0 <= i < h && 0 <= j < explorable.succ(states@[i]).len() ==> visited_state(
                    states@,
                    (#[trigger] explorable.succ(states@[i])[j]).0,
                ),
            // a recorded distance never exceeds the length of any way there
            forall|acts: Seq<E::Action>, k: int|
                0 <= k < states@.len() && #[trigger] reaches(explorable, start_s, acts, states@[k])
                    ==> dists[k] <= acts.len(),
            // everything reachable within the current depth is discovered
            h < states.len() ==> forall|acts: Seq<E::Action>, t: E::State|
                #[trigger] reaches(explorable, start_s, acts, t) && acts.len() <= dists[h as int]
                    ==> visited_state(states@, t),
        decreases space.len() - h,
    {
        let found_goal = explorable.is_goal(&states[h]);
        if found_goal {
            proof {
                lemma_path_of_reaches(explorable, start_s, states@, preds@, dists, h as int);
                lemma_no_shorter_goal(explorable, start_s, states@, dists, h as int);
            }
            let path = reconstruct_path(
                explorable,
                &states,
                &preds,
                Ghost(start_s),
                Ghost(dists),
                h,
            );
            proof {
                assert(reaches(explorable, start_s, path@, states@[h as int]));
                assert(explorable.goal(states@[h as int]));
                assert(reaches_goal(explorable, start_s, path@));
                assert(path@.len() == dists[h as int]);
                assert(first_goal_at(explorable, start_s, h as int)) by {
                    assert(bfs_record(explorable, start_s, (h as int) as nat).0 == states@);
                }
                let k0 = choose|k: int| first_goal_at(explorable, start_s, k);
                lemma_first_goal_unique(explorable, start_s, k0, h as int);
                assert(bfs_record(explorable, start_s, k0 as nat).1 == preds@);
                assert(bfs_spec(explorable, start_s) == Some(path_of(preds@, h as int)));
                assert(bfs_spec(explorable, start_s) == Some(path@));
            }
            return Some(path);
        }
        let ghost pre_states = states@;
        let ghost pre_preds = preds@;
        let dists_next = expand_state(
            explorable,
            &mut states,
            &mut preds,
            Ghost(dists),
            h,
            Ghost(start_s),
            Ghost(space),
        );
        let ghost old_h = h as int;
        proof {
            dists = dists_next@;
        }
        h = h + 1;
        proof {
            assert(bfs_record(explorable, start_s, old_h as nat) == (pre_states, pre_preds));
            assert((h as nat) == (old_h + 1) as nat);
            assert(bfs_record(explorable, start_s, h as nat) == discover_upto(
                explorable.succ(pre_states[old_h]),
                old_h,
                pre_states,
                pre_preds,
                explorable.succ(pre_states[old_h]).len() as int,
            ));
            assert(states@ == bfs_record(explorable, start_s, h as nat).0);
            assert(preds@ == bfs_record(explorable, start_s, h as nat).1);
            if h < states.len() {
                assert(dists[old_h] <= dists[old_h + 1] <= dists[old_h] + 1);
                lemma_frontier_step(explorable, start_s, states@, dists, old_h);
            }
        }
    }
    proof {
        assert forall|acts: Seq<E::Action>| !reaches_goal(explorable, start_s, acts) by {
            if reaches_goal(explorable, start_s, acts) {
                let t = choose|t: E::State|
                    #[trigger] reaches(explorable, start_s, acts, t) && explorable.goal(t);
                assert(visited_state(states@, start_s)) by {
                    assert(states@[0] == start_s);
                }
                lemma_closed_reaches(explorable, states@, start_s, acts, t);
                let k = choose|k: int| 0 <= k < states@.len() && states@[k] == t;
                assert(!explorable.goal(states@[k]));
                assert(false);
            }
        };
        assert forall|k: int| !first_goal_at(explorable, start_s, k) by {
            if first_goal_at(explorable, start_s, k) {
                if k <= h as int {
                    lemma_record_prefix(explorable, start_s, k as nat, h as nat);
                    let lk = bfs_record(explorable, start_s, k as nat).0.len() as int;
                    assert(bfs_record(explorable, start_s, h as nat).0.take(lk)
                        == bfs_record(explorable, start_s, k as nat).0);
                    assert(bfs_record(explorable, start_s, h as nat).0.take(lk)[k]
                        == bfs_record(explorable, start_s, h as nat).0[k]);
                    assert(explorable.goal(states@[k]));
                    assert(!explorable.goal(states@[k]));
                    assert(false);
                } else {
                    assert(bfs_record(explorable, start_s, h as nat).0.len() <= h as int);
                    lemma_record_stable(explorable, start_s, h as nat, k as nat);
                    assert(k < bfs_record(explorable, start_s, h as nat).0.len());
                    assert(false);
                }
            }
        };
        assert(bfs_spec(explorable, start_s) is None);
    }
    None
}

} // verus!
