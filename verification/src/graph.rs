//! The link graph as a mathematical object: a set of directed edges between
//! page ids, the set of pages within a number of steps of a page, and the
//! facts about those sets that the search rests on.

use vstd::prelude::*;

verus! {

/// The edges that an adjacency table holds: `(u, v)` where the list of `u`
/// holds `v`.
pub open spec fn graph_of(adj: Map<u32, Vec<u32>>) -> Set<(u32, u32)> {
    Set::new(|e: (u32, u32)| adj.contains_key(e.0) && adj[e.0]@.contains(e.1))
}

/// The graph with every edge turned round.
pub open spec fn reversed(g: Set<(u32, u32)>) -> Set<(u32, u32)> {
    Set::new(|e: (u32, u32)| g.contains((e.1, e.0)))
}

/// The pages that an edge leads to from some page of `from`.
pub open spec fn successors(g: Set<(u32, u32)>, from: Set<u32>) -> Set<u32> {
    Set::new(|v: u32| exists|u: u32| from.contains(u) && #[trigger] g.contains((u, v)))
}

/// The pages that a walk of at most `radius` edges reaches from `origin`.
pub open spec fn ball(g: Set<(u32, u32)>, origin: u32, radius: nat) -> Set<u32>
    decreases radius,
{
    if radius == 0 {
        set![origin]
    } else {
        ball(g, origin, (radius - 1) as nat).union(
            successors(g, ball(g, origin, (radius - 1) as nat)),
        )
    }
}

/// `v` is exactly `k` steps from `origin`: within `k`, and not within `k - 1`.
pub open spec fn at_distance(g: Set<(u32, u32)>, origin: u32, v: u32, k: nat) -> bool {
    ball(g, origin, k).contains(v) && (k > 0 ==> !ball(g, origin, (k - 1) as nat).contains(v))
}

/// Some walk leads from `s` to `t`.
pub open spec fn connected(g: Set<(u32, u32)>, s: u32, t: u32) -> bool {
    exists|k: nat| #[trigger] ball(g, s, k).contains(t)
}

/// `u` is strictly nearer to `origin` than `v`.
pub open spec fn nearer(g: Set<(u32, u32)>, origin: u32, u: u32, v: u32) -> bool {
    exists|k: nat|
        (#[trigger] ball(g, origin, k)).contains(u) && !ball(g, origin, k).contains(v)
}

/// The edge `(u, v)` lies on a shortest walk from `s` to `t`, which has
/// `length` edges: `u` is `i` steps from `s`, and `t` is `length - 1 - i` steps
/// from `v`.
pub open spec fn on_shortest_walk(
    g: Set<(u32, u32)>,
    s: u32,
    t: u32,
    length: nat,
    u: u32,
    v: u32,
) -> bool {
    g.contains((u, v)) && exists|i: nat|
        i < length && #[trigger] at_distance(g, s, u, i) && at_distance(
            reversed(g),
            t,
            v,
            (length - 1 - i) as nat,
        )
}

/// `walk` is a walk from `s` to `t`: it starts at `s`, ends at `t`, and an
/// edge leads from each of its pages to the next.
pub open spec fn is_walk(g: Set<(u32, u32)>, walk: Seq<u32>, s: u32, t: u32) -> bool {
    &&& walk.len() >= 1
    &&& walk[0] == s
    &&& walk.last() == t
    &&& forall|i: int| 0 <= i < walk.len() - 1 ==> g.contains((walk[i], #[trigger] walk[i + 1]))
}

/// A walk of `k` edges ends within `k` steps of where it starts.
pub proof fn lemma_walk_in_ball(g: Set<(u32, u32)>, walk: Seq<u32>, s: u32, t: u32)
    requires
        is_walk(g, walk, s, t),
    ensures
        ball(g, s, (walk.len() - 1) as nat).contains(t),
    decreases walk.len(),
{
    if walk.len() > 1 {
        let shorter = walk.drop_last();
        let u = shorter.last();
        assert forall|i: int| 0 <= i < shorter.len() - 1 implies g.contains(
            (shorter[i], #[trigger] shorter[i + 1]),
        ) by {
            assert(g.contains((walk[i], walk[i + 1])));
        }
        lemma_walk_in_ball(g, shorter, s, u);
        assert(g.contains((walk[walk.len() - 2], walk[walk.len() - 2 + 1])));
        lemma_ball_step(g, s, u, t, (shorter.len() - 1) as nat);
    }
}

/// To a page within `k` steps leads a walk of at most `k` edges.
pub proof fn lemma_ball_has_walk(g: Set<(u32, u32)>, s: u32, t: u32, k: nat) -> (walk: Seq<u32>)
    requires
        ball(g, s, k).contains(t),
    ensures
        is_walk(g, walk, s, t),
        walk.len() <= k + 1,
    decreases k,
{
    if k == 0 {
        seq![s]
    } else if ball(g, s, (k - 1) as nat).contains(t) {
        lemma_ball_has_walk(g, s, t, (k - 1) as nat)
    } else {
        let u = lemma_ball_parent(g, s, t, (k - 1) as nat);
        let shorter = lemma_ball_has_walk(g, s, u, (k - 1) as nat);
        let walk = shorter.push(t);
        assert forall|i: int| 0 <= i < walk.len() - 1 implies g.contains(
            (walk[i], #[trigger] walk[i + 1]),
        ) by {
            if i < shorter.len() - 1 {
                assert(g.contains((shorter[i], shorter[i + 1])));
            }
        }
        walk
    }
}

/// A larger radius reaches at least as much.
pub proof fn lemma_ball_grows(g: Set<(u32, u32)>, origin: u32, j: nat, k: nat)
    requires
        j <= k,
    ensures
        ball(g, origin, j).subset_of(ball(g, origin, k)),
    decreases k - j,
{
    if j < k {
        lemma_ball_grows(g, origin, j, (k - 1) as nat);
    }
}

/// One edge more leads at most one step further.
pub proof fn lemma_ball_step(g: Set<(u32, u32)>, origin: u32, u: u32, v: u32, k: nat)
    requires
        ball(g, origin, k).contains(u),
        g.contains((u, v)),
    ensures
        ball(g, origin, k + 1).contains(v),
{
    assert(successors(g, ball(g, origin, k)).contains(v));
}

/// A page that radius `k + 1` adds has a neighbour exactly `k` steps out.
pub proof fn lemma_ball_parent(g: Set<(u32, u32)>, origin: u32, v: u32, k: nat) -> (u: u32)
    requires
        ball(g, origin, k + 1).contains(v),
        !ball(g, origin, k).contains(v),
    ensures
        at_distance(g, origin, u, k),
        g.contains((u, v)),
{
    assert(successors(g, ball(g, origin, k)).contains(v));
    let u = choose|u: u32| ball(g, origin, k).contains(u) && #[trigger] g.contains((u, v));
    if k > 0 && ball(g, origin, (k - 1) as nat).contains(u) {
        lemma_ball_step(g, origin, u, v, (k - 1) as nat);
    }
    u
}

/// Once a radius adds nothing, no larger radius does.
pub proof fn lemma_ball_stable(g: Set<(u32, u32)>, origin: u32, k: nat, m: nat)
    requires
        ball(g, origin, k + 1) == ball(g, origin, k),
        k <= m,
    ensures
        ball(g, origin, m) == ball(g, origin, k),
    decreases m,
{
    if m > k {
        lemma_ball_stable(g, origin, k, (m - 1) as nat);
        assert(ball(g, origin, m) =~= ball(g, origin, k + 1));
    }
}

/// An edge in front of a walk: what `u` reaches in `k` steps, a page with an
/// edge to `u` reaches in `k + 1`.
pub proof fn lemma_ball_prepend(g: Set<(u32, u32)>, t: u32, u: u32, x: u32, k: nat)
    requires
        g.contains((t, u)),
        ball(g, u, k).contains(x),
    ensures
        ball(g, t, k + 1).contains(x),
    decreases k,
{
    if k == 0 {
        lemma_ball_step(g, t, t, u, 0);
    } else {
        let inner = ball(g, u, (k - 1) as nat);
        if inner.contains(x) {
            lemma_ball_prepend(g, t, u, x, (k - 1) as nat);
            lemma_ball_grows(g, t, k, k + 1);
        } else {
            assert(successors(g, inner).contains(x));
            let y = choose|y: u32| inner.contains(y) && #[trigger] g.contains((y, x));
            lemma_ball_prepend(g, t, u, y, (k - 1) as nat);
            lemma_ball_step(g, t, y, x, k);
        }
    }
}

/// A page within `a` steps of `s` from which `t` is within `b` steps shows
/// that `t` is within `a + b` steps of `s`.
pub proof fn lemma_meeting_reaches(g: Set<(u32, u32)>, s: u32, t: u32, v: u32, a: nat, b: nat)
    requires
        ball(g, s, a).contains(v),
        ball(reversed(g), t, b).contains(v),
    ensures
        ball(g, s, a + b).contains(t),
    decreases b,
{
    if b > 0 {
        let inner = ball(reversed(g), t, (b - 1) as nat);
        if inner.contains(v) {
            lemma_meeting_reaches(g, s, t, v, a, (b - 1) as nat);
            lemma_ball_grows(g, s, (a + b - 1) as nat, a + b);
        } else {
            assert(successors(reversed(g), inner).contains(v));
            let w = choose|w: u32| inner.contains(w) && #[trigger] reversed(g).contains((w, v));
            lemma_ball_step(g, s, v, w, a);
            lemma_meeting_reaches(g, s, t, w, a + 1, (b - 1) as nat);
        }
    }
}

/// Where `t` is within `a + b` steps of `s`, some page is within `a` steps of
/// `s` and has `t` within `b` steps.
pub proof fn lemma_reach_meets(g: Set<(u32, u32)>, s: u32, t: u32, a: nat, b: nat) -> (v: u32)
    requires
        ball(g, s, a + b).contains(t),
    ensures
        ball(g, s, a).contains(v),
        ball(reversed(g), t, b).contains(v),
    decreases b,
{
    if b == 0 {
        t
    } else if ball(g, s, (a + b - 1) as nat).contains(t) {
        let v = lemma_reach_meets(g, s, t, a, (b - 1) as nat);
        lemma_ball_grows(reversed(g), t, (b - 1) as nat, b);
        v
    } else {
        let u = lemma_ball_parent(g, s, t, (a + b - 1) as nat);
        let v = lemma_reach_meets(g, s, u, a, (b - 1) as nat);
        assert(reversed(g).contains((t, u)));
        lemma_ball_prepend(reversed(g), t, u, v, (b - 1) as nat);
        v
    }
}

/// The distance of a page is unique.
pub proof fn lemma_distance_unique(g: Set<(u32, u32)>, origin: u32, v: u32, j: nat, k: nat)
    requires
        at_distance(g, origin, v, j),
        at_distance(g, origin, v, k),
    ensures
        j == k,
{
    if j < k {
        lemma_ball_grows(g, origin, j, (k - 1) as nat);
    }
    if k < j {
        lemma_ball_grows(g, origin, k, (j - 1) as nat);
    }
}

/// Turning a graph round twice gives it back.
pub proof fn lemma_reversed_twice(g: Set<(u32, u32)>)
    ensures
        reversed(reversed(g)) == g,
{
    assert(reversed(reversed(g)) =~= g);
}

} // verus!
