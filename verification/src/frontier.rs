//! One side of the bidirectional search: the pages reached so far with their
//! predecessors, and the step that advances the side by one whole level.

use crate::graph::{
    at_distance, ball, graph_of, lemma_ball_grows, lemma_ball_parent, lemma_ball_step, nearer,
};
use std::collections::HashMap;
use vstd::prelude::*;
use vstd::std_specs::hash::*;

verus! {

broadcast use vstd::std_specs::hash::group_hash_axioms;

/// `list` holds, each once, the neighbours of `v` that are nearer to `origin`
/// than `v`: the pages before `v` on a shortest walk from `origin`.
pub open spec fn predecessors_exact(
    g: Set<(u32, u32)>,
    origin: u32,
    v: u32,
    list: Seq<u32>,
) -> bool {
    &&& list.no_duplicates()
    &&& forall|u: u32| #[trigger] list.contains(u) <==> g.contains((u, v)) && nearer(g, origin, u, v)
}

/// One side of the search after `depth` levels: `seen` holds the pages within
/// `depth` steps of `origin`, each with its predecessors, and `queue` holds the
/// pages exactly `depth` steps away.
pub open spec fn frontier(
    g: Set<(u32, u32)>,
    origin: u32,
    depth: nat,
    seen: Map<u32, Vec<u32>>,
    queue: Seq<u32>,
) -> bool {
    &&& seen.dom() =~= ball(g, origin, depth)
    &&& forall|v: u32| #[trigger] queue.contains(v) <==> at_distance(g, origin, v, depth)
    &&& forall|v: u32| #[trigger]
        seen.contains_key(v) ==> predecessors_exact(g, origin, v, seen[v]@)
}

/// `keys` lists the keys of `fresh`, each once.
pub open spec fn keys_match(fresh: Map<u32, Vec<u32>>, keys: Seq<u32>) -> bool {
    &&& keys.no_duplicates()
    &&& forall|n: u32| #[trigger] keys.contains(n) <==> fresh.contains_key(n)
}

/// The edges of `g` that leave `u`.
pub open spec fn edges_from(g: Set<(u32, u32)>, u: u32) -> Set<(u32, u32)> {
    Set::new(|e: (u32, u32)| e.0 == u && g.contains(e))
}

/// The edges of `g` that leave a page of `pages`.
pub open spec fn edges_from_all(g: Set<(u32, u32)>, pages: Seq<u32>) -> Set<(u32, u32)> {
    Set::new(|e: (u32, u32)| pages.contains(e.0) && g.contains(e))
}

/// What a level has found so far, `found` being the edges looked at: `fresh`
/// maps each page outside `inside` that such an edge leads to, to the pages
/// that those edges come from; `keys` lists the new pages once, `next` as
/// often as they were reached.
pub open spec fn scanned(
    found: Set<(u32, u32)>,
    inside: Set<u32>,
    fresh: Map<u32, Vec<u32>>,
    keys: Seq<u32>,
    next: Seq<u32>,
) -> bool {
    &&& keys_match(fresh, keys)
    &&& forall|n: u32| #[trigger] next.contains(n) <==> fresh.contains_key(n)
    &&& forall|n: u32| #[trigger]
        fresh.contains_key(n) ==> !inside.contains(n) && fresh[n]@.no_duplicates()
            && fresh[n]@.len() > 0
    &&& forall|n: u32, u: u32|
        fresh.contains_key(n) ==> (#[trigger] fresh[n]@.contains(u) <==> found.contains((u, n)))
    &&& forall|n: u32, u: u32| #[trigger]
        found.contains((u, n)) && !inside.contains(n) ==> fresh.contains_key(n)
}

/// Whether `list` holds `x`.
pub fn list_has(list: &Vec<u32>, x: u32) -> (found: bool)
    ensures
        found == list@.contains(x),
{
    let mut i: usize = 0;
    while i < list.len()
        invariant
            i <= list.len(),
            forall|j: int| 0 <= j < i ==> list@[j] != x,
        decreases list.len() - i,
    {
        if list[i] == x {
            return true;
        }
        i = i + 1;
    }
    false
}

/// Notes that the new page `n` was reached from `v`.
fn record(fresh: &mut HashMap<u32, Vec<u32>>, keys: &mut Vec<u32>, n: u32, v: u32)
    requires
        keys_match(old(fresh)@, old(keys)@),
        forall|k: u32| #[trigger] old(fresh)@.contains_key(k) ==> old(fresh)@[k]@.no_duplicates(),
    ensures
        keys_match(final(fresh)@, final(keys)@),
        final(fresh)@.dom() =~= old(fresh)@.dom().insert(n),
        forall|k: u32|
            k != n && #[trigger] old(fresh)@.contains_key(k) ==> final(fresh)@[k] == old(fresh)@[k],
        final(fresh)@[n]@.no_duplicates(),
        forall|u: u32| #[trigger]
            final(fresh)@[n]@.contains(u) <==> u == v || (old(fresh)@.contains_key(n)
                && old(fresh)@[n]@.contains(u)),
{
    match fresh.remove(&n) {
        Some(mut list) => {
            if !list_has(&list, v) {
                list.push(v);
                assert forall|u: u32| #[trigger] list@.contains(u) <==> u == v || old(fresh)@[n]@.contains(
                    u,
                ) by {
                    let before = old(fresh)@[n]@;
                    assert(list@ == before.push(v));
                    if before.contains(u) {
                        let i = choose|i: int| 0 <= i < before.len() && before[i] == u;
                        assert(list@[i] == u);
                    }
                    assert(list@[before.len() as int] == v);
                }
            }
            fresh.insert(n, list);
            assert(fresh@.dom() =~= old(fresh)@.dom());
            assert forall|k: u32| #[trigger] keys@.contains(k) <==> fresh@.contains_key(k) by {
                assert(fresh@.contains_key(k) <==> old(fresh)@.dom().contains(k));
            }
        },
        None => {
            let mut list: Vec<u32> = Vec::new();
            list.push(v);
            assert(list@[0] == v);
            fresh.insert(n, list);
            keys.push(n);
            assert(!old(keys)@.contains(n));
            assert(keys@.no_duplicates());
            assert forall|k: u32| #[trigger] keys@.contains(k) <==> fresh@.contains_key(k) by {
                let before = old(keys)@;
                assert(keys@ == before.push(n));
                if before.contains(k) {
                    let i = choose|i: int| 0 <= i < before.len() && before[i] == k;
                    assert(keys@[i] == k);
                }
                assert(keys@[before.len() as int] == n);
            }
        },
    }
}

/// `list` with `x` behind it holds what `list` holds, and `x`.
pub proof fn lemma_push_contains(list: Seq<u32>, x: u32, y: u32)
    ensures
        list.push(x).contains(y) <==> list.contains(y) || y == x,
{
    if list.contains(y) {
        let i = choose|i: int| 0 <= i < list.len() && list[i] == y;
        assert(list.push(x)[i] == y);
    }
    assert(list.push(x)[list.len() as int] == x);
}

/// Reads the links of `cur` and notes each page outside `seen` that one leads to.
fn scan_page(
    adj: &HashMap<u32, Vec<u32>>,
    seen: &HashMap<u32, Vec<u32>>,
    cur: u32,
    fresh: &mut HashMap<u32, Vec<u32>>,
    keys: &mut Vec<u32>,
    next: &mut Vec<u32>,
    Ghost(found): Ghost<Set<(u32, u32)>>,
)
    requires
        scanned(found, seen@.dom(), old(fresh)@, old(keys)@, old(next)@),
    ensures
        scanned(
            found.union(edges_from(graph_of(adj@), cur)),
            seen@.dom(),
            final(fresh)@,
            final(keys)@,
            final(next)@,
        ),
{
    let ghost g = graph_of(adj@);
    match adj.get(&cur) {
        Some(list) => {
            let ghost mut seen_edges = found;
            let mut j: usize = 0;
            while j < list.len()
                invariant
                    j <= list.len(),
                    adj@.contains_key(cur),
                    adj@[cur] == *list,
                    g == graph_of(adj@),
                    scanned(seen_edges, seen@.dom(), fresh@, keys@, next@),
                    forall|e: (u32, u32)|
                        seen_edges.contains(e) <==> found.contains(e) || (e.0 == cur && exists|
                            i: int,
                        |
                            0 <= i < j && list@[i] == e.1),
                decreases list.len() - j,
            {
                let n: u32 = list[j];
                let ghost before = seen_edges;
                let ghost old_fresh = fresh@;
                let ghost old_next = next@;
                proof {
                    seen_edges = before.insert((cur, n));
                }
                if !seen.contains_key(&n) {
                    next.push(n);
                    record(fresh, keys, n, cur);
                    proof {
                        assert(fresh@[n]@.contains(cur));
                        assert forall|m: u32| #[trigger] next@.contains(m) <==> fresh@.contains_key(
                            m,
                        ) by {
                            lemma_push_contains(old_next, n, m);
                        }
                        assert forall|m: u32, u: u32| fresh@.contains_key(m) implies (
                        #[trigger] fresh@[m]@.contains(u) <==> seen_edges.contains((u, m))) by {
                            if m != n {
                                assert(old_fresh.contains_key(m));
                            } else if !old_fresh.contains_key(n) {
                                if before.contains((u, n)) {
                                    assert(old_fresh.contains_key(n));
                                }
                            }
                        }
                    }
                } else {
                    proof {
                        assert forall|m: u32, u: u32| fresh@.contains_key(m) implies (
                        #[trigger] fresh@[m]@.contains(u) <==> seen_edges.contains((u, m))) by {
                            assert(m != n);
                        }
                    }
                }
                j = j + 1;
                proof {
                    assert forall|e: (u32, u32)|
                        seen_edges.contains(e) <==> found.contains(e) || (e.0 == cur && exists|
                            i: int,
                        |
                            0 <= i < j && list@[i] == e.1) by {
                        if e == (cur, n) {
                            assert(list@[j - 1] == e.1);
                        }
                    }
                }
            }
            proof {
                assert forall|e: (u32, u32)|
                    seen_edges.contains(e) <==> found.union(edges_from(g, cur)).contains(e) by {
                    if e.0 == cur && g.contains(e) {
                        let i = choose|i: int| 0 <= i < list@.len() && list@[i] == e.1;
                        assert(0 <= i < j && list@[i] == e.1);
                    }
                }
                assert(seen_edges =~= found.union(edges_from(g, cur)));
            }
        },
        None => {
            assert(found.union(edges_from(g, cur)) =~= found);
        },
    }
}

/// The origin has no predecessor: no page is nearer to it than itself.
pub proof fn lemma_origin_has_no_predecessor(g: Set<(u32, u32)>, origin: u32, u: u32)
    ensures
        !nearer(g, origin, u, origin),
{
    assert forall|k: nat| #[trigger] ball(g, origin, k).contains(origin) by {
        lemma_ball_grows(g, origin, 0, k);
    }
}

/// A neighbour `u` of a page `v` that is `k + 1` steps out is nearer than `v`
/// exactly when it is `k` steps out.
pub proof fn lemma_nearer_is_previous_level(
    g: Set<(u32, u32)>,
    origin: u32,
    u: u32,
    v: u32,
    k: nat,
)
    requires
        at_distance(g, origin, v, k + 1),
        g.contains((u, v)),
    ensures
        nearer(g, origin, u, v) <==> at_distance(g, origin, u, k),
{
    if nearer(g, origin, u, v) {
        let j = choose|j: nat|
            (#[trigger] ball(g, origin, j)).contains(u) && !ball(g, origin, j).contains(v);
        if j > k {
            lemma_ball_grows(g, origin, k + 1, j);
        }
        lemma_ball_grows(g, origin, j, k);
        if k > 0 && ball(g, origin, (k - 1) as nat).contains(u) {
            lemma_ball_step(g, origin, u, v, (k - 1) as nat);
        }
    }
    if at_distance(g, origin, u, k) {
        assert(ball(g, origin, k).contains(u) && !ball(g, origin, k).contains(v));
    }
}

/// Some edge of `found` leads to `n`.
pub open spec fn reached(found: Set<(u32, u32)>, n: u32) -> bool {
    exists|u: u32| found.contains((u, n))
}

/// What one level does to one side of the search, `adj` holding the links of
/// the pages of `queue`: `after` holds what `before` holds and, with the pages
/// of `queue` that link to it, each page that `before` does not hold and that
/// a page of `queue` links to; `next` holds those new pages.
pub open spec fn level_of(
    adj: Map<u32, Vec<u32>>,
    queue: Seq<u32>,
    before: Map<u32, Vec<u32>>,
    after: Map<u32, Vec<u32>>,
    next: Seq<u32>,
) -> bool {
    let found = edges_from_all(graph_of(adj), queue);
    &&& forall|v: u32| #[trigger]
        before.contains_key(v) ==> after.contains_key(v) && after[v] == before[v]
    &&& forall|n: u32| #[trigger]
        after.contains_key(n) <==> before.contains_key(n) || reached(found, n)
    &&& forall|n: u32| #[trigger]
        after.contains_key(n) && !before.contains_key(n) ==> after[n]@.no_duplicates()
    &&& forall|n: u32, u: u32|
        after.contains_key(n) && !before.contains_key(n) ==> (#[trigger] after[n]@.contains(u)
            <==> found.contains((u, n)))
    &&& forall|n: u32| #[trigger]
        next.contains(n) <==> after.contains_key(n) && !before.contains_key(n)
}

/// The pages of `met` are, each once, the pages that the level has added and
/// that the other side holds.
pub open spec fn met_of(
    before: Map<u32, Vec<u32>>,
    after: Map<u32, Vec<u32>>,
    other: Map<u32, Vec<u32>>,
    met: Seq<u32>,
) -> bool {
    &&& met.no_duplicates()
    &&& forall|v: u32| #[trigger]
        met.contains(v) <==> after.contains_key(v) && !before.contains_key(v)
            && other.contains_key(v)
}

/// `adj` holds the links of the pages of `queue` as the graph `g` has them.
pub open spec fn agrees(adj: Map<u32, Vec<u32>>, queue: Seq<u32>, g: Set<(u32, u32)>) -> bool {
    forall|u: u32, n: u32|
        queue.contains(u) ==> (#[trigger] g.contains((u, n)) <==> graph_of(adj).contains((u, n)))
}

/// A level takes a side of the search of `g` from `depth` to `depth + 1`:
/// the pages that it adds are the pages `depth + 1` steps from the origin,
/// each with its predecessors.
pub proof fn lemma_level(
    g: Set<(u32, u32)>,
    origin: u32,
    depth: nat,
    adj: Map<u32, Vec<u32>>,
    queue: Seq<u32>,
    before: Map<u32, Vec<u32>>,
    after: Map<u32, Vec<u32>>,
    next: Seq<u32>,
)
    requires
        frontier(g, origin, depth, before, queue),
        agrees(adj, queue, g),
        level_of(adj, queue, before, after, next),
    ensures
        frontier(g, origin, depth + 1, after, next),
        forall|v: u32|
            after.contains_key(v) && !before.contains_key(v) <==> #[trigger] at_distance(
                g,
                origin,
                v,
                depth + 1,
            ),
{
    let found = edges_from_all(graph_of(adj), queue);
    let all = edges_from_all(g, queue);
    assert(found =~= all) by {
        assert forall|e: (u32, u32)| found.contains(e) <==> all.contains(e) by {
            if queue.contains(e.0) {
                assert(g.contains((e.0, e.1)) <==> graph_of(adj).contains((e.0, e.1)));
            }
        }
    }
    lemma_ball_grows(g, origin, depth, depth + 1);
    assert forall|n: u32|
        after.contains_key(n) && !before.contains_key(n) <==> #[trigger] at_distance(
            g,
            origin,
            n,
            depth + 1,
        ) by {
        if after.contains_key(n) && !before.contains_key(n) {
            assert(reached(found, n));
            let u = choose|u: u32| found.contains((u, n));
            assert(queue.contains(u));
            lemma_ball_step(g, origin, u, n, depth);
        }
        if at_distance(g, origin, n, depth + 1) {
            let u = lemma_ball_parent(g, origin, n, depth);
            assert(queue.contains(u));
            assert(all.contains((u, n)));
            assert(reached(found, n));
        }
    }
    assert forall|x: u32| after.contains_key(x) <==> ball(g, origin, depth + 1).contains(x) by {
        if ball(g, origin, depth + 1).contains(x) && !before.contains_key(x) {
            assert(at_distance(g, origin, x, depth + 1));
        }
    }
    assert(after.dom() =~= ball(g, origin, depth + 1));
    assert forall|v: u32| #[trigger] after.contains_key(v) implies predecessors_exact(
        g,
        origin,
        v,
        after[v]@,
    ) by {
        if !before.contains_key(v) {
            assert(at_distance(g, origin, v, depth + 1));
            assert forall|u: u32| #[trigger]
                after[v]@.contains(u) <==> g.contains((u, v)) && nearer(g, origin, u, v) by {
                if g.contains((u, v)) {
                    lemma_nearer_is_previous_level(g, origin, u, v, depth);
                }
                assert(after[v]@.contains(u) <==> found.contains((u, v)));
                assert(queue.contains(u) <==> at_distance(g, origin, u, depth));
            }
        }
    }
    assert forall|v: u32| #[trigger] next.contains(v) <==> at_distance(g, origin, v, depth + 1) by {
    }
}

/// Advances one side of the search by one level: reads the links of every
/// page of `queue`, adds the pages found for the first time to `seen` with
/// the pages of `queue` that link to them, and returns them, as often as they
/// were reached, with those among them that `other` holds too.
pub fn expand(
    adj: &HashMap<u32, Vec<u32>>,
    queue: &Vec<u32>,
    seen: &mut HashMap<u32, Vec<u32>>,
    other: &HashMap<u32, Vec<u32>>,
) -> (out: (Vec<u32>, Vec<u32>))
    ensures
        level_of(adj@, queue@, old(seen)@, final(seen)@, out.0@),
        met_of(old(seen)@, final(seen)@, other@, out.1@),
{
    let ghost g = graph_of(adj@);
    let ghost inside = seen@.dom();
    let mut next: Vec<u32> = Vec::new();
    let mut keys: Vec<u32> = Vec::new();
    let mut fresh: HashMap<u32, Vec<u32>> = HashMap::new();
    let mut i: usize = 0;
    while i < queue.len()
        invariant
            i <= queue.len(),
            g == graph_of(adj@),
            inside == seen@.dom(),
            seen@ == old(seen)@,
            scanned(edges_from_all(g, queue@.take(i as int)), inside, fresh@, keys@, next@),
        decreases queue.len() - i,
    {
        let cur: u32 = queue[i];
        let ghost found = edges_from_all(g, queue@.take(i as int));
        scan_page(adj, seen, cur, &mut fresh, &mut keys, &mut next, Ghost(found));
        proof {
            assert(queue@.take(i + 1) == queue@.take(i as int).push(cur));
            assert forall|e: (u32, u32)|
                found.union(edges_from(g, cur)).contains(e) <==> edges_from_all(
                    g,
                    queue@.take(i + 1),
                ).contains(e) by {
                lemma_push_contains(queue@.take(i as int), cur, e.0);
            }
            assert(found.union(edges_from(g, cur)) =~= edges_from_all(g, queue@.take(i + 1)));
        }
        i = i + 1;
    }
    let ghost all = edges_from_all(g, queue@);
    let ghost found_map = fresh@;
    proof {
        assert(queue@.take(queue@.len() as int) == queue@);
        assert forall|j: int| 0 <= j < keys@.len() implies fresh@.contains_key(
            #[trigger] keys@[j],
        ) by {
            assert(keys@.contains(keys@[j]));
        }
    }
    let mut meeting: Vec<u32> = Vec::new();
    let mut k: usize = 0;
    while k < keys.len()
        invariant
            k <= keys.len(),
            keys@.no_duplicates(),
            forall|j: int| k <= j < keys@.len() ==> fresh@.contains_key(#[trigger] keys@[j]),
            forall|j: int|
                k <= j < keys@.len() ==> fresh@[#[trigger] keys@[j]] == found_map[keys@[j]],
            forall|n: u32| #[trigger] keys@.contains(n) <==> found_map.contains_key(n),
            forall|n: u32| #[trigger] found_map.contains_key(n) ==> !inside.contains(n),
            forall|x: u32| #[trigger]
                seen@.contains_key(x) <==> inside.contains(x) || exists|j: int|
                    0 <= j < k && keys@[j] == x,
            forall|x: u32| #[trigger] inside.contains(x) ==> seen@[x] == old(seen)@[x],
            forall|j: int| 0 <= j < k ==> seen@[#[trigger] keys@[j]] == found_map[keys@[j]],
            inside == old(seen)@.dom(),
            meeting@.no_duplicates(),
            forall|x: u32| #[trigger]
                meeting@.contains(x) <==> other@.contains_key(x) && exists|j: int|
                    0 <= j < k && keys@[j] == x,
        decreases keys.len() - k,
    {
        let n: u32 = keys[k];
        let ghost old_meeting = meeting@;
        let ghost old_seen = seen@;
        assert(fresh@.contains_key(keys@[k as int]));
        let list = match fresh.remove(&n) {
            Some(list) => list,
            None => Vec::new(),
        };
        assert(list == found_map[n]);
        assert(keys@.contains(n));
        seen.insert(n, list);
        if other.contains_key(&n) {
            meeting.push(n);
        }
        proof {
            assert forall|j: int| k + 1 <= j < keys@.len() implies fresh@.contains_key(
                #[trigger] keys@[j],
            ) && fresh@[keys@[j]] == found_map[keys@[j]] by {
                assert(keys@[j] != keys@[k as int]);
            }
            assert forall|x: u32| #[trigger]
                seen@.contains_key(x) <==> inside.contains(x) || exists|j: int|
                    0 <= j < k + 1 && keys@[j] == x by {
                if x == n {
                    assert(keys@[k as int] == x);
                }
                if old_seen.contains_key(x) && !inside.contains(x) {
                    let j = choose|j: int| 0 <= j < k && keys@[j] == x;
                    assert(0 <= j < k + 1 && keys@[j] == x);
                }
            }
            assert forall|j: int| 0 <= j < k + 1 implies seen@[#[trigger] keys@[j]]
                == found_map[keys@[j]] by {
                if j < k {
                    assert(keys@[j] != keys@[k as int]);
                }
            }
            assert forall|x: u32| #[trigger]
                meeting@.contains(x) <==> other@.contains_key(x) && exists|j: int|
                    0 <= j < k + 1 && keys@[j] == x by {
                if other@.contains_key(n) {
                    lemma_push_contains(old_meeting, n, x);
                }
                if x == n {
                    assert(keys@[k as int] == x);
                }
                if old_meeting.contains(x) {
                    let j = choose|j: int| 0 <= j < k && keys@[j] == x;
                    assert(0 <= j < k + 1 && keys@[j] == x);
                }
            }
            if other@.contains_key(n) {
                if old_meeting.contains(n) {
                    let j = choose|j: int| 0 <= j < k && keys@[j] == n;
                    assert(keys@[j] == keys@[k as int]);
                }
                assert(meeting@.no_duplicates());
            }
        }
        k = k + 1;
    }
    proof {
        assert forall|x: u32| #[trigger] keys@.contains(x) <==> exists|j: int|
            0 <= j < keys@.len() && keys@[j] == x by {}
        assert forall|x: u32| #[trigger] keys@.contains(x) implies seen@[x] == found_map[x] by {
            let j = choose|j: int| 0 <= j < keys@.len() && keys@[j] == x;
            assert(seen@[keys@[j]] == found_map[keys@[j]]);
        }
        assert forall|n: u32| #[trigger]
            seen@.contains_key(n) <==> old(seen)@.contains_key(n) || reached(all, n) by {
            if reached(all, n) && !inside.contains(n) {
                let u = choose|u: u32| all.contains((u, n));
                assert(found_map.contains_key(n));
                assert(keys@.contains(n));
            }
            if seen@.contains_key(n) && !inside.contains(n) {
                assert(keys@.contains(n));
                assert(found_map.contains_key(n));
                let u = found_map[n]@[0];
                assert(found_map[n]@.contains(u));
                assert(all.contains((u, n)));
            }
        }
        assert forall|n: u32, u: u32|
            seen@.contains_key(n) && !old(seen)@.contains_key(n) implies (
        #[trigger] seen@[n]@.contains(u) <==> all.contains((u, n))) by {
            assert(keys@.contains(n));
            assert(found_map.contains_key(n));
        }
        assert forall|n: u32| #[trigger]
            seen@.contains_key(n) && !old(seen)@.contains_key(n) implies seen@[n]@.no_duplicates() by {
            assert(keys@.contains(n));
            assert(found_map.contains_key(n));
        }
        assert forall|n: u32| #[trigger]
            next@.contains(n) <==> seen@.contains_key(n) && !old(seen)@.contains_key(n) by {
            if seen@.contains_key(n) && !old(seen)@.contains_key(n) {
                assert(keys@.contains(n));
            }
            if next@.contains(n) {
                assert(found_map.contains_key(n));
                assert(keys@.contains(n));
            }
        }
        assert forall|v: u32| #[trigger]
            meeting@.contains(v) <==> seen@.contains_key(v) && !old(seen)@.contains_key(v)
                && other@.contains_key(v) by {
            assert(keys@.contains(v) <==> found_map.contains_key(v));
            if seen@.contains_key(v) && !old(seen)@.contains_key(v) {
                assert(keys@.contains(v));
            }
        }
    }
    (next, meeting)
}

} // verus!
