//! The walk back from a page where the two sides of the search met: it counts
//! the walks from the page to an end along a table of predecessors, and
//! collects the links of their steps.

use crate::graph::{
    at_distance, ball, lemma_ball_grows, lemma_ball_parent, lemma_ball_step, lemma_distance_unique,
    lemma_meeting_reaches, lemma_reversed_twice, nearer, on_shortest_walk, reversed,
};
use crate::frontier::{
    lemma_nearer_is_previous_level, lemma_origin_has_no_predecessor, predecessors_exact,
};
use std::collections::{HashMap, HashSet};
use vstd::prelude::*;
use vstd::std_specs::hash::*;

verus! {

broadcast use vstd::std_specs::hash::group_hash_axioms;

/// A count as the result reports it: what does not fit is reported as the
/// largest value.
pub open spec fn saturate(n: nat) -> u32 {
    if n > u32::MAX {
        u32::MAX
    } else {
        n as u32
    }
}

/// The number of ways to walk back from `v` through `depth` predecessors.
pub open spec fn chains(table: Map<u32, Vec<u32>>, v: u32, depth: nat) -> nat
    decreases depth, 0nat,
{
    if depth == 0 {
        1
    } else if !table.contains_key(v) {
        0
    } else {
        chains_sum(table, table[v]@, (depth - 1) as nat)
    }
}

/// The sum of `chains` over the pages of `list`.
pub open spec fn chains_sum(table: Map<u32, Vec<u32>>, list: Seq<u32>, depth: nat) -> nat
    decreases depth, 1 + list.len(),
{
    if list.len() == 0 {
        0
    } else {
        chains_sum(table, list.drop_last(), depth) + chains(table, list.last(), depth)
    }
}

/// The links collected so far hold the edge `(u, v)`.
pub open spec fn has_link(links: Map<u32, HashSet<u32>>, u: u32, v: u32) -> bool {
    links.contains_key(u) && links[u]@.contains(v)
}

/// A search that has found its answer: the graph, the two ends, and the
/// number of edges of a shortest walk between them.
pub struct Quest {
    pub g: Set<(u32, u32)>,
    pub source: u32,
    pub target: u32,
    pub length: nat,
}

impl Quest {
    /// The graph as one side of the search walks it.
    pub open spec fn side_graph(self, forward: bool) -> Set<(u32, u32)> {
        if forward {
            self.g
        } else {
            reversed(self.g)
        }
    }

    /// The end that a side starts from.
    pub open spec fn origin(self, forward: bool) -> u32 {
        if forward {
            self.source
        } else {
            self.target
        }
    }

    /// The end that a side heads for.
    pub open spec fn far(self, forward: bool) -> u32 {
        if forward {
            self.target
        } else {
            self.source
        }
    }

    /// `length` is the distance from the source to the target.
    pub open spec fn wf(self) -> bool {
        at_distance(self.g, self.source, self.target, self.length)
    }

    /// `v` lies on a shortest walk between the ends, `depth` steps from the
    /// end that the side starts from.
    pub open spec fn on_route(self, forward: bool, v: u32, depth: nat) -> bool {
        &&& depth <= self.length
        &&& at_distance(self.side_graph(forward), self.origin(forward), v, depth)
        &&& at_distance(
            reversed(self.side_graph(forward)),
            self.far(forward),
            v,
            (self.length - depth) as nat,
        )
    }

    /// `table` holds each page within `radius` steps of a side's origin, with
    /// its predecessors.
    pub open spec fn table_exact(self, forward: bool, table: Map<u32, Vec<u32>>, radius: nat) -> bool {
        &&& table.dom() =~= ball(self.side_graph(forward), self.origin(forward), radius)
        &&& forall|v: u32| #[trigger]
            table.contains_key(v) ==> predecessors_exact(
                self.side_graph(forward),
                self.origin(forward),
                v,
                table[v]@,
            )
    }

}

/// The distance between the ends is the same seen from either end.
pub proof fn lemma_distance_symmetric(g: Set<(u32, u32)>, s: u32, t: u32, k: nat)
    requires
        at_distance(g, s, t, k),
    ensures
        at_distance(reversed(g), t, s, k),
{
    let v = crate::graph::lemma_reach_meets(g, s, t, 0, k);
    if k > 0 && ball(reversed(g), t, (k - 1) as nat).contains(s) {
        lemma_meeting_reaches(g, s, t, s, 0, (k - 1) as nat);
    }
}

/// A predecessor of a page on a shortest walk lies on a shortest walk, one
/// step nearer to the origin.
pub proof fn lemma_route_predecessor(q: Quest, forward: bool, v: u32, p: u32, depth: nat)
    requires
        q.wf(),
        depth > 0,
        q.on_route(forward, v, depth),
        q.side_graph(forward).contains((p, v)),
        nearer(q.side_graph(forward), q.origin(forward), p, v),
    ensures
        q.on_route(forward, p, (depth - 1) as nat),
        on_shortest_walk(
            q.g,
            q.source,
            q.target,
            q.length,
            link_of(forward, v, p).0,
            link_of(forward, v, p).1,
        ),
{
    let sg = q.side_graph(forward);
    let rg = reversed(sg);
    let o = q.origin(forward);
    let f = q.far(forward);
    let rest = (q.length - depth) as nat;
    lemma_reversed_twice(q.g);
    lemma_distance_symmetric(q.g, q.source, q.target, q.length);
    assert(at_distance(sg, o, f, q.length));
    lemma_nearer_is_previous_level(sg, o, p, v, (depth - 1) as nat);
    assert(at_distance(sg, o, p, (depth - 1) as nat));
    assert(rg.contains((v, p)));
    lemma_ball_step(rg, f, v, p, rest);
    if ball(rg, f, rest).contains(p) {
        lemma_meeting_reaches(sg, o, f, p, (depth - 1) as nat, rest);
    }
    assert(at_distance(rg, f, p, rest + 1));
    if forward {
        assert(at_distance(q.g, q.source, p, (depth - 1) as nat));
        assert(at_distance(reversed(q.g), q.target, v, (q.length - 1 - (depth - 1)) as nat));
    } else {
        assert(at_distance(q.g, q.source, v, rest));
        assert(at_distance(reversed(q.g), q.target, p, (q.length - 1 - rest) as nat));
    }
}

/// Adding saturated counts and saturating gives the saturated sum.
pub proof fn lemma_saturate_add(a: nat, b: nat)
    ensures
        saturate(a + b) == (if saturate(a) + saturate(b) > u32::MAX {
            u32::MAX
        } else {
            (saturate(a) + saturate(b)) as u32
        }),
{
}

/// Multiplying saturated counts and saturating gives the saturated product.
pub proof fn lemma_saturate_mul(a: nat, b: nat)
    ensures
        saturate(a * b) == (if saturate(a) * saturate(b) > u32::MAX {
            u32::MAX
        } else {
            (saturate(a) * saturate(b)) as u32
        }),
{
    let sa = saturate(a) as nat;
    let sb = saturate(b) as nat;
    if a > u32::MAX {
        if b == 0 {
            assert(a * b == 0) by (nonlinear_arith)
                requires
                    b == 0,
            ;
            assert(sa * sb == 0) by (nonlinear_arith)
                requires
                    sb == 0,
            ;
        } else {
            assert(a * b > u32::MAX) by (nonlinear_arith)
                requires
                    a > u32::MAX,
                    b >= 1,
            ;
            assert(sa * sb >= u32::MAX) by (nonlinear_arith)
                requires
                    sa == u32::MAX,
                    sb >= 1,
            ;
            if sa * sb == u32::MAX {
            }
        }
    } else if b > u32::MAX {
        if a == 0 {
            assert(a * b == 0) by (nonlinear_arith)
                requires
                    a == 0,
            ;
            assert(sa * sb == 0) by (nonlinear_arith)
                requires
                    sa == 0,
            ;
        } else {
            assert(a * b > u32::MAX) by (nonlinear_arith)
                requires
                    b > u32::MAX,
                    a >= 1,
            ;
            assert(sa * sb >= u32::MAX) by (nonlinear_arith)
                requires
                    sb == u32::MAX,
                    sa >= 1,
            ;
        }
    }
}

/// Every page that is a key of the links has a link.
pub open spec fn links_tidy(links: Map<u32, HashSet<u32>>) -> bool {
    forall|u: u32| #[trigger] links.contains_key(u) ==> exists|v: u32| has_link(links, u, v)
}

/// Adds the edge from `from` to `to` to the links.
pub fn add_link(links: &mut HashMap<u32, HashSet<u32>>, from: u32, to: u32)
    ensures
        forall|a: u32, b: u32| #[trigger]
            has_link(final(links)@, a, b) <==> has_link(old(links)@, a, b) || (a == from && b
                == to),
        final(links)@.dom() =~= old(links)@.dom().insert(from),
        links_tidy(old(links)@) ==> links_tidy(final(links)@),
{
    let mut targets = match links.remove(&from) {
        Some(targets) => targets,
        None => HashSet::new(),
    };
    targets.insert(to);
    links.insert(from, targets);
    proof {
        if links_tidy(old(links)@) {
            assert forall|u: u32| #[trigger] links@.contains_key(u) implies exists|v: u32|
                has_link(links@, u, v) by {
                if u == from {
                    assert(has_link(links@, from, to));
                } else {
                    assert(old(links)@.contains_key(u));
                    let v = choose|v: u32| has_link(old(links)@, u, v);
                    assert(has_link(links@, u, v));
                }
            }
        }
    }
}

/// The link that a step from `page` to `next` stands for. A table of
/// predecessors is walked against the links: there the link leads from `next`
/// to `page`, and `against` says so.
pub open spec fn link_of(against: bool, page: u32, next: u32) -> (u32, u32) {
    if against {
        (next, page)
    } else {
        (page, next)
    }
}

/// Every walk from `page` along the lists of `table` arrives at `stop` within
/// `n` steps: a page other than `stop` has a list, and the same holds of each
/// page of its list with one step less.
pub open spec fn ends_at(table: Map<u32, Vec<u32>>, page: u32, stop: u32, n: nat) -> bool
    decreases n,
{
    page == stop || (n > 0 && table.contains_key(page) && forall|i: int|
        0 <= i < table[page]@.len() ==> ends_at(
            table,
            #[trigger] table[page]@[i],
            stop,
            (n - 1) as nat,
        ))
}

/// The number of walks from `page` to `stop` along the lists of `table` that
/// have at most `n` steps and do not pass `stop` before their end.
pub open spec fn ways(table: Map<u32, Vec<u32>>, page: u32, stop: u32, n: nat) -> nat
    decreases n, 0nat,
{
    if page == stop {
        1
    } else if n == 0 || !table.contains_key(page) {
        0
    } else {
        ways_sum(table, table[page]@, stop, (n - 1) as nat)
    }
}

/// The sum of `ways` over the pages of `list`.
pub open spec fn ways_sum(table: Map<u32, Vec<u32>>, list: Seq<u32>, stop: u32, n: nat) -> nat
    decreases n, 1 + list.len(),
{
    if list.len() == 0 {
        0
    } else {
        ways_sum(table, list.drop_last(), stop, n) + ways(table, list.last(), stop, n)
    }
}

/// The step from `u` to `v` is a step of a walk from `page` along the lists
/// of `table` that has not passed `stop`, among its first `n` steps.
pub open spec fn walked(
    table: Map<u32, Vec<u32>>,
    page: u32,
    stop: u32,
    n: nat,
    u: u32,
    v: u32,
) -> bool
    decreases n,
{
    n > 0 && page != stop && table.contains_key(page) && ((u == page && table[page]@.contains(v))
        || exists|i: int|
        0 <= i < table[page]@.len() && walked(
            table,
            #[trigger] table[page]@[i],
            stop,
            (n - 1) as nat,
            u,
            v,
        ))
}

/// `memory` holds of each of its pages the number of walks from it to `stop`,
/// as far as it fits, where all walks from the page arrive at `stop`.
pub open spec fn counts_ok(table: Map<u32, Vec<u32>>, stop: u32, memory: Map<u32, u32>) -> bool {
    forall|k: u32, d: nat|
        memory.contains_key(k) && #[trigger] ends_at(table, k, stop, d) ==> memory[k] == saturate(
            ways(table, k, stop, d),
        )
}

/// `memory` holds each page of the list of `u`, and `links` the link of the
/// step to it.
pub open spec fn covered(
    table: Map<u32, Vec<u32>>,
    memory: Map<u32, u32>,
    links: Map<u32, HashSet<u32>>,
    against: bool,
    u: u32,
) -> bool {
    table.contains_key(u) ==> forall|p: u32| #[trigger]
        table[u]@.contains(p) ==> memory.contains_key(p) && has_link(
            links,
            link_of(against, u, p).0,
            link_of(against, u, p).1,
        )
}

/// Every page that `memory` holds, but for `stop`, has been walked from:
/// `memory` holds the pages of its list, and `links` the links to them.
pub open spec fn closed(
    table: Map<u32, Vec<u32>>,
    stop: u32,
    memory: Map<u32, u32>,
    links: Map<u32, HashSet<u32>>,
    against: bool,
) -> bool {
    forall|u: u32| #[trigger]
        memory.contains_key(u) && u != stop ==> covered(table, memory, links, against, u)
}

/// The sum over a list with one more page.
pub proof fn lemma_ways_sum_push(
    table: Map<u32, Vec<u32>>,
    list: Seq<u32>,
    x: u32,
    stop: u32,
    n: nat,
)
    ensures
        ways_sum(table, list.push(x), stop, n) == ways_sum(table, list, stop, n) + ways(
            table,
            x,
            stop,
            n,
        ),
{
    assert(list.push(x).drop_last() =~= list);
    assert(list.push(x).last() == x);
}

/// Where all walks from a page arrive at `stop` within `n` steps and within
/// `m` steps, they are the same walks: their number does not depend on the
/// bound.
pub proof fn lemma_ways_stable(table: Map<u32, Vec<u32>>, page: u32, stop: u32, n: nat, m: nat)
    requires
        ends_at(table, page, stop, n),
        ends_at(table, page, stop, m),
    ensures
        ways(table, page, stop, n) == ways(table, page, stop, m),
    decreases n, 0nat,
{
    if page != stop {
        lemma_ways_sum_stable(table, table[page]@, stop, (n - 1) as nat, (m - 1) as nat);
    }
}

/// The same of the sum over a list.
proof fn lemma_ways_sum_stable(
    table: Map<u32, Vec<u32>>,
    list: Seq<u32>,
    stop: u32,
    n: nat,
    m: nat,
)
    requires
        forall|i: int|
            0 <= i < list.len() ==> ends_at(table, #[trigger] list[i], stop, n) && ends_at(
                table,
                list[i],
                stop,
                m,
            ),
    ensures
        ways_sum(table, list, stop, n) == ways_sum(table, list, stop, m),
    decreases n, 1 + list.len(),
{
    if list.len() > 0 {
        let shorter = list.drop_last();
        assert forall|i: int| 0 <= i < shorter.len() implies ends_at(
            table,
            #[trigger] shorter[i],
            stop,
            n,
        ) && ends_at(table, shorter[i], stop, m) by {
            assert(shorter[i] == list[i]);
        }
        lemma_ways_sum_stable(table, shorter, stop, n, m);
        assert(list.last() == list[list.len() - 1]);
        lemma_ways_stable(table, list.last(), stop, n, m);
    }
}

/// What was covered stays covered when counts and links are added.
pub proof fn lemma_covered_keeps(
    table: Map<u32, Vec<u32>>,
    memory: Map<u32, u32>,
    memory_after: Map<u32, u32>,
    links: Map<u32, HashSet<u32>>,
    links_after: Map<u32, HashSet<u32>>,
    against: bool,
    u: u32,
)
    requires
        covered(table, memory, links, against, u),
        forall|x: u32| #[trigger] memory.contains_key(x) ==> memory_after.contains_key(x),
        forall|a: u32, b: u32| #[trigger] has_link(links, a, b) ==> has_link(links_after, a, b),
    ensures
        covered(table, memory_after, links_after, against, u),
{
}

/// Links that are added leave what was walked from walked from.
pub proof fn lemma_closed_keeps(
    table: Map<u32, Vec<u32>>,
    stop: u32,
    memory: Map<u32, u32>,
    links: Map<u32, HashSet<u32>>,
    links_after: Map<u32, HashSet<u32>>,
    against: bool,
)
    requires
        closed(table, stop, memory, links, against),
        forall|a: u32, b: u32| #[trigger] has_link(links, a, b) ==> has_link(links_after, a, b),
    ensures
        closed(table, stop, memory, links_after, against),
{
    assert forall|u: u32| #[trigger] memory.contains_key(u) && u != stop implies covered(
        table,
        memory,
        links_after,
        against,
        u,
    ) by {
        lemma_covered_keeps(table, memory, memory, links, links_after, against, u);
    }
}

/// Walks that arrive within `n` steps arrive within more.
pub proof fn lemma_ends_later(table: Map<u32, Vec<u32>>, page: u32, stop: u32, n: nat, m: nat)
    requires
        ends_at(table, page, stop, n),
        n <= m,
    ensures
        ends_at(table, page, stop, m),
    decreases n,
{
    if page != stop {
        assert forall|i: int| 0 <= i < table[page]@.len() implies ends_at(
            table,
            #[trigger] table[page]@[i],
            stop,
            (m - 1) as nat,
        ) by {
            lemma_ends_later(table, table[page]@[i], stop, (n - 1) as nat, (m - 1) as nat);
        }
    }
}

/// The number of walks from `page` to `stop` along the lists of `edges`, as
/// far as it fits, where all of them arrive at `stop`, within a number of
/// steps that a `u32` holds. Puts the link of every step taken into `links`,
/// and keeps in `memory` the count of each page walked to, so that no page is
/// walked from twice: a page that `memory` holds is not walked from again.
pub fn count_paths(
    page: u32,
    stop: u32,
    edges: &HashMap<u32, Vec<u32>>,
    memory: &mut HashMap<u32, u32>,
    links: &mut HashMap<u32, HashSet<u32>>,
    against: bool,
) -> (count: u32)
    requires
        exists|n: nat| n <= u32::MAX && ends_at(edges@, page, stop, n),
        counts_ok(edges@, stop, old(memory)@),
    ensures
        forall|n: nat| #[trigger]
            ends_at(edges@, page, stop, n) ==> count == saturate(ways(edges@, page, stop, n)),
        counts_ok(edges@, stop, final(memory)@),
        forall|k: u32| #[trigger]
            old(memory)@.contains_key(k) ==> final(memory)@.contains_key(k) && final(memory)@[k]
                == old(memory)@[k],
        forall|k: u32| #[trigger]
            final(memory)@.contains_key(k) ==> old(memory)@.contains_key(k) || exists|
                u: u32,
                n: nat,
            | walked(edges@, page, stop, n, u, k),
        forall|a: u32, b: u32| #[trigger]
            has_link(old(links)@, a, b) ==> has_link(final(links)@, a, b),
        forall|a: u32, b: u32| #[trigger]
            has_link(final(links)@, a, b) ==> has_link(old(links)@, a, b) || exists|n: nat|
                walked(
                    edges@,
                    page,
                    stop,
                    n,
                    link_of(against, a, b).0,
                    link_of(against, a, b).1,
                ),
        page != stop ==> covered(edges@, final(memory)@, final(links)@, against, page),
        closed(edges@, stop, old(memory)@, old(links)@, against) ==> closed(
            edges@,
            stop,
            final(memory)@,
            final(links)@,
            against,
        ),
        links_tidy(old(links)@) ==> links_tidy(final(links)@),
{
    let ghost n = choose|n: nat| n <= u32::MAX && ends_at(edges@, page, stop, n);
    proof {
        lemma_ends_later(edges@, page, stop, n, u32::MAX as nat);
    }
    let count = count_steps(page, stop, edges, memory, links, against, u32::MAX);
    proof {
        assert forall|m: nat| #[trigger] ends_at(edges@, page, stop, m) implies count == saturate(
            ways(edges@, page, stop, m),
        ) by {
            lemma_ways_stable(edges@, page, stop, u32::MAX as nat, m);
        }
    }
    count
}

/// The same for walks of at most `steps` steps, whatever the table holds: a
/// walk is not followed further than that. Where all walks arrive within
/// `steps` steps, the count is their number.
pub fn count_steps(
    page: u32,
    stop: u32,
    edges: &HashMap<u32, Vec<u32>>,
    memory: &mut HashMap<u32, u32>,
    links: &mut HashMap<u32, HashSet<u32>>,
    against: bool,
    steps: u32,
) -> (count: u32)
    ensures
        ends_at(edges@, page, stop, steps as nat) && counts_ok(edges@, stop, old(memory)@) ==> {
            &&& count == saturate(ways(edges@, page, stop, steps as nat))
            &&& counts_ok(edges@, stop, final(memory)@)
            &&& page != stop ==> covered(edges@, final(memory)@, final(links)@, against, page)
            &&& closed(edges@, stop, old(memory)@, old(links)@, against) ==> closed(
                edges@,
                stop,
                final(memory)@,
                final(links)@,
                against,
            )
        },
        forall|k: u32| #[trigger]
            old(memory)@.contains_key(k) ==> final(memory)@.contains_key(k) && final(memory)@[k]
                == old(memory)@[k],
        forall|k: u32| #[trigger]
            final(memory)@.contains_key(k) ==> old(memory)@.contains_key(k) || exists|u: u32|
                walked(edges@, page, stop, steps as nat, u, k),
        forall|a: u32, b: u32| #[trigger]
            has_link(old(links)@, a, b) ==> has_link(final(links)@, a, b),
        forall|a: u32, b: u32| #[trigger]
            has_link(final(links)@, a, b) ==> has_link(old(links)@, a, b) || walked(
                edges@,
                page,
                stop,
                steps as nat,
                link_of(against, a, b).0,
                link_of(against, a, b).1,
            ),
        links_tidy(old(links)@) ==> links_tidy(final(links)@),
    decreases steps,
{
    if page == stop {
        return 1;
    }
    if steps == 0 {
        return 0;
    }
    let ghost table = edges@;
    let ghost n = steps as nat;
    let ghost below = (n - 1) as nat;
    let ghost ok = ends_at(table, page, stop, n) && counts_ok(table, stop, old(memory)@);
    let ghost was_closed = closed(table, stop, old(memory)@, old(links)@, against);
    let ghost was_tidy = links_tidy(old(links)@);
    let list = match edges.get(&page) {
        Some(list) => list,
        None => {
            return 0;
        },
    };
    let mut total: u32 = 0;
    let mut i: usize = 0;
    while i < list.len()
        invariant
            i <= list.len(),
            table == edges@,
            page != stop,
            n == steps,
            steps > 0,
            below == n - 1,
            ok ==> ends_at(table, page, stop, n),
            table.contains_key(page),
            table[page] == *list,
            ok ==> counts_ok(table, stop, memory@),
            ok ==> total == saturate(ways_sum(table, list@.take(i as int), stop, below)),
            ok ==> forall|j: int|
                0 <= j < i ==> memory@.contains_key(#[trigger] list@[j]) && has_link(
                    links@,
                    link_of(against, page, list@[j]).0,
                    link_of(against, page, list@[j]).1,
                ),
            forall|k: u32| #[trigger]
                old(memory)@.contains_key(k) ==> memory@.contains_key(k) && memory@[k] == old(
                    memory,
                )@[k],
            forall|k: u32| #[trigger]
                memory@.contains_key(k) ==> old(memory)@.contains_key(k) || exists|u: u32|
                    walked(table, page, stop, n, u, k),
            forall|a: u32, b: u32| #[trigger] has_link(old(links)@, a, b) ==> has_link(links@, a, b),
            forall|a: u32, b: u32| #[trigger]
                has_link(links@, a, b) ==> has_link(old(links)@, a, b) || walked(
                    table,
                    page,
                    stop,
                    n,
                    link_of(against, a, b).0,
                    link_of(against, a, b).1,
                ),
            ok && was_closed ==> closed(table, stop, memory@, links@, against),
            was_tidy ==> links_tidy(links@),
        decreases list.len() - i,
    {
        let p: u32 = list[i];
        let ghost links_before = links@;
        let ghost memory_before = memory@;
        proof {
            assert(list@.contains(p));
            assert(table[page]@[i as int] == p);
            if ok {
                assert(ends_at(table, p, stop, below));
            }
            assert(walked(table, page, stop, n, page, p));
        }
        if against {
            add_link(links, p, page);
        } else {
            add_link(links, page, p);
        }
        let ghost links_added = links@;
        proof {
            assert(has_link(
                links_added,
                link_of(against, page, p).0,
                link_of(against, page, p).1,
            ));
            if ok && was_closed {
                lemma_closed_keeps(table, stop, memory@, links_before, links_added, against);
            }
        }
        let known = match memory.get(&p) {
            Some(c) => Some(*c),
            None => None,
        };
        let c: u32 = match known {
            Some(c) => c,
            None => {
                let c = count_steps(p, stop, edges, memory, links, against, steps - 1);
                let ghost memory_after = memory@;
                memory.insert(p, c);
                proof {
                    if ok {
                        assert forall|k: u32, d: nat|
                            memory@.contains_key(k) && #[trigger] ends_at(
                                table,
                                k,
                                stop,
                                d,
                            ) implies memory@[k] == saturate(ways(table, k, stop, d)) by {
                            if k == p {
                                lemma_ways_stable(table, p, stop, below, d);
                            } else {
                                assert(memory_after.contains_key(k));
                            }
                        }
                    }
                    assert forall|k: u32| #[trigger] memory@.contains_key(k) implies old(
                        memory,
                    )@.contains_key(k) || exists|u: u32| walked(table, page, stop, n, u, k) by {
                        if k != p && !old(memory)@.contains_key(k) {
                            assert(memory_after.contains_key(k));
                            if !memory_before.contains_key(k) {
                                let u = choose|u: u32| walked(table, p, stop, below, u, k);
                                assert(walked(table, page, stop, n, u, k));
                            }
                        }
                    }
                    assert forall|a: u32, b: u32| #[trigger] has_link(links@, a, b) implies has_link(
                        old(links)@,
                        a,
                        b,
                    ) || walked(
                        table,
                        page,
                        stop,
                        n,
                        link_of(against, a, b).0,
                        link_of(against, a, b).1,
                    ) by {
                        if !has_link(links_added, a, b) {
                            assert(walked(
                                table,
                                p,
                                stop,
                                below,
                                link_of(against, a, b).0,
                                link_of(against, a, b).1,
                            ));
                        }
                    }
                    if ok && was_closed {
                        assert forall|u: u32| #[trigger]
                            memory@.contains_key(u) && u != stop implies covered(
                            table,
                            memory@,
                            links@,
                            against,
                            u,
                        ) by {
                            if u != p {
                                assert(memory_after.contains_key(u));
                            }
                            lemma_covered_keeps(
                                table,
                                memory_after,
                                memory@,
                                links@,
                                links@,
                                against,
                                u,
                            );
                        }
                    }
                }
                c
            },
        };
        proof {
            assert forall|a: u32, b: u32| #[trigger] has_link(old(links)@, a, b) implies has_link(
                links@,
                a,
                b,
            ) by {
                assert(has_link(links_before, a, b));
                assert(has_link(links_added, a, b));
            }
            if ok {
                assert forall|j: int| 0 <= j < i + 1 implies memory@.contains_key(
                    #[trigger] list@[j],
                ) && has_link(
                    links@,
                    link_of(against, page, list@[j]).0,
                    link_of(against, page, list@[j]).1,
                ) by {
                    if j < i {
                        assert(memory_before.contains_key(list@[j]));
                        assert(has_link(
                            links_before,
                            link_of(against, page, list@[j]).0,
                            link_of(against, page, list@[j]).1,
                        ));
                    }
                    assert(has_link(
                        links_added,
                        link_of(against, page, list@[j]).0,
                        link_of(against, page, list@[j]).1,
                    ));
                }
                lemma_ways_sum_push(table, list@.take(i as int), p, stop, below);
                assert(list@.take(i + 1) =~= list@.take(i as int).push(p));
                lemma_saturate_add(
                    ways_sum(table, list@.take(i as int), stop, below),
                    ways(table, p, stop, below),
                );
            }
        }
        total = total.saturating_add(c);
        i = i + 1;
    }
    proof {
        assert(list@.take(list@.len() as int) =~= list@);
        if ok {
            assert forall|p: u32| #[trigger] table[page]@.contains(p) implies memory@.contains_key(
                p,
            ) && has_link(links@, link_of(against, page, p).0, link_of(against, page, p).1) by {
                let j = choose|j: int| 0 <= j < list@.len() && list@[j] == p;
                assert(memory@.contains_key(list@[j]));
            }
        }
    }
    total
}

/// In the table of a side of a search, all walks from a page `depth` steps
/// out arrive at the origin of the side within `depth` steps, and their
/// number is the number of chains of `depth` predecessors.
pub proof fn lemma_table_walks(
    q: Quest,
    forward: bool,
    table: Map<u32, Vec<u32>>,
    radius: nat,
    v: u32,
    depth: nat,
)
    requires
        q.table_exact(forward, table, radius),
        at_distance(q.side_graph(forward), q.origin(forward), v, depth),
        depth <= radius,
    ensures
        ends_at(table, v, q.origin(forward), depth),
        ways(table, v, q.origin(forward), depth) == chains(table, v, depth),
    decreases depth,
{
    let sg = q.side_graph(forward);
    let o = q.origin(forward);
    if depth == 0 {
        assert(v == o);
    } else {
        lemma_ball_grows(sg, o, 0, (depth - 1) as nat);
        assert(v != o);
        lemma_ball_grows(sg, o, depth, radius);
        assert(table.contains_key(v));
        assert(predecessors_exact(sg, o, v, table[v]@));
        let list = table[v]@;
        assert forall|i: int| 0 <= i < list.len() implies ends_at(
            table,
            #[trigger] list[i],
            o,
            (depth - 1) as nat,
        ) && ways(table, list[i], o, (depth - 1) as nat) == chains(
            table,
            list[i],
            (depth - 1) as nat,
        ) by {
            assert(list.contains(list[i]));
            lemma_nearer_is_previous_level(sg, o, list[i], v, (depth - 1) as nat);
            lemma_table_walks(q, forward, table, radius, list[i], (depth - 1) as nat);
        }
        lemma_sums_agree(table, list, o, (depth - 1) as nat);
    }
}

/// Where the walks and the chains of each page of a list are as many, so are
/// those of the list.
proof fn lemma_sums_agree(table: Map<u32, Vec<u32>>, list: Seq<u32>, stop: u32, n: nat)
    requires
        forall|i: int|
            0 <= i < list.len() ==> ways(table, #[trigger] list[i], stop, n) == chains(
                table,
                list[i],
                n,
            ),
    ensures
        ways_sum(table, list, stop, n) == chains_sum(table, list, n),
    decreases list.len(),
{
    if list.len() > 0 {
        let shorter = list.drop_last();
        assert forall|i: int| 0 <= i < shorter.len() implies ways(
            table,
            #[trigger] shorter[i],
            stop,
            n,
        ) == chains(table, shorter[i], n) by {
            assert(shorter[i] == list[i]);
        }
        lemma_sums_agree(table, shorter, stop, n);
        assert(list.last() == list[list.len() - 1]);
    }
}

/// In the table of a side of a search, every step of a walk from a page on a
/// shortest walk stands for a link that lies on a shortest walk.
pub proof fn lemma_walked_on_route(
    q: Quest,
    forward: bool,
    table: Map<u32, Vec<u32>>,
    radius: nat,
    page: u32,
    depth: nat,
    n: nat,
    u: u32,
    v: u32,
)
    requires
        q.wf(),
        q.table_exact(forward, table, radius),
        depth <= radius,
        q.on_route(forward, page, depth),
        walked(table, page, q.origin(forward), n, u, v),
    ensures
        on_shortest_walk(
            q.g,
            q.source,
            q.target,
            q.length,
            link_of(forward, u, v).0,
            link_of(forward, u, v).1,
        ),
    decreases n,
{
    let sg = q.side_graph(forward);
    let o = q.origin(forward);
    assert(depth > 0) by {
        if depth == 0 {
            assert(page == o);
        }
    }
    assert(predecessors_exact(sg, o, page, table[page]@));
    if u == page && table[page]@.contains(v) {
        lemma_route_predecessor(q, forward, page, v, depth);
    } else {
        let i = choose|i: int|
            0 <= i < table[page]@.len() && walked(
                table,
                #[trigger] table[page]@[i],
                o,
                (n - 1) as nat,
                u,
                v,
            );
        let child = table[page]@[i];
        assert(table[page]@.contains(child));
        lemma_route_predecessor(q, forward, page, child, depth);
        lemma_walked_on_route(q, forward, table, radius, child, (depth - 1) as nat, (n - 1) as nat, u, v);
    }
}

/// The origin of a side has no predecessor: its list is empty, and nothing
/// is left to walk from it.
pub proof fn lemma_origin_covered(
    q: Quest,
    forward: bool,
    table: Map<u32, Vec<u32>>,
    radius: nat,
    memory: Map<u32, u32>,
    links: Map<u32, HashSet<u32>>,
)
    requires
        q.table_exact(forward, table, radius),
    ensures
        covered(table, memory, links, forward, q.origin(forward)),
{
    let sg = q.side_graph(forward);
    let o = q.origin(forward);
    if table.contains_key(o) {
        assert(predecessors_exact(sg, o, o, table[o]@));
        assert forall|p: u32| !(#[trigger] table[o]@.contains(p)) by {
            lemma_origin_has_no_predecessor(sg, o, p);
        }
    }
}

/// The sum, over the pages of `meeting`, of the number of chains back to the
/// source times the number of chains back to the target.
pub open spec fn meeting_sum(
    forward_table: Map<u32, Vec<u32>>,
    backward_table: Map<u32, Vec<u32>>,
    meeting: Seq<u32>,
    a: nat,
    b: nat,
) -> nat
    decreases meeting.len(),
{
    if meeting.len() == 0 {
        0
    } else {
        meeting_sum(forward_table, backward_table, meeting.drop_last(), a, b) + chains(
            forward_table,
            meeting.last(),
            a,
        ) * chains(backward_table, meeting.last(), b)
    }
}

/// A page `depth` steps out has at least one chain of predecessors.
pub proof fn lemma_chains_positive(
    g: Set<(u32, u32)>,
    origin: u32,
    table: Map<u32, Vec<u32>>,
    radius: nat,
    v: u32,
    depth: nat,
)
    requires
        table.dom() =~= ball(g, origin, radius),
        forall|x: u32| #[trigger]
            table.contains_key(x) ==> predecessors_exact(g, origin, x, table[x]@),
        at_distance(g, origin, v, depth),
        depth <= radius,
    ensures
        chains(table, v, depth) >= 1,
    decreases depth,
{
    if depth > 0 {
        lemma_ball_grows(g, origin, depth, radius);
        let u = lemma_ball_parent(g, origin, v, (depth - 1) as nat);
        lemma_nearer_is_previous_level(g, origin, u, v, (depth - 1) as nat);
        assert(predecessors_exact(g, origin, v, table[v]@));
        assert(table[v]@.contains(u));
        lemma_chains_positive(g, origin, table, radius, u, (depth - 1) as nat);
        lemma_chains_sum_bound(table, table[v]@, u, (depth - 1) as nat);
    }
}

/// The sum over a list is at least the term of each page of the list.
pub proof fn lemma_chains_sum_bound(table: Map<u32, Vec<u32>>, list: Seq<u32>, u: u32, depth: nat)
    requires
        list.contains(u),
    ensures
        chains_sum(table, list, depth) >= chains(table, u, depth),
    decreases list.len(),
{
    if list.last() != u {
        let i = choose|i: int| 0 <= i < list.len() && list[i] == u;
        assert(list.drop_last()[i] == u);
        lemma_chains_sum_bound(table, list.drop_last(), u, depth);
    }
}

/// A page on a shortest walk, on the near side of the meeting pages, has been
/// walked back from: its predecessors are counted and its links collected.
pub proof fn lemma_route_covered(
    q: Quest,
    forward: bool,
    table: Map<u32, Vec<u32>>,
    memory: Map<u32, u32>,
    links: Map<u32, HashSet<u32>>,
    pages: Seq<u32>,
    radius: nat,
    v: u32,
    j: nat,
)
    requires
        q.wf(),
        radius <= q.length,
        q.table_exact(forward, table, radius),
        closed(table, q.origin(forward), memory, links, forward),
        forall|m: u32| #[trigger] pages.contains(m) ==> covered(table, memory, links, forward, m),
        forall|x: u32| #[trigger] q.on_route(forward, x, radius) ==> pages.contains(x),
        q.on_route(forward, v, j),
        j <= radius,
    ensures
        covered(table, memory, links, forward, v),
    decreases radius - j,
{
    if j == radius {
        assert(pages.contains(v));
    } else {
        let sg = q.side_graph(forward);
        let rg = reversed(sg);
        let o = q.origin(forward);
        let f = q.far(forward);
        let rest = (q.length - j) as nat;
        lemma_reversed_twice(q.g);
        lemma_reversed_twice(sg);
        lemma_distance_symmetric(q.g, q.source, q.target, q.length);
        assert(at_distance(sg, o, f, q.length));
        let w = lemma_ball_parent(rg, f, v, (rest - 1) as nat);
        assert(sg.contains((v, w)));
        lemma_ball_step(sg, o, v, w, j);
        if ball(sg, o, j).contains(w) {
            lemma_meeting_reaches(sg, o, f, w, j, (rest - 1) as nat);
        }
        assert(q.on_route(forward, w, j + 1));
        lemma_route_covered(q, forward, table, memory, links, pages, radius, w, j + 1);
        lemma_ball_grows(sg, o, j + 1, radius);
        assert(table.contains_key(w));
        assert(predecessors_exact(sg, o, w, table[w]@));
        assert(nearer(sg, o, v, w)) by {
            assert(ball(sg, o, j).contains(v) && !ball(sg, o, j).contains(w));
        }
        assert(table[w]@.contains(v));
        assert(covered(table, memory, links, forward, w));
        assert(memory.contains_key(v));
        if v == o {
            lemma_origin_covered(q, forward, table, radius, memory, links);
        }
    }
}

/// Once every meeting page has been walked back from on both sides, every
/// edge that lies on a shortest walk is among the links.
pub proof fn lemma_links_complete(
    q: Quest,
    forward_table: Map<u32, Vec<u32>>,
    backward_table: Map<u32, Vec<u32>>,
    forward_memory: Map<u32, u32>,
    backward_memory: Map<u32, u32>,
    links: Map<u32, HashSet<u32>>,
    pages: Seq<u32>,
    a: nat,
    b: nat,
    u: u32,
    v: u32,
)
    requires
        q.wf(),
        a + b == q.length,
        q.table_exact(true, forward_table, a),
        q.table_exact(false, backward_table, b),
        closed(forward_table, q.source, forward_memory, links, true),
        closed(backward_table, q.target, backward_memory, links, false),
        forall|m: u32| #[trigger]
            pages.contains(m) ==> covered(forward_table, forward_memory, links, true, m)
                && covered(backward_table, backward_memory, links, false, m),
        forall|x: u32| #[trigger]
            pages.contains(x) <==> forward_table.contains_key(x) && backward_table.contains_key(x),
        on_shortest_walk(q.g, q.source, q.target, q.length, u, v),
    ensures
        has_link(links, u, v),
{
    let g = q.g;
    let rg = reversed(g);
    let s = q.source;
    let t = q.target;
    let i = choose|i: nat|
        i < q.length && #[trigger] at_distance(g, s, u, i) && at_distance(
            rg,
            t,
            v,
            (q.length - 1 - i) as nat,
        );
    let rest = (q.length - 1 - i) as nat;
    lemma_reversed_twice(g);
    lemma_distance_symmetric(g, s, t, q.length);
    // `v` is `i + 1` steps from the source, and `u` is `rest + 1` steps from the target.
    lemma_ball_step(g, s, u, v, i);
    if ball(g, s, i).contains(v) {
        lemma_meeting_reaches(g, s, t, v, i, rest);
    }
    assert(rg.contains((v, u)));
    lemma_ball_step(rg, t, v, u, rest);
    if ball(rg, t, rest).contains(u) {
        lemma_meeting_reaches(g, s, t, u, i, rest);
    }
    assert forall|x: u32| #[trigger] q.on_route(true, x, a) implies pages.contains(x) by {
        assert(forward_table.contains_key(x) && backward_table.contains_key(x));
    }
    assert forall|x: u32| #[trigger] q.on_route(false, x, b) implies pages.contains(x) by {
        assert(forward_table.contains_key(x) && backward_table.contains_key(x));
    }
    if i + 1 <= a {
        assert(q.on_route(true, v, i + 1));
        lemma_route_covered(q, true, forward_table, forward_memory, links, pages, a, v, i + 1);
        lemma_ball_grows(g, s, i + 1, a);
        assert(predecessors_exact(g, s, v, forward_table[v]@));
        assert(nearer(g, s, u, v)) by {
            assert(ball(g, s, i).contains(u) && !ball(g, s, i).contains(v));
        }
        assert(forward_table[v]@.contains(u));
    } else {
        assert(q.on_route(false, u, rest + 1));
        lemma_route_covered(q, false, backward_table, backward_memory, links, pages, b, u, rest + 1);
        lemma_ball_grows(rg, t, rest + 1, b);
        assert(predecessors_exact(rg, t, u, backward_table[u]@));
        assert(nearer(rg, t, v, u)) by {
            assert(ball(rg, t, rest).contains(v) && !ball(rg, t, rest).contains(u));
        }
        assert(backward_table[u]@.contains(v));
    }
}

} // verus!
