//! The number of walks between two pages, and the proof that the search
//! counts the shortest walks: the number that it adds up from the pages where
//! its two sides meet is the number of walks of the shortest length.

use crate::database::{list_of, strictly_ascending};
use crate::extract::{chains, chains_sum, meeting_sum};
use crate::frontier::predecessors_exact;
use crate::graph::{
    at_distance, ball, graph_of, lemma_ball_grows, lemma_ball_step, lemma_meeting_reaches,
    lemma_reversed_twice, reversed,
};
use crate::sums::{
    all_pages, lemma_all_pages, lemma_sum_ext, lemma_sum_positive, lemma_sum_scale,
    lemma_sum_single, lemma_sum_subset, lemma_sum_swap, sum,
};
use vstd::prelude::*;

verus! {

/// The number of walks of exactly `k` links that lead from `origin` to `v`,
/// where `before` lists for each page the pages with a link to it.
///
/// Read with the table of the pages that a page links to, it is the number
/// of walks of `k` links that lead from `v` to `origin`.
pub open spec fn walks(before: Map<u32, Vec<u32>>, origin: u32, v: u32, k: nat) -> nat
    decreases k, 0nat,
{
    if k == 0 {
        if v == origin {
            1
        } else {
            0
        }
    } else {
        walks_sum(before, origin, list_of(before, v), (k - 1) as nat)
    }
}

/// The number of walks of `k` links that lead from `origin` to a page of `list`.
pub open spec fn walks_sum(before: Map<u32, Vec<u32>>, origin: u32, list: Seq<u32>, k: nat) -> nat
    decreases k, 1 + list.len(),
{
    if list.len() == 0 {
        0
    } else {
        walks_sum(before, origin, list.drop_last(), k) + walks(before, origin, list.last(), k)
    }
}

/// `before` lists for each page, once, the pages with an edge of `g` to it.
pub open spec fn lists_before(before: Map<u32, Vec<u32>>, g: Set<(u32, u32)>) -> bool {
    &&& graph_of(before) == reversed(g)
    &&& forall|v: u32| #[trigger] before.contains_key(v) ==> before[v]@.no_duplicates()
}

/// A strictly ascending list holds no page twice.
pub proof fn lemma_ascending_no_duplicates(list: Seq<u32>)
    requires
        strictly_ascending(list),
    ensures
        list.no_duplicates(),
{
    assert forall|i: int, j: int| 0 <= i < list.len() && 0 <= j < list.len() && i != j implies list[i]
        != list[j] by {
        if i < j {
            assert(list[i] < list[j]);
        } else {
            assert(list[j] < list[i]);
        }
    }
}

/// `walks_sum` is the sum of `walks`.
pub proof fn lemma_walks_sum(before: Map<u32, Vec<u32>>, origin: u32, list: Seq<u32>, k: nat)
    ensures
        walks_sum(before, origin, list, k) == sum(list, |u: u32| walks(before, origin, u, k)),
    decreases list.len(),
{
    if list.len() > 0 {
        lemma_walks_sum(before, origin, list.drop_last(), k);
    }
}

/// `chains_sum` is the sum of `chains`.
pub proof fn lemma_chains_sum(table: Map<u32, Vec<u32>>, list: Seq<u32>, depth: nat)
    ensures
        chains_sum(table, list, depth) == sum(list, |u: u32| chains(table, u, depth)),
    decreases list.len(),
{
    if list.len() > 0 {
        lemma_chains_sum(table, list.drop_last(), depth);
    }
}

/// `meeting_sum` is the sum of the products of `chains`.
pub proof fn lemma_meeting_sum(
    forward_table: Map<u32, Vec<u32>>,
    backward_table: Map<u32, Vec<u32>>,
    meeting: Seq<u32>,
    a: nat,
    b: nat,
)
    ensures
        meeting_sum(forward_table, backward_table, meeting, a, b) == sum(
            meeting,
            |m: u32| chains(forward_table, m, a) * chains(backward_table, m, b),
        ),
    decreases meeting.len(),
{
    if meeting.len() > 0 {
        lemma_meeting_sum(forward_table, backward_table, meeting.drop_last(), a, b);
    }
}

/// A page that a walk of `k` links leads to is within `k` steps.
pub proof fn lemma_walks_reach(
    g: Set<(u32, u32)>,
    before: Map<u32, Vec<u32>>,
    origin: u32,
    v: u32,
    k: nat,
)
    requires
        lists_before(before, g),
        walks(before, origin, v, k) > 0,
    ensures
        ball(g, origin, k).contains(v),
    decreases k,
{
    if k > 0 {
        let list = list_of(before, v);
        let below = (k - 1) as nat;
        let f = |u: u32| walks(before, origin, u, below);
        lemma_walks_sum(before, origin, list, below);
        let i = lemma_sum_positive(list, f);
        let u = list[i];
        assert(list.contains(u));
        lemma_walks_reach(g, before, origin, u, below);
        assert(graph_of(before).contains((v, u)));
        assert(reversed(g).contains((v, u)));
        lemma_ball_step(g, origin, u, v, below);
    }
}

/// For a page `depth` steps from the origin, the number of chains of
/// predecessors in the table of a side is the number of walks of `depth`
/// links from the origin.
pub proof fn lemma_chains_are_walks(
    g: Set<(u32, u32)>,
    before: Map<u32, Vec<u32>>,
    origin: u32,
    table: Map<u32, Vec<u32>>,
    radius: nat,
    v: u32,
    depth: nat,
)
    requires
        lists_before(before, g),
        table.dom() =~= ball(g, origin, radius),
        forall|x: u32| #[trigger]
            table.contains_key(x) ==> predecessors_exact(g, origin, x, table[x]@),
        at_distance(g, origin, v, depth),
        depth <= radius,
    ensures
        chains(table, v, depth) == walks(before, origin, v, depth),
    decreases depth,
{
    if depth == 0 {
        lemma_ball_grows(g, origin, 0, 0);
    } else {
        let below = (depth - 1) as nat;
        lemma_ball_grows(g, origin, depth, radius);
        assert(table.contains_key(v));
        assert(predecessors_exact(g, origin, v, table[v]@));
        let mine = table[v]@;
        let all = list_of(before, v);
        let by_chains = |u: u32| chains(table, u, below);
        let by_walks = |u: u32| walks(before, origin, u, below);
        lemma_chains_sum(table, mine, below);
        lemma_walks_sum(before, origin, all, below);
        assert forall|i: int| 0 <= i < mine.len() implies by_chains(#[trigger] mine[i]) == by_walks(
            mine[i],
        ) by {
            let u = mine[i];
            assert(mine.contains(u));
            crate::frontier::lemma_nearer_is_previous_level(g, origin, u, v, below);
            lemma_chains_are_walks(g, before, origin, table, radius, u, below);
        }
        lemma_sum_ext(mine, by_chains, by_walks);
        assert forall|i: int| 0 <= i < mine.len() implies all.contains(#[trigger] mine[i]) by {
            let u = mine[i];
            assert(mine.contains(u));
            assert(reversed(g).contains((v, u)));
            assert(graph_of(before).contains((v, u)));
        }
        assert forall|i: int| 0 <= i < all.len() && !mine.contains(#[trigger] all[i]) implies by_walks(
            all[i],
        ) == 0 by {
            let u = all[i];
            assert(all.contains(u));
            assert(graph_of(before).contains((v, u)));
            assert(reversed(g).contains((v, u)));
            if by_walks(u) > 0 {
                lemma_walks_reach(g, before, origin, u, below);
                crate::frontier::lemma_nearer_is_previous_level(g, origin, u, v, below);
                if below > 0 && ball(g, origin, (below - 1) as nat).contains(u) {
                    lemma_ball_step(g, origin, u, v, (below - 1) as nat);
                }
            }
        }
        if before.contains_key(v) {
            assert(all.no_duplicates());
        }
        lemma_sum_subset(mine, all, by_walks);
    }
}

/// Walks of `a + b` links from `s` to `t` are walks of `a` links from `s` to
/// some page and walks of `b` links from that page to `t`: their number is
/// the sum, over every page, of the product of the two numbers.
pub proof fn lemma_walks_split(
    g: Set<(u32, u32)>,
    incoming: Map<u32, Vec<u32>>,
    outgoing: Map<u32, Vec<u32>>,
    s: u32,
    t: u32,
    a: nat,
    b: nat,
)
    requires
        lists_before(incoming, g),
        lists_before(outgoing, reversed(g)),
    ensures
        sum(all_pages(), |v: u32| walks(incoming, s, v, a) * walks(outgoing, t, v, b)) == walks(
            incoming,
            s,
            t,
            a + b,
        ),
    decreases b,
{
    let pages = all_pages();
    lemma_all_pages();
    lemma_reversed_twice(g);
    let product = |v: u32| walks(incoming, s, v, a) * walks(outgoing, t, v, b);
    if b == 0 {
        assert forall|i: int| 0 <= i < pages.len() && pages[i] != t implies product(
            #[trigger] pages[i],
        ) == 0 by {
            assert(walks(outgoing, t, pages[i], 0) == 0);
            assert(walks(incoming, s, pages[i], a) * 0 == 0) by (nonlinear_arith);
        }
        lemma_sum_single(pages, product, t);
        assert(walks(incoming, s, t, a) * 1 == walks(incoming, s, t, a)) by (nonlinear_arith);
    } else {
        let below = (b - 1) as nat;
        let from_s = |v: u32| walks(incoming, s, v, a);
        let to_t = |w: u32| walks(outgoing, t, w, below);
        let h = |v: u32, w: u32|
            if g.contains((v, w)) {
                from_s(v) * to_t(w)
            } else {
                0nat
            };
        let next = |w: u32| walks(incoming, s, w, a + 1) * walks(outgoing, t, w, below);
        assert forall|i: int| 0 <= i < pages.len() implies product(#[trigger] pages[i]) == sum(
            pages,
            |y: u32| h(pages[i], y),
        ) by {
            let v = pages[i];
            let after = list_of(outgoing, v);
            let row = |y: u32| h(v, y);
            let scaled = |w: u32| from_s(v) * to_t(w);
            lemma_walks_sum(outgoing, t, after, below);
            lemma_sum_scale(after, to_t, from_s(v), scaled);
            assert forall|j: int| 0 <= j < after.len() implies scaled(#[trigger] after[j]) == row(
                after[j],
            ) by {
                assert(after.contains(after[j]));
                assert(graph_of(outgoing).contains((v, after[j])));
                assert(reversed(reversed(g)).contains((v, after[j])));
            }
            lemma_sum_ext(after, scaled, row);
            assert forall|j: int|
                0 <= j < pages.len() && !after.contains(#[trigger] pages[j]) implies row(pages[j])
                == 0 by {
                if g.contains((v, pages[j])) {
                    assert(reversed(reversed(g)).contains((v, pages[j])));
                    assert(graph_of(outgoing).contains((v, pages[j])));
                }
            }
            if outgoing.contains_key(v) {
                assert(after.no_duplicates());
            }
            lemma_sum_subset(after, pages, row);
            lemma_sum_ext(pages, row, |y: u32| h(pages[i], y));
        }
        assert forall|j: int| 0 <= j < pages.len() implies next(#[trigger] pages[j]) == sum(
            pages,
            |x: u32| h(x, pages[j]),
        ) by {
            let w = pages[j];
            let before = list_of(incoming, w);
            let column = |x: u32| h(x, w);
            let scaled = |v: u32| to_t(w) * from_s(v);
            lemma_walks_sum(incoming, s, before, a);
            lemma_sum_scale(before, from_s, to_t(w), scaled);
            assert(walks(incoming, s, w, a + 1) == sum(before, from_s));
            assert(next(w) == to_t(w) * sum(before, from_s)) by (nonlinear_arith)
                requires
                    next(w) == sum(before, from_s) * to_t(w),
            ;
            assert forall|i: int| 0 <= i < before.len() implies scaled(#[trigger] before[i])
                == column(before[i]) by {
                assert(before.contains(before[i]));
                assert(graph_of(incoming).contains((w, before[i])));
                assert(reversed(g).contains((w, before[i])));
                assert(to_t(w) * from_s(before[i]) == from_s(before[i]) * to_t(w))
                    by (nonlinear_arith);
            }
            lemma_sum_ext(before, scaled, column);
            assert forall|i: int|
                0 <= i < pages.len() && !before.contains(#[trigger] pages[i]) implies column(
                    pages[i],
                ) == 0 by {
                if g.contains((pages[i], w)) {
                    assert(reversed(g).contains((w, pages[i])));
                    assert(graph_of(incoming).contains((w, pages[i])));
                }
            }
            if incoming.contains_key(w) {
                assert(before.no_duplicates());
            }
            lemma_sum_subset(before, pages, column);
            lemma_sum_ext(pages, column, |x: u32| h(x, pages[j]));
        }
        lemma_sum_swap(pages, pages, h, product, next);
        lemma_walks_split(g, incoming, outgoing, s, t, a + 1, below);
        lemma_sum_ext(
            pages,
            next,
            |v: u32| walks(incoming, s, v, a + 1) * walks(outgoing, t, v, below),
        );
    }
}

/// What the search adds up from the pages where its two sides meet is the
/// number of walks of the shortest length from the source to the target.
pub proof fn lemma_count_is_number_of_walks(
    g: Set<(u32, u32)>,
    incoming: Map<u32, Vec<u32>>,
    outgoing: Map<u32, Vec<u32>>,
    s: u32,
    t: u32,
    forward_table: Map<u32, Vec<u32>>,
    backward_table: Map<u32, Vec<u32>>,
    meeting: Seq<u32>,
    a: nat,
    b: nat,
)
    requires
        lists_before(incoming, g),
        lists_before(outgoing, reversed(g)),
        forward_table.dom() =~= ball(g, s, a),
        forall|x: u32| #[trigger]
            forward_table.contains_key(x) ==> predecessors_exact(g, s, x, forward_table[x]@),
        backward_table.dom() =~= ball(reversed(g), t, b),
        forall|x: u32| #[trigger]
            backward_table.contains_key(x) ==> predecessors_exact(
                reversed(g),
                t,
                x,
                backward_table[x]@,
            ),
        meeting.no_duplicates(),
        forall|v: u32| #[trigger]
            meeting.contains(v) <==> forward_table.contains_key(v) && backward_table.contains_key(
                v,
            ),
        at_distance(g, s, t, a + b),
    ensures
        meeting_sum(forward_table, backward_table, meeting, a, b) == walks(incoming, s, t, a + b),
{
    let rg = reversed(g);
    let pages = all_pages();
    lemma_all_pages();
    let by_chains = |m: u32| chains(forward_table, m, a) * chains(backward_table, m, b);
    let by_walks = |v: u32| walks(incoming, s, v, a) * walks(outgoing, t, v, b);
    lemma_meeting_sum(forward_table, backward_table, meeting, a, b);
    assert forall|i: int| 0 <= i < meeting.len() implies by_chains(#[trigger] meeting[i])
        == by_walks(meeting[i]) by {
        let m = meeting[i];
        assert(meeting.contains(m));
        assert(forward_table.contains_key(m) && backward_table.contains_key(m));
        if a > 0 && ball(g, s, (a - 1) as nat).contains(m) {
            lemma_meeting_reaches(g, s, t, m, (a - 1) as nat, b);
        }
        if b > 0 && ball(rg, t, (b - 1) as nat).contains(m) {
            lemma_meeting_reaches(g, s, t, m, a, (b - 1) as nat);
        }
        lemma_chains_are_walks(g, incoming, s, forward_table, a, m, a);
        lemma_chains_are_walks(rg, outgoing, t, backward_table, b, m, b);
    }
    lemma_sum_ext(meeting, by_chains, by_walks);
    assert forall|i: int|
        0 <= i < pages.len() && !meeting.contains(#[trigger] pages[i]) implies by_walks(pages[i])
        == 0 by {
        let v = pages[i];
        let x = walks(incoming, s, v, a);
        let y = walks(outgoing, t, v, b);
        if x > 0 && y > 0 {
            lemma_walks_reach(g, incoming, s, v, a);
            lemma_walks_reach(rg, outgoing, t, v, b);
            assert(forward_table.contains_key(v) && backward_table.contains_key(v));
        }
        assert(x * y == 0) by (nonlinear_arith)
            requires
                x == 0 || y == 0,
        ;
    }
    lemma_sum_subset(meeting, pages, by_walks);
    lemma_walks_split(g, incoming, outgoing, s, t, a, b);
    lemma_sum_ext(
        pages,
        by_walks,
        |v: u32| walks(incoming, s, v, a) * walks(outgoing, t, v, b),
    );
}

} // verus!
