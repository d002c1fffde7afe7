//! The search for all shortest link paths between two pages: a breadth-first
//! search from both ends that advances one whole level at a time, always on
//! the side whose queue is shorter, until the two sides meet; then the walk
//! back from the meeting pages, which counts the paths and collects their
//! links.
//!
//! A search is a `Meeting`: it says which pages' links the next level
//! reads, and takes them as a table, so that a database on disk is read list
//! by list, as the search comes to it. What a level does is stated over the
//! table that it was given; the laws `lemma_advance`, `lemma_search_done` and
//! `lemma_paths_of_search` say what that means for a graph whose links the
//! tables held. `Database::get_shortest_paths` is the search of a database
//! held in memory.

use crate::database::Database;
use crate::extract::{
    chains, closed, count_steps, counts_ok, covered, ends_at, has_link, lemma_chains_positive,
    lemma_closed_keeps, lemma_covered_keeps, lemma_origin_covered, lemma_saturate_add,
    lemma_saturate_mul, lemma_table_walks, lemma_walked_on_route, link_of, links_tidy, meeting_sum,
    saturate, walked, ways, Quest,
};
use crate::frontier::{
    agrees, expand, frontier, lemma_level, lemma_origin_has_no_predecessor, level_of, met_of,
    predecessors_exact,
};
use crate::graph::{
    at_distance, ball, connected, graph_of, lemma_ball_grows, lemma_ball_stable, lemma_ball_step,
    lemma_distance_unique, lemma_meeting_reaches, lemma_reach_meets, lemma_reversed_twice, nearer,
    on_shortest_walk, reversed,
};
use crate::walks::{
    lemma_ascending_no_duplicates, lemma_count_is_number_of_walks, lists_before, walks,
};
use std::collections::{HashMap, HashSet};
use vstd::prelude::*;
use vstd::set_lib::{lemma_len_subset, lemma_set_disjoint_lens};
use vstd::std_specs::hash::*;

verus! {

broadcast use vstd::std_specs::hash::group_hash_axioms;

/// All shortest paths between two pages.
#[derive(Debug)]
pub struct Paths {
    /// The page that the search started from: the source asked for, or the
    /// page that it redirects to.
    pub source: u32,
    /// Whether the source asked for redirects.
    pub source_is_redirect: bool,
    /// The page that the search headed for: the target asked for, or the page
    /// that it redirects to.
    pub target: u32,
    /// Whether the target asked for redirects.
    pub target_is_redirect: bool,
    /// The links that lie on a shortest path, by the page they leave.
    pub links: HashMap<u32, HashSet<u32>>,
    /// The language of the database that was searched.
    pub language_code: String,
    /// The date of the dump that the database was built from.
    pub date_code: String,
    /// The number of links of a shortest path; 0 where there is none.
    pub length: u32,
    /// The number of shortest paths; 0 where there is none, and the greatest
    /// number that fits where there are more.
    pub count: u32,
}

/// What the two sides of the search know: the search between its levels,
/// and when it stops.
pub struct Meeting {
    /// Each page within `forward_depth` steps of the source, with the pages
    /// before it on a shortest walk from the source.
    pub forward: HashMap<u32, Vec<u32>>,
    /// Each page from which the target is within `backward_depth` steps, with
    /// the pages after it on a shortest walk to the target.
    pub backward: HashMap<u32, Vec<u32>>,
    /// The pages `forward_depth` steps from the source: those whose outgoing
    /// links the next level on this side reads.
    pub forward_queue: Vec<u32>,
    /// The pages from which the target is `backward_depth` steps: those whose
    /// incoming links the next level on this side reads.
    pub backward_queue: Vec<u32>,
    /// The pages that both sides have reached.
    pub pages: Vec<u32>,
    pub forward_depth: u32,
    pub backward_depth: u32,
}

/// One more than `depth`, as far as it fits.
pub open spec fn deeper(depth: u32) -> u32 {
    if depth < u32::MAX {
        (depth + 1) as u32
    } else {
        depth
    }
}

impl Meeting {
    /// `table` holds the pages within `radius` steps of `origin` in `g`, each
    /// with its predecessors.
    pub open spec fn table_exact(
        g: Set<(u32, u32)>,
        origin: u32,
        radius: nat,
        table: Map<u32, Vec<u32>>,
    ) -> bool {
        &&& table.dom() =~= ball(g, origin, radius)
        &&& forall|v: u32| #[trigger]
            table.contains_key(v) ==> predecessors_exact(g, origin, v, table[v]@)
    }

    /// The state in which a search of `g` from `s` to `t` stops: both tables
    /// are exact, `pages` holds once each page that both hold, and the pages
    /// are either the middle of the shortest walks or, where `t` cannot be
    /// reached, none.
    pub open spec fn is_result_of(&self, g: Set<(u32, u32)>, s: u32, t: u32) -> bool {
        &&& Self::table_exact(g, s, self.forward_depth as nat, self.forward@)
        &&& Self::table_exact(reversed(g), t, self.backward_depth as nat, self.backward@)
        &&& self.pages@.no_duplicates()
        &&& forall|v: u32| #[trigger]
            self.pages@.contains(v) <==> self.forward@.contains_key(v)
                && self.backward@.contains_key(v)
        &&& self.forward_depth + self.backward_depth <= u32::MAX
        &&& self.pages@.len() > 0 ==> at_distance(
            g,
            s,
            t,
            (self.forward_depth + self.backward_depth) as nat,
        )
        &&& self.pages@.len() == 0 ==> !connected(g, s, t)
    }

    /// The state of a search of `g` from `s` to `t` between two levels: each
    /// side holds the pages within its depth with their predecessors, its
    /// queue holds the pages at its depth, `pages` holds once each page that
    /// both hold, and `t` is not nearer to `s` than the two depths together.
    pub open spec fn searching(&self, g: Set<(u32, u32)>, s: u32, t: u32) -> bool {
        &&& frontier(g, s, self.forward_depth as nat, self.forward@, self.forward_queue@)
        &&& frontier(
            reversed(g),
            t,
            self.backward_depth as nat,
            self.backward@,
            self.backward_queue@,
        )
        &&& self.pages@.no_duplicates()
        &&& forall|v: u32| #[trigger]
            self.pages@.contains(v) <==> self.forward@.contains_key(v)
                && self.backward@.contains_key(v)
        &&& self.forward_depth + self.backward_depth >= 1 ==> !ball(
            g,
            s,
            (self.forward_depth + self.backward_depth - 1) as nat,
        ).contains(t)
        &&& deep_enough(self.forward_queue@, self.forward_depth as nat, self.forward@)
        &&& deep_enough(self.backward_queue@, self.backward_depth as nat, self.backward@)
        &&& self.forward_depth + self.backward_depth <= u32::MAX
    }

    /// The search has stopped: the sides have met, or one of them has
    /// nothing more to expand.
    pub open spec fn done(&self) -> bool {
        self.pages@.len() > 0 || self.forward_queue@.len() == 0 || self.backward_queue@.len() == 0
    }

    /// The next level is one of the side that searches along the links: its
    /// queue is the shorter. Where the queues are as long, the other side
    /// goes on.
    pub open spec fn forward_next(&self) -> bool {
        self.forward_queue@.len() < self.backward_queue@.len()
    }

    /// `after` is `before` after one level for which `lists` held the links
    /// of the pages of the queue: the outgoing links for a level of the side
    /// that searches along the links, the incoming links for one of the
    /// other. The side is one level deeper, the other side is as it was, and
    /// `pages` holds the pages added that the other side holds too.
    pub open spec fn advanced(before: Meeting, after: Meeting, lists: Map<u32, Vec<u32>>) -> bool {
        if before.forward_next() {
            &&& level_of(
                lists,
                before.forward_queue@,
                before.forward@,
                after.forward@,
                after.forward_queue@,
            )
            &&& met_of(before.forward@, after.forward@, before.backward@, after.pages@)
            &&& after.forward_depth == deeper(before.forward_depth)
            &&& after.backward@ == before.backward@
            &&& after.backward_queue@ == before.backward_queue@
            &&& after.backward_depth == before.backward_depth
        } else {
            &&& level_of(
                lists,
                before.backward_queue@,
                before.backward@,
                after.backward@,
                after.backward_queue@,
            )
            &&& met_of(before.backward@, after.backward@, before.forward@, after.pages@)
            &&& after.backward_depth == deeper(before.backward_depth)
            &&& after.forward@ == before.forward@
            &&& after.forward_queue@ == before.forward_queue@
            &&& after.forward_depth == before.forward_depth
        }
    }

    /// The search from `source` to `target` before its first level: each
    /// side holds its own end. Where the ends are the same page, the sides
    /// have met.
    pub fn begin(source: u32, target: u32) -> (start: Meeting)
        ensures
            forall|g: Set<(u32, u32)>| #[trigger] start.searching(g, source, target),
            start.forward_queue@ == seq![source],
            start.backward_queue@ == seq![target],
            start.forward_depth == 0,
            start.backward_depth == 0,
            start.pages@ == (if source == target {
                seq![source]
            } else {
                Seq::<u32>::empty()
            }),
    {
        let mut forward: HashMap<u32, Vec<u32>> = HashMap::new();
        let mut backward: HashMap<u32, Vec<u32>> = HashMap::new();
        forward.insert(source, Vec::new());
        backward.insert(target, Vec::new());
        let mut forward_queue: Vec<u32> = Vec::new();
        let mut backward_queue: Vec<u32> = Vec::new();
        forward_queue.push(source);
        backward_queue.push(target);
        let mut pages: Vec<u32> = Vec::new();
        if source == target {
            pages.push(source);
        }
        let start = Meeting {
            forward,
            backward,
            forward_queue,
            backward_queue,
            pages,
            forward_depth: 0,
            backward_depth: 0,
        };
        proof {
            assert(start.forward_queue@ =~= seq![source]);
            assert(start.backward_queue@ =~= seq![target]);
            if source == target {
                assert(start.pages@ =~= seq![source]);
            }
            assert(start.forward@.dom() =~= set![source]);
            assert(start.backward@.dom() =~= set![target]);
            assert(start.forward@.dom().len() == 1);
            assert(start.backward@.dom().len() == 1);
            assert forall|g: Set<(u32, u32)>| #[trigger] start.searching(g, source, target) by {
                let rg = reversed(g);
                assert(start.forward_queue@[0] == source);
                assert(start.backward_queue@[0] == target);
                assert forall|u: u32| !nearer(g, source, u, source) by {
                    lemma_origin_has_no_predecessor(g, source, u);
                }
                assert forall|u: u32| !nearer(rg, target, u, target) by {
                    lemma_origin_has_no_predecessor(rg, target, u);
                }
                if source == target {
                    assert(start.pages@[0] == source);
                }
            }
        }
        start
    }

    /// Whether the search has stopped.
    pub fn is_done(&self) -> (done: bool)
        ensures
            done == self.done(),
    {
        self.pages.len() > 0 || self.forward_queue.len() == 0 || self.backward_queue.len() == 0
    }

    /// What the next level reads: whether it reads outgoing links, and the
    /// pages whose links it reads.
    pub fn wanted(&self) -> (next: (bool, &Vec<u32>))
        ensures
            next.0 == self.forward_next(),
            next.1@ == (if self.forward_next() {
                self.forward_queue@
            } else {
                self.backward_queue@
            }),
    {
        if self.forward_queue.len() < self.backward_queue.len() {
            (true, &self.forward_queue)
        } else {
            (false, &self.backward_queue)
        }
    }

    /// Searches one level on, on the side whose queue is the shorter, with
    /// `lists` holding the links of the pages of that queue.
    pub fn advance(&mut self, lists: &HashMap<u32, Vec<u32>>)
        ensures
            Meeting::advanced(*old(self), *final(self), lists@),
    {
        if self.forward_queue.len() < self.backward_queue.len() {
            let (next, met) = expand(lists, &self.forward_queue, &mut self.forward, &self.backward);
            self.forward_queue = next;
            self.pages = met;
            if self.forward_depth < u32::MAX {
                self.forward_depth = self.forward_depth + 1;
            }
        } else {
            let (next, met) = expand(lists, &self.backward_queue, &mut self.backward, &self.forward);
            self.backward_queue = next;
            self.pages = met;
            if self.backward_depth < u32::MAX {
                self.backward_depth = self.backward_depth + 1;
            }
        }
    }
}

/// A level keeps the search a search of `g`, where `lists` held the links of
/// the pages of the queue as `g` has them: along the links for a level of the
/// side that searches from the source, against them for one of the other.
pub proof fn lemma_advance(
    g: Set<(u32, u32)>,
    s: u32,
    t: u32,
    before: Meeting,
    after: Meeting,
    lists: Map<u32, Vec<u32>>,
)
    requires
        before.searching(g, s, t),
        !before.done(),
        Meeting::advanced(before, after, lists),
        before.forward_next() ==> agrees(lists, before.forward_queue@, g),
        !before.forward_next() ==> agrees(lists, before.backward_queue@, reversed(g)),
    ensures
        after.searching(g, s, t),
        after.forward_depth + after.backward_depth == before.forward_depth + before.backward_depth
            + 1,
{
    let rg = reversed(g);
    let d_f = before.forward_depth as nat;
    let d_b = before.backward_depth as nat;
    assert(before.forward@.dom().disjoint(before.backward@.dom())) by {
        assert forall|v: u32|
            !(before.forward@.dom().contains(v) && before.backward@.dom().contains(v)) by {
            if before.forward@.contains_key(v) && before.backward@.contains_key(v) {
                assert(before.pages@.contains(v));
            }
        }
    }
    lemma_room_for_level(before.forward@, before.backward@, d_f, d_b);
    if ball(g, s, d_f + d_b).contains(t) {
        let v = lemma_reach_meets(g, s, t, d_f, d_b);
        assert(before.forward@.contains_key(v) && before.backward@.contains_key(v));
        assert(before.pages@.contains(v));
    }
    if before.forward_next() {
        lemma_level(
            g,
            s,
            d_f,
            lists,
            before.forward_queue@,
            before.forward@,
            after.forward@,
            after.forward_queue@,
        );
        lemma_deeper(g, s, d_f, before.forward@, after.forward@, after.forward_queue@);
        assert forall|v: u32| #[trigger]
            after.pages@.contains(v) <==> after.forward@.contains_key(v)
                && after.backward@.contains_key(v) by {
            if after.forward@.contains_key(v) && after.backward@.contains_key(v) {
                if ball(g, s, d_f).contains(v) {
                    assert(before.forward@.contains_key(v));
                    assert(before.pages@.contains(v));
                }
            }
        }
    } else {
        lemma_level(
            rg,
            t,
            d_b,
            lists,
            before.backward_queue@,
            before.backward@,
            after.backward@,
            after.backward_queue@,
        );
        lemma_deeper(rg, t, d_b, before.backward@, after.backward@, after.backward_queue@);
        assert forall|v: u32| #[trigger]
            after.pages@.contains(v) <==> after.forward@.contains_key(v)
                && after.backward@.contains_key(v) by {
            if after.forward@.contains_key(v) && after.backward@.contains_key(v) {
                if ball(rg, t, d_b).contains(v) {
                    assert(before.backward@.contains_key(v));
                    assert(before.pages@.contains(v));
                }
            }
        }
    }
}

/// A search of `g` that has stopped knows the answer: the pages where the
/// sides met are the middle of the shortest walks, and where there is none,
/// the target cannot be reached.
pub proof fn lemma_search_done(g: Set<(u32, u32)>, s: u32, t: u32, m: Meeting)
    requires
        m.searching(g, s, t),
        m.done(),
    ensures
        m.is_result_of(g, s, t),
{
    let rg = reversed(g);
    let d_f = m.forward_depth as nat;
    let d_b = m.backward_depth as nat;
    if m.pages@.len() > 0 {
        let v = m.pages@[0];
        assert(m.pages@.contains(v));
        lemma_meeting_reaches(g, s, t, v, d_f, d_b);
    } else {
        assert(m.forward@.dom().disjoint(m.backward@.dom())) by {
            assert forall|v: u32|
                !(m.forward@.dom().contains(v) && m.backward@.dom().contains(v)) by {
                if m.forward@.contains_key(v) && m.backward@.contains_key(v) {
                    assert(m.pages@.contains(v));
                }
            }
        }
        if m.forward_queue@.len() == 0 {
            assert forall|v: u32| !at_distance(g, s, v, d_f) by {
                if at_distance(g, s, v, d_f) {
                    assert(m.forward_queue@.contains(v));
                }
            }
            lemma_exhausted(g, s, t, d_f, d_b, true);
        } else {
            assert forall|v: u32| !at_distance(rg, t, v, d_b) by {
                if at_distance(rg, t, v, d_b) {
                    assert(m.backward_queue@.contains(v));
                }
            }
            lemma_exhausted(g, s, t, d_f, d_b, false);
        }
    }
}

/// A side that has more to expand has reached more pages than its depth.
pub open spec fn deep_enough(queue: Seq<u32>, depth: nat, seen: Map<u32, Vec<u32>>) -> bool {
    queue.len() > 0 ==> depth + 1 <= seen.dom().len()
}

/// After a level, a side that found new pages has reached more pages than its
/// new depth.
proof fn lemma_deeper(
    g: Set<(u32, u32)>,
    origin: u32,
    depth: nat,
    before: Map<u32, Vec<u32>>,
    after: Map<u32, Vec<u32>>,
    next: Seq<u32>,
)
    requires
        before.dom().finite(),
        after.dom().finite(),
        depth + 1 <= before.dom().len(),
        before.dom() =~= ball(g, origin, depth),
        frontier(g, origin, depth + 1, after, next),
    ensures
        deep_enough(next, depth + 1, after),
{
    if next.len() > 0 {
        let n = next[0];
        assert(next.contains(n));
        assert(at_distance(g, origin, n, depth + 1));
        lemma_ball_grows(g, origin, depth, depth + 1);
        assert(before.dom().insert(n).subset_of(after.dom()));
        lemma_len_subset(before.dom().insert(n), after.dom());
    }
}

/// Two sides that have not met and both have more to expand leave room for
/// one more level.
proof fn lemma_room_for_level(
    forward: Map<u32, Vec<u32>>,
    backward: Map<u32, Vec<u32>>,
    d_f: nat,
    d_b: nat,
)
    requires
        forward.dom().finite(),
        backward.dom().finite(),
        forward.dom().disjoint(backward.dom()),
        d_f + 1 <= forward.dom().len(),
        d_b + 1 <= backward.dom().len(),
    ensures
        d_f + d_b + 1 <= u32::MAX,
{
    lemma_set_disjoint_lens(forward.dom(), backward.dom());
    lemma_id_set_bound(forward.dom() + backward.dom());
}

/// Where one side has nothing more to expand and the sides have not met, the
/// target cannot be reached.
proof fn lemma_exhausted(
    g: Set<(u32, u32)>,
    s: u32,
    t: u32,
    d_f: nat,
    d_b: nat,
    forward_side: bool,
)
    requires
        ball(g, s, d_f).disjoint(ball(reversed(g), t, d_b)),
        forward_side ==> forall|v: u32| !at_distance(g, s, v, d_f),
        !forward_side ==> forall|v: u32| !at_distance(reversed(g), t, v, d_b),
    ensures
        !connected(g, s, t),
{
    let rg = reversed(g);
    lemma_ball_grows(rg, t, 0, d_b);
    lemma_ball_grows(g, s, 0, d_f);
    if forward_side {
        assert(d_f > 0) by {
            if d_f == 0 {
                assert(at_distance(g, s, s, 0));
            }
        }
        let low = (d_f - 1) as nat;
        lemma_ball_grows(g, s, low, d_f);
        assert(ball(g, s, low + 1) =~= ball(g, s, low)) by {
            assert forall|v: u32| ball(g, s, low + 1).contains(v) implies ball(g, s, low).contains(
                v,
            ) by {
                assert(!at_distance(g, s, v, d_f));
            }
        }
        assert forall|k: nat| !(#[trigger] ball(g, s, k).contains(t)) by {
            if ball(g, s, k).contains(t) {
                if k <= low {
                    lemma_ball_grows(g, s, k, low);
                } else {
                    lemma_ball_stable(g, s, low, k);
                }
                assert(ball(g, s, d_f).contains(t) && ball(rg, t, d_b).contains(t));
            }
        }
    } else {
        assert(d_b > 0) by {
            if d_b == 0 {
                assert(at_distance(rg, t, t, 0));
            }
        }
        let low = (d_b - 1) as nat;
        lemma_ball_grows(rg, t, low, d_b);
        assert(ball(rg, t, low + 1) =~= ball(rg, t, low)) by {
            assert forall|v: u32| ball(rg, t, low + 1).contains(v) implies ball(
                rg,
                t,
                low,
            ).contains(v) by {
                assert(!at_distance(rg, t, v, d_b));
            }
        }
        assert forall|k: nat| !(#[trigger] ball(g, s, k).contains(t)) by {
            if ball(g, s, k).contains(t) {
                if k <= d_f {
                    lemma_ball_grows(g, s, k, d_f);
                    assert(ball(g, s, d_f).contains(t) && ball(rg, t, d_b).contains(t));
                } else {
                    let v = lemma_reach_meets(g, s, t, d_f, (k - d_f) as nat);
                    let far = (k - d_f) as nat;
                    if far <= low {
                        lemma_ball_grows(rg, t, far, low);
                    } else {
                        lemma_ball_stable(rg, t, low, far);
                    }
                    assert(ball(g, s, d_f).contains(v) && ball(rg, t, d_b).contains(v));
                }
            }
        }
    }
}

impl Database {
    /// The page that a query for `page` is about: the page that `page`
    /// redirects to, or `page` itself.
    pub open spec fn resolved(&self, page: u32) -> u32 {
        if self.redirects@.contains_key(page) {
            self.redirects@[page]
        } else {
            page
        }
    }

    /// Searches from `source` along the links and from `target` against
    /// them, one level at a time, until a page is reached from both ends or
    /// one side has nothing more to expand.
    pub fn search_levels(&self, source: u32, target: u32) -> (meeting: Meeting)
        requires
            self.transposed(),
        ensures
            meeting.is_result_of(self.graph(), source, target),
    {
        let ghost g = graph_of(self.outgoing@);
        let mut meeting = Meeting::begin(source, target);
        while !meeting.is_done()
            invariant
                g == graph_of(self.outgoing@),
                graph_of(self.incoming@) == reversed(g),
                meeting.searching(g, source, target),
            decreases u32::MAX - meeting.forward_depth - meeting.backward_depth,
        {
            let ghost before = meeting;
            let (along, _) = meeting.wanted();
            if along {
                meeting.advance(&self.outgoing);
                proof {
                    lemma_advance(g, source, target, before, meeting, self.outgoing@);
                }
            } else {
                meeting.advance(&self.incoming);
                proof {
                    lemma_advance(g, source, target, before, meeting, self.incoming@);
                }
            }
        }
        proof {
            lemma_search_done(g, source, target, meeting);
        }
        meeting
    }
}

/// The sum, over the pages of `pages`, of the number of walks back to `s`
/// times the number of walks on to `t`.
pub open spec fn meeting_ways(
    forward_table: Map<u32, Vec<u32>>,
    backward_table: Map<u32, Vec<u32>>,
    pages: Seq<u32>,
    s: u32,
    t: u32,
    a: nat,
    b: nat,
) -> nat
    decreases pages.len(),
{
    if pages.len() == 0 {
        0
    } else {
        meeting_ways(forward_table, backward_table, pages.drop_last(), s, t, a, b) + ways(
            forward_table,
            pages.last(),
            s,
            a,
        ) * ways(backward_table, pages.last(), t, b)
    }
}

impl Meeting {
    /// From every page where the sides met, all walks along the two tables
    /// arrive at the ends within the depths of the sides.
    pub open spec fn walks_end(&self, s: u32, t: u32) -> bool {
        forall|j: int|
            0 <= j < self.pages@.len() ==> ends_at(
                self.forward@,
                #[trigger] self.pages@[j],
                s,
                self.forward_depth as nat,
            ) && ends_at(self.backward@, self.pages@[j], t, self.backward_depth as nat)
    }

    /// The link from `x` to `y` is the link of a step of a walk from one of
    /// the first `upto` meeting pages to one of the ends.
    pub open spec fn stepped(&self, s: u32, t: u32, upto: int, x: u32, y: u32) -> bool {
        exists|j: int|
            0 <= j < upto && j < self.pages@.len() && (walked(
                self.forward@,
                #[trigger] self.pages@[j],
                s,
                self.forward_depth as nat,
                link_of(true, x, y).0,
                link_of(true, x, y).1,
            ) || walked(
                self.backward@,
                self.pages@[j],
                t,
                self.backward_depth as nat,
                link_of(false, x, y).0,
                link_of(false, x, y).1,
            ))
    }

    /// Every one of the first `upto` meeting pages has been walked from on
    /// both sides, and so has every page that `forward_memory` or
    /// `backward_memory` holds: the links of all their steps are in `links`.
    pub open spec fn all_covered(
        &self,
        s: u32,
        t: u32,
        upto: int,
        forward_memory: Map<u32, u32>,
        backward_memory: Map<u32, u32>,
        links: Map<u32, HashSet<u32>>,
    ) -> bool {
        &&& closed(self.forward@, s, forward_memory, links, true)
        &&& closed(self.backward@, t, backward_memory, links, false)
        &&& forall|j: int|
            0 <= j < upto && j < self.pages@.len() ==> ((#[trigger] self.pages@[j]) != s
                ==> covered(self.forward@, forward_memory, links, true, self.pages@[j]))
                && (self.pages@[j] != t ==> covered(
                self.backward@,
                backward_memory,
                links,
                false,
                self.pages@[j],
            ))
    }

    /// `links` and `count` are what the walk back from the meeting pages
    /// gives: every link is the link of a step of such a walk; and where all
    /// walks arrive at the ends, the link of every step is there, and `count`
    /// is the number of walks from end to end, as far as it fits.
    pub open spec fn gathered(
        &self,
        s: u32,
        t: u32,
        links: Map<u32, HashSet<u32>>,
        count: u32,
    ) -> bool {
        &&& links_tidy(links)
        &&& forall|x: u32, y: u32| #[trigger]
            has_link(links, x, y) ==> self.stepped(s, t, self.pages@.len() as int, x, y)
        &&& self.walks_end(s, t) ==> {
            &&& count == saturate(
                meeting_ways(
                    self.forward@,
                    self.backward@,
                    self.pages@,
                    s,
                    t,
                    self.forward_depth as nat,
                    self.backward_depth as nat,
                ),
            )
            &&& exists|forward_memory: Map<u32, u32>, backward_memory: Map<u32, u32>| #[trigger]
                self.all_covered(
                    s,
                    t,
                    self.pages@.len() as int,
                    forward_memory,
                    backward_memory,
                    links,
                )
        }
    }
}

/// Walks back from every meeting page to both ends: the links of all the
/// walks, and their number.
fn gather(meeting: &Meeting, source: u32, target: u32) -> (out: (
    HashMap<u32, HashSet<u32>>,
    u32,
))
    ensures
        meeting.gathered(source, target, out.0@, out.1),
{
    let ghost a = meeting.forward_depth as nat;
    let ghost b = meeting.backward_depth as nat;
    let ghost ft = meeting.forward@;
    let ghost bt = meeting.backward@;
    let ghost ok = meeting.walks_end(source, target);
    let mut links: HashMap<u32, HashSet<u32>> = HashMap::new();
    let mut forward_memory: HashMap<u32, u32> = HashMap::new();
    let mut backward_memory: HashMap<u32, u32> = HashMap::new();
    let mut count: u32 = 0;
    let mut i: usize = 0;
    while i < meeting.pages.len()
        invariant
            i <= meeting.pages.len(),
            a == meeting.forward_depth as nat,
            b == meeting.backward_depth as nat,
            ft == meeting.forward@,
            bt == meeting.backward@,
            ok == meeting.walks_end(source, target),
            ok ==> counts_ok(ft, source, forward_memory@),
            ok ==> counts_ok(bt, target, backward_memory@),
            ok ==> meeting.all_covered(
                source,
                target,
                i as int,
                forward_memory@,
                backward_memory@,
                links@,
            ),
            links_tidy(links@),
            forall|x: u32, y: u32| #[trigger]
                has_link(links@, x, y) ==> meeting.stepped(source, target, i as int, x, y),
            ok ==> count == saturate(
                meeting_ways(ft, bt, meeting.pages@.take(i as int), source, target, a, b),
            ),
        decreases meeting.pages.len() - i,
    {
        let page: u32 = meeting.pages[i];
        let ghost links_0 = links@;
        let ghost forward_0 = forward_memory@;
        let ghost backward_0 = backward_memory@;
        proof {
            if ok {
                assert(ends_at(ft, meeting.pages@[i as int], source, a));
                assert(ends_at(bt, meeting.pages@[i as int], target, b));
            }
        }
        let forward_count = count_steps(
            page,
            source,
            &meeting.forward,
            &mut forward_memory,
            &mut links,
            true,
            meeting.forward_depth,
        );
        let ghost links_1 = links@;
        proof {
            if ok {
                lemma_closed_keeps(bt, target, backward_0, links_0, links_1, false);
            }
        }
        let backward_count = count_steps(
            page,
            target,
            &meeting.backward,
            &mut backward_memory,
            &mut links,
            false,
            meeting.backward_depth,
        );
        proof {
            let links_2 = links@;
            assert forall|x: u32, y: u32| #[trigger] has_link(links_0, x, y) implies has_link(
                links_2,
                x,
                y,
            ) by {
                assert(has_link(links_1, x, y));
            }
            assert forall|x: u32, y: u32| #[trigger] has_link(links_2, x, y) implies meeting.stepped(
                source,
                target,
                i + 1,
                x,
                y,
            ) by {
                if has_link(links_0, x, y) {
                    assert(meeting.stepped(source, target, i as int, x, y));
                    let j = choose|j: int|
                        0 <= j < i && j < meeting.pages@.len() && (walked(
                            ft,
                            #[trigger] meeting.pages@[j],
                            source,
                            a,
                            link_of(true, x, y).0,
                            link_of(true, x, y).1,
                        ) || walked(
                            bt,
                            meeting.pages@[j],
                            target,
                            b,
                            link_of(false, x, y).0,
                            link_of(false, x, y).1,
                        ));
                    assert(0 <= j < i + 1);
                } else {
                    assert(meeting.pages@[i as int] == page);
                    if has_link(links_1, x, y) {
                        assert(walked(
                            ft,
                            meeting.pages@[i as int],
                            source,
                            a,
                            link_of(true, x, y).0,
                            link_of(true, x, y).1,
                        ));
                    } else {
                        assert(walked(
                            bt,
                            meeting.pages@[i as int],
                            target,
                            b,
                            link_of(false, x, y).0,
                            link_of(false, x, y).1,
                        ));
                    }
                }
            }
            if ok {
                lemma_closed_keeps(ft, source, forward_memory@, links_1, links_2, true);
                assert forall|j: int| 0 <= j < i + 1 && j < meeting.pages@.len() implies ((
                #[trigger] meeting.pages@[j]) != source ==> covered(
                    ft,
                    forward_memory@,
                    links_2,
                    true,
                    meeting.pages@[j],
                )) && (meeting.pages@[j] != target ==> covered(
                    bt,
                    backward_memory@,
                    links_2,
                    false,
                    meeting.pages@[j],
                )) by {
                    let m = meeting.pages@[j];
                    if j < i {
                        if m != source {
                            lemma_covered_keeps(
                                ft,
                                forward_0,
                                forward_memory@,
                                links_0,
                                links_2,
                                true,
                                m,
                            );
                        }
                        if m != target {
                            lemma_covered_keeps(
                                bt,
                                backward_0,
                                backward_memory@,
                                links_0,
                                links_2,
                                false,
                                m,
                            );
                        }
                    } else {
                        if m != source {
                            lemma_covered_keeps(
                                ft,
                                forward_memory@,
                                forward_memory@,
                                links_1,
                                links_2,
                                true,
                                m,
                            );
                        }
                    }
                }
                let before = meeting.pages@.take(i as int);
                assert(meeting.pages@.take(i + 1) =~= before.push(page));
                assert(before.push(page).drop_last() =~= before);
                let wf = ways(ft, page, source, a);
                let wb = ways(bt, page, target, b);
                lemma_saturate_mul(wf, wb);
                lemma_saturate_add(meeting_ways(ft, bt, before, source, target, a, b), wf * wb);
            }
        }
        let product: u32 = match forward_count.checked_mul(backward_count) {
            Some(product) => product,
            None => u32::MAX,
        };
        count = count.saturating_add(product);
        i = i + 1;
    }
    proof {
        assert(meeting.pages@.take(meeting.pages@.len() as int) =~= meeting.pages@);
    }
    (links, count)
}

/// What the walk back gives for a search of `g` that has found its answer:
/// the number of chains of predecessors through the meeting pages, which is
/// not zero, and exactly the links that lie on a shortest walk.
pub proof fn lemma_gathered(
    g: Set<(u32, u32)>,
    s: u32,
    t: u32,
    m: Meeting,
    links: Map<u32, HashSet<u32>>,
    count: u32,
)
    requires
        m.is_result_of(g, s, t),
        m.pages@.len() > 0,
        m.gathered(s, t, links, count),
    ensures
        count == saturate(
            meeting_sum(
                m.forward@,
                m.backward@,
                m.pages@,
                m.forward_depth as nat,
                m.backward_depth as nat,
            ),
        ),
        count >= 1,
        forall|x: u32, y: u32| #[trigger]
            has_link(links, x, y) <==> on_shortest_walk(
                g,
                s,
                t,
                (m.forward_depth + m.backward_depth) as nat,
                x,
                y,
            ),
{
    let a = m.forward_depth as nat;
    let b = m.backward_depth as nat;
    let q = Quest { g, source: s, target: t, length: a + b };
    let rg = reversed(g);
    let ft = m.forward@;
    let bt = m.backward@;
    let pages = m.pages@;
    lemma_reversed_twice(g);
    assert(q.wf());
    assert(q.table_exact(true, ft, a));
    assert(q.table_exact(false, bt, b));
    assert forall|j: int| 0 <= j < pages.len() implies q.on_route(true, #[trigger] pages[j], a)
        && q.on_route(false, pages[j], b) && ends_at(ft, pages[j], s, a) && ends_at(
        bt,
        pages[j],
        t,
        b,
    ) && ways(ft, pages[j], s, a) == chains(ft, pages[j], a) && ways(bt, pages[j], t, b) == chains(
        bt,
        pages[j],
        b,
    ) && chains(ft, pages[j], a) >= 1 && chains(bt, pages[j], b) >= 1 by {
        let page = pages[j];
        assert(pages.contains(page));
        assert(ft.contains_key(page) && bt.contains_key(page));
        if a > 0 && ball(g, s, (a - 1) as nat).contains(page) {
            lemma_meeting_reaches(g, s, t, page, (a - 1) as nat, b);
        }
        if b > 0 && ball(rg, t, (b - 1) as nat).contains(page) {
            lemma_meeting_reaches(g, s, t, page, a, (b - 1) as nat);
        }
        assert(q.on_route(true, page, a));
        assert(q.on_route(false, page, b));
        lemma_table_walks(q, true, ft, a, page, a);
        lemma_table_walks(q, false, bt, b, page, b);
        lemma_chains_positive(g, s, ft, a, page, a);
        lemma_chains_positive(rg, t, bt, b, page, b);
    }
    assert(m.walks_end(s, t));
    lemma_meeting_sums(ft, bt, pages, s, t, a, b);
    let (fm, bm) = choose|fm: Map<u32, u32>, bm: Map<u32, u32>| #[trigger]
        m.all_covered(s, t, pages.len() as int, fm, bm, links);
    assert forall|x: u32, y: u32| #[trigger]
        has_link(links, x, y) <==> on_shortest_walk(g, s, t, a + b, x, y) by {
        if has_link(links, x, y) {
            assert(m.stepped(s, t, pages.len() as int, x, y));
            let j = choose|j: int|
                0 <= j < pages.len() && j < m.pages@.len() && (walked(
                    ft,
                    #[trigger] m.pages@[j],
                    s,
                    a,
                    link_of(true, x, y).0,
                    link_of(true, x, y).1,
                ) || walked(
                    bt,
                    m.pages@[j],
                    t,
                    b,
                    link_of(false, x, y).0,
                    link_of(false, x, y).1,
                ));
            assert(q.on_route(true, pages[j], a));
            if walked(ft, pages[j], s, a, link_of(true, x, y).0, link_of(true, x, y).1) {
                lemma_walked_on_route(
                    q,
                    true,
                    ft,
                    a,
                    pages[j],
                    a,
                    a,
                    link_of(true, x, y).0,
                    link_of(true, x, y).1,
                );
            } else {
                lemma_walked_on_route(
                    q,
                    false,
                    bt,
                    b,
                    pages[j],
                    b,
                    b,
                    link_of(false, x, y).0,
                    link_of(false, x, y).1,
                );
            }
        }
        if on_shortest_walk(g, s, t, a + b, x, y) {
            assert forall|p: u32| #[trigger] pages.contains(p) implies covered(
                ft,
                fm,
                links,
                true,
                p,
            ) && covered(bt, bm, links, false, p) by {
                let j = choose|j: int| 0 <= j < pages.len() && pages[j] == p;
                assert(m.pages@[j] == p);
                if p == s {
                    lemma_origin_covered(q, true, ft, a, fm, links);
                }
                if p == t {
                    lemma_origin_covered(q, false, bt, b, bm, links);
                }
            }
            crate::extract::lemma_links_complete(q, ft, bt, fm, bm, links, pages, a, b, x, y);
        }
    }
}

/// Where the walks and the chains of each page are as many, the sums over
/// the pages are the same, and not zero where there is a page with a chain
/// on each side.
proof fn lemma_meeting_sums(
    ft: Map<u32, Vec<u32>>,
    bt: Map<u32, Vec<u32>>,
    pages: Seq<u32>,
    s: u32,
    t: u32,
    a: nat,
    b: nat,
)
    requires
        forall|j: int|
            0 <= j < pages.len() ==> ways(ft, #[trigger] pages[j], s, a) == chains(ft, pages[j], a)
                && ways(bt, pages[j], t, b) == chains(bt, pages[j], b) && chains(ft, pages[j], a)
                >= 1 && chains(bt, pages[j], b) >= 1,
    ensures
        meeting_ways(ft, bt, pages, s, t, a, b) == meeting_sum(ft, bt, pages, a, b),
        pages.len() > 0 ==> meeting_sum(ft, bt, pages, a, b) >= 1,
    decreases pages.len(),
{
    if pages.len() > 0 {
        let shorter = pages.drop_last();
        assert forall|j: int| 0 <= j < shorter.len() implies ways(ft, #[trigger] shorter[j], s, a)
            == chains(ft, shorter[j], a) && ways(bt, shorter[j], t, b) == chains(bt, shorter[j], b)
            && chains(ft, shorter[j], a) >= 1 && chains(bt, shorter[j], b) >= 1 by {
            assert(shorter[j] == pages[j]);
        }
        lemma_meeting_sums(ft, bt, shorter, s, t, a, b);
        assert(pages.last() == pages[pages.len() - 1]);
        let cf = chains(ft, pages.last(), a);
        let cb = chains(bt, pages.last(), b);
        assert(cf * cb >= 1) by (nonlinear_arith)
            requires
                cf >= 1,
                cb >= 1,
        ;
    }
}

impl Paths {
    /// The result holds the link from `u` to `v`.
    pub open spec fn links_to(&self, u: u32, v: u32) -> bool {
        has_link(self.links@, u, v)
    }

    /// The result is the answer to the question for the shortest walks from
    /// `self.source` to `self.target` in the database.
    ///
    /// Where the target can be reached, `length` is its distance, `count` is
    /// the number of walks of that length, as far as it fits, and `links`
    /// holds exactly the links that lie on such a walk; where it cannot,
    /// `length` and `count` are zero and there is no link. Searching from a
    /// page to itself finds the one walk without links.
    pub open spec fn answers(&self, db: &Database) -> bool {
        let g = db.graph();
        &&& links_tidy(self.links@)
        &&& connected(g, self.source, self.target) ==> {
            &&& at_distance(g, self.source, self.target, self.length as nat)
            &&& self.count == saturate(
                walks(db.incoming@, self.source, self.target, self.length as nat),
            )
            &&& self.count >= 1
            &&& forall|u: u32, v: u32| #[trigger]
                self.links_to(u, v) <==> on_shortest_walk(
                    g,
                    self.source,
                    self.target,
                    self.length as nat,
                    u,
                    v,
                )
        }
        &&& !connected(g, self.source, self.target) ==> {
            &&& self.length == 0
            &&& self.count == 0
            &&& self.links@.dom() =~= Set::<u32>::empty()
        }
        &&& self.source == self.target ==> {
            &&& self.length == 0
            &&& self.count == 1
            &&& self.links@.dom() =~= Set::<u32>::empty()
        }
    }
}

/// The two depths together, as far as they fit.
pub open spec fn depths_sum(a: u32, b: u32) -> u32 {
    if a + b <= u32::MAX {
        (a + b) as u32
    } else {
        u32::MAX
    }
}

impl Paths {
    /// The result is what the search `m` gives: where the sides met, the two
    /// depths together, and the links and the count of the walk back from the
    /// meeting pages; where they did not, nothing.
    pub open spec fn made_from(&self, m: Meeting) -> bool {
        if m.pages@.len() > 0 {
            &&& self.length == depths_sum(m.forward_depth, m.backward_depth)
            &&& m.gathered(self.source, self.target, self.links@, self.count)
        } else {
            &&& self.length == 0
            &&& self.count == 0
            &&& self.links@.dom() =~= Set::<u32>::empty()
        }
    }

    /// The result is the answer to the question for the shortest walks from
    /// `self.source` to `self.target` in the graph `g`: where the target can
    /// be reached, `length` is its distance, `count` is not zero, and `links`
    /// holds exactly the links that lie on a walk of that length; where it
    /// cannot, `length` and `count` are zero and there is no link.
    pub open spec fn shortest_in(&self, g: Set<(u32, u32)>) -> bool {
        &&& links_tidy(self.links@)
        &&& connected(g, self.source, self.target) ==> {
            &&& at_distance(g, self.source, self.target, self.length as nat)
            &&& self.count >= 1
            &&& forall|u: u32, v: u32| #[trigger]
                self.links_to(u, v) <==> on_shortest_walk(
                    g,
                    self.source,
                    self.target,
                    self.length as nat,
                    u,
                    v,
                )
        }
        &&& !connected(g, self.source, self.target) ==> {
            &&& self.length == 0
            &&& self.count == 0
            &&& self.links@.dom() =~= Set::<u32>::empty()
        }
        &&& self.source == self.target ==> {
            &&& self.length == 0
            &&& self.count == 1
            &&& self.links@.dom() =~= Set::<u32>::empty()
        }
    }
}

impl Meeting {
    /// The result of a search that has stopped, for the ends that the search
    /// was between: walks back from the pages where the sides met, if they
    /// met.
    pub fn into_paths(
        self,
        source: u32,
        source_is_redirect: bool,
        target: u32,
        target_is_redirect: bool,
        language_code: String,
        date_code: String,
    ) -> (paths: Paths)
        ensures
            paths.source == source,
            paths.source_is_redirect == source_is_redirect,
            paths.target == target,
            paths.target_is_redirect == target_is_redirect,
            paths.language_code == language_code,
            paths.date_code == date_code,
            paths.made_from(self),
    {
        let found = self.pages.len() > 0;
        let (links, count) = if found {
            gather(&self, source, target)
        } else {
            (HashMap::new(), 0)
        };
        let length: u32 = if found {
            self.forward_depth.saturating_add(self.backward_depth)
        } else {
            0
        };
        Paths {
            source,
            source_is_redirect,
            target,
            target_is_redirect,
            links,
            language_code,
            date_code,
            length,
            count,
        }
    }
}

/// The result that a search of `g` gives, once it has stopped, is the answer
/// for `g`; and where the target can be reached, the count is the number of
/// chains of predecessors through the meeting pages, as far as it fits.
pub proof fn lemma_paths_of_search(g: Set<(u32, u32)>, m: Meeting, paths: Paths)
    requires
        m.is_result_of(g, paths.source, paths.target),
        paths.made_from(m),
    ensures
        paths.shortest_in(g),
        m.pages@.len() > 0 <==> connected(g, paths.source, paths.target),
        m.pages@.len() > 0 ==> paths.length == m.forward_depth + m.backward_depth && paths.count
            == saturate(
            meeting_sum(
                m.forward@,
                m.backward@,
                m.pages@,
                m.forward_depth as nat,
                m.backward_depth as nat,
            ),
        ),
{
    let source = paths.source;
    let target = paths.target;
    let links = paths.links;
    if m.pages@.len() > 0 {
        let length = paths.length;
        assert(connected(g, source, target)) by {
            assert(ball(g, source, length as nat).contains(target));
        }
        lemma_gathered(g, source, target, m, paths.links@, paths.count);
        if source == target {
            lemma_ball_grows(g, source, 0, 0);
            lemma_distance_unique(g, source, target, length as nat, 0);
            assert(m.forward_depth == 0 && m.backward_depth == 0);
            let page = m.pages@[0];
            assert(m.pages@.contains(page));
            assert(m.forward@.contains_key(page));
            assert(page == source);
            assert(m.pages@.len() == 1) by {
                if m.pages@.len() > 1 {
                    let other = m.pages@[1];
                    assert(m.pages@.contains(other));
                    assert(m.forward@.contains_key(other));
                }
            }
            assert(m.pages@.drop_last() =~= Seq::<u32>::empty());
            assert(meeting_sum(m.forward@, m.backward@, m.pages@, 0, 0) == 1) by {
                reveal_with_fuel(meeting_sum, 3);
                let rest = m.pages@.drop_last();
                assert(rest.len() == 0);
                assert(meeting_sum(m.forward@, m.backward@, rest, 0, 0) == 0);
                assert(chains(m.forward@, m.pages@.last(), 0) == 1);
                assert(chains(m.backward@, m.pages@.last(), 0) == 1);
                assert(1nat * 1nat == 1) by (nonlinear_arith);
            }
            assert(paths.count == 1);
            assert forall|u: u32| !links@.contains_key(u) by {
                if links@.contains_key(u) {
                    let v = choose|v: u32| has_link(links@, u, v);
                    assert(on_shortest_walk(g, source, target, 0, u, v));
                }
            }
        }
    } else {
        if source == target {
            lemma_ball_grows(g, source, 0, 0);
            assert(ball(g, source, 0).contains(target));
        }
    }
}

impl Database {
    /// All shortest paths from `source` to `target`, each taken through its
    /// redirect where it has one.
    pub fn get_shortest_paths(&self, source: u32, target: u32) -> (paths: Paths)
        requires
            self.wf(),
        ensures
            paths.source == self.resolved(source),
            paths.source_is_redirect == self.redirects@.contains_key(source),
            paths.target == self.resolved(target),
            paths.target_is_redirect == self.redirects@.contains_key(target),
            paths.language_code@ == self.metadata.language_code@,
            paths.date_code@ == self.metadata.date_code@,
            paths.answers(self),
    {
        let (source, source_is_redirect) = match self.redirects.get(&source) {
            Some(page) => (*page, true),
            None => (source, false),
        };
        let (target, target_is_redirect) = match self.redirects.get(&target) {
            Some(page) => (*page, true),
            None => (target, false),
        };
        let ghost g = self.graph();
        let meeting = self.search_levels(source, target);
        let ghost m = meeting;
        let paths = meeting.into_paths(
            source,
            source_is_redirect,
            target,
            target_is_redirect,
            self.metadata.language_code.clone(),
            self.metadata.date_code.clone(),
        );
        proof {
            lemma_paths_of_search(g, m, paths);
            if m.pages@.len() > 0 {
                lemma_reversed_twice(g);
                assert(lists_before(self.incoming@, g)) by {
                    assert forall|v: u32| #[trigger]
                        self.incoming@.contains_key(v) implies self.incoming@[v]@.no_duplicates() by {
                        lemma_ascending_no_duplicates(self.incoming@[v]@);
                    }
                }
                assert(lists_before(self.outgoing@, reversed(g))) by {
                    assert forall|v: u32| #[trigger]
                        self.outgoing@.contains_key(v) implies self.outgoing@[v]@.no_duplicates() by {
                        lemma_ascending_no_duplicates(self.outgoing@[v]@);
                    }
                }
                lemma_count_is_number_of_walks(
                    g,
                    self.incoming@,
                    self.outgoing@,
                    source,
                    target,
                    m.forward@,
                    m.backward@,
                    m.pages@,
                    m.forward_depth as nat,
                    m.backward_depth as nat,
                );
            }
        }
        paths
    }
}

/// Between two different pages there is a path of some length exactly when
/// the count of paths is not zero.
pub proof fn lemma_length_and_count(paths: &Paths, db: &Database)
    requires
        paths.answers(db),
        paths.source != paths.target,
    ensures
        paths.length > 0 <==> paths.count > 0,
{
    if connected(db.graph(), paths.source, paths.target) && paths.length == 0 {
        assert(ball(db.graph(), paths.source, 0).contains(paths.target));
    }
}

/// The search from a page to itself, through its redirect where it has one,
/// finds the one path without links.
pub proof fn lemma_page_to_itself(paths: &Paths, db: &Database, page: u32)
    requires
        paths.answers(db),
        paths.source == db.resolved(page),
        paths.target == db.resolved(page),
    ensures
        paths.length == 0,
        paths.count == 1,
        paths.links@.dom() == Set::<u32>::empty(),
        forall|u: u32, v: u32| !paths.links_to(u, v),
{
    assert forall|u: u32, v: u32| !paths.links_to(u, v) by {
        if paths.links_to(u, v) {
            assert(paths.links@.dom().contains(u));
        }
    }
}

/// Every link of a result is a link of the database: the page that it leads
/// to is in the outgoing list of the page that it leaves.
pub proof fn lemma_links_are_links(paths: &Paths, db: &Database, u: u32, v: u32)
    requires
        paths.answers(db),
        paths.links_to(u, v),
    ensures
        db.outgoing@.contains_key(u),
        db.outgoing@[u]@.contains(v),
{
    if !connected(db.graph(), paths.source, paths.target) {
        assert(paths.links@.dom().contains(u));
    }
    assert(db.graph().contains((u, v)));
}

/// A walk from the source to the target through links of a result has as
/// many links as the result gives for the length of the shortest paths.
pub proof fn lemma_walk_through_links(paths: &Paths, db: &Database, walk: Seq<u32>)
    requires
        paths.answers(db),
        walk.len() >= 2,
        walk[0] == paths.source,
        walk.last() == paths.target,
        forall|i: int| 0 <= i < walk.len() - 1 ==> paths.links_to(walk[i], #[trigger] walk[i + 1]),
    ensures
        walk.len() == paths.length + 1,
{
    let g = db.graph();
    assert(paths.links_to(walk[0], walk[0int + 1]));
    if !connected(g, paths.source, paths.target) {
        assert(paths.links@.dom().contains(walk[0]));
    }
    assert forall|i: int| 0 <= i < walk.len() - 1 implies on_shortest_walk(
        g,
        paths.source,
        paths.target,
        paths.length as nat,
        walk[i],
        #[trigger] walk[i + 1],
    ) by {
        assert(paths.links_to(walk[i], walk[i + 1]));
    }
    lemma_link_walk_length(g, paths.source, paths.target, paths.length as nat, walk);
}

/// A set of page ids has at most as many members as there are page ids.
pub proof fn lemma_id_set_bound(s: Set<u32>)
    requires
        s.finite(),
    ensures
        s.len() <= 0x1_0000_0000,
{
    let all = Set::<u32>::full();
    <u32 as vstd::set_lib::FiniteFull>::full_properties();
    <u32 as vstd::set_lib::FiniteRange>::range_properties(0u32, u32::MAX);
    assert(all =~= Set::<u32>::range(0u32, u32::MAX).insert(u32::MAX));
    assert(all.len() == 0x1_0000_0000);
    lemma_len_subset(s, all);
}

/// A walk through links that lie on shortest paths, from the source to the
/// target, has exactly as many links as a shortest path.
pub proof fn lemma_link_walk_length(
    g: Set<(u32, u32)>,
    s: u32,
    t: u32,
    length: nat,
    walk: Seq<u32>,
)
    requires
        at_distance(g, s, t, length),
        walk.len() >= 2,
        walk[0] == s,
        walk.last() == t,
        forall|i: int|
            0 <= i < walk.len() - 1 ==> on_shortest_walk(g, s, t, length, walk[i], #[trigger] walk[i
                + 1]),
    ensures
        walk.len() == length + 1,
{
    lemma_walk_positions(g, s, t, length, walk, (walk.len() - 2) as nat);
    let n = walk.len();
    assert(on_shortest_walk(g, s, t, length, walk[n - 2], walk[n - 2 + 1]));
    let i = choose|i: nat|
        i < length && #[trigger] at_distance(g, s, walk[n - 2], i) && at_distance(
            reversed(g),
            t,
            walk[n - 1],
            (length - 1 - i) as nat,
        );
    lemma_distance_unique(g, s, walk[n - 2], i, (n - 2) as nat);
    lemma_ball_grows(reversed(g), t, 0, (length - 1 - i) as nat);
    if length - 1 - i > 0 {
        lemma_ball_grows(reversed(g), t, 0, (length - 2 - i) as nat);
    }
}

/// On such a walk, the page at position `k` is `k` steps from the source.
proof fn lemma_walk_positions(
    g: Set<(u32, u32)>,
    s: u32,
    t: u32,
    length: nat,
    walk: Seq<u32>,
    k: nat,
)
    requires
        at_distance(g, s, t, length),
        walk.len() >= 2,
        walk[0] == s,
        k <= walk.len() - 2,
        forall|i: int|
            0 <= i < walk.len() - 1 ==> on_shortest_walk(g, s, t, length, walk[i], #[trigger] walk[i
                + 1]),
    ensures
        at_distance(g, s, walk[k as int], k),
    decreases k,
{
    if k > 0 {
        lemma_walk_positions(g, s, t, length, walk, (k - 1) as nat);
        let u = walk[k - 1];
        let v = walk[k as int];
        assert(on_shortest_walk(g, s, t, length, walk[k - 1], walk[k - 1 + 1]));
        assert(on_shortest_walk(g, s, t, length, walk[k as int], walk[k as int + 1]));
        let i = choose|i: nat|
            i < length && #[trigger] at_distance(g, s, u, i) && at_distance(
                reversed(g),
                t,
                v,
                (length - 1 - i) as nat,
            );
        lemma_distance_unique(g, s, u, i, (k - 1) as nat);
        let j = choose|j: nat|
            j < length && #[trigger] at_distance(g, s, v, j) && at_distance(
                reversed(g),
                t,
                walk[k as int + 1],
                (length - 1 - j) as nat,
            );
        lemma_ball_step(g, s, u, v, (k - 1) as nat);
        if j > k {
            lemma_ball_grows(g, s, k, (j - 1) as nat);
        }
        if j < k {
            lemma_meeting_reaches(g, s, t, v, j, (length - 1 - i) as nat);
            lemma_ball_grows(g, s, (j + length - 1 - i) as nat, (length - 1) as nat);
        }
    } else {
        lemma_ball_grows(g, s, 0, 0);
    }
}

} // verus!
