//! Flattening redirects: every chain of redirects becomes a single hop, and
//! redirects that lead round in a circle are dropped.

use std::collections::HashMap;
use vstd::arithmetic::div_mod::{lemma_fundamental_div_mod, lemma_fundamental_div_mod_converse};
use vstd::prelude::*;
use vstd::std_specs::hash::*;
use vstd::std_specs::iter::IteratorSpec;

verus! {

broadcast use vstd::std_specs::hash::group_hash_axioms;

/// The page that `p` redirects to, or `p` itself where it does not redirect.
pub open spec fn next_page(r: Map<u32, u32>, p: u32) -> u32 {
    if r.contains_key(p) {
        r[p]
    } else {
        p
    }
}

/// The page reached from `s` by following redirects `k` times.
pub open spec fn follow(r: Map<u32, u32>, s: u32, k: nat) -> u32
    decreases k,
{
    if k == 0 {
        s
    } else {
        next_page(r, follow(r, s, (k - 1) as nat))
    }
}

/// `s` redirects, and following redirects from `s` leads back to `s`.
pub open spec fn on_cycle(r: Map<u32, u32>, s: u32) -> bool {
    r.contains_key(s) && exists|n: nat| n >= 1 && #[trigger] follow(r, s, n) == s
}

/// `t` is where the redirects from `s` end: some number of hops leads from
/// `s` to `t` and, taken from `t`, back to `t`. So `t` is the page that does
/// not redirect at the end of the chain of `s`, or, where the chain runs into
/// a circle, the page of the circle that the chain is at after a number of
/// hops that is a multiple of the circle's length.
pub open spec fn resolves_to(r: Map<u32, u32>, s: u32, t: u32) -> bool {
    exists|n: nat| n >= 1 && #[trigger] follow(r, s, n) == t && follow(r, t, n) == t
}

/// No redirect leads to a page that redirects.
pub open spec fn flat(r: Map<u32, u32>) -> bool {
    forall|s: u32| #[trigger] r.contains_key(s) ==> !r.contains_key(r[s])
}

/// `clean` is `r` flattened: it holds the pages of `r` that are not on a
/// circle, each with the page where its redirects end.
pub open spec fn is_cleanup_of(clean: Map<u32, u32>, r: Map<u32, u32>) -> bool {
    &&& forall|s: u32| #[trigger] clean.contains_key(s) <==> r.contains_key(s) && !on_cycle(r, s)
    &&& forall|s: u32| #[trigger] clean.contains_key(s) ==> resolves_to(r, s, clean[s])
}

/// Following `a` hops and then `b` hops is following `a + b` hops.
pub proof fn lemma_follow_add(r: Map<u32, u32>, s: u32, a: nat, b: nat)
    ensures
        follow(r, s, a + b) == follow(r, follow(r, s, a), b),
    decreases b,
{
    if b > 0 {
        lemma_follow_add(r, s, a, (b - 1) as nat);
        assert(follow(r, s, a + b) == next_page(r, follow(r, s, (a + b - 1) as nat)));
    }
}

/// A page that does not redirect is where following stays.
pub proof fn lemma_follow_stays(r: Map<u32, u32>, p: u32, n: nat)
    requires
        !r.contains_key(p),
    ensures
        follow(r, p, n) == p,
    decreases n,
{
    if n > 0 {
        lemma_follow_stays(r, p, (n - 1) as nat);
    }
}

/// What comes back after `n` hops comes back after any multiple of `n` hops.
pub proof fn lemma_follow_period(r: Map<u32, u32>, p: u32, n: nat, times: nat)
    requires
        follow(r, p, n) == p,
    ensures
        follow(r, p, n * times) == p,
    decreases times,
{
    if times == 0 {
        assert(n * times == 0) by (nonlinear_arith)
            requires
                times == 0,
        ;
    } else {
        lemma_follow_period(r, p, n, (times - 1) as nat);
        assert(n * times == n * (times - 1) + n) by (nonlinear_arith)
            requires
                times >= 1,
        ;
        lemma_follow_add(r, p, n * (times - 1) as nat, n);
    }
}

/// A chain of redirects: each page of `walk` redirects to the next.
pub open spec fn is_chain(r: Map<u32, u32>, walk: Seq<u32>) -> bool {
    &&& walk.len() >= 1
    &&& walk.no_duplicates()
    &&& forall|i: int| 0 <= i < walk.len() ==> r.contains_key(#[trigger] walk[i])
    &&& forall|i: int| 0 <= i < walk.len() - 1 ==> r[#[trigger] walk[i]] == walk[i + 1]
}

/// Following a chain from its first page gives its pages in turn.
pub proof fn lemma_follow_chain(r: Map<u32, u32>, walk: Seq<u32>, m: nat)
    requires
        is_chain(r, walk),
        m < walk.len(),
    ensures
        follow(r, walk[0], m) == walk[m as int],
    decreases m,
{
    if m > 0 {
        lemma_follow_chain(r, walk, (m - 1) as nat);
        assert(r[walk[m - 1]] == walk[m - 1 + 1]);
    }
}

/// Where the last page of a chain redirects to the page at `back`, following
/// from the first page stays on the circle from `back` on: after `m` hops it
/// is at the page `(m - back) % length` behind `back`.
pub proof fn lemma_follow_circle(r: Map<u32, u32>, walk: Seq<u32>, back: nat, m: nat)
    requires
        is_chain(r, walk),
        back < walk.len(),
        r[walk.last()] == walk[back as int],
        m >= back,
    ensures
        follow(r, walk[0], m) == walk[back + (m - back) % (walk.len() - back)],
    decreases m,
{
    let c = walk.len() - back;
    if m == back {
        lemma_follow_chain(r, walk, m);
        lemma_fundamental_div_mod_converse(0, c, 0, 0);
    } else {
        lemma_follow_circle(r, walk, back, (m - 1) as nat);
        let x = m - 1 - back;
        let q = x / c;
        let rem = x % c;
        lemma_fundamental_div_mod(x, c);
        assert(0 <= rem < c);
        if rem + 1 < c {
            assert(x + 1 == q * c + (rem + 1)) by (nonlinear_arith)
                requires
                    x == c * q + rem,
            ;
            lemma_fundamental_div_mod_converse(x + 1, c, q, rem + 1);
            assert(r[walk[back + rem]] == walk[back + rem + 1]);
        } else {
            assert(x + 1 == (q + 1) * c + 0) by (nonlinear_arith)
                requires
                    x == c * q + rem,
                    rem + 1 == c,
            ;
            lemma_fundamental_div_mod_converse(x + 1, c, q + 1, 0);
            assert(walk[back + rem] == walk.last());
        }
    }
}

/// The place of `x` in `list`, where it has one.
pub fn index_of(list: &Vec<u32>, x: u32) -> (place: Option<usize>)
    ensures
        place matches Some(i) ==> i < list@.len() && list@[i as int] == x,
        place is None ==> !list@.contains(x),
{
    let mut i: usize = 0;
    while i < list.len()
        invariant
            i <= list.len(),
            forall|j: int| 0 <= j < i ==> list@[j] != x,
        decreases list.len() - i,
    {
        if list[i] == x {
            return Some(i);
        }
        i = i + 1;
    }
    None
}

/// The keys of `map`, each once, in the order in which the map hands them out.
pub fn keys_of<V>(map: &HashMap<u32, V>) -> (keys: Vec<u32>)
    ensures
        keys@.no_duplicates(),
        forall|k: u32| #[trigger] keys@.contains(k) <==> map@.contains_key(k),
        keys@.len() == map@.dom().len(),
{
    let mut keys: Vec<u32> = Vec::new();
    let ghost all = spec_keys_iter(map).remaining();
    proof {
        axiom_spec_keys_iter(map);
    }
    for key in it: map.keys()
        invariant
            it.seq() == all,
            keys@.len() == it.index(),
            forall|i: int| 0 <= i < keys@.len() ==> keys@[i] == *(#[trigger] all[i]),
    {
        keys.push(*key);
    }
    proof {
        assert(keys@.len() == all.len());
        assert(keys@ =~= all.unref());
        assert forall|i: int, j: int|
            0 <= i < keys@.len() && 0 <= j < keys@.len() && i != j implies keys@[i] != keys@[j] by {
            assert(all[i] != all[j]);
        }
        assert forall|k: u32| #[trigger] keys@.contains(k) <==> map@.contains_key(k) by {
            assert(all.unref().to_set().contains(k) <==> map@.dom().contains(k));
        }
    }
    keys
}

/// A chain of redirects is no longer than the table.
proof fn lemma_chain_fits(r: Map<u32, u32>, walk: Seq<u32>)
    requires
        is_chain(r, walk),
        r.dom().finite(),
    ensures
        walk.len() <= r.dom().len(),
{
    walk.unique_seq_to_set();
    assert(walk.to_set().subset_of(r.dom())) by {
        assert forall|x: u32| walk.to_set().contains(x) implies r.dom().contains(x) by {
            let i = choose|i: int| 0 <= i < walk.len() && walk[i] == x;
            assert(r.contains_key(walk[i]));
        }
    }
    vstd::set_lib::lemma_len_subset(walk.to_set(), r.dom());
}

/// Where the redirects from the page `s` of `redirs` end; nowhere, where
/// they lead back to `s`.
pub fn resolve(redirs: &HashMap<u32, u32>, s: u32) -> (end: Option<u32>)
    requires
        redirs@.contains_key(s),
    ensures
        end is None <==> on_cycle(redirs@, s),
        end matches Some(t) ==> resolves_to(redirs@, s, t),
{
    let ghost r = redirs@;
    let mut walk: Vec<u32> = Vec::new();
    walk.push(s);
    let mut cur: u32 = s;
    loop
        invariant
            r == redirs@,
            is_chain(r, walk@),
            walk@[0] == s,
            cur == walk@.last(),
        decreases r.dom().len() - walk@.len(),
    {
        proof {
            lemma_chain_fits(r, walk@);
        }
        let next: u32 = match redirs.get(&cur) {
            Some(page) => *page,
            None => cur,
        };
        let ghost k = (walk@.len() - 1) as nat;
        proof {
            lemma_follow_chain(r, walk@, k);
            assert(follow(r, s, k + 1) == next);
        }
        if !redirs.contains_key(&next) {
            proof {
                lemma_follow_stays(r, next, k + 1);
                if on_cycle(r, s) {
                    let n = choose|n: nat| n >= 1 && #[trigger] follow(r, s, n) == s;
                    lemma_follow_period(r, s, n, k + 1);
                    assert(n * (k + 1) >= k + 1) by (nonlinear_arith)
                        requires
                            n >= 1,
                    ;
                    let more = (n * (k + 1) - (k + 1)) as nat;
                    lemma_follow_add(r, s, k + 1, more);
                    lemma_follow_stays(r, next, more);
                }
            }
            return Some(next);
        }
        match index_of(&walk, next) {
            Some(back) => {
                if back == 0 {
                    return None;
                }
                let length: usize = walk.len() - back;
                let rounds: usize = (back + length - 1) / length;
                proof {
                    lemma_fundamental_div_mod((back + length - 1) as int, length as int);
                    assert(rounds * length <= back + length - 1) by (nonlinear_arith)
                        requires
                            back + length - 1 == length * rounds + (back + length - 1) % (
                            length as int),
                            0 <= (back + length - 1) % (length as int),
                    ;
                    assert(rounds * length >= back) by (nonlinear_arith)
                        requires
                            back + length - 1 == length * rounds + (back + length - 1) % (
                            length as int),
                            (back + length - 1) % (length as int) < length,
                    ;
                }
                let hops: usize = rounds * length;
                let end: u32 = walk[hops];
                proof {
                    let c = length as nat;
                    let n = hops as nat;
                    lemma_follow_chain(r, walk@, n);
                    // The page at `hops` comes back after the circle's length.
                    lemma_follow_add(r, s, n, c);
                    lemma_follow_circle(r, walk@, back as nat, n + c);
                    lemma_fundamental_div_mod_converse(n + c - back, c as int, 1, n - back);
                    assert(follow(r, end, c) == end);
                    lemma_follow_period(r, end, c, rounds as nat);
                    assert(c * rounds == n) by (nonlinear_arith)
                        requires
                            n == rounds * length,
                            c == length,
                    ;
                    assert(follow(r, end, n) == end);
                    // `s` is before the circle, so nothing leads back to it.
                    if on_cycle(r, s) {
                        let p = choose|p: nat| p >= 1 && #[trigger] follow(r, s, p) == s;
                        lemma_follow_period(r, s, p, back as nat);
                        assert(p * back >= back) by (nonlinear_arith)
                            requires
                                p >= 1,
                        ;
                        lemma_follow_circle(r, walk@, back as nat, p * back as nat);
                        let at = back + (p * back - back) % (c as int);
                        assert(walk@[at] == walk@[0]);
                    }
                }
                return Some(end);
            },
            None => {
                proof {
                    assert(walk@.push(next).no_duplicates());
                    assert(is_chain(r, walk@.push(next))) by {
                        let longer = walk@.push(next);
                        assert forall|i: int| 0 <= i < longer.len() - 1 implies r[#[trigger] longer[i]]
                            == longer[i + 1] by {
                            if i < walk@.len() - 1 {
                                assert(r[walk@[i]] == walk@[i + 1]);
                            }
                        }
                        assert forall|i: int| 0 <= i < longer.len() implies r.contains_key(
                            #[trigger] longer[i],
                        ) by {
                            if i < walk@.len() {
                                assert(r.contains_key(walk@[i]));
                            }
                        }
                    }
                    lemma_chain_fits(r, walk@.push(next));
                }
                walk.push(next);
                cur = next;
            },
        }
    }
}

/// The redirects end at one page only.
pub proof fn lemma_resolution_unique(r: Map<u32, u32>, s: u32, t: u32, u: u32)
    requires
        resolves_to(r, s, t),
        resolves_to(r, s, u),
    ensures
        t == u,
{
    let n = choose|n: nat| n >= 1 && #[trigger] follow(r, s, n) == t && follow(r, t, n) == t;
    let m = choose|m: nat| m >= 1 && #[trigger] follow(r, s, m) == u && follow(r, u, m) == u;
    // `n * m` hops from `s` are `n` hops to `t` and a multiple of `n` more,
    // and `m` hops to `u` and a multiple of `m` more.
    let rest_t = n * (m - 1) as nat;
    let rest_u = m * (n - 1) as nat;
    lemma_follow_period(r, t, n, (m - 1) as nat);
    lemma_follow_period(r, u, m, (n - 1) as nat);
    lemma_follow_add(r, s, n, rest_t);
    lemma_follow_add(r, s, m, rest_u);
    assert(n + n * (m - 1) == n * m && m + m * (n - 1) == n * m) by (nonlinear_arith);
}

/// A flattened table is flat: no redirect leads to a page that redirects, so
/// every chain of redirects has one hop.
pub proof fn lemma_cleanup_is_flat(clean: Map<u32, u32>, r: Map<u32, u32>)
    requires
        is_cleanup_of(clean, r),
    ensures
        flat(clean),
{
    assert forall|s: u32| #[trigger] clean.contains_key(s) implies !clean.contains_key(clean[s]) by {
        let t = clean[s];
        let n = choose|n: nat| n >= 1 && #[trigger] follow(r, s, n) == t && follow(r, t, n) == t;
        if r.contains_key(t) {
            assert(on_cycle(r, t));
        }
    }
}

/// Every page on a circle of redirects is dropped, whatever the length of the
/// circle; a page that redirects to itself is on a circle of one.
pub proof fn lemma_cycles_collapse(clean: Map<u32, u32>, r: Map<u32, u32>, s: u32, length: nat)
    requires
        is_cleanup_of(clean, r),
        r.contains_key(s),
        length >= 1,
        follow(r, s, length) == s,
    ensures
        !clean.contains_key(s),
{
}

/// In a flat table every redirect ends after its one hop.
pub proof fn lemma_flat_follow(r: Map<u32, u32>, s: u32, n: nat)
    requires
        flat(r),
        r.contains_key(s),
        n >= 1,
    ensures
        follow(r, s, n) == r[s],
    decreases n,
{
    if n > 1 {
        lemma_flat_follow(r, s, (n - 1) as nat);
    } else {
        assert(follow(r, s, 0) == s);
    }
}

/// Flattening what is flat changes nothing; so flattening twice gives what
/// flattening once gives.
pub proof fn lemma_cleanup_idempotent(twice: Map<u32, u32>, once: Map<u32, u32>, r: Map<u32, u32>)
    requires
        is_cleanup_of(once, r),
        is_cleanup_of(twice, once),
    ensures
        twice == once,
{
    lemma_cleanup_is_flat(once, r);
    assert forall|s: u32| once.contains_key(s) implies !on_cycle(once, s) by {
        if on_cycle(once, s) {
            let n = choose|n: nat| n >= 1 && #[trigger] follow(once, s, n) == s;
            lemma_flat_follow(once, s, n);
        }
    }
    assert forall|s: u32| twice.contains_key(s) implies twice[s] == once[s] by {
        let t = twice[s];
        let n = choose|n: nat|
            n >= 1 && #[trigger] follow(once, s, n) == t && follow(once, t, n) == t;
        lemma_flat_follow(once, s, n);
    }
    assert(twice =~= once);
}

/// Flattens the redirects: each page that is not on a circle of redirects is
/// kept, with the page where its redirects end; each page on a circle is
/// dropped.
pub fn cleanup_redirects(redirs: HashMap<u32, u32>) -> (clean: HashMap<u32, u32>)
    ensures
        is_cleanup_of(clean@, redirs@),
        flat(clean@),
{
    let keys = keys_of(&redirs);
    let mut clean: HashMap<u32, u32> = HashMap::new();
    let mut i: usize = 0;
    while i < keys.len()
        invariant
            i <= keys.len(),
            keys@.no_duplicates(),
            forall|k: u32| #[trigger] keys@.contains(k) <==> redirs@.contains_key(k),
            forall|s: u32| #[trigger]
                clean@.contains_key(s) <==> (exists|j: int| 0 <= j < i && keys@[j] == s)
                    && !on_cycle(redirs@, s),
            forall|s: u32| #[trigger]
                clean@.contains_key(s) ==> resolves_to(redirs@, s, clean@[s]),
        decreases keys.len() - i,
    {
        let s: u32 = keys[i];
        assert(keys@.contains(s));
        match resolve(&redirs, s) {
            Some(t) => {
                clean.insert(s, t);
            },
            None => {},
        }
        proof {
            assert forall|x: u32| #[trigger]
                clean@.contains_key(x) <==> (exists|j: int| 0 <= j < i + 1 && keys@[j] == x)
                    && !on_cycle(redirs@, x) by {
                if x == s {
                    assert(keys@[i as int] == x);
                }
                if exists|j: int| 0 <= j < i + 1 && keys@[j] == x {
                    let j = choose|j: int| 0 <= j < i + 1 && keys@[j] == x;
                    if j < i {
                        assert(0 <= j < i && keys@[j] == x);
                    }
                }
                if exists|j: int| 0 <= j < i && keys@[j] == x {
                    let j = choose|j: int| 0 <= j < i && keys@[j] == x;
                    assert(0 <= j < i + 1 && keys@[j] == x);
                }
            }
        }
        i = i + 1;
    }
    proof {
        assert forall|s: u32| #[trigger]
            clean@.contains_key(s) <==> redirs@.contains_key(s) && !on_cycle(redirs@, s) by {
            if redirs@.contains_key(s) {
                assert(keys@.contains(s));
                let j = choose|j: int| 0 <= j < keys@.len() && keys@[j] == s;
                assert(0 <= j < i && keys@[j] == s);
            }
            if clean@.contains_key(s) {
                let j = choose|j: int| 0 <= j < i && keys@[j] == s;
                assert(keys@.contains(keys@[j]));
            }
        }
        lemma_cleanup_is_flat(clean@, redirs@);
    }
    clean
}

} // verus!
