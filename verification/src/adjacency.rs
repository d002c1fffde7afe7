//! Adjacency lists at rest: strictly ascending, so that no page occurs twice
//! and two lists of the same pages are the same list.

use crate::database::strictly_ascending;
use vstd::prelude::*;

verus! {

/// `out` is `list` sorted and without duplicates: strictly ascending, and of
/// the same pages.
pub open spec fn is_sorted_unique_of(out: Seq<u32>, list: Seq<u32>) -> bool {
    &&& strictly_ascending(out)
    &&& forall|x: u32|
        #![trigger out.contains(x)]
        #![trigger list.contains(x)]
        out.contains(x) <==> list.contains(x)
}

/// A strictly ascending list is determined by the pages it holds.
pub proof fn lemma_sorted_unique_is_unique(a: Seq<u32>, b: Seq<u32>)
    requires
        strictly_ascending(a),
        strictly_ascending(b),
        forall|x: u32|
            #![trigger a.contains(x)]
            #![trigger b.contains(x)]
            a.contains(x) <==> b.contains(x),
    ensures
        a == b,
    decreases a.len(),
{
    if a.len() == 0 {
        if b.len() > 0 {
            assert(b.contains(b[0]));
        }
        assert(a =~= b);
    } else {
        assert(a.contains(a.last()));
        let j = choose|j: int| 0 <= j < b.len() && b[j] == a.last();
        assert(b.contains(b.last()));
        let i = choose|i: int| 0 <= i < a.len() && a[i] == b.last();
        assert(a.last() == b.last());
        let a0 = a.drop_last();
        let b0 = b.drop_last();
        assert forall|x: u32|
            #![trigger a0.contains(x)]
            #![trigger b0.contains(x)]
            a0.contains(x) <==> b0.contains(x) by {
            if a0.contains(x) {
                let p = choose|p: int| 0 <= p < a0.len() && a0[p] == x;
                assert(a[p] == x);
                assert(a.contains(x));
                let q = choose|q: int| 0 <= q < b.len() && b[q] == x;
                assert(x < a.last());
                assert(b0[q] == x);
            }
            if b0.contains(x) {
                let p = choose|p: int| 0 <= p < b0.len() && b0[p] == x;
                assert(b[p] == x);
                assert(b.contains(x));
                let q = choose|q: int| 0 <= q < a.len() && a[q] == x;
                assert(x < b.last());
                assert(a0[q] == x);
            }
        }
        lemma_sorted_unique_is_unique(a0, b0);
        assert(a =~= a0.push(a.last()));
        assert(b =~= b0.push(b.last()));
    }
}

/// Whether the list is strictly ascending.
pub fn is_strictly_ascending(list: &Vec<u32>) -> (ok: bool)
    ensures
        ok == strictly_ascending(list@),
{
    if list.len() < 2 {
        return true;
    }
    let mut i: usize = 1;
    while i < list.len()
        invariant
            1 <= i <= list.len(),
            forall|a: int, b: int| 0 <= a < b < i ==> list@[a] < list@[b],
        decreases list.len() - i,
    {
        if list[i - 1] >= list[i] {
            return false;
        }
        proof {
            assert forall|a: int, b: int| 0 <= a < b < i + 1 implies list@[a] < list@[b] by {
                if b == i && a < i - 1 {
                    assert(list@[a] < list@[i - 1]);
                }
            }
        }
        i = i + 1;
    }
    true
}

/// A copy of the list.
pub fn copy_list(list: &Vec<u32>) -> (out: Vec<u32>)
    ensures
        out@ == list@,
{
    let mut out: Vec<u32> = Vec::new();
    let mut i: usize = 0;
    while i < list.len()
        invariant
            i <= list.len(),
            out@ == list@.take(i as int),
        decreases list.len() - i,
    {
        out.push(list[i]);
        assert(list@.take(i + 1) =~= list@.take(i as int).push(list@[i as int]));
        i = i + 1;
    }
    assert(list@.take(list@.len() as int) =~= list@);
    out
}

/// The pages of two strictly ascending lists in one strictly ascending list.
pub fn merge_unique(a: &Vec<u32>, b: &Vec<u32>) -> (out: Vec<u32>)
    requires
        strictly_ascending(a@),
        strictly_ascending(b@),
    ensures
        is_sorted_unique_of(out@, a@ + b@),
{
    let mut out: Vec<u32> = Vec::new();
    let mut i: usize = 0;
    let mut j: usize = 0;
    while i < a.len() || j < b.len()
        invariant
            i <= a@.len(),
            j <= b@.len(),
            strictly_ascending(a@),
            strictly_ascending(b@),
            strictly_ascending(out@),
            forall|k: int| 0 <= k < out@.len() && i < a@.len() ==> #[trigger] out@[k] < a@[i as int],
            forall|k: int| 0 <= k < out@.len() && j < b@.len() ==> #[trigger] out@[k] < b@[j as int],
            forall|x: u32| #[trigger]
                out@.contains(x) <==> a@.take(i as int).contains(x) || b@.take(j as int).contains(x),
        decreases (a@.len() - i) + (b@.len() - j),
    {
        let ghost before = out@;
        let ghost old_i = i;
        let ghost old_j = j;
        let from_a = j >= b.len() || (i < a.len() && a[i] <= b[j]);
        let x: u32 = if from_a {
            a[i]
        } else {
            b[j]
        };
        if from_a {
            if j < b.len() && b[j] == x {
                j = j + 1;
            }
            i = i + 1;
        } else {
            j = j + 1;
        }
        out.push(x);
        proof {
            assert forall|p: int, q: int| 0 <= p < q < out@.len() implies out@[p] < out@[q] by {
                if q == before.len() {
                    assert(out@[p] == before[p]);
                }
            }
            assert forall|y: u32| #[trigger]
                out@.contains(y) <==> a@.take(i as int).contains(y) || b@.take(j as int).contains(
                    y,
                ) by {
                crate::frontier::lemma_push_contains(before, x, y);
                if i > old_i {
                    assert(a@.take(i as int) =~= a@.take(old_i as int).push(a@[old_i as int]));
                    crate::frontier::lemma_push_contains(a@.take(old_i as int), a@[old_i as int], y);
                }
                if j > old_j {
                    assert(b@.take(j as int) =~= b@.take(old_j as int).push(b@[old_j as int]));
                    crate::frontier::lemma_push_contains(b@.take(old_j as int), b@[old_j as int], y);
                }
            }
            assert forall|k: int| 0 <= k < out@.len() && i < a@.len() implies #[trigger] out@[k]
                < a@[i as int] by {
                if k < before.len() {
                    assert(out@[k] == before[k]);
                }
                if i > old_i {
                    assert(a@[old_i as int] < a@[i as int]);
                }
            }
            assert forall|k: int| 0 <= k < out@.len() && j < b@.len() implies #[trigger] out@[k]
                < b@[j as int] by {
                if k < before.len() {
                    assert(out@[k] == before[k]);
                }
                if j > old_j {
                    assert(b@[old_j as int] < b@[j as int]);
                }
            }
        }
    }
    proof {
        assert(a@.take(a@.len() as int) =~= a@);
        assert(b@.take(b@.len() as int) =~= b@);
        assert forall|x: u32|
            #![trigger out@.contains(x)]
            #![trigger (a@ + b@).contains(x)]
            out@.contains(x) <==> (a@ + b@).contains(x) by {
            lemma_concat_contains(a@, b@, x);
        }
    }
    out
}

/// Two lists one behind the other hold what either holds.
pub proof fn lemma_concat_contains(a: Seq<u32>, b: Seq<u32>, x: u32)
    ensures
        (a + b).contains(x) <==> a.contains(x) || b.contains(x),
{
    let both = a + b;
    if a.contains(x) {
        let i = choose|i: int| 0 <= i < a.len() && a[i] == x;
        assert(both[i] == x);
    }
    if b.contains(x) {
        let i = choose|i: int| 0 <= i < b.len() && b[i] == x;
        assert(both[a.len() + i] == x);
    }
    if both.contains(x) {
        let i = choose|i: int| 0 <= i < both.len() && both[i] == x;
        if i < a.len() {
            assert(a[i] == x);
        } else {
            assert(b[i - a.len()] == x);
        }
    }
}

/// The pages of the list from place `lo` up to place `hi`, sorted and each
/// once.
fn sorted_range(list: &Vec<u32>, lo: usize, hi: usize) -> (out: Vec<u32>)
    requires
        lo <= hi <= list@.len(),
    ensures
        is_sorted_unique_of(out@, list@.subrange(lo as int, hi as int)),
    decreases hi - lo,
{
    let ghost part = list@.subrange(lo as int, hi as int);
    if hi - lo == 0 {
        Vec::new()
    } else if hi - lo == 1 {
        let mut out: Vec<u32> = Vec::new();
        out.push(list[lo]);
        proof {
            assert(out@ =~= part);
        }
        out
    } else {
        let mid: usize = lo + (hi - lo) / 2;
        let left = sorted_range(list, lo, mid);
        let right = sorted_range(list, mid, hi);
        let out = merge_unique(&left, &right);
        proof {
            let first = list@.subrange(lo as int, mid as int);
            let second = list@.subrange(mid as int, hi as int);
            assert(part =~= first + second);
            assert forall|x: u32|
                #![trigger out@.contains(x)]
                #![trigger part.contains(x)]
                out@.contains(x) <==> part.contains(x) by {
                lemma_concat_contains(left@, right@, x);
                lemma_concat_contains(first, second, x);
            }
        }
        out
    }
}

/// The list sorted and without duplicates.
pub fn normalize(list: Vec<u32>) -> (out: Vec<u32>)
    ensures
        is_sorted_unique_of(out@, list@),
{
    proof {
        assert(list@.subrange(0, list@.len() as int) =~= list@);
    }
    sorted_range(&list, 0, list.len())
}

/// The pages of both lists, sorted and without duplicates: what a list at
/// rest becomes when more links to the same page arrive.
pub fn merge_links(existing: &Vec<u32>, fresh: &Vec<u32>) -> (out: Vec<u32>)
    ensures
        is_sorted_unique_of(out@, existing@ + fresh@),
{
    proof {
        assert(existing@.subrange(0, existing@.len() as int) =~= existing@);
        assert(fresh@.subrange(0, fresh@.len() as int) =~= fresh@);
    }
    let left = sorted_range(existing, 0, existing.len());
    let right = sorted_range(fresh, 0, fresh.len());
    let out = merge_unique(&left, &right);
    proof {
        assert forall|x: u32|
            #![trigger out@.contains(x)]
            #![trigger (existing@ + fresh@).contains(x)]
            out@.contains(x) <==> (existing@ + fresh@).contains(x) by {
            lemma_concat_contains(left@, right@, x);
            lemma_concat_contains(existing@, fresh@, x);
        }
    }
    out
}

} // verus!
