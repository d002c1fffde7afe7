//! Sums over lists of pages, and the rules for rearranging them.

use vstd::prelude::*;

verus! {

/// The sum of `f` over the pages of `list`.
pub open spec fn sum(list: Seq<u32>, f: spec_fn(u32) -> nat) -> nat
    decreases list.len(),
{
    if list.len() == 0 {
        0
    } else {
        sum(list.drop_last(), f) + f(list.last())
    }
}

/// Every page, once: the page `i` at place `i`.
pub open spec fn all_pages() -> Seq<u32> {
    Seq::new(0x1_0000_0000, |i: int| i as u32)
}

/// The list of every page holds every page, and none twice.
pub proof fn lemma_all_pages()
    ensures
        all_pages().no_duplicates(),
        forall|x: u32| #[trigger] all_pages().contains(x),
{
    assert forall|x: u32| #[trigger] all_pages().contains(x) by {
        assert(all_pages()[x as int] == x);
    }
}

/// Sums of functions that agree on the list are equal.
pub proof fn lemma_sum_ext(list: Seq<u32>, f: spec_fn(u32) -> nat, g: spec_fn(u32) -> nat)
    requires
        forall|i: int| 0 <= i < list.len() ==> f(#[trigger] list[i]) == g(list[i]),
    ensures
        sum(list, f) == sum(list, g),
    decreases list.len(),
{
    if list.len() > 0 {
        assert forall|i: int| 0 <= i < list.drop_last().len() implies f(
            #[trigger] list.drop_last()[i],
        ) == g(list.drop_last()[i]) by {
            assert(list.drop_last()[i] == list[i]);
        }
        lemma_sum_ext(list.drop_last(), f, g);
        assert(f(list[list.len() - 1]) == g(list[list.len() - 1]));
    }
}

/// A sum of zeros is zero.
pub proof fn lemma_sum_zero(list: Seq<u32>, f: spec_fn(u32) -> nat)
    requires
        forall|i: int| 0 <= i < list.len() ==> f(#[trigger] list[i]) == 0,
    ensures
        sum(list, f) == 0,
    decreases list.len(),
{
    if list.len() > 0 {
        assert forall|i: int| 0 <= i < list.drop_last().len() implies f(
            #[trigger] list.drop_last()[i],
        ) == 0 by {
            assert(list.drop_last()[i] == list[i]);
        }
        lemma_sum_zero(list.drop_last(), f);
        assert(f(list[list.len() - 1]) == 0);
    }
}

/// A sum that is not zero has a term that is not zero.
pub proof fn lemma_sum_positive(list: Seq<u32>, f: spec_fn(u32) -> nat) -> (i: int)
    requires
        sum(list, f) > 0,
    ensures
        0 <= i < list.len(),
        f(list[i]) > 0,
    decreases list.len(),
{
    if f(list.last()) > 0 {
        list.len() - 1
    } else {
        let i = lemma_sum_positive(list.drop_last(), f);
        assert(list.drop_last()[i] == list[i]);
        i
    }
}

/// Taking a page out of the list takes its term out of the sum.
pub proof fn lemma_sum_remove(list: Seq<u32>, f: spec_fn(u32) -> nat, i: int)
    requires
        0 <= i < list.len(),
    ensures
        sum(list, f) == sum(list.remove(i), f) + f(list[i]),
    decreases list.len(),
{
    if i == list.len() - 1 {
        assert(list.remove(i) =~= list.drop_last());
    } else {
        lemma_sum_remove(list.drop_last(), f, i);
        assert(list.remove(i).drop_last() =~= list.drop_last().remove(i));
        assert(list.remove(i).last() == list.last());
        assert(list.drop_last()[i] == list[i]);
    }
}

/// The sum over a list is the sum over a longer list, where the longer list
/// holds the pages of the shorter, neither holds a page twice, and the terms
/// of the pages that only the longer list holds are zero.
pub proof fn lemma_sum_subset(part: Seq<u32>, whole: Seq<u32>, f: spec_fn(u32) -> nat)
    requires
        part.no_duplicates(),
        whole.no_duplicates(),
        forall|i: int| 0 <= i < part.len() ==> whole.contains(#[trigger] part[i]),
        forall|i: int|
            0 <= i < whole.len() && !part.contains(#[trigger] whole[i]) ==> f(whole[i]) == 0,
    ensures
        sum(part, f) == sum(whole, f),
    decreases whole.len(),
{
    if whole.len() == 0 {
        if part.len() > 0 {
            assert(whole.contains(part[0]));
        }
    } else {
        let x = whole.last();
        let rest = whole.drop_last();
        assert forall|i: int| 0 <= i < rest.len() implies rest[i] != x by {
            assert(whole[i] != whole[whole.len() - 1]);
        }
        if part.contains(x) {
            let at = choose|at: int| 0 <= at < part.len() && part[at] == x;
            let smaller = part.remove(at);
            lemma_sum_remove(part, f, at);
            assert(smaller.no_duplicates()) by {
                assert forall|i: int, j: int|
                    0 <= i < smaller.len() && 0 <= j < smaller.len() && i != j implies smaller[i]
                    != smaller[j] by {
                    let pi = if i < at {
                        i
                    } else {
                        i + 1
                    };
                    let pj = if j < at {
                        j
                    } else {
                        j + 1
                    };
                    assert(smaller[i] == part[pi] && smaller[j] == part[pj]);
                }
            }
            assert forall|i: int| 0 <= i < smaller.len() implies rest.contains(
                #[trigger] smaller[i],
            ) by {
                let pi = if i < at {
                    i
                } else {
                    i + 1
                };
                assert(smaller[i] == part[pi]);
                assert(whole.contains(part[pi]));
                let w = choose|w: int| 0 <= w < whole.len() && whole[w] == part[pi];
                assert(part[pi] != part[at]);
                assert(rest[w] == part[pi]);
            }
            assert forall|i: int|
                0 <= i < rest.len() && !smaller.contains(#[trigger] rest[i]) implies f(rest[i])
                == 0 by {
                assert(whole[i] == rest[i]);
                if part.contains(rest[i]) {
                    let p = choose|p: int| 0 <= p < part.len() && part[p] == rest[i];
                    assert(p != at);
                    let q = if p < at {
                        p
                    } else {
                        p - 1
                    };
                    assert(smaller[q] == rest[i]);
                }
            }
            lemma_sum_subset(smaller, rest, f);
        } else {
            assert forall|i: int| 0 <= i < part.len() implies rest.contains(#[trigger] part[i]) by {
                assert(whole.contains(part[i]));
                let w = choose|w: int| 0 <= w < whole.len() && whole[w] == part[i];
                assert(part.contains(part[i]));
                assert(rest[w] == part[i]);
            }
            assert forall|i: int|
                0 <= i < rest.len() && !part.contains(#[trigger] rest[i]) implies f(rest[i])
                == 0 by {
                assert(whole[i] == rest[i]);
            }
            lemma_sum_subset(part, rest, f);
            assert(f(whole[whole.len() - 1]) == 0);
        }
    }
}

/// The sum of sums is the sum of the sums of the terms.
pub proof fn lemma_sum_add(
    list: Seq<u32>,
    f: spec_fn(u32) -> nat,
    g: spec_fn(u32) -> nat,
    both: spec_fn(u32) -> nat,
)
    requires
        forall|i: int| 0 <= i < list.len() ==> both(#[trigger] list[i]) == f(list[i]) + g(list[i]),
    ensures
        sum(list, both) == sum(list, f) + sum(list, g),
    decreases list.len(),
{
    if list.len() > 0 {
        assert forall|i: int| 0 <= i < list.drop_last().len() implies both(
            #[trigger] list.drop_last()[i],
        ) == f(list.drop_last()[i]) + g(list.drop_last()[i]) by {
            assert(list.drop_last()[i] == list[i]);
        }
        lemma_sum_add(list.drop_last(), f, g, both);
        assert(both(list[list.len() - 1]) == f(list[list.len() - 1]) + g(list[list.len() - 1]));
    }
}

/// A factor that all terms share can be taken out of the sum.
pub proof fn lemma_sum_scale(
    list: Seq<u32>,
    f: spec_fn(u32) -> nat,
    factor: nat,
    scaled: spec_fn(u32) -> nat,
)
    requires
        forall|i: int| 0 <= i < list.len() ==> scaled(#[trigger] list[i]) == factor * f(list[i]),
    ensures
        sum(list, scaled) == factor * sum(list, f),
    decreases list.len(),
{
    if list.len() > 0 {
        assert forall|i: int| 0 <= i < list.drop_last().len() implies scaled(
            #[trigger] list.drop_last()[i],
        ) == factor * f(list.drop_last()[i]) by {
            assert(list.drop_last()[i] == list[i]);
        }
        lemma_sum_scale(list.drop_last(), f, factor, scaled);
        let last = list[list.len() - 1];
        assert(scaled(last) == factor * f(last));
        let before = sum(list.drop_last(), f);
        assert(factor * (before + f(last)) == factor * before + factor * f(last))
            by (nonlinear_arith);
    } else {
        assert(factor * 0 == 0) by (nonlinear_arith);
    }
}

/// The sum over one list of the sums over another is the sum over the other
/// of the sums over the one.
pub proof fn lemma_sum_swap(
    rows: Seq<u32>,
    columns: Seq<u32>,
    h: spec_fn(u32, u32) -> nat,
    by_row: spec_fn(u32) -> nat,
    by_column: spec_fn(u32) -> nat,
)
    requires
        forall|i: int|
            0 <= i < rows.len() ==> by_row(#[trigger] rows[i]) == sum(
                columns,
                |y: u32| h(rows[i], y),
            ),
        forall|j: int|
            0 <= j < columns.len() ==> by_column(#[trigger] columns[j]) == sum(
                rows,
                |x: u32| h(x, columns[j]),
            ),
    ensures
        sum(rows, by_row) == sum(columns, by_column),
    decreases rows.len(),
{
    if rows.len() == 0 {
        assert forall|j: int| 0 <= j < columns.len() implies by_column(#[trigger] columns[j])
            == 0 by {}
        lemma_sum_zero(columns, by_column);
    } else {
        let first_rows = rows.drop_last();
        let last = rows.last();
        let inner = |y: u32| sum(first_rows, |x: u32| h(x, y));
        let edge = |y: u32| h(last, y);
        assert forall|i: int| 0 <= i < first_rows.len() implies by_row(#[trigger] first_rows[i])
            == sum(columns, |y: u32| h(first_rows[i], y)) by {
            assert(first_rows[i] == rows[i]);
        }
        assert forall|j: int| 0 <= j < columns.len() implies inner(#[trigger] columns[j]) == sum(
            first_rows,
            |x: u32| h(x, columns[j]),
        ) by {}
        lemma_sum_swap(first_rows, columns, h, by_row, inner);
        assert forall|j: int| 0 <= j < columns.len() implies by_column(#[trigger] columns[j])
            == inner(columns[j]) + edge(columns[j]) by {
            let column = columns[j];
            let down = |x: u32| h(x, column);
            assert(sum(rows, down) == sum(first_rows, down) + down(last));
        }
        lemma_sum_add(columns, inner, edge, by_column);
        assert(by_row(rows[rows.len() - 1]) == sum(columns, |y: u32| h(rows[rows.len() - 1], y)));
        lemma_sum_ext(columns, |y: u32| h(rows[rows.len() - 1], y), edge);
    }
}

/// A sum whose only term that is not zero is the term of `t` is that term,
/// where the list holds `t` once.
pub proof fn lemma_sum_single(list: Seq<u32>, f: spec_fn(u32) -> nat, t: u32)
    requires
        list.no_duplicates(),
        list.contains(t),
        forall|i: int| 0 <= i < list.len() && list[i] != t ==> f(#[trigger] list[i]) == 0,
    ensures
        sum(list, f) == f(t),
{
    let one = seq![t];
    assert(one.drop_last() =~= Seq::<u32>::empty());
    assert(sum(one, f) == f(t)) by {
        assert(sum(one.drop_last(), f) == 0);
        assert(one.last() == t);
    }
    assert forall|i: int| 0 <= i < list.len() && !one.contains(#[trigger] list[i]) implies f(
        list[i],
    ) == 0 by {
        if list[i] == t {
            assert(one[0] == t);
        }
    }
    lemma_sum_subset(one, list, f);
}

} // verus!
