//! Uniformity, counted exactly.
//!
//! A pass over `n` elements makes one draw per element, the j-th (0-based)
//! from the range `[0, j + 1)`, so its possible draw records are the
//! `factorial(n)` admissible sequences, each equally likely under a source
//! whose draws are uniform and independent.  This module counts, for each
//! position, the records under which the pass selects it: every position is
//! selected under exactly `factorial(n - 1)` of them, so every element is
//! returned with probability `1/n`.

use vstd::prelude::*;

use vstd::relations::injective_on;
use vstd::set_lib::lemma_map_size;
use vstd::set_lib::lemma_set_disjoint_lens;

use crate::sampler::lemma_selected_index_characterization;
use crate::sampler::lemma_selected_index_prefix;
use crate::sampler::lemma_selected_index_range;
use crate::sampler::pass_draws;
use crate::sampler::pass_results;
use crate::sampler::sampled_value;
use crate::sampler::selected_index;

verus! {

/// An admissible record of the draw results of one pass over `n` elements:
/// one result per element, the j-th in `[0, j + 1)` — exactly the records
/// that `pass_draws` allows.
pub open spec fn admissible(results: Seq<int>, n: int) -> bool {
    results.len() == n && forall|j: int| 0 <= j < n ==> 0 <= #[trigger] results[j] < j + 1
}

/// All admissible records of a pass over `n` elements.
pub open spec fn admissible_records(n: int) -> Set<Seq<int>> {
    Set::new(|results: Seq<int>| admissible(results, n))
}

/// The admissible records under which a pass over `n` elements selects
/// position `k`.
pub open spec fn records_selecting(n: int, k: int) -> Set<Seq<int>> {
    Set::new(|results: Seq<int>| admissible(results, n) && selected_index(results, n) == Some(k))
}

pub open spec fn factorial(n: int) -> int
    decreases n,
{
    if n <= 0 {
        1
    } else {
        n * factorial(n - 1)
    }
}

/// The record of any actual pass is admissible.
pub proof fn lemma_pass_results_admissible<T>(items: Seq<T>, prior: Seq<(int, int)>, h: Seq<(int, int)>)
    requires
        pass_draws(items, prior, h),
    ensures
        admissible(pass_results(items, prior, h), items.len() as int),
{
    let results = pass_results(items, prior, h);
    assert forall|j: int| 0 <= j < items.len() implies 0 <= #[trigger] results[j] < j + 1 by {
        assert(0 <= h[prior.len() + j].1 < j + 1);
    }
}

/// The members of `s` each extended by one trailing value from `[lo, hi)`.
spec fn extended(s: Set<Seq<int>>, lo: int, hi: int) -> Set<Seq<int>> {
    Set::new(|r: Seq<int>| r.len() >= 1 && s.contains(r.drop_last()) && lo <= r.last() < hi)
}

/// Extending every member of a set by one fixed value keeps its size.
proof fn lemma_push_set_len(s: Set<Seq<int>>, c: int)
    requires
        s.finite(),
    ensures
        s.map(|q: Seq<int>| q.push(c)).finite(),
        s.map(|q: Seq<int>| q.push(c)).len() == s.len(),
{
    let f = |q: Seq<int>| q.push(c);
    assert(injective_on(f, s)) by {
        assert forall|q1: Seq<int>, q2: Seq<int>|
            s.contains(q1) && s.contains(q2) && #[trigger] f(q1) == #[trigger] f(q2) implies q1 == q2 by {
            assert(q1 =~= f(q1).drop_last());
            assert(q2 =~= f(q2).drop_last());
        }
    }
    lemma_map_size(s, s.map(f), f);
}

/// Extending every member of a set by one value from `[lo, hi)` multiplies
/// its size by the width of the range.
proof fn lemma_extended_len(s: Set<Seq<int>>, lo: int, hi: int)
    requires
        s.finite(),
        lo <= hi,
    ensures
        extended(s, lo, hi).finite(),
        extended(s, lo, hi).len() == s.len() * (hi - lo),
    decreases hi - lo,
{
    if lo == hi {
        assert(extended(s, lo, hi) =~= Set::<Seq<int>>::empty());
        assert(s.len() * 0 == 0) by (nonlinear_arith);
    } else {
        lemma_extended_len(s, lo, hi - 1);
        let c = hi - 1;
        let f = |q: Seq<int>| q.push(c);
        let pushed = s.map(f);
        lemma_push_set_len(s, c);
        assert forall|r: Seq<int>| #[trigger] pushed.contains(r) implies
            r.len() >= 1 && s.contains(r.drop_last()) && r.last() == c by {
            let q = choose|q: Seq<int>| s.contains(q) && r == f(q);
            assert(q.push(c).drop_last() =~= q);
        }
        assert forall|r: Seq<int>|
            r.len() >= 1 && s.contains(r.drop_last()) && r.last() == c implies #[trigger] pushed.contains(r) by {
            assert(r.drop_last().push(c) =~= r);
            assert(pushed.contains(f(r.drop_last())));
        }
        assert(extended(s, lo, hi) =~= extended(s, lo, hi - 1) + pushed);
        assert(extended(s, lo, hi - 1).disjoint(pushed));
        lemma_set_disjoint_lens(extended(s, lo, hi - 1), pushed);
        assert(s.len() * (hi - lo) == s.len() * (hi - 1 - lo) + s.len()) by (nonlinear_arith);
    }
}

/// An admissible record of a pass over `n` elements is an admissible record
/// of a pass over `n - 1`, extended by one value from `[0, n)`.
proof fn lemma_admissible_extend(n: int)
    requires
        n >= 1,
    ensures
        admissible_records(n) =~= extended(admissible_records(n - 1), 0, n),
{
    assert forall|r: Seq<int>| #[trigger] admissible_records(n).contains(r) implies
        extended(admissible_records(n - 1), 0, n).contains(r) by {
        assert(admissible(r.drop_last(), n - 1)) by {
            assert forall|j: int| 0 <= j < n - 1 implies 0 <= #[trigger] r.drop_last()[j] < j + 1 by {
                assert(r.drop_last()[j] == r[j]);
            }
        }
        assert(0 <= r.last() < n);
    }
    assert forall|r: Seq<int>| #[trigger] extended(admissible_records(n - 1), 0, n).contains(r) implies
        admissible_records(n).contains(r) by {
        assert forall|j: int| 0 <= j < n implies 0 <= #[trigger] r[j] < j + 1 by {
            if j < n - 1 {
                assert(r.drop_last()[j] == r[j]);
                assert(0 <= r.drop_last()[j] < j + 1);
            } else {
                assert(r[j] == r.last());
            }
        }
    }
}

/// A pass over `n` elements has `factorial(n)` admissible records.
pub proof fn lemma_admissible_count(n: int)
    requires
        n >= 0,
    ensures
        admissible_records(n).finite(),
        admissible_records(n).len() == factorial(n),
    decreases n,
{
    if n == 0 {
        assert forall|r: Seq<int>| #[trigger] admissible_records(0).contains(r) implies
            r == Seq::<int>::empty() by {
            assert(r =~= Seq::<int>::empty());
        }
        assert(admissible_records(0) =~= Set::<Seq<int>>::empty().insert(Seq::<int>::empty()));
    } else {
        lemma_admissible_count(n - 1);
        lemma_admissible_extend(n);
        lemma_extended_len(admissible_records(n - 1), 0, n);
        assert(factorial(n - 1) * n == n * factorial(n - 1)) by (nonlinear_arith);
    }
}

/// A record under which a pass over `n` elements selects a position before
/// the last is a record selecting it in the pass over `n - 1`, extended by
/// one nonzero value from `[1, n)`.
proof fn lemma_selecting_extend(n: int, k: int)
    requires
        0 <= k < n - 1,
    ensures
        records_selecting(n, k) =~= extended(records_selecting(n - 1, k), 1, n),
{
    assert forall|r: Seq<int>| #[trigger] records_selecting(n, k).contains(r) implies
        extended(records_selecting(n - 1, k), 1, n).contains(r) by {
        assert(r[n - 1] != 0) by {
            if r[n - 1] == 0 {
                assert(selected_index(r, n) == Some(n - 1));
            }
        }
        assert(selected_index(r, n) == selected_index(r, n - 1));
        assert(admissible(r.drop_last(), n - 1)) by {
            assert forall|j: int| 0 <= j < n - 1 implies 0 <= #[trigger] r.drop_last()[j] < j + 1 by {
                assert(r.drop_last()[j] == r[j]);
            }
        }
        lemma_selected_index_prefix(r.drop_last(), r, n - 1);
        assert(1 <= r.last() < n);
    }
    assert forall|r: Seq<int>| #[trigger] extended(records_selecting(n - 1, k), 1, n).contains(r) implies
        records_selecting(n, k).contains(r) by {
        assert(admissible(r, n)) by {
            assert forall|j: int| 0 <= j < n implies 0 <= #[trigger] r[j] < j + 1 by {
                if j < n - 1 {
                    assert(r.drop_last()[j] == r[j]);
                    assert(0 <= r.drop_last()[j] < j + 1);
                } else {
                    assert(r[j] == r.last());
                }
            }
        }
        assert(r[n - 1] == r.last());
        assert(r[n - 1] != 0);
        assert(selected_index(r, n) == selected_index(r, n - 1));
        lemma_selected_index_prefix(r.drop_last(), r, n - 1);
    }
}

/// A record under which a pass over `n` elements selects the last position is
/// any admissible record over `n - 1` elements, extended by a zero draw.
proof fn lemma_selecting_last_extend(n: int)
    requires
        n >= 1,
    ensures
        records_selecting(n, n - 1) =~= extended(admissible_records(n - 1), 0, 1),
{
    assert forall|r: Seq<int>| #[trigger] records_selecting(n, n - 1).contains(r) implies
        extended(admissible_records(n - 1), 0, 1).contains(r) by {
        assert(r[n - 1] == 0) by {
            if r[n - 1] != 0 {
                assert(selected_index(r, n) == selected_index(r, n - 1));
                lemma_selected_index_range(r, n - 1);
            }
        }
        assert(admissible(r.drop_last(), n - 1)) by {
            assert forall|j: int| 0 <= j < n - 1 implies 0 <= #[trigger] r.drop_last()[j] < j + 1 by {
                assert(r.drop_last()[j] == r[j]);
            }
        }
        assert(0 <= r.last() < 1);
    }
    assert forall|r: Seq<int>| #[trigger] extended(admissible_records(n - 1), 0, 1).contains(r) implies
        records_selecting(n, n - 1).contains(r) by {
        assert(admissible(r, n)) by {
            assert forall|j: int| 0 <= j < n implies 0 <= #[trigger] r[j] < j + 1 by {
                if j < n - 1 {
                    assert(r.drop_last()[j] == r[j]);
                    assert(0 <= r.drop_last()[j] < j + 1);
                } else {
                    assert(r[j] == r.last());
                }
            }
        }
        assert(r[n - 1] == r.last());
        assert(r[n - 1] == 0);
        assert(selected_index(r, n) == Some(n - 1));
    }
}

/// Each position of a pass over `n` elements is selected under exactly
/// `factorial(n - 1)` of the admissible records.
pub proof fn lemma_selecting_count(n: int, k: int)
    requires
        0 <= k < n,
    ensures
        records_selecting(n, k).finite(),
        records_selecting(n, k).len() == factorial(n - 1),
    decreases n,
{
    if k == n - 1 {
        lemma_admissible_count(n - 1);
        lemma_selecting_last_extend(n);
        lemma_extended_len(admissible_records(n - 1), 0, 1);
        assert(factorial(n - 1) * 1 == factorial(n - 1)) by (nonlinear_arith);
    } else {
        lemma_selecting_count(n - 1, k);
        lemma_selecting_extend(n, k);
        lemma_extended_len(records_selecting(n - 1, k), 1, n);
        assert(factorial(n - 2) * (n - 1) == factorial(n - 1)) by (nonlinear_arith)
            requires n - 1 >= 1, factorial(n - 1) == (n - 1) * factorial(n - 2);
    }
}

/// No position is ever shut out: every position of a pass is selected under
/// at least one admissible record of the pass over its input.
pub proof fn lemma_every_index_reachable<T>(items: Seq<T>, k: int)
    requires
        0 <= k < items.len(),
    ensures
        exists|results: Seq<int>|
            admissible(results, items.len() as int)
            && sampled_value(items, results) == Some(items[k]),
{
    let results = Seq::new(items.len(), |j: int| if j <= k { 0int } else { 1int });
    lemma_selected_index_characterization(results, items.len() as int, k);
    assert(admissible(results, items.len() as int)
        && sampled_value(items, results) == Some(items[k]));
}

/// Uniformity: a pass over `n` elements has `factorial(n)` equally likely
/// admissible draw records, and every position is selected under the same
/// number of them, `factorial(n - 1)` — each element is returned with
/// probability `1/n`.
pub proof fn lemma_uniform_selection(n: int, k1: int, k2: int)
    requires
        0 <= k1 < n,
        0 <= k2 < n,
    ensures
        admissible_records(n).finite(),
        admissible_records(n).len() == factorial(n),
        records_selecting(n, k1).finite(),
        records_selecting(n, k1).len() == factorial(n - 1),
        records_selecting(n, k1).len() == records_selecting(n, k2).len(),
{
    lemma_admissible_count(n);
    lemma_selecting_count(n, k1);
    lemma_selecting_count(n, k2);
}

} // verus!
