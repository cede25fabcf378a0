//! The single-pass sampling algorithm and its contracts.

use vstd::prelude::*;

use crate::source::RandomSource;

verus! {

/// The position that a pass selects after the first `n` draws: the last index
/// `i < n` whose draw came out zero, if there is one.
pub open spec fn selected_index(results: Seq<int>, n: int) -> Option<int>
    decreases n,
{
    if n <= 0 {
        None
    } else if results[n - 1] == 0 {
        Some(n - 1)
    } else {
        selected_index(results, n - 1)
    }
}

/// What one full pass over `items` returns when the i-th element's draw came
/// out `results[i]`: the element at the last position whose draw was zero,
/// absent when there was none.
pub open spec fn sampled_value<T>(items: Seq<T>, results: Seq<int>) -> Option<T> {
    match selected_index(results, items.len() as int) {
        Some(i) => Some(items[i]),
        None => None,
    }
}

/// How one pass over `items` extends a source's history from `prior` to `h`:
/// one draw per element, in element order, the draw for the i-th element
/// (0-based) made with bound `i + 1` and answered with a value below it.
pub open spec fn pass_draws<T>(items: Seq<T>, prior: Seq<(int, int)>, h: Seq<(int, int)>) -> bool {
    &&& h.len() == prior.len() + items.len()
    &&& h.take(prior.len() as int) == prior
    &&& forall|j: int| prior.len() <= j < h.len() ==> (#[trigger] h[j]).0 == j - prior.len() + 1
    &&& forall|j: int| prior.len() <= j < h.len() ==> 0 <= (#[trigger] h[j]).1 < j - prior.len() + 1
}

/// The results of the draws that a pass over `items` appended to a history
/// that began as `prior`, in element order.
pub open spec fn pass_results<T>(items: Seq<T>, prior: Seq<(int, int)>, h: Seq<(int, int)>) -> Seq<int> {
    Seq::new(items.len(), |i: int| h[prior.len() + i].1)
}

/// `selected_index` reads only the first `n` results.
pub proof fn lemma_selected_index_prefix(a: Seq<int>, b: Seq<int>, n: int)
    requires
        forall|j: int| 0 <= j < n ==> a[j] == b[j],
    ensures
        selected_index(a, n) == selected_index(b, n),
    decreases n,
{
    if n > 0 {
        lemma_selected_index_prefix(a, b, n - 1);
    }
}

/// A selected position lies among the first `n`, its own draw was zero, and
/// every later draw of the pass was nonzero.
pub proof fn lemma_selected_index_range(results: Seq<int>, n: int)
    ensures
        selected_index(results, n) matches Some(i) ==> 0 <= i < n && results[i] == 0
            && (forall|j: int| i < j < n ==> results[j] != 0),
    decreases n,
{
    if n > 0 {
        lemma_selected_index_range(results, n - 1);
    }
}

/// As soon as the first draw comes out zero, some position is selected.
pub proof fn lemma_selected_index_some(results: Seq<int>, n: int)
    requires
        n >= 1,
        results[0] == 0,
    ensures
        selected_index(results, n) is Some,
    decreases n,
{
    if n > 1 {
        lemma_selected_index_some(results, n - 1);
    }
}

/// The selected position is exactly the last one whose draw came out zero.
pub proof fn lemma_selected_index_characterization(results: Seq<int>, n: int, k: int)
    requires
        0 <= k < n,
        results[k] == 0,
        forall|j: int| k < j < n ==> results[j] != 0,
    ensures
        selected_index(results, n) == Some(k),
    decreases n,
{
    if k < n - 1 {
        lemma_selected_index_characterization(results, n - 1, k);
    }
}

/// Select one element of `items` uniformly at random, visiting each element
/// once, in order, and consuming the sequence.
///
/// For the i-th element (0-based) the source is asked for one draw with bound
/// `i + 1`, and the element replaces the current selection exactly when the
/// draw comes out zero; so an empty input draws nothing and yields nothing,
/// and a nonempty input always yields one of its own elements — the one at
/// the last position whose draw was zero.  With a source whose draws are
/// uniform, each of the `n` elements is returned with probability `1/n`.
pub fn sample_one_iter<T, R: RandomSource>(source: &mut R, items: Vec<T>) -> (picked: Option<T>)
    ensures
        pass_draws(items@, old(source).history(), final(source).history()),
        picked == sampled_value(
            items@,
            pass_results(items@, old(source).history(), final(source).history()),
        ),
        picked is Some <==> items@.len() > 0,
        picked matches Some(x) ==> exists|i: int| 0 <= i < items@.len() && items@[i] == x,
        items@.len() == 0 ==> *final(source) == *old(source),
        items@.len() == 1 ==> picked == Some(items@[0]),
{
    let ghost orig = items@;
    let ghost prior = source.history();
    let mut rest = items;
    let mut count: usize = 0;
    let mut picked: Option<T> = None;
    let total: usize = rest.len();
    proof {
        assert(orig.len() == total);
        assert(prior.take(prior.len() as int) =~= prior);
    }

    while rest.len() > 0
        invariant
            orig.len() <= usize::MAX,
            count + rest@.len() == orig.len(),
            rest@ == orig.skip(count as int),
            pass_draws(orig.take(count as int), prior, source.history()),
            picked == sampled_value(
                orig.take(count as int),
                pass_results(orig.take(count as int), prior, source.history()),
            ),
            prior == old(source).history(),
            count == 0 ==> *source == *old(source),
        decreases rest@.len(),
    {
        let ghost h_before = source.history();
        let ghost taken = orig.take(count as int);
        let ghost old_results = pass_results(taken, prior, h_before);

        let element = rest.remove(0);
        proof {
            assert(element == orig[count as int]);
            assert(rest@ =~= orig.skip(count as int + 1));
        }
        count = count + 1;
        let r = source.draw(count);
        if r == 0 {
            picked = Some(element);
        }

        proof {
            let c = count as int - 1;
            let h_now = source.history();
            let taken_now = orig.take(c + 1);
            let new_results = pass_results(taken_now, prior, h_now);
            assert(h_now == h_before.push((c + 1, r as int)));
            assert(h_now.take(prior.len() as int) =~= h_before.take(prior.len() as int));
            assert forall|j: int| 0 <= j < c implies old_results[j] == new_results[j] by {
                assert(h_now[prior.len() + j] == h_before[prior.len() + j]);
            }
            assert(new_results[c] == r as int);
            assert(pass_draws(taken_now, prior, h_now));
            if r == 0 {
                assert(selected_index(new_results, c + 1) == Some(c));
                assert(taken_now[c] == orig[c]);
            } else {
                assert(selected_index(new_results, c + 1) == selected_index(new_results, c));
                lemma_selected_index_prefix(new_results, old_results, c);
                lemma_selected_index_range(old_results, c);
                if selected_index(old_results, c) is Some {
                    let i = selected_index(old_results, c)->Some_0;
                    assert(taken_now[i] == taken[i]);
                }
            }
        }
    }

    proof {
        assert(orig.take(orig.len() as int) =~= orig);
        let results = pass_results(orig, prior, source.history());
        if orig.len() > 0 {
            assert(0 <= results[0] < 1);
            lemma_selected_index_some(results, orig.len() as int);
            lemma_selected_index_range(results, orig.len() as int);
        }
        if orig.len() == 1 {
            assert(selected_index(results, 1) == Some(0int));
        }
    }
    picked
}

/// The sampler as a trailing stage of a pipeline: `v.take_rand(&mut source)`
/// consumes the sequence and returns one uniformly sampled element, under the
/// same contract as [`sample_one_iter`].
pub trait TakeRand<T>: View<V = Seq<T>> + Sized {
    /// Select one element of `self` uniformly at random, consuming `self`.
    fn take_rand<R: RandomSource>(self, source: &mut R) -> (picked: Option<T>)
        ensures
            pass_draws(self@, old(source).history(), final(source).history()),
            picked == sampled_value(
                self@,
                pass_results(self@, old(source).history(), final(source).history()),
            ),
            picked is Some <==> self@.len() > 0,
            picked matches Some(x) ==> exists|i: int| 0 <= i < self@.len() && self@[i] == x,
            self@.len() == 0 ==> *final(source) == *old(source),
            self@.len() == 1 ==> picked == Some(self@[0]),
    ;
}

impl<T> TakeRand<T> for Vec<T> {
    fn take_rand<R: RandomSource>(self, source: &mut R) -> (picked: Option<T>) {
        sample_one_iter(source, self)
    }
}

/// Sampling composes with filtering: a pass over a sequence whose elements
/// all satisfy a predicate — for instance the output of a filtering stage —
/// can only return an element that satisfies it.
pub proof fn lemma_sample_respects_filter<T>(items: Seq<T>, results: Seq<int>, pred: spec_fn(T) -> bool)
    requires
        forall|i: int| 0 <= i < items.len() ==> pred(#[trigger] items[i]),
    ensures
        sampled_value(items, results) matches Some(x) ==> pred(x),
{
    lemma_selected_index_range(results, items.len() as int);
}

/// Whatever a pass returns is one of its input elements.
pub proof fn lemma_sample_is_member<T>(items: Seq<T>, results: Seq<int>)
    ensures
        sampled_value(items, results) matches Some(x) ==> items.contains(x),
{
    lemma_selected_index_range(results, items.len() as int);
    if selected_index(results, items.len() as int) is Some {
        let i = selected_index(results, items.len() as int)->Some_0;
        assert(items[i] == sampled_value(items, results)->Some_0);
    }
}

} // verus!
