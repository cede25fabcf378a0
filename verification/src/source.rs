//! Sources of uniform random draws, and the record of how they were consulted.

use vstd::prelude::*;

use rand::Rng;

verus! {

/// A supplier of uniform random draws: one call yields one integer in the
/// half-open range `[0, bound)`.
///
/// The ghost `history` records every draw made so far as a `(bound, result)`
/// pair, oldest first, so that a caller's contract can say exactly how often
/// the source was consulted, with which bounds, and what came back.
pub trait RandomSource {
    /// The draws made so far: one `(bound, result)` pair per call, oldest first.
    spec fn history(&self) -> Seq<(int, int)>;

    /// Draw one integer uniformly from `[0, bound)`.
    ///
    /// A conforming source must treat a bound of one as the degenerate range
    /// whose only value is zero.
    fn draw(&mut self, bound: usize) -> (r: usize)
        requires
            bound >= 1,
        ensures
            r < bound,
            final(self).history() == old(self).history().push((bound as int, r as int)),
    ;
}

/// A deterministic source that replays a fixed list of values: the i-th draw
/// returns the i-th listed value reduced modulo the requested bound, and zero
/// once the list is exhausted.  It keeps an executable record of every draw,
/// so a caller can observe at run time how it was consulted.
pub struct TapeSource {
    tape: Vec<usize>,
    next: usize,
    record: Vec<(usize, usize)>,
}

impl RandomSource for TapeSource {
    closed spec fn history(&self) -> Seq<(int, int)> {
        Seq::new(self.record@.len(), |i: int| (self.record@[i].0 as int, self.record@[i].1 as int))
    }

    fn draw(&mut self, bound: usize) -> (r: usize) {
        let drawn: usize = if self.next < self.tape.len() {
            let v = self.tape[self.next];
            self.next = self.next + 1;
            v % bound
        } else {
            0
        };
        self.record.push((bound, drawn));
        proof {
            assert(self.history() =~= old(self).history().push((bound as int, drawn as int)));
        }
        drawn
    }
}

impl TapeSource {
    /// A source that will replay `tape`, and has drawn nothing yet.
    pub fn new(tape: Vec<usize>) -> (s: Self)
        ensures
            s.history() == Seq::<(int, int)>::empty(),
    {
        let s = TapeSource { tape, next: 0, record: Vec::new() };
        proof {
            assert(s.history() =~= Seq::<(int, int)>::empty());
        }
        s
    }

    /// How many draws have been made from this source.
    pub fn draws_made(&self) -> (n: usize)
        ensures
            n == self.history().len(),
    {
        self.record.len()
    }

    /// The bound that the i-th draw (0-based, oldest first) was made with.
    pub fn bound_at(&self, i: usize) -> (b: usize)
        requires
            i < self.history().len(),
        ensures
            b == self.history()[i as int].0,
    {
        self.record[i].0
    }

    /// The value that the i-th draw (0-based, oldest first) returned.
    pub fn result_at(&self, i: usize) -> (r: usize)
        requires
            i < self.history().len(),
        ensures
            r == self.history()[i as int].1,
    {
        self.record[i].1
    }
}

#[verifier::external_type_specification]
#[verifier::external_body]
pub struct ExThreadRng(rand::rngs::ThreadRng);

/// Relies on rand::thread_rng: a handle to the calling thread's generator.
#[verifier::external_body]
fn obtain_thread_rng() -> rand::rngs::ThreadRng {
    rand::thread_rng()
}

/// Relies on rand's Rng::gen_range over `0..bound`: it panics only on an
/// empty range, and returns a value of the half-open range it was given,
/// each equally likely.
#[verifier::external_body]
fn draw_below(rng: &mut rand::rngs::ThreadRng, bound: usize) -> (r: usize)
    requires
        bound >= 1,
    ensures
        r < bound,
{
    rng.gen_range(0..bound)
}

/// A source backed by rand's thread-local generator: each draw is uniform
/// over its range and independent of the others.
pub struct ThreadRngSource {
    rng: rand::rngs::ThreadRng,
    log: Ghost<Seq<(int, int)>>,
}

impl RandomSource for ThreadRngSource {
    closed spec fn history(&self) -> Seq<(int, int)> {
        self.log@
    }

    fn draw(&mut self, bound: usize) -> (r: usize) {
        let drawn = draw_below(&mut self.rng, bound);
        self.log = Ghost(self.log@.push((bound as int, drawn as int)));
        drawn
    }
}

impl ThreadRngSource {
    /// A source over the calling thread's generator, with an empty record.
    pub fn new() -> (s: Self)
        ensures
            s.history() == Seq::<(int, int)>::empty(),
    {
        ThreadRngSource { rng: obtain_thread_rng(), log: Ghost(Seq::empty()) }
    }
}

} // verus!
