//! The duplex sponge that challenges are drawn from, and the replay of a proof transcript that
//! records the input of every permutation and where each challenge was read.
use crate::field::{fadd, fcanon, ints, lemma_red_bound, red, Challenge, P};
use crate::gadgets::RATE;
use crate::poseidon2::{lemma_perm_row_bound, native_permute, perm};
use crate::transcript::states;
use p3_challenger::{CanObserve, CanSample, DuplexChallenger};
use p3_field::PrimeField64;
use p3_goldilocks::{default_goldilocks_poseidon2_8, Goldilocks, Poseidon2Goldilocks};
use vstd::prelude::*;

verus! {

/// A duplex sponge: its state, the elements waiting to be absorbed, those waiting to be squeezed,
/// and what it recorded: the input and the absorbed count of every permutation.
pub struct Duplex {
    pub state: Seq<int>,
    pub input: Seq<int>,
    pub output: Seq<int>,
    pub blocks: Seq<Seq<int>>,
    pub counts: Seq<u8>,
}

/// A sponge that has seen nothing.
pub open spec fn fresh() -> Duplex {
    Duplex {
        state: seq![0int, 0, 0, 0, 0, 0, 0, 0],
        input: seq![],
        output: seq![],
        blocks: seq![],
        counts: seq![],
    }
}

/// The input of the next permutation: the waiting elements in the rate lanes, zeros behind them,
/// and their number added to the first capacity lane; the state itself where none wait.
pub open spec fn absorbed(d: Duplex) -> Seq<int> {
    let n = d.input.len();
    if n == 0 {
        d.state
    } else {
        Seq::new(
            8,
            |i: int|
                if i < n {
                    d.input[i]
                } else if i < 4 {
                    0
                } else if i == 4 {
                    red(d.state[4] + n)
                } else {
                    d.state[i]
                },
        )
    }
}

/// One permutation.
pub open spec fn duplexed(d: Duplex) -> Duplex {
    let s = perm(absorbed(d));
    Duplex {
        state: s,
        input: seq![],
        output: s.take(4),
        blocks: d.blocks.push(absorbed(d)),
        counts: d.counts.push(d.input.len() as u8),
    }
}

/// Takes in an element.
pub open spec fn observed(d: Duplex, v: int) -> Duplex {
    let e = Duplex { output: seq![], input: d.input.push(red(v)), ..d };
    if e.input.len() == 4 {
        duplexed(e)
    } else {
        e
    }
}

/// Takes in elements.
pub open spec fn observed_all(d: Duplex, vs: Seq<int>) -> Duplex
    decreases vs.len(),
{
    if vs.len() == 0 {
        d
    } else {
        observed(observed_all(d, vs.drop_last()), vs.last())
    }
}

/// Takes in extension elements.
pub open spec fn observed_exts(d: Duplex, xs: Seq<(int, int)>) -> Duplex
    decreases xs.len(),
{
    if xs.len() == 0 {
        d
    } else {
        let x = xs.last();
        observed(observed(observed_exts(d, xs.drop_last()), x.0), x.1)
    }
}

/// The sponge that a sample is read from: permuted where something waits or nothing is left.
pub open spec fn ready(d: Duplex) -> Duplex {
    if d.input.len() > 0 || d.output.len() == 0 {
        duplexed(d)
    } else {
        d
    }
}

/// The next sample.
pub open spec fn sampled(d: Duplex) -> int {
    ready(d).output.last()
}

/// The sponge behind the next sample.
pub open spec fn after_sample(d: Duplex) -> Duplex {
    let e = ready(d);
    Duplex { output: e.output.drop_last(), ..e }
}

/// The next sampled extension element, and the sponge behind it.
pub open spec fn sampled_ext(d: Duplex) -> (int, int) {
    (sampled(d), sampled(after_sample(d)))
}

pub open spec fn after_ext(d: Duplex) -> Duplex {
    after_sample(after_sample(d))
}

/// What holds of every sponge that is reached from a fresh one: fewer elements wait than the rate
/// has lanes, what is left to squeeze is the front of the state, and nothing is left to squeeze
/// while something waits.
pub open spec fn duplex_ok(d: Duplex) -> bool {
    &&& d.state.len() == 8
    &&& forall|i: int| 0 <= i < 8 ==> 0 <= #[trigger] d.state[i] < P
    &&& d.input.len() < 4
    &&& forall|i: int| 0 <= i < d.input.len() ==> 0 <= #[trigger] d.input[i] < P
    &&& d.output.len() <= 4
    &&& d.output == d.state.take(d.output.len() as int)
    &&& d.input.len() > 0 ==> d.output.len() == 0
    &&& d.blocks.len() == d.counts.len()
    &&& d.blocks.len() == 0 ==> d.state == fresh().state && d.output.len() == 0
    &&& d.blocks.len() > 0 ==> d.state == perm(d.blocks.last())
    &&& forall|b: int| 0 <= b < d.blocks.len() ==> (#[trigger] d.blocks[b]).len() == 8
}

pub proof fn lemma_duplexed(d: Duplex)
    requires
        d.state.len() == 8,
        forall|i: int| 0 <= i < 8 ==> 0 <= #[trigger] d.state[i] < P,
        d.input.len() <= 4,
        forall|i: int| 0 <= i < d.input.len() ==> 0 <= #[trigger] d.input[i] < P,
        d.blocks.len() == d.counts.len(),
        forall|b: int| 0 <= b < d.blocks.len() ==> (#[trigger] d.blocks[b]).len() == 8,
    ensures
        duplex_ok(duplexed(d)),
        duplexed(d).output.len() == 4,
        absorbed(d).len() == 8,
{
    let s = absorbed(d);
    lemma_perm_row_bound(s, 31);
    let e = duplexed(d);
    assert(e.state.take(4) == e.output);
}

pub proof fn lemma_observed(d: Duplex, v: int)
    requires
        duplex_ok(d),
    ensures
        duplex_ok(observed(d, v)),
{
    let e = Duplex { output: seq![], input: d.input.push(red(v)), ..d };
    lemma_red_bound(v);
    if e.input.len() == 4 {
        lemma_duplexed(e);
    } else {
        assert(e.output =~= e.state.take(0));
    }
}

pub proof fn lemma_sampled(d: Duplex)
    requires
        duplex_ok(d),
    ensures
        duplex_ok(ready(d)),
        1 <= ready(d).output.len() <= 4,
        ready(d).blocks.len() > 0,
        duplex_ok(after_sample(d)),
        sampled(d) == ready(d).state[ready(d).output.len() - 1],
        0 <= sampled(d) < P,
{
    if d.input.len() > 0 || d.output.len() == 0 {
        lemma_duplexed(d);
    }
    let e = ready(d);
    assert(e.output.last() == e.state.take(e.output.len() as int)[e.output.len() - 1]);
    assert(e.output.drop_last() =~= e.state.take(e.output.len() - 1));
}

/// The replay of a transcript.
#[derive(Debug)]
pub struct Sim {
    pub state: [u64; 8],
    pub input: Vec<u64>,
    pub output: Vec<u64>,
    pub block_inputs: Vec<[u64; 8]>,
    pub counts: Vec<u8>,
}

impl View for Sim {
    type V = Duplex;

    open spec fn view(&self) -> Duplex {
        Duplex {
            state: ints(self.state@),
            input: ints(self.input@),
            output: ints(self.output@),
            blocks: states(self.block_inputs@),
            counts: self.counts@,
        }
    }
}

impl Sim {
    pub fn new() -> (r: Self)
        ensures
            r@ == fresh(),
            duplex_ok(r@),
    {
        let r: Sim = Sim {
            state: [0; 8],
            input: Vec::new(),
            output: Vec::new(),
            block_inputs: Vec::new(),
            counts: Vec::new(),
        };
        proof {
            assert(r@.state =~= fresh().state);
            assert(r@.input =~= fresh().input && r@.output =~= fresh().output);
            assert(r@.blocks =~= fresh().blocks && r@.counts =~= fresh().counts);
            assert(r@.output =~= r@.state.take(0));
        }
        r
    }

    fn duplex(&mut self)
        requires
            old(self).input.len() <= 4,
            old(self).counts.len() == old(self).block_inputs.len(),
        ensures
            final(self)@ == duplexed(old(self)@),
    {
        let num: usize = self.input.len();
        let ghost before = self@;
        let mut s: [u64; 8] = self.state;
        if num > 0 {
            for i in 0..4
                invariant
                    num == self.input.len(),
                    forall|j: int|
                        0 <= j < 8 ==> #[trigger] s@[j] == (if j < i && j < num {
                            self.input@[j]
                        } else if j < i {
                            0
                        } else {
                            self.state@[j]
                        }),
            {
                s[i] = if i < num {
                    self.input[i]
                } else {
                    0
                };
            }
            s[4] = fadd(s[4], num as u64);
        }
        assert(ints(s@) =~= absorbed(before));
        self.block_inputs.push(s);
        self.counts.push(num as u8);
        self.state = native_permute(s);
        self.input = Vec::new();
        self.output = vec![self.state[0], self.state[1], self.state[2], self.state[3]];
        proof {
            let after = duplexed(before);
            assert(self@.state == after.state);
            assert(after.state.len() == 8) by {
                assert(ints(self.state@).len() == 8);
            }
            assert(self@.input =~= after.input);
            assert(self@.output =~= after.output);
            assert(self@.blocks =~= after.blocks);
            assert(self@.counts =~= after.counts);
        }
    }

    pub fn observe(&mut self, v: u64)
        requires
            duplex_ok(old(self)@),
        ensures
            final(self)@ == observed(old(self)@, v as int),
            duplex_ok(final(self)@),
    {
        let ghost before = self@;
        proof {
            lemma_observed(self@, v as int);
        }
        self.output = Vec::new();
        self.input.push(fcanon(v));
        proof {
            let e = Duplex { output: seq![], input: before.input.push(red(v as int)), ..before };
            assert(self@.input =~= e.input);
            assert(self@.output =~= e.output);
        }
        if self.input.len() == RATE {
            self.duplex();
        }
    }

    pub fn observe_ext(&mut self, x: Challenge)
        requires
            duplex_ok(old(self)@),
        ensures
            final(self)@ == observed(observed(old(self)@, x@.0), x@.1),
            duplex_ok(final(self)@),
    {
        self.observe(x.c0);
        self.observe(x.c1);
    }

    /// Takes in elements.
    pub fn observe_all(&mut self, vs: &[u64])
        requires
            duplex_ok(old(self)@),
        ensures
            final(self)@ == observed_all(old(self)@, ints(vs@)),
            duplex_ok(final(self)@),
    {
        let n: usize = vs.len();
        let ghost all = ints(vs@);
        assert(all.take(0) =~= Seq::<int>::empty());
        for i in 0..n
            invariant
                n == vs@.len(),
                all == ints(vs@),
                duplex_ok(self@),
                self@ == observed_all(old(self)@, all.take(i as int)),
        {
            self.observe(vs[i]);
            proof {
                let t = all.take(i + 1);
                assert(t.drop_last() =~= all.take(i as int));
                assert(t.last() == vs@[i as int]);
            }
        }
        assert(all.take(n as int) =~= all);
    }

    /// Takes in extension elements.
    pub fn observe_exts(&mut self, xs: &[Challenge])
        requires
            duplex_ok(old(self)@),
        ensures
            final(self)@ == observed_exts(old(self)@, views(xs@)),
            duplex_ok(final(self)@),
    {
        let n: usize = xs.len();
        let ghost all = views(xs@);
        assert(all.take(0) =~= Seq::<(int, int)>::empty());
        for i in 0..n
            invariant
                n == xs@.len(),
                all == views(xs@),
                duplex_ok(self@),
                self@ == observed_exts(old(self)@, all.take(i as int)),
        {
            self.observe_ext(xs[i]);
            proof {
                let t = all.take(i + 1);
                assert(t.drop_last() =~= all.take(i as int));
                assert(t.last() == xs@[i as int]@);
            }
        }
        assert(all.take(n as int) =~= all);
    }

    /// A sample, the block it was read from, and its lane.
    pub fn sample_base(&mut self) -> (r: (u64, usize, usize))
        requires
            duplex_ok(old(self)@),
        ensures
            r.0 == sampled(old(self)@),
            final(self)@ == after_sample(old(self)@),
            duplex_ok(final(self)@),
            r.1 == ready(old(self)@).blocks.len() - 1,
            r.2 == ready(old(self)@).output.len() - 1,
    {
        let ghost before = self@;
        proof {
            lemma_sampled(self@);
        }
        if self.input.len() > 0 || self.output.len() == 0 {
            self.duplex();
        }
        assert(self@ == ready(before));
        let block: usize = self.block_inputs.len() - 1;
        let lane: usize = self.output.len() - 1;
        let v: u64 = self.output[lane];
        let ghost mid = self.output@;
        self.output.truncate(lane);
        proof {
            assert(self@.output =~= ready(before).output.drop_last());
            assert(ints(mid).last() == v);
        }
        (v, block, lane)
    }

    /// A sampled extension element, and the block its first coordinate was read from.
    pub fn sample_ext(&mut self) -> (r: (Challenge, usize))
        requires
            duplex_ok(old(self)@),
        ensures
            r.0@ == sampled_ext(old(self)@),
            r.1 == ready(old(self)@).blocks.len() - 1,
            final(self)@ == after_ext(old(self)@),
            duplex_ok(final(self)@),
    {
        let (c0, block, _lane) = self.sample_base();
        let (c1, _block, _lane1) = self.sample_base();
        (Challenge { c0, c1 }, block)
    }
}

/// The views of extension elements.
pub open spec fn views(s: Seq<Challenge>) -> Seq<(int, int)> {
    Seq::new(s.len(), |i: int| s[i]@)
}

/// The state of a challenger, its waiting and its squeezable elements, all canonical.
#[derive(Debug)]
pub struct ChallengerState {
    pub state: [u64; 8],
    pub input: Vec<u64>,
    pub output: Vec<u64>,
}

impl ChallengerState {
    /// The challenger as a sponge without a record.
    pub open spec fn sponge(self) -> Duplex {
        Duplex {
            state: ints(self.state@),
            input: ints(self.input@),
            output: ints(self.output@),
            blocks: seq![],
            counts: seq![],
        }
    }

    /// Whether the challenger is where the sponge `d` is.
    pub open spec fn at(self, d: Duplex) -> bool {
        &&& ints(self.state@) == d.state
        &&& ints(self.input@) == d.input
        &&& ints(self.output@) == d.output
    }

    pub open spec fn canonical(self) -> bool {
        &&& forall|i: int| 0 <= i < 8 ==> #[trigger] self.state@[i] < P
        &&& forall|i: int| 0 <= i < self.input.len() ==> #[trigger] self.input@[i] < P
        &&& forall|i: int| 0 <= i < self.output.len() ==> #[trigger] self.output@[i] < P
    }
}

/// `DuplexChallenger::<Goldilocks, Poseidon2Goldilocks<8>, 8, 4>::observe` of p3-challenger, on a
/// challenger with the given state and buffers: the output buffer is cleared, the element joins the
/// input buffer, and with four of them they are absorbed and permuted. The outside function panics
/// where more than four elements wait.
#[verifier::external_body]
fn duplex_observe(c: &ChallengerState, v: u64) -> (r: ChallengerState)
    requires
        c.canonical(),
        c.input.len() < 4,
    ensures
        r.at(observed(c.sponge(), v as int)),
        r.canonical(),
{
    let mut d = DuplexChallenger::<Goldilocks, Poseidon2Goldilocks<8>, 8, 4> {
        sponge_state: c.state.map(Goldilocks::new),
        input_buffer: c.input.iter().map(|x| Goldilocks::new(*x)).collect(),
        output_buffer: c.output.iter().map(|x| Goldilocks::new(*x)).collect(),
        permutation: default_goldilocks_poseidon2_8(),
    };
    d.observe(Goldilocks::new(v));
    ChallengerState {
        state: d.sponge_state.map(|x| x.as_canonical_u64()),
        input: d.input_buffer.iter().map(|x| x.as_canonical_u64()).collect(),
        output: d.output_buffer.iter().map(|x| x.as_canonical_u64()).collect(),
    }
}

/// `DuplexChallenger::<Goldilocks, Poseidon2Goldilocks<8>, 8, 4>::sample` of p3-challenger, on a
/// challenger with the given state and buffers: where elements wait, or no output is left, they are
/// absorbed and permuted; then the last element of the output buffer is taken. The outside function
/// panics where more than four elements wait.
#[verifier::external_body]
fn duplex_sample(c: &ChallengerState) -> (r: (u64, ChallengerState))
    requires
        c.canonical(),
        c.input.len() < 4,
    ensures
        r.0 == sampled(c.sponge()),
        r.1.at(after_sample(c.sponge())),
        r.1.canonical(),
{
    let mut d = DuplexChallenger::<Goldilocks, Poseidon2Goldilocks<8>, 8, 4> {
        sponge_state: c.state.map(Goldilocks::new),
        input_buffer: c.input.iter().map(|x| Goldilocks::new(*x)).collect(),
        output_buffer: c.output.iter().map(|x| Goldilocks::new(*x)).collect(),
        permutation: default_goldilocks_poseidon2_8(),
    };
    let v: Goldilocks = d.sample();
    let s = ChallengerState {
        state: d.sponge_state.map(|x| x.as_canonical_u64()),
        input: d.input_buffer.iter().map(|x| x.as_canonical_u64()).collect(),
        output: d.output_buffer.iter().map(|x| x.as_canonical_u64()).collect(),
    };
    (v.as_canonical_u64(), s)
}

/// The record has no part in what a sponge does.
proof fn lemma_record(c: Duplex, d: Duplex, v: int)
    requires
        c.state == d.state,
        c.input == d.input,
        c.output == d.output,
    ensures
        observed(c, v).state == observed(d, v).state,
        observed(c, v).input == observed(d, v).input,
        observed(c, v).output == observed(d, v).output,
        sampled(c) == sampled(d),
        after_sample(c).state == after_sample(d).state,
        after_sample(c).input == after_sample(d).input,
        after_sample(c).output == after_sample(d).output,
{
    assert(absorbed(c) =~= absorbed(d));
    let e = Duplex { output: seq![], input: c.input.push(red(v)), ..c };
    let f = Duplex { output: seq![], input: d.input.push(red(v)), ..d };
    assert(absorbed(e) =~= absorbed(f));
}

/// A challenger of p3-challenger that starts fresh.
pub struct Challenger {
    inner: ChallengerState,
    seen: Ghost<Duplex>,
}

impl Challenger {
    /// The sponge that the challenger is.
    pub closed spec fn view(&self) -> Duplex {
        self.seen@
    }

    #[verifier::type_invariant]
    spec fn inv(self) -> bool {
        &&& self.inner.at(self.seen@)
        &&& self.inner.canonical()
        &&& duplex_ok(self.seen@)
    }

    pub fn new() -> (r: Self)
        ensures
            r@ == fresh(),
    {
        let inner: ChallengerState = ChallengerState {
            state: [0; 8],
            input: Vec::new(),
            output: Vec::new(),
        };
        proof {
            let d = fresh();
            assert(ints(inner.state@) =~= d.state);
            assert(ints(inner.input@) =~= d.input && ints(inner.output@) =~= d.output);
            assert(d.output =~= d.state.take(0));
        }
        Challenger { inner, seen: Ghost(fresh()) }
    }

    /// The state and the buffers.
    pub fn state(&self) -> (r: &ChallengerState)
        ensures
            r.at(self@),
            r.canonical(),
            r.input.len() < 4,
    {
        proof {
            use_type_invariant(self);
            assert(self.seen@.input.len() == self.inner.input.len());
        }
        &self.inner
    }

    pub fn observe(&mut self, v: u64)
        ensures
            final(self)@ == observed(old(self)@, v as int),
    {
        proof {
            use_type_invariant(&*self);
            lemma_observed(self.seen@, v as int);
            lemma_record(self.inner.sponge(), self.seen@, v as int);
            assert(self.seen@.input.len() == self.inner.input.len());
        }
        let inner: ChallengerState = duplex_observe(&self.inner, v);
        let seen: Ghost<Duplex> = Ghost(observed(self.seen@, v as int));
        *self = Challenger { inner, seen };
    }

    pub fn sample(&mut self) -> (r: u64)
        ensures
            r == sampled(old(self)@),
            final(self)@ == after_sample(old(self)@),
            r < P,
    {
        proof {
            use_type_invariant(&*self);
            lemma_sampled(self.seen@);
            lemma_record(self.inner.sponge(), self.seen@, 0);
            assert(self.seen@.input.len() == self.inner.input.len());
        }
        let (v, inner) = duplex_sample(&self.inner);
        let seen: Ghost<Duplex> = Ghost(after_sample(self.seen@));
        *self = Challenger { inner, seen };
        v
    }

    /// Takes in elements.
    pub fn observe_all(&mut self, vs: &[u64])
        ensures
            final(self)@ == observed_all(old(self)@, ints(vs@)),
    {
        let n: usize = vs.len();
        let ghost all = ints(vs@);
        assert(all.take(0) =~= Seq::<int>::empty());
        for i in 0..n
            invariant
                n == vs@.len(),
                all == ints(vs@),
                self@ == observed_all(old(self)@, all.take(i as int)),
        {
            self.observe(vs[i]);
            proof {
                let t = all.take(i + 1);
                assert(t.drop_last() =~= all.take(i as int));
                assert(t.last() == vs@[i as int]);
            }
        }
        assert(all.take(n as int) =~= all);
    }

    /// Takes in extension elements.
    pub fn observe_exts(&mut self, xs: &[Challenge])
        ensures
            final(self)@ == observed_exts(old(self)@, views(xs@)),
    {
        let n: usize = xs.len();
        let ghost all = views(xs@);
        assert(all.take(0) =~= Seq::<(int, int)>::empty());
        for i in 0..n
            invariant
                n == xs@.len(),
                all == views(xs@),
                self@ == observed_exts(old(self)@, all.take(i as int)),
        {
            self.observe(xs[i].c0);
            self.observe(xs[i].c1);
            proof {
                let t = all.take(i + 1);
                assert(t.drop_last() =~= all.take(i as int));
                assert(t.last() == xs@[i as int]@);
            }
        }
        assert(all.take(n as int) =~= all);
    }

    pub fn sample_ext(&mut self) -> (r: Challenge)
        ensures
            r@ == sampled_ext(old(self)@),
            final(self)@ == after_ext(old(self)@),
    {
        let c0: u64 = self.sample();
        let c1: u64 = self.sample();
        Challenge { c0, c1 }
    }
}

} // verus!
