//! Where sampled numbers come from.

use crate::double::Real;
use crate::numeric::{clamp, clamped};
use crate::scenario::distribution::UIntDistribution;
use rand::rngs::StdRng;
use rand::{Rng, SeedableRng};
use vstd::prelude::*;

verus! {

/// What a source of random numbers is asked for.
#[derive(Debug)]
pub enum Ask {
    /// A random word.
    Word,
    /// A number from `min` to `max`, both included.
    Range { min: u64, max: u64 },
    /// A log-normal number, rounded.
    LogNormal { median: Real, sigma: Real },
}

/// How log-normal numbers are made: the number for a state of the generator, a median and a
/// deviation, and the state that it leaves the generator in.
#[verifier::ext_equal]
pub struct LogNormals {
    pub numbers: spec_fn(Seq<u8>, Real, Real) -> (u64, Seq<u8>),
}

/// Where numbers come from: the seed of a generator, and how log-normal numbers are made of it.
#[verifier::ext_equal]
pub struct Origin {
    pub seed: u64,
    pub normals: LogNormals,
}

/// A source of random numbers as a function: what it gives to the last of some asks, after the
/// others. The origin tells such sources apart.
pub struct Draws {
    pub origin: Origin,
    pub numbers: spec_fn(Seq<Ask>) -> u64,
}

impl Draws {
    /// The number for the last of some asks.
    pub open spec fn answer(self, asks: Seq<Ask>) -> u64 {
        (self.numbers)(asks)
    }
}

/// What a source has been asked for and has given.
#[verifier::ext_equal]
pub struct Drawn {
    pub origin: Origin,
    pub entries: Seq<(Ask, u64)>,
}

impl Drawn {
    /// What was asked for.
    pub open spec fn asks(self) -> Seq<Ask> {
        Seq::new(self.entries.len(), |i: int| self.entries[i].0)
    }

    /// With one more number.
    pub open spec fn push(self, ask: Ask, value: u64) -> Drawn {
        Drawn { entries: self.entries.push((ask, value)), ..self }
    }

    /// Nothing was asked for.
    pub open spec fn is_blank(self) -> bool {
        self.entries.len() == 0
    }
}

/// `d` gives the numbers that were drawn.
#[verifier::opaque]
pub open spec fn extends(d: Draws, drawn: Drawn) -> bool {
    &&& d.origin == drawn.origin
    &&& forall|i: int|
        0 <= i < drawn.entries.len() ==> d.answer(drawn.asks().take(i + 1)) == (#[trigger] drawn.entries[i]).1
}

pub(crate) proof fn lemma_extends_push(drawn: Drawn, ask: Ask, value: u64)
    ensures
        drawn.push(ask, value).asks() == drawn.asks().push(ask),
        forall|d: Draws| #[trigger]
            extends(d, drawn.push(ask, value)) ==> extends(d, drawn) && d.answer(drawn.asks().push(ask)) == value,
{
    reveal(extends);
    let more = drawn.push(ask, value);
    let n = drawn.entries.len() as int;
    assert(more.asks() =~= drawn.asks().push(ask));
    assert forall|d: Draws| #[trigger] extends(d, more) implies extends(d, drawn) && d.answer(drawn.asks().push(ask))
        == value by {
        assert(more.entries[n].1 == value);
        assert(more.asks().take(n + 1) =~= more.asks());
        assert forall|i: int| 0 <= i < n implies d.answer(drawn.asks().take(i + 1)) == (
        #[trigger] drawn.entries[i]).1 by {
            assert(more.entries[i] == drawn.entries[i]);
            assert(more.asks().take(i + 1) =~= drawn.asks().take(i + 1));
        }
    }
}

/// The numbers that were drawn, given again.
pub open spec fn repeated(drawn: Drawn) -> Draws {
    Draws { origin: drawn.origin, numbers: |asks: Seq<Ask>| drawn.entries[asks.len() - 1].1 }
}

/// Whatever was drawn can be drawn again.
pub proof fn law_draws_can_be_repeated(drawn: Drawn)
    ensures
        extends(repeated(drawn), drawn),
{
    reveal(extends);
    assert forall|i: int| 0 <= i < drawn.entries.len() implies repeated(drawn).answer(drawn.asks().take(i + 1)) == (
    #[trigger] drawn.entries[i]).1 by {
        assert(drawn.asks().take(i + 1).len() == i + 1);
    }
}

/// A source of random numbers that remembers what it gave out.
pub trait SampleSource: Sized {
    /// The source is in order.
    spec fn valid(&self) -> bool;

    /// What it was asked for and has given so far.
    spec fn drawn(&self) -> Drawn;

    /// A random word.
    fn word(&mut self) -> (word: u64)
        requires
            old(self).valid(),
        ensures
            final(self).valid(),
            final(self).drawn() == old(self).drawn().push(Ask::Word, word),
    ;

    /// A number from `min` to `max`, both included.
    fn range(&mut self, min: u64, max: u64) -> (value: u64)
        requires
            old(self).valid(),
            min <= max,
        ensures
            final(self).valid(),
            min <= value <= max,
            final(self).drawn() == old(self).drawn().push(Ask::Range { min, max }, value),
    ;

    /// A log-normal number, rounded.
    fn log_normal(&mut self, median: Real, sigma: Real) -> (value: u64)
        requires
            old(self).valid(),
        ensures
            final(self).valid(),
            final(self).drawn() == old(self).drawn().push(Ask::LogNormal { median, sigma }, value),
    ;
}

/// Rounded log-normal numbers, made from the words of a generator.
pub trait LogNormalSampler {
    /// The number for a state of the generator, and the state that it leaves the generator in. It
    /// stands for what `sample` computes: no proof looks into it, so a sampler of ordinary code can
    /// leave it as it is.
    closed spec fn number(&self, state: Seq<u8>, median: Real, sigma: Real) -> (u64, Seq<u8>) {
        arbitrary()
    }

    /// A number whose logarithm is normal around that of `median`, with deviation `sigma`. It
    /// depends on the state of the generator alone: a sampler remembers nothing.
    fn sample(&mut self, rng: &mut StdRng, median: Real, sigma: Real) -> (value: u64)
        ensures
            (value, state_of(*final(rng))) == old(self).number(state_of(*old(rng)), median, sigma),
            forall|state: Seq<u8>, around: Real, deviation: Real| #[trigger]
                final(self).number(state, around, deviation) == old(self).number(state, around, deviation),
    ;
}

/// How a sampler makes its numbers.
pub open spec fn normals_of<L: LogNormalSampler>(sampler: L) -> LogNormals {
    LogNormals { numbers: |state: Seq<u8>, median: Real, sigma: Real| sampler.number(state, median, sigma) }
}

/// Two samplers with the same numbers make them in the same way.
pub proof fn law_samplers_with_equal_numbers_agree<L: LogNormalSampler, M: LogNormalSampler>(a: L, b: M)
    requires
        forall|state: Seq<u8>, median: Real, sigma: Real| #[trigger]
            a.number(state, median, sigma) == b.number(state, median, sigma),
    ensures
        normals_of(a) == normals_of(b),
{
    assert(normals_of(a).numbers =~= normals_of(b).numbers);
}

/// `rand::rngs::StdRng`.
#[verifier::external_type_specification]
#[verifier::external_body]
pub struct ExStdRng(StdRng);

/// What a generator holds: all that its next numbers depend on.
pub uninterp spec fn state_of(rng: StdRng) -> Seq<u8>;

/// The state of a generator that starts at a seed.
pub uninterp spec fn seeded_state(seed: u64) -> Seq<u8>;

/// The word that a generator gives in a state, and its state afterwards.
pub uninterp spec fn next_word(state: Seq<u8>) -> (u64, Seq<u8>);

/// The number from `min` to `max` that a generator gives in a state, and its state afterwards.
pub uninterp spec fn next_in_range(state: Seq<u8>, min: u64, max: u64) -> (u64, Seq<u8>);

/// `rand::SeedableRng::seed_from_u64` for `StdRng`, which is ChaCha with twelve rounds: its state
/// depends on the seed alone.
#[verifier::external_body]
fn seeded_rng(seed: u64) -> (rng: StdRng)
    ensures
        state_of(rng) == seeded_state(seed),
{
    StdRng::seed_from_u64(seed)
}

/// `rand::Rng::random` for `u64`: a word, which depends on the state alone, as does the state
/// afterwards.
#[verifier::external_body]
fn random_word(rng: &mut StdRng) -> (word: u64)
    ensures
        (word, state_of(*final(rng))) == next_word(state_of(*old(rng))),
{
    rng.random::<u64>()
}

/// `rand::Rng::random_range` over an inclusive range: a number in it, which depends on the state and
/// on the range alone, as does the state afterwards.
#[verifier::external_body]
fn random_in_range(rng: &mut StdRng, min: u64, max: u64) -> (value: u64)
    requires
        min <= max,
    ensures
        min <= value <= max,
        (value, state_of(*final(rng))) == next_in_range(state_of(*old(rng)), min, max),
{
    rng.random_range(min..=max)
}

/// What a generator that starts at a seed gives to the last of some asks, and its state afterwards.
pub open spec fn replied(seed: u64, normals: LogNormals, asks: Seq<Ask>) -> (u64, Seq<u8>)
    decreases asks.len(),
{
    if asks.len() == 0 {
        (0, seeded_state(seed))
    } else {
        let state = replied(seed, normals, asks.drop_last()).1;
        match asks.last() {
            Ask::Word => next_word(state),
            Ask::Range { min, max } => next_in_range(state, min, max),
            Ask::LogNormal { median, sigma } => (normals.numbers)(state, median, sigma),
        }
    }
}

/// The numbers of a generator that starts at a seed.
pub open spec fn seeded_draws(seed: u64, normals: LogNormals) -> Draws {
    Draws { origin: Origin { seed, normals }, numbers: |asks: Seq<Ask>| replied(seed, normals, asks).0 }
}

/// Numbers from a seeded generator.
pub struct Seeded<L: LogNormalSampler> {
    rng: StdRng,
    sampler: L,
    log: Ghost<Drawn>,
    states: Ghost<Seq<Seq<u8>>>,
}

impl<L: LogNormalSampler> Seeded<L> {
    /// Starts at the given seed.
    pub fn new(seed: u64, sampler: L) -> (source: Self)
        ensures
            source.valid(),
            source.drawn() == (Drawn {
                origin: Origin { seed, normals: normals_of(sampler) },
                entries: Seq::empty(),
            }),
    {
        Seeded {
            rng: seeded_rng(seed),
            sampler,
            log: Ghost(Drawn { origin: Origin { seed, normals: normals_of(sampler) }, entries: Seq::empty() }),
            states: Ghost(Seq::empty()),
        }
    }

    /// The state before number `i`.
    spec fn state_before(&self, i: int) -> Seq<u8> {
        if i == 0 {
            seeded_state(self.log@.origin.seed)
        } else {
            self.states@[i - 1]
        }
    }

    proof fn lemma_replies(&self, i: int)
        requires
            self.valid(),
            0 <= i <= self.log@.entries.len(),
        ensures
            replied(self.log@.origin.seed, self.log@.origin.normals, self.log@.asks().take(i)).1 == self.state_before(i),
            i > 0 ==> replied(self.log@.origin.seed, self.log@.origin.normals, self.log@.asks().take(i)).0
                == self.log@.entries[i - 1].1,
        decreases i,
    {
        if i > 0 {
            self.lemma_replies(i - 1);
            let asks = self.log@.asks().take(i);
            assert(asks.drop_last() =~= self.log@.asks().take(i - 1));
            assert(asks.last() == self.log@.entries[i - 1].0);
            assert(is_reply(
                self.log@.origin.normals,
                self.state_before(i - 1),
                self.log@.entries[i - 1],
                self.states@[i - 1],
            ));
        }
    }

    /// What it has given is what its seed stands for.
    pub proof fn law_seed_gives_the_numbers(&self)
        requires
            self.valid(),
        ensures
            extends(seeded_draws(self.drawn().origin.seed, self.drawn().origin.normals), self.drawn()),
    {
        reveal(extends);
        let drawn = self.drawn();
        assert forall|i: int| 0 <= i < drawn.entries.len() implies seeded_draws(
            drawn.origin.seed,
            drawn.origin.normals,
        ).answer(
            drawn.asks().take(i + 1),
        ) == (#[trigger] drawn.entries[i]).1 by {
            self.lemma_replies(i + 1);
        }
    }
}

/// A generator in the state `before` gives this number to this ask, and is in the state `after`
/// then.
spec fn is_reply(normals: LogNormals, before: Seq<u8>, entry: (Ask, u64), after: Seq<u8>) -> bool {
    match entry.0 {
        Ask::Word => (entry.1, after) == next_word(before),
        Ask::Range { min, max } => (entry.1, after) == next_in_range(before, min, max),
        Ask::LogNormal { median, sigma } => (entry.1, after) == (normals.numbers)(before, median, sigma),
    }
}

impl<L: LogNormalSampler> SampleSource for Seeded<L> {
    closed spec fn valid(&self) -> bool {
        &&& self.states@.len() == self.log@.entries.len()
        &&& self.log@.origin.normals == normals_of(self.sampler)
        &&& state_of(self.rng) == self.state_before(self.states@.len() as int)
        &&& forall|i: int|
            0 <= i < self.states@.len() ==> is_reply(
                self.log@.origin.normals,
                self.state_before(i),
                self.log@.entries[i],
                #[trigger] self.states@[i],
            )
    }

    closed spec fn drawn(&self) -> Drawn {
        self.log@
    }

    fn word(&mut self) -> (word: u64) {
        let word = random_word(&mut self.rng);
        self.log = Ghost(self.log@.push(Ask::Word, word));
        self.states = Ghost(self.states@.push(state_of(self.rng)));
        proof {
            self.lemma_one_more(*old(self));
        }
        word
    }

    fn range(&mut self, min: u64, max: u64) -> (value: u64) {
        let value = random_in_range(&mut self.rng, min, max);
        self.log = Ghost(self.log@.push(Ask::Range { min, max }, value));
        self.states = Ghost(self.states@.push(state_of(self.rng)));
        proof {
            self.lemma_one_more(*old(self));
        }
        value
    }

    fn log_normal(&mut self, median: Real, sigma: Real) -> (value: u64) {
        let value = self.sampler.sample(&mut self.rng, median, sigma);
        proof {
            assert(normals_of(self.sampler).numbers =~= normals_of(old(self).sampler).numbers);
        }
        self.log = Ghost(self.log@.push(Ask::LogNormal { median, sigma }, value));
        self.states = Ghost(self.states@.push(state_of(self.rng)));
        proof {
            self.lemma_one_more(*old(self));
        }
        value
    }
}

impl<L: LogNormalSampler> Seeded<L> {
    proof fn lemma_one_more(&self, before: Self)
        requires
            before.valid(),
            self.log@.entries.len() == before.log@.entries.len() + 1,
            self.log@ == before.log@.push(self.log@.entries.last().0, self.log@.entries.last().1),
            self.states@ == before.states@.push(state_of(self.rng)),
            self.log@.origin.normals == normals_of(self.sampler),
            is_reply(self.log@.origin.normals, state_of(before.rng), self.log@.entries.last(), state_of(self.rng)),
        ensures
            self.valid(),
    {
        let n = before.states@.len() as int;
        assert forall|i: int| 0 <= i < self.states@.len() implies is_reply(
            self.log@.origin.normals,
            self.state_before(i),
            self.log@.entries[i],
            #[trigger] self.states@[i],
        ) by {
            assert(self.state_before(i) == before.state_before(i));
            if i < n {
                assert(self.states@[i] == before.states@[i]);
                assert(self.log@.entries[i] == before.log@.entries[i]);
            }
        }
    }
}

/// Numbers from a list, and zeros after its end; each one is brought into the range asked for.
pub struct Script {
    numbers: Vec<u64>,
    next: usize,
    log: Ghost<Drawn>,
}

/// A list without its first number.
pub open spec fn advanced(numbers: Seq<u64>) -> Seq<u64> {
    if numbers.len() > 0 {
        numbers.skip(1)
    } else {
        numbers
    }
}

/// Where the numbers of a list come from.
pub open spec fn scripted() -> Origin {
    Origin {
        seed: 0,
        normals: LogNormals { numbers: |state: Seq<u8>, median: Real, sigma: Real| (0u64, state) },
    }
}

impl Script {
    #[verifier::type_invariant]
    spec fn well_formed(self) -> bool {
        self.next <= self.numbers@.len()
    }

    /// What is left of the list.
    pub closed spec fn remaining(&self) -> Seq<u64> {
        self.numbers@.skip(self.next as int)
    }

    /// The number that comes next.
    pub open spec fn upcoming(&self) -> u64 {
        if self.remaining().len() > 0 {
            self.remaining()[0]
        } else {
            0
        }
    }

    pub fn new(numbers: Vec<u64>) -> (source: Self)
        ensures
            source.drawn() == (Drawn { origin: scripted(), entries: Seq::empty() }),
            source.remaining() == numbers@,
    {
        let source = Script { numbers, next: 0, log: Ghost(Drawn { origin: scripted(), entries: Seq::empty() }) };
        assert(source.remaining() =~= numbers@);
        source
    }

    fn take(&mut self) -> (number: u64)
        ensures
            number == old(self).upcoming(),
            final(self).log == old(self).log,
            final(self).remaining() == advanced(old(self).remaining()),
    {
        proof {
            use_type_invariant(&*self);
        }
        if self.next < self.numbers.len() {
            let number = self.numbers[self.next];
            self.next = self.next + 1;
            assert(self.remaining() =~= old(self).remaining().skip(1));
            number
        } else {
            0
        }
    }
}

impl SampleSource for Script {
    open spec fn valid(&self) -> bool {
        true
    }

    closed spec fn drawn(&self) -> Drawn {
        self.log@
    }

    fn word(&mut self) -> (word: u64)
        ensures
            word == old(self).upcoming(),
            final(self).remaining() == advanced(old(self).remaining()),
    {
        let word = self.take();
        proof {
            use_type_invariant(&*self);
        }
        self.log = Ghost(self.log@.push(Ask::Word, word));
        word
    }

    fn range(&mut self, min: u64, max: u64) -> (value: u64)
        ensures
            value == clamped(old(self).upcoming(), min, max),
            final(self).remaining() == advanced(old(self).remaining()),
    {
        let value = clamp(self.take(), min, max);
        proof {
            use_type_invariant(&*self);
        }
        self.log = Ghost(self.log@.push(Ask::Range { min, max }, value));
        value
    }

    fn log_normal(&mut self, median: Real, sigma: Real) -> (value: u64)
        ensures
            value == old(self).upcoming(),
            final(self).remaining() == advanced(old(self).remaining()),
    {
        let value = self.take();
        proof {
            use_type_invariant(&*self);
        }
        self.log = Ghost(self.log@.push(Ask::LogNormal { median, sigma }, value));
        value
    }
}

/// The value of a distribution, and what has been asked for after it, where `asked` was asked for
/// before it.
pub open spec fn sampled(distribution: UIntDistribution, d: Draws, asked: Seq<Ask>) -> (u64, Seq<Ask>) {
    match distribution {
        UIntDistribution::Fixed { value } => (value, asked),
        UIntDistribution::Uniform { min, max } => {
            let asks = asked.push(Ask::Range { min, max });
            (clamped(d.answer(asks), min, max), asks)
        },
        UIntDistribution::LogNormal { median, sigma, min, max } => {
            let asks = asked.push(Ask::LogNormal { median, sigma });
            (clamped(d.answer(asks), min, max), asks)
        },
    }
}

impl UIntDistribution {
    /// Takes one value. Log-normal numbers are brought into the bounds.
    pub fn sample<S: SampleSource>(&self, source: &mut S) -> (value: u64)
        requires
            self.failure() is None,
            old(source).valid(),
        ensures
            final(source).valid(),
            self.range().0 <= value <= self.range().1,
            forall|d: Draws| #[trigger]
                extends(d, final(source).drawn()) ==> extends(d, old(source).drawn()) && sampled(
                    *self,
                    d,
                    old(source).drawn().asks(),
                ) == (value, final(source).drawn().asks()),
    {
        match self {
            UIntDistribution::Fixed { value } => *value,
            UIntDistribution::Uniform { min, max } => {
                let value = source.range(*min, *max);
                proof {
                    lemma_extends_push(old(source).drawn(), Ask::Range { min: *min, max: *max }, value);
                }
                value
            },
            UIntDistribution::LogNormal { median, sigma, min, max } => {
                let value = source.log_normal(*median, *sigma);
                proof {
                    lemma_extends_push(
                        old(source).drawn(),
                        Ask::LogNormal { median: *median, sigma: *sigma },
                        value,
                    );
                }
                clamp(value, *min, *max)
            },
        }
    }
}

} // verus!
