//! Epochs, the global epoch counter, and per-thread announcement words.
//!
//! An epoch is a 64-bit word that advances in steps of two; the low bit of an
//! announcement word is reserved for the quiescent flag. Each epoch value
//! carries a ghost *count*: the unbounded number of advances it stands for.
//! The word is always the image of the count under [`word_of`], so every
//! word-level comparison made by the executable code can be related to the
//! unbounded counts in proofs, even across wrap-around.

use vstd::arithmetic::div_mod::{
    lemma_fundamental_div_mod, lemma_mod_bound, lemma_mod_multiples_vanish, lemma_small_mod,
    lemma_sub_mod_noop,
};
use vstd::arithmetic::mul::lemma_mul_nonnegative;
use vstd::prelude::*;

verus! {

/// One more than the largest epoch word: the wrap-around modulus.
pub open spec fn word_modulus() -> int {
    0x1_0000_0000_0000_0000
}

/// The number of distinct epoch values; epochs advance in steps of two.
pub open spec fn half_modulus() -> int {
    0x8000_0000_0000_0000
}

/// The word standing for `count` epoch advances since the start.
pub open spec fn word_of(count: int) -> int {
    (2 * count) % word_modulus()
}

/// The epoch word of any count is even and fits in a word.
proof fn lemma_word_of_even(count: int)
    ensures
        0 <= word_of(count) < word_modulus(),
        word_of(count) % 2 == 0,
{
    let w = word_modulus();
    let h = half_modulus();
    lemma_mod_bound(2 * count, w);
    lemma_fundamental_div_mod(2 * count, w);
    let q = (2 * count) / w;
    assert(word_of(count) == 2 * count - w * q);
    assert(w * q == 2 * (h * q)) by (nonlinear_arith)
        requires
            w == 2 * h,
    ;
    let k = count - h * q;
    assert(word_of(count) == 2 * k);
    lemma_mod_multiples_vanish(k, 0, 2);
}

/// Doubling commutes with halving the modulus: `(2x) mod 2H == 2 (x mod H)`.
proof fn lemma_double_mod(x: int)
    ensures
        (2 * x) % word_modulus() == 2 * (x % half_modulus()),
{
    let h = half_modulus();
    let w = word_modulus();
    lemma_fundamental_div_mod(x, h);
    let q = x / h;
    let r = x % h;
    lemma_mod_bound(x, h);
    assert(2 * x == w * q + 2 * r) by (nonlinear_arith)
        requires
            x == h * q + r,
            w == 2 * h,
    ;
    lemma_mod_multiples_vanish(q, 2 * r, w);
    lemma_small_mod((2 * r) as nat, w as nat);
}

/// A nonnegative number is at least its remainder.
proof fn lemma_mod_le(x: int, m: int)
    requires
        0 <= x,
        0 < m,
    ensures
        x % m <= x,
{
    lemma_fundamental_div_mod(x, m);
    lemma_mod_bound(x, m);
    let q = x / m;
    if q < 0 {
        assert(m * q <= -m) by (nonlinear_arith)
            requires
                0 < m,
                q <= -1,
        ;
    } else {
        lemma_mul_nonnegative(m, q);
    }
}

/// The wrapped word difference of two counts is twice their count
/// difference, reduced modulo the number of epoch values.
proof fn lemma_wrap_diff(obs: int, reference: int)
    ensures
        (word_of(reference) - word_of(obs)) % word_modulus() == 2 * ((reference - obs)
            % half_modulus()),
{
    let w = word_modulus();
    lemma_sub_mod_noop(2 * reference, 2 * obs, w);
    assert((word_of(reference) - word_of(obs)) % w == (2 * reference - 2 * obs) % w);
    assert(2 * reference - 2 * obs == 2 * (reference - obs));
    lemma_double_mod(reference - obs);
}

/// Advancing by the number of representable epochs returns to the same
/// word: after `2^63` advances the counter reads the same value again, so
/// in particular a counter that started at zero reads zero.
pub proof fn lemma_epoch_wraps(count: int)
    ensures
        word_of(count + half_modulus()) == word_of(count),
{
    lemma_mod_multiples_vanish(1, 2 * count, word_modulus());
    assert(2 * (count + half_modulus()) == word_modulus() * 1 + 2 * count);
}

/// Within a window smaller than the number of representable epochs, equal
/// words mean equal counts: an announcement that word-compares equal to
/// the global epoch, and is known to be at most a window behind it, is
/// that epoch exactly.
pub proof fn lemma_word_equal_close(a: Epoch, b: Epoch)
    requires
        a.wf(),
        b.wf(),
        a.count() <= b.count(),
        b.count() - a.count() < half_modulus(),
        a.spec_word() == b.spec_word(),
    ensures
        a.count() == b.count(),
{
    lemma_wrap_diff(a.count(), b.count());
    let d = b.count() - a.count();
    lemma_small_mod(0nat, word_modulus() as nat);
    lemma_small_mod(d as nat, half_modulus() as nat);
}

/// How far behind the reference an observed count is, reduced to the space
/// of representable epochs.
pub open spec fn count_age(obs: int, reference: int) -> int {
    (reference - obs) % half_modulus()
}

/// A monotonically increasing epoch counter with wrapping overflow.
///
/// The ghost count is the unbounded number of advances; the word is its
/// image under [`word_of`], which [`Epoch::wf`] pins down.
#[derive(Clone, Copy)]
pub struct Epoch {
    word: u64,
    count: Ghost<int>,
}

impl Epoch {
    /// The machine word of this epoch.
    pub closed spec fn spec_word(self) -> u64 {
        self.word
    }

    /// The unbounded number of advances this epoch stands for.
    pub closed spec fn count(self) -> int {
        self.count@
    }

    /// The word is the image of the count.
    pub open spec fn wf(self) -> bool {
        self.spec_word() as int == word_of(self.count())
    }

    /// The epoch at process start.
    pub fn zero() -> (r: Epoch)
        ensures
            r.wf(),
            r.count() == 0,
            r.spec_word() == 0,
    {
        Epoch { word: 0, count: Ghost(0int) }
    }

    /// The epoch with the given (even) word, taken as `word / 2` advances.
    pub fn from_word(word: u64) -> (r: Epoch)
        requires
            word % 2 == 0,
        ensures
            r.wf(),
            r.spec_word() == word,
            r.count() == word as int / 2,
    {
        proof {
            lemma_fundamental_div_mod(word as int, 2);
            assert(2 * (word as int / 2) == word as int);
            lemma_small_mod(word as nat, word_modulus() as nat);
        }
        Epoch { word, count: Ghost(word as int / 2) }
    }

    /// Returns the epoch's word.
    pub fn into_inner(self) -> (r: u64)
        ensures
            r == self.spec_word(),
    {
        self.word
    }

    /// The next epoch: one more advance, the word two higher, wrapping.
    pub fn increment(self) -> (r: Epoch)
        requires
            self.wf(),
        ensures
            r.wf(),
            r.count() == self.count() + 1,
            r.spec_word() as int == (self.spec_word() as int + 2) % word_modulus(),
    {
        proof {
            lemma_word_of_even(self.count());
            lemma_word_of_even(self.count() + 1);
            lemma_sub_mod_noop(2 * (self.count() + 1), 2, word_modulus());
            assert((2 * (self.count() + 1) - 2) % word_modulus() == word_of(self.count()));
            lemma_small_mod(self.word as nat, word_modulus() as nat);
            if self.word as int + 2 < word_modulus() {
                lemma_small_mod((self.word + 2) as nat, word_modulus() as nat);
            }
            assert(word_modulus() % word_modulus() == 0) by {
                lemma_mod_multiples_vanish(1, 0, word_modulus());
                lemma_small_mod(0nat, word_modulus() as nat);
            }
            assert(word_of(self.count() + 1) == (self.spec_word() as int + 2) % word_modulus())
                by {
                lemma_sub_mod_noop(2 * (self.count() + 1), 2 * self.count(), word_modulus());
                lemma_double_mod(self.count() + 1);
                lemma_double_mod(self.count());
            }
        }
        if self.word < u64::MAX - 1 {
            Epoch { word: self.word + 2, count: Ghost(self.count@ + 1) }
        } else {
            Epoch { word: 0, count: Ghost(self.count@ + 1) }
        }
    }

    /// The previous epoch: one advance fewer, the word two lower, wrapping.
    pub fn decrement(self) -> (r: Epoch)
        requires
            self.wf(),
        ensures
            r.wf(),
            r.count() == self.count() - 1,
    {
        proof {
            lemma_word_of_even(self.count());
            lemma_word_of_even(self.count() - 1);
            assert(word_of(self.count() - 1) == (self.spec_word() as int - 2) % word_modulus())
                by {
                lemma_sub_mod_noop(2 * self.count(), 2, word_modulus());
                lemma_double_mod(self.count() - 1);
                lemma_double_mod(self.count());
                lemma_small_mod(2nat, word_modulus() as nat);
                assert((2 * self.count() - 2) % word_modulus() == 2 * ((self.count() - 1)
                    % half_modulus()));
            }
            if self.word >= 2 {
                lemma_small_mod((self.word - 2) as nat, word_modulus() as nat);
            } else {
                lemma_mod_multiples_vanish(1, self.word as int - 2, word_modulus());
                lemma_small_mod((word_modulus() + self.word as int - 2) as nat,
                    word_modulus() as nat);
            }
        }
        if self.word >= 2 {
            Epoch { word: self.word - 2, count: Ghost(self.count@ - 1) }
        } else {
            Epoch { word: u64::MAX - 1, count: Ghost(self.count@ - 1) }
        }
    }

    /// The age of `self` relative to `global_epoch`, as far as the words can
    /// tell.
    ///
    /// The word difference determines the count difference only modulo the
    /// number of epoch values, so ages beyond two are indistinguishable from
    /// one another and are reported as [`Undetermined`]. Because an observed
    /// epoch never lies ahead of the reference, a determined age is a lower
    /// bound on the true count difference, and an undetermined age means the
    /// observed epoch is at least three advances old — old enough that its
    /// records are safe to destroy.
    pub fn relative_age(self, global_epoch: Epoch) -> (r: Result<PossibleAge, Undetermined>)
        requires
            self.wf(),
            global_epoch.wf(),
            self.count() <= global_epoch.count(),
        ensures
            (r == Ok::<PossibleAge, Undetermined>(PossibleAge::SameEpoch)) <==> count_age(
                self.count(),
                global_epoch.count(),
            ) == 0,
            (r == Ok::<PossibleAge, Undetermined>(PossibleAge::OneEpoch)) <==> count_age(
                self.count(),
                global_epoch.count(),
            ) == 1,
            (r == Ok::<PossibleAge, Undetermined>(PossibleAge::TwoEpochs)) <==> count_age(
                self.count(),
                global_epoch.count(),
            ) == 2,
            (r is Err) <==> count_age(self.count(), global_epoch.count()) >= 3,
            r is Err ==> global_epoch.count() - self.count() >= 3,
            r == Ok::<PossibleAge, Undetermined>(PossibleAge::OneEpoch) ==> global_epoch.count()
                - self.count() >= 1,
            r == Ok::<PossibleAge, Undetermined>(PossibleAge::TwoEpochs) ==> global_epoch.count()
                - self.count() >= 2,
    {
        let ghost d = global_epoch.count() - self.count();
        proof {
            lemma_wrap_diff(self.count(), global_epoch.count());
            lemma_mod_bound(d, half_modulus());
            lemma_mod_le(d, half_modulus());
            lemma_word_of_even(self.count());
            lemma_word_of_even(global_epoch.count());
            if global_epoch.word >= self.word {
                lemma_small_mod((global_epoch.word - self.word) as nat, word_modulus() as nat);
            } else {
                lemma_mod_multiples_vanish(
                    1,
                    global_epoch.word as int - self.word as int,
                    word_modulus(),
                );
                lemma_small_mod(
                    (word_modulus() + global_epoch.word as int - self.word as int) as nat,
                    word_modulus() as nat,
                );
            }
        }
        let diff: u64 = if global_epoch.word >= self.word {
            global_epoch.word - self.word
        } else {
            (u64::MAX - self.word) + 1 + global_epoch.word
        };
        if diff == 0 {
            Ok(PossibleAge::SameEpoch)
        } else if diff == 2 {
            Ok(PossibleAge::OneEpoch)
        } else if diff == 4 {
            Ok(PossibleAge::TwoEpochs)
        } else {
            Err(Undetermined)
        }
    }
}

/// The possible age of an epoch relative to the global epoch, within the
/// two-epoch window during which its records must not be destroyed.
#[derive(Clone, Copy, PartialEq, Eq, Structural, Debug)]
pub enum PossibleAge {
    /// The observed epoch may equal the reference.
    SameEpoch,
    /// The observed epoch may be one advance behind.
    OneEpoch,
    /// The observed epoch may be two advances behind.
    TwoEpochs,
}

/// The observed epoch is too far behind for its age to matter: at least
/// three advances old, hence outside the danger window.
#[derive(Clone, Copy, PartialEq, Eq, Structural, Debug)]
pub struct Undetermined;

/// Whether a thread is inside a guarded section.
#[derive(Clone, Copy, PartialEq, Eq, Structural, Debug)]
pub enum State {
    /// Inside a guarded section; the announced epoch protects records.
    Active,
    /// Outside every guarded section; the announced epoch is stale.
    Quiescent,
}

/// The global epoch cell.
///
/// In a running process this is the one word every thread reads and CASes;
/// here it is a value inside [`crate::global::Global`], and the
/// compare-and-swap contract records that the count only moves the way the
/// caller proves it does.
pub struct AtomicEpoch {
    value: Epoch,
}

impl AtomicEpoch {
    /// The current epoch.
    pub closed spec fn value(self) -> Epoch {
        self.value
    }

    /// Creates the counter at epoch zero.
    pub fn new() -> (r: AtomicEpoch)
        ensures
            r.value().wf(),
            r.value().count() == 0,
            r.value().spec_word() == 0,
    {
        AtomicEpoch { value: Epoch::zero() }
    }

    /// Creates the counter at the given epoch.
    pub fn starting_at(epoch: Epoch) -> (r: AtomicEpoch)
        ensures
            r.value() == epoch,
    {
        AtomicEpoch { value: epoch }
    }

    /// Loads the current epoch.
    pub fn load(&self) -> (r: Epoch)
        ensures
            r == self.value(),
    {
        self.value
    }

    /// Replaces the epoch with `new` if the current word equals `current`'s,
    /// returning the previous epoch either way.
    pub fn compare_and_swap(&mut self, current: Epoch, new: Epoch) -> (prev: Epoch)
        ensures
            prev == old(self).value(),
            old(self).value().spec_word() == current.spec_word() ==> final (self).value() == new,
            old(self).value().spec_word() != current.spec_word() ==> final (self).value() == old(
                self,
            ).value(),
    {
        let prev = self.value;
        if self.value.into_inner() == current.into_inner() {
            self.value = new;
        }
        prev
    }
}

/// A thread's announcement word: its last observed epoch and whether it is
/// active, packed into one word whose low bit carries the quiescent flag.
#[derive(Clone, Copy)]
pub struct ThreadState {
    word: u64,
    count: Ghost<int>,
}

impl ThreadState {
    /// The packed announcement word.
    pub closed spec fn spec_word(self) -> u64 {
        self.word
    }

    /// The number of advances of the announced epoch.
    pub closed spec fn count(self) -> int {
        self.count@
    }

    /// The announced epoch's word: the packed word with the flag cleared.
    pub open spec fn announced_word(self) -> int {
        self.spec_word() as int - self.spec_word() as int % 2
    }

    /// The announced state, carried by the low bit.
    pub open spec fn spec_state(self) -> State {
        if self.spec_word() as int % 2 == 0 {
            State::Active
        } else {
            State::Quiescent
        }
    }

    /// The announced epoch's word is the image of the ghost count.
    pub open spec fn wf(self) -> bool {
        self.announced_word() == word_of(self.count())
    }

    /// A fresh announcement: the given epoch, quiescent.
    pub fn new(global_epoch: Epoch) -> (r: ThreadState)
        requires
            global_epoch.wf(),
        ensures
            r.wf(),
            r.count() == global_epoch.count(),
            r.spec_state() == State::Quiescent,
    {
        proof {
            lemma_word_of_even(global_epoch.count());
        }
        ThreadState { word: global_epoch.into_inner() + 1, count: Ghost(global_epoch.count()) }
    }

    /// Publishes the given epoch and state.
    pub fn store(&mut self, epoch: Epoch, state: State)
        requires
            epoch.wf(),
        ensures
            final (self).wf(),
            final (self).count() == epoch.count(),
            final (self).spec_state() == state,
    {
        proof {
            lemma_word_of_even(epoch.count());
        }
        let word = match state {
            State::Active => epoch.into_inner(),
            State::Quiescent => epoch.into_inner() + 1,
        };
        self.word = word;
        self.count = Ghost(epoch.count());
    }

    /// Reads the announcement back as an epoch and a state.
    pub fn load_decompose(&self) -> (r: (Epoch, State))
        requires
            self.wf(),
        ensures
            r.0.wf(),
            r.0.count() == self.count(),
            r.0.spec_word() as int == self.announced_word(),
            r.1 == self.spec_state(),
    {
        let masked: u64 = self.word - self.word % 2;
        let epoch = Epoch { word: masked, count: Ghost(self.count@) };
        let state = if self.word % 2 == 0 {
            State::Active
        } else {
            State::Quiescent
        };
        (epoch, state)
    }
}

} // verus!
