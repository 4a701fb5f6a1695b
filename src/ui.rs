//! The consumer side of the audio feed: a fixed-capacity ring of the latest samples,
//! and the keys that steer the view.
use vstd::prelude::*;

verus! {

/// Whether the consumer loop goes on after handling its input.
#[derive(Debug, Clone, Copy, PartialEq, Eq, Structural)]
pub enum LoopState {
    Continue,
    Exit,
}

/// The key that widens the window (`+`).
pub const KEY_WIDEN: u8 = 43;

/// The key that narrows the window (`-`).
pub const KEY_NARROW: u8 = 45;

/// The key that quits (`q`).
pub const KEY_QUIT: u8 = 113;

/// How many samples one press of `+` or `-` adds to or takes from the window.
pub const WINDOW_STEP: usize = 50;

/// The window after one key that is not `q`: `+` widens it by a step (up to
/// `usize::MAX`), `-` narrows it by a step when it is wider than one step, and any
/// other key leaves it.
pub open spec fn key_effect(window: nat, key: u8) -> nat {
    if key == KEY_WIDEN {
        if window + WINDOW_STEP > usize::MAX {
            usize::MAX as nat
        } else {
            (window + WINDOW_STEP) as nat
        }
    } else if key == KEY_NARROW && window > WINDOW_STEP {
        (window - WINDOW_STEP) as nat
    } else {
        window
    }
}

/// The window and loop state after handling `keys` in order, starting from `window`:
/// `q` stops the loop and the keys after it are not looked at.
pub open spec fn after_keys(window: nat, keys: Seq<u8>) -> (nat, LoopState)
    decreases keys.len(),
{
    if keys.len() == 0 {
        (window, LoopState::Continue)
    } else {
        let (w, s) = after_keys(window, keys.drop_last());
        if s == LoopState::Exit {
            (w, s)
        } else if keys.last() == KEY_QUIT {
            (w, LoopState::Exit)
        } else {
            (key_effect(w, keys.last()), LoopState::Continue)
        }
    }
}

proof fn lemma_exit_is_final(window: nat, keys: Seq<u8>, j: int)
    requires
        0 <= j <= keys.len(),
        after_keys(window, keys.subrange(0, j)).1 == LoopState::Exit,
    ensures
        after_keys(window, keys) == after_keys(window, keys.subrange(0, j)),
    decreases keys.len(),
{
    if j < keys.len() {
        assert(keys.drop_last().subrange(0, j) =~= keys.subrange(0, j));
        lemma_exit_is_final(window, keys.drop_last(), j);
    } else {
        assert(keys.subrange(0, j) =~= keys);
    }
}

/// Handles the pending key presses: `+` and `-` resize the sample window by a step,
/// `q` asks the loop to exit.
pub fn apply_keys(sample_window: usize, keys: &Vec<u8>) -> (r: (usize, LoopState))
    ensures
        (r.0 as nat, r.1) == after_keys(sample_window as nat, keys@),
{
    let mut window = sample_window;
    let mut i: usize = 0;
    while i < keys.len()
        invariant
            i <= keys@.len(),
            (window as nat, LoopState::Continue) == after_keys(
                sample_window as nat,
                keys@.subrange(0, i as int),
            ),
        decreases keys@.len() - i,
    {
        let key = keys[i];
        proof {
            assert(keys@.subrange(0, i as int + 1).drop_last() =~= keys@.subrange(0, i as int));
        }
        if key == KEY_QUIT {
            proof {
                lemma_exit_is_final(sample_window as nat, keys@, i as int + 1);
            }
            return (window, LoopState::Exit);
        } else if key == KEY_WIDEN {
            window = window.saturating_add(WINDOW_STEP);
        } else if key == KEY_NARROW {
            if window > WINDOW_STEP {
                window = window - WINDOW_STEP;
            }
        }
        i = i + 1;
    }
    proof {
        assert(keys@.subrange(0, keys@.len() as int) =~= keys@);
    }
    (window, LoopState::Continue)
}

/// A fixed-capacity circular buffer of samples, overwritten oldest first.
pub struct SampleRing<T> {
    samples: Vec<T>,
    total: usize,
    history: Ghost<Seq<T>>,
}

impl<T: Copy> SampleRing<T> {
    /// Every sample added so far, oldest first.
    pub closed spec fn history(&self) -> Seq<T> {
        self.history@
    }

    /// The slots of the ring as they stand.
    pub closed spec fn storage(&self) -> Seq<T> {
        self.samples@
    }

    pub closed spec fn wf(&self) -> bool {
        &&& self.samples@.len() > 0
        &&& self.history@.len() == self.total
        &&& forall|k: int|
            0 <= k < self.total && k + self.samples@.len() >= self.total ==> self.samples@[k
                % self.samples@.len() as int] == #[trigger] self.history@[k]
    }

    /// A ring of `capacity` slots, all holding `fill`, with nothing added yet.
    pub fn new(capacity: usize, fill: T) -> (r: Self)
        requires
            capacity > 0,
        ensures
            r.wf(),
            r.history().len() == 0,
            r.storage().len() == capacity,
    {
        let samples = vec![fill; capacity];
        SampleRing { samples, total: 0, history: Ghost(Seq::empty()) }
    }

    /// Number of samples added so far.
    pub fn total(&self) -> (r: usize)
        requires
            self.wf(),
        ensures
            r == self.history().len(),
    {
        self.total
    }

    /// Number of slots.
    pub fn capacity(&self) -> (r: usize)
        requires
            self.wf(),
        ensures
            r == self.storage().len(),
    {
        self.samples.len()
    }

    /// Stores `x` in the slot after the latest sample, over the oldest one once the
    /// ring is full.
    pub fn add_sample(&mut self, x: T)
        requires
            old(self).wf(),
            old(self).history().len() < usize::MAX,
        ensures
            final(self).wf(),
            final(self).history() == old(self).history().push(x),
            final(self).storage().len() == old(self).storage().len(),
    {
        let cap = self.samples.len();
        let slot = self.total % cap;
        self.samples.set(slot, x);
        self.history = Ghost(self.history@.push(x));
        self.total = self.total + 1;
        proof {
            let n = cap as int;
            assert forall|k: int|
                0 <= k < self.total && k + n >= self.total implies self.samples@[k % n]
                == #[trigger] self.history@[k] by {
                if k < self.total - 1 {
                    let t1 = (self.total - 1) as int;
                    assert(slot as int == t1 % n);
                    vstd::arithmetic::div_mod::lemma_mod_equivalence(t1, k, n);
                    vstd::arithmetic::div_mod::lemma_small_mod((t1 - k) as nat, n as nat);
                    assert(k % n != slot as int);
                }
            }
        }
    }

    /// The latest `window` slots in order, oldest first, or nothing while fewer than
    /// `window` samples have been added. When `window` is within the capacity these are
    /// the latest `window` samples.
    pub fn frame(&self, window: usize) -> (r: Vec<T>)
        requires
            self.wf(),
        ensures
            self.history().len() < window ==> r@.len() == 0,
            self.history().len() >= window ==> r@ == Seq::new(
                window as nat,
                |i: int|
                    self.storage()[(self.history().len() - window + i) % (self.storage().len() as int)],
            ),
            self.history().len() >= window && window <= self.storage().len() ==> r@
                == self.history().subrange(self.history().len() - window, self.history().len() as int),
    {
        let mut out: Vec<T> = Vec::new();
        if self.total < window {
            return out;
        }
        let cap = self.samples.len();
        let ghost base = (self.total - window) as int;
        for i in 0..window
            invariant
                self.wf(),
                cap == self.samples@.len(),
                self.total >= window,
                base == self.total - window,
                out@.len() == i,
                forall|j: int| 0 <= j < i ==> #[trigger] out@[j] == self.samples@[(base + j) % (cap as int)],
        {
            let idx = (self.total - window + i) % cap;
            out.push(self.samples[idx]);
        }
        proof {
            if window <= cap {
                assert(out@ =~= self.history@.subrange(base, self.total as int));
            }
        }
        out
    }
}

} // verus!
