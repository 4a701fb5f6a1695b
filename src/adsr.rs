//! The ADSR envelope as a state machine over sample ticks. Stage lengths are counted
//! in samples; the caller scales the waveform by the stage's scalars as each tick says.
use vstd::prelude::*;

verus! {

/// Stage of an envelope: the chain Attack, Decay, Sustain, Release, Finished.
#[derive(Debug, Clone, Copy, PartialEq, Eq, Structural)]
pub enum AdsrState {
    Attack,
    Decay,
    Sustain,
    Release,
    Finished,
}

/// Position of a stage in the chain.
pub open spec fn stage_index(s: AdsrState) -> nat {
    match s {
        AdsrState::Attack => 0,
        AdsrState::Decay => 1,
        AdsrState::Sustain => 2,
        AdsrState::Release => 3,
        AdsrState::Finished => 4,
    }
}

/// The stage that follows `s`; Finished follows itself.
pub open spec fn next_stage(s: AdsrState) -> AdsrState {
    match s {
        AdsrState::Attack => AdsrState::Decay,
        AdsrState::Decay => AdsrState::Sustain,
        AdsrState::Sustain => AdsrState::Release,
        AdsrState::Release => AdsrState::Finished,
        AdsrState::Finished => AdsrState::Finished,
    }
}

/// What one tick of the envelope asks of the caller.
#[derive(Debug, Clone, Copy, PartialEq, Eq, Structural)]
pub enum EnvelopeTick {
    /// Still inside `state`: scale by the interpolation between the stage's start and
    /// end scalars at `elapsed / length` (`1 <= elapsed <= length`).
    Ramp { state: AdsrState, elapsed: u64, length: u64 },
    /// `state` has just run out: scale by its end scalar. The envelope is now in the
    /// next stage.
    End { state: AdsrState },
    /// The envelope is finished: the output is silence.
    Silent,
}

/// Length in ticks of stage `s` for the stage lengths `(attack, decay, sustain,
/// release)`; Finished has no end and counts as zero.
pub open spec fn stage_length(lengths: (u64, u64, u64, u64), s: AdsrState) -> u64 {
    match s {
        AdsrState::Attack => lengths.0,
        AdsrState::Decay => lengths.1,
        AdsrState::Sustain => lengths.2,
        AdsrState::Release => lengths.3,
        AdsrState::Finished => 0,
    }
}

/// One tick from stage `state` after `ticks` ticks in it, for a stage of `length` ticks:
/// the new stage, the new tick count and what the tick asks of the caller.
pub open spec fn step(state: AdsrState, ticks: u64, length: u64) -> (AdsrState, u64, EnvelopeTick) {
    if state == AdsrState::Finished {
        (state, ticks, EnvelopeTick::Silent)
    } else if ticks >= length {
        (next_stage(state), 0, EnvelopeTick::End { state })
    } else {
        (
            state,
            (ticks + 1) as u64,
            EnvelopeTick::Ramp { state, elapsed: (ticks + 1) as u64, length },
        )
    }
}

/// Stage and ticks in it after `n` ticks, starting from `state` after `ticks` ticks.
pub open spec fn timing_after(lengths: (u64, u64, u64, u64), state: AdsrState, ticks: u64, n: nat) -> (
    AdsrState,
    u64,
)
    decreases n,
{
    if n == 0 {
        (state, ticks)
    } else {
        let (s1, t1, _) = step(state, ticks, stage_length(lengths, state));
        timing_after(lengths, s1, t1, (n - 1) as nat)
    }
}

/// Number of ticks from the start of the attack to Finished: each stage of length `n`
/// takes `n` ramp ticks and one end tick.
pub open spec fn lifetime(lengths: (u64, u64, u64, u64)) -> nat {
    (lengths.0 + lengths.1 + lengths.2 + lengths.3 + 4) as nat
}

proof fn lemma_timing_split(lengths: (u64, u64, u64, u64), state: AdsrState, ticks: u64, n: nat, m: nat)
    ensures
        timing_after(lengths, state, ticks, n + m) == timing_after(
            lengths,
            timing_after(lengths, state, ticks, n).0,
            timing_after(lengths, state, ticks, n).1,
            m,
        ),
    decreases n,
{
    if n > 0 {
        let (s1, t1, _) = step(state, ticks, stage_length(lengths, state));
        lemma_timing_split(lengths, s1, t1, (n - 1) as nat, m);
        assert((n + m - 1) as nat == (n - 1) as nat + m);
    }
}

proof fn lemma_within_stage(lengths: (u64, u64, u64, u64), state: AdsrState, ticks: u64, k: nat)
    requires
        state != AdsrState::Finished,
        ticks + k <= stage_length(lengths, state),
    ensures
        timing_after(lengths, state, ticks, k) == (state, (ticks + k) as u64),
    decreases k,
{
    if k > 0 {
        lemma_within_stage(lengths, state, (ticks + 1) as u64, (k - 1) as nat);
    }
}

proof fn lemma_whole_stage(lengths: (u64, u64, u64, u64), state: AdsrState)
    requires
        state != AdsrState::Finished,
    ensures
        timing_after(lengths, state, 0, (stage_length(lengths, state) + 1) as nat) == (
            next_stage(state),
            0u64,
        ),
{
    let len = stage_length(lengths, state) as nat;
    lemma_within_stage(lengths, state, 0, len);
    lemma_timing_split(lengths, state, 0, len, 1);
    let l = stage_length(lengths, state);
    assert(timing_after(lengths, next_stage(state), 0, 0) == (next_stage(state), 0u64));
    assert(timing_after(lengths, state, l, 1) == timing_after(lengths, next_stage(state), 0, 0));
}

proof fn lemma_finished_stays(lengths: (u64, u64, u64, u64), ticks: u64, n: nat)
    ensures
        timing_after(lengths, AdsrState::Finished, ticks, n) == (AdsrState::Finished, ticks),
    decreases n,
{
    if n > 0 {
        lemma_finished_stays(lengths, ticks, (n - 1) as nat);
    }
}

/// Up to the stage's length, ticks from the start of a stage leave the envelope in it.
proof fn lemma_in_stage_at(lengths: (u64, u64, u64, u64), state: AdsrState, k: nat)
    requires
        state != AdsrState::Finished,
        k <= stage_length(lengths, state),
    ensures
        timing_after(lengths, state, 0, k).0 == state,
{
    lemma_within_stage(lengths, state, 0, k);
}

/// Envelope lifecycle: an envelope started at the beginning of its attack is finished
/// after `n` ticks exactly when `n` reaches `attack + decay + sustain + release + 4`,
/// and from then on it stays finished.
pub proof fn lemma_envelope_lifecycle(lengths: (u64, u64, u64, u64), n: nat)
    ensures
        (timing_after(lengths, AdsrState::Attack, 0, n).0 == AdsrState::Finished) <==> n >= lifetime(
            lengths,
        ),
{
    let t1 = lengths.0 + 1;
    let t2 = t1 + lengths.1 + 1;
    let t3 = t2 + lengths.2 + 1;
    let t4 = t3 + lengths.3 + 1;
    lemma_whole_stage(lengths, AdsrState::Attack);
    lemma_whole_stage(lengths, AdsrState::Decay);
    lemma_whole_stage(lengths, AdsrState::Sustain);
    lemma_whole_stage(lengths, AdsrState::Release);
    lemma_timing_split(lengths, AdsrState::Attack, 0, t1 as nat, (t2 - t1) as nat);
    lemma_timing_split(lengths, AdsrState::Attack, 0, t2 as nat, (t3 - t2) as nat);
    lemma_timing_split(lengths, AdsrState::Attack, 0, t3 as nat, (t4 - t3) as nat);
    if n < t1 {
        lemma_in_stage_at(lengths, AdsrState::Attack, n);
    } else if n < t2 {
        lemma_timing_split(lengths, AdsrState::Attack, 0, t1 as nat, (n - t1) as nat);
        lemma_in_stage_at(lengths, AdsrState::Decay, (n - t1) as nat);
    } else if n < t3 {
        lemma_timing_split(lengths, AdsrState::Attack, 0, t2 as nat, (n - t2) as nat);
        lemma_in_stage_at(lengths, AdsrState::Sustain, (n - t2) as nat);
    } else if n < t4 {
        lemma_timing_split(lengths, AdsrState::Attack, 0, t3 as nat, (n - t3) as nat);
        lemma_in_stage_at(lengths, AdsrState::Release, (n - t3) as nat);
    } else {
        lemma_timing_split(lengths, AdsrState::Attack, 0, t4 as nat, (n - t4) as nat);
        lemma_finished_stays(lengths, 0, (n - t4) as nat);
    }
}

/// Timing of an ADSR envelope: the current stage, the ticks spent in it, and the length
/// of each timed stage in ticks.
#[derive(Debug, Clone, Copy)]
pub struct Envelope {
    state: AdsrState,
    ticks_in_state: u64,
    attack: u64,
    decay: u64,
    sustain: u64,
    release: u64,
}

impl Envelope {
    pub closed spec fn state_spec(&self) -> AdsrState {
        self.state
    }

    pub closed spec fn ticks_spec(&self) -> u64 {
        self.ticks_in_state
    }

    /// The lengths of the four timed stages, in ticks.
    pub closed spec fn lengths(&self) -> (u64, u64, u64, u64) {
        (self.attack, self.decay, self.sustain, self.release)
    }

    /// Length in ticks of stage `s` (zero for Finished, which has no end).
    pub open spec fn length_of(&self, s: AdsrState) -> u64 {
        stage_length(self.lengths(), s)
    }

    /// A fresh envelope at the start of its attack.
    pub fn new(attack: u64, decay: u64, sustain: u64, release: u64) -> (r: Self)
        ensures
            r.state_spec() == AdsrState::Attack,
            r.ticks_spec() == 0,
            r.lengths() == (attack, decay, sustain, release),
    {
        Envelope { state: AdsrState::Attack, ticks_in_state: 0, attack, decay, sustain, release }
    }

    fn stage_length(&self) -> (r: u64)
        ensures
            r == self.length_of(self.state_spec()),
    {
        match self.state {
            AdsrState::Attack => self.attack,
            AdsrState::Decay => self.decay,
            AdsrState::Sustain => self.sustain,
            AdsrState::Release => self.release,
            AdsrState::Finished => 0,
        }
    }

    /// Advances the envelope by one sample. A stage of length `n` gives `n` ramp ticks
    /// and then one end tick, after which the next stage begins; a finished envelope
    /// stays finished and is silent.
    pub fn next(&mut self) -> (r: EnvelopeTick)
        ensures
            final(self).lengths() == old(self).lengths(),
            (final(self).state_spec(), final(self).ticks_spec(), r) == step(
                old(self).state_spec(),
                old(self).ticks_spec(),
                old(self).length_of(old(self).state_spec()),
            ),
            stage_index(old(self).state_spec()) <= stage_index(final(self).state_spec()),
            old(self).state_spec() == AdsrState::Finished ==> *final(self) == *old(self),
    {
        let state = self.state;
        if let AdsrState::Finished = state {
            return EnvelopeTick::Silent;
        }
        let length = self.stage_length();
        if self.ticks_in_state >= length {
            self.state = match state {
                AdsrState::Attack => AdsrState::Decay,
                AdsrState::Decay => AdsrState::Sustain,
                AdsrState::Sustain => AdsrState::Release,
                _ => AdsrState::Finished,
            };
            self.ticks_in_state = 0;
            EnvelopeTick::End { state }
        } else {
            self.ticks_in_state = self.ticks_in_state + 1;
            EnvelopeTick::Ramp { state, elapsed: self.ticks_in_state, length }
        }
    }

    /// True exactly when the envelope has reached Finished.
    pub fn finished(&self) -> (r: bool)
        ensures
            r == (self.state_spec() == AdsrState::Finished),
    {
        match self.state {
            AdsrState::Attack | AdsrState::Decay | AdsrState::Sustain | AdsrState::Release => false,
            AdsrState::Finished => true,
        }
    }

    /// The current stage.
    pub fn state(&self) -> (r: AdsrState)
        ensures
            r == self.state_spec(),
    {
        self.state
    }
}

} // verus!
