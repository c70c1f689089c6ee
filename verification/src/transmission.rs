//! The transmission layer: the receiver's synchronisation state machine.
//!
//! The receiver moves a cursor over the stream of samples. It probes the
//! stream window by window, and from what each probe shows it decides where
//! the cursor goes and whether the preamble, the bits 1, 0, 1 in this order,
//! has been seen. Reading the samples and analysing them is the caller's
//! part: the receiver says which samples it wants, and takes the outcome.

use crate::preamble::Preamble;
use vstd::prelude::*;

verus! {

/// Samples per second.
pub const SAMPLE_RATE: usize = 44100;

/// Samples of one symbol: a tenth of a second.
pub const SAMPLE_NUMBER: usize = 4410;

/// Samples of one probe window.
pub const PROBE_SAMPLE_NUMBER: usize = 256;

/// A bit is confirmed once more votes than this have been collected for it.
pub const VOTE_THRESHOLD: usize = 20;

/// A collection is given up when more probes than this showed the other bit.
pub const MISMATCH_LIMIT: usize = 3;

/// A collection is given up when more probes in a row than this showed
/// nothing.
pub const SILENCE_LIMIT: usize = 30;

/// Number of bits of the preamble.
pub const PREAMBLE_STEPS: usize = 3;

/// What the receiver is doing.
#[derive(Debug, Clone, Copy, PartialEq, Eq, Structural)]
pub enum Phase {
    /// Waiting for the first sight of the bit that is sought.
    Scanning,
    /// Collecting votes for the bit that is sought.
    Collecting,
    /// The whole preamble has been confirmed.
    Synchronized,
}

/// The receiver's state.
#[derive(Debug, Clone, Copy, PartialEq, Eq, Structural)]
pub struct Receiver {
    /// The cursor: how many samples of the stream are done with.
    pub processed_samples: usize,
    pub phase: Phase,
    /// How many bits of the preamble have been confirmed.
    pub confirmed: usize,
    /// Votes collected for the bit that is sought.
    pub votes: usize,
    /// Probes of this collection that showed the other bit.
    pub mismatches: usize,
    /// Probes in a row that showed nothing.
    pub silences: usize,
}

/// The bit that is sought when `confirmed` bits of the preamble 1, 0, 1 have
/// been confirmed.
pub open spec fn sought_bit(confirmed: usize) -> u8 {
    if confirmed == 1 {
        0
    } else {
        1
    }
}

/// How far an outcome lets the cursor go at most: to the end of what was
/// detected, or over the whole probe window if nothing was.
pub open spec fn advance(outcome: Preamble) -> nat {
    match outcome {
        Preamble::NoPreamble => PROBE_SAMPLE_NUMBER as nat,
        Preamble::Detected { ending_position, .. } => ending_position as nat,
    }
}

/// A receiver that has confirmed nothing, with its cursor at `cursor`.
pub open spec fn scanning_from(cursor: usize) -> Receiver {
    Receiver {
        processed_samples: cursor,
        phase: Phase::Scanning,
        confirmed: 0,
        votes: 0,
        mismatches: 0,
        silences: 0,
    }
}

/// The receiver after one more bit has been confirmed.
pub open spec fn confirm(s: Receiver, cursor: usize) -> Receiver {
    if s.confirmed + 1 >= PREAMBLE_STEPS {
        Receiver {
            processed_samples: cursor,
            phase: Phase::Synchronized,
            confirmed: PREAMBLE_STEPS,
            votes: 0,
            mismatches: 0,
            silences: 0,
        }
    } else {
        Receiver {
            processed_samples: cursor,
            phase: Phase::Scanning,
            confirmed: (s.confirmed + 1) as usize,
            votes: 0,
            mismatches: 0,
            silences: 0,
        }
    }
}

/// The receiver after a probe, from the receiver before it and what the probe
/// showed.
///
/// Scanning, the cursor skips what the probe covered, and the first sight of
/// the sought bit starts a collection. Collecting, votes for the sought bit
/// add up until they pass the threshold, which confirms the bit; too many
/// sights of the other bit, or too many empty probes in a row, end the
/// collection and undo every confirmation. A synchronised receiver stays as
/// it is.
pub open spec fn next(s: Receiver, outcome: Preamble) -> Receiver {
    let moved = (s.processed_samples + advance(outcome)) as usize;
    match s.phase {
        Phase::Synchronized => s,
        Phase::Scanning => match outcome {
            Preamble::NoPreamble => Receiver { processed_samples: moved, ..s },
            Preamble::Detected { signal_bit, .. } => Receiver {
                processed_samples: moved,
                phase: if signal_bit == sought_bit(s.confirmed) {
                    Phase::Collecting
                } else {
                    Phase::Scanning
                },
                ..s
            },
        },
        Phase::Collecting => match outcome {
            Preamble::NoPreamble => if s.silences + 1 > SILENCE_LIMIT {
                scanning_from(moved)
            } else {
                Receiver { processed_samples: moved, silences: (s.silences + 1) as usize, ..s }
            },
            Preamble::Detected { signal_bit, votes, .. } => if signal_bit != sought_bit(
                s.confirmed,
            ) {
                if s.mismatches + 1 > MISMATCH_LIMIT {
                    scanning_from(s.processed_samples)
                } else {
                    Receiver {
                        processed_samples: moved,
                        mismatches: (s.mismatches + 1) as usize,
                        silences: 0,
                        ..s
                    }
                }
            } else if s.votes + votes > VOTE_THRESHOLD {
                confirm(s, moved)
            } else {
                Receiver {
                    processed_samples: moved,
                    votes: (s.votes + votes) as usize,
                    silences: 0,
                    ..s
                }
            },
        },
    }
}

/// The receiver after a series of probes.
pub open spec fn after(s: Receiver, outcomes: Seq<Preamble>) -> Receiver
    decreases outcomes.len(),
{
    if outcomes.len() == 0 {
        s
    } else {
        next(after(s, outcomes.drop_last()), outcomes.last())
    }
}

/// The samples that a series of probes lets the cursor go over at most.
pub open spec fn total_advance(outcomes: Seq<Preamble>) -> nat
    decreases outcomes.len(),
{
    if outcomes.len() == 0 {
        0
    } else {
        total_advance(outcomes.drop_last()) + advance(outcomes.last())
    }
}

impl Receiver {
    /// The counters are within their limits, and at rest outside a
    /// collection.
    pub open spec fn wf(&self) -> bool {
        match self.phase {
            Phase::Scanning => self.confirmed < PREAMBLE_STEPS && self.votes == 0
                && self.mismatches == 0 && self.silences == 0,
            Phase::Collecting => self.confirmed < PREAMBLE_STEPS && self.votes <= VOTE_THRESHOLD
                && self.mismatches <= MISMATCH_LIMIT && self.silences <= SILENCE_LIMIT,
            Phase::Synchronized => self.confirmed == PREAMBLE_STEPS && self.votes == 0
                && self.mismatches == 0 && self.silences == 0,
        }
    }

    /// A receiver at the start of the stream.
    pub fn new() -> (receiver: Receiver)
        ensures
            receiver == scanning_from(0),
            receiver.wf(),
    {
        Receiver {
            processed_samples: 0,
            phase: Phase::Scanning,
            confirmed: 0,
            votes: 0,
            mismatches: 0,
            silences: 0,
        }
    }

    /// The samples of the next symbol: from the cursor on, `SAMPLE_NUMBER` of
    /// them.
    pub fn take_samples(&self) -> (range: (usize, usize))
        requires
            self.processed_samples + SAMPLE_NUMBER <= usize::MAX,
        ensures
            range.0 == self.processed_samples,
            range.1 == self.processed_samples + SAMPLE_NUMBER,
    {
        (self.processed_samples, self.processed_samples + SAMPLE_NUMBER)
    }

    /// The samples of the next probe window: from the cursor on,
    /// `PROBE_SAMPLE_NUMBER` of them.
    pub fn take_probe_samples(&self) -> (range: (usize, usize))
        requires
            self.processed_samples + PROBE_SAMPLE_NUMBER <= usize::MAX,
        ensures
            range.0 == self.processed_samples,
            range.1 == self.processed_samples + PROBE_SAMPLE_NUMBER,
    {
        (self.processed_samples, self.processed_samples + PROBE_SAMPLE_NUMBER)
    }

    /// The bit that the receiver seeks; none once it is synchronised.
    pub fn sought(&self) -> (bit: Option<u8>)
        requires
            self.wf(),
        ensures
            bit == if self.phase is Synchronized {
                None
            } else {
                Some(sought_bit(self.confirmed))
            },
    {
        match self.phase {
            Phase::Synchronized => None,
            _ => Some(
                if self.confirmed == 1 {
                    0
                } else {
                    1
                },
            ),
        }
    }

    /// Takes in what one probe showed. The cursor never goes back.
    pub fn step(&mut self, outcome: Preamble) -> (phase: Phase)
        requires
            old(self).wf(),
            old(self).processed_samples + advance(outcome) <= usize::MAX,
        ensures
            *final(self) == next(*old(self), outcome),
            final(self).wf(),
            phase == final(self).phase,
            old(self).processed_samples <= final(self).processed_samples <= old(
                self,
            ).processed_samples + advance(outcome),
    {
        let sought: u8 = if self.confirmed == 1 {
            0
        } else {
            1
        };
        match self.phase {
            Phase::Synchronized => {},
            Phase::Scanning => match outcome {
                Preamble::NoPreamble => {
                    self.processed_samples = self.processed_samples + PROBE_SAMPLE_NUMBER;
                },
                Preamble::Detected { ending_position, signal_bit, votes: _ } => {
                    self.processed_samples = self.processed_samples + ending_position;
                    if signal_bit == sought {
                        self.phase = Phase::Collecting;
                    }
                },
            },
            Phase::Collecting => match outcome {
                Preamble::NoPreamble => {
                    self.processed_samples = self.processed_samples + PROBE_SAMPLE_NUMBER;
                    self.silences = self.silences + 1;
                    if self.silences > SILENCE_LIMIT {
                        self.restart();
                    }
                },
                Preamble::Detected { ending_position, signal_bit, votes } => {
                    if signal_bit != sought {
                        self.mismatches = self.mismatches + 1;
                        if self.mismatches > MISMATCH_LIMIT {
                            self.restart();
                        } else {
                            self.silences = 0;
                            self.processed_samples = self.processed_samples + ending_position;
                        }
                    } else {
                        self.processed_samples = self.processed_samples + ending_position;
                        if votes > VOTE_THRESHOLD - self.votes {
                            self.confirmed = self.confirmed + 1;
                            self.votes = 0;
                            self.mismatches = 0;
                            self.silences = 0;
                            self.phase = if self.confirmed >= PREAMBLE_STEPS {
                                Phase::Synchronized
                            } else {
                                Phase::Scanning
                            };
                        } else {
                            self.votes = self.votes + votes;
                            self.silences = 0;
                        }
                    }
                },
            },
        }
        self.phase
    }

    /// Moves the cursor over `samples` samples that were dealt with apart
    /// from probing, such as the symbols of a payload.
    pub fn consume(&mut self, samples: usize)
        requires
            old(self).processed_samples + samples <= usize::MAX,
        ensures
            *final(self) == (Receiver {
                processed_samples: (old(self).processed_samples + samples) as usize,
                ..*old(self)
            }),
    {
        self.processed_samples = self.processed_samples + samples;
    }

    /// Takes in what a probe showed once the preamble is confirmed, when what
    /// is left of the preamble's last tone still lies before the cursor.
    /// While a probe shows that tone's bit, the cursor goes to the end of what
    /// was detected, and the answer is `false`. The first probe that shows
    /// anything else leaves the cursor where the payload begins, and the
    /// answer is `true`.
    pub fn consume_lagging_preamble(&mut self, outcome: Preamble) -> (done: bool)
        requires
            old(self).processed_samples + advance(outcome) <= usize::MAX,
        ensures
            done == !sights(outcome, sought_bit((PREAMBLE_STEPS - 1) as usize)),
            *final(self) == if done {
                *old(self)
            } else {
                Receiver {
                    processed_samples: (old(self).processed_samples + advance(outcome)) as usize,
                    ..*old(self)
                }
            },
    {
        match outcome {
            Preamble::Detected { ending_position, signal_bit, votes: _ } => {
                if signal_bit == 1 {
                    self.processed_samples = self.processed_samples + ending_position;
                    false
                } else {
                    true
                }
            },
            Preamble::NoPreamble => true,
        }
    }

    /// Gives up every confirmation and scans on from where the cursor is.
    fn restart(&mut self)
        ensures
            *final(self) == scanning_from(old(self).processed_samples),
    {
        self.phase = Phase::Scanning;
        self.confirmed = 0;
        self.votes = 0;
        self.mismatches = 0;
        self.silences = 0;
    }

    /// Takes in what a series of probes showed, in order, and says whether
    /// the receiver is synchronised after them.
    pub fn run(&mut self, outcomes: &[Preamble]) -> (synchronized: bool)
        requires
            old(self).wf(),
            old(self).processed_samples + total_advance(outcomes@) <= usize::MAX,
        ensures
            *final(self) == after(*old(self), outcomes@),
            final(self).wf(),
            synchronized == (final(self).phase is Synchronized),
            old(self).processed_samples <= final(self).processed_samples <= old(
                self,
            ).processed_samples + total_advance(outcomes@),
    {
        let mut i: usize = 0;
        assert(outcomes@.take(0) =~= Seq::<Preamble>::empty());
        while i < outcomes.len()
            invariant
                i <= outcomes@.len(),
                self.wf(),
                *self == after(*old(self), outcomes@.take(i as int)),
                old(self).processed_samples <= self.processed_samples <= old(
                    self,
                ).processed_samples + total_advance(outcomes@.take(i as int)),
                old(self).processed_samples + total_advance(outcomes@) <= usize::MAX,
            decreases outcomes@.len() - i,
        {
            proof {
                assert(outcomes@.take(i + 1).drop_last() =~= outcomes@.take(i as int));
                lemma_total_advance_grows(outcomes@, i + 1);
            }
            self.step(outcomes[i]);
            i = i + 1;
        }
        assert(outcomes@.take(i as int) =~= outcomes@);
        match self.phase {
            Phase::Synchronized => true,
            _ => false,
        }
    }
}

/// A shorter series of probes lets the cursor go no further than the whole.
pub proof fn lemma_total_advance_grows(outcomes: Seq<Preamble>, k: int)
    requires
        0 <= k <= outcomes.len(),
    ensures
        total_advance(outcomes.take(k)) <= total_advance(outcomes),
    decreases outcomes.len() - k,
{
    if k < outcomes.len() {
        assert(outcomes.take(k + 1).drop_last() =~= outcomes.take(k));
        lemma_total_advance_grows(outcomes, k + 1);
    } else {
        assert(outcomes.take(k) =~= outcomes);
    }
}

/// A probe that shows `bit`.
pub open spec fn sights(outcome: Preamble, bit: u8) -> bool {
    match outcome {
        Preamble::NoPreamble => false,
        Preamble::Detected { signal_bit, .. } => signal_bit == bit,
    }
}

/// A probe that shows a bit other than `bit`.
pub open spec fn sights_other(outcome: Preamble, bit: u8) -> bool {
    match outcome {
        Preamble::NoPreamble => false,
        Preamble::Detected { signal_bit, .. } => signal_bit != bit,
    }
}

/// A probe that shows `bit` with more votes than the threshold.
pub open spec fn settles(outcome: Preamble, bit: u8) -> bool {
    match outcome {
        Preamble::NoPreamble => false,
        Preamble::Detected { signal_bit, votes, .. } => signal_bit == bit && votes
            > VOTE_THRESHOLD,
    }
}

/// Over any series of probes the receiver stays well formed and its cursor
/// only moves forward, by no more than the probes allow.
pub proof fn lemma_cursor_never_goes_back(s: Receiver, outcomes: Seq<Preamble>)
    requires
        s.wf(),
        s.processed_samples + total_advance(outcomes) <= usize::MAX,
    ensures
        after(s, outcomes).wf(),
        s.processed_samples <= after(s, outcomes).processed_samples <= s.processed_samples
            + total_advance(outcomes),
    decreases outcomes.len(),
{
    if outcomes.len() > 0 {
        lemma_cursor_never_goes_back(s, outcomes.drop_last());
    }
}

/// A synchronised receiver stays synchronised, and its cursor stays where it
/// is.
pub proof fn lemma_synchronized_stays(s: Receiver, outcomes: Seq<Preamble>)
    requires
        s.phase is Synchronized,
    ensures
        after(s, outcomes) == s,
    decreases outcomes.len(),
{
    if outcomes.len() > 0 {
        lemma_synchronized_stays(s, outcomes.drop_last());
    }
}

/// A scanning receiver that sights the sought bit and then gets more votes
/// for it than the threshold has confirmed one more bit. After the third it
/// is synchronised; before, it scans for the next bit.
pub proof fn lemma_clean_step_confirms(s: Receiver, first: Preamble, second: Preamble)
    requires
        s.wf(),
        s.phase is Scanning,
        sights(first, sought_bit(s.confirmed)),
        settles(second, sought_bit(s.confirmed)),
    ensures
        next(next(s, first), second).wf(),
        next(next(s, first), second).confirmed == s.confirmed + 1,
        next(next(s, first), second).phase == if s.confirmed + 1 == PREAMBLE_STEPS {
            Phase::Synchronized
        } else {
            Phase::Scanning
        },
{
}

/// The preamble 1, 0, 1, each bit sighted and then settled, takes a receiver
/// that has confirmed nothing to synchronisation.
pub proof fn lemma_clean_preamble_synchronizes(cursor: usize, outcomes: Seq<Preamble>)
    requires
        outcomes.len() == 6,
        sights(outcomes[0], 1),
        settles(outcomes[1], 1),
        sights(outcomes[2], 0),
        settles(outcomes[3], 0),
        sights(outcomes[4], 1),
        settles(outcomes[5], 1),
    ensures
        after(scanning_from(cursor), outcomes).phase is Synchronized,
{
    let s0 = scanning_from(cursor);
    let o = outcomes;
    assert(o.take(0) =~= Seq::<Preamble>::empty());
    assert(after(s0, o.take(0)) == s0);
    let s2 = next(next(s0, o[0]), o[1]);
    lemma_clean_step_confirms(s0, o[0], o[1]);
    let s4 = next(next(s2, o[2]), o[3]);
    lemma_clean_step_confirms(s2, o[2], o[3]);
    let s6 = next(next(s4, o[4]), o[5]);
    lemma_clean_step_confirms(s4, o[4], o[5]);
    lemma_after_unfolds(s0, o, 1);
    lemma_after_unfolds(s0, o, 2);
    lemma_after_unfolds(s0, o, 3);
    lemma_after_unfolds(s0, o, 4);
    lemma_after_unfolds(s0, o, 5);
    lemma_after_unfolds(s0, o, 6);
    assert(o.take(6) =~= o);
}

/// One more probe is one more step.
pub proof fn lemma_after_unfolds(s: Receiver, outcomes: Seq<Preamble>, k: int)
    requires
        0 < k <= outcomes.len(),
    ensures
        after(s, outcomes.take(k)) == next(after(s, outcomes.take(k - 1)), outcomes[k - 1]),
{
    assert(outcomes.take(k).drop_last() =~= outcomes.take(k - 1));
}

/// While the limit is not passed, sights of the other bit are only counted.
proof fn lemma_mismatches_add_up(s: Receiver, outcomes: Seq<Preamble>)
    requires
        s.wf(),
        s.phase is Collecting,
        s.mismatches + outcomes.len() <= MISMATCH_LIMIT,
        forall|i: int|
            0 <= i < outcomes.len() ==> sights_other(#[trigger] outcomes[i], sought_bit(s.confirmed)),
    ensures
        after(s, outcomes).phase is Collecting,
        after(s, outcomes).confirmed == s.confirmed,
        after(s, outcomes).mismatches == s.mismatches + outcomes.len(),
    decreases outcomes.len(),
{
    if outcomes.len() > 0 {
        let front = outcomes.drop_last();
        assert forall|i: int| 0 <= i < front.len() implies sights_other(
            #[trigger] front[i],
            sought_bit(s.confirmed),
        ) by {
            assert(front[i] == outcomes[i]);
        }
        lemma_mismatches_add_up(s, front);
        assert(sights_other(outcomes[outcomes.len() - 1], sought_bit(s.confirmed)));
    }
}

/// A collection that sees the other bit once more often than the limit
/// allows is given up: every confirmation is undone, and the receiver scans
/// again for the first bit of the preamble.
pub proof fn lemma_wrong_bit_restarts(s: Receiver, outcomes: Seq<Preamble>)
    requires
        s.wf(),
        s.phase is Collecting,
        s.mismatches + outcomes.len() == MISMATCH_LIMIT + 1,
        forall|i: int|
            0 <= i < outcomes.len() ==> sights_other(#[trigger] outcomes[i], sought_bit(s.confirmed)),
    ensures
        after(s, outcomes).phase is Scanning,
        after(s, outcomes).confirmed == 0,
        after(s, outcomes) == scanning_from(after(s, outcomes.drop_last()).processed_samples),
{
    let front = outcomes.drop_last();
    assert forall|i: int| 0 <= i < front.len() implies sights_other(
        #[trigger] front[i],
        sought_bit(s.confirmed),
    ) by {
        assert(front[i] == outcomes[i]);
    }
    lemma_mismatches_add_up(s, front);
    assert(sights_other(outcomes[outcomes.len() - 1], sought_bit(s.confirmed)));
}

} // verus!
