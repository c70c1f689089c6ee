//! The preamble detector: each spectral column of a probe window votes for
//! one of the two preamble bits or for neither, and the votes of the first
//! unanimous run of columns are the outcome.

use crate::physics::{preamble_bins, preamble_table};
use crate::spectrum::{strongest_bin, top_bin};
use vstd::prelude::*;

verus! {

/// Number of samples by which one column follows the one before it.
pub const HOP_SAMPLES: usize = 128;

/// What a probe window showed.
#[derive(Debug, Clone, Copy, PartialEq, Eq, Structural)]
pub enum Preamble {
    /// No column voted.
    NoPreamble,
    /// The columns up to `ending_position` voted for `signal_bit`, `votes` of
    /// them, and none voted against it.
    Detected { ending_position: usize, signal_bit: u8, votes: usize },
}

/// The vote of one column.
#[derive(Debug, Clone, Copy, PartialEq, Eq, Structural)]
pub enum Vote {
    /// The strongest tone is the bit-0 preamble tone.
    Zero,
    /// The strongest tone is the bit-1 preamble tone.
    One,
    /// The strongest tone is neither.
    Abstain,
}

/// The vote of a column: it goes by the column's strongest bin alone.
pub open spec fn vote_of(col: Seq<u64>) -> Vote {
    if col.len() == 0 {
        Vote::Abstain
    } else if top_bin(col) == preamble_bins()[0] {
        Vote::Zero
    } else if top_bin(col) == preamble_bins()[1] {
        Vote::One
    } else {
        Vote::Abstain
    }
}

/// The votes of the columns of a probe window, in time order.
pub open spec fn votes_of(columns: Seq<Vec<u64>>) -> Seq<Vote> {
    Seq::new(columns.len(), |i: int| vote_of(columns[i]@))
}

/// Two votes for different bits.
pub open spec fn opposes(a: Vote, b: Vote) -> bool {
    (a is Zero && b is One) || (a is One && b is Zero)
}

/// Whether `v` is a vote against one of `earlier`.
pub open spec fn conflicts(earlier: Seq<Vote>, v: Vote) -> bool {
    exists|i: int| 0 <= i < earlier.len() && opposes(#[trigger] earlier[i], v)
}

/// Number of columns before the first one that votes against an earlier
/// vote; all of them, if there is no such column.
pub open spec fn run_end(votes: Seq<Vote>) -> nat
    decreases votes.len(),
{
    if votes.len() == 0 {
        0
    } else {
        let before = run_end(votes.drop_last());
        if before == votes.len() - 1 && !conflicts(votes.drop_last(), votes.last()) {
            votes.len()
        } else {
            before
        }
    }
}

/// How often `v` occurs among the votes.
pub open spec fn count_of(votes: Seq<Vote>, v: Vote) -> nat
    decreases votes.len(),
{
    if votes.len() == 0 {
        0
    } else {
        count_of(votes.drop_last(), v) + if votes.last() == v {
            1nat
        } else {
            0nat
        }
    }
}

/// The outcome of a probe window, from the votes of its columns: the votes of
/// the run before the first conflict, and where that run ends.
pub open spec fn tally(votes: Seq<Vote>) -> Preamble {
    let run = votes.take(run_end(votes) as int);
    let zero = count_of(run, Vote::Zero);
    let one = count_of(run, Vote::One);
    if zero == 0 && one == 0 {
        Preamble::NoPreamble
    } else {
        Preamble::Detected {
            ending_position: (HOP_SAMPLES * run_end(votes)) as usize,
            signal_bit: if zero > one {
                0
            } else {
                1
            },
            votes: (if zero > one {
                zero
            } else {
                one
            }) as usize,
        }
    }
}

/// Once the run has ended, more columns do not move its end.
pub proof fn lemma_run_end_stays(votes: Seq<Vote>, j: int)
    requires
        0 <= j <= votes.len(),
        run_end(votes.take(j)) < j,
    ensures
        run_end(votes) == run_end(votes.take(j)),
    decreases votes.len() - j,
{
    if j < votes.len() {
        assert(votes.take(j + 1).drop_last() =~= votes.take(j));
        lemma_run_end_stays(votes, j + 1);
    } else {
        assert(votes.take(j) =~= votes);
    }
}

/// A vote occurs among the votes exactly when its count is not zero, and it
/// is counted no more often than there are votes.
pub proof fn lemma_count_of(votes: Seq<Vote>, v: Vote)
    ensures
        count_of(votes, v) <= votes.len(),
        count_of(votes, v) > 0 <==> exists|i: int| 0 <= i < votes.len() && votes[i] == v,
    decreases votes.len(),
{
    if votes.len() > 0 {
        let front = votes.drop_last();
        lemma_count_of(front, v);
        if count_of(front, v) > 0 {
            let i = choose|i: int| 0 <= i < front.len() && front[i] == v;
            assert(votes[i] == v);
        }
        if votes.last() == v {
            assert(votes[votes.len() - 1] == v);
        }
        if exists|i: int| 0 <= i < votes.len() && votes[i] == v {
            let i = choose|i: int| 0 <= i < votes.len() && votes[i] == v;
            if i < front.len() {
                assert(front[i] == v);
            }
        }
    }
}

/// The vote of a column.
pub fn column_vote(col: &[u64]) -> (v: Vote)
    ensures
        v == vote_of(col@),
{
    if col.len() == 0 {
        return Vote::Abstain;
    }
    let table = preamble_table();
    let top = strongest_bin(col);
    if top == table[0] {
        Vote::Zero
    } else if top == table[1] {
        Vote::One
    } else {
        Vote::Abstain
    }
}

/// Looks for the preamble in the spectral columns of a probe window. The
/// columns vote in time order. The scan stops at the first column that votes
/// against an earlier one; that column and those behind it do not count.
pub fn detect_preamble(columns: &[Vec<u64>]) -> (outcome: Preamble)
    requires
        columns@.len() * HOP_SAMPLES <= usize::MAX,
    ensures
        outcome == tally(votes_of(columns@)),
{
    let ghost votes = votes_of(columns@);
    let mut ending_position: usize = 0;
    let mut zero_vote: usize = 0;
    let mut one_vote: usize = 0;
    let mut i: usize = 0;
    let mut halted: bool = false;
    while i < columns.len() && !halted
        invariant
            i <= columns@.len(),
            votes == votes_of(columns@),
            columns@.len() * HOP_SAMPLES <= usize::MAX,
            !halted ==> run_end(votes.take(i as int)) == i,
            halted ==> run_end(votes) == i,
            ending_position == HOP_SAMPLES * i,
            zero_vote == count_of(votes.take(i as int), Vote::Zero),
            one_vote == count_of(votes.take(i as int), Vote::One),
        decreases columns@.len() - i, (if halted { 0int } else { 1int }),
    {
        let ghost seen = votes.take(i as int);
        let v = column_vote(columns[i].as_slice());
        proof {
            assert(v == votes[i as int]);
            assert(votes.take(i + 1).drop_last() =~= seen);
            lemma_count_of(seen, Vote::Zero);
            lemma_count_of(seen, Vote::One);
        }
        let against: bool = match v {
            Vote::Zero => one_vote != 0,
            Vote::One => zero_vote != 0,
            Vote::Abstain => false,
        };
        assert(against == conflicts(seen, v));
        if against {
            proof {
                lemma_run_end_stays(votes, i + 1);
            }
            halted = true;
        } else {
            match v {
                Vote::Zero => {
                    zero_vote = zero_vote + 1;
                },
                Vote::One => {
                    one_vote = one_vote + 1;
                },
                Vote::Abstain => {},
            }
            ending_position = ending_position + HOP_SAMPLES;
            i = i + 1;
        }
    }
    proof {
        if !halted {
            assert(votes.take(i as int) =~= votes);
        }
    }
    if zero_vote == 0 && one_vote == 0 {
        Preamble::NoPreamble
    } else {
        Preamble::Detected {
            ending_position,
            signal_bit: if zero_vote > one_vote {
                0
            } else {
                1
            },
            votes: if zero_vote > one_vote {
                zero_vote
            } else {
                one_vote
            },
        }
    }
}

/// The bit that a vote is for.
pub open spec fn bit_of(v: Vote) -> u8 {
    if v is One {
        1
    } else {
        0
    }
}

/// The run that is tallied is unanimous, and it ends where it does because
/// the next column votes against it.
pub proof fn lemma_run_is_unanimous(votes: Seq<Vote>)
    ensures
        run_end(votes) <= votes.len(),
        forall|i: int, j: int|
            0 <= i < run_end(votes) && 0 <= j < run_end(votes) ==> !opposes(votes[i], votes[j]),
        run_end(votes) < votes.len() ==> conflicts(
            votes.take(run_end(votes) as int),
            votes[run_end(votes) as int],
        ),
    decreases votes.len(),
{
    if votes.len() > 0 {
        let front = votes.drop_last();
        let n = front.len() as int;
        lemma_run_is_unanimous(front);
        if run_end(front) == n && conflicts(front, votes.last()) {
            assert(votes.take(n) =~= front);
        }
        if run_end(front) < n {
            let k = run_end(front) as int;
            assert(votes.take(k) =~= front.take(k));
            assert(votes[k] == front[k]);
        }
        assert forall|i: int, j: int|
            0 <= i < run_end(votes) && 0 <= j < run_end(votes) implies !opposes(
            votes[i],
            votes[j],
        ) by {
            if i < n && j < n {
                assert(!opposes(front[i], front[j]));
            } else if i < n {
                assert(!opposes(front[i], votes.last()));
            } else if j < n {
                assert(!opposes(front[j], votes.last()));
            }
        }
    }
}

/// The votes that are tallied are all for one bit: a detection reports the
/// bit that was voted for, how often, and an end that lies in the window.
pub proof fn lemma_tally_is_unanimous(votes: Seq<Vote>)
    ensures
        count_of(votes.take(run_end(votes) as int), Vote::Zero) == 0 || count_of(
            votes.take(run_end(votes) as int),
            Vote::One,
        ) == 0,
        tally(votes) is NoPreamble <==> forall|i: int|
            0 <= i < votes.len() ==> votes[i] is Abstain,
        run_end(votes) <= votes.len(),
{
    let k = run_end(votes) as int;
    let run = votes.take(k);
    lemma_run_is_unanimous(votes);
    lemma_count_of(run, Vote::Zero);
    lemma_count_of(run, Vote::One);
    if count_of(run, Vote::Zero) > 0 && count_of(run, Vote::One) > 0 {
        let i = choose|i: int| 0 <= i < run.len() && run[i] == Vote::Zero;
        let j = choose|j: int| 0 <= j < run.len() && run[j] == Vote::One;
        assert(opposes(votes[i], votes[j]));
    }
    if tally(votes) is NoPreamble {
        assert forall|i: int| 0 <= i < votes.len() implies votes[i] is Abstain by {
            if i < k {
                assert(run[i] == votes[i]);
            } else {
                let w = choose|w: int|
                    0 <= w < run.len() && opposes(#[trigger] run[w], votes[k]);
                assert(run[w] == Vote::Zero || run[w] == Vote::One);
            }
        }
    } else {
        if count_of(run, Vote::Zero) > 0 {
            let i = choose|i: int| 0 <= i < run.len() && run[i] == Vote::Zero;
            assert(votes[i] == Vote::Zero);
        } else {
            let j = choose|j: int| 0 <= j < run.len() && run[j] == Vote::One;
            assert(votes[j] == Vote::One);
        }
    }
}

/// Columns of which no two vote against each other are one run.
pub proof fn lemma_run_without_conflict(votes: Seq<Vote>)
    requires
        forall|i: int, j: int|
            0 <= i < votes.len() && 0 <= j < votes.len() ==> !opposes(votes[i], votes[j]),
    ensures
        run_end(votes) == votes.len(),
    decreases votes.len(),
{
    if votes.len() > 0 {
        let front = votes.drop_last();
        assert forall|i: int, j: int| 0 <= i < front.len() && 0 <= j < front.len() implies !opposes(
            front[i],
            front[j],
        ) by {
            assert(!opposes(votes[i], votes[j]));
        }
        lemma_run_without_conflict(front);
        if conflicts(front, votes.last()) {
            let i = choose|i: int| 0 <= i < front.len() && opposes(#[trigger] front[i], votes.last());
            assert(opposes(votes[i], votes[votes.len() - 1]));
        }
    }
}

/// Where every column votes `v`, there are as many votes for `v` as columns.
pub proof fn lemma_count_of_all(votes: Seq<Vote>, v: Vote)
    requires
        forall|i: int| 0 <= i < votes.len() ==> votes[i] == v,
    ensures
        count_of(votes, v) == votes.len(),
    decreases votes.len(),
{
    if votes.len() > 0 {
        let front = votes.drop_last();
        assert forall|i: int| 0 <= i < front.len() implies front[i] == v by {
            assert(front[i] == votes[i]);
        }
        lemma_count_of_all(front, v);
    }
}

/// A probe window in which every column votes for the same bit yields that
/// bit, with one vote per column, and ends behind its last column.
pub proof fn lemma_unanimous_probe(votes: Seq<Vote>, v: Vote)
    requires
        !(v is Abstain),
        votes.len() > 0,
        forall|i: int| 0 <= i < votes.len() ==> votes[i] == v,
    ensures
        tally(votes) == (Preamble::Detected {
            ending_position: (HOP_SAMPLES * votes.len()) as usize,
            signal_bit: bit_of(v),
            votes: votes.len() as usize,
        }),
{
    let other = if v is Zero {
        Vote::One
    } else {
        Vote::Zero
    };
    lemma_run_without_conflict(votes);
    assert(votes.take(votes.len() as int) =~= votes);
    lemma_count_of_all(votes, v);
    lemma_count_of(votes, other);
}

/// A probe window whose first `k` columns vote for one bit and whose next
/// column votes for the other yields the first bit, with `k` votes, and ends
/// at the boundary between the two.
pub proof fn lemma_split_probe(votes: Seq<Vote>, k: int, v: Vote)
    requires
        !(v is Abstain),
        0 < k < votes.len(),
        forall|i: int| 0 <= i < k ==> votes[i] == v,
        opposes(v, votes[k]),
    ensures
        tally(votes) == (Preamble::Detected {
            ending_position: (HOP_SAMPLES * k) as usize,
            signal_bit: bit_of(v),
            votes: k as usize,
        }),
{
    let other = if v is Zero {
        Vote::One
    } else {
        Vote::Zero
    };
    let run = votes.take(k);
    lemma_run_without_conflict(run);
    assert(votes.take(k + 1).drop_last() =~= run);
    assert(opposes(run[0], votes[k]));
    assert(conflicts(run, votes.take(k + 1).last()));
    assert(run_end(votes.take(k + 1)) == k);
    lemma_run_end_stays(votes, k + 1);
    lemma_count_of_all(run, v);
    lemma_count_of(run, other);
}

} // verus!
