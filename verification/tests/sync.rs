use acousticdi::preamble::{column_vote, detect_preamble, Preamble, Vote, HOP_SAMPLES};
use acousticdi::transmission::{
    Phase, Receiver, MISMATCH_LIMIT, PROBE_SAMPLE_NUMBER, SAMPLE_NUMBER, SILENCE_LIMIT,
    VOTE_THRESHOLD,
};

fn tone(bin: usize) -> Vec<u64> {
    let mut col = vec![1000u64; 128];
    col[bin] = 64_000;
    col[bin - 1] = 32_000;
    col[bin + 1] = 32_000;
    col
}

fn zero() -> Vec<u64> {
    tone(8)
}

fn one() -> Vec<u64> {
    tone(17)
}

fn noise() -> Vec<u64> {
    tone(40)
}

fn seen(bit: u8, votes: usize) -> Preamble {
    Preamble::Detected { ending_position: HOP_SAMPLES, signal_bit: bit, votes }
}

#[test]
fn constants_have_their_values() {
    assert_eq!(HOP_SAMPLES, 128);
    assert_eq!(SAMPLE_NUMBER, 4410);
    assert_eq!(PROBE_SAMPLE_NUMBER, 256);
    assert_eq!(VOTE_THRESHOLD, 20);
    assert_eq!(MISMATCH_LIMIT, 3);
    assert_eq!(SILENCE_LIMIT, 30);
}

#[test]
fn a_column_votes_by_its_strongest_bin() {
    assert_eq!(column_vote(&zero()), Vote::Zero);
    assert_eq!(column_vote(&one()), Vote::One);
    assert_eq!(column_vote(&noise()), Vote::Abstain);
    assert_eq!(column_vote(&[]), Vote::Abstain);
    let mut both = zero();
    both[17] = 64_000;
    assert_eq!(column_vote(&both), Vote::One);
    let mut carrier_on_top = zero();
    carrier_on_top[12] = 65_000;
    assert_eq!(column_vote(&carrier_on_top), Vote::Abstain);
}

#[test]
fn a_window_of_bit_zero_votes_once_per_column() {
    let columns = vec![zero(); 5];
    assert_eq!(
        detect_preamble(&columns),
        Preamble::Detected { ending_position: 5 * 128, signal_bit: 0, votes: 5 }
    );
}

#[test]
fn a_window_of_bit_one_votes_once_per_column() {
    let columns = vec![one(); 3];
    assert_eq!(
        detect_preamble(&columns),
        Preamble::Detected { ending_position: 384, signal_bit: 1, votes: 3 }
    );
}

#[test]
fn a_split_window_ends_at_the_boundary() {
    let mut columns = vec![zero(); 4];
    columns.extend(vec![one(); 4]);
    assert_eq!(
        detect_preamble(&columns),
        Preamble::Detected { ending_position: 4 * 128, signal_bit: 0, votes: 4 }
    );
    columns.reverse();
    assert_eq!(
        detect_preamble(&columns),
        Preamble::Detected { ending_position: 4 * 128, signal_bit: 1, votes: 4 }
    );
}

#[test]
fn columns_without_a_vote_count_for_the_position_only() {
    let columns = vec![noise(), zero(), noise(), zero(), noise(), one(), zero()];
    assert_eq!(
        detect_preamble(&columns),
        Preamble::Detected { ending_position: 5 * 128, signal_bit: 0, votes: 2 }
    );
}

#[test]
fn no_vote_is_no_preamble() {
    assert_eq!(detect_preamble(&[]), Preamble::NoPreamble);
    assert_eq!(detect_preamble(&vec![noise(); 7]), Preamble::NoPreamble);
    assert_eq!(detect_preamble(&[vec![]]), Preamble::NoPreamble);
}

#[test]
fn a_new_receiver_scans_from_the_start() {
    let receiver = Receiver::new();
    assert_eq!(receiver.processed_samples, 0);
    assert_eq!(receiver.phase, Phase::Scanning);
    assert_eq!(receiver.confirmed, 0);
    assert_eq!(receiver.sought(), Some(1));
    assert_eq!(receiver.take_probe_samples(), (0, 256));
    assert_eq!(receiver.take_samples(), (0, 4410));
}

#[test]
fn scanning_skips_what_it_does_not_seek() {
    let mut receiver = Receiver::new();
    assert_eq!(receiver.step(Preamble::NoPreamble), Phase::Scanning);
    assert_eq!(receiver.processed_samples, 256);
    assert_eq!(
        receiver.step(Preamble::Detected { ending_position: 100, signal_bit: 0, votes: 50 }),
        Phase::Scanning
    );
    assert_eq!(receiver.processed_samples, 356);
    assert_eq!(receiver.take_probe_samples(), (356, 612));
    assert_eq!(receiver.take_samples(), (356, 356 + 4410));
    assert_eq!(receiver.confirmed, 0);
}

#[test]
fn the_first_sight_starts_a_collection_without_votes() {
    let mut receiver = Receiver::new();
    assert_eq!(
        receiver.step(Preamble::Detected { ending_position: 128, signal_bit: 1, votes: 99 }),
        Phase::Collecting
    );
    assert_eq!(receiver.votes, 0);
    assert_eq!(receiver.processed_samples, 128);
}

#[test]
fn votes_add_up_until_they_pass_the_threshold() {
    let mut receiver = Receiver::new();
    receiver.step(seen(1, 1));
    for k in 1..=20usize {
        assert_eq!(receiver.step(seen(1, 1)), Phase::Collecting);
        assert_eq!(receiver.votes, k);
    }
    assert_eq!(receiver.step(seen(1, 1)), Phase::Scanning);
    assert_eq!(receiver.confirmed, 1);
    assert_eq!(receiver.votes, 0);
    assert_eq!(receiver.sought(), Some(0));
    assert_eq!(receiver.processed_samples, 22 * 128);
}

#[test]
fn exactly_the_threshold_does_not_confirm() {
    let mut receiver = Receiver::new();
    receiver.step(seen(1, 1));
    assert_eq!(receiver.step(seen(1, 20)), Phase::Collecting);
    assert_eq!(receiver.votes, 20);
    assert_eq!(receiver.step(seen(1, usize::MAX)), Phase::Scanning);
    assert_eq!(receiver.confirmed, 1);
}

#[test]
fn the_preamble_synchronizes() {
    let mut receiver = Receiver::new();
    let outcomes = [seen(1, 1), seen(1, 21), seen(0, 1), seen(0, 21), seen(1, 1), seen(1, 21)];
    assert!(receiver.run(&outcomes));
    assert_eq!(receiver.phase, Phase::Synchronized);
    assert_eq!(receiver.confirmed, 3);
    assert_eq!(receiver.processed_samples, 6 * 128);
    assert_eq!(receiver.sought(), None);
}

#[test]
fn the_preamble_synchronizes_through_leftovers_of_each_tone() {
    let mut outcomes = Vec::new();
    outcomes.extend(vec![Preamble::NoPreamble; 5]);
    outcomes.extend(vec![seen(0, 1); 30]);
    outcomes.extend(vec![seen(1, 1); 30]);
    outcomes.extend(vec![seen(0, 1); 30]);
    outcomes.extend(vec![seen(1, 1); 22]);
    let mut receiver = Receiver::new();
    assert!(receiver.run(&outcomes));
    assert_eq!(receiver.processed_samples, 5 * 256 + 112 * 128);
    let mut short = Receiver::new();
    assert!(!short.run(&outcomes[..outcomes.len() - 1]));
    assert_eq!(short.phase, Phase::Collecting);
    assert_eq!(short.confirmed, 2);
}

#[test]
fn a_wrong_bit_in_the_first_step_restarts() {
    let mut receiver = Receiver::new();
    let mut outcomes = vec![seen(1, 1)];
    outcomes.extend(vec![seen(0, 21); 4]);
    assert!(!receiver.run(&outcomes));
    assert_eq!(receiver.phase, Phase::Scanning);
    assert_eq!(receiver.confirmed, 0);
}

#[test]
fn a_wrong_bit_in_the_second_step_restarts() {
    let mut receiver = Receiver::new();
    let mut outcomes = vec![seen(1, 1), seen(1, 21), seen(0, 1)];
    outcomes.extend(vec![seen(1, 21); 4]);
    assert!(!receiver.run(&outcomes));
    assert_eq!(receiver.phase, Phase::Scanning);
    assert_eq!(receiver.confirmed, 0);
    assert_eq!(receiver.sought(), Some(1));
}

#[test]
fn a_wrong_bit_in_the_third_step_restarts() {
    let mut receiver = Receiver::new();
    let mut outcomes =
        vec![seen(1, 1), seen(1, 21), seen(0, 1), seen(0, 21), seen(1, 1)];
    assert!(!receiver.run(&outcomes));
    assert_eq!(receiver.confirmed, 2);
    outcomes.extend(vec![seen(0, 21); 4]);
    let mut again = Receiver::new();
    assert!(!again.run(&outcomes));
    assert_eq!(again.phase, Phase::Scanning);
    assert_eq!(again.confirmed, 0);
}

#[test]
fn three_wrong_bits_are_borne() {
    let mut receiver = Receiver::new();
    receiver.step(seen(1, 1));
    for k in 1..=3usize {
        assert_eq!(receiver.step(seen(0, 50)), Phase::Collecting);
        assert_eq!(receiver.mismatches, k);
        assert_eq!(receiver.votes, 0);
    }
    assert_eq!(receiver.processed_samples, 4 * 128);
    assert_eq!(receiver.step(seen(0, 50)), Phase::Scanning);
    assert_eq!(receiver.processed_samples, 4 * 128);
    assert_eq!(receiver.mismatches, 0);
}

#[test]
fn thirty_empty_probes_in_a_row_are_borne() {
    let mut receiver = Receiver::new();
    receiver.step(seen(1, 1));
    receiver.step(seen(1, 5));
    for k in 1..=30usize {
        assert_eq!(receiver.step(Preamble::NoPreamble), Phase::Collecting);
        assert_eq!(receiver.silences, k);
    }
    assert_eq!(receiver.votes, 5);
    assert_eq!(receiver.step(Preamble::NoPreamble), Phase::Scanning);
    assert_eq!(receiver.confirmed, 0);
    assert_eq!(receiver.votes, 0);
    assert_eq!(receiver.processed_samples, 2 * 128 + 31 * 256);
}

#[test]
fn a_sight_ends_a_row_of_empty_probes() {
    let mut receiver = Receiver::new();
    receiver.step(seen(1, 1));
    for _ in 0..30 {
        receiver.step(Preamble::NoPreamble);
    }
    receiver.step(seen(1, 2));
    assert_eq!(receiver.silences, 0);
    for _ in 0..30 {
        assert_eq!(receiver.step(Preamble::NoPreamble), Phase::Collecting);
    }
    assert_eq!(receiver.votes, 2);
}

#[test]
fn a_synchronized_receiver_stays_put() {
    let mut receiver = Receiver::new();
    receiver.run(&[seen(1, 1), seen(1, 21), seen(0, 1), seen(0, 21), seen(1, 1), seen(1, 21)]);
    let before = receiver;
    assert_eq!(receiver.step(Preamble::NoPreamble), Phase::Synchronized);
    assert_eq!(receiver.step(seen(0, 30)), Phase::Synchronized);
    assert_eq!(receiver, before);
}

#[test]
fn the_cursor_never_goes_back() {
    let outcomes = [
        Preamble::NoPreamble,
        seen(0, 3),
        seen(1, 3),
        seen(0, 3),
        seen(0, 3),
        seen(0, 3),
        seen(0, 3),
        Preamble::NoPreamble,
        seen(1, 30),
        seen(1, 30),
    ];
    let mut receiver = Receiver::new();
    let mut last = 0;
    for outcome in outcomes {
        receiver.step(outcome);
        assert!(receiver.processed_samples >= last);
        last = receiver.processed_samples;
    }
    assert_eq!(receiver.confirmed, 1);
}

#[test]
fn run_of_nothing_changes_nothing() {
    let mut receiver = Receiver::new();
    assert!(!receiver.run(&[]));
    assert_eq!(receiver, Receiver::new());
}

#[test]
fn consume_moves_the_cursor_only() {
    let mut receiver = Receiver::new();
    receiver.step(seen(1, 1));
    receiver.step(seen(1, 7));
    let before = receiver;
    receiver.consume(4410);
    assert_eq!(receiver.processed_samples, before.processed_samples + 4410);
    assert_eq!(receiver.phase, before.phase);
    assert_eq!(receiver.votes, 7);
    assert_eq!(receiver.confirmed, before.confirmed);
    receiver.consume(0);
    assert_eq!(receiver.processed_samples, before.processed_samples + 4410);
    assert_eq!(receiver.take_samples(), (256 + 4410, 256 + 2 * 4410));
}

#[test]
fn the_rest_of_the_last_tone_is_passed_over() {
    let mut receiver = Receiver::new();
    receiver.run(&[seen(1, 1), seen(1, 21), seen(0, 1), seen(0, 21), seen(1, 1), seen(1, 21)]);
    let at = receiver.processed_samples;
    assert!(!receiver.consume_lagging_preamble(seen(1, 1)));
    assert_eq!(receiver.processed_samples, at + 128);
    assert!(!receiver.consume_lagging_preamble(Preamble::Detected {
        ending_position: 70,
        signal_bit: 1,
        votes: 0
    }));
    assert_eq!(receiver.processed_samples, at + 198);
    assert!(receiver.consume_lagging_preamble(Preamble::NoPreamble));
    assert_eq!(receiver.processed_samples, at + 198);
    assert!(receiver.consume_lagging_preamble(seen(0, 3)));
    assert_eq!(receiver.processed_samples, at + 198);
    assert_eq!(receiver.phase, Phase::Synchronized);
}
