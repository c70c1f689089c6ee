use acousticdi::physics::{
    demodulate_byte, demodulate_data, demodulate_half_byte, modulate_bits, modulate_byte,
    modulate_half_byte, prepend_preamble, Symbol,
};
use acousticdi::preamble::{detect_preamble, Preamble};
use acousticdi::transmission::{Phase, Receiver, SAMPLE_NUMBER};
use dasp::{signal, Signal};
use ruststft::{WindowType, STFT};

const SAMPLE_RATE: f64 = 44100.0;

/// The frequency that the analysis assigns to a bin.
fn frequency(bin: usize) -> f64 {
    (bin as f64) / 127.0 * (SAMPLE_RATE / 2.0)
}

/// One symbol's worth of a sine at the frequency of `bin`.
fn tone(bin: usize) -> Vec<f64> {
    signal::rate(SAMPLE_RATE)
        .const_hz(frequency(bin))
        .phase()
        .sine()
        .take(SAMPLE_NUMBER)
        .collect()
}

/// The waveform of a score: per symbol the sum of its tones, divided by its divisor.
fn render(score: &[Symbol]) -> Vec<f64> {
    let mut wave = Vec::new();
    for symbol in score {
        let mut acc = vec![0.0f64; SAMPLE_NUMBER];
        for bin in &symbol.tones {
            for (a, s) in acc.iter_mut().zip(tone(*bin)) {
                *a += s;
            }
        }
        wave.extend(acc.into_iter().map(|x| x / symbol.divisor as f64));
    }
    wave
}

fn analyser() -> STFT<f64> {
    STFT::new(WindowType::Hanning, 256, 128)
}

/// The spectral columns of a waveform, as linear energies in thousandths.
fn columns_with(stft: &mut STFT<f64>, samples: &[f64]) -> Vec<Vec<u64>> {
    let mut result = Vec::new();
    stft.append_samples(samples);
    while stft.contains_enough_to_compute() {
        let mut column = vec![0.0f64; stft.output_size()];
        stft.compute_column(&mut column);
        result.push(column.iter().map(|x| (10.0f64.powf(*x) * 1000.0).round() as u64).collect());
        stft.move_to_next_column();
    }
    result
}

fn columns(samples: &[f64]) -> Vec<Vec<u64>> {
    columns_with(&mut analyser(), samples)
}

#[test]
fn test_modulate_byte() {
    let x = 0b00110111;
    let modulated = render(&modulate_byte(x));
    let mut stft = analyser();
    let result = columns_with(&mut stft, &modulated);
    println!("{:?}, {}", result[5], result[5].len());
    let b = demodulate_half_byte(&columns_with(&mut stft, &modulated)).unwrap();
    let lower_b =
        demodulate_half_byte(&columns_with(&mut stft, &modulated[modulated.len() / 2..])).unwrap();
    println!("{:#b}, {:#b}", b, lower_b);
    assert_eq!(b, 0b11);
    assert_eq!(lower_b, 0b111);
}

#[test]
fn test_preamble() {
    let v = render(&prepend_preamble(&[]));
    assert_eq!(v.len(), 4 * SAMPLE_NUMBER);
    let outcome = detect_preamble(&columns(&v));
    println!("{:?}", outcome);
    match outcome {
        Preamble::Detected { ending_position, signal_bit, votes } => {
            assert_eq!(signal_bit, 0);
            assert!((32..=35).contains(&votes));
            assert_eq!(ending_position, votes * 128);
        }
        Preamble::NoPreamble => panic!("the preamble was not seen"),
    }
}

#[test]
fn test_read_preamble() {
    let payload = vec![0.5f64; 10000];
    let mut v = render(&prepend_preamble(&[]));
    v.extend(payload);
    let mut receiver = Receiver::new();
    let mut last = 0;
    loop {
        let (start, end) = receiver.take_probe_samples();
        if end > v.len() {
            break;
        }
        let phase = receiver.step(detect_preamble(&columns(&v[start..end])));
        assert!(receiver.processed_samples >= last);
        last = receiver.processed_samples;
        if phase == Phase::Synchronized {
            break;
        }
    }
    assert_eq!(receiver.phase, Phase::Synchronized);
    assert!(receiver.processed_samples > 3 * SAMPLE_NUMBER);
    assert!(receiver.processed_samples < 4 * SAMPLE_NUMBER);
}

#[test]
fn silence_never_synchronizes() {
    let v = vec![0.5f64; 20000];
    let mut receiver = Receiver::new();
    loop {
        let (start, end) = receiver.take_probe_samples();
        if end > v.len() {
            break;
        }
        receiver.step(detect_preamble(&columns(&v[start..end])));
    }
    assert_eq!(receiver.phase, Phase::Scanning);
    assert_eq!(receiver.confirmed, 0);
    assert_eq!(receiver.processed_samples, (20000 / 256) * 256);
}

#[test]
fn a_probe_window_is_one_column() {
    let v = tone(8);
    let cols = columns(&v[..256]);
    assert_eq!(cols.len(), 1);
    assert_eq!(cols[0].len(), 128);
    assert_eq!(
        detect_preamble(&cols),
        Preamble::Detected { ending_position: 128, signal_bit: 0, votes: 1 }
    );
}

#[test]
fn a_symbol_of_the_bit_zero_tone_votes_in_every_column() {
    let cols = columns(&tone(8));
    assert_eq!(cols.len(), 33);
    assert_eq!(
        detect_preamble(&cols),
        Preamble::Detected { ending_position: 33 * 128, signal_bit: 0, votes: 33 }
    );
}

#[test]
fn a_symbol_of_the_bit_one_tone_votes_in_every_column() {
    let cols = columns(&tone(17));
    assert_eq!(
        detect_preamble(&cols),
        Preamble::Detected { ending_position: 33 * 128, signal_bit: 1, votes: 33 }
    );
}

#[test]
fn bit_zero_then_bit_one_ends_at_the_boundary() {
    let mut v = tone(8)[..1280].to_vec();
    v.extend(tone(17));
    match detect_preamble(&columns(&v)) {
        Preamble::Detected { ending_position, signal_bit, votes } => {
            assert_eq!(signal_bit, 0);
            assert!(votes == 9 || votes == 10);
            assert_eq!(ending_position, votes * 128);
        }
        Preamble::NoPreamble => panic!("the preamble was not seen"),
    }
}

#[test]
fn a_carrier_is_no_preamble() {
    assert_eq!(detect_preamble(&columns(&tone(12))), Preamble::NoPreamble);
    assert_eq!(detect_preamble(&columns(&vec![0.0; 4410])), Preamble::NoPreamble);
}

#[test]
fn every_sounding_nibble_survives_the_air() {
    for n in 1u8..16 {
        let wave = render(&[modulate_half_byte(n)]);
        assert_eq!(wave.len(), SAMPLE_NUMBER);
        assert_eq!(demodulate_half_byte(&columns(&wave)), Some(n));
    }
}

#[test]
fn the_silent_nibble_comes_back_as_every_carrier() {
    let wave = render(&[modulate_half_byte(0)]);
    assert!(wave.iter().all(|x| *x == 0.0));
    assert_eq!(demodulate_half_byte(&columns(&wave)), Some(0b1111));
}

#[test]
fn bytes_without_a_silent_nibble_survive_the_air() {
    for b in [0x11u8, 0x37, 0x5a, 0xa5, 0xc3, 0xff, 0x8f, 0x12] {
        let wave = render(&modulate_byte(b));
        assert_eq!(wave.len(), 2 * SAMPLE_NUMBER);
        let (high, low) = wave.split_at(wave.len() / 2);
        assert_eq!(demodulate_byte(&columns(high), &columns(low)), Some(b));
    }
}

#[test]
fn a_text_survives_the_air() {
    let text = "Hello";
    let wave = render(&modulate_bits(text.as_bytes().to_vec()));
    assert_eq!(wave.len(), 2 * 5 * SAMPLE_NUMBER);
    let mut bytes = Vec::new();
    for pair in wave.chunks(2 * SAMPLE_NUMBER) {
        let (high, low) = pair.split_at(SAMPLE_NUMBER);
        bytes.push(demodulate_byte(&columns(high), &columns(low)).unwrap());
    }
    assert_eq!(bytes, text.as_bytes());
}

#[test]
fn a_payload_behind_the_preamble_is_read() {
    let text = "Hello,air!";
    let mut v = vec![0.0f64; 3000];
    v.extend(render(&prepend_preamble(&modulate_bits(text.as_bytes().to_vec()))));
    v.extend(vec![0.0f64; 1000]);
    let mut receiver = Receiver::new();
    loop {
        let (start, end) = receiver.take_probe_samples();
        if receiver.step(detect_preamble(&columns(&v[start..end]))) == Phase::Synchronized {
            break;
        }
    }
    loop {
        let (start, end) = receiver.take_probe_samples();
        if receiver.consume_lagging_preamble(detect_preamble(&columns(&v[start..end]))) {
            break;
        }
    }
    let begin = 3000 + 4 * SAMPLE_NUMBER;
    assert!(receiver.processed_samples + 256 >= begin);
    assert!(receiver.processed_samples <= begin + 256);
    let mut windows = Vec::new();
    for _ in 0..2 * text.len() {
        let (start, end) = receiver.take_samples();
        windows.push(columns(&v[start..end]));
        receiver.consume(SAMPLE_NUMBER);
    }
    assert_eq!(demodulate_data(&windows), Some(text.as_bytes().to_vec()));
}

#[test]
fn a_silent_nibble_does_not_survive_the_air() {
    let wave = render(&modulate_byte(0x20));
    let (high, low) = wave.split_at(wave.len() / 2);
    assert_eq!(demodulate_byte(&columns(high), &columns(low)), Some(0x2f));
}
