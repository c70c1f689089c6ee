//! The physics layer, as far as it is arithmetic on whole numbers: which tones
//! make up a symbol, and which symbol a set of detected tones stands for.
//!
//! Four carrier tones encode one nibble per symbol: tone `i` sounds when bit
//! `i` of the nibble is set. A tone is named by the number of the analysis bin
//! that its frequency falls on.

use crate::spectrum::{detect_main_freqs, dominant};
use vstd::prelude::*;

verus! {

/// Number of carrier tones, and of bits in one symbol.
pub const FREQ_NUMBER: usize = 4;

/// Number of tones that are reserved for the preamble.
pub const PREAMBLE_NUMBER: usize = 2;

/// The analysis bins of the carrier tones, in ascending order.
pub open spec fn carrier_bins() -> Seq<usize> {
    seq![12, 15, 20, 24]
}

/// The analysis bins of the two preamble tones: bit 0, bit 1.
pub open spec fn preamble_bins() -> Seq<usize> {
    seq![8, 17]
}

/// The carrier table.
pub fn carrier_table() -> (table: [usize; 4])
    ensures
        table@ == carrier_bins(),
{
    let table: [usize; 4] = [12, 15, 20, 24];
    assert(table@ =~= carrier_bins());
    table
}

/// The preamble table.
pub fn preamble_table() -> (table: [usize; 2])
    ensures
        table@ == preamble_bins(),
{
    let table: [usize; 2] = [8, 17];
    assert(table@ =~= preamble_bins());
    table
}

/// Whether bit `i` of `x` is set.
pub open spec fn has_bit(x: u8, i: u8) -> bool {
    x & (1u8 << i) != 0
}

/// A table that a binary search can be run on.
pub open spec fn strictly_ascending(table: Seq<usize>) -> bool {
    forall|i: int, j: int| 0 <= i < j < table.len() ==> table[i] < table[j]
}

/// Where `key` stands in an ascending table, if it stands there.
pub fn find_in_table(table: &[usize], key: usize) -> (found: Option<usize>)
    requires
        strictly_ascending(table@),
    ensures
        match found {
            Some(i) => i < table@.len() && table@[i as int] == key,
            None => !table@.contains(key),
        },
{
    let mut low: usize = 0;
    let mut high: usize = table.len();
    while low < high
        invariant
            low <= high <= table@.len(),
            strictly_ascending(table@),
            forall|i: int| 0 <= i < low ==> table@[i] < key,
            forall|i: int| high <= i < table@.len() ==> table@[i] > key,
        decreases high - low,
    {
        let mid: usize = low + (high - low) / 2;
        if table[mid] == key {
            return Some(mid);
        } else if table[mid] < key {
            low = mid + 1;
        } else {
            high = mid;
        }
    }
    None
}

/// The byte in which, for each of the first `k` tones of the pattern, bit `i`
/// is set exactly when tone `i` is among `freqs`.
pub open spec fn mask_upto(freq_pattern: Seq<usize>, freqs: Seq<usize>, k: int) -> u8
    decreases k,
{
    if k <= 0 {
        0
    } else {
        let rest = mask_upto(freq_pattern, freqs, k - 1);
        if freqs.contains(freq_pattern[k - 1]) {
            rest | (1u8 << ((k - 1) as u8))
        } else {
            rest
        }
    }
}

/// The symbol that a set of detected frequencies stands for: bit `i` is set
/// exactly when tone `i` of the pattern is among them. Frequencies that are no
/// tone of the pattern count for nothing.
pub open spec fn pattern_mask(freq_pattern: Seq<usize>, freqs: Seq<usize>) -> u8 {
    mask_upto(freq_pattern, freqs, freq_pattern.len() as int)
}

/// Bit `i` of the mask is set exactly when tone `i` of the pattern was
/// detected.
pub proof fn lemma_mask_bit(freq_pattern: Seq<usize>, freqs: Seq<usize>, k: int, i: u8)
    requires
        0 <= k <= 8,
        i < 8,
    ensures
        has_bit(mask_upto(freq_pattern, freqs, k), i) <==> i < k && freqs.contains(
            freq_pattern[i as int],
        ),
    decreases k,
{
    if k <= 0 {
        assert(0u8 & (1u8 << i) == 0) by (bit_vector);
    } else {
        lemma_mask_bit(freq_pattern, freqs, k - 1, i);
        let rest = mask_upto(freq_pattern, freqs, k - 1);
        let j: u8 = (k - 1) as u8;
        assert(((rest | (1u8 << j)) & (1u8 << i) != 0) <==> (rest & (1u8 << i) != 0 || i == j))
            by (bit_vector)
            requires
                i < 8,
                j < 8,
        ;
    }
}

/// A frequency that is no tone of the pattern changes nothing.
proof fn lemma_mask_ignores(freq_pattern: Seq<usize>, freqs: Seq<usize>, f: usize, k: int)
    requires
        0 <= k <= freq_pattern.len(),
        !freq_pattern.contains(f),
    ensures
        mask_upto(freq_pattern, freqs.push(f), k) == mask_upto(freq_pattern, freqs, k),
    decreases k,
{
    if k > 0 {
        lemma_mask_ignores(freq_pattern, freqs, f, k - 1);
        let tone = freq_pattern[k - 1];
        assert(freq_pattern.contains(tone));
        lemma_contains_push(freqs, f, tone);
    }
}

/// What a sequence holds after one more element.
proof fn lemma_contains_push(s: Seq<usize>, f: usize, x: usize)
    ensures
        s.push(f).contains(x) <==> s.contains(x) || x == f,
{
    if s.contains(x) {
        let i = choose|i: int| 0 <= i < s.len() && s[i] == x;
        assert(s.push(f)[i] == x);
    }
    if x == f {
        assert(s.push(f)[s.len() as int] == x);
    }
    if s.push(f).contains(x) {
        let i = choose|i: int| 0 <= i < s.push(f).len() && s.push(f)[i] == x;
        if i < s.len() {
            assert(s[i] == x);
        }
    }
}

/// Tone `idx` of the pattern sets bit `idx`, once the mask reaches that far.
proof fn lemma_mask_hears(freq_pattern: Seq<usize>, freqs: Seq<usize>, idx: int, k: int)
    requires
        strictly_ascending(freq_pattern),
        0 <= idx < freq_pattern.len() <= 8,
        0 <= k <= freq_pattern.len(),
    ensures
        mask_upto(freq_pattern, freqs.push(freq_pattern[idx]), k) == if idx < k {
            mask_upto(freq_pattern, freqs, k) | (1u8 << (idx as u8))
        } else {
            mask_upto(freq_pattern, freqs, k)
        },
    decreases k,
{
    if k > 0 {
        let f = freq_pattern[idx];
        lemma_mask_hears(freq_pattern, freqs, idx, k - 1);
        let tone = freq_pattern[k - 1];
        lemma_contains_push(freqs, f, tone);
        let rest = mask_upto(freq_pattern, freqs, k - 1);
        let bit: u8 = 1u8 << (idx as u8);
        let here: u8 = 1u8 << ((k - 1) as u8);
        if k - 1 == idx {
            assert((rest | bit) | bit == rest | bit) by (bit_vector);
        } else {
            assert(tone != f);
            if idx < k - 1 {
                assert((rest | bit) | here == (rest | here) | bit) by (bit_vector);
            }
        }
    }
}

/// Maps detected frequencies back to a symbol: each is looked up in the
/// ascending table of tones, and the bit of the tone it matches is set.
pub fn decode_by_given_freq_pattern(freq_pattern: &[usize], freqs: &[usize]) -> (byte_result: u8)
    requires
        strictly_ascending(freq_pattern@),
        freq_pattern@.len() <= 8,
    ensures
        byte_result == pattern_mask(freq_pattern@, freqs@),
{
    let ghost n = freq_pattern@.len() as int;
    let mut byte_result: u8 = 0;
    let mut j: usize = 0;
    proof {
        lemma_mask_of_nothing(freq_pattern@, n);
        assert(freqs@.take(0) =~= Seq::<usize>::empty());
    }
    while j < freqs.len()
        invariant
            j <= freqs@.len(),
            n == freq_pattern@.len() <= 8,
            strictly_ascending(freq_pattern@),
            byte_result == mask_upto(freq_pattern@, freqs@.take(j as int), n),
        decreases freqs@.len() - j,
    {
        let ghost heard = freqs@.take(j as int);
        assert(freqs@.take(j + 1) =~= heard.push(freqs@[j as int]));
        match find_in_table(freq_pattern, freqs[j]) {
            Some(idx) => {
                proof {
                    lemma_mask_hears(freq_pattern@, heard, idx as int, n);
                }
                byte_result = byte_result | (1u8 << (idx as u8));
            },
            None => {
                proof {
                    lemma_mask_ignores(freq_pattern@, heard, freqs@[j as int], n);
                }
            },
        }
        j = j + 1;
    }
    assert(freqs@.take(j as int) =~= freqs@);
    byte_result
}

/// With nothing detected, no bit is set.
proof fn lemma_mask_of_nothing(freq_pattern: Seq<usize>, k: int)
    ensures
        mask_upto(freq_pattern, Seq::<usize>::empty(), k) == 0,
    decreases k,
{
    if k > 0 {
        lemma_mask_of_nothing(freq_pattern, k - 1);
    }
}

/// The tones of a nibble among the first `k` carriers, in ascending order.
pub open spec fn tones_upto(b: u8, k: int) -> Seq<usize>
    decreases k,
{
    if k <= 0 {
        Seq::empty()
    } else {
        let rest = tones_upto(b, k - 1);
        if has_bit(b, (k - 1) as u8) {
            rest.push(carrier_bins()[k - 1])
        } else {
            rest
        }
    }
}

/// The tones that sound for a nibble: carrier `i` for each set bit `i`.
pub open spec fn tones_of(b: u8) -> Seq<usize> {
    tones_upto(b, 4)
}

/// One symbol of a waveform: the tones that are summed sample by sample, and
/// the number that the sum is divided by.
#[derive(Debug)]
pub struct Symbol {
    pub tones: Vec<usize>,
    pub divisor: usize,
}

/// The mathematical content of a symbol.
pub struct SymbolView {
    pub tones: Seq<usize>,
    pub divisor: nat,
}

impl View for Symbol {
    type V = SymbolView;

    open spec fn view(&self) -> SymbolView {
        SymbolView { tones: self.tones@, divisor: self.divisor as nat }
    }
}

/// The contents of a sequence of symbols.
pub open spec fn symbol_views(symbols: Seq<Symbol>) -> Seq<SymbolView> {
    symbols.map_values(|s: Symbol| s@)
}

/// The symbol of a nibble: its tones, normalised by their number. The nibble
/// zero is silence.
pub open spec fn symbol_of(b: u8) -> SymbolView {
    SymbolView {
        tones: tones_of(b),
        divisor: if tones_of(b).len() == 0 {
            1
        } else {
            tones_of(b).len()
        },
    }
}

/// A symbol that is one tone at full amplitude.
pub open spec fn single_tone(bin: usize) -> SymbolView {
    SymbolView { tones: seq![bin], divisor: 1 }
}

/// The two symbols of a byte, high nibble first.
pub open spec fn byte_score(b: u8) -> Seq<SymbolView> {
    seq![symbol_of(b >> 4), symbol_of(b & 0x0f)]
}

/// The symbols of a byte sequence: two per byte, in input order.
pub open spec fn score_of(bytes: Seq<u8>) -> Seq<SymbolView> {
    Seq::new(
        2 * bytes.len(),
        |i: int|
            if i % 2 == 0 {
                symbol_of(bytes[i / 2] >> 4)
            } else {
                symbol_of(bytes[i / 2] & 0x0f)
            },
    )
}

/// The preamble: the bit-0 tone, then the bit-1 tone, and both once more.
pub open spec fn preamble_score() -> Seq<SymbolView> {
    seq![
        single_tone(preamble_bins()[0]),
        single_tone(preamble_bins()[1]),
        single_tone(preamble_bins()[0]),
        single_tone(preamble_bins()[1]),
    ]
}

/// Modulates the symbols of a byte sequence, byte by byte.
pub fn modulate_bits(b: Vec<u8>) -> (score: Vec<Symbol>)
    ensures
        symbol_views(score@) == score_of(b@),
{
    let mut score: Vec<Symbol> = Vec::new();
    let mut i: usize = 0;
    while i < b.len()
        invariant
            i <= b@.len(),
            score@.len() == 2 * i,
            forall|k: int| 0 <= k < score@.len() ==> (#[trigger] score@[k])@ == score_of(b@)[k],
        decreases b@.len() - i,
    {
        let byte: u8 = b[i];
        assert(byte >> 4 < 16 && byte & 0x0f < 16) by (bit_vector);
        score.push(modulate_half_byte(byte >> 4));
        score.push(modulate_half_byte(byte & 0x0f));
        i = i + 1;
    }
    assert(symbol_views(score@) =~= score_of(b@));
    score
}

/// The two symbols of a byte: its high nibble, then its low nibble.
pub fn modulate_byte(b: u8) -> (score: Vec<Symbol>)
    ensures
        symbol_views(score@) == byte_score(b),
{
    let higher_four: u8 = (b & 0b11110000) >> 4;
    let lower_four: u8 = b & 0b00001111;
    assert(higher_four == b >> 4 && higher_four < 16 && lower_four < 16) by (bit_vector)
        requires
            higher_four == (b & 0b11110000) >> 4,
            lower_four == b & 0b00001111,
    ;
    let mut score: Vec<Symbol> = Vec::new();
    score.push(modulate_half_byte(higher_four));
    score.push(modulate_half_byte(lower_four));
    assert(symbol_views(score@) =~= byte_score(b));
    score
}

/// The symbol of a nibble: for each carrier whose bit is set, that carrier's
/// tone; the sum is divided by the number of set bits, if any.
pub fn modulate_half_byte(b: u8) -> (symbol: Symbol)
    requires
        b < 16,
    ensures
        symbol@ == symbol_of(b),
{
    let table = carrier_table();
    let mut tones: Vec<usize> = Vec::new();
    let mut normalize_factor: usize = 0;
    let mut i: usize = 0;
    while i < FREQ_NUMBER
        invariant
            i <= 4,
            table@ == carrier_bins(),
            tones@ == tones_upto(b, i as int),
            normalize_factor == tones@.len() <= i,
        decreases 4 - i,
    {
        if (b & (1u8 << (i as u8))) > 0 {
            tones.push(table[i]);
            normalize_factor = normalize_factor + 1;
        }
        i = i + 1;
    }
    let divisor: usize = if normalize_factor == 0 {
        1
    } else {
        normalize_factor
    };
    Symbol { tones, divisor }
}

/// Puts the preamble in front of a waveform.
pub fn prepend_preamble(signal: &[Symbol]) -> (score: Vec<Symbol>)
    ensures
        symbol_views(score@) == preamble_score() + symbol_views(signal@),
{
    let table = preamble_table();
    let mut score: Vec<Symbol> = Vec::new();
    let mut round: usize = 0;
    while round < 2
        invariant
            round <= 2,
            table@ == preamble_bins(),
            score@.len() == 2 * round,
            forall|k: int| 0 <= k < score@.len() ==> (#[trigger] score@[k])@ == preamble_score()[k],
        decreases 2 - round,
    {
        let mut a: Vec<usize> = Vec::new();
        a.push(table[0]);
        let mut b: Vec<usize> = Vec::new();
        b.push(table[1]);
        assert(a@ =~= seq![preamble_bins()[0]]);
        assert(b@ =~= seq![preamble_bins()[1]]);
        score.push(Symbol { tones: a, divisor: 1 });
        score.push(Symbol { tones: b, divisor: 1 });
        round = round + 1;
    }
    let mut i: usize = 0;
    while i < signal.len()
        invariant
            i <= signal@.len(),
            score@.len() == 4 + i,
            forall|k: int| 0 <= k < 4 ==> (#[trigger] score@[k])@ == preamble_score()[k],
            forall|k: int| 0 <= k < i ==> (#[trigger] score@[4 + k])@ == signal@[k]@,
        decreases signal@.len() - i,
    {
        let mut tones: Vec<usize> = Vec::new();
        let mut j: usize = 0;
        while j < signal[i].tones.len()
            invariant
                i < signal@.len(),
                j <= signal@[i as int].tones@.len(),
                tones@ == signal@[i as int].tones@.take(j as int),
            decreases signal@[i as int].tones@.len() - j,
        {
            tones.push(signal[i].tones[j]);
            j = j + 1;
            assert(tones@ =~= signal@[i as int].tones@.take(j as int));
        }
        assert(tones@ =~= signal@[i as int].tones@);
        score.push(Symbol { tones, divisor: signal[i].divisor });
        i = i + 1;
    }
    let ghost whole = preamble_score() + symbol_views(signal@);
    assert forall|k: int| 0 <= k < score@.len() implies symbol_views(score@)[k] == whole[k] by {
        if k >= 4 {
            assert(score@[4 + (k - 4)]@ == signal@[k - 4]@);
        }
    }
    assert(symbol_views(score@) =~= whole);
    score
}

/// The column at the temporal midpoint of a symbol.
pub open spec fn middle_column(columns: Seq<Vec<u64>>) -> Seq<u64>
    recommends
        columns.len() > 0,
{
    columns[columns.len() as int / 2]@
}

/// The nibble that the middle column of a symbol shows: the carriers among
/// its dominant frequencies.
pub open spec fn nibble_of(columns: Seq<Vec<u64>>) -> u8
    recommends
        columns.len() > 0,
{
    pattern_mask(carrier_bins(), dominant(middle_column(columns)))
}

/// The nibble of a symbol's waveform, from the spectral columns of that
/// waveform: the column at the temporal midpoint decides. `None` if there is
/// no column.
pub fn demodulate_half_byte(columns: &[Vec<u64>]) -> (nibble: Option<u8>)
    ensures
        nibble is None <==> columns@.len() == 0,
        nibble is Some ==> nibble->Some_0 == nibble_of(columns@),
{
    if columns.len() == 0 {
        return None;
    }
    let freq_col = &columns[columns.len() / 2];
    let freqs = detect_main_freqs(freq_col.as_slice());
    let table = carrier_table();
    proof {
        lemma_carriers_ascend();
    }
    Some(decode_by_given_freq_pattern(table.as_slice(), freqs.as_slice()))
}

/// The carrier table is in ascending order, as the lookup needs it.
pub proof fn lemma_carriers_ascend()
    ensures
        strictly_ascending(carrier_bins()),
        carrier_bins().len() == 4,
{
    let c = carrier_bins();
    assert(c[0] == 12 && c[1] == 15 && c[2] == 20 && c[3] == 24);
}

/// The byte of two symbols' waveforms, from their spectral columns: the first
/// is the high nibble, the second the low one. `None` if either has no column.
pub fn demodulate_byte(high: &[Vec<u64>], low: &[Vec<u64>]) -> (byte: Option<u8>)
    ensures
        byte is None <==> high@.len() == 0 || low@.len() == 0,
        byte is Some ==> byte->Some_0 == join_nibbles(nibble_of(high@), nibble_of(low@)),
{
    match demodulate_half_byte(high) {
        None => None,
        Some(h) => match demodulate_half_byte(low) {
            None => None,
            Some(l) => {
                proof {
                    lemma_nibble_mask(dominant(middle_column(high@)));
                }
                Some((h << 4) | l)
            },
        },
    }
}

/// A high and a low nibble as one byte.
pub open spec fn join_nibbles(high: u8, low: u8) -> u8 {
    (high << 4) | low
}

/// Four carriers give a nibble: the mask is below 16.
pub proof fn lemma_nibble_mask(freqs: Seq<usize>)
    ensures
        pattern_mask(carrier_bins(), freqs) < 16,
{
    let p = carrier_bins();
    let m0 = mask_upto(p, freqs, 0);
    let m1 = mask_upto(p, freqs, 1);
    let m2 = mask_upto(p, freqs, 2);
    let m3 = mask_upto(p, freqs, 3);
    let m4 = mask_upto(p, freqs, 4);
    assert(m0 == 0);
    assert(m1 == m0 || m1 == m0 | (1u8 << 0u8));
    assert(m2 == m1 || m2 == m1 | (1u8 << 1u8));
    assert(m3 == m2 || m3 == m2 | (1u8 << 2u8));
    assert(m4 == m3 || m4 == m3 | (1u8 << 3u8));
    assert(m4 < 16) by (bit_vector)
        requires
            m0 == 0,
            m1 == m0 || m1 == m0 | (1u8 << 0u8),
            m2 == m1 || m2 == m1 | (1u8 << 1u8),
            m3 == m2 || m3 == m2 | (1u8 << 2u8),
            m4 == m3 || m4 == m3 | (1u8 << 3u8),
    ;
}

/// The byte that the windows `2 * i` and `2 * i + 1` show.
pub open spec fn byte_of(windows: Seq<Vec<Vec<u64>>>, i: int) -> u8
    recommends
        0 <= i && 2 * i + 1 < windows.len(),
{
    join_nibbles(nibble_of(windows[2 * i]@), nibble_of(windows[2 * i + 1]@))
}

/// The bytes of a payload, from the spectral columns of its symbols, one
/// window per symbol and two symbols per byte, high nibble first. A last
/// window without a partner is left out. `None` if a window that counts has
/// no column.
pub fn demodulate_data(windows: &[Vec<Vec<u64>>]) -> (bytes: Option<Vec<u8>>)
    ensures
        bytes is Some <==> forall|k: int|
            0 <= k < 2 * (windows@.len() / 2) ==> (#[trigger] windows@[k])@.len() > 0,
        bytes is Some ==> bytes->Some_0@.len() == windows@.len() / 2 && forall|i: int|
            0 <= i < windows@.len() / 2 ==> #[trigger] bytes->Some_0@[i] == byte_of(windows@, i),
{
    let count: usize = windows.len() / 2;
    let mut bytes: Vec<u8> = Vec::new();
    let mut i: usize = 0;
    while i < count
        invariant
            i <= count,
            count == windows@.len() / 2,
            windows@.len() <= usize::MAX,
            bytes@.len() == i,
            forall|k: int| 0 <= k < 2 * i ==> (#[trigger] windows@[k])@.len() > 0,
            forall|j: int| 0 <= j < i ==> #[trigger] bytes@[j] == byte_of(windows@, j),
        decreases count - i,
    {
        let first: usize = 2 * i;
        match demodulate_byte(windows[first].as_slice(), windows[first + 1].as_slice()) {
            None => {
                assert(windows@[2 * i]@.len() == 0 || windows@[2 * i + 1]@.len() == 0);
                return None;
            },
            Some(byte) => {
                bytes.push(byte);
            },
        }
        i = i + 1;
    }
    Some(bytes)
}

/// A carrier is among the tones of a nibble exactly when its bit is set.
pub proof fn lemma_tones_of(b: u8, i: int)
    requires
        0 <= i < 4,
    ensures
        tones_of(b).contains(carrier_bins()[i]) <==> has_bit(b, i as u8),
{
    let c = carrier_bins();
    assert(c[0] == 12 && c[1] == 15 && c[2] == 20 && c[3] == 24);
    let t0 = tones_upto(b, 0);
    let t1 = tones_upto(b, 1);
    let t2 = tones_upto(b, 2);
    let t3 = tones_upto(b, 3);
    let t4 = tones_upto(b, 4);
    assert(!t0.contains(c[i]));
    lemma_contains_push(t0, c[0], c[i]);
    lemma_contains_push(t1, c[1], c[i]);
    lemma_contains_push(t2, c[2], c[i]);
    lemma_contains_push(t3, c[3], c[i]);
}

/// Whatever is detected, if the carriers among it are those of the nibble's
/// set bits, it decodes to the nibble. Other frequencies, and the order of
/// detection, count for nothing.
pub proof fn lemma_symbol_round_trip(b: u8, freqs: Seq<usize>)
    requires
        b < 16,
        forall|i: int| 0 <= i < 4 ==> (freqs.contains(#[trigger] carrier_bins()[i]) <==> has_bit(b, i as u8)),
    ensures
        pattern_mask(carrier_bins(), freqs) == b,
{
    let p = carrier_bins();
    let m0 = mask_upto(p, freqs, 0);
    let m1 = mask_upto(p, freqs, 1);
    let m2 = mask_upto(p, freqs, 2);
    let m3 = mask_upto(p, freqs, 3);
    let m4 = mask_upto(p, freqs, 4);
    assert(freqs.contains(p[0]) <==> has_bit(b, 0));
    assert(freqs.contains(p[1]) <==> has_bit(b, 1));
    assert(freqs.contains(p[2]) <==> has_bit(b, 2));
    assert(freqs.contains(p[3]) <==> has_bit(b, 3));
    assert(m0 == 0);
    assert(m1 == if b & (1u8 << 0u8) != 0 { m0 | (1u8 << 0u8) } else { m0 });
    assert(m2 == if b & (1u8 << 1u8) != 0 { m1 | (1u8 << 1u8) } else { m1 });
    assert(m3 == if b & (1u8 << 2u8) != 0 { m2 | (1u8 << 2u8) } else { m2 });
    assert(m4 == if b & (1u8 << 3u8) != 0 { m3 | (1u8 << 3u8) } else { m3 });
    assert(m4 == b) by (bit_vector)
        requires
            b < 16,
            m0 == 0,
            m1 == if b & (1u8 << 0u8) != 0 { m0 | (1u8 << 0u8) } else { m0 },
            m2 == if b & (1u8 << 1u8) != 0 { m1 | (1u8 << 1u8) } else { m1 },
            m3 == if b & (1u8 << 2u8) != 0 { m2 | (1u8 << 2u8) } else { m2 },
            m4 == if b & (1u8 << 3u8) != 0 { m3 | (1u8 << 3u8) } else { m3 },
    ;
}

/// No preamble tone is a carrier, and no two tones share a bin.
pub proof fn lemma_tones_are_distinct()
    ensures
        strictly_ascending(carrier_bins()),
        preamble_bins().len() == 2,
        preamble_bins()[0] != preamble_bins()[1],
        forall|i: int| 0 <= i < 2 ==> !carrier_bins().contains(#[trigger] preamble_bins()[i]),
{
    let c = carrier_bins();
    let p = preamble_bins();
    assert(c[0] == 12 && c[1] == 15 && c[2] == 20 && c[3] == 24);
    assert(p[0] == 8 && p[1] == 17);
}

/// A symbol whose middle column shows, among the carriers, exactly those of
/// the set bits of a nibble is demodulated to that nibble.
pub proof fn lemma_clean_symbol_decodes(columns: Seq<Vec<u64>>, b: u8)
    requires
        b < 16,
        forall|i: int|
            0 <= i < 4 ==> (dominant(middle_column(columns)).contains(#[trigger] carrier_bins()[i])
                <==> has_bit(b, i as u8)),
    ensures
        nibble_of(columns) == b,
{
    lemma_symbol_round_trip(b, dominant(middle_column(columns)));
}

/// The tones of a nibble decode to the nibble.
pub proof fn lemma_nibble_of_tones(b: u8)
    requires
        b < 16,
    ensures
        pattern_mask(carrier_bins(), tones_of(b)) == b,
{
    assert forall|i: int| 0 <= i < 4 implies (tones_of(b).contains(#[trigger] carrier_bins()[i])
        <==> has_bit(b, i as u8)) by {
        lemma_tones_of(b, i);
    }
    lemma_symbol_round_trip(b, tones_of(b));
}

/// The tones of the two symbols of a byte decode to the byte.
pub proof fn lemma_byte_of_tones(b: u8)
    ensures
        join_nibbles(
            pattern_mask(carrier_bins(), byte_score(b)[0].tones),
            pattern_mask(carrier_bins(), byte_score(b)[1].tones),
        ) == b,
{
    let high: u8 = b >> 4;
    let low: u8 = b & 0x0f;
    assert(high < 16 && low < 16 && (high << 4) | low == b) by (bit_vector)
        requires
            high == b >> 4,
            low == b & 0x0f,
    ;
    lemma_nibble_of_tones(high);
    lemma_nibble_of_tones(low);
}

} // verus!
