//! Tone detection on one spectral column.
//!
//! A column holds one energy value per frequency bin of the analysis window.
//! Energies are linear, in thousandths of a unit, so that three units of
//! energy are 3000. A frequency is named by the number of its bin.

use vstd::prelude::*;

verus! {

/// Two bins belong to one cluster of simultaneously active tones when their
/// energies are no further apart than this (three units).
pub const ENERGY_TOLERANCE: u64 = 3000;

/// Bin `a` ranks before bin `b`: it has more energy, or as much and the
/// higher bin number.
pub open spec fn outranks(col: Seq<u64>, a: int, b: int) -> bool {
    col[a] > col[b] || (col[a] == col[b] && a > b)
}

/// The bin that ranks first in a column.
pub open spec fn top_bin(col: Seq<u64>) -> int
    decreases col.len(),
{
    if col.len() <= 1 {
        0
    } else {
        let before = top_bin(col.drop_last());
        if col.last() >= col[before] {
            col.len() - 1
        } else {
            before
        }
    }
}

/// Bin `b` comes directly behind bin `a` in the ranking of the column.
pub open spec fn follows(col: Seq<u64>, a: int, b: int) -> bool {
    &&& outranks(col, a, b)
    &&& forall|c: int| 0 <= c < col.len() && c != b && outranks(col, a, c) ==> outranks(col, b, c)
}

/// `bins` is the dominant cluster of the column: it starts with the top bin,
/// goes on down the ranking while each bin is within the tolerance of the one
/// before it, and stops before the first bin that is not.
pub open spec fn is_cluster(col: Seq<u64>, bins: Seq<usize>) -> bool {
    if col.len() == 0 {
        bins.len() == 0
    } else {
        &&& bins.len() > 0
        &&& forall|i: int| 0 <= i < bins.len() ==> (#[trigger] bins[i]) < col.len()
        &&& bins[0] == top_bin(col)
        &&& forall|i: int|
            0 <= i < bins.len() - 1 ==> follows(col, #[trigger] bins[i] as int, bins[i + 1] as int)
                && col[bins[i] as int] - col[bins[i + 1] as int] <= ENERGY_TOLERANCE
        &&& forall|c: int|
            0 <= c < col.len() && outranks(col, bins.last() as int, c) ==> col[bins.last() as int]
                - #[trigger] col[c] > ENERGY_TOLERANCE
    }
}

/// The dominant cluster of a column, in ranking order.
pub open spec fn dominant(col: Seq<u64>) -> Seq<usize> {
    choose|bins: Seq<usize>| is_cluster(col, bins)
}

/// The top bin is a bin of the column and ranks before every other.
pub proof fn lemma_top_bin(col: Seq<u64>)
    requires
        col.len() > 0,
    ensures
        0 <= top_bin(col) < col.len(),
        forall|b: int| 0 <= b < col.len() && b != top_bin(col) ==> outranks(col, top_bin(col), b),
    decreases col.len(),
{
    if col.len() > 1 {
        let front = col.drop_last();
        lemma_top_bin(front);
        assert forall|b: int| 0 <= b < col.len() && b != top_bin(col) implies outranks(
            col,
            top_bin(col),
            b,
        ) by {
            let before = top_bin(front);
            assert(front[before] == col[before]);
            if b < front.len() {
                assert(front[b] == col[b]);
                assert(b != before ==> outranks(front, before, b));
            }
        }
    }
}

/// Two clusters of one column agree on their common positions.
proof fn lemma_cluster_prefix(col: Seq<u64>, a: Seq<usize>, b: Seq<usize>, i: int)
    requires
        col.len() > 0,
        is_cluster(col, a),
        is_cluster(col, b),
        0 <= i < a.len(),
        i < b.len(),
    ensures
        a[i] == b[i],
    decreases i,
{
    if i > 0 {
        lemma_cluster_prefix(col, a, b, i - 1);
        let p = a[i - 1] as int;
        let x = a[i] as int;
        let y = b[i] as int;
        assert(follows(col, p, x));
        assert(b[i - 1] as int == p);
        assert(follows(col, p, y));
        if x != y {
            assert(outranks(col, x, y));
            assert(outranks(col, y, x));
        }
    }
}

/// A column has one dominant cluster only.
pub proof fn lemma_cluster_unique(col: Seq<u64>, a: Seq<usize>, b: Seq<usize>)
    requires
        is_cluster(col, a),
        is_cluster(col, b),
    ensures
        a == b,
{
    if col.len() == 0 {
        assert(a =~= b);
    } else {
        if a.len() < b.len() {
            let n = a.len() as int;
            lemma_cluster_prefix(col, a, b, n - 1);
            assert(follows(col, b[n - 1] as int, b[n] as int));
            assert(col[a.last() as int] - col[b[n] as int] > ENERGY_TOLERANCE);
        } else if b.len() < a.len() {
            let n = b.len() as int;
            lemma_cluster_prefix(col, a, b, n - 1);
            assert(follows(col, a[n - 1] as int, a[n] as int));
            assert(col[b.last() as int] - col[a[n] as int] > ENERGY_TOLERANCE);
        }
        assert forall|i: int| 0 <= i < a.len() implies a[i] == b[i] by {
            lemma_cluster_prefix(col, a, b, i);
        }
        assert(a =~= b);
    }
}

/// A cluster of the column is its dominant cluster.
pub proof fn lemma_dominant_is(col: Seq<u64>, bins: Seq<usize>)
    requires
        is_cluster(col, bins),
    ensures
        dominant(col) == bins,
{
    lemma_cluster_unique(col, bins, dominant(col));
}

/// Whether bin `a` ranks before bin `b`.
fn ranks_before(col: &[u64], a: usize, b: usize) -> (r: bool)
    requires
        a < col@.len(),
        b < col@.len(),
    ensures
        r == outranks(col@, a as int, b as int),
{
    col[a] > col[b] || (col[a] == col[b] && a > b)
}

/// The bin with the most energy; of several such, the one with the highest
/// number.
pub fn strongest_bin(col: &[u64]) -> (top: usize)
    requires
        col@.len() > 0,
    ensures
        top == top_bin(col@),
        top < col@.len(),
{
    let mut top: usize = 0;
    let mut i: usize = 1;
    assert(col@.take(1).len() == 1);
    while i < col.len()
        invariant
            1 <= i <= col@.len(),
            top < i,
            top == top_bin(col@.take(i as int)),
        decreases col@.len() - i,
    {
        assert(col@.take(i + 1).drop_last() =~= col@.take(i as int));
        if col[i] >= col[top] {
            top = i;
        }
        i = i + 1;
    }
    assert(col@.take(i as int) =~= col@);
    top
}

/// The bin that comes directly behind `prev` in the ranking, if there is one.
fn next_in_rank(col: &[u64], prev: usize) -> (r: Option<usize>)
    requires
        prev < col@.len(),
    ensures
        match r {
            Some(b) => b < col@.len() && follows(col@, prev as int, b as int),
            None => forall|c: int| 0 <= c < col@.len() ==> !outranks(col@, prev as int, c),
        },
{
    let mut best: Option<usize> = None;
    let mut c: usize = 0;
    while c < col.len()
        invariant
            c <= col@.len(),
            prev < col@.len(),
            match best {
                Some(b) => b < c && outranks(col@, prev as int, b as int) && forall|d: int|
                    0 <= d < c && d != b && outranks(col@, prev as int, d) ==> outranks(
                        col@,
                        b as int,
                        d,
                    ),
                None => forall|d: int| 0 <= d < c ==> !outranks(col@, prev as int, d),
            },
        decreases col@.len() - c,
    {
        if ranks_before(col, prev, c) {
            match best {
                Some(b) => {
                    if ranks_before(col, c, b) {
                        best = Some(c);
                    }
                },
                None => {
                    best = Some(c);
                },
            }
        }
        c = c + 1;
    }
    best
}

/// The dominant frequencies of a column: its bins by descending energy, from
/// the strongest on for as long as each is within `ENERGY_TOLERANCE` of the
/// one before it. Bins of equal energy rank by descending bin number. An
/// empty column has no dominant frequency.
pub fn detect_main_freqs(freq_col: &[u64]) -> (bins: Vec<usize>)
    ensures
        is_cluster(freq_col@, bins@),
        bins@ == dominant(freq_col@),
{
    let mut bins: Vec<usize> = Vec::new();
    if freq_col.len() > 0 {
        let mut prev: usize = strongest_bin(freq_col);
        bins.push(prev);
        loop
            invariant_except_break
                bins@.len() > 0,
                bins@.last() == prev,
                forall|i: int| 0 <= i < bins@.len() ==> (#[trigger] bins@[i]) < freq_col@.len(),
                bins@[0] == top_bin(freq_col@),
                forall|i: int|
                    0 <= i < bins@.len() - 1 ==> follows(
                        freq_col@,
                        #[trigger] bins@[i] as int,
                        bins@[i + 1] as int,
                    ) && freq_col@[bins@[i] as int] - freq_col@[bins@[i + 1] as int]
                        <= ENERGY_TOLERANCE,
            ensures
                is_cluster(freq_col@, bins@),
            decreases freq_col@[prev as int], prev,
        {
            match next_in_rank(freq_col, prev) {
                None => {
                    break ;
                },
                Some(next) => {
                    if freq_col[prev] - freq_col[next] > ENERGY_TOLERANCE {
                        break ;
                    }
                    bins.push(next);
                    prev = next;
                },
            }
        }
    }
    proof {
        lemma_cluster_unique(freq_col@, bins@, dominant(freq_col@));
    }
    bins
}

} // verus!
