//! The envelope of a family of sampled curves and its peak.
//!
//! The curves are sampled at the same angles, so they form a matrix with one
//! row per curve and one column per angle. The envelope is the pointwise
//! minimum of the curves: at each angle the smallest sample of the column,
//! with the curve that binds there. The peak is the largest value of the
//! envelope, with the first angle that reaches it. Samples are compared as
//! the numbers they encode, see [`crate::sample`].

use crate::sample::{greater, gt, is_nan, less, lt, NEG_INF, POS_INF};
use vstd::prelude::*;

verus! {

/// Whether every curve has `n` samples.
pub open spec fn rectangular(yss: Seq<Seq<u32>>, n: nat) -> bool {
    forall|c: int| 0 <= c < yss.len() ==> (#[trigger] yss[c]).len() == n
}

/// Column `k` of the matrix: sample `k` of every curve, in the order of the
/// curves.
pub open spec fn column(yss: Seq<Seq<u32>>, k: int) -> Seq<u32> {
    Seq::new(yss.len(), |c: int| yss[c][k])
}

/// Whether entry `c` binds among the first `n` entries of `col`: it is below
/// positive infinity, none of those entries is below it, and it is strictly
/// below every entry before it that is a number.
pub open spec fn binds_among(col: Seq<u32>, n: int, c: int) -> bool {
    &&& 0 <= c < n
    &&& lt(col[c], POS_INF)
    &&& forall|j: int| 0 <= j < n ==> !lt(#[trigger] col[j], col[c])
    &&& forall|j: int| 0 <= j < c ==> lt(col[c], #[trigger] col[j]) || is_nan(col[j])
}

/// Whether entry `c` binds in `col`: the first of its smallest entries,
/// where NaN entries and positive infinity do not count.
pub open spec fn is_binding(col: Seq<u32>, c: int) -> bool {
    binds_among(col, col.len() as int, c)
}

/// Whether some entry of `col` binds.
pub open spec fn has_binding(col: Seq<u32>) -> bool {
    exists|c: int| is_binding(col, c)
}

/// The entry of `col` that binds, where there is one.
pub open spec fn binding(col: Seq<u32>) -> int {
    choose|c: int| is_binding(col, c)
}

/// The minimum of a column: its binding entry, or positive infinity where
/// nothing binds.
pub open spec fn column_min(col: Seq<u32>) -> u32 {
    if has_binding(col) {
        col[binding(col)]
    } else {
        POS_INF
    }
}

/// The envelope over the first `n` angles: the minimum of each column.
pub open spec fn envelope(yss: Seq<Seq<u32>>, n: nat) -> Seq<u32> {
    Seq::new(n, |k: int| column_min(column(yss, k)))
}

/// Whether entry `a` is the peak among the first `n` entries of `env`: it is
/// above negative infinity, none of those entries is above it, and it is
/// strictly above every entry before it that is a number.
pub open spec fn peaks_among(env: Seq<u32>, n: int, a: int) -> bool {
    &&& 0 <= a < n
    &&& gt(env[a], NEG_INF)
    &&& forall|k: int| 0 <= k < n ==> !gt(#[trigger] env[k], env[a])
    &&& forall|k: int| 0 <= k < a ==> gt(env[a], #[trigger] env[k]) || is_nan(env[k])
}

/// Whether entry `a` is the peak of `env`: the first of its largest entries,
/// where NaN entries and negative infinity do not count.
pub open spec fn is_peak(env: Seq<u32>, a: int) -> bool {
    peaks_among(env, env.len() as int, a)
}

/// Whether `env` has a peak.
pub open spec fn has_peak(env: Seq<u32>) -> bool {
    exists|a: int| is_peak(env, a)
}

/// The position of the peak of `env`, where there is one.
pub open spec fn peak(env: Seq<u32>) -> int {
    choose|a: int| is_peak(env, a)
}

/// The largest value of `env`: its peak, or negative infinity where there is
/// none.
pub open spec fn peak_value(env: Seq<u32>) -> u32 {
    if has_peak(env) {
        env[peak(env)]
    } else {
        NEG_INF
    }
}

/// At most one entry of a column binds.
pub proof fn lemma_binding_unique(col: Seq<u32>, c: int, d: int)
    requires
        is_binding(col, c),
        is_binding(col, d),
    ensures
        c == d,
{
    if c < d {
        assert(lt(col[d], col[c]) || is_nan(col[c]));
        assert(!lt(col[d], col[c]));
    } else if d < c {
        assert(lt(col[c], col[d]) || is_nan(col[d]));
        assert(!lt(col[c], col[d]));
    }
}

/// A sequence has at most one peak.
pub proof fn lemma_peak_unique(env: Seq<u32>, a: int, b: int)
    requires
        is_peak(env, a),
        is_peak(env, b),
    ensures
        a == b,
{
    if a < b {
        assert(gt(env[b], env[a]) || is_nan(env[a]));
        assert(!gt(env[b], env[a]));
    } else if b < a {
        assert(gt(env[a], env[b]) || is_nan(env[b]));
        assert(!gt(env[a], env[b]));
    }
}

/// The minimum of a column is a number: never a NaN.
pub proof fn lemma_column_min_is_number(col: Seq<u32>)
    ensures
        !is_nan(column_min(col)),
{
}

/// What a scan of one column finds.
pub struct ColumnScan {
    /// The minimum of the column.
    pub min_y: u32,
    /// The curve that binds, if any does.
    pub curve: Option<usize>,
}

/// Scans column `k`: its minimum, and the curve that binds there.
pub fn scan_column(yss: &Vec<Vec<u32>>, k: usize) -> (found: ColumnScan)
    requires
        forall|c: int| 0 <= c < yss.len() ==> k < (#[trigger] yss.deep_view()[c]).len(),
    ensures
        found.min_y == column_min(column(yss.deep_view(), k as int)),
        found.curve.is_some() == has_binding(column(yss.deep_view(), k as int)),
        found.curve matches Some(c) ==> c == binding(column(yss.deep_view(), k as int)),
{
    let ghost col = column(yss.deep_view(), k as int);
    let mut min_y: u32 = POS_INF;
    let mut curve: Option<usize> = None;
    let mut c: usize = 0;
    while c < yss.len()
        invariant
            c <= yss.len(),
            col == column(yss.deep_view(), k as int),
            forall|j: int| 0 <= j < yss.len() ==> k < (#[trigger] yss.deep_view()[j]).len(),
            match curve {
                Some(b) => binds_among(col, c as int, b as int) && min_y == col[b as int],
                None => min_y == POS_INF && forall|j: int|
                    0 <= j < c ==> !lt(#[trigger] col[j], POS_INF),
            },
        decreases yss.len() - c,
    {
        assert(yss.deep_view()[c as int].len() > k);
        let y = yss[c][k];
        assert(y == col[c as int]);
        if less(y, min_y) {
            min_y = y;
            curve = Some(c);
        }
        c = c + 1;
    }
    proof {
        match curve {
            Some(b) => {
                assert(is_binding(col, b as int));
                lemma_binding_unique(col, b as int, binding(col));
            },
            None => {
                assert(!has_binding(col));
            },
        }
    }
    ColumnScan { min_y, curve }
}

/// Tests whether every curve has `n` samples.
pub fn is_rectangular(yss: &Vec<Vec<u32>>, n: usize) -> (r: bool)
    ensures
        r == rectangular(yss.deep_view(), n as nat),
{
    let mut c: usize = 0;
    while c < yss.len()
        invariant
            c <= yss.len(),
            forall|j: int| 0 <= j < c ==> (#[trigger] yss.deep_view()[j]).len() == n,
        decreases yss.len() - c,
    {
        if yss[c].len() != n {
            assert(yss.deep_view()[c as int].len() != n);
            return false;
        }
        c = c + 1;
    }
    true
}

/// The envelope alone: the minimum of every column, in the order of the
/// angles.
pub fn envelope_of(yss: &Vec<Vec<u32>>, num_points: usize) -> (min_ys: Vec<u32>)
    requires
        rectangular(yss.deep_view(), num_points as nat),
    ensures
        min_ys@ == envelope(yss.deep_view(), num_points as nat),
{
    let mut min_ys: Vec<u32> = Vec::new();
    let mut k: usize = 0;
    while k < num_points
        invariant
            k <= num_points,
            rectangular(yss.deep_view(), num_points as nat),
            min_ys@ == envelope(yss.deep_view(), k as nat),
        decreases num_points - k,
    {
        let found = scan_column(yss, k);
        min_ys.push(found.min_y);
        assert(min_ys@ =~= envelope(yss.deep_view(), (k + 1) as nat));
        k = k + 1;
    }
    min_ys
}

/// What a scan of one sequence finds.
pub struct PeakScan {
    /// The largest value of the sequence.
    pub max_y: u32,
    /// The first position that reaches it, if the sequence rises above
    /// negative infinity at all.
    pub angle: Option<usize>,
}

/// Scans a sequence for its peak: its largest value, and the first position
/// that reaches it.
pub fn peak_of(env: &Vec<u32>) -> (found: PeakScan)
    ensures
        found.max_y == peak_value(env@),
        found.angle.is_some() == has_peak(env@),
        found.angle matches Some(a) ==> a == peak(env@),
{
    let mut max_y: u32 = NEG_INF;
    let mut angle: Option<usize> = None;
    let mut k: usize = 0;
    while k < env.len()
        invariant
            k <= env.len(),
            match angle {
                Some(a) => peaks_among(env@, k as int, a as int) && max_y == env@[a as int],
                None => max_y == NEG_INF && forall|j: int|
                    0 <= j < k ==> !gt(#[trigger] env@[j], NEG_INF),
            },
        decreases env.len() - k,
    {
        if greater(env[k], max_y) {
            max_y = env[k];
            angle = Some(k);
        }
        k = k + 1;
    }
    proof {
        match angle {
            Some(a) => {
                assert(is_peak(env@, a as int));
                lemma_peak_unique(env@, a as int, peak(env@));
            },
            None => {
                assert(!has_peak(env@));
            },
        }
    }
    PeakScan { max_y, angle }
}

/// What a scan of the whole matrix finds.
pub struct Scan {
    /// The envelope: the minimum of every column.
    pub min_ys: Vec<u32>,
    /// The largest value of the envelope.
    pub max_min_y: u32,
    /// The first angle at which the envelope reaches that value, if it rises
    /// above negative infinity at all.
    pub angle: Option<usize>,
    /// The curve that binds at that angle, if any does.
    pub curve: Option<usize>,
}

/// What `scan` finds in a matrix of `n` columns.
pub open spec fn is_scan_of(found: Scan, yss: Seq<Seq<u32>>, n: nat) -> bool {
    &&& found.min_ys@ == envelope(yss, n)
    &&& found.max_min_y == peak_value(found.min_ys@)
    &&& found.angle.is_some() == has_peak(found.min_ys@)
    &&& found.angle matches Some(a) ==> a == peak(found.min_ys@)
    &&& found.curve.is_some() == (found.angle matches Some(a) && has_binding(column(yss, a as int)))
    &&& found.curve matches Some(c) ==> found.angle matches Some(a) && c == binding(
        column(yss, a as int),
    )
}

/// Scans the matrix angle by angle: takes the minimum of each column, and
/// keeps the first angle whose minimum is the largest, with the curve that
/// binds there.
pub fn scan(yss: &Vec<Vec<u32>>, num_points: usize) -> (found: Scan)
    requires
        rectangular(yss.deep_view(), num_points as nat),
    ensures
        is_scan_of(found, yss.deep_view(), num_points as nat),
{
    let ghost m = yss.deep_view();
    let mut min_ys: Vec<u32> = Vec::new();
    let mut max_min_y: u32 = NEG_INF;
    let mut angle: Option<usize> = None;
    let mut curve: Option<usize> = None;
    let mut k: usize = 0;
    while k < num_points
        invariant
            k <= num_points,
            m == yss.deep_view(),
            rectangular(m, num_points as nat),
            min_ys@ == envelope(m, k as nat),
            match angle {
                Some(a) => {
                    &&& peaks_among(min_ys@, k as int, a as int)
                    &&& max_min_y == min_ys@[a as int]
                    &&& curve.is_some() == has_binding(column(m, a as int))
                    &&& curve matches Some(c) ==> c == binding(column(m, a as int))
                },
                None => {
                    &&& max_min_y == NEG_INF
                    &&& curve.is_none()
                    &&& forall|j: int| 0 <= j < k ==> !gt(#[trigger] min_ys@[j], NEG_INF)
                },
            },
        decreases num_points - k,
    {
        let found = scan_column(yss, k);
        let ghost before = min_ys@;
        min_ys.push(found.min_y);
        proof {
            assert(min_ys@ =~= envelope(m, (k + 1) as nat));
            assert(forall|j: int| 0 <= j < k ==> min_ys@[j] == before[j]);
        }
        if greater(found.min_y, max_min_y) {
            max_min_y = found.min_y;
            angle = Some(k);
            curve = found.curve;
        }
        k = k + 1;
    }
    proof {
        match angle {
            Some(a) => {
                assert(is_peak(min_ys@, a as int));
                lemma_peak_unique(min_ys@, a as int, peak(min_ys@));
            },
            None => {
                assert(!has_peak(min_ys@));
            },
        }
    }
    Scan { min_ys, max_min_y, angle, curve }
}

/// Among the first `n` entries of a column either one binds or none is
/// below positive infinity.
proof fn lemma_binding_or_none(col: Seq<u32>, n: int) -> (b: Option<int>)
    requires
        0 <= n <= col.len(),
    ensures
        b matches Some(c) ==> binds_among(col, n, c),
        b.is_none() ==> forall|j: int| 0 <= j < n ==> !lt(#[trigger] col[j], POS_INF),
    decreases n,
{
    if n == 0 {
        None
    } else {
        let y = col[n - 1];
        match lemma_binding_or_none(col, n - 1) {
            Some(c) => {
                if lt(y, col[c]) {
                    Some(n - 1)
                } else {
                    Some(c)
                }
            },
            None => {
                if lt(y, POS_INF) {
                    Some(n - 1)
                } else {
                    None
                }
            },
        }
    }
}

/// Among the first `n` entries of a sequence either one is the peak or none
/// is above negative infinity.
proof fn lemma_peak_or_none(env: Seq<u32>, n: int) -> (p: Option<int>)
    requires
        0 <= n <= env.len(),
    ensures
        p matches Some(a) ==> peaks_among(env, n, a),
        p.is_none() ==> forall|j: int| 0 <= j < n ==> !gt(#[trigger] env[j], NEG_INF),
    decreases n,
{
    if n == 0 {
        None
    } else {
        let y = env[n - 1];
        match lemma_peak_or_none(env, n - 1) {
            Some(a) => {
                if gt(y, env[a]) {
                    Some(n - 1)
                } else {
                    Some(a)
                }
            },
            None => {
                if gt(y, NEG_INF) {
                    Some(n - 1)
                } else {
                    None
                }
            },
        }
    }
}

/// The minimum of a column is below the whole column, and is one of its
/// entries wherever it is below positive infinity.
pub proof fn lemma_column_min_is_min(col: Seq<u32>, c: int)
    requires
        0 <= c < col.len(),
    ensures
        !lt(col[c], column_min(col)),
        column_min(col) != POS_INF ==> exists|b: int|
            0 <= b < col.len() && column_min(col) == #[trigger] col[b],
{
    match lemma_binding_or_none(col, col.len() as int) {
        Some(b) => {
            assert(is_binding(col, b));
            lemma_binding_unique(col, b, binding(col));
        },
        None => {
            assert(!lt(col[c], POS_INF));
            assert(!has_binding(col)) by {
                if has_binding(col) {
                    let b = binding(col);
                    assert(is_binding(col, b));
                    assert(!lt(col[b], POS_INF));
                }
            }
        },
    }
}

/// The envelope is below every curve, and touches one wherever it is below
/// positive infinity: no sample of a column is below the column's minimum,
/// and a minimum that is not positive infinity is a sample of its column.
pub proof fn lemma_envelope_is_pointwise_min(yss: Seq<Seq<u32>>, n: nat, k: int, c: int)
    requires
        rectangular(yss, n),
        0 <= k < n,
        0 <= c < yss.len(),
    ensures
        !lt(yss[c][k], envelope(yss, n)[k]),
        envelope(yss, n)[k] != POS_INF ==> exists|b: int|
            0 <= b < yss.len() && envelope(yss, n)[k] == #[trigger] yss[b][k],
{
    let col = column(yss, k);
    assert(col[c] == yss[c][k]);
    lemma_column_min_is_min(col, c);
    if column_min(col) != POS_INF {
        let b = choose|b: int| 0 <= b < col.len() && column_min(col) == #[trigger] col[b];
        assert(col[b] == yss[b][k]);
    }
}

/// The peak value is above the whole sequence, and is one of its entries
/// wherever it is above negative infinity.
pub proof fn lemma_peak_is_max(env: Seq<u32>, k: int)
    requires
        0 <= k < env.len(),
    ensures
        !gt(env[k], peak_value(env)),
        peak_value(env) != NEG_INF ==> exists|a: int|
            0 <= a < env.len() && peak_value(env) == #[trigger] env[a],
{
    match lemma_peak_or_none(env, env.len() as int) {
        Some(a) => {
            assert(is_peak(env, a));
            lemma_peak_unique(env, a, peak(env));
        },
        None => {
            assert(!gt(env[k], NEG_INF));
            assert(!has_peak(env)) by {
                if has_peak(env) {
                    let a = peak(env);
                    assert(is_peak(env, a));
                    assert(!gt(env[a], NEG_INF));
                }
            }
        },
    }
}

/// The peak that a scan reports is the peak of the envelope taken again
/// from the curves, and of the envelope that the scan returns: scanning in
/// one pass and taking the envelope and then its peak in two give the same
/// value and the same angle.
pub proof fn lemma_scan_agrees_with_rescan(
    found: Scan,
    yss: Seq<Seq<u32>>,
    n: nat,
    min_ys: Seq<u32>,
    again: PeakScan,
)
    requires
        is_scan_of(found, yss, n),
        min_ys == envelope(yss, n),
        again.max_y == peak_value(min_ys),
        again.angle.is_some() == has_peak(min_ys),
        again.angle matches Some(a) ==> a == peak(min_ys),
    ensures
        found.min_ys@ == min_ys,
        found.max_min_y == again.max_y,
        found.angle == again.angle,
        found.max_min_y == peak_value(found.min_ys@),
{
}

/// Two scans of the same curves find the same: the same envelope, the same
/// peak, the same angle and the same binding curve.
pub proof fn lemma_scan_is_deterministic(a: Scan, b: Scan, yss: Seq<Seq<u32>>, n: nat)
    requires
        is_scan_of(a, yss, n),
        is_scan_of(b, yss, n),
    ensures
        a.min_ys@ == b.min_ys@,
        a.max_min_y == b.max_min_y,
        a.angle == b.angle,
        a.curve == b.curve,
{
}

} // verus!
