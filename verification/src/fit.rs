//! The stages of one fit calculation, and what each decides.
//!
//! One calculation runs in this order. The caller derives the edges of the
//! outer polygon, and [`check_edges`] accepts them or names the fault. The
//! caller derives the critical direction from the edge normals, and
//! [`check_critical`] accepts it. [`choices_for`] lists the index choices.
//! The caller samples one margin curve per choice, and [`search`] finds the
//! envelope, its peak, and whether the peak counts as a fit. Where it does,
//! the caller reconstructs the translation, and [`conclude`] gives the
//! result. Every number crosses this boundary as a binary32 encoding.

use crate::choices::{count_choices, enumerable, index_choices, is_choice_table};
use crate::envelope::{
    binding, column, envelope, has_binding, is_binding, is_peak, is_rectangular, peak,
    peak_value, rectangular, scan,
};
use crate::sample::{
    at_least_zero, greater, gt, is_nan, is_zero, non_negative, rank, zero,
};
use vstd::arithmetic::power::pow;
use vstd::prelude::*;

verus! {

/// The number of edges of the outer polygon.
pub const OUTER_EDGES: usize = 3;

/// The number of angles, evenly spaced over one full turn, at which every
/// margin curve is sampled.
pub const NUM_POINTS: usize = 400;

/// The encoding of 0.01, the margin that the peak of the envelope has to
/// exceed to count as a fit.
pub const TOLERANCE: u32 = 0x3C23_D70A;

/// The encoding of 0.0001, the threshold below which the pseudo-inverse of
/// the normal matrix treats a singular value as zero.
pub const PSEUDO_INVERSE_EPSILON: u32 = 0x38D1_B717;

/// Why a calculation cannot be completed. Each means that the input is
/// outside what the calculator is defined for; none is recoverable.
#[derive(Clone, Copy, Debug, PartialEq, Eq, Structural)]
pub enum FitError {
    /// The outer polygon does not have exactly three edges.
    OuterEdgeCount,
    /// An edge of the outer polygon has length zero, so it has no normal.
    DegenerateEdge,
    /// A component of the critical direction is negative or not a number:
    /// the outer polygon is not wound counter-clockwise.
    CriticalDirection,
    /// The inner polygon has more vertices than index choices can be listed
    /// for.
    TooManyChoices,
    /// The number of curves is not the number of index choices.
    ChoiceCount,
    /// A curve does not have one sample per angle.
    SampleCount,
    /// The peak of the envelope is positive infinity, where no curve binds.
    UnboundedMargin,
    /// The pseudo-inverse of the normal matrix could not be computed.
    PseudoInverse,
}

/// The outcome of a calculation.
#[derive(Clone, Copy, Debug, PartialEq, Eq)]
pub enum PolyFitResult {
    /// The inner polygon does not fit at any sampled angle.
    NoFit,
    /// The inner polygon fits when rotated by `angle`, in radians, and moved
    /// by `translation`.
    Fit { angle: u32, translation: (u32, u32) },
}

/// The samples of one calculation, for plotting.
pub struct PlotData {
    /// The sampled angles.
    pub xs: Vec<u32>,
    /// One curve per index choice, each with one sample per angle.
    pub yss: Vec<Vec<u32>>,
    /// The envelope of the curves.
    pub min_ys: Vec<u32>,
}

impl PlotData {
    /// Whether the curves have one sample per angle and `min_ys` is their
    /// envelope.
    pub open spec fn wf(&self) -> bool {
        &&& rectangular(self.yss.deep_view(), self.xs@.len())
        &&& self.min_ys@ == envelope(self.yss.deep_view(), self.xs@.len())
    }
}

/// Where the envelope peaks, when the peak counts as a fit.
#[derive(Clone, Copy, Debug, PartialEq, Eq, Structural)]
pub struct Best {
    /// The position of the best angle among the sampled angles.
    pub angle_index: usize,
    /// The best angle.
    pub angle: u32,
    /// The position of the curve that binds at the best angle, which is the
    /// position of its index choice.
    pub curve: usize,
}

/// What the search finds.
pub struct Search {
    /// The samples that were searched, with their envelope.
    pub plot_data: PlotData,
    /// The peak of the envelope: the best worst-case margin.
    pub max_min_y: u32,
    /// Where the peak is, if it counts as a fit, and `None` if it does not.
    pub best: Option<Best>,
}

/// The vertex at which edge `to_idx` of a polygon with `n` vertices starts:
/// the one before `to_idx`, wrapping around.
pub fn edge_start(to_idx: usize, n: usize) -> (from_idx: usize)
    requires
        to_idx < n,
    ensures
        from_idx as int == (to_idx as int - 1) % (n as int),
{
    if to_idx != 0 {
        assert((to_idx as int - 1) % (n as int) == to_idx as int - 1) by (nonlinear_arith)
            requires
                0 < to_idx < n,
        ;
        to_idx - 1
    } else {
        assert((-1int) % (n as int) == n as int - 1) by (nonlinear_arith)
            requires
                0 < n,
        ;
        n - 1
    }
}

/// Whether an edge, given by its two components, has length zero.
pub open spec fn is_degenerate(edge: (u32, u32)) -> bool {
    is_zero(edge.0) && is_zero(edge.1)
}

/// The fault in the edges of an outer polygon, if there is one.
pub open spec fn edges_fault(edges: Seq<(u32, u32)>) -> Option<FitError> {
    if edges.len() != OUTER_EDGES {
        Some(FitError::OuterEdgeCount)
    } else if exists|i: int| 0 <= i < edges.len() && is_degenerate(#[trigger] edges[i]) {
        Some(FitError::DegenerateEdge)
    } else {
        None
    }
}

/// Accepts the edges of an outer polygon, one per vertex, or names the
/// fault: there have to be exactly three, none of length zero.
pub fn check_edges(edges: &Vec<(u32, u32)>) -> (r: Result<(), FitError>)
    ensures
        r == match edges_fault(edges@) {
            Some(e) => Err::<(), FitError>(e),
            None => Ok(()),
        },
{
    if edges.len() != OUTER_EDGES {
        return Err(FitError::OuterEdgeCount);
    }
    let mut i: usize = 0;
    while i < edges.len()
        invariant
            i <= edges.len() == OUTER_EDGES,
            forall|j: int| 0 <= j < i ==> !is_degenerate(#[trigger] edges@[j]),
        decreases edges.len() - i,
    {
        let edge = edges[i];
        if zero(edge.0) && zero(edge.1) {
            assert(is_degenerate(edges@[i as int]));
            return Err(FitError::DegenerateEdge);
        }
        i = i + 1;
    }
    Ok(())
}

/// Whether a critical direction is valid: all three components at least
/// zero.
pub open spec fn is_critical(critical: (u32, u32, u32)) -> bool {
    non_negative(critical.0) && non_negative(critical.1) && non_negative(critical.2)
}

/// Accepts a critical direction, or rejects it where a component is negative
/// or not a number.
pub fn check_critical(critical: (u32, u32, u32)) -> (r: Result<(), FitError>)
    ensures
        r == if is_critical(critical) {
            Ok::<(), FitError>(())
        } else {
            Err(FitError::CriticalDirection)
        },
{
    if at_least_zero(critical.0) && at_least_zero(critical.1) && at_least_zero(critical.2) {
        Ok(())
    } else {
        Err(FitError::CriticalDirection)
    }
}

/// The index choices for an inner polygon of `inner_vertices` vertices: all
/// assignments of one of them to each edge of the outer polygon, in
/// lexicographic order.
pub fn choices_for(inner_vertices: usize) -> (r: Result<Vec<Vec<usize>>, FitError>)
    ensures
        r.is_ok() == enumerable(inner_vertices as nat, OUTER_EDGES as nat),
        r matches Ok(table) ==> is_choice_table(
            table.deep_view(),
            inner_vertices as nat,
            OUTER_EDGES as nat,
        ),
        r matches Err(e) ==> e == FitError::TooManyChoices,
{
    match index_choices(inner_vertices, OUTER_EDGES) {
        Some(table) => Ok(table),
        None => Err(FitError::TooManyChoices),
    }
}

/// Whether a margin counts as a fit: it has to exceed the tolerance.
pub open spec fn is_fit(max_min_y: u32) -> bool {
    gt(max_min_y, TOLERANCE)
}

/// Decides whether a margin counts as a fit.
pub fn fits(max_min_y: u32) -> (r: bool)
    ensures
        r == is_fit(max_min_y),
{
    greater(max_min_y, TOLERANCE)
}

/// The fault in the samples of a calculation, if there is one.
pub open spec fn samples_fault(inner_vertices: nat, xs: Seq<u32>, yss: Seq<Seq<u32>>) -> Option<
    FitError,
> {
    let env = envelope(yss, xs.len());
    if !enumerable(inner_vertices, OUTER_EDGES as nat) {
        Some(FitError::TooManyChoices)
    } else if yss.len() != pow(inner_vertices as int, OUTER_EDGES as nat) {
        Some(FitError::ChoiceCount)
    } else if !rectangular(yss, xs.len()) {
        Some(FitError::SampleCount)
    } else if is_fit(peak_value(env)) && !has_binding(column(yss, peak(env))) {
        Some(FitError::UnboundedMargin)
    } else {
        None
    }
}

/// Whether `found` is what the search finds in the curves `yss` sampled at
/// the angles `xs`.
pub open spec fn is_search_of(found: Search, xs: Seq<u32>, yss: Seq<Seq<u32>>) -> bool {
    let env = envelope(yss, xs.len());
    &&& found.plot_data.xs@ == xs
    &&& found.plot_data.yss.deep_view() == yss
    &&& found.plot_data.min_ys@ == env
    &&& found.max_min_y == peak_value(env)
    &&& found.best.is_some() == is_fit(peak_value(env))
    &&& found.best matches Some(best) ==> {
        &&& best.angle_index == peak(env)
        &&& best.angle == xs[peak(env)]
        &&& best.curve == binding(column(yss, peak(env)))
    }
}

/// Searches the sampled curves for the best angle. `yss` holds one curve per
/// index choice of an inner polygon of `inner_vertices` vertices, in the
/// order of the choices, each sampled at the angles `xs`. The search takes
/// the envelope of the curves and its peak, and reports the first angle that
/// reaches the peak, with the curve that binds there, if the peak exceeds
/// the tolerance.
pub fn search(inner_vertices: usize, xs: Vec<u32>, yss: Vec<Vec<u32>>) -> (r: Result<
    Search,
    FitError,
>)
    ensures
        match samples_fault(inner_vertices as nat, xs@, yss.deep_view()) {
            Some(e) => r matches Err(f) && f == e,
            None => r matches Ok(found) && is_search_of(found, xs@, yss.deep_view()),
        },
{
    let count = match count_choices(inner_vertices, OUTER_EDGES) {
        Some(count) => count,
        None => {
            return Err(FitError::TooManyChoices);
        },
    };
    if yss.len() != count {
        return Err(FitError::ChoiceCount);
    }
    if !is_rectangular(&yss, xs.len()) {
        return Err(FitError::SampleCount);
    }
    let found = scan(&yss, xs.len());
    let best = if fits(found.max_min_y) {
        match (found.angle, found.curve) {
            (Some(angle_index), Some(curve)) => Some(
                Best { angle_index, angle: xs[angle_index], curve },
            ),
            _ => {
                return Err(FitError::UnboundedMargin);
            },
        }
    } else {
        None
    };
    Ok(
        Search {
            plot_data: PlotData { xs, yss, min_ys: found.min_ys },
            max_min_y: found.max_min_y,
            best,
        },
    )
}

/// The result of a calculation, from what the search found and from the
/// translation that the caller reconstructed at the best angle: `None` where
/// the pseudo-inverse failed. Without a best angle there is no fit, and the
/// translation is not looked at.
pub fn conclude(best: Option<Best>, translation: Option<(u32, u32)>) -> (r: Result<
    PolyFitResult,
    FitError,
>)
    ensures
        r == match (best, translation) {
            (None, _) => Ok::<PolyFitResult, FitError>(PolyFitResult::NoFit),
            (Some(b), Some(t)) => Ok(PolyFitResult::Fit { angle: b.angle, translation: t }),
            (Some(_), None) => Err(FitError::PseudoInverse),
        },
{
    match best {
        None => Ok(PolyFitResult::NoFit),
        Some(b) => match translation {
            Some(t) => Ok(PolyFitResult::Fit { angle: b.angle, translation: t }),
            None => Err(FitError::PseudoInverse),
        },
    }
}

/// The tolerance is a strict bound. A margin of exactly the tolerance is no
/// fit, the next encoding above it is one, and in general a margin is a fit
/// exactly when it is a number whose rank is above that of the tolerance.
pub proof fn lemma_tolerance_is_strict(max_min_y: u32)
    ensures
        !is_fit(TOLERANCE),
        is_fit((TOLERANCE + 1) as u32),
        is_fit(max_min_y) <==> !is_nan(max_min_y) && rank(max_min_y) > rank(TOLERANCE),
{
}

/// A search whose envelope peaks at exactly the tolerance reports no best
/// angle, so the calculation concludes that there is no fit; one whose
/// envelope peaks anywhere above it reports one.
pub proof fn lemma_search_at_tolerance(found: Search, xs: Seq<u32>, yss: Seq<Seq<u32>>)
    requires
        is_search_of(found, xs, yss),
    ensures
        peak_value(envelope(yss, xs.len())) == TOLERANCE ==> found.best.is_none(),
        !is_nan(found.max_min_y) && rank(found.max_min_y) > rank(TOLERANCE)
            ==> found.best.is_some(),
{
}

/// What a search returns is consistent with a fresh look at the samples it
/// returns: they have one sample per angle, their envelope is the one
/// returned, and the peak of that envelope is the margin returned.
pub proof fn lemma_search_matches_plot_data(
    found: Search,
    inner_vertices: nat,
    xs: Seq<u32>,
    yss: Seq<Seq<u32>>,
)
    requires
        samples_fault(inner_vertices, xs, yss).is_none(),
        is_search_of(found, xs, yss),
    ensures
        found.plot_data.wf(),
        found.max_min_y == peak_value(found.plot_data.min_ys@),
        found.max_min_y == peak_value(
            envelope(found.plot_data.yss.deep_view(), found.plot_data.xs@.len()),
        ),
        found.best matches Some(best) ==> {
            &&& is_peak(found.plot_data.min_ys@, best.angle_index as int)
            &&& found.plot_data.min_ys@[best.angle_index as int] == found.max_min_y
            &&& is_binding(
                column(found.plot_data.yss.deep_view(), best.angle_index as int),
                best.curve as int,
            )
            &&& found.plot_data.yss.deep_view()[best.curve as int][best.angle_index as int]
                == found.max_min_y
        },
{
    let env = envelope(yss, xs.len());
    if found.best.is_some() {
        let a = peak(env);
        let col = column(yss, a);
        assert(is_peak(env, a));
        assert(is_binding(col, binding(col)));
        assert(col[binding(col)] == yss[binding(col)][a]);
    }
}

/// Two searches of the same samples return the same: the same envelope, the
/// same margin, the same best angle and the same binding curve.
pub proof fn lemma_search_is_deterministic(a: Search, b: Search, xs: Seq<u32>, yss: Seq<Seq<u32>>)
    requires
        is_search_of(a, xs, yss),
        is_search_of(b, xs, yss),
    ensures
        a.plot_data.xs@ == b.plot_data.xs@,
        a.plot_data.yss.deep_view() == b.plot_data.yss.deep_view(),
        a.plot_data.min_ys@ == b.plot_data.min_ys@,
        a.max_min_y == b.max_min_y,
        a.best == b.best,
{
}

} // verus!
