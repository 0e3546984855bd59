//! Options, limits and errors.
use super::fault::{LayoutFault, SpillFault};
use vstd::prelude::*;

verus! {

/// The random codewords of a hiding commitment.
pub const NUM_RANDOM_CODEWORDS: usize = 4;

/// The logarithm of the blowup of a commitment.
pub const LOG_BLOWUP: usize = 4;

/// The factor that the blowup is.
pub const BLOWUP: usize = 16;

/// The queries of a proof.
pub const NUM_QUERIES: usize = 96;

/// The height of a Merkle cap.
pub const CAP_HEIGHT: usize = 6;

/// The bytes of a field element.
pub const FELT_BYTES: usize = 8;

/// The elements that a trace may have unless told otherwise.
pub const DEFAULT_MAX_TRACE_FELTS: usize = 134217728;

/// Where the outer trace is proved: in memory, or streamed in blocks of columns.
#[derive(Clone, Copy, Debug, PartialEq, Eq, Structural)]
pub enum AggregationBackend {
    InMemory,
    Stream { c_block: usize },
}

/// The profile of the inner proofs.
#[derive(Clone, Copy, Debug, PartialEq, Eq, Structural)]
pub enum ProductionInnerFriProfile {
    /// The profile of the node: folds of arity up to sixteen.
    NodeProduction,
    /// The profile that recursion takes: folds of pairs.
    BinaryRecursion,
}

#[derive(Clone, Copy, Debug, PartialEq, Eq, Structural)]
pub struct ResearchAggregationOptions {
    pub inner_max_log_arity: usize,
    pub inner_num_queries: usize,
    pub inner_cap_height: usize,
    pub backend: AggregationBackend,
}

#[derive(Clone, Copy, Debug, PartialEq, Eq, Structural)]
pub struct ProductionAggregationOptions {
    pub backend: AggregationBackend,
    pub inner_profile: ProductionInnerFriProfile,
}

/// The backend of a build without streaming.
pub fn default_backend() -> (r: AggregationBackend)
    ensures
        r == AggregationBackend::InMemory,
{
    AggregationBackend::InMemory
}

impl Default for ProductionAggregationOptions {
    fn default() -> (r: Self)
        ensures
            r == (ProductionAggregationOptions {
                backend: AggregationBackend::InMemory,
                inner_profile: ProductionInnerFriProfile::NodeProduction,
            }),
    {
        ProductionAggregationOptions {
            backend: default_backend(),
            inner_profile: ProductionInnerFriProfile::NodeProduction,
        }
    }
}

impl ProductionAggregationOptions {
    pub fn binary_recursion() -> (r: Self)
        ensures
            r == (ProductionAggregationOptions {
                backend: AggregationBackend::InMemory,
                inner_profile: ProductionInnerFriProfile::BinaryRecursion,
            }),
    {
        ProductionAggregationOptions {
            backend: default_backend(),
            inner_profile: ProductionInnerFriProfile::BinaryRecursion,
        }
    }
}

impl Default for ResearchAggregationOptions {
    fn default() -> (r: Self)
        ensures
            r == (ResearchAggregationOptions {
                inner_max_log_arity: 1,
                inner_num_queries: 8,
                inner_cap_height: 2,
                backend: AggregationBackend::InMemory,
            }),
    {
        ResearchAggregationOptions {
            inner_max_log_arity: 1,
            inner_num_queries: 8,
            inner_cap_height: 2,
            backend: default_backend(),
        }
    }
}

#[derive(Clone, Copy, Debug, PartialEq, Eq)]
pub enum AggregationError {
    Empty,
    InvalidFanIn { n: usize },
    TooManyInputs { n: usize },
    WrongPublicValueCount { got: usize },
    MalformedInnerProof,
    InnerQueryCount { expected: usize, got: usize },
    InnerCapHeight { expected: usize, got: usize },
    NonHidingInnerProof,
    InvalidDummyPadding,
    UnsupportedFriArity { log_arity: usize },
    InnerProofRejected,
    MismatchedInnerShape,
    ResourceLimit { what: &'static str, required_felts: usize, limit_felts: usize },
    TraceLayout(LayoutFault),
    BackendUnavailable(&'static str),
    MalformedAggregateProof,
}

#[derive(Debug, Clone, Copy, PartialEq, Eq, Structural)]
pub struct TraceResourceEstimate {
    pub height: usize,
    pub width: usize,
    pub required_felts: usize,
    pub limit_felts: usize,
    pub within_limit: bool,
}

#[derive(Debug, Clone, Copy, PartialEq, Eq, Structural)]
pub struct ProductionAggregateStreamSpillEstimate {
    pub trace_bytes: usize,
    pub randomized_trace_bytes: usize,
    pub committed_trace_lde_bytes: usize,
    pub trace_commit_peak_bytes: usize,
}

#[derive(Debug, Clone, Copy, PartialEq, Eq, Structural)]
pub struct ProductionAggregateResourcePlan {
    pub n_inputs: usize,
    pub inner_trace: TraceResourceEstimate,
    pub inner_query_segment: TraceResourceEstimate,
    pub aggregate_trace: TraceResourceEstimate,
    pub aggregate_query_segment: TraceResourceEstimate,
}

/// The error of an estimate that is over its limit.
pub open spec fn over_limit(what: &'static str, e: TraceResourceEstimate) -> AggregationError {
    AggregationError::ResourceLimit {
        what,
        required_felts: e.required_felts,
        limit_felts: e.limit_felts,
    }
}

/// The bytes of a spill, over the integers: the trace, the randomised trace of twice the height with
/// the random codewords beside it, and its extension by the blowup.
pub open spec fn spill_sizes(h: int, w: int) -> (int, int, int) {
    let rw = w + NUM_RANDOM_CODEWORDS;
    (h * w * FELT_BYTES, 2 * h * rw * FELT_BYTES, 2 * h * BLOWUP * rw * FELT_BYTES)
}

/// The most bytes that are there at a time: while the trace is randomised, or while the randomised
/// trace is extended.
pub open spec fn spill_peak(h: int, w: int) -> int {
    let (t, r, l) = spill_sizes(h, w);
    if t + r < r + l {
        r + l
    } else {
        t + r
    }
}

/// Multiplies elements out to bytes.
pub fn felts_to_spill_bytes(felts: usize, fault: SpillFault) -> (r: Result<usize, AggregationError>)
    ensures
        match r {
            Ok(b) => b == felts * FELT_BYTES,
            Err(e) => felts * FELT_BYTES > usize::MAX && e == AggregationError::TraceLayout(
                LayoutFault::Spill(fault),
            ),
        },
{
    match felts.checked_mul(FELT_BYTES) {
        Some(b) => Ok(b),
        None => Err(AggregationError::TraceLayout(LayoutFault::Spill(fault))),
    }
}

fn spill_fault<T>(fault: SpillFault) -> (r: Result<T, AggregationError>)
    ensures
        r == Err::<T, AggregationError>(AggregationError::TraceLayout(LayoutFault::Spill(fault))),
{
    Err(AggregationError::TraceLayout(LayoutFault::Spill(fault)))
}

impl ProductionAggregateResourcePlan {
    /// Whether the plan keeps its limits in memory.
    pub fn check_limits(&self) -> (r: Result<(), AggregationError>)
        ensures
            r == self.limits_z(AggregationBackend::InMemory, None),
    {
        self.check_limits_for_backend(AggregationBackend::InMemory)
    }

    /// Whether the plan keeps the limits of a backend, with nothing known of what can be spilled.
    pub fn check_limits_for_backend(&self, backend: AggregationBackend) -> (r: Result<
        (),
        AggregationError,
    >)
        ensures
            r == self.limits_z(backend, None),
    {
        self.check_limits_with_spill(backend, None)
    }

    /// The outcome of the limits of a backend, with the bytes that can be spilled where they are
    /// known.
    pub open spec fn limits_z(
        self,
        backend: AggregationBackend,
        spill_available: Option<usize>,
    ) -> Result<(), AggregationError> {
        let (inner, what) = match backend {
            AggregationBackend::InMemory => (self.inner_trace, "hiding inner monolith trace"),
            AggregationBackend::Stream { .. } => (
                self.inner_query_segment,
                "hiding inner monolith query segment",
            ),
        };
        let (outer, outer_what) = match backend {
            AggregationBackend::InMemory => (
                self.aggregate_trace,
                "production aggregate folded trace",
            ),
            AggregationBackend::Stream { .. } => (
                self.aggregate_query_segment,
                "production aggregate query segment",
            ),
        };
        if !inner.within_limit {
            Err(over_limit(what, inner))
        } else if !outer.within_limit {
            Err(over_limit(outer_what, outer))
        } else {
            match (backend, spill_available) {
                (AggregationBackend::Stream { .. }, Some(limit)) => match self.spill_z() {
                    Err(e) => Err(e),
                    Ok(s) => if s.trace_commit_peak_bytes > limit {
                        Err(
                            AggregationError::ResourceLimit {
                                what: "production aggregate stream spill bytes",
                                required_felts: s.trace_commit_peak_bytes,
                                limit_felts: limit,
                            },
                        )
                    } else {
                        Ok(())
                    },
                },
                _ => Ok(()),
            }
        }
    }

    /// Whether the plan keeps the limits of a backend. `spill_available` are the bytes that can be
    /// spilled, where they are known.
    pub fn check_limits_with_spill(
        &self,
        backend: AggregationBackend,
        spill_available: Option<usize>,
    ) -> (r: Result<(), AggregationError>)
        ensures
            r == self.limits_z(backend, spill_available),
    {
        let (inner, what): (TraceResourceEstimate, &'static str) = match backend {
            AggregationBackend::InMemory => (self.inner_trace, "hiding inner monolith trace"),
            AggregationBackend::Stream { .. } => (
                self.inner_query_segment,
                "hiding inner monolith query segment",
            ),
        };
        if !inner.within_limit {
            return Err(
                AggregationError::ResourceLimit {
                    what,
                    required_felts: inner.required_felts,
                    limit_felts: inner.limit_felts,
                },
            );
        }
        let (outer, outer_what): (TraceResourceEstimate, &'static str) = match backend {
            AggregationBackend::InMemory => (
                self.aggregate_trace,
                "production aggregate folded trace",
            ),
            AggregationBackend::Stream { .. } => (
                self.aggregate_query_segment,
                "production aggregate query segment",
            ),
        };
        if !outer.within_limit {
            return Err(
                AggregationError::ResourceLimit {
                    what: outer_what,
                    required_felts: outer.required_felts,
                    limit_felts: outer.limit_felts,
                },
            );
        }
        match (backend, spill_available) {
            (AggregationBackend::Stream { .. }, Some(limit)) => match self.stream_spill_estimate() {
                Err(e) => Err(e),
                Ok(s) => {
                    if s.trace_commit_peak_bytes > limit {
                        Err(
                            AggregationError::ResourceLimit {
                                what: "production aggregate stream spill bytes",
                                required_felts: s.trace_commit_peak_bytes,
                                limit_felts: limit,
                            },
                        )
                    } else {
                        Ok(())
                    }
                },
            },
            _ => Ok(()),
        }
    }

    /// What the spill of the aggregate trace comes to, or the first size that does not fit.
    pub open spec fn spill_z(self) -> Result<
        ProductionAggregateStreamSpillEstimate,
        AggregationError,
    > {
        let h = self.aggregate_trace.height as int;
        let w = self.aggregate_trace.width as int;
        let rw = w + NUM_RANDOM_CODEWORDS;
        let lde = lde_height(2 * h);
        let most = usize::MAX as int;
        let (t, r) = (h * w, 2 * h * rw);
        let l = lde * rw;
        let fault = if rw > most {
            Some(SpillFault::RandomizedWidth)
        } else if t > most {
            Some(SpillFault::TraceStore)
        } else if 2 * h > most {
            Some(SpillFault::RandomizedHeight)
        } else if r > most {
            Some(SpillFault::RandomizedStore)
        } else if l > most {
            Some(SpillFault::LdeStore)
        } else if t * FELT_BYTES > most {
            Some(SpillFault::TraceBytes)
        } else if r * FELT_BYTES > most {
            Some(SpillFault::RandomizedBytes)
        } else if l * FELT_BYTES > most {
            Some(SpillFault::LdeBytes)
        } else if t * FELT_BYTES + r * FELT_BYTES > most {
            Some(SpillFault::RandomizationPeak)
        } else if r * FELT_BYTES + l * FELT_BYTES > most {
            Some(SpillFault::CommitPeak)
        } else {
            None
        };
        match fault {
            Some(f) => Err(AggregationError::TraceLayout(LayoutFault::Spill(f))),
            None => {
                let (tb, rb, lb) = (t * FELT_BYTES, r * FELT_BYTES, l * FELT_BYTES);
                Ok(
                    ProductionAggregateStreamSpillEstimate {
                        trace_bytes: tb as usize,
                        randomized_trace_bytes: rb as usize,
                        committed_trace_lde_bytes: lb as usize,
                        trace_commit_peak_bytes: (if tb + rb < rb + lb {
                            rb + lb
                        } else {
                            tb + rb
                        }) as usize,
                    },
                )
            },
        }
    }

    /// The bytes that the spill of the aggregate trace takes.
    pub fn stream_spill_estimate(&self) -> (r: Result<
        ProductionAggregateStreamSpillEstimate,
        AggregationError,
    >)
        ensures
            r == self.spill_z(),
    {
        let h: usize = self.aggregate_trace.height;
        let w: usize = self.aggregate_trace.width;
        let rw: usize = match w.checked_add(NUM_RANDOM_CODEWORDS) {
            None => {
                return spill_fault(SpillFault::RandomizedWidth);
            },
            Some(v) => v,
        };
        let trace_felts: usize = match h.checked_mul(w) {
            None => {
                return spill_fault(SpillFault::TraceStore);
            },
            Some(v) => v,
        };
        let rh: usize = match h.checked_mul(2) {
            None => {
                return spill_fault(SpillFault::RandomizedHeight);
            },
            Some(v) => v,
        };
        let randomized_felts: usize = match rh.checked_mul(rw) {
            None => {
                return spill_fault(SpillFault::RandomizedStore);
            },
            Some(v) => v,
        };
        let lde_h: usize = shift_blowup(rh);
        let lde_felts: usize = match lde_h.checked_mul(rw) {
            None => {
                return spill_fault(SpillFault::LdeStore);
            },
            Some(v) => v,
        };
        let trace_bytes: usize = match felts_to_spill_bytes(trace_felts, SpillFault::TraceBytes) {
            Err(e) => {
                return Err(e);
            },
            Ok(v) => v,
        };
        let randomized_trace_bytes: usize = match felts_to_spill_bytes(
            randomized_felts,
            SpillFault::RandomizedBytes,
        ) {
            Err(e) => {
                return Err(e);
            },
            Ok(v) => v,
        };
        let committed_trace_lde_bytes: usize = match felts_to_spill_bytes(
            lde_felts,
            SpillFault::LdeBytes,
        ) {
            Err(e) => {
                return Err(e);
            },
            Ok(v) => v,
        };
        let randomization_peak: usize = match trace_bytes.checked_add(randomized_trace_bytes) {
            None => {
                return spill_fault(SpillFault::RandomizationPeak);
            },
            Some(v) => v,
        };
        let commit_peak: usize = match randomized_trace_bytes.checked_add(
            committed_trace_lde_bytes,
        ) {
            None => {
                return spill_fault(SpillFault::CommitPeak);
            },
            Some(v) => v,
        };
        let trace_commit_peak_bytes: usize = if randomization_peak < commit_peak {
            commit_peak
        } else {
            randomization_peak
        };
        Ok(
            ProductionAggregateStreamSpillEstimate {
                trace_bytes,
                randomized_trace_bytes,
                committed_trace_lde_bytes,
                trace_commit_peak_bytes,
            },
        )
    }
}

/// The height of an extended trace: shifted by the blowup, without the bits that are shifted out.
pub open spec fn lde_height(rh: int) -> int {
    (rh * BLOWUP) % (usize::MAX + 1)
}

fn shift_blowup(rh: usize) -> (r: usize)
    ensures
        r == lde_height(rh as int),
{
    let low: usize = rh % (usize::MAX / BLOWUP + 1);
    proof {
        let m = usize::MAX + 1;
        let q = usize::MAX / BLOWUP + 1;
        assert(q * BLOWUP == m) by {
            assert(m == 0x1_0000_0000 || m == 0x1_0000_0000_0000_0000) by {
                vstd::arithmetic::power2::lemma2_to64();
            }
        }
        let d = rh as int / q;
        vstd::arithmetic::div_mod::lemma_fundamental_div_mod(rh as int, q as int);
        assert(rh * BLOWUP == m * d + low * BLOWUP) by (nonlinear_arith)
            requires
                rh == q * d + low,
                q * BLOWUP == m,
                BLOWUP == 16,
        ;
        assert(low * BLOWUP < m);
        vstd::arithmetic::div_mod::lemma_mod_multiples_vanish(d, low * BLOWUP, m as int);
        vstd::arithmetic::div_mod::lemma_small_mod((low * BLOWUP) as nat, m as nat);
    }
    low * BLOWUP
}

/// The estimate is given exactly where the randomised trace and its extension together fit, and is then
/// what the sizes come to over the integers.
pub proof fn law_spill_sizes(p: ProductionAggregateResourcePlan)
    ensures
        ({
            let (h, w) = (p.aggregate_trace.height as int, p.aggregate_trace.width as int);
            let (t, r, l) = spill_sizes(h, w);
            let peak = spill_peak(h, w);
            &&& p.spill_z() is Ok <==> w + NUM_RANDOM_CODEWORDS <= usize::MAX && 272 * (h * (w
                + NUM_RANDOM_CODEWORDS)) <= usize::MAX
            &&& p.spill_z() is Ok ==> p.spill_z() == Ok::<
                ProductionAggregateStreamSpillEstimate,
                AggregationError,
            >(
                ProductionAggregateStreamSpillEstimate {
                    trace_bytes: t as usize,
                    randomized_trace_bytes: r as usize,
                    committed_trace_lde_bytes: l as usize,
                    trace_commit_peak_bytes: peak as usize,
                },
            )
        }),
{
    let h = p.aggregate_trace.height as int;
    let w = p.aggregate_trace.width as int;
    let rw = w + NUM_RANDOM_CODEWORDS;
    let (t, x) = (h * w, h * rw);
    assert(0 <= t <= x && 4 * h <= x && 2 * h * rw == 2 * x && x == h * rw && (h == 0 || rw <= x)) by (
    nonlinear_arith)
        requires
            h >= 0,
            w >= 0,
            rw == w + 4,
            t == h * w,
            x == h * rw,
    ;
    let lde = lde_height(2 * h);
    if 32 * h <= usize::MAX {
        vstd::arithmetic::div_mod::lemma_small_mod((2 * h * BLOWUP) as nat, (usize::MAX + 1) as nat);
        assert(lde == 32 * h);
        assert(lde * rw == 32 * x) by (nonlinear_arith)
            requires
                lde == 32 * h,
                x == h * rw,
        ;
        assert(2 * h * BLOWUP * rw == 32 * x) by (nonlinear_arith)
            requires
                BLOWUP == 16,
                x == h * rw,
        ;
    }
}

/// The size of a trace against a limit.
pub fn trace_resource_estimate_with_limit(
    what: &'static str,
    height: usize,
    width: usize,
    limit_felts: usize,
) -> (r: Result<TraceResourceEstimate, AggregationError>)
    ensures
        r == estimate_z(what, height, width, limit_felts),
{
    match height.checked_mul(width) {
        None => Err(AggregationError::TraceLayout(LayoutFault::Overflow { what })),
        Some(required_felts) => Ok(
            TraceResourceEstimate {
                height,
                width,
                required_felts,
                limit_felts,
                within_limit: required_felts <= limit_felts,
            },
        ),
    }
}

pub open spec fn estimate_z(what: &'static str, height: usize, width: usize, limit: usize) -> Result<
    TraceResourceEstimate,
    AggregationError,
> {
    if height * width > usize::MAX {
        Err(AggregationError::TraceLayout(LayoutFault::Overflow { what }))
    } else {
        Ok(
            TraceResourceEstimate {
                height,
                width,
                required_felts: (height * width) as usize,
                limit_felts: limit,
                within_limit: height * width <= limit,
            },
        )
    }
}

/// The elements of a trace, where they are within a limit.
pub fn checked_trace_felts_with_limit(
    what: &'static str,
    height: usize,
    width: usize,
    limit_felts: usize,
) -> (r: Result<usize, AggregationError>)
    ensures
        r == (match estimate_z(what, height, width, limit_felts) {
            Err(e) => Err(e),
            Ok(s) => if s.within_limit {
                Ok(s.required_felts)
            } else {
                Err(over_limit(what, s))
            },
        }),
{
    match trace_resource_estimate_with_limit(what, height, width, limit_felts) {
        Err(e) => Err(e),
        Ok(s) => {
            if !s.within_limit {
                Err(
                    AggregationError::ResourceLimit {
                        what,
                        required_felts: s.required_felts,
                        limit_felts: s.limit_felts,
                    },
                )
            } else {
                Ok(s.required_felts)
            }
        },
    }
}

} // verus!
