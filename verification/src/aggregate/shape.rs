//! The shapes that the production verifier takes.
use super::fault::{CheckedShape, DegreeFault, LayoutFault};
use super::options::{AggregationError, LOG_BLOWUP};
use crate::cols::{is_pow2, is_power_of_two};
use crate::native_fri::{log2_strict, log_z};
use crate::stark::{validate_degree_bits, ProofError};
use vstd::prelude::*;

verus! {

/// What the degree of a proof is refused for.
pub open spec fn degree_fail(degree_bits: int, is_zk: int, max_log_degree: int) -> Option<DegreeFault> {
    if degree_bits < is_zk {
        Some(DegreeFault::TooSmall { minimum: is_zk as usize, got: degree_bits as usize })
    } else if degree_bits > max_log_degree {
        Some(DegreeFault::TooLarge { maximum: max_log_degree as usize, got: degree_bits as usize })
    } else if degree_bits >= usize::BITS {
        Some(
            DegreeFault::TooLarge {
                maximum: (usize::BITS - 1) as usize,
                got: degree_bits as usize,
            },
        )
    } else {
        None
    }
}

/// What the quotient and the degree of a proof are refused for.
pub open spec fn shape_fail(
    of: CheckedShape,
    log_num_quotient_chunks: int,
    degree_bits: int,
    is_zk: int,
    max_log_degree: int,
) -> Option<LayoutFault> {
    if log_num_quotient_chunks > LOG_BLOWUP {
        Some(
            LayoutFault::QuotientChunks {
                of,
                log_num_quotient_chunks: log_num_quotient_chunks as usize,
                log_blowup: LOG_BLOWUP,
            },
        )
    } else {
        match degree_fail(degree_bits, is_zk, max_log_degree) {
            Some(fault) => Some(LayoutFault::DegreeBits { of, fault }),
            None => None,
        }
    }
}

/// Whether a proof of this degree, with this many quotient chunks, is one that the production verifier
/// takes.
fn validate_shape(
    of: CheckedShape,
    log_num_quotient_chunks: usize,
    degree_bits: usize,
    is_zk: usize,
    max_log_degree: usize,
) -> (r: Result<(), AggregationError>)
    ensures
        r == (match shape_fail(
            of,
            log_num_quotient_chunks as int,
            degree_bits as int,
            is_zk as int,
            max_log_degree as int,
        ) {
            Some(f) => Err::<(), AggregationError>(AggregationError::TraceLayout(f)),
            None => Ok(()),
        }),
{
    if log_num_quotient_chunks > LOG_BLOWUP {
        return Err(
            AggregationError::TraceLayout(
                LayoutFault::QuotientChunks { of, log_num_quotient_chunks, log_blowup: LOG_BLOWUP },
            ),
        );
    }
    let fault: DegreeFault = match validate_degree_bits(degree_bits, is_zk, max_log_degree) {
        Ok(_) => {
            return Ok(());
        },
        Err(ProofError::DegreeBitsTooSmall { minimum, got }) => DegreeFault::TooSmall {
            minimum,
            got,
        },
        Err(ProofError::DegreeBitsTooLarge { maximum, got }) => DegreeFault::TooLarge {
            maximum,
            got,
        },
        Err(_) => {
            assert(false);
            return Ok(());
        },
    };
    Err(AggregationError::TraceLayout(LayoutFault::DegreeBits { of, fault }))
}

/// Whether a join-split proof of this degree, with this many quotient chunks, is one that the production
/// verifier takes.
pub fn validate_production_joinsplit_shape(
    log_num_quotient_chunks: usize,
    degree_bits: usize,
    is_zk: usize,
    max_log_degree: usize,
) -> (r: Result<(), AggregationError>)
    ensures
        r == (match shape_fail(
            CheckedShape::JoinSplit,
            log_num_quotient_chunks as int,
            degree_bits as int,
            is_zk as int,
            max_log_degree as int,
        ) {
            Some(f) => Err::<(), AggregationError>(AggregationError::TraceLayout(f)),
            None => Ok(()),
        }),
{
    validate_shape(
        CheckedShape::JoinSplit,
        log_num_quotient_chunks,
        degree_bits,
        is_zk,
        max_log_degree,
    )
}

/// Whether an aggregate trace of this height, with this many quotient chunks, is one that the
/// production verifier takes.
pub fn validate_production_outer_dimensions(
    height: usize,
    log_num_quotient_chunks: usize,
    is_zk: usize,
    max_log_degree: usize,
) -> (r: Result<(), AggregationError>)
    ensures
        r == (if !is_pow2(height as int) {
            Err::<(), AggregationError>(
                AggregationError::TraceLayout(LayoutFault::HeightNotPowerOfTwo),
            )
        } else {
            match shape_fail(
                CheckedShape::Aggregate,
                log_num_quotient_chunks as int,
                log_z(height as int) + log_num_quotient_chunks,
                is_zk as int,
                max_log_degree as int,
            ) {
                Some(f) => Err(AggregationError::TraceLayout(f)),
                None => Ok(()),
            }
        }),
{
    if !is_power_of_two(height) {
        return Err(AggregationError::TraceLayout(LayoutFault::HeightNotPowerOfTwo));
    }
    if log_num_quotient_chunks > LOG_BLOWUP {
        return Err(
            AggregationError::TraceLayout(
                LayoutFault::QuotientChunks {
                    of: CheckedShape::Aggregate,
                    log_num_quotient_chunks,
                    log_blowup: LOG_BLOWUP,
                },
            ),
        );
    }
    let log_rows: usize = log2_strict(height);
    validate_shape(
        CheckedShape::Aggregate,
        log_num_quotient_chunks,
        log_rows + log_num_quotient_chunks,
        is_zk,
        max_log_degree,
    )
}

/// Whether an aggregate trace, given by its elements and its width, is one that the production verifier
/// takes.
pub fn validate_production_outer_shape(
    elements: usize,
    width: usize,
    log_num_quotient_chunks: usize,
    is_zk: usize,
    max_log_degree: usize,
) -> (r: Result<(), AggregationError>)
    requires
        width > 0,
    ensures
        r == (if !is_pow2((elements / width) as int) {
            Err::<(), AggregationError>(
                AggregationError::TraceLayout(LayoutFault::HeightNotPowerOfTwo),
            )
        } else {
            match shape_fail(
                CheckedShape::Aggregate,
                log_num_quotient_chunks as int,
                log_z((elements / width) as int) + log_num_quotient_chunks,
                is_zk as int,
                max_log_degree as int,
            ) {
                Some(f) => Err(AggregationError::TraceLayout(f)),
                None => Ok(()),
            }
        }),
{
    validate_production_outer_dimensions(
        elements / width,
        log_num_quotient_chunks,
        is_zk,
        max_log_degree,
    )
}

} // verus!
