use lattica_prover_p3::aggregate::fault::{CheckedShape, DegreeFault, LayoutFault, SpillFault};
use lattica_prover_p3::aggregate::inputs::{
    admit_joinsplit_aggregate_production, aggregate_verdict, cap_height_of, check_fan_in, check_research_shape,
    check_root_len, check_shape, pad_joinsplit_aggregate_production_inputs, parse_and_verify_inputs,
    parse_input, parse_production_input_for_plan, parse_production_inputs,
    plan_inner_sizes, plan_production_aggregate_from_parsed, InnerSizes,
    JoinSplitAggregateInput, OuterSizes, ProductionParams, ProofShape,
};
use lattica_prover_p3::aggregate::options::{
    checked_trace_felts_with_limit, felts_to_spill_bytes, trace_resource_estimate_with_limit,
    AggregationBackend, AggregationError, ProductionAggregateResourcePlan,
    ProductionAggregationOptions, ProductionInnerFriProfile, ResearchAggregationOptions,
    TraceResourceEstimate, BLOWUP, CAP_HEIGHT, FELT_BYTES, LOG_BLOWUP, NUM_QUERIES,
    NUM_RANDOM_CODEWORDS,
};
use lattica_prover_p3::aggregate::shape::{
    validate_production_joinsplit_shape, validate_production_outer_dimensions,
    validate_production_outer_shape,
};
use lattica_prover_p3::aggregate::tiling::{
    build_instance, build_production_instance, check_tx_root, emit_chunks, fold_digests, statement_chain, BlockSource, FoldLayout, InnerShape,
};
use lattica_prover_p3::aggregate::window::{
    apply_global_columns, apply_selector_window, fill_padding_rows_with_selector,
    overlay, salt4, selector_window, window_schedule,
};
use lattica_prover_p3::decode::proof_verdict;
use lattica_prover_p3::field::{eadd, emul, Challenge};
use lattica_prover_p3::merkle::merge;
use lattica_prover_p3::monolith::geometry::{
    MonolithTracePart, MonolithTraceRowRange, MAX_AGG_TILES,
};
use lattica_prover_p3::poseidon2::{native_permute, native_steps};

const N_PUBLIC: usize = 40;

fn params() -> ProductionParams {
    ProductionParams { n_public: N_PUBLIC, log_num_quotient_chunks: 3, is_zk: 1, max_log_degree: 28 }
}

fn good_shape() -> ProofShape {
    ProofShape {
        queries: NUM_QUERIES,
        cap_len: 64,
        degree_bits: 12,
        random_cap: true,
        random_values: true,
        log_arities: vec![vec![1, 1], vec![1, 1]],
    }
}

#[test]
fn production_options_default_to_node_profile() {
    assert_eq!(
        ProductionAggregationOptions::default().inner_profile,
        ProductionInnerFriProfile::NodeProduction
    );
    assert_eq!(
        ProductionAggregationOptions::binary_recursion().inner_profile,
        ProductionInnerFriProfile::BinaryRecursion
    );
}

#[test]
fn research_options_have_small_proofs() {
    let o = ResearchAggregationOptions::default();
    assert_eq!((o.inner_max_log_arity, o.inner_num_queries, o.inner_cap_height), (1, 8, 2));
    assert_eq!(o.backend, AggregationBackend::InMemory);
}

#[test]
fn trace_resource_preflight_rejects_oversized_allocation() {
    let err = checked_trace_felts_with_limit("unit-test trace", 9, 1, 8).unwrap_err();
    assert!(matches!(
        err,
        AggregationError::ResourceLimit {
            what: "unit-test trace",
            required_felts,
            limit_felts,
        } if required_felts == 9 && limit_felts == 8
    ));
}

#[test]
fn trace_sizes_are_products() {
    assert_eq!(checked_trace_felts_with_limit("t", 4, 2, 8), Ok(8));
    let e = trace_resource_estimate_with_limit("t", 9, 1, 8).unwrap();
    assert_eq!((e.height, e.width, e.required_felts, e.within_limit), (9, 1, 9, false));
    assert_eq!(
        checked_trace_felts_with_limit("t", usize::MAX, 2, 8),
        Err(AggregationError::TraceLayout(LayoutFault::Overflow { what: "t" }))
    );
}

fn under() -> TraceResourceEstimate {
    TraceResourceEstimate { height: 2, width: 2, required_felts: 4, limit_felts: 8, within_limit: true }
}

fn over() -> TraceResourceEstimate {
    TraceResourceEstimate { height: 3, width: 3, required_felts: 9, limit_felts: 8, within_limit: false }
}

#[test]
fn production_resource_plan_checks_backend_limits() {
    let under = under();
    let over = over();
    let plan = ProductionAggregateResourcePlan {
        n_inputs: 2,
        inner_trace: over,
        inner_query_segment: under,
        aggregate_trace: under,
        aggregate_query_segment: under,
    };
    assert!(matches!(
        plan.check_limits(),
        Err(AggregationError::ResourceLimit {
            what: "hiding inner monolith trace",
            required_felts: 9,
            limit_felts: 8,
        })
    ));
    assert!(plan.check_limits_for_backend(AggregationBackend::Stream { c_block: 4 }).is_ok());

    let plan = ProductionAggregateResourcePlan {
        n_inputs: 2,
        inner_trace: under,
        inner_query_segment: over,
        aggregate_trace: under,
        aggregate_query_segment: under,
    };
    assert!(matches!(
        plan.check_limits_for_backend(AggregationBackend::Stream { c_block: 4 }),
        Err(AggregationError::ResourceLimit {
            what: "hiding inner monolith query segment",
            required_felts: 9,
            limit_felts: 8,
        })
    ));
    let plan = ProductionAggregateResourcePlan {
        n_inputs: 2,
        inner_trace: under,
        inner_query_segment: under,
        aggregate_trace: over,
        aggregate_query_segment: under,
    };
    assert!(matches!(
        plan.check_limits(),
        Err(AggregationError::ResourceLimit {
            what: "production aggregate folded trace",
            required_felts: 9,
            limit_felts: 8,
        })
    ));
    assert!(plan.check_limits_for_backend(AggregationBackend::Stream { c_block: 4 }).is_ok());
    let plan = ProductionAggregateResourcePlan {
        n_inputs: 2,
        inner_trace: under,
        inner_query_segment: under,
        aggregate_trace: under,
        aggregate_query_segment: over,
    };
    assert!(matches!(
        plan.check_limits_for_backend(AggregationBackend::Stream { c_block: 4 }),
        Err(AggregationError::ResourceLimit {
            what: "production aggregate query segment",
            required_felts: 9,
            limit_felts: 8,
        })
    ));

    let plan = ProductionAggregateResourcePlan {
        n_inputs: 2,
        inner_trace: under,
        inner_query_segment: under,
        aggregate_trace: under,
        aggregate_query_segment: under,
    };
    let spill = plan.stream_spill_estimate().unwrap();
    let felt_bytes = FELT_BYTES;
    let randomized_height = under.height * 2;
    let randomized_width = under.width + NUM_RANDOM_CODEWORDS;
    let trace_bytes = under.height * under.width * felt_bytes;
    let randomized_trace_bytes = randomized_height * randomized_width * felt_bytes;
    let committed_trace_lde_bytes =
        (randomized_height << LOG_BLOWUP) * randomized_width * felt_bytes;
    assert_eq!(spill.trace_bytes, trace_bytes);
    assert_eq!(spill.randomized_trace_bytes, randomized_trace_bytes);
    assert_eq!(spill.committed_trace_lde_bytes, committed_trace_lde_bytes);
    assert_eq!(
        spill.trace_commit_peak_bytes,
        (trace_bytes + randomized_trace_bytes)
            .max(randomized_trace_bytes + committed_trace_lde_bytes)
    );
    assert_eq!(spill.trace_commit_peak_bytes, 3264);
}

#[test]
fn a_stream_keeps_within_what_can_be_spilled() {
    let plan = ProductionAggregateResourcePlan {
        n_inputs: 2,
        inner_trace: under(),
        inner_query_segment: under(),
        aggregate_trace: under(),
        aggregate_query_segment: under(),
    };
    let stream = AggregationBackend::Stream { c_block: 4 };
    assert_eq!(plan.check_limits_with_spill(stream, Some(3264)), Ok(()));
    assert_eq!(
        plan.check_limits_with_spill(stream, Some(3263)),
        Err(AggregationError::ResourceLimit {
            what: "production aggregate stream spill bytes",
            required_felts: 3264,
            limit_felts: 3263,
        })
    );
    assert_eq!(plan.check_limits_with_spill(AggregationBackend::InMemory, Some(0)), Ok(()));
    assert_eq!(
        felts_to_spill_bytes(usize::MAX, SpillFault::TraceBytes),
        Err(AggregationError::TraceLayout(LayoutFault::Spill(SpillFault::TraceBytes)))
    );
    let huge = TraceResourceEstimate { height: usize::MAX / 2, width: 2, ..under() };
    let plan = ProductionAggregateResourcePlan { aggregate_trace: huge, ..plan };
    assert!(matches!(
        plan.stream_spill_estimate(),
        Err(AggregationError::TraceLayout(LayoutFault::Spill(_)))
    ));
}

#[test]
fn production_admission_rejects_empty_and_bad_fan_in() {
    let err = admit_joinsplit_aggregate_production(&[], &params(), &vec![], &vec![]).unwrap_err();
    assert!(matches!(err, AggregationError::Empty));

    let pvs = vec![0; N_PUBLIC];
    let inputs = [
        JoinSplitAggregateInput { proof_bytes: b"bad", public_values: &pvs },
        JoinSplitAggregateInput { proof_bytes: b"bad", public_values: &pvs },
        JoinSplitAggregateInput { proof_bytes: b"bad", public_values: &pvs },
    ];
    let err = admit_joinsplit_aggregate_production(
        &inputs,
        &params(),
        &vec![true; 3],
        &vec![[0; 4]; 3],
    )
    .unwrap_err();
    assert!(matches!(err, AggregationError::InvalidFanIn { n: 3 }));
}

#[test]
fn production_admission_rejects_bad_public_values_and_malformed_proof() {
    let bad_pvs = vec![0; N_PUBLIC - 1];
    let inputs = [JoinSplitAggregateInput { proof_bytes: b"bad", public_values: &bad_pvs }];
    let verdicts = vec![true];
    let digests = vec![[0; 4]];
    let err =
        admit_joinsplit_aggregate_production(&inputs, &params(), &verdicts, &digests).unwrap_err();
    assert!(matches!(
        err,
        AggregationError::WrongPublicValueCount { got } if got == N_PUBLIC - 1
    ));

    let pvs = vec![0; N_PUBLIC];
    let inputs = [JoinSplitAggregateInput { proof_bytes: b"bad", public_values: &pvs }];
    let err =
        admit_joinsplit_aggregate_production(&inputs, &params(), &verdicts, &digests).unwrap_err();
    assert!(matches!(err, AggregationError::MalformedInnerProof));
}

#[test]
fn production_research_prover_rejects_before_trace_build() {
    let err = parse_production_inputs(&[], &params(), &vec![]).unwrap_err();
    assert!(matches!(err, AggregationError::Empty));

    let pvs = vec![0; N_PUBLIC];
    let inputs = [
        JoinSplitAggregateInput { proof_bytes: b"bad", public_values: &pvs },
        JoinSplitAggregateInput { proof_bytes: b"bad", public_values: &pvs },
        JoinSplitAggregateInput { proof_bytes: b"bad", public_values: &pvs },
    ];
    let err = parse_production_inputs(&inputs, &params(), &vec![true; 3]).unwrap_err();
    assert!(matches!(err, AggregationError::InvalidFanIn { n: 3 }));
}

#[test]
fn research_aggregator_rejects_non_power_of_two() {
    let options = ResearchAggregationOptions {
        inner_num_queries: 2,
        backend: AggregationBackend::InMemory,
        ..Default::default()
    };
    let (proof, pvs): (&[u8], Vec<u64>) = (b"proof", vec![0; N_PUBLIC]);
    let inputs = [JoinSplitAggregateInput { proof_bytes: proof, public_values: &pvs }];
    assert!(parse_and_verify_inputs(&inputs[..0], &options, N_PUBLIC, &vec![]).is_err());
    let three = [
        JoinSplitAggregateInput { proof_bytes: proof, public_values: &pvs },
        JoinSplitAggregateInput { proof_bytes: proof, public_values: &pvs },
        JoinSplitAggregateInput { proof_bytes: proof, public_values: &pvs },
    ];
    assert!(matches!(
        parse_and_verify_inputs(&three, &options, N_PUBLIC, &vec![true; 3]),
        Err(AggregationError::InvalidFanIn { n: 3 })
    ));
}

#[test]
fn production_padding_rejects_empty_and_too_many_before_proof_parse() {
    let pvs = vec![0; N_PUBLIC];
    let dummy = JoinSplitAggregateInput { proof_bytes: b"bad", public_values: &pvs };
    let err = pad_joinsplit_aggregate_production_inputs(
        &[],
        dummy,
        &params(),
        &vec![],
        true,
        [0; 4],
        [0; 4],
    )
    .err()
    .unwrap();
    assert!(matches!(err, AggregationError::Empty));

    let inputs = vec![dummy; MAX_AGG_TILES + 1];
    let err = pad_joinsplit_aggregate_production_inputs(
        &inputs,
        dummy,
        &params(),
        &vec![true; MAX_AGG_TILES + 1],
        true,
        [0; 4],
        [0; 4],
    )
    .err()
    .unwrap();
    assert!(matches!(
        err,
        AggregationError::TooManyInputs { n } if n == MAX_AGG_TILES + 1
    ));
}

#[test]
fn production_research_verifier_rejects_bad_root_shape_before_parse() {
    let err = check_root_len(3).unwrap_err();
    assert!(matches!(
        err,
        AggregationError::WrongPublicValueCount { got } if got == 3
    ));
    assert!(check_root_len(4).is_ok());
}

#[test]
fn production_joinsplit_shape_preflight_accepts_frozen_params() {
    let log_num_quotient_chunks = 3;
    assert!(log_num_quotient_chunks <= LOG_BLOWUP);
    validate_production_joinsplit_shape(log_num_quotient_chunks, 12, 1, 28).unwrap();
}

#[test]
fn production_outer_shape_preflight_rejects_bad_trace_height() {
    assert!(matches!(
        validate_production_outer_shape(3, 1, 3, 1, 28),
        Err(AggregationError::TraceLayout(_))
    ));
}

#[test]
fn shapes_are_refused_for_their_quotient_and_degree() {
    assert_eq!(
        validate_production_joinsplit_shape(5, 12, 1, 28),
        Err(AggregationError::TraceLayout(LayoutFault::QuotientChunks {
            of: CheckedShape::JoinSplit,
            log_num_quotient_chunks: 5,
            log_blowup: LOG_BLOWUP,
        }))
    );
    assert_eq!(
        validate_production_joinsplit_shape(3, 0, 1, 28),
        Err(AggregationError::TraceLayout(LayoutFault::DegreeBits {
            of: CheckedShape::JoinSplit,
            fault: DegreeFault::TooSmall { minimum: 1, got: 0 },
        }))
    );
    assert_eq!(
        validate_production_joinsplit_shape(3, 29, 1, 28),
        Err(AggregationError::TraceLayout(LayoutFault::DegreeBits {
            of: CheckedShape::JoinSplit,
            fault: DegreeFault::TooLarge { maximum: 28, got: 29 },
        }))
    );
    assert_eq!(
        validate_production_outer_dimensions(24, 3, 1, 28),
        Err(AggregationError::TraceLayout(LayoutFault::HeightNotPowerOfTwo))
    );
    assert_eq!(validate_production_outer_dimensions(32, 3, 1, 28), Ok(()));
    assert_eq!(validate_production_outer_shape(64, 2, 3, 1, 28), Ok(()));
}

#[test]
fn fan_ins_are_powers_of_two() {
    assert_eq!(check_fan_in(0), Err(AggregationError::Empty));
    assert_eq!(check_fan_in(6), Err(AggregationError::InvalidFanIn { n: 6 }));
    for n in [1, 2, 4, 64] {
        assert_eq!(check_fan_in(n), Ok(()));
    }
    assert_eq!(check_fan_in(128), Err(AggregationError::TooManyInputs { n: 128 }));
    assert_eq!(cap_height_of(64), 6);
    assert_eq!(cap_height_of(1), 0);
}

#[test]
fn inner_proofs_are_held_to_the_profile() {
    let p = params();
    assert!(check_shape(Some(good_shape()), N_PUBLIC, &p, true).is_ok());
    assert_eq!(
        check_shape(Some(good_shape()), 3, &p, true).unwrap_err(),
        AggregationError::WrongPublicValueCount { got: 3 }
    );
    assert_eq!(
        check_shape(None, N_PUBLIC, &p, true).unwrap_err(),
        AggregationError::MalformedInnerProof
    );
    let few = ProofShape { queries: 95, ..good_shape() };
    assert_eq!(
        check_shape(Some(few), N_PUBLIC, &p, false).unwrap_err(),
        AggregationError::InnerQueryCount { expected: NUM_QUERIES, got: 95 }
    );
    let low = ProofShape { cap_len: 4, ..good_shape() };
    assert_eq!(
        check_shape(Some(low), N_PUBLIC, &p, false).unwrap_err(),
        AggregationError::InnerCapHeight { expected: CAP_HEIGHT, got: 2 }
    );
    let bare = ProofShape { random_values: false, ..good_shape() };
    assert_eq!(
        check_shape(Some(bare), N_PUBLIC, &p, false).unwrap_err(),
        AggregationError::NonHidingInnerProof
    );
    let bare = ProofShape { random_cap: false, ..good_shape() };
    assert_eq!(
        check_shape(Some(bare), N_PUBLIC, &p, false).unwrap_err(),
        AggregationError::NonHidingInnerProof
    );
    let wide = ProofShape { log_arities: vec![vec![1, 1], vec![1, 4]], ..good_shape() };
    assert_eq!(
        check_shape(Some(wide), N_PUBLIC, &p, true).unwrap_err(),
        AggregationError::UnsupportedFriArity { log_arity: 4 }
    );
    let wide = ProofShape { log_arities: vec![vec![1, 1], vec![1, 4]], ..good_shape() };
    assert!(check_shape(Some(wide), N_PUBLIC, &p, false).is_ok());
}

#[test]
fn bytes_that_are_no_proof_are_refused() {
    let pvs = vec![0; N_PUBLIC];
    let input = JoinSplitAggregateInput { proof_bytes: &[], public_values: &pvs };
    assert_eq!(
        parse_input(&input, &params(), false).unwrap_err(),
        AggregationError::MalformedInnerProof
    );
    assert_eq!(
        parse_production_input_for_plan(&input, &params()).unwrap_err(),
        AggregationError::MalformedInnerProof
    );
    let options = ResearchAggregationOptions::default();
    assert_eq!(
        parse_and_verify_inputs(&[input], &options, N_PUBLIC, &vec![true]),
        Err(AggregationError::MalformedInnerProof)
    );
}

#[test]
fn research_inputs_are_held_to_the_options() {
    assert_eq!(check_research_shape(Some((8, 4)), 3, 3, 8, 2, true), Ok(()));
    assert_eq!(
        check_research_shape(Some((8, 4)), 2, 3, 8, 2, true),
        Err(AggregationError::WrongPublicValueCount { got: 2 })
    );
    assert_eq!(
        check_research_shape(None, 3, 3, 8, 2, true),
        Err(AggregationError::MalformedInnerProof)
    );
    assert_eq!(
        check_research_shape(Some((7, 4)), 3, 3, 8, 2, true),
        Err(AggregationError::InnerQueryCount { expected: 8, got: 7 })
    );
    assert_eq!(
        check_research_shape(Some((8, 8)), 3, 3, 8, 2, true),
        Err(AggregationError::InnerCapHeight { expected: 2, got: 3 })
    );
    assert_eq!(
        check_research_shape(Some((8, 4)), 3, 3, 8, 2, false),
        Err(AggregationError::InnerProofRejected)
    );
}

fn shape(n_terms: usize) -> InnerShape {
    InnerShape { counts: vec![1, 2], binds: vec![3], index_binds: vec![(4, 5)], n_terms, cap_height: 6 }
}

#[test]
fn plans_add_up() {
    let s = InnerSizes { num_quotient_chunks: 16, height: 8, m_period: 4, fused_w: 10 };
    let (t, q) = plan_inner_sizes(&s, 100).unwrap();
    assert_eq!((t.required_felts, q.required_felts), (80, 40));
    let wide = InnerSizes { num_quotient_chunks: BLOWUP + 1, ..s };
    assert_eq!(
        plan_inner_sizes(&wide, 100).unwrap_err(),
        AggregationError::TraceLayout(LayoutFault::QuotientChunkCount)
    );
    let outer =
        OuterSizes { height: 128, fold_w: 20, fold_block: 2, tr: 32, n_queries: 1, m_period: 32 };
    let plan = plan_production_aggregate_from_parsed(
        &vec![shape(1), shape(1)],
        &vec![s, s],
        &outer,
        10000,
    )
    .unwrap();
    assert_eq!(plan.n_inputs, 2);
    assert_eq!(plan.aggregate_trace.required_felts, 2560);
    assert_eq!(plan.aggregate_query_segment.required_felts, 640);
    assert_eq!(
        plan_production_aggregate_from_parsed(
            &vec![shape(1), shape(2)],
            &vec![s, s],
            &outer,
            10000,
        )
        .unwrap_err(),
        AggregationError::MismatchedInnerShape
    );
}

fn layout() -> FoldLayout {
    FoldLayout {
        fused_w: 3,
        fold_w: 16,
        inst_h: 96,
        height: 256,
        fold_block: 1,
        af_root: 3,
        af_p: 7,
        tr: 16,
        n_queries: 1,
        m_period: 16,
    }
}

fn windows() -> Vec<Vec<Vec<u64>>> {
    (0..2)
        .map(|i| (0..96u64).map(|r| vec![i as u64 * 1000 + r, 7, 8]).collect())
        .collect()
}

#[test]
fn the_production_aggregate_is_the_folded_instance() {
    let l = layout();
    let sources: Vec<BlockSource> = vec![[Some(0), Some(1), None, None]];
    let pvs: Vec<Vec<u64>> = vec![vec![5, 6], vec![8, 9]];
    let shapes = vec![shape(1), shape(1)];
    let digests: Vec<[u64; 4]> =
        pvs.iter().map(|p| statement_chain(99, &sources, p).1).collect();
    let t =
        build_production_instance(&shapes, &windows(), &l, &sources, &pvs, 99, &digests, 1 << 20)
            .unwrap();
    let unlimited =
        build_instance(&shapes, &windows(), &l, &sources, &pvs, 99, &digests, None).unwrap();
    assert_eq!(t.rows, unlimited.rows);
    assert_eq!(t.tx_root, unlimited.tx_root);
    assert_eq!(check_tx_root(t.tx_root, &digests), Ok(()));
    assert_eq!(
        check_tx_root(t.tx_root, &digests[..1].to_vec()),
        Err(AggregationError::TraceLayout(LayoutFault::TxRoot))
    );
}

#[test]
fn the_root_folds_the_statements() {
    let l = layout();
    let sources: Vec<BlockSource> = vec![[Some(0), Some(1), None, None]];
    let pvs: Vec<Vec<u64>> = vec![vec![5, 6], vec![8, 9]];
    let shapes = vec![shape(1), shape(1)];
    let digests: Vec<[u64; 4]> =
        pvs.iter().map(|p| statement_chain(99, &sources, p).1).collect();
    let t = build_instance(&shapes, &windows(), &l, &sources, &pvs, 99, &digests, None).unwrap();
    let mut expected = [0u64; 4];
    expected = merge(expected, digests[0]);
    expected = merge(expected, digests[1]);
    assert_eq!(t.tx_root, expected);
    assert_eq!(fold_digests(&digests), expected);
    let (inputs, digest) = statement_chain(99, &sources, &pvs[0]);
    assert_eq!(inputs, vec![[99, 0, 0, 0, 5, 6, 0, 0]]);
    assert_eq!(digest[..], native_permute([99, 0, 0, 0, 5, 6, 0, 0])[..4]);
    assert_eq!(t.rows[32][7..15], native_steps(inputs[0])[0][..]);
    assert_eq!(t.rows[96 + 5][..7], [1005, 7, 8, t.rows[96][3], t.rows[96][4], t.rows[96][5], t.rows[96][6]]);
    assert_eq!(t.rows[255], vec![0; 16]);
}

#[test]
fn aggregates_are_refused_for_their_parts() {
    let l = layout();
    let sources: Vec<BlockSource> = vec![[Some(0), Some(1), None, None]];
    let pvs: Vec<Vec<u64>> = vec![vec![5, 6], vec![8, 9]];
    let digests: Vec<[u64; 4]> =
        pvs.iter().map(|p| statement_chain(99, &sources, p).1).collect();
    let same = vec![shape(1), shape(1)];
    let differ = vec![shape(1), shape(2)];
    let w = windows();
    assert_eq!(
        build_instance(&differ, &w, &l, &sources, &pvs, 99, &digests, None).unwrap_err(),
        AggregationError::MismatchedInnerShape
    );
    assert_eq!(
        build_production_instance(&same, &w, &l, &sources, &pvs, 99, &digests, 9).unwrap_err(),
        AggregationError::ResourceLimit {
            what: "production aggregate folded trace",
            required_felts: 4096,
            limit_felts: 9,
        }
    );
    let low = FoldLayout { m_period: 17, ..l };
    assert_eq!(
        build_instance(&same, &w, &low, &sources, &pvs, 99, &digests, None).unwrap_err(),
        AggregationError::TraceLayout(LayoutFault::FoldOverlap)
    );
    assert_eq!(
        build_instance(&same, &w, &l, &sources, &pvs, 99, &vec![[1; 4]; 2], None).unwrap_err(),
        AggregationError::TraceLayout(LayoutFault::TxRoot)
    );
}

#[test]
fn long_ranges_are_emitted_in_chunks() {
    let range = MonolithTraceRowRange {
        kind: MonolithTracePart::Padding,
        start_row: 8,
        rows: 5,
        width: 10,
    };
    let whole = emit_chunks(&range, 10);
    assert_eq!(whole.len(), 1);
    assert_eq!((whole[0].start_row, whole[0].rows), (8, 5));
    let tall = MonolithTraceRowRange { rows: 5, ..range };
    let chunks = emit_chunks(&tall, 16777216);
    assert_eq!(
        chunks.iter().map(|c| (c.start_row, c.rows)).collect::<Vec<_>>(),
        vec![(8, 2), (10, 2), (12, 1)]
    );
}

fn c(a: u64, b: u64) -> Challenge {
    Challenge { c0: a, c1: b }
}

#[test]
fn selectors_stand_before_the_accumulators() {
    let alpha = c(3, 1);
    let values = vec![c(1, 2), c(4, 5), c(7, 8)];
    let (cells, folded) = selector_window(c(10, 11), c(12, 13), c(14, 15), &values, alpha, 2);
    let two = eadd(emul(values[0], alpha), values[1]);
    assert_eq!(cells, vec![10, 11, 12, 13, 14, 15, two.c0, two.c1]);
    let all = eadd(emul(two, alpha), values[2]);
    assert_eq!((folded.c0, folded.c1), (all.c0, all.c1));
    let (cells, _) = selector_window(c(10, 11), c(12, 13), c(14, 15), &values, alpha, 3);
    assert_eq!(cells.len(), 6);
}

#[test]
fn salts_have_four_elements() {
    assert_eq!(salt4(&vec![1, 2, 3, 4]), Ok([1, 2, 3, 4]));
    assert_eq!(
        salt4(&vec![1, 2, 3]),
        Err(AggregationError::TraceLayout(LayoutFault::SaltLength))
    );
}

#[test]
fn windows_are_laid_over_rows() {
    let mut row = vec![1, 2, 3, 4];
    overlay(&mut row, 1, &vec![8, 9]);
    assert_eq!(row, vec![1, 8, 9, 4]);
    let mut rows = vec![vec![0; 4], vec![1; 4]];
    apply_selector_window(&mut rows, 2, &vec![5, 6]);
    assert_eq!(rows, vec![vec![0, 0, 5, 6], vec![1, 1, 5, 6]]);
    apply_global_columns(&mut rows, 0, c(7, 8), 3, &vec![9]);
    assert_eq!(rows, vec![vec![7, 8, 5, 9], vec![7, 8, 5, 9]]);
    let pad = fill_padding_rows_with_selector(2, 6, 0, c(7, 8), 3, &vec![9], 5, &vec![4]);
    assert_eq!(pad, vec![vec![7, 8, 0, 9, 0, 4]; 2]);
    let square = emul(c(3, 4), c(3, 4));
    let fourth = emul(square, square);
    assert_eq!(
        window_schedule(&vec![1, 2, 3, 4], 2),
        vec![1, 2, 3, 4, square.c0, square.c1, fourth.c0, fourth.c1]
    );
}

#[test]
fn layout_faults_say_what_is_wrong() {
    let said = |f: LayoutFault| f.text();
    let spill = |f: SpillFault| said(LayoutFault::Spill(f));
    assert_eq!(
        said(LayoutFault::Overflow { what: "production aggregate folded trace" }),
        "production aggregate folded trace size overflows usize"
    );
    assert_eq!(
        spill(SpillFault::RandomizedWidth),
        "production aggregate stream randomized width overflows usize"
    );
    assert_eq!(
        spill(SpillFault::TraceStore),
        "production aggregate trace store overflows usize"
    );
    assert_eq!(
        spill(SpillFault::RandomizedHeight),
        "production aggregate randomized height overflows usize"
    );
    assert_eq!(
        spill(SpillFault::RandomizedStore),
        "production aggregate randomized store overflows usize"
    );
    assert_eq!(spill(SpillFault::LdeStore), "production aggregate LDE store overflows usize");
    assert_eq!(
        spill(SpillFault::TraceBytes),
        "production aggregate trace store byte estimate overflows usize"
    );
    assert_eq!(
        spill(SpillFault::RandomizedBytes),
        "production aggregate randomized store byte estimate overflows usize"
    );
    assert_eq!(
        spill(SpillFault::LdeBytes),
        "production aggregate LDE store byte estimate overflows usize"
    );
    assert_eq!(
        spill(SpillFault::RandomizationPeak),
        "production aggregate stream randomization peak byte estimate overflows usize"
    );
    assert_eq!(
        spill(SpillFault::CommitPeak),
        "production aggregate stream spill byte estimate overflows usize"
    );
    assert_eq!(
        said(LayoutFault::HeightNotPowerOfTwo),
        "aggregate trace height is not a power of two"
    );
    assert_eq!(
        said(LayoutFault::QuotientChunkCount),
        "hiding quotient chunk count exceeds production blowup"
    );
    assert_eq!(
        said(LayoutFault::PublicInputs),
        "hiding column-window public-input layout mismatch"
    );
    assert_eq!(said(LayoutFault::SaltLength), "hiding Merkle salt is not four felts");
    assert_eq!(
        said(LayoutFault::MissingRounds),
        "hiding proof missing random/trace/quotient input rounds"
    );
    assert_eq!(said(LayoutFault::FoldOverlap), "fold blocks overlap query region");
    assert_eq!(said(LayoutFault::TxRoot), "tx-root fold did not match batch root oracle");
    assert_eq!(said(LayoutFault::Serialization), "aggregate proof serialization failed");
}

#[test]
fn shape_faults_name_the_proof_and_the_numbers() {
    let said = |r: Result<(), AggregationError>| match r {
        Err(AggregationError::TraceLayout(f)) => f.text(),
        _ => panic!("a layout fault"),
    };
    assert_eq!(
        said(validate_production_joinsplit_shape(5, 12, 1, 28)),
        "JoinSplit quotient chunks exceed production blowup: log_nqc=5, log_blowup=4"
    );
    assert_eq!(
        said(validate_production_outer_dimensions(32, 1000, 1, 28)),
        "aggregate quotient chunks exceed production blowup: log_nqc=1000, log_blowup=4"
    );
    assert_eq!(
        said(validate_production_joinsplit_shape(3, 0, 1, 28)),
        "JoinSplit degree bits invalid for production verifier: \
         DegreeBitsTooSmall { air: None, minimum: 1, got: 0 }"
    );
    assert_eq!(
        said(validate_production_outer_dimensions(1 << 20, 3, 1, 16)),
        "aggregate degree bits invalid for production verifier: \
         DegreeBitsTooLarge { air: None, maximum: 16, got: 23 }"
    );
    let far = LayoutFault::QuotientChunks {
        of: CheckedShape::Aggregate,
        log_num_quotient_chunks: usize::MAX,
        log_blowup: 10,
    };
    assert_eq!(
        far.text(),
        format!("aggregate quotient chunks exceed production blowup: log_nqc={}, log_blowup=10", usize::MAX)
    );
}

#[test]
fn bytes_that_hold_no_proof_have_no_verdict() {
    for verdict in [true, false] {
        assert_eq!(
            aggregate_verdict(&[1, 2, 3], verdict),
            Err(AggregationError::MalformedAggregateProof)
        );
        assert_eq!(
            aggregate_verdict(&[], verdict),
            Err(AggregationError::MalformedAggregateProof)
        );
        assert!(!proof_verdict(&[1, 2, 3], verdict));
    }
}
