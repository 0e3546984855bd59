use lattica_prover_p3::aggregate::emit::{
    build_instance_of, emit_all_ranges, emit_range_with_selector, materialize_trace_values,
    replay_shape, window_ranges, MonolithTraceSource, WindowLayout,
};
use lattica_prover_p3::aggregate::fault::LayoutFault;
use lattica_prover_p3::aggregate::inputs::{
    admit_joinsplit_aggregate_production, aggregate_verdict, pad_joinsplit_aggregate_production_inputs, parse_and_verify_inputs,
    parse_input, parse_production_inputs, HidingConfig, HidingMmcs, HidingPcs, InnerSizes,
    JoinSplitAggregateInput, OuterSizes, PlainConfig, PlainPcs, ProductionParams, Transcript,
};
use lattica_prover_p3::aggregate::options::{
    AggregationBackend, AggregationError, ResearchAggregationOptions,
};
use lattica_prover_p3::aggregate::plan::{
    parse_and_plan_production_inputs, plan_joinsplit_aggregate_production,
    plan_production_inner_shape,
};
use lattica_prover_p3::aggregate::source::{
    build_symbolic_hiding_inner_window_source, build_symbolic_inner_window,
    SymbolicHidingInnerWindow, WindowInputs, WindowShape,
};
use lattica_prover_p3::aggregate::store::build_production_store_instance;
use lattica_prover_p3::aggregate::tiling::{
    build_production_instance, fold_digests, statement_chain, BlockSource, FoldLayout, InnerShape,
};
use lattica_prover_p3::aggregate::window::{hiding_witness_for_query, validate_binary_fri_shape};
use lattica_prover_p3::challenger::Challenger;
use lattica_prover_p3::decode::{parse_bare_proof, parse_hiding_proof, proof_verdict};
use lattica_prover_p3::epilogue::{epilogue_at, fold_constraints, reverify, reverify_opened, selectors_at, OpenedRows};
use lattica_prover_p3::expr::{Constraint, Expr, Gate};
use lattica_prover_p3::field::{emul, Challenge, P};
use lattica_prover_p3::fri_fold::{self, native_fold, FriFoldAir};
use lattica_prover_p3::fri_input::OpenedBatch;
use lattica_prover_p3::fri_merkle::{self, build_tree, opening, FriMerkleAir};
use lattica_prover_p3::fri_query::FriParams;
use lattica_prover_p3::merkle::{merge, Digest};
use lattica_prover_p3::mmcs::{Compression, Pair, Sponge, Tree};
use lattica_prover_p3::monolith::segment::SegmentLayout;
use lattica_prover_p3::native_verify::{
    ConstAir, CounterAir, CubeAir, FibonacciAir, MulAir, PeriodicAir, QuartAir, WideAir,
};
use lattica_prover_p3::plain_proof::{
    BatchOpening, CommitOpening, FriProof, PlainProof, QueryProof,
};
use lattica_prover_p3::query_data::query_terms;
use lattica_prover_p3::replay::sim_full_hiding;
use lattica_prover_p3::spend_air::{self, native_root, SpendAir};
use lattica_prover_p3::stark::{opening_rounds, ProofError};
use lattica_prover_p3::transcript::{self, native_sponge, SpongeAir};
use lattica_prover_p3::verifier_air::{
    cc_build_trace, native_alpha_zeta, transcript_build_trace, ConstraintCheckAir, TranscriptAir,
};
use p3_air::{Air, AirBuilder, BaseAir, WindowAccess};
use p3_commit::{ExtensionMmcs, PolynomialSpace};
use p3_dft::Radix2DitParallel;
use p3_field::coset::TwoAdicMultiplicativeCoset;
use p3_field::{BasedVectorSpace, PrimeCharacteristicRing, PrimeField64};
use p3_fri::FriParameters;
use p3_goldilocks::{default_goldilocks_poseidon2_8, Goldilocks};
use p3_matrix::dense::RowMajorMatrix;
use p3_uni_stark::{prove, verify, verify_constraints, Proof};
use rand::SeedableRng;
use rand_chacha::ChaCha20Rng;

/// A constraint system of the library for the outside prover.
struct System {
    constraints: Vec<Constraint>,
    width: usize,
    publics: usize,
    periodic: Vec<Vec<u64>>,
}

impl BaseAir<Goldilocks> for System {
    fn width(&self) -> usize {
        self.width
    }

    fn num_public_values(&self) -> usize {
        self.publics
    }

    fn num_periodic_columns(&self) -> usize {
        self.periodic.len()
    }

    fn periodic_columns(&self) -> Vec<Vec<Goldilocks>> {
        self.periodic.iter().map(|c| felts(c)).collect()
    }
}

fn build<AB: AirBuilder<F = Goldilocks>>(
    e: &Expr,
    cur: &[AB::Expr],
    nxt: &[AB::Expr],
    per: &[AB::Expr],
    pis: &[AB::Expr],
) -> AB::Expr {
    match e {
        Expr::Const(c) => AB::Expr::from(Goldilocks::from_u64(*c)),
        Expr::Cur(i) => cur[*i].clone(),
        Expr::Next(i) => nxt[*i].clone(),
        Expr::Periodic(i) => per[*i].clone(),
        Expr::Public(i) => pis[*i].clone(),
        Expr::Sum(a, b) => {
            build::<AB>(a, cur, nxt, per, pis) + build::<AB>(b, cur, nxt, per, pis)
        }
        Expr::Difference(a, b) => {
            build::<AB>(a, cur, nxt, per, pis) - build::<AB>(b, cur, nxt, per, pis)
        }
        Expr::Product(a, b) => {
            build::<AB>(a, cur, nxt, per, pis) * build::<AB>(b, cur, nxt, per, pis)
        }
    }
}

impl<AB: AirBuilder<F = Goldilocks>> Air<AB> for System {
    fn eval(&self, builder: &mut AB) {
        let main = builder.main();
        let cur: Vec<AB::Expr> = main.current_slice().iter().map(|&x| x.into()).collect();
        let nxt: Vec<AB::Expr> = main.next_slice().iter().map(|&x| x.into()).collect();
        let per: Vec<AB::Expr> = builder.periodic_values().iter().map(|&x| x.into()).collect();
        let pis: Vec<AB::Expr> = builder.public_values().iter().map(|&x| x.into()).collect();
        for c in &self.constraints {
            let e = build::<AB>(&c.expr, &cur, &nxt, &per, &pis);
            match c.gate {
                Gate::Always => builder.assert_zero(e),
                Gate::First => builder.when_first_row().assert_zero(e),
                Gate::Last => builder.when_last_row().assert_zero(e),
                Gate::Transition => builder.when_transition().assert_zero(e),
            }
        }
    }
}

fn felts(v: &[u64]) -> Vec<Goldilocks> {
    v.iter().map(|x| Goldilocks::new(*x)).collect()
}

fn matrix(t: &[Vec<u64>]) -> RowMajorMatrix<Goldilocks> {
    let width = t[0].len();
    RowMajorMatrix::new(felts(&t.concat()), width)
}

fn hiding(max_log_arity: usize, num_queries: usize, cap_height: usize) -> HidingConfig {
    let perm = default_goldilocks_poseidon2_8();
    let val_mmcs = HidingMmcs::new(
        Sponge::new(perm.clone()),
        Compression::new(perm.clone()),
        cap_height,
        ChaCha20Rng::seed_from_u64(1),
    );
    let fri = FriParameters {
        log_blowup: 4,
        log_final_poly_len: 0,
        max_log_arity,
        num_queries,
        commit_proof_of_work_bits: 0,
        query_proof_of_work_bits: 16,
        mmcs: ExtensionMmcs::new(val_mmcs.clone()),
    };
    let pcs = HidingPcs::new(
        Radix2DitParallel::default(),
        val_mmcs,
        fri,
        4,
        ChaCha20Rng::seed_from_u64(2),
    );
    HidingConfig::new(pcs, Transcript::new(perm))
}

fn bare(num_queries: usize, cap_height: usize) -> PlainConfig {
    let perm = default_goldilocks_poseidon2_8();
    let val_mmcs = Tree::new(Sponge::new(perm.clone()), Compression::new(perm.clone()), cap_height);
    let fri = FriParameters {
        log_blowup: 4,
        log_final_poly_len: 0,
        max_log_arity: 1,
        num_queries,
        commit_proof_of_work_bits: 0,
        query_proof_of_work_bits: 1,
        mmcs: ExtensionMmcs::new(val_mmcs.clone()),
    };
    PlainConfig::new(
        PlainPcs::new(Radix2DitParallel::default(), val_mmcs, fri),
        Transcript::new(perm),
    )
}

/// Proves a trace and says whether the proof is accepted for other public values.
fn accepted(s: &System, t: &[Vec<u64>], publics: &[u64], shown: &[u64]) -> bool {
    let config = hiding(4, 24, 0);
    let proof = prove(&config, s, matrix(t), &felts(publics));
    verify(&config, s, &proof, &felts(shown)).is_ok()
}

fn up(x: u64) -> u64 {
    (Goldilocks::new(x) + Goldilocks::ONE).as_canonical_u64()
}

fn c(a: u64, b: u64) -> Challenge {
    Challenge { c0: a, c1: b }
}

fn p3(x: Challenge) -> Pair {
    Pair::new([Goldilocks::new(x.c0), Goldilocks::new(x.c1)])
}

fn ext(x: &Pair) -> Challenge {
    let v: &[Goldilocks] = x.as_basis_coefficients_slice();
    c(v[0].as_canonical_u64(), v[1].as_canonical_u64())
}

fn pair(x: Challenge) -> Vec<u64> {
    vec![x.c0, x.c1]
}

fn fold_system() -> System {
    System { constraints: FriFoldAir.eval(), width: FriFoldAir.width(), publics: 2, periodic: vec![] }
}

#[test]
fn fold_proves_and_rejects_wrong() {
    let (e0, e1, beta, s) = (c(2, 7), c(9, 4), c(5, 6), 31);
    let folded = native_fold(e0, e1, beta, s);
    let t = fri_fold::build_trace(e0, e1, beta, s);
    let sys = fold_system();
    let shown = pair(folded);
    assert!(accepted(&sys, &t, &shown, &shown));
    assert!(!accepted(&sys, &t, &shown, &[up(shown[0]), shown[1]]));
}

fn merkle_system() -> System {
    System {
        constraints: FriMerkleAir.eval(),
        width: FriMerkleAir.width(),
        publics: 8,
        periodic: FriMerkleAir.periodic_columns(),
    }
}

fn leaf_of(i: u64) -> Digest {
    [1 + i * 7, 2 + i * 7, 3 + i * 7, 4 + i * 7]
}

#[test]
fn opening_verifies_against_native_root() {
    let leaves: Vec<Digest> = (0..(1u64 << 16)).map(leaf_of).collect();
    let levels = build_tree(&leaves);
    let (leaf, path, root) = opening(&levels, 0xBEEF);
    assert_eq!(path.len(), 16);
    let t = fri_merkle::build_trace(leaf, &path);
    let pis = [leaf, root].concat();
    assert!(accepted(&merkle_system(), &t, &pis, &pis));
}

#[test]
fn rejects_wrong_root_and_tampered_sibling() {
    let leaves: Vec<Digest> = (0..(1u64 << 8)).map(leaf_of).collect();
    let levels = build_tree(&leaves);
    let (leaf, path, root) = opening(&levels, 42);
    let t = fri_merkle::build_trace(leaf, &path);
    let pis = [leaf, root].concat();
    let sys = merkle_system();
    assert!(accepted(&sys, &t, &pis, &pis));
    let mut bad = pis.clone();
    bad[4] = up(bad[4]);
    assert!(!accepted(&sys, &t, &pis, &bad));
    let mut tpath = path.clone();
    tpath[0].0[0] = up(tpath[0].0[0]);
    let t = fri_merkle::build_trace(leaf, &tpath);
    let other = lattica_prover_p3::merkle::fold_path(leaf, &tpath);
    assert_ne!(other, root);
    assert!(!accepted(&sys, &t, &[leaf, other].concat(), &pis));
}

#[test]
fn proof_structure_introspection() {
    let leaves: Vec<Digest> = (0..(1u64 << 8)).map(leaf_of).collect();
    let levels = build_tree(&leaves);
    let (leaf, path, root) = opening(&levels, 5);
    let t = fri_merkle::build_trace(leaf, &path);
    let config = hiding(4, 96, 6);
    let pis = felts(&[leaf, root].concat());
    let proof = hiding_plain(&prove(&config, &merkle_system(), matrix(&t), &pis));
    assert_eq!(proof.fri.query_proofs.len(), 96);
    assert_eq!(proof.fri.final_poly.len(), 1);
    assert!(!proof.fri.commit_phase_commits.is_empty());
    for q in &proof.fri.query_proofs {
        assert_eq!(q.commit_phase_openings.len(), proof.fri.commit_phase_commits.len());
    }
}

fn blocks_of(m: usize) -> Vec<[u64; 4]> {
    (0..m as u64).map(|j| [1 + 4 * j, 2 + 4 * j, 3 + 4 * j, 4 + 4 * j]).collect()
}

fn sponge_system(blocks: usize) -> System {
    let air = SpongeAir { blocks };
    System {
        constraints: air.eval(),
        width: air.width(),
        publics: 4,
        periodic: air.periodic_columns(),
    }
}

#[test]
fn in_circuit_squeeze_matches_native() {
    let blocks = blocks_of(2);
    let sq = native_sponge(&blocks);
    let t = transcript::build_trace(&blocks);
    let sys = sponge_system(2);
    assert!(accepted(&sys, &t, &sq, &sq));
    let mut bad = sq;
    bad[0] = up(bad[0]);
    assert!(!accepted(&sys, &t, &sq, &bad));
}

#[test]
fn tampered_absorb_changes_squeeze() {
    let blocks = blocks_of(2);
    let sq = native_sponge(&blocks);
    let mut tampered = blocks.clone();
    tampered[0][0] = up(tampered[0][0]);
    let other = native_sponge(&tampered);
    assert_ne!(other, sq);
    let t = transcript::build_trace(&tampered);
    assert!(!accepted(&sponge_system(2), &t, &other, &sq));
}

#[test]
fn transcript_binds_alpha_zeta() {
    let instance: [u64; 8] = [1, 2, 3, 4, 5, 6, 7, 8];
    let commitments: [u64; 8] = [100, 101, 102, 103, 104, 105, 106, 107];
    let (alpha, zeta) = native_alpha_zeta(&instance, &commitments);
    let sys = System {
        constraints: TranscriptAir.eval(),
        width: TranscriptAir.width(),
        publics: 4,
        periodic: TranscriptAir.periodic_columns(),
    };
    let t = transcript_build_trace(&instance, &commitments);
    let pis = vec![alpha.c0, alpha.c1, zeta.c0, zeta.c1];
    assert!(accepted(&sys, &t, &pis, &pis));
    assert!(!accepted(&sys, &t, &pis, &[up(pis[0]), pis[1], pis[2], pis[3]]));
    let mut tinstance = instance;
    tinstance[0] = up(tinstance[0]);
    let (a2, z2) = native_alpha_zeta(&tinstance, &commitments);
    let t = transcript_build_trace(&tinstance, &commitments);
    assert!(!accepted(&sys, &t, &[a2.c0, a2.c1, z2.c0, z2.c1], &pis));
}

#[test]
fn constraint_check_matches_native() {
    let domain = TwoAdicMultiplicativeCoset::new(Goldilocks::ONE, 4).unwrap();
    let (local, next, alpha) = (c(5, 6), c(7, 8), c(9, 10));
    let value = 5;
    let zeta = c(1234567, 7654321);
    let sels = domain.selectors_at_point(p3(zeta));
    let s = selectors_at(zeta, 4);
    assert_eq!(p3(s.is_first), sels.is_first_row);
    assert_eq!(p3(s.is_last), sels.is_last_row);
    assert_eq!(p3(s.is_transition), sels.is_transition);
    assert_eq!(p3(s.inv_van), sels.inv_vanishing);

    let (locals, nexts, none) = (vec![local], vec![next], vec![]);
    let rows = OpenedRows { local: &locals, next: &nexts, periodic: &none, publics: &[value] };
    let folded = fold_constraints(&ConstAir.eval(), &rows, &s, alpha).unwrap();
    let quotient = emul(folded, s.inv_van);
    let sys = System { constraints: ConstAir.eval(), width: 1, publics: 1, periodic: vec![] };
    let native = |q: Challenge| {
        verify_constraints::<HidingConfig, System, ()>(
            &sys,
            &[p3(local)],
            &[p3(next)],
            None,
            None,
            &[],
            &[Goldilocks::new(value)],
            domain,
            p3(zeta),
            p3(alpha),
            p3(q),
        )
        .is_ok()
    };
    assert!(native(quotient));
    let t = cc_build_trace(
        local,
        next,
        alpha,
        s.is_first,
        s.is_transition,
        s.inv_van,
        quotient,
        value,
    );
    let check = System {
        constraints: ConstraintCheckAir.eval(),
        width: ConstraintCheckAir.width(),
        publics: 2,
        periodic: vec![],
    };
    let shown = pair(quotient);
    assert!(accepted(&check, &t, &shown, &shown));
    let bad = c(up(quotient.c0), quotient.c1);
    assert!(!native(bad));
    assert!(!accepted(&check, &t, &shown, &pair(bad)));
    let short = OpenedRows { local: &none, next: &nexts, periodic: &none, publics: &[value] };
    assert!(fold_constraints(&ConstAir.eval(), &short, &s, alpha).is_none());
}

fn sample() -> (Digest, [Digest; 3], [bool; 3]) {
    let sib = [[100, 101, 102, 103], [110, 111, 112, 113], [120, 121, 122, 123]];
    ([1, 2, 3, 4], sib, [false, true, false])
}

fn prove_verify(opening: Digest, sib: [Digest; 3], bits: [bool; 3], root: Digest) -> bool {
    let sys = System {
        constraints: SpendAir.eval(),
        width: SpendAir.width(),
        publics: 4,
        periodic: SpendAir.periodic_columns(),
    };
    let t = spend_air::build_trace(opening, &sib, &bits);
    let own = native_root(opening, &sib, &bits);
    accepted(&sys, &t, &own, &root)
}

#[test]
fn trace_root_matches_native() {
    let (opening, sib, bits) = sample();
    let t = spend_air::build_trace(opening, &sib, &bits);
    assert_eq!(t[127][..4], native_root(opening, &sib, &bits)[..]);
}

#[test]
fn valid_membership_verifies() {
    let (opening, sib, bits) = sample();
    let root = native_root(opening, &sib, &bits);
    assert!(prove_verify(opening, sib, bits, root));
}

#[test]
fn wrong_root_rejected() {
    let (opening, sib, bits) = sample();
    let mut root = native_root(opening, &sib, &bits);
    root[0] = up(root[0]);
    assert!(!prove_verify(opening, sib, bits, root));
}

#[test]
fn tampered_opening_changes_root() {
    let (opening, sib, bits) = sample();
    let real = native_root(opening, &sib, &bits);
    let mut bad = opening;
    bad[1] = up(bad[1]);
    assert_ne!(native_root(bad, &sib, &bits), real);
    assert!(!prove_verify(bad, sib, bits, real));
}

#[test]
fn small_systems_prove() {
    let plain = |constraints, width, publics| System { constraints, width, publics, periodic: vec![] };
    let sys = plain(CounterAir.eval(), 1, 1);
    let t: Vec<Vec<u64>> = (0..16).map(|i| vec![5 + i]).collect();
    assert!(accepted(&sys, &t, &[5], &[5]));
    assert!(!accepted(&sys, &t, &[5], &[6]));

    let sys = plain(FibonacciAir.eval(), 2, 3);
    let mut t = vec![vec![1u64, 1]];
    for i in 0..15 {
        let (a, b) = (t[i][0], t[i][1]);
        t.push(vec![b, a + b]);
    }
    assert!(accepted(&sys, &t, &[1, 1, 1597], &[1, 1, 1597]));
    assert!(!accepted(&sys, &t, &[1, 1, 1597], &[1, 1, 1598]));

    let sys = plain(MulAir.eval(), 3, 2);
    let t: Vec<Vec<u64>> = (0..16).map(|i| vec![2 + i, 9 + i, (2 + i) * (9 + i)]).collect();
    assert!(accepted(&sys, &t, &[2, 9], &[2, 9]));

    let sys = System {
        constraints: PeriodicAir.eval(),
        width: PeriodicAir.width(),
        publics: PeriodicAir.num_public_values(),
        periodic: PeriodicAir.periodic_columns(),
    };
    let pattern = &sys.periodic[0];
    let mut acc = 3u64;
    let mut t: Vec<Vec<u64>> = Vec::new();
    for i in 0..16 {
        t.push(vec![acc]);
        acc += pattern[i % pattern.len()];
    }
    assert!(accepted(&sys, &t, &[3], &[3]));
    assert!(!accepted(&sys, &t, &[3], &[4]));

    assert_eq!(WideAir.width(), 8);
    assert_eq!(CubeAir.width(), QuartAir.width());
}

fn exts(xs: &[Pair]) -> Vec<Challenge> {
    xs.iter().map(ext).collect()
}

fn digests(ds: &[[Goldilocks; 4]]) -> Vec<Digest> {
    ds.iter().map(|d| d.map(|x| x.as_canonical_u64())).collect()
}

fn raw(rows: &[Vec<Goldilocks>]) -> Vec<Vec<u64>> {
    rows.iter().map(|r| r.iter().map(|x| x.as_canonical_u64()).collect()).collect()
}

fn hiding_plain(p: &Proof<HidingConfig>) -> PlainProof {
    let (codewords, f) = &p.opening_proof;
    PlainProof {
        degree_bits: p.degree_bits,
        trace_cap: digests(p.commitments.trace.roots()),
        quotient_cap: digests(p.commitments.quotient_chunks.roots()),
        random_cap: p.commitments.random.as_ref().map(|r| digests(r.roots())),
        trace_local: exts(&p.opened_values.trace_local),
        trace_next: p.opened_values.trace_next.as_ref().map(|v| exts(v)),
        quotient_chunks: p.opened_values.quotient_chunks.iter().map(|v| exts(v)).collect(),
        random: p.opened_values.random.as_ref().map(|v| exts(v)),
        codewords: codewords
            .iter()
            .map(|r| r.iter().map(|m| m.iter().map(|v| exts(v)).collect()).collect())
            .collect(),
        fri: FriProof {
            commit_phase_commits: f
                .commit_phase_commits
                .iter()
                .map(|c| digests(c.roots()))
                .collect(),
            commit_pow_witnesses: f
                .commit_pow_witnesses
                .iter()
                .map(|w| w.as_canonical_u64())
                .collect(),
            final_poly: exts(&f.final_poly),
            query_pow_witness: f.query_pow_witness.as_canonical_u64(),
            query_proofs: f
                .query_proofs
                .iter()
                .map(|q| QueryProof {
                    input_proof: q
                        .input_proof
                        .iter()
                        .map(|b| BatchOpening {
                            opened_values: raw(&b.opened_values),
                            salts: raw(&b.opening_proof.0),
                            path: digests(&b.opening_proof.1),
                        })
                        .collect(),
                    commit_phase_openings: q
                        .commit_phase_openings
                        .iter()
                        .map(|o| CommitOpening {
                            log_arity: o.log_arity,
                            sibling_values: exts(&o.sibling_values),
                            salts: raw(&o.opening_proof.0),
                            path: digests(&o.opening_proof.1),
                        })
                        .collect(),
                })
                .collect(),
        },
    }
}

fn const_system() -> System {
    System { constraints: ConstAir.eval(), width: 1, publics: 1, periodic: vec![] }
}

#[test]
fn reverify_agrees_with_p3() {
    let config = hiding(4, 96, 6);
    let sys = const_system();
    let t = vec![vec![42]; 64];
    let proof = prove(&config, &sys, matrix(&t), &felts(&[42]));
    assert!(verify(&config, &sys, &proof, &felts(&[42])).is_ok());
    let p = hiding_plain(&proof);
    let params = FriParams {
        log_blowup: 4,
        log_final_poly_len: 0,
        max_log_arity: 4,
        num_queries: 96,
        commit_pow_bits: 0,
        query_pow_bits: 16,
        cap_height: 6,
    };
    assert_eq!(reverify(&params, &p, &[42], 32), Ok(()));
    assert!(verify(&config, &sys, &proof, &felts(&[43])).is_err());
    assert!(reverify(&params, &p, &[43], 32).is_err());
    assert_eq!(
        reverify(&params, &p, &[42], 6),
        Err(ProofError::DegreeBitsTooLarge { maximum: 6, got: 7 })
    );
    // A value that was not committed to.
    let mut q = hiding_plain(&proof);
    q.trace_local[0].c0 ^= 1;
    assert_eq!(reverify(&params, &q, &[42], 32), Err(ProofError::OpeningsRejected));
    let mut q = hiding_plain(&proof);
    q.codewords[0].pop();
    assert_eq!(reverify(&params, &q, &[42], 32), Err(ProofError::OpeningsRejected));
    // An element that is not canonical.
    let mut q = hiding_plain(&proof);
    q.fri.query_proofs[0].input_proof[0].salts[0][0] = u64::MAX;
    assert_eq!(reverify(&params, &q, &[42], 32), Err(ProofError::OpeningsRejected));
    let few = FriParams { num_queries: 95, ..params };
    assert_eq!(reverify(&few, &p, &[42], 32), Err(ProofError::OpeningsRejected));
}

#[test]
fn the_verdict_on_the_openings_decides() {
    let config = hiding(4, 24, 2);
    let proof = prove(&config, &const_system(), matrix(&vec![vec![42]; 64]), &felts(&[42]));
    let p = hiding_plain(&proof);
    assert_eq!(reverify_opened(&p, &[42], 28, true), Ok(()));
    assert_eq!(reverify_opened(&p, &[43], 28, true), Err(ProofError::OodEvaluationMismatch));
    assert_eq!(reverify_opened(&p, &[42], 28, false), Err(ProofError::OpeningsRejected));
    let mut q = hiding_plain(&proof);
    q.degree_bits = 0;
    assert_eq!(
        reverify_opened(&q, &[42], 6, true),
        Err(ProofError::DegreeBitsTooSmall { minimum: 1, got: 0 })
    );
}

fn bytes_of(proof: &Proof<HidingConfig>) -> Vec<u8> {
    postcard::to_allocvec(proof).unwrap()
}

#[test]
fn real_proofs_are_parsed() {
    let config = hiding(1, 96, 6);
    let sys = const_system();
    let proof = prove(&config, &sys, matrix(&vec![vec![42]; 64]), &felts(&[42]));
    let bytes = bytes_of(&proof);
    let pvs = [42];
    let input = JoinSplitAggregateInput { proof_bytes: &bytes, public_values: &pvs };
    let params =
        ProductionParams { n_public: 1, log_num_quotient_chunks: 0, is_zk: 1, max_log_degree: 28 };
    let shape = parse_input(&input, &params, true).unwrap();
    assert_eq!((shape.queries, shape.cap_len, shape.degree_bits), (96, 64, 7));
    assert!(shape.random_cap && shape.random_values);
    assert_eq!(shape.log_arities.len(), 96);
    assert!(shape.log_arities.iter().all(|q| q.iter().all(|a| *a == 1)));

    let (d0, d1) = ([1, 2, 3, 4], [5, 6, 7, 8]);
    let two = [input, input];
    let admission =
        admit_joinsplit_aggregate_production(&two, &params, &vec![true; 2], &vec![d0, d1]).unwrap();
    assert_eq!(admission.n_inputs, 2);
    assert_eq!(admission.tx_root, merge(merge([0; 4], d0), d1));
    assert_eq!(admission.tx_root, fold_digests(&vec![d0, d1]));
    assert_eq!(
        admit_joinsplit_aggregate_production(&two, &params, &vec![true, false], &vec![d0, d1]),
        Err(AggregationError::InnerProofRejected)
    );
    assert_eq!(parse_production_inputs(&two, &params, &vec![true; 2]), Ok(()));

    let three = [input, input, input];
    let padded = pad_joinsplit_aggregate_production_inputs(
        &three,
        input,
        &params,
        &vec![true; 3],
        true,
        d0,
        d0,
    )
    .unwrap();
    assert_eq!(padded.len(), 4);
    assert_eq!(
        pad_joinsplit_aggregate_production_inputs(
            &three,
            input,
            &params,
            &vec![true; 3],
            true,
            d0,
            d1,
        )
        .err(),
        Some(AggregationError::InvalidDummyPadding)
    );
}

fn same_plain(a: &PlainProof, b: &PlainProof) {
    assert_eq!(format!("{a:?}"), format!("{b:?}"));
}

#[test]
fn decoded_proofs_hold_what_was_encoded() {
    let sys = const_system();
    let proof = prove(&hiding(2, 3, 2), &sys, matrix(&vec![vec![42]; 64]), &felts(&[42]));
    let bytes = bytes_of(&proof);
    same_plain(&parse_hiding_proof(&bytes).unwrap(), &hiding_plain(&proof));
    assert!(parse_hiding_proof(&bytes[..bytes.len() / 2]).is_none());
    assert!(parse_hiding_proof(&[]).is_none());
    let proof = prove(&bare(2, 2), &sys, matrix(&vec![vec![42]; 64]), &felts(&[42]));
    let bytes = postcard::to_allocvec(&proof).unwrap();
    let p = parse_bare_proof(&bytes).unwrap();
    assert_eq!(p.degree_bits, 6);
    assert_eq!(p.trace_cap.len(), 4);
    assert_eq!((p.fri.query_proofs.len(), p.fri.commit_phase_commits.len()), (2, 6));
    assert!(p.random_cap.is_none() && p.random.is_none() && p.codewords.is_empty());
    let path = &proof.opening_proof.query_proofs[1].input_proof[0].opening_proof;
    let want: Vec<Digest> = path.iter().map(|d| d.map(|x| x.as_canonical_u64())).collect();
    assert_eq!(p.fri.query_proofs[1].input_proof[0].path, want);
    assert!(parse_bare_proof(&bytes[1..]).is_none());
}

#[test]
fn production_proofs_are_planned() {
    let sys = const_system();
    let proof = prove(&hiding(1, 96, 6), &sys, matrix(&vec![vec![42]; 64]), &felts(&[42]));
    let other = prove(&hiding(1, 96, 6), &sys, matrix(&vec![vec![42]; 32]), &felts(&[42]));
    let (bytes, short) = (bytes_of(&proof), bytes_of(&other));
    let pvs = [42];
    let input = JoinSplitAggregateInput { proof_bytes: &bytes, public_values: &pvs };
    let small = JoinSplitAggregateInput { proof_bytes: &short, public_values: &pvs };
    let params =
        ProductionParams { n_public: 1, log_num_quotient_chunks: 0, is_zk: 1, max_log_degree: 28 };
    let shapes = parse_and_plan_production_inputs(&[input, input], &params).unwrap().unwrap();
    let p = hiding_plain(&proof);
    let replay = sim_full_hiding(&p, 6, &pvs);
    for s in &shapes {
        assert_eq!(s.counts, replay.counts);
        assert_eq!(s.binds, replay.binds);
        assert_eq!(s.index_binds, replay.index_binds);
        // The random row, the trace row at two points, and four chunks, with four codewords each.
        assert_eq!(s.n_terms, 6 + 2 * 5 + 4 * 6);
        assert_eq!(s.cap_height, 6);
    }
    let sizes = InnerSizes { num_quotient_chunks: 4, height: 8, m_period: 4, fused_w: 10 };
    let outer =
        OuterSizes { height: 128, fold_w: 20, fold_block: 2, tr: 32, n_queries: 1, m_period: 32 };
    let plan =
        |inputs: &[JoinSplitAggregateInput<'_>]| {
            let sizes = vec![sizes; inputs.len()];
            plan_joinsplit_aggregate_production(inputs, &params, &sizes, &outer, 10000)
        };
    let made = plan(&[input, input]).unwrap().unwrap();
    assert_eq!(made.n_inputs, 2);
    assert_eq!(made.inner_trace.required_felts, 80);
    assert_eq!(made.aggregate_trace.required_felts, 2560);
    assert_eq!(plan(&[input, small]), Err(AggregationError::MismatchedInnerShape));
    assert_eq!(plan(&[]), Err(AggregationError::Empty));
    assert_eq!(plan(&[input, input, input]), Err(AggregationError::InvalidFanIn { n: 3 }));
    let bad = JoinSplitAggregateInput { proof_bytes: b"bad", public_values: &pvs };
    assert_eq!(plan(&[bad]), Err(AggregationError::MalformedInnerProof));
    let none = JoinSplitAggregateInput { proof_bytes: &bytes, public_values: &[] };
    assert_eq!(plan(&[none]), Err(AggregationError::WrongPublicValueCount { got: 0 }));
    let mut cut = prove(&hiding(1, 96, 6), &sys, matrix(&vec![vec![42]; 64]), &felts(&[42]));
    cut.opening_proof.0.pop();
    let cut = bytes_of(&cut);
    let cut = JoinSplitAggregateInput { proof_bytes: &cut, public_values: &pvs };
    assert_eq!(plan(&[cut]), Ok(None));

    let planned = plan_production_inner_shape(&p, 6, &pvs, &sizes, 10000).unwrap();
    assert_eq!(planned.shape.counts, replay.counts);
    assert_eq!(planned.trace.required_felts, 80);
    assert_eq!(planned.query_segment.required_felts, 40);
    let mut wide = hiding_plain(&proof);
    wide.fri.query_proofs[3].commit_phase_openings[1].log_arity = 2;
    assert_eq!(
        plan_production_inner_shape(&wide, 6, &pvs, &sizes, 10000).unwrap_err(),
        AggregationError::UnsupportedFriArity { log_arity: 2 }
    );
    let many = InnerSizes { num_quotient_chunks: 17, ..sizes };
    assert!(plan_production_inner_shape(&p, 6, &pvs, &many, 10000).is_err());
}

#[test]
fn padding_compares_elements() {
    let sys = const_system();
    let proof = prove(&hiding(1, 96, 6), &sys, matrix(&vec![vec![42]; 64]), &felts(&[42]));
    let bytes = bytes_of(&proof);
    let pvs = [42];
    let input = JoinSplitAggregateInput { proof_bytes: &bytes, public_values: &pvs };
    let params =
        ProductionParams { n_public: 1, log_num_quotient_chunks: 0, is_zk: 1, max_log_degree: 28 };
    let three = [input, input, input];
    let pad = |a: Digest, b: Digest| {
        pad_joinsplit_aggregate_production_inputs(
            &three,
            input,
            &params,
            &vec![true; 3],
            true,
            a,
            b,
        )
        .map(|v| v.len())
    };
    assert_eq!(pad([5, 2, 3, 4], [P + 5, 2, 3, 4]), Ok(4));
    assert_eq!(pad([5, 2, 3, 4], [P + 6, 2, 3, 4]), Err(AggregationError::InvalidDummyPadding));
}

#[test]
fn real_research_proofs_are_parsed() {
    let config = bare(2, 2);
    let sys = const_system();
    let proof = prove(&config, &sys, matrix(&vec![vec![42]; 64]), &felts(&[42]));
    let bytes = postcard::to_allocvec(&proof).unwrap();
    let pvs = [42];
    let input = JoinSplitAggregateInput { proof_bytes: &bytes, public_values: &pvs };
    let options = ResearchAggregationOptions {
        inner_num_queries: 2,
        backend: AggregationBackend::InMemory,
        ..Default::default()
    };
    assert_eq!(parse_and_verify_inputs(&[input], &options, 1, &vec![true]), Ok(()));
    assert_eq!(
        parse_and_verify_inputs(&[input], &options, 1, &vec![false]),
        Err(AggregationError::InnerProofRejected)
    );
    let options = ResearchAggregationOptions { inner_num_queries: 3, ..options };
    assert_eq!(
        parse_and_verify_inputs(&[input], &options, 1, &vec![true]),
        Err(AggregationError::InnerQueryCount { expected: 3, got: 2 })
    );
}

/// The rounds of a hiding proof, with its random codewords behind the values.
fn merged_rounds(p: &PlainProof, base: usize, pvs: &[u64]) -> Vec<OpenedBatch> {
    let mut coms = opening_rounds(p, &mut Challenger::new(), base, pvs, true, 4, true).unwrap().coms;
    for (com, words) in coms.iter_mut().zip(&p.codewords) {
        for (mat, points) in com.mats.iter_mut().zip(words) {
            for (point, more) in mat.points.iter_mut().zip(points) {
                point.1.extend(more);
            }
        }
    }
    coms
}

/// The window of a hiding proof of the constant column.
fn hiding_window(p: &PlainProof, pvs: &[u64]) -> SymbolicHidingInnerWindow {
    let zeta = opening_rounds(p, &mut Challenger::new(), 6, pvs, true, 4, true).unwrap().zeta;
    let (s, _) = epilogue_at(p, zeta, 6, 8, 2, 4);
    let caps = 3 * p.trace_cap.len()
        + p.fri.commit_phase_commits.iter().map(|c| c.len()).sum::<usize>();
    let challenges = 3 + p.fri.commit_phase_commits.len();
    let inputs = WindowInputs {
        coms: merged_rounds(p, 6, pvs),
        base_degree_bits: 6,
        public_values: pvs.to_vec(),
        periodic: vec![],
        weights: vec![],
        is_first: s.is_first,
        is_last: s.is_last,
        inv_van: s.inv_van,
        constraints: vec![c(1, 0), c(2, 0)],
    };
    let shape = WindowShape {
        log_blowup: 4,
        num_quotient_chunks: 4,
        pis_count: 2 * challenges + p.fri.query_proofs.len() + 2 + 4 * caps + pvs.len(),
        m_period: 736,
        fused_w: 100,
        limit_felts: 1 << 20,
        fold_chunk: 1,
    };
    build_symbolic_hiding_inner_window_source(p, &inputs, &shape).unwrap()
}

/// A geometry for a hiding window, part behind part.
fn hiding_layout(w: &SymbolicHidingInnerWindow, p: &PlainProof) -> WindowLayout {
    let (t, rows) = (&w.queries[0].tile, &p.fri.query_proofs[0].input_proof);
    let random_w = rows[0].opened_values[0].len();
    let committed_w = rows[1].opened_values[0].len();
    let (nqc, chunk_w) = (rows[2].opened_values.len(), rows[2].opened_values[0].len());
    let blocks = |n: usize| (n + 3) / 4;
    let rounds = t.query.rounds.len();
    let m_input_leaf = 1 + blocks(random_w + 4) + w.queries[0].witness.random_path.len();
    let m_quot_leaf = m_input_leaf + blocks(committed_w + 4) + t.path.len();
    let mut next = m_quot_leaf + blocks(nqc * (chunk_w + 4)) + t.quot_path.len();
    let mut cm_leaf = vec![];
    for g in &t.commits {
        cm_leaf.push(next);
        next += 2 + g.path.len();
    }
    let lg = rounds + 4;
    let mut col = 11 + 2 * lg + 9 * w.n_terms;
    let mut take = |n: usize| {
        col += n;
        col - n
    };
    let segment = SegmentLayout {
        width: 0,
        m_period: 32 * next,
        lg,
        rounds,
        is_zk: true,
        full_cap: true,
        sb_x: take(96),
        idx_rem: take(1),
        m_sib: take(4),
        m_bit: take(1),
        ov_c: take(committed_w + 4),
        ov_random: take(random_w + 4),
        qc: take(nqc * (chunk_w + 4)),
        cg: take(4 * rounds),
        cap_c: take(12 + 4 * rounds),
        committed_w,
        random_w,
        nqc,
        chunk_w,
        trm_trace: random_w,
        trm_quot: random_w + 2 * committed_w,
        random_leaf_blocks: blocks(random_w + 4),
        m_input_leaf,
        leaf_blocks: blocks(committed_w + 4),
        m_quot_leaf,
        quot_leaf_blocks: blocks(nqc * (chunk_w + 4)),
        cm_leaf,
        cm_leaf_blocks: 2,
    };
    let (carry, pw) = (take(2), take(w.pub_window.len() + 2 * rounds));
    let sel_base = take(w.selector_window.len());
    let used = 32 * w.replay.block_inputs.len().next_power_of_two()
        + w.queries.len() * segment.m_period;
    WindowLayout {
        segment: SegmentLayout { width: take(0), ..segment },
        carry,
        column_window: true,
        pw,
        sel_base,
        height: used + 5,
    }
}

#[test]
fn symbolic_hiding_inner_window_source_matches_resident_trace() {
    let config = hiding(1, 2, 2);
    let proof = prove(&config, &const_system(), matrix(&vec![vec![42]; 64]), &felts(&[42]));
    let p = hiding_plain(&proof);
    let window = hiding_window(&p, &[42]);
    let layout = hiding_layout(&window, &p);
    let source = window.source();
    let resident = emit_all_ranges(&source, &layout);
    assert_eq!(resident.len(), layout.height);
    let mut streamed = vec![vec![0; layout.segment.width]; resident.len()];
    for range in window_ranges(&source, &layout) {
        let emitted = emit_range_with_selector(&source, &layout, &range);
        assert_eq!(emitted.len(), range.rows);
        for (i, row) in emitted.into_iter().enumerate() {
            streamed[range.start_row + i] = row;
        }
    }
    assert_eq!(streamed, resident);
    assert_eq!(materialize_trace_values(&source, &layout, usize::MAX), Ok(resident));
    assert_eq!(
        materialize_trace_values(&source, &layout, 7),
        Err(AggregationError::ResourceLimit {
            what: "hiding inner monolith trace",
            required_felts: layout.height * layout.segment.width,
            limit_felts: 7,
        })
    );
}

#[test]
fn salted_leaves_lead_to_the_caps() {
    let config = hiding(1, 2, 2);
    let proof = prove(&config, &const_system(), matrix(&vec![vec![42]; 64]), &felts(&[42]));
    let p = hiding_plain(&proof);
    let window = hiding_window(&p, &[42]);
    let layout = hiding_layout(&window, &p);
    let rows = emit_all_ranges(&window.source(), &layout);
    let (l, lg) = (&layout.segment, layout.segment.lg);
    let tr = 32 * window.replay.block_inputs.len().next_power_of_two();
    for (q, v) in window.queries.iter().enumerate() {
        let index = v.tile.query.index as usize;
        for r in [0, 33, l.m_period - 1] {
            let row = &rows[tr + q * l.m_period + r];
            let root = |i: usize| row[l.cap_c + 4 * i..l.cap_c + 4 * i + 4].to_vec();
            assert_eq!(root(0), p.trace_cap[index >> (lg - 2)]);
            assert_eq!(root(1), p.quotient_cap[index >> (lg - 2)]);
            for (k, cap) in p.fri.commit_phase_commits.iter().enumerate() {
                let depth = cap.len().trailing_zeros() as usize;
                assert_eq!(root(2 + k), cap[(index >> (k + 1)) >> (lg - 1 - k - depth)]);
            }
            assert_eq!(root(2 + l.rounds), p.random_cap.as_ref().unwrap()[index >> (lg - 2)]);
            assert_eq!(row[layout.carry..layout.carry + 2], pair(window.replay.challenges[2]));
            assert_eq!(row[layout.pw..layout.pw + 2], pair(window.replay.challenges[0]));
            let zeta = window.replay.challenges[1];
            let at = layout.pw + window.pub_window.len();
            assert_eq!(row[at..at + 2], pair(emul(zeta, zeta)));
        }
        // The folds end at the final polynomial, and the index is used up bit by bit.
        let first = tr + q * l.m_period;
        assert_eq!(rows[first + l.rounds][..2], pair(p.fri.final_poly[0]));
        assert_eq!(rows[first][l.idx_rem], index as u64);
        assert_eq!(rows[first + 2][l.idx_rem], (index >> 2) as u64);
        assert_eq!(rows[first][9] as usize, index & 1);
    }
    assert_eq!(rows[layout.height - 1][..9], [0; 9]);
}

/// The windows of hiding proofs of constant columns, their geometry and that of their aggregate.
fn store_parts(values: &[u64]) -> (Vec<SymbolicHidingInnerWindow>, WindowLayout, FoldLayout) {
    let config = hiding(1, 2, 2);
    let mut windows = vec![];
    let mut layout = None;
    for &v in values {
        let proof = prove(&config, &const_system(), matrix(&vec![vec![v]; 64]), &felts(&[v]));
        let p = hiding_plain(&proof);
        let window = hiding_window(&p, &[v]);
        layout = Some(hiding_layout(&window, &p));
        windows.push(window);
    }
    let layout = layout.unwrap();
    let used = layout.height - 5;
    let layout = WindowLayout { height: used + 64, ..layout };
    let fused_w = layout.segment.width;
    let fold = FoldLayout {
        fused_w,
        fold_w: fused_w + 12,
        inst_h: used + 64,
        height: (values.len() * (used + 64)).next_power_of_two(),
        fold_block: used / 32,
        af_root: fused_w,
        af_p: fused_w + 4,
        tr: 32 * windows[0].replay.block_inputs.len().next_power_of_two(),
        n_queries: 2,
        m_period: layout.segment.m_period,
    };
    (windows, layout, fold)
}

#[test]
fn production_store_instance_matches_resident_instance_small() {
    let blocks: Vec<BlockSource> = vec![[Some(0), None, None, None]];
    for values in [vec![42], vec![42, 43]] {
        let (windows, layout, fold) = store_parts(&values);
        let shapes: Vec<InnerShape> =
            windows.iter().map(|w| replay_shape(&w.replay, w.n_terms, 2)).collect();
        let sources: Vec<MonolithTraceSource<'_>> = windows.iter().map(|w| w.source()).collect();
        let pvs: Vec<Vec<u64>> = values.iter().map(|&v| vec![v]).collect();
        let digests: Vec<Digest> = pvs.iter().map(|v| statement_chain(9, &blocks, v).1).collect();
        let traces = sources.iter().map(|s| emit_all_ranges(s, &layout)).collect();
        let resident = build_production_instance(
            &shapes, &traces, &fold, &blocks, &pvs, 9, &digests, usize::MAX,
        )
        .unwrap();
        let streamed = build_production_store_instance(
            &shapes, &sources, &layout, &fold, &blocks, &pvs, 9, &digests,
        )
        .unwrap();
        assert_eq!(streamed.tx_root, resident.tx_root);
        assert_eq!(streamed.tx_root, fold_digests(&digests));
        assert_eq!(streamed.rows.len(), resident.rows.len());
        assert_eq!(streamed.rows[0].len(), resident.rows[0].len());
        assert_eq!(streamed.rows, resident.rows);
    }
}

#[test]
fn stores_are_refused_for_their_parts() {
    let (windows, layout, fold) = store_parts(&[42]);
    let blocks: Vec<BlockSource> = vec![[Some(0), None, None, None]];
    let shape = || replay_shape(&windows[0].replay, windows[0].n_terms, 2);
    let source = || windows[0].source();
    let pvs = vec![vec![42]];
    let digests: Vec<Digest> = pvs.iter().map(|v| statement_chain(9, &blocks, v).1).collect();
    let store = |wl: &WindowLayout, l: &FoldLayout, dom: u64| {
        build_production_store_instance(
            &vec![shape()], &vec![source()], wl, l, &blocks, &pvs, dom, &digests,
        )
        .map(|t| t.tx_root)
    };
    assert_eq!(store(&layout, &fold, 9), Ok(fold_digests(&digests)));
    assert_eq!(
        store(&layout, &fold, 8),
        Err(AggregationError::TraceLayout(LayoutFault::TxRoot))
    );
    let early = FoldLayout { fold_block: fold.fold_block - 1, ..fold };
    assert_eq!(
        store(&layout, &early, 9),
        Err(AggregationError::TraceLayout(LayoutFault::FoldOverlap))
    );
    let tall = FoldLayout { height: usize::MAX, ..fold };
    assert_eq!(
        store(&layout, &tall, 9),
        Err(AggregationError::TraceLayout(LayoutFault::Overflow {
            what: "production aggregate store"
        }))
    );
    let lower = WindowLayout { height: layout.height - 1, ..layout };
    assert_eq!(store(&lower, &fold, 9), Err(AggregationError::MismatchedInnerShape));
    let other = replay_shape(&windows[0].replay, windows[0].n_terms + 1, 2);
    assert_eq!(
        build_production_store_instance(
            &vec![shape(), other],
            &vec![source(), source()],
            &lower,
            &FoldLayout { height: 2 * fold.inst_h, ..fold },
            &blocks,
            &vec![vec![42], vec![42]],
            9,
            &vec![digests[0], digests[0]],
        )
        .unwrap_err(),
        AggregationError::MismatchedInnerShape
    );
    assert_eq!(
        build_production_store_instance(
            &vec![], &vec![], &lower, &fold, &blocks, &vec![], 9, &vec![],
        )
        .unwrap_err(),
        AggregationError::Empty
    );
}

#[test]
fn verdicts_follow_the_bytes_and_the_verifier() {
    let config = hiding(1, 2, 2);
    let sys = const_system();
    let proof = prove(&config, &sys, matrix(&vec![vec![42]; 64]), &felts(&[42]));
    let bytes = postcard::to_allocvec(&proof).unwrap();
    for publics in [42, 43] {
        let said = verify(&config, &sys, &proof, &felts(&[publics])).is_ok();
        assert_eq!(said, publics == 42);
        assert_eq!(aggregate_verdict(&bytes, said), Ok(said));
        assert_eq!(proof_verdict(&bytes, said), said);
    }
    let cut = &bytes[..bytes.len() - 1];
    assert_eq!(
        aggregate_verdict(cut, true),
        Err(AggregationError::MalformedAggregateProof)
    );
    assert!(!proof_verdict(cut, true));
}

#[test]
fn research_aggregator_builds_k2_trace() {
    let options = ResearchAggregationOptions {
        inner_num_queries: 2,
        backend: AggregationBackend::InMemory,
        ..Default::default()
    };
    let config = bare(2, options.inner_cap_height);
    let sys = const_system();
    let made = |v: u64| {
        let proof = prove(&config, &sys, matrix(&vec![vec![v]; 64]), &felts(&[v]));
        let ok = verify(&config, &sys, &proof, &felts(&[v])).is_ok();
        (postcard::to_allocvec(&proof).unwrap(), vec![v], ok)
    };
    let (proof_a, pvs_a, ok_a) = made(42);
    let (proof_b, pvs_b, ok_b) = made(43);
    let inputs = [
        JoinSplitAggregateInput { proof_bytes: &proof_a, public_values: &pvs_a },
        JoinSplitAggregateInput { proof_bytes: &proof_b, public_values: &pvs_b },
    ];
    parse_and_verify_inputs(&inputs, &options, 1, &vec![ok_a, ok_b]).unwrap();

    let cap_height = options.inner_cap_height;
    let mut windows = vec![];
    for (bytes, pvs) in [(&proof_a, &pvs_a), (&proof_b, &pvs_b)] {
        let p = parse_bare_proof(bytes).unwrap();
        let o = opening_rounds(&p, &mut Challenger::new(), 6, pvs, true, 1, false).unwrap();
        let (s, _) = epilogue_at(&p, o.zeta, 6, 6, 0, 1);
        let caps = 2 * p.trace_cap.len()
            + p.fri.commit_phase_commits.iter().map(|c| c.len()).sum::<usize>();
        let challenges = 3 + p.fri.commit_phase_commits.len();
        let window_inputs = WindowInputs {
            coms: o.coms,
            base_degree_bits: 6,
            public_values: pvs.clone(),
            periodic: vec![],
            weights: vec![],
            is_first: s.is_first,
            is_last: s.is_last,
            inv_van: s.inv_van,
            constraints: vec![],
        };
        let shape = WindowShape {
            log_blowup: 4,
            num_quotient_chunks: 1,
            pis_count: 2 * challenges + 2 + 2 + 4 * caps + 1,
            m_period: 736,
            fused_w: 100,
            limit_felts: 1 << 20,
            fold_chunk: 8,
        };
        windows.push(build_symbolic_inner_window(&p, &window_inputs, &shape, cap_height).unwrap());
    }
    let t = &windows[0].queries[0];
    let m_quot_leaf = 2 + t.path.len();
    let mut next = m_quot_leaf + 1 + t.quot_path.len();
    let mut cm_leaf = vec![];
    for g in &t.commits {
        cm_leaf.push(next);
        next += 1 + g.path.len();
    }
    let (lg, rounds) = (t.query.rounds.len() + 4, t.query.rounds.len());
    let mut col = 11 + 2 * lg + 9 * windows[0].n_terms;
    let mut take = |n: usize| {
        col += n;
        col - n
    };
    let segment = SegmentLayout {
        width: 0,
        m_period: 32 * next,
        lg,
        rounds,
        is_zk: false,
        full_cap: true,
        sb_x: take(96),
        idx_rem: take(1),
        m_sib: take(4),
        m_bit: take(1),
        ov_c: take(1),
        ov_random: 0,
        qc: take(2),
        cg: take(4 * rounds),
        cap_c: take(8 + 4 * rounds),
        committed_w: 1,
        random_w: 0,
        nqc: 1,
        chunk_w: 2,
        trm_trace: 0,
        trm_quot: 2,
        random_leaf_blocks: 0,
        m_input_leaf: 1,
        leaf_blocks: 1,
        m_quot_leaf,
        quot_leaf_blocks: 1,
        cm_leaf,
        cm_leaf_blocks: 1,
    };
    let (carry, pw) = (take(2), take(windows[0].pub_window.len() + 2 * rounds));
    let sel_base = take(windows[0].selector_window.len());
    let tr = 32 * windows[0].replay.block_inputs.len().next_power_of_two();
    let m_period = segment.m_period;
    let used = tr + 2 * m_period;
    let fused_w = take(0);
    let layout = WindowLayout {
        segment: SegmentLayout { width: fused_w, ..segment },
        carry,
        column_window: true,
        pw,
        sel_base,
        height: used + 64,
    };
    let fold = FoldLayout {
        fused_w,
        fold_w: fused_w + 12,
        inst_h: used + 64,
        height: (2 * (used + 64)).next_power_of_two(),
        fold_block: used / 32,
        af_root: fused_w,
        af_p: fused_w + 4,
        tr,
        n_queries: 2,
        m_period,
    };
    let shapes: Vec<InnerShape> =
        windows.iter().map(|w| replay_shape(&w.replay, w.n_terms, cap_height)).collect();
    let sources: Vec<MonolithTraceSource<'_>> = windows.iter().map(|w| w.source()).collect();
    let blocks: Vec<BlockSource> = vec![[Some(0), None, None, None]];
    let pvs = vec![pvs_a, pvs_b];
    let digests: Vec<Digest> = pvs.iter().map(|v| statement_chain(9, &blocks, v).1).collect();
    let instance =
        build_instance_of(&shapes, &sources, &layout, &fold, &blocks, &pvs, 9, &digests, None)
            .unwrap();
    let mut expected = [0; 4];
    expected = merge(expected, digests[0]);
    expected = merge(expected, digests[1]);
    assert_eq!(instance.tx_root, expected);
    assert!(instance.rows[0].len() > 1);
    assert_eq!(instance.rows.len(), fold.height);
    let second = emit_all_ranges(&sources[1], &layout);
    assert_eq!(instance.rows[fold.inst_h + 77][..fused_w], second[77][..]);
    assert_eq!(instance.rows[fold.inst_h][fused_w..fused_w + 4], merge([0; 4], digests[0]));
    assert_eq!(
        build_instance_of(&shapes, &sources, &layout, &fold, &blocks, &pvs, 8, &digests, None)
            .unwrap_err(),
        AggregationError::TraceLayout(LayoutFault::TxRoot)
    );
}

#[test]
fn hiding_windows_show_what_a_proof_holds() {
    let config = hiding(1, 3, 2);
    let sys = const_system();
    let proof = prove(&config, &sys, matrix(&vec![vec![42]; 64]), &felts(&[42]));
    let p = hiding_plain(&proof);
    let pvs = vec![42];
    let rounds = || opening_rounds(&p, &mut Challenger::new(), 6, &pvs, true, 4, true).unwrap();
    let o = rounds();
    let mut coms = rounds().coms;
    // The hiding commitments open their random codewords behind the values.
    for (com, words) in coms.iter_mut().zip(&p.codewords) {
        for (mat, points) in com.mats.iter_mut().zip(words) {
            for (point, more) in mat.points.iter_mut().zip(points) {
                point.1.extend(more);
            }
        }
    }
    let (s, _) = epilogue_at(&p, o.zeta, 6, 8, 2, 4);
    let commits = p.fri.commit_phase_commits.iter().map(|c| c.len()).sum::<usize>();
    let challenges = 3 + p.fri.commit_phase_commits.len();
    let inputs = WindowInputs {
        coms,
        base_degree_bits: 6,
        public_values: pvs.clone(),
        periodic: vec![],
        weights: vec![],
        is_first: s.is_first,
        is_last: s.is_last,
        inv_van: s.inv_van,
        constraints: vec![c(1, 0), c(2, 0)],
    };
    let shape = WindowShape {
        log_blowup: 4,
        num_quotient_chunks: 4,
        pis_count: 2 * challenges + 3 + 2 + 4 * (3 * 4 + commits) + 1,
        m_period: 736,
        fused_w: 100,
        limit_felts: 1 << 20,
        fold_chunk: 1,
    };
    let w = build_symbolic_hiding_inner_window_source(&p, &inputs, &shape).unwrap();
    assert_eq!(w.pub_window.len(), shape.pis_count);
    assert_eq!(w.queries.len(), 3);
    assert_eq!(w.selector_window.len(), 8);
    for (q, proof) in w.queries.iter().zip(&p.fri.query_proofs) {
        assert_eq!(q.witness.trace_salt[..], proof.input_proof[1].salts[0][..]);
        assert_eq!(q.witness.random_salt[..], proof.input_proof[0].salts[0][..]);
        assert_eq!(q.witness.quot_salts.len(), 4);
        assert_eq!(q.witness.commit_salts.len(), proof.commit_phase_openings.len());
    }
    // The folds of every query end at the final polynomial.
    for q in &w.queries {
        let mut e = q.tile.query.ro;
        for r in &q.tile.query.rounds {
            e = if r.bit {
                native_fold(r.sib, e, r.beta, r.s)
            } else {
                native_fold(e, r.sib, r.beta, r.s)
            };
        }
        assert_eq!((e.c0, e.c1), (p.fri.final_poly[0].c0, p.fri.final_poly[0].c1));
    }
    assert_eq!(w.n_terms, w.queries[1].tile.query.terms.len());
    // Rows and claimed values stand side by side, as far as both go.
    let mut cut = hiding_plain(&proof);
    cut.fri.query_proofs[1].input_proof[0].opened_values[0].pop();
    assert_eq!(
        build_symbolic_hiding_inner_window_source(&cut, &inputs, &shape).unwrap_err(),
        AggregationError::MismatchedInnerShape
    );
    let terms = |p: &PlainProof, q: usize| query_terms(&p.fri.query_proofs[q].input_proof, &inputs.coms);
    let points = inputs.coms[0].mats[0].points.len();
    assert_eq!(terms(&p, 1).len(), w.n_terms);
    assert_eq!(terms(&cut, 1).len(), w.n_terms - points);
    cut.fri.query_proofs[1].input_proof.truncate(1);
    let row = &cut.fri.query_proofs[1].input_proof[0].opened_values[0];
    assert_eq!(terms(&cut, 1).len(), points * row.len());
    let first = &terms(&cut, 1)[0];
    let (z, claimed) = (inputs.coms[0].mats[0].points[0].0, inputs.coms[0].mats[0].points[0].1[0]);
    assert_eq!((pair(first.z), pair(first.pz), first.px), (pair(z), pair(claimed), row[0]));
    let wide = WindowShape { num_quotient_chunks: 17, ..shape };
    assert!(build_symbolic_hiding_inner_window_source(&p, &inputs, &wide).is_err());
    let tall = WindowShape { limit_felts: 5, ..shape };
    assert_eq!(
        build_symbolic_hiding_inner_window_source(&p, &inputs, &tall).unwrap_err(),
        AggregationError::ResourceLimit {
            what: "hiding inner monolith query segment",
            required_felts: 73600,
            limit_felts: 5,
        }
    );
    assert_eq!(validate_binary_fri_shape(&p.fri), Ok(()));
    let mut q = hiding_plain(&proof);
    q.fri.query_proofs[1].commit_phase_openings[2].log_arity = 3;
    assert_eq!(
        validate_binary_fri_shape(&q.fri),
        Err(AggregationError::UnsupportedFriArity { log_arity: 3 })
    );
    q.fri.query_proofs[0].input_proof[1].salts[0].pop();
    assert!(hiding_witness_for_query(&q.fri.query_proofs[0], 3).is_err());
}
