use lattica_prover_p3::aggregate::emit::{emit_all_ranges, MonolithTraceSource, WindowLayout};
use lattica_prover_p3::aggregate::inputs::{PlainConfig, PlainPcs, Transcript};
use lattica_prover_p3::aggregate::source::{
    build_symbolic_inner_window, reduced_opening, WindowInputs, WindowShape,
};
use lattica_prover_p3::challenger::Challenger;
use lattica_prover_p3::epilogue::{epilogue_at, verify_proof, verify_proof_with};
use lattica_prover_p3::expr::{Constraint, Expr, Gate};
use lattica_prover_p3::field::{
    eadd, emul, escale, esub, fmul, inverse, Challenge, GENERATOR, P,
};
use lattica_prover_p3::fri_merkle::{self, FriMerkleAir};
use lattica_prover_p3::fri_query::{build_params, FriError};
use lattica_prover_p3::merkle::Digest;
use lattica_prover_p3::mmcs::{Compression, Pair, Sponge, Tree};
use lattica_prover_p3::monolith::cells::{FoldRound, Query, Term};
use lattica_prover_p3::monolith::fused::{MonolithAir, CM_ROUNDS};
use lattica_prover_p3::monolith::fused_trace::{
    emit_range, monolith_build_trace, monolith_trace_row_ranges, try_monolith_build_trace,
    TileOpenings,
};
use lattica_prover_p3::monolith::general::{build_general_fold_trace, GeneralFoldAir};
use lattica_prover_p3::monolith::index::{
    cm_build_trace, fp_build_trace, ib_build_trace, CapMuxAir, FoldPointAir, IndexBindAir,
    CM_CAP_HEIGHT,
};
use lattica_prover_p3::monolith::leaf_hash::{build_general_leaf_trace, GeneralLeafHashAir};
use lattica_prover_p3::monolith::merkle_tile::{
    cm2_build_trace, im_build_trace, CommitMerkleTileAir, InputMerkleTileAir, IMT_DEPTH,
};
use lattica_prover_p3::monolith::parts::DP_LOG_HEIGHT;
use lattica_prover_p3::monolith::phase4a::{phase4a_build_trace, Phase4AAir};
use lattica_prover_p3::monolith::query::{dp_build_trace, mro_build_trace, DeepPointAir, MroAir};
use lattica_prover_p3::monolith::query_tile::{
    qf_build_trace, qi_build_trace, QueryFoldAir, QueryInputTileAir,
};
use lattica_prover_p3::monolith::segment::{fill_monolith_query_segment, SegmentLayout};
use lattica_prover_p3::monolith::skeleton::{
    carry_build_trace, skeleton_build_trace, CarryBindAir, MonolithSkeletonAir,
};
use lattica_prover_p3::monolith::sponge::{
    ft_build_trace, preamble_build_trace, FullTranscriptAir, PreambleAir,
};
use lattica_prover_p3::monolith::super_tile::{st_build_trace, SuperTileAir, TileQuery};
use lattica_prover_p3::monolith::tiled::{
    qt_build_trace, tq_build_trace, QueryTileAir, TiledQueryAir,
};
use lattica_prover_p3::native_fri::{eval_final_poly, final_query_point, subgroup_point};
use lattica_prover_p3::native_verify::ConstAir;
use lattica_prover_p3::plain_proof::{
    commitment_felts, instance_felts, log_global_height, BatchOpening, CommitOpening, FriProof,
    PlainProof, QueryProof,
};
use lattica_prover_p3::query_data::{
    general_fold_data, query_commit_merkle_all, query_fold_data, query_input_merkle,
    query_quotient_merkle, query_terms, GroupProof,
};
use lattica_prover_p3::replay::{sim_full, Replay};
use lattica_prover_p3::stark::{opening_rounds, OpeningRounds, ProofError};
use p3_air::{Air, AirBuilder, BaseAir, WindowAccess};
use p3_challenger::{CanObserve, CanSample, FieldChallenger};
use p3_commit::ExtensionMmcs;
use p3_dft::Radix2DitParallel;
use p3_field::{
    BasedVectorSpace, Field, PrimeCharacteristicRing, PrimeField64, TwoAdicField,
};
use p3_fri::FriParameters;
use p3_goldilocks::{default_goldilocks_poseidon2_8, Goldilocks};
use p3_matrix::dense::RowMajorMatrix;
use p3_symmetric::CryptographicHasher;
use p3_uni_stark::{prove, verify, Proof};

const MILESTONE_QUERIES: usize = 32;

/// The constraints of the constant column for the outside prover.
struct Const;

impl BaseAir<Goldilocks> for Const {
    fn width(&self) -> usize {
        1
    }

    fn num_public_values(&self) -> usize {
        1
    }
}

impl<AB: AirBuilder<F = Goldilocks>> Air<AB> for Const {
    fn eval(&self, builder: &mut AB) {
        let main = builder.main();
        let cur: AB::Expr = main.current_slice()[0].into();
        let nxt: AB::Expr = main.next_slice()[0].into();
        let pis: AB::Expr = builder.public_values()[0].into();
        builder.when_first_row().assert_zero(cur.clone() - pis);
        builder.when_transition().assert_zero(nxt - cur);
    }
}

fn make_config(max_log_arity: usize, num_queries: usize) -> PlainConfig {
    let perm = default_goldilocks_poseidon2_8();
    let val_mmcs = Tree::new(Sponge::new(perm.clone()), Compression::new(perm.clone()), 6);
    let fri = FriParameters {
        log_blowup: 4,
        log_final_poly_len: 0,
        max_log_arity,
        num_queries,
        commit_proof_of_work_bits: 0,
        query_proof_of_work_bits: 16,
        mmcs: ExtensionMmcs::new(val_mmcs.clone()),
    };
    let pcs = PlainPcs::new(Radix2DitParallel::default(), val_mmcs, fri);
    PlainConfig::new(pcs, Transcript::new(perm))
}

fn gen_const_proof(config: &PlainConfig, value: u64, log_height: usize) -> Proof<PlainConfig> {
    let v = Goldilocks::from_u64(value);
    let trace = RowMajorMatrix::new(vec![v; 1 << log_height], 1);
    prove(config, &Const, trace, &[v])
}

fn ext(x: &Pair) -> Challenge {
    let c: &[Goldilocks] = x.as_basis_coefficients_slice();
    Challenge { c0: c[0].as_canonical_u64(), c1: c[1].as_canonical_u64() }
}

fn exts(xs: &[Pair]) -> Vec<Challenge> {
    xs.iter().map(ext).collect()
}

fn digest(d: &[Goldilocks; 4]) -> Digest {
    d.map(|x| x.as_canonical_u64())
}

fn digests(ds: &[[Goldilocks; 4]]) -> Vec<Digest> {
    ds.iter().map(digest).collect()
}

fn plain(p: &Proof<PlainConfig>) -> PlainProof {
    let f = &p.opening_proof;
    PlainProof {
        degree_bits: p.degree_bits,
        trace_cap: digests(p.commitments.trace.roots()),
        quotient_cap: digests(p.commitments.quotient_chunks.roots()),
        random_cap: None,
        trace_local: exts(&p.opened_values.trace_local),
        trace_next: p.opened_values.trace_next.as_ref().map(|v| exts(v)),
        quotient_chunks: p.opened_values.quotient_chunks.iter().map(|v| exts(v)).collect(),
        random: None,
        codewords: vec![],
        fri: FriProof {
            commit_phase_commits: f
                .commit_phase_commits
                .iter()
                .map(|c| digests(c.roots()))
                .collect(),
            commit_pow_witnesses: f
                .commit_pow_witnesses
                .iter()
                .map(|w| w.as_canonical_u64())
                .collect(),
            final_poly: exts(&f.final_poly),
            query_pow_witness: f.query_pow_witness.as_canonical_u64(),
            query_proofs: f
                .query_proofs
                .iter()
                .map(|q| QueryProof {
                    input_proof: q
                        .input_proof
                        .iter()
                        .map(|b| BatchOpening {
                            opened_values: b
                                .opened_values
                                .iter()
                                .map(|r| r.iter().map(|x| x.as_canonical_u64()).collect())
                                .collect(),
                            salts: vec![],
                            path: digests(&b.opening_proof),
                        })
                        .collect(),
                    commit_phase_openings: q
                        .commit_phase_openings
                        .iter()
                        .map(|o| CommitOpening {
                            log_arity: o.log_arity,
                            sibling_values: exts(&o.sibling_values),
                            salts: vec![],
                            path: digests(&o.opening_proof),
                        })
                        .collect(),
                })
                .collect(),
        },
    }
}

/// A proof of the constant column with what its queries open.
struct Milestone {
    native: Proof<PlainConfig>,
    proof: PlainProof,
    pvs: Vec<u64>,
    replay: Replay,
    opened: OpeningRounds,
    log_global: usize,
}

impl Milestone {
    fn new(max_log_arity: usize) -> Self {
        let config = make_config(max_log_arity, MILESTONE_QUERIES);
        let native = gen_const_proof(&config, 42, 6);
        let proof = plain(&native);
        let pvs = vec![42];
        let replay = sim_full(&proof, 6, &pvs);
        let opened = opening_rounds(&proof, &mut Challenger::new(), 6, &pvs, true, 1, false).unwrap();
        let log_global = log_global_height(&proof.fri, 4, 0);
        Milestone { native, proof, pvs, replay, opened, log_global }
    }

    fn index(&self, q: usize) -> usize {
        (self.replay.index_felts[q] as usize) & ((1 << self.log_global) - 1)
    }

    fn betas(&self) -> Vec<Challenge> {
        self.replay.challenges[3..].to_vec()
    }

    fn terms(&self, q: usize) -> (Vec<Term>, u64, Challenge, Challenge) {
        let terms = query_terms(&self.proof.fri.query_proofs[q].input_proof, &self.opened.coms);
        let x = fmul(GENERATOR, subgroup_point(self.index(q), self.log_global));
        let alpha = self.replay.challenges[2];
        let ro = reduced_opening(&terms, x, alpha).unwrap();
        (terms, x, alpha, ro)
    }

    fn folds(&self, q: usize) -> (Challenge, Vec<FoldRound>, Challenge, Challenge) {
        let (_, _, _, ro) = self.terms(q);
        let openings = &self.proof.fri.query_proofs[q].commit_phase_openings;
        let (rounds, folded) =
            query_fold_data(openings, &self.betas(), self.index(q), self.log_global, ro);
        (ro, rounds, folded, self.proof.fri.final_poly[0])
    }

    fn query(&self, q: usize) -> Query {
        let (terms, _, alpha, ro) = self.terms(q);
        let (_, rounds, _, _) = self.folds(q);
        Query { index: self.index(q) as u64, terms, alpha, ro, rounds }
    }

    fn opened_value(&self, q: usize) -> u64 {
        self.proof.fri.query_proofs[q].input_proof[0].opened_values[0][0]
    }

    fn input_merkle(&self, q: usize) -> (Digest, Vec<(Digest, bool)>, Digest) {
        let opening = &self.proof.fri.query_proofs[q].input_proof[0];
        query_input_merkle(opening, &self.proof.trace_cap, self.index(q))
    }

    fn quotient_merkle(&self, q: usize) -> (Digest, Vec<(Digest, bool)>, Digest, usize) {
        let opening = &self.proof.fri.query_proofs[q].input_proof[1];
        query_quotient_merkle(opening, &self.proof.quotient_cap, self.index(q), self.log_global, 6)
    }

    fn commit_merkle(
        &self,
        q: usize,
    ) -> Vec<(Digest, Digest, Vec<(Digest, bool)>, Digest)> {
        let (ro, rounds, _, _) = self.folds(q);
        let (groups, proofs) = query_commit_merkle_all(
            &self.proof.fri.query_proofs[q].commit_phase_openings,
            &self.proof.fri.commit_phase_commits,
            &rounds,
            ro,
            self.index(q),
        );
        groups
            .into_iter()
            .zip(proofs)
            .map(|(g, GroupProof { leaf, cap_entry })| (g.group, leaf, g.path, cap_entry))
            .collect()
    }

    fn tile(&self, q: usize) -> TileOpenings {
        let (ro, rounds, _, _) = self.folds(q);
        let (commits, _) = query_commit_merkle_all(
            &self.proof.fri.query_proofs[q].commit_phase_openings,
            &self.proof.fri.commit_phase_commits,
            &rounds,
            ro,
            self.index(q),
        );
        TileOpenings {
            query: self.query(q),
            v: self.opened_value(q),
            path: self.input_merkle(q).1,
            quot_path: self.quotient_merkle(q).1,
            commits,
        }
    }

    fn challenge_felts(&self) -> Vec<u64> {
        self.replay.challenges.iter().flat_map(|c| [c.c0, c.c1]).collect()
    }
}

fn red(x: u128) -> u64 {
    (x % P as u128) as u64
}

fn value(e: &Expr, cur: &[u64], nxt: &[u64], per: &[u64], pis: &[u64]) -> u64 {
    match e {
        Expr::Const(c) => *c % P,
        Expr::Cur(i) => cur[*i],
        Expr::Next(i) => nxt[*i],
        Expr::Periodic(i) => per[*i],
        Expr::Public(i) => pis[*i],
        Expr::Sum(a, b) => {
            red(value(a, cur, nxt, per, pis) as u128 + value(b, cur, nxt, per, pis) as u128)
        }
        Expr::Difference(a, b) => {
            let (x, y) = (value(a, cur, nxt, per, pis), value(b, cur, nxt, per, pis));
            red(x as u128 + 2 * P as u128 - y as u128)
        }
        Expr::Product(a, b) => {
            let x = value(a, cur, nxt, per, pis);
            if x == 0 {
                0
            } else {
                red(x as u128 * value(b, cur, nxt, per, pis) as u128)
            }
        }
    }
}

/// Whether a trace meets constraints.
fn met(cs: &[Constraint], t: &[Vec<u64>], periodic: &[Vec<u64>], pis: &[u64]) -> bool {
    let n = t.len();
    assert!(n.is_power_of_two());
    (0..n).all(|r| {
        let (cur, nxt) = (&t[r], &t[(r + 1) % n]);
        let per: Vec<u64> = periodic.iter().map(|c| c[r % c.len()]).collect();
        cs.iter().all(|c| {
            let on = match c.gate {
                Gate::Always => true,
                Gate::First => r == 0,
                Gate::Last => r == n - 1,
                Gate::Transition => r < n - 1,
            };
            !on || value(&c.expr, cur, nxt, &per, pis) == 0
        })
    })
}

fn bumped(pis: &[u64], i: usize) -> Vec<u64> {
    let mut bad = pis.to_vec();
    bad[i] = red(bad[i] as u128 + 1);
    bad
}

fn pair(c: Challenge) -> Vec<u64> {
    vec![c.c0, c.c1]
}

fn same(a: Challenge, b: Challenge) -> bool {
    a.c0 == b.c0 && a.c1 == b.c1
}

const SOME: [usize; 3] = [0, 1, MILESTONE_QUERIES - 1];

#[test]
fn phase0_geometry_pin_and_budget() {
    let m = Milestone::new(1);
    let config = make_config(1, MILESTONE_QUERIES);
    assert!(verify(&config, &Const, &m.native, &[Goldilocks::from_u64(42)]).is_ok());
    assert_eq!(m.proof.degree_bits, 6);
    let openings = &m.proof.fri.query_proofs[0].commit_phase_openings;
    assert!(openings.iter().all(|o| o.log_arity == 1));
    assert_eq!(m.log_global, 10);
    assert_eq!(openings.len(), 6);
    assert_eq!(m.proof.fri.query_proofs.len(), MILESTONE_QUERIES);
    let air = MonolithAir {
        counts: m.replay.counts.clone(),
        binds: m.replay.binds.clone(),
        index_binds: m.replay.index_binds.clone(),
        n_queries: MILESTONE_QUERIES,
        n_terms: m.terms(0).0.len(),
    };
    assert!(air.height() <= 1 << 17);
}

#[test]
fn phase1_preamble_matches_native() {
    let m = Milestone::new(1);
    let mut native = Transcript::new(default_goldilocks_poseidon2_8());
    native.observe(Goldilocks::from_u64(6));
    native.observe(Goldilocks::from_u64(6));
    native.observe(Goldilocks::from_u64(0));
    native.observe(m.native.commitments.trace.clone());
    native.observe(Goldilocks::from_u64(42));
    let alpha: Pair = native.sample_algebra_element();
    native.observe(m.native.commitments.quotient_chunks.clone());
    let zeta: Pair = native.sample_algebra_element();
    let (alpha, zeta) = (ext(&alpha), ext(&zeta));
    assert!(same(alpha, m.opened.alpha) && same(zeta, m.opened.zeta));

    let instance = instance_felts(&m.proof, 6, &m.pvs);
    let commitment = commitment_felts(&m.proof, false);
    assert_eq!(instance.len() % 4, 0);
    assert_eq!(commitment.len() % 4, 0);
    let (i_blocks, c_blocks) = (instance.len() / 4, commitment.len() / 4);
    let air = PreambleAir { i_blocks, c_blocks };
    let trace = preamble_build_trace(i_blocks, c_blocks, &instance, &commitment);
    let pis = vec![alpha.c0, alpha.c1, zeta.c0, zeta.c1];
    let (cs, per) = (air.eval(), air.periodic());
    assert!(met(&cs, &trace, &per, &pis));
    assert!(!met(&cs, &trace, &per, &bumped(&pis, 0)));
}

#[test]
fn phase2_full_transcript_matches_native() {
    let m = Milestone::new(1);
    let f = &m.native.opening_proof;
    let mut native = Transcript::new(default_goldilocks_poseidon2_8());
    native.observe(Goldilocks::from_u64(6));
    native.observe(Goldilocks::from_u64(6));
    native.observe(Goldilocks::from_u64(0));
    native.observe(m.native.commitments.trace.clone());
    native.observe(Goldilocks::from_u64(42));
    let mut want: Vec<Pair> = vec![native.sample_algebra_element()];
    native.observe(m.native.commitments.quotient_chunks.clone());
    want.push(native.sample_algebra_element());
    native.observe_algebra_slice(&m.native.opened_values.trace_local);
    native.observe_algebra_slice(m.native.opened_values.trace_next.as_ref().unwrap());
    for c in &m.native.opened_values.quotient_chunks {
        native.observe_algebra_slice(c);
    }
    want.push(native.sample_algebra_element());
    for c in &f.commit_phase_commits {
        native.observe(c.clone());
        want.push(native.sample_algebra_element());
    }
    native.observe_algebra_slice(&f.final_poly);
    for o in &f.query_proofs[0].commit_phase_openings {
        native.observe(Goldilocks::from_u64(o.log_arity as u64));
    }
    native.observe(f.query_pow_witness);
    let pow: Goldilocks = native.sample();
    assert_eq!(pow.as_canonical_u64() & 0xFFFF, 0);
    let felts: Vec<u64> = (0..MILESTONE_QUERIES)
        .map(|_| CanSample::<Goldilocks>::sample(&mut native).as_canonical_u64())
        .collect();
    assert_eq!(m.replay.challenges.len(), want.len());
    for (a, b) in m.replay.challenges.iter().zip(&want) {
        assert!(same(*a, ext(b)));
    }
    assert_eq!(m.replay.index_felts, felts);

    let air = FullTranscriptAir {
        counts: m.replay.counts.clone(),
        binds: m.replay.binds.clone(),
        index_binds: m.replay.index_binds.clone(),
    };
    let trace = ft_build_trace(&m.replay.block_inputs);
    let mut pis = m.challenge_felts();
    pis.extend(&felts);
    let (cs, per) = (air.eval(), air.periodic());
    assert!(met(&cs, &trace, &per, &pis));
    assert!(!met(&cs, &trace, &per, &bumped(&pis, 4)));
    assert!(!met(&cs, &trace, &per, &bumped(&pis, pis.len() - 1)));
}

#[test]
fn phase3_deep_point_matches_native() {
    let g = Goldilocks::two_adic_generator(DP_LOG_HEIGHT);
    for index in [0b1011010011usize, 0, 1, (1 << DP_LOG_HEIGHT) - 1, 0b0110100101] {
        let rev = index.reverse_bits() >> (usize::BITS as usize - DP_LOG_HEIGHT);
        let x = (Goldilocks::GENERATOR * g.exp_u64(rev as u64)).as_canonical_u64();
        let trace = dp_build_trace(index as u64);
        let cs = DeepPointAir.eval();
        assert!(met(&cs, &trace, &[], &[x]));
        assert!(!met(&cs, &trace, &[], &[red(x as u128 + 1)]));
        assert_eq!(fmul(GENERATOR, subgroup_point(index, DP_LOG_HEIGHT)), x);
    }
}

#[test]
fn phase3_reduced_opening_matches_native() {
    let m = Milestone::new(1);
    for q in SOME {
        let (terms, x, alpha, ro) = m.terms(q);
        let air = MroAir { n_terms: terms.len() };
        let trace = mro_build_trace(&terms, x, alpha);
        let pis = pair(ro);
        let cs = air.eval();
        assert!(met(&cs, &trace, &[], &pis));
        assert!(!met(&cs, &trace, &[], &bumped(&pis, 0)));
    }
}

#[test]
fn phase3_fold_chain_matches_native() {
    let m = Milestone::new(1);
    for q in SOME {
        let (ro, rounds, folded, final0) = m.folds(q);
        assert!(same(folded, final0));
        let trace = qf_build_trace(ro, &rounds);
        let pis = vec![ro.c0, ro.c1, folded.c0, folded.c1];
        let cs = QueryFoldAir.eval();
        assert!(met(&cs, &trace, &[], &pis));
        assert!(!met(&cs, &trace, &[], &bumped(&pis, 2)));
    }
}

#[test]
fn phase4_input_tile_matches_native() {
    let m = Milestone::new(1);
    for q in SOME {
        let query = m.query(q);
        let air = QueryInputTileAir { n_terms: query.terms.len() };
        let trace = qi_build_trace(&query);
        let pis = pair(query.ro);
        let cs = air.eval();
        assert!(met(&cs, &trace, &[], &pis));
        assert!(!met(&cs, &trace, &[], &bumped(&pis, 0)));
    }
}

#[test]
fn phase4_query_tile_matches_native() {
    let m = Milestone::new(1);
    for q in SOME {
        let query = m.query(q);
        let (ro2, _, folded, final0) = m.folds(q);
        assert!(same(query.ro, ro2));
        assert!(same(folded, final0));
        let air = QueryTileAir { n_terms: query.terms.len() };
        let trace = qt_build_trace(&query);
        let pis = pair(final0);
        let cs = air.eval();
        assert!(met(&cs, &trace, &[], &pis));
        assert!(!met(&cs, &trace, &[], &bumped(&pis, 0)));
    }
}

fn opening_met(leaf: Digest, path: &[(Digest, bool)], root: Digest) -> bool {
    let mut pis = leaf.to_vec();
    pis.extend(root);
    let trace = fri_merkle::build_trace(leaf, path);
    met(&FriMerkleAir.eval(), &trace, &FriMerkleAir.periodic_columns(), &pis)
}

#[test]
fn phase4_input_merkle_matches_proof() {
    let m = Milestone::new(1);
    for q in SOME {
        let (leaf, path, entry) = m.input_merkle(q);
        assert!(opening_met(leaf, &path, entry));
        let mut bad = entry;
        bad[0] = red(bad[0] as u128 + 1);
        assert!(!opening_met(leaf, &path, bad));
    }
}

#[test]
fn phase4_commit_merkle_matches_proof() {
    let m = Milestone::new(1);
    for q in SOME {
        let (_, leaf, path, entry) = m.commit_merkle(q).swap_remove(1);
        assert!(opening_met(leaf, &path, entry));
        let mut bad = entry;
        bad[0] = red(bad[0] as u128 + 1);
        assert!(!opening_met(leaf, &path, bad));
    }
}

#[test]
fn phase4_tiled_query_matches_native() {
    let m = Milestone::new(1);
    let per_query: Vec<Query> = (0..MILESTONE_QUERIES).map(|q| m.query(q)).collect();
    let n_terms = per_query[0].terms.len();
    let final0 = m.proof.fri.final_poly[0];
    for q in 0..MILESTONE_QUERIES {
        assert!(same(m.folds(q).2, final0));
    }
    let air = TiledQueryAir { n_queries: MILESTONE_QUERIES, n_terms };
    let trace = tq_build_trace(n_terms, &per_query);
    let pis = pair(final0);
    let (cs, per) = (air.eval(), air.periodic());
    assert!(met(&cs, &trace, &per, &pis));
    assert!(!met(&cs, &trace, &per, &bumped(&pis, 0)));
}

#[test]
fn phase4_skeleton_layout() {
    let (trace, out) = skeleton_build_trace();
    let pis = pair(out);
    let (cs, per) = (MonolithSkeletonAir.eval(), MonolithSkeletonAir.periodic());
    assert!(met(&cs, &trace, &per, &pis));
    assert!(!met(&cs, &trace, &per, &bumped(&pis, 0)));
    assert!(MonolithSkeletonAir.height() <= 1 << 18);
}

#[test]
fn phase4a_carrier_binding() {
    let (trace, v) = carry_build_trace();
    let pis = pair(v);
    let (cs, per) = (CarryBindAir.eval(), CarryBindAir.periodic());
    assert!(met(&cs, &trace, &per, &pis));
    assert!(!met(&cs, &trace, &per, &bumped(&pis, 0)));
}

#[test]
fn phase4a_fusion_alpha_carrier() {
    let m = Milestone::new(1);
    let per_query: Vec<Query> = (0..MILESTONE_QUERIES).map(|q| m.query(q)).collect();
    let n_terms = per_query[0].terms.len();
    let air = Phase4AAir {
        counts: m.replay.counts.clone(),
        binds: m.replay.binds.clone(),
        index_binds: m.replay.index_binds.clone(),
        n_queries: MILESTONE_QUERIES,
        n_terms,
    };
    let mut pis = m.challenge_felts();
    pis.extend(&m.replay.index_felts);
    pis.extend(pair(m.proof.fri.final_poly[0]));
    let trace = phase4a_build_trace(
        &air,
        &m.replay.block_inputs,
        &per_query,
        m.replay.challenges[2],
        &m.replay.index_felts,
    );
    let (cs, per) = (air.eval(), air.periodic());
    assert!(met(&cs, &trace, &per, &pis));
    assert!(!met(&cs, &trace, &per, &bumped(&pis, 4)));
    assert!(!met(&cs, &trace, &per, &bumped(&pis, 6)));
    assert!(!met(&cs, &trace, &per, &bumped(&pis, 2 * m.replay.challenges.len())));
    assert!(air.height() <= 1 << 18);
}

#[test]
fn phase4a_index_bind_matches_native() {
    let m = Milestone::new(1);
    for q in SOME {
        let (_, native_x, _, _) = m.terms(q);
        let (trace, x) = ib_build_trace(m.replay.index_felts[q]);
        assert_eq!(x, native_x);
        let pis = vec![m.replay.index_felts[q], x];
        let cs = IndexBindAir.eval();
        assert!(met(&cs, &trace, &[], &pis));
        assert!(!met(&cs, &trace, &[], &bumped(&pis, 1)));
    }
    let non_canon = Goldilocks::from_u64(0xFFFF_FFFF_0000_0001);
    assert_ne!(non_canon.as_canonical_u64(), 0xFFFF_FFFF_0000_0001);
}

#[test]
fn phase4a_fold_point_matches_native() {
    let m = Milestone::new(1);
    for q in SOME {
        let (_, rounds, _, _) = m.folds(q);
        let air = FoldPointAir { n_rounds: rounds.len() };
        let trace = fp_build_trace(rounds.len(), m.index(q) as u64);
        let mut pis = vec![m.index(q) as u64];
        pis.extend(rounds.iter().map(|r| r.s));
        let cs = air.eval();
        assert!(met(&cs, &trace, &[], &pis));
        assert!(!met(&cs, &trace, &[], &bumped(&pis, 1)));
    }
}

#[test]
fn phase4b_cap_mux_matches_native() {
    let m = Milestone::new(1);
    let cap = &m.proof.trace_cap;
    assert_eq!(cap.len(), 1 << CM_CAP_HEIGHT);
    let depth = m.log_global - CM_CAP_HEIGHT;
    let n = 1u64 << CM_CAP_HEIGHT;
    let cs = CapMuxAir.eval();
    for q in SOME {
        let high = m.index(q) >> depth;
        assert_eq!(cap[high], m.input_merkle(q).2);
        let mut pis: Vec<u64> = (0..4 * n).map(|i| i + 1).collect();
        pis.extend((0..4).map(|l| high as u64 * 4 + l + 1));
        assert!(met(&cs, &cm_build_trace(high as u64), &[], &pis));
        assert!(!met(&cs, &cm_build_trace((high ^ 1) as u64), &[], &pis));
    }
}

#[test]
fn phase4b_input_merkle_tile_matches_native() {
    let m = Milestone::new(1);
    let (cs, per) = (InputMerkleTileAir.eval(), InputMerkleTileAir.periodic());
    for q in SOME {
        let v = m.opened_value(q);
        let (_, path, entry) = m.input_merkle(q);
        assert_eq!(path.len(), IMT_DEPTH);
        let (trace, terminal) = im_build_trace(v, &path);
        assert_eq!(terminal, entry);
        let mut pis = vec![v];
        pis.extend(entry);
        assert!(met(&cs, &trace, &per, &pis));
        assert!(!met(&cs, &trace, &per, &bumped(&pis, 0)));
    }
}

#[test]
fn phase4b_super_tile_matches_native() {
    let m = Milestone::new(1);
    let air = SuperTileAir { n_queries: 1 };
    let (cs, per) = (air.eval(), air.periodic());
    for q in SOME {
        let query = m.query(q);
        let v = m.opened_value(q);
        assert_eq!(query.terms[0].px, v);
        let (_, path, entry) = m.input_merkle(q);
        let trace = st_build_trace(&vec![TileQuery { query, v, path }]);
        let mut pis = pair(m.proof.fri.final_poly[0]);
        pis.extend(entry);
        assert!(met(&cs, &trace, &per, &pis));
        assert!(!met(&cs, &trace, &per, &bumped(&pis, 0)));
        assert!(!met(&cs, &trace, &per, &bumped(&pis, 2)));
    }
}

#[test]
fn phase4b_commit_merkle_tile_matches_native() {
    let m = Milestone::new(1);
    let (cs, per) = (CommitMerkleTileAir.eval(), CommitMerkleTileAir.periodic());
    for q in SOME {
        let (group, _, path, entry) = m.commit_merkle(q).swap_remove(1);
        let (trace, terminal) = cm2_build_trace(group, &path);
        assert_eq!(terminal, entry);
        let mut pis = group.to_vec();
        pis.extend(entry);
        assert!(met(&cs, &trace, &per, &pis));
        assert!(!met(&cs, &trace, &per, &bumped(&pis, 0)));
    }
}

#[test]
fn phase4b_tiled_super_tile_matches_native() {
    let m = Milestone::new(1);
    let air = SuperTileAir { n_queries: MILESTONE_QUERIES };
    let entry0 = m.input_merkle(0).2;
    let per_query: Vec<TileQuery> = (0..MILESTONE_QUERIES)
        .map(|q| {
            let (_, path, entry) = m.input_merkle(q);
            assert_eq!(entry, entry0);
            TileQuery { query: m.query(q), v: m.opened_value(q), path }
        })
        .collect();
    let trace = st_build_trace(&per_query);
    let mut pis = pair(m.proof.fri.final_poly[0]);
    pis.extend(entry0);
    let (cs, per) = (air.eval(), air.periodic());
    assert!(met(&cs, &trace, &per, &pis));
    assert!(!met(&cs, &trace, &per, &bumped(&pis, 0)));
}

#[test]
fn phase4d_quotient_merkle_structure() {
    let m = Milestone::new(1);
    for q in SOME {
        let (leaf, path, entry, _) = m.quotient_merkle(q);
        assert!(opening_met(leaf, &path, entry));
    }
}

#[test]
fn phase4d_monolith_input_fusion() {
    let m = Milestone::new(1);
    let tiles: Vec<TileOpenings> = (0..MILESTONE_QUERIES).map(|q| m.tile(q)).collect();
    let (cap0, qcap0) = (m.input_merkle(0).2, m.quotient_merkle(0).2);
    let ccap0: Vec<Digest> = m.commit_merkle(0).iter().map(|c| c.3).collect();
    assert_eq!(ccap0.len(), CM_ROUNDS);
    for q in 0..MILESTONE_QUERIES {
        let row = &m.proof.fri.query_proofs[q].input_proof[1].opened_values[0];
        let terms = &tiles[q].query.terms;
        assert_eq!((terms[2].px, terms[3].px), (row[0], row[1]));
        assert_eq!(m.input_merkle(q).2, cap0);
        assert_eq!(m.quotient_merkle(q).2, qcap0);
        let ccap: Vec<Digest> = m.commit_merkle(q).iter().map(|c| c.3).collect();
        assert_eq!(ccap, ccap0);
    }
    let air = MonolithAir {
        counts: m.replay.counts.clone(),
        binds: m.replay.binds.clone(),
        index_binds: m.replay.index_binds.clone(),
        n_queries: MILESTONE_QUERIES,
        n_terms: tiles[0].query.terms.len(),
    };
    let mut pis = m.challenge_felts();
    pis.extend(&m.replay.index_felts);
    pis.extend(pair(m.proof.fri.final_poly[0]));
    pis.extend(cap0);
    pis.extend(qcap0);
    pis.push(m.pvs[0]);
    let ccap_base = pis.len();
    for c in &ccap0 {
        pis.extend(c);
    }
    let alpha = m.replay.challenges[2];
    let trace = monolith_build_trace(
        &air,
        &m.replay.block_inputs,
        &tiles,
        alpha,
        &m.replay.index_felts,
    );
    let (cs, per) = (air.eval(), air.periodic());
    let n_ch = m.replay.challenges.len();
    assert!(met(&cs, &trace, &per, &pis));
    assert!(!met(&cs, &trace, &per, &bumped(&pis, 4)));
    assert!(!met(&cs, &trace, &per, &bumped(&pis, 2 * n_ch)));
    assert!(!met(&cs, &trace, &per, &bumped(&pis, 2 * n_ch + m.replay.index_felts.len() + 2)));
    assert!(!met(&cs, &trace, &per, &bumped(&pis, ccap_base - 1)));
    assert!(!met(&cs, &trace, &per, &bumped(&pis, ccap_base)));
    assert!(air.height() <= 1 << 18);
}

/// The fused system of a proof, with its public values.
fn fused(m: &Milestone) -> (MonolithAir, Vec<TileOpenings>, Vec<u64>) {
    let tiles: Vec<TileOpenings> = (0..MILESTONE_QUERIES).map(|q| m.tile(q)).collect();
    let air = MonolithAir {
        counts: m.replay.counts.clone(),
        binds: m.replay.binds.clone(),
        index_binds: m.replay.index_binds.clone(),
        n_queries: MILESTONE_QUERIES,
        n_terms: tiles[0].query.terms.len(),
    };
    let mut pis = m.challenge_felts();
    pis.extend(&m.replay.index_felts);
    pis.extend(pair(m.proof.fri.final_poly[0]));
    pis.extend(m.input_merkle(0).2);
    pis.extend(m.quotient_merkle(0).2);
    pis.push(m.pvs[0]);
    for c in m.commit_merkle(0) {
        pis.extend(c.3);
    }
    (air, tiles, pis)
}

#[test]
fn an_accepted_proof_fills_the_fused_trace() {
    let m = Milestone::new(1);
    let params = build_params(1, MILESTONE_QUERIES);
    assert_eq!(verify_proof_with(&params, &m.proof, &m.pvs), Ok(()));
    let (air, tiles, pis) = fused(&m);
    assert!(tiles.iter().all(|t| t.is_fit(4)));
    let alpha = m.replay.challenges[2];
    let trace = monolith_build_trace(
        &air,
        &m.replay.block_inputs,
        &tiles,
        alpha,
        &m.replay.index_felts,
    );
    let (cs, per) = (air.eval(), air.periodic());
    assert!(met(&cs, &trace, &per, &pis));
}

#[test]
fn a_trace_has_its_own_public_values() {
    let m = Milestone::new(1);
    let (air, tiles, pis) = fused(&m);
    let trace = monolith_build_trace(
        &air,
        &m.replay.block_inputs,
        &tiles,
        m.replay.challenges[2],
        &m.replay.index_felts,
    );
    let (cs, per) = (air.eval(), air.periodic());
    let n = 2 * m.replay.challenges.len();
    let end = n + m.replay.index_felts.len();
    for i in [0, n - 1, n, end - 1, end, end + 1, end + 2, end + 9, end + 10, pis.len() - 1] {
        assert!(!met(&cs, &trace, &per, &bumped(&pis, i)));
    }
}

#[test]
fn chunks_of_the_fused_trace_make_it_up() {
    let m = Milestone::new(1);
    let tiles: Vec<TileOpenings> = (0..MILESTONE_QUERIES).map(|q| m.tile(q)).collect();
    let air = MonolithAir {
        counts: m.replay.counts.clone(),
        binds: m.replay.binds.clone(),
        index_binds: m.replay.index_binds.clone(),
        n_queries: MILESTONE_QUERIES,
        n_terms: tiles[0].query.terms.len(),
    };
    let (blocks, alpha) = (&m.replay.block_inputs, m.replay.challenges[2]);
    let resident =
        try_monolith_build_trace(&air, blocks, &tiles, alpha, &m.replay.index_felts).unwrap();
    let mut streamed = vec![vec![0; air.fused_w()]; resident.len()];
    for range in monolith_trace_row_ranges(&air) {
        let emitted = emit_range(&air, blocks, &tiles, alpha, &m.replay.index_felts, range);
        for (i, row) in emitted.into_iter().enumerate() {
            streamed[range.start_row + i] = row;
        }
    }
    assert_eq!(streamed, resident);
}

/// Where the parts of a tile stand in the fused trace.
fn milestone_layout(air: &MonolithAir) -> WindowLayout {
    let sb_x = 31 + 9 * air.n_terms;
    WindowLayout {
        segment: SegmentLayout {
            width: air.fused_w(),
            m_period: 736,
            lg: 10,
            rounds: 6,
            is_zk: false,
            full_cap: false,
            sb_x,
            idx_rem: sb_x + 96,
            m_sib: 8,
            m_bit: 12,
            ov_c: sb_x + 99,
            ov_random: 0,
            qc: sb_x + 100,
            cg: sb_x + 102,
            cap_c: 0,
            committed_w: 1,
            random_w: 0,
            nqc: 1,
            chunk_w: 2,
            trm_trace: 0,
            trm_quot: 2,
            random_leaf_blocks: 0,
            m_input_leaf: 1,
            leaf_blocks: 1,
            m_quot_leaf: 6,
            quot_leaf_blocks: 1,
            cm_leaf: vec![11, 15, 18, 20, 21, 22],
            cm_leaf_blocks: 1,
        },
        carry: sb_x + 97,
        column_window: false,
        pw: 0,
        sel_base: 0,
        height: air.height(),
    }
}

#[test]
fn any_geometry_gives_the_fused_trace() {
    let m = Milestone::new(1);
    let tiles: Vec<TileOpenings> = (0..MILESTONE_QUERIES).map(|q| m.tile(q)).collect();
    let air = MonolithAir {
        counts: m.replay.counts.clone(),
        binds: m.replay.binds.clone(),
        index_binds: m.replay.index_binds.clone(),
        n_queries: MILESTONE_QUERIES,
        n_terms: tiles[0].query.terms.len(),
    };
    let (blocks, alpha) = (&m.replay.block_inputs, m.replay.challenges[2]);
    let fused = monolith_build_trace(&air, blocks, &tiles, alpha, &m.replay.index_felts);
    let none = vec![];
    let source = MonolithTraceSource {
        block_inputs: blocks,
        per_query: tiles.iter().collect(),
        hiding: None,
        alpha_fri: alpha,
        index_felts: &m.replay.index_felts,
        pub_window: &none,
        selector_window: &none,
    };
    let layout = milestone_layout(&air);
    let rows = emit_all_ranges(&source, &layout);
    assert_eq!(rows.len(), fused.len());
    for (r, (a, b)) in rows.iter().zip(&fused).enumerate() {
        assert_eq!(a, b, "row {r}");
    }
    let tile = fill_monolith_query_segment(&layout.segment, &tiles[1], m.replay.index_felts[1], None);
    assert_eq!(tile.len(), 736);
    assert_eq!(tile[40][..8], fused[air.tr() + 736 + 40][..8]);
}

#[test]
fn phase4d_commit_merkle_structure() {
    let m = Milestone::new(1);
    let hasher = Sponge::new(default_goldilocks_poseidon2_8());
    for q in 0..MILESTONE_QUERIES {
        let all = m.commit_merkle(q);
        let depths: Vec<usize> = all.iter().map(|(_, _, p, _)| p.len()).collect();
        assert_eq!(depths, vec![3, 2, 1, 0, 0, 0]);
        for (group, leaf, _, _) in &all {
            let h: [Goldilocks; 4] = hasher.hash_iter(group.map(Goldilocks::new));
            assert_eq!(&digest(&h), leaf);
        }
    }
    let blocks: usize = m.commit_merkle(0).iter().map(|(_, _, p, _)| 1 + p.len()).sum();
    assert_eq!(blocks, 12);
}

#[test]
fn arity4_probe() {
    let config = make_config(2, MILESTONE_QUERIES);
    let proof = gen_const_proof(&config, 42, 6);
    assert!(verify(&config, &Const, &proof, &[Goldilocks::from_u64(42)]).is_ok());
    let params = build_params(2, MILESTONE_QUERIES);
    assert_eq!(verify_proof_with(&params, &plain(&proof), &[42]), Ok(()));
}

#[test]
fn phase5_general_fold_matches_p3() {
    let m = Milestone::new(2);
    for q in [0usize, 1, MILESTONE_QUERIES / 2, MILESTONE_QUERIES - 1] {
        let (_, _, _, ro) = m.terms(q);
        let openings = &m.proof.fri.query_proofs[q].commit_phase_openings;
        for d in general_fold_data(openings, &m.betas(), m.index(q), m.log_global, ro) {
            assert_eq!(d.xs.len(), 4);
            let air = GeneralFoldAir { log_arity: 2 };
            let pis = pair(d.folded);
            let trace = build_general_fold_trace(2, &d.evals, d.beta, &d.xs, d.folded);
            let cs = air.eval();
            assert!(met(&cs, &trace, &[], &pis));
            assert!(!met(&cs, &trace, &[], &bumped(&pis, 0)));
        }
    }
}

#[test]
fn phase5_general_leaf_matches_myhash() {
    let m = Milestone::new(2);
    let hasher = Sponge::new(default_goldilocks_poseidon2_8());
    for q in SOME {
        let (_, _, _, ro) = m.terms(q);
        let openings = &m.proof.fri.query_proofs[q].commit_phase_openings;
        for d in general_fold_data(openings, &m.betas(), m.index(q), m.log_global, ro) {
            let group: Vec<u64> = d.evals.iter().flat_map(|e| [e.c0, e.c1]).collect();
            assert_eq!(group.len(), 8);
            let leaf: [Goldilocks; 4] =
                hasher.hash_iter(group.iter().map(|x| Goldilocks::new(*x)));
            let air = GeneralLeafHashAir { n_felts: group.len() };
            let mut pis = group.clone();
            pis.extend(digest(&leaf));
            let trace = build_general_leaf_trace(group.len(), &group);
            let (cs, per) = (air.eval(), air.periodic());
            assert!(met(&cs, &trace, &per, &pis));
            assert!(!met(&cs, &trace, &per, &bumped(&pis, pis.len() - 1)));
        }
    }
}

#[test]
fn epilogue_probe() {
    let m = Milestone::new(1);
    let (alpha, zeta) = (m.opened.alpha, m.opened.zeta);
    let (s, quotient) = epilogue_at(&m.proof, zeta, 6, 6, 0, 1);
    let one = Challenge { c0: 1, c1: 0 };
    let z = Pair::new([Goldilocks::new(zeta.c0), Goldilocks::new(zeta.c1)]);
    let z_h = z.exp_power_of_2(6) - Pair::ONE;
    let g_inv = Goldilocks::two_adic_generator(6).inverse();
    assert!(same(s.is_first, ext(&(z_h * (z - Pair::ONE).inverse()))));
    assert!(same(s.is_transition, ext(&(z - g_inv))));
    assert!(same(s.is_last, ext(&(z_h * (z - g_inv).inverse()))));
    assert!(same(s.inv_van, ext(&z_h.inverse())));
    assert_eq!(inverse(Goldilocks::two_adic_generator(6).as_canonical_u64()), g_inv.as_canonical_u64());

    let chunks = &m.proof.quotient_chunks;
    assert_eq!(chunks.len(), 1);
    let x = Challenge { c0: 0, c1: 1 };
    let recomp = eadd(chunks[0][0], emul(chunks[0][1], x));
    assert!(same(recomp, quotient));

    let (local, next) = (m.proof.trace_local[0], m.proof.trace_next.as_ref().unwrap()[0]);
    let pv = Challenge { c0: 42, c1: 0 };
    let c0 = emul(s.is_first, esub(local, pv));
    let c1 = emul(s.is_transition, esub(next, local));
    let folded = eadd(emul(c0, alpha), c1);
    assert!(same(emul(folded, s.inv_van), quotient));
    assert!(!same(one, quotient));

    let (terms, _, _, _) = m.terms(0);
    let g = Goldilocks::two_adic_generator(6).as_canonical_u64();
    assert!(same(terms[0].z, zeta));
    assert!(same(terms[1].z, escale(zeta, g)));
    assert!(same(terms[2].z, zeta) && same(terms[3].z, zeta));
    assert!(same(terms[0].pz, local) && same(terms[1].pz, next));
    assert!(same(terms[2].pz, chunks[0][0]) && same(terms[3].pz, chunks[0][1]));
}

#[test]
fn several_chunks_are_weighted() {
    let m = Milestone::new(1);
    let zeta = m.opened.zeta;
    let c = |a: u64, b: u64| Challenge { c0: a, c1: b };
    let mut p = m.proof;
    p.quotient_chunks = vec![vec![c(3, 0), c(5, 0)], vec![c(10, 0), c(16, 0)]];
    let (_, quotient) = epilogue_at(&p, zeta, 5, 6, 1, 2);
    // The cosets are those of the subgroup of order 32, shifted by 7 and by 7 g.
    let z = Pair::new([Goldilocks::new(zeta.c0), Goldilocks::new(zeta.c1)]);
    let g = Goldilocks::two_adic_generator(6);
    let s0 = Goldilocks::GENERATOR;
    let s1 = s0 * g;
    let van = |x: Pair, s: Goldilocks| (x * s.inverse()).exp_power_of_2(5) - Pair::ONE;
    let w0 = van(z, s1) * van(Pair::from(s0), s1).inverse();
    let w1 = van(z, s0) * van(Pair::from(s1), s0).inverse();
    let v0 = Pair::new([Goldilocks::new(3), Goldilocks::new(5)]);
    let v1 = Pair::new([Goldilocks::new(10), Goldilocks::new(16)]);
    assert!(same(quotient, ext(&(w0 * v0 + w1 * v1))));
}

#[test]
fn native_fri_verify_agrees_with_p3() {
    let config = make_config(4, 96);
    let proof = gen_const_proof(&config, 42, 6);
    assert!(verify(&config, &Const, &proof, &[Goldilocks::from_u64(42)]).is_ok());
    assert_eq!(verify_proof(&plain(&proof), &[42]), Ok(()));
    assert!(verify(&config, &Const, &proof, &[Goldilocks::from_u64(43)]).is_err());
    assert!(verify_proof(&plain(&proof), &[43]).is_err());

    let mut p2 = plain(&proof);
    let s = &mut p2.fri.query_proofs[0].commit_phase_openings[0].sibling_values[0];
    s.c0 = red(s.c0 as u128 + 1);
    assert!(verify_proof(&p2, &[42]).is_err());

    let mut p3 = plain(&proof);
    let s = &mut p3.fri.final_poly[0];
    s.c0 = red(s.c0 as u128 + 1);
    assert!(verify_proof(&p3, &[42]).is_err());
}

#[test]
fn the_frozen_test_takes_its_queries_and_smaller_folds() {
    let pvs = [Goldilocks::from_u64(42)];
    // Smaller folds are within the frozen bound.
    let config = make_config(1, 96);
    let proof = gen_const_proof(&config, 42, 6);
    assert!(verify(&config, &Const, &proof, &pvs).is_ok());
    assert_eq!(verify_proof(&plain(&proof), &[42]), Ok(()));
    // Another number of queries is not what the test is frozen to.
    let config = make_config(4, 95);
    let proof = gen_const_proof(&config, 42, 6);
    assert!(verify(&config, &Const, &proof, &pvs).is_ok());
    assert_eq!(
        verify_proof(&plain(&proof), &[42]),
        Err(ProofError::Fri(FriError::QueryCount))
    );
    assert_eq!(verify_proof_with(&build_params(4, 95), &plain(&proof), &[42]), Ok(()));
}

#[test]
fn proofs_are_refused_for_their_parts() {
    let config = make_config(1, 4);
    let proof = gen_const_proof(&config, 42, 6);
    let params = build_params(1, 4);
    let ok = || plain(&proof);
    assert_eq!(verify_proof_with(&params, &ok(), &[42]), Ok(()));

    let mut p = ok();
    p.degree_bits = 33;
    assert_eq!(
        verify_proof_with(&params, &p, &[42]),
        Err(ProofError::DegreeBitsTooLarge { maximum: 32, got: 33 })
    );
    let mut p = ok();
    p.trace_next = None;
    assert_eq!(verify_proof_with(&params, &p, &[42]), Err(ProofError::MissingTraceNext));
    let mut p = ok();
    // A random commitment belongs to hiding proofs: here nothing reads it.
    p.random_cap = Some(vec![[0; 4]]);
    assert_eq!(verify_proof_with(&params, &p, &[42]), Ok(()));
    let mut p = ok();
    p.fri.query_proofs.pop();
    assert_eq!(verify_proof_with(&params, &p, &[42]), Err(ProofError::Fri(FriError::QueryCount)));
    let mut p = ok();
    p.fri.query_pow_witness ^= 1;
    assert_eq!(verify_proof_with(&params, &p, &[42]), Err(ProofError::Fri(FriError::QueryPow)));
    let mut p = ok();
    p.fri.query_proofs[2].input_proof[1].path[0][3] ^= 1;
    assert_eq!(verify_proof_with(&params, &p, &[42]), Err(ProofError::Fri(FriError::InputMerkle)));
    let mut p = ok();
    p.fri.query_proofs[1].commit_phase_openings[2].path[0][0] ^= 1;
    assert_eq!(
        verify_proof_with(&params, &p, &[42]),
        Err(ProofError::Fri(FriError::CommitMerkle { round: 2 }))
    );
    let mut p = ok();
    p.fri.query_proofs[1].commit_phase_openings[2].sibling_values.clear();
    assert_eq!(
        verify_proof_with(&params, &p, &[42]),
        Err(ProofError::Fri(FriError::SiblingCount { round: 2 }))
    );
    let mut p = ok();
    p.fri.query_proofs[1].input_proof[0].opened_values.clear();
    assert_eq!(verify_proof_with(&params, &p, &[42]), Err(ProofError::Fri(FriError::OpenedCount)));
    let mut p = ok();
    p.fri.query_proofs[1].input_proof.pop();
    assert_eq!(verify_proof_with(&params, &p, &[42]), Err(ProofError::Fri(FriError::BatchCount)));
    let mut p = ok();
    p.fri.query_proofs[1].commit_phase_openings.pop();
    assert_eq!(verify_proof_with(&params, &p, &[42]), Err(ProofError::Fri(FriError::OpeningCount)));
    let mut p = ok();
    p.fri.final_poly.push(Challenge { c0: 0, c1: 0 });
    assert_eq!(verify_proof_with(&params, &p, &[42]), Err(ProofError::Fri(FriError::FinalPolyLength)));
}

#[test]
fn windows_show_what_a_proof_holds() {
    let m = Milestone::new(1);
    let n = m.replay.challenges.len();
    let caps = 4 * (2 * 64 + m.proof.fri.commit_phase_commits.iter().map(|c| c.len()).sum::<usize>());
    let shape = WindowShape {
        log_blowup: 4,
        num_quotient_chunks: 1,
        pis_count: 2 * n + MILESTONE_QUERIES + 2 + caps + 1,
        m_period: 736,
        fused_w: 100,
        limit_felts: 1 << 20,
        fold_chunk: 8,
    };
    let (s, _) = epilogue_at(&m.proof, m.opened.zeta, 6, 6, 0, 1);
    let inputs = WindowInputs {
        coms: opening_rounds(&m.proof, &mut Challenger::new(), 6, &m.pvs, true, 1, false).unwrap().coms,
        base_degree_bits: 6,
        public_values: m.pvs.clone(),
        periodic: vec![],
        weights: vec![],
        is_first: s.is_first,
        is_last: s.is_last,
        inv_van: s.inv_van,
        constraints: vec![],
    };
    let w = build_symbolic_inner_window(&m.proof, &inputs, &shape, 6).unwrap();
    assert_eq!(w.pub_window.len(), shape.pis_count);
    assert_eq!(w.pub_window[..2 * n], m.challenge_felts()[..]);
    assert_eq!(w.n_terms, 4);
    assert_eq!(w.selector_window.len(), 6);
    assert_eq!(w.queries.len(), MILESTONE_QUERIES);
    for (q, t) in w.queries.iter().enumerate() {
        assert_eq!(t.path, m.input_merkle(q).1);
        assert_eq!(t.quot_path, m.quotient_merkle(q).1);
        assert_eq!(t.query.index, m.index(q) as u64);
        assert!(same(t.query.ro, m.terms(q).3));
        let groups: Vec<Digest> = t.commits.iter().map(|c| c.group).collect();
        let want: Vec<Digest> = m.commit_merkle(q).iter().map(|c| c.0).collect();
        assert_eq!(groups, want);
    }
    let short = WindowShape { pis_count: 3, ..shape };
    assert!(build_symbolic_inner_window(&m.proof, &inputs, &short, 6).is_none());
}

#[test]
fn final_points_and_polynomials() {
    let m = Milestone::new(1);
    let index = m.index(0) >> 6;
    let x = final_query_point(index, 4);
    let g = Goldilocks::two_adic_generator(4);
    let rev = index.reverse_bits() >> (usize::BITS as usize - 4);
    assert_eq!((x.c0, x.c1), (g.exp_u64(rev as u64).as_canonical_u64(), 0));
    let c = |a: u64| Challenge { c0: a, c1: 0 };
    let v = eval_final_poly(&[c(2), c(3), c(5)], c(10));
    assert_eq!((v.c0, v.c1), (532, 0));
    let _ = ConstAir.eval();
}
