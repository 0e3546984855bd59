use lattica_prover_p3::bits::{bit_at, reverse_bits_len, shift_index, shift_right};
use lattica_prover_p3::challenger::{Challenger, Sim};
use lattica_prover_p3::cols::{hot_col, next_power_of_two, range_col};
use lattica_prover_p3::field::{
    eadd, eeq, einverse, emul, escale, esub, exp_power_of_2, fadd, fcanon, feq, fmul, fsub,
    generator_table, inverse, Challenge, P, W_EXT,
};
use lattica_prover_p3::fri_fold::{inverse_of_double, native_fold};
use lattica_prover_p3::fri_merkle::{build_tree, opening};
use lattica_prover_p3::fri_query::{build_group, esquare};
use lattica_prover_p3::merkle::{fold_path, merge, ordered, Digest};
use lattica_prover_p3::mmcs::{hash_row, path_of};
use lattica_prover_p3::monolith::fused::{
    cm_leaf, cm_term, CM_ROUNDS, M_INPUT_TERM, M_NBLOCKS, M_QUOT_TERM,
};
use lattica_prover_p3::monolith::geometry::{
    commit_layout, hiding_commit_layout, trace_row_ranges, MonolithTracePart,
};
use lattica_prover_p3::native_fri::{eval_final_poly, fpow, log2_strict, reverse_slice_index_bits};
use lattica_prover_p3::poseidon2::{
    ext_linear, int_linear, native_permute, native_steps, periodic_table, pow7,
};
use lattica_prover_p3::query_data::fold_coset;
use lattica_prover_p3::spend_common::{
    self, build_paths, empty_hashes, nullifier, pos_of, recipient_of, Domains,
};
use lattica_prover_p3::transcript::native_sponge;
use p3_challenger::{CanObserve, CanSample, DuplexChallenger, FieldChallenger};
use p3_field::extension::BinomialExtensionField;
use p3_field::{BasedVectorSpace, Field, PrimeCharacteristicRing, PrimeField64, TwoAdicField};
use p3_goldilocks::{default_goldilocks_poseidon2_8, Goldilocks, Poseidon2Goldilocks};
use p3_symmetric::{CryptographicHasher, PaddingFreeSponge, Permutation};

type Pair = BinomialExtensionField<Goldilocks, 2>;

fn c(a: u64, b: u64) -> Challenge {
    Challenge { c0: a, c1: b }
}

fn p3(x: Challenge) -> Pair {
    Pair::new([Goldilocks::new(x.c0), Goldilocks::new(x.c1)])
}

fn same(a: Challenge, b: Pair) -> bool {
    p3(a) == b && a.c0 < P && a.c1 < P
}

#[test]
fn binomial_w_is_seven() {
    let x = c(0, 1);
    let sq = emul(x, x);
    assert_eq!((sq.c0, sq.c1), (W_EXT, 0));
    assert_eq!(W_EXT, 7);
}

#[test]
fn in_circuit_formula_matches_native() {
    let (e0, e1, beta, s) = (c(3, 5), c(11, 13), c(17, 19), 23u64);
    let inv2s = inverse(fmul(2, s));
    assert_eq!(inv2s, inverse_of_double(s));
    let half = inverse(2);
    let sum = eadd(e0, e1);
    let diff = esub(e0, e1);
    let prod = emul(diff, beta);
    let folded = eadd(escale(sum, half), escale(prod, inv2s));
    assert!(eeq(folded, native_fold(e0, e1, beta, s)));
    let sg = Goldilocks::new(s);
    let half = Goldilocks::TWO.inverse();
    let want = (p3(e0) + p3(e1)) * half
        + (p3(e0) - p3(e1)) * p3(beta) * (Goldilocks::TWO * sg).inverse();
    assert!(same(native_fold(e0, e1, beta, s), want));
}

fn leaf_of(i: u64) -> Digest {
    [1 + i * 7, 2 + i * 7, 3 + i * 7, 4 + i * 7]
}

#[test]
fn merge_matches_native_compression() {
    let (l, r) = (leaf_of(3), leaf_of(9));
    let mut s = [0; 8];
    s[..4].copy_from_slice(&l);
    s[4..].copy_from_slice(&r);
    assert_eq!(merge(l, r)[..], native_permute(s)[..4]);
}

#[test]
fn fidelity_native_sponge_matches_duplex_challenger() {
    for m in [1usize, 2, 3] {
        let blocks: Vec<[u64; 4]> =
            (0..m as u64).map(|j| [1 + 4 * j, 2 + 4 * j, 3 + 4 * j, 4 + 4 * j]).collect();
        let sq = native_sponge(&blocks);
        let mut ch = DuplexChallenger::<Goldilocks, Poseidon2Goldilocks<8>, 8, 4>::new(
            default_goldilocks_poseidon2_8(),
        );
        for blk in &blocks {
            for &x in blk {
                ch.observe(Goldilocks::new(x));
            }
        }
        let x: Pair = ch.sample_algebra_element();
        let coeffs: &[Goldilocks] = x.as_basis_coefficients_slice();
        assert_eq!(coeffs.len(), 2);
        assert_eq!(coeffs[0].as_canonical_u64(), sq[3]);
        assert_eq!(coeffs[1].as_canonical_u64(), sq[2]);
    }
}

const SAMPLES: [u64; 6] = [0, 1, 2, 0xFFFF_FFFF, P - 1, u64::MAX];

#[test]
fn the_field_is_that_of_p3() {
    for a in SAMPLES {
        assert_eq!(fcanon(a), Goldilocks::new(a).as_canonical_u64());
        for b in SAMPLES {
            let (x, y) = (Goldilocks::new(a), Goldilocks::new(b));
            assert_eq!(fadd(a, b), (x + y).as_canonical_u64());
            assert_eq!(fsub(a, b), (x - y).as_canonical_u64());
            assert_eq!(fmul(a, b), (x * y).as_canonical_u64());
            assert_eq!(feq(a, b), x == y);
        }
        if fcanon(a) != 0 {
            assert_eq!(inverse(a), Goldilocks::new(a).inverse().as_canonical_u64());
            assert_eq!(fmul(inverse(a), a), 1);
        }
        assert_eq!(exp_power_of_2(a, 5), Goldilocks::new(a).exp_power_of_2(5).as_canonical_u64());
        assert_eq!(fpow(a, 13), Goldilocks::new(a).exp_u64(13).as_canonical_u64());
    }
    assert!(feq(3, P + 3));
}

#[test]
fn the_extension_is_that_of_p3() {
    let (a, b) = (c(5, P - 2), c(u64::MAX, 9));
    assert!(same(eadd(a, b), p3(a) + p3(b)));
    assert!(same(esub(a, b), p3(a) - p3(b)));
    assert!(same(emul(a, b), p3(a) * p3(b)));
    assert!(same(einverse(a), p3(a).inverse()));
    assert!(same(escale(a, 11), p3(a) * Goldilocks::new(11)));
    assert!(same(esquare(a, 3), p3(a).exp_power_of_2(3)));
    let v = eval_final_poly(&[a, b, c(1, 1)], c(3, 4));
    let x = p3(c(3, 4));
    assert!(same(v, p3(a) + p3(b) * x + p3(c(1, 1)) * x * x));
}

#[test]
fn generators_square_to_the_one_before() {
    let table = generator_table();
    for (bits, g) in table.iter().enumerate() {
        assert_eq!(*g, Goldilocks::two_adic_generator(bits).as_canonical_u64());
        if bits > 0 {
            assert_eq!(fmul(*g, *g), table[bits - 1]);
        }
    }
    assert_eq!(table[1], P - 1);
}

#[test]
fn the_permutation_is_that_of_p3() {
    let perm = default_goldilocks_poseidon2_8();
    for s in [[0; 8], [1, 2, 3, 4, 5, 6, 7, 8], [P - 1, 7, u64::MAX, 0, 9, 1 << 40, 3, 5]] {
        let want = perm.permute(s.map(Goldilocks::new)).map(|x| x.as_canonical_u64());
        assert_eq!(native_permute(s), want);
        let steps = native_steps(s);
        assert_eq!(steps.len(), 32);
        assert_eq!(steps[31], want);
        assert_eq!(steps[0], s);
        assert_eq!(steps[1], ext_linear(s));
    }
    assert_eq!(pow7(3), 2187);
    assert_eq!(pow7(P - 1), P - 1);
    assert_eq!(periodic_table().len(), 11);
    assert_ne!(int_linear([1, 0, 0, 0, 0, 0, 0, 0]), [1, 0, 0, 0, 0, 0, 0, 0]);
}

#[test]
fn rows_are_hashed_as_p3_does() {
    let h = PaddingFreeSponge::<_, 8, 4, 4>::new(default_goldilocks_poseidon2_8());
    for n in 0..10u64 {
        let row: Vec<u64> = (1..=n).collect();
        let want: [Goldilocks; 4] = h.hash_iter(row.iter().map(|x| Goldilocks::new(*x)));
        assert_eq!(hash_row(&row), want.map(|x| x.as_canonical_u64()));
    }
}

#[test]
fn challengers_agree() {
    let mut native = DuplexChallenger::<Goldilocks, Poseidon2Goldilocks<8>, 8, 4>::new(
        default_goldilocks_poseidon2_8(),
    );
    let mut own = Challenger::new();
    let mut sim = Sim::new();
    for i in 0..23u64 {
        native.observe(Goldilocks::new(i * i));
        own.observe(i * i);
        sim.observe(i * i);
        if i % 5 == 3 {
            let x: Goldilocks = CanSample::<Goldilocks>::sample(&mut native);
            assert_eq!(own.sample(), x.as_canonical_u64());
            assert_eq!(sim.sample_base().0, x.as_canonical_u64());
        }
        if i % 7 == 2 {
            let x: Pair = native.sample_algebra_element();
            assert!(same(own.sample_ext(), x));
            assert!(same(sim.sample_ext().0, x));
        }
    }
    assert_eq!(sim.block_inputs.len(), sim.counts.len());
}

#[test]
fn trees_open_to_their_roots() {
    let leaves: Vec<Digest> = (0..8).map(leaf_of).collect();
    let levels = build_tree(&leaves);
    assert_eq!(levels.len(), 4);
    for i in 0..8 {
        let (leaf, path, root) = opening(&levels, i);
        assert_eq!(leaf, leaves[i]);
        assert_eq!(root, levels[3][0]);
        assert_eq!(fold_path(leaf, &path), root);
        let siblings: Vec<Digest> = path.iter().map(|p| p.0).collect();
        assert_eq!(path_of(&siblings, i), path);
    }
    assert_eq!(ordered([1; 4], [2; 4], true), [2, 2, 2, 2, 1, 1, 1, 1]);
    assert_eq!(levels[1][0], merge(leaves[0], leaves[1]));
}

#[test]
fn an_empty_list_is_its_own_reversal() {
    let mut xs: Vec<u64> = vec![];
    reverse_slice_index_bits(&mut xs);
    assert!(xs.is_empty());
}

#[test]
fn bits_and_columns() {
    assert_eq!(bit_at(0b1010, 1), 1);
    assert_eq!(bit_at(0b1010, 2), 0);
    assert_eq!(shift_right(0b1010, 2), 0b10);
    assert_eq!(shift_index(0b1010, 70), 0);
    assert_eq!(reverse_bits_len(0b0011, 4), 0b1100);
    assert_eq!(reverse_bits_len(reverse_bits_len(0b1011, 6), 6), 0b1011);
    assert_eq!(log2_strict(64), 6);
    let mut xs = vec![0, 1, 2, 3, 4, 5, 6, 7];
    reverse_slice_index_bits(&mut xs);
    assert_eq!(xs, vec![0, 4, 2, 6, 1, 5, 3, 7]);
    assert_eq!(next_power_of_two(33), 64);
    assert_eq!(range_col(6, 2, 4), vec![0, 0, 1, 1, 0, 0]);
    assert_eq!(hot_col(8, 1, 3, 2, 1), vec![0, 0, 1, 0, 0, 1, 0, 0]);
    let g = build_group(c(9, 0), &vec![c(1, 0), c(2, 0), c(3, 0)], 2);
    assert_eq!(g.iter().map(|x| x.c0).collect::<Vec<_>>(), vec![1, 2, 9, 3]);
}

#[test]
fn fold_points_pair_up() {
    let xs = fold_coset(5, 3, 2);
    assert_eq!(xs.len(), 4);
    assert_eq!(fadd(xs[0], xs[1]), 0);
    assert_eq!(fadd(xs[2], xs[3]), 0);
    let g = Goldilocks::two_adic_generator(5);
    assert_eq!(xs[0], g.exp_u64(0b101).as_canonical_u64());
}

#[test]
fn layouts_of_the_milestone() {
    let l = commit_layout(10, 6, 4, 1, 1);
    assert_eq!((l.cm_rounds, l.input_depth), (CM_ROUNDS, 4));
    assert_eq!((l.m_input_term, l.m_quot_term), (M_INPUT_TERM, M_QUOT_TERM));
    assert_eq!(l.m_nblocks, M_NBLOCKS);
    for r in 0..CM_ROUNDS {
        assert_eq!((l.leaf[r], l.term[r]), (cm_leaf(r), cm_term(r)));
    }
    let ranges = trace_row_ranges(64, 2, 736, 2048, 10);
    assert_eq!(ranges.len(), 4);
    assert_eq!(ranges[0].kind, MonolithTracePart::Transcript);
    assert_eq!((ranges[1].start_row, ranges[1].rows), (64, 736));
    assert_eq!((ranges[3].start_row, ranges[3].rows), (1536, 512));
    assert_eq!(ranges[3].felt_len(), 5120);
    let h = hiding_commit_layout(8, 2, 10, 2, 4);
    assert!(h.m_random_term < h.m_input_term && h.m_input_term < h.m_quot_term);
    assert_eq!((h.leaf.len(), h.term.len()), (6, 6));
    assert!(h.term[5] < h.m_nblocks);
}

#[test]
fn notes_are_tagged_by_domain() {
    let dom = Domains { own: 1, cm: 2, nf: 3 };
    let owner = recipient_of(&dom, 10, 11, 12);
    assert_eq!(owner[..], native_permute([1, 10, 11, 12, 0, 0, 0, 0])[..4]);
    let cm = spend_common::commit(&dom, owner, 5, [6, 7], [8, 9], 1, 0);
    let other = spend_common::commit(&dom, owner, 6, [6, 7], [8, 9], 1, 0);
    assert_ne!(cm, other);
    assert_ne!(nullifier(&dom, 10, 11, [6, 7], 3), nullifier(&dom, 10, 11, [6, 7], 4));
    let mut bits = [false; 32];
    bits[0] = true;
    bits[5] = true;
    assert_eq!(pos_of(&bits), 33);
}

#[test]
fn sparse_trees_open_every_leaf() {
    let leaves = [leaf_of(1), leaf_of(2), leaf_of(3), leaf_of(4)];
    let (root, paths) = build_paths(&leaves);
    assert_eq!(paths.len(), 4);
    for (leaf, (sib, bits)) in leaves.iter().zip(&paths) {
        assert_eq!(spend_common::fold(*leaf, sib, bits), root);
    }
    let e = empty_hashes();
    assert_eq!(e[1], merge(e[0], e[0]));
}
