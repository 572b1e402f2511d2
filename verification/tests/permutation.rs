use plonk_core::arithmetic::FieldExt;
use plonk_core::circuit::{Advice, Any, Column, Fixed, Instance};
use plonk_core::dev::{Fp, Item, PlainDomain, ProofReader, DELTA, MODULUS};
use plonk_core::permutation::{Argument, Evaluated, VerifyingKey};
use plonk_core::plonk::{
    ChallengeBeta, ChallengeGamma, ChallengeX, ConstraintSystem, Error, VerifyingKey as PlonkKey,
};
use plonk_core::poly::{rotate_omega, Rotation, VerifierQuery};

const OMEGA: u64 = 18446744069397807105;
const OMEGA_INV: u64 = 1099511627520;

fn fp(v: u64) -> Fp {
    Fp::new(v)
}

fn key() -> PlonkKey<PlainDomain<Fp>> {
    PlonkKey {
        domain: PlainDomain::new(8, 16, fp(OMEGA), fp(OMEGA_INV), true),
        cs: ConstraintSystem {
            advice_queries: vec![(Column::<Advice>::new(0), Rotation::cur())],
            fixed_queries: vec![
                (Column::<Fixed>::new(1), Rotation::next()),
                (Column::<Fixed>::new(1), Rotation::cur()),
            ],
            instance_queries: vec![
                (Column::<Instance>::new(3), Rotation::prev()),
                (Column::<Instance>::new(2), Rotation::cur()),
                (Column::<Instance>::new(3), Rotation::cur()),
            ],
        },
    }
}

fn argument() -> Argument {
    Argument {
        columns: vec![Column::<Any>::new(0, Any::Advice), Column::<Any>::new(1, Any::Fixed)],
    }
}

fn evaluated(z: u64, z_next: u64, evals: &[u64]) -> Evaluated<u32, Fp> {
    let mut items = vec![Item::Point(42u32), Item::Scalar(fp(z)), Item::Scalar(fp(z_next))];
    let mut commitments = Vec::new();
    for (i, eval) in evals.iter().enumerate() {
        items.push(Item::Scalar(fp(*eval)));
        commitments.push(7 + i as u32);
    }
    let mut reader = ProofReader::new(items);
    let committed =
        argument().read_product_commitment::<u32, Fp, _>(&mut reader).ok().unwrap();
    let vkey = VerifyingKey { commitments };
    committed.evaluate(&vkey, &mut reader).ok().unwrap()
}

fn terms(e: &Evaluated<u32, Fp>) -> Vec<u64> {
    e.expressions(
        &key(),
        &argument(),
        &vec![fp(19)],
        &vec![fp(1000), fp(23)],
        &vec![],
        fp(5),
        fp(7),
        fp(11),
        ChallengeBeta(fp(37)),
        ChallengeGamma(fp(41)),
        ChallengeX(fp(43)),
    )
    .iter()
    .map(|term| term.value())
    .collect()
}

#[test]
fn product_commitment_is_read_first() {
    let mut reader: ProofReader<u32, Fp> = ProofReader::new(vec![Item::Point(42)]);
    assert!(argument().read_product_commitment::<u32, Fp, _>(&mut reader).is_ok());
    assert_eq!(reader.position(), 1);
    // The proof has run out.
    let r = argument().read_product_commitment::<u32, Fp, _>(&mut reader);
    assert!(matches!(r, Err(Error::TranscriptError)));
    // A scalar is no point.
    let mut reader: ProofReader<u32, Fp> = ProofReader::new(vec![Item::Scalar(fp(1))]);
    let r = argument().read_product_commitment::<u32, Fp, _>(&mut reader);
    assert!(matches!(r, Err(Error::TranscriptError)));
    assert_eq!(reader.position(), 0);
}

#[test]
fn evaluations_are_read_in_wire_order() {
    let e = evaluated(13, 17, &[29, 31]);
    let queries = e.queries(&key(), &VerifyingKey { commitments: vec![7, 8] }, ChallengeX(fp(43)));
    assert_eq!(
        queries,
        vec![
            VerifierQuery { commitment: 42, point: fp(43), eval: fp(13) },
            VerifierQuery { commitment: 42, point: fp(18446744068693164033), eval: fp(17) },
            VerifierQuery { commitment: 7, point: fp(43), eval: fp(29) },
            VerifierQuery { commitment: 8, point: fp(43), eval: fp(31) },
        ]
    );
}

#[test]
fn queries_stop_where_commitments_or_evaluations_run_out() {
    let e = evaluated(13, 17, &[29, 31]);
    let queries = e.queries(&key(), &VerifyingKey { commitments: vec![7] }, ChallengeX(fp(43)));
    assert_eq!(queries.len(), 3);
    let queries =
        e.queries(&key(), &VerifyingKey { commitments: vec![7, 8, 9] }, ChallengeX(fp(43)));
    assert_eq!(queries.len(), 4);
    assert_eq!(queries[3].commitment, 8);
}

#[test]
fn truncated_proof_is_a_transcript_error() {
    for present in 0..4 {
        let mut items = vec![Item::Point(42u32)];
        for i in 0..present {
            items.push(Item::Scalar(fp(i)));
        }
        let mut reader = ProofReader::new(items);
        let committed =
            argument().read_product_commitment::<u32, Fp, _>(&mut reader).ok().unwrap();
        let vkey = VerifyingKey { commitments: vec![7u32, 8] };
        let r = committed.evaluate(&vkey, &mut reader);
        assert!(matches!(r, Err(Error::TranscriptError)));
        // Every scalar that was there was read, and nothing after the failure.
        assert_eq!(reader.position(), 1 + present as usize);
    }
}

#[test]
fn point_in_the_place_of_an_evaluation_is_a_transcript_error() {
    let items = vec![Item::Point(42u32), Item::Scalar(fp(1)), Item::Point(5), Item::Scalar(fp(2))];
    let mut reader = ProofReader::new(items);
    let committed = argument().read_product_commitment::<u32, Fp, _>(&mut reader).ok().unwrap();
    let vkey: VerifyingKey<u32> = VerifyingKey { commitments: vec![] };
    assert!(matches!(committed.evaluate(&vkey, &mut reader), Err(Error::TranscriptError)));
    assert_eq!(reader.position(), 2);
}

#[test]
fn terms_follow_the_grand_product_identity() {
    // l_0 = 5, l_last = 7, l_cover = 11, z = 13, z_next = 17, the columns
    // evaluate to 19 and 23, their permutations to 29 and 31,
    // beta = 37, gamma = 41, x = 43.
    let e = evaluated(13, 17, &[29, 31]);
    assert_eq!(
        terms(&e),
        vec![18446744069414584261, 18446744069414584237, 10270291722965727350]
    );
}

#[test]
fn identity_witness_makes_all_terms_vanish() {
    // Every column is permuted to itself: its permutation polynomial is its
    // own label, delta^i * x, and the grand product is 1 everywhere.
    let label_0 = 43;
    let label_1 = ((DELTA as u128 * 43) % MODULUS as u128) as u64;
    assert_eq!(label_1, 11335341221881536384);
    let e = evaluated(1, 1, &[label_0, label_1]);
    assert_eq!(terms(&e), vec![0, 0, 0]);
}

#[test]
fn broken_copy_constraint_leaves_the_interior_term() {
    let label_1 = ((DELTA as u128 * 43) % MODULUS as u128) as u64;
    let e = evaluated(1, 1, &[43, label_1 + 1]);
    assert_eq!(terms(&e), vec![0, 0, 18446744069413545842]);
}

#[test]
fn left_product_stops_where_evaluations_run_out() {
    // One evaluation for two columns: the left product has one factor, the
    // right product has two.
    let e = evaluated(13, 17, &[29]);
    let p = MODULUS as u128;
    let left = 17 * (19 + 37 * 29 + 41) % p;
    let right = 13 * (19 + 37 * 43 + 41) % p * ((23 + DELTA as u128 % p * 37 % p * 43 + 41) % p) % p;
    let active = (p + 1 - 18) % p;
    let expected = (left + p - right) % p * active % p;
    assert_eq!(terms(&e)[2] as u128, expected);
}

#[test]
fn queries_are_found_by_column_and_rotation() {
    let cs = key().cs;
    assert_eq!(cs.get_any_query_index(Column::<Any>::new(0, Any::Advice), Rotation::cur()), 0);
    assert_eq!(cs.get_any_query_index(Column::<Any>::new(1, Any::Fixed), Rotation::cur()), 1);
    assert_eq!(cs.get_any_query_index(Column::<Any>::new(1, Any::Fixed), Rotation::next()), 0);
    assert_eq!(cs.get_any_query_index(Column::<Any>::new(3, Any::Instance), Rotation::cur()), 2);
    assert_eq!(cs.get_any_query_index(Column::<Any>::new(3, Any::Instance), Rotation(-1)), 0);
}

#[test]
fn instance_columns_are_looked_up_among_instance_evaluations() {
    let e = evaluated(1, 1, &[]);
    let argument = Argument { columns: vec![Column::<Any>::new(3, Any::Instance)] };
    let terms = e.expressions(
        &key(),
        &argument,
        &vec![],
        &vec![],
        &vec![fp(100), fp(200), fp(300)],
        fp(1),
        fp(1),
        fp(0),
        ChallengeBeta(fp(2)),
        ChallengeGamma(fp(3)),
        ChallengeX(fp(5)),
    );
    // left = 1, right = 300 + 2 * 5 + 3, and the rows are all active but the last.
    assert_eq!(terms[2].value(), 0);
    let terms = e.expressions(
        &key(),
        &argument,
        &vec![],
        &vec![],
        &vec![fp(100), fp(200), fp(300)],
        fp(1),
        fp(0),
        fp(0),
        ChallengeBeta(fp(2)),
        ChallengeGamma(fp(3)),
        ChallengeX(fp(5)),
    );
    assert_eq!(terms[2].value(), MODULUS - 312);
}

#[test]
fn rotation_multiplies_by_the_generator() {
    let domain = PlainDomain::new(8, 16, fp(OMEGA), fp(OMEGA_INV), true);
    assert_eq!(rotate_omega(&domain, fp(43), Rotation::cur()), fp(43));
    assert_eq!(rotate_omega(&domain, fp(43), Rotation::next()).value(), 18446744068693164033);
    assert_eq!(rotate_omega(&domain, fp(43), Rotation(-2)).value(), 18434640645416026113);
    assert_eq!(rotate_omega(&domain, fp(43), Rotation(8)), fp(43));
    let there = rotate_omega(&domain, fp(43), Rotation(3));
    assert_eq!(rotate_omega(&domain, there, Rotation(-3)), fp(43));
}

#[test]
fn field_arithmetic_wraps_at_the_modulus() {
    let top = fp(MODULUS - 1);
    assert_eq!(fp(MODULUS).value(), 0);
    assert_eq!(top.add(&fp(2)).value(), 1);
    assert_eq!(fp(0).sub(&fp(1)).value(), MODULUS - 1);
    assert_eq!(top.mul(&top).value(), 1);
    assert_eq!(fp(1 << 40).mul(&fp(1 << 40)).value(), 281474976645120);
    assert_eq!(Fp::zero().value(), 0);
    assert_eq!(Fp::one().value(), 1);
    assert_eq!(Fp::delta().value(), DELTA);
    assert_eq!(fp(OMEGA).mul(&fp(OMEGA_INV)), Fp::one());
}
