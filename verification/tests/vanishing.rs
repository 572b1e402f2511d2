use plonk_core::arithmetic::{eval_polynomial, FieldExt, ScalarSource};
use plonk_core::dev::{CountingSource, Fp, Item, PlainDomain, PointParams, ProofWriter, MODULUS};
use plonk_core::plonk::{ChallengeX, ChallengeY, Error, ProvingKey};
use plonk_core::poly::{Blind, Params};
use plonk_core::vanishing::{split_pieces, Argument, Committed, Constructed};

fn fp(v: u64) -> Fp {
    Fp::new(v)
}

fn fps(values: &[u64]) -> Vec<Fp> {
    values.iter().map(|v| fp(*v)).collect()
}

fn values(scalars: &[Fp]) -> Vec<u64> {
    scalars.iter().map(|s| s.value()).collect()
}

fn domain(n: usize, extended_len: usize, exact: bool) -> PlainDomain<Fp> {
    PlainDomain::new(n, extended_len, fp(18446744069397807105), fp(1099511627520), exact)
}

fn committed(n: usize, writer: &mut ProofWriter<Fp, Fp>) -> Committed<Fp> {
    let params = PointParams::new(n as u64, fp(2), fp(3));
    let mut rng = CountingSource::new(10);
    Argument::commit(&params, &domain(n, 5, true), &mut rng, writer).ok().unwrap()
}

fn constructed(writer: &mut ProofWriter<Fp, Fp>) -> Result<Constructed<Fp>, Error> {
    let params = PointParams::new(2, fp(2), fp(3));
    let pk = ProvingKey { l_cover: fps(&[0, 0, 0, 0, 1]), l_last: fps(&[0, 0, 0, 1, 0]) };
    let gates = vec![fps(&[1, 2, 3, 4, 5]), fps(&[1, 1, 1, 1, 1])];
    let customs = vec![fps(&[10, 10, 10, 10, 10])];
    let mut rng = CountingSource::new(100);
    committed(2, writer).construct(
        &params,
        &pk,
        &domain(2, 5, true),
        &gates,
        &customs,
        ChallengeY(fp(2)),
        &mut rng,
        writer,
    )
}

#[test]
fn random_polynomial_is_committed_and_written() {
    let params = PointParams::new(4, fp(2), fp(3));
    let mut rng = CountingSource::new(10);
    let mut writer: ProofWriter<Fp, Fp> = ProofWriter::new(8);
    let r = Argument::commit(&params, &domain(4, 8, true), &mut rng, &mut writer);
    assert!(r.is_ok());
    // The polynomial 10 + 11 X + 12 X^2 + 13 X^3 at 2, plus 3 times the blind 14.
    assert_eq!(writer.items(), &vec![Item::Point(fp(226))]);
    // Four coefficients and the blind were drawn.
    assert_eq!(rng.next_scalar(), fp(15));
}

#[test]
fn refused_commitment_is_a_transcript_error() {
    let params = PointParams::new(4, fp(2), fp(3));
    let mut rng = CountingSource::new(10);
    let mut writer: ProofWriter<Fp, Fp> = ProofWriter::new(0);
    let r = Argument::commit(&params, &domain(4, 8, true), &mut rng, &mut writer);
    assert!(matches!(r, Err(Error::TranscriptError)));
    assert!(writer.items().is_empty());
}

#[test]
fn constraints_are_folded_cut_and_committed_in_piece_order() {
    let mut writer: ProofWriter<Fp, Fp> = ProofWriter::new(8);
    assert!(constructed(&mut writer).is_ok());
    // Gates folded in y = 2: (1, 2, 3, 4, 5) * 2 + (1, 1, 1, 1, 1) = (3, 5, 7, 9, 11),
    // switched off on the last two rows: (3, 5, 7, 0, 0),
    // custom expressions folded in: (16, 20, 24, 10, 10).
    // Pieces of two coefficients: (16, 20), (24, 10), (10, 0), with the blinds
    // 100, 101, 102: each commitment is the piece at 2 plus 3 times its blind.
    assert_eq!(
        writer.items(),
        &vec![
            // The random polynomial 10 + 11 X with the blind 12.
            Item::Point(fp(10 + 22 + 36)),
            Item::Point(fp(16 + 40 + 300)),
            Item::Point(fp(24 + 20 + 303)),
            Item::Point(fp(10 + 306)),
        ]
    );
}

#[test]
fn pieces_are_put_together_at_the_challenge_point() {
    let mut writer: ProofWriter<Fp, Fp> = ProofWriter::new(8);
    let constructed = constructed(&mut writer).ok().unwrap();
    let x = fp(3);
    let xn = x.mul(&x);
    let evaluated = constructed
        .evaluate(ChallengeX(x), xn, &domain(2, 5, true), &mut writer)
        .ok()
        .unwrap();
    // The random polynomial 10 + 11 X at 3.
    assert_eq!(writer.items()[4], Item::Scalar(fp(43)));
    let queries = evaluated.open(ChallengeX(x));
    assert_eq!(queries.len(), 2);
    // 16 + 24 * 9 + 10 * 81 and 20 + 10 * 9 + 0 * 81.
    assert_eq!(values(queries[0].poly), vec![1042, 110]);
    // 100 + 101 * 9 + 102 * 81.
    assert_eq!(queries[0].blind, Blind(fp(9271)));
    assert_eq!(queries[0].point, x);
    assert_eq!(values(queries[1].poly), vec![10, 11]);
    assert_eq!(queries[1].blind, Blind(fp(12)));
    assert_eq!(queries[1].point, x);
    // The quotient 16 + 20 X + 24 X^2 + 10 X^3 + 10 X^4 at 3.
    let h = fps(&[16, 20, 24, 10, 10]);
    assert_eq!(eval_polynomial(&h, x), fp(16 + 60 + 216 + 270 + 810));
    assert_eq!(eval_polynomial(queries[0].poly, x), eval_polynomial(&h, x));
}

#[test]
fn recombined_pieces_take_the_value_of_the_polynomial() {
    let h: Vec<Fp> = (0..23).map(|i| fp(MODULUS - 1 - 1000 * i * i)).collect();
    for n in [1usize, 2, 3, 5, 8, 23, 24, 40] {
        let pieces = split_pieces(&h, n);
        assert_eq!(pieces.len(), (h.len() + n - 1) / n);
        for x in [fp(0), fp(1), fp(7), fp(MODULUS - 2)] {
            let mut xn = Fp::one();
            for _ in 0..n {
                xn = xn.mul(&x);
            }
            // Horner's rule in xn, from the last piece down.
            let mut whole = vec![Fp::zero(); n];
            for piece in pieces.iter().rev() {
                for j in 0..n {
                    whole[j] = whole[j].mul(&xn).add(&piece[j]);
                }
            }
            assert_eq!(eval_polynomial(&whole, x), eval_polynomial(&h, x));
        }
    }
}

#[test]
fn last_piece_is_filled_with_zeros() {
    let pieces = split_pieces(&fps(&[1, 2, 3, 4, 5]), 2);
    let pieces: Vec<Vec<u64>> = pieces.iter().map(|piece| values(piece)).collect();
    assert_eq!(pieces, vec![vec![1, 2], vec![3, 4], vec![5, 0]]);
    let pieces = split_pieces(&fps(&[1, 2, 3, 4]), 2);
    assert_eq!(pieces.len(), 2);
    let pieces = split_pieces(&fps(&[1]), 3);
    assert_eq!(values(&pieces[0]), vec![1, 0, 0]);
    assert!(split_pieces(&Vec::<Fp>::new(), 3).is_empty());
}

#[test]
fn inexact_quotient_is_a_constraint_system_failure() {
    let params = PointParams::new(2, fp(2), fp(3));
    let pk = ProvingKey { l_cover: fps(&[0, 0, 0, 0]), l_last: fps(&[0, 0, 0, 1]) };
    let mut rng = CountingSource::new(100);
    let mut writer: ProofWriter<Fp, Fp> = ProofWriter::new(8);
    let r = committed(2, &mut writer).construct(
        &params,
        &pk,
        &domain(2, 4, false),
        &vec![fps(&[1, 2, 3, 4])],
        &Vec::new(),
        ChallengeY(fp(2)),
        &mut rng,
        &mut writer,
    );
    assert!(matches!(r, Err(Error::ConstraintSystemFailure)));
    // Nothing was drawn, and nothing written after the random polynomial.
    assert_eq!(rng.next_scalar(), fp(100));
    assert_eq!(writer.items().len(), 1);
}

#[test]
fn refused_piece_is_a_transcript_error() {
    // The random polynomial and one piece are accepted.
    let mut writer: ProofWriter<Fp, Fp> = ProofWriter::new(2);
    let r = constructed(&mut writer);
    assert!(matches!(r, Err(Error::TranscriptError)));
    assert_eq!(writer.items().len(), 2);
    assert_eq!(writer.items()[1], Item::Point(fp(356)));
}

#[test]
fn refused_evaluation_is_a_transcript_error() {
    let mut writer: ProofWriter<Fp, Fp> = ProofWriter::new(4);
    let constructed = constructed(&mut writer).ok().unwrap();
    let r = constructed.evaluate(ChallengeX(fp(3)), fp(9), &domain(2, 5, true), &mut writer);
    assert!(matches!(r, Err(Error::TranscriptError)));
    assert_eq!(writer.items().len(), 4);
}

#[test]
fn no_constraints_make_the_zero_quotient() {
    let params = PointParams::new(2, fp(2), fp(3));
    let pk = ProvingKey { l_cover: fps(&[0, 0, 0]), l_last: fps(&[0, 0, 0]) };
    let mut rng = CountingSource::new(u64::MAX);
    let mut writer: ProofWriter<Fp, Fp> = ProofWriter::new(8);
    let constructed = committed(2, &mut writer)
        .construct(
            &params,
            &pk,
            &domain(2, 3, true),
            &Vec::new(),
            &Vec::new(),
            ChallengeY(fp(2)),
            &mut rng,
            &mut writer,
        )
        .ok()
        .unwrap();
    // Two pieces of zeros, with the blinds that u64::MAX and 0 reduce to.
    let blind = u64::MAX % MODULUS;
    assert_eq!(blind, 4294967294);
    assert_eq!(writer.items()[1], Item::Point(fp(3).mul(&fp(blind))));
    assert_eq!(writer.items()[2], Item::Point(fp(0)));
    let evaluated = constructed
        .evaluate(ChallengeX(fp(5)), fp(25), &domain(2, 3, true), &mut writer)
        .ok()
        .unwrap();
    let queries = evaluated.open(ChallengeX(fp(5)));
    assert_eq!(values(queries[0].poly), vec![0, 0]);
    assert_eq!(queries[0].blind, Blind(fp(blind)));
}

#[test]
fn polynomial_is_evaluated_lowest_degree_first() {
    assert_eq!(eval_polynomial(&fps(&[1, 2, 3]), fp(10)), fp(321));
    assert_eq!(eval_polynomial(&Vec::<Fp>::new(), fp(10)), fp(0));
    assert_eq!(eval_polynomial(&fps(&[MODULUS - 1, 1]), fp(1)), fp(0));
}

#[test]
fn commitment_is_the_value_at_the_point_plus_the_weighted_blind() {
    let params = PointParams::new(3, fp(2), fp(3));
    assert_eq!(params.n(), 3);
    assert_eq!(params.commit(&fps(&[1, 1, 1]), Blind(fp(0))), fp(7));
    assert_eq!(params.commit(&fps(&[1, 1, 1]), Blind(fp(5))), fp(22));
    assert_eq!(params.commit(&fps(&[0, 0, 0]), Blind(fp(MODULUS - 1))), fp(MODULUS - 3));
}
