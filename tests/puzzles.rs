use lhtlp::{LhtlpError, Natural, LHTLP};
use num_bigint::BigUint;
use rand::Rng;

// Solving time grows linearly with this
const DIFFICULTY: u64 = 1000000;
const LAMBDA: u64 = 64;

fn big(x: &Natural) -> BigUint {
    BigUint::new(x.to_digits())
}

fn num(x: u64) -> Natural {
    Natural::from_u64(x)
}

fn small_params(difficulty: u64) -> LHTLP {
    LHTLP::setup_with(&num(7), &num(11), &num(2), num(difficulty)).unwrap()
}

#[test]
fn gen_and_solve() {
    let mut rng = rand::thread_rng();
    let secret: u64 = rng.gen();
    let lhtlp = LHTLP::setup(LAMBDA, num(DIFFICULTY)).unwrap();
    let puzzle = lhtlp.generate(secret);
    let result = lhtlp.solve(puzzle).unwrap();
    assert!(BigUint::from(secret) == big(&result));
}

#[test]
fn evaluate() {
    let lhtlp = LHTLP::setup(LAMBDA, num(DIFFICULTY)).unwrap();
    let mut rng = rand::thread_rng();
    let mut secrets: Vec<u64> = Vec::new();
    let mut puzzles: Vec<(Natural, Natural)> = Vec::new();
    let mut solution = BigUint::from(0u32);
    for _i in 0..40 {
        let secret: u64 = rng.gen();
        secrets.push(secret);
        let puzzle = lhtlp.generate(secret);
        puzzles.push(puzzle);
        solution += BigUint::from(secret);
    }
    let eval_puzzle = lhtlp.evaluate(puzzles);
    let result = lhtlp.solve(eval_puzzle).unwrap();

    assert!(big(&result) == solution);
}

#[test]
fn natural_digits_round_trip() {
    let x = num(1u64 << 40 | 7);
    assert_eq!(big(&x), BigUint::from(1u64 << 40 | 7));
    assert_eq!(big(&Natural::from_digits(vec![5, 1])), BigUint::from((1u64 << 32) + 5));
    assert_eq!(big(&x.copy()), big(&x));
}

#[test]
fn scenario_single_secret() {
    let params = LHTLP::setup(64, num(1000)).unwrap();
    let puzzle = params.generate(42);
    assert_eq!(big(&params.solve(puzzle).unwrap()), BigUint::from(42u32));
}

#[test]
fn scenario_two_secrets_sum() {
    let params = LHTLP::setup(64, num(1000)).unwrap();
    let first = params.generate(42);
    let second = params.generate(13);
    let bundle = params.evaluate(vec![first, second]);
    assert_eq!(big(&params.solve(bundle).unwrap()), BigUint::from(55u32));
}

#[test]
fn scenario_forty_secrets_sum() {
    let params = LHTLP::setup(64, num(1000)).unwrap();
    let mut rng = rand::thread_rng();
    let mut puzzles = Vec::new();
    let mut sum = BigUint::from(0u32);
    for _i in 0..40 {
        let secret: u64 = rng.gen();
        sum += BigUint::from(secret);
        puzzles.push(params.generate(secret));
    }
    assert_eq!(big(&params.solve(params.evaluate(puzzles)).unwrap()), sum);
}

#[test]
fn empty_evaluation_solves_to_zero() {
    let params = LHTLP::setup(64, num(1000)).unwrap();
    let identity = params.evaluate(Vec::new());
    assert_eq!(big(&identity.0), BigUint::from(1u32));
    assert_eq!(big(&identity.1), BigUint::from(1u32));
    assert_eq!(big(&params.solve(identity).unwrap()), BigUint::from(0u32));
}

#[test]
fn singleton_evaluation_keeps_secret() {
    let params = LHTLP::setup(64, num(1000)).unwrap();
    let single = params.evaluate(vec![params.generate(99)]);
    assert_eq!(big(&params.solve(single).unwrap()), BigUint::from(99u32));
}

#[test]
fn zero_difficulty_round_trip() {
    let params = LHTLP::setup(64, num(0)).unwrap();
    let puzzle = params.generate(12345);
    assert_eq!(big(&params.solve(puzzle).unwrap()), BigUint::from(12345u32));
}

#[test]
fn zero_secret_round_trip() {
    let params = LHTLP::setup(64, num(1000)).unwrap();
    let puzzle = params.generate(0);
    assert_eq!(big(&params.solve(puzzle).unwrap()), BigUint::from(0u32));
}

#[test]
fn fresh_puzzles_differ() {
    let params = LHTLP::setup(64, num(1000)).unwrap();
    let a = params.generate(42);
    let b = params.generate(42);
    assert!(big(&a.0) != big(&b.0) || big(&a.1) != big(&b.1));
}

#[test]
fn small_parameters_exact_puzzle() {
    let params = small_params(3);
    let puzzle = params.generate_with(5, &num(3));
    assert_eq!(big(&puzzle.0), BigUint::from(71u32));
    assert_eq!(big(&puzzle.1), BigUint::from(3767u32));
    assert_eq!(big(&params.solve(puzzle).unwrap()), BigUint::from(5u32));
}

#[test]
fn small_parameters_combine() {
    let params = small_params(3);
    let a = params.generate_with(5, &num(3));
    let b = params.generate_with(20, &num(10));
    let c = params.evaluate(vec![a, b]);
    assert_eq!(big(&params.solve(c).unwrap()), BigUint::from(25u32));
}

#[test]
fn setup_rejects_small_prime() {
    let res = LHTLP::setup_with(&num(2), &num(11), &num(2), num(3));
    assert!(matches!(res, Err(LhtlpError::PrimeGeneration)));
}

#[test]
fn setup_rejects_non_unit_draw() {
    let res = LHTLP::setup_with(&num(7), &num(11), &num(14), num(3));
    assert!(matches!(res, Err(LhtlpError::NotInvertible)));
}

#[test]
fn solve_rejects_non_unit_first_half() {
    let params = small_params(3);
    let res = params.solve((num(0), num(3767)));
    assert_eq!(res.unwrap_err(), LhtlpError::NotInvertible);
}

#[test]
fn solve_rejects_zero_second_half() {
    let params = small_params(3);
    let res = params.solve((num(71), num(0)));
    assert_eq!(res.unwrap_err(), LhtlpError::MalformedPuzzle);
}

#[test]
fn setup_rejects_equal_primes() {
    let res = LHTLP::setup_with(&num(11), &num(11), &num(2), num(3));
    assert!(matches!(res, Err(LhtlpError::PrimeGeneration)));
}

#[test]
fn setup_rejects_wrong_group_order() {
    let res = LHTLP::setup_with(&num(5), &num(9), &num(2), num(3));
    assert!(matches!(res, Err(LhtlpError::GroupOrder)));
}

#[test]
fn wrapped_sum_past_modulus() {
    let params = small_params(3);
    let a = params.generate_with(50, &num(3));
    let b = params.generate_with(40, &num(10));
    let c = params.evaluate(vec![a, b]);
    assert_eq!(big(&params.solve(c).unwrap()), BigUint::from(13u32));
}
