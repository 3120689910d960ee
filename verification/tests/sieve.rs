use prime_sieve::sieve::Sieve;

fn trial_division_count(bound: usize) -> usize {
    let mut count = 0;
    for n in 2..bound {
        let mut prime = true;
        for d in 2..n {
            if n % d == 0 {
                prime = false;
            }
        }
        if prime {
            count += 1;
        }
    }
    count
}

fn run(bound: usize) -> Sieve {
    let mut sieve = Sieve::new(bound);
    sieve.evaluate();
    sieve
}

#[test]
fn new_sieve_starts_at_three_with_two_counted() {
    let sieve = Sieve::new(50);
    assert_eq!(sieve.size(), 50);
    assert_eq!(sieve.index(), 3);
    assert_eq!(sieve.num_primes(), 1);
    assert_eq!(sieve.primes(), &vec![2]);
}

#[test]
fn primes_below_ten() {
    let sieve = run(10);
    assert_eq!(sieve.num_primes(), 4);
    assert_eq!(sieve.primes(), &vec![2, 3, 5, 7]);
}

#[test]
fn primes_below_one_hundred() {
    let sieve = run(100);
    assert_eq!(sieve.num_primes(), 25);
    assert_eq!(
        sieve.primes(),
        &vec![
            2, 3, 5, 7, 11, 13, 17, 19, 23, 29, 31, 37, 41, 43, 47, 53, 59, 61, 67, 71, 73, 79,
            83, 89, 97
        ]
    );
}

#[test]
fn primes_below_one_million() {
    let sieve = run(1_000_000);
    assert_eq!(sieve.num_primes(), 78_498);
    assert_eq!(sieve.primes().len(), 78_498);
    assert_eq!(sieve.primes()[78_497], 999_983);
}

#[test]
fn bound_two_counts_the_prime_two() {
    let sieve = run(2);
    assert_eq!(sieve.num_primes(), 1);
    assert_eq!(sieve.primes(), &vec![2]);
}

#[test]
fn bound_three_is_exclusive() {
    let sieve = run(3);
    assert_eq!(sieve.num_primes(), 1);
    assert_eq!(sieve.primes(), &vec![2]);
    assert_eq!(sieve.index(), 3);
}

#[test]
fn bound_four_finds_three() {
    let sieve = run(4);
    assert_eq!(sieve.num_primes(), 2);
    assert_eq!(sieve.primes(), &vec![2, 3]);
}

#[test]
fn bounds_below_two_still_count_two() {
    assert_eq!(run(0).num_primes(), 1);
    assert_eq!(run(1).num_primes(), 1);
    assert_eq!(run(0).size(), 0);
}

#[test]
fn prime_bound_is_not_counted() {
    let sieve = run(13);
    assert_eq!(sieve.primes(), &vec![2, 3, 5, 7, 11]);
    assert_eq!(sieve.num_primes(), 5);
}

#[test]
fn count_agrees_with_trial_division() {
    for bound in 3..400 {
        let sieve = run(bound);
        assert_eq!(sieve.num_primes(), trial_division_count(bound));
        assert_eq!(sieve.primes().len(), sieve.num_primes());
    }
}

#[test]
fn next_step_stays_on_an_unmarked_number() {
    let mut sieve = Sieve::new(30);
    assert_eq!(sieve.next_step(), 3);
    assert_eq!(sieve.next_step(), 3);
    assert_eq!(sieve.index(), 3);
    assert_eq!(sieve.num_primes(), 1);
}

#[test]
fn next_step_signals_the_end_past_the_bound() {
    let mut sieve = run(10);
    assert_eq!(sieve.index(), 11);
    assert_eq!(sieve.next_step(), 11);
    let mut odd = run(9);
    assert_eq!(odd.index(), 9);
    assert_eq!(odd.next_step(), 9);
    assert_eq!(odd.primes(), &vec![2, 3, 5, 7]);
}

#[test]
fn next_step_on_a_tiny_bound_does_not_move() {
    let mut sieve = Sieve::new(2);
    assert_eq!(sieve.next_step(), 3);
    let mut empty = Sieve::new(0);
    assert_eq!(empty.next_step(), 3);
}

#[test]
fn cursor_and_count_never_go_back() {
    let mut sieve = Sieve::new(200);
    let index = sieve.index();
    let count = sieve.num_primes();
    let next = sieve.next_step();
    assert!(next >= index);
    assert!(sieve.num_primes() >= count);
    sieve.evaluate();
    assert!(sieve.index() >= next);
    assert!(sieve.index() >= sieve.size());
    assert!(sieve.num_primes() >= count);
    assert_eq!(sieve.index() % 2, 1);
}

#[test]
fn evaluate_again_changes_nothing() {
    let mut sieve = run(100);
    let index = sieve.index();
    sieve.evaluate();
    assert_eq!(sieve.index(), index);
    assert_eq!(sieve.num_primes(), 25);
}

#[test]
fn primes_come_in_increasing_order() {
    let sieve = run(5000);
    let primes = sieve.primes();
    for pair in primes.windows(2) {
        assert!(pair[0] < pair[1]);
    }
    assert_eq!(primes.len(), 669);
}
