use lehmer::Lehmer;
use superperm::candidate::Candidate;
use superperm::symmetry::Symmetry;

const FACTORIAL: usize = 120;
const CAPACITY: u32 = 123;

fn seed() -> Candidate {
    Candidate::seed(5)
}

fn symmetry() -> Symmetry {
    Symmetry::precompute(5)
}

fn seen_permutation(subject: &Candidate, slice: &[u8]) -> bool {
    let decimal = Lehmer::from_permutation(slice).to_decimal() as u32;
    subject.bitmap.contains(decimal)
}

fn number_of_permutations(subject: &Candidate) -> usize {
    (0..FACTORIAL).filter(|i| subject.bitmap.contains(*i as u32)).count()
}

fn counter_bits(subject: &Candidate) -> Vec<bool> {
    let range = (FACTORIAL as u32)..CAPACITY;
    range.map(|i| subject.bitmap.contains(i)).collect()
}

#[test]
fn it_has_seen_the_first_permutation() {
    let subject = seed();

    assert_eq!(seen_permutation(&subject, &[0, 1, 2, 3, 4]), true);
    assert_eq!(seen_permutation(&subject, &[0, 1, 2, 4, 3]), false);
}

#[test]
fn it_sets_all_the_counter_bits() {
    let subject = seed();

    assert_eq!(counter_bits(&subject), &[true, true, true]);
}

#[test]
fn it_maps_the_permutation_to_its_canonical_form() {
    let sym = symmetry();
    let subject = seed();

    // For the 12340 transposition: 01234 -> 40123
    assert_eq!(seen_permutation(&subject.expand(&sym, 0), &[4, 0, 1, 2, 3]), true);

    // For the *2341 transposition: 01234 -> 04123
    assert_eq!(seen_permutation(&subject.expand(&sym, 1), &[0, 4, 1, 2, 3]), true);

    // For the **342 transposition: 01234 -> { 01423, 10423 }
    // 01423 is chosen because it's before 10423 in the bitmap
    assert_eq!(seen_permutation(&subject.expand(&sym, 2), &[0, 1, 4, 2, 3]), true);
    assert_eq!(seen_permutation(&subject.expand(&sym, 2), &[1, 0, 4, 2, 3]), false);

    // For the ***43 transposition: 01234 -> { 01243, 02143, 10243, 20143, 12043, 21043 }
    // 01243 is chosen because it's before the others in the bitmap
    assert_eq!(seen_permutation(&subject.expand(&sym, 3), &[0, 1, 2, 4, 3]), true);
    assert_eq!(seen_permutation(&subject.expand(&sym, 3), &[0, 2, 1, 4, 3]), false);
    assert_eq!(seen_permutation(&subject.expand(&sym, 3), &[1, 0, 2, 4, 3]), false);
    assert_eq!(seen_permutation(&subject.expand(&sym, 3), &[2, 0, 1, 4, 3]), false);
    assert_eq!(seen_permutation(&subject.expand(&sym, 3), &[1, 2, 0, 4, 3]), false);
    assert_eq!(seen_permutation(&subject.expand(&sym, 3), &[2, 1, 0, 4, 3]), false);
}

#[test]
fn it_adds_a_new_permutation_when_the_zero_symbol_is_expanded() {
    let sym = symmetry();
    let subject = seed();

    assert_eq!(number_of_permutations(&subject.expand(&sym, 0)), 2);
    assert_eq!(number_of_permutations(&subject.expand(&sym, 1)), 1);
    assert_eq!(number_of_permutations(&subject.expand(&sym, 2)), 1);
    assert_eq!(number_of_permutations(&subject.expand(&sym, 3)), 1);

    assert_eq!(seen_permutation(&subject.expand(&sym, 0), &[0, 1, 2, 3, 4]), true);
}

#[test]
fn it_incrementally_adds_new_permutations() {
    let sym = symmetry();
    let subject = seed(); // 01234

    // The comments use the un-canonicalised form for simplicity.

    let candidate = subject.expand(&sym, 0); // 012340
    assert_eq!(number_of_permutations(&candidate), 2);

    let candidate = candidate.expand(&sym, 0); // 0123401
    assert_eq!(number_of_permutations(&candidate), 3);

    let candidate = candidate.expand(&sym, 0); // 01234012
    assert_eq!(number_of_permutations(&candidate), 4);

    let candidate = candidate.expand(&sym, 0); // 012340123
    assert_eq!(number_of_permutations(&candidate), 5);

    let candidate = candidate.expand(&sym, 0); // 0123401234
    assert_eq!(number_of_permutations(&candidate), 5); // <-- the same

    let candidate = candidate.expand(&sym, 1); // 01234012341
    assert_eq!(number_of_permutations(&candidate), 5);

    let candidate = candidate.expand(&sym, 0); // 012340123410
    assert_eq!(number_of_permutations(&candidate), 6);

    let candidate = candidate.expand(&sym, 1); // 0123401234103
    assert_eq!(number_of_permutations(&candidate), 6);

    let candidate = candidate.expand(&sym, 0); // 01234012341032
    assert_eq!(number_of_permutations(&candidate), 7);

    let candidate = candidate.expand(&sym, 2); // 012340123410320
    assert_eq!(number_of_permutations(&candidate), 7);

    let candidate = candidate.expand(&sym, 1); // 0123401234103204
    assert_eq!(number_of_permutations(&candidate), 7);

    let candidate = candidate.expand(&sym, 0); // 01234012341032041
    assert_eq!(number_of_permutations(&candidate), 8);
}

#[test]
fn it_sets_counter_bits_based_on_the_expanded_symbol() {
    let sym = symmetry();
    let subject = seed();

    assert_eq!(counter_bits(&subject.expand(&sym, 0)), &[true, true, true]);
    assert_eq!(counter_bits(&subject.expand(&sym, 1)), &[true, true, true]);
    assert_eq!(counter_bits(&subject.expand(&sym, 2)), &[true, true, false]);
    assert_eq!(counter_bits(&subject.expand(&sym, 3)), &[true, false, false]);
}

#[test]
fn it_adds_removed_counter_bits_based_on_the_expanded_symbol() {
    let sym = symmetry();
    let subject = seed();

    let candidate = subject.expand(&sym, 2); // one bit removed
    assert_eq!(counter_bits(&candidate.expand(&sym, 0)), &[true, true, true]);
    assert_eq!(counter_bits(&candidate.expand(&sym, 1)), &[true, true, true]);
    assert_eq!(counter_bits(&candidate.expand(&sym, 2)), &[true, true, false]);
    assert_eq!(counter_bits(&candidate.expand(&sym, 3)), &[true, false, false]);

    let candidate = subject.expand(&sym, 3); // two bits removed
    assert_eq!(counter_bits(&candidate.expand(&sym, 0)), &[true, true, false]);
    assert_eq!(counter_bits(&candidate.expand(&sym, 1)), &[true, true, false]);
    assert_eq!(counter_bits(&candidate.expand(&sym, 2)), &[true, true, false]);
    assert_eq!(counter_bits(&candidate.expand(&sym, 3)), &[true, false, false]);
}

#[test]
fn it_returns_the_number_of_bits_that_are_set_in_the_bitmap() {
    let sym = symmetry();
    let subject = seed();
    let first = subject.expand(&sym, 0);
    let second = subject.expand(&sym, 1);
    let third = subject.expand(&sym, 2);
    let fourth = subject.expand(&sym, 3);

    assert_eq!(subject.number_of_bits(), 4); // 1 perm, 3 counters
    assert_eq!(first.number_of_bits(), 5); // 2 perms, 3 counters
    assert_eq!(second.number_of_bits(), 4); // 1 perm, 3 counters
    assert_eq!(third.number_of_bits(), 3); // 1 perm, 2 counters
    assert_eq!(fourth.number_of_bits(), 2); // 1 perm, 1 counters
}

#[test]
fn it_returns_the_capacity_of_the_bitmap() {
    assert_eq!(Candidate::maximum_bits(5), CAPACITY as usize);
}

#[test]
fn it_consistently_orders_candidates() {
    let sym = symmetry();
    let subject = seed();

    let a = subject.expand(&sym, 0);
    let b = subject.expand(&sym, 1);
    let c = subject.expand(&sym, 2);
    let d = subject.expand(&sym, 0);

    // Candidates are ordered by cardinality first: c has 3 bits set, b has
    // 4 and a has 5, so they come in that order.

    // Order is total and antisymmetric:
    assert!(b < a);
    assert!(!(b == a));
    assert!(!(b > a));

    // Order is transistive:
    assert!(c < b);
    assert!(b < a);
    assert!(c < a);

    // Order is consistent for the same bitmap:
    assert!(a == d);
    assert!(!(a < d));
    assert!(!(a > d));
}

#[test]
fn it_seeds_one_permutation_and_all_counter_bits_for_every_alphabet() {
    for n in 2..=7 {
        let subject = Candidate::seed(n);
        assert_eq!(subject.number_of_permutations(), 1);
        assert_eq!(subject.number_of_bits(), n - 1);
    }
}
