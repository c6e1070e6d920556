use superperm::candidate::Candidate;
use superperm::closed_set::ClosedSet;
use superperm::symmetry::Symmetry;

#[test]
fn it_adds_a_candidate_to_the_closed_set_with_its_g_cost() {
    let mut subject = ClosedSet::new();
    let candidate = Candidate::seed(5);

    subject.add(candidate.clone(), 0);

    assert_eq!(subject.candidates.len(), 1);
}

#[test]
fn it_returns_true_if_the_closed_set_contains_the_candidate() {
    let sym = Symmetry::precompute(5);
    let mut subject = ClosedSet::new();
    let candidate = Candidate::seed(5);

    let first = candidate.expand(&sym, 0);
    let second = candidate.expand(&sym, 1);

    subject.add(first.clone(), 0);

    assert_eq!(subject.contains(&first, 0), true);
    assert_eq!(subject.contains(&second, 0), false);
}

#[test]
fn it_returns_false_if_it_contains_the_candidate_with_a_higher_g_cost() {
    let mut subject = ClosedSet::new();
    let candidate = Candidate::seed(5);

    subject.add(candidate.clone(), 5);

    assert_eq!(subject.contains(&candidate, 4), false);
    assert_eq!(subject.contains(&candidate, 5), true);
    assert_eq!(subject.contains(&candidate, 6), true);
}

#[test]
fn it_returns_the_number_of_candidates_in_the_closed_set() {
    let candidate = Candidate::seed(5);

    let mut subject = ClosedSet::new();
    assert_eq!(subject.len(), 0);

    subject.add(candidate, 0);
    assert_eq!(subject.len(), 1);
}

#[test]
fn it_keeps_one_entry_when_the_same_candidate_is_finalized_twice() {
    let mut subject = ClosedSet::new();
    let candidate = Candidate::seed(5);

    subject.add(candidate.clone(), 7);
    subject.add(candidate.clone(), 3);

    assert_eq!(subject.len(), 1);
    assert_eq!(subject.contains(&candidate, 2), false);
    assert_eq!(subject.contains(&candidate, 3), true);
}
