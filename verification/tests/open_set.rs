use superperm::candidate::Candidate;
use superperm::open_set::OpenSet;
use superperm::symmetry::Symmetry;

#[test]
fn it_builds_an_empty_open_set() {
    let subject = OpenSet::new();
    assert_eq!(subject.len(), 0);
}

#[test]
fn it_adds_the_candidate_and_sets_their_f_cost() {
    let mut subject = OpenSet::new();
    let candidate = Candidate::seed(5);

    subject.add(candidate, 12, 34);

    let f_cost = subject.minimum_f_cost().unwrap();

    assert_eq!(f_cost, 12);
}

#[test]
fn it_adds_the_candidate_and_sets_their_g_cost() {
    let mut subject = OpenSet::new();
    let candidate = Candidate::seed(5);

    subject.add(candidate, 12, 34);

    let (_, g_cost) = subject.next().unwrap();

    assert_eq!(g_cost, 34);
}

#[test]
fn it_returns_the_candidates_ordered_by_f_cost_ascending() {
    let sym = Symmetry::precompute(5);
    let mut subject = OpenSet::new();
    let candidate = Candidate::seed(5);

    let first = candidate.expand(&sym, 0);
    let second = candidate.expand(&sym, 1);

    subject.add(first.clone(), 12, 34);
    subject.add(second.clone(), 56, 78);

    assert_eq!(subject.next(), Some((first, 34)));
    assert_eq!(subject.next(), Some((second, 78)));
    assert_eq!(subject.next(), None);
}

#[test]
fn it_returns_the_candidates_ordered_by_g_cost_descending() {
    let sym = Symmetry::precompute(5);
    let mut subject = OpenSet::new();
    let candidate = Candidate::seed(5);

    let first = candidate.expand(&sym, 0);
    let second = candidate.expand(&sym, 1);
    let third = candidate.expand(&sym, 2);

    subject.add(first.clone(), 12, 34);
    subject.add(second.clone(), 56, 78);
    subject.add(third.clone(), 12, 33);

    assert_eq!(subject.next(), Some((first, 34)));
    assert_eq!(subject.next(), Some((third, 33)));
    assert_eq!(subject.next(), Some((second, 78)));
}

#[test]
fn it_returns_the_number_of_candidates_in_the_open_set() {
    let candidate = Candidate::seed(5);

    let mut subject = OpenSet::new();
    assert_eq!(subject.len(), 0);

    subject.add(candidate, 12, 34);
    assert_eq!(subject.len(), 1);
}

#[test]
fn it_returns_the_minimum_f_cost_in_the_open_set() {
    let candidate = Candidate::seed(5);

    let mut subject = OpenSet::new();
    assert_eq!(subject.minimum_f_cost(), None);

    subject.add(candidate.clone(), 12, 34);
    subject.add(candidate.clone(), 56, 78);

    assert_eq!(subject.minimum_f_cost(), Some(12));
}

#[test]
fn it_returns_the_maximum_f_cost_in_the_open_set() {
    let candidate = Candidate::seed(5);

    let mut subject = OpenSet::new();
    assert_eq!(subject.maximum_f_cost(), None);

    subject.add(candidate.clone(), 12, 34);
    subject.add(candidate.clone(), 56, 78);

    assert_eq!(subject.maximum_f_cost(), Some(56));
}
