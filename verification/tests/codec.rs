use lehmer::Lehmer;

// The permutation codec must round-trip exactly: decoding a rank and
// encoding the permutation again gives the rank back, and encoding a
// permutation and decoding its rank gives the permutation back.

#[test]
fn it_round_trips_every_rank_for_every_tested_length() {
    for n in 1..=5 {
        let factorial: usize = (1..=n).product();
        for rank in 0..factorial {
            let permutation = Lehmer::from_decimal(rank, n).to_permutation();
            assert_eq!(permutation.len(), n);
            assert_eq!(Lehmer::from_permutation(&permutation).to_decimal(), rank);
        }
    }
}

#[test]
fn it_round_trips_every_permutation_of_three_symbols() {
    let permutations: [[u8; 3]; 6] =
        [[0, 1, 2], [0, 2, 1], [1, 0, 2], [1, 2, 0], [2, 0, 1], [2, 1, 0]];
    for (rank, p) in permutations.iter().enumerate() {
        let decimal = Lehmer::from_permutation(p).to_decimal();
        assert_eq!(decimal, rank);
        assert_eq!(Lehmer::from_decimal(decimal, 3).to_permutation(), p.to_vec());
    }
}
