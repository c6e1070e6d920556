use superperm::util::Util;

#[test]
fn it_calculates_the_factorial_of_a_number() {
    assert_eq!(Util::factorial(0), 1);
    assert_eq!(Util::factorial(1), 1);
    assert_eq!(Util::factorial(2), 2);
    assert_eq!(Util::factorial(3), 6);
    assert_eq!(Util::factorial(4), 24);
    assert_eq!(Util::factorial(5), 120);
}
