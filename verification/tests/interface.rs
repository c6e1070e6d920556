use superperm::interface::Interface;

#[test]
fn it_returns_five_symbols_in_the_test_environment() {
    assert_eq!(Interface::ask_for_symbols(), 5);
}
