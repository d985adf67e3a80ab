use go_game::NumbersParser;

#[test]
fn test_empty() {
    let mut parser = NumbersParser::new("");
    assert_eq!(parser.next_number(), None); // End of input
    assert_eq!(parser.next_number(), None); // End of input
}

#[test]
fn test_numbers_parser() {
    let mut parser = NumbersParser::new("123 456 789");
    assert_eq!(parser.next_number(), Some(123));
    assert_eq!(parser.next_number(), Some(456));
    assert_eq!(parser.next_number(), Some(789));
    assert_eq!(parser.next_number(), None); // End of input
    assert_eq!(parser.next_number(), None); // End of input
}

#[test]
fn test_whitespace() {
    let mut parser = NumbersParser::new("  42   7  89 ");
    assert_eq!(parser.next_number(), Some(42));
    assert_eq!(parser.next_number(), Some(7));
    assert_eq!(parser.next_number(), Some(89));
    assert_eq!(parser.next_number(), None); // End of input
}

#[test]
fn numbers_across_lines_and_tabs() {
    let mut parser = NumbersParser::new("\n0\t10\n  999999999\n");
    assert_eq!(parser.next_number(), Some(0));
    assert_eq!(parser.next_number(), Some(10));
    assert_eq!(parser.next_number(), Some(999999999));
    assert_eq!(parser.next_number(), None);
}

#[test]
fn largest_number_fits() {
    let mut parser = NumbersParser::new("4294967295 1234567890");
    assert_eq!(parser.next_number(), Some(4294967295));
    assert_eq!(parser.next_number(), Some(1234567890));
    assert_eq!(parser.next_number(), None);
}
