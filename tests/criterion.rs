use top_cards::{parse_card_criterion, parse_format_patterns};

#[test]
fn test_parse_card_criterion_with_count() {
    let criterion = parse_card_criterion("4 Lightning Bolt");
    assert_eq!(criterion.name, "Lightning Bolt");
    assert_eq!(criterion.count, Some(4));
}

#[test]
fn test_parse_card_criterion_without_count() {
    let criterion = parse_card_criterion("Lightning Bolt");
    assert_eq!(criterion.name, "Lightning Bolt");
    assert_eq!(criterion.count, None);
}

#[test]
fn test_parse_card_criterion_with_extra_whitespace() {
    let criterion = parse_card_criterion("  4   Ragavan, Nimble Pilferer  ");
    assert_eq!(criterion.name, "Ragavan, Nimble Pilferer");
    assert_eq!(criterion.count, Some(4));
}

#[test]
fn test_parse_card_criterion_single_copy() {
    let criterion = parse_card_criterion("1 Emrakul, the Aeons Torn");
    assert_eq!(criterion.name, "Emrakul, the Aeons Torn");
    assert_eq!(criterion.count, Some(1));
}

#[test]
fn test_parse_card_criterion_card_starting_with_number() {
    // A name that starts with digits reads them as a count.
    let criterion = parse_card_criterion("97th Regiment");
    assert_eq!(criterion.name, "th Regiment");
    assert_eq!(criterion.count, Some(97));
}

#[test]
fn test_parse_card_criterion_empty_string() {
    let criterion = parse_card_criterion("");
    assert_eq!(criterion.name, "");
    assert_eq!(criterion.count, None);
}

#[test]
fn digits_alone_are_a_name() {
    let criterion = parse_card_criterion(" 42 ");
    assert_eq!(criterion.name, "42");
    assert_eq!(criterion.count, None);
}

#[test]
fn count_too_large_for_u32_is_dropped() {
    let criterion = parse_card_criterion("99999999999 Lightning Bolt");
    assert_eq!(criterion.name, "Lightning Bolt");
    assert_eq!(criterion.count, None);
}

#[test]
fn leading_zeros_and_tabs() {
    let criterion = parse_card_criterion("\t004\u{a0} Thoughtseize\n");
    assert_eq!(criterion.name, "Thoughtseize");
    assert_eq!(criterion.count, Some(4));
}

#[test]
fn format_list_is_split_and_trimmed() {
    let patterns = parse_format_patterns("Standard, Modern ,Pioneer,,Legacy ");
    assert_eq!(patterns, vec!["Standard", "Modern", "Pioneer", "", "Legacy"]);
    assert_eq!(parse_format_patterns(""), vec![""]);
}
