use brace_expand::CharTryFromError;
use brace_expand::Expression;
use brace_expand::List;
use brace_expand::Part;
use brace_expand::parser;

fn collect_all(expression: Expression) -> Result<Vec<String>, CharTryFromError> {
    let mut it = expression.into_iter();
    let mut out = Vec::new();
    while let Some(item) = it.next() {
        out.push(item?);
    }
    Ok(out)
}

#[test]
fn test_simple_list() {
    let expression: Expression = Expression::try_from("{a,b,c}").unwrap();
    let generated: Result<Vec<_>, _> = collect_all(expression);
    let expected: Vec<_> = vec!["a", "b", "c"];
    assert_eq!(generated.unwrap(), expected);
}

#[test]
fn test_simple_list_empties() {
    let expression: Expression = Expression::try_from("{a,,,b,c}").unwrap();
    let generated: Result<Vec<_>, _> = collect_all(expression);
    let expected: Vec<_> = vec!["a", "", "", "b", "c"];
    assert_eq!(generated.unwrap(), expected);
}

#[test]
fn test_list_escapes() {
    let expression: Expression = Expression::try_from(r"{a,b\,c,d\{e,f\}\\g}").unwrap();
    let generated: Result<Vec<_>, _> = collect_all(expression);
    let expected: Vec<_> = vec!["a", "b,c", "d{e", r"f}\g"];
    assert_eq!(generated.unwrap(), expected);
}

#[test]
fn test_nested_list() {
    let expression: Expression =
        Expression::try_from(r"s{a,b{,c,d{e,f}g,h{i,j{k}l,m{}n}o}p,q}r").unwrap();
    let generated: Result<Vec<_>, _> = collect_all(expression);
    let expected: Vec<_> = vec![
        "sar",
        "sbpr",
        "sbcpr",
        "sbdegpr",
        "sbdfgpr",
        "sbhiopr",
        "sbhjklopr",
        "sbhmnopr",
        "sqr",
    ];
    assert_eq!(generated.unwrap(), expected);
}

#[test]
fn test_list_with_empty_part() {
    let expression: Expression = Expression::try_from("{a,,c}").unwrap();
    let generated: Result<Vec<_>, _> = collect_all(expression);
    let expected: Vec<_> = vec!["a", "", "c"];
    assert_eq!(generated.unwrap(), expected);
}

#[test]
fn test_expression() {
    let expression: Expression = Expression::try_from("a{b,c,}d{1..2}e").unwrap();
    let generated: Result<Vec<_>, _> = collect_all(expression);
    let expected = vec!["abd1e", "abd2e", "acd1e", "acd2e", "ad1e", "ad2e"];
    assert_eq!(generated.unwrap(), expected);
}

#[test]
fn test_char_sequence() {
    let expression: Expression = Expression::try_from("a{d..f}g").unwrap();
    let generated: Result<Vec<_>, _> = collect_all(expression);
    let expected = vec!["adg", "aeg", "afg"];
    assert_eq!(generated.unwrap(), expected);
}

#[test]
fn test_negative_number_sequence() {
    let expression: Expression = Expression::try_from("a{-10..10..3}g").unwrap();
    let generated: Result<Vec<_>, _> = collect_all(expression);
    let expected = vec!["a-10g", "a-7g", "a-4g", "a-1g", "a2g", "a5g", "a8g"];
    assert_eq!(generated.unwrap(), expected);
}

#[test]
fn test_decreasing_negative_number_sequence() {
    let expression: Expression = Expression::try_from("a{-10..10..3}g").unwrap();
    let generated: Result<Vec<_>, _> = collect_all(expression);
    let expected = vec!["a-10g", "a-7g", "a-4g", "a-1g", "a2g", "a5g", "a8g"];
    assert_eq!(generated.unwrap(), expected);
}

#[test]
fn test_escaped_char_sequence() {
    let expression: Expression = Expression::try_from(r"a{z..\}}b{\...\{..77}c").unwrap();
    let generated: Result<Vec<_>, _> = collect_all(expression);
    let expected = vec![
        "azb.c", "azb{c", "a{b.c", "a{b{c", "a|b.c", "a|b{c", "a}b.c", "a}b{c",
    ];
    assert_eq!(generated.unwrap(), expected);
}

#[test]
fn test_equal_width_negative() {
    let expression: Expression = Expression::try_from(r"{=-1..1000..300}").unwrap();
    let generated: Result<Vec<_>, _> = collect_all(expression);
    let expected = vec!["-001", "0299", "0599", "0899"];
    assert_eq!(generated.unwrap(), expected);
}

#[test]
fn test_display() {
    let test_cases = [
        "{a,b,c}",
        "{a,,,b,c}",
        r"{a,b\,c,d\{e,f\}\\g}",
        r"s{a,b{,c,d{e,f}g,h{i,j{k}l,m{}n}o}p,q}r",
        "{a,,c}",
        "a{b,c,}d{1..2}e",
        "a{d..f}g",
        "a{-10..10..3}g",
        "a{-10..10..3}g",
        r"a{z..\}}b{\...\{..77}c",
        r"{=-1..1000..300}",
    ];
    for test_case in test_cases {
        assert_eq!(Expression::try_from(test_case).unwrap().fmt(), test_case);
    }
}

#[test]
fn test_empty_input_yields_one_empty_string() {
    let expression: Expression = Expression::try_from("").unwrap();
    let generated: Result<Vec<_>, _> = collect_all(expression);
    let expected: Vec<&str> = vec![""];
    assert_eq!(generated.unwrap(), expected);
}

#[test]
fn test_plain_only_input_expands_to_itself() {
    let expression: Expression = Expression::try_from(r"hello \{world\}").unwrap();
    let generated: Result<Vec<_>, _> = collect_all(expression);
    let expected = vec!["hello {world}"];
    assert_eq!(generated.unwrap(), expected);
}

#[test]
fn test_empty_braces_hold_one_empty_member() {
    let expression: Expression = Expression::try_from("a{}b").unwrap();
    let generated: Result<Vec<_>, _> = collect_all(expression);
    let expected = vec!["ab"];
    assert_eq!(generated.unwrap(), expected);
}

#[test]
fn test_list_contributes_sum_of_member_counts() {
    // members produce 1, 3 and 1 items: 5 in all, in member order
    let expression: Expression = Expression::try_from("{x,{1..3}y,z}").unwrap();
    let generated: Result<Vec<_>, _> = collect_all(expression);
    let expected = vec!["x", "1y", "2y", "3y", "z"];
    assert_eq!(generated.unwrap(), expected);
}

#[test]
fn test_product_first_segment_slowest() {
    let expression: Expression = Expression::try_from("{a,b}{1..2}").unwrap();
    let generated: Result<Vec<_>, _> = collect_all(expression);
    let expected = vec!["a1", "a2", "b1", "b2"];
    assert_eq!(generated.unwrap(), expected);
}

#[test]
fn test_range_count_uneven_step() {
    // floor(|10 - 1| / 4) + 1 = 3 items, the end not landed on exactly
    let expression: Expression = Expression::try_from("{1..10..4}").unwrap();
    let generated: Result<Vec<_>, _> = collect_all(expression);
    let expected = vec!["1", "5", "9"];
    assert_eq!(generated.unwrap(), expected);
}

#[test]
fn test_fixed_width_all_items_equal_length() {
    let expression: Expression = Expression::try_from("{=1..100..25}").unwrap();
    let generated: Result<Vec<_>, _> = collect_all(expression);
    let expected = vec!["001", "026", "051", "076"];
    assert_eq!(generated.unwrap(), expected);
}

#[test]
fn test_unmatched_open_brace_is_error() {
    assert!(Expression::try_from("{a").is_err());
}

#[test]
fn test_stray_close_brace_is_error() {
    assert!(Expression::try_from("a}b").is_err());
}

#[test]
fn test_trailing_backslash_is_error() {
    assert!(Expression::try_from(r"abc\").is_err());
}

#[test]
fn test_backslash_before_ordinary_character_is_error() {
    assert!(Expression::try_from(r"a\bc").is_err());
}

#[test]
fn test_parse_error_offset_and_message() {
    let err = parser::expression("ab{cd").unwrap_err();
    assert_eq!(err.offset, 2);
    assert_eq!(err.context, "{cd");
    assert_eq!(err.message(), "brace pattern parse error at character 2: {cd");
}

#[test]
fn test_overlong_number_parses_as_list() {
    // the numeric token does not fit in 64 bits, so the numeric and
    // character range forms fail and the braces parse as a list
    let expression: Expression = Expression::try_from("{99999999999999999999..0}").unwrap();
    let generated: Result<Vec<_>, _> = collect_all(expression);
    let expected = vec!["99999999999999999999..0"];
    assert_eq!(generated.unwrap(), expected);
}

#[test]
fn test_from_str_parses() {
    let expression: Expression = "{a,b}".parse().unwrap();
    let generated: Result<Vec<_>, _> = collect_all(expression);
    let expected = vec!["a", "b"];
    assert_eq!(generated.unwrap(), expected);
}

#[test]
fn test_into_owned_keeps_the_tree() {
    let expression: Expression = Expression::try_from("a{b,c}").unwrap();
    let owned = expression.into_owned();
    assert_eq!(owned.fmt(), "a{b,c}");
}

#[test]
fn test_part_into_iter_single_literal() {
    let part = Part::Plain(String::from("xy")).into_owned();
    let mut it = part.into_iter();
    assert_eq!(it.next().unwrap().unwrap(), "xy");
    assert!(it.next().is_none());
}

#[test]
fn test_list_into_iter_flattens_members() {
    let list = List(vec![
        Part::Plain(String::from("a")),
        Part::Plain(String::from("b")),
    ])
    .into_owned();
    let mut it = list.into_iter();
    assert_eq!(it.next().unwrap().unwrap(), "a");
    assert_eq!(it.next().unwrap().unwrap(), "b");
    assert!(it.next().is_none());
}

#[test]
fn test_zero_step_coerced_to_one() {
    let expression: Expression = Expression::try_from("{1..3..0}").unwrap();
    let generated: Result<Vec<_>, _> = collect_all(expression);
    let expected = vec!["1", "2", "3"];
    assert_eq!(generated.unwrap(), expected);
}

#[test]
fn test_surrogate_in_char_range_is_item_error() {
    let expression: Expression = Expression::try_from("{\u{D7FF}..\u{E000}}").unwrap();
    let generated: Result<Vec<_>, _> = collect_all(expression);
    assert!(generated.is_err());
}
