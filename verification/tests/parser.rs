use buildparse::ast::{Node, NumForm};
use buildparse::parse::{parse, parse_arglist, parse_kvpair, parse_plus_assignment, parse_value,
    IdentMemo, Label, ParseFailure};
use buildparse::resolve::{parse_resolved, LineIndex};
use buildparse::utils::{LRange, Location};

fn value_of(s: &[u8]) -> Option<(Node<usize>, usize)> {
    let mut m = IdentMemo::new(s.len());
    let mut f = ParseFailure::empty();
    parse_value(s, 0, &mut m, &mut f)
}

fn num_value(s: &[u8]) -> f64 {
    let (node, end) = value_of(s).expect("number should parse");
    assert_eq!(end, s.len());
    match node {
        Node::Number { num, .. } => {
            let (neg, m, d) = num.value_parts().expect("value fits");
            let v = m as f64 / d as f64;
            if neg { -v } else { v }
        }
        other => panic!("expected a number node, got {:?}", other),
    }
}

#[test]
fn identifier_exact_text_and_range() {
    let s = b"foo_1";
    let mut m = IdentMemo::new(s.len());
    let mut f = ParseFailure::empty();
    let (node, end) = buildparse::parse::parse_identifier(s, 0, &mut m, &mut f).expect("identifier");
    assert_eq!(end, 5);
    match node {
        Node::Identifier { text, range } => {
            assert_eq!(text, b"foo_1".to_vec());
            assert_eq!(range, LRange { start: 0, end: 5 });
        }
        other => panic!("expected identifier, got {:?}", other),
    }
}

#[test]
fn identifier_rejects_digit_start() {
    let mut m = IdentMemo::new(4);
    let mut f = ParseFailure::empty();
    assert!(buildparse::parse::parse_identifier(b"1abc", 0, &mut m, &mut f).is_none());
}

#[test]
fn number_octal_round_trip() {
    assert_eq!(num_value(b"0o644"), 420.0);
}

#[test]
fn number_negative_hex_round_trip() {
    assert_eq!(num_value(b"-0x10"), -16.0);
}

#[test]
fn number_float_round_trip() {
    assert_eq!(num_value(b"1.5"), 1.5);
    assert_eq!(num_value(b"3.25"), 3.25);
    assert_eq!(num_value(b"-2.5"), -2.5);
}

#[test]
fn number_decimal_round_trip() {
    assert_eq!(num_value(b"42"), 42.0);
    assert_eq!(num_value(b"-7"), -7.0);
}

#[test]
fn number_forms_recorded() {
    let (node, _) = value_of(b"0x1F").expect("hex");
    match node {
        Node::Number { num, .. } => {
            assert_eq!(num.form, NumForm::Hex);
            assert_eq!(num.value_parts(), Some((false, 31, 1)));
        }
        other => panic!("expected number, got {:?}", other),
    }
}

#[test]
fn addition_flattens_three_operands() {
    let (node, end) = value_of(b"a + b + c").expect("addition");
    assert_eq!(end, 9);
    match node {
        Node::Addition { operands, .. } => {
            assert_eq!(operands.len(), 3);
            let names: Vec<&[u8]> = operands
                .iter()
                .map(|n| match n {
                    Node::Identifier { text, .. } => text.as_slice(),
                    other => panic!("expected identifier operand, got {:?}", other),
                })
                .collect();
            assert_eq!(names, vec![b"a".as_slice(), b"b".as_slice(), b"c".as_slice()]);
        }
        other => panic!("expected addition, got {:?}", other),
    }
}

#[test]
fn argument_lookahead_rejects_key_as_argument() {
    let mut m = IdentMemo::new(6);
    let mut f = ParseFailure::empty();
    let (node, end) = parse_arglist(b"b: 'c'", 0, &mut m, &mut f);
    assert_eq!(end, 0);
    match node {
        Node::Arglist { items, .. } => assert!(items.is_empty()),
        other => panic!("expected arglist, got {:?}", other),
    }
}

#[test]
fn key_value_accepts_key() {
    let mut m = IdentMemo::new(6);
    let mut f = ParseFailure::empty();
    let (node, end) = parse_kvpair(b"b: 'c'", 0, &mut m, &mut f).expect("key-value pair");
    assert_eq!(end, 6);
    match node {
        Node::KeyValue { key, value, .. } => {
            assert!(matches!(*key, Node::Identifier { .. }));
            assert!(matches!(*value, Node::Str { .. }));
        }
        other => panic!("expected key-value, got {:?}", other),
    }
}

#[test]
fn function_call_with_kwargs() {
    let root = parse(b"func(a, b: 'c')").expect("parse");
    let items = match root {
        Node::CodeBlock { items, .. } => items,
        other => panic!("expected code block, got {:?}", other),
    };
    assert_eq!(items.len(), 1);
    match &items[0] {
        Node::Function { callee, args, kwargs, .. } => {
            assert!(matches!(**callee, Node::Identifier { .. }));
            match &**args {
                Node::Arglist { items, .. } => {
                    assert_eq!(items.len(), 1);
                    assert!(matches!(items[0], Node::Identifier { .. }));
                }
                other => panic!("expected arglist, got {:?}", other),
            }
            match &**kwargs {
                Node::KwargList { items, .. } => {
                    assert_eq!(items.len(), 1);
                    match &items[0] {
                        Node::KeyValue { key, value, .. } => {
                            assert!(
                                matches!(&**key, Node::Identifier { text, .. } if text == b"b")
                            );
                            assert!(matches!(&**value, Node::Str { text, .. } if text == b"c"));
                        }
                        other => panic!("expected key-value, got {:?}", other),
                    }
                }
                other => panic!("expected kwarg list, got {:?}", other),
            }
        }
        other => panic!("expected function, got {:?}", other),
    }
}

#[test]
fn function_call_without_kwargs_has_empty_slot() {
    let root = parse(b"func(a)").expect("parse");
    let items = match root {
        Node::CodeBlock { items, .. } => items,
        other => panic!("expected code block, got {:?}", other),
    };
    match &items[0] {
        Node::Function { kwargs, .. } => assert!(matches!(**kwargs, Node::Empty { .. })),
        other => panic!("expected function, got {:?}", other),
    }
}

#[test]
fn member_access_two_parts() {
    let (node, end) = value_of(b"meson.project_name").expect("member access");
    assert_eq!(end, 18);
    match node {
        Node::MemberAccess { parts, .. } => {
            assert_eq!(parts.len(), 2);
            assert!(matches!(&parts[0], Node::Identifier { text, .. } if text == b"meson"));
            assert!(
                matches!(&parts[1], Node::Identifier { text, .. } if text == b"project_name")
            );
        }
        other => panic!("expected member access, got {:?}", other),
    }
}

#[test]
fn single_identifier_is_not_member_access() {
    let (node, _) = value_of(b"meson").expect("identifier");
    assert!(matches!(node, Node::Identifier { .. }));
}

#[test]
fn location_resolution_two_line_buffer() {
    let s = b"ab\ncd";
    assert_eq!(Location::from_offset(s, 0), Location { line: 1, col: 1 });
    assert_eq!(Location::from_offset(s, 3), Location { line: 2, col: 1 });
    assert_eq!(Location::from_offset(s, 5), Location { line: 2, col: 3 });
}

#[test]
fn line_index_matches_linear_resolution() {
    let s = b"ab\ncd\n\nx";
    let idx = LineIndex::new(s);
    for off in 0..=s.len() {
        assert_eq!(idx.resolve(off), Location::from_offset(s, off));
    }
}

#[test]
fn range_resolution_both_ends() {
    let s = b"ab\ncd";
    let r = LRange::from_offset(s, 0, 5);
    assert_eq!(r.start, Location { line: 1, col: 1 });
    assert_eq!(r.end, Location { line: 2, col: 3 });
}

#[test]
fn unterminated_string_reports_input_length() {
    let s = b"'abc";
    let mut m = IdentMemo::new(s.len());
    let mut f = ParseFailure::empty();
    assert!(parse_value(s, 0, &mut m, &mut f).is_none());
    assert_eq!(f.at, s.len());
    assert!(f.expected.contains(&Label::StringLit));
}

#[test]
fn unterminated_string_fails_whole_parse() {
    let s = b"x = 'abc";
    match parse(s) {
        Err(f) => assert_eq!(f.at, s.len()),
        Ok(t) => panic!("expected failure, got {:?}", t),
    }
}

#[test]
fn string_escapes_decoded() {
    let (node, _) = value_of(b"'a\\tb\\nc\\\\d'").expect("string");
    match node {
        Node::Str { text, .. } => assert_eq!(text, b"a\tb\nc\\d".to_vec()),
        other => panic!("expected string, got {:?}", other),
    }
}

#[test]
fn multiline_string_allows_newlines() {
    let (node, end) = value_of(b"'''a\nb'''").expect("multiline string");
    assert_eq!(end, 9);
    match node {
        Node::Str { text, .. } => assert_eq!(text, b"a\nb".to_vec()),
        other => panic!("expected string, got {:?}", other),
    }
}

#[test]
fn inline_string_rejects_raw_newline() {
    let mut m = IdentMemo::new(5);
    let mut f = ParseFailure::empty();
    assert!(parse_value(b"'a\nb'", 0, &mut m, &mut f).is_none());
}

#[test]
fn code_block_splits_on_newlines() {
    let root = parse(b"a = 1\nb = 2\n").expect("parse");
    match root {
        Node::CodeBlock { items, .. } => {
            assert_eq!(items.len(), 2);
            assert!(matches!(items[0], Node::Assignment { .. }));
            assert!(matches!(items[1], Node::Assignment { .. }));
        }
        other => panic!("expected code block, got {:?}", other),
    }
}

#[test]
fn instructions_on_one_line_rejected() {
    assert!(parse(b"a = 1 b = 2").is_err());
}

#[test]
fn empty_input_is_empty_block() {
    let root = parse(b"  \n ").expect("parse");
    match root {
        Node::CodeBlock { items, .. } => assert!(items.is_empty()),
        other => panic!("expected code block, got {:?}", other),
    }
}

#[test]
fn plus_assignment_standalone_rule_only() {
    let mut m = IdentMemo::new(6);
    let mut f = ParseFailure::empty();
    let (node, end) = parse_plus_assignment(b"a += 1", 0, &mut m, &mut f).expect("plus assignment");
    assert_eq!(end, 6);
    assert!(matches!(node, Node::PlusAssignment { .. }));
    assert!(parse(b"a += 1").is_err());
}

#[test]
fn array_and_dict_values() {
    let (node, _) = value_of(b"[1, 'x']").expect("array");
    match node {
        Node::Array { inner, .. } => match *inner {
            Node::Arglist { items, .. } => assert_eq!(items.len(), 2),
            other => panic!("expected arglist, got {:?}", other),
        },
        other => panic!("expected array, got {:?}", other),
    }
    let (node, _) = value_of(b"{a: 1, b: 'x'}").expect("dict");
    match node {
        Node::Dict { inner, .. } => match *inner {
            Node::KwargList { items, .. } => assert_eq!(items.len(), 2),
            other => panic!("expected kwarg list, got {:?}", other),
        },
        other => panic!("expected dict, got {:?}", other),
    }
}

#[test]
fn resolved_tree_has_line_columns() {
    let t = parse_resolved(b"x = 'y'\nz = 3").expect("parse and resolve");
    match t {
        Node::CodeBlock { items, .. } => {
            assert_eq!(items.len(), 2);
            match &items[1] {
                Node::Assignment { target, range, .. } => {
                    assert_eq!(range.start, Location { line: 2, col: 1 });
                    match &**target {
                        Node::Identifier { range, .. } => {
                            assert_eq!(range.start, Location { line: 2, col: 1 });
                            assert_eq!(range.end, Location { line: 2, col: 2 });
                        }
                        other => panic!("expected identifier, got {:?}", other),
                    }
                }
                other => panic!("expected assignment, got {:?}", other),
            }
        }
        other => panic!("expected code block, got {:?}", other),
    }
}

#[test]
fn failure_offset_resolves_to_location() {
    let s = b"x = 'abc";
    let f = parse(s).expect_err("failure");
    let loc = f.resolved_at(s).expect("in range");
    assert_eq!(loc, Location { line: 1, col: 9 });
}

#[test]
fn ordered_choice_prefers_function_over_identifier() {
    let (node, _) = value_of(b"f(1)").expect("call");
    assert!(matches!(node, Node::Function { .. }));
}

#[test]
fn huge_number_value_overflows_gracefully() {
    let (node, _) = value_of(b"99999999999999999999999999999999").expect("number");
    match node {
        Node::Number { num, .. } => assert_eq!(num.value_parts(), None),
        other => panic!("expected number, got {:?}", other),
    }
}

#[test]
fn crlf_separates_instructions() {
    let root = parse(b"a = 1\r\nb = 2").expect("parse");
    match root {
        Node::CodeBlock { items, .. } => assert_eq!(items.len(), 2),
        other => panic!("expected code block, got {:?}", other),
    }
}

#[test]
fn carriage_return_counts_on_preceding_line() {
    let s = b"a\r\nb";
    assert_eq!(Location::from_offset(s, 1), Location { line: 1, col: 2 });
    assert_eq!(Location::from_offset(s, 3), Location { line: 2, col: 1 });
}

#[test]
fn member_access_assignment_target() {
    let root = parse(b"a.b = 1").expect("parse");
    match root {
        Node::CodeBlock { items, .. } => match &items[0] {
            Node::Assignment { target, .. } => {
                assert!(matches!(&**target, Node::MemberAccess { .. }));
            }
            other => panic!("expected assignment, got {:?}", other),
        },
        other => panic!("expected code block, got {:?}", other),
    }
}

#[test]
fn call_with_two_kwargs() {
    let root = parse(b"f(x, a: 1, b: 'y')").expect("parse");
    match root {
        Node::CodeBlock { items, .. } => match &items[0] {
            Node::Function { kwargs, .. } => match &**kwargs {
                Node::KwargList { items, .. } => assert_eq!(items.len(), 2),
                other => panic!("expected kwarg list, got {:?}", other),
            },
            other => panic!("expected function, got {:?}", other),
        },
        other => panic!("expected code block, got {:?}", other),
    }
}

#[test]
fn empty_call_has_empty_arglist() {
    let root = parse(b"f()").expect("parse");
    match root {
        Node::CodeBlock { items, .. } => match &items[0] {
            Node::Function { args, kwargs, .. } => {
                assert!(matches!(&**args, Node::Arglist { items, .. } if items.is_empty()));
                assert!(matches!(**kwargs, Node::Empty { .. }));
            }
            other => panic!("expected function, got {:?}", other),
        },
        other => panic!("expected code block, got {:?}", other),
    }
}

#[test]
fn whitespace_tolerant_layout() {
    let root = parse(b"  \n a = [ 1 , 2 ]  \n ").expect("parse");
    match root {
        Node::CodeBlock { items, .. } => assert_eq!(items.len(), 1),
        other => panic!("expected code block, got {:?}", other),
    }
}

#[test]
fn unclosed_array_is_an_error() {
    assert!(parse(b"x = [1").is_err());
}

#[test]
fn bad_escape_is_an_error() {
    let s = b"x = 'a\\qb'";
    match parse(s) {
        Err(f) => assert_eq!(f.at, 6),
        Ok(t) => panic!("expected failure, got {:?}", t),
    }
}

#[test]
fn nested_array_values() {
    let (node, _) = value_of(b"[[1], 'a' + 'b']").expect("nested array");
    match node {
        Node::Array { inner, .. } => match *inner {
            Node::Arglist { items, .. } => {
                assert_eq!(items.len(), 2);
                assert!(matches!(items[0], Node::Array { .. }));
                assert!(matches!(items[1], Node::Addition { .. }));
            }
            other => panic!("expected arglist, got {:?}", other),
        },
        other => panic!("expected array, got {:?}", other),
    }
}
