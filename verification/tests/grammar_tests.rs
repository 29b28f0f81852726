use gramfuzz::grammar::generation::Generator;
use gramfuzz::grammar::parse_grammar;
use gramfuzz::grammar::validate_grammar::{validate_grammar, GrammarError};
use gramfuzz::grammar::{Grammar, Production, Token};
use gramfuzz::sample::TreeNodeItem;

fn token_shape(t: &Token) -> String {
    match t {
        Token::Identifier(n) => format!("id:{}", String::from_utf8_lossy(n)),
        Token::Literal(s) => format!("lit:{}", String::from_utf8_lossy(s)),
        Token::Hex(h) => format!("hex:{:?}", h),
        Token::Regex { pattern, size_limit, unicode } => {
            format!("re:{}:{}:{}", String::from_utf8_lossy(pattern), size_limit, unicode)
        }
        Token::Bytes { min, max } => format!("bytes:{}:{}", min, max),
    }
}

fn grammar_shape(g: &Grammar) -> Vec<(String, Vec<Vec<String>>)> {
    g.productions
        .iter()
        .map(|p: &Production| {
            (
                String::from_utf8_lossy(&p.lhs).to_string(),
                p.rhs.iter().map(|alt| alt.iter().map(token_shape).collect()).collect(),
            )
        })
        .collect()
}

#[test]
fn parses_the_reference_grammar() {
    let g = parse_grammar(
        "root  -> \"hello \" name ;\nname  -> re(\"[a-z]+\" size_limit=8) | bytes(1,4) | 0xdeadbeef ;",
    )
    .expect("grammar must parse");
    assert_eq!(g.productions.len(), 2);
    assert_eq!(g.productions[0].lhs, b"root".to_vec());
    assert_eq!(g.productions[0].rhs.len(), 1);
    assert_eq!(g.productions[1].rhs.len(), 3);
    match &g.productions[0].rhs[0][0] {
        Token::Literal(s) => assert_eq!(s, &b"hello ".to_vec()),
        other => panic!("expected literal, got {:?}", other),
    }
    match &g.productions[1].rhs[0][0] {
        Token::Regex { pattern, size_limit, unicode } => {
            assert_eq!(pattern, &b"[a-z]+".to_vec());
            assert_eq!(*size_limit, 8);
            assert!(!*unicode);
        }
        other => panic!("expected regex, got {:?}", other),
    }
    match &g.productions[1].rhs[1][0] {
        Token::Bytes { min, max } => {
            assert_eq!(*min, 1);
            assert_eq!(*max, 4);
        }
        other => panic!("expected bytes, got {:?}", other),
    }
    match &g.productions[1].rhs[2][0] {
        Token::Hex(h) => assert_eq!(h, &vec![0xde, 0xad, 0xbe, 0xef]),
        other => panic!("expected hex, got {:?}", other),
    }
}

#[test]
fn reparse_of_pretty_printed_text_is_structurally_equal() {
    let original = "root -> \"GET \" path \"\\n\" ;\npath -> \"/a\" | \"/b\" | path \"/a\" ;";
    let reformatted =
        "  root\n  ->\n  \"GET \" path \"\\n\"\n  ;\n  path -> \"/a\"\n   | \"/b\"\n   | path \"/a\" ;\n";
    let a = parse_grammar(original).expect("original parses");
    let b = parse_grammar(reformatted).expect("reformatted parses");
    assert_eq!(grammar_shape(&a), grammar_shape(&b));
}

#[test]
fn nothing_token_is_the_empty_literal() {
    let g = parse_grammar("root -> Nothing ;").expect("parses");
    match &g.productions[0].rhs[0][0] {
        Token::Literal(s) => assert!(s.is_empty()),
        other => panic!("expected empty literal, got {:?}", other),
    }
}

#[test]
fn escaped_quote_in_string_literal() {
    let g = parse_grammar("root -> \"a\\\"b\" ;").expect("parses");
    match &g.productions[0].rhs[0][0] {
        Token::Literal(s) => assert_eq!(s, &b"a\"b".to_vec()),
        other => panic!("expected literal, got {:?}", other),
    }
}

#[test]
fn odd_hex_digit_count_is_rejected() {
    assert!(parse_grammar("root -> 0xabc ;").is_err());
}

#[test]
fn bytes_with_reversed_bounds_is_rejected() {
    assert!(parse_grammar("root -> bytes(4,1) ;").is_err());
}

#[test]
fn bytes_single_width_form() {
    let g = parse_grammar("root -> bytes(7) ;").expect("parses");
    match &g.productions[0].rhs[0][0] {
        Token::Bytes { min, max } => {
            assert_eq!(*min, 7);
            assert_eq!(*max, 7);
        }
        other => panic!("expected bytes, got {:?}", other),
    }
}

#[test]
fn missing_root_is_reported() {
    let errs = parse_grammar("start -> \"x\" ;").unwrap_err();
    assert!(errs.iter().any(|e| matches!(e, GrammarError::MissingRoot)));
}

#[test]
fn unresolved_reference_is_reported_with_its_name() {
    let errs = parse_grammar("root -> ghost_rule ;").unwrap_err();
    assert!(errs.iter().any(|e| match e {
        GrammarError::UndefinedReference(n) => n == &b"ghost_rule".to_vec(),
        _ => false,
    }));
}

#[test]
fn multiple_validation_errors_are_aggregated() {
    let errs = parse_grammar("start -> one two ;").unwrap_err();
    assert!(errs.len() >= 3);
}

#[test]
fn validate_accepts_a_closed_grammar() {
    let g = parse_grammar("root -> item ; item -> \"x\" ;").expect("parses");
    assert!(validate_grammar(&g).is_ok());
}

#[test]
fn grammar_option_flags_are_readable() {
    let g = parse_grammar("depth = 12\nlabel = \"demo\"\nroot -> \"x\" ;").expect("parses");
    assert_eq!(g.options.get_int(b"depth"), Some(Ok(12)));
    assert_eq!(g.options.get(b"label"), Some(b"demo".to_vec()));
    assert_eq!(g.options.get(b"depth"), Some(b"12".to_vec()));
    assert_eq!(g.options.get(b"absent"), None);
}

#[test]
fn generated_sample_matches_the_grammar_prefix() {
    let g = parse_grammar("root -> \"GET \" path \"\\n\" ; path -> \"/a\" | \"/b\" | path \"/a\" ;")
        .expect("parses");
    let generator = Generator::new(g, 30);
    let sample = generator.generate().expect("generation succeeds");
    let folded = sample.get_folded();
    assert!(folded.starts_with(b"GET "));
    assert!(folded.ends_with(b"\\n"));
}

#[test]
fn bytes_token_emits_exact_fixed_length() {
    let g = parse_grammar("root -> bytes(5) ;").expect("parses");
    let generator = Generator::new(g, 10);
    for _ in 0..16 {
        let sample = generator.generate().expect("generation succeeds");
        assert_eq!(sample.get_folded().len(), 5);
    }
}

#[test]
fn bytes_token_emits_length_within_range() {
    let g = parse_grammar("root -> bytes(2,6) ;").expect("parses");
    let generator = Generator::new(g, 10);
    for _ in 0..32 {
        let sample = generator.generate().expect("generation succeeds");
        let len = sample.get_folded().len();
        assert!((2..=6).contains(&len));
    }
}

#[test]
fn regex_terminal_generates_matching_bytes() {
    let g = parse_grammar("root -> re(\"[a-z]+\" size_limit=8) ;").expect("parses");
    let generator = Generator::new(g, 10);
    let sample = generator.generate().expect("generation succeeds");
    assert!(!sample.get_folded().is_empty());
    assert!(sample.get_folded().iter().all(|b| b.is_ascii_lowercase()));
}

#[test]
fn invalid_regex_fails_the_parse() {
    assert!(parse_grammar("root -> re(\"[\") ;").is_err());
}

#[test]
fn generated_tree_applies_the_root_rule() {
    let g = parse_grammar("root -> \"x\" ;").expect("parses");
    let generator = Generator::new(g, 10);
    let sample = generator.generate().expect("generation succeeds");
    let (tree, folded) = sample.strip();
    assert_eq!(folded, b"x".to_vec());
    match tree.item {
        TreeNodeItem::ProductionApplication(pa) => {
            assert_eq!(pa.rule_name, b"root".to_vec());
            assert_eq!(pa.production_variant, 0);
            assert_eq!(pa.items.len(), 1);
        }
        TreeNodeItem::Data(_) => panic!("root must be a production application"),
    }
}

#[test]
fn later_production_with_same_name_replaces_earlier() {
    let g = parse_grammar("root -> \"a\" ;\nroot -> \"b\" ;").expect("parses");
    assert_eq!(g.productions.len(), 1);
    match &g.productions[0].rhs[0][0] {
        Token::Literal(s) => assert_eq!(s, &b"b".to_vec()),
        other => panic!("expected literal, got {:?}", other),
    }
}

#[test]
fn empty_grammar_has_no_productions() {
    let g = Grammar::empty();
    assert!(g.productions.is_empty());
}

#[test]
fn adjacent_tokens_need_no_whitespace() {
    let g = parse_grammar("root -> 0xff\"x\"name ;\nname -> \"n\" ;").expect("parses");
    assert_eq!(g.productions[0].rhs[0].len(), 3);
    assert!(matches!(&g.productions[0].rhs[0][0], Token::Hex(h) if h == &vec![0xff]));
    assert!(matches!(&g.productions[0].rhs[0][1], Token::Literal(s) if s == &b"x".to_vec()));
    assert!(matches!(&g.productions[0].rhs[0][2], Token::Identifier(n) if n == &b"name".to_vec()));
}

#[test]
fn later_flag_value_overrides_earlier() {
    let g = parse_grammar("depth = 3\ndepth = 9\nroot -> \"x\" ;").expect("parses");
    assert_eq!(g.options.get_int(b"depth"), Some(Ok(9)));
}
