use oracle::lexer::{lex, LexError, Tok};
use oracle::query::{parse, parse_tokens, Clauses, Parser, Query, Target};

#[test]
fn parses_paths_to_node() {
    let q = parse(r#"PATHS FROM user("alice") TO resource("prod")"#).unwrap();
    assert_eq!(
        q,
        Query::Paths {
            from_kind: "user".into(),
            from_id: "alice".into(),
            to: Target::Node {
                kind: "resource".into(),
                id: "prod".into()
            },
        }
    );
}

#[test]
fn parses_paths_to_action() {
    let q = parse(r#"paths from user("alice") to action("*")"#).unwrap();
    assert_eq!(
        q,
        Query::Paths {
            from_kind: "user".into(),
            from_id: "alice".into(),
            to: Target::Action("*".into()),
        }
    );
}

#[test]
fn parses_escalate_and_blast() {
    assert!(matches!(
        parse(r#"ESCALATE FROM user("alice")"#).unwrap(),
        Query::Escalate { .. }
    ));
    assert!(matches!(
        parse(r#"BLAST role("deployer")"#).unwrap(),
        Query::Blast { .. }
    ));
}

#[test]
fn rejects_garbage() {
    assert!(parse(r#"PATHS FROM user("alice")"#).is_err()); // missing TO
    assert!(parse(r#"FOO FROM user("x") TO resource("y")"#).is_err());
    assert!(parse(r#"PATHS FROM user("alice") TO resource("y") extra"#).is_err());
    assert!(parse(r#"PATHS FROM user(alice) TO resource("y")"#).is_err()); // unquoted
}

fn refusal(src: &str) -> String {
    match parse(src) {
        Err(e) => e.message(),
        Ok(q) => panic!("{q:?}"),
    }
}

#[test]
fn clauses_are_parsed() {
    let q = parse(r#"PATHS FROM user("alice") TO action("*") VIA can_assume, has_permission WITHIN 4 HOPS"#).unwrap();
    assert_eq!(
        q,
        Query::PathsWith {
            from_kind: "user".into(),
            from_id: "alice".into(),
            to: Target::Action("*".into()),
            clauses: Clauses {
                via: vec!["can_assume".into(), "has_permission".into()],
                within: Some(4),
                on: None,
            },
        }
    );
    let q = parse(r#"paths from user('a') to ACTION('s3:*') on Resource('arn:aws:s3:::b')"#).unwrap();
    assert_eq!(
        q,
        Query::PathsWith {
            from_kind: "user".into(),
            from_id: "a".into(),
            to: Target::Action("s3:*".into()),
            clauses: Clauses { via: vec![], within: None, on: Some("arn:aws:s3:::b".into()) },
        }
    );
}

#[test]
fn keywords_are_read_in_any_case_and_kinds_are_not() {
    assert_eq!(
        parse(r#"eScAlAtE fRoM User("a")"#).unwrap(),
        Query::Escalate { from_kind: "User".into(), from_id: "a".into() }
    );
}

#[test]
fn white_space_parts_tokens() {
    assert_eq!(
        parse(" \t BLAST\n role ( \"x y\" ) \u{a0}").unwrap(),
        Query::Blast { from_kind: "role".into(), from_id: "x y".into() }
    );
    assert_eq!(
        parse("BLAST role(\"x\")").unwrap(),
        parse("\n  BLAST role(\"x\")").unwrap()
    );
}

#[test]
fn faults_say_what_was_due() {
    assert_eq!(refusal("BLAST role(\"x"), "unterminated string literal");
    assert_eq!(refusal("BLAST role(\"x'"), "unterminated string literal");
    assert_eq!(refusal("BLAST ;"), "unexpected character ';'");
    assert_eq!(refusal("BLAST role[\"x\"]"), "unexpected character '['");
    assert_eq!(refusal("BLAST role \"x\""), "expected LParen, found Some(Str(\"x\"))");
    assert_eq!(refusal("BLAST role(\"x\", "), "expected RParen, found Some(Comma)");
    assert_eq!(refusal("BLAST role(\"x\""), "expected RParen, found None");
    assert_eq!(refusal("ESCALATE user(\"x\")"), "expected `FROM`, found Some(Word(\"user\"))");
    assert_eq!(refusal(r#"PATHS FROM user("alice")"#), "expected `TO`, found None");
    assert_eq!(refusal(""), "expected a keyword or identifier, found None");
    assert_eq!(refusal("(\"x\")"), "expected a keyword or identifier, found Some(LParen)");
    assert_eq!(refusal("BLAST role(x)"), "expected a quoted string, found Some(Word(\"x\"))");
    assert_eq!(refusal("BLAST role())"), "expected a quoted string, found Some(RParen)");
    assert_eq!(refusal("ESCALATE 'a\"\\b'"), "expected `FROM`, found Some(Str(\"a\\\"\\\\b\"))");
    assert_eq!(refusal("foo FROM"), "unknown query `FOO` (expected PATHS, ESCALATE, or BLAST)");
    assert_eq!(refusal("BLAST role(\"x\") y"), "unexpected trailing input after query");
    assert_eq!(
        refusal(r#"PATHS FROM user("a") TO user("b") WITHIN four HOPS"#),
        "expected a number of hops, found `four`"
    );
    assert_eq!(
        refusal(r#"PATHS FROM user("a") TO user("b") WITHIN 99999999999999999999999999 HOPS"#),
        "expected a number of hops, found `99999999999999999999999999`"
    );
    assert_eq!(
        refusal(r#"PATHS FROM user("a") TO user("b") WITHIN 4"#),
        "expected `HOPS`, found None"
    );
    assert_eq!(
        refusal(r#"PATHS FROM user("a") TO user("b") VIA"#),
        "expected a keyword or identifier, found None"
    );
    assert_eq!(
        refusal(r#"PATHS FROM user("a") TO user("b") ON resource("arn")"#),
        "ON needs an action(...) target"
    );
}

#[test]
fn words_hold_letters_of_any_script_and_some_signs() {
    assert_eq!(
        lex("é_9-a:*./Ω(").unwrap(),
        vec![Tok::Word("é_9-a:*./Ω".into()), Tok::LParen]
    );
    assert_eq!(lex("a,b").unwrap(), vec![Tok::Word("a".into()), Tok::Comma, Tok::Word("b".into())]);
    assert_eq!(lex("").unwrap(), vec![]);
    assert_eq!(lex("a $"), Err(LexError::Unexpected('$')));
    assert_eq!(lex("'a\"b' \"c'd\"").unwrap(), vec![Tok::Str("a\"b".into()), Tok::Str("c'd".into())]);
}

#[test]
fn tokens_are_parsed_as_texts_are() {
    let toks = lex(r#"BLAST role("x")"#).unwrap();
    assert_eq!(
        parse_tokens(toks).unwrap(),
        Query::Blast { from_kind: "role".into(), from_id: "x".into() }
    );
    assert!(parse_tokens(vec![Tok::Comma]).is_err());
}

#[test]
fn texts_lex_apart_and_together() {
    for (a, w, b) in [("BLAST", " ", "role(\"x\")"), ("a", "\t\n", "b"), ("", "  ", "a,'b c'"), ("x", "\r", "")] {
        let mut both = lex(a).unwrap();
        both.extend(lex(b).unwrap());
        assert_eq!(lex(&format!("{a}{w}{b}")).unwrap(), both);
    }
}

#[test]
fn tokens_written_with_spaces_lex_back() {
    let src = r#"PATHS FROM user('say "hi"') TO action("s3:*") VIA a,b-c WITHIN 4 HOPS ON resource("it's")"#;
    let toks = lex(src).unwrap();
    let shown: Vec<String> = toks
        .iter()
        .map(|t| match t {
            Tok::Word(w) => w.clone(),
            Tok::Str(s) if s.contains('"') => format!("'{s}'"),
            Tok::Str(s) => format!("\"{s}\""),
            Tok::LParen => "(".into(),
            Tok::RParen => ")".into(),
            Tok::Comma => ",".into(),
        })
        .collect();
    assert_eq!(lex(&shown.join(" ")).unwrap(), toks);
    assert!(toks.len() <= src.chars().count());
}

#[test]
fn written_queries_parse_back() {
    let clauses = |via: &[&str], within, on: Option<&str>| Clauses {
        via: via.iter().map(|s| s.to_string()).collect(),
        within,
        on: on.map(str::to_string),
    };
    let with = |to: Target, clauses: Clauses| Query::PathsWith {
        from_kind: "user".into(),
        from_id: "a (b)".into(),
        to,
        clauses,
    };
    let node = || Target::Node { kind: "role".into(), id: "".into() };
    let action = || Target::Action("s3:*".into());
    let paths = r#"PATHS FROM user("a (b)") TO"#;
    for (text, query) in [
        ("BLAST role(\"x\")".to_string(), Query::Blast { from_kind: "role".into(), from_id: "x".into() }),
        ("ESCALATE FROM Role(\"\")".to_string(), Query::Escalate { from_kind: "Role".into(), from_id: "".into() }),
        (
            format!(r#"{paths} role("")"#),
            Query::Paths { from_kind: "user".into(), from_id: "a (b)".into(), to: node() },
        ),
        (format!(r#"{paths} role("") VIA x, VIA"#), with(node(), clauses(&["x", "VIA"], None, None))),
        (format!(r#"{paths} role("") WITHIN 0 HOPS"#), with(node(), clauses(&[], Some(0), None))),
        (
            format!(r#"{paths} action("s3:*") VIA x WITHIN 12 HOPS ON resource("r")"#),
            with(action(), clauses(&["x"], Some(12), Some("r"))),
        ),
    ] {
        assert_eq!(parse(&text).unwrap(), query);
    }
}

#[test]
fn keywords_may_be_in_any_case_in_clauses_too() {
    assert_eq!(
        parse(r#"PATHS FROM user("a") TO action("b") VIA Via, ON WITHIN 3 HOPS ON resource("c")"#).unwrap(),
        parse(r#"paths From user("a") tO Action("b") via Via, ON within 3 hops on RESOURCE("c")"#).unwrap()
    );
    assert_ne!(
        parse(r#"PATHS FROM user("a") TO action("b") VIA Via"#).unwrap(),
        parse(r#"PATHS FROM user("a") TO action("b") VIA via"#).unwrap()
    );
}

#[test]
fn trailing_input_is_never_ignored() {
    for q in [
        r#"BLAST role("x")"#,
        r#"ESCALATE FROM role("x")"#,
        r#"PATHS FROM user("a") TO role("b")"#,
        r#"PATHS FROM user("a") TO action("b") VIA c"#,
        r#"PATHS FROM user("a") TO action("b") WITHIN 2 HOPS"#,
        r#"PATHS FROM user("a") TO action("b") ON resource("c")"#,
    ] {
        for more in ["x", "(", "'y'", "FROM", ";", "HOPS"] {
            assert!(parse(&format!("{q} {more}")).is_err(), "{q} {more}");
        }
        for more in ["", " ", "\t\n"] {
            assert_eq!(parse(&format!("{q} {more}")).unwrap(), parse(q).unwrap());
        }
    }
    assert!(parse(r#"BLAST role("x") VIA c"#).is_err());
    assert!(parse(r#"PATHS FROM user("a") TO role("b") , c"#).is_err());
    assert!(parse(r#"PATHS FROM user("a") TO action("b") VIA c , d"#).is_ok());
}

#[test]
fn parsers_keep_their_tokens_on_an_error() {
    let toks = lex("role ( x").unwrap();
    let mut p = Parser { toks: toks.clone(), pos: 0 };
    assert!(p.node_ref().is_err());
    assert_eq!((p.toks.clone(), p.pos), (toks.clone(), 3));
    assert!(p.expect(Tok::RParen).is_err());
    assert!(p.expect_word("FROM").is_err());
    assert!(p.word().is_err());
    assert!(p.string().is_err());
    assert_eq!((p.toks.clone(), p.pos), (toks.clone(), 3));
    p.pos = 1;
    assert!(p.expect_word("(").is_err());
    assert_eq!((p.toks, p.pos), (toks, 2));
}

#[test]
fn every_character_is_white_space_or_not() {
    let blank = |c: char| {
        matches!(
            c,
            '\t'..='\r'
                | ' '
                | '\u{85}'
                | '\u{a0}'
                | '\u{1680}'
                | '\u{2000}'..='\u{200a}'
                | '\u{2028}'
                | '\u{2029}'
                | '\u{202f}'
                | '\u{205f}'
                | '\u{3000}'
        )
    };
    for c in '\0'..=char::MAX {
        let toks = lex(&c.to_string());
        assert_eq!(toks == Ok(vec![]), blank(c), "{c:?}");
        if blank(c) {
            assert!(!c.is_alphanumeric());
            assert_eq!(lex(&format!("a{c}b")).unwrap(), vec![Tok::Word("a".into()), Tok::Word("b".into())]);
        }
    }
}

#[test]
fn long_lists_are_parsed() {
    let list = vec!["kind"; 100000].join(",");
    match parse(&format!(r#"PATHS FROM user("a") TO role("b") VIA {list}"#)).unwrap() {
        Query::PathsWith { clauses, .. } => assert_eq!(clauses.via.len(), 100000),
        q => panic!("{q:?}"),
    }
    assert_eq!(
        refusal(&format!(r#"PATHS FROM user("a") TO role("b") VIA {list},"#)),
        "expected a keyword or identifier, found None"
    );
}

#[test]
fn more_input_goes_on_with_a_query_or_is_refused() {
    let via = r#"PATHS FROM user("a") TO action("b") VIA c"#;
    for more in [", d", ", d, e", "WITHIN 2 HOPS", ", d WITHIN 2 HOPS ON resource('r')", "ON resource('r')"] {
        assert!(parse(&format!("{via} {more}")).is_ok(), "{more}");
    }
    for more in [",", ", d,", "d", ", d e", "VIA d", "WITHIN 2", ", 'd'", "ON resource", "ON resource('r') WITHIN 2 HOPS"] {
        assert!(parse(&format!("{via} {more}")).is_err(), "{more}");
    }
    let within = r#"PATHS FROM user("a") TO action("b") WITHIN 2 HOPS"#;
    assert!(parse(&format!("{within} ON resource('r')")).is_ok());
    for more in ["VIA c", ", d", "WITHIN 3 HOPS"] {
        assert!(parse(&format!("{within} {more}")).is_err(), "{more}");
    }
}
