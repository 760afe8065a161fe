use nix_build_graph::aterm::{
    parse_char, parse_derivation, parse_drv_input, parse_env, parse_list, parse_output,
    parse_string, parse_tag, ErrorKind, ParseError,
};
use nix_build_graph::paths::{DrvPath, OutputName, StorePath};

const DERIVATION: &str = r#"Derive([("out","/nix/store/00000000000000000000000000000000-a","","")],[("/nix/store/11111111111111111111111111111111-b.drv",["out","dev"])],["/nix/store/22222222222222222222222222222222-src"],"x86_64-linux","/bin/sh",["-c","echo \"hi\"\n"],[("name","a"),("preferLocalBuild","1")])"#;

#[test]
fn test_parse_string() {
    assert_eq!(parse_string(r#""foo""#), Ok(("", "foo".to_string())));
    assert_eq!(
        parse_string(r#""foo\"bar""#),
        Ok(("", r#"foo"bar"#.to_string()))
    );
    assert_eq!(
        parse_string(r#""foo\nbar""#),
        Ok(("", "foo\nbar".to_string()))
    );
    assert_eq!(
        parse_string(r#""foo\rbar""#),
        Ok(("", "foo\rbar".to_string()))
    );
    assert_eq!(
        parse_string(r#""foo\tbar""#),
        Ok(("", "foo\tbar".to_string()))
    );
}

#[test]
fn test_parse_output() {
    assert_eq!(
        parse_output(r#"("name","path","hash_algo","hash")"#),
        Ok((
            "",
            (
                OutputName("name".to_string()),
                StorePath("path".to_string())
            )
        ))
    );
}

#[test]
fn test_parse_drv_input() {
    assert_eq!(
        parse_drv_input(r#"("path",["output1","output2"])"#),
        Ok((
            "",
            (
                DrvPath("path".to_string()),
                vec![
                    OutputName("output1".to_string()),
                    OutputName("output2".to_string())
                ]
            )
        ))
    );
}

#[test]
fn test_parse_env() {
    assert_eq!(
        parse_env(r#"("name","value")"#),
        Ok(("", ("name".to_string(), "value".to_string())))
    );
}

#[test]
fn test_parse_list() {
    assert_eq!(
        parse_list(parse_string, r#"["foo","bar"]"#),
        Ok(("", vec!["foo".to_string(), "bar".to_string()]))
    );
}

#[test]
fn string_errors_say_where_the_string_begins() {
    assert_eq!(
        parse_string("foo"),
        Err(ParseError { input: "foo", code: ErrorKind::Char })
    );
    assert_eq!(
        parse_string("\"foo"),
        Err(ParseError { input: "foo", code: ErrorKind::Eof })
    );
    assert_eq!(
        parse_string("\"foo\\"),
        Err(ParseError { input: "foo\\", code: ErrorKind::Eof })
    );
    assert_eq!(
        parse_string("\"foo\\x\""),
        Err(ParseError { input: "foo\\x\"", code: ErrorKind::Char })
    );
    assert_eq!(
        parse_string(""),
        Err(ParseError { input: "", code: ErrorKind::Char })
    );
}

#[test]
fn string_leaves_what_is_behind_it() {
    assert_eq!(parse_string("\"a\\\\b\",rest"), Ok((",rest", "a\\b".to_string())));
    assert_eq!(parse_string("\"é\"é"), Ok(("é", "é".to_string())));
    assert_eq!(parse_string("\"\""), Ok(("", String::new())));
}

#[test]
fn written_string_is_read_back() {
    let value = "a\"b\\c\nd\re\tf";
    let mut written = String::from("\"");
    for c in value.chars() {
        match c {
            '"' => written.push_str("\\\""),
            '\\' => written.push_str("\\\\"),
            '\n' => written.push_str("\\n"),
            '\r' => written.push_str("\\r"),
            '\t' => written.push_str("\\t"),
            _ => written.push(c),
        }
    }
    written.push_str("\"behind");
    assert_eq!(parse_string(&written), Ok(("behind", value.to_string())));
}

#[test]
fn list_needs_no_commas() {
    assert_eq!(
        parse_list(parse_string, r#"["a""b","c",]x"#),
        Ok(("x", vec!["a".to_string(), "b".to_string(), "c".to_string()]))
    );
    assert_eq!(parse_list(parse_string, "[]"), Ok(("", vec![])));
}

#[test]
fn list_errors() {
    assert_eq!(
        parse_list(parse_string, "x"),
        Err(ParseError { input: "x", code: ErrorKind::Char })
    );
    assert_eq!(
        parse_list(parse_string, r#"["a","b"#),
        Err(ParseError { input: "\"b", code: ErrorKind::Char })
    );
    assert_eq!(
        parse_list(parse_string, "[,]"),
        Err(ParseError { input: ",]", code: ErrorKind::Char })
    );
}

fn takes_nothing(input: &str) -> Result<(&str, bool), ParseError<'_>> {
    Ok((input, true))
}

#[test]
fn list_of_items_without_text_is_refused() {
    assert_eq!(
        parse_list(takes_nothing, "[x]"),
        Err(ParseError { input: "x]", code: ErrorKind::Many0 })
    );
}

#[test]
fn single_characters_and_words() {
    assert_eq!(parse_char("(a", '('), Ok("a"));
    assert_eq!(
        parse_char("a", '('),
        Err(ParseError { input: "a", code: ErrorKind::Char })
    );
    assert_eq!(parse_tag("Derive(x", "Derive("), Ok("x"));
    assert_eq!(
        parse_tag("Deriv", "Derive("),
        Err(ParseError { input: "Deriv", code: ErrorKind::Tag })
    );
}

#[test]
fn output_input_and_env_errors() {
    assert_eq!(
        parse_output(r#"("a","b","c")"#),
        Err(ParseError { input: ")", code: ErrorKind::Char })
    );
    assert_eq!(
        parse_drv_input(r#"("a","b")"#),
        Err(ParseError { input: "\"b\")", code: ErrorKind::Char })
    );
    assert_eq!(
        parse_env(r#"("a";"b")"#),
        Err(ParseError { input: ";\"b\")", code: ErrorKind::Char })
    );
}

#[test]
fn derivation_is_read() {
    let (rest, drv) = match parse_derivation(DERIVATION) {
        Ok(read) => read,
        Err(error) => panic!("{:?}", error),
    };
    assert_eq!(rest, "");
    assert_eq!(
        drv.outputs,
        vec![(
            OutputName("out".to_string()),
            StorePath("/nix/store/00000000000000000000000000000000-a".to_string())
        )]
    );
    assert_eq!(
        drv.inputs,
        vec![(
            DrvPath("/nix/store/11111111111111111111111111111111-b.drv".to_string()),
            vec![OutputName("out".to_string()), OutputName("dev".to_string())]
        )]
    );
    assert_eq!(
        drv.env,
        vec![
            ("name".to_string(), "a".to_string()),
            ("preferLocalBuild".to_string(), "1".to_string())
        ]
    );
}

#[test]
fn text_behind_a_derivation_is_left() {
    let longer = format!("{}\nmore", DERIVATION);
    match parse_derivation(&longer) {
        Ok((rest, _)) => assert_eq!(rest, "\nmore"),
        Err(error) => panic!("{:?}", error),
    }
}

#[test]
fn derivation_errors() {
    match parse_derivation("Deriv(") {
        Ok(_) => panic!("read"),
        Err(error) => assert_eq!(error, ParseError { input: "Deriv(", code: ErrorKind::Tag }),
    }
    match parse_derivation("Derive([],[],[],\"s\",\"b\",[],[]") {
        Ok(_) => panic!("read"),
        Err(error) => assert_eq!(error, ParseError { input: "", code: ErrorKind::Tag }),
    }
    match parse_derivation("Derive([],[],[],\"s\",\"b\",[])") {
        Ok(_) => panic!("read"),
        Err(error) => assert_eq!(error, ParseError { input: ")", code: ErrorKind::Char }),
    }
}

#[test]
fn dropped_fields_do_not_matter() {
    let text = |algo: &str, hash: &str, rest: &str| {
        format!(
            "Derive([(\"out\",\"/1\",{},{}),(\"dev\",\"/2\",\"\",\"\")],[(\"/b.drv\",[\"out\"])],{},[(\"k\"\
             ,\"v\")])behind",
            algo, hash, rest
        )
    };
    let one = text("\"\"", "\"\"", r#"[],"s","b",[]"#);
    let other = text(
        r#""r:sha256""#,
        r#""a\"),\n(""#,
        r#"["/x""/y",],"x86_64-linux","/bin/sh \"]",["-c","),[]"]"#,
    );
    assert_ne!(one, other);
    assert!(parse_derivation(&one).is_ok());
    assert_eq!(parse_derivation(&one), parse_derivation(&other));
    match parse_derivation(&other) {
        Ok((rest, drv)) => {
            assert_eq!(rest, "behind");
            assert_eq!(drv.outputs.len(), 2);
            assert_eq!(drv.env, vec![("k".to_string(), "v".to_string())]);
        }
        Err(error) => panic!("{:?}", error),
    }
}
