use comma_separated::CommaSeparatedIterator;

fn forward_tokens<'a>(input: &'a str) -> Vec<&'a str> {
    let mut it = CommaSeparatedIterator::new(input);
    let mut out = Vec::new();
    while let Some(tok) = it.next() {
        out.push(tok);
    }
    out
}

fn backward_tokens<'a>(input: &'a str) -> Vec<&'a str> {
    let mut it = CommaSeparatedIterator::new(input);
    let mut out = Vec::new();
    while let Some(tok) = it.next_back() {
        out.push(tok);
    }
    out
}

#[test]
fn test_comma_separated_iterator() {
    assert_eq!(
        vec!["abc", "def", " ghi", "\tjkl", "mno", "\tpqr"],
        forward_tokens("abc,def, ghi,\tjkl,mno,\tpqr")
    );
    assert_eq!(
        vec!["\tpqr", "mno", "\tjkl", " ghi", "def", "abc"],
        backward_tokens("abc,def, ghi,\tjkl,mno,\tpqr")
    );

    assert_eq!(
        vec![
            r#""abc,def""#,
            " \"ghi\"",
            "\"jkl\" ",
            " \"mno\"",
            "pqr",
            " \"abc, def\"",
            " foo",
            " \" foo\"",
            " ',foo'",
            " \"fo'o\"",
        ],
        forward_tokens(r#""abc,def", "ghi","jkl" , "mno",pqr, "abc, def", foo, " foo", ',foo', "fo'o""#)
    );
    assert_eq!(
        vec![
            " \"fo'o\"",
            " ',foo'",
            " \" foo\"",
            " foo",
            " \"abc, def\"",
            "pqr",
            " \"mno\"",
            "\"jkl\" ",
            " \"ghi\"",
            r#""abc,def""#,
        ],
        backward_tokens(r#""abc,def", "ghi","jkl" , "mno",pqr, "abc, def", foo, " foo", ',foo', "fo'o""#)
    );

    let mut iter = CommaSeparatedIterator::new("a,b,c,d");
    assert_eq!(Some("a"), iter.next());
    assert_eq!(Some("d"), iter.next_back());
    assert_eq!(Some("b"), iter.next());
    assert_eq!(Some("c"), iter.next_back());
}

#[test]
fn test_empty_input_is_exhausted() {
    let mut it = CommaSeparatedIterator::new("");
    assert_eq!(None, it.next());
    assert_eq!(None, it.next());
    let mut it = CommaSeparatedIterator::new("");
    assert_eq!(None, it.next_back());
}

#[test]
fn test_two_commas_three_empty_tokens() {
    assert_eq!(vec!["", "", ""], forward_tokens(",,"));
    assert_eq!(vec!["", "", ""], backward_tokens(",,"));
    let mut it = CommaSeparatedIterator::new(",,");
    assert_eq!(Some(""), it.next());
    assert_eq!(Some(""), it.next_back());
    assert_eq!(Some(""), it.next());
    assert_eq!(None, it.next());
    assert_eq!(None, it.next_back());
}

#[test]
fn test_trailing_and_leading_commas() {
    assert_eq!(vec!["a", ""], forward_tokens("a,"));
    assert_eq!(vec!["", "a"], forward_tokens(",a"));
    assert_eq!(vec!["", "a"], backward_tokens("a,"));
    assert_eq!(vec!["','"], forward_tokens("','"));
}

#[test]
fn test_no_quotes_equals_naive_split() {
    for input in ["x,y,,z", "a b ,c\t,d", "one", ",", "a,,b,"] {
        let naive: Vec<&str> = input.split(',').collect();
        assert_eq!(naive, forward_tokens(input));
    }
}

#[test]
fn test_round_trip_join() {
    for input in [
        "abc,def, ghi,\tjkl,mno,\tpqr",
        r#""abc,def", "ghi","jkl" , "mno",pqr, "abc, def", foo, " foo", ',foo', "fo'o""#,
        ",,",
        "a,",
        "",
        r#"'a\',b',c"#,
        r#""unterminated, quote"#,
    ] {
        assert_eq!(input, forward_tokens(input).join(","));
    }
}

#[test]
fn test_reverse_equivalence() {
    for input in [
        r#"foo,"bar",'quoted, part'"#,
        "a,b,c,d",
        ",,",
        r#"'a\',b',c"#,
        "no commas at all",
    ] {
        let mut fwd = forward_tokens(input);
        fwd.reverse();
        assert_eq!(fwd, backward_tokens(input));
    }
}

#[test]
fn test_interleaving_converges() {
    let input = "a,b,c,d,e";
    let expected = vec!["a", "e", "b", "d", "c"];
    let mut it = CommaSeparatedIterator::new(input);
    let mut seen = Vec::new();
    let mut from_front = true;
    loop {
        let tok = if from_front { it.next() } else { it.next_back() };
        match tok {
            Some(t) => seen.push(t),
            None => break,
        }
        from_front = !from_front;
    }
    assert_eq!(expected, seen);
    assert_eq!(None, it.next());
    assert_eq!(None, it.next_back());
}

#[test]
fn test_quote_preservation() {
    assert_eq!(vec!["'q,x'", "r"], forward_tokens("'q,x',r"));
    assert_eq!(vec!["\"q,x\"", "r"], forward_tokens("\"q,x\",r"));
    assert_eq!(
        vec!["foo", "\"bar\"", "'quoted, part'"],
        forward_tokens(r#"foo,"bar",'quoted, part'"#)
    );
}

#[test]
fn test_escape_preservation() {
    // A backslash-escaped quote inside a quoted span neither closes the
    // span nor is unescaped in the token.
    assert_eq!(vec![r#"'a\',b'"#, "c"], forward_tokens(r#"'a\',b',c"#));
    assert_eq!(vec!["c", r#"'a\',b'"#], backward_tokens(r#"'a\',b',c"#));
    assert_eq!(vec![r#""a\",b""#, "c"], forward_tokens(r#""a\",b",c"#));
    assert_eq!(vec!["c", r#""a\",b""#], backward_tokens(r#""a\",b",c"#));
}

#[test]
fn test_unterminated_quote_forward() {
    // Malformed quoting is not an error: the remainder is the last token.
    assert_eq!(vec![r#""a,b"#], forward_tokens(r#""a,b"#));
    assert_eq!(vec!["','x", ""], forward_tokens("','x,"));
}

#[test]
fn test_non_matching_quote_stays_quoted() {
    // A single quote inside a double-quoted span is plain content.
    assert_eq!(vec![r#""fo'o,bar""#], forward_tokens(r#""fo'o,bar""#));
    assert_eq!(vec![r#"'do"uble,still'"#, "end"], forward_tokens(r#"'do"uble,still',end"#));
}
