use rowread::Parser;

#[test]
fn parser_builder() {
    assert_eq!(
        Parser {
            has_header: false,
            delimiter: 'd'
        },
        Parser::builder()
            .with_header(false)
            .with_delimiter('d')
            .build()
    );
}

#[test]
fn default_parser() {
    assert_eq!(Parser::new(), Parser::builder().build());
}

#[test]
fn parse_no_headers() {
    let parser = Parser::builder().with_header(false).build();
    let mut session = parser.parse("this,is,the,song");
    let mut rows: Vec<Vec<String>> = Vec::new();
    while let Some(row) = session.next() {
        rows.push(row);
    }

    assert_eq!(
        vec![vec![
            String::from("this"),
            String::from("is"),
            String::from("the"),
            String::from("song")
        ]],
        rows
    );
}

#[test]
fn parse_custom_delimiter() {
    let parser = Parser::builder()
        .with_header(false)
        .with_delimiter('\t')
        .build();
    let mut session = parser.parse("this\tis\tthe\tsong");
    let mut rows: Vec<Vec<String>> = Vec::new();
    while let Some(row) = session.next() {
        rows.push(row);
    }

    assert_eq!(
        vec![vec![
            String::from("this"),
            String::from("is"),
            String::from("the"),
            String::from("song")
        ]],
        rows
    );
}

#[test]
fn parse_with_headers() {
    let data = &["these,are,the,headers", "this,is,the,song"].join("\n");
    let mut session = Parser::new().parse(data);
    let mut rows: Vec<Vec<String>> = Vec::new();
    while let Some(row) = session.next() {
        rows.push(row);
    }

    assert_eq!(
        vec![vec![
            String::from("this"),
            String::from("is"),
            String::from("the"),
            String::from("song")
        ]],
        rows
    );
}

#[test]
fn parse_multiple_lines() {
    let data = &[
        "this,is,the,song",
        "that,never,ends,yes",
        "it,goes,on,and",
        "on,my,friends,:)",
    ]
    .join("\n");
    let mut session = Parser::builder().with_header(false).build().parse(data);
    let mut rows: Vec<Vec<String>> = Vec::new();
    while let Some(row) = session.next() {
        rows.push(row);
    }
    assert_eq!(
        vec![
            vec![
                String::from("this"),
                String::from("is"),
                String::from("the"),
                String::from("song")
            ],
            vec![
                String::from("that"),
                String::from("never"),
                String::from("ends"),
                String::from("yes")
            ],
            vec![
                String::from("it"),
                String::from("goes"),
                String::from("on"),
                String::from("and")
            ],
            vec![
                String::from("on"),
                String::from("my"),
                String::from("friends"),
                String::from(":)")
            ],
        ],
        rows
    );
}

#[test]
fn parse_empty_source_with_header() {
    let mut session = Parser::new().parse("");
    assert_eq!(None, session.next());
}

#[test]
fn parse_header_only_source() {
    let mut session = Parser::new().parse("these,are,the,headers");
    assert_eq!(None, session.next());
}

#[test]
fn parse_consecutive_delimiters() {
    let parser = Parser::builder().with_header(false).build();
    let mut session = parser.parse("a,,b");
    assert_eq!(
        Some(vec![String::from("a"), String::new(), String::from("b")]),
        session.next()
    );
    assert_eq!(None, session.next());
}

#[test]
fn parse_leading_and_trailing_delimiters() {
    let parser = Parser::builder().with_header(false).build();
    let mut session = parser.parse(",a,");
    assert_eq!(
        Some(vec![String::new(), String::from("a"), String::new()]),
        session.next()
    );
}

#[test]
fn exhausted_session_stays_exhausted() {
    let parser = Parser::builder().with_header(false).build();
    let mut session = parser.parse("only,row");
    assert_eq!(
        Some(vec![String::from("only"), String::from("row")]),
        session.next()
    );
    assert_eq!(None, session.next());
    assert_eq!(None, session.next());
    assert_eq!(None, session.next());
}

#[test]
fn parse_crlf_line_endings() {
    let parser = Parser::builder().with_header(false).build();
    let mut session = parser.parse("a,b\r\nc,d\r\n");
    let mut rows: Vec<Vec<String>> = Vec::new();
    while let Some(row) = session.next() {
        rows.push(row);
    }
    assert_eq!(
        vec![
            vec![String::from("a"), String::from("b")],
            vec![String::from("c"), String::from("d")],
        ],
        rows
    );
}

#[test]
fn parse_trailing_newline_adds_no_row() {
    let parser = Parser::builder().with_header(false).build();
    let mut session = parser.parse("x,y\n");
    assert_eq!(Some(vec![String::from("x"), String::from("y")]), session.next());
    assert_eq!(None, session.next());
}

#[test]
fn parse_blank_line_is_one_empty_field() {
    let parser = Parser::builder().with_header(false).build();
    let mut session = parser.parse("a\n\nb");
    assert_eq!(Some(vec![String::from("a")]), session.next());
    assert_eq!(Some(vec![String::new()]), session.next());
    assert_eq!(Some(vec![String::from("b")]), session.next());
    assert_eq!(None, session.next());
}

#[test]
fn sessions_from_one_parser_are_independent() {
    let parser = Parser::builder().with_header(false).build();
    let mut first = parser.parse("1,2");
    let mut second = parser.parse("3,4");
    assert_eq!(Some(vec![String::from("1"), String::from("2")]), first.next());
    assert_eq!(Some(vec![String::from("3"), String::from("4")]), second.next());
}
