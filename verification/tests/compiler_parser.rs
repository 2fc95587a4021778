use triblenka::compiler::{parse, Node, ParseErrorKind, Span};

fn nodes(src: &str) -> Vec<Node> {
    parse(src).expect("parses").nodes
}

#[test]
fn plain_text_is_one_node() {
    assert_eq!(
        nodes("<p>hello</p>"),
        vec![Node::Text {
            value: "<p>hello</p>".into(),
            span: Span::new(0, 12)
        }]
    );
}

#[test]
fn interpolation_records_source_and_span() {
    let parsed = nodes("<h1>{ post.title }</h1>");
    assert_eq!(
        parsed[1],
        Node::Expr {
            source: "post.title".into(),
            span: Span::new(4, 18),
            attribute: false
        }
    );
}

#[test]
fn expressions_may_contain_braces() {
    let parsed = nodes("{ posts.iter().map(|p| { p.title }) }");
    assert_eq!(
        parsed[0],
        Node::Expr {
            source: "posts.iter().map(|p| { p.title })".into(),
            span: Span::new(0, 37),
            attribute: false
        }
    );
}

#[test]
fn an_interpolation_inside_a_tag_is_marked_as_an_attribute() {
    let parsed = nodes(r#"<meta content="{ description }"><p>{ body }</p>"#);
    let flags: Vec<bool> = parsed
        .iter()
        .filter_map(|n| match n {
            Node::Expr { attribute, .. } => Some(*attribute),
            _ => None,
        })
        .collect();
    assert_eq!(flags, vec![true, false], "attribute context must be detected");
}

#[test]
fn frontmatter_is_captured_and_skipped() {
    let doc = parse("---\nlet x = 1;\n---\n<p>hi</p>").expect("parses");
    assert_eq!(doc.frontmatter.as_deref(), Some("let x = 1;"));
    assert_eq!(
        doc.nodes,
        vec![Node::Text {
            value: "<p>hi</p>".into(),
            span: Span::new(19, 28)
        }]
    );
}

#[test]
fn if_else_nests() {
    let parsed = nodes("{#if live}<p>yes</p>{:else}<p>no</p>{/if}");
    match &parsed[0] {
        Node::If {
            cond,
            then,
            otherwise,
            ..
        } => {
            assert_eq!(cond, "live");
            assert_eq!(then.len(), 1);
            assert_eq!(otherwise.len(), 1);
        }
        other => panic!("expected an if, got {other:?}"),
    }
}

#[test]
fn for_binds_and_nests() {
    let parsed = nodes("{#for post in posts}<li>{ post.title }</li>{/for}");
    match &parsed[0] {
        Node::For {
            binding, seq, body, ..
        } => {
            assert_eq!(binding, "post");
            assert_eq!(seq, "posts");
            assert_eq!(body.len(), 3);
        }
        other => panic!("expected a for, got {other:?}"),
    }
}

#[test]
fn unclosed_block_reports_a_span() {
    let err = parse("{#if live}<p>yes</p>").expect_err("must fail");
    assert_eq!(err.kind, ParseErrorKind::UnclosedBlock("if"));
}

#[test]
fn stray_close_is_named() {
    let err = parse("<p>x</p>{/if}").expect_err("must fail");
    assert_eq!(err.kind, ParseErrorKind::UnexpectedClose("if".into()));
}

#[test]
fn unknown_block_suggests_the_known_ones() {
    let err = parse("{#while x}{/while}").expect_err("must fail");
    assert_eq!(err.kind, ParseErrorKind::UnknownBlock("while".into()));
}

#[test]
fn malformed_for_is_caught() {
    assert_eq!(
        parse("{#for posts}{/for}").expect_err("must fail").kind,
        ParseErrorKind::MalformedFor
    );
}

#[test]
fn empty_expression_is_caught() {
    assert_eq!(
        parse("<p>{ }</p>").expect_err("must fail").kind,
        ParseErrorKind::EmptyExpression
    );
}

#[test]
fn error_report_points_at_the_source() {
    let src = "<p>ok</p>\n{#if live}\n";
    let err = parse(src).expect_err("must fail");
    let report = err.report("index.tri", src);
    assert!(report.contains("index.tri:"), "{report}");
    assert!(report.contains("never closed"), "{report}");
}

#[test]
fn an_error_report_names_line_column_and_text() {
    let src = "<p>ok</p>\n<b>{ }</b>\n";
    let err = parse(src).expect_err("must fail");
    assert_eq!(err.span, Span::new(13, 16));
    assert_eq!(
        err.report("x.tri", src),
        "error: empty expression\n  ┌─ x.tri:2:4\n  │\n  2 │ <b>{ }</b>\n  │     ^\n"
    );
}

#[test]
fn line_and_column_count_chars_not_bytes() {
    let span = Span::new(6, 7);
    assert_eq!(span.line_col("ab\né{x}"), (2, 3));
    assert_eq!(Span::new(8, 9).line_col("ab\né{x}"), (2, 5));
    assert_eq!(Span::new(0, 0).line_col(""), (1, 1));
    assert_eq!(Span::new(99, 99).line_col("a\nb"), (2, 2));
}

#[test]
fn unclosed_expressions_and_frontmatter_are_reported() {
    assert_eq!(
        parse("<p>{ title </p>").expect_err("must fail").kind,
        ParseErrorKind::UnclosedExpression
    );
    assert_eq!(
        parse("---\nlet x = 1;\n").expect_err("must fail").kind,
        ParseErrorKind::UnclosedFrontmatter
    );
}

#[test]
fn an_else_outside_an_if_is_stray() {
    assert_eq!(
        parse("<p>{:else}</p>").expect_err("must fail").kind,
        ParseErrorKind::StrayElse
    );
    assert_eq!(
        parse("{#for p in ps}{:else}{/for}").expect_err("must fail").kind,
        ParseErrorKind::StrayElse
    );
}

#[test]
fn a_mismatched_close_reports_the_open_block() {
    let err = parse("{#for p in ps}x{/if}").expect_err("must fail");
    assert_eq!(err.kind, ParseErrorKind::UnclosedBlock("for"));
    assert_eq!(err.span, Span::new(15, 17));
}

#[test]
fn non_ascii_text_keeps_byte_spans() {
    let parsed = nodes("é{ x }ü");
    assert_eq!(
        parsed,
        vec![
            Node::Text { value: "é".into(), span: Span::new(0, 2) },
            Node::Expr { source: "x".into(), span: Span::new(2, 7), attribute: false },
            Node::Text { value: "ü".into(), span: Span::new(7, 9) },
        ]
    );
}

/// Assert that every node's span, at any depth, lies within `len` bytes.
fn spans_within(nodes: &[Node], len: usize) {
    for node in nodes {
        let span = match node {
            Node::Text { span, .. } | Node::Expr { span, .. } => *span,
            Node::If { span, then, otherwise, .. } => {
                spans_within(then, len);
                spans_within(otherwise, len);
                *span
            }
            Node::For { span, body, .. } => {
                spans_within(body, len);
                *span
            }
        };
        assert!(span.start <= span.end && span.end <= len, "{span:?}");
    }
}

#[test]
fn every_reported_span_lies_within_the_source() {
    for source in ["<p>{ x", "{#if a}x", "{/for}", "{:else}", "{}", "---\ntitle", "{#for x}y{/for}", "{#nope}"] {
        let err = parse(source).expect_err("must fail");
        assert!(err.span.start <= err.span.end && err.span.end <= source.len(), "{source}: {:?}", err.span);
    }
    let source = "---\nt\n---\n<a>{ x }{#if c}{ y }{:else}z{/if}{#for i in xs}{ i }{/for}</a>";
    let doc = parse(source).expect("parses");
    let fm = doc.frontmatter_span.expect("has frontmatter");
    assert!(fm.start <= fm.end && fm.end <= source.len());
    spans_within(&doc.nodes, source.len());
}
