use triblenka::compiler::codegen::emit;
use triblenka::compiler::descriptor::lower;
use triblenka::compiler::{parse, Document, Node, Span};
use triblenka::runtime::{render, Bindings, Error, Html, Node as RtNode, Sink, SinkExt as _, StringSink, Template};

fn template(src: &str) -> Template {
    lower(&parse(src).expect("parses"))
}

#[test]
fn adjacent_static_text_collapses_into_one_write() {
    let t = template("<p>a</p>{#if x}<i>b</i>{/if}");
    assert!(matches!(t.nodes.first(), Some(RtNode::Static(s)) if s == "<p>a</p>"));
    assert_eq!(t.nodes.len(), 2);
}

#[test]
fn repeated_expressions_share_one_index() {
    let t = template("{ title }-{ title }-{ date }");
    assert_eq!(t.expressions, vec!["title".to_owned(), "date".to_owned()]);
    assert_eq!(
        t.nodes.iter().filter(|n| matches!(n, RtNode::Expr(0))).count(),
        2
    );
}

#[test]
fn markup_only_edits_stay_hot_swappable() {
    let before = template("<h1>{ title }</h1>{#for p in posts}<li>{ p.title }</li>{/for}");
    let after = template(
        "<header class=\"big\"><h1>{ title }</h1></header>\
         {#for p in posts}<article><li>{ p.title }</li></article>{/for}",
    );
    assert!(
        before.is_hot_swappable_with(&after),
        "changing only markup must not require a rebuild"
    );
}

#[test]
fn changing_an_expression_requires_a_rebuild() {
    let before = template("<h1>{ title }</h1>");
    let after = template("<h1>{ subtitle }</h1>");
    assert!(!before.is_hot_swappable_with(&after));
}

#[test]
fn adding_an_expression_requires_a_rebuild() {
    let before = template("<h1>{ title }</h1>");
    let after = template("<h1>{ title }</h1><p>{ description }</p>");
    assert!(!before.is_hot_swappable_with(&after));
}

#[test]
fn conditions_and_sequences_are_interned_with_expressions() {
    let t = template("{#if live}{ live }{/if}{#for p in posts}{ p }{/for}");
    assert_eq!(
        t.expressions,
        vec!["live".to_owned(), "posts".to_owned(), "p".to_owned()]
    );
    match &t.nodes[0] {
        RtNode::If { cond, then, otherwise } => {
            assert_eq!(*cond, 0);
            assert!(matches!(then.as_slice(), [RtNode::Expr(0)]));
            assert!(otherwise.is_empty());
        }
        _ => panic!("expected an if"),
    }
}

#[test]
fn static_runs_collapse_to_one_write() {
    let doc = parse("<p>hello</p><p>world</p>").expect("parses");
    let code = emit("greeting", &doc);
    assert_eq!(code.matches("sink.raw(").count(), 1);
    assert!(
        code.contains(r#"sink.raw("<p>hello</p><p>world</p>")?;"#),
        "{code}"
    );
}

#[test]
fn expressions_are_pasted_verbatim_for_rustc() {
    let doc = parse("<h1>{ post.title.to_uppercase() }</h1>").expect("parses");
    let code = emit("page", &doc);
    assert!(
        code.contains("sink.escaped(&(post.title.to_uppercase()))?;"),
        "{code}"
    );
}

#[test]
fn control_flow_becomes_real_rust() {
    let doc = parse("{#if p.live}<b>{ p.title }</b>{:else}draft{/if}{#for p in posts}<li/>{/for}")
        .expect("parses");
    let code = emit("list", &doc);
    assert!(code.contains("if p.live {"), "{code}");
    assert!(code.contains("} else {"), "{code}");
    assert!(code.contains("for p in posts {"), "{code}");
}

#[test]
fn frontmatter_is_lifted_into_the_function_body() {
    let doc = parse("---\nlet posts = content::blog();\n---\n<p/>").expect("parses");
    let code = emit("index", &doc);
    assert!(code.contains("let posts = content::blog();"), "{code}");
}

#[test]
fn quotes_and_newlines_survive_the_string_literal() {
    let doc = parse("<a class=\"x\">\n\tlink\n</a>").expect("parses");
    let code = emit("link", &doc);
    assert!(code.contains(r#"class=\"x\""#), "{code}");
    assert!(code.contains("\\n"), "{code}");
}

#[test]
fn emitted_code_is_laid_out_line_by_line() {
    let doc = parse("---\na;\r\nb;\n---\n<p>{ x }</p>").expect("parses");
    let code = emit("page", &doc);
    assert_eq!(
        code,
        "// @generated from page.tri — do not edit\n\
         pub mod page {\n    use tri_core::{Render, Result, Sink};\n\n    \
         #[allow(unused_variables)]\n    pub fn render(sink: &mut dyn Sink) -> Result<()> {\n        \
         a;\n        b;\n\n        sink.raw(\"<p>\")?;\n        sink.escaped(&(x))?;\n        \
         sink.raw(\"</p>\")?;\n        Ok(())\n    }\n}\n"
    );
}

struct One(&'static str);

impl Bindings for One {
    fn value<S: Sink>(&self, _index: usize, sink: &mut S) -> Result<(), Error> {
        sink.escaped(&self.0)
    }
    fn truthy(&self, _index: usize) -> bool {
        false
    }
    fn seq_len(&self, _index: usize) -> usize {
        0
    }
    fn seq_item(&self, _index: usize, _item: usize) -> Option<&One> {
        None
    }
}

#[test]
fn known_limitation_a_brace_inside_a_string_literal_truncates_the_expression() {
    let document = parse(r#"{ format!("}") }"#).expect("parses");
    let rendered = format!("{:?}", document.nodes);
    assert!(
        rendered.contains(r#"format!(\""#),
        "if this now parses correctly, the limitation is fixed — delete this probe: {rendered}"
    );
}

#[test]
fn an_attribute_interpolation_escapes_quotes() {
    let doc = parse(r#"<meta content="{ description }">"#).expect("parses");
    let template = lower(&doc);
    let mut sink = StringSink::new();
    render(&template, &One(r#"a " b"#), &mut sink).expect("renders");
    assert_eq!(sink.into_string(), r#"<meta content="a &quot; b">"#);
}

#[test]
fn attribute_escaping_does_not_double_escape_ampersands() {
    let doc = parse(r#"<a title="{ text }">x</a>"#).expect("parses");
    let template = lower(&doc);
    let mut sink = StringSink::new();
    render(&template, &One("a & b"), &mut sink).expect("renders");
    assert_eq!(sink.into_string(), r#"<a title="a &amp; b">x</a>"#);
}

#[test]
fn text_context_still_leaves_quotes_alone() {
    let doc = parse("<p>{ text }</p>").expect("parses");
    let template = lower(&doc);
    let mut sink = StringSink::new();
    render(&template, &One(r#"it's "fine""#), &mut sink).expect("renders");
    assert_eq!(sink.into_string(), r#"<p>it's "fine"</p>"#);
}

#[test]
fn probe_html_newtype_still_bypasses_escaping_as_designed() {
    let mut sink = StringSink::new();
    sink.escaped(&Html("<em>ok</em>")).expect("renders");
    assert_eq!(sink.into_string(), "<em>ok</em>");
}

#[test]
fn lowering_merges_runs_of_text_and_refers_to_first_occurrences() {
    let text = |v: &str| Node::Text { value: v.into(), span: Span::new(0, 0) };
    let expr = |s: &str, attribute: bool| Node::Expr { source: s.into(), span: Span::new(0, 0), attribute };
    let doc = Document {
        frontmatter: None,
        frontmatter_span: None,
        nodes: vec![text("a"), text("b"), expr("x", false), expr("y", true), expr("x", true), text("c")],
    };
    let template = lower(&doc);
    assert_eq!(template.expressions, vec!["x".to_owned(), "y".to_owned()]);
    assert_eq!(
        template.nodes,
        vec![
            RtNode::Static("ab".into()),
            RtNode::Expr(0),
            RtNode::ExprAttr(1),
            RtNode::ExprAttr(0),
            RtNode::Static("c".into()),
        ]
    );
}
