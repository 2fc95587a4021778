use triblenka::runtime::{escape_attr, escape_text, Html, Render, SinkExt, StringSink};

fn render<R: Render + ?Sized>(v: &R) -> String {
    let mut sink = StringSink::new();
    sink.escaped(v).unwrap();
    sink.into_string()
}

#[test]
fn escapes_text_but_not_quotes() {
    assert_eq!(
        escape_text(r#"a & b < c > d " e"#),
        r#"a &amp; b &lt; c &gt; d " e"#
    );
}

#[test]
fn escapes_quotes_in_attributes() {
    assert_eq!(escape_attr(r#"a "b" 'c'"#), "a &quot;b&quot; &#39;c&#39;");
}

#[test]
fn leaves_clean_strings_untouched() {
    assert_eq!(escape_text("plain text"), "plain text");
}

#[test]
fn html_is_not_escaped() {
    assert_eq!(render(&Html("<em>hi</em>")), "<em>hi</em>");
    assert_eq!(render(&"<em>hi</em>"), "&lt;em&gt;hi&lt;/em&gt;");
}

#[test]
fn none_renders_nothing() {
    let empty: Option<&str> = None;
    assert_eq!(render(&empty), "");
    assert_eq!(render(&Some("x")), "x");
}

#[test]
fn numbers_render_via_display() {
    assert_eq!(render(&42_u32), "42");
    assert_eq!(render(&true), "true");
}

#[test]
fn negative_and_extreme_numbers_render_in_decimal() {
    assert_eq!(render(&-7_i32), "-7");
    assert_eq!(render(&i64::MIN), "-9223372036854775808");
    assert_eq!(render(&u64::MAX), "18446744073709551615");
    assert_eq!(render(&0_u8), "0");
    assert_eq!(render(&false), "false");
}

#[test]
fn a_char_renders_unescaped() {
    assert_eq!(render(&'<'), "<");
}

#[test]
fn escaping_handles_non_ascii_text() {
    assert_eq!(escape_text("é<ü>"), "é&lt;ü&gt;");
    assert_eq!(escape_attr("“q” 'é'"), "“q” &#39;é&#39;");
}

#[test]
fn a_string_sink_reports_its_length_in_bytes() {
    let mut sink = StringSink::with_capacity(16);
    assert!(sink.is_empty());
    sink.escaped(&"é&").unwrap();
    assert_eq!(sink.as_str(), "é&amp;");
    assert_eq!(sink.len(), 7);
    assert!(!sink.is_empty());
}

/// A sink whose every write fails, the way a closed connection would.
struct Closed;

impl triblenka::runtime::Sink for Closed {
    fn raw(&mut self, _s: &str) -> Result<(), triblenka::runtime::Error> {
        Err(triblenka::runtime::Error::Write(std::fmt::Error))
    }
}

/// A value of the caller's own, rendered as a greeting.
struct Greeting(&'static str);

impl Render for Greeting {
    fn render_to<S: triblenka::runtime::Sink>(&self, sink: &mut S) -> Result<(), triblenka::runtime::Error> {
        sink.raw("hello, ")?;
        Render::render_to(&self.0, sink)
    }
}

/// Bindings with nothing to say.
struct Nothing;

impl triblenka::runtime::Bindings for Nothing {
    fn value<S: triblenka::runtime::Sink>(&self, _i: usize, _s: &mut S) -> Result<(), triblenka::runtime::Error> {
        Ok(())
    }
    fn truthy(&self, _i: usize) -> bool {
        false
    }
    fn seq_len(&self, _i: usize) -> usize {
        0
    }
    fn seq_item(&self, _i: usize, _k: usize) -> Option<&Self> {
        None
    }
}

#[test]
fn a_failing_sink_stops_the_render_with_its_error() {
    let template = triblenka::runtime::Template {
        nodes: vec![triblenka::runtime::Node::Static("<p>".to_owned())],
        expressions: vec![],
    };
    let err = triblenka::runtime::render(&template, &Nothing, &mut Closed).expect_err("must fail");
    assert!(matches!(err, triblenka::runtime::Error::Write(_)));
}

#[test]
fn a_value_of_the_callers_own_renders_through_the_trait() {
    let mut sink = StringSink::new();
    sink.escaped(&Greeting("<you>")).expect("renders");
    assert_eq!(sink.into_string(), "hello, &lt;you&gt;");
}
