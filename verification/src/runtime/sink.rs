//! Sinks, escaping, and the values that render into a sink.
use vstd::prelude::*;
use vstd::string::StringExecFns;
use vstd::utf8::encode_utf8;
use crate::runtime::error::Error;
use crate::text::{decimal, decimal_string, push_char, signed_decimal, signed_decimal_string};

verus! {

/// A destination for rendered text.
///
/// A sink's view is the stream of text it has accepted. Writes may fail (a network body, say);
/// a sink counts the writes it refused, and one that never fails keeps that count where it is.
pub trait Sink {
    /// Everything this sink has accepted, in order. A sink that is not verified leaves it
    /// unspecified.
    closed spec fn written(&self) -> Seq<char> {
        arbitrary()
    }

    /// How many writes this sink has refused. A sink that is not verified leaves it unspecified.
    closed spec fn refusals(&self) -> nat {
        arbitrary()
    }

    /// Write markup through without escaping. Callers must have produced it themselves.
    fn raw(&mut self, s: &str) -> (r: Result<(), Error>)
        ensures
            r is Ok ==> final(self).written() == old(self).written() + s@,
            r is Ok ==> final(self).refusals() == old(self).refusals(),
            r is Err ==> final(self).refusals() == old(self).refusals() + 1;
}

/// A value that can be rendered into a [`Sink`].
pub trait Render {
    /// The text this value renders to. A value that is not verified leaves it unspecified.
    closed spec fn rendered(&self) -> Seq<char> {
        arbitrary()
    }

    /// Write `self`, escaping as appropriate for text content.
    fn render_to<S: Sink>(&self, sink: &mut S) -> (r: Result<(), Error>)
        ensures
            r is Ok ==> final(sink).written() == old(sink).written() + self.rendered(),
            final(sink).refusals() >= old(sink).refusals(),
            final(sink).refusals() == old(sink).refusals() ==> r is Ok;
}

/// `escaped` for every sink.
pub trait SinkExt: Sink {
    /// Write a value, escaped for text content.
    fn escaped<R: Render + ?Sized>(&mut self, value: &R) -> (r: Result<(), Error>)
        ensures
            r is Ok ==> final(self).written() == old(self).written() + value.rendered(),
            final(self).refusals() >= old(self).refusals(),
            final(self).refusals() == old(self).refusals() ==> r is Ok;
}

impl<S: Sink> SinkExt for S {
    fn escaped<R: Render + ?Sized>(&mut self, value: &R) -> (r: Result<(), Error>) {
        value.render_to(self)
    }
}

/// The escape of one char: `&`, `<` and `>` always, quotes too inside an attribute value.
pub open spec fn escape_char(c: char, attribute: bool) -> Seq<char> {
    if c == '&' {
        "&amp;"@
    } else if c == '<' {
        "&lt;"@
    } else if c == '>' {
        "&gt;"@
    } else if attribute && c == '"' {
        "&quot;"@
    } else if attribute && c == '\'' {
        "&#39;"@
    } else {
        seq![c]
    }
}

/// `s` with every char escaped.
pub open spec fn escape(s: Seq<char>, attribute: bool) -> Seq<char>
    decreases s.len(),
{
    if s.len() == 0 {
        seq![]
    } else {
        escape(s.drop_last(), attribute) + escape_char(s.last(), attribute)
    }
}

/// Whether `c` is one of the chars that escaping replaces.
pub open spec fn is_special(c: char, attribute: bool) -> bool {
    c == '&' || c == '<' || c == '>' || (attribute && (c == '"' || c == '\''))
}

/// A string with no special char escapes to itself.
pub proof fn lemma_escape_clean(s: Seq<char>, attribute: bool)
    requires
        forall|i: int| 0 <= i < s.len() ==> !is_special(#[trigger] s[i], attribute),
    ensures
        escape(s, attribute) == s,
    decreases s.len(),
{
    if s.len() > 0 {
        lemma_escape_clean(s.drop_last(), attribute);
        assert(s.drop_last().push(s.last()) =~= s);
    }
}

/// Escape a string for use in text content.
pub fn escape_text(s: &str) -> (r: String)
    ensures
        r@ == escape(s@, false),
{
    escape_with(s, false)
}

/// Escape a string for use inside a quoted attribute value.
pub fn escape_attr(s: &str) -> (r: String)
    ensures
        r@ == escape(s@, true),
{
    escape_with(s, true)
}

fn escape_with(s: &str, attribute: bool) -> (r: String)
    ensures
        r@ == escape(s@, attribute),
{
    let cs = crate::text::chars_of(s);
    let mut needs = false;
    let mut k: usize = 0;
    while k < cs.len()
        invariant
            k <= cs@.len(),
            needs == exists|i: int| 0 <= i < k && is_special(#[trigger] cs@[i], attribute),
        decreases cs@.len() - k,
    {
        let c = cs[k];
        if c == '&' || c == '<' || c == '>' || (attribute && (c == '"' || c == '\'')) {
            needs = true;
        }
        k += 1;
    }
    if !needs {
        proof {
            lemma_escape_clean(s@, attribute);
        }
        return s.to_owned();
    }
    let mut out = String::new();
    let mut i: usize = 0;
    while i < cs.len()
        invariant
            i <= cs@.len(),
            cs@ == s@,
            out@ == escape(cs@.take(i as int), attribute),
        decreases cs@.len() - i,
    {
        let c = cs[i];
        if c == '&' {
            out.append("&amp;");
        } else if c == '<' {
            out.append("&lt;");
        } else if c == '>' {
            out.append("&gt;");
        } else if attribute && c == '"' {
            out.append("&quot;");
        } else if attribute && c == '\'' {
            out.append("&#39;");
        } else {
            push_char(&mut out, c);
        }
        assert(cs@.take(i + 1).drop_last() =~= cs@.take(i as int));
        i += 1;
    }
    assert(cs@.take(cs@.len() as int) =~= cs@);
    out
}

/// Markup that is already safe and must not be escaped.
#[derive(Debug, Clone, Copy, PartialEq, Eq)]
pub struct Html<T>(pub T);

impl<'a> Render for Html<&'a str> {
    open spec fn rendered(&self) -> Seq<char> {
        self.0@
    }

    fn render_to<S: Sink>(&self, sink: &mut S) -> (r: Result<(), Error>) {
        sink.raw(self.0)
    }
}

impl Render for Html<String> {
    open spec fn rendered(&self) -> Seq<char> {
        self.0@
    }

    fn render_to<S: Sink>(&self, sink: &mut S) -> (r: Result<(), Error>) {
        sink.raw(self.0.as_str())
    }
}

impl<'a> Render for Html<&'a String> {
    open spec fn rendered(&self) -> Seq<char> {
        self.0@
    }

    fn render_to<S: Sink>(&self, sink: &mut S) -> (r: Result<(), Error>) {
        sink.raw(self.0.as_str())
    }
}

impl Render for str {
    open spec fn rendered(&self) -> Seq<char> {
        escape(self@, false)
    }

    fn render_to<S: Sink>(&self, sink: &mut S) -> (r: Result<(), Error>) {
        let e = escape_text(self);
        sink.raw(e.as_str())
    }
}

impl Render for String {
    open spec fn rendered(&self) -> Seq<char> {
        escape(self@, false)
    }

    fn render_to<S: Sink>(&self, sink: &mut S) -> (r: Result<(), Error>) {
        self.as_str().render_to(sink)
    }
}

impl<'a, T: Render + ?Sized> Render for &'a T {
    open spec fn rendered(&self) -> Seq<char> {
        (**self).rendered()
    }

    fn render_to<S: Sink>(&self, sink: &mut S) -> (r: Result<(), Error>) {
        (**self).render_to(sink)
    }
}

impl<T: Render> Render for Option<T> {
    /// `None` renders nothing at all, rather than the string "None".
    open spec fn rendered(&self) -> Seq<char> {
        match self {
            Some(v) => v.rendered(),
            None => seq![],
        }
    }

    fn render_to<S: Sink>(&self, sink: &mut S) -> (r: Result<(), Error>) {
        match self {
            Some(v) => v.render_to(sink),
            None => {
                assert(sink.written() =~= sink.written() + Seq::<char>::empty());
                Ok(())
            },
        }
    }
}

impl Render for u8 {
    open spec fn rendered(&self) -> Seq<char> {
        decimal(*self as nat)
    }

    fn render_to<S: Sink>(&self, sink: &mut S) -> (r: Result<(), Error>) {
        let text = decimal_string(*self as u64);
        sink.raw(text.as_str())
    }
}

impl Render for u16 {
    open spec fn rendered(&self) -> Seq<char> {
        decimal(*self as nat)
    }

    fn render_to<S: Sink>(&self, sink: &mut S) -> (r: Result<(), Error>) {
        let text = decimal_string(*self as u64);
        sink.raw(text.as_str())
    }
}

impl Render for u32 {
    open spec fn rendered(&self) -> Seq<char> {
        decimal(*self as nat)
    }

    fn render_to<S: Sink>(&self, sink: &mut S) -> (r: Result<(), Error>) {
        let text = decimal_string(*self as u64);
        sink.raw(text.as_str())
    }
}

impl Render for u64 {
    open spec fn rendered(&self) -> Seq<char> {
        decimal(*self as nat)
    }

    fn render_to<S: Sink>(&self, sink: &mut S) -> (r: Result<(), Error>) {
        let text = decimal_string(*self as u64);
        sink.raw(text.as_str())
    }
}

impl Render for usize {
    open spec fn rendered(&self) -> Seq<char> {
        decimal(*self as nat)
    }

    fn render_to<S: Sink>(&self, sink: &mut S) -> (r: Result<(), Error>) {
        let text = decimal_string(*self as u64);
        sink.raw(text.as_str())
    }
}

impl Render for i8 {
    open spec fn rendered(&self) -> Seq<char> {
        signed_decimal(*self as int)
    }

    fn render_to<S: Sink>(&self, sink: &mut S) -> (r: Result<(), Error>) {
        let text = signed_decimal_string(*self as i64);
        sink.raw(text.as_str())
    }
}

impl Render for i16 {
    open spec fn rendered(&self) -> Seq<char> {
        signed_decimal(*self as int)
    }

    fn render_to<S: Sink>(&self, sink: &mut S) -> (r: Result<(), Error>) {
        let text = signed_decimal_string(*self as i64);
        sink.raw(text.as_str())
    }
}

impl Render for i32 {
    open spec fn rendered(&self) -> Seq<char> {
        signed_decimal(*self as int)
    }

    fn render_to<S: Sink>(&self, sink: &mut S) -> (r: Result<(), Error>) {
        let text = signed_decimal_string(*self as i64);
        sink.raw(text.as_str())
    }
}

impl Render for i64 {
    open spec fn rendered(&self) -> Seq<char> {
        signed_decimal(*self as int)
    }

    fn render_to<S: Sink>(&self, sink: &mut S) -> (r: Result<(), Error>) {
        let text = signed_decimal_string(*self as i64);
        sink.raw(text.as_str())
    }
}

impl Render for isize {
    open spec fn rendered(&self) -> Seq<char> {
        signed_decimal(*self as int)
    }

    fn render_to<S: Sink>(&self, sink: &mut S) -> (r: Result<(), Error>) {
        let text = signed_decimal_string(*self as i64);
        sink.raw(text.as_str())
    }
}

impl Render for bool {
    open spec fn rendered(&self) -> Seq<char> {
        if *self {
            "true"@
        } else {
            "false"@
        }
    }

    fn render_to<S: Sink>(&self, sink: &mut S) -> (r: Result<(), Error>) {
        if *self {
            sink.raw("true")
        } else {
            sink.raw("false")
        }
    }
}

impl Render for char {
    /// A char renders as itself, unescaped, as its `Display` does.
    open spec fn rendered(&self) -> Seq<char> {
        seq![*self]
    }

    fn render_to<S: Sink>(&self, sink: &mut S) -> (r: Result<(), Error>) {
        let mut text = String::new();
        push_char(&mut text, *self);
        assert(text@ =~= seq![*self]);
        sink.raw(text.as_str())
    }
}

/// A sink that builds a `String`.
#[derive(Debug)]
pub struct StringSink {
    buf: String,
}

impl View for StringSink {
    type V = Seq<char>;

    closed spec fn view(&self) -> Seq<char> {
        self.buf@
    }
}

/// `String::with_capacity`: an empty string with room reserved.
///
/// Trusted: std documents the result as a new, empty `String`; the capacity is not modelled.
#[verifier::external_body]
fn empty_string_with_capacity(capacity: usize) -> (r: String)
    ensures
        r@ == Seq::<char>::empty(),
{
    String::with_capacity(capacity)
}

impl StringSink {
    /// An empty sink.
    pub fn new() -> (r: Self)
        ensures
            r@ == Seq::<char>::empty(),
    {
        StringSink { buf: String::new() }
    }

    /// An empty sink with room for `capacity` bytes.
    pub fn with_capacity(capacity: usize) -> (r: Self)
        ensures
            r@ == Seq::<char>::empty(),
    {
        StringSink { buf: empty_string_with_capacity(capacity) }
    }

    /// The text written so far.
    pub fn as_str(&self) -> (r: &str)
        ensures
            r@ == self@,
    {
        self.buf.as_str()
    }

    /// Consume the sink and return what was written.
    pub fn into_string(self) -> (r: String)
        ensures
            r@ == self@,
    {
        self.buf
    }

    /// How many bytes were written: the size hint for the next render of the same page.
    pub fn len(&self) -> (r: usize)
        ensures
            r == encode_utf8(self@).len() as usize,
    {
        self.buf.as_str().len()
    }

    /// Whether anything has been written.
    pub fn is_empty(&self) -> (r: bool)
        ensures
            r == (self@.len() == 0),
    {
        self.buf.as_str().is_empty()
    }
}

impl Default for StringSink {
    fn default() -> (r: Self)
        ensures
            r@ == Seq::<char>::empty(),
    {
        StringSink::new()
    }
}

impl Sink for StringSink {
    open spec fn written(&self) -> Seq<char> {
        self@
    }

    open spec fn refusals(&self) -> nat {
        0
    }

    fn raw(&mut self, s: &str) -> (r: Result<(), Error>)
        ensures
            r is Ok,
            final(self)@ == old(self)@ + s@,
    {
        self.buf.append(s);
        Ok(())
    }
}

} // verus!
