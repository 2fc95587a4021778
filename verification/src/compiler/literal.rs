//! Reading back the string literals that code generation writes.
//!
//! Static markup is pasted into the generated code as Rust string literals. What matters of a
//! literal is that `rustc` reads it back as the markup it came from.
use vstd::prelude::*;
use crate::compiler::codegen::{literal_body, literal_char, quote};

verus! {

/// The char a two-char escape `\\e` in a string literal stands for, among those `quote` writes.
pub open spec fn escaped_char(e: char) -> Option<char> {
    if e == '"' {
        Some('"')
    } else if e == '\\' {
        Some('\\')
    } else if e == 'n' {
        Some('\n')
    } else if e == 'r' {
        Some('\r')
    } else if e == 't' {
        Some('\t')
    } else {
        None
    }
}

/// The text that the body of a Rust string literal holds, read with the escapes `quote` writes,
/// or `None` where the body is not a literal body: an unescaped `"` or carriage return, or an
/// escape outside those.
pub open spec fn read_literal(body: Seq<char>) -> Option<Seq<char>>
    decreases body.len(),
{
    if body.len() == 0 {
        Some(seq![])
    } else if body[0] == '\\' {
        if body.len() < 2 {
            None
        } else {
            match escaped_char(body[1]) {
                None => None,
                Some(c) => match read_literal(body.skip(2)) {
                    Some(t) => Some(seq![c] + t),
                    None => None,
                },
            }
        }
    } else if body[0] == '"' || body[0] == '\r' {
        None
    } else {
        match read_literal(body.skip(1)) {
            Some(t) => Some(seq![body[0]] + t),
            None => None,
        }
    }
}

/// The literal body of `c` followed by `s` is the literal of `c` before that of `s`.
proof fn lemma_literal_body_cons(c: char, s: Seq<char>)
    ensures
        literal_body(seq![c] + s) == literal_char(c) + literal_body(s),
    decreases s.len(),
{
    if s.len() == 0 {
        assert(seq![c] + s =~= seq![c]);
        assert(seq![c].drop_last() =~= Seq::<char>::empty());
        assert(seq![c].last() == c);
        assert(literal_body(Seq::<char>::empty()) =~= Seq::<char>::empty());
        assert(Seq::<char>::empty() + literal_char(c) =~= literal_char(c));
        assert(literal_body(seq![c]) =~= literal_char(c));
    } else {
        lemma_literal_body_cons(c, s.drop_last());
        assert((seq![c] + s).drop_last() =~= seq![c] + s.drop_last());
        assert((seq![c] + s).last() == s.last());
        assert(literal_body(seq![c] + s) =~= literal_char(c) + literal_body(s));
    }
}

/// Reading a literal back gives what was quoted: the body `quote` writes between its quotes
/// holds exactly `s`, with no unescaped quote or carriage return, so the emitted literal always
/// compiles and always means the markup it came from.
pub proof fn lemma_quote_reads_back(s: Seq<char>)
    ensures
        read_literal(literal_body(s)) == Some(s),
        quote(s) == seq!['"'] + literal_body(s) + seq!['"'],
    decreases s.len(),
{
    if s.len() == 0 {
        assert(literal_body(s) =~= Seq::<char>::empty());
        assert(s =~= Seq::<char>::empty());
    } else {
        let c = s[0];
        let rest = s.skip(1);
        assert(s =~= seq![c] + rest);
        lemma_literal_body_cons(c, rest);
        lemma_quote_reads_back(rest);
        let tail = literal_body(rest);
        let body = literal_char(c) + tail;
        reveal_strlit("\\\"");
        reveal_strlit("\\\\");
        reveal_strlit("\\n");
        reveal_strlit("\\r");
        reveal_strlit("\\t");
        if c == '"' || c == '\\' || c == '\n' || c == '\r' || c == '\t' {
            assert(literal_char(c).len() == 2);
            assert(body.skip(2) =~= tail);
            assert(body[0] == '\\');
        } else {
            assert(literal_char(c) =~= seq![c]);
            assert(body.skip(1) =~= tail);
            assert(body[0] == c);
        }
        assert(seq![c] + rest =~= s);
    }
}

} // verus!
