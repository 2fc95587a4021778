//! Character- and byte-level helpers shared by the compiler and the runtime.
//!
//! Source files are scanned as UTF-8 bytes, because every delimiter of the template language is
//! ASCII and spans are byte offsets; text that is cut out of a source is decoded back into chars.
use vstd::prelude::*;
use vstd::utf8::*;
use vstd::string::StringSliceAdditionalSpecFns;
use vstd::string::StringExecFns;

verus! {

broadcast use vstd::utf8::group_utf8_lib;

/// Appends one `char` to a `String` (`String::push`).
///
/// Trusted: std documents `push` as appending the given char to the end of the string, which is
/// all this contract claims.
#[verifier::external_body]
pub(crate) fn push_char(s: &mut String, c: char)
    ensures
        final(s)@ == old(s)@.push(c),
{
    s.push(c)
}

/// Unicode `White_Space`, the set that `char::is_whitespace` and `str::trim` use.
pub open spec fn is_space(c: char) -> bool {
    ||| c == '\t'
    ||| c == '\n'
    ||| c == '\u{0B}'
    ||| c == '\u{0C}'
    ||| c == '\r'
    ||| c == ' '
    ||| c == '\u{85}'
    ||| c == '\u{A0}'
    ||| c == '\u{1680}'
    ||| ('\u{2000}' <= c && c <= '\u{200A}')
    ||| c == '\u{2028}'
    ||| c == '\u{2029}'
    ||| c == '\u{202F}'
    ||| c == '\u{205F}'
    ||| c == '\u{3000}'
}

/// Whether `c` is Unicode white space.
pub fn is_whitespace(c: char) -> (r: bool)
    ensures
        r == is_space(c),
{
    c == '\t' || c == '\n' || c == '\u{0B}' || c == '\u{0C}' || c == '\r' || c == ' '
        || c == '\u{85}' || c == '\u{A0}' || c == '\u{1680}' || ('\u{2000}' <= c && c
        <= '\u{200A}') || c == '\u{2028}' || c == '\u{2029}' || c == '\u{202F}' || c
        == '\u{205F}' || c == '\u{3000}'
}

/// `s` without its leading white space.
pub open spec fn trim_start(s: Seq<char>) -> Seq<char>
    decreases s.len(),
{
    if s.len() > 0 && is_space(s[0]) {
        trim_start(s.drop_first())
    } else {
        s
    }
}

/// `s` without its trailing white space.
pub open spec fn trim_end(s: Seq<char>) -> Seq<char>
    decreases s.len(),
{
    if s.len() > 0 && is_space(s.last()) {
        trim_end(s.drop_last())
    } else {
        s
    }
}

/// `s` without leading or trailing white space, as `str::trim` gives it.
pub open spec fn trim(s: Seq<char>) -> Seq<char> {
    trim_end(trim_start(s))
}

/// Whether `s` is not empty and neither starts nor ends with white space.
pub open spec fn trimmed_nonempty(s: Seq<char>) -> bool {
    s.len() > 0 && !is_space(s[0]) && !is_space(s.last())
}

/// What `trim_start` leaves does not start with white space.
proof fn lemma_trim_start_head(s: Seq<char>)
    ensures
        trim_start(s).len() > 0 ==> !is_space(trim_start(s)[0]),
    decreases s.len(),
{
    if s.len() > 0 && is_space(s[0]) {
        lemma_trim_start_head(s.drop_first());
    }
}

/// What `trim_end` leaves is a prefix of its input that does not end with white space.
proof fn lemma_trim_end_prefix(t: Seq<char>)
    ensures
        trim_end(t).len() <= t.len(),
        trim_end(t) == t.take(trim_end(t).len() as int),
        trim_end(t).len() > 0 ==> !is_space(trim_end(t).last()),
    decreases t.len(),
{
    if t.len() > 0 && is_space(t.last()) {
        lemma_trim_end_prefix(t.drop_last());
        assert(t.drop_last().take(trim_end(t).len() as int) =~= t.take(trim_end(t).len() as int));
    } else {
        assert(t.take(t.len() as int) =~= t);
    }
}

/// Trimmed text that is not empty neither starts nor ends with white space.
pub proof fn lemma_trim_trimmed(s: Seq<char>)
    requires
        trim(s).len() > 0,
    ensures
        trimmed_nonempty(trim(s)),
{
    let t = trim_start(s);
    lemma_trim_start_head(s);
    lemma_trim_end_prefix(t);
    assert(trim(s)[0] == t.take(trim(s).len() as int)[0]);
}

/// The chars of `s`, in order.
pub fn chars_of(s: &str) -> (v: Vec<char>)
    ensures
        v@ == s@,
{
    let mut v: Vec<char> = Vec::new();
    for c in it: s.chars()
        invariant
            it.seq() == s@,
            v@ == it.seq().take(it.index() as int),
    {
        v.push(c);
    }
    v
}

/// A `String` holding `cs[from..to]`.
pub fn string_from(cs: &Vec<char>, from: usize, to: usize) -> (r: String)
    requires
        from <= to <= cs@.len(),
    ensures
        r@ == cs@.subrange(from as int, to as int),
{
    let mut r = String::new();
    let mut i = from;
    while i < to
        invariant
            from <= i <= to <= cs@.len(),
            r@ == cs@.subrange(from as int, i as int),
        decreases to - i,
    {
        push_char(&mut r, cs[i]);
        i += 1;
        assert(r@ =~= cs@.subrange(from as int, i as int));
    }
    r
}

/// The bounds of `cs[from..to]` with white space trimmed from both ends.
pub fn trim_bounds(cs: &Vec<char>, from: usize, to: usize) -> (r: (usize, usize))
    requires
        from <= to <= cs@.len(),
    ensures
        from <= r.0 <= r.1 <= to,
        cs@.subrange(r.0 as int, r.1 as int) == trim(cs@.subrange(from as int, to as int)),
{
    let ghost whole = cs@.subrange(from as int, to as int);
    let mut a = from;
    while a < to && is_whitespace(cs[a])
        invariant
            from <= a <= to <= cs@.len(),
            trim_start(cs@.subrange(a as int, to as int)) == trim_start(whole),
        decreases to - a,
    {
        assert(cs@.subrange(a as int, to as int).drop_first() =~= cs@.subrange(
            a + 1,
            to as int,
        ));
        a += 1;
    }
    assert(trim_start(whole) == cs@.subrange(a as int, to as int));
    let mut b = to;
    while b > a && is_whitespace(cs[b - 1])
        invariant
            from <= a <= b <= to <= cs@.len(),
            trim_end(cs@.subrange(a as int, b as int)) == trim(whole),
        decreases b - a,
    {
        assert(cs@.subrange(a as int, b as int).drop_last() =~= cs@.subrange(
            a as int,
            b - 1,
        ));
        b -= 1;
    }
    (a, b)
}

/// A trimmed copy of `s`.
pub fn trimmed(s: &str) -> (r: String)
    ensures
        r@ == trim(s@),
{
    let cs = chars_of(s);
    let (a, b) = trim_bounds(&cs, 0, cs.len());
    assert(cs@.subrange(0, cs@.len() as int) =~= cs@);
    string_from(&cs, a, b)
}

/// The chars encoded by `bytes[start..end]`.
pub open spec fn text_at(bytes: Seq<u8>, start: int, end: int) -> Seq<char> {
    decode_utf8(bytes.subrange(start, end))
}

/// An ASCII byte starts a char, and so does the byte after it.
pub proof fn lemma_ascii_boundaries(bytes: Seq<u8>, i: int)
    requires
        valid_utf8(bytes),
        0 <= i < bytes.len(),
        bytes[i] <= 0x7f,
    ensures
        is_char_boundary(bytes, i),
        is_char_boundary(bytes, i + 1),
    decreases bytes.len(),
{
    reveal_with_fuel(is_char_boundary, 2);
    if i < length_of_first_scalar(bytes) {
        if i > 0 {
            assert(is_continuation_byte(bytes[i]));
        }
        assert(pop_first_scalar(bytes).len() < bytes.len());
    } else {
        let rest = pop_first_scalar(bytes);
        let k = length_of_first_scalar(bytes);
        assert(rest[i - k] == bytes[i]);
        lemma_ascii_boundaries(rest, i - k);
    }
}

/// A boundary of `bytes` that lies in `bytes[..end]` is a boundary of that prefix.
pub proof fn lemma_boundary_in_prefix(bytes: Seq<u8>, start: int, end: int)
    requires
        valid_utf8(bytes),
        0 <= start <= end <= bytes.len(),
        is_char_boundary(bytes, start),
        is_char_boundary(bytes, end),
    ensures
        valid_utf8(bytes.subrange(0, end)),
        is_char_boundary(bytes.subrange(0, end), start),
{
    let prefix = bytes.subrange(0, end);
    assert(valid_utf8(prefix));
    if start < end {
        assert(prefix[start] == bytes[start]);
        assert(!is_continuation_byte(bytes[start]));
        assert(is_char_boundary(prefix, start));
    } else {
        assert(prefix.len() == end);
        assert(is_char_boundary(prefix, prefix.len() as int));
    }
}

/// A `String` holding the text of `source` between byte offsets `start` and `end`.
pub fn slice_owned(source: &str, start: usize, end: usize) -> (r: String)
    requires
        start <= end <= source.spec_bytes().len(),
        is_char_boundary(source.spec_bytes(), start as int),
        is_char_boundary(source.spec_bytes(), end as int),
    ensures
        r@ == text_at(source.spec_bytes(), start as int, end as int),
{
    let ghost bytes = source.spec_bytes();
    let (head, _) = source.split_at(end);
    proof {
        lemma_boundary_in_prefix(bytes, start as int, end as int);
        assert(head.spec_bytes() =~= bytes.subrange(0, end as int));
    }
    let (_, piece) = head.split_at(start);
    assert(piece.spec_bytes() =~= bytes.subrange(start as int, end as int));
    let r = piece.to_owned();
    r
}


/// `s` without one trailing carriage return.
pub open spec fn strip_cr(s: Seq<char>) -> Seq<char> {
    if s.len() > 0 && s.last() == '\r' {
        s.drop_last()
    } else {
        s
    }
}

/// The first index at or after `from` of a newline in `s`.
pub open spec fn find_newline(s: Seq<char>, from: int) -> Option<int>
    decreases s.len() - from,
{
    if from < 0 || from >= s.len() {
        None
    } else if s[from] == '\n' {
        Some(from)
    } else {
        find_newline(s, from + 1)
    }
}

/// Line `n` (counting from 0) of `s` from `start` on, as `str::lines` splits it; empty when
/// there is no such line.
pub open spec fn line_at(s: Seq<char>, start: int, n: nat) -> Seq<char>
    decreases s.len() - start,
{
    if start < 0 || start >= s.len() {
        seq![]
    } else {
        match find_newline(s, start) {
            Some(j) => if start <= j < s.len() {
                if n == 0 {
                    strip_cr(s.subrange(start, j))
                } else {
                    line_at(s, j + 1, (n - 1) as nat)
                }
            } else {
                seq![]
            },
            None => if n == 0 {
                s.subrange(start, s.len() as int)
            } else {
                seq![]
            },
        }
    }
}

/// Line `n` (counting from 0) of `cs[start..]`, or an empty string.
pub fn line_of(cs: &Vec<char>, start: usize, n: usize) -> (r: String)
    requires
        start <= cs@.len(),
    ensures
        r@ == line_at(cs@, start as int, n as nat),
    decreases cs@.len() - start,
{
    if start >= cs.len() {
        return String::new();
    }
    let mut j = start;
    while j < cs.len() && cs[j] != '\n'
        invariant
            start <= j <= cs@.len(),
            find_newline(cs@, j as int) == find_newline(cs@, start as int),
        decreases cs@.len() - j,
    {
        j += 1;
    }
    if j < cs.len() {
        if n == 0 {
            let end = if j > start && cs[j - 1] == '\r' {
                j - 1
            } else {
                j
            };
            assert(cs@.subrange(start as int, end as int) == strip_cr(cs@.subrange(start as int, j as int)));
            string_from(cs, start, end)
        } else {
            line_of(cs, j + 1, n - 1)
        }
    } else if n == 0 {
        string_from(cs, start, j)
    } else {
        String::new()
    }
}

/// `n` spaces.
pub open spec fn spaces(n: nat) -> Seq<char> {
    Seq::new(n, |i: int| ' ')
}

/// `s` right-aligned in a field of `width` chars.
pub open spec fn right_align(s: Seq<char>, width: nat) -> Seq<char> {
    if s.len() >= width {
        s
    } else {
        spaces((width - s.len()) as nat) + s
    }
}

/// Append `n` spaces.
pub fn push_spaces(out: &mut String, n: usize)
    ensures
        final(out)@ == old(out)@ + spaces(n as nat),
{
    let mut k: usize = 0;
    while k < n
        invariant
            k <= n,
            out@ == old(out)@ + spaces(k as nat),
        decreases n - k,
    {
        push_char(out, ' ');
        k += 1;
        assert(out@ =~= old(out)@ + spaces(k as nat));
    }
}

/// The decimal digit `d`.
pub open spec fn digit(d: nat) -> char {
    (48 + d) as char
}

/// The decimal representation of `n`, without leading zeros.
pub open spec fn decimal(n: nat) -> Seq<char>
    decreases n,
{
    if n < 10 {
        seq![digit(n)]
    } else {
        decimal(n / 10).push(digit(n % 10))
    }
}

/// The decimal representation of a signed `n`: a minus sign, then the digits of its magnitude.
pub open spec fn signed_decimal(n: int) -> Seq<char> {
    if n < 0 {
        seq!['-'] + decimal((-n) as nat)
    } else {
        decimal(n as nat)
    }
}

/// Append the decimal representation of `n` to `out`.
pub fn push_decimal(out: &mut String, n: u64)
    ensures
        final(out)@ == old(out)@ + decimal(n as nat),
    decreases n,
{
    if n >= 10 {
        push_decimal(out, n / 10);
    }
    let d = (n % 10) as u8;
    push_char(out, (48u8 + d) as char);
    assert(final(out)@ =~= old(out)@ + decimal(n as nat));
}

/// The decimal representation of `n`.
pub fn decimal_string(n: u64) -> (r: String)
    ensures
        r@ == decimal(n as nat),
{
    let mut out = String::new();
    push_decimal(&mut out, n);
    assert(out@ =~= decimal(n as nat));
    out
}

/// The decimal representation of a signed `n`.
pub fn signed_decimal_string(n: i64) -> (r: String)
    ensures
        r@ == signed_decimal(n as int),
{
    let mut out = String::new();
    if n < 0 {
        push_char(&mut out, '-');
        let m: u64 = ((-(n + 1)) as u64) + 1;
        push_decimal(&mut out, m);
    } else {
        push_decimal(&mut out, n as u64);
    }
    assert(out@ =~= signed_decimal(n as int));
    out
}


/// Append `s` to `out`.
pub fn push_text(out: &mut String, s: &str)
    ensures
        final(out)@ == old(out)@ + s@,
{
    out.append(s);
}

/// Whether two char sequences are equal.
pub fn same_chars(a: &Vec<char>, b: &Vec<char>) -> (r: bool)
    ensures
        r == (a@ == b@),
{
    if a.len() != b.len() {
        return false;
    }
    let mut i: usize = 0;
    while i < a.len()
        invariant
            a@.len() == b@.len(),
            i <= a@.len(),
            forall|j: int| 0 <= j < i ==> a@[j] == b@[j],
        decreases a.len() - i,
    {
        if a[i] != b[i] {
            return false;
        }
        i += 1;
    }
    assert(a@ =~= b@);
    true
}

/// Whether two strings hold the same text.
pub fn same_text(a: &str, b: &str) -> (r: bool)
    ensures
        r == (a@ == b@),
{
    let x = chars_of(a);
    let y = chars_of(b);
    same_chars(&x, &y)
}

/// The order of `str`'s `Ord`: lexicographic by char, a prefix before what extends it.
///
/// UTF-8 keeps the order of code points, so comparing chars orders as comparing bytes does.
pub open spec fn text_le(a: Seq<char>, b: Seq<char>) -> bool
    decreases a.len(),
{
    if a.len() == 0 {
        true
    } else if b.len() == 0 {
        false
    } else if a[0] != b[0] {
        a[0] < b[0]
    } else {
        text_le(a.drop_first(), b.drop_first())
    }
}

/// `text_le` is transitive.
pub proof fn lemma_text_le_transitive(a: Seq<char>, b: Seq<char>, c: Seq<char>)
    requires
        text_le(a, b),
        text_le(b, c),
    ensures
        text_le(a, c),
    decreases a.len(),
{
    if a.len() > 0 && b.len() > 0 && c.len() > 0 && a[0] == b[0] && b[0] == c[0] {
        lemma_text_le_transitive(a.drop_first(), b.drop_first(), c.drop_first());
    }
}

/// Any two texts are ordered one way or the other, and both ways only when equal.
pub proof fn lemma_text_le_total(a: Seq<char>, b: Seq<char>)
    ensures
        text_le(a, b) || text_le(b, a),
        text_le(a, b) && text_le(b, a) ==> a == b,
    decreases a.len(),
{
    if a.len() > 0 && b.len() > 0 && a[0] == b[0] {
        lemma_text_le_total(a.drop_first(), b.drop_first());
        if text_le(a, b) && text_le(b, a) {
            assert(a =~= seq![a[0]] + a.drop_first());
            assert(b =~= seq![b[0]] + b.drop_first());
        }
    }
}

/// `text_le` on chars held in vectors, from `i` on.
fn chars_le_from(a: &Vec<char>, b: &Vec<char>, i: usize) -> (r: bool)
    requires
        i <= a@.len(),
        i <= b@.len(),
    ensures
        r == text_le(a@.skip(i as int), b@.skip(i as int)),
    decreases a@.len() - i,
{
    let ghost x = a@.skip(i as int);
    let ghost y = b@.skip(i as int);
    if i == a.len() {
        return true;
    }
    if i == b.len() {
        return false;
    }
    assert(x[0] == a@[i as int]);
    assert(y[0] == b@[i as int]);
    if a[i] != b[i] {
        return a[i] < b[i];
    }
    assert(x.drop_first() =~= a@.skip(i + 1));
    assert(y.drop_first() =~= b@.skip(i + 1));
    chars_le_from(a, b, i + 1)
}

/// Whether `a` orders at or before `b`.
pub fn text_at_or_before(a: &str, b: &str) -> (r: bool)
    ensures
        r == text_le(a@, b@),
{
    let x = chars_of(a);
    let y = chars_of(b);
    assert(x@.skip(0) =~= x@);
    assert(y@.skip(0) =~= y@);
    chars_le_from(&x, &y, 0)
}

/// Texts in order, each at or before every later one.
pub open spec fn texts_sorted(s: Seq<String>) -> bool {
    forall|i: int, j: int| 0 <= i < j < s.len() ==> text_le(#[trigger] s[i]@, #[trigger] s[j]@)
}

/// Sort `v` into `str` order. What comes out is what went in, rearranged.
pub fn sort_texts(v: &mut Vec<String>)
    ensures
        texts_sorted(final(v)@),
        final(v)@.to_multiset() == old(v)@.to_multiset(),
{
    let mut out: Vec<String> = Vec::new();
    let ghost input = old(v)@;
    let ghost mut taken: Seq<String> = Seq::empty();
    while v.len() > 0
        invariant
            taken + v@ == input,
            texts_sorted(out@),
            out@.to_multiset() == taken.to_multiset(),
        decreases v@.len(),
    {
        let ghost before = v@;
        let s = v.remove(0);
        proof {
            assert(before =~= seq![s] + v@);
            assert(taken + before == (taken + seq![s]) + v@) by {
                assert(taken + before =~= (taken + seq![s]) + v@);
            }
        }
        let mut k: usize = 0;
        while k < out.len() && text_at_or_before(out[k].as_str(), s.as_str())
            invariant
                k <= out@.len(),
                forall|j: int| 0 <= j < k ==> text_le(#[trigger] out@[j]@, s@),
            decreases out@.len() - k,
        {
            k += 1;
        }
        let ghost old_out = out@;
        out.insert(k, s);
        proof {
            assert(out@ =~= old_out.take(k as int) + seq![s] + old_out.skip(k as int));
            if k < old_out.len() {
                lemma_text_le_total(old_out[k as int]@, s@);
            }
            assert forall|i: int, j: int| 0 <= i < j < out@.len() implies text_le(
                #[trigger] out@[i]@,
                #[trigger] out@[j]@,
            ) by {
                if j < k {
                } else if j == k {
                    assert(out@[j] == s);
                } else if i < k {
                    assert(out@[j] == old_out[j - 1]);
                    lemma_text_le_transitive(out@[i]@, s@, old_out[k as int]@);
                    if j - 1 > k {
                        lemma_text_le_transitive(out@[i]@, old_out[k as int]@, old_out[j - 1]@);
                    }
                } else if i == k {
                    assert(out@[j] == old_out[j - 1]);
                    if j - 1 > k {
                        lemma_text_le_transitive(s@, old_out[k as int]@, old_out[j - 1]@);
                    }
                } else {
                    assert(out@[i] == old_out[i - 1]);
                    assert(out@[j] == old_out[j - 1]);
                }
            }
            vstd::seq_lib::lemma_multiset_commutative(old_out.take(k as int), seq![s]);
            vstd::seq_lib::lemma_multiset_commutative(old_out.take(k as int) + seq![s], old_out.skip(k as int));
            vstd::seq_lib::lemma_multiset_commutative(old_out.take(k as int), old_out.skip(k as int));
            assert(old_out =~= old_out.take(k as int) + old_out.skip(k as int));
            vstd::seq_lib::lemma_multiset_commutative(taken, seq![s]);
            taken = taken + seq![s];
        }
    }
    proof {
        assert(taken =~= input);
    }
    *v = out;
}

} // verus!
