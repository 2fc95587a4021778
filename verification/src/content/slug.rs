//! Slugs and store keys, derived from where a document sits under the content root.
//!
//! Paths are read as `std::path::Path` reads them on Unix. A component is kept as text: the root
//! as `/`, the current directory as `.`, the parent as `..`, and any other component as its name,
//! which never takes one of those three forms.
use vstd::prelude::*;
use crate::text::{chars_of, push_char, same_chars};

verus! {

/// The pieces of `p` between slashes, in order: `n` slashes give `n + 1` pieces.
pub open spec fn pieces(p: Seq<char>) -> Seq<Seq<char>>
    decreases p.len(),
{
    if p.len() == 0 {
        seq![Seq::empty()]
    } else {
        let before = pieces(p.drop_last());
        if p.last() == '/' {
            before.push(Seq::empty())
        } else {
            before.update(before.len() - 1, before.last().push(p.last()))
        }
    }
}

/// There is always at least one piece.
pub proof fn lemma_pieces_len(p: Seq<char>)
    ensures
        pieces(p).len() >= 1,
    decreases p.len(),
{
    if p.len() > 0 {
        lemma_pieces_len(p.drop_last());
    }
}

/// The component that stands for the root.
pub open spec fn root_part() -> Seq<char> {
    seq!['/']
}

/// The component that stands for the current directory.
pub open spec fn current_part() -> Seq<char> {
    seq!['.']
}

/// The component that stands for the parent directory.
pub open spec fn parent_part() -> Seq<char> {
    seq!['.', '.']
}

/// Whether a component is the root, the current or the parent directory rather than a name.
pub open spec fn is_marker(q: Seq<char>) -> bool {
    q == root_part() || q == current_part() || q == parent_part()
}

/// The pieces that are components: empty pieces (repeated or trailing slashes) and `.` go.
pub open spec fn kept(ps: Seq<Seq<char>>) -> Seq<Seq<char>>
    decreases ps.len(),
{
    if ps.len() == 0 {
        Seq::empty()
    } else {
        let before = kept(ps.drop_last());
        let q = ps.last();
        if q.len() == 0 || q == current_part() {
            before
        } else {
            before.push(q)
        }
    }
}

/// The components of `p`, as `Path::components` yields them: a leading root, a leading `.`
/// kept as the current directory, then every piece that is neither empty nor `.`.
pub open spec fn components(p: Seq<char>) -> Seq<Seq<char>> {
    let ps = pieces(p);
    if p.len() > 0 && p[0] == '/' {
        seq![root_part()] + kept(ps.drop_first())
    } else if ps[0] == current_part() {
        seq![current_part()] + kept(ps.drop_first())
    } else {
        kept(ps)
    }
}

/// The components of `path` after those of `root`, as `Path::strip_prefix` gives them, or all of
/// them where `root`'s are not a prefix.
pub open spec fn relative(root: Seq<char>, path: Seq<char>) -> Seq<Seq<char>> {
    let r = components(root);
    let c = components(path);
    if r.len() <= c.len() && c.take(r.len() as int) == r {
        c.skip(r.len() as int)
    } else {
        c
    }
}

/// The last `.` in `name[..end]`.
pub open spec fn last_dot(name: Seq<char>, end: int) -> Option<int>
    decreases end,
{
    if end <= 0 {
        None
    } else if name[end - 1] == '.' {
        Some(end - 1)
    } else {
        last_dot(name, end - 1)
    }
}

/// `Path::file_stem` of a name: everything before its last `.`, unless that `.` is the first
/// char or there is none, when it is the whole name.
pub open spec fn stem(name: Seq<char>) -> Seq<char> {
    match last_dot(name, name.len() as int) {
        Some(k) => if k == 0 {
            name
        } else {
            name.take(k)
        },
        None => name,
    }
}

/// `Path::with_extension("")`: the last component, where it is a name, cut to its stem.
pub open spec fn without_extension(cs: Seq<Seq<char>>) -> Seq<Seq<char>> {
    if cs.len() > 0 && !is_marker(cs.last()) {
        cs.update(cs.len() - 1, stem(cs.last()))
    } else {
        cs
    }
}

/// The names among `cs`, in order.
pub open spec fn names(cs: Seq<Seq<char>>) -> Seq<Seq<char>>
    decreases cs.len(),
{
    if cs.len() == 0 {
        Seq::empty()
    } else if is_marker(cs.last()) {
        names(cs.drop_last())
    } else {
        names(cs.drop_last()).push(cs.last())
    }
}

/// `ns` joined with `/`.
pub open spec fn joined(ns: Seq<Seq<char>>) -> Seq<char>
    decreases ns.len(),
{
    if ns.len() == 0 {
        Seq::empty()
    } else if ns.len() == 1 {
        ns[0]
    } else {
        joined(ns.drop_last()) + seq!['/'] + ns.last()
    }
}

/// The slug of a document at `path` under `root`.
pub open spec fn slug_of(root: Seq<char>, path: Seq<char>) -> Seq<char> {
    let ns = names(without_extension(relative(root, path)));
    if ns.len() == 0 {
        "untitled"@
    } else {
        joined(ns)
    }
}

/// The store key of the post with `slug`.
pub open spec fn key_of(slug: Seq<char>) -> Seq<char> {
    "blog/"@ + slug
}

/// The texts held in `v`.
pub open spec fn views(v: Seq<Vec<char>>) -> Seq<Seq<char>> {
    v.map_values(|q: Vec<char>| q@)
}

/// The pieces of `p`.
fn pieces_of(p: &Vec<char>) -> (r: Vec<Vec<char>>)
    ensures
        views(r@) == pieces(p@),
{
    let mut out: Vec<Vec<char>> = Vec::new();
    let mut cur: Vec<char> = Vec::new();
    let mut i: usize = 0;
    assert(p@.take(0) =~= Seq::<char>::empty());
    assert(views(out@).push(cur@) =~= pieces(p@.take(0)));
    while i < p.len()
        invariant
            i <= p@.len(),
            views(out@).push(cur@) == pieces(p@.take(i as int)),
        decreases p@.len() - i,
    {
        let c = p[i];
        let ghost before = views(out@).push(cur@);
        assert(p@.take(i + 1).drop_last() =~= p@.take(i as int));
        assert(p@.take(i + 1).last() == c);
        if c == '/' {
            let done = cur;
            out.push(done);
            cur = Vec::new();
            assert(views(out@).push(cur@) =~= before.push(Seq::empty()));
        } else {
            cur.push(c);
            assert(views(out@).push(cur@) =~= before.update(
                before.len() - 1,
                before.last().push(c),
            ));
        }
        i += 1;
    }
    out.push(cur);
    assert(p@.take(p@.len() as int) =~= p@);
    out
}

/// Whether `q` is the current-directory component.
fn is_current(q: &Vec<char>) -> (r: bool)
    ensures
        r == (q@ == current_part()),
{
    let r = q.len() == 1 && q[0] == '.';
    assert(r ==> q@ =~= current_part());
    r
}

/// Whether `q` is a marker rather than a name.
fn marker(q: &Vec<char>) -> (r: bool)
    ensures
        r == is_marker(q@),
{
    let r = (q.len() == 1 && (q[0] == '/' || q[0] == '.')) || (q.len() == 2 && q[0] == '.' && q[1]
        == '.');
    proof {
        if q.len() == 1 && q[0] == '/' {
            assert(q@ =~= root_part());
        }
        if q.len() == 1 && q[0] == '.' {
            assert(q@ =~= current_part());
        }
        if q.len() == 2 && q[0] == '.' && q[1] == '.' {
            assert(q@ =~= parent_part());
        }
    }
    r
}

/// Append to `out` the pieces of `ps[from..]` that `kept` keeps.
fn keep_pieces(ps: Vec<Vec<char>>, from: usize, out: &mut Vec<Vec<char>>)
    requires
        from <= ps@.len(),
    ensures
        views(final(out)@) == views(old(out)@) + kept(views(ps@).skip(from as int)),
{
    let ghost all = views(ps@);
    let ghost start = views(old(out)@);
    let total = ps.len();
    let mut rest = ps;
    let mut i: usize = 0;
    while i < from
        invariant
            i <= from <= all.len(),
            views(rest@) == all.skip(i as int),
            views(out@) == start,
        decreases from - i,
    {
        let ghost rv = views(rest@);
        assert(rv.len() == rest@.len());
        rest.remove(0);
        assert(views(rest@) =~= rv.drop_first());
        assert(views(rest@) =~= all.skip(i + 1));
        i += 1;
    }
    let ghost tail = all.skip(from as int);
    let mut taken: usize = 0;
    assert(tail.take(0) =~= Seq::<Seq<char>>::empty());
    while rest.len() > 0
        invariant
            taken <= tail.len(),
            tail.len() == total - from,
            views(rest@) == tail.skip(taken as int),
            views(out@) == start + kept(tail.take(taken as int)),
        decreases rest@.len(),
    {
        let ghost rv = views(rest@);
        assert(rv.len() == rest@.len());
        assert(rv[0] == rest@[0]@);
        let q = rest.remove(0);
        assert(views(rest@) =~= rv.drop_first());
        assert(q@ == tail[taken as int]);
        assert(views(rest@) =~= tail.skip(taken + 1));
        assert(tail.take(taken + 1).drop_last() =~= tail.take(taken as int));
        assert(tail.take(taken + 1).last() == q@);
        let ghost old_out = views(out@);
        let skip = q.len() == 0 || is_current(&q);
        if !skip {
            out.push(q);
            assert(views(out@) =~= old_out.push(tail[taken as int]));
        }
        assert(views(out@) =~= start + kept(tail.take(taken + 1)));
        taken += 1;
    }
    assert(tail.take(taken as int) =~= tail);
}

/// The components of `p`.
pub fn components_of(p: &str) -> (r: Vec<Vec<char>>)
    ensures
        views(r@) == components(p@),
{
    let cs = chars_of(p);
    let ps = pieces_of(&cs);
    proof {
        lemma_pieces_len(p@);
    }
    let mut out: Vec<Vec<char>> = Vec::new();
    if cs.len() > 0 && cs[0] == '/' {
        let mut root: Vec<char> = Vec::new();
        root.push('/');
        out.push(root);
        assert(views(out@) =~= seq![root_part()]);
        keep_pieces(ps, 1, &mut out);
        assert(views(ps@).skip(1) =~= pieces(p@).drop_first());
    } else if is_current(&ps[0]) {
        let mut current: Vec<char> = Vec::new();
        current.push('.');
        out.push(current);
        assert(views(out@) =~= seq![current_part()]);
        assert(views(ps@)[0] == ps@[0]@);
        keep_pieces(ps, 1, &mut out);
        assert(views(ps@).skip(1) =~= pieces(p@).drop_first());
    } else {
        assert(views(ps@)[0] == ps@[0]@);
        keep_pieces(ps, 0, &mut out);
        assert(views(ps@).skip(0) =~= pieces(p@));
        assert(views(out@) =~= kept(pieces(p@)));
    }
    out
}

/// The last `.` of `name[..end]`.
fn find_last_dot(name: &Vec<char>, end: usize) -> (r: Option<usize>)
    requires
        end <= name@.len(),
    ensures
        r matches Some(k) ==> k < end && last_dot(name@, end as int) == Some(k as int),
        r is None ==> last_dot(name@, end as int) is None,
    decreases end,
{
    if end == 0 {
        None
    } else if name[end - 1] == '.' {
        Some(end - 1)
    } else {
        find_last_dot(name, end - 1)
    }
}

/// The stem of `name`.
fn stem_of(name: Vec<char>) -> (r: Vec<char>)
    ensures
        r@ == stem(name@),
{
    match find_last_dot(&name, name.len()) {
        Some(k) => {
            if k == 0 {
                name
            } else {
                let mut out: Vec<char> = Vec::new();
                let mut i: usize = 0;
                while i < k
                    invariant
                        k <= name@.len(),
                        i <= k,
                        out@ == name@.take(i as int),
                    decreases k - i,
                {
                    out.push(name[i]);
                    i += 1;
                    assert(out@ =~= name@.take(i as int));
                }
                out
            }
        },
        None => name,
    }
}

/// A component pushed onto `cs` adds itself to the names when it is a name.
proof fn lemma_names_push(cs: Seq<Seq<char>>, q: Seq<char>)
    ensures
        names(cs.push(q)) == if is_marker(q) {
            names(cs)
        } else {
            names(cs).push(q)
        },
{
    assert(cs.push(q).drop_last() =~= cs);
}

/// The slug for the document at `path`, from where it sits under `root`.
///
/// Path-derived rather than stem-derived: two files with the same stem in different directories
/// are different documents. A path with no name left once `root` and the extension are taken
/// away is `untitled`.
pub fn slug_for(root: &str, path: &str) -> (r: String)
    ensures
        r@ == slug_of(root@, path@),
{
    let rc = components_of(root);
    let pc = components_of(path);
    let ghost rcv = views(rc@);
    let ghost pcv = views(pc@);
    let mut is_prefix = rc.len() <= pc.len();
    let mut i: usize = 0;
    while is_prefix && i < rc.len()
        invariant
            rcv == views(rc@),
            pcv == views(pc@),
            i <= rc@.len(),
            is_prefix ==> rc@.len() <= pc@.len(),
            is_prefix ==> forall|j: int| 0 <= j < i ==> rcv[j] == pcv[j],
            !is_prefix ==> !(rcv.len() <= pcv.len() && pcv.take(rcv.len() as int) == rcv),
        decreases rc@.len() - i + if is_prefix { 1int } else { 0int },
    {
        assert(rcv[i as int] == rc@[i as int]@);
        assert(pcv[i as int] == pc@[i as int]@);
        if !same_chars(&rc[i], &pc[i]) {
            is_prefix = false;
            assert(pcv.take(rcv.len() as int)[i as int] == pcv[i as int]);
        } else {
            i += 1;
        }
    }
    if is_prefix {
        assert(pcv.take(rcv.len() as int) =~= rcv);
    }
    let ghost rel = relative(root@, path@);
    let mut rest = pc;
    let mut k: usize = 0;
    let start = if is_prefix {
        rc.len()
    } else {
        0
    };
    while k < start
        invariant
            k <= start <= pcv.len(),
            views(rest@) == pcv.skip(k as int),
        decreases start - k,
    {
        let ghost rv = views(rest@);
        assert(rv.len() == rest@.len());
        rest.remove(0);
        assert(views(rest@) =~= rv.drop_first());
        assert(views(rest@) =~= pcv.skip(k + 1));
        k += 1;
    }
    assert(views(rest@) =~= rel);
    let n = rest.len();
    if n > 0 && !marker(&rest[n - 1]) {
        let last = rest.pop().unwrap();
        let cut = stem_of(last);
        rest.push(cut);
        assert(views(rest@) =~= without_extension(rel));
    } else {
        assert(views(rest@) == without_extension(rel));
    }
    let ghost trimmed = without_extension(rel);
    let mut out = String::new();
    let mut any = false;
    let mut j: usize = 0;
    assert(trimmed.take(0) =~= Seq::<Seq<char>>::empty());
    while j < rest.len()
        invariant
            views(rest@) == trimmed,
            j <= trimmed.len(),
            any == (names(trimmed.take(j as int)).len() > 0),
            out@ == joined(names(trimmed.take(j as int))),
        decreases trimmed.len() - j,
    {
        let ghost before = names(trimmed.take(j as int));
        proof {
            assert(trimmed.take(j + 1) =~= trimmed.take(j as int).push(trimmed[j as int]));
            lemma_names_push(trimmed.take(j as int), trimmed[j as int]);
        }
        assert(trimmed[j as int] == rest@[j as int]@);
        if !marker(&rest[j]) {
            if any {
                push_char(&mut out, '/');
            }
            let q = &rest[j];
            let mut m: usize = 0;
            let ghost base = out@;
            while m < q.len()
                invariant
                    m <= q@.len(),
                    out@ == base + q@.take(m as int),
                decreases q@.len() - m,
            {
                push_char(&mut out, q[m]);
                m += 1;
                assert(out@ =~= base + q@.take(m as int));
            }
            proof {
                let after = before.push(q@);
                assert(q@.take(q@.len() as int) =~= q@);
                assert(after.drop_last() =~= before);
                if before.len() == 0 {
                    assert(out@ =~= q@);
                } else {
                    assert(out@ =~= joined(before) + seq!['/'] + q@);
                }
            }
            any = true;
        }
        j += 1;
    }
    assert(trimmed.take(trimmed.len() as int) =~= trimmed);
    if !any {
        proof {
            reveal_strlit("untitled");
        }
        return "untitled".to_string();
    }
    out
}

/// The store key of the post with `slug`: `blog/` then the slug.
pub fn key_for(slug: &str) -> (r: String)
    ensures
        r@ == key_of(slug@),
{
    let mut out = "blog/".to_string();
    crate::text::push_text(&mut out, slug);
    proof {
        reveal_strlit("blog/");
    }
    out
}

/// Whether `q` can stand as a name in a slug: not empty, and without a slash.
pub open spec fn plain_name(q: Seq<char>) -> bool {
    q.len() > 0 && forall|i: int| 0 <= i < q.len() ==> q[i] != '/'
}

/// Whether every component of `cs` is a marker or a plain name.
pub open spec fn well_formed_parts(cs: Seq<Seq<char>>) -> bool {
    forall|i: int| 0 <= i < cs.len() ==> is_marker(#[trigger] cs[i]) || plain_name(cs[i])
}

/// No piece holds a slash.
proof fn lemma_pieces_slash_free(p: Seq<char>)
    ensures
        forall|i: int, j: int|
            0 <= i < pieces(p).len() && 0 <= j < pieces(p)[i].len() ==> #[trigger] pieces(p)[i][j]
                != '/',
    decreases p.len(),
{
    if p.len() > 0 {
        lemma_pieces_slash_free(p.drop_last());
        lemma_pieces_len(p.drop_last());
        let before = pieces(p.drop_last());
        if p.last() != '/' {
            let grown = before.last().push(p.last());
            assert forall|i: int, j: int|
                0 <= i < pieces(p).len() && 0 <= j < pieces(p)[i].len() implies #[trigger] pieces(
                p,
            )[i][j] != '/' by {
                if i == before.len() - 1 {
                    assert(pieces(p)[i] == grown);
                    if j < before.last().len() {
                        assert(grown[j] == before.last()[j]);
                    }
                } else {
                    assert(pieces(p)[i] == before[i]);
                }
            }
        } else {
            assert forall|i: int, j: int|
                0 <= i < pieces(p).len() && 0 <= j < pieces(p)[i].len() implies #[trigger] pieces(
                p,
            )[i][j] != '/' by {
                if i < before.len() {
                    assert(pieces(p)[i] == before[i]);
                }
            }
        }
    }
}

/// What `kept` keeps of slash-free pieces is markers and plain names.
proof fn lemma_kept_well_formed(ps: Seq<Seq<char>>)
    requires
        forall|i: int, j: int| 0 <= i < ps.len() && 0 <= j < ps[i].len() ==> #[trigger] ps[i][j] != '/',
    ensures
        well_formed_parts(kept(ps)),
    decreases ps.len(),
{
    if ps.len() > 0 {
        assert forall|i: int, j: int|
            0 <= i < ps.drop_last().len() && 0 <= j < ps.drop_last()[i].len() implies #[trigger] ps.drop_last()[i][j]
            != '/' by {
            assert(ps.drop_last()[i] == ps[i]);
        }
        lemma_kept_well_formed(ps.drop_last());
        let q = ps.last();
        if !(q.len() == 0 || q == current_part()) {
            assert(forall|j: int| 0 <= j < q.len() ==> q[j] == ps[ps.len() - 1][j]);
            assert(plain_name(q));
            let r = kept(ps);
            assert forall|i: int| 0 <= i < r.len() implies is_marker(#[trigger] r[i]) || plain_name(r[i]) by {
                if i < r.len() - 1 {
                    assert(r[i] == kept(ps.drop_last())[i]);
                }
            }
        }
    }
}

/// The components of a path are markers and plain names.
proof fn lemma_components_well_formed(p: Seq<char>)
    ensures
        well_formed_parts(components(p)),
{
    lemma_pieces_len(p);
    lemma_pieces_slash_free(p);
    let ps = pieces(p);
    assert forall|i: int, j: int|
        0 <= i < ps.drop_first().len() && 0 <= j < ps.drop_first()[i].len() implies #[trigger] ps.drop_first()[i][j]
        != '/' by {
        assert(ps.drop_first()[i] == ps[i + 1]);
    }
    lemma_kept_well_formed(ps);
    lemma_kept_well_formed(ps.drop_first());
    let c = components(p);
    if p.len() > 0 && p[0] == '/' {
        let rest = kept(ps.drop_first());
        assert forall|i: int| 0 <= i < c.len() implies is_marker(#[trigger] c[i]) || plain_name(c[i]) by {
            if i > 0 {
                assert(c[i] == rest[i - 1]);
            }
        }
    } else if ps[0] == current_part() {
        let rest = kept(ps.drop_first());
        assert forall|i: int| 0 <= i < c.len() implies is_marker(#[trigger] c[i]) || plain_name(c[i]) by {
            if i > 0 {
                assert(c[i] == rest[i - 1]);
            }
        }
    }
}

/// The stem of a plain name is a plain name.
proof fn lemma_stem_plain(name: Seq<char>)
    requires
        plain_name(name),
    ensures
        plain_name(stem(name)),
{
    lemma_last_dot(name, name.len() as int);
}

/// `last_dot` finds a `.` before `end`.
proof fn lemma_last_dot(name: Seq<char>, end: int)
    requires
        end <= name.len(),
    ensures
        last_dot(name, end) matches Some(k) ==> 0 <= k < end,
    decreases end,
{
    if end > 0 && name[end - 1] != '.' {
        lemma_last_dot(name, end - 1);
    }
}

/// The parts a slug is made from are markers and plain names.
proof fn lemma_trimmed_well_formed(root: Seq<char>, path: Seq<char>)
    ensures
        well_formed_parts(without_extension(relative(root, path))),
{
    lemma_components_well_formed(path);
    let c = components(path);
    let r = components(root);
    let rel = relative(root, path);
    if r.len() <= c.len() && c.take(r.len() as int) == r {
        assert forall|i: int| 0 <= i < rel.len() implies is_marker(#[trigger] rel[i]) || plain_name(rel[i]) by {
            assert(rel[i] == c[i + r.len()]);
        }
    }
    let w = without_extension(rel);
    if rel.len() > 0 && !is_marker(rel.last()) {
        assert(is_marker(rel[rel.len() - 1]) || plain_name(rel[rel.len() - 1]));
        lemma_stem_plain(rel.last());
        assert forall|i: int| 0 <= i < w.len() implies is_marker(#[trigger] w[i]) || plain_name(w[i]) by {
            if i < rel.len() - 1 {
                assert(w[i] == rel[i]);
            }
        }
    }
}

/// The names among well-formed parts are plain.
proof fn lemma_names_plain(cs: Seq<Seq<char>>)
    requires
        well_formed_parts(cs),
    ensures
        forall|i: int| 0 <= i < names(cs).len() ==> plain_name(#[trigger] names(cs)[i]),
    decreases cs.len(),
{
    if cs.len() > 0 {
        assert(well_formed_parts(cs.drop_last())) by {
            assert forall|i: int| 0 <= i < cs.drop_last().len() implies is_marker(#[trigger] cs.drop_last()[i])
                || plain_name(cs.drop_last()[i]) by {
                assert(cs.drop_last()[i] == cs[i]);
            }
        }
        lemma_names_plain(cs.drop_last());
        assert(is_marker(cs[cs.len() - 1]) || plain_name(cs[cs.len() - 1]));
        let before = names(cs.drop_last());
        if !is_marker(cs.last()) {
            assert forall|i: int| 0 <= i < names(cs).len() implies plain_name(#[trigger] names(cs)[i]) by {
                if i < before.len() {
                    assert(names(cs)[i] == before[i]);
                }
            }
        }
    }
}

/// Joining plain names is one-to-one.
proof fn lemma_joined_injective(a: Seq<Seq<char>>, b: Seq<Seq<char>>)
    requires
        a.len() > 0,
        b.len() > 0,
        forall|i: int| 0 <= i < a.len() ==> plain_name(#[trigger] a[i]),
        forall|i: int| 0 <= i < b.len() ==> plain_name(#[trigger] b[i]),
        joined(a) == joined(b),
    ensures
        a == b,
    decreases a.len() + b.len(),
{
    lemma_joined_shape(a);
    lemma_joined_shape(b);
    let ja = joined(a);
    let la = a.last();
    let lb = b.last();
    assert(plain_name(a[a.len() - 1]));
    assert(plain_name(b[b.len() - 1]));
    if a.len() == 1 && b.len() == 1 {
        assert(a =~= seq![a[0]]);
        assert(b =~= seq![b[0]]);
    } else if a.len() == 1 {
        let k = ja.len() - lb.len() - 1;
        assert(ja[k] == '/');
        assert(ja == a[0]);
        assert(plain_name(a[0]));
    } else if b.len() == 1 {
        let k = ja.len() - la.len() - 1;
        assert(ja[k] == '/');
        assert(joined(b) == b[0]);
        assert(plain_name(b[0]));
    } else {
        if la.len() < lb.len() {
            let k = ja.len() - la.len() - 1;
            assert(ja[k] == '/');
            assert(ja[k] == lb[k - (ja.len() - lb.len())]);
        } else if lb.len() < la.len() {
            let k = ja.len() - lb.len() - 1;
            assert(ja[k] == '/');
            assert(ja[k] == la[k - (ja.len() - la.len())]);
        }
        assert(la =~= ja.subrange(ja.len() - la.len(), ja.len() as int));
        assert(lb =~= ja.subrange(ja.len() - lb.len(), ja.len() as int));
        assert(joined(a.drop_last()) =~= ja.subrange(0, ja.len() - la.len() - 1));
        assert(joined(b.drop_last()) =~= ja.subrange(0, ja.len() - lb.len() - 1));
        lemma_joined_injective(a.drop_last(), b.drop_last());
        assert(a =~= a.drop_last().push(la));
        assert(b =~= b.drop_last().push(lb));
    }
}

/// How a join of two or more names ends: the join of the others, a slash, the last name.
proof fn lemma_joined_shape(a: Seq<Seq<char>>)
    requires
        a.len() > 0,
    ensures
        a.len() >= 2 ==> joined(a) == joined(a.drop_last()) + seq!['/'] + a.last(),
        a.len() >= 2 ==> joined(a).len() == joined(a.drop_last()).len() + 1 + a.last().len(),
        a.len() == 1 ==> joined(a) == a[0],
{
}

/// The stem of a marker is a marker.
proof fn lemma_stem_marker(q: Seq<char>)
    requires
        is_marker(q),
    ensures
        is_marker(stem(q)),
{
    if q == parent_part() {
        assert(q[1] == '.');
        assert(last_dot(q, 2) == Some(1int));
        assert(q.take(1) =~= current_part());
    } else if q == root_part() {
        assert(q[0] == '/');
        assert(last_dot(q, 0) is None);
        assert(last_dot(q, 1) is None);
    } else {
        assert(q[0] == '.');
        assert(last_dot(q, 1) == Some(0int));
    }
}

/// A slug cuts only the document's own file name at its last dot: the components before it,
/// directories under the root, go into the slug whole. Of the components under the root, the
/// slug joins with `/` every name among all but the last, then the stem of the last, if that is
/// a name; with no name at all the slug is `untitled`.
pub proof fn lemma_slug_keeps_directories_whole(root: Seq<char>, path: Seq<char>)
    ensures
        ({
            let rel = relative(root, path);
            let ns = if rel.len() == 0 {
                Seq::empty()
            } else {
                names(rel.drop_last().push(stem(rel.last())))
            };
            slug_of(root, path) == if ns.len() == 0 {
                "untitled"@
            } else {
                joined(ns)
            }
        }),
{
    let rel = relative(root, path);
    if rel.len() > 0 {
        let cut = rel.drop_last().push(stem(rel.last()));
        assert(cut.drop_last() =~= rel.drop_last());
        if is_marker(rel.last()) {
            lemma_stem_marker(rel.last());
            assert(without_extension(rel) == rel);
            assert(rel.drop_last().push(rel.last()) =~= rel);
            assert(names(rel) == names(rel.drop_last()));
            assert(names(cut) == names(rel.drop_last()));
        } else {
            assert(without_extension(rel) =~= cut);
        }
    } else {
        assert(without_extension(rel) == rel);
    }
}

/// Documents whose names under the root differ get different slugs: the slug keeps every
/// directory, so two files with the same stem in different directories stay apart.
pub proof fn lemma_slugs_keep_documents_apart(root: Seq<char>, a: Seq<char>, b: Seq<char>)
    requires
        names(without_extension(relative(root, a))).len() > 0,
        names(without_extension(relative(root, b))).len() > 0,
        names(without_extension(relative(root, a))) != names(without_extension(relative(root, b))),
    ensures
        slug_of(root, a) != slug_of(root, b),
{
    lemma_trimmed_well_formed(root, a);
    lemma_trimmed_well_formed(root, b);
    lemma_names_plain(without_extension(relative(root, a)));
    lemma_names_plain(without_extension(relative(root, b)));
    if slug_of(root, a) == slug_of(root, b) {
        lemma_joined_injective(
            names(without_extension(relative(root, a))),
            names(without_extension(relative(root, b))),
        );
    }
}

} // verus!
