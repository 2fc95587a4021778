use triblenka::content::post::{finish_post, render_body, split_frontmatter};
use triblenka::content::slug::{components_of, key_for, slug_for};
use triblenka::content::{Changed, Digest, Error, Frontmatter, LoadReport};
use triblenka::text::sort_texts;

const POST: &str = "---\ntitle: Hello\ndate: 2026-09-10\ndescription: A greeting\n---\n\n# Hi\n\nSome *body*.\n";

fn hello() -> Frontmatter {
    Frontmatter {
        title: "Hello".to_owned(),
        date: "2026-09-10".to_owned(),
        description: "A greeting".to_owned(),
        draft: false,
        tags: Vec::new(),
    }
}

#[test]
fn parses_frontmatter_and_renders_markdown() {
    let (yaml, body) = split_frontmatter("hello.md", POST).expect("splits");
    assert_eq!(yaml, "\ntitle: Hello\ndate: 2026-09-10\ndescription: A greeting");
    assert_eq!(body, "\n\n# Hi\n\nSome *body*.\n");
    let post = finish_post("hello.md", "hello", Ok(hello()), &body).expect("parses");
    assert_eq!(post.title, "Hello");
    assert_eq!(post.date, "2026-09-10");
    assert_eq!(post.slug, "hello");
    assert!(post.body_html.contains("<h1>Hi</h1>"), "{}", post.body_html);
    assert!(post.body_html.contains("<em>body</em>"), "{}", post.body_html);
}

#[test]
fn missing_fence_is_an_actionable_error() {
    let err = split_frontmatter("bad.md", "no frontmatter here").expect_err("must fail");
    assert!(err.message().contains("`---` frontmatter fence"), "{}", err.message());
    assert_eq!(
        err.message(),
        "bad.md: expected the file to open with a `---` frontmatter fence"
    );
}

#[test]
fn an_unclosed_fence_is_an_actionable_error() {
    let err = split_frontmatter("open.md", "---\ntitle: Hello\n--\nbody").expect_err("must fail");
    assert_eq!(
        err,
        Error::Frontmatter {
            path: "open.md".to_owned(),
            message: "the frontmatter fence is never closed with `---`".to_owned(),
        }
    );
}

#[test]
fn malformed_field_names_the_file() {
    // The decoder's complaint about the frontmatter is carried through with the file's path.
    let src = "---\ntitle: Hello\n---\nbody";
    let (_, body) = split_frontmatter("content/blog/x.md", src).expect("splits");
    let err = finish_post("content/blog/x.md", "x", Err("missing field `date`".to_owned()), &body)
        .expect_err("must fail");
    let message = err.message();
    assert!(message.contains("content/blog/x.md"), "{message}");
    assert!(message.contains("date"), "{message}");
}

#[test]
fn the_closing_fence_is_the_first_newline_then_dashes() {
    let (yaml, body) = split_frontmatter("x.md", "---a\n---b\n---c").expect("splits");
    assert_eq!(yaml, "a");
    assert_eq!(body, "b\n---c");
    let (yaml, body) = split_frontmatter("x.md", "---\n---").expect("splits");
    assert_eq!(yaml, "");
    assert_eq!(body, "");
}

#[test]
fn a_body_loses_leftover_dashes_and_leading_space() {
    let html = render_body("---\n\n  *x*");
    assert!(html.contains("<em>x</em>"), "{html}");
    assert!(!html.contains("<hr"), "{html}");
}

#[test]
fn rendering_a_body_turns_markdown_into_html() {
    assert_eq!(render_body("# Hi"), "<h1>Hi</h1>\n");
    assert_eq!(render_body("a & b"), "<p>a &amp; b</p>\n");
}

#[test]
fn digests_differ_for_different_bytes() {
    assert_ne!(Digest::of(b"a"), Digest::of(b"b"));
    assert_eq!(Digest::of(b"a"), Digest::of(b"a"));
}

#[test]
fn a_digest_is_the_lowercase_hex_of_the_blake3_hash() {
    let digest = Digest::of(b"");
    assert_eq!(
        digest.as_str(),
        "af1349b9f5f9a1a6a0404dea36dcc9499bcb25c9adc112b7cc9a93cae41f3262"
    );
    assert_eq!(Digest::of(b"hello").as_str().len(), 64);
    assert_eq!(Digest::from_hash(&[0x00, 0x0f, 0xa5, 0xff]).as_str(), "000fa5ff");
    assert_eq!(Digest::from_hash(&[]).as_str(), "");
}

#[test]
fn unchanged_digests_write_nothing() {
    let digest = Digest::of(b"hello");
    assert_eq!(Changed::decide(&None, &digest), Changed::Yes);
    assert_eq!(Changed::decide(&Some(digest.clone()), &digest), Changed::No);
    let moved = Digest::of(b"hello, again");
    assert_eq!(Changed::decide(&Some(digest.clone()), &moved), Changed::Yes);
    assert!(digest.matches(&Digest::recorded(digest.as_str().to_owned())));
    assert!(!digest.matches(&moved));
}

#[test]
fn keys_sort_in_string_order() {
    let mut keys = vec!["blog/c".to_owned(), "blog/a".to_owned(), "blog/b".to_owned()];
    sort_texts(&mut keys);
    assert_eq!(keys, vec!["blog/a", "blog/b", "blog/c"]);
}

#[test]
fn keys_sort_as_strings_do() {
    let mut keys = vec![
        "é".to_owned(),
        "blog/ab".to_owned(),
        "blog/a".to_owned(),
        "Blog".to_owned(),
        "".to_owned(),
        "blog/a".to_owned(),
    ];
    let mut expected = keys.clone();
    expected.sort();
    sort_texts(&mut keys);
    assert_eq!(keys, expected);
}

#[test]
fn the_same_stem_in_two_directories_stays_distinct() {
    let a = slug_for("/tmp/site", "/tmp/site/a/post.md");
    let b = slug_for("/tmp/site", "/tmp/site/b/post.md");
    assert_eq!(a, "a/post");
    assert_eq!(b, "b/post");
    assert_eq!(key_for(&a), "blog/a/post");
    assert_eq!(key_for(&b), "blog/b/post");
}

#[test]
fn slugs_follow_the_path_rules() {
    assert_eq!(slug_for("content", "content/hello.md"), "hello");
    assert_eq!(slug_for("content", "content//blog/./x.tar.md"), "blog/x.tar");
    assert_eq!(slug_for("content", "elsewhere/x.md"), "elsewhere/x");
    assert_eq!(slug_for("content", "content"), "untitled");
    assert_eq!(slug_for("content", "content/.hidden"), ".hidden");
    assert_eq!(slug_for("content", "content/a/../b.md"), "a/b");
    assert_eq!(slug_for("./content", "content/x.md"), "content/x");
    assert_eq!(slug_for("", "/abs/x.md"), "abs/x");
    assert_eq!(slug_for("content", "content/..md"), "untitled");
}

#[test]
fn components_read_paths_as_std_does() {
    let parts = |p: &str| -> Vec<String> {
        components_of(p)
            .into_iter()
            .map(|c| c.into_iter().collect())
            .collect()
    };
    for p in ["/a//b/./c/", "./a/b", ".", "", "a/../b", "//x", "a/b.", "../.."] {
        let expected: Vec<String> = std::path::Path::new(p)
            .components()
            .map(|c| c.as_os_str().to_string_lossy().into_owned())
            .collect();
        assert_eq!(parts(p), expected, "{p}");
    }
}

#[test]
fn a_report_lists_what_moved_in_order() {
    let mut report = LoadReport::default();
    report.record("blog/b".to_owned(), Changed::Yes);
    report.record("blog/c".to_owned(), Changed::No);
    report.skip();
    report.record("blog/a".to_owned(), Changed::Yes);
    report.finish();
    assert_eq!(report.changed, vec!["blog/a".to_owned(), "blog/b".to_owned()]);
    assert_eq!(report.unchanged, 2);
    assert_eq!(Changed::Yes.moved_key("blog/a".to_owned()), Some("blog/a".to_owned()));
    assert_eq!(Changed::No.moved_key("blog/a".to_owned()), None);
}

#[test]
fn store_errors_describe_themselves() {
    assert_eq!(Error::Store("locked".to_owned()).message(), "store: locked");
}
