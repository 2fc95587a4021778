use triblenka::content::Post;
use triblenka::runtime::{render, StringSink};
use triblenka::site::fixture::{capitalise, post, post_file_name, INDEX_TEMPLATE, PAGE_TEMPLATE};
use triblenka::site::incremental::{changed_expressions, lower};
use triblenka::site::measure::median;
use triblenka::site::pages::{
    index_bindings, render_index, render_index_page, render_post_page, Page, PostPage,
};
use triblenka::{version, Stage, STAGE};

fn sample(slug: &str, title: &str) -> Post {
    Post {
        slug: slug.to_owned(),
        title: title.to_owned(),
        date: "2026-01-02".to_owned(),
        description: "A \"quoted\" <description>".to_owned(),
        draft: false,
        tags: vec!["a".to_owned()],
        body_html: "<p>Body</p>".to_owned(),
    }
}

#[test]
fn the_same_index_always_produces_the_same_bytes() {
    assert_eq!(post(7), post(7));
    assert_ne!(post(7), post(8));
}

#[test]
fn posts_have_parseable_frontmatter() {
    let source = post(0);
    assert!(source.starts_with("---\ntitle: "), "{source}");
    assert!(source.contains("\n---\n"));
    assert!(source.contains("## "));
}

#[test]
fn a_fixture_post_has_its_dates_and_shape() {
    let source = post(13);
    assert!(source.contains("\ndate: 2026-02-14\n"), "{source}");
    assert!(source.contains("\ndraft: false\ntags: ["), "{source}");
    assert_eq!(source.matches("\n## ").count(), 4);
    assert_eq!(source.matches("```rust\n").count(), 1);
    assert!(post(0).contains("\ndate: 2026-01-01\n"));
    assert!(post(27).contains("\ndate: 2026-04-28\n"));
}

#[test]
fn fixture_files_are_numbered_in_four_digits() {
    assert_eq!(post_file_name(42), "post-0042.md");
    assert_eq!(post_file_name(0), "post-0000.md");
    assert_eq!(post_file_name(12345), "post-12345.md");
}

#[test]
fn capitalising_raises_the_first_letter() {
    assert_eq!(capitalise("harbour"), "Harbour");
    assert_eq!(capitalise(""), "");
    assert_eq!(capitalise("éa"), "Éa");
}

#[test]
fn a_post_page_renders_its_fields_escaped() {
    let template = lower(PAGE_TEMPLATE);
    let p = sample("hello", "Fish & chips");
    let html = render_post_page(&template, &p).expect("renders");
    assert!(html.contains("<title>Fish &amp; chips</title>"), "{html}");
    assert!(html.contains("content=\"A &quot;quoted&quot; &lt;description&gt;\""), "{html}");
    assert!(html.contains("<p>Body</p>"), "{html}");
    assert!(!html.contains("Draft"), "{html}");
    let mut draft = sample("hello", "T");
    draft.draft = true;
    let html = render_post_page(&template, &draft).expect("renders");
    assert!(html.contains("<p class=\"draft\">Draft</p>"), "{html}");
}

#[test]
fn the_index_lists_every_post() {
    let template = lower(INDEX_TEMPLATE);
    let posts = vec![sample("a", "First"), sample("b", "Second")];
    let html = render_index_page(&template, &posts).expect("renders");
    assert!(html.contains("<title>Triblenka fixture</title>"), "{html}");
    assert!(html.contains("<li><a href=\"/blog/a/\">First</a> <time>2026-01-02</time></li><li><a href=\"/blog/b/\">Second</a>"), "{html}");
    assert_eq!(render_index(&template, &posts), html);
    let bindings = index_bindings(&template, &posts);
    assert_eq!(bindings.title, "Triblenka fixture");
    assert_eq!(bindings.posts.len(), 2);
    let mut sink = StringSink::new();
    render(&template, &Page::Index(bindings), &mut sink).expect("renders");
    assert_eq!(sink.into_string(), html);
}

#[test]
fn a_post_page_binding_writes_nothing_for_unknown_expressions() {
    let exprs = vec!["post.title".to_owned(), "post.nope".to_owned()];
    let p = sample("s", "T");
    let page = PostPage { post: &p, expressions: &exprs };
    let mut sink = StringSink::new();
    page.value(1, &mut sink).expect("writes");
    page.value(7, &mut sink).expect("writes");
    assert_eq!(sink.as_str(), "");
    page.value(0, &mut sink).expect("writes");
    assert_eq!(sink.as_str(), "T");
    assert!(!page.truthy(0));
}

#[test]
fn a_body_edit_moves_only_the_body() {
    let template = lower(PAGE_TEMPLATE);
    let before = sample("s", "T");
    let mut edited = before.clone();
    edited.body_html.push_str("<p>edited</p>");
    let body: Vec<usize> = template
        .expressions
        .iter()
        .enumerate()
        .filter(|(_, e)| e.as_str() == "post.body")
        .map(|(i, _)| i)
        .collect();
    assert_eq!(changed_expressions(&template, &before, &edited), body);
    let mut retitled = before.clone();
    retitled.title = "U".to_owned();
    let titles = changed_expressions(&template, &before, &retitled);
    assert!(!titles.is_empty());
    assert!(titles.iter().all(|&i| template.expressions[i] == "post.title"));
    assert!(changed_expressions(&template, &before, &before).is_empty());
}

#[test]
fn a_source_that_does_not_parse_lowers_to_nothing() {
    let template = lower("<p>{ unclosed");
    assert!(template.nodes.is_empty());
    assert!(template.expressions.is_empty());
}

#[test]
fn the_median_is_the_middle_of_the_sorted_samples() {
    assert_eq!(median(vec![5, 1, 3]), 3);
    assert_eq!(median(vec![4, 1, 3, 2]), 3);
    assert_eq!(median(vec![]), 0);
    assert_eq!(median(vec![9]), 9);
}

#[test]
fn reports_its_stage_and_version() {
    assert_eq!(STAGE, Stage::Design);
    assert!(!version().is_empty());
}

const VOCABULARY: [&str; 24] = [
    "harbour", "compiler", "descriptor", "island", "render", "content", "digest", "store",
    "template", "frame", "ladder", "budget", "provenance", "determinism", "cache", "adapter",
    "markdown", "collection", "loader", "sink", "runtime", "wasm", "typed", "static",
];

/// The generator written out plainly, step by step, to hold the fixture to.
fn plain_post(index: usize) -> String {
    let mut state = index as u64 + 1;
    let mut word = || {
        state = state
            .wrapping_mul(6_364_136_223_846_793_005)
            .wrapping_add(1_442_695_040_888_963_407);
        VOCABULARY[((state >> 33) % 24) as usize]
    };
    let cap = |w: &str| {
        let mut cs = w.chars();
        match cs.next() {
            Some(f) => f.to_uppercase().collect::<String>() + cs.as_str(),
            None => String::new(),
        }
    };
    let title = format!("{} {}", cap(word()), word());
    let tags = format!("[{}, {}]", word(), word());
    let mut body = String::new();
    for section in 0..4 {
        body.push_str(&format!("\n## {} {}\n\n", cap(word()), word()));
        for _ in 0..3 {
            let mut paragraph = String::new();
            for _ in 0..28 {
                paragraph.push_str(word());
                paragraph.push(' ');
            }
            body.push_str(paragraph.trim_end());
            body.push_str(".\n\n");
        }
        if section == 1 {
            body.push_str("```rust\nfn render(sink: &mut dyn Sink) -> Result<()> {\n    sink.raw(\"<p>\")\n}\n```\n\n");
        }
    }
    let description = format!("{} {}", cap(word()), word());
    format!(
        "---\ntitle: {title}\ndate: 2026-{:02}-{:02}\ndescription: {description}\ndraft: false\ntags: {tags}\n---\n{body}",
        1 + index % 12,
        1 + index % 28,
    )
}

#[test]
fn the_fixture_follows_its_generator_step_by_step() {
    for index in [0, 1, 7, 42, 499, 12345] {
        assert_eq!(post(index), plain_post(index), "post {index}");
    }
}

#[test]
fn an_index_that_stops_early_keeps_what_it_wrote() {
    let template = triblenka::runtime::Template {
        nodes: vec![
            triblenka::runtime::Node::Static("<h1>".into()),
            triblenka::runtime::Node::Expr(0),
            triblenka::runtime::Node::Expr(9),
            triblenka::runtime::Node::Static("</h1>".into()),
        ],
        expressions: vec!["site.title".into()],
    };
    let posts = vec![sample("a", "A")];
    assert_eq!(render_index(&template, &posts), "<h1>Triblenka fixture");
    assert!(render_index_page(&template, &posts).is_err());
}
