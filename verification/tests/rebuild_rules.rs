use triblenka::compiler::descriptor::lower as lower_document;
use triblenka::compiler::parse;
use triblenka::content::Post;
use triblenka::runtime::{escape_attr, escape_text, render, render_tracked, StringSink};
use triblenka::site::fixture::{INDEX_TEMPLATE, PAGE_TEMPLATE};
use triblenka::site::incremental::{changed_expressions, lower};
use triblenka::site::pages::{index_bindings, render_post_page, Page};

fn sample(slug: &str, title: &str, body: &str) -> Post {
    Post {
        slug: slug.to_owned(),
        title: title.to_owned(),
        date: "2026-03-04".to_owned(),
        description: "d".to_owned(),
        draft: false,
        tags: Vec::new(),
        body_html: body.to_owned(),
    }
}

#[test]
fn an_edit_the_index_never_read_leaves_it_unchanged() {
    let template = lower(INDEX_TEMPLATE);
    let posts = vec![sample("a", "A", "<p>one</p>"), sample("b", "B", "<p>two</p>")];
    let mut sink = StringSink::new();
    let observed =
        render_tracked(&template, &Page::Index(index_bindings(&template, &posts)), &mut sink)
            .expect("renders");
    let before = sink.into_string();

    let mut edited = posts.clone();
    edited[0].body_html.push_str("<p>edited</p>");
    let body_change = changed_expressions(&template, &posts[0], &edited[0]);
    assert!(!observed.intersects(&body_change));
    let mut again = StringSink::new();
    render(&template, &Page::Index(index_bindings(&template, &edited)), &mut again).expect("renders");
    assert_eq!(again.into_string(), before);

    let mut retitled = posts.clone();
    retitled[0].title = "A (edited)".to_owned();
    let title_change = changed_expressions(&template, &posts[0], &retitled[0]);
    assert!(observed.intersects(&title_change));
}

#[test]
fn a_lowered_template_lists_each_expression_once_and_always_renders() {
    let template = lower(PAGE_TEMPLATE);
    let titles = template.expressions.iter().filter(|e| e.as_str() == "post.title").count();
    assert_eq!(titles, 1);
    for (i, a) in template.expressions.iter().enumerate() {
        for b in &template.expressions[i + 1..] {
            assert_ne!(a, b);
        }
    }
    let p = sample("s", "<T>", "");
    assert!(render_post_page(&template, &p).is_ok());
}

#[test]
fn a_markup_only_edit_keeps_the_expression_table() {
    let original = lower_document(&parse(PAGE_TEMPLATE).expect("parses"));
    let edited_source = PAGE_TEMPLATE
        .replace("<article>", "<article class=\"v1\"><div class=\"inner\">")
        .replace("</article>", "</div></article>");
    let edited = lower_document(&parse(&edited_source).expect("parses"));
    assert!(original.is_hot_swappable_with(&edited));
    assert!(edited.is_hot_swappable_with(&original));
    let renamed = lower_document(&parse(&PAGE_TEMPLATE.replace("post.date", "post.when")).expect("parses"));
    assert!(!original.is_hot_swappable_with(&renamed));
}

#[test]
fn escaped_text_cannot_open_a_tag_or_close_an_attribute() {
    let hostile = "<script>alert('x\")</script> & more";
    let text = escape_text(hostile);
    assert!(!text.contains('<') && !text.contains('>'), "{text}");
    assert_eq!(text, "&lt;script&gt;alert('x\")&lt;/script&gt; &amp; more");
    let attr = escape_attr(hostile);
    assert!(!attr.contains('<') && !attr.contains('>') && !attr.contains('"') && !attr.contains('\''));
    assert_eq!(attr, "&lt;script&gt;alert(&#39;x&quot;)&lt;/script&gt; &amp; more");
}
