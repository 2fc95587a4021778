use triblenka::runtime::{render, render_tracked, Bindings, Error, Node, Observed, Sink, StringSink, Template};

/// A page with a heading, a published flag and posts; each post writes its own text.
enum Scope {
    Page {
        heading: &'static str,
        published: bool,
        posts: Vec<Scope>,
    },
    Post(&'static str),
}

impl Bindings for Scope {
    fn value<S: Sink>(&self, index: usize, sink: &mut S) -> Result<(), Error> {
        match self {
            Scope::Post(text) => sink.raw(text),
            Scope::Page { heading, .. } => match index {
                0 => sink.raw(heading),
                _ => Ok(()),
            },
        }
    }
    fn truthy(&self, index: usize) -> bool {
        match self {
            Scope::Page { published, .. } => index == 1 && *published,
            Scope::Post(_) => false,
        }
    }
    fn seq_len(&self, index: usize) -> usize {
        match self {
            Scope::Page { posts, .. } if index == 2 => posts.len(),
            _ => 0,
        }
    }
    fn seq_item(&self, index: usize, item: usize) -> Option<&Scope> {
        match self {
            Scope::Page { posts, .. } if index == 2 => posts.get(item),
            _ => None,
        }
    }
}

fn template() -> Template {
    Template {
        nodes: vec![
            Node::Static("<h1>".into()),
            Node::Expr(0),
            Node::Static("</h1>".into()),
            Node::If {
                cond: 1,
                then: vec![Node::Static("<p>live</p>".into())],
                otherwise: vec![Node::Static("<p>draft</p>".into())],
            },
            Node::For {
                seq: 2,
                body: vec![
                    Node::Static("<li>".into()),
                    Node::Expr(0),
                    Node::Static("</li>".into()),
                ],
            },
        ],
        expressions: vec!["heading".into(), "published".into(), "posts".into()],
    }
}

fn render_page(page: &Scope) -> String {
    let mut sink = StringSink::new();
    render(&template(), page, &mut sink).unwrap();
    sink.into_string()
}

#[test]
fn walks_text_expressions_conditionals_and_loops() {
    let page = Scope::Page {
        heading: "Blog",
        published: true,
        posts: vec![Scope::Post("first"), Scope::Post("second")],
    };
    assert_eq!(
        render_page(&page),
        "<h1>Blog</h1><p>live</p><li>first</li><li>second</li>"
    );
}

#[test]
fn takes_the_else_branch() {
    let page = Scope::Page {
        heading: "Blog",
        published: false,
        posts: vec![],
    };
    assert_eq!(render_page(&page), "<h1>Blog</h1><p>draft</p>");
}

#[test]
fn out_of_range_expression_is_an_error_not_a_panic() {
    let template = Template {
        nodes: vec![Node::Expr(7)],
        expressions: vec!["only_one".into()],
    };
    let page = Scope::Page {
        heading: "x",
        published: false,
        posts: vec![],
    };
    let mut sink = StringSink::new();
    let err = render(&template, &page, &mut sink).unwrap_err();
    assert!(matches!(
        err,
        Error::UnknownExpression {
            index: 7,
            available: 1
        }
    ));
    assert_eq!(sink.as_str(), "");
}

#[test]
fn a_tracked_render_stops_where_an_untracked_one_does() {
    let template = Template {
        nodes: vec![
            Node::Static("<ul>".into()),
            Node::Expr(0),
            Node::Static("|".into()),
            Node::Expr(5),
            Node::Static("</ul>".into()),
        ],
        expressions: vec!["heading".into()],
    };
    let page = Scope::Page {
        heading: "h",
        published: false,
        posts: vec![],
    };
    let mut plain = StringSink::new();
    let a = render(&template, &page, &mut plain).unwrap_err();
    let mut recorded = StringSink::new();
    let b = render_tracked(&template, &page, &mut recorded).unwrap_err();
    assert!(matches!(a, Error::UnknownExpression { index: 5, available: 1 }));
    assert!(matches!(b, Error::UnknownExpression { index: 5, available: 1 }));
    assert_eq!(plain.as_str(), "<ul>h|");
    assert_eq!(recorded.as_str(), plain.as_str());
}

#[test]
fn identical_expression_tables_are_hot_swappable() {
    let mut changed_markup = template();
    changed_markup
        .nodes
        .insert(0, Node::Static("<header/>".into()));
    assert!(template().is_hot_swappable_with(&changed_markup));

    let mut changed_expression = template();
    changed_expression.expressions[0] = "title".into();
    assert!(!template().is_hot_swappable_with(&changed_expression));
}

#[test]
fn an_attribute_expression_escapes_the_quotes_it_writes() {
    let template = Template {
        nodes: vec![Node::ExprAttr(0)],
        expressions: vec!["heading".into()],
    };
    let page = Scope::Page {
        heading: r#"say "hi" & 'bye'"#,
        published: false,
        posts: vec![],
    };
    let mut sink = StringSink::new();
    render(&template, &page, &mut sink).unwrap();
    assert_eq!(sink.into_string(), "say &quot;hi&quot; & &#39;bye&#39;");
}

#[test]
fn an_unknown_condition_stops_the_render_where_it_stands() {
    let template = Template {
        nodes: vec![
            Node::Static("a".into()),
            Node::If {
                cond: 3,
                then: vec![],
                otherwise: vec![],
            },
            Node::Static("b".into()),
        ],
        expressions: vec!["x".into()],
    };
    let page = Scope::Post("p");
    let mut sink = StringSink::new();
    let err = render(&template, &page, &mut sink).unwrap_err();
    assert!(matches!(err, Error::UnknownExpression { index: 3, available: 1 }));
    assert_eq!(sink.as_str(), "a");
}

/// A page of items; every expression writes a fixed word.
enum Listing {
    Page(Vec<Listing>),
    Item,
}

impl Bindings for Listing {
    fn value<S: Sink>(&self, _index: usize, sink: &mut S) -> Result<(), Error> {
        match self {
            Listing::Page(_) => sink.raw("page"),
            Listing::Item => sink.raw("item"),
        }
    }
    fn truthy(&self, _index: usize) -> bool {
        false
    }
    fn seq_len(&self, index: usize) -> usize {
        match self {
            Listing::Page(items) if index == 1 => items.len(),
            _ => 0,
        }
    }
    fn seq_item(&self, index: usize, item: usize) -> Option<&Listing> {
        match self {
            Listing::Page(items) if index == 1 => items.get(item),
            _ => None,
        }
    }
}

#[test]
fn records_reads_inside_a_loop_body() {
    let template = Template {
        nodes: vec![
            Node::Expr(0),
            Node::For {
                seq: 1,
                body: vec![Node::Expr(2)],
            },
        ],
        expressions: vec!["site.title".into(), "posts".into(), "post.title".into()],
    };
    let page = Listing::Page(vec![Listing::Item, Listing::Item]);
    let mut sink = StringSink::new();
    let observed = render_tracked(&template, &page, &mut sink).expect("renders");

    assert_eq!(
        observed.indices(),
        &[0, 1, 2],
        "loop-body reads must be recorded"
    );
    assert_eq!(sink.as_str(), "pageitemitem");
}

#[test]
fn records_only_the_branch_that_ran() {
    let template = Template {
        nodes: vec![Node::If {
            cond: 0,
            then: vec![Node::Expr(1)],
            otherwise: vec![Node::Expr(2)],
        }],
        expressions: vec!["live".into(), "a".into(), "b".into()],
    };
    let page = Listing::Page(vec![]);
    let mut sink = StringSink::new();
    let observed = render_tracked(&template, &page, &mut sink).expect("renders");

    assert_eq!(observed.indices(), &[0, 2]);
}

#[test]
fn an_empty_loop_records_its_sequence_but_not_its_body() {
    let template = Template {
        nodes: vec![Node::For {
            seq: 1,
            body: vec![Node::Expr(0)],
        }],
        expressions: vec!["post.title".into(), "posts".into()],
    };
    let page = Listing::Page(vec![]);
    let mut sink = StringSink::new();
    let observed = render_tracked(&template, &page, &mut sink).expect("renders");
    assert_eq!(observed.indices(), &[1]);
}

#[test]
fn intersects_finds_a_shared_index() {
    let observed = Observed(vec![0, 2, 5]);
    assert!(observed.intersects(&[5]));
    assert!(observed.intersects(&[1, 2]));
    assert!(!observed.intersects(&[1, 3, 4]));
    assert!(!observed.intersects(&[]));
}

/// A sink that takes a fixed number of writes and refuses every one after them.
struct Limited {
    text: String,
    left: usize,
}

impl Sink for Limited {
    fn raw(&mut self, s: &str) -> Result<(), Error> {
        if self.left == 0 {
            return Err(Error::Write(std::fmt::Error));
        }
        self.left -= 1;
        self.text.push_str(s);
        Ok(())
    }
}

fn stops_at_five() -> Template {
    Template {
        nodes: vec![
            Node::Static("a".into()),
            Node::Static("b".into()),
            Node::Expr(5),
            Node::Static("c".into()),
        ],
        expressions: vec!["heading".into()],
    }
}

#[test]
fn a_sink_that_refuses_nothing_sees_the_unknown_expression() {
    let page = Scope::Post("p");
    let mut sink = Limited { text: String::new(), left: 2 };
    let err = render(&stops_at_five(), &page, &mut sink).unwrap_err();
    assert!(matches!(err, Error::UnknownExpression { index: 5, available: 1 }));
    assert_eq!(sink.text, "ab");
}

#[test]
fn a_refused_write_before_the_unknown_expression_is_what_comes_back() {
    let page = Scope::Post("p");
    let mut sink = Limited { text: String::new(), left: 1 };
    let err = render(&stops_at_five(), &page, &mut sink).unwrap_err();
    assert!(matches!(err, Error::Write(_)));
    assert_eq!(sink.text, "a");
    let mut second = Limited { text: String::new(), left: 1 };
    let err = render_tracked(&stops_at_five(), &page, &mut second).unwrap_err();
    assert!(matches!(err, Error::Write(_)));
    assert_eq!(second.text, "a");
}

/// Bindings whose expression 1 fails on its own, whatever the sink.
struct Failing;

impl Bindings for Failing {
    fn value<S: Sink>(&self, index: usize, sink: &mut S) -> Result<(), Error> {
        if index == 1 {
            Err(Error::UnknownExpression { index: 40, available: 2 })
        } else {
            sink.raw("ok")
        }
    }
    fn truthy(&self, _index: usize) -> bool {
        false
    }
    fn seq_len(&self, _index: usize) -> usize {
        0
    }
    fn seq_item(&self, _index: usize, _item: usize) -> Option<&Failing> {
        None
    }
}

#[test]
fn a_failing_binding_fails_both_renders_with_its_own_error() {
    let template = Template {
        nodes: vec![Node::Expr(0), Node::Static("|".into()), Node::ExprAttr(1), Node::Expr(0)],
        expressions: vec!["a".into(), "b".into()],
    };
    let mut plain = StringSink::new();
    let a = render(&template, &Failing, &mut plain).unwrap_err();
    let mut recorded = StringSink::new();
    let b = render_tracked(&template, &Failing, &mut recorded).unwrap_err();
    assert!(matches!(a, Error::UnknownExpression { index: 40, available: 2 }));
    assert!(matches!(b, Error::UnknownExpression { index: 40, available: 2 }));
    assert_eq!(plain.as_str(), "ok|");
    assert_eq!(recorded.as_str(), "ok|");
}
