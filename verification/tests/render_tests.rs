use std::sync::Arc;

use htmy_rs::format::PropValue;
use htmy_rs::intern::{ObjKind, PyObj};
use htmy_rs::render::{Action, RenderError, RenderSession, Reply};
use htmy_rs::tag::{TagImpl, TagWithPropsImpl};

fn obj(id: u64, kind: ObjKind) -> PyObj {
    PyObj { id, kind: Arc::new(kind) }
}

fn text(id: u64, s: &str) -> PyObj {
    obj(id, ObjKind::Str { text: s.to_string(), safe: false })
}

fn safe_text(id: u64, s: &str) -> PyObj {
    obj(id, ObjKind::Str { text: s.to_string(), safe: true })
}

fn none(id: u64) -> PyObj {
    obj(id, ObjKind::NoneValue)
}

fn component(id: u64) -> PyObj {
    obj(id, ObjKind::Other)
}

fn tag(
    id: u64,
    name: &str,
    props: Vec<(String, u64)>,
    children: Vec<PyObj>,
    separator: PyObj,
) -> PyObj {
    obj(id, ObjKind::Tag(TagImpl::new(name.to_string(), props, id + 1000, children, id + 2000, separator)))
}

/// Steps until the session asks for something other than `Continue`.
fn run(s: &mut RenderSession) -> Action {
    loop {
        let a = s.step();
        if !matches!(a, Action::Continue) {
            return a;
        }
    }
}

/// Answers `Formatter(None)` to every formatter request and steps to the end.
fn run_default(s: &mut RenderSession) -> Action {
    loop {
        let a = run(s);
        match a {
            Action::GetFormatter { .. } => {
                let b = s.answer(Reply::Formatter(None));
                assert!(matches!(b, Action::Continue));
            }
            other => return other,
        }
    }
}

#[test]
fn renders_escaped_string() {
    let mut s = RenderSession::new(text(1, "a<b & c"), 0, true);
    assert!(matches!(s.step(), Action::Continue));
    assert!(matches!(s.step(), Action::Done));
    assert_eq!(s.output(), "a&lt;b &amp; c");
    assert!(s.pending().is_none());
    assert!(s.is_idle());
}

#[test]
fn renders_safe_string_unescaped() {
    let mut s = RenderSession::new(safe_text(1, "<b>x</b>"), 0, true);
    assert!(matches!(run(&mut s), Action::Done));
    assert_eq!(s.output(), "<b>x</b>");
}

#[test]
fn renders_none_as_nothing() {
    let mut s = RenderSession::new(none(1), 0, true);
    assert!(matches!(run(&mut s), Action::Done));
    assert_eq!(s.output(), "");
}

#[test]
fn renders_sequence_items_in_order_skipping_none() {
    let seq = obj(1, ObjKind::Sequence(vec![text(2, "a"), none(3), text(4, "<c>")]));
    let mut s = RenderSession::new(seq, 0, true);
    assert!(matches!(run(&mut s), Action::Done));
    assert_eq!(s.output(), "a&lt;c&gt;");
}

#[test]
fn renders_tag_with_default_formatter() {
    let t = tag(
        1,
        "div",
        vec![("class".to_string(), 10), ("data_id".to_string(), 11), ("title".to_string(), 12)],
        vec![text(2, "hi"), safe_text(3, "<b>"), none(4)],
        none(5),
    );
    let mut s = RenderSession::new(t, 7, true);
    assert!(matches!(s.step(), Action::GetFormatter { ctx: 7 }));
    assert!(s.awaits_reply());
    assert!(matches!(s.answer(Reply::Formatter(None)), Action::DescribeValue { value: 10 }));
    let a = s.answer(Reply::Prop(PropValue::Text("main".to_string())));
    assert!(matches!(a, Action::DescribeValue { value: 11 }));
    let a = s.answer(Reply::Prop(PropValue::Text("42".to_string())));
    assert!(matches!(a, Action::DescribeValue { value: 12 }));
    assert!(matches!(s.answer(Reply::Prop(PropValue::Missing)), Action::Continue));
    assert!(matches!(run(&mut s), Action::Done));
    assert_eq!(s.output(), "<div class=\"main\" data-id=\"42\" >hi<b></div>");
}

#[test]
fn renders_tag_with_user_formatter() {
    let t = tag(1, "a", vec![("href".to_string(), 10)], vec![text(2, "x")], none(3));
    let mut s = RenderSession::new(t, 7, true);
    assert!(matches!(s.step(), Action::GetFormatter { ctx: 7 }));
    match s.answer(Reply::Formatter(Some(50))) {
        Action::FormatProp { formatter, name, value } => {
            assert_eq!(formatter, 50);
            assert_eq!(name, "href");
            assert_eq!(value, 10);
        }
        _ => panic!("expected a property request"),
    }
    assert!(matches!(s.answer(Reply::Text("HREF=/".to_string())), Action::Continue));
    assert!(matches!(run(&mut s), Action::Done));
    assert_eq!(s.output(), "<a HREF=/>x</a>");
}

#[test]
fn renders_newline_separator_around_children() {
    let t = tag(1, "ul", Vec::new(), vec![text(2, "a"), text(3, "b")], text(4, "\n"));
    let mut s = RenderSession::new(t, 0, true);
    assert!(matches!(run_default(&mut s), Action::Done));
    assert_eq!(s.output(), "<ul >\na\nb\n</ul>");
}

#[test]
fn renders_object_separator_around_children() {
    let t = tag(1, "p", Vec::new(), vec![text(2, "a"), text(3, "b")], text(4, "<,>"));
    let mut s = RenderSession::new(t, 0, true);
    assert!(matches!(run_default(&mut s), Action::Done));
    assert_eq!(s.output(), "<p >&lt;,&gt;a&lt;,&gt;b&lt;,&gt;</p>");
}

#[test]
fn separator_is_not_written_without_children() {
    let t = tag(1, "ul", Vec::new(), Vec::new(), text(4, "\n"));
    let mut s = RenderSession::new(t, 0, true);
    assert!(matches!(run_default(&mut s), Action::Done));
    assert_eq!(s.output(), "<ul ></ul>");
}

#[test]
fn renders_nested_tags_and_void_tags() {
    let br = obj(10, ObjKind::Void(TagWithPropsImpl::new("br".to_string(), Vec::new(), 11)));
    let inner = tag(20, "span", Vec::new(), vec![text(21, "in")], none(22));
    let outer = tag(30, "div", Vec::new(), vec![inner, br, text(31, "out")], none(32));
    let mut s = RenderSession::new(outer, 0, true);
    assert!(matches!(run_default(&mut s), Action::Done));
    assert_eq!(s.output(), "<div ><span >in</span><br />out</div>");
}

#[test]
fn sequence_among_tag_children_is_invalid() {
    let bad = obj(5, ObjKind::Sequence(vec![text(6, "x")]));
    let t = tag(1, "div", Vec::new(), vec![text(2, "ok"), bad], none(3));
    let mut s = RenderSession::new(t, 0, true);
    match run_default(&mut s) {
        Action::Fail { error: RenderError::InvalidType(id), cancel } => {
            assert_eq!(id, 5);
            assert!(cancel.is_empty());
        }
        _ => panic!("expected a failure"),
    }
    assert!(s.is_idle());
}

#[test]
fn sync_component_renders_its_result() {
    let mut s = RenderSession::new(component(7), 3, true);
    assert!(matches!(s.step(), Action::HasContextHook { obj: 7 }));
    assert!(matches!(s.answer(Reply::Flag(false)), Action::HasHtmy { obj: 7 }));
    assert!(matches!(s.answer(Reply::Flag(true)), Action::CallHtmy { obj: 7, ctx: 3 }));
    let a = s.answer(Reply::Rendered { obj: text(8, "x&y"), awaitable: false });
    assert!(matches!(a, Action::Continue));
    assert!(matches!(s.step(), Action::Done));
    assert_eq!(s.output(), "x&amp;y");
}

#[test]
fn component_with_truthy_context_gets_merged_context() {
    let mut s = RenderSession::new(component(7), 3, true);
    assert!(matches!(s.step(), Action::HasContextHook { obj: 7 }));
    assert!(matches!(s.answer(Reply::Flag(true)), Action::CallContextHook { obj: 7 }));
    let a = s.answer(Reply::Awaited { id: 8, awaitable: false });
    assert!(matches!(a, Action::IsTruthy { obj: 8 }));
    assert!(matches!(s.answer(Reply::Flag(true)), Action::ChainMap { extra: 8, parent: 3 }));
    assert!(matches!(s.answer(Reply::Value(9)), Action::HasHtmy { obj: 7 }));
    assert!(matches!(s.answer(Reply::Flag(true)), Action::CallHtmy { obj: 7, ctx: 9 }));
    let a = s.answer(Reply::Rendered { obj: text(10, "ok"), awaitable: false });
    assert!(matches!(a, Action::Continue));
    assert!(matches!(run(&mut s), Action::Done));
    assert_eq!(s.output(), "ok");
}

#[test]
fn component_with_falsy_context_keeps_parent_context() {
    let mut s = RenderSession::new(component(7), 3, true);
    s.step();
    s.answer(Reply::Flag(true));
    s.answer(Reply::Awaited { id: 8, awaitable: false });
    assert!(matches!(s.answer(Reply::Flag(false)), Action::HasHtmy { obj: 7 }));
    assert!(matches!(s.answer(Reply::Flag(true)), Action::CallHtmy { obj: 7, ctx: 3 }));
}

#[test]
fn component_result_tag_is_rendered_in_its_context() {
    let mut s = RenderSession::new(component(7), 3, true);
    s.step();
    s.answer(Reply::Flag(false));
    s.answer(Reply::Flag(true));
    let t = tag(20, "b", Vec::new(), vec![text(21, "bold")], none(22));
    assert!(matches!(s.answer(Reply::Rendered { obj: t, awaitable: false }), Action::GetFormatter { ctx: 3 }));
    assert!(matches!(s.answer(Reply::Formatter(None)), Action::Continue));
    assert!(matches!(run(&mut s), Action::Done));
    assert_eq!(s.output(), "<b >bold</b>");
}

#[test]
fn object_without_htmy_is_invalid() {
    let mut s = RenderSession::new(component(7), 3, true);
    s.step();
    s.answer(Reply::Flag(false));
    match s.answer(Reply::Flag(false)) {
        Action::Fail { error: RenderError::InvalidType(id), cancel } => {
            assert_eq!(id, 7);
            assert!(cancel.is_empty());
        }
        _ => panic!("expected a failure"),
    }
}

#[test]
fn async_component_fills_its_hole() {
    let seq = obj(1, ObjKind::Sequence(vec![text(2, "a"), component(7), text(3, "c")]));
    let mut s = RenderSession::new(seq, 0, true);
    assert!(matches!(run(&mut s), Action::HasContextHook { obj: 7 }));
    s.answer(Reply::Flag(false));
    s.answer(Reply::Flag(true));
    let a = s.answer(Reply::Rendered { obj: component(20), awaitable: true });
    assert!(matches!(a, Action::Continue));
    assert!(matches!(run(&mut s), Action::Done));
    assert_eq!(s.output(), "ac");
    assert_eq!(s.pending(), Some(vec![20]));
    assert!(matches!(s.submit(vec![text(21, "<b>")]), Action::Continue));
    assert!(s.pending().is_none());
    assert!(matches!(run(&mut s), Action::Done));
    assert_eq!(s.output(), "a&lt;b&gt;c");
}

#[test]
fn async_results_fill_holes_in_order() {
    let seq = obj(1, ObjKind::Sequence(vec![component(7), text(2, "-"), component(8)]));
    let mut s = RenderSession::new(seq, 0, true);
    for (comp, aw) in [(7u64, 17u64), (8, 18)] {
        let a = run(&mut s);
        assert!(matches!(a, Action::HasContextHook { obj } if obj == comp));
        s.answer(Reply::Flag(false));
        s.answer(Reply::Flag(true));
        s.answer(Reply::Rendered { obj: component(aw), awaitable: true });
    }
    assert!(matches!(run(&mut s), Action::Done));
    assert_eq!(s.pending(), Some(vec![17, 18]));
    assert!(matches!(s.submit(vec![text(30, "one"), text(31, "two")]), Action::Continue));
    assert!(matches!(run(&mut s), Action::Done));
    assert_eq!(s.output(), "one-two");
}

#[test]
fn async_context_goes_on_after_submit() {
    let mut s = RenderSession::new(component(7), 3, true);
    s.step();
    s.answer(Reply::Flag(true));
    assert!(matches!(s.answer(Reply::Awaited { id: 30, awaitable: true }), Action::Continue));
    assert!(matches!(run(&mut s), Action::Done));
    assert_eq!(s.pending(), Some(vec![30]));
    assert!(matches!(s.submit(vec![component(31)]), Action::Continue));
    assert!(matches!(s.step(), Action::IsTruthy { obj: 31 }));
    assert!(matches!(s.answer(Reply::Flag(true)), Action::ChainMap { extra: 31, parent: 3 }));
    assert!(matches!(s.answer(Reply::Value(32)), Action::HasHtmy { obj: 7 }));
    assert!(matches!(s.answer(Reply::Flag(true)), Action::CallHtmy { obj: 7, ctx: 32 }));
    let a = s.answer(Reply::Rendered { obj: component(33), awaitable: true });
    assert!(matches!(a, Action::Continue));
    assert!(matches!(run(&mut s), Action::Done));
    assert_eq!(s.pending(), Some(vec![33]));
    assert!(matches!(s.submit(vec![text(34, "z")]), Action::Continue));
    assert!(matches!(run(&mut s), Action::Done));
    assert_eq!(s.output(), "z");
}

#[test]
fn submit_count_mismatch_fails_and_cancels() {
    let mut s = RenderSession::new(component(7), 3, true);
    s.step();
    s.answer(Reply::Flag(false));
    s.answer(Reply::Flag(true));
    s.answer(Reply::Rendered { obj: component(20), awaitable: true });
    assert!(matches!(run(&mut s), Action::Done));
    match s.submit(Vec::new()) {
        Action::Fail { error: RenderError::CountMismatch, cancel } => assert_eq!(cancel, vec![20]),
        _ => panic!("expected a failure"),
    }
    assert!(s.pending().is_none());
}

#[test]
fn python_error_fails_and_cancels_pending() {
    let seq = obj(1, ObjKind::Sequence(vec![component(7), component(8)]));
    let mut s = RenderSession::new(seq, 0, true);
    run(&mut s);
    s.answer(Reply::Flag(false));
    s.answer(Reply::Flag(true));
    s.answer(Reply::Rendered { obj: component(17), awaitable: true });
    assert!(matches!(run(&mut s), Action::HasContextHook { obj: 8 }));
    match s.answer(Reply::Error(99)) {
        Action::Fail { error: RenderError::Python(e), cancel } => {
            assert_eq!(e, 99);
            assert_eq!(cancel, vec![17]);
        }
        _ => panic!("expected a failure"),
    }
    assert!(s.is_idle());
}

#[test]
fn cancel_hands_out_pending_awaitables() {
    let seq = obj(1, ObjKind::Sequence(vec![text(2, "a"), component(7)]));
    let mut s = RenderSession::new(seq, 3, true);
    assert!(matches!(run(&mut s), Action::HasContextHook { obj: 7 }));
    s.answer(Reply::Flag(false));
    s.answer(Reply::Flag(true));
    s.answer(Reply::Rendered { obj: component(20), awaitable: true });
    assert!(matches!(run(&mut s), Action::Done));
    assert_eq!(s.output(), "a");
    assert_eq!(s.cancel(), vec![20]);
    assert_eq!(s.output(), "a");
    assert!(s.pending().is_none());
    assert!(s.cancel().is_empty());
}

#[test]
fn custom_string_formatter_formats_text_and_markup() {
    let t = tag(1, "i", Vec::new(), vec![text(2, "a<b"), text(3, "c")], text(4, "\n"));
    let mut s = RenderSession::new(t, 0, false);
    assert!(matches!(s.step(), Action::GetFormatter { ctx: 0 }));
    match s.answer(Reply::Formatter(None)) {
        Action::FormatMarkup { text } => assert_eq!(text, "<i >"),
        _ => panic!("expected markup to format"),
    }
    assert!(matches!(s.answer(Reply::Text("[<i >]".to_string())), Action::Continue));
    match s.step() {
        Action::FormatPlain { text } => assert_eq!(text, "\n"),
        _ => panic!("expected a separator to format"),
    }
    s.answer(Reply::Text("|".to_string()));
    assert!(matches!(s.step(), Action::FormatObject { obj: 2 }));
    s.answer(Reply::Text("A<B".to_string()));
    assert!(matches!(s.step(), Action::FormatPlain { .. }));
    s.answer(Reply::Text("|".to_string()));
    assert!(matches!(s.step(), Action::FormatObject { obj: 3 }));
    s.answer(Reply::Text("C".to_string()));
    assert!(matches!(s.step(), Action::FormatPlain { .. }));
    s.answer(Reply::Text("|".to_string()));
    match s.step() {
        Action::FormatMarkup { text } => assert_eq!(text, "</i>"),
        _ => panic!("expected closing markup to format"),
    }
    s.answer(Reply::Text("[</i>]".to_string()));
    assert!(matches!(s.step(), Action::Done));
    assert_eq!(s.output(), "[<i >]|A<B|C|[</i>]");
}

#[test]
fn accepts_only_the_awaited_reply_kind() {
    let mut s = RenderSession::new(component(7), 3, true);
    assert!(!s.accepts(&Reply::Flag(true)));
    assert!(!s.accepts(&Reply::Error(1)));
    s.step();
    assert!(s.accepts(&Reply::Flag(true)));
    assert!(s.accepts(&Reply::Error(1)));
    assert!(!s.accepts(&Reply::Value(1)));
    assert!(!s.accepts(&Reply::Text("x".to_string())));
    assert!(!s.accepts(&Reply::Formatter(None)));
    assert!(!s.is_idle());
}

#[test]
fn text_reply_for_property_needs_a_user_formatter() {
    let t = tag(1, "a", vec![("href".to_string(), 10)], Vec::new(), none(3));
    let mut s = RenderSession::new(t, 7, true);
    s.step();
    s.answer(Reply::Formatter(None));
    assert!(s.accepts(&Reply::Prop(PropValue::Bool(true))));
    assert!(!s.accepts(&Reply::Text("x".to_string())));
    s.answer(Reply::Prop(PropValue::Bool(true)));
    assert!(matches!(run(&mut s), Action::Done));
    assert_eq!(s.output(), "<a href=\"true\"></a>");
}

#[test]
fn tag_with_text_children_takes_one_step_per_child() {
    let t = tag(
        1,
        "p",
        Vec::new(),
        vec![text(2, "a&b"), none(3), safe_text(4, "<i>c</i>"), text(5, "d")],
        none(6),
    );
    let mut s = RenderSession::new(t, 9, true);
    assert!(matches!(s.step(), Action::GetFormatter { ctx: 9 }));
    assert!(matches!(s.answer(Reply::Formatter(None)), Action::Continue));
    assert_eq!(s.output(), "<p >");
    for _ in 0..5 {
        assert!(matches!(s.step(), Action::Continue));
    }
    assert!(matches!(s.step(), Action::Done));
    assert_eq!(s.output(), "<p >a&amp;b<i>c</i>d</p>");
}

#[test]
fn submitted_sequences_fill_their_holes() {
    let seq = obj(1, ObjKind::Sequence(vec![component(7), text(2, "|"), component(8)]));
    let mut s = RenderSession::new(seq, 0, true);
    for aw in [17u64, 18] {
        run(&mut s);
        s.answer(Reply::Flag(false));
        s.answer(Reply::Flag(true));
        s.answer(Reply::Rendered { obj: component(aw), awaitable: true });
    }
    assert!(matches!(run(&mut s), Action::Done));
    let first = obj(30, ObjKind::Sequence(vec![text(31, "a<"), none(32), obj(33, ObjKind::Sequence(vec![safe_text(34, "<b>")]))]));
    assert!(matches!(s.submit(vec![first, none(40)]), Action::Continue));
    for _ in 0..6 {
        assert!(matches!(s.step(), Action::Continue));
    }
    assert!(matches!(s.step(), Action::Done));
    assert!(s.pending().is_none());
    assert_eq!(s.output(), "a&lt;<b>|");
}

#[test]
fn cancel_then_submit_nothing_is_done() {
    let mut s = RenderSession::new(component(7), 3, true);
    s.step();
    s.answer(Reply::Flag(false));
    s.answer(Reply::Flag(true));
    s.answer(Reply::Rendered { obj: component(20), awaitable: true });
    assert!(matches!(run(&mut s), Action::Done));
    let before = s.output();
    assert_eq!(s.cancel(), vec![20]);
    assert_eq!(s.output(), before);
    assert!(matches!(s.submit(Vec::new()), Action::Continue));
    assert!(matches!(s.step(), Action::Done));
    assert!(s.pending().is_none());
}
