use std::sync::Arc;

use htmy_rs::intern::{
    intern_children, intern_one, intern_separator, is_safestr, is_sequence, Child, ObjKind, PyObj,
    Separator,
};
use htmy_rs::tag::{close_text, format_attrs, HtmyPart, TagImpl, TagWithPropsImpl};

fn obj(id: u64, kind: ObjKind) -> PyObj {
    PyObj { id, kind: Arc::new(kind) }
}

fn text(id: u64, s: &str) -> PyObj {
    obj(id, ObjKind::Str { text: s.to_string(), safe: false })
}

fn safe_text(id: u64, s: &str) -> PyObj {
    obj(id, ObjKind::Str { text: s.to_string(), safe: true })
}

fn none(id: u64) -> PyObj {
    obj(id, ObjKind::NoneValue)
}

fn markup(p: &HtmyPart) -> Option<&str> {
    match p {
        HtmyPart::Markup(s) => Some(s.as_str()),
        HtmyPart::Object(_) => None,
    }
}

fn object(p: &HtmyPart) -> Option<u64> {
    match p {
        HtmyPart::Markup(_) => None,
        HtmyPart::Object(id) => Some(*id),
    }
}

#[test]
fn intern_one_classifies_objects() {
    assert!(matches!(intern_one(none(1)), Child::Skip));
    match intern_one(text(2, "a<b")) {
        Child::Text { s, safe, py } => {
            assert_eq!(s, "a<b");
            assert!(!safe);
            assert_eq!(py, 2);
        }
        _ => panic!("expected text"),
    }
    match intern_one(safe_text(3, "<b>")) {
        Child::Text { s, safe, py } => {
            assert_eq!(s, "<b>");
            assert!(safe);
            assert_eq!(py, 3);
        }
        _ => panic!("expected text"),
    }
    match intern_one(obj(4, ObjKind::Other)) {
        Child::Opaque(o) => assert_eq!(o.id, 4),
        _ => panic!("expected opaque"),
    }
    match intern_one(obj(5, ObjKind::Sequence(vec![text(6, "x")]))) {
        Child::Opaque(o) => assert_eq!(o.id, 5),
        _ => panic!("expected opaque"),
    }
    let void = TagWithPropsImpl::new("br".to_string(), Vec::new(), 70);
    assert!(matches!(intern_one(obj(7, ObjKind::Void(void))), Child::TagWithProps(_)));
    let tag = TagImpl::new("p".to_string(), Vec::new(), 80, Vec::new(), 81, none(82));
    assert!(matches!(intern_one(obj(8, ObjKind::Tag(tag))), Child::Tag(_)));
}

#[test]
fn intern_children_keeps_order() {
    let out = intern_children(vec![text(1, "a"), none(2), obj(3, ObjKind::Other)]);
    assert_eq!(out.len(), 3);
    assert!(matches!(&out[0], Child::Text { py: 1, .. }));
    assert!(matches!(&out[1], Child::Skip));
    assert!(matches!(&out[2], Child::Opaque(o) if o.id == 3));
}

#[test]
fn intern_separator_classifies() {
    assert!(matches!(intern_separator(none(1)), Separator::Absent));
    assert!(matches!(intern_separator(text(2, "\n")), Separator::NewlinePad));
    assert!(matches!(intern_separator(safe_text(3, "\n")), Separator::Opaque(o) if o.id == 3));
    assert!(matches!(intern_separator(text(4, ", ")), Separator::Opaque(o) if o.id == 4));
    assert!(matches!(intern_separator(text(5, "\n\n")), Separator::Opaque(o) if o.id == 5));
    assert!(matches!(intern_separator(obj(6, ObjKind::Other)), Separator::Opaque(o) if o.id == 6));
}

#[test]
fn is_safestr_and_is_sequence() {
    assert!(is_safestr(&safe_text(1, "x")));
    assert!(!is_safestr(&text(2, "x")));
    assert!(!is_safestr(&none(3)));
    assert!(is_sequence(&obj(4, ObjKind::Sequence(Vec::new()))));
    assert!(!is_sequence(&text(5, "x")));
    assert!(!is_sequence(&obj(6, ObjKind::Other)));
}

#[test]
fn tag_keeps_what_it_was_built_from() {
    let tag = TagImpl::new(
        "div".to_string(),
        vec![("class".to_string(), 11)],
        10,
        vec![text(1, "a"), none(2)],
        20,
        text(30, "\n"),
    );
    assert_eq!(tag.name(), "div");
    assert_eq!(tag.props(), 10);
    assert_eq!(tag.children(), 20);
    assert_eq!(tag.child_separator(), 30);
    assert_eq!(tag.inner.props.len(), 1);
    assert_eq!(tag.inner.children.len(), 2);
    assert!(matches!(tag.inner.separator, Separator::NewlinePad));
    let void = TagWithPropsImpl::new("img".to_string(), vec![("src".to_string(), 5)], 40);
    assert_eq!(void.name(), "img");
    assert_eq!(void.props(), 40);
}

#[test]
fn format_attrs_joins_with_single_spaces() {
    assert_eq!(format_attrs(&Vec::new()), "");
    assert_eq!(format_attrs(&vec!["a=\"1\"".to_string()]), "a=\"1\"");
    assert_eq!(
        format_attrs(&vec!["a=\"1\"".to_string(), "".to_string(), "b=\"2\"".to_string()]),
        "a=\"1\"  b=\"2\""
    );
}

#[test]
fn close_text_writes_closing_markup() {
    assert_eq!(close_text("section"), "</section>");
}

#[test]
fn tag_htmy_without_separator() {
    let tag = TagImpl::new("div".to_string(), Vec::new(), 10, Vec::new(), 20, none(30));
    let parts = tag.htmy(&vec!["class=\"x\"".to_string()], &vec![1, 2]);
    assert_eq!(parts.len(), 4);
    assert_eq!(markup(&parts[0]), Some("<div class=\"x\">"));
    assert_eq!(object(&parts[1]), Some(1));
    assert_eq!(object(&parts[2]), Some(2));
    assert_eq!(markup(&parts[3]), Some("</div>"));
}

#[test]
fn tag_htmy_with_separator_surrounds_children() {
    let tag = TagImpl::new("ul".to_string(), Vec::new(), 10, Vec::new(), 20, text(30, "\n"));
    let parts = tag.htmy(&Vec::new(), &vec![1, 2]);
    assert_eq!(parts.len(), 7);
    assert_eq!(markup(&parts[0]), Some("<ul >"));
    assert_eq!(object(&parts[1]), Some(30));
    assert_eq!(object(&parts[2]), Some(1));
    assert_eq!(object(&parts[3]), Some(30));
    assert_eq!(object(&parts[4]), Some(2));
    assert_eq!(object(&parts[5]), Some(30));
    assert_eq!(markup(&parts[6]), Some("</ul>"));
}

#[test]
fn tag_htmy_with_separator_and_no_children() {
    let tag = TagImpl::new("ul".to_string(), Vec::new(), 10, Vec::new(), 20, text(30, ", "));
    let parts = tag.htmy(&Vec::new(), &Vec::new());
    assert_eq!(parts.len(), 2);
    assert_eq!(markup(&parts[0]), Some("<ul >"));
    assert_eq!(markup(&parts[1]), Some("</ul>"));
}

#[test]
fn void_tag_htmy() {
    let void = TagWithPropsImpl::new("br".to_string(), Vec::new(), 40);
    assert_eq!(void.htmy(&Vec::new()), "<br />");
    assert_eq!(
        void.htmy(&vec!["src=\"a.png\"".to_string(), "alt=\"\"".to_string()]),
        "<br src=\"a.png\" alt=\"\"/>"
    );
}
