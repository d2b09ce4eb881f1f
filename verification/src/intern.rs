//! What the renderer reads of the objects it is handed, and how tag children
//! and separators are classified once, when a tag is built.

use std::sync::Arc;
use vstd::prelude::*;
use crate::tag::{TagImpl, TagWithPropsImpl};

verus! {

/// An object as the renderer reads it: `id` identifies the object to the
/// embedding side (which holds the object itself), `kind` is what its type
/// and contents tell.
pub struct PyObj {
    pub id: u64,
    pub kind: Arc<ObjKind>,
}

/// The kinds of object the renderer tells apart.
pub enum ObjKind {
    /// `None`.
    NoneValue,
    /// A tag with children.
    Tag(TagImpl),
    /// A tag without children.
    Void(TagWithPropsImpl),
    /// A string; `safe` when it is a `SafeStr`, which is not escaped.
    Str { text: String, safe: bool },
    /// A list or tuple, with its items.
    Sequence(Vec<PyObj>),
    /// Anything else: a component, or an invalid value.
    Other,
}

impl PyObj {
    /// Another handle on the same object.
    pub fn share(&self) -> (r: PyObj)
        ensures
            r == *self,
    {
        PyObj { id: self.id, kind: self.kind.clone() }
    }
}

/// A tag child, classified once when the tag is built.
pub enum Child {
    Tag(TagImpl),
    TagWithProps(TagWithPropsImpl),
    Text { s: String, safe: bool, py: u64 },
    Skip,
    Opaque(PyObj),
}

/// How a tag separates its children.
pub enum Separator {
    /// The plain string `"\n"`: a newline around and between children.
    NewlinePad,
    /// No separator (the separator object is `None`).
    Absent,
    /// Any other object, rendered around and between children.
    Opaque(PyObj),
}

/// Whether the object is a `SafeStr`.
pub open spec fn is_safestr_spec(obj: PyObj) -> bool {
    *obj.kind matches ObjKind::Str { safe, .. } && safe
}

/// Whether the object is a list or tuple.
pub open spec fn is_sequence_spec(obj: PyObj) -> bool {
    *obj.kind is Sequence
}

/// The child an object becomes.
pub open spec fn interned(obj: PyObj) -> Child {
    match *obj.kind {
        ObjKind::NoneValue => Child::Skip,
        ObjKind::Tag(t) => Child::Tag(t),
        ObjKind::Void(t) => Child::TagWithProps(t),
        ObjKind::Str { text, safe } => Child::Text { s: text, safe, py: obj.id },
        _ => Child::Opaque(obj),
    }
}

/// The separator an object becomes.
pub open spec fn separator_of(sep: PyObj) -> Separator {
    match *sep.kind {
        ObjKind::NoneValue => Separator::Absent,
        ObjKind::Str { text, safe } => if !safe && text@ == seq!['\n'] {
            Separator::NewlinePad
        } else {
            Separator::Opaque(sep)
        },
        _ => Separator::Opaque(sep),
    }
}

/// Whether the object is a `SafeStr`.
pub fn is_safestr(obj: &PyObj) -> (b: bool)
    ensures
        b == is_safestr_spec(*obj),
{
    match &*obj.kind {
        ObjKind::Str { safe, .. } => *safe,
        _ => false,
    }
}

/// Classifies one child.
pub fn intern_one(obj: PyObj) -> (c: Child)
    ensures
        c == interned(obj),
{
    match &*obj.kind {
        ObjKind::NoneValue => Child::Skip,
        ObjKind::Tag(t) => Child::Tag(t.share()),
        ObjKind::Void(t) => Child::TagWithProps(t.share()),
        ObjKind::Str { text, safe } => Child::Text { s: text.clone(), safe: *safe, py: obj.id },
        _ => Child::Opaque(obj),
    }
}

/// Classifies every child, in order.
pub fn intern_children(children: Vec<PyObj>) -> (out: Vec<Child>)
    ensures
        out@ == children@.map_values(|o: PyObj| interned(o)),
{
    let mut out: Vec<Child> = Vec::new();
    let mut i: usize = 0;
    while i < children.len()
        invariant
            i <= children.len(),
            out@ == children@.take(i as int).map_values(|o: PyObj| interned(o)),
        decreases children.len() - i,
    {
        let c = intern_one(children[i].share());
        out.push(c);
        assert(children@.take(i + 1).map_values(|o: PyObj| interned(o)) =~= children@.take(
            i as int,
        ).map_values(|o: PyObj| interned(o)).push(interned(children@[i as int])));
        i += 1;
    }
    assert(children@.take(children.len() as int) =~= children@);
    out
}

/// Classifies a tag's child separator.
pub fn intern_separator(sep: PyObj) -> (s: Separator)
    ensures
        s == separator_of(sep),
{
    match &*sep.kind {
        ObjKind::NoneValue => Separator::Absent,
        ObjKind::Str { text, safe } => {
            let is_newline = !*safe && text.as_str().unicode_len() == 1 && text.as_str().get_char(0)
                == '\n';
            if is_newline {
                assert(text@ =~= seq!['\n']);
                Separator::NewlinePad
            } else {
                assert(!(!*safe && text@ == seq!['\n'])) by {
                    if !*safe && text@ == seq!['\n'] {
                        assert(text@.len() == 1);
                        assert(text@[0] == '\n');
                    }
                }
                Separator::Opaque(sep)
            }
        },
        _ => Separator::Opaque(sep),
    }
}

/// Whether the object is a list or tuple.
pub fn is_sequence(obj: &PyObj) -> (b: bool)
    ensures
        b == is_sequence_spec(*obj),
{
    match &*obj.kind {
        ObjKind::Sequence(_) => true,
        _ => false,
    }
}

} // verus!
