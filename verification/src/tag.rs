//! Tags: their interned contents, and the parts a tag renders to.

use std::sync::Arc;
use vstd::prelude::*;
use crate::intern::{
    interned, intern_children, intern_separator, separator_of, Child, PyObj, Separator,
};
use crate::text::{join_spaced, push_char};

verus! {

/// A tag with children, as built: its name, its properties (name and the id
/// of the value), its classified children and separator, and the ids of the
/// objects it was built from.
pub struct TagInner {
    pub name: String,
    pub props: Vec<(String, u64)>,
    pub children: Vec<Child>,
    pub separator: Separator,
    pub py_props: u64,
    pub py_children: u64,
    pub py_separator: u64,
}

/// A tag without children.
pub struct VoidInner {
    pub name: String,
    pub props: Vec<(String, u64)>,
    pub py_props: u64,
}

/// A tag with children, shared between everything that holds it.
pub struct TagImpl {
    pub inner: Arc<TagInner>,
}

/// A tag without children, shared between everything that holds it.
pub struct TagWithPropsImpl {
    pub inner: Arc<VoidInner>,
}

/// One part of what a tag renders to: markup text that is not escaped, or an
/// object (by id) to render in its place.
pub enum HtmyPart {
    Markup(String),
    Object(u64),
}

/// The view of a rendered part.
pub enum HtmyPiece {
    Markup(Seq<char>),
    Object(u64),
}

/// The view of a rendered part.
pub open spec fn piece_of(p: HtmyPart) -> HtmyPiece {
    match p {
        HtmyPart::Markup(s) => HtmyPiece::Markup(s@),
        HtmyPart::Object(id) => HtmyPiece::Object(id),
    }
}

/// Each item followed by `sep`.
pub open spec fn followed_by<T>(sep: T, items: Seq<T>) -> Seq<T>
    decreases items.len(),
{
    if items.len() == 0 {
        Seq::empty()
    } else {
        followed_by(sep, items.drop_last()) + seq![items.last(), sep]
    }
}

/// `sep` before, between and after the items; nothing when there are none.
pub open spec fn separated<T>(sep: T, items: Seq<T>) -> Seq<T> {
    if items.len() == 0 {
        Seq::empty()
    } else {
        seq![sep] + followed_by(sep, items)
    }
}

/// The views of a list of strings.
pub open spec fn string_views(parts: Seq<String>) -> Seq<Seq<char>> {
    parts.map_values(|s: String| s@)
}

/// The opening markup `<name attrs>` (or `<name attrs/>` for a tag without
/// children).
pub open spec fn open_markup(name: Seq<char>, attrs: Seq<char>, void: bool) -> Seq<char> {
    seq!['<'] + name + seq![' '] + attrs + if void {
        seq!['/', '>']
    } else {
        seq!['>']
    }
}

/// The closing markup `</name>`.
pub open spec fn close_markup(name: Seq<char>) -> Seq<char> {
    seq!['<', '/'] + name + seq!['>']
}

/// What a tag renders to: its opening markup, its children (with the
/// separator around and between them unless the separator is `None`), and
/// its closing markup.
pub open spec fn tag_pieces(inner: TagInner, attrs: Seq<char>, items: Seq<u64>) -> Seq<
    HtmyPiece,
> {
    let objs = items.map_values(|id: u64| HtmyPiece::Object(id));
    seq![HtmyPiece::Markup(open_markup(inner.name@, attrs, false))] + if inner.separator is Absent {
        objs
    } else {
        separated(HtmyPiece::Object(inner.py_separator), objs)
    } + seq![HtmyPiece::Markup(close_markup(inner.name@))]
}

/// Joins formatted attributes with single spaces.
pub fn format_attrs(parts: &Vec<String>) -> (r: String)
    ensures
        r@ == join_spaced(string_views(parts@)),
{
    let mut out = String::new();
    let mut i: usize = 0;
    while i < parts.len()
        invariant
            i <= parts.len(),
            out@ == join_spaced(string_views(parts@.take(i as int))),
        decreases parts.len() - i,
    {
        if i > 0 {
            push_char(&mut out, ' ');
        }
        out.append(parts[i].as_str());
        proof {
            let v = string_views(parts@.take(i + 1));
            assert(v.drop_last() =~= string_views(parts@.take(i as int)));
            if i == 0 {
                assert(v =~= seq![parts@[0]@]);
            }
        }
        i += 1;
    }
    assert(parts@.take(parts.len() as int) =~= parts@);
    out
}

fn open_text(name: &str, attrs: &str, void: bool) -> (r: String)
    ensures
        r@ == open_markup(name@, attrs@, void),
{
    let mut s = String::new();
    push_char(&mut s, '<');
    s.append(name);
    push_char(&mut s, ' ');
    s.append(attrs);
    if void {
        push_char(&mut s, '/');
    }
    push_char(&mut s, '>');
    assert(s@ =~= open_markup(name@, attrs@, void));
    s
}

/// The closing markup of a tag name.
pub fn close_text(name: &str) -> (r: String)
    ensures
        r@ == close_markup(name@),
{
    let mut s = String::new();
    push_char(&mut s, '<');
    push_char(&mut s, '/');
    s.append(name);
    push_char(&mut s, '>');
    assert(s@ =~= close_markup(name@));
    s
}

impl TagImpl {
    /// Builds a tag, classifying its children and separator once.
    pub fn new(
        name: String,
        props: Vec<(String, u64)>,
        py_props: u64,
        children: Vec<PyObj>,
        py_children: u64,
        child_separator: PyObj,
    ) -> (t: TagImpl)
        ensures
            t.inner.name == name,
            t.inner.props == props,
            t.inner.children@ == children@.map_values(|o: PyObj| interned(o)),
            t.inner.separator == separator_of(child_separator),
            t.inner.py_props == py_props,
            t.inner.py_children == py_children,
            t.inner.py_separator == child_separator.id,
    {
        let py_separator = child_separator.id;
        TagImpl {
            inner: Arc::new(
                TagInner {
                    name,
                    props,
                    children: intern_children(children),
                    separator: intern_separator(child_separator),
                    py_props,
                    py_children,
                    py_separator,
                },
            ),
        }
    }

    /// Another handle on the same tag.
    pub fn share(&self) -> (r: TagImpl)
        ensures
            r == *self,
    {
        TagImpl { inner: self.inner.clone() }
    }

    /// The tag name.
    pub fn name(&self) -> (r: &str)
        ensures
            r@ == self.inner.name@,
    {
        self.inner.name.as_str()
    }

    /// The id of the properties object.
    pub fn props(&self) -> (r: u64)
        ensures
            r == self.inner.py_props,
    {
        self.inner.py_props
    }

    /// The id of the children object.
    pub fn children(&self) -> (r: u64)
        ensures
            r == self.inner.py_children,
    {
        self.inner.py_children
    }

    /// The id of the child separator object.
    pub fn child_separator(&self) -> (r: u64)
        ensures
            r == self.inner.py_separator,
    {
        self.inner.py_separator
    }

    /// The parts the tag renders to, given its formatted attributes and the
    /// ids of its children in iteration order.
    pub fn htmy(&self, attr_parts: &Vec<String>, items: &Vec<u64>) -> (r: Vec<HtmyPart>)
        ensures
            r@.map_values(|p: HtmyPart| piece_of(p)) == tag_pieces(
                *self.inner,
                join_spaced(string_views(attr_parts@)),
                items@,
            ),
    {
        let inner = &*self.inner;
        let attrs = format_attrs(attr_parts);
        let ghost objs = items@.map_values(|id: u64| HtmyPiece::Object(id));
        let mut result: Vec<HtmyPart> = Vec::new();
        result.push(HtmyPart::Markup(open_text(inner.name.as_str(), attrs.as_str(), false)));
        let ghost head = result@.map_values(|p: HtmyPart| piece_of(p));
        match &inner.separator {
            Separator::Absent => {
                let mut i: usize = 0;
                while i < items.len()
                    invariant
                        i <= items.len(),
                        objs == items@.map_values(|id: u64| HtmyPiece::Object(id)),
                        result@.map_values(|p: HtmyPart| piece_of(p)) == head + objs.take(i as int),
                    decreases items.len() - i,
                {
                    let ghost before = result@.map_values(|p: HtmyPart| piece_of(p));
                    result.push(HtmyPart::Object(items[i]));
                    assert(result@.map_values(|p: HtmyPart| piece_of(p)) =~= before.push(
                        objs[i as int],
                    ));
                    assert(objs.take(i + 1) =~= objs.take(i as int).push(objs[i as int]));
                    assert(result@.map_values(|p: HtmyPart| piece_of(p)) =~= head + objs.take(
                        i + 1,
                    ));
                    i += 1;
                }
                assert(objs.take(items.len() as int) =~= objs);
            },
            _ => {
                if items.len() > 0 {
                    let sep = inner.py_separator;
                    let ghost sp = HtmyPiece::Object(sep);
                    result.push(HtmyPart::Object(sep));
                    let mut i: usize = 0;
                    while i < items.len()
                        invariant
                            i <= items.len(),
                            sep == inner.py_separator,
                            sp == HtmyPiece::Object(sep),
                            objs == items@.map_values(|id: u64| HtmyPiece::Object(id)),
                            result@.map_values(|p: HtmyPart| piece_of(p)) == head + seq![sp]
                                + followed_by(sp, objs.take(i as int)),
                        decreases items.len() - i,
                    {
                        let ghost before = result@.map_values(|p: HtmyPart| piece_of(p));
                        result.push(HtmyPart::Object(items[i]));
                        result.push(HtmyPart::Object(sep));
                        assert(result@.map_values(|p: HtmyPart| piece_of(p)) =~= before + seq![
                            objs[i as int],
                            sp,
                        ]);
                        assert(objs.take(i + 1).drop_last() =~= objs.take(i as int));
                        assert(result@.map_values(|p: HtmyPart| piece_of(p)) =~= head + seq![sp]
                            + followed_by(sp, objs.take(i + 1)));
                        i += 1;
                    }
                    assert(objs.take(items.len() as int) =~= objs);
                } else {
                    assert(objs =~= Seq::<HtmyPiece>::empty());
                }
            },
        }
        let ghost mid = result@.map_values(|p: HtmyPart| piece_of(p));
        result.push(HtmyPart::Markup(close_text(inner.name.as_str())));
        assert(result@.map_values(|p: HtmyPart| piece_of(p)) =~= mid.push(
            HtmyPiece::Markup(close_markup(inner.name@)),
        ));
        result
    }
}

impl TagWithPropsImpl {
    /// Builds a tag without children.
    pub fn new(name: String, props: Vec<(String, u64)>, py_props: u64) -> (t: TagWithPropsImpl)
        ensures
            t.inner.name == name,
            t.inner.props == props,
            t.inner.py_props == py_props,
    {
        TagWithPropsImpl { inner: Arc::new(VoidInner { name, props, py_props }) }
    }

    /// Another handle on the same tag.
    pub fn share(&self) -> (r: TagWithPropsImpl)
        ensures
            r == *self,
    {
        TagWithPropsImpl { inner: self.inner.clone() }
    }

    /// The tag name.
    pub fn name(&self) -> (r: &str)
        ensures
            r@ == self.inner.name@,
    {
        self.inner.name.as_str()
    }

    /// The id of the properties object.
    pub fn props(&self) -> (r: u64)
        ensures
            r == self.inner.py_props,
    {
        self.inner.py_props
    }

    /// The markup the tag renders to, given its formatted attributes.
    pub fn htmy(&self, attr_parts: &Vec<String>) -> (r: String)
        ensures
            r@ == open_markup(self.inner.name@, join_spaced(string_views(attr_parts@)), true),
    {
        let attrs = format_attrs(attr_parts);
        open_text(self.inner.name.as_str(), attrs.as_str(), true)
    }
}

/// `followed_by` holds each item, in order, at the even places, and `sep` at
/// the odd ones.
pub proof fn lemma_followed_by_shape<T>(sep: T, items: Seq<T>)
    ensures
        followed_by(sep, items).len() == 2 * items.len(),
        forall|i: int| 0 <= i < items.len() ==> #[trigger] followed_by(sep, items)[2 * i] == items[i],
        forall|i: int| 0 <= i < items.len() ==> #[trigger] followed_by(sep, items)[2 * i + 1] == sep,
    decreases items.len(),
{
    if items.len() > 0 {
        let d = items.drop_last();
        lemma_followed_by_shape(sep, d);
        let f = followed_by(sep, d);
        let g = followed_by(sep, items);
        assert(g == f + seq![items.last(), sep]);
        assert forall|i: int| 0 <= i < items.len() implies #[trigger] g[2 * i] == items[i] by {
            if i < items.len() - 1 {
                assert(d[i] == items[i]);
                assert(g[2 * i] == f[2 * i]);
            }
        }
        assert forall|i: int| 0 <= i < items.len() implies #[trigger] g[2 * i + 1] == sep by {
            if i < items.len() - 1 {
                assert(g[2 * i + 1] == f[2 * i + 1]);
            }
        }
    }
}

/// What a tag renders to: its opening markup `<name attrs>`, then each child
/// in order, and its closing markup `</name>`; with a separator and at least
/// one child, the separator stands before, between and after the children,
/// so every child is kept; with a separator and no child, only the markup.
pub proof fn law_tag_pieces_shape(inner: TagInner, attrs: Seq<char>, items: Seq<u64>)
    ensures
        ({
            let p = tag_pieces(inner, attrs, items);
            let k = items.len() as int;
            let sep = HtmyPiece::Object(inner.py_separator);
            &&& p.len() >= 2
            &&& p[0] == HtmyPiece::Markup(seq!['<'] + inner.name@ + seq![' '] + attrs + seq!['>'])
            &&& p.last() == HtmyPiece::Markup(seq!['<', '/'] + inner.name@ + seq!['>'])
            &&& inner.separator is Absent ==> {
                &&& p.len() == k + 2
                &&& forall|i: int| 0 <= i < k ==> p[i + 1] == HtmyPiece::Object(#[trigger] items[i])
            }
            &&& !(inner.separator is Absent) && k > 0 ==> {
                &&& p.len() == 2 * k + 3
                &&& forall|i: int|
                    0 <= i < k ==> p[2 * i + 2] == HtmyPiece::Object(#[trigger] items[i])
                &&& forall|j: int| 0 <= j <= k ==> #[trigger] p[2 * j + 1] == sep
            }
            &&& !(inner.separator is Absent) && k == 0 ==> p.len() == 2
        }),
{
    let objs = items.map_values(|id: u64| HtmyPiece::Object(id));
    let k = items.len() as int;
    let sep = HtmyPiece::Object(inner.py_separator);
    let first = seq![HtmyPiece::Markup(open_markup(inner.name@, attrs, false))];
    let last = seq![HtmyPiece::Markup(close_markup(inner.name@))];
    assert(open_markup(inner.name@, attrs, false) =~= seq!['<'] + inner.name@ + seq![' '] + attrs
        + seq!['>']);
    let p = tag_pieces(inner, attrs, items);
    if inner.separator is Absent {
        assert(p == first + objs + last);
        assert forall|i: int| 0 <= i < k implies p[i + 1] == HtmyPiece::Object(
            #[trigger] items[i],
        ) by {
            assert(p[i + 1] == objs[i]);
        }
    } else if k > 0 {
        lemma_followed_by_shape(sep, objs);
        let f = followed_by(sep, objs);
        let mid = seq![sep] + f;
        assert(p == first + mid + last);
        assert forall|i: int| 0 <= i < k implies p[2 * i + 2] == HtmyPiece::Object(
            #[trigger] items[i],
        ) by {
            assert(objs[i] == HtmyPiece::Object(items[i]));
            assert(p[2 * i + 2] == mid[2 * i + 1]);
            assert(mid[2 * i + 1] == f[2 * i]);
        }
        assert forall|j: int| 0 <= j <= k implies #[trigger] p[2 * j + 1] == sep by {
            assert(p[2 * j + 1] == mid[2 * j]);
            if j > 0 {
                assert(objs[j - 1] == HtmyPiece::Object(items[j - 1]));
                assert(mid[2 * j] == f[2 * (j - 1) + 1]);
            }
        }
    } else {
        assert(objs =~= Seq::<HtmyPiece>::empty());
        assert(p =~= first + last);
    }
}

} // verus!
