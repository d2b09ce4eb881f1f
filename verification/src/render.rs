//! The render session: a state machine that walks what it is asked to
//! render, writes markup and text into its output, and asks the embedding
//! side for each piece of work it cannot do itself (calling a component,
//! formatting a string with a user formatter, reading a property value).

use std::sync::Arc;
use vstd::prelude::*;
use crate::format::{prop_piece, prop_pieces, write_props, xml_escape, xml_escape_spec, PropText, PropValue};
use crate::intern::{interned, is_sequence, is_sequence_spec, Child, ObjKind, PyObj, Separator};
use crate::layout::{
    append_text, char_toks, expand, flatten, hole_count, parts_tidy, holes_unique, lemma_hole_count_char_toks,
    lemma_hole_count_concat, lemma_hole_count_outside, lemma_hole_count_zero,
    lemma_slots_hole_count_past, lemma_slots_hole_count_push, lemma_slots_hole_count_update,
    lemma_slots_hole_count_zero, slots_hole_count, lemma_char_toks_concat, lemma_expand_concat,
    lemma_expand_char_toks,
    lemma_expand_push, lemma_refs_char_toks, lemma_refs_concat, lemma_toks_push, part_toks,
    refs_within, slot_toks, slots_wf, toks, Part, Tok,
};
use crate::tag::{
    close_markup, close_text, lemma_followed_by_shape, open_markup, TagImpl, TagInner, VoidInner,
};
use crate::text::{join_spaced, push_char};

verus! {

/// Work waiting on an awaitable: the slot its output goes to, the awaitable
/// (by id), and how to go on once its result is in.
#[derive(Clone, Copy)]
pub struct Pending {
    pub slot: usize,
    pub awaitable: u64,
    pub kind: PendingKind,
}

/// What a pending awaitable stands for.
#[derive(Clone, Copy)]
pub enum PendingKind {
    /// The result of a component's `htmy` call, rendered in `context`.
    Component { context: u64 },
    /// The result of a component's `htmy_context` call; `obj` is the
    /// component and `parent` the context it was reached in.
    Context { obj: u64, parent: u64 },
}

/// A tag whose opening markup is being written.
pub enum Element {
    Tag(Arc<TagInner>),
    Void(Arc<VoidInner>),
}

/// The name of an element.
pub open spec fn element_name(e: Element) -> Seq<char> {
    match e {
        Element::Tag(t) => t.name@,
        Element::Void(t) => t.name@,
    }
}

/// The properties of an element.
pub open spec fn element_props(e: Element) -> Seq<(String, u64)> {
    match e {
        Element::Tag(t) => t.props@,
        Element::Void(t) => t.props@,
    }
}

/// Whether an element has no children.
pub open spec fn element_void(e: Element) -> bool {
    e is Void
}

/// A unit of rendering work; the next one is the last in the agenda.
pub enum Task {
    /// Render an object.
    Item { obj: PyObj, dest: Option<usize>, ctx: u64 },
    /// Render the child `index` of a tag.
    Child { tag: Arc<TagInner>, index: usize, dest: Option<usize>, ctx: u64 },
    /// Render a tag's separator.
    Separator { tag: Arc<TagInner>, dest: Option<usize>, ctx: u64 },
    /// Write a tag's closing markup.
    Close { tag: Arc<TagInner>, dest: Option<usize> },
    /// Go on with a pending entry whose awaitable produced `result`.
    Resume { entry: Pending, result: PyObj },
}

/// The reply the session waits for, and what it is for.
pub enum Waiting {
    /// Nothing.
    Idle,
    /// A formatted string, to be written to `dest`.
    Formatted { dest: Option<usize> },
    /// The user formatter in the context, if any, for `element`.
    Formatter { element: Element, dest: Option<usize> },
    /// The next property of `element`, formatted or described.
    Prop { element: Element, dest: Option<usize> },
    /// Whether the component has an `htmy_context` method.
    HasContextHook { obj: u64, dest: Option<usize>, ctx: u64 },
    /// What the component's `htmy_context` returned.
    ContextHook { obj: u64, dest: Option<usize>, ctx: u64 },
    /// Whether the extra context is truthy.
    Truthy { obj: u64, extra: u64, dest: Option<usize>, ctx: u64, resumed: bool },
    /// The merged context.
    ChainMap { obj: u64, dest: Option<usize>, resumed: bool },
    /// Whether the component has an `htmy` method.
    HasHtmy { obj: u64, dest: Option<usize>, ctx: u64, resumed: bool },
    /// What the component's `htmy` returned.
    Htmy { dest: Option<usize>, ctx: u64, resumed: bool },
}

/// Why rendering stopped.
pub enum RenderError {
    /// The embedding side raised the error with this id.
    Python(u64),
    /// The object with this id cannot be rendered.
    InvalidType(u64),
    /// `submit` got a number of results other than the number pending.
    CountMismatch,
}

/// What the session asks of the embedding side.
pub enum Action {
    /// Nothing; call `step` again.
    Continue,
    /// The agenda is empty.
    Done,
    /// Rendering failed; the awaitables in `cancel` are to be closed.
    Fail { error: RenderError, cancel: Vec<u64> },
    /// Format the object with the string formatter; reply `Text`.
    FormatObject { obj: u64 },
    /// Format the markup (as a safe string) with the string formatter; reply `Text`.
    FormatMarkup { text: String },
    /// Format the plain string with the string formatter; reply `Text`.
    FormatPlain { text: String },
    /// Look the user formatter up in the context; reply `Formatter`.
    GetFormatter { ctx: u64 },
    /// Format a property with the user formatter; reply `Text`.
    FormatProp { formatter: u64, name: String, value: u64 },
    /// Describe a property value for the default rules; reply `Prop`.
    DescribeValue { value: u64 },
    /// Tell whether the component has `htmy_context`; reply `Flag`.
    HasContextHook { obj: u64 },
    /// Call `htmy_context`; reply `Awaited`.
    CallContextHook { obj: u64 },
    /// Tell whether the object is truthy; reply `Flag`.
    IsTruthy { obj: u64 },
    /// Build `ChainMap(extra, parent)`; reply `Value`.
    ChainMap { extra: u64, parent: u64 },
    /// Tell whether the component has `htmy`; reply `Flag`.
    HasHtmy { obj: u64 },
    /// Call `htmy(ctx)`; reply `Rendered`.
    CallHtmy { obj: u64, ctx: u64 },
}

/// The embedding side's answer to a request.
pub enum Reply {
    Flag(bool),
    Value(u64),
    Awaited { id: u64, awaitable: bool },
    Rendered { obj: PyObj, awaitable: bool },
    Text(String),
    Formatter(Option<u64>),
    Prop(PropValue),
    Error(u64),
}

/// The view of an action.
pub enum ActionView {
    Continue,
    Done,
    Fail { error: RenderError, cancel: Seq<u64> },
    FormatObject { obj: u64 },
    FormatMarkup { text: Seq<char> },
    FormatPlain { text: Seq<char> },
    GetFormatter { ctx: u64 },
    FormatProp { formatter: u64, name: Seq<char>, value: u64 },
    DescribeValue { value: u64 },
    HasContextHook { obj: u64 },
    CallContextHook { obj: u64 },
    IsTruthy { obj: u64 },
    ChainMap { extra: u64, parent: u64 },
    HasHtmy { obj: u64 },
    CallHtmy { obj: u64, ctx: u64 },
}

/// The view of an action.
pub open spec fn action_view(a: Action) -> ActionView {
    match a {
        Action::Continue => ActionView::Continue,
        Action::Done => ActionView::Done,
        Action::Fail { error, cancel } => ActionView::Fail { error, cancel: cancel@ },
        Action::FormatObject { obj } => ActionView::FormatObject { obj },
        Action::FormatMarkup { text } => ActionView::FormatMarkup { text: text@ },
        Action::FormatPlain { text } => ActionView::FormatPlain { text: text@ },
        Action::GetFormatter { ctx } => ActionView::GetFormatter { ctx },
        Action::FormatProp { formatter, name, value } => ActionView::FormatProp {
            formatter,
            name: name@,
            value,
        },
        Action::DescribeValue { value } => ActionView::DescribeValue { value },
        Action::HasContextHook { obj } => ActionView::HasContextHook { obj },
        Action::CallContextHook { obj } => ActionView::CallContextHook { obj },
        Action::IsTruthy { obj } => ActionView::IsTruthy { obj },
        Action::ChainMap { extra, parent } => ActionView::ChainMap { extra, parent },
        Action::HasHtmy { obj } => ActionView::HasHtmy { obj },
        Action::CallHtmy { obj, ctx } => ActionView::CallHtmy { obj, ctx },
    }
}

/// The session as the contracts see it.
pub struct SessionView {
    pub root: Seq<Tok>,
    pub slots: Seq<Seq<Tok>>,
    pub pending: Seq<Pending>,
    pub agenda: Seq<Task>,
    pub waiting: Waiting,
    pub collected: Seq<Seq<char>>,
    pub formatter: Option<u64>,
    pub default_sf: bool,
}

/// The render state: output parts and slots, pending awaitables, the agenda
/// of work, and the reply awaited.
pub struct Session {
    pub root: Vec<Part>,
    pub slots: Vec<Vec<Part>>,
    pub pending: Vec<Pending>,
    pub use_default_sf: bool,
    pub agenda: Vec<Task>,
    pub waiting: Waiting,
    pub collected: Vec<PropText>,
    pub formatter: Option<u64>,
}

// ---------------------------------------------------------------- views

/// The awaitables of the pending entries, in order.
pub open spec fn awaitables(pending: Seq<Pending>) -> Seq<u64> {
    pending.map_values(|p: Pending| p.awaitable)
}

/// Whether `dest` names the root or an existing slot.
pub open spec fn dest_ok(dest: Option<usize>, n: int) -> bool {
    dest matches Some(i) ==> i < n
}

/// Whether a task refers only to existing slots and children.
pub open spec fn task_ok(t: Task, n: int) -> bool {
    match t {
        Task::Item { dest, .. } => dest_ok(dest, n),
        Task::Child { tag, index, dest, .. } => dest_ok(dest, n) && index < tag.children@.len(),
        Task::Separator { dest, .. } => dest_ok(dest, n),
        Task::Close { dest, .. } => dest_ok(dest, n),
        Task::Resume { entry, .. } => entry.slot < n,
    }
}

/// Whether what the session waits for refers only to existing slots and
/// properties.
pub open spec fn waiting_ok(w: Waiting, n: int, collected: int) -> bool {
    match w {
        Waiting::Idle => true,
        Waiting::Formatted { dest } => dest_ok(dest, n),
        Waiting::Formatter { dest, .. } => dest_ok(dest, n),
        Waiting::Prop { element, dest } => dest_ok(dest, n) && collected < element_props(
            element,
        ).len(),
        Waiting::HasContextHook { dest, .. } => dest_ok(dest, n),
        Waiting::ContextHook { dest, .. } => dest_ok(dest, n),
        Waiting::Truthy { dest, resumed, .. } => dest_ok(dest, n) && (resumed ==> dest is Some),
        Waiting::ChainMap { dest, resumed, .. } => dest_ok(dest, n) && (resumed ==> dest is Some),
        Waiting::HasHtmy { dest, resumed, .. } => dest_ok(dest, n) && (resumed ==> dest is Some),
        Waiting::Htmy { dest, resumed, .. } => dest_ok(dest, n) && (resumed ==> dest is Some),
    }
}

impl SessionView {
    /// The rendered text: the root with every hole filled in.
    pub open spec fn rendered(self) -> Seq<char> {
        expand(self.root, self.slots, 0)
    }

    /// The units written to `dest`.
    pub open spec fn dest_toks(self, dest: Option<usize>) -> Seq<Tok> {
        match dest {
            None => self.root,
            Some(i) => self.slots[i as int],
        }
    }

    /// Well-formedness: holes name existing slots, a slot's holes name later
    /// slots, every slot has exactly one hole, and all work refers to
    /// existing slots.
    pub open spec fn wf(self) -> bool {
        let n = self.slots.len() as int;
        &&& refs_within(self.root, 0, n)
        &&& slots_wf(self.slots)
        &&& forall|k: int| 0 <= k < self.pending.len() ==> (#[trigger] self.pending[k]).slot < n
        &&& forall|k: int| 0 <= k < self.agenda.len() ==> task_ok(#[trigger] self.agenda[k], n)
        &&& waiting_ok(self.waiting, n, self.collected.len() as int)
        &&& holes_unique(self.root, self.slots)
    }
}

impl Session {
    /// The view of the session.
    pub open spec fn view(&self) -> SessionView {
        SessionView {
            root: toks(self.root@),
            slots: slot_toks(self.slots@),
            pending: self.pending@,
            agenda: self.agenda@,
            waiting: self.waiting,
            collected: prop_pieces(self.collected@),
            formatter: self.formatter,
            default_sf: self.use_default_sf,
        }
    }
}

// ---------------------------------------------------------------- transitions

/// `s` written to `dest`.
pub open spec fn write_view(v: SessionView, dest: Option<usize>, s: Seq<char>) -> SessionView {
    match dest {
        None => SessionView { root: v.root + char_toks(s), ..v },
        Some(i) => SessionView { slots: v.slots.update(i as int, v.slots[i as int] + char_toks(s)), ..v },
    }
}

/// A hole for a new slot written to `dest`, with the new (empty) slot.
pub open spec fn hole_view(v: SessionView, dest: Option<usize>) -> SessionView {
    let n = v.slots.len() as usize;
    match dest {
        None => SessionView { root: v.root.push(Tok::Hole(n)), slots: v.slots.push(Seq::empty()), ..v },
        Some(i) => SessionView {
            slots: v.slots.update(i as int, v.slots[i as int].push(Tok::Hole(n))).push(Seq::empty()),
            ..v
        },
    }
}

/// `ts` put on the agenda, to run in order before what was there.
pub open spec fn schedule(v: SessionView, ts: Seq<Task>) -> SessionView {
    SessionView { agenda: v.agenda + ts.reverse(), ..v }
}

/// `w` awaited.
pub open spec fn await_view(v: SessionView, w: Waiting) -> SessionView {
    SessionView { waiting: w, ..v }
}

/// Output `s` to `dest`: written directly with the default string formatter,
/// otherwise handed to the string formatter through `request`.
pub open spec fn emit_view(v: SessionView, dest: Option<usize>, s: Seq<char>, request: ActionView) -> (
    SessionView,
    ActionView,
) {
    if v.default_sf {
        (write_view(v, dest, s), ActionView::Continue)
    } else {
        (await_view(v, Waiting::Formatted { dest }), request)
    }
}

/// What a failure does: the agenda and any half-done work are dropped, and
/// the pending awaitables are handed out for closing when `cancel` holds.
pub open spec fn fail_view(v: SessionView, error: RenderError, cancel: bool) -> (SessionView, ActionView) {
    (
        SessionView { agenda: Seq::empty(), waiting: Waiting::Idle, collected: Seq::empty(), ..v },
        ActionView::Fail {
            error,
            cancel: if cancel {
                awaitables(v.pending)
            } else {
                Seq::empty()
            },
        },
    )
}

// ---------------------------------------------------------------- one hole per slot

proof fn lemma_write_keeps_holes(v: SessionView, dest: Option<usize>, s: Seq<char>)
    requires
        v.wf(),
        dest_ok(dest, v.slots.len() as int),
    ensures
        holes_unique(write_view(v, dest, s).root, write_view(v, dest, s).slots),
{
    let w = write_view(v, dest, s);
    assert forall|k: usize| k < w.slots.len() implies #[trigger] hole_count(w.root, k)
        + slots_hole_count(w.slots, k) == 1 by {
        assert(hole_count(v.root, k) + slots_hole_count(v.slots, k) == 1);
        lemma_hole_count_char_toks(s, k);
        match dest {
            None => {
                lemma_hole_count_concat(v.root, char_toks(s), k);
            },
            Some(i) => {
                lemma_hole_count_concat(v.slots[i as int], char_toks(s), k);
                lemma_slots_hole_count_update(
                    v.slots,
                    i as int,
                    v.slots[i as int] + char_toks(s),
                    k,
                );
            },
        }
    }
}

proof fn lemma_hole_keeps_holes(v: SessionView, dest: Option<usize>)
    requires
        v.wf(),
        v.slots.len() <= usize::MAX,
        dest_ok(dest, v.slots.len() as int),
    ensures
        holes_unique(hole_view(v, dest).root, hole_view(v, dest).slots),
{
    let n = v.slots.len() as usize;
    let h = hole_view(v, dest);
    let hole = seq![Tok::Hole(n)];
    assert(hole.drop_last() =~= Seq::<Tok>::empty());
    assert forall|k: usize| k < h.slots.len() implies #[trigger] hole_count(h.root, k)
        + slots_hole_count(h.slots, k) == 1 by {
        assert(hole_count(Seq::<Tok>::empty(), k) == 0);
        assert(hole_count(hole, k) == if k == n { 1nat } else { 0nat });
        if k == n {
            lemma_hole_count_outside(v.root, 0, n as int, k);
            lemma_slots_hole_count_past(v.slots, k);
        } else {
            assert(hole_count(v.root, k) + slots_hole_count(v.slots, k) == 1);
        }
        match dest {
            None => {
                assert(v.root.push(Tok::Hole(n)) =~= v.root + hole);
                lemma_hole_count_concat(v.root, hole, k);
                lemma_slots_hole_count_push(v.slots, Seq::empty(), k);
            },
            Some(i) => {
                let u = v.slots.update(i as int, v.slots[i as int].push(Tok::Hole(n)));
                assert(v.slots[i as int].push(Tok::Hole(n)) =~= v.slots[i as int] + hole);
                lemma_hole_count_concat(v.slots[i as int], hole, k);
                lemma_slots_hole_count_update(v.slots, i as int, v.slots[i as int] + hole, k);
                lemma_slots_hole_count_push(u, Seq::empty(), k);
            },
        }
    }
}

// ---------------------------------------------------------------- layout operations

impl Session {
    /// Well-formedness of the view, and part lists without empty text parts
    /// or two text parts in a row.
    pub open spec fn wf(&self) -> bool {
        &&& self.view().wf()
        &&& parts_tidy(self.root@)
        &&& forall|i: int| 0 <= i < self.slots@.len() ==> parts_tidy(#[trigger] self.slots@[i]@)
    }

    /// Writes `s` to `dest` (nothing for an empty string).
    pub fn write_str(&mut self, dest: Option<usize>, s: &str)
        requires
            old(self).wf(),
            dest_ok(dest, old(self).slots@.len() as int),
        ensures
            final(self).view() == write_view(old(self).view(), dest, s@),
            final(self).wf(),
            dest is None ==> final(self).view().rendered() == old(self).view().rendered() + s@,
    {
        let ghost old_v = self.view();
        match dest {
            None => {
                append_text(&mut self.root, s);
            },
            Some(i) => {
                let ghost old_slots = self.slots@;
                let parts = &mut self.slots[i];
                append_text(parts, s);
                proof {
                    assert(self.slots@ =~= old_slots.update(i as int, self.slots@[i as int]));
                    assert(slot_toks(self.slots@) =~= old_v.slots.update(
                        i as int,
                        old_v.slots[i as int] + char_toks(s@),
                    ));
                }
            },
        }
        proof {
            let nv = self.view();
            assert(nv =~= write_view(old_v, dest, s@));
            lemma_write_keeps_holes(old_v, dest, s@);
            lemma_refs_char_toks(s@, 0, nv.slots.len() as int);
            match dest {
                None => {
                    lemma_refs_concat(old_v.root, char_toks(s@), 0, nv.slots.len() as int);
                    lemma_expand_concat(old_v.root, char_toks(s@), old_v.slots, 0);
                    lemma_expand_char_toks(s@, old_v.slots, 0);
                },
                Some(i) => {
                    lemma_refs_char_toks(s@, i + 1, nv.slots.len() as int);
                    assert(refs_within(old_v.slots[i as int], i + 1, nv.slots.len() as int));
                    lemma_refs_concat(old_v.slots[i as int], char_toks(s@), i + 1, nv.slots.len() as int);
                    assert forall|j: int| 0 <= j < nv.slots.len() implies refs_within(
                        #[trigger] nv.slots[j],
                        j + 1,
                        nv.slots.len() as int,
                    ) by {
                        if j != i {
                            assert(nv.slots[j] == old_v.slots[j]);
                        }
                    }
                },
            }
        }
    }
}


// ---------------------------------------------------------------- layout laws

/// Expansions stay the same when one slot is replaced by units whose
/// expansion is the same and every other slot is kept.
proof fn lemma_expand_update_slot(ts: Seq<Tok>, s: Seq<Seq<Tok>>, t: Seq<Seq<Tok>>, i: int, lo: int)
    requires
        s.len() == t.len(),
        0 <= i < s.len(),
        forall|j: int| 0 <= j < s.len() && j != i ==> s[j] == t[j],
        expand(s[i], s, i + 1) == expand(t[i], t, i + 1),
    ensures
        expand(ts, s, lo) == expand(ts, t, lo),
    decreases s.len() - lo, ts.len(),
{
    if ts.len() > 0 {
        lemma_expand_update_slot(ts.drop_last(), s, t, i, lo);
        if let Tok::Hole(j) = ts.last() {
            if lo <= j < s.len() && j != i {
                if j < i {
                    lemma_expand_update_slot(s[j as int], s, t, i, j + 1);
                } else {
                    crate::layout::lemma_expand_agree(s[j as int], s, t, j + 1);
                }
            }
        }
    }
}

/// Collects the awaitables of the pending entries.
pub fn pending_list(pending: &Vec<Pending>) -> (r: Vec<u64>)
    ensures
        r@ == awaitables(pending@),
{
    let mut r: Vec<u64> = Vec::new();
    let mut k: usize = 0;
    while k < pending.len()
        invariant
            k <= pending.len(),
            r@ == awaitables(pending@.take(k as int)),
        decreases pending.len() - k,
    {
        r.push(pending[k].awaitable);
        assert(awaitables(pending@.take(k + 1)) =~= awaitables(pending@.take(k as int)).push(
            pending@[k as int].awaitable,
        ));
        k += 1;
    }
    assert(pending@.take(pending.len() as int) =~= pending@);
    r
}

/// Puts `ts` on the agenda so that they run in order.
fn schedule_tasks(agenda: &mut Vec<Task>, ts: Vec<Task>)
    ensures
        final(agenda)@ == old(agenda)@ + ts@.reverse(),
{
    let ghost base = agenda@;
    let ghost orig = ts@;
    let mut ts = ts;
    while ts.len() > 0
        invariant
            ts@ == orig.take(ts.len() as int),
            ts.len() <= orig.len(),
            agenda@ == base + orig.subrange(ts.len() as int, orig.len() as int).reverse(),
        decreases ts.len(),
    {
        let t = ts.pop().unwrap();
        agenda.push(t);
        assert(orig.subrange(ts.len() as int, orig.len() as int).reverse() =~= orig.subrange(
            ts.len() + 1,
            orig.len() as int,
        ).reverse().push(t));
        assert(ts@ =~= orig.take(ts.len() as int));
    }
    assert(orig.subrange(0, orig.len() as int) =~= orig);
}

impl Session {
    /// Opens a new slot and writes a hole for it to `dest`; returns the slot.
    pub fn push_hole(&mut self, dest: Option<usize>) -> (id: usize)
        requires
            old(self).wf(),
            dest_ok(dest, old(self).slots@.len() as int),
        ensures
            id == old(self).slots@.len(),
            final(self).view() == hole_view(old(self).view(), dest),
            final(self).wf(),
            final(self).view().rendered() == old(self).view().rendered(),
    {
        let ghost old_v = self.view();
        let id = self.slots.len();
        match dest {
            None => {
                self.root.push(Part::Slot(id));
                proof {
                    lemma_toks_push(old(self).root@, Part::Slot(id));
                    assert(toks(self.root@) =~= old_v.root.push(Tok::Hole(id)));
                }
            },
            Some(i) => {
                let ghost old_slots = self.slots@;
                let parts = &mut self.slots[i];
                parts.push(Part::Slot(id));
                proof {
                    lemma_toks_push(old_slots[i as int]@, Part::Slot(id));
                    assert(self.slots@ =~= old_slots.update(i as int, self.slots@[i as int]));
                    assert(toks(self.slots@[i as int]@) =~= old_v.slots[i as int].push(
                        Tok::Hole(id),
                    ));
                }
            },
        }
        let ghost mid = self.slots@;
        self.slots.push(Vec::new());
        proof {
            let nv = self.view();
            let n = old_v.slots.len() as int;
            assert(toks(Seq::<Part>::empty()) =~= Seq::<Tok>::empty());
            match dest {
                None => {
                    assert(slot_toks(self.slots@) =~= old_v.slots.push(Seq::empty()));
                },
                Some(i) => {
                    assert(slot_toks(self.slots@) =~= old_v.slots.update(
                        i as int,
                        old_v.slots[i as int].push(Tok::Hole(id)),
                    ).push(Seq::empty()));
                },
            }
            assert(nv =~= hole_view(old_v, dest));
            lemma_hole_keeps_holes(old_v, dest);
            // well-formedness
            let hole = seq![Tok::Hole(id)];
            assert(refs_within(hole, 0, n + 1));
            assert forall|j: int| 0 <= j < nv.slots.len() implies refs_within(
                #[trigger] nv.slots[j],
                j + 1,
                nv.slots.len() as int,
            ) by {
                if j == n {
                    assert(nv.slots[j] =~= Seq::<Tok>::empty());
                } else if dest == Some(j as usize) {
                    assert(refs_within(old_v.slots[j], j + 1, n as int));
                    assert(refs_within(hole, j + 1, n + 1));
                    assert(old_v.slots[j].push(Tok::Hole(id)) =~= old_v.slots[j] + hole);
                    lemma_refs_concat(old_v.slots[j], hole, j + 1, n + 1);
                } else {
                    assert(nv.slots[j] == old_v.slots[j]);
                    assert(refs_within(old_v.slots[j], j + 1, n as int));
                }
            }
            match dest {
                None => {
                    assert(old_v.root.push(Tok::Hole(id)) =~= old_v.root + hole);
                    lemma_refs_concat(old_v.root, hole, 0, n + 1);
                    // rendered text
                    lemma_expand_concat(old_v.root, hole, nv.slots, 0);
                    lemma_expand_push(old_v.root, old_v.slots, Seq::empty(), 0);
                    assert(hole.drop_last() =~= Seq::<Tok>::empty());
                    assert(nv.slots.len() == n + 1);
                    assert(hole.last() == Tok::Hole(id));
                    assert(expand(Seq::<Tok>::empty(), nv.slots, 0) =~= Seq::<char>::empty());
                    assert(expand(hole, nv.slots, 0) == expand(nv.slots[n as int], nv.slots, n + 1));
                },
                Some(i) => {
                    let big = old_v.slots.push(Seq::<Tok>::empty());
                    lemma_expand_push(old_v.root, old_v.slots, Seq::empty(), 0);
                    // slot i gains a hole for the empty slot n
                    lemma_expand_concat(old_v.slots[i as int], hole, nv.slots, i + 1);
                    assert(hole.drop_last() =~= Seq::<Tok>::empty());
                    assert(nv.slots.len() == n + 1);
                    assert(hole.last() == Tok::Hole(id));
                    assert(expand(Seq::<Tok>::empty(), nv.slots, i + 1) =~= Seq::<char>::empty());
                    assert(expand(hole, nv.slots, i + 1) == expand(nv.slots[n as int], nv.slots, n + 1));
                    crate::layout::lemma_expand_agree(old_v.slots[i as int], big, nv.slots, i + 1);
                    assert(nv.slots[i as int] =~= old_v.slots[i as int] + hole);
                    assert(big[i as int] == old_v.slots[i as int]);
                    lemma_expand_update_slot(old_v.root, big, nv.slots, i as int, 0);
                },
            }
        }
        id
    }

    /// Drops the agenda and half-done work after an error; hands out the
    /// pending awaitables for closing when `cancel` holds.
    fn fail(&mut self, error: RenderError, cancel: bool) -> (a: Action)
        requires
            old(self).wf(),
        ensures
            final(self).view() == fail_view(old(self).view(), error, cancel).0,
            action_view(a) == fail_view(old(self).view(), error, cancel).1,
            final(self).wf(),
    {
        self.agenda = Vec::new();
        self.waiting = Waiting::Idle;
        self.collected = Vec::new();
        let list = if cancel {
            pending_list(&self.pending)
        } else {
            Vec::new()
        };
        proof {
            assert(prop_pieces(self.collected@) =~= Seq::<Seq<char>>::empty());
            assert(self.agenda@ =~= Seq::<Task>::empty());
            assert(self.view() =~= fail_view(old(self).view(), error, cancel).0);
        }
        Action::Fail { error, cancel: list }
    }
}


// ---------------------------------------------------------------- walking

/// The task that renders child `i` of a tag.
pub open spec fn child_task(tag: Arc<TagInner>, i: int, dest: Option<usize>, ctx: u64) -> Task {
    Task::Child { tag, index: i as usize, dest, ctx }
}

/// The task that renders an object.
pub open spec fn item_task(obj: PyObj, dest: Option<usize>, ctx: u64) -> Task {
    Task::Item { obj, dest, ctx }
}

/// Whether a tag has no separator.
pub open spec fn separator_absent(tag: Arc<TagInner>) -> bool {
    tag.separator is Absent
}

/// The work for a tag's children: each child in order, with the separator
/// before, between and after them unless the tag has none.
pub open spec fn children_tasks(tag: Arc<TagInner>, dest: Option<usize>, ctx: u64) -> Seq<Task> {
    let cs = Seq::new(tag.children@.len(), |i: int| child_task(tag, i, dest, ctx));
    if separator_absent(tag) {
        cs
    } else {
        crate::tag::separated(Task::Separator { tag, dest, ctx }, cs)
    }
}

/// Starting a tag's opening markup: ask for the user formatter.
pub open spec fn open_view(v: SessionView, element: Element, dest: Option<usize>, ctx: u64) -> (
    SessionView,
    ActionView,
) {
    (await_view(v, Waiting::Formatter { element, dest }), ActionView::GetFormatter { ctx })
}

/// Rendering a tag: its opening markup now, then its children, then its
/// closing markup.
pub open spec fn tag_view(v: SessionView, tag: Arc<TagInner>, dest: Option<usize>, ctx: u64) -> (
    SessionView,
    ActionView,
) {
    open_view(
        schedule(v, children_tasks(tag, dest, ctx).push(Task::Close { tag, dest })),
        Element::Tag(tag),
        dest,
        ctx,
    )
}

/// Rendering a component: first ask whether it has `htmy_context`.
pub open spec fn component_view(v: SessionView, obj: u64, dest: Option<usize>, ctx: u64) -> (
    SessionView,
    ActionView,
) {
    (
        await_view(v, Waiting::HasContextHook { obj, dest, ctx }),
        ActionView::HasContextHook { obj },
    )
}

/// Rendering text: escaped unless safe, then output.
pub open spec fn text_view(v: SessionView, text: Seq<char>, safe: bool, obj: u64, dest: Option<usize>) -> (
    SessionView,
    ActionView,
) {
    emit_view(
        v,
        dest,
        if safe {
            text
        } else {
            xml_escape_spec(text)
        },
        ActionView::FormatObject { obj },
    )
}

/// Rendering an object.
pub open spec fn walk_item_view(v: SessionView, obj: PyObj, dest: Option<usize>, ctx: u64) -> (
    SessionView,
    ActionView,
) {
    match *obj.kind {
        ObjKind::NoneValue => (v, ActionView::Continue),
        ObjKind::Tag(t) => tag_view(v, t.inner, dest, ctx),
        ObjKind::Void(t) => open_view(v, Element::Void(t.inner), dest, ctx),
        ObjKind::Str { text, safe } => text_view(v, text@, safe, obj.id, dest),
        ObjKind::Sequence(items) => (
            schedule(v, items@.map_values(|o: PyObj| item_task(o, dest, ctx))),
            ActionView::Continue,
        ),
        ObjKind::Other => component_view(v, obj.id, dest, ctx),
    }
}

/// Rendering a tag child; a list or tuple among a tag's children is invalid.
pub open spec fn walk_child_view(v: SessionView, child: Child, dest: Option<usize>, ctx: u64) -> (
    SessionView,
    ActionView,
) {
    match child {
        Child::Skip => (v, ActionView::Continue),
        Child::Tag(t) => tag_view(v, t.inner, dest, ctx),
        Child::TagWithProps(t) => open_view(v, Element::Void(t.inner), dest, ctx),
        Child::Text { s, safe, py } => text_view(v, s@, safe, py, dest),
        Child::Opaque(o) => if is_sequence_spec(o) {
            fail_view(v, RenderError::InvalidType(o.id), true)
        } else {
            walk_item_view(v, o, dest, ctx)
        },
    }
}

/// Rendering a tag's separator.
pub open spec fn separator_view(v: SessionView, tag: Arc<TagInner>, dest: Option<usize>, ctx: u64) -> (
    SessionView,
    ActionView,
) {
    match tag.separator {
        Separator::NewlinePad => emit_view(v, dest, seq!['\n'], ActionView::FormatPlain { text: seq!['\n'] }),
        Separator::Absent => (v, ActionView::Continue),
        Separator::Opaque(o) => walk_item_view(v, o, dest, ctx),
    }
}

/// Writing a tag's closing markup.
pub open spec fn close_view(v: SessionView, tag: Arc<TagInner>, dest: Option<usize>) -> (
    SessionView,
    ActionView,
) {
    emit_view(v, dest, close_markup(tag.name@), ActionView::FormatMarkup { text: close_markup(tag.name@) })
}

/// Going on with a pending entry whose awaitable produced `result`: a
/// component's result is rendered into the entry's slot; a context result is
/// checked for truthiness first.
pub open spec fn resume_view(v: SessionView, entry: Pending, result: PyObj) -> (SessionView, ActionView) {
    match entry.kind {
        PendingKind::Component { context } => walk_item_view(v, result, Some(entry.slot), context),
        PendingKind::Context { obj, parent } => (
            await_view(
                v,
                Waiting::Truthy {
                    obj,
                    extra: result.id,
                    dest: Some(entry.slot),
                    ctx: parent,
                    resumed: true,
                },
            ),
            ActionView::IsTruthy { obj: result.id },
        ),
    }
}

/// Running one task.
pub open spec fn run_view(v: SessionView, t: Task) -> (SessionView, ActionView) {
    match t {
        Task::Item { obj, dest, ctx } => walk_item_view(v, obj, dest, ctx),
        Task::Child { tag, index, dest, ctx } => walk_child_view(v, tag.children@[index as int], dest, ctx),
        Task::Separator { tag, dest, ctx } => separator_view(v, tag, dest, ctx),
        Task::Close { tag, dest } => close_view(v, tag, dest),
        Task::Resume { entry, result } => resume_view(v, entry, result),
    }
}

/// One step: run the next task, or report that there is none.
pub open spec fn step_view(v: SessionView) -> (SessionView, ActionView) {
    if v.agenda.len() == 0 {
        (v, ActionView::Done)
    } else {
        run_view(SessionView { agenda: v.agenda.drop_last(), ..v }, v.agenda.last())
    }
}

impl Session {
    /// Outputs markup: written directly with the default string formatter,
    /// else handed to the string formatter as a safe string.
    fn emit_markup(&mut self, dest: Option<usize>, s: String) -> (a: Action)
        requires
            old(self).wf(),
            old(self).waiting is Idle,
            dest_ok(dest, old(self).slots@.len() as int),
        ensures
            final(self).view() == emit_view(old(self).view(), dest, s@, ActionView::FormatMarkup { text: s@ }).0,
            action_view(a) == emit_view(old(self).view(), dest, s@, ActionView::FormatMarkup { text: s@ }).1,
            final(self).wf(),
    {
        if self.use_default_sf {
            self.write_str(dest, s.as_str());
            Action::Continue
        } else {
            self.waiting = Waiting::Formatted { dest };
            proof {
                assert(self.view() =~= await_view(old(self).view(), Waiting::Formatted { dest }));
            }
            Action::FormatMarkup { text: s }
        }
    }

    /// Outputs a plain string: written directly with the default string
    /// formatter, else handed to the string formatter.
    fn emit_plain(&mut self, dest: Option<usize>, s: String) -> (a: Action)
        requires
            old(self).wf(),
            old(self).waiting is Idle,
            dest_ok(dest, old(self).slots@.len() as int),
        ensures
            final(self).view() == emit_view(old(self).view(), dest, s@, ActionView::FormatPlain { text: s@ }).0,
            action_view(a) == emit_view(old(self).view(), dest, s@, ActionView::FormatPlain { text: s@ }).1,
            final(self).wf(),
    {
        if self.use_default_sf {
            self.write_str(dest, s.as_str());
            Action::Continue
        } else {
            self.waiting = Waiting::Formatted { dest };
            proof {
                assert(self.view() =~= await_view(old(self).view(), Waiting::Formatted { dest }));
            }
            Action::FormatPlain { text: s }
        }
    }

    /// Outputs a string object: escaped unless safe and written directly with
    /// the default string formatter, else the object is handed to the string
    /// formatter.
    fn write_text(&mut self, dest: Option<usize>, s: &str, safe: bool, obj: u64) -> (a: Action)
        requires
            old(self).wf(),
            old(self).waiting is Idle,
            dest_ok(dest, old(self).slots@.len() as int),
        ensures
            final(self).view() == text_view(old(self).view(), s@, safe, obj, dest).0,
            action_view(a) == text_view(old(self).view(), s@, safe, obj, dest).1,
            final(self).wf(),
    {
        if self.use_default_sf {
            if safe {
                self.write_str(dest, s);
            } else {
                let escaped = xml_escape(s);
                self.write_str(dest, escaped.as_str());
            }
            Action::Continue
        } else {
            self.waiting = Waiting::Formatted { dest };
            proof {
                assert(self.view() =~= await_view(old(self).view(), Waiting::Formatted { dest }));
            }
            Action::FormatObject { obj }
        }
    }

    /// Starts a tag's opening markup by asking for the user formatter.
    fn write_open(&mut self, element: Element, dest: Option<usize>, ctx: u64) -> (a: Action)
        requires
            old(self).wf(),
            old(self).waiting is Idle,
            dest_ok(dest, old(self).slots@.len() as int),
        ensures
            final(self).view() == open_view(old(self).view(), element, dest, ctx).0,
            action_view(a) == open_view(old(self).view(), element, dest, ctx).1,
            final(self).wf(),
    {
        self.waiting = Waiting::Formatter { element, dest };
        proof {
            assert(self.view() =~= await_view(old(self).view(), Waiting::Formatter { element, dest }));
        }
        Action::GetFormatter { ctx }
    }

    /// Starts a component by asking whether it has `htmy_context`.
    fn handle_component(&mut self, obj: u64, dest: Option<usize>, ctx: u64) -> (a: Action)
        requires
            old(self).wf(),
            old(self).waiting is Idle,
            dest_ok(dest, old(self).slots@.len() as int),
        ensures
            final(self).view() == component_view(old(self).view(), obj, dest, ctx).0,
            action_view(a) == component_view(old(self).view(), obj, dest, ctx).1,
            final(self).wf(),
    {
        self.waiting = Waiting::HasContextHook { obj, dest, ctx };
        proof {
            assert(self.view() =~= await_view(old(self).view(), Waiting::HasContextHook { obj, dest, ctx }));
        }
        Action::HasContextHook { obj }
    }

    /// Writes a tag's closing markup.
    fn write_close(&mut self, tag: &Arc<TagInner>, dest: Option<usize>) -> (a: Action)
        requires
            old(self).wf(),
            old(self).waiting is Idle,
            dest_ok(dest, old(self).slots@.len() as int),
        ensures
            final(self).view() == close_view(old(self).view(), *tag, dest).0,
            action_view(a) == close_view(old(self).view(), *tag, dest).1,
            final(self).wf(),
    {
        let s = close_text(tag.name.as_str());
        self.emit_markup(dest, s)
    }
}

/// The work for a tag's children, in order.
fn write_children(tag: &Arc<TagInner>, dest: Option<usize>, ctx: u64) -> (ts: Vec<Task>)
    ensures
        ts@ == children_tasks(*tag, dest, ctx),
{
    let n = tag.children.len();
    let ghost cs = Seq::new(n as nat, |i: int| child_task(*tag, i, dest, ctx));
    let mut ts: Vec<Task> = Vec::new();
    match &tag.separator {
        Separator::Absent => {
            let mut i: usize = 0;
            while i < n
                invariant
                    i <= n == tag.children@.len(),
                    cs == Seq::new(n as nat, |i: int| child_task(*tag, i, dest, ctx)),
                    ts@ == cs.take(i as int),
                decreases n - i,
            {
                ts.push(Task::Child { tag: tag.clone(), index: i, dest, ctx });
                assert(cs.take(i + 1) =~= cs.take(i as int).push(cs[i as int]));
                i += 1;
            }
            assert(cs.take(n as int) =~= cs);
        },
        _ => {
            if n > 0 {
                let ghost sep = Task::Separator { tag: *tag, dest, ctx };
                ts.push(Task::Separator { tag: tag.clone(), dest, ctx });
                let mut i: usize = 0;
                while i < n
                    invariant
                        i <= n == tag.children@.len(),
                        cs == Seq::new(n as nat, |i: int| child_task(*tag, i, dest, ctx)),
                        sep == (Task::Separator { tag: *tag, dest, ctx }),
                        ts@ == seq![sep] + crate::tag::followed_by(sep, cs.take(i as int)),
                    decreases n - i,
                {
                    ts.push(Task::Child { tag: tag.clone(), index: i, dest, ctx });
                    ts.push(Task::Separator { tag: tag.clone(), dest, ctx });
                    assert(cs.take(i + 1).drop_last() =~= cs.take(i as int));
                    assert(ts@ =~= seq![sep] + crate::tag::followed_by(sep, cs.take(i + 1)));
                    i += 1;
                }
                assert(cs.take(n as int) =~= cs);
            } else {
                assert(cs =~= Seq::<Task>::empty());
            }
        },
    }
    ts
}


proof fn lemma_followed_all(sep: Task, items: Seq<Task>, n: int)
    requires
        task_ok(sep, n),
        forall|k: int| 0 <= k < items.len() ==> task_ok(#[trigger] items[k], n),
    ensures
        forall|k: int|
            0 <= k < crate::tag::followed_by(sep, items).len() ==> task_ok(
                #[trigger] crate::tag::followed_by(sep, items)[k],
                n,
            ),
    decreases items.len(),
{
    if items.len() > 0 {
        lemma_followed_all(sep, items.drop_last(), n);
        let f = crate::tag::followed_by(sep, items.drop_last());
        let g = crate::tag::followed_by(sep, items);
        assert(g == f + seq![items.last(), sep]);
        assert forall|k: int| 0 <= k < g.len() implies task_ok(#[trigger] g[k], n) by {
            if k < f.len() {
                assert(g[k] == f[k]);
            } else if k == f.len() {
                assert(g[k] == items[items.len() - 1]);
            } else {
                assert(g[k] == sep);
            }
        }
    }
}

proof fn lemma_children_tasks_ok(tag: Arc<TagInner>, dest: Option<usize>, ctx: u64, n: int)
    requires
        dest_ok(dest, n),
    ensures
        forall|k: int|
            0 <= k < children_tasks(tag, dest, ctx).len() ==> task_ok(
                #[trigger] children_tasks(tag, dest, ctx)[k],
                n,
            ),
{
    let cs = Seq::new(tag.children@.len(), |i: int| child_task(tag, i, dest, ctx));
    assert forall|k: int| 0 <= k < cs.len() implies task_ok(#[trigger] cs[k], n) by {}
    if !separator_absent(tag) {
        let sep = Task::Separator { tag, dest, ctx };
        lemma_followed_all(sep, cs, n);
        let g = crate::tag::followed_by(sep, cs);
        if cs.len() > 0 {
            let all = seq![sep] + g;
            assert forall|k: int| 0 <= k < all.len() implies task_ok(#[trigger] all[k], n) by {
                if k > 0 {
                    assert(all[k] == g[k - 1]);
                }
            }
        }
    }
}

proof fn lemma_schedule_wf(v: SessionView, ts: Seq<Task>)
    requires
        v.wf(),
        forall|k: int| 0 <= k < ts.len() ==> task_ok(#[trigger] ts[k], v.slots.len() as int),
    ensures
        schedule(v, ts).wf(),
{
    let n = v.slots.len() as int;
    let a = v.agenda + ts.reverse();
    assert forall|k: int| 0 <= k < a.len() implies task_ok(#[trigger] a[k], n) by {
        if k < v.agenda.len() {
            assert(a[k] == v.agenda[k]);
        } else {
            assert(a[k] == ts[ts.len() - 1 - (k - v.agenda.len())]);
        }
    }
}

impl Session {
    /// Renders a tag: asks for its opening markup now, and puts its children
    /// and its closing markup on the agenda.
    fn write_tag(&mut self, tag: Arc<TagInner>, dest: Option<usize>, ctx: u64) -> (a: Action)
        requires
            old(self).wf(),
            old(self).waiting is Idle,
            dest_ok(dest, old(self).slots@.len() as int),
        ensures
            final(self).view() == tag_view(old(self).view(), tag, dest, ctx).0,
            action_view(a) == tag_view(old(self).view(), tag, dest, ctx).1,
            final(self).wf(),
    {
        let ghost v = self.view();
        let mut ts = write_children(&tag, dest, ctx);
        ts.push(Task::Close { tag: tag.clone(), dest });
        proof {
            lemma_children_tasks_ok(tag, dest, ctx, v.slots.len() as int);
            let all = children_tasks(tag, dest, ctx).push(Task::Close { tag, dest });
            assert forall|k: int| 0 <= k < all.len() implies task_ok(
                #[trigger] all[k],
                v.slots.len() as int,
            ) by {
                if k < all.len() - 1 {
                    assert(all[k] == children_tasks(tag, dest, ctx)[k]);
                }
            }
            lemma_schedule_wf(v, all);
        }
        schedule_tasks(&mut self.agenda, ts);
        proof {
            assert(self.view() =~= schedule(v, children_tasks(tag, dest, ctx).push(Task::Close { tag, dest })));
        }
        self.write_open(Element::Tag(tag), dest, ctx)
    }

    /// Renders an object.
    fn walk_item(&mut self, obj: PyObj, dest: Option<usize>, ctx: u64) -> (a: Action)
        requires
            old(self).wf(),
            old(self).waiting is Idle,
            dest_ok(dest, old(self).slots@.len() as int),
        ensures
            final(self).view() == walk_item_view(old(self).view(), obj, dest, ctx).0,
            action_view(a) == walk_item_view(old(self).view(), obj, dest, ctx).1,
            final(self).wf(),
    {
        let ghost v = self.view();
        match &*obj.kind {
            ObjKind::NoneValue => Action::Continue,
            ObjKind::Tag(t) => self.write_tag(t.inner.clone(), dest, ctx),
            ObjKind::Void(t) => self.write_open(Element::Void(t.inner.clone()), dest, ctx),
            ObjKind::Str { text, safe } => self.write_text(dest, text.as_str(), *safe, obj.id),
            ObjKind::Sequence(items) => {
                let ghost want = items@.map_values(|o: PyObj| item_task(o, dest, ctx));
                let mut ts: Vec<Task> = Vec::new();
                let mut i: usize = 0;
                while i < items.len()
                    invariant
                        i <= items.len(),
                        want == items@.map_values(|o: PyObj| item_task(o, dest, ctx)),
                        ts@ == want.take(i as int),
                    decreases items.len() - i,
                {
                    ts.push(Task::Item { obj: items[i].share(), dest, ctx });
                    assert(want.take(i + 1) =~= want.take(i as int).push(want[i as int]));
                    i += 1;
                }
                assert(want.take(items.len() as int) =~= want);
                proof {
                    assert forall|k: int| 0 <= k < want.len() implies task_ok(
                        #[trigger] want[k],
                        v.slots.len() as int,
                    ) by {}
                    lemma_schedule_wf(v, want);
                }
                schedule_tasks(&mut self.agenda, ts);
                proof {
                    assert(self.view() =~= schedule(v, want));
                }
                Action::Continue
            },
            ObjKind::Other => self.handle_component(obj.id, dest, ctx),
        }
    }

    /// Renders the child `index` of a tag.
    fn walk_child(&mut self, tag: &Arc<TagInner>, index: usize, dest: Option<usize>, ctx: u64) -> (a: Action)
        requires
            old(self).wf(),
            old(self).waiting is Idle,
            dest_ok(dest, old(self).slots@.len() as int),
            index < tag.children@.len(),
        ensures
            final(self).view() == walk_child_view(old(self).view(), tag.children@[index as int], dest, ctx).0,
            action_view(a) == walk_child_view(old(self).view(), tag.children@[index as int], dest, ctx).1,
            final(self).wf(),
    {
        match &tag.children[index] {
            Child::Skip => Action::Continue,
            Child::Tag(t) => self.write_tag(t.inner.clone(), dest, ctx),
            Child::TagWithProps(t) => self.write_open(Element::Void(t.inner.clone()), dest, ctx),
            Child::Text { s, safe, py } => self.write_text(dest, s.as_str(), *safe, *py),
            Child::Opaque(o) => {
                if is_sequence(o) {
                    self.fail(RenderError::InvalidType(o.id), true)
                } else {
                    self.walk_item(o.share(), dest, ctx)
                }
            },
        }
    }

    /// Renders a tag's separator.
    fn write_separator(&mut self, tag: &Arc<TagInner>, dest: Option<usize>, ctx: u64) -> (a: Action)
        requires
            old(self).wf(),
            old(self).waiting is Idle,
            dest_ok(dest, old(self).slots@.len() as int),
        ensures
            final(self).view() == separator_view(old(self).view(), *tag, dest, ctx).0,
            action_view(a) == separator_view(old(self).view(), *tag, dest, ctx).1,
            final(self).wf(),
    {
        match &tag.separator {
            Separator::NewlinePad => {
                let mut nl = String::new();
                push_char(&mut nl, '\n');
                assert(nl@ =~= seq!['\n']);
                self.emit_plain(dest, nl)
            },
            Separator::Absent => Action::Continue,
            Separator::Opaque(o) => self.walk_item(o.share(), dest, ctx),
        }
    }

    /// Goes on with a pending entry whose awaitable produced `result`.
    fn resume(&mut self, entry: Pending, result: PyObj) -> (a: Action)
        requires
            old(self).wf(),
            old(self).waiting is Idle,
            entry.slot < old(self).slots@.len(),
        ensures
            final(self).view() == resume_view(old(self).view(), entry, result).0,
            action_view(a) == resume_view(old(self).view(), entry, result).1,
            final(self).wf(),
    {
        match entry.kind {
            PendingKind::Component { context } => self.walk_item(result, Some(entry.slot), context),
            PendingKind::Context { obj, parent } => {
                let w = Waiting::Truthy {
                    obj,
                    extra: result.id,
                    dest: Some(entry.slot),
                    ctx: parent,
                    resumed: true,
                };
                self.waiting = w;
                proof {
                    assert(self.view() =~= await_view(old(self).view(), w));
                }
                Action::IsTruthy { obj: result.id }
            },
        }
    }

    /// Runs the next task on the agenda; `Done` when there is none.
    pub fn step(&mut self) -> (a: Action)
        requires
            old(self).wf(),
            old(self).waiting is Idle,
        ensures
            final(self).view() == step_view(old(self).view()).0,
            action_view(a) == step_view(old(self).view()).1,
            final(self).wf(),
    {
        let ghost v = self.view();
        match self.agenda.pop() {
            None => Action::Done,
            Some(task) => {
                proof {
                    assert(task_ok(v.agenda[v.agenda.len() - 1], v.slots.len() as int));
                    assert(self.view() =~= SessionView { agenda: v.agenda.drop_last(), ..v });
                    assert(self.view().wf());
                }
                match task {
                    Task::Item { obj, dest, ctx } => self.walk_item(obj, dest, ctx),
                    Task::Child { tag, index, dest, ctx } => self.walk_child(&tag, index, dest, ctx),
                    Task::Separator { tag, dest, ctx } => self.write_separator(&tag, dest, ctx),
                    Task::Close { tag, dest } => self.write_close(&tag, dest),
                    Task::Resume { entry, result } => self.resume(entry, result),
                }
            },
        }
    }
}


// ---------------------------------------------------------------- replies

/// Whether an error while waiting for `w` hands the pending awaitables out
/// for closing: it does everywhere but in the steps that go on with a
/// pending context result before its component's result is rendered.
pub open spec fn cancels(w: Waiting) -> bool {
    match w {
        Waiting::Truthy { resumed, .. } => !resumed,
        Waiting::ChainMap { resumed, .. } => !resumed,
        Waiting::HasHtmy { resumed, .. } => !resumed,
        Waiting::Htmy { resumed, .. } => !resumed,
        _ => true,
    }
}

/// Whether `r` is a reply of the kind the session waits for.
pub open spec fn reply_fits(w: Waiting, formatter: Option<u64>, r: Reply) -> bool {
    match r {
        Reply::Error(_) => !(w is Idle),
        Reply::Flag(_) => w is HasContextHook || w is Truthy || w is HasHtmy,
        Reply::Value(_) => w is ChainMap,
        Reply::Awaited { .. } => w is ContextHook,
        Reply::Rendered { .. } => w is Htmy,
        Reply::Text(_) => w is Formatted || (w is Prop && formatter is Some),
        Reply::Formatter(_) => w is Formatter,
        Reply::Prop(_) => w is Prop && formatter is None,
    }
}

/// Nothing awaited.
pub open spec fn idle(v: SessionView) -> SessionView {
    await_view(v, Waiting::Idle)
}

/// Asking whether the component has `htmy`.
pub open spec fn check_htmy_view(v: SessionView, obj: u64, dest: Option<usize>, ctx: u64, resumed: bool) -> (
    SessionView,
    ActionView,
) {
    (await_view(v, Waiting::HasHtmy { obj, dest, ctx, resumed }), ActionView::HasHtmy { obj })
}

/// Asking for the next property of `element`: formatted by the user
/// formatter when there is one, else described for the default rules.
pub open spec fn request_prop_view(v: SessionView, element: Element, dest: Option<usize>) -> (
    SessionView,
    ActionView,
) {
    let prop = element_props(element)[v.collected.len() as int];
    (
        await_view(v, Waiting::Prop { element, dest }),
        match v.formatter {
            Some(f) => ActionView::FormatProp { formatter: f, name: prop.0@, value: prop.1 },
            None => ActionView::DescribeValue { value: prop.1 },
        },
    )
}

/// Finishing an opening tag: its markup with the collected attributes, output.
pub open spec fn finish_open_view(v: SessionView, element: Element, dest: Option<usize>) -> (
    SessionView,
    ActionView,
) {
    let markup = open_markup(element_name(element), join_spaced(v.collected), element_void(element));
    emit_view(
        SessionView { collected: Seq::empty(), ..v },
        dest,
        markup,
        ActionView::FormatMarkup { text: markup },
    )
}

/// Going on with an opening tag: the next property, or the markup when all
/// are in.
pub open spec fn props_view(v: SessionView, element: Element, dest: Option<usize>) -> (
    SessionView,
    ActionView,
) {
    if v.collected.len() < element_props(element).len() {
        request_prop_view(v, element, dest)
    } else {
        finish_open_view(v, element, dest)
    }
}

/// Parking the component's awaitable: a hole for it in `dest` unless it goes
/// on in the slot it already has.
pub open spec fn park_view(v: SessionView, dest: Option<usize>, resumed: bool, awaitable: u64, kind: PendingKind) -> SessionView {
    if resumed {
        SessionView {
            pending: v.pending.push(Pending { slot: dest->0, awaitable, kind }),
            ..v
        }
    } else {
        let h = hole_view(v, dest);
        SessionView {
            pending: h.pending.push(Pending { slot: v.slots.len() as usize, awaitable, kind }),
            ..h
        }
    }
}

/// What a reply does.
pub open spec fn answer_view(v: SessionView, r: Reply) -> (SessionView, ActionView) {
    let u = idle(v);
    if let Reply::Error(e) = r {
        fail_view(u, RenderError::Python(e), cancels(v.waiting))
    } else {
        match v.waiting {
            Waiting::Formatted { dest } => match r {
                Reply::Text(s) => (write_view(u, dest, s@), ActionView::Continue),
                _ => (v, ActionView::Continue),
            },
            Waiting::Formatter { element, dest } => match r {
                Reply::Formatter(f) => props_view(
                    SessionView { formatter: f, collected: Seq::empty(), ..u },
                    element,
                    dest,
                ),
                _ => (v, ActionView::Continue),
            },
            Waiting::Prop { element, dest } => {
                let name = element_props(element)[v.collected.len() as int].0;
                let piece = match r {
                    Reply::Text(s) => s@,
                    Reply::Prop(value) => prop_piece(PropText::Standard { name, value }),
                    _ => Seq::empty(),
                };
                props_view(SessionView { collected: v.collected.push(piece), ..u }, element, dest)
            },
            Waiting::HasContextHook { obj, dest, ctx } => match r {
                Reply::Flag(b) => if b {
                    (
                        await_view(v, Waiting::ContextHook { obj, dest, ctx }),
                        ActionView::CallContextHook { obj },
                    )
                } else {
                    check_htmy_view(v, obj, dest, ctx, false)
                },
                _ => (v, ActionView::Continue),
            },
            Waiting::ContextHook { obj, dest, ctx } => match r {
                Reply::Awaited { id, awaitable } => if awaitable {
                    (
                        park_view(u, dest, false, id, PendingKind::Context { obj, parent: ctx }),
                        ActionView::Continue,
                    )
                } else {
                    (
                        await_view(
                            v,
                            Waiting::Truthy { obj, extra: id, dest, ctx, resumed: false },
                        ),
                        ActionView::IsTruthy { obj: id },
                    )
                },
                _ => (v, ActionView::Continue),
            },
            Waiting::Truthy { obj, extra, dest, ctx, resumed } => match r {
                Reply::Flag(b) => if b {
                    (
                        await_view(v, Waiting::ChainMap { obj, dest, resumed }),
                        ActionView::ChainMap { extra, parent: ctx },
                    )
                } else {
                    check_htmy_view(v, obj, dest, ctx, resumed)
                },
                _ => (v, ActionView::Continue),
            },
            Waiting::ChainMap { obj, dest, resumed } => match r {
                Reply::Value(id) => check_htmy_view(v, obj, dest, id, resumed),
                _ => (v, ActionView::Continue),
            },
            Waiting::HasHtmy { obj, dest, ctx, resumed } => match r {
                Reply::Flag(b) => if b {
                    (
                        await_view(v, Waiting::Htmy { dest, ctx, resumed }),
                        ActionView::CallHtmy { obj, ctx },
                    )
                } else {
                    fail_view(u, RenderError::InvalidType(obj), !resumed)
                },
                _ => (v, ActionView::Continue),
            },
            Waiting::Htmy { dest, ctx, resumed } => match r {
                Reply::Rendered { obj, awaitable } => if awaitable {
                    (
                        park_view(u, dest, resumed, obj.id, PendingKind::Component { context: ctx }),
                        ActionView::Continue,
                    )
                } else {
                    walk_item_view(u, obj, dest, ctx)
                },
                _ => (v, ActionView::Continue),
            },
            Waiting::Idle => (v, ActionView::Continue),
        }
    }
}

fn element_prop_count(element: &Element) -> (n: usize)
    ensures
        n == element_props(*element).len(),
{
    match element {
        Element::Tag(t) => t.props.len(),
        Element::Void(t) => t.props.len(),
    }
}

impl Session {
    /// Asks for the next property of `element`.
    fn request_prop(&mut self, element: Element, dest: Option<usize>) -> (a: Action)
        requires
            old(self).wf(),
            old(self).waiting is Idle,
            dest_ok(dest, old(self).slots@.len() as int),
            old(self).collected@.len() < element_props(element).len(),
        ensures
            final(self).view() == request_prop_view(old(self).view(), element, dest).0,
            action_view(a) == request_prop_view(old(self).view(), element, dest).1,
            final(self).wf(),
    {
        let k = self.collected.len();
        let (name, value) = match &element {
            Element::Tag(t) => (t.props[k].0.clone(), t.props[k].1),
            Element::Void(t) => (t.props[k].0.clone(), t.props[k].1),
        };
        self.waiting = Waiting::Prop { element, dest };
        proof {
            assert(self.view() =~= await_view(old(self).view(), Waiting::Prop { element, dest }));
        }
        match self.formatter {
            Some(f) => Action::FormatProp { formatter: f, name, value },
            None => Action::DescribeValue { value },
        }
    }

    /// Writes the opening markup of `element` with the collected attributes.
    fn finish_open(&mut self, element: Element, dest: Option<usize>) -> (a: Action)
        requires
            old(self).wf(),
            old(self).waiting is Idle,
            dest_ok(dest, old(self).slots@.len() as int),
        ensures
            final(self).view() == finish_open_view(old(self).view(), element, dest).0,
            action_view(a) == finish_open_view(old(self).view(), element, dest).1,
            final(self).wf(),
    {
        let mut buf = String::new();
        push_char(&mut buf, '<');
        let void = match &element {
            Element::Tag(t) => {
                buf.append(t.name.as_str());
                false
            },
            Element::Void(t) => {
                buf.append(t.name.as_str());
                true
            },
        };
        push_char(&mut buf, ' ');
        write_props(&mut buf, &self.collected);
        if void {
            push_char(&mut buf, '/');
        }
        push_char(&mut buf, '>');
        assert(buf@ =~= open_markup(
            element_name(element),
            join_spaced(prop_pieces(self.collected@)),
            element_void(element),
        ));
        self.collected = Vec::new();
        proof {
            assert(prop_pieces(self.collected@) =~= Seq::<Seq<char>>::empty());
            assert(self.view() =~= SessionView { collected: Seq::empty(), ..old(self).view() });
        }
        self.emit_markup(dest, buf)
    }

    /// Goes on with an opening tag.
    fn props_next(&mut self, element: Element, dest: Option<usize>) -> (a: Action)
        requires
            old(self).wf(),
            old(self).waiting is Idle,
            dest_ok(dest, old(self).slots@.len() as int),
        ensures
            final(self).view() == props_view(old(self).view(), element, dest).0,
            action_view(a) == props_view(old(self).view(), element, dest).1,
            final(self).wf(),
    {
        if self.collected.len() < element_prop_count(&element) {
            self.request_prop(element, dest)
        } else {
            self.finish_open(element, dest)
        }
    }

    /// Parks a component's awaitable as pending.
    fn park(&mut self, dest: Option<usize>, resumed: bool, awaitable: u64, kind: PendingKind)
        requires
            old(self).wf(),
            old(self).waiting is Idle,
            dest_ok(dest, old(self).slots@.len() as int),
            resumed ==> dest is Some,
        ensures
            final(self).view() == park_view(old(self).view(), dest, resumed, awaitable, kind),
            final(self).wf(),
    {
        if resumed {
            let slot = match dest {
                Some(i) => i,
                None => 0,
            };
            self.pending.push(Pending { slot, awaitable, kind });
            proof {
                assert(self.view() =~= park_view(old(self).view(), dest, resumed, awaitable, kind));
            }
        } else {
            let slot = self.push_hole(dest);
            let ghost h = self.view();
            self.pending.push(Pending { slot, awaitable, kind });
            proof {
                assert(self.view() =~= park_view(old(self).view(), dest, resumed, awaitable, kind));
                assert forall|k: int| 0 <= k < self.pending@.len() implies (#[trigger] self.pending@[k]).slot
                    < self.slots@.len() by {
                    if k < h.pending.len() {
                        assert(self.pending@[k] == h.pending[k]);
                    }
                }
            }
        }
    }

    /// Whether `reply` is a reply of the kind the session waits for.
    pub fn accepts(&self, reply: &Reply) -> (b: bool)
        ensures
            b == reply_fits(self.waiting, self.formatter, *reply),
    {
        let formatter_set = self.formatter.is_some();
        match reply {
            Reply::Error(_) => !matches!(self.waiting, Waiting::Idle),
            Reply::Flag(_) => matches!(self.waiting, Waiting::HasContextHook { .. } | Waiting::Truthy { .. } | Waiting::HasHtmy { .. }),
            Reply::Value(_) => matches!(self.waiting, Waiting::ChainMap { .. }),
            Reply::Awaited { .. } => matches!(self.waiting, Waiting::ContextHook { .. }),
            Reply::Rendered { .. } => matches!(self.waiting, Waiting::Htmy { .. }),
            Reply::Text(_) => matches!(self.waiting, Waiting::Formatted { .. }) || (matches!(self.waiting, Waiting::Prop { .. }) && formatter_set),
            Reply::Formatter(_) => matches!(self.waiting, Waiting::Formatter { .. }),
            Reply::Prop(_) => matches!(self.waiting, Waiting::Prop { .. }) && !formatter_set,
        }
    }

    /// Takes the reply to the last request and goes on.
    pub fn answer(&mut self, reply: Reply) -> (a: Action)
        requires
            old(self).wf(),
            reply_fits(old(self).waiting, old(self).formatter, reply),
        ensures
            final(self).view() == answer_view(old(self).view(), reply).0,
            action_view(a) == answer_view(old(self).view(), reply).1,
            final(self).wf(),
    {
        let ghost v = self.view();
        let mut w = Waiting::Idle;
        std::mem::swap(&mut w, &mut self.waiting);
        proof {
            assert(self.view() =~= idle(v));
        }
        if let Reply::Error(e) = reply {
            let c = match &w {
                Waiting::Truthy { resumed, .. } => !*resumed,
                Waiting::ChainMap { resumed, .. } => !*resumed,
                Waiting::HasHtmy { resumed, .. } => !*resumed,
                Waiting::Htmy { resumed, .. } => !*resumed,
                _ => true,
            };
            return self.fail(RenderError::Python(e), c);
        }
        match w {
            Waiting::Formatted { dest } => match reply {
                Reply::Text(s) => {
                    self.write_str(dest, s.as_str());
                    Action::Continue
                },
                _ => Action::Continue,
            },
            Waiting::Formatter { element, dest } => match reply {
                Reply::Formatter(f) => {
                    self.formatter = f;
                    self.collected = Vec::new();
                    proof {
                        assert(prop_pieces(self.collected@) =~= Seq::<Seq<char>>::empty());
                        assert(self.view() =~= SessionView { formatter: f, collected: Seq::empty(), ..idle(v) });
                    }
                    self.props_next(element, dest)
                },
                _ => Action::Continue,
            },
            Waiting::Prop { element, dest } => {
                let k = self.collected.len();
                let name = match &element {
                    Element::Tag(t) => t.props[k].0.clone(),
                    Element::Void(t) => t.props[k].0.clone(),
                };
                let text = match reply {
                    Reply::Text(s) => PropText::Custom(s),
                    Reply::Prop(value) => PropText::Standard { name, value },
                    _ => PropText::Custom(String::new()),
                };
                let ghost piece = prop_piece(text);
                self.collected.push(text);
                proof {
                    assert(prop_pieces(self.collected@) =~= v.collected.push(piece));
                    assert(self.view() =~= SessionView { collected: v.collected.push(piece), ..idle(v) });
                }
                self.props_next(element, dest)
            },
            Waiting::HasContextHook { obj, dest, ctx } => match reply {
                Reply::Flag(b) => {
                    if b {
                        self.waiting = Waiting::ContextHook { obj, dest, ctx };
                        proof {
                            assert(self.view() =~= await_view(v, Waiting::ContextHook { obj, dest, ctx }));
                        }
                        Action::CallContextHook { obj }
                    } else {
                        self.waiting = Waiting::HasHtmy { obj, dest, ctx, resumed: false };
                        proof {
                            assert(self.view() =~= await_view(v, Waiting::HasHtmy { obj, dest, ctx, resumed: false }));
                        }
                        Action::HasHtmy { obj }
                    }
                },
                _ => Action::Continue,
            },
            Waiting::ContextHook { obj, dest, ctx } => match reply {
                Reply::Awaited { id, awaitable } => {
                    if awaitable {
                        self.park(dest, false, id, PendingKind::Context { obj, parent: ctx });
                        Action::Continue
                    } else {
                        self.waiting = Waiting::Truthy { obj, extra: id, dest, ctx, resumed: false };
                        proof {
                            assert(self.view() =~= await_view(v, Waiting::Truthy { obj, extra: id, dest, ctx, resumed: false }));
                        }
                        Action::IsTruthy { obj: id }
                    }
                },
                _ => Action::Continue,
            },
            Waiting::Truthy { obj, extra, dest, ctx, resumed } => match reply {
                Reply::Flag(b) => {
                    if b {
                        self.waiting = Waiting::ChainMap { obj, dest, resumed };
                        proof {
                            assert(self.view() =~= await_view(v, Waiting::ChainMap { obj, dest, resumed }));
                        }
                        Action::ChainMap { extra, parent: ctx }
                    } else {
                        self.waiting = Waiting::HasHtmy { obj, dest, ctx, resumed };
                        proof {
                            assert(self.view() =~= await_view(v, Waiting::HasHtmy { obj, dest, ctx, resumed }));
                        }
                        Action::HasHtmy { obj }
                    }
                },
                _ => Action::Continue,
            },
            Waiting::ChainMap { obj, dest, resumed } => match reply {
                Reply::Value(id) => {
                    self.waiting = Waiting::HasHtmy { obj, dest, ctx: id, resumed };
                    proof {
                        assert(self.view() =~= await_view(v, Waiting::HasHtmy { obj, dest, ctx: id, resumed }));
                    }
                    Action::HasHtmy { obj }
                },
                _ => Action::Continue,
            },
            Waiting::HasHtmy { obj, dest, ctx, resumed } => match reply {
                Reply::Flag(b) => {
                    if b {
                        self.waiting = Waiting::Htmy { dest, ctx, resumed };
                        proof {
                            assert(self.view() =~= await_view(v, Waiting::Htmy { dest, ctx, resumed }));
                        }
                        Action::CallHtmy { obj, ctx }
                    } else {
                        self.fail(RenderError::InvalidType(obj), !resumed)
                    }
                },
                _ => Action::Continue,
            },
            Waiting::Htmy { dest, ctx, resumed } => match reply {
                Reply::Rendered { obj, awaitable } => {
                    if awaitable {
                        self.park(dest, resumed, obj.id, PendingKind::Component { context: ctx });
                        Action::Continue
                    } else {
                        self.walk_item(obj, dest, ctx)
                    }
                },
                _ => Action::Continue,
            },
            Waiting::Idle => Action::Continue,
        }
    }
}


// ---------------------------------------------------------------- the session object

/// The work that goes on with each pending entry, given its result.
pub open spec fn resume_tasks(pending: Seq<Pending>, results: Seq<PyObj>) -> Seq<Task> {
    Seq::new(pending.len(), |i: int| Task::Resume { entry: pending[i], result: results[i] })
}

/// What `submit` does: the pending entries are taken; when the number of
/// results is not theirs, rendering fails and their awaitables are handed out
/// for closing; otherwise each entry goes on, in order, with its result.
pub open spec fn submit_view(v: SessionView, results: Seq<PyObj>) -> (SessionView, ActionView) {
    let taken = SessionView { pending: Seq::empty(), ..v };
    if v.pending.len() != results.len() {
        (
            taken,
            ActionView::Fail { error: RenderError::CountMismatch, cancel: awaitables(v.pending) },
        )
    } else {
        (schedule(taken, resume_tasks(v.pending, results)), ActionView::Continue)
    }
}

/// The state of a new session that is to render `component` in `context`.
pub open spec fn initial_view(component: PyObj, context: u64, use_default_sf: bool) -> SessionView {
    SessionView {
        root: Seq::empty(),
        slots: Seq::empty(),
        pending: Seq::empty(),
        agenda: seq![Task::Item { obj: component, dest: None, ctx: context }],
        waiting: Waiting::Idle,
        collected: Seq::empty(),
        formatter: None,
        default_sf: use_default_sf,
    }
}

/// A render session: renders a component, parking the awaitables it meets,
/// and takes their results back to fill their places in the output.
pub struct RenderSession {
    inner: Session,
}

impl RenderSession {
    #[verifier::type_invariant]
    spec fn inv(self) -> bool {
        self.inner.wf()
    }

    /// The state of the session.
    pub closed spec fn view(&self) -> SessionView {
        self.inner.view()
    }

    /// A session that is to render `component` in `context`; the string
    /// formatter is the default one when `use_default_sf` holds. Drive it with
    /// `step` and `answer`.
    pub fn new(component: PyObj, context: u64, use_default_sf: bool) -> (s: RenderSession)
        ensures
            s.view() == initial_view(component, context, use_default_sf),
    {
        let mut agenda: Vec<Task> = Vec::new();
        agenda.push(Task::Item { obj: component, dest: None, ctx: context });
        let inner = Session {
            root: Vec::new(),
            slots: Vec::new(),
            pending: Vec::new(),
            use_default_sf,
            agenda,
            waiting: Waiting::Idle,
            collected: Vec::new(),
            formatter: None,
        };
        proof {
            assert(toks(inner.root@) =~= Seq::<Tok>::empty());
            assert(slot_toks(inner.slots@) =~= Seq::<Seq<Tok>>::empty());
            assert(prop_pieces(inner.collected@) =~= Seq::<Seq<char>>::empty());
            assert(inner.view() =~= initial_view(component, context, use_default_sf));
        }
        RenderSession { inner }
    }

    /// The pending awaitables, or `None` when there are none.
    pub fn pending(&self) -> (r: Option<Vec<u64>>)
        ensures
            self.view().pending.len() == 0 ==> r is None,
            self.view().pending.len() > 0 ==> (r matches Some(l) && l@ == awaitables(self.view().pending)),
    {
        if self.inner.pending.len() == 0 {
            None
        } else {
            Some(pending_list(&self.inner.pending))
        }
    }

    /// Whether the session waits for a reply.
    pub fn awaits_reply(&self) -> (b: bool)
        ensures
            b == !(self.view().waiting is Idle),
    {
        !matches!(self.inner.waiting, Waiting::Idle)
    }

    /// Whether the session neither waits for a reply nor has work left.
    pub fn is_idle(&self) -> (b: bool)
        ensures
            b == (self.view().waiting is Idle && self.view().agenda.len() == 0),
    {
        matches!(self.inner.waiting, Waiting::Idle) && self.inner.agenda.len() == 0
    }

    /// Whether `reply` is a reply of the kind the session waits for.
    pub fn accepts(&self, reply: &Reply) -> (b: bool)
        ensures
            b == reply_fits(self.view().waiting, self.view().formatter, *reply),
    {
        self.inner.accepts(reply)
    }

    /// Runs the next piece of work.
    pub fn step(&mut self) -> (a: Action)
        requires
            old(self).view().waiting is Idle,
        ensures
            final(self).view() == step_view(old(self).view()).0,
            action_view(a) == step_view(old(self).view()).1,
    {
        proof {
            use_type_invariant(&*self);
        }
        let mut inner = Session::blank();
        std::mem::swap(&mut inner, &mut self.inner);
        let a = inner.step();
        self.inner = inner;
        a
    }

    /// Takes the reply to the last request.
    pub fn answer(&mut self, reply: Reply) -> (a: Action)
        requires
            reply_fits(old(self).view().waiting, old(self).view().formatter, reply),
        ensures
            final(self).view() == answer_view(old(self).view(), reply).0,
            action_view(a) == answer_view(old(self).view(), reply).1,
    {
        proof {
            use_type_invariant(&*self);
        }
        let mut inner = Session::blank();
        std::mem::swap(&mut inner, &mut self.inner);
        let a = inner.answer(reply);
        self.inner = inner;
        a
    }

    /// The rendered text: the root output with every hole filled in by its
    /// slot's text.
    pub fn output(&self) -> (r: String)
        ensures
            r@ == self.view().rendered(),
    {
        proof {
            use_type_invariant(&*self);
        }
        let mut out = String::new();
        flatten(&self.inner.root, &self.inner.slots, 0, &mut out);
        out
    }

    /// Drops the pending entries and returns their awaitables, for closing.
    pub fn cancel(&mut self) -> (r: Vec<u64>)
        ensures
            r@ == awaitables(old(self).view().pending),
            final(self).view() == (SessionView { pending: Seq::empty(), ..old(self).view() }),
    {
        proof {
            use_type_invariant(&*self);
        }
        let mut inner = Session::blank();
        std::mem::swap(&mut inner, &mut self.inner);
        let r = pending_list(&inner.pending);
        inner.pending = Vec::new();
        proof {
            assert(inner.view() =~= SessionView { pending: Seq::empty(), ..old(self).view() });
        }
        self.inner = inner;
        r
    }

    /// Takes the results of the pending awaitables, in order.
    pub fn submit(&mut self, results: Vec<PyObj>) -> (a: Action)
        requires
            old(self).view().waiting is Idle,
            old(self).view().agenda.len() == 0,
        ensures
            final(self).view() == submit_view(old(self).view(), results@).0,
            action_view(a) == submit_view(old(self).view(), results@).1,
    {
        proof {
            use_type_invariant(&*self);
        }
        let mut inner = Session::blank();
        std::mem::swap(&mut inner, &mut self.inner);
        let a = inner.submit(results);
        self.inner = inner;
        a
    }
}

impl Session {
    /// An empty session.
    fn blank() -> (s: Session)
        ensures
            s.wf(),
            s.view() == (SessionView {
                root: Seq::empty(),
                slots: Seq::empty(),
                pending: Seq::empty(),
                agenda: Seq::empty(),
                waiting: Waiting::Idle,
                collected: Seq::empty(),
                formatter: None,
                default_sf: true,
            }),
    {
        let s = Session {
            root: Vec::new(),
            slots: Vec::new(),
            pending: Vec::new(),
            use_default_sf: true,
            agenda: Vec::new(),
            waiting: Waiting::Idle,
            collected: Vec::new(),
            formatter: None,
        };
        proof {
            assert(toks(s.root@) =~= Seq::<Tok>::empty());
            assert(slot_toks(s.slots@) =~= Seq::<Seq<Tok>>::empty());
            assert(prop_pieces(s.collected@) =~= Seq::<Seq<char>>::empty());
            assert(s.pending@ =~= Seq::<Pending>::empty());
            assert(s.agenda@ =~= Seq::<Task>::empty());
        }
        s
    }

    /// Takes the results of the pending awaitables, in order.
    fn submit(&mut self, results: Vec<PyObj>) -> (a: Action)
        requires
            old(self).wf(),
            old(self).waiting is Idle,
        ensures
            final(self).view() == submit_view(old(self).view(), results@).0,
            action_view(a) == submit_view(old(self).view(), results@).1,
            final(self).wf(),
    {
        let ghost v = self.view();
        let mut pending: Vec<Pending> = Vec::new();
        std::mem::swap(&mut pending, &mut self.pending);
        proof {
            assert(self.view() =~= SessionView { pending: Seq::empty(), ..v });
        }
        if pending.len() != results.len() {
            let cancel = pending_list(&pending);
            return Action::Fail { error: RenderError::CountMismatch, cancel };
        }
        let ghost want = resume_tasks(pending@, results@);
        let mut ts: Vec<Task> = Vec::new();
        let mut i: usize = 0;
        while i < pending.len()
            invariant
                i <= pending.len() == results.len(),
                want == resume_tasks(pending@, results@),
                ts@ == want.take(i as int),
            decreases pending.len() - i,
        {
            ts.push(Task::Resume { entry: pending[i], result: results[i].share() });
            assert(want.take(i + 1) =~= want.take(i as int).push(want[i as int]));
            i += 1;
        }
        assert(want.take(pending.len() as int) =~= want);
        proof {
            let n = self.slots@.len() as int;
            assert forall|k: int| 0 <= k < want.len() implies task_ok(#[trigger] want[k], n) by {
                assert(v.pending[k].slot < n);
            }
            lemma_schedule_wf(self.view(), want);
        }
        schedule_tasks(&mut self.agenda, ts);
        proof {
            assert(self.view() =~= schedule(SessionView { pending: Seq::empty(), ..v }, want));
        }
        Action::Continue
    }
}


// ---------------------------------------------------------------- laws

/// Whether no unit of `ts` is a hole for slot `k`.
pub open spec fn avoids(ts: Seq<Tok>, k: usize) -> bool {
    forall|j: int| 0 <= j < ts.len() ==> ts[j] != Tok::Hole(k)
}

proof fn lemma_expand_avoid(ts: Seq<Tok>, s: Seq<Seq<Tok>>, x: Seq<Tok>, k: usize, lo: int)
    requires
        0 <= k < s.len(),
        avoids(ts, k),
        forall|j: int| 0 <= j < s.len() ==> avoids(#[trigger] s[j], k),
    ensures
        expand(ts, s, lo) == expand(ts, s.update(k as int, x), lo),
    decreases s.len() - lo, ts.len(),
{
    if ts.len() > 0 {
        assert(avoids(ts.drop_last(), k)) by {
            assert forall|j: int| 0 <= j < ts.drop_last().len() implies ts.drop_last()[j] != Tok::Hole(k) by {
                assert(ts.drop_last()[j] == ts[j]);
            }
        }
        lemma_expand_avoid(ts.drop_last(), s, x, k, lo);
        assert(ts[ts.len() - 1] == ts.last());
        if let Tok::Hole(j) = ts.last() {
            if lo <= j < s.len() {
                assert(j != k);
                assert(s.update(k as int, x)[j as int] == s[j as int]);
                lemma_expand_avoid(s[j as int], s, x, k, j + 1);
            }
        }
    }
}

/// Text written to the root lands at the end of the rendered output.
pub proof fn law_root_write_appends(v: SessionView, s: Seq<char>)
    requires
        v.wf(),
    ensures
        write_view(v, None, s).rendered() == v.rendered() + s,
{
    lemma_expand_concat(v.root, char_toks(s), v.slots, 0);
    lemma_expand_char_toks(s, v.slots, 0);
}

/// Text written to a slot whose hole stands in the root lands where that
/// hole stands: right after what the slot held so far.
pub proof fn law_slot_write_lands_in_hole(v: SessionView, k: usize, i: int, s: Seq<char>)
    requires
        v.wf(),
        0 <= i < v.root.len(),
        v.root[i] == Tok::Hole(k),
    ensures
        write_view(v, Some(k), s).rendered() == expand(v.root.take(i), v.slots, 0) + expand(
            v.slots[k as int],
            v.slots,
            k + 1,
        ) + s + expand(v.root.skip(i + 1), v.slots, 0),
{
    let w = write_view(v, Some(k), s);
    let hole = seq![Tok::Hole(k)];
    let a = v.root.take(i);
    let b = v.root.skip(i + 1);
    assert(refs_within(v.root, 0, v.slots.len() as int));
    assert(v.root[i] matches Tok::Hole(j) && 0 <= j < v.slots.len());
    assert(v.root =~= a + hole + b);
    // the hole at `i` is the only one for slot `k`
    assert(hole.drop_last() =~= Seq::<Tok>::empty());
    assert(hole.last() == Tok::Hole(k));
    assert(hole_count(Seq::<Tok>::empty(), k) == 0);
    assert(hole_count(hole, k) == 1);
    lemma_hole_count_concat(a + hole, b, k);
    lemma_hole_count_concat(a, hole, k);
    assert(hole_count(v.root, k) + slots_hole_count(v.slots, k) == 1);
    lemma_hole_count_zero(a, k);
    lemma_hole_count_zero(b, k);
    lemma_slots_hole_count_zero(v.slots, k);
    assert forall|j: int| 0 <= j < v.slots.len() implies avoids(#[trigger] v.slots[j], k) by {
        lemma_hole_count_zero(v.slots[j], k);
    }
    assert(w.root == v.root);
    assert(w.slots == v.slots.update(k as int, v.slots[k as int] + char_toks(s)));
    lemma_expand_concat(a + hole, b, w.slots, 0);
    lemma_expand_concat(a, hole, w.slots, 0);
    lemma_expand_avoid(a, v.slots, v.slots[k as int] + char_toks(s), k, 0);
    lemma_expand_avoid(b, v.slots, v.slots[k as int] + char_toks(s), k, 0);
    assert(hole.drop_last() =~= Seq::<Tok>::empty());
    assert(hole.last() == Tok::Hole(k));
    assert(expand(Seq::<Tok>::empty(), w.slots, 0) =~= Seq::<char>::empty());
    assert(expand(hole, w.slots, 0) == expand(w.slots[k as int], w.slots, k + 1));
    lemma_expand_concat(v.slots[k as int], char_toks(s), w.slots, k + 1);
    lemma_expand_char_toks(s, w.slots, k + 1);
    crate::layout::lemma_expand_agree(v.slots[k as int], v.slots, w.slots, k + 1);
}

/// Rendering an object as a tag child is rendering it as an item, except
/// that a list or tuple among a tag's children is an invalid type: rendering
/// fails and the session's pending awaitables are handed out for closing.
pub proof fn law_child_agrees_with_item(v: SessionView, o: PyObj, dest: Option<usize>, ctx: u64)
    ensures
        is_sequence_spec(o) ==> walk_child_view(v, interned(o), dest, ctx) == fail_view(
            v,
            RenderError::InvalidType(o.id),
            true,
        ),
        !is_sequence_spec(o) ==> walk_child_view(v, interned(o), dest, ctx) == walk_item_view(
            v,
            o,
            dest,
            ctx,
        ),
{
}

/// A component that answers synchronously with a string is rendered as that
/// string, escaped: the session asks for `htmy_context`, then `htmy`, calls
/// it in the given context, writes the escaped result and is done.
pub proof fn law_sync_component_renders_result(comp: PyObj, ctx: u64, result: PyObj, text: String)
    requires
        *comp.kind is Other,
        *result.kind == (ObjKind::Str { text, safe: false }),
    ensures
        ({
            let v0 = initial_view(comp, ctx, true);
            let (v1, a1) = step_view(v0);
            let (v2, a2) = answer_view(v1, Reply::Flag(false));
            let (v3, a3) = answer_view(v2, Reply::Flag(true));
            let (v4, a4) = answer_view(v3, Reply::Rendered { obj: result, awaitable: false });
            let (v5, a5) = step_view(v4);
            &&& a1 == ActionView::HasContextHook { obj: comp.id }
            &&& a2 == ActionView::HasHtmy { obj: comp.id }
            &&& a3 == ActionView::CallHtmy { obj: comp.id, ctx }
            &&& a4 == ActionView::Continue
            &&& a5 == ActionView::Done
            &&& v5.rendered() == xml_escape_spec(text@)
            &&& v5.pending.len() == 0
        }),
{
    let v0 = initial_view(comp, ctx, true);
    let (v1, a1) = step_view(v0);
    assert(v0.agenda.drop_last() =~= Seq::<Task>::empty());
    let (v2, a2) = answer_view(v1, Reply::Flag(false));
    let (v3, a3) = answer_view(v2, Reply::Flag(true));
    let (v4, a4) = answer_view(v3, Reply::Rendered { obj: result, awaitable: false });
    assert(v4 == write_view(idle(v3), None, xml_escape_spec(text@)));
    assert(v4.slots == Seq::<Seq<Tok>>::empty());
    lemma_expand_char_toks(xml_escape_spec(text@), v4.slots, 0);
    assert(v4.root =~= char_toks(xml_escape_spec(text@)));
}

/// A component whose result is awaited leaves a hole in the output and one
/// pending entry; once its result (a string) is submitted, the escaped string
/// fills the hole.
pub proof fn law_async_component_renders_submitted(
    comp: PyObj,
    ctx: u64,
    awaitable: PyObj,
    result: PyObj,
    text: String,
)
    requires
        *comp.kind is Other,
        *result.kind == (ObjKind::Str { text, safe: false }),
    ensures
        ({
            let v0 = initial_view(comp, ctx, true);
            let (v1, a1) = step_view(v0);
            let (v2, a2) = answer_view(v1, Reply::Flag(false));
            let (v3, a3) = answer_view(v2, Reply::Flag(true));
            let (v4, a4) = answer_view(v3, Reply::Rendered { obj: awaitable, awaitable: true });
            let (v5, a5) = step_view(v4);
            let (v6, a6) = submit_view(v5, seq![result]);
            let (v7, a7) = step_view(v6);
            let (v8, a8) = step_view(v7);
            &&& a4 == ActionView::Continue
            &&& a5 == ActionView::Done
            &&& v5.rendered() == Seq::<char>::empty()
            &&& awaitables(v5.pending) == seq![awaitable.id]
            &&& a6 == ActionView::Continue
            &&& a7 == ActionView::Continue
            &&& a8 == ActionView::Done
            &&& v8.pending.len() == 0
            &&& v8.rendered() == xml_escape_spec(text@)
        }),
{
    let v0 = initial_view(comp, ctx, true);
    let (v1, a1) = step_view(v0);
    assert(v0.agenda.drop_last() =~= Seq::<Task>::empty());
    let (v2, a2) = answer_view(v1, Reply::Flag(false));
    let (v3, a3) = answer_view(v2, Reply::Flag(true));
    let (v4, a4) = answer_view(v3, Reply::Rendered { obj: awaitable, awaitable: true });
    let entry = Pending { slot: 0, awaitable: awaitable.id, kind: PendingKind::Component { context: ctx } };
    assert(v4.root == seq![Tok::Hole(0)]);
    assert(v4.slots == seq![Seq::<Tok>::empty()]);
    assert(v4.pending == seq![entry]);
    let (v5, a5) = step_view(v4);
    // the hole is empty
    let one = seq![Tok::Hole(0usize)];
    assert(one.drop_last() =~= Seq::<Tok>::empty());
    assert(expand(Seq::<Tok>::empty(), v5.slots, 0) =~= Seq::<char>::empty());
    assert(expand(Seq::<Tok>::empty(), v5.slots, 1) =~= Seq::<char>::empty());
    assert(v5.rendered() == expand(v5.slots[0], v5.slots, 1));
    assert(awaitables(v5.pending) =~= seq![awaitable.id]);
    let (v6, a6) = submit_view(v5, seq![result]);
    let rt = resume_tasks(v5.pending, seq![result]);
    assert(rt =~= seq![Task::Resume { entry, result }]);
    assert(rt.reverse() =~= rt);
    let (v7, a7) = step_view(v6);
    assert(v6.agenda.drop_last() =~= Seq::<Task>::empty());
    let e = xml_escape_spec(text@);
    assert(v7 == write_view(SessionView { agenda: Seq::empty(), ..v6 }, Some(0), e));
    assert(v7.slots =~= seq![char_toks(e)]);
    let (v8, a8) = step_view(v7);
    lemma_expand_char_toks(e, v8.slots, 1);
    assert(v8.root == one);
    assert(v8.slots.len() == 1);
    assert(expand(Seq::<Tok>::empty(), v8.slots, 0) =~= Seq::<char>::empty());
    assert(v8.rendered() == expand(v8.slots[0], v8.slots, 1));
}


/// The text a tag child that is a string or `None` renders to with the
/// default string formatter: the string, escaped unless safe; nothing for
/// `None`.
pub open spec fn plain_child_text(c: Child) -> Seq<char> {
    match c {
        Child::Text { s, safe, .. } => if safe {
            s@
        } else {
            xml_escape_spec(s@)
        },
        _ => Seq::empty(),
    }
}

/// The texts of the children, one after another.
pub open spec fn plain_children_text(cs: Seq<Child>) -> Seq<char>
    decreases cs.len(),
{
    if cs.len() == 0 {
        Seq::empty()
    } else {
        plain_children_text(cs.drop_last()) + plain_child_text(cs.last())
    }
}

/// The state after `n` steps.
pub open spec fn run_steps(v: SessionView, n: nat) -> SessionView
    decreases n,
{
    if n == 0 {
        v
    } else {
        run_steps(step_view(v).0, (n - 1) as nat)
    }
}

proof fn lemma_run_steps_last(v: SessionView, n: nat)
    ensures
        run_steps(v, n + 1) == step_view(run_steps(v, n)).0,
    decreases n,
{
    if n > 0 {
        lemma_run_steps_last(step_view(v).0, (n - 1) as nat);
        assert(run_steps(v, n + 1) == run_steps(step_view(v).0, n));
        assert(run_steps(v, n) == run_steps(step_view(v).0, (n - 1) as nat));
    } else {
        assert(run_steps(v, 1) == run_steps(step_view(v).0, 0));
    }
}

/// The state of a tag's rendering once its opening markup `m1` and the
/// texts of its first `i` children are written.
spec fn text_children_state(v: SessionView, m1: Seq<char>, cs: Seq<Child>, i: int) -> SessionView {
    SessionView {
        root: char_toks(m1 + plain_children_text(cs.take(i))),
        agenda: v.agenda.take(cs.len() + 1 - i),
        ..v
    }
}

proof fn lemma_text_child_step(v2: SessionView, tag: Arc<TagInner>, ctx: u64, m1: Seq<char>, i: int)
    requires
        0 <= i < tag.children@.len() <= usize::MAX,
        v2.agenda.len() == tag.children@.len() + 1,
        v2.default_sf,
        v2.agenda[tag.children@.len() - i] == child_task(tag, i, None, ctx),
        tag.children@[i] is Text || tag.children@[i] is Skip,
    ensures
        step_view(text_children_state(v2, m1, tag.children@, i)).0 == text_children_state(
            v2,
            m1,
            tag.children@,
            i + 1,
        ),
        step_view(text_children_state(v2, m1, tag.children@, i)).1 == ActionView::Continue,
{
    let cs = tag.children@;
    let n = cs.len();
    let st = text_children_state(v2, m1, cs, i);
    let popped = SessionView { agenda: st.agenda.drop_last(), ..st };
    assert(st.agenda.last() == v2.agenda[n - i]);
    assert(st.agenda.drop_last() =~= v2.agenda.take(n - i));
    let c = cs[i];
    let prev = plain_children_text(cs.take(i));
    assert(cs.take(i + 1).drop_last() =~= cs.take(i));
    assert(plain_children_text(cs.take(i + 1)) == prev + plain_child_text(c));
    lemma_char_toks_concat(m1 + prev, plain_child_text(c));
    assert(m1 + prev + plain_child_text(c) =~= m1 + plain_children_text(cs.take(i + 1)));
    if c is Text {
        assert(step_view(st).0 == write_view(popped, None, plain_child_text(c)));
    } else {
        assert(plain_child_text(c) =~= Seq::<char>::empty());
        assert(char_toks(Seq::<char>::empty()) =~= Seq::<Tok>::empty());
        assert(m1 + prev =~= m1 + plain_children_text(cs.take(i + 1)));
        assert(step_view(st).0 == popped);
    }
    assert(step_view(st).0 =~= text_children_state(v2, m1, cs, i + 1));
}

proof fn lemma_text_children_run(v2: SessionView, tag: Arc<TagInner>, ctx: u64, m1: Seq<char>, i: int)
    requires
        0 <= i <= tag.children@.len() <= usize::MAX,
        v2.agenda.len() == tag.children@.len() + 1,
        v2.default_sf,
        forall|k: int|
            0 <= k < tag.children@.len() ==> #[trigger] v2.agenda[tag.children@.len() - k]
                == child_task(tag, k, None, ctx),
        forall|k: int|
            0 <= k < tag.children@.len() ==> (#[trigger] tag.children@[k] is Text
                || tag.children@[k] is Skip),
        text_children_state(v2, m1, tag.children@, 0) == v2,
    ensures
        run_steps(v2, i as nat) == text_children_state(v2, m1, tag.children@, i),
        forall|k: nat| k < i ==> #[trigger] step_view(run_steps(v2, k)).1 == ActionView::Continue,
    decreases i,
{
    if i > 0 {
        lemma_text_children_run(v2, tag, ctx, m1, i - 1);
        lemma_run_steps_last(v2, (i - 1) as nat);
        assert(v2.agenda[tag.children@.len() - (i - 1)] == child_task(tag, i - 1, None, ctx));
        assert(tag.children@[i - 1] is Text || tag.children@[i - 1] is Skip);
        lemma_text_child_step(v2, tag, ctx, m1, i - 1);
    }
}

/// A tag without properties or separator whose children are strings or
/// `None` renders, with the default formatters, as its opening markup, the
/// texts of its children in order and its closing markup: after the
/// formatter lookup, one step per child and one for the closing markup, each
/// asking for nothing, and then the session is done.
pub proof fn law_tag_renders_text_children(obj: PyObj, t: TagImpl, ctx: u64)
    requires
        *obj.kind == ObjKind::Tag(t),
        t.inner.props@.len() == 0,
        separator_absent(t.inner),
        t.inner.children@.len() <= usize::MAX,
        forall|i: int|
            0 <= i < t.inner.children@.len() ==> (#[trigger] t.inner.children@[i] is Text
                || t.inner.children@[i] is Skip),
    ensures
        ({
            let cs = t.inner.children@;
            let name = t.inner.name@;
            let v0 = initial_view(obj, ctx, true);
            let (v1, a1) = step_view(v0);
            let (v2, a2) = answer_view(v1, Reply::Formatter(None));
            let v3 = run_steps(v2, (cs.len() + 1) as nat);
            &&& a1 == ActionView::GetFormatter { ctx }
            &&& a2 == ActionView::Continue
            &&& forall|i: nat| i <= cs.len() ==> #[trigger] step_view(run_steps(v2, i)).1
                == ActionView::Continue
            &&& step_view(v3).1 == ActionView::Done
            &&& v3.rendered() == open_markup(name, Seq::empty(), false) + plain_children_text(cs)
                + close_markup(name)
        }),
{
    let tag = t.inner;
    let cs = tag.children@;
    let n: int = cs.len() as int;
    let name = tag.name@;
    let v0 = initial_view(obj, ctx, true);
    assert(v0.agenda.drop_last() =~= Seq::<Task>::empty());
    let close = Task::Close { tag, dest: None };
    let tasks = children_tasks(tag, None, ctx).push(close);
    let (v1, a1) = step_view(v0);
    assert(v1.agenda =~= tasks.reverse());
    let (v2, a2) = answer_view(v1, Reply::Formatter(None));
    let m1 = open_markup(name, Seq::<char>::empty(), false);
    assert(join_spaced(Seq::<Seq<char>>::empty()) == Seq::<char>::empty());
    assert(Seq::<Tok>::empty() + char_toks(m1) =~= char_toks(m1));
    assert(v2.agenda.len() == n + 1);
    // the agenda holds the closing markup first and the children last
    assert forall|i: int| 0 <= i < n implies #[trigger] v2.agenda[n - i] == child_task(
        tag,
        i,
        None,
        ctx,
    ) by {
        assert(tasks[i] == children_tasks(tag, None, ctx)[i]);
    }
    assert(v2.agenda[0] == close);
    // each child step writes the child's text
    assert(cs.take(0) =~= Seq::<Child>::empty());
    assert(m1 + plain_children_text(cs.take(0)) =~= m1);
    assert(v2.agenda.take(n + 1) =~= v2.agenda);
    assert(text_children_state(v2, m1, cs, 0) == v2);
    lemma_text_children_run(v2, tag, ctx, m1, n);
    // the closing markup
    let st = text_children_state(v2, m1, cs, n);
    assert(cs.take(n) =~= cs);
    assert(st.agenda =~= seq![close]);
    assert(st.agenda.drop_last() =~= Seq::<Task>::empty());
    let m2 = close_markup(name);
    lemma_run_steps_last(v2, n as nat);
    let v3 = run_steps(v2, (n + 1) as nat);
    assert(step_view(st).0 == write_view(SessionView { agenda: Seq::empty(), ..st }, None, m2));
    lemma_char_toks_concat(m1 + plain_children_text(cs), m2);
    assert(v3.root == char_toks(m1 + plain_children_text(cs) + m2));
    assert(v3.agenda =~= Seq::<Task>::empty());
    assert(v3.slots == v2.slots);
    lemma_expand_char_toks(m1 + plain_children_text(cs) + m2, v3.slots, 0);
    assert(step_view(run_steps(v2, n as nat)).1 == ActionView::Continue);
}

/// Whether an object renders without asking anything: a string, `None`, or
/// a list or tuple of such objects.
pub open spec fn plain(o: PyObj) -> bool
    decreases o,
{
    match *o.kind {
        ObjKind::Str { .. } => true,
        ObjKind::NoneValue => true,
        ObjKind::Sequence(items) => plain_items(items@),
        _ => false,
    }
}

/// Whether every object of the list renders without asking anything.
pub open spec fn plain_items(items: Seq<PyObj>) -> bool
    decreases items,
{
    if items.len() == 0 {
        true
    } else {
        plain(items[0]) && plain_items(items.drop_first())
    }
}

/// The text an object that renders without asking anything renders to with
/// the default string formatter: a string escaped unless safe, nothing for
/// `None`, the items' texts one after another for a list or tuple.
pub open spec fn plain_text(o: PyObj) -> Seq<char>
    decreases o,
{
    match *o.kind {
        ObjKind::Str { text, safe } => if safe {
            text@
        } else {
            xml_escape_spec(text@)
        },
        ObjKind::Sequence(items) => plain_items_text(items@),
        _ => Seq::empty(),
    }
}

/// The texts of the objects, one after another.
pub open spec fn plain_items_text(items: Seq<PyObj>) -> Seq<char>
    decreases items,
{
    if items.len() == 0 {
        Seq::empty()
    } else {
        plain_text(items[0]) + plain_items_text(items.drop_first())
    }
}

/// How many steps rendering such an object takes: one per object, lists and
/// tuples and their items included.
pub open spec fn plain_steps(o: PyObj) -> nat
    decreases o,
{
    match *o.kind {
        ObjKind::Sequence(items) => 1 + plain_items_steps(items@),
        _ => 1,
    }
}

/// How many steps rendering the objects one after another takes.
pub open spec fn plain_items_steps(items: Seq<PyObj>) -> nat
    decreases items,
{
    if items.len() == 0 {
        0
    } else {
        plain_steps(items[0]) + plain_items_steps(items.drop_first())
    }
}

/// Whether the `n` steps from `v` each ask for nothing.
pub open spec fn quiet(v: SessionView, n: nat) -> bool {
    forall|k: nat| k < n ==> #[trigger] step_view(run_steps(v, k)).1 == ActionView::Continue
}

proof fn lemma_run_steps_add(v: SessionView, a: nat, b: nat)
    ensures
        run_steps(v, a + b) == run_steps(run_steps(v, a), b),
    decreases a,
{
    if a > 0 {
        lemma_run_steps_add(step_view(v).0, (a - 1) as nat, b);
        assert(run_steps(v, a + b) == run_steps(step_view(v).0, (a + b - 1) as nat));
        assert((a - 1) as nat + b == (a + b - 1) as nat);
    }
}

proof fn lemma_quiet_add(v: SessionView, a: nat, b: nat)
    requires
        quiet(v, a),
        quiet(run_steps(v, a), b),
    ensures
        quiet(v, a + b),
{
    assert forall|k: nat| k < a + b implies #[trigger] step_view(run_steps(v, k)).1
        == ActionView::Continue by {
        if k >= a {
            lemma_run_steps_add(v, a, (k - a) as nat);
            assert(a + (k - a) as nat == k);
            assert(step_view(run_steps(run_steps(v, a), (k - a) as nat)).1 == ActionView::Continue);
        }
    }
}

proof fn lemma_write_write(v: SessionView, dest: Option<usize>, x: Seq<char>, y: Seq<char>)
    requires
        dest_ok(dest, v.slots.len() as int),
    ensures
        write_view(write_view(v, dest, x), dest, y) == write_view(v, dest, x + y),
{
    lemma_char_toks_concat(x, y);
    match dest {
        None => {
            assert(v.root + char_toks(x) + char_toks(y) =~= v.root + char_toks(x + y));
        },
        Some(i) => {
            let w = write_view(v, dest, x);
            assert(w.slots[i as int] == v.slots[i as int] + char_toks(x));
            assert(v.slots[i as int] + char_toks(x) + char_toks(y) =~= v.slots[i as int]
                + char_toks(x + y));
            assert(w.slots.update(i as int, w.slots[i as int] + char_toks(y)) =~= v.slots.update(
                i as int,
                v.slots[i as int] + char_toks(x + y),
            ));
        },
    }
}

proof fn lemma_write_nothing(v: SessionView, dest: Option<usize>)
    requires
        dest_ok(dest, v.slots.len() as int),
    ensures
        write_view(v, dest, Seq::empty()) == v,
{
    assert(char_toks(Seq::<char>::empty()) =~= Seq::<Tok>::empty());
    match dest {
        None => {
            assert(v.root + Seq::<Tok>::empty() =~= v.root);
        },
        Some(i) => {
            assert(v.slots.update(i as int, v.slots[i as int] + Seq::<Tok>::empty()) =~= v.slots);
        },
    }
}

/// The tasks that render the objects one after another.
spec fn item_tasks(items: Seq<PyObj>, dest: Option<usize>, ctx: u64) -> Seq<Task> {
    items.map_values(|o: PyObj| item_task(o, dest, ctx))
}

/// `v` without its next task.
spec fn popped(v: SessionView) -> SessionView {
    SessionView { agenda: v.agenda.drop_last(), ..v }
}

proof fn lemma_plain_run(v: SessionView, o: PyObj, dest: Option<usize>, ctx: u64)
    requires
        v.default_sf,
        plain(o),
        dest_ok(dest, v.slots.len() as int),
        v.agenda.len() > 0,
        run_view(popped(v), v.agenda.last()) == walk_item_view(popped(v), o, dest, ctx),
    ensures
        run_steps(v, plain_steps(o)) == write_view(popped(v), dest, plain_text(o)),
        quiet(v, plain_steps(o)),
    decreases o,
{
    let p = popped(v);
    assert(run_steps(v, 1) == run_steps(step_view(v).0, 0));
    assert(step_view(run_steps(v, 0)).1 == step_view(v).1);
    match *o.kind {
        ObjKind::Str { text, safe } => {
            assert(quiet(v, 1));
        },
        ObjKind::NoneValue => {
            lemma_write_nothing(p, dest);
            assert(quiet(v, 1));
        },
        ObjKind::Sequence(items) => {
            let ts = item_tasks(items@, dest, ctx);
            let v2 = schedule(p, ts);
            assert(step_view(v).0 == v2);
            assert(quiet(v, 1));
            assert(v2.agenda == p.agenda + ts.reverse());
            lemma_items_run(v2, items@, p.agenda, dest, ctx);
            assert(SessionView { agenda: p.agenda, ..v2 } == p);
            lemma_run_steps_add(v, 1, plain_items_steps(items@));
            lemma_quiet_add(v, 1, plain_items_steps(items@));
        },
        _ => {},
    }
}

proof fn lemma_items_run(
    v: SessionView,
    items: Seq<PyObj>,
    rest: Seq<Task>,
    dest: Option<usize>,
    ctx: u64,
)
    requires
        v.default_sf,
        plain_items(items),
        dest_ok(dest, v.slots.len() as int),
        v.agenda == rest + item_tasks(items, dest, ctx).reverse(),
    ensures
        run_steps(v, plain_items_steps(items)) == write_view(
            SessionView { agenda: rest, ..v },
            dest,
            plain_items_text(items),
        ),
        quiet(v, plain_items_steps(items)),
    decreases items,
{
    let ts = item_tasks(items, dest, ctx);
    if items.len() == 0 {
        assert(v.agenda =~= rest);
        assert(SessionView { agenda: rest, ..v } == v);
        lemma_write_nothing(v, dest);
    } else {
        let o = items[0];
        let tail = items.drop_first();
        let tts = item_tasks(tail, dest, ctx);
        assert(ts[0] == item_task(o, dest, ctx));
        assert(v.agenda.last() == ts.reverse()[ts.len() - 1]);
        assert(v.agenda.last() == item_task(o, dest, ctx));
        assert(tts =~= ts.drop_first());
        assert(v.agenda.drop_last() =~= rest + tts.reverse());
        lemma_plain_run(v, o, dest, ctx);
        let v3 = write_view(popped(v), dest, plain_text(o));
        assert(v3.agenda == rest + tts.reverse());
        lemma_items_run(v3, tail, rest, dest, ctx);
        assert(SessionView { agenda: rest, ..v3 } == write_view(
            SessionView { agenda: rest, ..v },
            dest,
            plain_text(o),
        ));
        lemma_write_write(SessionView { agenda: rest, ..v }, dest, plain_text(o), plain_items_text(tail));
        lemma_run_steps_add(v, plain_steps(o), plain_items_steps(tail));
        lemma_quiet_add(v, plain_steps(o), plain_items_steps(tail));
    }
}

/// An object that renders without asking anything (a string, `None`, or a
/// list or tuple of such), rendered wherever it stands (the root, or the
/// slot of an awaited component), writes its text there: every step asks
/// for nothing, and nothing else of the session changes.
pub proof fn law_plain_object_renders_its_text(v: SessionView, o: PyObj, dest: Option<usize>, ctx: u64)
    requires
        v.default_sf,
        plain(o),
        dest_ok(dest, v.slots.len() as int),
        v.agenda.len() > 0,
        v.agenda.last() == item_task(o, dest, ctx),
    ensures
        run_steps(v, plain_steps(o)) == write_view(
            SessionView { agenda: v.agenda.drop_last(), ..v },
            dest,
            plain_text(o),
        ),
        quiet(v, plain_steps(o)),
{
    lemma_plain_run(v, o, dest, ctx);
}

/// The context of a pending context entry's component once its extra
/// context is in: the merged context when the extra context is truthy, else
/// the parent context.
pub open spec fn resumed_context(kind: PendingKind, truthy: bool, merged: u64) -> u64 {
    match kind {
        PendingKind::Context { parent, .. } => if truthy {
            merged
        } else {
            parent
        },
        PendingKind::Component { context } => context,
    }
}

/// The component of a pending context entry.
pub open spec fn context_component(kind: PendingKind) -> u64 {
    match kind {
        PendingKind::Context { obj, .. } => obj,
        PendingKind::Component { .. } => 0,
    }
}

/// The parent context of a pending context entry.
pub open spec fn context_parent(kind: PendingKind) -> u64 {
    match kind {
        PendingKind::Context { parent, .. } => parent,
        PendingKind::Component { context } => context,
    }
}

/// A pending context entry goes on, once its extra context `r` is in, as
/// the synchronous path does: it asks whether `r` is truthy, merges it with
/// the parent context when it is, asks whether the component has `htmy` and
/// calls it in that context; a result that renders without asking anything
/// is then written, in the same number of steps as anywhere, into the
/// entry's slot, and nothing else of the session changes.
pub proof fn law_context_entry_resumes(
    v: SessionView,
    entry: Pending,
    r: PyObj,
    truthy: bool,
    merged: u64,
    res: PyObj,
)
    requires
        v.default_sf,
        v.waiting is Idle,
        v.agenda.len() > 0,
        v.agenda.last() == (Task::Resume { entry, result: r }),
        entry.kind is Context,
        entry.slot < v.slots.len(),
        plain(res),
    ensures
        ({
            let obj = context_component(entry.kind);
            let ctx = resumed_context(entry.kind, truthy, merged);
            let (v1, a1) = step_view(v);
            let (v2, a2) = answer_view(v1, Reply::Flag(truthy));
            let (v3, a3) = if truthy {
                answer_view(v2, Reply::Value(merged))
            } else {
                (v2, a2)
            };
            let (v4, a4) = answer_view(v3, Reply::Flag(true));
            let (v5, a5) = answer_view(v4, Reply::Rendered { obj: res, awaitable: false });
            let vn = run_steps(v5, (plain_steps(res) - 1) as nat);
            &&& a1 == ActionView::IsTruthy { obj: r.id }
            &&& truthy ==> a2 == ActionView::ChainMap {
                extra: r.id,
                parent: context_parent(entry.kind),
            }
            &&& a3 == ActionView::HasHtmy { obj }
            &&& a4 == ActionView::CallHtmy { obj, ctx }
            &&& a5 == ActionView::Continue
            &&& quiet(v5, (plain_steps(res) - 1) as nat)
            &&& vn == write_view(
                SessionView { agenda: v.agenda.drop_last(), ..v },
                Some(entry.slot),
                plain_text(res),
            )
        }),
{
    let obj = context_component(entry.kind);
    let ctx = resumed_context(entry.kind, truthy, merged);
    let (v1, a1) = step_view(v);
    let (v2, a2) = answer_view(v1, Reply::Flag(truthy));
    let (v3, a3) = if truthy {
        answer_view(v2, Reply::Value(merged))
    } else {
        (v2, a2)
    };
    let (v4, a4) = answer_view(v3, Reply::Flag(true));
    let (v5, a5) = answer_view(v4, Reply::Rendered { obj: res, awaitable: false });
    let dest = Some(entry.slot);
    let base = SessionView { agenda: v.agenda.drop_last(), ..v };
    assert(idle(v4) == base);
    let w = SessionView { agenda: base.agenda.push(item_task(res, dest, ctx)), ..base };
    assert(w.agenda.drop_last() =~= base.agenda);
    assert(popped(w) == base);
    assert(w.agenda.last() == item_task(res, dest, ctx));
    lemma_plain_run(w, res, dest, ctx);
    let ps = plain_steps(res);
    assert(ps >= 1);
    assert(step_view(w).0 == v5);
    assert(step_view(w).1 == a5);
    assert(run_steps(w, ps) == run_steps(step_view(w).0, (ps - 1) as nat));
    assert forall|k: nat| k < (ps - 1) as nat implies #[trigger] step_view(run_steps(v5, k)).1
        == ActionView::Continue by {
        assert(run_steps(w, k + 1) == run_steps(step_view(w).0, k));
        assert(step_view(run_steps(w, k + 1)).1 == ActionView::Continue);
    }
    assert(step_view(run_steps(w, 0)).1 == ActionView::Continue);
}

/// After cancelling, the output is as it was, nothing is pending, and
/// submitting no results goes on to a session that is done at once.
pub proof fn law_cancel_then_submit_nothing(v: SessionView)
    requires
        v.agenda.len() == 0,
    ensures
        ({
            let c = SessionView { pending: Seq::empty(), ..v };
            let (v1, a1) = submit_view(c, Seq::empty());
            &&& c.rendered() == v.rendered()
            &&& c.pending.len() == 0
            &&& a1 == ActionView::Continue
            &&& v1 == c
            &&& step_view(v1).1 == ActionView::Done
        }),
{
    let c = SessionView { pending: Seq::empty(), ..v };
    let rt = resume_tasks(c.pending, Seq::<PyObj>::empty());
    assert(rt =~= Seq::<Task>::empty());
    assert(c.agenda + rt.reverse() =~= c.agenda);
    assert(submit_view(c, Seq::empty()).0 =~= c);
}

/// The slots once the text of each result has been appended to the slot of
/// its pending entry, in order.
pub open spec fn fill_slots(slots: Seq<Seq<Tok>>, pending: Seq<Pending>, results: Seq<PyObj>) -> Seq<
    Seq<Tok>,
>
    decreases pending.len(),
{
    if pending.len() == 0 {
        slots
    } else {
        let before = fill_slots(slots, pending.drop_last(), results.take(pending.len() - 1));
        let k = pending.last().slot as int;
        before.update(k, before[k] + char_toks(plain_text(results[pending.len() - 1])))
    }
}

proof fn lemma_fill_slots_len(slots: Seq<Seq<Tok>>, pending: Seq<Pending>, results: Seq<PyObj>)
    requires
        forall|k: int| 0 <= k < pending.len() ==> (#[trigger] pending[k]).slot < slots.len(),
    ensures
        fill_slots(slots, pending, results).len() == slots.len(),
    decreases pending.len(),
{
    if pending.len() > 0 {
        let d = pending.drop_last();
        assert forall|k: int| 0 <= k < d.len() implies (#[trigger] d[k]).slot < slots.len() by {
            assert(d[k] == pending[k]);
        }
        lemma_fill_slots_len(slots, d, results.take(pending.len() - 1));
        assert(pending[pending.len() - 1] == pending.last());
    }
}

/// How many steps rendering the results one after another takes.
pub open spec fn results_steps(results: Seq<PyObj>) -> nat
    decreases results.len(),
{
    if results.len() == 0 {
        0
    } else {
        results_steps(results.drop_last()) + plain_steps(results.last())
    }
}

/// The state once the first `i` submitted results are written.
spec fn submitted_state(v: SessionView, v1: SessionView, results: Seq<PyObj>, i: int) -> SessionView {
    SessionView {
        slots: fill_slots(v.slots, v.pending.take(i), results.take(i)),
        agenda: v1.agenda.take(results.len() - i),
        ..v1
    }
}

proof fn lemma_submitted_entry(v: SessionView, v1: SessionView, results: Seq<PyObj>, i: int)
    requires
        0 <= i < results.len() == v.pending.len(),
        v1.default_sf,
        v1.agenda.len() == results.len(),
        v1.agenda[results.len() - 1 - i] == (Task::Resume { entry: v.pending[i], result: results[i] }),
        v.pending[i].kind is Component,
        forall|k: int| 0 <= k < v.pending.len() ==> (#[trigger] v.pending[k]).slot < v.slots.len(),
        plain(results[i]),
    ensures
        run_steps(submitted_state(v, v1, results, i), plain_steps(results[i])) == submitted_state(
            v,
            v1,
            results,
            i + 1,
        ),
        quiet(submitted_state(v, v1, results, i), plain_steps(results[i])),
{
    let n = results.len();
    let st = submitted_state(v, v1, results, i);
    assert(st.agenda.last() == v1.agenda[n - 1 - i]);
    assert(st.agenda.drop_last() =~= v1.agenda.take(n - (i + 1)));
    let e = v.pending[i];
    let ctx = match e.kind {
        PendingKind::Component { context } => context,
        _ => 0,
    };
    assert forall|k: int| 0 <= k < v.pending.take(i).len() implies (
    #[trigger] v.pending.take(i)[k]).slot < v.slots.len() by {
        assert(v.pending.take(i)[k] == v.pending[k]);
    }
    lemma_fill_slots_len(v.slots, v.pending.take(i), results.take(i));
    lemma_plain_run(st, results[i], Some(e.slot), ctx);
    assert(v.pending.take(i + 1).drop_last() =~= v.pending.take(i));
    assert(results.take(i + 1).take(i) =~= results.take(i));
    assert(v.pending.take(i + 1).last() == e);
    assert(results.take(i + 1)[i] == results[i]);
    assert(write_view(popped(st), Some(e.slot), plain_text(results[i])) =~= submitted_state(
        v,
        v1,
        results,
        i + 1,
    ));
}

proof fn lemma_submitted_run(v: SessionView, v1: SessionView, results: Seq<PyObj>, i: int)
    requires
        0 <= i <= results.len() == v.pending.len(),
        v1.default_sf,
        v1.agenda.len() == results.len(),
        forall|k: int|
            0 <= k < results.len() ==> #[trigger] v1.agenda[results.len() - 1 - k] == (Task::Resume {
                entry: v.pending[k],
                result: results[k],
            }),
        forall|k: int| 0 <= k < v.pending.len() ==> (#[trigger] v.pending[k]).kind is Component,
        forall|k: int| 0 <= k < v.pending.len() ==> (#[trigger] v.pending[k]).slot < v.slots.len(),
        forall|k: int| 0 <= k < results.len() ==> plain(#[trigger] results[k]),
        submitted_state(v, v1, results, 0) == v1,
    ensures
        run_steps(v1, results_steps(results.take(i))) == submitted_state(v, v1, results, i),
        quiet(v1, results_steps(results.take(i))),
    decreases i,
{
    if i == 0 {
        assert(results.take(0) =~= Seq::<PyObj>::empty());
    } else {
        lemma_submitted_run(v, v1, results, i - 1);
        assert(v1.agenda[results.len() - 1 - (i - 1)] == (Task::Resume {
            entry: v.pending[i - 1],
            result: results[i - 1],
        }));
        assert(v.pending[i - 1].kind is Component);
        assert(v.pending[i - 1].slot < v.slots.len());
        assert(plain(results[i - 1]));
        lemma_submitted_entry(v, v1, results, i - 1);
        let a = results_steps(results.take(i - 1));
        let b = plain_steps(results[i - 1]);
        assert(results.take(i).drop_last() =~= results.take(i - 1));
        assert(results.take(i).last() == results[i - 1]);
        assert(results_steps(results.take(i)) == a + b);
        lemma_run_steps_add(v1, a, b);
        lemma_quiet_add(v1, a, b);
    }
}

/// Results submitted for awaited components, when each renders without
/// asking anything (a string, `None`, or a list or tuple of such), land in
/// the slots of their entries, in order, rendered as they would have been
/// where the component stood: every step asks for nothing, and then the
/// session is done with nothing pending; the root stays as it was, so each
/// result's text stands where its component's hole stands (see
/// `law_slot_write_lands_in_hole`).
pub proof fn law_submitted_results_fill_holes(v: SessionView, results: Seq<PyObj>)
    requires
        v.wf(),
        v.agenda.len() == 0,
        v.default_sf,
        results.len() == v.pending.len(),
        forall|k: int| 0 <= k < v.pending.len() ==> (#[trigger] v.pending[k]).kind is Component,
        forall|k: int| 0 <= k < results.len() ==> plain(#[trigger] results[k]),
    ensures
        ({
            let (v1, a1) = submit_view(v, results);
            let filled = fill_slots(v.slots, v.pending, results);
            let vn = run_steps(v1, results_steps(results));
            &&& a1 == ActionView::Continue
            &&& quiet(v1, results_steps(results))
            &&& step_view(vn).1 == ActionView::Done
            &&& vn.pending.len() == 0
            &&& vn.root == v.root
            &&& vn.slots == filled
            &&& vn.rendered() == expand(v.root, filled, 0)
        }),
{
    let n = results.len() as int;
    let (v1, a1) = submit_view(v, results);
    let rt = resume_tasks(v.pending, results);
    assert(v1.agenda =~= rt.reverse());
    assert forall|k: int| 0 <= k < n implies #[trigger] v1.agenda[n - 1 - k] == (Task::Resume {
        entry: v.pending[k],
        result: results[k],
    }) by {
        assert(rt[k] == (Task::Resume { entry: v.pending[k], result: results[k] }));
    }
    assert(v.pending.take(0) =~= Seq::<Pending>::empty());
    assert(v1.agenda.take(n) =~= v1.agenda);
    assert(submitted_state(v, v1, results, 0) =~= v1);
    lemma_submitted_run(v, v1, results, n);
    assert(v.pending.take(n) =~= v.pending);
    assert(results.take(n) =~= results);
    let vn = run_steps(v1, results_steps(results));
    assert(vn.agenda =~= Seq::<Task>::empty());
}

/// The work for a tag's children holds every child, in order: without a
/// separator, one task per child; with one and at least one child, the
/// separator before, between and after the child tasks; with one and no
/// child, nothing.
pub proof fn law_children_tasks_shape(tag: Arc<TagInner>, dest: Option<usize>, ctx: u64)
    requires
        tag.children@.len() <= usize::MAX,
    ensures
        ({
            let ts = children_tasks(tag, dest, ctx);
            let n = tag.children@.len() as int;
            let sep = Task::Separator { tag, dest, ctx };
            &&& tag.separator is Absent ==> {
                &&& ts.len() == n
                &&& forall|i: int|
                    0 <= i < n ==> #[trigger] ts[i] == (Task::Child {
                        tag,
                        index: i as usize,
                        dest,
                        ctx,
                    })
            }
            &&& !(tag.separator is Absent) && n > 0 ==> {
                &&& ts.len() == 2 * n + 1
                &&& forall|i: int|
                    0 <= i < n ==> #[trigger] ts[2 * i + 1] == (Task::Child {
                        tag,
                        index: i as usize,
                        dest,
                        ctx,
                    })
                &&& forall|j: int| 0 <= j <= n ==> #[trigger] ts[2 * j] == sep
            }
            &&& !(tag.separator is Absent) && n == 0 ==> ts.len() == 0
        }),
{
    let n = tag.children@.len() as int;
    let cs = Seq::new(tag.children@.len(), |i: int| child_task(tag, i, dest, ctx));
    let sep = Task::Separator { tag, dest, ctx };
    let ts = children_tasks(tag, dest, ctx);
    if !separator_absent(tag) && n > 0 {
        lemma_followed_by_shape(sep, cs);
        let f = crate::tag::followed_by(sep, cs);
        assert(ts == seq![sep] + f);
        assert forall|i: int| 0 <= i < n implies #[trigger] ts[2 * i + 1] == (Task::Child {
            tag,
            index: i as usize,
            dest,
            ctx,
        }) by {
            assert(ts[2 * i + 1] == f[2 * i]);
            assert(cs[i] == child_task(tag, i, dest, ctx));
        }
        assert forall|j: int| 0 <= j <= n implies #[trigger] ts[2 * j] == sep by {
            if j > 0 {
                assert(ts[2 * j] == f[2 * (j - 1) + 1]);
                assert(cs[j - 1] == child_task(tag, j - 1, dest, ctx));
            }
        }
    }
}

/// The opening markup of any element, with children or without, holds the
/// collected attributes: `<`, the name, a space, the attributes joined by
/// spaces, then `/>` for an element without children and `>` otherwise. It
/// is written directly with the default string formatter and handed to the
/// string formatter otherwise.
pub proof fn law_open_markup_holds_attributes(v: SessionView, element: Element, dest: Option<usize>)
    ensures
        ({
            let m = seq!['<'] + element_name(element) + seq![' '] + join_spaced(v.collected) + if element is Void {
                seq!['/', '>']
            } else {
                seq!['>']
            };
            let (w, a) = finish_open_view(v, element, dest);
            &&& v.default_sf ==> w == write_view(
                SessionView { collected: Seq::empty(), ..v },
                dest,
                m,
            ) && a == ActionView::Continue
            &&& !v.default_sf ==> a == ActionView::FormatMarkup { text: m }
        }),
{
    let m = seq!['<'] + element_name(element) + seq![' '] + join_spaced(v.collected) + if element is Void {
        seq!['/', '>']
    } else {
        seq!['>']
    };
    assert(open_markup(element_name(element), join_spaced(v.collected), element_void(element)) =~= m);
}

} // verus!
