//! The output of a render session: text parts and holes, where a hole stands
//! for a slot whose text arrives later.

use vstd::prelude::*;

verus! {

/// A piece of output: text, or a hole for a slot.
pub enum Part {
    Str(String),
    Slot(usize),
}

/// One unit of output as the contracts see it: a character, or a hole.
pub enum Tok {
    Char(char),
    Hole(usize),
}

/// One character as an output unit.
pub open spec fn char_tok(c: char) -> Tok {
    Tok::Char(c)
}

/// Text as output units.
pub open spec fn char_toks(s: Seq<char>) -> Seq<Tok> {
    s.map_values(|c: char| char_tok(c))
}

/// The output units of one part.
pub open spec fn part_toks(p: Part) -> Seq<Tok> {
    match p {
        Part::Str(s) => char_toks(s@),
        Part::Slot(i) => seq![Tok::Hole(i)],
    }
}

/// The output units of a part list.
pub open spec fn toks(parts: Seq<Part>) -> Seq<Tok>
    decreases parts.len(),
{
    if parts.len() == 0 {
        Seq::empty()
    } else {
        toks(parts.drop_last()) + part_toks(parts.last())
    }
}

/// The text of output units, each hole `j` (with `lo <= j`) replaced by the
/// text of slot `j`; a slot's own holes name only later slots.
pub open spec fn expand(ts: Seq<Tok>, slots: Seq<Seq<Tok>>, lo: int) -> Seq<char>
    decreases slots.len() - lo, ts.len(),
{
    if ts.len() == 0 {
        Seq::empty()
    } else {
        expand(ts.drop_last(), slots, lo) + match ts.last() {
            Tok::Char(c) => seq![c],
            Tok::Hole(j) => if lo <= j < slots.len() {
                expand(slots[j as int], slots, j + 1)
            } else {
                Seq::empty()
            },
        }
    }
}

/// Every hole in `ts` names a slot in `[lo, hi)`.
pub open spec fn refs_within(ts: Seq<Tok>, lo: int, hi: int) -> bool {
    forall|k: int| 0 <= k < ts.len() ==> (#[trigger] ts[k] matches Tok::Hole(j) ==> lo <= j < hi)
}

/// Every slot's holes name later slots only.
pub open spec fn slots_wf(slots: Seq<Seq<Tok>>) -> bool {
    forall|i: int| 0 <= i < slots.len() ==> refs_within(#[trigger] slots[i], i + 1, slots.len() as int)
}

/// How many holes for slot `k` the units hold.
pub open spec fn hole_count(ts: Seq<Tok>, k: usize) -> nat
    decreases ts.len(),
{
    if ts.len() == 0 {
        0
    } else {
        hole_count(ts.drop_last(), k) + if ts.last() == Tok::Hole(k) {
            1nat
        } else {
            0nat
        }
    }
}

/// How many holes for slot `k` the slots hold, together.
pub open spec fn slots_hole_count(slots: Seq<Seq<Tok>>, k: usize) -> nat
    decreases slots.len(),
{
    if slots.len() == 0 {
        0
    } else {
        slots_hole_count(slots.drop_last(), k) + hole_count(slots.last(), k)
    }
}

/// Every slot has exactly one hole, in the root or in another slot.
pub open spec fn holes_unique(root: Seq<Tok>, slots: Seq<Seq<Tok>>) -> bool {
    forall|k: usize|
        k < slots.len() ==> #[trigger] hole_count(root, k) + slots_hole_count(slots, k) == 1
}

/// Counting holes distributes over joined unit lists.
pub proof fn lemma_hole_count_concat(a: Seq<Tok>, b: Seq<Tok>, k: usize)
    ensures
        hole_count(a + b, k) == hole_count(a, k) + hole_count(b, k),
    decreases b.len(),
{
    if b.len() == 0 {
        assert(a + b =~= a);
    } else {
        lemma_hole_count_concat(a, b.drop_last(), k);
        assert((a + b).drop_last() =~= a + b.drop_last());
        assert((a + b).last() == b.last());
    }
}

/// Units made of characters hold no hole.
pub proof fn lemma_hole_count_char_toks(s: Seq<char>, k: usize)
    ensures
        hole_count(char_toks(s), k) == 0,
    decreases s.len(),
{
    if s.len() > 0 {
        lemma_hole_count_char_toks(s.drop_last(), k);
        assert(char_toks(s).drop_last() =~= char_toks(s.drop_last()));
    }
}

/// Units whose holes lie in `[lo, hi)` hold none for a slot outside it.
pub proof fn lemma_hole_count_outside(ts: Seq<Tok>, lo: int, hi: int, k: usize)
    requires
        refs_within(ts, lo, hi),
        k < lo || hi <= k,
    ensures
        hole_count(ts, k) == 0,
    decreases ts.len(),
{
    if ts.len() > 0 {
        assert(refs_within(ts.drop_last(), lo, hi)) by {
            assert forall|j: int| 0 <= j < ts.drop_last().len() implies (
            #[trigger] ts.drop_last()[j] matches Tok::Hole(m) ==> lo <= m < hi) by {
                assert(ts.drop_last()[j] == ts[j]);
            }
        }
        lemma_hole_count_outside(ts.drop_last(), lo, hi, k);
        assert(ts[ts.len() - 1] == ts.last());
    }
}

/// Units without a hole for slot `k` avoid it everywhere.
pub proof fn lemma_hole_count_zero(ts: Seq<Tok>, k: usize)
    requires
        hole_count(ts, k) == 0,
    ensures
        forall|j: int| 0 <= j < ts.len() ==> ts[j] != Tok::Hole(k),
    decreases ts.len(),
{
    if ts.len() > 0 {
        lemma_hole_count_zero(ts.drop_last(), k);
        assert forall|j: int| 0 <= j < ts.len() implies ts[j] != Tok::Hole(k) by {
            if j < ts.len() - 1 {
                assert(ts.drop_last()[j] == ts[j]);
            }
        }
    }
}

/// Counting over the slots after one slot is replaced.
pub proof fn lemma_slots_hole_count_update(slots: Seq<Seq<Tok>>, i: int, x: Seq<Tok>, k: usize)
    requires
        0 <= i < slots.len(),
    ensures
        slots_hole_count(slots.update(i, x), k) + hole_count(slots[i], k) == slots_hole_count(
            slots,
            k,
        ) + hole_count(x, k),
    decreases slots.len(),
{
    let u = slots.update(i, x);
    if i == slots.len() - 1 {
        assert(u.drop_last() =~= slots.drop_last());
    } else {
        lemma_slots_hole_count_update(slots.drop_last(), i, x, k);
        assert(u.drop_last() =~= slots.drop_last().update(i, x));
        assert(u.last() == slots.last());
    }
}

/// Counting over the slots after one more is added.
pub proof fn lemma_slots_hole_count_push(slots: Seq<Seq<Tok>>, x: Seq<Tok>, k: usize)
    ensures
        slots_hole_count(slots.push(x), k) == slots_hole_count(slots, k) + hole_count(x, k),
{
    assert(slots.push(x).drop_last() =~= slots);
}

/// Slots whose holes each name a later slot hold none for a slot past them.
pub proof fn lemma_slots_hole_count_past(slots: Seq<Seq<Tok>>, k: usize)
    requires
        forall|j: int| 0 <= j < slots.len() ==> refs_within(#[trigger] slots[j], j + 1, k as int),
    ensures
        slots_hole_count(slots, k) == 0,
    decreases slots.len(),
{
    if slots.len() > 0 {
        let d = slots.drop_last();
        assert forall|j: int| 0 <= j < d.len() implies refs_within(#[trigger] d[j], j + 1, k as int) by {
            assert(d[j] == slots[j]);
        }
        lemma_slots_hole_count_past(d, k);
        assert(refs_within(slots[slots.len() - 1], slots.len() as int, k as int));
        lemma_hole_count_outside(slots.last(), slots.len() as int, k as int, k);
    }
}

/// Slots without a hole for slot `k`, together, hold none in any of them.
pub proof fn lemma_slots_hole_count_zero(slots: Seq<Seq<Tok>>, k: usize)
    requires
        slots_hole_count(slots, k) == 0,
    ensures
        forall|j: int| 0 <= j < slots.len() ==> hole_count(#[trigger] slots[j], k) == 0,
    decreases slots.len(),
{
    if slots.len() > 0 {
        lemma_slots_hole_count_zero(slots.drop_last(), k);
        assert forall|j: int| 0 <= j < slots.len() implies hole_count(#[trigger] slots[j], k) == 0 by {
            if j < slots.len() - 1 {
                assert(slots.drop_last()[j] == slots[j]);
            }
        }
    }
}

/// The output units of each slot.
pub open spec fn slot_toks(slots: Seq<Vec<Part>>) -> Seq<Seq<Tok>> {
    slots.map_values(|v: Vec<Part>| toks(v@))
}

/// Pushing a part appends its units.
pub proof fn lemma_toks_push(parts: Seq<Part>, p: Part)
    ensures
        toks(parts.push(p)) == toks(parts) + part_toks(p),
{
    assert(parts.push(p).drop_last() =~= parts);
}

/// The units of joined text are the joined units.
pub proof fn lemma_char_toks_concat(a: Seq<char>, b: Seq<char>)
    ensures
        char_toks(a + b) == char_toks(a) + char_toks(b),
{
    assert(char_toks(a + b) =~= char_toks(a) + char_toks(b));
}

/// Expansion distributes over joined unit lists.
pub proof fn lemma_expand_concat(a: Seq<Tok>, b: Seq<Tok>, slots: Seq<Seq<Tok>>, lo: int)
    ensures
        expand(a + b, slots, lo) == expand(a, slots, lo) + expand(b, slots, lo),
    decreases b.len(),
{
    if b.len() == 0 {
        assert(a + b =~= a);
    } else {
        lemma_expand_concat(a, b.drop_last(), slots, lo);
        assert((a + b).drop_last() =~= a + b.drop_last());
        assert((a + b).last() == b.last());
    }
}

/// Units made of characters expand to those characters.
pub proof fn lemma_expand_char_toks(s: Seq<char>, slots: Seq<Seq<Tok>>, lo: int)
    ensures
        expand(char_toks(s), slots, lo) == s,
    decreases s.len(),
{
    if s.len() > 0 {
        lemma_expand_char_toks(s.drop_last(), slots, lo);
        assert forall|i: int| 0 <= i < s.len() - 1 implies char_toks(s).drop_last()[i] == char_toks(
            s.drop_last(),
        )[i] by {
            assert(char_toks(s)[i] == Tok::Char(s[i]));
            assert(char_toks(s.drop_last())[i] == Tok::Char(s.drop_last()[i]));
        }
        assert(char_toks(s).drop_last() =~= char_toks(s.drop_last()));
        assert(char_toks(s).last() == Tok::Char(s.last()));
        assert(s.drop_last().push(s.last()) =~= s);
    }
}

/// Two unit lists whose holes lie in a range join into one whose holes do.
pub proof fn lemma_refs_concat(a: Seq<Tok>, b: Seq<Tok>, lo: int, hi: int)
    requires
        refs_within(a, lo, hi),
        refs_within(b, lo, hi),
    ensures
        refs_within(a + b, lo, hi),
{
    assert forall|k: int| 0 <= k < (a + b).len() implies (#[trigger] (a + b)[k] matches Tok::Hole(
        j,
    ) ==> lo <= j < hi) by {
        if k < a.len() {
            assert((a + b)[k] == a[k]);
        } else {
            assert((a + b)[k] == b[k - a.len()]);
        }
    }
}

/// Units made of characters hold no hole.
pub proof fn lemma_refs_char_toks(s: Seq<char>, lo: int, hi: int)
    ensures
        refs_within(char_toks(s), lo, hi),
{
    assert forall|k: int| 0 <= k < char_toks(s).len() implies (#[trigger] char_toks(s)[k] matches Tok::Hole(
        j,
    ) ==> lo <= j < hi) by {
        assert(char_toks(s)[k] == Tok::Char(s[k]));
    }
}

/// Expansion reads only the slots from `lo` on.
pub proof fn lemma_expand_agree(ts: Seq<Tok>, s1: Seq<Seq<Tok>>, s2: Seq<Seq<Tok>>, lo: int)
    requires
        s1.len() == s2.len(),
        forall|j: int| lo <= j < s1.len() ==> s1[j] == s2[j],
    ensures
        expand(ts, s1, lo) == expand(ts, s2, lo),
    decreases s1.len() - lo, ts.len(),
{
    if ts.len() > 0 {
        lemma_expand_agree(ts.drop_last(), s1, s2, lo);
        if let Tok::Hole(j) = ts.last() {
            if lo <= j < s1.len() {
                lemma_expand_agree(s1[j as int], s1, s2, j + 1);
            }
        }
    }
}

/// A new slot at the end changes no expansion of units that name only
/// earlier slots.
pub proof fn lemma_expand_push(ts: Seq<Tok>, slots: Seq<Seq<Tok>>, x: Seq<Tok>, lo: int)
    requires
        slots_wf(slots),
        refs_within(ts, lo, slots.len() as int),
        lo >= 0,
    ensures
        expand(ts, slots.push(x), lo) == expand(ts, slots, lo),
    decreases slots.len() - lo, ts.len(),
{
    if ts.len() > 0 {
        assert forall|k: int| 0 <= k < ts.drop_last().len() implies (
        #[trigger] ts.drop_last()[k] matches Tok::Hole(j) ==> lo <= j < slots.len()) by {
            assert(ts.drop_last()[k] == ts[k]);
        }
        lemma_expand_push(ts.drop_last(), slots, x, lo);
        assert(ts[ts.len() - 1] == ts.last());
        if let Tok::Hole(j) = ts.last() {
            assert(lo <= j < slots.len());
            assert(slots.push(x)[j as int] == slots[j as int]);
            assert(refs_within(slots[j as int], j + 1, slots.len() as int));
            lemma_expand_push(slots[j as int], slots, x, j + 1);
        }
    }
}

/// A part list without empty text parts and without two text parts in a row.
pub open spec fn parts_tidy(p: Seq<Part>) -> bool {
    &&& forall|i: int| 0 <= i < p.len() ==> (#[trigger] p[i] matches Part::Str(t) ==> t@.len() > 0)
    &&& forall|i: int| 0 <= i < p.len() - 1 ==> !(#[trigger] p[i] is Str && p[i + 1] is Str)
}

/// Appends text to a part list, extending its last text part when there is
/// one.
pub fn append_text(parts: &mut Vec<Part>, s: &str)
    ensures
        toks(final(parts)@) == toks(old(parts)@) + char_toks(s@),
        s@.len() == 0 ==> final(parts)@ == old(parts)@,
        s@.len() > 0 && old(parts)@.len() > 0 && old(parts)@.last() is Str ==> {
            &&& final(parts)@.len() == old(parts)@.len()
            &&& final(parts)@.drop_last() == old(parts)@.drop_last()
            &&& final(parts)@.last() matches Part::Str(t) && old(parts)@.last() matches Part::Str(
                u,
            ) && t@ == u@ + s@
        },
        s@.len() > 0 && !(old(parts)@.len() > 0 && old(parts)@.last() is Str) ==> {
            &&& final(parts)@.len() == old(parts)@.len() + 1
            &&& final(parts)@.drop_last() == old(parts)@
            &&& final(parts)@.last() matches Part::Str(t) && t@ == s@
        },
        parts_tidy(old(parts)@) ==> parts_tidy(final(parts)@),
{
    if s.is_empty() {
        assert(s@.len() == 0);
        assert(char_toks(s@).len() == 0);
        assert(char_toks(s@) =~= Seq::<Tok>::empty());
        assert(toks(parts@) + char_toks(s@) =~= toks(parts@));
        return;
    }
    match parts.pop() {
        Some(Part::Str(mut buf)) => {
            let ghost b = buf@;
            buf.append(s);
            let ghost rest = parts@;
            parts.push(Part::Str(buf));
            proof {
                lemma_toks_push(old(parts)@.drop_last(), old(parts)@.last());
                lemma_toks_push(rest, Part::Str(buf));
                lemma_char_toks_concat(b, s@);
                assert(old(parts)@.drop_last() =~= rest);
            }
        },
        Some(other) => {
            let ghost rest = parts@;
            parts.push(other);
            let ghost mid = parts@;
            let t = String::from_str(s);
            let ghost tp = Part::Str(t);
            parts.push(Part::Str(t));
            proof {
                assert(mid =~= old(parts)@);
                lemma_toks_push(mid, tp);
            }
        },
        None => {
            let t = String::from_str(s);
            let ghost tp = Part::Str(t);
            parts.push(Part::Str(t));
            proof {
                assert(old(parts)@ =~= Seq::<Part>::empty());
                lemma_toks_push(Seq::<Part>::empty(), tp);
            }
        },
    }
}

/// The units of joined part lists are the joined units.
pub proof fn lemma_toks_concat(a: Seq<Part>, b: Seq<Part>)
    ensures
        toks(a + b) == toks(a) + toks(b),
    decreases b.len(),
{
    if b.len() == 0 {
        assert(a + b =~= a);
    } else {
        lemma_toks_concat(a, b.drop_last());
        assert((a + b).drop_last() =~= a + b.drop_last());
        assert((a + b).last() == b.last());
    }
}

/// A part list's units split at any part boundary.
pub proof fn lemma_toks_split(p: Seq<Part>, k: int)
    requires
        0 <= k < p.len(),
    ensures
        toks(p) == toks(p.take(k)) + part_toks(p[k]) + toks(p.skip(k + 1)),
        toks(p.take(k + 1)) == toks(p.take(k)) + part_toks(p[k]),
{
    assert(p =~= p.take(k + 1) + p.skip(k + 1));
    lemma_toks_concat(p.take(k + 1), p.skip(k + 1));
    assert(p.take(k + 1) =~= p.take(k).push(p[k]));
    lemma_toks_push(p.take(k), p[k]);
}

/// A hole named by some part lies where the unit list says holes lie.
pub proof fn lemma_slot_part_within(p: Seq<Part>, k: int, lo: int, hi: int)
    requires
        0 <= k < p.len(),
        refs_within(toks(p), lo, hi),
        p[k] matches Part::Slot(_),
    ensures
        p[k] matches Part::Slot(j) && lo <= j < hi,
{
    lemma_toks_split(p, k);
    let pre = toks(p.take(k));
    assert(toks(p)[pre.len() as int] == part_toks(p[k])[0]);
}

/// The text of the parts, each hole replaced by its slot's text.
pub fn flatten(parts: &Vec<Part>, slots: &Vec<Vec<Part>>, lo: usize, out: &mut String)
    requires
        slots_wf(slot_toks(slots@)),
        refs_within(toks(parts@), lo as int, slots.len() as int),
    ensures
        final(out)@ == old(out)@ + expand(toks(parts@), slot_toks(slots@), lo as int),
    decreases slots.len() - lo,
{
    let ghost st = slot_toks(slots@);
    let ghost start = out@;
    let mut k: usize = 0;
    while k < parts.len()
        invariant
            k <= parts.len(),
            st == slot_toks(slots@),
            slots_wf(st),
            refs_within(toks(parts@), lo as int, slots.len() as int),
            out@ == start + expand(toks(parts@.take(k as int)), st, lo as int),
        decreases parts.len() - k,
    {
        proof {
            lemma_toks_split(parts@, k as int);
            lemma_expand_concat(toks(parts@.take(k as int)), part_toks(parts@[k as int]), st, lo as int);
        }
        match &parts[k] {
            Part::Str(s) => {
                out.append(s.as_str());
                proof {
                    lemma_expand_char_toks(s@, st, lo as int);
                }
            },
            Part::Slot(i) => {
                proof {
                    lemma_slot_part_within(parts@, k as int, lo as int, slots.len() as int);
                    assert(st[*i as int] == toks(slots@[*i as int]@));
                    assert(refs_within(st[*i as int], *i + 1, slots.len() as int));
                    let one = seq![Tok::Hole(*i)];
                    assert(one.drop_last() =~= Seq::<Tok>::empty());
                    assert(one.last() == Tok::Hole(*i));
                    assert(st.len() == slots.len());
                    assert(lo <= *i < slots.len());
                    assert(expand(Seq::<Tok>::empty(), st, lo as int) =~= Seq::<char>::empty());
                    assert(expand(one, st, lo as int) == expand(st[*i as int], st, *i + 1));
                }
                flatten(&slots[*i], slots, *i + 1, out);
            },
        }
        k += 1;
    }
    assert(parts@.take(parts.len() as int) =~= parts@);
}

} // verus!
