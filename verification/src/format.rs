//! Property-name conversion, XML escaping and attribute formatting.

use vstd::prelude::*;
use crate::text::{
    chars_of, has_char, join_spaced, lemma_map_chars_agree, lemma_map_chars_excludes,
    lemma_map_chars_identity, lemma_replace_front, lemma_replace_map, lemma_replace_near_miss,
    lemma_replace_skips, replace_all,
    lemma_map_chars_len, lemma_map_chars_step, map_chars, push_char, push_chars,
};

verus! {

// ---------------------------------------------------------------- names

/// `s` without its leading underscores.
pub open spec fn strip_leading_underscores(s: Seq<char>) -> Seq<char>
    decreases s.len(),
{
    if s.len() > 0 && s[0] == '_' {
        strip_leading_underscores(s.drop_first())
    } else {
        s
    }
}

/// `s` without its trailing underscores.
pub open spec fn strip_trailing_underscores(s: Seq<char>) -> Seq<char>
    decreases s.len(),
{
    if s.len() > 0 && s.last() == '_' {
        strip_trailing_underscores(s.drop_last())
    } else {
        s
    }
}

/// The image of one character when underscores become dashes.
pub open spec fn dash_for_underscore(c: char) -> Seq<char> {
    if c == '_' {
        seq!['-']
    } else {
        seq![c]
    }
}

/// Replacing every underscore by a dash, as a character mapping.
pub open spec fn dasher() -> spec_fn(char) -> Seq<char> {
    |c: char| dash_for_underscore(c)
}

/// The default conversion of a property name into an attribute name: a name
/// that starts or ends with an underscore loses its leading and trailing
/// underscores; any other name has its underscores replaced by dashes.
pub open spec fn format_name_spec(name: Seq<char>) -> Seq<char> {
    if name.len() == 0 {
        Seq::empty()
    } else if name[0] == '_' || name.last() == '_' {
        strip_trailing_underscores(strip_leading_underscores(name))
    } else {
        map_chars(name, dasher())
    }
}

proof fn lemma_strip_leading_skip(v: Seq<char>, i: int)
    requires
        0 <= i < v.len(),
        v[i] == '_',
    ensures
        strip_leading_underscores(v.subrange(i, v.len() as int))
            == strip_leading_underscores(v.subrange(i + 1, v.len() as int)),
{
    assert(v.subrange(i, v.len() as int).drop_first() =~= v.subrange(i + 1, v.len() as int));
}

proof fn lemma_strip_trailing_skip(v: Seq<char>, i: int, j: int)
    requires
        0 <= i < j <= v.len(),
        v[j - 1] == '_',
    ensures
        strip_trailing_underscores(v.subrange(i, j)) == strip_trailing_underscores(
            v.subrange(i, j - 1),
        ),
{
    assert(v.subrange(i, j).drop_last() =~= v.subrange(i, j - 1));
}

/// Default property-name conversion (the one of the Python `Formatter`).
pub fn format_name(name: &str) -> (r: String)
    ensures
        r@ == format_name_spec(name@),
{
    let v = chars_of(name);
    let n = v.len();
    let mut out = String::new();
    if n == 0 {
        return out;
    }
    let first = v[0];
    let last = v[n - 1];
    if first == '_' || last == '_' {
        let mut i: usize = 0;
        assert(v@.subrange(0, n as int) =~= v@);
        while i < n && v[i] == '_'
            invariant
                i <= n == v.len(),
                strip_leading_underscores(v@) == strip_leading_underscores(
                    v@.subrange(i as int, n as int),
                ),
            decreases n - i,
        {
            proof {
                lemma_strip_leading_skip(v@, i as int);
            }
            i += 1;
        }
        assert(strip_leading_underscores(v@) == v@.subrange(i as int, n as int));
        let mut j: usize = n;
        while j > i && v[j - 1] == '_'
            invariant
                i <= j <= n == v.len(),
                strip_trailing_underscores(v@.subrange(i as int, n as int))
                    == strip_trailing_underscores(v@.subrange(i as int, j as int)),
            decreases j,
        {
            proof {
                lemma_strip_trailing_skip(v@, i as int, j as int);
            }
            j -= 1;
        }
        push_chars(&mut out, &v, i, j);
        assert(out@ =~= v@.subrange(i as int, j as int));
        out
    } else {
        let mut k: usize = 0;
        while k < n
            invariant
                k <= n == v.len(),
                out@ == map_chars(v@.take(k as int), dasher()),
            decreases n - k,
        {
            let c = v[k];
            proof {
                lemma_map_chars_step(v@, dasher(), k as int);
            }
            if c == '_' {
                push_char(&mut out, '-');
            } else {
                push_char(&mut out, c);
            }
            assert(out@ =~= map_chars(v@.take(k + 1), dasher()));
            k += 1;
        }
        assert(v@.take(n as int) =~= v@);
        out
    }
}

// ---------------------------------------------------------------- escaping

/// The entity `&amp;`.
pub open spec fn amp_entity() -> Seq<char> {
    seq!['&', 'a', 'm', 'p', ';']
}

/// The entity `&gt;`.
pub open spec fn gt_entity() -> Seq<char> {
    seq!['&', 'g', 't', ';']
}

/// The entity `&lt;`.
pub open spec fn lt_entity() -> Seq<char> {
    seq!['&', 'l', 't', ';']
}

/// How XML text escaping writes one character.
pub open spec fn escape_char(c: char) -> Seq<char> {
    if c == '&' {
        amp_entity()
    } else if c == '>' {
        gt_entity()
    } else if c == '<' {
        lt_entity()
    } else {
        seq![c]
    }
}

/// XML text escaping as a character mapping.
pub open spec fn xml_escaper() -> spec_fn(char) -> Seq<char> {
    |c: char| escape_char(c)
}

/// `s` with `&`, `>` and `<` replaced by their entities.
pub open spec fn xml_escape_spec(s: Seq<char>) -> Seq<char> {
    map_chars(s, xml_escaper())
}

/// Escapes `&`, `>` and `<`, as `xml.sax.saxutils.escape` does.
pub fn xml_escape(s: &str) -> (r: String)
    ensures
        r@ == xml_escape_spec(s@),
{
    let v = chars_of(s);
    let mut out = String::new();
    let mut k: usize = 0;
    while k < v.len()
        invariant
            k <= v.len(),
            v@ == s@,
            out@ == map_chars(v@.take(k as int), xml_escaper()),
        decreases v.len() - k,
    {
        let c = v[k];
        proof {
            lemma_map_chars_step(v@, xml_escaper(), k as int);
            reveal_strlit("&amp;");
            reveal_strlit("&gt;");
            reveal_strlit("&lt;");
        }
        if c == '&' {
            out.append("&amp;");
        } else if c == '>' {
            out.append("&gt;");
        } else if c == '<' {
            out.append("&lt;");
        } else {
            push_char(&mut out, c);
        }
        assert(out@ =~= map_chars(v@.take(k + 1), xml_escaper()));
        k += 1;
    }
    assert(v@.take(v.len() as int) =~= v@);
    out
}

/// How an attribute value writes one character; `quot` tells whether double
/// quotes are escaped too.
pub open spec fn attr_escape_char(c: char, quot: bool) -> Seq<char> {
    if c == '&' {
        amp_entity()
    } else if c == '>' {
        gt_entity()
    } else if c == '<' {
        lt_entity()
    } else if c == '\n' {
        seq!['&', '#', '1', '0', ';']
    } else if c == '\r' {
        seq!['&', '#', '1', '3', ';']
    } else if c == '\t' {
        seq!['&', '#', '9', ';']
    } else if quot && c == '"' {
        seq!['&', 'q', 'u', 'o', 't', ';']
    } else {
        seq![c]
    }
}

/// Attribute-value escaping as a character mapping.
pub open spec fn attr_escaper(quot: bool) -> spec_fn(char) -> Seq<char> {
    |c: char| attr_escape_char(c, quot)
}

/// The quoted attribute value of `s`, as `xml.sax.saxutils.quoteattr` makes
/// it: `&`, `<`, `>`, newline, carriage return and tab become entities; the
/// value is wrapped in double quotes unless it holds a double quote and no
/// single quote, in which case single quotes wrap it; when it holds both,
/// double quotes wrap it and its double quotes become `&quot;`.
pub open spec fn quoteattr_spec(s: Seq<char>) -> Seq<char> {
    if s.contains('"') {
        if s.contains('\'') {
            seq!['"'] + map_chars(s, attr_escaper(true)) + seq!['"']
        } else {
            seq!['\''] + map_chars(s, attr_escaper(false)) + seq!['\'']
        }
    } else {
        seq!['"'] + map_chars(s, attr_escaper(false)) + seq!['"']
    }
}

fn push_attr_body(out: &mut String, v: &Vec<char>, quot: bool)
    ensures
        final(out)@ == old(out)@ + map_chars(v@, attr_escaper(quot)),
{
    let ghost start = out@;
    let mut k: usize = 0;
    while k < v.len()
        invariant
            k <= v.len(),
            out@ == start + map_chars(v@.take(k as int), attr_escaper(quot)),
        decreases v.len() - k,
    {
        let c = v[k];
        proof {
            lemma_map_chars_step(v@, attr_escaper(quot), k as int);
            reveal_strlit("&amp;");
            reveal_strlit("&gt;");
            reveal_strlit("&lt;");
            reveal_strlit("&#10;");
            reveal_strlit("&#13;");
            reveal_strlit("&#9;");
            reveal_strlit("&quot;");
        }
        if c == '&' {
            out.append("&amp;");
        } else if c == '>' {
            out.append("&gt;");
        } else if c == '<' {
            out.append("&lt;");
        } else if c == '\n' {
            out.append("&#10;");
        } else if c == '\r' {
            out.append("&#13;");
        } else if c == '\t' {
            out.append("&#9;");
        } else if quot && c == '"' {
            out.append("&quot;");
        } else {
            push_char(out, c);
        }
        assert(out@ =~= start + map_chars(v@.take(k + 1), attr_escaper(quot)));
        k += 1;
    }
    assert(v@.take(v.len() as int) =~= v@);
}

/// Same quoting as `xml.sax.saxutils.quoteattr`.
pub fn quoteattr(s: &str) -> (r: String)
    ensures
        r@ == quoteattr_spec(s@),
{
    let v = chars_of(s);
    let dq = has_char(&v, '"');
    let sq = has_char(&v, '\'');
    let mut out = String::new();
    if dq && !sq {
        push_char(&mut out, '\'');
        push_attr_body(&mut out, &v, false);
        push_char(&mut out, '\'');
    } else {
        push_char(&mut out, '"');
        push_attr_body(&mut out, &v, dq);
        push_char(&mut out, '"');
    }
    assert(out@ =~= quoteattr_spec(s@));
    out
}

// ---------------------------------------------------------------- values

/// What the default formatter reads of a property value.
pub enum PropValue {
    /// Python `None`.
    Missing,
    /// The `XBool.true` marker.
    XBoolTrue,
    /// The `XBool.false` marker.
    XBoolFalse,
    /// A value whose exact type is `bool`.
    Bool(bool),
    /// Any other value, by its text: a `str` itself, the ISO form of a date or
    /// datetime, the JSON form of a dict, list, tuple or set, or `str(value)`.
    Text(String),
}

/// The text the default formatter gives a value, or `None` when the property
/// is skipped.
pub open spec fn format_value_spec(v: PropValue) -> Option<Seq<char>> {
    match v {
        PropValue::Missing => None,
        PropValue::XBoolTrue => Some(Seq::empty()),
        PropValue::XBoolFalse => None,
        PropValue::Bool(b) => Some(
            if b {
                seq!['t', 'r', 'u', 'e']
            } else {
                seq!['f', 'a', 'l', 's', 'e']
            },
        ),
        PropValue::Text(s) => Some(s@),
    }
}

/// Default value rules: `None` means skip the property.
pub fn format_value(value: &PropValue) -> (r: Option<String>)
    ensures
        r is None <==> format_value_spec(*value) is None,
        r matches Some(s) ==> Some(s@) == format_value_spec(*value),
{
    match value {
        PropValue::Missing => None,
        PropValue::XBoolTrue => Some(String::new()),
        PropValue::XBoolFalse => None,
        PropValue::Bool(b) => {
            let mut s = String::new();
            if *b {
                s.append("true");
                proof {
                    reveal_strlit("true");
                }
                assert(s@ =~= seq!['t', 'r', 'u', 'e']);
            } else {
                s.append("false");
                proof {
                    reveal_strlit("false");
                }
                assert(s@ =~= seq!['f', 'a', 'l', 's', 'e']);
            }
            Some(s)
        },
        PropValue::Text(t) => Some(t.clone()),
    }
}

/// What the default formatter tells of a value by its exact type, before
/// reading it.
pub struct ValueKind {
    /// The value is `None`.
    pub is_none: bool,
    /// Its type is `XBool`.
    pub is_xbool: bool,
    /// It is `XBool.true`.
    pub is_xbool_true: bool,
    /// Its exact type is `bool`.
    pub is_bool: bool,
    /// Its truth, when its exact type is `bool`.
    pub bool_value: bool,
    /// Its type is `datetime` or `date`.
    pub is_date: bool,
    /// Its exact type is `dict`, `list` or `tuple`.
    pub is_json: bool,
    /// Its exact type is `set`.
    pub is_set: bool,
    /// Its exact type is `str`.
    pub is_str: bool,
}

/// How the default formatter turns a value into text.
pub enum ValueRule {
    /// Skip the property.
    Missing,
    /// An empty value (`XBool.true`).
    XBoolTrue,
    /// Skip the property (`XBool.false`).
    XBoolFalse,
    /// `true` or `false`.
    Bool(bool),
    /// The value's `isoformat()`.
    IsoFormat,
    /// `json.dumps` of the value.
    Json,
    /// `json.dumps` of the set's items as a tuple.
    JsonOfSet,
    /// The string itself.
    AsIs,
    /// `str(value)`.
    StrOf,
}

/// The rule for a value: the first of its type tests that holds, in the
/// order `None`, `XBool`, `bool`, date or datetime, dict/list/tuple, set,
/// `str`, anything else.
pub open spec fn value_rule_spec(k: ValueKind) -> ValueRule {
    if k.is_none {
        ValueRule::Missing
    } else if k.is_xbool {
        if k.is_xbool_true {
            ValueRule::XBoolTrue
        } else {
            ValueRule::XBoolFalse
        }
    } else if k.is_bool {
        ValueRule::Bool(k.bool_value)
    } else if k.is_date {
        ValueRule::IsoFormat
    } else if k.is_json {
        ValueRule::Json
    } else if k.is_set {
        ValueRule::JsonOfSet
    } else if k.is_str {
        ValueRule::AsIs
    } else {
        ValueRule::StrOf
    }
}

/// Picks how the default formatter turns a value into text.
pub fn value_rule(k: &ValueKind) -> (r: ValueRule)
    ensures
        r == value_rule_spec(*k),
{
    if k.is_none {
        ValueRule::Missing
    } else if k.is_xbool {
        if k.is_xbool_true {
            ValueRule::XBoolTrue
        } else {
            ValueRule::XBoolFalse
        }
    } else if k.is_bool {
        ValueRule::Bool(k.bool_value)
    } else if k.is_date {
        ValueRule::IsoFormat
    } else if k.is_json {
        ValueRule::Json
    } else if k.is_set {
        ValueRule::JsonOfSet
    } else if k.is_str {
        ValueRule::AsIs
    } else {
        ValueRule::StrOf
    }
}

/// The formatted attribute `name="value"` of a property, or `None` when the
/// property is skipped.
pub open spec fn format_attr_spec(name: Seq<char>, value: PropValue) -> Option<Seq<char>> {
    match format_value_spec(value) {
        None => None,
        Some(v) => Some(format_name_spec(name) + seq!['='] + quoteattr_spec(v)),
    }
}

/// Formats one attribute; `None` means skip it.
pub fn format_attr(name: &str, value: &PropValue) -> (r: Option<String>)
    ensures
        r is None <==> format_attr_spec(name@, *value) is None,
        r matches Some(s) ==> Some(s@) == format_attr_spec(name@, *value),
{
    match format_value(value) {
        None => None,
        Some(v) => {
            let mut out = format_name(name);
            push_char(&mut out, '=');
            let q = quoteattr(v.as_str());
            out.append(q.as_str());
            Some(out)
        },
    }
}

/// One property as it reaches the attribute list: the text a user formatter
/// gave it, or its name and value for the default rules.
pub enum PropText {
    Custom(String),
    Standard { name: String, value: PropValue },
}

/// The text one property contributes to the attribute list (empty when the
/// default rules skip it).
pub open spec fn prop_piece(p: PropText) -> Seq<char> {
    match p {
        PropText::Custom(s) => s@,
        PropText::Standard { name, value } => match format_attr_spec(name@, value) {
            Some(t) => t,
            None => Seq::empty(),
        },
    }
}

/// The pieces of a property list.
pub open spec fn prop_pieces(props: Seq<PropText>) -> Seq<Seq<char>> {
    props.map_values(|p: PropText| prop_piece(p))
}

/// Appends the properties separated by single spaces; a skipped property
/// still takes its place between spaces.
pub fn write_props(buf: &mut String, props: &Vec<PropText>)
    ensures
        final(buf)@ == old(buf)@ + join_spaced(prop_pieces(props@)),
{
    let ghost start = buf@;
    let mut i: usize = 0;
    while i < props.len()
        invariant
            i <= props.len(),
            buf@ == start + join_spaced(prop_pieces(props@.take(i as int))),
        decreases props.len() - i,
    {
        if i > 0 {
            push_char(buf, ' ');
        }
        match &props[i] {
            PropText::Custom(s) => {
                buf.append(s.as_str());
            },
            PropText::Standard { name, value } => {
                if let Some(formatted) = format_attr(name.as_str(), value) {
                    buf.append(formatted.as_str());
                }
            },
        }
        proof {
            let pp = prop_pieces(props@.take(i + 1));
            assert(pp.drop_last() =~= prop_pieces(props@.take(i as int)));
            assert(pp.last() == prop_piece(props@[i as int]));
            if i == 0 {
                assert(pp =~= seq![prop_piece(props@[0])]);
            }
        }
        assert(buf@ =~= start + join_spaced(prop_pieces(props@.take(i + 1))));
        i += 1;
    }
    assert(props@.take(props.len() as int) =~= props@);
}

} // verus!

verus! {

// ---------------------------------------------------------------- laws

/// A character that occurs in no entity the escaping writes.
pub open spec fn outside_entities(x: char) -> bool {
    x != '&' && x != 'a' && x != 'm' && x != 'p' && x != ';' && x != 'g' && x != 't' && x != 'l'
        && x != '#' && x != '1' && x != '0' && x != '3' && x != '9' && x != 'q' && x != 'u'
        && x != 'o'
}

proof fn lemma_attr_image_holds(c: char, quot: bool, x: char)
    requires
        outside_entities(x),
        attr_escape_char(c, quot).contains(x),
    ensures
        attr_escape_char(c, quot) == seq![c],
        c == x,
{
    let img = attr_escape_char(c, quot);
    let i = choose|i: int| 0 <= i < img.len() && img[i] == x;
    if img != seq![c] {
        assert(img[i] == x);
        assert(false);
    }
}

proof fn lemma_escape_image_holds(c: char, x: char)
    requires
        outside_entities(x),
        escape_char(c).contains(x),
    ensures
        escape_char(c) == seq![c],
        c == x,
{
    let img = escape_char(c);
    let i = choose|i: int| 0 <= i < img.len() && img[i] == x;
    if img != seq![c] {
        assert(img[i] == x);
        assert(false);
    }
}

/// Escaped text holds no angle bracket.
pub proof fn law_xml_escape_no_angle_brackets(s: Seq<char>)
    ensures
        !xml_escape_spec(s).contains('<'),
        !xml_escape_spec(s).contains('>'),
{
    assert forall|i: int| 0 <= i < s.len() implies !(#[trigger] xml_escaper()(s[i])).contains(
        '<',
    ) by {
        if escape_char(s[i]).contains('<') {
            lemma_escape_image_holds(s[i], '<');
        }
    }
    lemma_map_chars_excludes(s, xml_escaper(), '<');
    assert forall|i: int| 0 <= i < s.len() implies !(#[trigger] xml_escaper()(s[i])).contains(
        '>',
    ) by {
        if escape_char(s[i]).contains('>') {
            lemma_escape_image_holds(s[i], '>');
        }
    }
    lemma_map_chars_excludes(s, xml_escaper(), '>');
}

/// Text without `&`, `<` or `>` is left as it is by escaping.
pub proof fn law_xml_escape_plain_unchanged(s: Seq<char>)
    requires
        !s.contains('&'),
        !s.contains('<'),
        !s.contains('>'),
    ensures
        xml_escape_spec(s) == s,
{
    assert forall|i: int| 0 <= i < s.len() implies #[trigger] xml_escaper()(s[i]) == seq![s[i]] by {
        assert(s.contains(s[i]));
    }
    lemma_map_chars_identity(s, xml_escaper());
}

/// Unescaping as `xml.sax.saxutils.unescape` does it: `&lt;`, then `&gt;`,
/// then `&amp;` replaced by the character they stand for.
pub open spec fn xml_unescape_spec(s: Seq<char>) -> Seq<char> {
    replace_all(
        replace_all(replace_all(s, lt_entity(), seq!['<']), gt_entity(), seq!['>']),
        amp_entity(),
        seq!['&'],
    )
}

/// Escaping with `<` left as it is.
spec fn keep_lt() -> spec_fn(char) -> Seq<char> {
    |c: char| if c == '&' {
        amp_entity()
    } else if c == '>' {
        gt_entity()
    } else {
        seq![c]
    }
}

/// Escaping of `&` alone.
spec fn amp_only() -> spec_fn(char) -> Seq<char> {
    |c: char| if c == '&' {
        amp_entity()
    } else {
        seq![c]
    }
}

/// The identity as a character mapping.
spec fn same_char() -> spec_fn(char) -> Seq<char> {
    |c: char| seq![c]
}

/// Unescaping gives back the text that was escaped.
pub proof fn law_xml_unescape_undoes_escape(s: Seq<char>)
    ensures
        xml_unescape_spec(xml_escape_spec(s)) == s,
{
    let lt = lt_entity();
    let gt = gt_entity();
    let amp = amp_entity();
    assert forall|c: char, y: Seq<char>| #[trigger]
        replace_all(xml_escaper()(c) + y, lt, seq!['<']) == keep_lt()(c) + replace_all(
            y,
            lt,
            seq!['<'],
        ) by {
        if c == '&' {
            lemma_replace_near_miss(amp, y, lt, seq!['<']);
        } else if c == '>' {
            lemma_replace_near_miss(gt, y, lt, seq!['<']);
        } else if c == '<' {
            lemma_replace_front(y, lt, seq!['<']);
        } else {
            lemma_replace_skips(seq![c], y, lt, seq!['<']);
        }
    }
    lemma_replace_map(s, xml_escaper(), keep_lt(), lt, seq!['<']);
    assert forall|c: char, y: Seq<char>| #[trigger]
        replace_all(keep_lt()(c) + y, gt, seq!['>']) == amp_only()(c) + replace_all(
            y,
            gt,
            seq!['>'],
        ) by {
        if c == '&' {
            lemma_replace_near_miss(amp, y, gt, seq!['>']);
        } else if c == '>' {
            lemma_replace_front(y, gt, seq!['>']);
        } else {
            lemma_replace_skips(seq![c], y, gt, seq!['>']);
        }
    }
    lemma_replace_map(s, keep_lt(), amp_only(), gt, seq!['>']);
    assert forall|c: char, y: Seq<char>| #[trigger]
        replace_all(amp_only()(c) + y, amp, seq!['&']) == same_char()(c) + replace_all(
            y,
            amp,
            seq!['&'],
        ) by {
        if c == '&' {
            lemma_replace_front(y, amp, seq!['&']);
        } else {
            lemma_replace_skips(seq![c], y, amp, seq!['&']);
        }
    }
    lemma_replace_map(s, amp_only(), same_char(), amp, seq!['&']);
    assert forall|i: int| 0 <= i < s.len() implies #[trigger] same_char()(s[i]) == seq![s[i]] by {}
    lemma_map_chars_identity(s, same_char());
}

proof fn lemma_attr_body_excludes(s: Seq<char>, quot: bool, x: char)
    requires
        outside_entities(x),
        x == '<' || x == '>' || x == '\n' || x == '\r' || x == '\t' || (x == '"' && quot)
            || !s.contains(x),
    ensures
        !map_chars(s, attr_escaper(quot)).contains(x),
{
    assert forall|i: int| 0 <= i < s.len() implies !(#[trigger] attr_escaper(quot)(
        s[i],
    )).contains(x) by {
        if attr_escape_char(s[i], quot).contains(x) {
            lemma_attr_image_holds(s[i], quot, x);
            assert(s.contains(x));
        }
    }
    lemma_map_chars_excludes(s, attr_escaper(quot), x);
}

/// A quoted attribute value opens and closes with the same quote character,
/// and between the quotes holds neither that quote nor an angle bracket,
/// newline, carriage return or tab.
pub proof fn law_quoteattr_well_quoted(s: Seq<char>)
    ensures
        ({
            let r = quoteattr_spec(s);
            let q = r[0];
            let body = r.subrange(1, r.len() - 1);
            &&& r.len() >= 2
            &&& q == '"' || q == '\''
            &&& r.last() == q
            &&& !body.contains(q)
            &&& !body.contains('<')
            &&& !body.contains('>')
            &&& !body.contains('\n')
            &&& !body.contains('\r')
            &&& !body.contains('\t')
        }),
{
    let dq = s.contains('"');
    let sq = s.contains('\'');
    let quot = dq && sq;
    let q = if dq && !sq {
        '\''
    } else {
        '"'
    };
    let body = map_chars(s, attr_escaper(quot));
    let r = seq![q] + body + seq![q];
    assert(r == quoteattr_spec(s));
    assert(r.subrange(1, r.len() - 1) =~= body);
    lemma_attr_body_excludes(s, quot, q);
    lemma_attr_body_excludes(s, quot, '<');
    lemma_attr_body_excludes(s, quot, '>');
    lemma_attr_body_excludes(s, quot, '\n');
    lemma_attr_body_excludes(s, quot, '\r');
    lemma_attr_body_excludes(s, quot, '\t');
}

/// A value without quotes, newlines, carriage returns or tabs is quoted as
/// its escaped text between double quotes.
pub proof fn law_quoteattr_plain_value(s: Seq<char>)
    requires
        !s.contains('"'),
        !s.contains('\n'),
        !s.contains('\r'),
        !s.contains('\t'),
    ensures
        quoteattr_spec(s) == seq!['"'] + xml_escape_spec(s) + seq!['"'],
{
    assert forall|i: int| 0 <= i < s.len() implies #[trigger] attr_escaper(false)(s[i])
        == xml_escaper()(s[i]) by {
        assert(s.contains(s[i]));
    }
    lemma_map_chars_agree(s, attr_escaper(false), xml_escaper());
}

/// A name that neither starts nor ends with an underscore keeps its length
/// and loses every underscore.
pub proof fn law_format_name_dashes(name: Seq<char>)
    requires
        name.len() > 0,
        name[0] != '_',
        name.last() != '_',
    ensures
        format_name_spec(name).len() == name.len(),
        !format_name_spec(name).contains('_'),
{
    assert forall|i: int| 0 <= i < name.len() implies (#[trigger] dasher()(name[i])).len()
        == 1 by {}
    lemma_map_chars_len(name, dasher());
    assert forall|i: int| 0 <= i < name.len() implies !(#[trigger] dasher()(name[i])).contains(
        '_',
    ) by {
        let img = dasher()(name[i]);
        if img.contains('_') {
            let k = choose|k: int| 0 <= k < img.len() && img[k] == '_';
            assert(img[k] == '_');
        }
    }
    lemma_map_chars_excludes(name, dasher(), '_');
}

proof fn lemma_strip_leading_shape(s: Seq<char>)
    ensures
        strip_leading_underscores(s).len() > 0 ==> strip_leading_underscores(s)[0] != '_',
    decreases s.len(),
{
    if s.len() > 0 && s[0] == '_' {
        lemma_strip_leading_shape(s.drop_first());
    }
}

proof fn lemma_strip_trailing_prefix(s: Seq<char>)
    ensures
        strip_trailing_underscores(s).len() <= s.len(),
        strip_trailing_underscores(s) == s.take(strip_trailing_underscores(s).len() as int),
        strip_trailing_underscores(s).len() > 0 ==> strip_trailing_underscores(s).last() != '_',
    decreases s.len(),
{
    if s.len() > 0 && s.last() == '_' {
        lemma_strip_trailing_prefix(s.drop_last());
        let t = strip_trailing_underscores(s.drop_last());
        assert(s.drop_last().take(t.len() as int) =~= s.take(t.len() as int));
    } else {
        assert(s.take(s.len() as int) =~= s);
    }
}

/// A name that starts or ends with an underscore comes out with neither a
/// leading nor a trailing underscore.
pub proof fn law_format_name_trims(name: Seq<char>)
    requires
        name.len() > 0,
        name[0] == '_' || name.last() == '_',
    ensures
        ({
            let r = format_name_spec(name);
            r.len() == 0 || (r[0] != '_' && r.last() != '_')
        }),
{
    let l = strip_leading_underscores(name);
    lemma_strip_leading_shape(name);
    lemma_strip_trailing_prefix(l);
    let r = strip_trailing_underscores(l);
    if r.len() > 0 {
        assert(r[0] == l.take(r.len() as int)[0]);
    }
}

/// The default rules skip a property only when its value is `None` or
/// `XBool.false`; a string value, the empty one included, is kept as it is,
/// `XBool.true` gives an empty value, and a `bool` gives `true` or `false`.
pub proof fn law_format_value_keeps_values(v: PropValue)
    ensures
        format_value_spec(v) is None <==> (v is Missing || v is XBoolFalse),
        v matches PropValue::Text(t) ==> format_value_spec(v) == Some(t@),
        v is XBoolTrue ==> format_value_spec(v) == Some(Seq::<char>::empty()),
        v == PropValue::Bool(true) ==> format_value_spec(v) == Some(seq!['t', 'r', 'u', 'e']),
        v == PropValue::Bool(false) ==> format_value_spec(v) == Some(
            seq!['f', 'a', 'l', 's', 'e'],
        ),
{
}

/// A property whose value is a string `t` is written as the formatted name,
/// `=` and the quoted `t`; an empty string gives `name=""`.
pub proof fn law_format_attr_of_text(name: Seq<char>, t: String)
    ensures
        format_attr_spec(name, PropValue::Text(t)) == Some(
            format_name_spec(name) + seq!['='] + quoteattr_spec(t@),
        ),
        t@.len() == 0 ==> format_attr_spec(name, PropValue::Text(t)) == Some(
            format_name_spec(name) + seq!['=', '"', '"'],
        ),
{
    if t@.len() == 0 {
        assert(!t@.contains('"'));
        assert(map_chars(t@, attr_escaper(false)) =~= Seq::<char>::empty());
        assert(format_name_spec(name) + seq!['='] + (seq!['"'] + Seq::<char>::empty() + seq!['"'])
            =~= format_name_spec(name) + seq!['=', '"', '"']);
    }
}

/// The rule for a value follows its type tests in order: `None` skips;
/// an `XBool` is kept empty when it is `XBool.true` and skipped otherwise; a
/// `bool` keeps its own truth; then dates, dict/list/tuple, sets, strings and
/// anything else.
pub proof fn law_value_rule_order(k: ValueKind)
    ensures
        k.is_none ==> value_rule_spec(k) == ValueRule::Missing,
        !k.is_none && k.is_xbool && k.is_xbool_true ==> value_rule_spec(k) == ValueRule::XBoolTrue,
        !k.is_none && k.is_xbool && !k.is_xbool_true ==> value_rule_spec(k)
            == ValueRule::XBoolFalse,
        !k.is_none && !k.is_xbool && k.is_bool ==> value_rule_spec(k) == ValueRule::Bool(
            k.bool_value,
        ),
        !k.is_none && !k.is_xbool && !k.is_bool && k.is_date ==> value_rule_spec(k)
            == ValueRule::IsoFormat,
        !k.is_none && !k.is_xbool && !k.is_bool && !k.is_date && k.is_json ==> value_rule_spec(k)
            == ValueRule::Json,
        !k.is_none && !k.is_xbool && !k.is_bool && !k.is_date && !k.is_json && k.is_set
            ==> value_rule_spec(k) == ValueRule::JsonOfSet,
        !k.is_none && !k.is_xbool && !k.is_bool && !k.is_date && !k.is_json && !k.is_set
            && k.is_str ==> value_rule_spec(k) == ValueRule::AsIs,
        !k.is_none && !k.is_xbool && !k.is_bool && !k.is_date && !k.is_json && !k.is_set
            && !k.is_str ==> value_rule_spec(k) == ValueRule::StrOf,
{
}

} // verus!
