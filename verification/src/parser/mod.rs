//! The `.smsg` schema parser.
//!
//! A schema is a sequence of lines. After the whole text is trimmed, each
//! line is trimmed; blank lines and lines starting with `#` are skipped.
//! `message Name {` (or `message Name` with `{` alone on the next line)
//! opens a message, whose body lines `type name` declare fields, up to a
//! line `}`. Other lines outside a message are ignored.
use vstd::prelude::*;

use crate::error::{ParseErrorView, SmsgParseError};
use crate::ir::{
    fields_view, messages_view, primitive_from_name, Field, FieldType, FieldTypeView, FieldView,
    MessageDef, MessageView, PrimitiveType, SmsgFile,
};
use crate::text::{
    chars_eq, decimal, find, find_char, is_digit, law_parse_usize_reads_decimal, lead, lead_count,
    is_whitespace, lemma_decimal_round_trip, lemma_lead, lemma_lead_is, lemma_strip_is,
    parse_usize, parse_usize_chars, split,
    split_chars, starts_with, starts_with_chars, string_of_chars, to_chars, trim, trim_chars,
    CharClass,
};

verus! {

/// What parsing one field type comes to.
pub enum FieldTypeOutcome {
    Parsed(FieldTypeView),
    Failed(ParseErrorView),
    /// The text has a `]` before its first `[`; slicing between them is not
    /// possible, and such a type is outside what the parser accepts.
    Aborted,
}

pub open spec fn invalid_array_size() -> ParseErrorView {
    ParseErrorView { message: "Invalid array size"@, line: 1, col: 1 }
}

/// The type written `s`: `base[]` or `base[n]` is an array of `base`,
/// a primitive keyword is that primitive, anything else names a message.
pub open spec fn spec_field_type(s: Seq<char>) -> FieldTypeOutcome
    decreases s.len(),
{
    match (find(s, '['), find(s, ']')) {
        (Some(a), Some(b)) => {
            if b < a {
                FieldTypeOutcome::Aborted
            } else {
                let size_text = s.subrange(a + 1, b);
                if size_text.len() > 0 && parse_usize(size_text) is None {
                    FieldTypeOutcome::Failed(invalid_array_size())
                } else {
                    let size = if size_text.len() == 0 {
                        None
                    } else {
                        parse_usize(size_text)
                    };
                    proof {
                        lemma_lead(s, CharClass::IsNot('['));
                    }
                    match spec_field_type(s.take(a)) {
                        FieldTypeOutcome::Parsed(inner) => FieldTypeOutcome::Parsed(
                            FieldTypeView::Array(Box::new(inner), size),
                        ),
                        other => other,
                    }
                }
            }
        },
        _ => match primitive_from_name(s) {
            Some(p) => FieldTypeOutcome::Parsed(FieldTypeView::Primitive(p)),
            None => FieldTypeOutcome::Parsed(FieldTypeView::Nested(s)),
        },
    }
}

/// A type text without brackets parses, to a primitive or a message name.
proof fn lemma_plain_type_parses(b: Seq<char>)
    requires
        forall|j: int| 0 <= j < b.len() ==> (#[trigger] b[j]) != '[' && b[j] != ']',
    ensures
        spec_field_type(b) is Parsed,
        !(spec_field_type(b)->Parsed_0 is Array),
{
    lemma_lead_is(b, CharClass::IsNot('['), b.len());
    lemma_lead_is(b, CharClass::IsNot(']'), b.len());
}

/// `b[...]`, for a type text `b` without brackets and a bracket text `inner`
/// without brackets, is read with `b` as its base and `inner` as its length.
proof fn lemma_bracketed(b: Seq<char>, inner: Seq<char>)
    requires
        forall|j: int| 0 <= j < b.len() ==> (#[trigger] b[j]) != '[' && b[j] != ']',
        forall|j: int| 0 <= j < inner.len() ==> (#[trigger] inner[j]) != '[' && inner[j] != ']',
    ensures
        ({
            let s = b + seq!['['] + inner + seq![']'];
            &&& find(s, '[') == Some(b.len() as int)
            &&& find(s, ']') == Some((b.len() + 1 + inner.len()) as int)
            &&& s.subrange(b.len() + 1 as int, b.len() + 1 + inner.len() as int) == inner
            &&& s.take(b.len() as int) == b
        }),
{
    let s = b + seq!['['] + inner + seq![']'];
    assert forall|j: int| 0 <= j < b.len() implies #[trigger] s[j] != '[' by {
        assert(s[j] == b[j]);
    }
    lemma_lead_is(s, CharClass::IsNot('['), b.len());
    let k: int = (b.len() + 1 + inner.len()) as int;
    assert forall|j: int| 0 <= j < k implies #[trigger] s[j] != ']' by {
        if j < b.len() {
            assert(s[j] == b[j]);
        } else if j > b.len() {
            assert(s[j] == inner[j - b.len() - 1]);
        }
    }
    lemma_lead_is(s, CharClass::IsNot(']'), k as nat);
    assert(s.subrange(b.len() + 1 as int, k) == inner);
    assert(s.take(b.len() as int) == b);
}

/// Any base type written with `[n]` after it, for any `usize` n, is an array
/// of that base type with length n; with `[]` it is an array without a
/// length. Whatever the number, no error is given.
pub proof fn law_array_type_with_length(b: Seq<char>, n: usize)
    requires
        forall|j: int| 0 <= j < b.len() ==> (#[trigger] b[j]) != '[' && b[j] != ']',
    ensures
        spec_field_type(b) is Parsed,
        spec_field_type(b + seq!['['] + decimal(n as nat) + seq![']']) == FieldTypeOutcome::Parsed(
            FieldTypeView::Array(Box::new(spec_field_type(b)->Parsed_0), Some(n)),
        ),
        spec_field_type(b + seq!['['] + seq![']']) == FieldTypeOutcome::Parsed(
            FieldTypeView::Array(Box::new(spec_field_type(b)->Parsed_0), None),
        ),
{
    lemma_plain_type_parses(b);
    let d = decimal(n as nat);
    lemma_decimal_round_trip(n as nat);
    law_parse_usize_reads_decimal(n);
    assert forall|j: int| 0 <= j < d.len() implies (#[trigger] d[j]) != '[' && d[j] != ']' by {
        assert(is_digit(d[j]));
    }
    lemma_bracketed(b, d);
    let e = Seq::<char>::empty();
    lemma_bracketed(b, e);
    assert(b + seq!['['] + e + seq![']'] == b + seq!['['] + seq![']']);
}

/// The lines of a schema: the trimmed text split at `\n`, each line trimmed.
pub open spec fn schema_lines(input: Seq<char>) -> Seq<Seq<char>> {
    let t = trim(input);
    if t.len() == 0 {
        seq![]
    } else {
        split(t, '\n').map_values(|l: Seq<char>| trim(l))
    }
}

/// The first two whitespace-separated words of `l`, where it has two.
pub open spec fn field_words(l: Seq<char>) -> Option<(Seq<char>, Seq<char>)> {
    let t1 = l.skip(lead(l, CharClass::Whitespace) as int);
    let n1 = lead(t1, CharClass::NotWhitespace);
    let w1 = t1.take(n1 as int);
    let r1 = t1.skip(n1 as int);
    let t2 = r1.skip(lead(r1, CharClass::Whitespace) as int);
    let w2 = t2.take(lead(t2, CharClass::NotWhitespace) as int);
    if w1.len() > 0 && w2.len() > 0 {
        Some((w1, w2))
    } else {
        None
    }
}

/// The name written after `message` on a header line, and whether the `{`
/// stands on that line.
pub open spec fn message_header(l: Seq<char>) -> (Seq<char>, bool) {
    let rest = trim(l.skip("message"@.len() as int));
    match find(rest, '{') {
        Some(p) => (trim(rest.take(p)), true),
        None => (trim(rest), false),
    }
}

pub open spec fn has_message_named(msgs: Seq<MessageView>, name: Seq<char>) -> bool {
    exists|k: int| 0 <= k < msgs.len() && (#[trigger] msgs[k]).name == name
}

pub open spec fn names_distinct(msgs: Seq<MessageView>) -> bool {
    forall|j: int, k: int| 0 <= j < k < msgs.len() ==> (#[trigger] msgs[j]).name != (
    #[trigger] msgs[k]).name
}

/// Where the scan of the lines stands: between messages, or inside the body
/// of the message `name` that started on line `line`.
pub enum ScanState {
    Top,
    Body { name: Seq<char>, line: nat, fields: Seq<FieldView> },
}

/// What parsing a whole schema comes to.
pub enum ParseOutcome {
    Parsed(Seq<MessageView>),
    Failed(ParseErrorView),
    /// A field type has a `]` before its first `[`.
    Aborted,
}

pub open spec fn error_at(message: Seq<char>, line: nat) -> ParseErrorView {
    ParseErrorView { message, line, col: 1 }
}

/// The scan of `lines` from line index `i` on, in state `st`, with the
/// messages `msgs` completed so far. Line numbers count from 1.
pub open spec fn parse_from(
    lines: Seq<Seq<char>>,
    i: int,
    msgs: Seq<MessageView>,
    st: ScanState,
) -> ParseOutcome
    decreases lines.len() - i,
{
    if i < 0 || i >= lines.len() {
        match st {
            ScanState::Top => ParseOutcome::Parsed(msgs),
            ScanState::Body { line, .. } => ParseOutcome::Failed(error_at("Expected '}'"@, line)),
        }
    } else {
        let l = lines[i];
        match st {
            ScanState::Top => {
                if l.len() == 0 || l[0] == '#' {
                    parse_from(lines, i + 1, msgs, ScanState::Top)
                } else if starts_with(l, "message"@) {
                    let (name, same_line) = message_header(l);
                    let num = (i + 1) as nat;
                    if name.len() == 0 {
                        ParseOutcome::Failed(error_at("Missing message name"@, num))
                    } else if has_message_named(msgs, name) {
                        ParseOutcome::Failed(
                            ParseErrorView {
                                message: "Duplicate message definition: "@ + name,
                                line: num,
                                col: 0,
                            },
                        )
                    } else if same_line {
                        parse_from(
                            lines,
                            i + 1,
                            msgs,
                            ScanState::Body { name, line: num, fields: seq![] },
                        )
                    } else if i + 1 < lines.len() && lines[i + 1] == "{"@ {
                        parse_from(
                            lines,
                            i + 2,
                            msgs,
                            ScanState::Body { name, line: num, fields: seq![] },
                        )
                    } else {
                        ParseOutcome::Failed(error_at("Expected '{'"@, num))
                    }
                } else {
                    parse_from(lines, i + 1, msgs, ScanState::Top)
                }
            },
            ScanState::Body { name, line, fields } => {
                if l == "}"@ {
                    parse_from(
                        lines,
                        i + 1,
                        msgs.push(MessageView { name, fields, line, col: 1 }),
                        ScanState::Top,
                    )
                } else if l.len() == 0 || l[0] == '#' {
                    parse_from(lines, i + 1, msgs, ScanState::Body { name, line, fields })
                } else {
                    match field_words(l) {
                        None => parse_from(
                            lines,
                            i + 1,
                            msgs,
                            ScanState::Body { name, line, fields },
                        ),
                        Some((ty, field_name)) => match spec_field_type(ty) {
                            FieldTypeOutcome::Parsed(t) => parse_from(
                                lines,
                                i + 1,
                                msgs,
                                ScanState::Body {
                                    name,
                                    line,
                                    fields: fields.push(
                                        FieldView {
                                            name: field_name,
                                            field_type: t,
                                            line: (i + 1) as nat,
                                            col: 1,
                                        },
                                    ),
                                },
                            ),
                            FieldTypeOutcome::Failed(e) => ParseOutcome::Failed(e),
                            FieldTypeOutcome::Aborted => ParseOutcome::Aborted,
                        },
                    }
                }
            },
        }
    }
}

/// What parsing the schema text `input` gives.
pub open spec fn spec_parse_smsg(input: Seq<char>) -> ParseOutcome {
    parse_from(schema_lines(input), 0, seq![], ScanState::Top)
}

/// Splits `t` at `\n` and trims each piece.
fn trimmed_lines(t: &[char]) -> (r: Vec<Vec<char>>)
    ensures
        r.len() == split(t@, '\n').len(),
        forall|j: int| 0 <= j < r.len() ==> (#[trigger] r[j])@ == trim(split(t@, '\n')[j]),
{
    let pieces = split_chars(t, '\n');
    let mut r: Vec<Vec<char>> = Vec::new();
    let mut k: usize = 0;
    while k < pieces.len()
        invariant
            pieces.len() == split(t@, '\n').len(),
            forall|j: int| 0 <= j < pieces.len() ==> (#[trigger] pieces[j])@ == split(t@, '\n')[j],
            k <= pieces.len(),
            r.len() == k,
            forall|j: int| 0 <= j < k ==> (#[trigger] r[j])@ == trim(split(t@, '\n')[j]),
        decreases pieces.len() - k,
    {
        r.push(trim_chars(pieces[k].as_slice()));
        k = k + 1;
    }
    r
}

/// The first two whitespace-separated words of `l`, where it has two.
fn field_words_of(l: &[char]) -> (r: Option<(Vec<char>, Vec<char>)>)
    ensures
        match field_words(l@) {
            Some((a, b)) => r matches Some((x, y)) && x@ == a && y@ == b,
            None => r is None,
        },
{
    let a = lead_count(l, CharClass::Whitespace);
    proof {
        lemma_lead(l@, CharClass::Whitespace);
    }
    let t1 = &l[a..l.len()];
    let n1 = lead_count(t1, CharClass::NotWhitespace);
    proof {
        lemma_lead(t1@, CharClass::NotWhitespace);
    }
    let w1 = &t1[0..n1];
    let r1 = &t1[n1..t1.len()];
    let b = lead_count(r1, CharClass::Whitespace);
    proof {
        lemma_lead(r1@, CharClass::Whitespace);
    }
    let t2 = &r1[b..r1.len()];
    let n2 = lead_count(t2, CharClass::NotWhitespace);
    proof {
        lemma_lead(t2@, CharClass::NotWhitespace);
    }
    let w2 = &t2[0..n2];
    proof {
        assert(t1@ == l@.skip(a as int));
        assert(w1@ == t1@.take(n1 as int));
        assert(r1@ == t1@.skip(n1 as int));
        assert(t2@ == r1@.skip(b as int));
        assert(w2@ == t2@.take(n2 as int));
    }
    if w1.len() > 0 && w2.len() > 0 {
        Some((vstd::slice::slice_to_vec(w1), vstd::slice::slice_to_vec(w2)))
    } else {
        None
    }
}

/// Parses the field type written `s`; `None` where it has a `]` before its
/// first `[`.
fn field_type_of(s: &[char]) -> (r: Option<Result<FieldType, SmsgParseError>>)
    ensures
        match spec_field_type(s@) {
            FieldTypeOutcome::Parsed(t) => r matches Some(Ok(ft)) && ft@ == t,
            FieldTypeOutcome::Failed(e) => r matches Some(Err(err)) && err@ == e,
            FieldTypeOutcome::Aborted => r is None,
        },
    decreases s.len(),
{
    let open = find_char(s, '[');
    let close = find_char(s, ']');
    proof {
        lemma_lead(s@, CharClass::IsNot('['));
        lemma_lead(s@, CharClass::IsNot(']'));
    }
    if let Some(a) = open {
        if let Some(b) = close {
            if b < a {
                return None;
            }
            assert(s@[a as int] == '[' && s@[b as int] == ']');
            let size_text = &s[a + 1..b];
            let size: Option<usize> = if size_text.len() == 0 {
                None
            } else {
                match parse_usize_chars(size_text) {
                    Some(v) => Some(v),
                    None => {
                        return Some(
                            Err(
                                SmsgParseError::new(String::from_str("Invalid array size"), 1, 1),
                            ),
                        );
                    },
                }
            };
            let inner = match field_type_of(&s[0..a]) {
                Some(Ok(t)) => t,
                other => {
                    return other;
                },
            };
            return Some(Ok(FieldType::Array(Box::new(inner), size)));
        }
    }
    let text = string_of_chars(s);
    match PrimitiveType::from_str(text.as_str()) {
        Some(p) => Some(Ok(FieldType::Primitive(p))),
        None => Some(Ok(FieldType::Nested(text))),
    }
}

/// Parses a field type such as `int32`, `string[]`, `float64[3]` or
/// `Position`.
pub fn parse_field_type(type_str: &str) -> (r: Result<FieldType, SmsgParseError>)
    requires
        !(spec_field_type(type_str@) is Aborted),
    ensures
        match spec_field_type(type_str@) {
            FieldTypeOutcome::Parsed(t) => r matches Ok(ft) && ft@ == t,
            FieldTypeOutcome::Failed(e) => r matches Err(err) && err@ == e,
            FieldTypeOutcome::Aborted => false,
        },
{
    let s = to_chars(type_str);
    match field_type_of(s.as_slice()) {
        Some(r) => r,
        None => {
            proof {
                assert(false);
            }
            Err(SmsgParseError::new(String::new(), 0, 0))
        },
    }
}

/// The field that the body line `l`, on line `line`, declares: a line that
/// is not blank, not a comment, and has at least two words declares the
/// field named by its second word, of the type its first word writes.
pub open spec fn declared_field(l: Seq<char>, line: nat) -> Seq<FieldView> {
    if l.len() == 0 || l[0] == '#' {
        Seq::<FieldView>::empty()
    } else {
        match field_words(l) {
            Some((ty, name)) => match spec_field_type(ty) {
                FieldTypeOutcome::Parsed(t) => seq![
                    FieldView { name, field_type: t, line, col: 1 },
                ],
                _ => Seq::<FieldView>::empty(),
            },
            None => Seq::<FieldView>::empty(),
        }
    }
}

/// The fields that the body lines `body` declare, the first of them being
/// on line `first`.
pub open spec fn declared_fields(body: Seq<Seq<char>>, first: nat) -> Seq<FieldView>
    decreases body.len(),
{
    if body.len() == 0 {
        Seq::<FieldView>::empty()
    } else {
        declared_field(body[0], first) + declared_fields(body.drop_first(), first + 1)
    }
}

/// Whether a body line can stand in a message: it is not the closing `}`,
/// and where it declares a field, the field's type parses.
pub open spec fn acceptable_body_line(l: Seq<char>) -> bool {
    &&& l != "}"@
    &&& (l.len() == 0 || l[0] == '#' || match field_words(l) {
        Some((ty, _)) => spec_field_type(ty) is Parsed,
        None => true,
    })
}

proof fn lemma_body_fields(
    lines: Seq<Seq<char>>,
    s: int,
    e: int,
    msgs: Seq<MessageView>,
    name: Seq<char>,
    line: nat,
    fields: Seq<FieldView>,
)
    requires
        0 <= s <= e < lines.len(),
        lines[e] == "}"@,
        forall|j: int| s <= j < e ==> acceptable_body_line(#[trigger] lines[j]),
    ensures
        parse_from(lines, s, msgs, ScanState::Body { name, line, fields }) == parse_from(
            lines,
            e + 1,
            msgs.push(
                MessageView {
                    name,
                    fields: fields + declared_fields(lines.subrange(s, e), (s + 1) as nat),
                    line,
                    col: 1,
                },
            ),
            ScanState::Top,
        ),
    decreases e - s,
{
    let body = lines.subrange(s, e);
    if s == e {
        assert(body.len() == 0);
        assert(fields + declared_fields(body, (s + 1) as nat) == fields);
    } else {
        let l = lines[s];
        assert(acceptable_body_line(l));
        let d = declared_field(l, (s + 1) as nat);
        let fields2 = fields + d;
        lemma_body_fields(lines, s + 1, e, msgs, name, line, fields2);
        assert(body[0] == l);
        assert(body.drop_first() == lines.subrange(s + 1, e));
        assert(declared_fields(body, (s + 1) as nat) == d + declared_fields(
            lines.subrange(s + 1, e),
            (s + 2) as nat,
        ));
        assert(fields2 + declared_fields(lines.subrange(s + 1, e), (s + 2) as nat) == fields
            + declared_fields(body, (s + 1) as nat));
        if l.len() == 0 || l[0] == '#' {
            assert(fields2 == fields);
        } else {
            match field_words(l) {
                Some((ty, fname)) => {
                    assert(fields2 == fields.push(
                        FieldView {
                            name: fname,
                            field_type: spec_field_type(ty)->Parsed_0,
                            line: (s + 1) as nat,
                            col: 1,
                        },
                    ));
                },
                None => {
                    assert(fields2 == fields);
                },
            }
        }
    }
}

/// The header line `message name {` names the message `name` and opens its
/// body on the same line.
proof fn lemma_header(name: Seq<char>)
    requires
        name.len() > 0,
        forall|j: int|
            0 <= j < name.len() ==> !is_whitespace(#[trigger] name[j]) && name[j] != '{',
    ensures
        starts_with("message "@ + name + " {"@, "message"@),
        message_header("message "@ + name + " {"@) == (name, true),
{
    reveal_strlit("message ");
    reveal_strlit("message");
    reveal_strlit(" {");
    let h = "message "@ + name + " {"@;
    assert(h.take(7) == "message"@);
    let r = h.skip(7);
    assert(r == seq![' '] + name + seq![' ', '{']);
    assert(r[1] == name[0] && r[r.len() - 1] == '{');
    lemma_strip_is(r, CharClass::Whitespace, 1, 0);
    let rest = r.subrange(1, r.len() as int);
    assert(rest == name + seq![' ', '{']);
    assert forall|j: int| 0 <= j < name.len() + 1 implies #[trigger] rest[j] != '{' by {
        if j < name.len() {
            assert(rest[j] == name[j]);
        }
    }
    lemma_lead_is(rest, CharClass::IsNot('{'), name.len() + 1);
    let t = rest.take(name.len() as int + 1);
    assert(t == name + seq![' ']);
    assert(t[0] == name[0] && t[t.len() - 2] == name[name.len() - 1]);
    lemma_strip_is(t, CharClass::Whitespace, 0, 1);
    assert(t.subrange(0, t.len() - 1) == name);
}

/// A schema that is one message: a header line `message name {`, body lines,
/// and a closing `}`. Every body line with two words declares exactly one
/// field, named by its second word and of the type its first word writes,
/// whatever kind that type is (primitive, array or message name), on its
/// own line; blank lines, comments and one-word lines declare none.
pub proof fn law_single_message_fields(input: Seq<char>, name: Seq<char>, body: Seq<Seq<char>>)
    requires
        name.len() > 0,
        forall|j: int|
            0 <= j < name.len() ==> !is_whitespace(#[trigger] name[j]) && name[j] != '{',
        schema_lines(input) == seq!["message "@ + name + " {"@] + body + seq!["}"@],
        forall|j: int| 0 <= j < body.len() ==> acceptable_body_line(#[trigger] body[j]),
    ensures
        spec_parse_smsg(input) == ParseOutcome::Parsed(
            seq![MessageView { name, fields: declared_fields(body, 2), line: 1, col: 1 }],
        ),
{
    let lines = schema_lines(input);
    let h = "message "@ + name + " {"@;
    lemma_header(name);
    reveal_strlit("message ");
    assert(lines[0] == h);
    assert(h[0] == 'm');
    let e = lines.len() - 1;
    assert(lines[e] == "}"@);
    assert forall|j: int| 1 <= j < e implies acceptable_body_line(#[trigger] lines[j]) by {
        assert(lines[j] == body[j - 1]);
    }
    let empty = Seq::<MessageView>::empty();
    assert(!has_message_named(empty, name));
    assert(parse_from(lines, 0, empty, ScanState::Top) == parse_from(
        lines,
        1,
        empty,
        ScanState::Body { name, line: 1, fields: Seq::<FieldView>::empty() },
    ));
    lemma_body_fields(lines, 1, e, empty, name, 1, Seq::<FieldView>::empty());
    assert(lines.subrange(1, e) == body);
    assert(Seq::<FieldView>::empty() + declared_fields(body, 2) == declared_fields(body, 2));
}

/// The trimmed lines of the schema text `input`.
fn schema_lines_of(input: &str) -> (r: Vec<Vec<char>>)
    ensures
        r.len() == schema_lines(input@).len(),
        forall|j: int| 0 <= j < r.len() ==> (#[trigger] r[j])@ == schema_lines(input@)[j],
{
    let chars = to_chars(input);
    let t = trim_chars(chars.as_slice());
    if t.len() == 0 {
        return Vec::new();
    }
    trimmed_lines(t.as_slice())
}

/// Whether one of `messages` is named `name`.
fn has_message_named_exec(messages: &Vec<MessageDef>, name: &[char]) -> (r: bool)
    ensures
        r == has_message_named(messages_view(messages@), name@),
{
    let mut k: usize = 0;
    while k < messages.len()
        invariant
            k <= messages@.len(),
            forall|j: int| 0 <= j < k ==> (#[trigger] messages@[j]).name@ != name@,
        decreases messages.len() - k,
    {
        let other = to_chars(messages[k].name.as_str());
        if chars_eq(other.as_slice(), name) {
            assert(messages_view(messages@)[k as int].name == name@);
            return true;
        }
        k = k + 1;
    }
    assert forall|j: int| 0 <= j < messages_view(messages@).len() implies (
    #[trigger] messages_view(messages@)[j]).name != name@ by {
        assert(messages_view(messages@)[j] == messages@[j]@);
    }
    false
}

/// Parses the schema text `input` into its messages.
///
/// On success the messages come in the order they are defined, each with its
/// fields in order, and no two of them share a name.
pub fn parse_smsg(input: &str) -> (r: Result<SmsgFile, SmsgParseError>)
    requires
        !(spec_parse_smsg(input@) is Aborted),
    ensures
        match spec_parse_smsg(input@) {
            ParseOutcome::Parsed(ms) => r matches Ok(f) && f@ == ms,
            ParseOutcome::Failed(e) => r matches Err(err) && err@ == e,
            ParseOutcome::Aborted => false,
        },
        r matches Ok(f) ==> names_distinct(f@),
{
    match try_parse_smsg(input) {
        Some(r) => r,
        None => {
            proof {
                assert(false);
            }
            Err(SmsgParseError::new(String::new(), 0, 0))
        },
    }
}

/// Parses the schema text `input`, or gives `None` where a field type of it
/// has a `]` before its first `[`, the one input that [`parse_smsg`] does
/// not take.
pub fn try_parse_smsg(input: &str) -> (r: Option<Result<SmsgFile, SmsgParseError>>)
    ensures
        match spec_parse_smsg(input@) {
            ParseOutcome::Parsed(ms) => r matches Some(Ok(f)) && f@ == ms,
            ParseOutcome::Failed(e) => r matches Some(Err(err)) && err@ == e,
            ParseOutcome::Aborted => r is None,
        },
        r matches Some(Ok(f)) ==> names_distinct(f@),
{
    let lines = schema_lines_of(input);
    let ghost ls = schema_lines(input@);
    let n = lines.len();
    let kw = to_chars("message");
    let open_brace = to_chars("{");
    let close_brace = to_chars("}");
    let mut messages: Vec<MessageDef> = Vec::new();
    let mut i: usize = 0;
    assert(messages_view(messages@) == Seq::<MessageView>::empty());
    while i < n
        invariant
            n == lines.len(),
            n == ls.len(),
            ls == schema_lines(input@),
            forall|j: int| 0 <= j < n ==> (#[trigger] lines[j])@ == ls[j],
            kw@ == "message"@,
            open_brace@ == "{"@,
            close_brace@ == "}"@,
            i <= n,
            spec_parse_smsg(input@) == parse_from(
                ls,
                i as int,
                messages_view(messages@),
                ScanState::Top,
            ),
            names_distinct(messages_view(messages@)),
        decreases n - i,
    {
        let line = lines[i].as_slice();
        if line.len() == 0 || line[0] == '#' {
            i = i + 1;
            continue;
        }
        if starts_with_chars(line, kw.as_slice()) {
            let rest = trim_chars(&line[kw.len()..line.len()]);
            assert(line@ == ls[i as int]);
            assert(line@.skip("message"@.len() as int) == line@.subrange(
                kw.len() as int,
                line@.len() as int,
            ));
            assert(rest@ == trim(ls[i as int].skip("message"@.len() as int)));
            let (name, same_line) = match find_char(rest.as_slice(), '{') {
                Some(p) => {
                    let nm = trim_chars(&rest.as_slice()[0..p]);
                    assert(rest@.subrange(0, p as int) == rest@.take(p as int));
                    (nm, true)
                },
                None => (trim_chars(rest.as_slice()), false),
            };
            assert(message_header(ls[i as int]) == (name@, same_line));
            let ghost start = i;
            let line_num = i + 1;
            if name.len() == 0 {
                return Some(
                    Err(SmsgParseError::new(String::from_str("Missing message name"), line_num, 1)),
                );
            }
            if has_message_named_exec(&messages, name.as_slice()) {
                let name_text = string_of_chars(name.as_slice());
                return Some(Err(SmsgParseError::duplicate_message(name_text.as_str(), line_num)));
            }
            let mut found = same_line;
            if !found {
                i = i + 1;
                if i < n && chars_eq(lines[i].as_slice(), open_brace.as_slice()) {
                    found = true;
                }
            }
            if !found {
                return Some(
                    Err(SmsgParseError::new(String::from_str("Expected '{'"), line_num, 1)),
                );
            }
            i = i + 1;
            let mut fields: Vec<Field> = Vec::new();
            assert(fields_view(fields@) == Seq::<FieldView>::empty());
            while i < n && !chars_eq(lines[i].as_slice(), close_brace.as_slice())
                invariant
                    n == lines.len(),
                    n == ls.len(),
                    forall|j: int| 0 <= j < n ==> (#[trigger] lines[j])@ == ls[j],
                    close_brace@ == "}"@,
                    start < i <= n,
                    spec_parse_smsg(input@) == parse_from(
                        ls,
                        i as int,
                        messages_view(messages@),
                        ScanState::Body {
                            name: name@,
                            line: line_num as nat,
                            fields: fields_view(fields@),
                        },
                    ),
                        decreases n - i,
            {
                let fl = lines[i].as_slice();
                if fl.len() == 0 || fl[0] == '#' {
                    i = i + 1;
                    continue;
                }
                match field_words_of(fl) {
                    Some((ty, fname)) => {
                        let t = match field_type_of(ty.as_slice()) {
                            Some(Ok(t)) => t,
                            Some(Err(e)) => {
                                return Some(Err(e));
                            },
                            None => {
                                return None;
                            },
                        };
                        let f = Field {
                            name: string_of_chars(fname.as_slice()),
                            field_type: t,
                            line: i + 1,
                            col: 1,
                        };
                        assert(fields_view(fields@.push(f)) == fields_view(fields@).push(f@));
                        fields.push(f);
                    },
                    None => {},
                }
                i = i + 1;
            }
            if i >= n {
                return Some(
                    Err(SmsgParseError::new(String::from_str("Expected '}'"), line_num, 1)),
                );
            }
            i = i + 1;
            let m = MessageDef {
                name: string_of_chars(name.as_slice()),
                fields,
                line: line_num,
                col: 1,
            };
            assert(messages_view(messages@.push(m)) == messages_view(messages@).push(m@));
            messages.push(m);
        } else {
            i = i + 1;
        }
    }
    Some(Ok(SmsgFile { messages }))
}

} // verus!
