//! Version hashes of message definitions, and comparison of hash lists.
//!
//! A message's hash is the BLAKE3 digest of a canonical byte encoding of its
//! name, its field names and its field types; source positions take no part.
use vstd::prelude::*;
use vstd::utf8::encode_utf8;

use crate::ir::{
    fields_view, primitive_name, Field, FieldType, FieldTypeView, FieldView,
    MessageDef, MessageView,
};
use crate::text::{decimal, decimal_chars, law_decimal_injective, push_chars, str_eq};

verus! {

/// The BLAKE3 digest (32 bytes) of `input`.
pub uninterp spec fn blake3_digest(input: Seq<u8>) -> Seq<u8>;

/// Hashes `input` with BLAKE3.
///
/// Calls `blake3::hash`, which computes the 32-byte BLAKE3 digest of its
/// input; the contract names that digest `blake3_digest` and says nothing
/// more of it.
#[verifier::external_body]
fn blake3_hash(input: &[u8]) -> (r: [u8; 32])
    ensures
        r@ == blake3_digest(input@),
{
    *blake3::hash(input).as_bytes()
}

/// The bytes that stand for a field type.
pub open spec fn field_type_bytes(t: FieldTypeView) -> Seq<u8>
    decreases t,
{
    match t {
        FieldTypeView::Primitive(p) => encode_utf8("primitive:"@) + encode_utf8(primitive_name(p)),
        FieldTypeView::Array(inner, size) => encode_utf8("array:"@) + field_type_bytes(*inner)
            + match size {
            Some(n) => encode_utf8(":"@ + decimal(n as nat)),
            None => Seq::<u8>::empty(),
        },
        FieldTypeView::Nested(name) => encode_utf8("nested:"@) + encode_utf8(name),
    }
}

/// The bytes that stand for one field: its name, then its type.
pub open spec fn field_bytes(f: FieldView) -> Seq<u8> {
    encode_utf8(f.name) + field_type_bytes(f.field_type)
}

/// The bytes that stand for a list of fields, in order.
pub open spec fn fields_bytes(fs: Seq<FieldView>) -> Seq<u8>
    decreases fs.len(),
{
    if fs.len() == 0 {
        Seq::<u8>::empty()
    } else {
        fields_bytes(fs.drop_last()) + field_bytes(fs.last())
    }
}

/// The bytes that are hashed for a message: its name, then its fields.
pub open spec fn message_hash_input(m: MessageView) -> Seq<u8> {
    encode_utf8(m.name) + fields_bytes(m.fields)
}

/// The version hash of a message.
pub open spec fn message_hash(m: MessageView) -> Seq<u8> {
    blake3_digest(message_hash_input(m))
}

/// Appends `b` to `out`.
fn append_bytes(out: &mut Vec<u8>, b: &[u8])
    ensures
        final(out)@ == old(out)@ + b@,
{
    let ghost start = out@;
    let mut i: usize = 0;
    while i < b.len()
        invariant
            i <= b@.len(),
            out@ == start + b@.take(i as int),
        decreases b.len() - i,
    {
        out.push(b[i]);
        assert(b@.take(i + 1) == b@.take(i as int).push(b@[i as int]));
        i = i + 1;
    }
    assert(b@.take(b@.len() as int) == b@);
}

/// Appends the bytes that stand for `field_type` to `out`.
fn hash_field_type(field_type: &FieldType, out: &mut Vec<u8>)
    ensures
        final(out)@ == old(out)@ + field_type_bytes(field_type@),
    decreases field_type,
{
    match field_type {
        FieldType::Primitive(p) => {
            append_bytes(out, "primitive:".as_bytes());
            append_bytes(out, p.name().as_bytes());
        },
        FieldType::Array(inner, size) => {
            append_bytes(out, "array:".as_bytes());
            hash_field_type(inner, out);
            if let Some(s) = size {
                let mut text = String::from_str(":");
                push_chars(&mut text, decimal_chars(*s).as_slice());
                append_bytes(out, text.as_str().as_bytes());
            }
        },
        FieldType::Nested(name) => {
            append_bytes(out, "nested:".as_bytes());
            append_bytes(out, name.as_str().as_bytes());
        },
    }
}

/// Appends the bytes that stand for `field` to `out`.
fn hash_field(field: &Field, out: &mut Vec<u8>)
    ensures
        final(out)@ == old(out)@ + field_bytes(field@),
{
    append_bytes(out, field.name.as_str().as_bytes());
    hash_field_type(&field.field_type, out);
}

/// Appends the bytes that are hashed for `message` to `out`.
fn hash_message(message: &MessageDef, out: &mut Vec<u8>)
    ensures
        final(out)@ == old(out)@ + message_hash_input(message@),
{
    let ghost start = out@;
    let ghost fs = fields_view(message.fields@);
    append_bytes(out, message.name.as_str().as_bytes());
    let mut k: usize = 0;
    assert(fs.take(0) == Seq::<FieldView>::empty());
    while k < message.fields.len()
        invariant
            fs == fields_view(message.fields@),
            k <= message.fields@.len(),
            out@ == start + encode_utf8(message.name@) + fields_bytes(fs.take(k as int)),
        decreases message.fields.len() - k,
    {
        hash_field(&message.fields[k], out);
        assert(fs.take(k + 1).drop_last() == fs.take(k as int));
        assert(fs[k as int] == message.fields@[k as int]@);
        k = k + 1;
    }
    assert(fs.take(message.fields@.len() as int) == fs);
}

/// The version hash of `message`: the BLAKE3 digest of its name, its field
/// names and its field types.
pub fn compute_message_hash(message: &MessageDef) -> (r: [u8; 32])
    ensures
        r@ == message_hash(message@),
{
    let mut input: Vec<u8> = Vec::new();
    hash_message(message, &mut input);
    assert(Seq::<u8>::empty() + message_hash_input(message@) == message_hash_input(message@));
    blake3_hash(input.as_slice())
}

/// Whether two hashes are equal.
pub fn compare_hashes(hash1: &[u8; 32], hash2: &[u8; 32]) -> (r: bool)
    ensures
        r == (hash1@ == hash2@),
{
    let mut i: usize = 0;
    while i < 32
        invariant
            i <= 32,
            hash1@.len() == 32,
            hash2@.len() == 32,
            forall|j: int| 0 <= j < i ==> hash1@[j] == hash2@[j],
        decreases 32 - i,
    {
        if hash1[i] != hash2[i] {
            assert(hash1@[i as int] != hash2@[i as int]);
            return false;
        }
        i = i + 1;
    }
    assert(hash1@ == hash2@);
    true
}

/// Whether two hash lists agree.
#[derive(Debug, Clone, Copy, PartialEq, Eq, Structural)]
pub enum CompatibilityStatus {
    Match,
    Mismatch,
}

/// A message whose hash differs between two lists, or that only one list
/// has; the side that lacks it shows a hash of zeros.
#[derive(Debug, Clone, PartialEq)]
pub struct MismatchDetail {
    pub message_name: String,
    pub hash1: [u8; 32],
    pub hash2: [u8; 32],
}

pub struct DetailView {
    pub message_name: Seq<char>,
    pub hash1: Seq<u8>,
    pub hash2: Seq<u8>,
}

impl View for MismatchDetail {
    type V = DetailView;

    open spec fn view(&self) -> DetailView {
        DetailView { message_name: self.message_name@, hash1: self.hash1@, hash2: self.hash2@ }
    }
}

/// The outcome of comparing two hash lists.
#[derive(Debug, Clone, PartialEq)]
pub struct CompatibilityReport {
    pub status: CompatibilityStatus,
    pub details: Vec<MismatchDetail>,
}

pub open spec fn details_view(ds: Seq<MismatchDetail>) -> Seq<DetailView> {
    ds.map_values(|d: MismatchDetail| d@)
}

pub open spec fn zero_hash() -> Seq<u8> {
    Seq::new(32, |i: int| 0u8)
}

/// The hash of the last entry of `ms` named `name`, if any: a list read
/// into a map keeps the last hash of each name.
pub open spec fn last_hash_named<'a>(ms: Seq<(&'a str, [u8; 32])>, name: Seq<char>) -> Option<
    Seq<u8>,
>
    decreases ms.len(),
{
    if ms.len() == 0 {
        None
    } else if ms.last().0@ == name {
        Some(ms.last().1@)
    } else {
        last_hash_named(ms.drop_last(), name)
    }
}

/// What one entry of the first list contributes: a detail where the second
/// list lacks its name or keeps another hash for it.
pub open spec fn first_list_detail<'a>(e: (&'a str, [u8; 32]), m2: Seq<(&'a str, [u8; 32])>) -> Seq<
    DetailView,
> {
    match last_hash_named(m2, e.0@) {
        Some(h2) => if h2 == e.1@ {
            Seq::<DetailView>::empty()
        } else {
            seq![DetailView { message_name: e.0@, hash1: e.1@, hash2: h2 }]
        },
        None => seq![DetailView { message_name: e.0@, hash1: e.1@, hash2: zero_hash() }],
    }
}

/// What one entry of the second list contributes: a detail where the first
/// list lacks its name.
pub open spec fn second_list_detail<'a>(m1: Seq<(&'a str, [u8; 32])>, e: (&'a str, [u8; 32])) -> Seq<
    DetailView,
> {
    if last_hash_named(m1, e.0@) is None {
        seq![DetailView { message_name: e.0@, hash1: zero_hash(), hash2: e.1@ }]
    } else {
        Seq::<DetailView>::empty()
    }
}

pub open spec fn first_list_details<'a>(
    m1: Seq<(&'a str, [u8; 32])>,
    m2: Seq<(&'a str, [u8; 32])>,
) -> Seq<DetailView>
    decreases m1.len(),
{
    if m1.len() == 0 {
        Seq::<DetailView>::empty()
    } else {
        first_list_details(m1.drop_last(), m2) + first_list_detail(m1.last(), m2)
    }
}

pub open spec fn second_list_details<'a>(
    m1: Seq<(&'a str, [u8; 32])>,
    m2: Seq<(&'a str, [u8; 32])>,
) -> Seq<DetailView>
    decreases m2.len(),
{
    if m2.len() == 0 {
        Seq::<DetailView>::empty()
    } else {
        second_list_details(m1, m2.drop_last()) + second_list_detail(m1, m2.last())
    }
}

/// The details of comparing `m1` with `m2`: first those of the entries of
/// `m1` in order, then those of the entries of `m2` in order.
pub open spec fn comparison_details<'a>(
    m1: Seq<(&'a str, [u8; 32])>,
    m2: Seq<(&'a str, [u8; 32])>,
) -> Seq<DetailView> {
    first_list_details(m1, m2) + second_list_details(m1, m2)
}

/// The hash of the last entry of `ms` named `name`.
fn last_hash_of(ms: &[(&str, [u8; 32])], name: &str) -> (r: Option<[u8; 32]>)
    ensures
        match last_hash_named(ms@, name@) {
            Some(h) => r matches Some(x) && x@ == h,
            None => r is None,
        },
{
    let mut k: usize = ms.len();
    assert(ms@.take(k as int) == ms@);
    while k > 0
        invariant
            k <= ms@.len(),
            last_hash_named(ms@, name@) == last_hash_named(ms@.take(k as int), name@),
        decreases k,
    {
        let e = ms[k - 1];
        assert(ms@.take(k as int).last() == e);
        if str_eq(e.0, name) {
            return Some(e.1);
        }
        assert(ms@.take(k as int).drop_last() == ms@.take(k - 1));
        k = k - 1;
    }
    None
}

/// A hash of 32 zero bytes.
fn zeros() -> (r: [u8; 32])
    ensures
        r@ == zero_hash(),
{
    let r: [u8; 32] = vstd::array::array_fill_for_copy_types(0u8);
    assert(r@ == zero_hash());
    r
}

/// Compares two lists of message hashes.
///
/// A message of the first list is reported when the second list lacks its
/// name, or keeps a different hash for it (the last one given for that
/// name); a message of the second list is reported when the first list
/// lacks its name. The lists match exactly when nothing is reported.
pub fn compare_messages(
    messages1: &[(&str, [u8; 32])],
    messages2: &[(&str, [u8; 32])],
) -> (r: CompatibilityReport)
    ensures
        details_view(r.details@) == comparison_details(messages1@, messages2@),
        r.status == CompatibilityStatus::Match <==> r.details@.len() == 0,
{
    let mut details: Vec<MismatchDetail> = Vec::new();
    let mut k: usize = 0;
    assert(messages1@.take(0) == Seq::<(&str, [u8; 32])>::empty());
    assert(details_view(details@) == Seq::<DetailView>::empty());
    while k < messages1.len()
        invariant
            k <= messages1@.len(),
            details_view(details@) == first_list_details(messages1@.take(k as int), messages2@),
        decreases messages1.len() - k,
    {
        let (name, hash1) = messages1[k];
        let ghost before = details_view(details@);
        assert(messages1@.take(k + 1).drop_last() == messages1@.take(k as int));
        assert(messages1@.take(k + 1).last() == messages1@[k as int]);
        match last_hash_of(messages2, name) {
            Some(hash2) => {
                if !compare_hashes(&hash1, &hash2) {
                    let d = MismatchDetail { message_name: String::from_str(name), hash1, hash2 };
                    assert(details_view(details@.push(d)) == before.push(d@));
                    details.push(d);
                }
            },
            None => {
                let d = MismatchDetail {
                    message_name: String::from_str(name),
                    hash1,
                    hash2: zeros(),
                };
                assert(details_view(details@.push(d)) == before.push(d@));
                details.push(d);
            },
        }
        k = k + 1;
    }
    assert(messages1@.take(messages1@.len() as int) == messages1@);
    let ghost firsts = details_view(details@);
    let mut k: usize = 0;
    assert(messages2@.take(0) == Seq::<(&str, [u8; 32])>::empty());
    while k < messages2.len()
        invariant
            k <= messages2@.len(),
            firsts == first_list_details(messages1@, messages2@),
            details_view(details@) == firsts + second_list_details(
                messages1@,
                messages2@.take(k as int),
            ),
        decreases messages2.len() - k,
    {
        let (name, hash2) = messages2[k];
        let ghost before = details_view(details@);
        assert(messages2@.take(k + 1).drop_last() == messages2@.take(k as int));
        assert(messages2@.take(k + 1).last() == messages2@[k as int]);
        if last_hash_of(messages1, name).is_none() {
            let d = MismatchDetail { message_name: String::from_str(name), hash1: zeros(), hash2 };
            assert(details_view(details@.push(d)) == before.push(d@));
            details.push(d);
        }
        k = k + 1;
    }
    assert(messages2@.take(messages2@.len() as int) == messages2@);
    let status = if details.len() == 0 {
        CompatibilityStatus::Match
    } else {
        CompatibilityStatus::Mismatch
    };
    CompatibilityReport { status, details }
}

/// Whether no two entries of `ms` share a name.
pub open spec fn names_unique<'a>(ms: Seq<(&'a str, [u8; 32])>) -> bool {
    forall|j: int, k: int| 0 <= j < k < ms.len() ==> (#[trigger] ms[j]).0@ != (#[trigger] ms[k]).0@
}

proof fn lemma_last_hash_named_found<'a>(ms: Seq<(&'a str, [u8; 32])>, name: Seq<char>)
    ensures
        last_hash_named(ms, name) is Some <==> exists|k: int| 0 <= k < ms.len() && (#[trigger] ms[k]).0@ == name,
        last_hash_named(ms, name) matches Some(h) ==> exists|k: int|
            0 <= k < ms.len() && (#[trigger] ms[k]).0@ == name && ms[k].1@ == h,
    decreases ms.len(),
{
    if ms.len() > 0 {
        let d = ms.drop_last();
        lemma_last_hash_named_found(d, name);
        if ms.last().0@ == name {
            assert(ms[ms.len() - 1].0@ == name);
        } else {
            if exists|k: int| 0 <= k < ms.len() && (#[trigger] ms[k]).0@ == name {
                let k = choose|k: int| 0 <= k < ms.len() && (#[trigger] ms[k]).0@ == name;
                assert(k < ms.len() - 1);
                assert(d[k] == ms[k]);
            }
            if let Some(h) = last_hash_named(d, name) {
                let k = choose|k: int| 0 <= k < d.len() && (#[trigger] d[k]).0@ == name && d[k].1@ == h;
                assert(ms[k] == d[k]);
            }
        }
    }
}

proof fn lemma_last_hash_named_unique<'a>(ms: Seq<(&'a str, [u8; 32])>, k: int)
    requires
        names_unique(ms),
        0 <= k < ms.len(),
    ensures
        last_hash_named(ms, ms[k].0@) == Some(ms[k].1@),
    decreases ms.len(),
{
    if k < ms.len() - 1 {
        let d = ms.drop_last();
        assert(ms[k].0@ != ms[ms.len() - 1].0@);
        assert(d[k] == ms[k]);
        assert forall|j: int, l: int| 0 <= j < l < d.len() implies (#[trigger] d[j]).0@ != (
        #[trigger] d[l]).0@ by {
            assert(d[j] == ms[j] && d[l] == ms[l]);
        }
        lemma_last_hash_named_unique(d, k);
    }
}

proof fn lemma_first_list_details_empty<'a>(
    m1: Seq<(&'a str, [u8; 32])>,
    m2: Seq<(&'a str, [u8; 32])>,
)
    ensures
        first_list_details(m1, m2).len() == 0 <==> forall|k: int|
            0 <= k < m1.len() ==> last_hash_named(m2, (#[trigger] m1[k]).0@) == Some(m1[k].1@),
    decreases m1.len(),
{
    if m1.len() > 0 {
        let d = m1.drop_last();
        lemma_first_list_details_empty(d, m2);
        if first_list_details(m1, m2).len() == 0 {
            assert forall|k: int| 0 <= k < m1.len() implies last_hash_named(
                m2,
                (#[trigger] m1[k]).0@,
            ) == Some(m1[k].1@) by {
                if k < m1.len() - 1 {
                    assert(d[k] == m1[k]);
                }
            }
        }
        if forall|k: int|
            0 <= k < m1.len() ==> last_hash_named(m2, (#[trigger] m1[k]).0@) == Some(m1[k].1@) {
            assert forall|k: int| 0 <= k < d.len() implies last_hash_named(
                m2,
                (#[trigger] d[k]).0@,
            ) == Some(d[k].1@) by {
                assert(d[k] == m1[k]);
            }
            assert(m1.last() == m1[m1.len() - 1]);
        }
    }
}

proof fn lemma_second_list_details_empty<'a>(
    m1: Seq<(&'a str, [u8; 32])>,
    m2: Seq<(&'a str, [u8; 32])>,
)
    ensures
        second_list_details(m1, m2).len() == 0 <==> forall|k: int|
            0 <= k < m2.len() ==> last_hash_named(m1, (#[trigger] m2[k]).0@) is Some,
    decreases m2.len(),
{
    if m2.len() > 0 {
        let d = m2.drop_last();
        lemma_second_list_details_empty(m1, d);
        if second_list_details(m1, m2).len() == 0 {
            assert forall|k: int| 0 <= k < m2.len() implies last_hash_named(
                m1,
                (#[trigger] m2[k]).0@,
            ) is Some by {
                if k < m2.len() - 1 {
                    assert(d[k] == m2[k]);
                }
            }
        }
        if forall|k: int| 0 <= k < m2.len() ==> last_hash_named(m1, (#[trigger] m2[k]).0@) is Some {
            assert forall|k: int| 0 <= k < d.len() implies last_hash_named(
                m1,
                (#[trigger] d[k]).0@,
            ) is Some by {
                assert(d[k] == m2[k]);
            }
            assert(m2.last() == m2[m2.len() - 1]);
        }
    }
}

/// A list of hashes in which no name repeats matches itself: comparing it
/// with itself reports nothing.
pub proof fn law_self_comparison_matches<'a>(ms: Seq<(&'a str, [u8; 32])>)
    requires
        names_unique(ms),
    ensures
        comparison_details(ms, ms).len() == 0,
{
    assert forall|k: int| 0 <= k < ms.len() implies last_hash_named(ms, (#[trigger] ms[k]).0@)
        == Some(ms[k].1@) by {
        lemma_last_hash_named_unique(ms, k);
    }
    lemma_first_list_details_empty(ms, ms);
    lemma_second_list_details_empty(ms, ms);
}

/// Whether two lists match does not depend on which one comes first, when
/// neither list repeats a name.
pub proof fn law_comparison_symmetric<'a>(
    m1: Seq<(&'a str, [u8; 32])>,
    m2: Seq<(&'a str, [u8; 32])>,
)
    requires
        names_unique(m1),
        names_unique(m2),
    ensures
        (comparison_details(m1, m2).len() == 0) == (comparison_details(m2, m1).len() == 0),
{
    lemma_first_list_details_empty(m1, m2);
    lemma_second_list_details_empty(m1, m2);
    lemma_first_list_details_empty(m2, m1);
    lemma_second_list_details_empty(m2, m1);
    if comparison_details(m1, m2).len() == 0 {
        lemma_matching_one_way(m1, m2);
    }
    if comparison_details(m2, m1).len() == 0 {
        lemma_matching_one_way(m2, m1);
    }
}

proof fn lemma_matching_one_way<'a>(m1: Seq<(&'a str, [u8; 32])>, m2: Seq<(&'a str, [u8; 32])>)
    requires
        names_unique(m1),
        names_unique(m2),
        forall|k: int|
            0 <= k < m1.len() ==> last_hash_named(m2, (#[trigger] m1[k]).0@) == Some(m1[k].1@),
        forall|k: int| 0 <= k < m2.len() ==> last_hash_named(m1, (#[trigger] m2[k]).0@) is Some,
    ensures
        forall|k: int|
            0 <= k < m2.len() ==> last_hash_named(m1, (#[trigger] m2[k]).0@) == Some(m2[k].1@),
        forall|k: int| 0 <= k < m1.len() ==> last_hash_named(m2, (#[trigger] m1[k]).0@) is Some,
{
    assert forall|k: int| 0 <= k < m2.len() implies last_hash_named(m1, (#[trigger] m2[k]).0@)
        == Some(m2[k].1@) by {
        let name = m2[k].0@;
        lemma_last_hash_named_found(m1, name);
        let h = last_hash_named(m1, name)->Some_0;
        let i = choose|i: int| 0 <= i < m1.len() && (#[trigger] m1[i]).0@ == name && m1[i].1@ == h;
        assert(last_hash_named(m2, m1[i].0@) == Some(m1[i].1@));
        lemma_last_hash_named_unique(m2, k);
    }
}

/// Whether two field lists have the same names and types in the same order
/// (their source positions may differ).
pub open spec fn same_fields(f1: Seq<FieldView>, f2: Seq<FieldView>) -> bool {
    &&& f1.len() == f2.len()
    &&& forall|j: int|
        0 <= j < f1.len() ==> (#[trigger] f1[j]).name == f2[j].name && f1[j].field_type
            == f2[j].field_type
}

proof fn lemma_fields_bytes_same(f1: Seq<FieldView>, f2: Seq<FieldView>)
    requires
        same_fields(f1, f2),
    ensures
        fields_bytes(f1) == fields_bytes(f2),
    decreases f1.len(),
{
    if f1.len() > 0 {
        let d1 = f1.drop_last();
        let d2 = f2.drop_last();
        assert forall|j: int| 0 <= j < d1.len() implies (#[trigger] d1[j]).name == d2[j].name
            && d1[j].field_type == d2[j].field_type by {
            assert(d1[j] == f1[j] && d2[j] == f2[j]);
        }
        lemma_fields_bytes_same(d1, d2);
        assert(f1.last() == f1[f1.len() - 1]);
    }
}

proof fn lemma_fields_bytes_concat(a: Seq<FieldView>, b: Seq<FieldView>)
    ensures
        fields_bytes(a + b) == fields_bytes(a) + fields_bytes(b),
    decreases b.len(),
{
    if b.len() == 0 {
        assert(a + b == a);
    } else {
        lemma_fields_bytes_concat(a, b.drop_last());
        assert((a + b).drop_last() == a + b.drop_last());
        assert((a + b).last() == b.last());
    }
}

proof fn lemma_fields_bytes_single(f: FieldView)
    ensures
        fields_bytes(seq![f]) == field_bytes(f),
{
    assert(seq![f].drop_last() == Seq::<FieldView>::empty());
    assert(seq![f].last() == f);
    assert(fields_bytes(Seq::<FieldView>::empty()) == Seq::<u8>::empty());
    assert(Seq::<u8>::empty() + field_bytes(f) == field_bytes(f));
}

proof fn lemma_encode_utf8_nonempty(s: Seq<char>)
    requires
        s.len() > 0,
    ensures
        encode_utf8(s).len() > 0,
{
    let c = s[0] as u32;
    assert(vstd::utf8::encode_scalar(c).len() > 0);
}

proof fn lemma_encode_utf8_injective(a: Seq<char>, b: Seq<char>)
    requires
        a != b,
    ensures
        encode_utf8(a) != encode_utf8(b),
{
    vstd::utf8::encode_utf8_decode_utf8(a);
    vstd::utf8::encode_utf8_decode_utf8(b);
}

/// Replacing a middle piece of a byte string by a different piece gives a
/// different byte string.
proof fn lemma_middle_differs(p: Seq<u8>, x: Seq<u8>, y: Seq<u8>, q: Seq<u8>)
    requires
        x != y,
    ensures
        p + x + q != p + y + q,
{
    if x.len() == y.len() {
        assert(!(x =~= y));
        let i = choose|i: int| 0 <= i < x.len() && x[i] != y[i];
        assert((p + x + q)[p.len() + i] == x[i]);
        assert((p + y + q)[p.len() + i] == y[i]);
    } else {
        assert((p + x + q).len() != (p + y + q).len());
    }
}

/// The first byte of the encoding of a text that starts with an ASCII char.
proof fn lemma_first_byte(tag: Seq<char>, rest: Seq<u8>)
    requires
        tag.len() > 0,
        (tag[0] as u32) <= 0x7f,
    ensures
        (encode_utf8(tag) + rest)[0] == (tag[0] as u32) as u8,
{
    let c = tag[0] as u32;
    assert((c & 0x7f) == c) by (bit_vector)
        requires
            c <= 0x7f,
    ;
    assert(encode_utf8(tag)[0] == vstd::utf8::encode_scalar(c)[0]);
}

/// The version hash does not depend on source positions: messages with the
/// same name and the same field names and types, in the same order, have the
/// same hash.
pub proof fn law_hash_ignores_positions(m1: MessageView, m2: MessageView)
    requires
        m1.name == m2.name,
        same_fields(m1.fields, m2.fields),
    ensures
        message_hash(m1) == message_hash(m2),
{
    lemma_fields_bytes_same(m1.fields, m2.fields);
}

/// Messages with different names and the same fields hash different bytes.
pub proof fn law_name_change_changes_hash_input(m1: MessageView, m2: MessageView)
    requires
        m1.name != m2.name,
        same_fields(m1.fields, m2.fields),
    ensures
        message_hash_input(m1) != message_hash_input(m2),
{
    lemma_fields_bytes_same(m1.fields, m2.fields);
    lemma_encode_utf8_injective(m1.name, m2.name);
    let e = Seq::<u8>::empty();
    lemma_middle_differs(e, encode_utf8(m1.name), encode_utf8(m2.name), fields_bytes(m1.fields));
    assert(e + encode_utf8(m1.name) + fields_bytes(m1.fields) == message_hash_input(m1));
    assert(e + encode_utf8(m2.name) + fields_bytes(m2.fields) == message_hash_input(m2));
}

proof fn lemma_field_type_bytes_nonempty(t: FieldTypeView)
    ensures
        field_type_bytes(t).len() > 0,
{
    reveal_strlit("primitive:");
    reveal_strlit("array:");
    reveal_strlit("nested:");
    match t {
        FieldTypeView::Primitive(_) => lemma_encode_utf8_nonempty("primitive:"@),
        FieldTypeView::Array(..) => lemma_encode_utf8_nonempty("array:"@),
        FieldTypeView::Nested(_) => lemma_encode_utf8_nonempty("nested:"@),
    }
}

/// Adding a field anywhere in a message makes the bytes it hashes longer, so
/// a message and the same message with one more field (or one less) hash
/// different bytes.
pub proof fn law_added_field_changes_hash_input(
    m1: MessageView,
    m2: MessageView,
    before: Seq<FieldView>,
    added: FieldView,
    after: Seq<FieldView>,
)
    requires
        m1.name == m2.name,
        m1.fields == before + after,
        m2.fields == before + seq![added] + after,
    ensures
        message_hash_input(m1).len() < message_hash_input(m2).len(),
        message_hash_input(m1) != message_hash_input(m2),
{
    lemma_fields_bytes_concat(before, after);
    lemma_fields_bytes_concat(before + seq![added], after);
    lemma_fields_bytes_concat(before, seq![added]);
    lemma_fields_bytes_single(added);
    lemma_field_type_bytes_nonempty(added.field_type);
    let x = message_hash_input(m1);
    let y = message_hash_input(m2);
    assert(x == encode_utf8(m1.name) + (fields_bytes(before) + fields_bytes(after)));
    assert(y == encode_utf8(m1.name) + (fields_bytes(before) + field_bytes(added) + fields_bytes(
        after,
    )));
    assert(x.len() < y.len());
}

/// Changing the name of one field, or the encoded type of one field, changes
/// the bytes the message hashes.
pub proof fn law_changed_field_changes_hash_input(
    m1: MessageView,
    m2: MessageView,
    before: Seq<FieldView>,
    f1: FieldView,
    f2: FieldView,
    after: Seq<FieldView>,
)
    requires
        m1.name == m2.name,
        m1.fields == before + seq![f1] + after,
        m2.fields == before + seq![f2] + after,
        (f1.name != f2.name && field_type_bytes(f1.field_type) == field_type_bytes(f2.field_type))
            || (f1.name == f2.name && field_type_bytes(f1.field_type) != field_type_bytes(
            f2.field_type,
        )),
    ensures
        message_hash_input(m1) != message_hash_input(m2),
{
    lemma_fields_bytes_concat(before + seq![f1], after);
    lemma_fields_bytes_concat(before + seq![f2], after);
    lemma_fields_bytes_concat(before, seq![f1]);
    lemma_fields_bytes_concat(before, seq![f2]);
    lemma_fields_bytes_single(f1);
    lemma_fields_bytes_single(f2);
    if f1.name != f2.name {
        lemma_encode_utf8_injective(f1.name, f2.name);
        lemma_middle_differs(
            Seq::<u8>::empty(),
            encode_utf8(f1.name),
            encode_utf8(f2.name),
            field_type_bytes(f1.field_type),
        );
        assert(Seq::<u8>::empty() + encode_utf8(f1.name) + field_type_bytes(f1.field_type)
            == field_bytes(f1));
        assert(Seq::<u8>::empty() + encode_utf8(f2.name) + field_type_bytes(f2.field_type)
            == field_bytes(f2));
    } else {
        lemma_middle_differs(
            encode_utf8(f1.name),
            field_type_bytes(f1.field_type),
            field_type_bytes(f2.field_type),
            Seq::<u8>::empty(),
        );
        assert(encode_utf8(f1.name) + field_type_bytes(f1.field_type) + Seq::<u8>::empty()
            == field_bytes(f1));
        assert(encode_utf8(f2.name) + field_type_bytes(f2.field_type) + Seq::<u8>::empty()
            == field_bytes(f2));
    }
    let p = encode_utf8(m1.name) + fields_bytes(before);
    lemma_middle_differs(p, field_bytes(f1), field_bytes(f2), fields_bytes(after));
    assert(message_hash_input(m1) == p + field_bytes(f1) + fields_bytes(after));
    assert(message_hash_input(m2) == p + field_bytes(f2) + fields_bytes(after));
}

/// Which of the three kinds of field type `t` is.
pub open spec fn type_kind(t: FieldTypeView) -> nat {
    match t {
        FieldTypeView::Primitive(_) => 0,
        FieldTypeView::Array(..) => 1,
        FieldTypeView::Nested(_) => 2,
    }
}

proof fn lemma_primitive_names_distinct(p1: crate::ir::PrimitiveType, p2: crate::ir::PrimitiveType)
    requires
        p1 != p2,
    ensures
        primitive_name(p1) != primitive_name(p2),
{
    reveal_strlit("bool");
    reveal_strlit("int8");
    reveal_strlit("int16");
    reveal_strlit("int32");
    reveal_strlit("int64");
    reveal_strlit("uint8");
    reveal_strlit("uint16");
    reveal_strlit("uint32");
    reveal_strlit("uint64");
    reveal_strlit("float32");
    reveal_strlit("float64");
    reveal_strlit("string");
    let a = primitive_name(p1);
    let b = primitive_name(p2);
    if a.len() == b.len() {
        assert(a[0] != b[0] || a[1] != b[1] || a[2] != b[2] || a[3] != b[3] || a[4] != b[4] || a[5]
            != b[5] || a[6] != b[6]);
    }
}

/// Field types of different kinds (primitive, array, message name), and
/// different primitive types, are encoded by different bytes.
pub proof fn law_distinct_field_types_encode_differently(t1: FieldTypeView, t2: FieldTypeView)
    requires
        type_kind(t1) != type_kind(t2) || (t1 matches FieldTypeView::Primitive(p1) && t2 matches FieldTypeView::Primitive(p2) && p1 != p2),
    ensures
        field_type_bytes(t1) != field_type_bytes(t2),
{
    reveal_strlit("primitive:");
    reveal_strlit("array:");
    reveal_strlit("nested:");
    if type_kind(t1) != type_kind(t2) {
        lemma_tag_first_byte(t1);
        lemma_tag_first_byte(t2);
    } else if let (FieldTypeView::Primitive(p1), FieldTypeView::Primitive(p2)) = (t1, t2) {
        lemma_primitive_names_distinct(p1, p2);
        lemma_encode_utf8_injective(primitive_name(p1), primitive_name(p2));
        let e = Seq::<u8>::empty();
        let tag = encode_utf8("primitive:"@);
        lemma_middle_differs(tag, encode_utf8(primitive_name(p1)), encode_utf8(primitive_name(p2)), e);
        assert(tag + encode_utf8(primitive_name(p1)) + e == field_type_bytes(t1));
        assert(tag + encode_utf8(primitive_name(p2)) + e == field_type_bytes(t2));
    }
}

/// The first byte of a type's encoding tells its kind.
proof fn lemma_tag_first_byte(t: FieldTypeView)
    ensures
        field_type_bytes(t).len() > 0,
        field_type_bytes(t)[0] == (if type_kind(t) == 0 { 112u8 } else if type_kind(t) == 1 { 97u8 } else { 110u8 }),
{
    reveal_strlit("primitive:");
    reveal_strlit("array:");
    reveal_strlit("nested:");
    lemma_field_type_bytes_nonempty(t);
    match t {
        FieldTypeView::Primitive(p) => {
            lemma_first_byte("primitive:"@, encode_utf8(primitive_name(p)));
        },
        FieldTypeView::Array(inner, size) => {
            let rest = field_type_bytes(*inner) + match size {
                Some(n) => encode_utf8(":"@ + decimal(n as nat)),
                None => Seq::<u8>::empty(),
            };
            lemma_first_byte("array:"@, rest);
            assert(field_type_bytes(t) == encode_utf8("array:"@) + rest);
        },
        FieldTypeView::Nested(name) => {
            lemma_first_byte("nested:"@, encode_utf8(name));
        },
    }
}

/// A detail with its two hashes exchanged.
pub open spec fn swap_detail(d: DetailView) -> DetailView {
    DetailView { message_name: d.message_name, hash1: d.hash2, hash2: d.hash1 }
}

/// Details with the two hashes of each exchanged.
pub open spec fn swap_details(ds: Seq<DetailView>) -> Seq<DetailView> {
    ds.map_values(|d: DetailView| swap_detail(d))
}

/// The part of `first_list_detail` for a name both lists have.
pub open spec fn mismatch_detail<'a>(e: (&'a str, [u8; 32]), m2: Seq<(&'a str, [u8; 32])>) -> Seq<
    DetailView,
> {
    match last_hash_named(m2, e.0@) {
        Some(h2) => if h2 == e.1@ {
            Seq::<DetailView>::empty()
        } else {
            seq![DetailView { message_name: e.0@, hash1: e.1@, hash2: h2 }]
        },
        None => Seq::<DetailView>::empty(),
    }
}

/// The part of `first_list_detail` for a name the second list lacks.
pub open spec fn missing_detail<'a>(e: (&'a str, [u8; 32]), m2: Seq<(&'a str, [u8; 32])>) -> Seq<
    DetailView,
> {
    match last_hash_named(m2, e.0@) {
        Some(_) => Seq::<DetailView>::empty(),
        None => seq![DetailView { message_name: e.0@, hash1: e.1@, hash2: zero_hash() }],
    }
}

pub open spec fn mismatch_details<'a>(
    m1: Seq<(&'a str, [u8; 32])>,
    m2: Seq<(&'a str, [u8; 32])>,
) -> Seq<DetailView>
    decreases m1.len(),
{
    if m1.len() == 0 {
        Seq::<DetailView>::empty()
    } else {
        mismatch_details(m1.drop_last(), m2) + mismatch_detail(m1.last(), m2)
    }
}

pub open spec fn missing_details<'a>(
    m1: Seq<(&'a str, [u8; 32])>,
    m2: Seq<(&'a str, [u8; 32])>,
) -> Seq<DetailView>
    decreases m1.len(),
{
    if m1.len() == 0 {
        Seq::<DetailView>::empty()
    } else {
        missing_details(m1.drop_last(), m2) + missing_detail(m1.last(), m2)
    }
}

proof fn lemma_swap_concat(x: Seq<DetailView>, y: Seq<DetailView>)
    ensures
        swap_details(x + y) == swap_details(x) + swap_details(y),
{
    assert(swap_details(x + y) =~= swap_details(x) + swap_details(y));
}

proof fn lemma_names_unique_drop_last<'a>(ms: Seq<(&'a str, [u8; 32])>)
    requires
        names_unique(ms),
        ms.len() > 0,
    ensures
        names_unique(ms.drop_last()),
{
    let d = ms.drop_last();
    assert forall|j: int, k: int| 0 <= j < k < d.len() implies (#[trigger] d[j]).0@ != (
    #[trigger] d[k]).0@ by {
        assert(d[j] == ms[j] && d[k] == ms[k]);
    }
}

/// The details of the first list split into mismatches and missing names.
proof fn lemma_first_list_split<'a>(m1: Seq<(&'a str, [u8; 32])>, m2: Seq<(&'a str, [u8; 32])>)
    ensures
        first_list_details(m1, m2).to_multiset() =~= mismatch_details(m1, m2).to_multiset().add(
            missing_details(m1, m2).to_multiset(),
        ),
        swap_details(first_list_details(m1, m2)).to_multiset() =~= swap_details(
            mismatch_details(m1, m2),
        ).to_multiset().add(swap_details(missing_details(m1, m2)).to_multiset()),
    decreases m1.len(),
{
    broadcast use vstd::multiset::group_multiset_axioms, vstd::seq_lib::group_to_multiset_ensures;

    if m1.len() == 0 {
        let e = Seq::<DetailView>::empty();
        assert(swap_details(e) =~= e);
        assert(e.to_multiset().len() == 0);
        assert(e.to_multiset() =~= e.to_multiset().add(e.to_multiset()));
    } else {
        let d = m1.drop_last();
        let e = m1.last();
        lemma_first_list_split(d, m2);
        assert(first_list_detail(e, m2) =~= mismatch_detail(e, m2) + missing_detail(e, m2));
        let f = first_list_details(d, m2);
        let x = mismatch_details(d, m2);
        let y = missing_details(d, m2);
        let a = mismatch_detail(e, m2);
        let b = missing_detail(e, m2);
        vstd::seq_lib::lemma_multiset_commutative(f, a + b);
        vstd::seq_lib::lemma_multiset_commutative(a, b);
        vstd::seq_lib::lemma_multiset_commutative(x, a);
        vstd::seq_lib::lemma_multiset_commutative(y, b);
        lemma_swap_concat(f, a + b);
        lemma_swap_concat(a, b);
        lemma_swap_concat(x, a);
        lemma_swap_concat(y, b);
        vstd::seq_lib::lemma_multiset_commutative(swap_details(f), swap_details(a + b));
        vstd::seq_lib::lemma_multiset_commutative(swap_details(a), swap_details(b));
        vstd::seq_lib::lemma_multiset_commutative(swap_details(x), swap_details(a));
        vstd::seq_lib::lemma_multiset_commutative(swap_details(y), swap_details(b));
        assert(first_list_details(m1, m2) == f + (a + b));
        assert(mismatch_details(m1, m2) == x + a);
        assert(missing_details(m1, m2) == y + b);
    }
}

/// The missing names of the first list, swapped, are what the swapped
/// comparison reports for its second list.
proof fn lemma_swap_missing<'a>(m1: Seq<(&'a str, [u8; 32])>, m2: Seq<(&'a str, [u8; 32])>)
    ensures
        swap_details(missing_details(m1, m2)) == second_list_details(m2, m1),
    decreases m1.len(),
{
    if m1.len() == 0 {
        assert(swap_details(Seq::<DetailView>::empty()) =~= Seq::<DetailView>::empty());
    } else {
        let d = m1.drop_last();
        lemma_swap_missing(d, m2);
        lemma_swap_concat(missing_details(d, m2), missing_detail(m1.last(), m2));
        assert(swap_details(missing_detail(m1.last(), m2)) =~= second_list_detail(m2, m1.last()));
    }
}

/// The second list's details, swapped, are the missing names of the swapped
/// comparison's first list.
proof fn lemma_swap_second<'a>(m1: Seq<(&'a str, [u8; 32])>, m2: Seq<(&'a str, [u8; 32])>)
    ensures
        swap_details(second_list_details(m1, m2)) == missing_details(m2, m1),
    decreases m2.len(),
{
    if m2.len() == 0 {
        assert(swap_details(Seq::<DetailView>::empty()) =~= Seq::<DetailView>::empty());
    } else {
        let d = m2.drop_last();
        lemma_swap_second(m1, d);
        lemma_swap_concat(second_list_details(m1, d), second_list_detail(m1, m2.last()));
        assert(swap_details(second_list_detail(m1, m2.last())) =~= missing_detail(m2.last(), m1));
    }
}

/// A mismatch of `m1` against `m2` is a name that both lists have, with the
/// hash each keeps for it, where the two differ.
proof fn lemma_mismatch_contains<'a>(
    m1: Seq<(&'a str, [u8; 32])>,
    m2: Seq<(&'a str, [u8; 32])>,
    d: DetailView,
)
    requires
        names_unique(m1),
    ensures
        mismatch_details(m1, m2).contains(d) <==> (last_hash_named(m1, d.message_name) == Some(
            d.hash1,
        ) && last_hash_named(m2, d.message_name) == Some(d.hash2) && d.hash1 != d.hash2),
    decreases m1.len(),
{
    if m1.len() > 0 {
        let p = m1.drop_last();
        let e = m1.last();
        lemma_names_unique_drop_last(m1);
        lemma_mismatch_contains(p, m2, d);
        lemma_last_hash_named_found(p, d.message_name);
        let x = mismatch_details(p, m2);
        let y = mismatch_detail(e, m2);
        assert(mismatch_details(m1, m2) == x + y);
        if last_hash_named(p, d.message_name) is Some {
            let k = choose|k: int| 0 <= k < p.len() && (#[trigger] p[k]).0@ == d.message_name;
            assert(p[k] == m1[k]);
            assert(m1[k].0@ != m1[m1.len() - 1].0@);
        }
        if (x + y).contains(d) {
            let i = choose|i: int| 0 <= i < (x + y).len() && (x + y)[i] == d;
            if i < x.len() {
                assert(x[i] == d);
            }
        }
        if x.contains(d) {
            let i = choose|i: int| 0 <= i < x.len() && x[i] == d;
            assert((x + y)[i] == d);
        }
        if y.contains(d) {
            let i = choose|i: int| 0 <= i < y.len() && y[i] == d;
            assert((x + y)[x.len() + i] == d);
        }
        if last_hash_named(m1, d.message_name) == Some(d.hash1) && last_hash_named(
            m2,
            d.message_name,
        ) == Some(d.hash2) && d.hash1 != d.hash2 && e.0@ == d.message_name {
            assert(y[0] == d);
        }
    }
}

/// The mismatches of a list with unique names repeat no detail.
proof fn lemma_mismatch_no_duplicates<'a>(
    m1: Seq<(&'a str, [u8; 32])>,
    m2: Seq<(&'a str, [u8; 32])>,
)
    requires
        names_unique(m1),
    ensures
        mismatch_details(m1, m2).no_duplicates(),
    decreases m1.len(),
{
    if m1.len() > 0 {
        let p = m1.drop_last();
        let e = m1.last();
        lemma_names_unique_drop_last(m1);
        lemma_mismatch_no_duplicates(p, m2);
        let x = mismatch_details(p, m2);
        let y = mismatch_detail(e, m2);
        if y.len() > 0 {
            let d = y[0];
            lemma_mismatch_contains(p, m2, d);
            lemma_last_hash_named_found(p, d.message_name);
            if x.contains(d) {
                let k = choose|k: int| 0 <= k < p.len() && (#[trigger] p[k]).0@ == d.message_name;
                assert(p[k] == m1[k]);
                assert(m1[k].0@ != m1[m1.len() - 1].0@);
            }
            assert(x + y == x.push(d));
            assert forall|i: int, j: int|
                0 <= i < (x + y).len() && 0 <= j < (x + y).len() && i != j implies (x + y)[i] != (x
                + y)[j] by {
                if i < x.len() && j < x.len() {
                } else if i < x.len() {
                    assert(x.contains(x[i]));
                } else if j < x.len() {
                    assert(x.contains(x[j]));
                }
            }
        } else {
            assert(x + y == x);
        }
    }
}

/// Sequences without repeats that hold the same details have the same
/// multiset of details.
proof fn lemma_same_multiset(x: Seq<DetailView>, y: Seq<DetailView>)
    requires
        x.no_duplicates(),
        y.no_duplicates(),
        forall|d: DetailView| x.contains(d) <==> y.contains(d),
    ensures
        x.to_multiset() =~= y.to_multiset(),
{
    broadcast use vstd::multiset::group_multiset_axioms, vstd::seq_lib::group_to_multiset_ensures;

    x.lemma_multiset_has_no_duplicates();
    y.lemma_multiset_has_no_duplicates();
    assert forall|d: DetailView| x.to_multiset().count(d) == y.to_multiset().count(d) by {
        if x.contains(d) {
            assert(x.to_multiset().count(d) > 0);
            assert(y.to_multiset().count(d) > 0);
        } else {
            assert(x.to_multiset().count(d) == 0);
            assert(y.to_multiset().count(d) == 0);
        }
    }
}

/// The mismatches of one comparison, swapped, are those of the swapped one.
proof fn lemma_swap_mismatches<'a>(m1: Seq<(&'a str, [u8; 32])>, m2: Seq<(&'a str, [u8; 32])>)
    requires
        names_unique(m1),
        names_unique(m2),
    ensures
        swap_details(mismatch_details(m1, m2)).to_multiset() =~= mismatch_details(
            m2,
            m1,
        ).to_multiset(),
{
    let x = mismatch_details(m1, m2);
    let sx = swap_details(x);
    let y = mismatch_details(m2, m1);
    lemma_mismatch_no_duplicates(m1, m2);
    lemma_mismatch_no_duplicates(m2, m1);
    assert forall|i: int, j: int|
        0 <= i < sx.len() && 0 <= j < sx.len() && i != j implies sx[i] != sx[j] by {
        assert(sx[i] == swap_detail(x[i]) && sx[j] == swap_detail(x[j]));
    }
    assert forall|d: DetailView| sx.contains(d) <==> y.contains(d) by {
        lemma_mismatch_contains(m1, m2, swap_detail(d));
        lemma_mismatch_contains(m2, m1, d);
        if sx.contains(d) {
            let i = choose|i: int| 0 <= i < sx.len() && sx[i] == d;
            assert(x[i] == swap_detail(d));
        }
        if x.contains(swap_detail(d)) {
            let i = choose|i: int| 0 <= i < x.len() && x[i] == swap_detail(d);
            assert(sx[i] == d);
        }
    }
    lemma_same_multiset(sx, y);
}

/// Comparing the lists the other way round reports the same details with
/// their two hashes exchanged (in another order), when neither list repeats
/// a name.
pub proof fn law_comparison_swapped<'a>(m1: Seq<(&'a str, [u8; 32])>, m2: Seq<(&'a str, [u8; 32])>)
    requires
        names_unique(m1),
        names_unique(m2),
    ensures
        comparison_details(m2, m1).to_multiset() =~= swap_details(
            comparison_details(m1, m2),
        ).to_multiset(),
{
    broadcast use vstd::multiset::group_multiset_axioms;

    lemma_first_list_split(m1, m2);
    lemma_first_list_split(m2, m1);
    lemma_swap_missing(m1, m2);
    lemma_swap_second(m1, m2);
    lemma_swap_mismatches(m1, m2);
    let f12 = first_list_details(m1, m2);
    let s12 = second_list_details(m1, m2);
    let f21 = first_list_details(m2, m1);
    let s21 = second_list_details(m2, m1);
    lemma_swap_concat(f12, s12);
    vstd::seq_lib::lemma_multiset_commutative(f21, s21);
    vstd::seq_lib::lemma_multiset_commutative(swap_details(f12), swap_details(s12));
}

/// Arrays of one element type are encoded differently when their lengths
/// differ: a fixed length is written with all its decimal digits, and an
/// array without a length is written with none.
pub proof fn law_array_length_changes_encoding(
    t: FieldTypeView,
    size1: Option<usize>,
    size2: Option<usize>,
)
    requires
        size1 != size2,
    ensures
        field_type_bytes(FieldTypeView::Array(Box::new(t), size1)) != field_type_bytes(
            FieldTypeView::Array(Box::new(t), size2),
        ),
{
    reveal_strlit(":");
    let suffix1 = match size1 {
        Some(n) => encode_utf8(":"@ + decimal(n as nat)),
        None => Seq::<u8>::empty(),
    };
    let suffix2 = match size2 {
        Some(n) => encode_utf8(":"@ + decimal(n as nat)),
        None => Seq::<u8>::empty(),
    };
    match (size1, size2) {
        (Some(n1), Some(n2)) => {
            law_decimal_injective(n1 as nat, n2 as nat);
            assert((":"@ + decimal(n1 as nat)).drop_first() == decimal(n1 as nat));
            assert((":"@ + decimal(n2 as nat)).drop_first() == decimal(n2 as nat));
            lemma_encode_utf8_injective(":"@ + decimal(n1 as nat), ":"@ + decimal(n2 as nat));
        },
        (Some(n1), None) => {
            lemma_encode_utf8_nonempty(":"@ + decimal(n1 as nat));
        },
        (None, Some(n2)) => {
            lemma_encode_utf8_nonempty(":"@ + decimal(n2 as nat));
        },
        (None, None) => {},
    }
    let p = encode_utf8("array:"@) + field_type_bytes(t);
    lemma_middle_differs(p, suffix1, suffix2, Seq::<u8>::empty());
    assert(p + suffix1 + Seq::<u8>::empty() == field_type_bytes(
        FieldTypeView::Array(Box::new(t), size1),
    ));
    assert(p + suffix2 + Seq::<u8>::empty() == field_type_bytes(
        FieldTypeView::Array(Box::new(t), size2),
    ));
}

/// Two messages that differ only in the length of one array field hash
/// different bytes.
pub proof fn law_array_length_changes_hash_input(
    m1: MessageView,
    m2: MessageView,
    before: Seq<FieldView>,
    f1: FieldView,
    f2: FieldView,
    after: Seq<FieldView>,
    t: FieldTypeView,
    size1: Option<usize>,
    size2: Option<usize>,
)
    requires
        m1.name == m2.name,
        m1.fields == before + seq![f1] + after,
        m2.fields == before + seq![f2] + after,
        f1.name == f2.name,
        f1.field_type == FieldTypeView::Array(Box::new(t), size1),
        f2.field_type == FieldTypeView::Array(Box::new(t), size2),
        size1 != size2,
    ensures
        message_hash_input(m1) != message_hash_input(m2),
{
    law_array_length_changes_encoding(t, size1, size2);
    law_changed_field_changes_hash_input(m1, m2, before, f1, f2, after);
}

} // verus!
