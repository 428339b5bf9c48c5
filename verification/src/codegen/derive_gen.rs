//! Source text of the `MessageMeta` trait, its impl for each message, and
//! an envelope type per message that carries the message's version hash.
use vstd::prelude::*;

use crate::hash::{compute_message_hash, message_hash};
use crate::ir::{MessageDef, MessageView, SmsgFile};
use crate::text::{decimal, decimal_chars, push_chars};

verus! {

/// The hash bytes as comma-separated `u8` literals.
pub open spec fn hash_literals(h: Seq<u8>) -> Seq<char>
    decreases h.len(),
{
    if h.len() == 0 {
        Seq::<char>::empty()
    } else if h.len() == 1 {
        decimal(h[0] as nat) + "u8"@
    } else {
        hash_literals(h.drop_last()) + ", "@ + decimal(h.last() as nat) + "u8"@
    }
}

/// The declaration of the `MessageMeta` trait.
pub open spec fn meta_trait_text() -> Seq<char> {
    "pub trait MessageMeta { fn version_hash() -> [u8; 32]; fn message_name() -> &'static str; }\n"@
}

/// The `MessageMeta` impl of the message `name` whose hash is `hash`.
pub open spec fn message_meta_text(name: Seq<char>, hash: Seq<u8>) -> Seq<char> {
    "impl MessageMeta for "@ + name + " { fn version_hash() -> [u8; 32] { ["@ + hash_literals(hash)
        + "] } fn message_name() -> &'static str { \""@ + name + "\" } }\n"@
}

/// The envelope type of the message `name`: the message with its version
/// hash, which `new` takes from `MessageMeta`.
pub open spec fn envelope_text(name: Seq<char>) -> Seq<char> {
    "#[derive(Debug, Clone, PartialEq)] pub struct "@ + name
        + "Envelope { pub version_hash: [u8; 32], pub payload: "@ + name + ", } impl "@ + name
        + "Envelope { pub fn new(payload: "@ + name + ") -> Self { Self { version_hash: "@ + name
        + "::version_hash(), payload, } } pub fn into_parts(self) -> ([u8; 32], "@ + name
        + ") { (self.version_hash, self.payload) } }\n"@
}

pub open spec fn metas_text(ms: Seq<MessageView>) -> Seq<char>
    decreases ms.len(),
{
    if ms.len() == 0 {
        Seq::<char>::empty()
    } else {
        metas_text(ms.drop_last()) + message_meta_text(ms.last().name, message_hash(ms.last()))
    }
}

pub open spec fn envelopes_text(ms: Seq<MessageView>) -> Seq<char>
    decreases ms.len(),
{
    if ms.len() == 0 {
        Seq::<char>::empty()
    } else {
        envelopes_text(ms.drop_last()) + envelope_text(ms.last().name)
    }
}

/// All that is generated for a schema: the trait, then the impl of each
/// message, then the envelope of each message.
pub open spec fn derive_text(ms: Seq<MessageView>) -> Seq<char> {
    meta_trait_text() + metas_text(ms) + envelopes_text(ms)
}

/// Generates the `MessageMeta` trait and the envelope types of a schema.
pub struct DeriveGenerator;

impl DeriveGenerator {
    pub fn new() -> (r: Self)
        ensures
            r == (DeriveGenerator),
    {
        Self
    }

    /// The source text generated for `smsg_file`.
    pub fn generate(&self, smsg_file: &SmsgFile) -> (r: String)
        ensures
            r@ == derive_text(smsg_file@),
    {
        let ghost ms = smsg_file@;
        let mut out = String::from_str(
            "pub trait MessageMeta { fn version_hash() -> [u8; 32]; fn message_name() -> &'static str; }\n",
        );
        let mut k: usize = 0;
        assert(ms.take(0) == Seq::<MessageView>::empty());
        while k < smsg_file.messages.len()
            invariant
                ms == smsg_file@,
                ms.len() == smsg_file.messages@.len(),
                k <= ms.len(),
                out@ == meta_trait_text() + metas_text(ms.take(k as int)),
            decreases smsg_file.messages.len() - k,
        {
            let text = generate_message_meta(&smsg_file.messages[k]);
            out.append(text.as_str());
            assert(ms.take(k + 1).drop_last() == ms.take(k as int));
            assert(ms[k as int] == smsg_file.messages@[k as int]@);
            k = k + 1;
        }
        assert(ms.take(ms.len() as int) == ms);
        let ghost metas = out@;
        let mut k: usize = 0;
        while k < smsg_file.messages.len()
            invariant
                ms == smsg_file@,
                ms.len() == smsg_file.messages@.len(),
                k <= ms.len(),
                metas == meta_trait_text() + metas_text(ms),
                out@ == metas + envelopes_text(ms.take(k as int)),
            decreases smsg_file.messages.len() - k,
        {
            let text = generate_smsg_envelope(&smsg_file.messages[k]);
            out.append(text.as_str());
            assert(ms.take(k + 1).drop_last() == ms.take(k as int));
            assert(ms[k as int] == smsg_file.messages@[k as int]@);
            k = k + 1;
        }
        out
    }
}

impl Default for DeriveGenerator {
    fn default() -> (r: Self)
        ensures
            r == (DeriveGenerator),
    {
        Self::new()
    }
}

/// The hash bytes as comma-separated `u8` literals.
fn hash_literals_text(h: &[u8; 32]) -> (r: String)
    ensures
        r@ == hash_literals(h@),
{
    let mut out = String::new();
    let mut i: usize = 0;
    assert(h@.take(0) == Seq::<u8>::empty());
    while i < 32
        invariant
            h@.len() == 32,
            i <= 32,
            out@ == hash_literals(h@.take(i as int)),
        decreases 32 - i,
    {
        if i > 0 {
            out.append(", ");
        }
        push_chars(&mut out, decimal_chars(h[i] as usize).as_slice());
        out.append("u8");
        assert(h@.take(i + 1).drop_last() == h@.take(i as int));
        assert(h@.take(i + 1).last() == h@[i as int]);
        i = i + 1;
    }
    assert(h@.take(32) == h@);
    out
}

/// The `MessageMeta` impl of `message`.
pub fn generate_message_meta(message: &MessageDef) -> (r: String)
    ensures
        r@ == message_meta_text(message.name@, message_hash(message@)),
{
    let hash = compute_message_hash(message);
    let mut out = String::from_str("impl MessageMeta for ");
    out.append(message.name.as_str());
    out.append(" { fn version_hash() -> [u8; 32] { [");
    let lits = hash_literals_text(&hash);
    out.append(lits.as_str());
    out.append("] } fn message_name() -> &'static str { \"");
    out.append(message.name.as_str());
    out.append("\" } }\n");
    out
}

/// The envelope type of `message`.
pub fn generate_smsg_envelope(message: &MessageDef) -> (r: String)
    ensures
        r@ == envelope_text(message.name@),
{
    let name = message.name.as_str();
    let mut out = String::from_str("#[derive(Debug, Clone, PartialEq)] pub struct ");
    out.append(name);
    out.append("Envelope { pub version_hash: [u8; 32], pub payload: ");
    out.append(name);
    out.append(", } impl ");
    out.append(name);
    out.append("Envelope { pub fn new(payload: ");
    out.append(name);
    out.append(") -> Self { Self { version_hash: ");
    out.append(name);
    out.append("::version_hash(), payload, } } pub fn into_parts(self) -> ([u8; 32], ");
    out.append(name);
    out.append(") { (self.version_hash, self.payload) } }\n");
    out
}

/// Whether `t` occurs in `text` at position `i`.
pub open spec fn occurs_at(t: Seq<char>, text: Seq<char>, i: int) -> bool {
    0 <= i && i + t.len() <= text.len() && text.subrange(i, i + t.len()) == t
}

/// Whether `t` occurs in `text`, at some position.
pub open spec fn occurs_in(t: Seq<char>, text: Seq<char>) -> bool {
    exists|i: int| #[trigger] occurs_at(t, text, i)
}

proof fn lemma_metas_concat(a: Seq<MessageView>, b: Seq<MessageView>)
    ensures
        metas_text(a + b) == metas_text(a) + metas_text(b),
        envelopes_text(a + b) == envelopes_text(a) + envelopes_text(b),
    decreases b.len(),
{
    if b.len() == 0 {
        assert(a + b == a);
        assert(metas_text(a) + Seq::<char>::empty() == metas_text(a));
        assert(envelopes_text(a) + Seq::<char>::empty() == envelopes_text(a));
    } else {
        lemma_metas_concat(a, b.drop_last());
        assert((a + b).drop_last() == a + b.drop_last());
        assert((a + b).last() == b.last());
    }
}

proof fn lemma_metas_single(m: MessageView)
    ensures
        metas_text(seq![m]) == message_meta_text(m.name, message_hash(m)),
        envelopes_text(seq![m]) == envelope_text(m.name),
{
    let e = Seq::<MessageView>::empty();
    assert(seq![m].drop_last() == e);
    assert(seq![m].last() == m);
    assert(metas_text(e) == Seq::<char>::empty());
    assert(envelopes_text(e) == Seq::<char>::empty());
    assert(metas_text(seq![m]) == metas_text(e) + message_meta_text(m.name, message_hash(m)));
    assert(envelopes_text(seq![m]) == envelopes_text(e) + envelope_text(m.name));
    assert(Seq::<char>::empty() + message_meta_text(m.name, message_hash(m)) == message_meta_text(
        m.name,
        message_hash(m),
    ));
    assert(Seq::<char>::empty() + envelope_text(m.name) == envelope_text(m.name));
}

proof fn lemma_occurs(x: Seq<char>, t: Seq<char>, y: Seq<char>)
    ensures
        occurs_in(t, x + t + y),
{
    let text = x + t + y;
    assert(text.subrange(x.len() as int, (x.len() + t.len()) as int) == t);
    assert(occurs_at(t, text, x.len() as int));
}

/// The generated text starts with the `MessageMeta` trait, and for every
/// message of the schema it holds the `MessageMeta` impl that carries that
/// message's version hash (computed from its name and all its fields) and
/// the message's envelope type.
pub proof fn law_generated_text_covers_each_message(ms: Seq<MessageView>, k: int)
    requires
        0 <= k < ms.len(),
    ensures
        derive_text(ms).take(meta_trait_text().len() as int) == meta_trait_text(),
        occurs_in(message_meta_text(ms[k].name, message_hash(ms[k])), derive_text(ms)),
        occurs_in(envelope_text(ms[k].name), derive_text(ms)),
{
    let m = ms[k];
    let before = ms.take(k);
    let after = ms.skip(k + 1);
    assert(ms == before + seq![m] + after);
    lemma_metas_concat(before + seq![m], after);
    lemma_metas_concat(before, seq![m]);
    lemma_metas_single(m);
    let tr = meta_trait_text();
    let mt = message_meta_text(m.name, message_hash(m));
    let et = envelope_text(m.name);
    let text = derive_text(ms);
    assert(text == (tr + metas_text(before)) + mt + (metas_text(after) + envelopes_text(ms)));
    lemma_occurs(tr + metas_text(before), mt, metas_text(after) + envelopes_text(ms));
    assert(text == (tr + metas_text(ms) + envelopes_text(before)) + et + envelopes_text(after));
    lemma_occurs(tr + metas_text(ms) + envelopes_text(before), et, envelopes_text(after));
    assert(text.take(tr.len() as int) == tr);
}

} // verus!
