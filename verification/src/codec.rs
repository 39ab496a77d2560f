//! The wire codec of the boundary marshalling layer.
//!
//! Descriptors and child lists cross the boundary as a structured text
//! document: a field mapping for a descriptor, an ordered sequence for a
//! child-id list. The encoder emits one canonical document per value; the
//! decoder accepts exactly the canonical documents, so that decoding an
//! encoded descriptor gives back exactly the descriptor — the zero id
//! included, which the encoder treats like every other id.

use vstd::prelude::*;

use crate::descriptor::{text_wf, DescriptorModel, ElementDescriptor, ElementKind, KindModel};
use crate::BridgeError;

verus! {

/// The quotation mark, the one byte that closes a text field on the wire.
pub const QUOTE: u8 = 34;

/// The escape byte: it precedes a quotation mark or another escape byte
/// inside an encoded text field.
pub const BACKSLASH: u8 = 92;

// ---------------------------------------------------------------------------
// The wire documents, as sequences of bytes.
// ---------------------------------------------------------------------------

/// The opening of every descriptor document, up to the id value.
pub open spec fn lit_header() -> Seq<u8> {
    // {"id":
    seq![123u8, 34u8, 105u8, 100u8, 34u8, 58u8]
}

/// The remainder of a plain node document after the id value.
pub open spec fn lit_node_plain() -> Seq<u8> {
    // ,"type":"node"}
    seq![44u8, 34u8, 116u8, 121u8, 112u8, 101u8, 34u8, 58u8, 34u8, 110u8, 111u8, 100u8, 101u8,
        34u8, 125u8]
}

/// The remainder of a root node document after the id value.
pub open spec fn lit_node_root() -> Seq<u8> {
    // ,"type":"node","root":true}
    seq![44u8, 34u8, 116u8, 121u8, 112u8, 101u8, 34u8, 58u8, 34u8, 110u8, 111u8, 100u8, 101u8,
        34u8, 44u8, 34u8, 114u8, 111u8, 111u8, 116u8, 34u8, 58u8, 116u8, 114u8, 117u8, 101u8,
        125u8]
}

/// What follows the id value of an unformatted-text document, up to the
/// opening quote of the text field.
pub open spec fn lit_text_prefix() -> Seq<u8> {
    // ,"type":"unformatted-text","text":"
    seq![44u8, 34u8, 116u8, 121u8, 112u8, 101u8, 34u8, 58u8, 34u8, 117u8, 110u8, 102u8, 111u8,
        114u8, 109u8, 97u8, 116u8, 116u8, 101u8, 100u8, 45u8, 116u8, 101u8, 120u8, 116u8, 34u8,
        44u8, 34u8, 116u8, 101u8, 120u8, 116u8, 34u8, 58u8, 34u8]
}

/// What closes an unformatted-text document after the text field.
pub open spec fn lit_text_close() -> Seq<u8> {
    // "}
    seq![34u8, 125u8]
}

/// Decimal digit bytes.
pub open spec fn is_digit(b: u8) -> bool {
    48 <= b && b <= 57
}

/// The canonical decimal form of a non-negative integer: no sign, no
/// leading zeros, at least one digit.
pub open spec fn dec_digits(n: nat) -> Seq<u8>
    decreases n,
{
    if n < 10 {
        seq![(48 + n) as u8]
    } else {
        dec_digits(n / 10).push((48 + n % 10) as u8)
    }
}

/// The value of a sequence of decimal digit bytes.
pub open spec fn dec_val(s: Seq<u8>) -> int
    decreases s.len(),
{
    if s.len() == 0 {
        0
    } else {
        dec_val(s.drop_last()) * 10 + s.last() - 48
    }
}

/// How one text byte stands on the wire: quotes and escape bytes are
/// preceded by an escape byte, every other byte stands as itself.
pub open spec fn esc_byte(b: u8) -> Seq<u8> {
    if b == QUOTE || b == BACKSLASH {
        seq![BACKSLASH, b]
    } else {
        seq![b]
    }
}

/// How a whole text stands on the wire.
pub open spec fn esc(s: Seq<u8>) -> Seq<u8>
    decreases s.len(),
{
    if s.len() == 0 {
        Seq::empty()
    } else {
        esc_byte(s.first()) + esc(s.drop_first())
    }
}

/// What follows the id value in a descriptor's wire document.
pub open spec fn tail_of(d: DescriptorModel) -> Seq<u8> {
    match d.kind {
        KindModel::Node { root } => if root {
            lit_node_root()
        } else {
            lit_node_plain()
        },
        KindModel::UnformattedText { text } => lit_text_prefix() + esc(text)
            + lit_text_close(),
    }
}

/// The canonical wire document of a descriptor.
pub open spec fn wire_of(d: DescriptorModel) -> Seq<u8> {
    lit_header() + dec_digits(d.id as nat) + tail_of(d)
}

/// A well-formed descriptor whose canonical document is `v`.
pub open spec fn decodes_to(v: Seq<u8>, d: DescriptorModel) -> bool {
    d.wf() && wire_of(d) == v
}

/// The body of a child-id list document: the ids in order, separated by
/// commas.
pub open spec fn ids_body(ids: Seq<u32>) -> Seq<u8>
    decreases ids.len(),
{
    if ids.len() == 0 {
        Seq::empty()
    } else if ids.len() == 1 {
        dec_digits(ids[0] as nat)
    } else {
        dec_digits(ids.first() as nat) + seq![44u8] + ids_body(ids.drop_first())
    }
}

/// The canonical wire document of a child-id list: an ordered sequence.
pub open spec fn children_wire(ids: Seq<u32>) -> Seq<u8> {
    seq![91u8] + ids_body(ids) + seq![93u8]
}

// ---------------------------------------------------------------------------
// Facts about decimal digits.
// ---------------------------------------------------------------------------

/// The canonical decimal form is made of digits, is never empty, and has no
/// leading zero.
pub proof fn lemma_dec_digits_shape(n: nat)
    ensures
        dec_digits(n).len() >= 1,
        forall|i: int| 0 <= i < dec_digits(n).len() ==> is_digit(#[trigger] dec_digits(n)[i]),
        n >= 10 ==> dec_digits(n).len() >= 2,
        dec_digits(n)[0] == 48 ==> n == 0,
    decreases n,
{
    if n >= 10 {
        lemma_dec_digits_shape(n / 10);
        assert(dec_digits(n) == dec_digits(n / 10).push((48 + n % 10) as u8));
        assert(dec_digits(n)[0] == dec_digits(n / 10)[0]);
    }
}

/// Reading the canonical decimal form back gives the value.
pub proof fn lemma_dec_val_of_dec_digits(n: nat)
    ensures
        dec_val(dec_digits(n)) == n,
    decreases n,
{
    if n < 10 {
        assert(dec_digits(n) == seq![(48 + n) as u8]);
        assert(dec_digits(n).drop_last() =~= Seq::<u8>::empty());
        assert(dec_val(Seq::<u8>::empty()) == 0);
        assert(dec_val(dec_digits(n)) == 0 * 10 + (48 + n) as u8 - 48);
    } else {
        lemma_dec_val_of_dec_digits(n / 10);
        let s = dec_digits(n);
        assert(s == dec_digits(n / 10).push((48 + n % 10) as u8));
        assert(s.drop_last() =~= dec_digits(n / 10));
        assert(s.last() == (48 + n % 10) as u8);
        assert(dec_val(s) == (n / 10) * 10 + n % 10);
        assert(n == (n / 10) * 10 + n % 10) by (nonlinear_arith);
    }
}

/// A non-empty digit sequence without a leading zero is worth at least one;
/// with two or more digits it is worth at least ten.
pub proof fn lemma_dec_val_bounds(s: Seq<u8>)
    requires
        s.len() >= 1,
        forall|i: int| 0 <= i < s.len() ==> is_digit(#[trigger] s[i]),
    ensures
        dec_val(s) >= 0,
        s[0] != 48 ==> dec_val(s) >= 1,
        s[0] != 48 && s.len() >= 2 ==> dec_val(s) >= 10,
    decreases s.len(),
{
    if s.len() == 1 {
        assert(s.drop_last() =~= Seq::<u8>::empty());
        assert(dec_val(Seq::<u8>::empty()) == 0);
        assert(s.last() == s[0]);
        assert(dec_val(s) == 0 * 10 + s[0] - 48);
    } else {
        let s0 = s.drop_last();
        assert(forall|i: int| 0 <= i < s0.len() ==> is_digit(#[trigger] s0[i]));
        lemma_dec_val_bounds(s0);
        assert(dec_val(s) == dec_val(s0) * 10 + s.last() - 48);
        assert(dec_val(s0) >= 0 ==> dec_val(s0) * 10 >= 0) by (nonlinear_arith);
        assert(s0[0] == s[0]);
        assert(dec_val(s0) >= 1 ==> dec_val(s0) * 10 >= 10) by (nonlinear_arith);
    }
}

/// Every value has exactly one canonical decimal form: a digit sequence
/// without a leading zero is the canonical form of its own value.
pub proof fn lemma_dec_digits_of_dec_val(s: Seq<u8>)
    requires
        s.len() >= 1,
        forall|i: int| 0 <= i < s.len() ==> is_digit(#[trigger] s[i]),
        s.len() >= 2 ==> s[0] != 48,
    ensures
        dec_digits(dec_val(s) as nat) == s,
    decreases s.len(),
{
    lemma_dec_val_bounds(s);
    if s.len() == 1 {
        assert(s.drop_last() =~= Seq::<u8>::empty());
        assert(dec_val(Seq::<u8>::empty()) == 0);
        assert(s.last() == s[0]);
        assert(dec_val(s) == 0 * 10 + s[0] - 48);
        assert(dec_digits((s[0] - 48) as nat) =~= s);
    } else {
        let s0 = s.drop_last();
        assert(forall|i: int| 0 <= i < s0.len() ==> is_digit(#[trigger] s0[i]));
        assert(s0[0] == s[0]);
        lemma_dec_val_bounds(s0);
        lemma_dec_digits_of_dec_val(s0);
        let v = dec_val(s);
        let v0 = dec_val(s0);
        let d = s.last() - 48;
        assert(v == v0 * 10 + d);
        assert(v0 >= 1 && 0 <= d < 10);
        assert(v >= 10) by (nonlinear_arith)
            requires v == v0 * 10 + d, v0 >= 1, d >= 0,
        {
        }
        assert(v / 10 == v0 && v % 10 == d) by (nonlinear_arith)
            requires v == v0 * 10 + d, 0 <= d < 10, v0 >= 0,
        {
        }
        assert(dec_digits(v as nat) == dec_digits(v0 as nat).push((48 + d) as u8));
        assert((48 + d) as u8 == s.last());
        assert(dec_digits(v as nat) =~= s);
    }
}

/// The value of a digit sequence never shrinks when digits are appended:
/// every prefix is worth at most the whole.
pub proof fn lemma_dec_val_prefix(s: Seq<u8>, k: int)
    requires
        0 <= k <= s.len(),
        forall|i: int| 0 <= i < s.len() ==> is_digit(#[trigger] s[i]),
    ensures
        0 <= dec_val(s.take(k)) <= dec_val(s),
    decreases s.len() - k,
{
    if k == s.len() {
        assert(s.take(k) =~= s);
        lemma_dec_val_nonneg(s);
    } else {
        lemma_dec_val_prefix(s, k + 1);
        let t = s.take(k + 1);
        assert(t.drop_last() =~= s.take(k));
        assert(dec_val(t) == dec_val(s.take(k)) * 10 + t.last() - 48);
        lemma_dec_val_nonneg(s.take(k));
        assert(dec_val(s.take(k)) * 10 >= dec_val(s.take(k))) by (nonlinear_arith)
            requires dec_val(s.take(k)) >= 0,
        {
        }
    }
}

/// The value of a digit sequence is never negative.
pub proof fn lemma_dec_val_nonneg(s: Seq<u8>)
    requires
        forall|i: int| 0 <= i < s.len() ==> is_digit(#[trigger] s[i]),
    ensures
        dec_val(s) >= 0,
    decreases s.len(),
{
    if s.len() > 0 {
        let s0 = s.drop_last();
        assert(forall|i: int| 0 <= i < s0.len() ==> is_digit(#[trigger] s0[i]));
        lemma_dec_val_nonneg(s0);
        assert(dec_val(s0) * 10 >= 0) by (nonlinear_arith)
            requires dec_val(s0) >= 0,
        {
        }
    }
}

// ---------------------------------------------------------------------------
// Facts about the text escaping.
// ---------------------------------------------------------------------------

/// Escaping distributes over concatenation.
pub proof fn lemma_esc_append(a: Seq<u8>, b: Seq<u8>)
    ensures
        esc(a + b) == esc(a) + esc(b),
    decreases a.len(),
{
    if a.len() == 0 {
        assert(a + b =~= b);
        assert(esc(a) + esc(b) =~= esc(b));
    } else {
        lemma_esc_append(a.drop_first(), b);
        assert((a + b).first() == a.first());
        assert((a + b).drop_first() =~= a.drop_first() + b);
        assert(esc(a + b) == esc_byte(a.first()) + (esc(a.drop_first()) + esc(b)));
        assert(esc_byte(a.first()) + (esc(a.drop_first()) + esc(b)) =~= (esc_byte(a.first())
            + esc(a.drop_first())) + esc(b));
    }
}

/// Escaping one more byte appends that byte's wire form.
pub proof fn lemma_esc_push(a: Seq<u8>, b: u8)
    ensures
        esc(a.push(b)) == esc(a) + esc_byte(b),
{
    assert(a.push(b) =~= a + seq![b]);
    lemma_esc_append(a, seq![b]);
    assert(seq![b].drop_first() =~= Seq::<u8>::empty());
    assert(esc(seq![b]) == esc_byte(b) + esc(Seq::<u8>::empty()));
    assert(esc_byte(b) + esc(Seq::<u8>::empty()) =~= esc_byte(b));
}

// ---------------------------------------------------------------------------
// Exec building blocks.
// ---------------------------------------------------------------------------

/// The opening of every descriptor document, as owned bytes.
fn header_bytes() -> (v: Vec<u8>)
    ensures
        v@ == lit_header(),
{
    let mut v: Vec<u8> = Vec::new();
    v.push(123);
    v.push(34);
    v.push(105);
    v.push(100);
    v.push(34);
    v.push(58);
    proof {
        assert(v@ =~= lit_header());
    }
    v
}

/// The plain-node remainder, as owned bytes.
fn node_plain_bytes() -> (v: Vec<u8>)
    ensures
        v@ == lit_node_plain(),
{
    let mut v: Vec<u8> = Vec::new();
    v.push(44);
    v.push(34);
    v.push(116);
    v.push(121);
    v.push(112);
    v.push(101);
    v.push(34);
    v.push(58);
    v.push(34);
    v.push(110);
    v.push(111);
    v.push(100);
    v.push(101);
    v.push(34);
    v.push(125);
    proof {
        assert(v@ =~= lit_node_plain());
    }
    v
}

/// The root-node remainder, as owned bytes.
fn node_root_bytes() -> (v: Vec<u8>)
    ensures
        v@ == lit_node_root(),
{
    let mut v: Vec<u8> = Vec::new();
    v.push(44);
    v.push(34);
    v.push(116);
    v.push(121);
    v.push(112);
    v.push(101);
    v.push(34);
    v.push(58);
    v.push(34);
    v.push(110);
    v.push(111);
    v.push(100);
    v.push(101);
    v.push(34);
    v.push(44);
    v.push(34);
    v.push(114);
    v.push(111);
    v.push(111);
    v.push(116);
    v.push(34);
    v.push(58);
    v.push(116);
    v.push(114);
    v.push(117);
    v.push(101);
    v.push(125);
    proof {
        assert(v@ =~= lit_node_root());
    }
    v
}

/// The unformatted-text middle piece, as owned bytes.
fn text_prefix_bytes() -> (v: Vec<u8>)
    ensures
        v@ == lit_text_prefix(),
{
    let mut v: Vec<u8> = Vec::new();
    v.push(44);
    v.push(34);
    v.push(116);
    v.push(121);
    v.push(112);
    v.push(101);
    v.push(34);
    v.push(58);
    v.push(34);
    v.push(117);
    v.push(110);
    v.push(102);
    v.push(111);
    v.push(114);
    v.push(109);
    v.push(97);
    v.push(116);
    v.push(116);
    v.push(101);
    v.push(100);
    v.push(45);
    v.push(116);
    v.push(101);
    v.push(120);
    v.push(116);
    v.push(34);
    v.push(44);
    v.push(34);
    v.push(116);
    v.push(101);
    v.push(120);
    v.push(116);
    v.push(34);
    v.push(58);
    v.push(34);
    proof {
        assert(v@ =~= lit_text_prefix());
    }
    v
}

/// The unformatted-text closing piece, as owned bytes.
fn text_close_bytes() -> (v: Vec<u8>)
    ensures
        v@ == lit_text_close(),
{
    let mut v: Vec<u8> = Vec::new();
    v.push(34);
    v.push(125);
    proof {
        assert(v@ =~= lit_text_close());
    }
    v
}

/// Append the canonical decimal form of `n`.
fn push_digits(out: &mut Vec<u8>, n: u32)
    ensures
        final(out)@ == old(out)@ + dec_digits(n as nat),
    decreases n,
{
    if n >= 10 {
        push_digits(out, n / 10);
    }
    out.push(48 + (n % 10) as u8);
    proof {
        if n < 10 {
            assert(final(out)@ =~= old(out)@ + dec_digits(n as nat));
        } else {
            assert((old(out)@ + dec_digits(n as nat / 10)).push((48 + n as nat % 10) as u8)
                =~= old(out)@ + dec_digits(n as nat));
        }
    }
}

/// Append the wire form of a text, escaping quotes and escape bytes.
fn push_escaped(out: &mut Vec<u8>, text: &Vec<u8>)
    requires
        text_wf(text@),
    ensures
        final(out)@ == old(out)@ + esc(text@),
{
    let mut k: usize = 0;
    proof {
        assert(out@ =~= old(out)@ + esc(text@.take(0)));
    }
    while k < text.len()
        invariant
            k <= text.len(),
            text_wf(text@),
            out@ == old(out)@ + esc(text@.take(k as int)),
        decreases text.len() - k,
    {
        let b: u8 = text[k];
        if b == QUOTE || b == BACKSLASH {
            out.push(BACKSLASH);
        }
        out.push(b);
        proof {
            lemma_esc_push(text@.take(k as int), b);
            assert(text@.take(k as int).push(b) =~= text@.take(k as int + 1));
            assert(out@ =~= old(out)@ + esc(text@.take(k as int + 1)));
        }
        k = k + 1;
    }
    proof {
        assert(text@.take(text@.len() as int) =~= text@);
    }
}

/// Whether every byte of `text` is representable on the wire.
fn check_text_wf(text: &Vec<u8>) -> (r: bool)
    ensures
        r == text_wf(text@),
{
    let mut k: usize = 0;
    while k < text.len()
        invariant
            k <= text.len(),
            forall|i: int| 0 <= i < k ==> text@[i] >= 32,
        decreases text.len() - k,
    {
        if text[k] < 32 {
            return false;
        }
        k = k + 1;
    }
    true
}

// ---------------------------------------------------------------------------
// The encoders.
// ---------------------------------------------------------------------------

/// Encode one descriptor as its canonical wire document.
///
/// Succeeds exactly on well-formed descriptors; a text that the transport
/// cannot carry fails whole, and nothing partial is handed out.
pub fn encode_descriptor(d: &ElementDescriptor) -> (r: Result<Vec<u8>, BridgeError>)
    ensures
        r is Ok <==> d.wf(),
        r matches Ok(v) ==> v@ == wire_of(d@),
        r is Err ==> r == Err::<Vec<u8>, BridgeError>(BridgeError::Encoding),
{
    match &d.kind {
        ElementKind::Node { root } => {
            let mut out = header_bytes();
            push_digits(&mut out, d.id);
            let mut tail = if *root {
                node_root_bytes()
            } else {
                node_plain_bytes()
            };
            out.append(&mut tail);
            proof {
                assert(out@ =~= wire_of(d@));
            }
            Ok(out)
        },
        ElementKind::UnformattedText { text } => {
            if !check_text_wf(text) {
                return Err(BridgeError::Encoding);
            }
            let mut out = header_bytes();
            push_digits(&mut out, d.id);
            let mut mid = text_prefix_bytes();
            out.append(&mut mid);
            push_escaped(&mut out, text);
            let mut tail = text_close_bytes();
            out.append(&mut tail);
            proof {
                assert(out@ =~= wire_of(d@));
            }
            Ok(out)
        },
    }
}

/// `ids_body` grows at the tail when one id is appended.
proof fn lemma_ids_body_push(ids: Seq<u32>, x: u32)
    ensures
        ids.len() == 0 ==> ids_body(ids.push(x)) == dec_digits(x as nat),
        ids.len() >= 1 ==> ids_body(ids.push(x)) == ids_body(ids) + seq![44u8] + dec_digits(
            x as nat,
        ),
    decreases ids.len(),
{
    if ids.len() == 0 {
        assert(ids.push(x)[0] == x);
        assert(ids_body(ids.push(x)) == dec_digits(x as nat));
    } else if ids.len() == 1 {
        let p = ids.push(x);
        assert(p.first() == ids[0]);
        assert(p.drop_first() =~= seq![x]);
        assert(ids_body(seq![x]) == dec_digits(x as nat));
        assert(ids_body(p) == dec_digits(ids[0] as nat) + seq![44u8] + dec_digits(x as nat));
        assert(ids_body(ids) == dec_digits(ids[0] as nat));
    } else {
        lemma_ids_body_push(ids.drop_first(), x);
        let p = ids.push(x);
        assert(p.first() == ids.first());
        assert(p.drop_first() =~= ids.drop_first().push(x));
        assert(ids_body(p) == dec_digits(ids.first() as nat) + seq![44u8] + ids_body(
            ids.drop_first().push(x),
        ));
        assert(dec_digits(ids.first() as nat) + seq![44u8] + (ids_body(ids.drop_first())
            + seq![44u8] + dec_digits(x as nat)) =~= (dec_digits(ids.first() as nat) + seq![44u8]
            + ids_body(ids.drop_first())) + seq![44u8] + dec_digits(x as nat));
    }
}

/// Encode an ordered child-id list as its canonical wire document.
///
/// Every list is representable, so this encoder cannot fail.
pub fn encode_children(ids: &Vec<u32>) -> (v: Vec<u8>)
    ensures
        v@ == children_wire(ids@),
{
    let mut out: Vec<u8> = Vec::new();
    out.push(91);
    let mut k: usize = 0;
    proof {
        assert(ids@.take(0) =~= Seq::<u32>::empty());
        assert(out@ =~= seq![91u8] + ids_body(ids@.take(0)));
    }
    while k < ids.len()
        invariant
            k <= ids.len(),
            out@ == seq![91u8] + ids_body(ids@.take(k as int)),
        decreases ids.len() - k,
    {
        if k > 0 {
            out.push(44);
        }
        push_digits(&mut out, ids[k]);
        proof {
            lemma_ids_body_push(ids@.take(k as int), ids@[k as int]);
            assert(ids@.take(k as int).push(ids@[k as int]) =~= ids@.take(k as int + 1));
            assert(out@ =~= seq![91u8] + ids_body(ids@.take(k as int + 1)));
        }
        k = k + 1;
    }
    out.push(93);
    proof {
        assert(ids@.take(ids@.len() as int) =~= ids@);
        assert(out@ =~= children_wire(ids@));
    }
    out
}

// ---------------------------------------------------------------------------
// Facts for the decoder.
// ---------------------------------------------------------------------------

/// The lengths and the distinguishing bytes of the wire literals.
proof fn lemma_lit_facts()
    ensures
        lit_header().len() == 6,
        lit_node_plain().len() == 15,
        lit_node_root().len() == 27,
        lit_text_prefix().len() == 35,
        lit_text_close().len() == 2,
        lit_node_plain()[0] == 44 && lit_node_root()[0] == 44 && lit_text_prefix()[0] == 44,
        lit_node_plain()[9] == 110 && lit_node_root()[9] == 110 && lit_text_prefix()[9] == 117,
        lit_node_plain()[14] == 125 && lit_node_root()[14] == 44,
        lit_text_close()[0] == QUOTE && lit_text_close()[1] == 125,
{
}

/// A consumed prefix of an escaped text is itself the escaping of a prefix
/// of that text, and what follows it on the wire is determined: the wire
/// form of the text's next byte, or the closing quote.
proof fn lemma_esc_prefix(t: Seq<u8>, rest: Seq<u8>, u: Seq<u8>)
    requires
        text_wf(t),
        text_wf(u),
        esc(u).len() <= (esc(t) + seq![QUOTE] + rest).len(),
        esc(u) == (esc(t) + seq![QUOTE] + rest).take(esc(u).len() as int),
    ensures
        u.len() <= t.len(),
        u == t.take(u.len() as int),
        esc(u).len() <= esc(t).len(),
        u.len() == t.len() ==> esc(u).len() == esc(t).len(),
        u.len() < t.len() ==> esc(u).len() + esc_byte(t[u.len() as int]).len() <= esc(t).len()
            && (esc(t) + seq![QUOTE] + rest).subrange(
            esc(u).len() as int,
            esc(u).len() as int + esc_byte(t[u.len() as int]).len() as int,
        ) == esc_byte(t[u.len() as int]),
    decreases u.len(),
{
    let full = esc(t) + seq![QUOTE] + rest;
    if u.len() == 0 {
        assert(u =~= t.take(0));
        if t.len() > 0 {
            assert(esc(t) == esc_byte(t.first()) + esc(t.drop_first()));
            assert(esc_byte(t[0]).len() <= esc(t).len());
            assert(full.subrange(0, esc_byte(t[0]).len() as int) =~= esc_byte(t[0]));
        }
    } else {
        assert(esc(u) == esc_byte(u.first()) + esc(u.drop_first()));
        assert(esc(u).len() >= 1);
        assert(esc(u)[0] == full[0]);
        if t.len() == 0 {
            assert(esc(t) =~= Seq::<u8>::empty());
            assert(full[0] == QUOTE);
            if u.first() == QUOTE || u.first() == BACKSLASH {
                assert(esc(u)[0] == BACKSLASH);
            } else {
                assert(esc(u)[0] == u.first());
                assert(u.first() != QUOTE);
            }
            assert(false);
        }
        let a = u.first();
        let b = t.first();
        assert(esc(t) == esc_byte(b) + esc(t.drop_first()));
        let fullt = esc(t.drop_first()) + seq![QUOTE] + rest;
        assert(full =~= esc_byte(b) + fullt);
        if a == QUOTE || a == BACKSLASH {
            assert(esc(u)[0] == BACKSLASH);
            if !(b == QUOTE || b == BACKSLASH) {
                assert(full[0] == b);
                assert(b == BACKSLASH);
                assert(false);
            }
            assert(esc(u).len() >= 2);
            assert(esc(u)[1] == full[1]);
            assert(esc(u)[1] == a);
            assert(full[1] == b);
        } else {
            assert(esc(u)[0] == a);
            if b == QUOTE || b == BACKSLASH {
                assert(full[0] == BACKSLASH);
                assert(a == BACKSLASH);
                assert(false);
            }
            assert(full[0] == b);
        }
        assert(a == b);
        assert(esc_byte(a) == esc_byte(b));
        let k = esc_byte(a).len() as int;
        let u1 = u.drop_first();
        let t1 = t.drop_first();
        assert(text_wf(u1)) by {
            assert(forall|i: int| 0 <= i < u1.len() ==> u1[i] == u[i + 1]);
        }
        assert(text_wf(t1)) by {
            assert(forall|i: int| 0 <= i < t1.len() ==> t1[i] == t[i + 1]);
        }
        assert(esc(u1).len() == esc(u).len() - k);
        assert(esc(u1) =~= fullt.take(esc(u1).len() as int)) by {
            assert forall|x: int| 0 <= x < esc(u1).len() implies esc(u1)[x] == fullt[x] by {
                assert(esc(u1)[x] == esc(u)[k + x]);
                assert(esc(u)[k + x] == full.take(esc(u).len() as int)[k + x]);
                assert(full[k + x] == fullt[x]);
            }
        }
        assert(esc(u1).len() <= fullt.len());
        lemma_esc_prefix(t1, rest, u1);
        assert(u1.len() <= t1.len());
        assert(u =~= t.take(u.len() as int)) by {
            assert(u1 == t1.take(u1.len() as int));
            assert forall|x: int| 0 <= x < u.len() implies u[x] == t.take(u.len() as int)[x] by {
                if x == 0 {
                    assert(u[0] == a && t[0] == b);
                } else {
                    assert(u[x] == u1[x - 1]);
                    assert(u1[x - 1] == t1.take(u1.len() as int)[x - 1]);
                    assert(t1[x - 1] == t[x]);
                }
            }
        }
        assert(esc(u).len() <= esc(t).len());
        if u.len() < t.len() {
            assert(u1.len() < t1.len());
            let nb = t1[u1.len() as int];
            assert(nb == t[u.len() as int]);
            assert(esc(u1).len() + esc_byte(nb).len() <= esc(t1).len());
            let lo = esc(u1).len() as int;
            let hi = lo + esc_byte(nb).len();
            assert(fullt.subrange(lo, hi) == esc_byte(nb));
            assert(full.subrange(k + lo, k + hi) =~= fullt.subrange(lo, hi)) by {
                assert forall|x: int| 0 <= x < hi - lo implies full.subrange(k + lo, k + hi)[x]
                    == fullt.subrange(lo, hi)[x] by {
                    assert(full.subrange(k + lo, k + hi)[x] == full[k + lo + x]);
                    assert(full[k + lo + x] == fullt[lo + x]);
                }
            }
            assert(esc(u).len() == k + lo);
        }
    }
}

/// Escaped texts closed by an unescaped quote are read back uniquely.
proof fn lemma_esc_unique(t1: Seq<u8>, r1: Seq<u8>, t2: Seq<u8>, r2: Seq<u8>)
    requires
        text_wf(t1),
        text_wf(t2),
        esc(t1) + seq![QUOTE] + r1 == esc(t2) + seq![QUOTE] + r2,
    ensures
        t1 == t2,
        r1 == r2,
{
    let full = esc(t2) + seq![QUOTE] + r2;
    assert(esc(t1).len() <= full.len()) by {
        if esc(t1).len() > full.len() {
            assert((esc(t1) + seq![QUOTE] + r1).len() == full.len());
            assert(esc(t1).len() <= (esc(t1) + seq![QUOTE] + r1).len());
        }
    }
    assert(esc(t1) =~= full.take(esc(t1).len() as int)) by {
        assert forall|x: int| 0 <= x < esc(t1).len() implies esc(t1)[x] == full[x] by {
            assert((esc(t1) + seq![QUOTE] + r1)[x] == esc(t1)[x]);
        }
    }
    lemma_esc_prefix(t2, r2, t1);
    if t1.len() < t2.len() {
        let nb = t2[t1.len() as int];
        let lo = esc(t1).len() as int;
        assert(full.subrange(lo, lo + esc_byte(nb).len()) == esc_byte(nb));
        assert(full[lo] == esc_byte(nb)[0]);
        assert((esc(t1) + seq![QUOTE] + r1)[lo] == QUOTE);
        if nb == QUOTE || nb == BACKSLASH {
            assert(esc_byte(nb)[0] == BACKSLASH);
        } else {
            assert(esc_byte(nb)[0] == nb);
        }
        assert(false);
    }
    assert(t1 =~= t2.take(t1.len() as int));
    assert(t1 =~= t2);
    assert(r1 =~= r2) by {
        let lo = esc(t1).len() as int + 1;
        assert(esc(t1) == esc(t2));
        assert forall|x: int| 0 <= x < r1.len() implies r1[x] == r2[x] by {
            assert((esc(t1) + seq![QUOTE] + r1)[lo + x] == r1[x]);
            assert(full[lo + x] == r2[x]);
        }
        assert(r1.len() == r2.len());
    }
}

/// How every canonical descriptor document is laid out: the fixed header,
/// the id's digits, then the kind's tail, which opens with a comma.
proof fn lemma_wire_anatomy(v: Seq<u8>, d: DescriptorModel)
    requires
        decodes_to(v, d),
    ensures
        v.len() == 6 + dec_digits(d.id as nat).len() + tail_of(d).len(),
        v.subrange(0, 6) == lit_header(),
        v.subrange(6, 6 + dec_digits(d.id as nat).len() as int) == dec_digits(d.id as nat),
        v.subrange(6 + dec_digits(d.id as nat).len() as int, v.len() as int) == tail_of(d),
        dec_digits(d.id as nat).len() >= 1,
        forall|i: int| 6 <= i < 6 + dec_digits(d.id as nat).len() ==> is_digit(#[trigger] v[i]),
        tail_of(d)[0] == 44,
        tail_of(d).len() >= 15,
{
    lemma_lit_facts();
    lemma_dec_digits_shape(d.id as nat);
    let dd = dec_digits(d.id as nat);
    let tl = tail_of(d);
    assert(v == lit_header() + dd + tl);
    match d.kind {
        KindModel::Node { root } => {},
        KindModel::UnformattedText { text } => {
            assert(tl == lit_text_prefix() + esc(text) + lit_text_close());
            assert(tl[0] == lit_text_prefix()[0]);
            assert(tl.len() >= 35);
        },
    }
    assert(v.subrange(0, 6) =~= lit_header());
    assert(v.subrange(6, 6 + dd.len() as int) =~= dd);
    assert(v.subrange(6 + dd.len() as int, v.len() as int) =~= tl);
    assert forall|i: int| 6 <= i < 6 + dd.len() implies is_digit(#[trigger] v[i]) by {
        assert(v[i] == dd[i - 6]);
    }
}

/// The maximal digit run after the header of a canonical document is
/// exactly the id's canonical decimal form.
proof fn lemma_wire_digit_run(v: Seq<u8>, d: DescriptorModel, j: int)
    requires
        decodes_to(v, d),
        6 <= j <= v.len(),
        forall|i: int| 6 <= i < j ==> is_digit(#[trigger] v[i]),
        j == v.len() || !is_digit(v[j]),
    ensures
        j == 6 + dec_digits(d.id as nat).len(),
        v.subrange(6, j) == dec_digits(d.id as nat),
        dec_val(v.subrange(6, j)) == d.id as int,
        v.subrange(6, j)[0] == 48 ==> j == 7,
    decreases 0int,
{
    lemma_wire_anatomy(v, d);
    lemma_dec_digits_shape(d.id as nat);
    lemma_dec_val_of_dec_digits(d.id as nat);
    let dd = dec_digits(d.id as nat);
    let e = 6 + dd.len() as int;
    assert(v[e] == v.subrange(e, v.len() as int)[0]);
    assert(v[e] == 44);
    if j < e {
        assert(!is_digit(v[j]));
        assert(is_digit(v[j]));
    }
    if j > e {
        assert(is_digit(v[e]));
    }
    assert(j == e);
    assert(v.subrange(6, j) == dd);
    if v.subrange(6, j)[0] == 48 {
        assert(dd[0] == 48);
        assert(d.id == 0);
        assert(dec_digits(0).len() == 1);
    }
}

/// Law: the canonical encoding is injective — no two distinct well-formed
/// descriptors share a wire document.
pub proof fn lemma_wire_injective(v: Seq<u8>, d1: DescriptorModel, d2: DescriptorModel)
    requires
        decodes_to(v, d1),
        decodes_to(v, d2),
    ensures
        d1 == d2,
{
    lemma_lit_facts();
    lemma_wire_anatomy(v, d1);
    lemma_wire_anatomy(v, d2);
    lemma_dec_val_of_dec_digits(d1.id as nat);
    lemma_dec_val_of_dec_digits(d2.id as nat);
    let dd1 = dec_digits(d1.id as nat);
    let j = 6 + dd1.len() as int;
    assert(tail_of(d1)[0] == 44 && !is_digit(44));
    assert(v[j] == v.subrange(j, v.len() as int)[0]);
    lemma_wire_digit_run(v, d2, j);
    assert(dd1 == v.subrange(6, j));
    assert(d1.id == d2.id);
    let tl1 = tail_of(d1);
    let tl2 = tail_of(d2);
    assert(tl1 == v.subrange(j, v.len() as int));
    assert(tl1 == tl2);
    match (d1.kind, d2.kind) {
        (KindModel::Node { root: r1 }, KindModel::Node { root: r2 }) => {
            if r1 != r2 {
                assert(lit_node_plain()[14] != lit_node_root()[14]);
                assert(false);
            }
            assert(d1 =~= d2);
        },
        (KindModel::Node { root: r1 }, KindModel::UnformattedText { text: t2 }) => {
            assert(tl1[9] == 110);
            assert(tl2[9] == lit_text_prefix()[9]);
            assert(false);
        },
        (KindModel::UnformattedText { text: t1 }, KindModel::Node { root: r2 }) => {
            assert(tl2[9] == 110);
            assert(tl1[9] == lit_text_prefix()[9]);
            assert(false);
        },
        (KindModel::UnformattedText { text: t1 }, KindModel::UnformattedText { text: t2 }) => {
            let s1 = esc(t1) + seq![QUOTE] + seq![125u8];
            let s2 = esc(t2) + seq![QUOTE] + seq![125u8];
            assert(s1 =~= tl1.subrange(35, tl1.len() as int)) by {
                assert(tl1 == lit_text_prefix() + esc(t1) + lit_text_close());
                assert forall|x: int| 0 <= x < s1.len() implies s1[x] == tl1[35 + x] by {}
                assert(s1.len() == tl1.len() - 35);
            }
            assert(s2 =~= tl2.subrange(35, tl2.len() as int)) by {
                assert(tl2 == lit_text_prefix() + esc(t2) + lit_text_close());
                assert forall|x: int| 0 <= x < s2.len() implies s2[x] == tl2[35 + x] by {}
                assert(s2.len() == tl2.len() - 35);
            }
            lemma_esc_unique(t1, seq![125u8], t2, seq![125u8]);
            assert(d1 =~= d2);
        },
    }
}

// ---------------------------------------------------------------------------
// The decoder.
// ---------------------------------------------------------------------------

/// Compare `w` against the bytes of `v` starting at `i`.
fn eq_range(v: &Vec<u8>, i: usize, w: &Vec<u8>) -> (r: bool)
    requires
        i <= v@.len(),
    ensures
        r <==> (i + w@.len() <= v@.len() && v@.subrange(i as int, i as int + w@.len() as int)
            == w@),
{
    if v.len() - i < w.len() {
        return false;
    }
    let mut k: usize = 0;
    while k < w.len()
        invariant
            i + w@.len() <= v@.len(),
            v@.len() <= usize::MAX,
            k <= w@.len(),
            forall|x: int| 0 <= x < k ==> v@[i + x] == w@[x],
        decreases w@.len() - k,
    {
        if v[i + k] != w[k] {
            proof {
                assert(v@.subrange(i as int, i as int + w@.len() as int)[k as int] == v@[
                    i as int + k as int
                ]);
            }
            return false;
        }
        k = k + 1;
    }
    proof {
        assert(v@.subrange(i as int, i as int + w@.len() as int) =~= w@);
    }
    true
}

/// Where a text scan stopped without an acceptable step and without the
/// closing quote, no well-formed escaped text field lies there at all.
proof fn lemma_scan_refute(v: Seq<u8>, start: int, i: int, out: Seq<u8>)
    requires
        0 <= start <= i <= v.len(),
        text_wf(out),
        v.subrange(start, i) == esc(out),
        i < v.len() ==> v[i] != QUOTE,
        i < v.len() && v[i] == BACKSLASH ==> i + 1 == v.len() || (v[i + 1] != QUOTE && v[i + 1]
            != BACKSLASH),
        i < v.len() && v[i] != BACKSLASH ==> v[i] < 32,
    ensures
        forall|t: Seq<u8>, rr: Seq<u8>|
            text_wf(t) ==> v.subrange(start, v.len() as int) != esc(t) + seq![QUOTE] + rr,
{
    let region = v.subrange(start, v.len() as int);
    assert forall|t: Seq<u8>, rr: Seq<u8>| text_wf(t) implies region != esc(t) + seq![QUOTE]
        + rr by {
        if region == esc(t) + seq![QUOTE] + rr {
            let full = esc(t) + seq![QUOTE] + rr;
            assert(esc(out).len() == i - start);
            assert(esc(out) =~= full.take(i - start)) by {
                assert forall|x: int| 0 <= x < i - start implies esc(out)[x] == full.take(
                    i - start,
                )[x] by {
                    assert(esc(out)[x] == v.subrange(start, i)[x]);
                    assert(v.subrange(start, i)[x] == v[start + x]);
                    assert(full[x] == region[x]);
                    assert(region[x] == v[start + x]);
                }
            }
            lemma_esc_prefix(t, rr, out);
            if out.len() == t.len() {
                assert(esc(out).len() == esc(t).len());
                assert(i - start < full.len());
                assert(full[i - start] == QUOTE);
                assert(region[i - start] == v[i]);
                assert(false);
            } else {
                let nb = t[out.len() as int];
                let lo = i - start;
                assert(full.subrange(lo, lo + esc_byte(nb).len() as int) == esc_byte(nb));
                assert(full[lo] == full.subrange(lo, lo + esc_byte(nb).len() as int)[0]);
                assert(lo < full.len());
                assert(v[i] == region[lo]);
                if nb == QUOTE || nb == BACKSLASH {
                    assert(v[i] == BACKSLASH);
                    assert(lo + 2 <= esc(t).len());
                    assert(full[lo + 1] == full.subrange(lo, lo + esc_byte(nb).len() as int)[1]);
                    assert(v[i + 1] == region[lo + 1]);
                    assert(v[i + 1] == nb);
                    assert(false);
                } else {
                    assert(v[i] == nb);
                    assert(nb >= 32 && nb != QUOTE && nb != BACKSLASH);
                    assert(false);
                }
            }
        }
    }
}

/// Scan the escaped text field ending at the next unescaped quote, copying
/// it into an owned value. Fails exactly when no well-formed text field
/// closed by a quote lies there.
fn scan_text(v: &Vec<u8>, start: usize) -> (r: Result<(Vec<u8>, usize), BridgeError>)
    requires
        start <= v@.len(),
    ensures
        r matches Ok(p) ==> start <= p.1 && (p.1 as int) < v@.len() && text_wf(p.0@)
            && v@.subrange(start as int, p.1 as int) == esc(p.0@) && v@[p.1 as int] == QUOTE,
        r is Err ==> forall|t: Seq<u8>, rr: Seq<u8>|
            text_wf(t) ==> v@.subrange(start as int, v@.len() as int) != esc(t) + seq![QUOTE]
                + rr,
{
    let mut out: Vec<u8> = Vec::new();
    let mut i: usize = start;
    proof {
        assert(v@.subrange(start as int, start as int) =~= esc(out@));
    }
    loop
        invariant
            start <= i <= v@.len(),
            text_wf(out@),
            v@.subrange(start as int, i as int) == esc(out@),
        decreases v@.len() - i,
    {
        if i == v.len() {
            proof {
                lemma_scan_refute(v@, start as int, i as int, out@);
            }
            return Err(BridgeError::Encoding);
        }
        let b: u8 = v[i];
        if b == QUOTE {
            return Ok((out, i));
        }
        if b == BACKSLASH {
            if i + 1 == v.len() {
                proof {
                    lemma_scan_refute(v@, start as int, i as int, out@);
                }
                return Err(BridgeError::Encoding);
            }
            let c: u8 = v[i + 1];
            if c == QUOTE || c == BACKSLASH {
                let ghost prev = out@;
                out.push(c);
                proof {
                    lemma_esc_push(prev, c);
                    assert(text_wf(out@)) by {
                        assert(forall|x: int|
                            0 <= x < out@.len() ==> out@[x] == if x < prev.len() {
                                prev[x]
                            } else {
                                c
                            });
                    }
                    assert(v@.subrange(start as int, i as int + 2) =~= esc(prev) + seq![
                        BACKSLASH,
                        c,
                    ]) by {
                        assert(v@[i as int] == BACKSLASH && v@[i as int + 1] == c);
                        assert(forall|x: int|
                            start <= x < i ==> v@.subrange(start as int, i as int)[x - start]
                                == v@[x]);
                    }
                }
                i = i + 2;
            } else {
                proof {
                    lemma_scan_refute(v@, start as int, i as int, out@);
                }
                return Err(BridgeError::Encoding);
            }
        } else if b >= 32 {
            let ghost prev = out@;
            out.push(b);
            proof {
                lemma_esc_push(prev, b);
                assert(text_wf(out@)) by {
                    assert(forall|x: int|
                        0 <= x < out@.len() ==> out@[x] == if x < prev.len() {
                            prev[x]
                        } else {
                            b
                        });
                }
                assert(esc_byte(b) =~= seq![b]);
                assert(v@.subrange(start as int, i as int + 1) =~= esc(prev) + seq![b]) by {
                    assert(v@[i as int] == b);
                    assert(forall|x: int|
                        start <= x < i ==> v@.subrange(start as int, i as int)[x - start]
                            == v@[x]);
                }
            }
            i = i + 1;
        } else {
            proof {
                lemma_scan_refute(v@, start as int, i as int, out@);
            }
            return Err(BridgeError::Encoding);
        }
    }
}

/// Everything the decoder promises: a returned descriptor is well formed
/// with the input as its canonical document; and whenever any well-formed
/// descriptor has the input as its canonical document, exactly that
/// descriptor comes back — never an error, never another value.
pub open spec fn decode_post(v: Seq<u8>, r: Result<ElementDescriptor, BridgeError>) -> bool {
    &&& (r matches Ok(d) ==> decodes_to(v, d@))
    &&& (forall|dm: DescriptorModel| decodes_to(v, dm) ==> (r matches Ok(d) && d@ == dm))
}

/// Decode one canonical descriptor document.
#[verifier::rlimit(100)]
pub fn decode_descriptor(v: &Vec<u8>) -> (r: Result<ElementDescriptor, BridgeError>)
    ensures
        decode_post(v@, r),
        r is Err ==> r == Err::<ElementDescriptor, BridgeError>(BridgeError::Encoding),
{
    let header = header_bytes();
    if !eq_range(v, 0, &header) {
        proof {
            assert forall|dm: DescriptorModel| !decodes_to(v@, dm) by {
                if decodes_to(v@, dm) {
                    lemma_wire_anatomy(v@, dm);
                }
            }
        }
        return Err(BridgeError::Encoding);
    }
    let mut j: usize = 6;
    while j < v.len() && 48 <= v[j] && v[j] <= 57
        invariant
            6 <= j <= v@.len(),
            forall|x: int| 6 <= x < j ==> is_digit(#[trigger] v@[x]),
        decreases v@.len() - j,
    {
        j = j + 1;
    }
    if j == 6 {
        proof {
            assert forall|dm: DescriptorModel| !decodes_to(v@, dm) by {
                if decodes_to(v@, dm) {
                    lemma_wire_anatomy(v@, dm);
                    assert(is_digit(v@[6]));
                }
            }
        }
        return Err(BridgeError::Encoding);
    }
    if v[6] == 48 && j > 7 {
        proof {
            assert forall|dm: DescriptorModel| !decodes_to(v@, dm) by {
                if decodes_to(v@, dm) {
                    lemma_wire_digit_run(v@, dm, j as int);
                }
            }
        }
        return Err(BridgeError::Encoding);
    }
    let mut acc: u64 = 0;
    let mut k: usize = 6;
    proof {
        assert(v@.subrange(6, 6) =~= Seq::<u8>::empty());
    }
    while k < j
        invariant
            6 <= k <= j <= v@.len(),
            forall|x: int| 6 <= x < j ==> is_digit(#[trigger] v@[x]),
            j == v@.len() || !is_digit(v@[j as int]),
            v@[6] != 48 || j == 7,
            acc <= 0xFFFF_FFFF,
            acc as int == dec_val(v@.subrange(6, k as int)),
        decreases j - k,
    {
        let d: u8 = v[k] - 48;
        let next: u64 = acc * 10 + d as u64;
        proof {
            assert(v@.subrange(6, k as int + 1).drop_last() =~= v@.subrange(6, k as int));
            assert(v@.subrange(6, k as int + 1).last() == v@[k as int]);
            assert(next as int == dec_val(v@.subrange(6, k as int + 1)));
        }
        if next > 0xFFFF_FFFF {
            proof {
                assert forall|dm: DescriptorModel| !decodes_to(v@, dm) by {
                    if decodes_to(v@, dm) {
                        lemma_wire_digit_run(v@, dm, j as int);
                        let run = v@.subrange(6, j as int);
                        lemma_dec_val_prefix(run, k as int + 1 - 6);
                        assert(run.take(k as int + 1 - 6) =~= v@.subrange(6, k as int + 1));
                        assert(dec_val(run) <= 0xFFFF_FFFF);
                    }
                }
            }
            return Err(BridgeError::Encoding);
        }
        acc = next;
        k = k + 1;
    }
    let id_num: u32 = acc as u32;
    proof {
        let run = v@.subrange(6, j as int);
        assert(run.len() >= 1);
        assert(run[0] == v@[6]);
        assert(forall|x: int| 0 <= x < run.len() ==> is_digit(#[trigger] run[x]));
        lemma_dec_digits_of_dec_val(run);
        assert(dec_digits(id_num as nat) == run);
    }
    let np = node_plain_bytes();
    let nr = node_root_bytes();
    let tp = text_prefix_bytes();
    if eq_range(v, j, &np) {
        if v.len() == j + 15 {
            let d = ElementDescriptor::node(id_num, false);
            proof {
                lemma_lit_facts();
                assert(v@ =~= v@.subrange(0, 6) + v@.subrange(6, j as int) + v@.subrange(
                    j as int,
                    v@.len() as int,
                ));
                assert(v@.subrange(j as int, v@.len() as int) == lit_node_plain());
                assert(v@ == wire_of(d@));
                assert forall|dm: DescriptorModel| decodes_to(v@, dm) implies dm == d@ by {
                    lemma_wire_injective(v@, dm, d@);
                }
            }
            return Ok(d);
        } else {
            proof {
                assert forall|dm: DescriptorModel| !decodes_to(v@, dm) by {
                    if decodes_to(v@, dm) {
                        lemma_lit_facts();
                        lemma_wire_digit_run(v@, dm, j as int);
                        lemma_wire_anatomy(v@, dm);
                        let tl = tail_of(dm);
                        assert(forall|x: int|
                            0 <= x < tl.len() ==> #[trigger] v@[j + x] == v@.subrange(
                                j as int,
                                v@.len() as int,
                            )[x]);
                        match dm.kind {
                            KindModel::Node { root } => {
                                if root {
                                    assert(v@[j + 14] == tl[14]);
                                    assert(v@[j + 14] == v@.subrange(j as int, j as int + 15)[
                                        14
                                    ]);
                                } else {
                                    assert(v@.len() == j + 15);
                                }
                            },
                            KindModel::UnformattedText { text } => {
                                assert(tl[9] == lit_text_prefix()[9]);
                                assert(v@[j + 9] == tl[9]);
                                assert(v@[j + 9] == v@.subrange(j as int, j as int + 15)[9]);
                            },
                        }
                    }
                }
            }
            return Err(BridgeError::Encoding);
        }
    }
    if eq_range(v, j, &nr) {
        if v.len() == j + 27 {
            let d = ElementDescriptor::node(id_num, true);
            proof {
                lemma_lit_facts();
                assert(v@ =~= v@.subrange(0, 6) + v@.subrange(6, j as int) + v@.subrange(
                    j as int,
                    v@.len() as int,
                ));
                assert(v@.subrange(j as int, v@.len() as int) == lit_node_root());
                assert(v@ == wire_of(d@));
                assert forall|dm: DescriptorModel| decodes_to(v@, dm) implies dm == d@ by {
                    lemma_wire_injective(v@, dm, d@);
                }
            }
            return Ok(d);
        } else {
            proof {
                assert forall|dm: DescriptorModel| !decodes_to(v@, dm) by {
                    if decodes_to(v@, dm) {
                        lemma_lit_facts();
                        lemma_wire_digit_run(v@, dm, j as int);
                        lemma_wire_anatomy(v@, dm);
                        let tl = tail_of(dm);
                        assert(forall|x: int|
                            0 <= x < tl.len() ==> #[trigger] v@[j + x] == v@.subrange(
                                j as int,
                                v@.len() as int,
                            )[x]);
                        match dm.kind {
                            KindModel::Node { root } => {
                                if root {
                                    assert(v@.len() == j + 27);
                                } else {
                                    assert(v@.len() == j + 15);
                                    assert(j as int + 27 <= v@.len());
                                }
                            },
                            KindModel::UnformattedText { text } => {
                                assert(tl[9] == lit_text_prefix()[9]);
                                assert(v@[j + 9] == tl[9]);
                                assert(v@[j + 9] == v@.subrange(j as int, j as int + 27)[9]);
                            },
                        }
                    }
                }
            }
            return Err(BridgeError::Encoding);
        }
    }
    if eq_range(v, j, &tp) {
        match scan_text(v, j + 35) {
            Ok((text, e)) => {
                if v.len() - e == 2 && v[e + 1] == 125 {
                    let ghost tm = text@;
                    let d = ElementDescriptor::unformatted_text(id_num, text);
                    proof {
                        lemma_lit_facts();
                        assert(v@.subrange(e as int, v@.len() as int) =~= lit_text_close());
                        assert(v@ =~= v@.subrange(0, 6) + v@.subrange(6, j as int) + v@.subrange(
                            j as int,
                            j as int + 35,
                        ) + v@.subrange(j as int + 35, e as int) + v@.subrange(
                            e as int,
                            v@.len() as int,
                        ));
                        assert(v@ == lit_header() + dec_digits(id_num as nat) + (
                        lit_text_prefix() + esc(tm) + lit_text_close())) by {
                            assert(v@ =~= lit_header() + dec_digits(id_num as nat) + (
                            lit_text_prefix() + esc(tm) + lit_text_close()));
                        }
                        assert(v@ == wire_of(d@));
                        assert forall|dm: DescriptorModel| decodes_to(v@, dm) implies dm
                            == d@ by {
                            lemma_wire_injective(v@, dm, d@);
                        }
                    }
                    return Ok(d);
                } else {
                    proof {
                        assert forall|dm: DescriptorModel| !decodes_to(v@, dm) by {
                            if decodes_to(v@, dm) {
                                lemma_lit_facts();
                                lemma_wire_digit_run(v@, dm, j as int);
                                lemma_wire_anatomy(v@, dm);
                                let tl = tail_of(dm);
                                assert(forall|x: int|
                                    0 <= x < tl.len() ==> #[trigger] v@[j + x] == v@.subrange(
                                        j as int,
                                        v@.len() as int,
                                    )[x]);
                                match dm.kind {
                                    KindModel::Node { root } => {
                                        assert(tl[9] == 110);
                                        assert(v@[j + 9] == tl[9]);
                                        assert(v@[j + 9] == v@.subrange(j as int, j as int + 35)[
                                            9
                                        ]);
                                        assert(lit_text_prefix()[9] == 117);
                                    },
                                    KindModel::UnformattedText { text: tw } => {
                                        let region = v@.subrange(j as int + 35, v@.len() as int);
                                        assert(region =~= esc(tw) + seq![QUOTE] + seq![125u8]) by {
                                            assert(tl =~= lit_text_prefix() + esc(tw) + seq![
                                                QUOTE,
                                                125u8,
                                            ]);
                                        }
                                        let rest = v@.subrange(e as int + 1, v@.len() as int);
                                        assert(region =~= esc(text@) + seq![QUOTE] + rest) by {
                                            assert(v@.subrange(j as int + 35, e as int) == esc(
                                                text@,
                                            ));
                                            assert(v@[e as int] == QUOTE);
                                        }
                                        lemma_esc_unique(text@, rest, tw, seq![125u8]);
                                        assert(rest.len() == 1);
                                        assert(v@.len() == e + 2);
                                        assert(v@[e as int + 1] == rest[0]);
                                    },
                                }
                            }
                        }
                    }
                    return Err(BridgeError::Encoding);
                }
            },
            Err(_) => {
                proof {
                    assert forall|dm: DescriptorModel| !decodes_to(v@, dm) by {
                        if decodes_to(v@, dm) {
                            lemma_lit_facts();
                            lemma_wire_digit_run(v@, dm, j as int);
                            lemma_wire_anatomy(v@, dm);
                            let tl = tail_of(dm);
                            assert(forall|x: int|
                                0 <= x < tl.len() ==> #[trigger] v@[j + x] == v@.subrange(
                                    j as int,
                                    v@.len() as int,
                                )[x]);
                            match dm.kind {
                                KindModel::Node { root } => {
                                    assert(tl[9] == 110);
                                    assert(v@[j + 9] == tl[9]);
                                    assert(v@[j + 9] == v@.subrange(j as int, j as int + 35)[9]);
                                    assert(lit_text_prefix()[9] == 117);
                                },
                                KindModel::UnformattedText { text: tw } => {
                                    let region = v@.subrange(j as int + 35, v@.len() as int);
                                    assert(region =~= esc(tw) + seq![QUOTE] + seq![125u8]) by {
                                        assert(tl =~= lit_text_prefix() + esc(tw) + seq![
                                            QUOTE,
                                            125u8,
                                        ]);
                                    }
                                },
                            }
                        }
                    }
                }
                return Err(BridgeError::Encoding);
            },
        }
    }
    proof {
        assert forall|dm: DescriptorModel| !decodes_to(v@, dm) by {
            if decodes_to(v@, dm) {
                lemma_lit_facts();
                lemma_wire_digit_run(v@, dm, j as int);
                lemma_wire_anatomy(v@, dm);
                let tl = tail_of(dm);
                assert(forall|x: int|
                    0 <= x < tl.len() ==> #[trigger] v@[j + x] == v@.subrange(
                        j as int,
                        v@.len() as int,
                    )[x]);
                match dm.kind {
                    KindModel::Node { root } => {
                        if root {
                            assert(v@.subrange(j as int, j as int + 27) =~= lit_node_root());
                        } else {
                            assert(v@.subrange(j as int, j as int + 15) =~= lit_node_plain());
                        }
                    },
                    KindModel::UnformattedText { text } => {
                        assert(tl.len() >= 37);
                        assert(v@.subrange(j as int, j as int + 35) =~= lit_text_prefix()) by {
                            assert(forall|x: int|
                                0 <= x < 35 ==> tl[x] == #[trigger] lit_text_prefix()[x]);
                        }
                    },
                }
            }
        }
    }
    Err(BridgeError::Encoding)
}

/// Law: encoding loses nothing — decoding the canonical document of any
/// well-formed descriptor yields exactly that descriptor, the zero id
/// included (the encoder treats the zero id like every other id).
pub proof fn lemma_descriptor_round_trip(
    dm: DescriptorModel,
    r: Result<ElementDescriptor, BridgeError>,
)
    requires
        dm.wf(),
        decode_post(wire_of(dm), r),
    ensures
        (r matches Ok(d) && d@ == dm),
{
    assert(decodes_to(wire_of(dm), dm));
}

} // verus!
