//! The wire encoding of peer-message payloads.
//!
//! A payload travels as one JSON object in a fixed canonical shape,
//! for example:
//!
//! ```text
//! {"message_type":"request","seq_num":5,"vote":1,"nonce":[17,3,255]}
//! ```
//!
//! `encode_message` produces exactly this form and `parse_message` accepts
//! exactly this form: parsing an encoded message gives the original fields
//! back, and parsing anything that is not such an encoding fails.

use vstd::prelude::*;

use crate::message::{MessageKind, SnowballMessage};

verus! {

// ---------------------------------------------------------------------------
// Decimal representation of unsigned numbers
// ---------------------------------------------------------------------------

/// An ASCII decimal digit.
pub open spec fn is_digit(b: u8) -> bool {
    48 <= b <= 57
}

pub open spec fn all_digits(s: Seq<u8>) -> bool {
    forall|i: int| 0 <= i < s.len() ==> is_digit(#[trigger] s[i])
}

/// The canonical decimal form of `n`: no sign, no leading zero.
pub open spec fn dec_rep(n: nat) -> Seq<u8>
    decreases n,
{
    if n < 10 {
        seq![(48 + n) as u8]
    } else {
        dec_rep(n / 10) + seq![(48 + n % 10) as u8]
    }
}

/// The value of a digit string (most significant digit first).
pub open spec fn dec_val(s: Seq<u8>) -> int
    decreases s.len(),
{
    if s.len() == 0 {
        0
    } else {
        dec_val(s.drop_last()) * 10 + (s.last() - 48)
    }
}

pub proof fn lemma_dec_rep_digits(n: nat)
    ensures
        dec_rep(n).len() >= 1,
        all_digits(dec_rep(n)),
        n == 0 ==> dec_rep(n) == seq![48u8],
        n > 0 ==> dec_rep(n)[0] != 48,
    decreases n,
{
    if n < 10 {
        assert(dec_rep(n) == seq![(48 + n) as u8]);
    } else {
        lemma_dec_rep_digits(n / 10);
        assert(n / 10 > 0) by (nonlinear_arith)
            requires n >= 10;
        assert(n % 10 < 10) by (nonlinear_arith);
        assert(dec_rep(n)[0] == dec_rep(n / 10)[0]);
        assert forall|i: int| 0 <= i < dec_rep(n).len() implies is_digit(#[trigger] dec_rep(n)[i]) by {
            if i < dec_rep(n / 10).len() {
                assert(dec_rep(n)[i] == dec_rep(n / 10)[i]);
            } else {
                assert(dec_rep(n)[i] == (48 + n % 10) as u8);
            }
        }
    }
}

pub proof fn lemma_dec_val_rep(n: nat)
    ensures
        dec_val(dec_rep(n)) == n,
    decreases n,
{
    if n < 10 {
        assert(dec_rep(n) == seq![(48 + n) as u8]);
        assert(dec_rep(n).drop_last() =~= Seq::<u8>::empty());
        assert(dec_val(Seq::<u8>::empty()) == 0);
        assert(dec_rep(n).last() == (48 + n) as u8);
        assert(dec_val(dec_rep(n)) == 0 * 10 + ((48 + n) - 48));
    } else {
        lemma_dec_val_rep(n / 10);
        lemma_dec_rep_digits(n / 10);
        let d = (48 + n % 10) as u8;
        assert(n % 10 < 10) by (nonlinear_arith);
        assert(dec_rep(n) == dec_rep(n / 10) + seq![d]);
        assert(dec_rep(n).drop_last() =~= dec_rep(n / 10));
        assert(dec_rep(n).last() == d);
        assert(dec_val(dec_rep(n)) == (n / 10) * 10 + n % 10);
        assert((n / 10) * 10 + n % 10 == n) by (nonlinear_arith);
    }
}

pub proof fn lemma_dec_val_nonneg(s: Seq<u8>)
    requires
        all_digits(s),
    ensures
        dec_val(s) >= 0,
    decreases s.len(),
{
    if s.len() > 0 {
        assert(all_digits(s.drop_last())) by {
            assert(forall|i: int| 0 <= i < s.drop_last().len() ==> s.drop_last()[i] == s[i]);
        }
        lemma_dec_val_nonneg(s.drop_last());
        assert(is_digit(s.last()));
    }
}

pub proof fn lemma_dec_val_pos(s: Seq<u8>)
    requires
        all_digits(s),
        s.len() >= 1,
        s[0] != 48,
    ensures
        dec_val(s) >= 1,
    decreases s.len(),
{
    if s.len() == 1 {
        assert(s.drop_last() =~= Seq::<u8>::empty());
        assert(dec_val(Seq::<u8>::empty()) == 0);
        assert(s.last() == s[0]);
        assert(is_digit(s[0]));
    } else {
        assert(all_digits(s.drop_last()) && s.drop_last()[0] == s[0]) by {
            assert(forall|i: int| 0 <= i < s.drop_last().len() ==> s.drop_last()[i] == s[i]);
        }
        lemma_dec_val_pos(s.drop_last());
        assert(is_digit(s.last()));
        assert(dec_val(s) >= 1) by (nonlinear_arith)
            requires
                dec_val(s) == dec_val(s.drop_last()) * 10 + (s.last() - 48),
                dec_val(s.drop_last()) >= 1,
                s.last() >= 48,
        ;
    }
}

/// A digit string without a leading zero is the canonical form of its value.
pub proof fn lemma_canonical_digits(s: Seq<u8>)
    requires
        all_digits(s),
        s.len() >= 1,
        s.len() == 1 || s[0] != 48,
    ensures
        dec_val(s) >= 0,
        s == dec_rep(dec_val(s) as nat),
    decreases s.len(),
{
    lemma_dec_val_nonneg(s);
    if s.len() == 1 {
        assert(s.drop_last() =~= Seq::<u8>::empty());
        assert(dec_val(Seq::<u8>::empty()) == 0);
        assert(is_digit(s[0]));
        assert(s.last() == s[0]);
        assert(dec_val(s) == s[0] - 48);
        assert(s =~= dec_rep(dec_val(s) as nat));
    } else {
        let front = s.drop_last();
        assert(all_digits(front) && front[0] == s[0]) by {
            assert(forall|i: int| 0 <= i < front.len() ==> front[i] == s[i]);
        }
        lemma_canonical_digits(front);
        lemma_dec_val_pos(front);
        let v = dec_val(s);
        let fv = dec_val(front);
        let d = s.last();
        assert(is_digit(d));
        assert(v == fv * 10 + (d - 48));
        assert(fv >= 1);
        assert(v >= 10) by (nonlinear_arith)
            requires v == fv * 10 + (d - 48), fv >= 1, d >= 48;
        assert(v / 10 == fv && v % 10 == d - 48) by (nonlinear_arith)
            requires v == fv * 10 + (d - 48), 0 <= d - 48 < 10;
        assert(dec_rep(v as nat) == dec_rep(fv as nat) + seq![(48 + v as nat % 10) as u8]);
        assert(s =~= front + seq![d]);
        assert(s == dec_rep(v as nat));
    }
}

/// The value of a prefix of a digit string is at most the whole value.
pub proof fn lemma_dec_val_take_le(s: Seq<u8>, k: int)
    requires
        all_digits(s),
        0 <= k <= s.len(),
    ensures
        dec_val(s.take(k)) <= dec_val(s),
    decreases s.len() - k,
{
    if k == s.len() {
        assert(s.take(k) =~= s);
    } else {
        let t = s.take(k + 1);
        assert(all_digits(t) && all_digits(s.take(k))) by {
            assert(forall|i: int| 0 <= i < t.len() ==> t[i] == s[i]);
            assert(forall|i: int| 0 <= i < s.take(k).len() ==> s.take(k)[i] == s[i]);
        }
        assert(t.drop_last() =~= s.take(k));
        assert(t.last() == s[k]);
        lemma_dec_val_nonneg(s.take(k));
        assert(dec_val(t) == dec_val(s.take(k)) * 10 + (s[k] - 48));
        assert(dec_val(s.take(k)) <= dec_val(t)) by (nonlinear_arith)
            requires
                dec_val(t) == dec_val(s.take(k)) * 10 + (s[k] - 48),
                dec_val(s.take(k)) >= 0,
                is_digit(s[k]),
        ;
        lemma_dec_val_take_le(s, k + 1);
    }
}

// ---------------------------------------------------------------------------
// The literal segments of the payload object
// ---------------------------------------------------------------------------

/// `{"message_type":"`
#[verifier::opaque]
pub open spec fn lit_head() -> Seq<u8> {
    seq![
        123, 34, 109, 101, 115, 115, 97, 103, 101, 95, 116, 121, 112, 101, 34,
        58, 34,
    ]
}

/// `","seq_num":`
#[verifier::opaque]
pub open spec fn lit_seq_num() -> Seq<u8> {
    seq![34, 44, 34, 115, 101, 113, 95, 110, 117, 109, 34, 58]
}

/// `,"vote":`
#[verifier::opaque]
pub open spec fn lit_vote() -> Seq<u8> {
    seq![44, 34, 118, 111, 116, 101, 34, 58]
}

/// `,"nonce":[`
#[verifier::opaque]
pub open spec fn lit_nonce() -> Seq<u8> {
    seq![44, 34, 110, 111, 110, 99, 101, 34, 58, 91]
}

/// `]}`
#[verifier::opaque]
pub open spec fn lit_tail() -> Seq<u8> {
    seq![93, 125]
}

/// The wire name of a message kind.
#[verifier::opaque]
pub open spec fn kind_bytes(k: MessageKind) -> Seq<u8> {
    match k {
        MessageKind::Request => seq![114, 101, 113, 117, 101, 115, 116],
        MessageKind::Response => seq![114, 101, 115, 112, 111, 110, 115, 101],
        MessageKind::Unavailable => seq![
            117, 110, 97, 118, 97, 105, 108, 97, 98, 108, 101,
        ],
        MessageKind::Undefined => seq![117, 110, 100, 101, 102, 105, 110, 101, 100],
    }
}

/// The lengths of the literal segments and the delimiter bytes that the
/// parser relies on. The segment contents stay folded away otherwise.
pub proof fn lemma_lit_facts()
    ensures
        lit_head().len() == 17,
        lit_seq_num().len() == 12,
        lit_vote().len() == 8,
        lit_nonce().len() == 10,
        lit_tail().len() == 2,
        lit_vote()[0] == 44,
        lit_nonce()[0] == 44,
        lit_tail()[0] == 93,
        lit_tail()[1] == 125,
        kind_bytes(MessageKind::Request).len() == 7,
        kind_bytes(MessageKind::Response).len() == 8,
        kind_bytes(MessageKind::Unavailable).len() == 11,
        kind_bytes(MessageKind::Undefined).len() == 9,
{
    reveal(lit_head);
    reveal(lit_seq_num);
    reveal(lit_vote);
    reveal(lit_nonce);
    reveal(lit_tail);
    reveal(kind_bytes);
}

/// The comma-separated decimal list that a nonce becomes.
pub open spec fn nonce_rep(s: Seq<u8>) -> Seq<u8>
    decreases s.len(),
{
    if s.len() == 0 {
        Seq::<u8>::empty()
    } else if s.len() == 1 {
        dec_rep(s[0] as nat)
    } else {
        dec_rep(s[0] as nat) + seq![44] + nonce_rep(s.skip(1))
    }
}

/// The opening brace through the `:` that precedes the sequence number.
pub open spec fn head_spec(t: MessageKind) -> Seq<u8> {
    lit_head() + (kind_bytes(t) + lit_seq_num())
}

/// The sequence-number field, through the `:` that precedes the vote.
pub open spec fn seq_field_spec(seq_num: u64) -> Seq<u8> {
    dec_rep(seq_num as nat) + lit_vote()
}

/// The vote field, through the `[` that opens the nonce list.
pub open spec fn vote_field_spec(vote: u8) -> Seq<u8> {
    dec_rep(vote as nat) + lit_nonce()
}

/// The two numeric fields, through the `[` that opens the nonce list.
pub open spec fn nums_spec(seq_num: u64, vote: u8) -> Seq<u8> {
    seq_field_spec(seq_num) + vote_field_spec(vote)
}

/// Everything up to and including the `[` that opens the nonce list.
pub open spec fn prefix_spec(t: MessageKind, seq_num: u64, vote: u8) -> Seq<u8> {
    head_spec(t) + nums_spec(seq_num, vote)
}

/// The full canonical encoding of a payload with the given fields.
pub open spec fn encode_spec(t: MessageKind, seq_num: u64, vote: u8, nonce: Seq<u8>) -> Seq<u8> {
    prefix_spec(t, seq_num, vote) + (nonce_rep(nonce) + lit_tail())
}

/// The canonical encoding of a message.
pub open spec fn msg_encoding(m: SnowballMessage) -> Seq<u8> {
    encode_spec(m.message_type, m.seq_num, m.vote, m.nonce@)
}

// ---------------------------------------------------------------------------
// Encoding
// ---------------------------------------------------------------------------

fn push_lit_head(out: &mut Vec<u8>)
    ensures
        final(out)@ == old(out)@ + lit_head(),
{
    out.push(123);
    out.push(34);
    out.push(109);
    out.push(101);
    out.push(115);
    out.push(115);
    out.push(97);
    out.push(103);
    out.push(101);
    out.push(95);
    out.push(116);
    out.push(121);
    out.push(112);
    out.push(101);
    out.push(34);
    out.push(58);
    out.push(34);
    proof {
        reveal(lit_head);
        assert(out@ =~= old(out)@ + lit_head());
    }
}

fn push_lit_seq_num(out: &mut Vec<u8>)
    ensures
        final(out)@ == old(out)@ + lit_seq_num(),
{
    out.push(34);
    out.push(44);
    out.push(34);
    out.push(115);
    out.push(101);
    out.push(113);
    out.push(95);
    out.push(110);
    out.push(117);
    out.push(109);
    out.push(34);
    out.push(58);
    proof {
        reveal(lit_seq_num);
        assert(out@ =~= old(out)@ + lit_seq_num());
    }
}

fn push_lit_vote(out: &mut Vec<u8>)
    ensures
        final(out)@ == old(out)@ + lit_vote(),
{
    out.push(44);
    out.push(34);
    out.push(118);
    out.push(111);
    out.push(116);
    out.push(101);
    out.push(34);
    out.push(58);
    proof {
        reveal(lit_vote);
        assert(out@ =~= old(out)@ + lit_vote());
    }
}

fn push_lit_nonce(out: &mut Vec<u8>)
    ensures
        final(out)@ == old(out)@ + lit_nonce(),
{
    out.push(44);
    out.push(34);
    out.push(110);
    out.push(111);
    out.push(110);
    out.push(99);
    out.push(101);
    out.push(34);
    out.push(58);
    out.push(91);
    proof {
        reveal(lit_nonce);
        assert(out@ =~= old(out)@ + lit_nonce());
    }
}

fn push_kind(out: &mut Vec<u8>, k: MessageKind)
    ensures
        final(out)@ == old(out)@ + kind_bytes(k),
{
    match k {
        MessageKind::Request => {
            out.push(114);
            out.push(101);
            out.push(113);
            out.push(117);
            out.push(101);
            out.push(115);
            out.push(116);
        }
        MessageKind::Response => {
            out.push(114);
            out.push(101);
            out.push(115);
            out.push(112);
            out.push(111);
            out.push(110);
            out.push(115);
            out.push(101);
        }
        MessageKind::Unavailable => {
            out.push(117);
            out.push(110);
            out.push(97);
            out.push(118);
            out.push(97);
            out.push(105);
            out.push(108);
            out.push(97);
            out.push(98);
            out.push(108);
            out.push(101);
        }
        MessageKind::Undefined => {
            out.push(117);
            out.push(110);
            out.push(100);
            out.push(101);
            out.push(102);
            out.push(105);
            out.push(110);
            out.push(101);
            out.push(100);
        }
    }
    proof {
        reveal(kind_bytes);
        assert(out@ =~= old(out)@ + kind_bytes(k));
    }
}

/// Append the canonical decimal form of `n`.
fn push_dec_u64(out: &mut Vec<u8>, n: u64)
    ensures
        final(out)@ == old(out)@ + dec_rep(n as nat),
    decreases n,
{
    if n < 10 {
        out.push(48 + n as u8);
        assert(out@ =~= old(out)@ + dec_rep(n as nat));
    } else {
        push_dec_u64(out, n / 10);
        out.push(48 + (n % 10) as u8);
        assert(out@ =~= old(out)@ + dec_rep(n as nat));
    }
}

/// Append the decimal list form of the nonce bytes from index `i` on.
fn push_nonce_rep(out: &mut Vec<u8>, nonce: &Vec<u8>, i: usize)
    requires
        i <= nonce@.len(),
    ensures
        final(out)@ == old(out)@ + nonce_rep(nonce@.skip(i as int)),
    decreases nonce@.len() - i,
{
    if i < nonce.len() {
        push_dec_u64(out, nonce[i] as u64);
        if i + 1 < nonce.len() {
            out.push(44);
        }
        push_nonce_rep(out, nonce, i + 1);
        proof {
            let s = nonce@.skip(i as int);
            assert(s[0] == nonce@[i as int]);
            assert(s.skip(1) =~= nonce@.skip(i + 1));
            if i + 1 < nonce@.len() {
                assert(nonce_rep(s) == dec_rep(s[0] as nat) + seq![44] + nonce_rep(s.skip(1)));
                assert(out@ =~= old(out)@ + nonce_rep(s));
            } else {
                assert(s.len() == 1);
                assert(nonce_rep(s) == dec_rep(s[0] as nat));
                assert(nonce@.skip(i + 1) =~= Seq::<u8>::empty());
                assert(nonce_rep(nonce@.skip(i + 1)) == Seq::<u8>::empty());
                assert(out@ =~= old(out)@ + nonce_rep(s));
            }
        }
    } else {
        proof {
            assert(nonce@.skip(i as int) =~= Seq::<u8>::empty());
        }
    }
}

/// Encode a payload into its canonical JSON form.
pub fn encode_message(m: &SnowballMessage) -> (r: Vec<u8>)
    ensures
        r@ == msg_encoding(*m),
{
    let mut out: Vec<u8> = Vec::new();
    push_lit_head(&mut out);
    push_kind(&mut out, m.message_type);
    push_lit_seq_num(&mut out);
    push_dec_u64(&mut out, m.seq_num);
    push_lit_vote(&mut out);
    push_dec_u64(&mut out, m.vote as u64);
    push_lit_nonce(&mut out);
    push_nonce_rep(&mut out, &m.nonce, 0);
    out.push(93);
    out.push(125);
    proof {
        reveal(lit_tail);
        assert(m.nonce@.skip(0) =~= m.nonce@);
        assert(out@ =~= msg_encoding(*m));
    }
    out
}

// ---------------------------------------------------------------------------
// Parsing
// ---------------------------------------------------------------------------

/// Splitting a concatenation inside a sequence: if the range `[a, b)` of `s`
/// reads `x` followed by `y`, each part is the corresponding subrange.
pub proof fn lemma_split_at(s: Seq<u8>, a: int, b: int, x: Seq<u8>, y: Seq<u8>)
    requires
        0 <= a <= b <= s.len(),
        s.subrange(a, b) == x + y,
    ensures
        b - a == x.len() + y.len(),
        s.subrange(a, a + x.len()) == x,
        s.subrange(a + x.len(), b) == y,
{
    assert(s.subrange(a, b).len() == x.len() + y.len());
    assert forall|i: int| 0 <= i < x.len() implies s.subrange(a, a + x.len() as int)[i] == x[i] by {
        assert(s.subrange(a, b)[i] == (x + y)[i]);
    }
    assert(s.subrange(a, a + x.len() as int) =~= x);
    assert forall|i: int| 0 <= i < y.len() implies s.subrange(a + x.len(), b)[i] == y[i] by {
        assert(s.subrange(a, b)[x.len() + i] == (x + y)[x.len() + i]);
        assert(s.subrange(a, b)[x.len() + i] == s[a + x.len() + i]);
        assert(s.subrange(a + x.len(), b)[i] == s[a + x.len() + i]);
        assert((x + y)[x.len() + i] == y[i]);
    }
    assert(s.subrange(a + x.len(), b) =~= y);
}

/// Whether `lit` occurs in `bytes` exactly at position `i`.
fn match_at(bytes: &Vec<u8>, i: usize, lit: &Vec<u8>) -> (r: bool)
    requires
        i <= bytes@.len(),
    ensures
        r == (i + lit@.len() <= bytes@.len()
            && bytes@.subrange(i as int, i + lit@.len()) == lit@),
{
    let n = bytes.len();
    if n - i < lit.len() {
        return false;
    }
    let mut j: usize = 0;
    while j < lit.len()
        invariant
            n == bytes@.len(),
            i + lit@.len() <= n,
            j <= lit@.len(),
            forall|m: int| 0 <= m < j ==> bytes@[i + m] == lit@[m],
        decreases lit@.len() - j,
    {
        if bytes[i + j] != lit[j] {
            proof {
                assert(bytes@.subrange(i as int, i + lit@.len())[j as int] == bytes@[i + j]);
            }
            return false;
        }
        j += 1;
    }
    proof {
        assert(bytes@.subrange(i as int, i + lit@.len()) =~= lit@);
    }
    true
}

fn lit_head_vec() -> (v: Vec<u8>)
    ensures
        v@ == lit_head(),
{
    let mut v: Vec<u8> = Vec::new();
    push_lit_head(&mut v);
    proof {
        assert(v@ =~= lit_head());
    }
    v
}

fn lit_seq_num_vec() -> (v: Vec<u8>)
    ensures
        v@ == lit_seq_num(),
{
    let mut v: Vec<u8> = Vec::new();
    push_lit_seq_num(&mut v);
    proof {
        assert(v@ =~= lit_seq_num());
    }
    v
}

fn lit_vote_vec() -> (v: Vec<u8>)
    ensures
        v@ == lit_vote(),
{
    let mut v: Vec<u8> = Vec::new();
    push_lit_vote(&mut v);
    proof {
        assert(v@ =~= lit_vote());
    }
    v
}

fn lit_nonce_vec() -> (v: Vec<u8>)
    ensures
        v@ == lit_nonce(),
{
    let mut v: Vec<u8> = Vec::new();
    push_lit_nonce(&mut v);
    proof {
        assert(v@ =~= lit_nonce());
    }
    v
}

fn kind_vec(k: MessageKind) -> (v: Vec<u8>)
    ensures
        v@ == kind_bytes(k),
{
    let mut v: Vec<u8> = Vec::new();
    push_kind(&mut v, k);
    proof {
        assert(v@ =~= kind_bytes(k));
    }
    v
}

/// Scan the canonical decimal form of a `u64` starting at `i`; the digit run
/// must be followed by a non-digit (or the end of the input).
pub fn scan_u64(bytes: &Vec<u8>, i: usize) -> (r: Option<(u64, usize)>)
    requires
        i <= bytes@.len(),
    ensures
        (r matches Some(p) ==> i < p.1 <= bytes@.len()
            && bytes@.subrange(i as int, p.1 as int) == dec_rep(p.0 as nat)
            && (p.1 == bytes@.len() || !is_digit(bytes@[p.1 as int]))),
        forall|n: u64, j: int|
            #![trigger dec_rep(n as nat), bytes@.subrange(i as int, j)]
            (i <= j <= bytes@.len()
                && bytes@.subrange(i as int, j) == dec_rep(n as nat)
                && (j == bytes@.len() || !is_digit(bytes@[j])))
                ==> r == Some((n, j as usize)),
{
    let len = bytes.len();
    if i == len || !(48 <= bytes[i] && bytes[i] <= 57) {
        proof {
            assert forall|n: u64, j: int|
                !(i <= j <= bytes@.len()
                    && #[trigger] bytes@.subrange(i as int, j) == #[trigger] dec_rep(n as nat)
                    && (j == bytes@.len() || !is_digit(bytes@[j]))) by {
                if i <= j <= bytes@.len() && bytes@.subrange(i as int, j) == dec_rep(n as nat) {
                    lemma_dec_rep_digits(n as nat);
                    assert(j - i == dec_rep(n as nat).len());
                    assert(bytes@.subrange(i as int, j)[0] == bytes@[i as int]);
                    assert(is_digit(bytes@[i as int]));
                }
            }
        }
        return None;
    }
    if bytes[i] == 48 {
        // A leading zero is canonical only as the single digit 0.
        if i + 1 < len && 48 <= bytes[i + 1] && bytes[i + 1] <= 57 {
            proof {
                assert forall|n: u64, j: int|
                    !(i <= j <= bytes@.len()
                        && #[trigger] bytes@.subrange(i as int, j) == #[trigger] dec_rep(n as nat)
                        && (j == bytes@.len() || !is_digit(bytes@[j]))) by {
                    if i <= j <= bytes@.len() && bytes@.subrange(i as int, j) == dec_rep(n as nat)
                        && (j == bytes@.len() || !is_digit(bytes@[j])) {
                        lemma_dec_rep_digits(n as nat);
                        assert(bytes@.subrange(i as int, j)[0] == bytes@[i as int]);
                        if n > 0 {
                            assert(dec_rep(n as nat)[0] != 48);
                        }
                        assert(n == 0);
                        assert(dec_rep(n as nat) == seq![48u8]);
                        assert(j == i + 1);
                        assert(is_digit(bytes@[j]));
                    }
                }
            }
            return None;
        }
        proof {
            assert(dec_rep(0nat) == seq![48u8]);
            assert(bytes@.subrange(i as int, i + 1) =~= dec_rep(0nat));
            assert forall|n: u64, j: int|
                (i <= j <= bytes@.len()
                    && #[trigger] bytes@.subrange(i as int, j) == #[trigger] dec_rep(n as nat)
                    && (j == bytes@.len() || !is_digit(bytes@[j])))
                    implies Some((0u64, (i + 1) as usize)) == Some((n, j as usize)) by {
                lemma_dec_rep_digits(n as nat);
                assert(bytes@.subrange(i as int, j)[0] == bytes@[i as int]);
                if n > 0 {
                    assert(dec_rep(n as nat)[0] != 48);
                }
                assert(n == 0);
                assert(dec_rep(n as nat) == seq![48u8]);
                assert(j == i + 1);
            }
        }
        return Some((0, i + 1));
    }
    let mut acc: u64 = (bytes[i] - 48) as u64;
    let mut j: usize = i + 1;
    proof {
        assert(bytes@.subrange(i as int, i + 1) =~= seq![bytes@[i as int]]);
        assert(bytes@.subrange(i as int, i + 1).drop_last() =~= Seq::<u8>::empty());
        assert(dec_val(Seq::<u8>::empty()) == 0);
        assert(dec_val(bytes@.subrange(i as int, i + 1)) == bytes@[i as int] - 48);
    }
    while j < len && 48 <= bytes[j] && bytes[j] <= 57
        invariant
            i < j <= len,
            len == bytes@.len(),
            is_digit(bytes@[i as int]),
            bytes@[i as int] != 48,
            all_digits(bytes@.subrange(i as int, j as int)),
            acc == dec_val(bytes@.subrange(i as int, j as int)),
        decreases len - j,
    {
        let d: u8 = bytes[j] - 48;
        if acc > (u64::MAX - d as u64) / 10 {
            proof {
                assert forall|n: u64, jj: int|
                    !(i <= jj <= bytes@.len()
                        && #[trigger] bytes@.subrange(i as int, jj) == #[trigger] dec_rep(n as nat)
                        && (jj == bytes@.len() || !is_digit(bytes@[jj]))) by {
                    if i <= jj <= bytes@.len() && bytes@.subrange(i as int, jj) == dec_rep(n as nat)
                        && (jj == bytes@.len() || !is_digit(bytes@[jj])) {
                        lemma_dec_rep_digits(n as nat);
                        // every index in [i, j] holds a digit, so the
                        // decomposition's digit run must extend past j
                        if jj <= j {
                            assert(i < jj);
                            if jj < j {
                                assert(bytes@.subrange(i as int, j as int)[jj - i] == bytes@[jj]);
                                assert(is_digit(bytes@[jj]));
                                assert(jj < len);
                                assert(false);
                            } else {
                                assert(is_digit(bytes@[j as int]));
                                assert(false);
                            }
                        }
                        assert(jj > j);
                        let rep = dec_rep(n as nat);
                        assert forall|m: int| 0 <= m < j + 1 - i implies
                            #[trigger] bytes@.subrange(i as int, j + 1)[m] == rep.take(j + 1 - i)[m] by {
                            assert(bytes@.subrange(i as int, jj)[m] == rep[m]);
                            assert(bytes@.subrange(i as int, j + 1)[m] == bytes@[i + m]);
                            assert(bytes@.subrange(i as int, jj)[m] == bytes@[i + m]);
                        }
                        assert(bytes@.subrange(i as int, j + 1) =~= rep.take(j + 1 - i));
                        lemma_dec_val_take_le(rep, j + 1 - i);
                        lemma_dec_val_rep(n as nat);
                        assert(dec_val(rep.take(j + 1 - i)) <= n);
                        assert(bytes@.subrange(i as int, j + 1).drop_last() =~= bytes@.subrange(
                            i as int, j as int));
                        assert(bytes@.subrange(i as int, j + 1).last() == bytes@[j as int]);
                        assert(dec_val(bytes@.subrange(i as int, j + 1)) == acc * 10 + d);
                        assert(acc * 10 + d <= u64::MAX);
                        assert(acc <= (u64::MAX - d as u64) / 10) by (nonlinear_arith)
                            requires acc * 10 + d <= u64::MAX, 0 <= d < 10, acc >= 0;
                        assert(false);
                    }
                }
            }
            return None;
        }
        proof {
            assert(acc * 10 + d <= u64::MAX) by (nonlinear_arith)
                requires acc <= (u64::MAX - d as u64) / 10, 0 <= d < 10, acc >= 0;
            assert(bytes@.subrange(i as int, j + 1).drop_last() =~= bytes@.subrange(
                i as int, j as int));
            assert(bytes@.subrange(i as int, j + 1).last() == bytes@[j as int]);
            assert forall|m: int| 0 <= m < j + 1 - i implies is_digit(
                #[trigger] bytes@.subrange(i as int, j + 1)[m]) by {
                if m < j - i {
                    assert(bytes@.subrange(i as int, j + 1)[m] == bytes@.subrange(
                        i as int, j as int)[m]);
                } else {
                    assert(bytes@.subrange(i as int, j + 1)[m] == bytes@[j as int]);
                }
            }
        }
        acc = acc * 10 + d as u64;
        j += 1;
    }
    proof {
        let run = bytes@.subrange(i as int, j as int);
        assert(run[0] == bytes@[i as int]);
        lemma_canonical_digits(run);
        assert(run == dec_rep(acc as nat));
        assert forall|n: u64, jj: int|
            (i <= jj <= bytes@.len()
                && #[trigger] bytes@.subrange(i as int, jj) == #[trigger] dec_rep(n as nat)
                && (jj == bytes@.len() || !is_digit(bytes@[jj])))
                implies Some((acc, j)) == Some((n, jj as usize)) by {
            lemma_dec_rep_digits(n as nat);
            assert(i < jj);
            if jj < j {
                assert(bytes@.subrange(i as int, j as int)[jj - i] == bytes@[jj]);
                assert(is_digit(bytes@[jj]));
                assert(jj < len);
                assert(false);
            }
            if jj > j {
                assert(bytes@.subrange(i as int, jj)[j - i] == bytes@[j as int]);
                assert(is_digit(bytes@[j as int]));
                assert(j < len);
                assert(false);
            }
            assert(jj == j);
            assert(dec_rep(n as nat) == dec_rep(acc as nat));
            lemma_dec_val_rep(n as nat);
            lemma_dec_val_rep(acc as nat);
            assert(n == acc);
        }
    }
    Some((acc, j))
}

/// Scan the canonical decimal form of a `u8` starting at `i`.
fn scan_u8(bytes: &Vec<u8>, i: usize) -> (r: Option<(u8, usize)>)
    requires
        i <= bytes@.len(),
    ensures
        (r matches Some(p) ==> i < p.1 <= bytes@.len()
            && bytes@.subrange(i as int, p.1 as int) == dec_rep(p.0 as nat)
            && (p.1 == bytes@.len() || !is_digit(bytes@[p.1 as int]))),
        forall|n: u8, j: int|
            #![trigger dec_rep(n as nat), bytes@.subrange(i as int, j)]
            (i <= j <= bytes@.len()
                && bytes@.subrange(i as int, j) == dec_rep(n as nat)
                && (j == bytes@.len() || !is_digit(bytes@[j])))
                ==> r == Some((n, j as usize)),
{
    match scan_u64(bytes, i) {
        None => {
            proof {
                assert forall|n: u8, j: int|
                    !(i <= j <= bytes@.len()
                        && #[trigger] bytes@.subrange(i as int, j) == #[trigger] dec_rep(n as nat)
                        && (j == bytes@.len() || !is_digit(bytes@[j]))) by {
                    if i <= j <= bytes@.len() && bytes@.subrange(i as int, j) == dec_rep(n as nat)
                        && (j == bytes@.len() || !is_digit(bytes@[j])) {
                        assert(dec_rep((n as u64) as nat) == dec_rep(n as nat));
                    }
                }
            }
            None
        }
        Some((v, j)) => {
            if v > 255 {
                proof {
                    assert forall|n: u8, jj: int|
                        !(i <= jj <= bytes@.len()
                            && #[trigger] bytes@.subrange(i as int, jj) == #[trigger] dec_rep(
                            n as nat)
                            && (jj == bytes@.len() || !is_digit(bytes@[jj]))) by {
                        if i <= jj <= bytes@.len()
                            && bytes@.subrange(i as int, jj) == dec_rep(n as nat)
                            && (jj == bytes@.len() || !is_digit(bytes@[jj])) {
                            assert(dec_rep((n as u64) as nat) == dec_rep(n as nat));
                        }
                    }
                }
                None
            } else {
                proof {
                    assert forall|n: u8, jj: int|
                        (i <= jj <= bytes@.len()
                            && #[trigger] bytes@.subrange(i as int, jj) == #[trigger] dec_rep(
                            n as nat)
                            && (jj == bytes@.len() || !is_digit(bytes@[jj])))
                            implies Some(((v as u8), j)) == Some((n, jj as usize)) by {
                        assert(dec_rep((n as u64) as nat) == dec_rep(n as nat));
                    }
                }
                Some((v as u8, j))
            }
        }
    }
}

/// The wire name of a kind starting at `i`. No kind's name is a prefix of
/// another's, so at most one can occur at a given position.
fn parse_kind(bytes: &Vec<u8>, i: usize) -> (r: Option<(MessageKind, usize)>)
    requires
        i <= bytes@.len(),
    ensures
        (r matches Some(p) ==> i <= p.1 <= bytes@.len()
            && bytes@.subrange(i as int, p.1 as int) == kind_bytes(p.0)),
        forall|k: MessageKind, j: int|
            #![trigger kind_bytes(k), bytes@.subrange(i as int, j)]
            (i <= j <= bytes@.len() && bytes@.subrange(i as int, j) == kind_bytes(k))
                ==> r == Some((k, j as usize)),
{
    let len = bytes.len();
    proof {
        assert(bytes@.len() == len);
        lemma_lit_facts();
    }
    let request = kind_vec(MessageKind::Request);
    let response = kind_vec(MessageKind::Response);
    let unavailable = kind_vec(MessageKind::Unavailable);
    let undefined = kind_vec(MessageKind::Undefined);
    let r: Option<(MessageKind, usize)> = if match_at(bytes, i, &request) {
        Some((MessageKind::Request, i + 7))
    } else if match_at(bytes, i, &response) {
        Some((MessageKind::Response, i + 8))
    } else if match_at(bytes, i, &unavailable) {
        Some((MessageKind::Unavailable, i + 11))
    } else if match_at(bytes, i, &undefined) {
        Some((MessageKind::Undefined, i + 9))
    } else {
        None
    };
    proof {
        reveal(kind_bytes);
        assert forall|k: MessageKind, j: int|
            (i <= j <= bytes@.len() && #[trigger] bytes@.subrange(i as int, j) == #[trigger]
            kind_bytes(k)) implies r == Some((k, j as usize)) by {
            assert(j == i + kind_bytes(k).len());
            assert(bytes@.subrange(i as int, i + kind_bytes(k).len()) == kind_bytes(k));
            match r {
                Some(p) => {
                    let k0 = p.0;
                    let a = bytes@.subrange(i as int, i + kind_bytes(k0).len());
                    let b = bytes@.subrange(i as int, i + kind_bytes(k).len());
                    assert(a == kind_bytes(k0));
                    // the two matched names start at the same index, so the
                    // shorter is a prefix of the longer; distinct names always
                    // differ at index 0 or 2
                    if k0 != k {
                        if kind_bytes(k0).len() <= kind_bytes(k).len() {
                            assert(a[0] == b[0] && a[2] == b[2]) by {
                                assert(a[0] == bytes@[i as int] && b[0] == bytes@[i as int]);
                                assert(a[2] == bytes@[i + 2] && b[2] == bytes@[i + 2]);
                            }
                            assert(false);
                        } else {
                            assert(a[0] == b[0] && a[2] == b[2]) by {
                                assert(a[0] == bytes@[i as int] && b[0] == bytes@[i as int]);
                                assert(a[2] == bytes@[i + 2] && b[2] == bytes@[i + 2]);
                            }
                            assert(false);
                        }
                    }
                }
                None => {
                    // a name is there, so one of the four matches succeeded
                    assert(false);
                }
            }
        }
    }
    r
}

/// The first byte of a non-empty nonce list is a digit.
pub proof fn lemma_nonce_rep_first(n: Seq<u8>)
    requires
        n.len() >= 1,
    ensures
        nonce_rep(n).len() >= 1,
        is_digit(nonce_rep(n)[0]),
{
    lemma_dec_rep_digits(n[0] as nat);
    if n.len() == 1 {
        assert(nonce_rep(n) == dec_rep(n[0] as nat));
    } else {
        assert(nonce_rep(n) == dec_rep(n[0] as nat) + seq![44u8] + nonce_rep(n.skip(1)));
        assert(nonce_rep(n)[0] == dec_rep(n[0] as nat)[0]);
    }
}

/// One or more comma-separated decimal bytes, ending right before a `]`.
/// Parsed bytes are appended to `acc`.
fn parse_nonce_items(bytes: &Vec<u8>, i: usize, acc: &mut Vec<u8>) -> (r: Option<usize>)
    requires
        i <= bytes@.len(),
    ensures
        (r matches Some(j) ==> {
            &&& i < j < bytes@.len()
            &&& bytes@[j as int] == 93
            &&& final(acc)@.len() > old(acc)@.len()
            &&& final(acc)@.take(old(acc)@.len() as int) == old(acc)@
            &&& bytes@.subrange(i as int, j as int) == nonce_rep(
                final(acc)@.skip(old(acc)@.len() as int))
        }),
        forall|ns: Seq<u8>, j: int|
            #![trigger nonce_rep(ns), bytes@.subrange(i as int, j)]
            (ns.len() >= 1 && i <= j < bytes@.len()
                && bytes@.subrange(i as int, j) == nonce_rep(ns)
                && bytes@[j] == 93)
                ==> (r == Some(j as usize) && final(acc)@ == old(acc)@ + ns),
    decreases bytes@.len() - i,
{
    proof {
        // how a valid decomposition must begin: with the canonical form of
        // its first byte, terminated by a comma or the closing bracket
        assert forall|ns: Seq<u8>, j: int|
            (ns.len() >= 1 && i <= j < bytes@.len()
                && #[trigger] bytes@.subrange(i as int, j) == #[trigger] nonce_rep(ns)
                && bytes@[j] == 93) implies {
                let dl = dec_rep(ns[0] as nat).len() as int;
                &&& i + dl <= j
                &&& bytes@.subrange(i as int, i + dl) == dec_rep(ns[0] as nat)
                &&& (ns.len() == 1 ==> i + dl == j)
                &&& (ns.len() > 1 ==> i + dl < j && bytes@[i + dl] == 44
                    && bytes@.subrange(i + dl + 1, j) == nonce_rep(ns.skip(1)))
            } by {
            if ns.len() == 1 {
                assert(nonce_rep(ns) == dec_rep(ns[0] as nat));
                lemma_split_at(bytes@, i as int, j, dec_rep(ns[0] as nat), Seq::<u8>::empty());
            } else {
                assert(nonce_rep(ns) == dec_rep(ns[0] as nat) + seq![44u8] + nonce_rep(ns.skip(1)));
                assert(nonce_rep(ns) =~= dec_rep(ns[0] as nat) + (seq![44u8] + nonce_rep(ns.skip(1))));
                lemma_split_at(bytes@, i as int, j, dec_rep(ns[0] as nat),
                    seq![44u8] + nonce_rep(ns.skip(1)));
                let dl = dec_rep(ns[0] as nat).len() as int;
                lemma_split_at(bytes@, i + dl, j, seq![44u8], nonce_rep(ns.skip(1)));
                assert(bytes@.subrange(i + dl, i + dl + 1) == seq![44u8]);
                assert(bytes@.subrange(i + dl, i + dl + 1)[0] == bytes@[i + dl]);
                lemma_nonce_rep_first(ns.skip(1));
                assert(i + dl + 1 <= j);
                if i + dl + 1 == j {
                    assert(nonce_rep(ns.skip(1)).len() == 0);
                    assert(false);
                }
            }
        }
    }
    let len = bytes.len();
    let first = match scan_u8(bytes, i) {
        None => {
            proof {
                assert forall|ns: Seq<u8>, j: int|
                    !(ns.len() >= 1 && i <= j < bytes@.len()
                        && #[trigger] bytes@.subrange(i as int, j) == #[trigger] nonce_rep(ns)
                        && bytes@[j] == 93) by {
                    if ns.len() >= 1 && i <= j < bytes@.len()
                        && bytes@.subrange(i as int, j) == nonce_rep(ns) && bytes@[j] == 93 {
                        let dl = dec_rep(ns[0] as nat).len() as int;
                        // the first number would have been scanned
                        if ns.len() == 1 {
                            assert(!is_digit(bytes@[i + dl]));
                        } else {
                            assert(bytes@[i + dl] == 44);
                        }
                        assert(false);
                    }
                }
            }
            return None;
        }
        Some(x) => x,
    };
    let d = first.0;
    let p = first.1;
    if p < len && bytes[p] == 44 {
        acc.push(d);
        let ghost acc_mid = acc@;
        let r2 = parse_nonce_items(bytes, p + 1, acc);
        match r2 {
            None => {
                proof {
                    assert forall|ns: Seq<u8>, j: int|
                        !(ns.len() >= 1 && i <= j < bytes@.len()
                            && #[trigger] bytes@.subrange(i as int, j) == #[trigger] nonce_rep(ns)
                            && bytes@[j] == 93) by {
                        if ns.len() >= 1 && i <= j < bytes@.len()
                            && bytes@.subrange(i as int, j) == nonce_rep(ns) && bytes@[j] == 93 {
                            let dl = dec_rep(ns[0] as nat).len() as int;
                            if ns.len() == 1 {
                                // then the scanner would have stopped at `]`
                                assert(p == j && d == ns[0]);
                                assert(false);
                            } else {
                                assert(p == i + dl && d == ns[0]);
                                lemma_nonce_rep_first(ns.skip(1));
                                assert(false);
                            }
                        }
                    }
                }
                None
            }
            Some(j2) => {
                proof {
                    let added = acc@.skip(old(acc)@.len() as int);
                    assert(acc_mid == old(acc)@ + seq![d]);
                    assert(acc@.take(acc_mid.len() as int) == acc_mid);
                    assert(acc@.take(old(acc)@.len() as int) =~= old(acc)@) by {
                        assert forall|m: int| 0 <= m < old(acc)@.len() implies
                            acc@[m] == old(acc)@[m] by {
                            assert(acc@.take(acc_mid.len() as int)[m] == acc_mid[m]);
                        }
                    }
                    let tail_ns = acc@.skip(acc_mid.len() as int);
                    assert(added =~= seq![d] + tail_ns);
                    assert(added[0] == d);
                    assert(added.skip(1) =~= tail_ns);
                    assert(added.len() >= 2);
                    assert(nonce_rep(added) == dec_rep(d as nat) + seq![44u8] + nonce_rep(tail_ns));
                    // stitch the three consumed pieces back together
                    assert(bytes@.subrange(i as int, j2 as int) =~= bytes@.subrange(i as int,
                        p as int) + bytes@.subrange(p as int, p + 1) + bytes@.subrange(p + 1,
                        j2 as int));
                    assert(bytes@.subrange(p as int, p + 1) =~= seq![44u8]);
                    assert(bytes@.subrange(i as int, j2 as int) == nonce_rep(added));
                    // completeness
                    assert forall|ns: Seq<u8>, j: int|
                        (ns.len() >= 1 && i <= j < bytes@.len()
                            && #[trigger] bytes@.subrange(i as int, j) == #[trigger] nonce_rep(ns)
                            && bytes@[j] == 93) implies (Some(j2) == Some::<usize>(j as usize)
                            && acc@ == old(acc)@ + ns) by {
                        let dl = dec_rep(ns[0] as nat).len() as int;
                        if ns.len() == 1 {
                            assert(p == j && d == ns[0]);
                            assert(false);
                        }
                        assert(p == i + dl && d == ns[0]);
                        // instantiate the recursive call's completeness
                        assert(bytes@.subrange(p + 1, j) == nonce_rep(ns.skip(1)));
                        assert(j2 == j as usize && acc@ == acc_mid + ns.skip(1));
                        assert(old(acc)@ + ns =~= (old(acc)@ + seq![ns[0]]) + ns.skip(1));
                        assert(acc@ =~= old(acc)@ + ns);
                    }
                }
                Some(j2)
            }
        }
    } else if p < len && bytes[p] == 93 {
        acc.push(d);
        proof {
            assert(acc@.take(old(acc)@.len() as int) =~= old(acc)@);
            let added = acc@.skip(old(acc)@.len() as int);
            assert(added =~= seq![d]);
            assert(nonce_rep(added) == dec_rep(d as nat));
            assert forall|ns: Seq<u8>, j: int|
                (ns.len() >= 1 && i <= j < bytes@.len()
                    && #[trigger] bytes@.subrange(i as int, j) == #[trigger] nonce_rep(ns)
                    && bytes@[j] == 93) implies (Some(p) == Some::<usize>(j as usize)
                    && acc@ == old(acc)@ + ns) by {
                let dl = dec_rep(ns[0] as nat).len() as int;
                if ns.len() > 1 {
                    assert(p == i + dl && bytes@[i + dl] == 44);
                    assert(false);
                }
                assert(p == j && d == ns[0]);
                assert(ns =~= seq![d]);
                assert(acc@ =~= old(acc)@ + ns);
            }
        }
        Some(p)
    } else {
        proof {
            assert forall|ns: Seq<u8>, j: int|
                !(ns.len() >= 1 && i <= j < bytes@.len()
                    && #[trigger] bytes@.subrange(i as int, j) == #[trigger] nonce_rep(ns)
                    && bytes@[j] == 93) by {
                if ns.len() >= 1 && i <= j < bytes@.len()
                    && bytes@.subrange(i as int, j) == nonce_rep(ns) && bytes@[j] == 93 {
                    let dl = dec_rep(ns[0] as nat).len() as int;
                    if ns.len() == 1 {
                        assert(p == j);
                        assert(false);
                    } else {
                        assert(p == i + dl && bytes@[i + dl] == 44);
                        assert(false);
                    }
                }
            }
        }
        None
    }
}


/// Where each segment of an encoded payload lies: the fixed literals at
/// fixed offsets around the kind name, the two numbers, and the nonce list.
#[verifier::rlimit(100)]
pub proof fn lemma_decomposition(t: MessageKind, s: u64, v: u8, n: Seq<u8>, bytes: Seq<u8>)
    requires
        bytes == encode_spec(t, s, v, n),
    ensures
        ({
            let kl = kind_bytes(t).len() as int;
            let sl = dec_rep(s as nat).len() as int;
            let vl = dec_rep(v as nat).len() as int;
            let nl = nonce_rep(n).len() as int;
            &&& bytes.len() == 49 + kl + sl + vl + nl
            &&& bytes.subrange(0, 17) == lit_head()
            &&& bytes.subrange(17, 17 + kl) == kind_bytes(t)
            &&& bytes.subrange(17 + kl, 29 + kl) == lit_seq_num()
            &&& bytes.subrange(29 + kl, 29 + kl + sl) == dec_rep(s as nat)
            &&& bytes.subrange(29 + kl + sl, 37 + kl + sl) == lit_vote()
            &&& bytes.subrange(37 + kl + sl, 37 + kl + sl + vl) == dec_rep(v as nat)
            &&& bytes.subrange(37 + kl + sl + vl, 47 + kl + sl + vl) == lit_nonce()
            &&& bytes.subrange(47 + kl + sl + vl, 47 + kl + sl + vl + nl) == nonce_rep(n)
            &&& bytes.subrange(47 + kl + sl + vl + nl, 49 + kl + sl + vl + nl) == lit_tail()
            &&& bytes.subrange(0, 47 + kl + sl + vl) == prefix_spec(t, s, v)
            &&& bytes[29 + kl + sl] == 44
            &&& bytes[37 + kl + sl + vl] == 44
            &&& bytes[47 + kl + sl + vl + nl] == 93
            &&& bytes[48 + kl + sl + vl + nl] == 125
            &&& (n.len() >= 1 ==> is_digit(bytes[47 + kl + sl + vl]))
        }),
{
    lemma_lit_facts();
    let kb = kind_bytes(t);
    let sr = dec_rep(s as nat);
    let vr = dec_rep(v as nat);
    let nr = nonce_rep(n);
    let kl = kb.len() as int;
    let sl = sr.len() as int;
    let vl = vr.len() as int;
    let nl = nr.len() as int;
    let end = bytes.len() as int;
    let plen = prefix_spec(t, s, v).len() as int;
    assert(bytes.subrange(0, end) =~= bytes);
    lemma_split_at(bytes, 0, end, prefix_spec(t, s, v), nr + lit_tail());
    lemma_split_at(bytes, plen, end, nr, lit_tail());
    lemma_split_at(bytes, plen + nl, end, lit_tail(), Seq::<u8>::empty());
    // peel the prefix segments from the left
    lemma_split_at(bytes, 0, plen, head_spec(t), nums_spec(s, v));
    lemma_split_at(bytes, 0, 29 + kl, lit_head(), kb + lit_seq_num());
    lemma_split_at(bytes, 17, 29 + kl, kb, lit_seq_num());
    lemma_split_at(bytes, 29 + kl, plen, seq_field_spec(s), vote_field_spec(v));
    lemma_split_at(bytes, 29 + kl, 37 + kl + sl, sr, lit_vote());
    lemma_split_at(bytes, 37 + kl + sl, plen, vr, lit_nonce());
    assert(plen == 47 + kl + sl + vl);
    assert(bytes[29 + kl + sl] == 44) by {
        assert(bytes.subrange(29 + kl + sl, 37 + kl + sl)[0] == bytes[29 + kl + sl]);
    }
    assert(bytes[37 + kl + sl + vl] == 44) by {
        assert(bytes.subrange(37 + kl + sl + vl, 47 + kl + sl + vl)[0] == bytes[37 + kl + sl + vl]);
    }
    assert(bytes[47 + kl + sl + vl + nl] == 93) by {
        assert(bytes.subrange(47 + kl + sl + vl + nl, 49 + kl + sl + vl + nl)[0] == bytes[47 + kl
            + sl + vl + nl]);
    }
    assert(bytes[48 + kl + sl + vl + nl] == 125) by {
        assert(bytes.subrange(47 + kl + sl + vl + nl, 49 + kl + sl + vl + nl)[1] == bytes[48 + kl
            + sl + vl + nl]);
    }
    if n.len() >= 1 {
        lemma_nonce_rep_first(n);
        assert(bytes.subrange(47 + kl + sl + vl, 47 + kl + sl + vl + nl)[0] == bytes[47 + kl + sl
            + vl]);
    }
}

/// Parse the fixed object head and the kind name, through the `:` that
/// precedes the sequence number.
#[verifier::rlimit(100)]
fn parse_head(bytes: &Vec<u8>) -> (r: Option<(MessageKind, usize)>)
    ensures
        (r matches Some(q) ==> q.1 <= bytes@.len()
            && bytes@.subrange(0, q.1 as int) == head_spec(q.0)),
        forall|t: MessageKind, s: u64, v: u8, n: Seq<u8>|
            bytes@ == #[trigger] encode_spec(t, s, v, n)
                ==> r == Some((t, head_spec(t).len() as usize)),
{
    let len = bytes.len();
    proof {
        lemma_lit_facts();
    }
    let head = lit_head_vec();
    if !match_at(bytes, 0, &head) {
        proof {
            assert forall|t: MessageKind, s: u64, v: u8, n: Seq<u8>|
                bytes@ != #[trigger] encode_spec(t, s, v, n) by {
                if bytes@ == encode_spec(t, s, v, n) {
                    lemma_decomposition(t, s, v, n, bytes@);
                    assert(false);
                }
            }
        }
        return None;
    }
    let pos1: usize = 17;
    let kp = match parse_kind(bytes, pos1) {
        None => {
            proof {
                assert forall|t: MessageKind, s: u64, v: u8, n: Seq<u8>|
                    bytes@ != #[trigger] encode_spec(t, s, v, n) by {
                    if bytes@ == encode_spec(t, s, v, n) {
                        lemma_decomposition(t, s, v, n, bytes@);
                        let kl = kind_bytes(t).len() as int;
                        assert(bytes@.subrange(pos1 as int, 17 + kl) == kind_bytes(t));
                        assert(false);
                    }
                }
            }
            return None;
        }
        Some(x) => x,
    };
    let k = kp.0;
    let p1 = kp.1;
    let lsn = lit_seq_num_vec();
    if !match_at(bytes, p1, &lsn) {
        proof {
            assert forall|t: MessageKind, s: u64, v: u8, n: Seq<u8>|
                bytes@ != #[trigger] encode_spec(t, s, v, n) by {
                if bytes@ == encode_spec(t, s, v, n) {
                    lemma_decomposition(t, s, v, n, bytes@);
                    let kl = kind_bytes(t).len() as int;
                    assert(bytes@.subrange(pos1 as int, 17 + kl) == kind_bytes(t));
                    assert(k == t && p1 == 17 + kl);
                    assert(bytes@.subrange(p1 as int, p1 + 12) == lit_seq_num());
                    assert(false);
                }
            }
        }
        return None;
    }
    let pos2 = p1 + 12;
    proof {
        let w = bytes@;
        assert(w.subrange(17, pos2 as int) =~= w.subrange(17, p1 as int) + w.subrange(p1 as int,
            pos2 as int));
        assert(w.subrange(0, pos2 as int) =~= w.subrange(0, 17) + w.subrange(17, pos2 as int));
        assert(w.subrange(0, pos2 as int) == head_spec(k));
        assert forall|t: MessageKind, s: u64, v: u8, n: Seq<u8>|
            bytes@ == #[trigger] encode_spec(t, s, v, n)
                implies Some((k, pos2)) == Some((t, head_spec(t).len() as usize)) by {
            lemma_decomposition(t, s, v, n, bytes@);
            let kl = kind_bytes(t).len() as int;
            assert(bytes@.subrange(pos1 as int, 17 + kl) == kind_bytes(t));
            assert(k == t && p1 == 17 + kl);
            assert(head_spec(t).len() == 29 + kl);
        }
    }
    Some((k, pos2))
}

/// Parse the sequence-number field, through the `:` that precedes the vote.
#[verifier::rlimit(100)]
fn parse_seq_field(bytes: &Vec<u8>, i: usize) -> (r: Option<(u64, usize)>)
    requires
        i <= bytes@.len(),
    ensures
        (r matches Some(q) ==> i <= q.1 <= bytes@.len()
            && bytes@.subrange(i as int, q.1 as int) == seq_field_spec(q.0)),
        forall|t: MessageKind, s: u64, v: u8, n: Seq<u8>|
            (bytes@ == #[trigger] encode_spec(t, s, v, n) && i == head_spec(t).len())
                ==> r == Some((s, (i + seq_field_spec(s).len()) as usize)),
{
    let len = bytes.len();
    proof {
        assert(bytes@.len() == len);
        lemma_lit_facts();
    }
    let sp = match scan_u64(bytes, i) {
        None => {
            proof {
                assert forall|t: MessageKind, s: u64, v: u8, n: Seq<u8>|
                    !(bytes@ == #[trigger] encode_spec(t, s, v, n) && i == head_spec(t).len()) by {
                    if bytes@ == encode_spec(t, s, v, n) && i == head_spec(t).len() {
                        lemma_decomposition(t, s, v, n, bytes@);
                        let kl = kind_bytes(t).len() as int;
                        let sl = dec_rep(s as nat).len() as int;
                        assert(i == 29 + kl);
                        assert(bytes@.subrange(i as int, i + sl) == dec_rep(s as nat));
                        assert(!is_digit(bytes@[i + sl]));
                        assert(false);
                    }
                }
            }
            return None;
        }
        Some(x) => x,
    };
    let sv = sp.0;
    let p3 = sp.1;
    let lv = lit_vote_vec();
    if !match_at(bytes, p3, &lv) {
        proof {
            assert forall|t: MessageKind, s: u64, v: u8, n: Seq<u8>|
                !(bytes@ == #[trigger] encode_spec(t, s, v, n) && i == head_spec(t).len()) by {
                if bytes@ == encode_spec(t, s, v, n) && i == head_spec(t).len() {
                    lemma_decomposition(t, s, v, n, bytes@);
                    let kl = kind_bytes(t).len() as int;
                    let sl = dec_rep(s as nat).len() as int;
                    assert(i == 29 + kl);
                    assert(bytes@.subrange(i as int, i + sl) == dec_rep(s as nat));
                    assert(!is_digit(bytes@[i + sl]));
                    assert(sv == s && p3 == i + sl);
                    assert(bytes@.subrange(p3 as int, p3 + 8) == lit_vote());
                    assert(false);
                }
            }
        }
        return None;
    }
    let pos4 = p3 + 8;
    proof {
        let w = bytes@;
        assert(w.subrange(i as int, pos4 as int) =~= w.subrange(i as int, p3 as int) + w.subrange(
            p3 as int, pos4 as int));
        assert(w.subrange(i as int, pos4 as int) == seq_field_spec(sv));
        assert forall|t: MessageKind, s: u64, v: u8, n: Seq<u8>|
            (bytes@ == #[trigger] encode_spec(t, s, v, n) && i == head_spec(t).len())
                implies Some((sv, pos4)) == Some((s, (i + seq_field_spec(
                s).len()) as usize)) by {
            lemma_decomposition(t, s, v, n, bytes@);
            let kl = kind_bytes(t).len() as int;
            let sl = dec_rep(s as nat).len() as int;
            assert(i == 29 + kl);
            assert(bytes@.subrange(i as int, i + sl) == dec_rep(s as nat));
            assert(!is_digit(bytes@[i + sl]));
            assert(sv == s && p3 == i + sl);
            assert(seq_field_spec(s).len() == sl + 8);
        }
    }
    Some((sv, pos4))
}

/// Parse the vote field, through the `[` that opens the nonce list.
#[verifier::rlimit(100)]
fn parse_vote_field(bytes: &Vec<u8>, i: usize) -> (r: Option<(u8, usize)>)
    requires
        i <= bytes@.len(),
    ensures
        (r matches Some(q) ==> i <= q.1 <= bytes@.len()
            && bytes@.subrange(i as int, q.1 as int) == vote_field_spec(q.0)),
        forall|t: MessageKind, s: u64, v: u8, n: Seq<u8>|
            (bytes@ == #[trigger] encode_spec(t, s, v, n)
                && i == head_spec(t).len() + seq_field_spec(s).len())
                ==> r == Some((v, (i + vote_field_spec(v).len()) as usize)),
{
    let len = bytes.len();
    proof {
        assert(bytes@.len() == len);
        lemma_lit_facts();
    }
    let vp = match scan_u8(bytes, i) {
        None => {
            proof {
                assert forall|t: MessageKind, s: u64, v: u8, n: Seq<u8>|
                    !(bytes@ == #[trigger] encode_spec(t, s, v, n)
                        && i == head_spec(t).len() + seq_field_spec(s).len()) by {
                    if bytes@ == encode_spec(t, s, v, n)
                        && i == head_spec(t).len() + seq_field_spec(s).len() {
                        lemma_decomposition(t, s, v, n, bytes@);
                        let kl = kind_bytes(t).len() as int;
                        let sl = dec_rep(s as nat).len() as int;
                        let vl = dec_rep(v as nat).len() as int;
                        assert(i == 37 + kl + sl);
                        assert(bytes@.subrange(i as int, i + vl) == dec_rep(v as nat));
                        assert(!is_digit(bytes@[i + vl]));
                        assert(false);
                    }
                }
            }
            return None;
        }
        Some(x) => x,
    };
    let vv = vp.0;
    let p5 = vp.1;
    let ln = lit_nonce_vec();
    if !match_at(bytes, p5, &ln) {
        proof {
            assert forall|t: MessageKind, s: u64, v: u8, n: Seq<u8>|
                !(bytes@ == #[trigger] encode_spec(t, s, v, n)
                    && i == head_spec(t).len() + seq_field_spec(s).len()) by {
                if bytes@ == encode_spec(t, s, v, n)
                    && i == head_spec(t).len() + seq_field_spec(s).len() {
                    lemma_decomposition(t, s, v, n, bytes@);
                    let kl = kind_bytes(t).len() as int;
                    let sl = dec_rep(s as nat).len() as int;
                    let vl = dec_rep(v as nat).len() as int;
                    assert(i == 37 + kl + sl);
                    assert(bytes@.subrange(i as int, i + vl) == dec_rep(v as nat));
                    assert(!is_digit(bytes@[i + vl]));
                    assert(vv == v && p5 == i + vl);
                    assert(bytes@.subrange(p5 as int, p5 + 10) == lit_nonce());
                    assert(false);
                }
            }
        }
        return None;
    }
    let pos6 = p5 + 10;
    proof {
        let w = bytes@;
        assert(w.subrange(i as int, pos6 as int) =~= w.subrange(i as int, p5 as int) + w.subrange(
            p5 as int, pos6 as int));
        assert(w.subrange(i as int, pos6 as int) == vote_field_spec(vv));
        assert forall|t: MessageKind, s: u64, v: u8, n: Seq<u8>|
            (bytes@ == #[trigger] encode_spec(t, s, v, n)
                && i == head_spec(t).len() + seq_field_spec(s).len())
                implies Some((vv, pos6)) == Some((v, (i + vote_field_spec(
                v).len()) as usize)) by {
            lemma_decomposition(t, s, v, n, bytes@);
            let kl = kind_bytes(t).len() as int;
            let sl = dec_rep(s as nat).len() as int;
            let vl = dec_rep(v as nat).len() as int;
            assert(i == 37 + kl + sl);
            assert(bytes@.subrange(i as int, i + vl) == dec_rep(v as nat));
            assert(!is_digit(bytes@[i + vl]));
            assert(vv == v && p5 == i + vl);
            assert(vote_field_spec(v).len() == vl + 10);
        }
    }
    Some((vv, pos6))
}

/// Parse the sequence number and the vote, through the `[` that opens the
/// nonce list.
#[verifier::rlimit(100)]
fn parse_nums(bytes: &Vec<u8>, i: usize) -> (r: Option<(u64, u8, usize)>)
    requires
        i <= bytes@.len(),
    ensures
        (r matches Some(q) ==> i <= q.2 <= bytes@.len()
            && bytes@.subrange(i as int, q.2 as int) == nums_spec(q.0, q.1)),
        forall|t: MessageKind, s: u64, v: u8, n: Seq<u8>|
            (bytes@ == #[trigger] encode_spec(t, s, v, n) && i == head_spec(t).len())
                ==> r == Some((s, v, (i + nums_spec(s, v).len()) as usize)),
{
    proof {
        lemma_lit_facts();
    }
    let sp = match parse_seq_field(bytes, i) {
        None => {
            return None;
        }
        Some(x) => x,
    };
    let sv = sp.0;
    let pos4 = sp.1;
    let vp = match parse_vote_field(bytes, pos4) {
        None => {
            proof {
                assert forall|t: MessageKind, s: u64, v: u8, n: Seq<u8>|
                    !(bytes@ == #[trigger] encode_spec(t, s, v, n) && i == head_spec(t).len()) by {
                    if bytes@ == encode_spec(t, s, v, n) && i == head_spec(t).len() {
                        assert(sv == s && pos4 == i + seq_field_spec(s).len());
                        assert(false);
                    }
                }
            }
            return None;
        }
        Some(x) => x,
    };
    let vv = vp.0;
    let pos6 = vp.1;
    proof {
        let w = bytes@;
        assert(w.subrange(i as int, pos6 as int) =~= w.subrange(i as int, pos4 as int)
            + w.subrange(pos4 as int, pos6 as int));
        assert(w.subrange(i as int, pos6 as int) == nums_spec(sv, vv));
        assert forall|t: MessageKind, s: u64, v: u8, n: Seq<u8>|
            (bytes@ == #[trigger] encode_spec(t, s, v, n) && i == head_spec(t).len())
                implies Some((sv, vv, pos6)) == Some((s, v, (i + nums_spec(s,
                v).len()) as usize)) by {
            assert(sv == s && pos4 == i + seq_field_spec(s).len());
            assert(vv == v && pos6 == pos4 + vote_field_spec(v).len());
            assert(nums_spec(s, v).len() == seq_field_spec(s).len() + vote_field_spec(v).len());
        }
    }
    Some((sv, vv, pos6))
}

/// Parse the part of a payload before the nonce list: the kind, the sequence
/// number and the vote, ending right after the `[`.
#[verifier::rlimit(100)]
fn parse_head_fields(bytes: &Vec<u8>) -> (r: Option<(MessageKind, u64, u8, usize)>)
    ensures
        (r matches Some(q) ==> q.3 <= bytes@.len()
            && bytes@.subrange(0, q.3 as int) == prefix_spec(q.0, q.1, q.2)),
        forall|t: MessageKind, s: u64, v: u8, n: Seq<u8>|
            bytes@ == #[trigger] encode_spec(t, s, v, n)
                ==> r == Some((t, s, v, prefix_spec(t, s, v).len() as usize)),
{
    proof {
        lemma_lit_facts();
    }
    let hp = match parse_head(bytes) {
        None => {
            return None;
        }
        Some(x) => x,
    };
    let k = hp.0;
    let pos2 = hp.1;
    let np = match parse_nums(bytes, pos2) {
        None => {
            proof {
                assert forall|t: MessageKind, s: u64, v: u8, n: Seq<u8>|
                    bytes@ != #[trigger] encode_spec(t, s, v, n) by {
                    if bytes@ == encode_spec(t, s, v, n) {
                        assert(k == t && pos2 == head_spec(t).len());
                        assert(false);
                    }
                }
            }
            return None;
        }
        Some(x) => x,
    };
    let sv = np.0;
    let vv = np.1;
    let pos6 = np.2;
    proof {
        let w = bytes@;
        assert(w.subrange(0, pos6 as int) =~= w.subrange(0, pos2 as int) + w.subrange(pos2 as int,
            pos6 as int));
        assert(w.subrange(0, pos6 as int) == prefix_spec(k, sv, vv));
        assert forall|t: MessageKind, s: u64, v: u8, n: Seq<u8>|
            bytes@ == #[trigger] encode_spec(t, s, v, n)
                implies Some((k, sv, vv, pos6)) == Some((t, s, v, prefix_spec(t, s,
                v).len() as usize)) by {
            assert(k == t && pos2 == head_spec(t).len());
            assert(sv == s && vv == v && pos6 == pos2 + nums_spec(s, v).len());
            assert(prefix_spec(t, s, v).len() == head_spec(t).len() + nums_spec(s, v).len());
        }
    }
    Some((k, sv, vv, pos6))
}

/// Parse a payload from its canonical JSON form.
///
/// Parsing succeeds exactly on the output of `encode_message`: an encoded
/// message parses back to its own fields (the JSON round trip preserves the
/// kind, sequence number, vote and nonce), and any byte string that is not
/// the encoding of some message is rejected.
#[verifier::rlimit(100)]
pub fn parse_message(bytes: &Vec<u8>) -> (r: Option<SnowballMessage>)
    ensures
        (r matches Some(m) ==> bytes@ == encode_spec(m.message_type, m.seq_num, m.vote, m.nonce@)),
        forall|t: MessageKind, s: u64, v: u8, n: Seq<u8>|
            bytes@ == #[trigger] encode_spec(t, s, v, n)
                ==> (r matches Some(m) && m.message_type == t && m.seq_num == s && m.vote == v
                    && m.nonce@ == n),
{
    let len = bytes.len();
    proof {
        lemma_lit_facts();
    }
    let q = match parse_head_fields(bytes) {
        None => {
            return None;
        }
        Some(x) => x,
    };
    let k = q.0;
    let sv = q.1;
    let vv = q.2;
    let pos6 = q.3;
    let mut nonce: Vec<u8> = Vec::new();
    let empty_nonce = pos6 < len && bytes[pos6] == 93;
    let endpos: usize;
    if empty_nonce {
        endpos = pos6;
    } else {
        match parse_nonce_items(bytes, pos6, &mut nonce) {
            None => {
                proof {
                    assert forall|t: MessageKind, s: u64, v: u8, n: Seq<u8>|
                        bytes@ != #[trigger] encode_spec(t, s, v, n) by {
                        if bytes@ == encode_spec(t, s, v, n) {
                            lemma_decomposition(t, s, v, n, bytes@);
                            let kl = kind_bytes(t).len() as int;
                            let sl = dec_rep(s as nat).len() as int;
                            let vl = dec_rep(v as nat).len() as int;
                            let nl = nonce_rep(n).len() as int;
                            assert(pos6 == prefix_spec(t, s, v).len());
                            assert(pos6 == 47 + kl + sl + vl);
                            if n.len() == 0 {
                                assert(nl == 0);
                                assert(bytes@[pos6 as int] == 93);
                                assert(false);
                            } else {
                                assert(bytes@.subrange(pos6 as int, pos6 + nl) == nonce_rep(n));
                                assert(bytes@[pos6 + nl] == 93);
                                assert(false);
                            }
                        }
                    }
                }
                return None;
            }
            Some(j) => {
                endpos = j;
            }
        }
    }
    if !(endpos < len && len - endpos == 2 && bytes[endpos + 1] == 125) {
        proof {
            assert forall|t: MessageKind, s: u64, v: u8, n: Seq<u8>|
                bytes@ != #[trigger] encode_spec(t, s, v, n) by {
                if bytes@ == encode_spec(t, s, v, n) {
                    lemma_decomposition(t, s, v, n, bytes@);
                    let kl = kind_bytes(t).len() as int;
                    let sl = dec_rep(s as nat).len() as int;
                    let vl = dec_rep(v as nat).len() as int;
                    let nl = nonce_rep(n).len() as int;
                    assert(pos6 == prefix_spec(t, s, v).len());
                    assert(pos6 == 47 + kl + sl + vl);
                    if n.len() == 0 {
                        assert(nl == 0);
                        assert(bytes@[pos6 as int] == 93);
                        assert(empty_nonce);
                        assert(endpos == pos6);
                        assert(false);
                    } else {
                        assert(is_digit(bytes@[pos6 as int]));
                        assert(!empty_nonce);
                        assert(bytes@.subrange(pos6 as int, pos6 + nl) == nonce_rep(n));
                        assert(bytes@[pos6 + nl] == 93);
                        assert(endpos == pos6 + nl);
                        assert(false);
                    }
                }
            }
        }
        return None;
    }
    let m = SnowballMessage { message_type: k, seq_num: sv, vote: vv, nonce };
    proof {
        // soundness: the consumed segments tile the whole input
        let w = bytes@;
        assert(w.subrange(pos6 as int, endpos as int) == nonce_rep(m.nonce@)) by {
            if empty_nonce {
                assert(w.subrange(pos6 as int, endpos as int) =~= Seq::<u8>::empty());
                assert(m.nonce@ =~= Seq::<u8>::empty());
            } else {
                assert(m.nonce@.skip(0) =~= m.nonce@);
            }
        }
        assert(w.subrange(endpos as int, endpos + 2) =~= lit_tail());
        assert(w.subrange(pos6 as int, endpos + 2) =~= w.subrange(pos6 as int, endpos as int)
            + w.subrange(endpos as int, endpos + 2));
        assert(w =~= w.subrange(0, pos6 as int) + w.subrange(pos6 as int, endpos + 2));
        assert(w == encode_spec(m.message_type, m.seq_num, m.vote, m.nonce@));
        // completeness: any fields whose encoding is this input are these fields
        assert forall|t: MessageKind, s: u64, v: u8, n: Seq<u8>|
            bytes@ == #[trigger] encode_spec(t, s, v, n)
                implies (m.message_type == t && m.seq_num == s && m.vote == v && m.nonce@ == n) by {
            lemma_decomposition(t, s, v, n, bytes@);
            let kl = kind_bytes(t).len() as int;
            let sl = dec_rep(s as nat).len() as int;
            let vl = dec_rep(v as nat).len() as int;
            let nl = nonce_rep(n).len() as int;
            assert(k == t && sv == s && vv == v);
            assert(pos6 == prefix_spec(t, s, v).len());
            assert(pos6 == 47 + kl + sl + vl);
            if n.len() == 0 {
                assert(nl == 0);
                assert(bytes@[pos6 as int] == 93);
                assert(empty_nonce);
                assert(m.nonce@ =~= n);
            } else {
                assert(is_digit(bytes@[pos6 as int]));
                assert(!empty_nonce);
                assert(bytes@.subrange(pos6 as int, pos6 + nl) == nonce_rep(n));
                assert(bytes@[pos6 + nl] == 93);
                assert(m.nonce@ == Seq::<u8>::empty() + n);
                assert(m.nonce@ =~= n);
            }
        }
    }
    Some(m)
}

} // verus!
