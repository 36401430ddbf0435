//! Initial configuration for a node, loaded from string-keyed on-chain
//! settings.
//!
//! The values arrive as raw setting strings; everything here parses and
//! validates them. The `members` value is a JSON array of hex-encoded peer
//! identifiers; the fault-injection index sets are JSON arrays of integers;
//! the numeric settings are plain decimals.

use vstd::prelude::*;

use crate::codec::{all_digits, dec_rep, dec_val, is_digit, lemma_dec_rep_digits,
    lemma_dec_val_take_le, lemma_split_at};
use crate::ids::PeerId;

verus! {

/// Why a configuration could not be loaded. All of these are fatal: the
/// network cannot function without a valid member list and thresholds.
#[derive(Clone, Copy, Debug, PartialEq, Eq, Structural)]
pub enum ConfigError {
    MissingMembers,
    InvalidMembers,
    MissingAlfa,
    InvalidAlfa,
    MissingBeta,
    InvalidBeta,
    MissingK,
    InvalidK,
    InvalidParameters,
}

// ---------------------------------------------------------------------------
// Plain decimal settings
// ---------------------------------------------------------------------------

/// Whether a setting string is an unsigned decimal whose value fits in
/// a `u64`. Unlike the canonical wire form, leading zeros are accepted.
pub open spec fn parses_u64(s: Seq<u8>) -> bool {
    s.len() >= 1 && all_digits(s) && 0 <= dec_val(s) <= u64::MAX
}

/// Parse a whole setting string as an unsigned decimal.
pub fn parse_u64_digits(bytes: &Vec<u8>) -> (r: Option<u64>)
    ensures
        parses_u64(bytes@) ==> r == Some((dec_val(bytes@) as u64)),
        !parses_u64(bytes@) ==> r is None,
{
    let len = bytes.len();
    if len == 0 {
        return None;
    }
    let mut acc: u64 = 0;
    let mut j: usize = 0;
    proof {
        assert(bytes@.take(0) =~= Seq::<u8>::empty());
    }
    while j < len
        invariant
            j <= len,
            len == bytes@.len(),
            all_digits(bytes@.take(j as int)),
            acc == dec_val(bytes@.take(j as int)),
        decreases len - j,
    {
        let b = bytes[j];
        if !(48 <= b && b <= 57) {
            return None;
        }
        let d: u8 = b - 48;
        proof {
            assert(bytes@.take(j + 1).drop_last() =~= bytes@.take(j as int));
            assert(bytes@.take(j + 1).last() == bytes@[j as int]);
            assert forall|m: int| 0 <= m < j + 1 implies is_digit(
                #[trigger] bytes@.take(j + 1)[m]) by {
                if m < j {
                    assert(bytes@.take(j + 1)[m] == bytes@.take(j as int)[m]);
                } else {
                    assert(bytes@.take(j + 1)[m] == bytes@[j as int]);
                }
            }
        }
        if acc > (u64::MAX - d as u64) / 10 {
            proof {
                assert(acc * 10 + d > u64::MAX) by (nonlinear_arith)
                    requires acc > (u64::MAX - d as u64) / 10, 0 <= d < 10;
                if parses_u64(bytes@) {
                    lemma_dec_val_take_le(bytes@, j + 1);
                    assert(dec_val(bytes@.take(j + 1)) == acc * 10 + d);
                    assert(false);
                }
            }
            return None;
        }
        proof {
            assert(acc * 10 + d <= u64::MAX) by (nonlinear_arith)
                requires acc <= (u64::MAX - d as u64) / 10, 0 <= d < 10, acc >= 0;
        }
        acc = acc * 10 + d as u64;
        j += 1;
    }
    proof {
        assert(bytes@.take(len as int) =~= bytes@);
    }
    Some(acc)
}

// ---------------------------------------------------------------------------
// Arrays of integers (the fault-injection index sets)
// ---------------------------------------------------------------------------

/// The comma-separated canonical decimals of a list of integers.
pub open spec fn u64_list_rep(xs: Seq<u64>) -> Seq<u8>
    decreases xs.len(),
{
    if xs.len() == 0 {
        Seq::<u8>::empty()
    } else if xs.len() == 1 {
        dec_rep(xs[0] as nat)
    } else {
        dec_rep(xs[0] as nat) + seq![44u8] + u64_list_rep(xs.skip(1))
    }
}

/// A JSON array of integers in canonical form.
pub open spec fn u64_array_rep(xs: Seq<u64>) -> Seq<u8> {
    seq![91u8] + u64_list_rep(xs) + seq![93u8]
}

/// The first byte of a non-empty integer list is a digit.
pub proof fn lemma_u64_list_first(xs: Seq<u64>)
    requires
        xs.len() >= 1,
    ensures
        u64_list_rep(xs).len() >= 1,
        is_digit(u64_list_rep(xs)[0]),
{
    lemma_dec_rep_digits(xs[0] as nat);
    if xs.len() == 1 {
        assert(u64_list_rep(xs) == dec_rep(xs[0] as nat));
    } else {
        assert(u64_list_rep(xs) == dec_rep(xs[0] as nat) + seq![44u8] + u64_list_rep(xs.skip(1)));
        assert(u64_list_rep(xs)[0] == dec_rep(xs[0] as nat)[0]);
    }
}

/// One or more comma-separated decimals, ending right before a `]`.
/// Parsed values are appended to `acc`.
fn parse_u64_items(bytes: &Vec<u8>, i: usize, acc: &mut Vec<u64>) -> (r: Option<usize>)
    requires
        i <= bytes@.len(),
    ensures
        (r matches Some(j) ==> {
            &&& i < j < bytes@.len()
            &&& bytes@[j as int] == 93
            &&& final(acc)@.len() > old(acc)@.len()
            &&& final(acc)@.take(old(acc)@.len() as int) == old(acc)@
            &&& bytes@.subrange(i as int, j as int) == u64_list_rep(
                final(acc)@.skip(old(acc)@.len() as int))
        }),
        forall|xs: Seq<u64>, j: int|
            #![trigger u64_list_rep(xs), bytes@.subrange(i as int, j)]
            (xs.len() >= 1 && i <= j < bytes@.len()
                && bytes@.subrange(i as int, j) == u64_list_rep(xs)
                && bytes@[j] == 93)
                ==> (r == Some(j as usize) && final(acc)@ == old(acc)@ + xs),
    decreases bytes@.len() - i,
{
    proof {
        // how a valid decomposition must begin: with the canonical form of
        // its first value, terminated by a comma or the closing bracket
        assert forall|xs: Seq<u64>, j: int|
            (xs.len() >= 1 && i <= j < bytes@.len()
                && #[trigger] bytes@.subrange(i as int, j) == #[trigger] u64_list_rep(xs)
                && bytes@[j] == 93) implies {
                let dl = dec_rep(xs[0] as nat).len() as int;
                &&& i + dl <= j
                &&& bytes@.subrange(i as int, i + dl) == dec_rep(xs[0] as nat)
                &&& (xs.len() == 1 ==> i + dl == j)
                &&& (xs.len() > 1 ==> i + dl < j && bytes@[i + dl] == 44
                    && bytes@.subrange(i + dl + 1, j) == u64_list_rep(xs.skip(1)))
            } by {
            if xs.len() == 1 {
                assert(u64_list_rep(xs) == dec_rep(xs[0] as nat));
                lemma_split_at(bytes@, i as int, j, dec_rep(xs[0] as nat), Seq::<u8>::empty());
            } else {
                assert(u64_list_rep(xs) == dec_rep(xs[0] as nat) + seq![44u8] + u64_list_rep(
                    xs.skip(1)));
                assert(u64_list_rep(xs) =~= dec_rep(xs[0] as nat) + (seq![44u8] + u64_list_rep(
                    xs.skip(1))));
                lemma_split_at(bytes@, i as int, j, dec_rep(xs[0] as nat),
                    seq![44u8] + u64_list_rep(xs.skip(1)));
                let dl = dec_rep(xs[0] as nat).len() as int;
                lemma_split_at(bytes@, i + dl, j, seq![44u8], u64_list_rep(xs.skip(1)));
                assert(bytes@.subrange(i + dl, i + dl + 1) == seq![44u8]);
                assert(bytes@.subrange(i + dl, i + dl + 1)[0] == bytes@[i + dl]);
                lemma_u64_list_first(xs.skip(1));
                assert(i + dl + 1 <= j);
                if i + dl + 1 == j {
                    assert(u64_list_rep(xs.skip(1)).len() == 0);
                    assert(false);
                }
            }
        }
    }
    let len = bytes.len();
    let first = match crate::codec::scan_u64(bytes, i) {
        None => {
            proof {
                assert forall|xs: Seq<u64>, j: int|
                    !(xs.len() >= 1 && i <= j < bytes@.len()
                        && #[trigger] bytes@.subrange(i as int, j) == #[trigger] u64_list_rep(xs)
                        && bytes@[j] == 93) by {
                    if xs.len() >= 1 && i <= j < bytes@.len()
                        && bytes@.subrange(i as int, j) == u64_list_rep(xs) && bytes@[j] == 93 {
                        let dl = dec_rep(xs[0] as nat).len() as int;
                        if xs.len() == 1 {
                            assert(!is_digit(bytes@[i + dl]));
                        } else {
                            assert(bytes@[i + dl] == 44);
                        }
                        assert(false);
                    }
                }
            }
            return None;
        }
        Some(x) => x,
    };
    let d = first.0;
    let p = first.1;
    if p < len && bytes[p] == 44 {
        acc.push(d);
        let ghost acc_mid = acc@;
        let r2 = parse_u64_items(bytes, p + 1, acc);
        match r2 {
            None => {
                proof {
                    assert forall|xs: Seq<u64>, j: int|
                        !(xs.len() >= 1 && i <= j < bytes@.len()
                            && #[trigger] bytes@.subrange(i as int, j) == #[trigger] u64_list_rep(
                            xs)
                            && bytes@[j] == 93) by {
                        if xs.len() >= 1 && i <= j < bytes@.len()
                            && bytes@.subrange(i as int, j) == u64_list_rep(xs)
                            && bytes@[j] == 93 {
                            let dl = dec_rep(xs[0] as nat).len() as int;
                            if xs.len() == 1 {
                                assert(p == j && d == xs[0]);
                                assert(false);
                            } else {
                                assert(p == i + dl && d == xs[0]);
                                lemma_u64_list_first(xs.skip(1));
                                assert(false);
                            }
                        }
                    }
                }
                None
            }
            Some(j2) => {
                proof {
                    let added = acc@.skip(old(acc)@.len() as int);
                    assert(acc_mid == old(acc)@ + seq![d]);
                    assert(acc@.take(acc_mid.len() as int) == acc_mid);
                    assert(acc@.take(old(acc)@.len() as int) =~= old(acc)@) by {
                        assert forall|m: int| 0 <= m < old(acc)@.len() implies acc@[m] == old(
                            acc)@[m] by {
                            assert(acc@.take(acc_mid.len() as int)[m] == acc_mid[m]);
                        }
                    }
                    let tail_xs = acc@.skip(acc_mid.len() as int);
                    assert(added =~= seq![d] + tail_xs);
                    assert(added[0] == d);
                    assert(added.skip(1) =~= tail_xs);
                    assert(added.len() >= 2);
                    assert(u64_list_rep(added) == dec_rep(d as nat) + seq![44u8] + u64_list_rep(
                        tail_xs));
                    assert(bytes@.subrange(i as int, j2 as int) =~= bytes@.subrange(i as int,
                        p as int) + bytes@.subrange(p as int, p + 1) + bytes@.subrange(p + 1,
                        j2 as int));
                    assert(bytes@.subrange(p as int, p + 1) =~= seq![44u8]);
                    assert(bytes@.subrange(i as int, j2 as int) == u64_list_rep(added));
                    assert forall|xs: Seq<u64>, j: int|
                        (xs.len() >= 1 && i <= j < bytes@.len()
                            && #[trigger] bytes@.subrange(i as int, j) == #[trigger] u64_list_rep(
                            xs)
                            && bytes@[j] == 93) implies (Some(j2) == Some::<usize>(j as usize)
                            && acc@ == old(acc)@ + xs) by {
                        let dl = dec_rep(xs[0] as nat).len() as int;
                        if xs.len() == 1 {
                            assert(p == j && d == xs[0]);
                            assert(false);
                        }
                        assert(p == i + dl && d == xs[0]);
                        assert(bytes@.subrange(p + 1, j) == u64_list_rep(xs.skip(1)));
                        assert(j2 == j as usize && acc@ == acc_mid + xs.skip(1));
                        assert(old(acc)@ + xs =~= (old(acc)@ + seq![xs[0]]) + xs.skip(1));
                        assert(acc@ =~= old(acc)@ + xs);
                    }
                }
                Some(j2)
            }
        }
    } else if p < len && bytes[p] == 93 {
        acc.push(d);
        proof {
            assert(acc@.take(old(acc)@.len() as int) =~= old(acc)@);
            let added = acc@.skip(old(acc)@.len() as int);
            assert(added =~= seq![d]);
            assert(u64_list_rep(added) == dec_rep(d as nat));
            assert forall|xs: Seq<u64>, j: int|
                (xs.len() >= 1 && i <= j < bytes@.len()
                    && #[trigger] bytes@.subrange(i as int, j) == #[trigger] u64_list_rep(xs)
                    && bytes@[j] == 93) implies (Some(p) == Some::<usize>(j as usize)
                    && acc@ == old(acc)@ + xs) by {
                let dl = dec_rep(xs[0] as nat).len() as int;
                if xs.len() > 1 {
                    assert(p == i + dl && bytes@[i + dl] == 44);
                    assert(false);
                }
                assert(p == j && d == xs[0]);
                assert(xs =~= seq![d]);
                assert(acc@ =~= old(acc)@ + xs);
            }
        }
        Some(p)
    } else {
        proof {
            assert forall|xs: Seq<u64>, j: int|
                !(xs.len() >= 1 && i <= j < bytes@.len()
                    && #[trigger] bytes@.subrange(i as int, j) == #[trigger] u64_list_rep(xs)
                    && bytes@[j] == 93) by {
                if xs.len() >= 1 && i <= j < bytes@.len()
                    && bytes@.subrange(i as int, j) == u64_list_rep(xs) && bytes@[j] == 93 {
                    let dl = dec_rep(xs[0] as nat).len() as int;
                    if xs.len() == 1 {
                        assert(p == j);
                        assert(false);
                    } else {
                        assert(p == i + dl && bytes@[i + dl] == 44);
                        assert(false);
                    }
                }
            }
        }
        None
    }
}

/// Parse a whole setting string as a JSON array of integers in canonical
/// form. Succeeds exactly on `u64_array_rep` of some list.
pub fn parse_u64_array(bytes: &Vec<u8>) -> (r: Option<Vec<u64>>)
    ensures
        (r matches Some(v) ==> bytes@ == u64_array_rep(v@)),
        forall|xs: Seq<u64>| bytes@ == #[trigger] u64_array_rep(xs)
            ==> (r matches Some(v) && v@ == xs),
{
    let len = bytes.len();
    proof {
        assert forall|xs: Seq<u64>| bytes@ == #[trigger] u64_array_rep(xs) implies {
            &&& bytes@.len() >= 2
            &&& bytes@[0] == 91
            &&& bytes@[bytes@.len() - 1] == 93
            &&& bytes@.subrange(1, bytes@.len() - 1) == u64_list_rep(xs)
        } by {
            let w = bytes@;
            let end = w.len() as int;
            assert(u64_array_rep(xs) =~= seq![91u8] + (u64_list_rep(xs) + seq![93u8]));
            assert(w.subrange(0, end) =~= w);
            lemma_split_at(w, 0, end, seq![91u8], u64_list_rep(xs) + seq![93u8]);
            lemma_split_at(w, 1, end, u64_list_rep(xs), seq![93u8]);
            assert(w.subrange(0, 1)[0] == w[0]);
            assert(w.subrange(end - 1, end)[0] == w[end - 1]);
        }
    }
    if len < 2 || bytes[0] != 91 {
        return None;
    }
    if bytes[1] == 93 {
        if len == 2 {
            let r: Vec<u64> = Vec::new();
            proof {
                assert(bytes@ =~= u64_array_rep(Seq::<u64>::empty()));
                assert forall|xs: Seq<u64>| bytes@ == #[trigger] u64_array_rep(xs) implies
                    r@ == xs by {
                    if xs.len() >= 1 {
                        lemma_u64_list_first(xs);
                        assert(bytes@.subrange(1, bytes@.len() - 1)[0] == bytes@[1]);
                        assert(false);
                    }
                    assert(r@ =~= xs);
                }
            }
            return Some(r);
        } else {
            proof {
                assert forall|xs: Seq<u64>| bytes@ != #[trigger] u64_array_rep(xs) by {
                    if bytes@ == u64_array_rep(xs) {
                        if xs.len() >= 1 {
                            lemma_u64_list_first(xs);
                            assert(bytes@.subrange(1, bytes@.len() - 1)[0] == bytes@[1]);
                        } else {
                            assert(u64_list_rep(xs).len() == 0);
                        }
                        assert(false);
                    }
                }
            }
            return None;
        }
    }
    let mut items: Vec<u64> = Vec::new();
    match parse_u64_items(bytes, 1, &mut items) {
        None => {
            proof {
                assert forall|xs: Seq<u64>| bytes@ != #[trigger] u64_array_rep(xs) by {
                    if bytes@ == u64_array_rep(xs) {
                        if xs.len() == 0 {
                            assert(u64_list_rep(xs).len() == 0);
                            assert(bytes@[1] == 93);
                        } else {
                            assert(bytes@.subrange(1, bytes@.len() - 1) == u64_list_rep(xs));
                            assert(bytes@[bytes@.len() - 1] == 93);
                        }
                        assert(false);
                    }
                }
            }
            None
        }
        Some(j) => {
            if j + 1 != len {
                proof {
                    assert forall|xs: Seq<u64>| bytes@ != #[trigger] u64_array_rep(xs) by {
                        if bytes@ == u64_array_rep(xs) {
                            if xs.len() == 0 {
                                assert(u64_list_rep(xs).len() == 0);
                                assert(bytes@[1] == 93);
                            } else {
                                assert(bytes@.subrange(1, bytes@.len() - 1) == u64_list_rep(xs));
                                assert(bytes@[bytes@.len() - 1] == 93);
                                assert(j == bytes@.len() - 1);
                            }
                            assert(false);
                        }
                    }
                }
                None
            } else {
                proof {
                    let w = bytes@;
                    let added = items@.skip(0);
                    assert(added =~= items@);
                    assert(w.subrange(1, j as int) == u64_list_rep(items@));
                    assert(w =~= seq![91u8] + (u64_list_rep(items@) + seq![93u8])) by {
                        assert(w.subrange(0, 1)[0] == w[0]);
                        assert(w.subrange(j as int, j + 1)[0] == w[j as int]);
                        assert(w =~= w.subrange(0, 1) + (w.subrange(1, j as int) + w.subrange(
                            j as int, j + 1)));
                    }
                    assert(w =~= u64_array_rep(items@));
                    assert forall|xs: Seq<u64>| bytes@ == #[trigger] u64_array_rep(xs) implies
                        items@ == xs by {
                        if xs.len() == 0 {
                            assert(u64_list_rep(xs).len() == 0);
                            assert(bytes@[1] == 93);
                            assert(false);
                        }
                        assert(bytes@.subrange(1, bytes@.len() - 1) == u64_list_rep(xs));
                        assert(items@ == Seq::<u64>::empty() + xs);
                        assert(items@ =~= xs);
                    }
                }
                Some(items)
            }
        }
    }
}

// ---------------------------------------------------------------------------
// The member list (a JSON array of hex-encoded peer identifiers)
// ---------------------------------------------------------------------------

/// An ASCII hex digit, either case.
pub open spec fn is_hex_digit(b: u8) -> bool {
    is_digit(b) || (97 <= b <= 102) || (65 <= b <= 70)
}

pub open spec fn all_hex(s: Seq<u8>) -> bool {
    forall|i: int| 0 <= i < s.len() ==> is_hex_digit(#[trigger] s[i])
}

/// The value of one hex digit.
pub open spec fn hex_val(b: u8) -> int {
    if is_digit(b) {
        b - 48
    } else if 97 <= b <= 102 {
        b - 87
    } else {
        b - 55
    }
}

/// The bytes that a hex string decodes to, two digits per byte.
pub open spec fn hex_decode_spec(s: Seq<u8>) -> Seq<u8>
    decreases s.len(),
{
    if s.len() < 2 {
        Seq::<u8>::empty()
    } else {
        seq![(hex_val(s[0]) * 16 + hex_val(s[1])) as u8] + hex_decode_spec(s.skip(2))
    }
}

/// A valid hex string: even length, hex digits only.
pub open spec fn is_hex_seq(s: Seq<u8>) -> bool {
    s.len() % 2 == 0 && all_hex(s)
}

/// A JSON string whose content needs no escaping.
pub open spec fn quoted(s: Seq<u8>) -> Seq<u8> {
    seq![34u8] + s + seq![34u8]
}

/// The comma-separated quoted strings of a list.
pub open spec fn hex_list_rep(hs: Seq<Seq<u8>>) -> Seq<u8>
    decreases hs.len(),
{
    if hs.len() == 0 {
        Seq::<u8>::empty()
    } else if hs.len() == 1 {
        quoted(hs[0])
    } else {
        quoted(hs[0]) + seq![44u8] + hex_list_rep(hs.skip(1))
    }
}

/// A JSON array of hex strings: the wire form of the member list.
pub open spec fn members_rep(hs: Seq<Seq<u8>>) -> Seq<u8> {
    seq![91u8] + hex_list_rep(hs) + seq![93u8]
}

/// Whether every string in a list is made of hex digits.
pub open spec fn wf_hex_list(hs: Seq<Seq<u8>>) -> bool {
    forall|i: int| 0 <= i < hs.len() ==> all_hex(#[trigger] hs[i])
}

/// The views of a list of byte vectors.
pub open spec fn views_of(vs: Seq<Vec<u8>>) -> Seq<Seq<u8>> {
    vs.map_values(|v: Vec<u8>| v@)
}

pub proof fn lemma_views_of_index(vs: Seq<Vec<u8>>)
    ensures
        views_of(vs).len() == vs.len(),
        forall|q: int| 0 <= q < vs.len() ==> #[trigger] views_of(vs)[q] == vs[q]@,
{
}

/// The first byte of a non-empty string list is a quote.
pub proof fn lemma_hex_list_first(hs: Seq<Seq<u8>>)
    requires
        hs.len() >= 1,
    ensures
        hex_list_rep(hs).len() >= 2,
        hex_list_rep(hs)[0] == 34,
{
    if hs.len() == 1 {
        assert(hex_list_rep(hs) == quoted(hs[0]));
        assert(quoted(hs[0])[0] == 34);
    } else {
        assert(hex_list_rep(hs) == quoted(hs[0]) + seq![44u8] + hex_list_rep(hs.skip(1)));
        assert(quoted(hs[0])[0] == 34);
        assert(hex_list_rep(hs)[0] == quoted(hs[0])[0]);
    }
}

/// Scan one quoted hex string starting at `i`; the content runs from the
/// opening quote to the first byte that is not a hex digit, which must be
/// the closing quote.
fn scan_hex_string(bytes: &Vec<u8>, i: usize) -> (r: Option<(Vec<u8>, usize)>)
    requires
        i <= bytes@.len(),
    ensures
        (r matches Some(p) ==> i < p.1 <= bytes@.len()
            && bytes@.subrange(i as int, p.1 as int) == quoted(p.0@)
            && all_hex(p.0@)),
        forall|h: Seq<u8>, j: int|
            #![trigger quoted(h), bytes@.subrange(i as int, j)]
            (all_hex(h) && i <= j <= bytes@.len()
                && bytes@.subrange(i as int, j) == quoted(h))
                ==> (r matches Some(p) && p.0@ == h && p.1 == j),
    decreases bytes@.len() - i,
{
    proof {
        // where a quoted decomposition places its bytes
        assert forall|h: Seq<u8>, j: int|
            (all_hex(h) && i <= j <= bytes@.len()
                && #[trigger] bytes@.subrange(i as int, j) == #[trigger] quoted(h)) implies {
                &&& j == i + h.len() + 2
                &&& bytes@[i as int] == 34
                &&& bytes@[j - 1] == 34
                &&& bytes@.subrange(i + 1, j - 1) == h
            } by {
            assert(quoted(h) =~= seq![34u8] + (h + seq![34u8]));
            lemma_split_at(bytes@, i as int, j, seq![34u8], h + seq![34u8]);
            lemma_split_at(bytes@, i + 1, j, h, seq![34u8]);
            assert(bytes@.subrange(i as int, i + 1)[0] == bytes@[i as int]);
            assert(bytes@.subrange(j - 1, j)[0] == bytes@[j - 1]);
        }
    }
    let len = bytes.len();
    if i == len || bytes[i] != 34 {
        return None;
    }
    let mut h: Vec<u8> = Vec::new();
    let mut j = i + 1;
    proof {
        assert(h@ =~= bytes@.subrange(i + 1, j as int));
    }
    while j < len && (48 <= bytes[j] && bytes[j] <= 57 || 97 <= bytes[j] && bytes[j] <= 102 || 65
        <= bytes[j] && bytes[j] <= 70)
        invariant
            i < j <= len,
            len == bytes@.len(),
            h@ == bytes@.subrange(i + 1, j as int),
            all_hex(h@),
        decreases len - j,
    {
        h.push(bytes[j]);
        j += 1;
        proof {
            assert(h@ =~= bytes@.subrange(i + 1, j as int));
        }
    }
    // after the run, the next byte must close the string
    if j < len && bytes[j] == 34 {
        proof {
            assert(bytes@.subrange(i as int, j + 1) =~= quoted(h@));
            assert forall|h2: Seq<u8>, j2: int|
                (all_hex(h2) && i <= j2 <= bytes@.len()
                    && #[trigger] bytes@.subrange(i as int, j2) == #[trigger] quoted(h2)) implies
                (h@ == h2 && j + 1 == j2) by {
                // the content of the decomposition is a hex run from i + 1,
                // and its closing quote is the first non-hex byte
                if j2 - 1 < j {
                    assert(bytes@[j2 - 1] == bytes@.subrange(i + 1, j as int)[j2 - 1 - i - 1]);
                    assert(is_hex_digit(bytes@[j2 - 1]));
                    assert(false);
                }
                if j2 - 1 > j {
                    assert(bytes@[j as int] == bytes@.subrange(i + 1, j2 - 1)[j - i - 1]);
                    assert(is_hex_digit(bytes@[j as int]));
                    assert(false);
                }
                assert(j2 - 1 == j);
                assert(h@ =~= h2);
            }
        }
        Some((h, j + 1))
    } else {
        proof {
            assert forall|h2: Seq<u8>, j2: int|
                !(all_hex(h2) && i <= j2 <= bytes@.len()
                    && #[trigger] bytes@.subrange(i as int, j2) == #[trigger] quoted(h2)) by {
                if all_hex(h2) && i <= j2 <= bytes@.len()
                    && bytes@.subrange(i as int, j2) == quoted(h2) {
                    if j2 - 1 < j {
                        assert(bytes@[j2 - 1] == bytes@.subrange(i + 1, j as int)[j2 - 1 - i - 1]);
                        assert(is_hex_digit(bytes@[j2 - 1]));
                        assert(false);
                    }
                    if j2 - 1 > j {
                        assert(bytes@[j as int] == bytes@.subrange(i + 1, j2 - 1)[j - i - 1]);
                        assert(is_hex_digit(bytes@[j as int]));
                        assert(false);
                    }
                    assert(j2 - 1 == j);
                    assert(bytes@[j as int] == 34);
                    assert(false);
                }
            }
        }
        None
    }
}


/// One or more comma-separated quoted hex strings, ending right before a
/// `]`. Parsed strings are appended to `acc`.
fn parse_hex_items(bytes: &Vec<u8>, i: usize, acc: &mut Vec<Vec<u8>>) -> (r: Option<usize>)
    requires
        i <= bytes@.len(),
    ensures
        (r matches Some(j) ==> {
            &&& i < j < bytes@.len()
            &&& bytes@[j as int] == 93
            &&& final(acc)@.len() > old(acc)@.len()
            &&& views_of(final(acc)@).take(old(acc)@.len() as int) == views_of(old(acc)@)
            &&& wf_hex_list(views_of(final(acc)@).skip(old(acc)@.len() as int))
            &&& bytes@.subrange(i as int, j as int) == hex_list_rep(
                views_of(final(acc)@).skip(old(acc)@.len() as int))
        }),
        forall|hs: Seq<Seq<u8>>, j: int|
            #![trigger hex_list_rep(hs), bytes@.subrange(i as int, j)]
            (hs.len() >= 1 && wf_hex_list(hs) && i <= j < bytes@.len()
                && bytes@.subrange(i as int, j) == hex_list_rep(hs)
                && bytes@[j] == 93)
                ==> (r == Some(j as usize) && views_of(final(acc)@) == views_of(old(acc)@) + hs),
    decreases bytes@.len() - i,
{
    proof {
        // how a valid decomposition must begin: with its first quoted string,
        // followed by a comma or the closing bracket
        assert forall|hs: Seq<Seq<u8>>, j: int|
            (hs.len() >= 1 && wf_hex_list(hs) && i <= j < bytes@.len()
                && #[trigger] bytes@.subrange(i as int, j) == #[trigger] hex_list_rep(hs)
                && bytes@[j] == 93) implies {
                let ql = hs[0].len() + 2;
                &&& i + ql <= j
                &&& bytes@.subrange(i as int, i + ql) == quoted(hs[0])
                &&& (hs.len() == 1 ==> i + ql == j)
                &&& (hs.len() > 1 ==> i + ql < j && bytes@[i + ql] == 44
                    && bytes@.subrange(i + ql + 1, j) == hex_list_rep(hs.skip(1)))
            } by {
            if hs.len() == 1 {
                assert(hex_list_rep(hs) == quoted(hs[0]));
                lemma_split_at(bytes@, i as int, j, quoted(hs[0]), Seq::<u8>::empty());
            } else {
                assert(hex_list_rep(hs) == quoted(hs[0]) + seq![44u8] + hex_list_rep(hs.skip(1)));
                assert(hex_list_rep(hs) =~= quoted(hs[0]) + (seq![44u8] + hex_list_rep(
                    hs.skip(1))));
                lemma_split_at(bytes@, i as int, j, quoted(hs[0]),
                    seq![44u8] + hex_list_rep(hs.skip(1)));
                let ql = hs[0].len() + 2;
                lemma_split_at(bytes@, i + ql, j, seq![44u8], hex_list_rep(hs.skip(1)));
                assert(bytes@.subrange(i + ql, i + ql + 1) == seq![44u8]);
                assert(bytes@.subrange(i + ql, i + ql + 1)[0] == bytes@[i + ql]);
                lemma_hex_list_first(hs.skip(1));
                assert(i + ql + 1 <= j);
                if i + ql + 1 == j {
                    assert(hex_list_rep(hs.skip(1)).len() == 0);
                    assert(false);
                }
            }
        }
    }
    let len = bytes.len();
    let first = match scan_hex_string(bytes, i) {
        None => {
            proof {
                assert forall|hs: Seq<Seq<u8>>, j: int|
                    !(hs.len() >= 1 && wf_hex_list(hs) && i <= j < bytes@.len()
                        && #[trigger] bytes@.subrange(i as int, j) == #[trigger] hex_list_rep(hs)
                        && bytes@[j] == 93) by {
                    if hs.len() >= 1 && wf_hex_list(hs) && i <= j < bytes@.len()
                        && bytes@.subrange(i as int, j) == hex_list_rep(hs) && bytes@[j] == 93 {
                        assert(all_hex(hs[0]));
                        assert(bytes@.subrange(i as int, i + hs[0].len() + 2) == quoted(hs[0]));
                        assert(false);
                    }
                }
            }
            return None;
        }
        Some(x) => x,
    };
    let h = first.0;
    let p = first.1;
    if p < len && bytes[p] == 44 {
        let ghost h_view = h@;
        acc.push(h);
        let ghost acc_mid = acc@;
        proof {
            assert(views_of(acc_mid) =~= views_of(old(acc)@).push(h_view));
        }
        let r2 = parse_hex_items(bytes, p + 1, acc);
        match r2 {
            None => {
                proof {
                    assert forall|hs: Seq<Seq<u8>>, j: int|
                        !(hs.len() >= 1 && wf_hex_list(hs) && i <= j < bytes@.len()
                            && #[trigger] bytes@.subrange(i as int, j) == #[trigger] hex_list_rep(
                            hs)
                            && bytes@[j] == 93) by {
                        if hs.len() >= 1 && wf_hex_list(hs) && i <= j < bytes@.len()
                            && bytes@.subrange(i as int, j) == hex_list_rep(hs)
                            && bytes@[j] == 93 {
                            let ql = hs[0].len() + 2;
                            assert(all_hex(hs[0]));
                            if hs.len() == 1 {
                                assert(p == j && h_view == hs[0]);
                                assert(false);
                            } else {
                                assert(p == i + ql && h_view == hs[0]);
                                lemma_hex_list_first(hs.skip(1));
                                assert(false);
                            }
                        }
                    }
                }
                None
            }
            Some(j2) => {
                proof {
                    let oldn = old(acc)@.len() as int;
                    let added = views_of(acc@).skip(oldn);
                    assert(views_of(acc@).take(acc_mid.len() as int) == views_of(acc_mid));
                    assert(views_of(acc@).take(oldn) =~= views_of(old(acc)@)) by {
                        assert forall|m: int| 0 <= m < oldn implies views_of(acc@)[m] == views_of(
                            old(acc)@)[m] by {
                            assert(views_of(acc@).take(acc_mid.len() as int)[m] == views_of(
                                acc_mid)[m]);
                        }
                    }
                    let tail_hs = views_of(acc@).skip(acc_mid.len() as int);
                    assert(added =~= seq![h_view] + tail_hs) by {
                        assert(views_of(acc@).take(acc_mid.len() as int)[oldn] == views_of(
                            acc_mid)[oldn]);
                    }
                    assert(added[0] == h_view);
                    assert(added.skip(1) =~= tail_hs);
                    assert(added.len() >= 2);
                    assert(hex_list_rep(added) == quoted(h_view) + seq![44u8] + hex_list_rep(
                        tail_hs));
                    assert(wf_hex_list(added)) by {
                        assert(forall|m: int| 1 <= m < added.len() ==> added[m] == tail_hs[m - 1]);
                    }
                    assert(bytes@.subrange(i as int, j2 as int) =~= bytes@.subrange(i as int,
                        p as int) + bytes@.subrange(p as int, p + 1) + bytes@.subrange(p + 1,
                        j2 as int));
                    assert(bytes@.subrange(p as int, p + 1) =~= seq![44u8]);
                    assert(bytes@.subrange(i as int, j2 as int) == hex_list_rep(added));
                    assert forall|hs: Seq<Seq<u8>>, j: int|
                        (hs.len() >= 1 && wf_hex_list(hs) && i <= j < bytes@.len()
                            && #[trigger] bytes@.subrange(i as int, j) == #[trigger] hex_list_rep(
                            hs)
                            && bytes@[j] == 93) implies (Some(j2) == Some::<usize>(j as usize)
                            && views_of(acc@) == views_of(old(acc)@) + hs) by {
                        let ql = hs[0].len() + 2;
                        assert(all_hex(hs[0]));
                        if hs.len() == 1 {
                            assert(p == j && h_view == hs[0]);
                            assert(false);
                        }
                        assert(p == i + ql && h_view == hs[0]);
                        assert(bytes@.subrange(p + 1, j) == hex_list_rep(hs.skip(1)));
                        assert(j2 == j as usize && views_of(acc@) == views_of(acc_mid)
                            + hs.skip(1));
                        assert(views_of(old(acc)@) + hs =~= (views_of(old(acc)@) + seq![hs[0]])
                            + hs.skip(1));
                        assert(views_of(acc@) =~= views_of(old(acc)@) + hs);
                    }
                }
                Some(j2)
            }
        }
    } else if p < len && bytes[p] == 93 {
        let ghost h_view = h@;
        acc.push(h);
        proof {
            assert(views_of(acc@) =~= views_of(old(acc)@).push(h_view));
            assert(views_of(acc@).take(old(acc)@.len() as int) =~= views_of(old(acc)@));
            let added = views_of(acc@).skip(old(acc)@.len() as int);
            assert(added =~= seq![h_view]);
            assert(hex_list_rep(added) == quoted(h_view));
            assert forall|hs: Seq<Seq<u8>>, j: int|
                (hs.len() >= 1 && wf_hex_list(hs) && i <= j < bytes@.len()
                    && #[trigger] bytes@.subrange(i as int, j) == #[trigger] hex_list_rep(hs)
                    && bytes@[j] == 93) implies (Some(p) == Some::<usize>(j as usize)
                    && views_of(acc@) == views_of(old(acc)@) + hs) by {
                let ql = hs[0].len() + 2;
                assert(all_hex(hs[0]));
                if hs.len() > 1 {
                    assert(p == i + ql && bytes@[i + ql] == 44);
                    assert(false);
                }
                assert(p == j && h_view == hs[0]);
                assert(hs =~= seq![h_view]);
                assert(views_of(acc@) =~= views_of(old(acc)@) + hs);
            }
        }
        Some(p)
    } else {
        proof {
            assert forall|hs: Seq<Seq<u8>>, j: int|
                !(hs.len() >= 1 && wf_hex_list(hs) && i <= j < bytes@.len()
                    && #[trigger] bytes@.subrange(i as int, j) == #[trigger] hex_list_rep(hs)
                    && bytes@[j] == 93) by {
                if hs.len() >= 1 && wf_hex_list(hs) && i <= j < bytes@.len()
                    && bytes@.subrange(i as int, j) == hex_list_rep(hs) && bytes@[j] == 93 {
                    let ql = hs[0].len() + 2;
                    assert(all_hex(hs[0]));
                    if hs.len() == 1 {
                        assert(p == j);
                        assert(false);
                    } else {
                        assert(p == i + ql && bytes@[i + ql] == 44);
                        assert(false);
                    }
                }
            }
        }
        None
    }
}

/// Parse a whole setting string as a JSON array of hex strings.
/// Succeeds exactly on `members_rep` of some list of hex strings.
fn parse_hex_array(bytes: &Vec<u8>) -> (r: Option<Vec<Vec<u8>>>)
    ensures
        (r matches Some(v) ==> wf_hex_list(views_of(v@)) && bytes@ == members_rep(views_of(v@))),
        forall|hs: Seq<Seq<u8>>| (wf_hex_list(hs) && bytes@ == #[trigger] members_rep(hs))
            ==> (r matches Some(v) && views_of(v@) == hs),
{
    let len = bytes.len();
    proof {
        assert forall|hs: Seq<Seq<u8>>| (wf_hex_list(hs) && bytes@ == #[trigger] members_rep(hs))
            implies {
            &&& bytes@.len() >= 2
            &&& bytes@[0] == 91
            &&& bytes@[bytes@.len() - 1] == 93
            &&& bytes@.subrange(1, bytes@.len() - 1) == hex_list_rep(hs)
        } by {
            let w = bytes@;
            let end = w.len() as int;
            assert(members_rep(hs) =~= seq![91u8] + (hex_list_rep(hs) + seq![93u8]));
            assert(w.subrange(0, end) =~= w);
            lemma_split_at(w, 0, end, seq![91u8], hex_list_rep(hs) + seq![93u8]);
            lemma_split_at(w, 1, end, hex_list_rep(hs), seq![93u8]);
            assert(w.subrange(0, 1)[0] == w[0]);
            assert(w.subrange(end - 1, end)[0] == w[end - 1]);
        }
    }
    if len < 2 || bytes[0] != 91 {
        return None;
    }
    if bytes[1] == 93 {
        if len == 2 {
            let r: Vec<Vec<u8>> = Vec::new();
            proof {
                assert(views_of(r@) =~= Seq::<Seq<u8>>::empty());
                assert(hex_list_rep(views_of(r@)).len() == 0);
                assert(bytes@ =~= members_rep(views_of(r@)));
                assert forall|hs: Seq<Seq<u8>>| (wf_hex_list(hs) && bytes@ == #[trigger]
                    members_rep(hs)) implies views_of(r@) == hs by {
                    if hs.len() >= 1 {
                        lemma_hex_list_first(hs);
                        assert(bytes@.subrange(1, bytes@.len() - 1)[0] == bytes@[1]);
                        assert(false);
                    }
                    assert(views_of(r@) =~= hs);
                }
            }
            return Some(r);
        } else {
            proof {
                assert forall|hs: Seq<Seq<u8>>| !(wf_hex_list(hs) && bytes@ == #[trigger]
                    members_rep(hs)) by {
                    if wf_hex_list(hs) && bytes@ == members_rep(hs) {
                        if hs.len() >= 1 {
                            lemma_hex_list_first(hs);
                            assert(bytes@.subrange(1, bytes@.len() - 1)[0] == bytes@[1]);
                        } else {
                            assert(hex_list_rep(hs).len() == 0);
                        }
                        assert(false);
                    }
                }
            }
            return None;
        }
    }
    let mut items: Vec<Vec<u8>> = Vec::new();
    match parse_hex_items(bytes, 1, &mut items) {
        None => {
            proof {
                assert forall|hs: Seq<Seq<u8>>| !(wf_hex_list(hs) && bytes@ == #[trigger]
                    members_rep(hs)) by {
                    if wf_hex_list(hs) && bytes@ == members_rep(hs) {
                        if hs.len() == 0 {
                            assert(hex_list_rep(hs).len() == 0);
                            assert(bytes@[1] == 93);
                        } else {
                            assert(bytes@.subrange(1, bytes@.len() - 1) == hex_list_rep(hs));
                            assert(bytes@[bytes@.len() - 1] == 93);
                        }
                        assert(false);
                    }
                }
            }
            None
        }
        Some(j) => {
            if j + 1 != len {
                proof {
                    assert forall|hs: Seq<Seq<u8>>| !(wf_hex_list(hs) && bytes@ == #[trigger]
                        members_rep(hs)) by {
                        if wf_hex_list(hs) && bytes@ == members_rep(hs) {
                            if hs.len() == 0 {
                                assert(hex_list_rep(hs).len() == 0);
                                assert(bytes@[1] == 93);
                            } else {
                                assert(bytes@.subrange(1, bytes@.len() - 1) == hex_list_rep(hs));
                                assert(bytes@[bytes@.len() - 1] == 93);
                                assert(j == bytes@.len() - 1);
                            }
                            assert(false);
                        }
                    }
                }
                None
            } else {
                proof {
                    let w = bytes@;
                    let added = views_of(items@).skip(0);
                    assert(added =~= views_of(items@));
                    assert(w.subrange(1, j as int) == hex_list_rep(views_of(items@)));
                    assert(w =~= seq![91u8] + (hex_list_rep(views_of(items@)) + seq![93u8])) by {
                        assert(w.subrange(0, 1)[0] == w[0]);
                        assert(w.subrange(j as int, j + 1)[0] == w[j as int]);
                        assert(w =~= w.subrange(0, 1) + (w.subrange(1, j as int) + w.subrange(
                            j as int, j + 1)));
                    }
                    assert(w =~= members_rep(views_of(items@)));
                    assert forall|hs: Seq<Seq<u8>>| (wf_hex_list(hs) && bytes@ == #[trigger]
                        members_rep(hs)) implies views_of(items@) == hs by {
                        if hs.len() == 0 {
                            assert(hex_list_rep(hs).len() == 0);
                            assert(bytes@[1] == 93);
                            assert(false);
                        }
                        assert(bytes@.subrange(1, bytes@.len() - 1) == hex_list_rep(hs));
                        assert(views_of(items@) == Seq::<Seq<u8>>::empty() + hs);
                        assert(views_of(items@) =~= hs);
                    }
                }
                Some(items)
            }
        }
    }
}

/// Relies on hex::decode: pairs of hex digits, either case, become bytes;
/// an odd length or a byte outside the hex digits is an error.
#[verifier::external_body]
fn hex_decode(s: &Vec<u8>) -> (r: Option<Vec<u8>>)
    ensures
        (r matches Some(b) ==> is_hex_seq(s@) && b@ == hex_decode_spec(s@)),
        (r is None ==> !is_hex_seq(s@)),
{
    hex::decode(s.as_slice()).ok()
}

/// The decoded peer identifiers of a list of hex strings.
pub open spec fn decoded_members(hs: Seq<Seq<u8>>) -> Seq<Seq<u8>> {
    hs.map_values(|h: Seq<u8>| hex_decode_spec(h))
}

/// Whether every string in a list has even length.
pub open spec fn all_even(hs: Seq<Seq<u8>>) -> bool {
    forall|m: int| 0 <= m < hs.len() ==> (#[trigger] hs[m].len()) % 2 == 0
}

/// Whether a members setting value parses: a JSON array of hex strings of
/// even length.
pub open spec fn members_parse_ok(s: Seq<u8>) -> bool {
    exists|hs: Seq<Seq<u8>>| wf_hex_list(hs) && s == #[trigger] members_rep(hs) && all_even(hs)
}

/// Get the list of members as peer identifiers from the raw setting value:
/// a JSON array of hex-encoded identifiers, which this decodes.
pub fn get_members_from_settings(value: &Vec<u8>) -> (r: Result<Vec<PeerId>, ConfigError>)
    ensures
        (r matches Ok(ids) ==> exists|hs: Seq<Seq<u8>>| wf_hex_list(hs)
            && value@ == #[trigger] members_rep(hs) && all_even(hs)
            && views_of(ids@) == decoded_members(hs)),
        forall|hs: Seq<Seq<u8>>|
            (wf_hex_list(hs) && value@ == #[trigger] members_rep(hs) && all_even(hs))
                ==> (r matches Ok(ids) && views_of(ids@) == decoded_members(hs)),
        forall|hs: Seq<Seq<u8>>|
            (wf_hex_list(hs) && value@ == #[trigger] members_rep(hs) && !all_even(hs))
                ==> r == Err::<Vec<PeerId>, ConfigError>(ConfigError::InvalidMembers),
        (r matches Err(e) ==> e == ConfigError::InvalidMembers),
        (r is Ok <==> members_parse_ok(value@)),
{
    let strings = match parse_hex_array(value) {
        None => {
            return Err(ConfigError::InvalidMembers);
        }
        Some(x) => x,
    };
    let ghost hs0 = views_of(strings@);
    proof {
        lemma_views_of_index(strings@);
    }
    let mut ids: Vec<Vec<u8>> = Vec::new();
    let mut m: usize = 0;
    while m < strings.len()
        invariant
            m <= strings@.len(),
            hs0.len() == strings@.len(),
            forall|q: int| 0 <= q < strings@.len() ==> #[trigger] hs0[q] == strings@[q]@,
            wf_hex_list(hs0),
            views_of(strings@) == hs0,
            value@ == members_rep(hs0),
            forall|hs: Seq<Seq<u8>>| (wf_hex_list(hs) && value@ == #[trigger] members_rep(hs))
                ==> hs == hs0,
            ids@.len() == m,
            forall|q: int| 0 <= q < m ==> (#[trigger] ids@[q]@) == hex_decode_spec(hs0[q]),
            forall|q: int| 0 <= q < m ==> (#[trigger] hs0[q].len()) % 2 == 0,
        decreases strings@.len() - m,
    {
        proof {
            assert(hs0[m as int] == strings@[m as int]@);
            assert(all_hex(hs0[m as int]));
        }
        match hex_decode(&strings[m]) {
            Some(b) => {
                ids.push(b);
            }
            None => {
                proof {
                    assert(hs0[m as int].len() % 2 != 0);
                    assert(!all_even(hs0));
                    assert forall|hs: Seq<Seq<u8>>|
                        (wf_hex_list(hs) && value@ == #[trigger] members_rep(hs)) implies
                        hs == hs0 by {
                        // the array parse is unambiguous
                    }
                    assert(!members_parse_ok(value@)) by {
                        if members_parse_ok(value@) {
                            let hs = choose|hs: Seq<Seq<u8>>| wf_hex_list(hs) && value@
                                == #[trigger] members_rep(hs) && all_even(hs);
                            assert(hs == hs0);
                            assert(false);
                        }
                    }
                }
                return Err(ConfigError::InvalidMembers);
            }
        }
        m += 1;
    }
    proof {
        assert(all_even(hs0));
        lemma_views_of_index(ids@);
        assert(views_of(ids@) =~= decoded_members(hs0)) by {
            assert forall|q: int| 0 <= q < hs0.len() implies views_of(ids@)[q]
                == decoded_members(hs0)[q] by {
                assert(views_of(ids@)[q] == ids@[q]@);
                assert(decoded_members(hs0)[q] == hex_decode_spec(hs0[q]));
            }
        }
    }
    Ok(ids)
}

/// Whether the byte strings in a list are pairwise distinct.
pub open spec fn unique_list(vs: Seq<Seq<u8>>) -> bool {
    forall|i: int, j: int| 0 <= i < j < vs.len() ==> vs[i] != vs[j]
}

/// Check that the byte strings in a vector are pairwise distinct.
pub fn views_unique(ids: &Vec<Vec<u8>>) -> (r: bool)
    ensures
        r == unique_list(views_of(ids@)),
{
    let n = ids.len();
    let mut i: usize = 0;
    while i < n
        invariant
            i <= n,
            n == ids@.len(),
            forall|a: int, b: int| 0 <= a < b < ids@.len() && a < i ==> views_of(ids@)[a]
                != views_of(ids@)[b],
        decreases n - i,
    {
        let mut j: usize = i + 1;
        while j < n
            invariant
                i < j <= n,
                n == ids@.len(),
                forall|b: int| i < b < j ==> views_of(ids@)[i as int] != views_of(ids@)[b],
            decreases n - j,
        {
            if crate::ids::bytes_eq(&ids[i], &ids[j]) {
                proof {
                    assert(views_of(ids@)[i as int] == ids@[i as int]@);
                    assert(views_of(ids@)[j as int] == ids@[j as int]@);
                }
                return false;
            }
            proof {
                assert(views_of(ids@)[i as int] == ids@[i as int]@);
                assert(views_of(ids@)[j as int] == ids@[j as int]@);
            }
            j += 1;
        }
        i += 1;
    }
    true
}

/// The view of an optional setting value; empty when absent.
pub open spec fn opt_view(o: Option<Vec<u8>>) -> Seq<u8> {
    match o {
        Some(s) => s@,
        None => Seq::<u8>::empty(),
    }
}

/// Whether an optional setting is present and parses as a decimal.
pub open spec fn raw_u64_ok(o: Option<Vec<u8>>) -> bool {
    o matches Some(s) && parses_u64(s@)
}

/// The decimal value of an optional setting.
pub open spec fn raw_u64_val(o: Option<Vec<u8>>) -> int {
    dec_val(opt_view(o))
}

/// `true` as a setting value.
pub open spec fn true_rep() -> Seq<u8> {
    seq![116u8, 114u8, 117u8, 101u8]
}

/// `false` as a setting value.
pub open spec fn false_rep() -> Seq<u8> {
    seq![102u8, 97u8, 108u8, 115u8, 101u8]
}

/// If the setting is present and parses as a decimal, overwrite the field;
/// otherwise leave it as its default.
pub fn merge_millis_setting_if_set(setting: &Option<Vec<u8>>, field: &mut u64)
    ensures
        raw_u64_ok(*setting) ==> *final(field) == dec_val(opt_view(*setting)),
        !raw_u64_ok(*setting) ==> *final(field) == *old(field),
{
    match setting {
        Some(s) => {
            proof {
                assert(opt_view(*setting) == s@);
            }
            match parse_u64_digits(s) {
                Some(v) => {
                    *field = v;
                }
                None => {}
            }
        }
        None => {}
    }
}

/// If the setting is present and is a canonical array of integers,
/// overwrite the field; otherwise leave it as its default.
pub fn merge_idx_setting_if_set(setting: &Option<Vec<u8>>, field: &mut Vec<u64>)
    ensures
        ((*setting) matches Some(s) ==> forall|xs: Seq<u64>| s@ == #[trigger] u64_array_rep(xs)
            ==> final(field)@ == xs),
        ((*setting) is None || ((*setting) matches Some(s) && !(exists|xs: Seq<u64>| s@
            == #[trigger] u64_array_rep(xs)))) ==> final(field)@ == old(field)@,
{
    match setting {
        Some(s) => {
            match parse_u64_array(s) {
                Some(v) => {
                    *field = v;
                }
                None => {}
            }
        }
        None => {}
    }
}

/// If the setting is present and is `true` or `false`, overwrite the field;
/// otherwise leave it as its default.
pub fn merge_bool_setting_if_set(setting: &Option<Vec<u8>>, field: &mut bool)
    ensures
        ((*setting) matches Some(s) ==> (s@ == true_rep() ==> *final(field) == true)),
        ((*setting) matches Some(s) ==> (s@ == false_rep() ==> *final(field) == false)),
        ((*setting) is None || ((*setting) matches Some(s) && s@ != true_rep() && s@
            != false_rep())) ==> *final(field) == *old(field),
{
    match setting {
        Some(s) => {
            if s.len() == 4 && s[0] == 116 && s[1] == 114 && s[2] == 117 && s[3] == 101 {
                proof {
                    assert(s@ =~= true_rep());
                }
                *field = true;
            } else if s.len() == 5 && s[0] == 102 && s[1] == 97 && s[2] == 108 && s[3] == 115
                && s[4] == 101 {
                proof {
                    assert(s@ =~= false_rep());
                }
                *field = false;
            } else {
                proof {
                    if s@ == true_rep() {
                        assert(s@.len() == 4 && s@[0] == 116 && s@[1] == 114 && s@[2] == 117
                            && s@[3] == 101);
                    }
                    if s@ == false_rep() {
                        assert(s@.len() == 5 && s@[0] == 102 && s@[1] == 97 && s@[2] == 108
                            && s@[3] == 115 && s@[4] == 101);
                    }
                }
            }
        }
        None => {}
    }
}

/// Contains the initial configuration loaded from on-chain settings. The
/// `members` list and the `alfa`, `beta` and `k` thresholds are required;
/// all other settings are optional (defaults are used in their absence).
pub struct PolyShardConfig {
    /// Members of the network, including this node.
    pub members: Vec<PeerId>,
    /// Majority threshold within one sample.
    pub alfa: u64,
    /// Consecutive-majority count that decides.
    pub beta: u64,
    /// Sample size.
    pub k: u64,
    /// How long to wait in between trying to publish blocks (milliseconds).
    pub block_publishing_delay: u64,
    /// How long to wait for an update to arrive from the validator
    /// (milliseconds).
    pub update_recv_timeout: u64,
    /// The base time to use for retrying with exponential backoff
    /// (milliseconds).
    pub exponential_retry_base: u64,
    /// The maximum time for retrying with exponential backoff
    /// (milliseconds).
    pub exponential_retry_max: u64,
    /// Must be longer than block_publishing_delay (milliseconds).
    pub idle_timeout: u64,
    /// How long to wait before deciding a sampled peer is hung
    /// (milliseconds).
    pub hang_timeout: u64,
    /// Where to store the node state ("memory" or "disk+/path/to/file").
    pub storage_location: String,
    /// Whether fault injection is active.
    pub byzantine_enabled: bool,
    pub byzantine_max_churn_timeout_millis: u64,
    pub byzantine_max_sleep_delay_millis: u64,
    pub byzantine_churn_idx: Vec<u64>,
    pub byzantine_hang_idx: Vec<u64>,
    pub byzantine_sleep_idx: Vec<u64>,
    pub byzantine_duplicate_idx: Vec<u64>,
    pub byzantine_spurious_idx: Vec<u64>,
    pub byzantine_wrong_decision_idx: Vec<u64>,
}

/// The raw values of the on-chain settings keys, as fetched from the
/// settings store; a field is `None` when the key is absent.
pub struct RawSettings {
    pub members: Option<Vec<u8>>,
    pub alfa: Option<Vec<u8>>,
    pub beta: Option<Vec<u8>>,
    pub k: Option<Vec<u8>>,
    pub block_publishing_delay: Option<Vec<u8>>,
    pub idle_timeout: Option<Vec<u8>>,
    pub hang_timeout: Option<Vec<u8>>,
    pub byzantine_enabled: Option<Vec<u8>>,
    pub byzantine_max_churn_timeout_millis: Option<Vec<u8>>,
    pub byzantine_max_sleep_delay_millis: Option<Vec<u8>>,
    pub byzantine_churn_idx: Option<Vec<u8>>,
    pub byzantine_hang_idx: Option<Vec<u8>>,
    pub byzantine_sleep_idx: Option<Vec<u8>>,
    pub byzantine_duplicate_idx: Option<Vec<u8>>,
    pub byzantine_spurious_idx: Option<Vec<u8>>,
    pub byzantine_wrong_decision_idx: Option<Vec<u8>>,
}

/// Whether the members setting is present and parses.
pub open spec fn members_ok(raw: RawSettings) -> bool {
    raw.members is Some && members_parse_ok(opt_view(raw.members))
}

/// Whether the three required thresholds are present and parse.
pub open spec fn thresholds_ok(raw: RawSettings) -> bool {
    raw_u64_ok(raw.alfa) && raw_u64_ok(raw.beta) && raw_u64_ok(raw.k)
}

/// The constraints that the parsed settings must meet: a majority threshold
/// of at least one and at most the sample size, a positive decision
/// threshold, a sample size below the member count (a sample excludes this
/// node), and pairwise-distinct members.
pub open spec fn constraints_ok(raw: RawSettings) -> bool {
    &&& 1 <= raw_u64_val(raw.alfa) <= raw_u64_val(raw.k)
    &&& raw_u64_val(raw.beta) >= 1
    &&& exists|hs: Seq<Seq<u8>>| {
        &&& wf_hex_list(hs)
        &&& opt_view(raw.members) == #[trigger] members_rep(hs)
        &&& all_even(hs)
        &&& raw_u64_val(raw.k) < hs.len()
        &&& unique_list(decoded_members(hs))
    }
}

impl PolyShardConfig {
    pub fn default() -> (r: PolyShardConfig)
        ensures
            r.members@.len() == 0,
            r.alfa == 0,
            r.beta == 0,
            r.k == 0,
            r.block_publishing_delay == 5000,
            r.update_recv_timeout == 10,
            r.exponential_retry_base == 100,
            r.exponential_retry_max == 60000,
            r.idle_timeout == 30000,
            r.hang_timeout == 30000,
            r.storage_location@ == "memory"@,
            !r.byzantine_enabled,
            r.byzantine_max_churn_timeout_millis == 0,
            r.byzantine_max_sleep_delay_millis == 0,
            r.byzantine_churn_idx@.len() == 0,
            r.byzantine_hang_idx@.len() == 0,
            r.byzantine_sleep_idx@.len() == 0,
            r.byzantine_duplicate_idx@.len() == 0,
            r.byzantine_spurious_idx@.len() == 0,
            r.byzantine_wrong_decision_idx@.len() == 0,
    {
        PolyShardConfig {
            members: Vec::new(),
            alfa: 0,
            beta: 0,
            k: 0,
            block_publishing_delay: 5000,
            update_recv_timeout: 10,
            exponential_retry_base: 100,
            exponential_retry_max: 60000,
            idle_timeout: 30000,
            hang_timeout: 30000,
            storage_location: "memory".to_owned(),
            byzantine_enabled: false,
            byzantine_max_churn_timeout_millis: 0,
            byzantine_max_sleep_delay_millis: 0,
            byzantine_churn_idx: Vec::new(),
            byzantine_hang_idx: Vec::new(),
            byzantine_sleep_idx: Vec::new(),
            byzantine_duplicate_idx: Vec::new(),
            byzantine_spurious_idx: Vec::new(),
            byzantine_wrong_decision_idx: Vec::new(),
        }
    }

    /// Load configuration from the fetched on-chain settings: parse the
    /// required member list and thresholds, enforce the configuration
    /// constraints, and merge each optional setting that parses. On any
    /// error nothing is changed.
    pub fn load_settings(&mut self, raw: &RawSettings) -> (r: Result<(), ConfigError>)
        ensures
            (r matches Err(_) ==> *final(self) == *old(self)),
            (r == Err::<(), ConfigError>(ConfigError::MissingMembers)) <==> raw.members is None,
            (r == Err::<(), ConfigError>(ConfigError::InvalidMembers)) <==> (raw.members is Some
                && !members_ok(*raw)),
            (r == Err::<(), ConfigError>(ConfigError::MissingAlfa)) <==> (members_ok(*raw)
                && raw.alfa is None),
            (r == Err::<(), ConfigError>(ConfigError::InvalidAlfa)) <==> (members_ok(*raw)
                && raw.alfa is Some && !raw_u64_ok(raw.alfa)),
            (r == Err::<(), ConfigError>(ConfigError::MissingBeta)) <==> (members_ok(*raw)
                && raw_u64_ok(raw.alfa) && raw.beta is None),
            (r == Err::<(), ConfigError>(ConfigError::InvalidBeta)) <==> (members_ok(*raw)
                && raw_u64_ok(raw.alfa) && raw.beta is Some && !raw_u64_ok(raw.beta)),
            (r == Err::<(), ConfigError>(ConfigError::MissingK)) <==> (members_ok(*raw)
                && raw_u64_ok(raw.alfa) && raw_u64_ok(raw.beta) && raw.k is None),
            (r == Err::<(), ConfigError>(ConfigError::InvalidK)) <==> (members_ok(*raw)
                && raw_u64_ok(raw.alfa) && raw_u64_ok(raw.beta) && raw.k is Some && !raw_u64_ok(
                raw.k)),
            (r == Err::<(), ConfigError>(ConfigError::InvalidParameters)) <==> (members_ok(*raw)
                && thresholds_ok(*raw) && !constraints_ok(*raw)),
            (r is Ok) <==> (members_ok(*raw) && thresholds_ok(*raw) && constraints_ok(*raw)),
            (r is Ok ==> {
                &&& final(self).alfa == raw_u64_val(raw.alfa)
                &&& final(self).beta == raw_u64_val(raw.beta)
                &&& final(self).k == raw_u64_val(raw.k)
                &&& 1 <= final(self).alfa <= final(self).k
                &&& final(self).beta >= 1
                &&& final(self).k < final(self).members@.len()
                &&& unique_list(views_of(final(self).members@))
                &&& exists|hs: Seq<Seq<u8>>| {
                    &&& wf_hex_list(hs)
                    &&& opt_view(raw.members) == #[trigger] members_rep(hs)
                    &&& all_even(hs)
                    &&& views_of(final(self).members@) == decoded_members(hs)
                }
                &&& (raw_u64_ok(raw.block_publishing_delay) ==> final(self).block_publishing_delay
                    == raw_u64_val(raw.block_publishing_delay))
                &&& (!raw_u64_ok(raw.block_publishing_delay) ==> final(
                self).block_publishing_delay == old(self).block_publishing_delay)
                &&& (raw_u64_ok(raw.idle_timeout) ==> final(self).idle_timeout == raw_u64_val(
                    raw.idle_timeout))
                &&& (!raw_u64_ok(raw.idle_timeout) ==> final(self).idle_timeout == old(
                self).idle_timeout)
                &&& (raw_u64_ok(raw.hang_timeout) ==> final(self).hang_timeout == raw_u64_val(
                    raw.hang_timeout))
                &&& (!raw_u64_ok(raw.hang_timeout) ==> final(self).hang_timeout == old(
                self).hang_timeout)
                &&& (raw_u64_ok(raw.byzantine_max_churn_timeout_millis) ==> final(
                self).byzantine_max_churn_timeout_millis == raw_u64_val(
                    raw.byzantine_max_churn_timeout_millis))
                &&& (raw_u64_ok(raw.byzantine_max_sleep_delay_millis) ==> final(
                self).byzantine_max_sleep_delay_millis == raw_u64_val(
                    raw.byzantine_max_sleep_delay_millis))
                &&& (raw.byzantine_enabled matches Some(s) ==> (s@ == true_rep() ==> final(
                self).byzantine_enabled))
                &&& (raw.byzantine_enabled matches Some(s) ==> (s@ == false_rep() ==> !final(
                self).byzantine_enabled))
                &&& (raw.byzantine_enabled is None ==> final(self).byzantine_enabled == old(
                self).byzantine_enabled)
                &&& (raw.byzantine_churn_idx matches Some(s) ==> forall|xs: Seq<u64>| s@
                    == #[trigger] u64_array_rep(xs) ==> final(self).byzantine_churn_idx@ == xs)
                &&& (raw.byzantine_hang_idx matches Some(s) ==> forall|xs: Seq<u64>| s@
                    == #[trigger] u64_array_rep(xs) ==> final(self).byzantine_hang_idx@ == xs)
                &&& (raw.byzantine_sleep_idx matches Some(s) ==> forall|xs: Seq<u64>| s@
                    == #[trigger] u64_array_rep(xs) ==> final(self).byzantine_sleep_idx@ == xs)
                &&& (raw.byzantine_duplicate_idx matches Some(s) ==> forall|xs: Seq<u64>| s@
                    == #[trigger] u64_array_rep(xs) ==> final(self).byzantine_duplicate_idx@
                    == xs)
                &&& (raw.byzantine_spurious_idx matches Some(s) ==> forall|xs: Seq<u64>| s@
                    == #[trigger] u64_array_rep(xs) ==> final(self).byzantine_spurious_idx@ == xs)
                &&& (raw.byzantine_wrong_decision_idx matches Some(s) ==> forall|xs: Seq<u64>| s@
                    == #[trigger] u64_array_rep(xs) ==> final(self).byzantine_wrong_decision_idx@
                    == xs)
                &&& final(self).update_recv_timeout == old(self).update_recv_timeout
                &&& final(self).exponential_retry_base == old(self).exponential_retry_base
                &&& final(self).exponential_retry_max == old(self).exponential_retry_max
                &&& final(self).storage_location == old(self).storage_location
            }),
    {
        let members_value = match &raw.members {
            Some(v) => v,
            None => {
                return Err(ConfigError::MissingMembers);
            }
        };
        proof {
            assert(opt_view(raw.members) == members_value@);
        }
        let ids = match get_members_from_settings(members_value) {
            Ok(x) => x,
            Err(_) => {
                return Err(ConfigError::InvalidMembers);
            }
        };
        let ghost hs_w = choose|hs: Seq<Seq<u8>>| wf_hex_list(hs) && members_value@
            == #[trigger] members_rep(hs) && all_even(hs) && views_of(ids@) == decoded_members(hs);
        let alfa_bytes = match &raw.alfa {
            Some(v) => v,
            None => {
                return Err(ConfigError::MissingAlfa);
            }
        };
        proof {
            assert(opt_view(raw.alfa) == alfa_bytes@);
        }
        let alfa = match parse_u64_digits(alfa_bytes) {
            Some(v) => v,
            None => {
                return Err(ConfigError::InvalidAlfa);
            }
        };
        let beta_bytes = match &raw.beta {
            Some(v) => v,
            None => {
                return Err(ConfigError::MissingBeta);
            }
        };
        proof {
            assert(opt_view(raw.beta) == beta_bytes@);
        }
        let beta = match parse_u64_digits(beta_bytes) {
            Some(v) => v,
            None => {
                return Err(ConfigError::InvalidBeta);
            }
        };
        let k_bytes = match &raw.k {
            Some(v) => v,
            None => {
                return Err(ConfigError::MissingK);
            }
        };
        proof {
            assert(opt_view(raw.k) == k_bytes@);
        }
        let k = match parse_u64_digits(k_bytes) {
            Some(v) => v,
            None => {
                return Err(ConfigError::InvalidK);
            }
        };
        let unique = views_unique(&ids);
        proof {
            lemma_views_of_index(ids@);
            assert(hs_w.len() == ids@.len());
            // every decomposition of the members value is the witness
            assert forall|hs: Seq<Seq<u8>>|
                (wf_hex_list(hs) && opt_view(raw.members) == #[trigger] members_rep(hs)
                    && all_even(hs)) implies (hs.len() == ids@.len() && decoded_members(hs)
                == views_of(ids@)) by {
            }
        }
        if !(1 <= alfa && alfa <= k && beta >= 1 && k < ids.len() as u64 && unique) {
            proof {
                assert(!constraints_ok(*raw)) by {
                    if constraints_ok(*raw) {
                        let hs = choose|hs: Seq<Seq<u8>>| {
                            &&& wf_hex_list(hs)
                            &&& opt_view(raw.members) == #[trigger] members_rep(hs)
                            &&& all_even(hs)
                            &&& raw_u64_val(raw.k) < hs.len()
                            &&& unique_list(decoded_members(hs))
                        };
                        assert(hs.len() == ids@.len());
                        assert(decoded_members(hs) == views_of(ids@));
                        assert(false);
                    }
                }
            }
            return Err(ConfigError::InvalidParameters);
        }
        proof {
            assert(constraints_ok(*raw)) by {
                assert(wf_hex_list(hs_w) && opt_view(raw.members) == members_rep(hs_w)
                    && all_even(hs_w) && raw_u64_val(raw.k) < hs_w.len() && unique_list(
                    decoded_members(hs_w)));
            }
        }
        self.members = ids;
        self.alfa = alfa;
        self.beta = beta;
        self.k = k;
        merge_millis_setting_if_set(&raw.block_publishing_delay, &mut self.block_publishing_delay);
        merge_millis_setting_if_set(&raw.idle_timeout, &mut self.idle_timeout);
        merge_millis_setting_if_set(&raw.hang_timeout, &mut self.hang_timeout);
        merge_bool_setting_if_set(&raw.byzantine_enabled, &mut self.byzantine_enabled);
        merge_millis_setting_if_set(&raw.byzantine_max_churn_timeout_millis,
            &mut self.byzantine_max_churn_timeout_millis);
        merge_millis_setting_if_set(&raw.byzantine_max_sleep_delay_millis,
            &mut self.byzantine_max_sleep_delay_millis);
        merge_idx_setting_if_set(&raw.byzantine_churn_idx, &mut self.byzantine_churn_idx);
        merge_idx_setting_if_set(&raw.byzantine_hang_idx, &mut self.byzantine_hang_idx);
        merge_idx_setting_if_set(&raw.byzantine_sleep_idx, &mut self.byzantine_sleep_idx);
        merge_idx_setting_if_set(&raw.byzantine_duplicate_idx, &mut self.byzantine_duplicate_idx);
        merge_idx_setting_if_set(&raw.byzantine_spurious_idx, &mut self.byzantine_spurious_idx);
        merge_idx_setting_if_set(&raw.byzantine_wrong_decision_idx,
            &mut self.byzantine_wrong_decision_idx);
        Ok(())
    }
}

} // verus!
