//! Session token codec: turns a caller identity into an unforgeable,
//! self-contained bearer token, and reverses the operation with integrity
//! checking.
//!
//! A token is `header "." identity "." expiry "." signature`, all ASCII:
//! a constant token-type header, the canonical identity form, the expiry
//! as a canonical decimal of seconds, and the keyed MAC of everything
//! before the last dot, hex-encoded. Claims are extracted only after the
//! signature has been checked.

use vstd::prelude::*;

use crate::error::AuthError;
use crate::ident::{
    UserId, hex_digit, id_bytes, id_of, is_hex_digit, lemma_id_round_trip,
};
use vstd::string::StrSliceExecFns;

verus! {

// ---------------------------------------------------------------------------
// Canonical decimal encoding of an expiry timestamp.
// ---------------------------------------------------------------------------

pub open spec fn is_digit(b: u8) -> bool {
    0x30 <= b && b <= 0x39
}

pub open spec fn all_digits(s: Seq<u8>) -> bool {
    forall|i: int| 0 <= i < s.len() ==> is_digit(#[trigger] s[i])
}

/// Value of a big-endian decimal digit string.
pub open spec fn dec_fold(s: Seq<u8>) -> int
    decreases s.len(),
{
    if s.len() == 0 {
        0
    } else {
        dec_fold(s.drop_last()) * 10 + (s.last() - 0x30)
    }
}

/// Canonical digits of a non-negative value: no leading zeros.
pub open spec fn dec_digits(n: int) -> Seq<u8>
    recommends
        n >= 0,
    decreases n,
{
    if n < 10 {
        seq![(0x30 + n) as u8]
    } else {
        dec_digits(n / 10) + seq![(0x30 + n % 10) as u8]
    }
}

/// Canonical decimal rendering of an integer, `-` prefixed if negative.
pub open spec fn dec_bytes(n: int) -> Seq<u8> {
    if n < 0 {
        seq![0x2du8] + dec_digits(-n)
    } else {
        dec_digits(n)
    }
}

/// What parsing a decimal string yields: the value exactly when the string
/// is the canonical rendering of some integer, else nothing.
pub open spec fn dec_of(s: Seq<u8>) -> Option<int> {
    if s.len() > 0 && s[0] == 0x2d {
        let t = s.skip(1);
        if t.len() > 0 && all_digits(t) && t[0] != 0x30 {
            Some(-dec_fold(t))
        } else {
            None
        }
    } else if s.len() > 0 && all_digits(s) && (s.len() == 1 || s[0] != 0x30) {
        Some(dec_fold(s))
    } else {
        None
    }
}

/// Parsing restricted to values a signed 64-bit timestamp can hold.
pub open spec fn dec_i64_of(s: Seq<u8>) -> Option<i64> {
    match dec_of(s) {
        Some(n) => if i64::MIN <= n <= i64::MAX {
            Some(n as i64)
        } else {
            None
        },
        None => None,
    }
}

pub open spec fn pow10(n: nat) -> int
    decreases n,
{
    if n == 0 {
        1
    } else {
        10 * pow10((n - 1) as nat)
    }
}

proof fn lemma_pow10_values()
    ensures
        pow10(18) == 1000000000000000000,
        pow10(19) == 10000000000000000000,
{
    assert(pow10(0) == 1);
    assert(pow10(1) == 10);
    assert(pow10(2) == 100);
    assert(pow10(3) == 1000);
    assert(pow10(4) == 10000);
    assert(pow10(5) == 100000);
    assert(pow10(6) == 1000000);
    assert(pow10(7) == 10000000);
    assert(pow10(8) == 100000000);
    assert(pow10(9) == 1000000000);
    assert(pow10(10) == 10000000000);
    assert(pow10(11) == 100000000000);
    assert(pow10(12) == 1000000000000);
    assert(pow10(13) == 10000000000000);
    assert(pow10(14) == 100000000000000);
    assert(pow10(15) == 1000000000000000);
    assert(pow10(16) == 10000000000000000);
    assert(pow10(17) == 100000000000000000);
    assert(pow10(18) == 1000000000000000000);
    assert(pow10(19) == 10000000000000000000);
}

proof fn lemma_pow10_pos(n: nat)
    ensures
        pow10(n) >= 1,
    decreases n,
{
    if n > 0 {
        lemma_pow10_pos((n - 1) as nat);
    }
}

proof fn lemma_pow10_monotone(a: nat, b: nat)
    requires
        a <= b,
    ensures
        pow10(a) <= pow10(b),
    decreases b,
{
    if a < b {
        lemma_pow10_monotone(a, (b - 1) as nat);
        lemma_pow10_pos((b - 1) as nat);
    }
}

proof fn lemma_dec_fold_bound(s: Seq<u8>)
    requires
        all_digits(s),
    ensures
        0 <= dec_fold(s) < pow10(s.len()),
    decreases s.len(),
{
    if s.len() > 0 {
        assert(all_digits(s.drop_last())) by {
            assert(forall|i: int|
                0 <= i < s.len() - 1 ==> s.drop_last()[i] == #[trigger] s[i]);
        }
        lemma_dec_fold_bound(s.drop_last());
    }
}

/// A canonical digit string with a non-zero leading digit is at least
/// `pow10(len - 1)`.
proof fn lemma_dec_fold_lower(s: Seq<u8>)
    requires
        all_digits(s),
        s.len() >= 1,
        s[0] != 0x30,
    ensures
        dec_fold(s) >= pow10((s.len() - 1) as nat),
    decreases s.len(),
{
    if s.len() == 1 {
        assert(is_digit(s[0]));
        assert(s.drop_last() =~= Seq::<u8>::empty());
        assert(dec_fold(Seq::<u8>::empty()) == 0);
        assert(s.last() == s[0]);
    } else {
        let init = s.drop_last();
        assert(all_digits(init) && init[0] == s[0]) by {
            assert(forall|i: int| 0 <= i < init.len() ==> init[i] == #[trigger] s[i]);
        }
        lemma_dec_fold_lower(init);
        assert(is_digit(s.last()));
        assert(dec_fold(init) * 10 >= pow10((s.len() - 2) as nat) * 10) by (nonlinear_arith)
            requires dec_fold(init) >= pow10((s.len() - 2) as nat), s.len() >= 2;
        assert(pow10((s.len() - 1) as nat) == 10 * pow10((s.len() - 2) as nat));
    }
}

/// The canonical digits of `n >= 0` are digits, fold back to `n`, and
/// have a non-zero leading digit whenever `n >= 1` spans them.
proof fn lemma_dec_digits_props(n: int)
    requires
        n >= 0,
    ensures
        all_digits(dec_digits(n)),
        dec_digits(n).len() >= 1,
        dec_fold(dec_digits(n)) == n,
        n >= 1 ==> dec_digits(n)[0] != 0x30,
        n < 10 ==> dec_digits(n).len() == 1,
    decreases n,
{
    if n < 10 {
        let s = dec_digits(n);
        assert(s == seq![(0x30 + n) as u8]);
        assert(s.drop_last() =~= Seq::<u8>::empty());
        assert(dec_fold(Seq::<u8>::empty()) == 0);
        assert(s.last() == (0x30 + n) as u8);
    } else {
        lemma_dec_digits_props(n / 10);
        let s = dec_digits(n);
        let init = dec_digits(n / 10);
        assert(s == init + seq![(0x30 + n % 10) as u8]);
        assert(s.drop_last() =~= init);
        assert(s.last() == (0x30 + n % 10) as u8);
        assert(all_digits(s)) by {
            assert(forall|i: int| 0 <= i < init.len() ==> s[i] == #[trigger] init[i]);
        }
        assert((n / 10) * 10 + n % 10 == n) by (nonlinear_arith);
        assert(s[0] == init[0]);
    }
}

/// Round trip: rendering then parsing an in-range timestamp is the identity.
pub proof fn lemma_dec_round_trip(n: i64)
    ensures
        dec_i64_of(dec_bytes(n as int)) == Some(n),
{
    if n >= 0 {
        lemma_dec_digits_props(n as int);
        let s = dec_bytes(n as int);
        assert(is_digit(s[0]));
    } else {
        lemma_dec_digits_props(-(n as int));
        let s = dec_bytes(n as int);
        let t = s.skip(1);
        assert(t =~= dec_digits(-(n as int)));
    }
}

/// Renders the canonical digits of a non-negative value.
fn dec_render_u64(m: u64) -> (r: Vec<u8>)
    ensures
        r@ == dec_digits(m as int),
    decreases m,
{
    if m < 10 {
        let mut v: Vec<u8> = Vec::new();
        v.push(0x30 + m as u8);
        assert(v@ =~= dec_digits(m as int));
        v
    } else {
        let mut r = dec_render_u64(m / 10);
        r.push(0x30 + (m % 10) as u8);
        assert(r@ =~= dec_digits(m as int));
        r
    }
}

/// Renders the canonical decimal form of a timestamp.
fn dec_render(n: i64) -> (r: Vec<u8>)
    ensures
        r@ == dec_bytes(n as int),
{
    if n >= 0 {
        dec_render_u64(n as u64)
    } else {
        let mut v: Vec<u8> = Vec::new();
        v.push(0x2d);
        let m: u64 = (-(n as i128)) as u64;
        let mut d = dec_render_u64(m);
        v.append(&mut d);
        assert(v@ =~= dec_bytes(n as int));
        v
    }
}

/// Parses the canonical decimal form; accepts exactly the strings that
/// `dec_render` produces for values a signed 64-bit integer can hold.
fn parse_dec_i64(s: &[u8]) -> (r: Option<i64>)
    ensures
        r == dec_i64_of(s@),
{
    let n = s.len();
    if n == 0 {
        return None;
    }
    let neg = s[0] == 0x2d;
    let start: usize = if neg {
        1
    } else {
        0
    };
    let ghost digits = s@.skip(start as int);
    if n == start {
        return None;
    }
    assert(digits.len() == n - start);
    if s[start] == 0x30 {
        if !neg && n - start == 1 {
            assert(s@ =~= seq![0x30u8]);
            assert(dec_fold(seq![0x30u8]) == 0) by {
                assert(seq![0x30u8].drop_last() =~= Seq::<u8>::empty());
                assert(dec_fold(Seq::<u8>::empty()) == 0);
                assert(seq![0x30u8].last() == 0x30u8);
            }
            return Some(0);
        }
        assert(digits[0] == 0x30);
        return None;
    }
    if n - start > 19 {
        proof {
            assert(digits[0] == s@[start as int]);
            if all_digits(digits) {
                lemma_dec_fold_lower(digits);
                lemma_pow10_monotone(19, (digits.len() - 1) as nat);
                lemma_pow10_values();
                assert(dec_fold(digits) > i64::MAX);
            }
            if !neg {
                assert(s@.skip(0) =~= s@);
            }
        }
        return None;
    }
    let mut acc: u64 = 0;
    let mut i: usize = start;
    proof {
        assert(digits.take(0) =~= Seq::<u8>::empty());
    }
    while i < n
        invariant
            start <= i <= n,
            start < n,
            n == s@.len(),
            n - start <= 19,
            neg == (s@[0] == 0x2d),
            start as int == if neg {
                1int
            } else {
                0int
            },
            s@[start as int] != 0x30 || (!neg && n - start == 1),
            digits == s@.skip(start as int),
            all_digits(digits.take(i - start)),
            acc == dec_fold(digits.take(i - start)),
        decreases n - i,
    {
        let b = s[i];
        if b < 0x30 || b > 0x39 {
            assert(digits[i - start] == b && !is_digit(b));
            assert(!all_digits(digits));
            proof {
                if neg {
                    assert(s@[0] == 0x2d);
                    assert(!all_digits(s@.skip(1)));
                    assert(dec_of(s@) is None);
                } else {
                    assert(s@.skip(0) =~= s@);
                    assert(!all_digits(s@));
                    assert(dec_of(s@) is None);
                }
            }
            return None;
        }
        proof {
            lemma_dec_fold_bound(digits.take(i - start));
            lemma_pow10_monotone((i - start) as nat, 18);
            lemma_pow10_values();
        }
        acc = acc * 10 + (b - 0x30) as u64;
        proof {
            let pre = digits.take(i - start);
            let cur = digits.take(i + 1 - start);
            assert(cur.drop_last() =~= pre);
            assert(cur.last() == digits[i - start]);
            assert(all_digits(cur)) by {
                assert(forall|k: int| 0 <= k < pre.len() ==> cur[k] == #[trigger] pre[k]);
            }
        }
        i += 1;
    }
    assert(digits.take(n - start) =~= digits);
    proof {
        lemma_dec_fold_bound(digits);
    }
    if neg {
        assert(dec_of(s@) == Some(-dec_fold(digits)));
        if acc > 9223372036854775808 {
            return None;
        } else if acc == 9223372036854775808 {
            return Some(i64::MIN);
        } else {
            return Some(-(acc as i64));
        }
    } else {
        assert(s@.skip(0) =~= s@);
        assert(dec_of(s@) == Some(dec_fold(s@)));
        if acc > 9223372036854775807 {
            return None;
        } else {
            return Some(acc as i64);
        }
    }
}

// ---------------------------------------------------------------------------
// Hex encoding of the MAC output.
// ---------------------------------------------------------------------------

/// Two lowercase hex digits per byte, in order.
pub open spec fn hex_of(s: Seq<u8>) -> Seq<u8>
    decreases s.len(),
{
    if s.len() == 0 {
        Seq::empty()
    } else {
        hex_of(s.drop_last()) + seq![
            hex_digit(s.last() as int / 16),
            hex_digit(s.last() as int % 16),
        ]
    }
}

proof fn lemma_hex_of_len(s: Seq<u8>)
    ensures
        hex_of(s).len() == 2 * s.len(),
    decreases s.len(),
{
    if s.len() > 0 {
        lemma_hex_of_len(s.drop_last());
    }
}

/// Every byte of a hex encoding is a hex digit: in particular ASCII and
/// never a dot.
proof fn lemma_hex_of_range(s: Seq<u8>)
    ensures
        forall|k: int| 0 <= k < hex_of(s).len() ==> is_hex_digit(#[trigger] hex_of(s)[k]),
    decreases s.len(),
{
    if s.len() > 0 {
        lemma_hex_of_range(s.drop_last());
        let h = hex_of(s);
        let hp = hex_of(s.drop_last());
        assert(forall|k: int| 0 <= k < hp.len() ==> h[k] == #[trigger] hp[k]);
        assert(is_hex_digit(hex_digit(s.last() as int / 16)));
        assert(is_hex_digit(hex_digit(s.last() as int % 16)));
    }
}

/// Distinct byte strings have distinct hex encodings.
proof fn lemma_hex_of_injective(a: Seq<u8>, b: Seq<u8>)
    requires
        hex_of(a) == hex_of(b),
    ensures
        a == b,
    decreases a.len(),
{
    lemma_hex_of_len(a);
    lemma_hex_of_len(b);
    if a.len() == 0 {
        assert(a =~= b);
    } else {
        lemma_hex_of_len(a.drop_last());
        lemma_hex_of_len(b.drop_last());
        let ha = hex_of(a);
        let hb = hex_of(b);
        let n = a.len();
        assert(ha == hex_of(a.drop_last()) + seq![
            hex_digit(a.last() as int / 16),
            hex_digit(a.last() as int % 16),
        ]);
        assert(hb == hex_of(b.drop_last()) + seq![
            hex_digit(b.last() as int / 16),
            hex_digit(b.last() as int % 16),
        ]);
        assert(b.len() == n);
        assert(ha[2 * n - 2] == hex_digit(a.last() as int / 16));
        assert(ha[2 * n - 1] == hex_digit(a.last() as int % 16));
        assert(hb[2 * n - 2] == hex_digit(b.last() as int / 16));
        assert(hb[2 * n - 1] == hex_digit(b.last() as int % 16));
        assert(a.last() as int / 16 == b.last() as int / 16);
        assert(a.last() as int % 16 == b.last() as int % 16);
        assert(a.last() == b.last());
        assert forall|k: int| 0 <= k < 2 * n - 2 implies hex_of(a.drop_last())[k] == hex_of(
            b.drop_last(),
        )[k] by {
            assert(ha[k] == hex_of(a.drop_last())[k]);
            assert(hb[k] == hex_of(b.drop_last())[k]);
            assert(ha[k] == hb[k]);
        }
        assert(hex_of(a.drop_last()) =~= hex_of(b.drop_last()));
        lemma_hex_of_injective(a.drop_last(), b.drop_last());
        assert forall|k: int| 0 <= k < a.len() implies a[k] == b[k] by {
            if k < n - 1 {
                assert(a[k] == a.drop_last()[k]);
                assert(b[k] == b.drop_last()[k]);
            } else {
                assert(a[k] == a.last());
                assert(b[k] == b.last());
            }
        }
        assert(a =~= b);
    }
}

/// Renders each byte as two lowercase hex digits.
fn hex_render_pairs(s: &[u8]) -> (r: Vec<u8>)
    ensures
        r@ == hex_of(s@),
{
    let mut r: Vec<u8> = Vec::new();
    let mut i: usize = 0;
    proof {
        assert(s@.take(0) =~= Seq::<u8>::empty());
    }
    while i < s.len()
        invariant
            0 <= i <= s@.len(),
            r@ == hex_of(s@.take(i as int)),
        decreases s@.len() - i,
    {
        let b = s[i];
        let hi = b / 16;
        let lo = b % 16;
        r.push(if hi < 10 {
            0x30 + hi
        } else {
            0x57 + hi
        });
        r.push(if lo < 10 {
            0x30 + lo
        } else {
            0x57 + lo
        });
        proof {
            let cur = s@.take(i + 1);
            assert(cur.drop_last() =~= s@.take(i as int));
            assert(cur.last() == s@[i as int]);
            assert(r@ =~= hex_of(cur));
        }
        i += 1;
    }
    assert(s@.take(s@.len() as int) =~= s@);
    r
}

// ---------------------------------------------------------------------------
// The keyed MAC, and ASCII string conversions.
// ---------------------------------------------------------------------------

/// The HMAC-SHA-384 tag over a message under a key. A pure function of its
/// arguments; what it is on given values only the MAC implementation knows.
pub uninterp spec fn hmac_sha384_of(key: Seq<u8>, msg: Seq<u8>) -> Seq<u8>;

/// Relies on hmac's `Hmac<Sha384>`: a deterministic keyed MAC that accepts
/// keys of any length and produces a 48-byte tag.
#[verifier::external_body]
fn hmac_sha384(key: &[u8], msg: &[u8]) -> (tag: Vec<u8>)
    ensures
        tag@ == hmac_sha384_of(key@, msg@),
        tag@.len() == 48,
{
    let mut mac = <hmac::Hmac<sha2::Sha384> as hmac::Mac>::new_from_slice(key)
        .expect("HMAC accepts keys of any length");
    hmac::Mac::update(&mut mac, msg);
    hmac::Mac::finalize(mac).into_bytes().to_vec()
}

pub open spec fn all_ascii(s: Seq<u8>) -> bool {
    forall|i: int| 0 <= i < s.len() ==> #[trigger] s[i] < 0x80
}

/// The characters an ASCII byte string spells.
pub open spec fn ascii_str(s: Seq<u8>) -> Seq<char> {
    s.map(|i: int, b: u8| b as char)
}

/// The bytes of a character string; faithful exactly on ASCII strings.
pub open spec fn char_bytes(s: Seq<char>) -> Seq<u8> {
    s.map(|i: int, c: char| c as u8)
}

/// Relies on `String::push`: appends exactly one character.
#[verifier::external_body]
pub(crate) fn push_char(s: &mut String, c: char)
    ensures
        final(s)@ == old(s)@.push(c),
{
    s.push(c);
}

/// Builds the string spelling a byte sequence, one character per byte.
fn string_from_ascii(bytes: Vec<u8>) -> (r: String)
    ensures
        r@ == ascii_str(bytes@),
{
    let mut r = String::new();
    let mut i: usize = 0;
    proof {
        assert(r@ =~= ascii_str(bytes@.take(0)));
    }
    while i < bytes.len()
        invariant
            0 <= i <= bytes@.len(),
            r@ == ascii_str(bytes@.take(i as int)),
        decreases bytes@.len() - i,
    {
        let b = bytes[i];
        push_char(&mut r, b as char);
        proof {
            assert(r@ =~= ascii_str(bytes@.take(i + 1)));
        }
        i += 1;
    }
    proof {
        assert(bytes@.take(bytes@.len() as int) =~= bytes@);
    }
    r
}

pub proof fn lemma_ascii_round(s: Seq<u8>)
    requires
        all_ascii(s),
    ensures
        char_bytes(ascii_str(s)) == s,
        vstd::utf8::is_ascii_chars(ascii_str(s)),
{
    assert(char_bytes(ascii_str(s)) =~= s) by {
        assert(forall|i: int| 0 <= i < s.len() ==> (#[trigger] s[i] as char) as u8 == s[i]);
    }
    assert(forall|i: int|
        0 <= i < ascii_str(s).len() ==> (#[trigger] ascii_str(s)[i] as u32) < 128);
}

// ---------------------------------------------------------------------------
// Token structure.
// ---------------------------------------------------------------------------

/// The constant token-type header.
pub open spec fn header_bytes() -> Seq<u8> {
    seq![0x73u8, 0x76u8, 0x31u8]
}

/// The signed part of a token: header, identity, expiry, dot-separated.
pub open spec fn payload_bytes(u: u128, exp: int) -> Seq<u8> {
    header_bytes() + seq![0x2eu8] + id_bytes(u) + seq![0x2eu8] + dec_bytes(exp)
}

/// The hex-encoded MAC of a payload under a key.
pub open spec fn signature_bytes(key: Seq<u8>, payload: Seq<u8>) -> Seq<u8> {
    hex_of(hmac_sha384_of(key, payload))
}

/// A complete token: payload, dot, signature.
pub open spec fn token_bytes(key: Seq<u8>, u: u128, exp: int) -> Seq<u8> {
    payload_bytes(u, exp) + seq![0x2eu8] + signature_bytes(key, payload_bytes(u, exp))
}

/// Index of the last dot, or -1.
pub open spec fn last_dot(t: Seq<u8>) -> int
    decreases t.len(),
{
    if t.len() == 0 {
        -1
    } else if t.last() == 0x2e {
        t.len() - 1
    } else {
        last_dot(t.drop_last())
    }
}

/// What a well-formed payload claims: the identity and the expiry, exactly
/// when every part is canonical.
pub open spec fn claims_of(p: Seq<u8>) -> Option<(u128, i64)> {
    if p.len() >= 38 && p.subrange(0, 3) == header_bytes() && p[3] == 0x2e && p[36] == 0x2e {
        match (id_of(p.subrange(4, 36)), dec_i64_of(p.subrange(37, p.len() as int))) {
            (Some(u), Some(e)) => Some((u, e)),
            _ => None,
        }
    } else {
        None
    }
}

/// The decision on a token at time `now` under `key`: split at the last dot,
/// check the signature, then — and only then — parse the claims and check
/// expiry. Expiry must be strictly in the future.
pub open spec fn verify_outcome(t: Seq<u8>, now: i64, key: Seq<u8>) -> Result<UserId, AuthError> {
    let d = last_dot(t);
    if d < 0 {
        Err(AuthError::Malformed)
    } else {
        let payload = t.take(d);
        let sig = t.skip(d + 1);
        if sig != signature_bytes(key, payload) {
            Err(AuthError::InvalidSignature)
        } else {
            match claims_of(payload) {
                None => Err(AuthError::Malformed),
                Some((u, exp)) => if exp <= now {
                    Err(AuthError::Expired)
                } else {
                    Ok(UserId { value: u })
                },
            }
        }
    }
}

proof fn lemma_last_dot_at(s: Seq<u8>, i: int)
    requires
        0 <= i < s.len(),
        s[i] == 0x2e,
        forall|j: int| i < j < s.len() ==> s[j] != 0x2e,
    ensures
        last_dot(s) == i,
    decreases s.len(),
{
    if i == s.len() - 1 {
    } else {
        assert(s.last() != 0x2e);
        assert(s.drop_last()[i] == s[i]);
        lemma_last_dot_at(s.drop_last(), i);
    }
}

proof fn lemma_last_dot_none(s: Seq<u8>)
    requires
        forall|j: int| 0 <= j < s.len() ==> s[j] != 0x2e,
    ensures
        last_dot(s) == -1,
    decreases s.len(),
{
    if s.len() > 0 {
        lemma_last_dot_none(s.drop_last());
    }
}

fn find_last_dot(t: &[u8]) -> (r: Option<usize>)
    ensures
        r is Some <==> last_dot(t@) >= 0,
        r is Some ==> r.unwrap() as int == last_dot(t@),
        r is Some ==> r.unwrap() < t@.len(),
{
    let mut i: usize = t.len();
    while i > 0
        invariant
            0 <= i <= t@.len(),
            forall|j: int| i <= j < t@.len() ==> t@[j] != 0x2e,
        decreases i,
    {
        i -= 1;
        if t[i] == 0x2e {
            proof {
                lemma_last_dot_at(t@, i as int);
            }
            return Some(i);
        }
    }
    proof {
        lemma_last_dot_none(t@);
    }
    None
}

/// Compares two byte strings without an early exit on the first differing
/// byte, so the running time does not reveal where they first differ.
fn ct_bytes_eq(a: &[u8], b: &[u8]) -> (r: bool)
    ensures
        r == (a@ == b@),
{
    if a.len() != b.len() {
        assert(a@ != b@);
        return false;
    }
    let mut diff: u8 = 0;
    let mut i: usize = 0;
    while i < a.len()
        invariant
            0 <= i <= a@.len(),
            a@.len() == b@.len(),
            (diff == 0) <==> (forall|k: int| 0 <= k < i ==> a@[k] == #[trigger] b@[k]),
        decreases a@.len() - i,
    {
        let x = a[i] ^ b[i];
        proof {
            let av = a@[i as int];
            let bv = b@[i as int];
            assert(((av ^ bv) == 0) == (av == bv)) by (bit_vector);
            let d = diff;
            assert(((d | (av ^ bv)) == 0) == (d == 0 && (av ^ bv) == 0)) by (bit_vector);
        }
        diff = diff | x;
        i += 1;
    }
    if diff == 0 {
        assert(a@ =~= b@);
        true
    } else {
        false
    }
}

fn parse_claims(p: &[u8]) -> (r: Option<(UserId, i64)>)
    ensures
        r is Some <==> claims_of(p@) is Some,
        r is Some ==> claims_of(p@) == Some((r.unwrap().0.value, r.unwrap().1)),
{
    if p.len() < 38 {
        return None;
    }
    if !(p[0] == 0x73 && p[1] == 0x76 && p[2] == 0x31) {
        assert(p@.subrange(0, 3) != header_bytes()) by {
            if p@.subrange(0, 3) == header_bytes() {
                assert(p@.subrange(0, 3)[0] == p@[0]);
                assert(p@.subrange(0, 3)[1] == p@[1]);
                assert(p@.subrange(0, 3)[2] == p@[2]);
            }
        }
        return None;
    }
    assert(p@.subrange(0, 3) =~= header_bytes());
    if p[3] != 0x2e || p[36] != 0x2e {
        return None;
    }
    let idpart = vstd::slice::slice_subrange(p, 4, 36);
    let user = match UserId::parse_canonical(idpart) {
        Some(u) => u,
        None => {
            return None;
        },
    };
    let expart = vstd::slice::slice_subrange(p, 37, p.len());
    match parse_dec_i64(expart) {
        Some(e) => Some((user, e)),
        None => None,
    }
}

/// Verifies a token given as bytes.
pub(crate) fn verify_token_bytes(t: &[u8], now: i64, key: &[u8]) -> (r: Result<UserId, AuthError>)
    ensures
        r == verify_outcome(t@, now, key@),
{
    let len = t.len();
    let d = match find_last_dot(t) {
        Some(d) => d,
        None => {
            return Err(AuthError::Malformed);
        },
    };
    let payload = vstd::slice::slice_subrange(t, 0, d);
    let sig = vstd::slice::slice_subrange(t, d + 1, len);
    let tag = hmac_sha384(key, payload);
    let expected = hex_render_pairs(tag.as_slice());
    if !ct_bytes_eq(sig, expected.as_slice()) {
        return Err(AuthError::InvalidSignature);
    }
    match parse_claims(payload) {
        None => Err(AuthError::Malformed),
        Some((user, exp)) => if exp <= now {
            Err(AuthError::Expired)
        } else {
            Ok(user)
        },
    }
}

/// Every byte of a token is ASCII.
pub proof fn lemma_token_ascii(key: Seq<u8>, u: u128, exp: int)
    ensures
        all_ascii(token_bytes(key, u, exp)),
{
    let p = payload_bytes(u, exp);
    let s = signature_bytes(key, p);
    lemma_hex_of_range(hmac_sha384_of(key, p));
    lemma_id_ascii(u);
    lemma_dec_ascii(exp);
    assert forall|i: int| 0 <= i < token_bytes(key, u, exp).len() implies #[trigger] token_bytes(
        key,
        u,
        exp,
    )[i] < 0x80 by {
        let t = token_bytes(key, u, exp);
        if i < 3 {
            assert(t[i] == header_bytes()[i]);
        } else if i < 4 {
            assert(t[i] == 0x2e);
        } else if i < 36 {
            assert(t[i] == id_bytes(u)[i - 4]);
        } else if i < 37 {
            assert(t[i] == 0x2e);
        } else if i < 37 + dec_bytes(exp).len() {
            assert(t[i] == dec_bytes(exp)[i - 37]);
        } else if i < p.len() + 1 {
            assert(t[i] == 0x2e);
        } else {
            assert(t[i] == s[i - p.len() - 1]);
            assert(is_hex_digit(s[i - p.len() - 1]));
        }
    }
}

proof fn lemma_id_ascii(u: u128)
    ensures
        forall|k: int| 0 <= k < 32 ==> #[trigger] id_bytes(u)[k] < 0x80,
        id_bytes(u).len() == 32,
{
    crate::ident::lemma_id_bytes_hex(u);
}

proof fn lemma_dec_ascii(n: int)
    ensures
        forall|k: int| 0 <= k < dec_bytes(n).len() ==> #[trigger] dec_bytes(n)[k] < 0x80,
        dec_bytes(n).len() >= 1,
        forall|k: int| 0 <= k < dec_bytes(n).len() ==> #[trigger] dec_bytes(n)[k] != 0x2e,
{
    if n < 0 {
        lemma_dec_digits_range(-n);
        let s = dec_bytes(n);
        let d = dec_digits(-n);
        assert(forall|k: int| 1 <= k < s.len() ==> s[k] == #[trigger] d[k - 1]);
        assert(s[0] == 0x2d);
    } else {
        lemma_dec_digits_range(n);
    }
}

proof fn lemma_dec_digits_range(n: int)
    requires
        n >= 0,
    ensures
        forall|k: int|
            0 <= k < dec_digits(n).len() ==> 0x30 <= #[trigger] dec_digits(n)[k] <= 0x39,
        dec_digits(n).len() >= 1,
    decreases n,
{
    if n >= 10 {
        lemma_dec_digits_range(n / 10);
        let s = dec_digits(n);
        let init = dec_digits(n / 10);
        assert(forall|k: int| 0 <= k < init.len() ==> s[k] == #[trigger] init[k]);
        assert(s.last() == (0x30 + n % 10) as u8);
    }
}

/// Issues a token for `user`, valid for the fixed session lifetime from
/// `now`, signed with `key`.
pub fn issue(user: UserId, now: i64, key: &[u8]) -> (r: String)
    requires
        now <= i64::MAX - crate::SESSION_LIFETIME_SECONDS,
    ensures
        r@ == ascii_str(token_bytes(key@, user.value, now + crate::SESSION_LIFETIME_SECONDS)),
{
    let exp: i64 = now + crate::SESSION_LIFETIME_SECONDS;
    let mut payload: Vec<u8> = Vec::new();
    payload.push(0x73);
    payload.push(0x76);
    payload.push(0x31);
    payload.push(0x2e);
    let mut idb = user.canonical_vec();
    payload.append(&mut idb);
    payload.push(0x2e);
    let mut db = dec_render(exp);
    payload.append(&mut db);
    assert(payload@ =~= payload_bytes(user.value, exp as int));
    let tag = hmac_sha384(key, payload.as_slice());
    let mut sig = hex_render_pairs(tag.as_slice());
    let mut token = payload;
    token.push(0x2e);
    token.append(&mut sig);
    assert(token@ =~= token_bytes(key@, user.value, exp as int));
    string_from_ascii(token)
}

/// Verifies a token string at time `now` under `key`: the signature is
/// recomputed and compared without an early exit; claims are read only
/// after it matches; the expiry must be strictly in the future.
pub fn verify(token: &str, now: i64, key: &[u8]) -> (r: Result<UserId, AuthError>)
    ensures
        vstd::utf8::is_ascii_chars(token@) ==> r == verify_outcome(char_bytes(token@), now, key@),
        !vstd::utf8::is_ascii_chars(token@) ==> r == Err::<UserId, AuthError>(AuthError::Malformed),
{
    if !token.is_ascii() {
        return Err(AuthError::Malformed);
    }
    let v = token.as_bytes_vec();
    proof {
        vstd::string::is_ascii_spec_bytes(token);
        assert(v@ =~= char_bytes(token@));
    }
    verify_token_bytes(v.as_slice(), now, key)
}

// ---------------------------------------------------------------------------
// Laws of the codec.
// ---------------------------------------------------------------------------

/// Round trip and expiry law: a token built for `u` with expiry `exp` and
/// signed with `key` verifies to exactly `u` at any time strictly before
/// `exp`, and is rejected as expired at any time at or after `exp`.
pub proof fn lemma_verify_of_issued(key: Seq<u8>, u: u128, exp: i64, now: i64)
    ensures
        now < exp ==> verify_outcome(token_bytes(key, u, exp as int), now, key)
            == Ok::<UserId, AuthError>(UserId { value: u }),
        exp <= now ==> verify_outcome(token_bytes(key, u, exp as int), now, key)
            == Err::<UserId, AuthError>(AuthError::Expired),
{
    let p = payload_bytes(u, exp as int);
    let s = signature_bytes(key, p);
    let t = token_bytes(key, u, exp as int);
    lemma_hex_of_range(hmac_sha384_of(key, p));
    assert(forall|j: int| 0 <= j < s.len() ==> #[trigger] s[j] != 0x2e);
    assert(t[p.len() as int] == 0x2e);
    assert(forall|j: int| p.len() < j < t.len() ==> #[trigger] t[j] == s[j - p.len() - 1]);
    lemma_last_dot_at(t, p.len() as int);
    assert(t.take(p.len() as int) =~= p);
    assert(t.skip(p.len() as int + 1) =~= s);
    lemma_claims_of_payload(u, exp);
}

/// A canonical payload parses back to exactly its claims.
proof fn lemma_claims_of_payload(u: u128, exp: i64)
    ensures
        claims_of(payload_bytes(u, exp as int)) == Some((u, exp)),
{
    let p = payload_bytes(u, exp as int);
    lemma_id_ascii(u);
    lemma_dec_ascii(exp as int);
    assert(p.len() == 38 + dec_bytes(exp as int).len() - 1);
    assert(p.subrange(0, 3) =~= header_bytes());
    assert(p[3] == 0x2e);
    assert(p[36] == 0x2e);
    assert(p.subrange(4, 36) =~= id_bytes(u));
    assert(p.subrange(37, p.len() as int) =~= dec_bytes(exp as int));
    lemma_id_round_trip(u);
    lemma_dec_round_trip(exp);
}

/// Tamper-rejection law: keep a token's signature but alter its payload,
/// and verification fails with `InvalidSignature` — provided the MAC of
/// the altered payload differs from the MAC of the original, which is the
/// collision-freedom the MAC is relied upon for.
pub proof fn lemma_altered_payload_rejected(
    key: Seq<u8>,
    payload: Seq<u8>,
    altered: Seq<u8>,
    now: i64,
)
    requires
        hmac_sha384_of(key, altered) != hmac_sha384_of(key, payload),
    ensures
        verify_outcome(altered + seq![0x2eu8] + signature_bytes(key, payload), now, key)
            == Err::<UserId, AuthError>(AuthError::InvalidSignature),
{
    let s = signature_bytes(key, payload);
    let t = altered + seq![0x2eu8] + s;
    lemma_hex_of_range(hmac_sha384_of(key, payload));
    assert(forall|j: int| 0 <= j < s.len() ==> #[trigger] s[j] != 0x2e);
    assert(t[altered.len() as int] == 0x2e);
    assert(forall|j: int|
        altered.len() < j < t.len() ==> #[trigger] t[j] == s[j - altered.len() - 1]);
    lemma_last_dot_at(t, altered.len() as int);
    assert(t.take(altered.len() as int) =~= altered);
    assert(t.skip(altered.len() as int + 1) =~= s);
    if signature_bytes(key, altered) == s {
        lemma_hex_of_injective(hmac_sha384_of(key, altered), hmac_sha384_of(key, payload));
    }
}

} // verus!
