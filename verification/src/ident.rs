//! Caller identity: an opaque 128-bit identifier with a canonical,
//! fixed-width lowercase-hex string form.

use vstd::prelude::*;

verus! {

/// The account a request claims to act as, established only after signature
/// and expiry checks pass.
#[derive(PartialEq, Eq, Structural, Debug, Clone, Copy)]
pub struct UserId {
    pub value: u128,
}

/// Lowercase hex digit for a value below 16.
pub open spec fn hex_digit(n: int) -> u8 {
    if n < 10 {
        (0x30 + n) as u8
    } else {
        (0x57 + n) as u8
    }
}

pub open spec fn is_hex_digit(b: u8) -> bool {
    (0x30 <= b && b <= 0x39) || (0x61 <= b && b <= 0x66)
}

pub open spec fn hex_val(b: u8) -> int {
    if 0x30 <= b && b <= 0x39 {
        b - 0x30
    } else {
        b - 0x57
    }
}

/// The `w` least-significant hex digits of `v`, most significant first.
pub open spec fn hex_str(v: int, w: nat) -> Seq<u8>
    decreases w,
{
    if w == 0 {
        Seq::empty()
    } else {
        hex_str(v / 16, (w - 1) as nat) + seq![hex_digit(v % 16)]
    }
}

/// Canonical string form of an identity: exactly 32 lowercase hex digits.
pub open spec fn id_bytes(v: u128) -> Seq<u8> {
    hex_str(v as int, 32)
}

pub open spec fn all_hex(s: Seq<u8>) -> bool {
    forall|i: int| 0 <= i < s.len() ==> is_hex_digit(#[trigger] s[i])
}

/// Value of a big-endian hex digit string.
pub open spec fn hex_fold(s: Seq<u8>) -> int
    decreases s.len(),
{
    if s.len() == 0 {
        0
    } else {
        hex_fold(s.drop_last()) * 16 + hex_val(s.last())
    }
}

pub open spec fn pow16(n: nat) -> int
    decreases n,
{
    if n == 0 {
        1
    } else {
        16 * pow16((n - 1) as nat)
    }
}

/// What parsing a canonical identity string yields.
pub open spec fn id_of(s: Seq<u8>) -> Option<u128> {
    if s.len() == 32 && all_hex(s) {
        Some(hex_fold(s) as u128)
    } else {
        None
    }
}

proof fn lemma_hex_fold_bound(s: Seq<u8>)
    requires
        all_hex(s),
    ensures
        0 <= hex_fold(s) < pow16(s.len()),
    decreases s.len(),
{
    if s.len() > 0 {
        assert(all_hex(s.drop_last())) by {
            assert(forall|i: int|
                0 <= i < s.len() - 1 ==> s.drop_last()[i] == #[trigger] s[i]);
        }
        lemma_hex_fold_bound(s.drop_last());
        assert(is_hex_digit(s.last()));
        assert(0 <= hex_val(s.last()) < 16);
    }
}

/// Folding the digits of a canonical rendering gives the value back.
proof fn lemma_fold_of_hex_str(v: int, w: nat)
    requires
        0 <= v < pow16(w),
    ensures
        hex_fold(hex_str(v, w)) == v,
        all_hex(hex_str(v, w)),
        hex_str(v, w).len() == w,
    decreases w,
{
    if w == 0 {
        assert(v == 0);
    } else {
        let s = hex_str(v, w);
        let init = hex_str(v / 16, (w - 1) as nat);
        assert(0 <= v / 16 < pow16((w - 1) as nat)) by (nonlinear_arith)
            requires 0 <= v < pow16(w), pow16(w) == 16 * pow16((w - 1) as nat);
        lemma_fold_of_hex_str(v / 16, (w - 1) as nat);
        assert(s.drop_last() =~= init);
        assert(s.last() == hex_digit(v % 16));
        assert(hex_val(hex_digit(v % 16)) == v % 16);
        assert((v / 16) * 16 + v % 16 == v) by (nonlinear_arith);
        assert(forall|i: int| 0 <= i < s.len() ==> is_hex_digit(#[trigger] s[i])) by {
            assert(forall|i: int| 0 <= i < w - 1 ==> s[i] == #[trigger] init[i]);
            assert(is_hex_digit(hex_digit(v % 16)));
        }
    }
}

proof fn lemma_pow16_values()
    ensures
        pow16(31) == 0x10000000000000000000000000000000,
        pow16(32) == 0x100000000000000000000000000000000,
{
    assert(pow16(0) == 1);
    assert(pow16(1) == 0x10);
    assert(pow16(2) == 0x100);
    assert(pow16(3) == 0x1000);
    assert(pow16(4) == 0x10000);
    assert(pow16(5) == 0x100000);
    assert(pow16(6) == 0x1000000);
    assert(pow16(7) == 0x10000000);
    assert(pow16(8) == 0x100000000);
    assert(pow16(9) == 0x1000000000);
    assert(pow16(10) == 0x10000000000);
    assert(pow16(11) == 0x100000000000);
    assert(pow16(12) == 0x1000000000000);
    assert(pow16(13) == 0x10000000000000);
    assert(pow16(14) == 0x100000000000000);
    assert(pow16(15) == 0x1000000000000000);
    assert(pow16(16) == 0x10000000000000000);
    assert(pow16(17) == 0x100000000000000000);
    assert(pow16(18) == 0x1000000000000000000);
    assert(pow16(19) == 0x10000000000000000000);
    assert(pow16(20) == 0x100000000000000000000);
    assert(pow16(21) == 0x1000000000000000000000);
    assert(pow16(22) == 0x10000000000000000000000);
    assert(pow16(23) == 0x100000000000000000000000);
    assert(pow16(24) == 0x1000000000000000000000000);
    assert(pow16(25) == 0x10000000000000000000000000);
    assert(pow16(26) == 0x100000000000000000000000000);
    assert(pow16(27) == 0x1000000000000000000000000000);
    assert(pow16(28) == 0x10000000000000000000000000000);
    assert(pow16(29) == 0x100000000000000000000000000000);
    assert(pow16(30) == 0x1000000000000000000000000000000);
    assert(pow16(31) == 0x10000000000000000000000000000000);
    assert(pow16(32) == 0x100000000000000000000000000000000);
}

pub proof fn lemma_id_round_trip(v: u128)
    ensures
        id_of(id_bytes(v)) == Some(v),
{
    lemma_pow16_values();
    lemma_fold_of_hex_str(v as int, 32);
}

/// The canonical form is 32 hex digits.
pub proof fn lemma_id_bytes_hex(v: u128)
    ensures
        all_hex(id_bytes(v)),
        id_bytes(v).len() == 32,
{
    lemma_pow16_values();
    lemma_fold_of_hex_str(v as int, 32);
}

/// Renders the `w` least-significant hex digits of `v`, most significant first.
fn hex_render(v: u128, w: usize) -> (r: Vec<u8>)
    ensures
        r@ == hex_str(v as int, w as nat),
        r@.len() == w,
    decreases w,
{
    if w == 0 {
        Vec::new()
    } else {
        let mut r = hex_render(v / 16, w - 1);
        let d: u8 = (v % 16) as u8;
        let b: u8 = if d < 10 {
            0x30 + d
        } else {
            0x57 + d
        };
        assert(b == hex_digit((v as int) % 16));
        r.push(b);
        assert(r@ =~= hex_str(v as int, w as nat));
        r
    }
}

fn hex_digit_value(b: u8) -> (r: Option<u8>)
    ensures
        r is Some <==> is_hex_digit(b),
        r is Some ==> r.unwrap() == hex_val(b),
{
    if 0x30 <= b && b <= 0x39 {
        Some(b - 0x30)
    } else if 0x61 <= b && b <= 0x66 {
        Some(b - 0x57)
    } else {
        None
    }
}

impl UserId {
    /// The canonical string form: 32 lowercase hex digits.
    pub open spec fn canonical_bytes(&self) -> Seq<u8> {
        id_bytes(self.value)
    }

    /// Renders the canonical form as bytes.
    pub fn canonical_vec(&self) -> (r: Vec<u8>)
        ensures
            r@ == self.canonical_bytes(),
            r@.len() == 32,
    {
        hex_render(self.value, 32)
    }

    /// Parses the canonical form; accepts exactly the strings that
    /// `canonical_vec` produces.
    pub fn parse_canonical(s: &[u8]) -> (r: Option<UserId>)
        ensures
            r is Some <==> id_of(s@) is Some,
            r is Some ==> r.unwrap().value == id_of(s@).unwrap(),
    {
        if s.len() != 32 {
            assert(id_of(s@) is None);
            return None;
        }
        let mut acc: u128 = 0;
        let mut i: usize = 0;
        proof {
            assert(s@.take(0) =~= Seq::<u8>::empty());
        }
        while i < 32
            invariant
                0 <= i <= 32,
                s@.len() == 32,
                all_hex(s@.take(i as int)),
                acc == hex_fold(s@.take(i as int)),
            decreases 32 - i,
        {
            let b = s[i];
            match hex_digit_value(b) {
                None => {
                    assert(!is_hex_digit(s@[i as int]));
                    assert(id_of(s@) is None);
                    return None;
                },
                Some(d) => {
                    proof {
                        let pre = s@.take(i as int);
                        lemma_hex_fold_bound(pre);
                        lemma_pow16_monotone(i as nat, 31);
                        lemma_pow16_values();
                        assert(hex_fold(pre) * 16 + hex_val(b) < 0x100000000000000000000000000000000)
                            by (nonlinear_arith)
                            requires hex_fold(pre) < 0x10000000000000000000000000000000,
                                0 <= hex_fold(pre), hex_val(b) < 16;
                    }
                    acc = acc * 16 + (d as u128);
                    proof {
                        let pre = s@.take(i as int);
                        let cur = s@.take(i + 1);
                        assert(cur.drop_last() =~= pre);
                        assert(cur.last() == s@[i as int]);
                        assert(all_hex(cur)) by {
                            assert(forall|k: int| 0 <= k < i ==> cur[k] == #[trigger] pre[k]);
                        }
                    }
                    i += 1;
                },
            }
        }
        assert(s@.take(32) =~= s@);
        proof {
            lemma_hex_fold_bound(s@);
            lemma_pow16_values();
        }
        Some(UserId { value: acc })
    }
}

proof fn lemma_pow16_pos(n: nat)
    ensures
        pow16(n) >= 1,
    decreases n,
{
    if n > 0 {
        lemma_pow16_pos((n - 1) as nat);
    }
}

proof fn lemma_pow16_monotone(a: nat, b: nat)
    requires
        a <= b,
    ensures
        pow16(a) <= pow16(b),
    decreases b,
{
    if a < b {
        lemma_pow16_monotone(a, (b - 1) as nat);
        lemma_pow16_pos((b - 1) as nat);
    }
}

} // verus!
