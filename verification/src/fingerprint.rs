use vstd::prelude::*;

use crate::base64_text::{b64_char, base64_spec, encode_standard_no_pad, lemma_base64_ascii_len};
use crate::strings::{byte_len, lemma_byte_len_ascii, lemma_byte_len_concat, max_string_bytes, push_str};

verus! {

/// A 128-bit fingerprint of an item, as two 64-bit halves.
#[derive(Debug, Clone, Copy, PartialEq, Eq)]
pub struct Fingerprint {
    pub lo: u64,
    pub hi: u64,
}

/// The first `n` little-endian bytes of `x`.
pub open spec fn le_bytes(x: nat, n: nat) -> Seq<u8>
    decreases n,
{
    if n == 0 {
        Seq::empty()
    } else {
        seq![(x % 256) as u8] + le_bytes(x / 256, (n - 1) as nat)
    }
}

/// `s` without its trailing zero bytes.
pub open spec fn trim_trailing_zeros(s: Seq<u8>) -> Seq<u8>
    decreases s.len(),
{
    if s.len() > 0 && s[s.len() - 1] == 0 {
        trim_trailing_zeros(s.subrange(0, s.len() - 1))
    } else {
        s
    }
}

/// The id of a fingerprint in an SVG document: the prefix, the unpadded
/// base64 of the low half's eight little-endian bytes, then, when the high
/// half is not zero, the unpadded base64 of its little-endian bytes without
/// the trailing zeros.
pub open spec fn svg_id(f: Fingerprint, prefix: Seq<char>) -> Seq<char> {
    prefix + base64_spec(le_bytes(f.lo as nat, 8), false) + if f.hi == 0 {
        Seq::empty()
    } else {
        base64_spec(trim_trailing_zeros(le_bytes(f.hi as nat, 8)), false)
    }
}

/// The eight little-endian bytes of `x`.
pub fn to_le_bytes(x: u64) -> (r: Vec<u8>)
    ensures
        r@ == le_bytes(x as nat, 8),
{
    let mut r: Vec<u8> = Vec::new();
    let mut v: u64 = x;
    let mut i: usize = 0;
    while i < 8
        invariant
            i <= 8,
            r@ + le_bytes(v as nat, (8 - i) as nat) == le_bytes(x as nat, 8),
        decreases 8 - i,
    {
        proof {
            assert(r@.push((v % 256) as u8) + le_bytes((v / 256) as nat, (8 - i - 1) as nat)
                =~= r@ + le_bytes(v as nat, (8 - i) as nat));
        }
        r.push((v % 256) as u8);
        v = v / 256;
        i = i + 1;
    }
    assert(r@ + le_bytes(v as nat, 0) =~= r@);
    r
}

/// `s` without its trailing zero bytes.
pub fn trim_zeros(s: Vec<u8>) -> (r: Vec<u8>)
    ensures
        r@ == trim_trailing_zeros(s@),
{
    let mut r = s;
    while r.len() > 0 && r[r.len() - 1] == 0
        invariant
            trim_trailing_zeros(r@) == trim_trailing_zeros(s@),
        decreases r@.len(),
    {
        let ghost before = r@;
        r.pop();
        assert(r@ =~= before.subrange(0, before.len() - 1));
    }
    r
}

impl Fingerprint {
    /// The fingerprint of a 128-bit hash.
    pub fn from_u128(hash: u128) -> (r: Fingerprint)
        ensures
            r.lo == hash % 0x1_0000_0000_0000_0000,
            r.hi == hash / 0x1_0000_0000_0000_0000,
    {
        Fingerprint {
            lo: (hash % 0x1_0000_0000_0000_0000) as u64,
            hi: (hash / 0x1_0000_0000_0000_0000) as u64,
        }
    }

    /// Create a xml id from the given prefix and the fingerprint of this
    /// reference. Note that the entire html document shares namespace for
    /// ids.
    pub fn as_svg_id(self, prefix: &str) -> (r: String)
        requires
            byte_len(prefix@) + 24 <= max_string_bytes(),
        ensures
            r@ == svg_id(self, prefix@),
    {
        let lo_bytes = to_le_bytes(self.lo);
        proof {
            lemma_le_bytes_len(self.lo as nat, 8);
            lemma_le_bytes_len(self.hi as nat, 8);
        }
        let lo = encode_standard_no_pad(lo_bytes.as_slice());
        proof {
            lemma_base64_ascii_len(lo_bytes@, false);
            lemma_byte_len_ascii(lo@);
            lemma_byte_len_concat(prefix@, lo@);
        }
        let mut id = prefix.to_owned();
        push_str(&mut id, lo.as_str());
        if self.hi != 0 {
            let hi_bytes = trim_zeros(to_le_bytes(self.hi));
            proof {
                lemma_trim_len(le_bytes(self.hi as nat, 8));
            }
            let hi = encode_standard_no_pad(hi_bytes.as_slice());
            proof {
                lemma_base64_ascii_len(hi_bytes@, false);
                lemma_byte_len_ascii(hi@);
                lemma_byte_len_concat(id@, hi@);
            }
            push_str(&mut id, hi.as_str());
        }
        assert(id@ =~= svg_id(self, prefix@));
        id
    }
}

proof fn lemma_le_bytes_len(x: nat, n: nat)
    ensures
        le_bytes(x, n).len() == n,
    decreases n,
{
    if n > 0 {
        lemma_le_bytes_len(x / 256, (n - 1) as nat);
    }
}

proof fn lemma_trim_len(s: Seq<u8>)
    ensures
        trim_trailing_zeros(s).len() <= s.len(),
    decreases s.len(),
{
    if s.len() > 0 && s[s.len() - 1] == 0 {
        lemma_trim_len(s.subrange(0, s.len() - 1));
    }
}

} // verus!

verus! {

/// The code point of the base64 character of a 6-bit value.
pub open spec fn b64_code(v: int) -> int {
    if v < 26 {
        65 + v
    } else if v < 52 {
        97 + v - 26
    } else if v < 62 {
        48 + v - 52
    } else if v == 62 {
        43
    } else {
        47
    }
}

proof fn lemma_b64_char_inj(v: int, w: int)
    requires
        0 <= v < 64,
        0 <= w < 64,
        b64_char(v) == b64_char(w),
    ensures
        v == w,
{
    assert(b64_char(v) as u32 == b64_code(v));
    assert(b64_char(w) as u32 == b64_code(w));
}

proof fn lemma_group3_inj(a0: u8, a1: u8, a2: u8, c0: u8, c1: u8, c2: u8)
    requires
        b64_char(a0 as int / 4) == b64_char(c0 as int / 4),
        b64_char((a0 as int % 4) * 16 + a1 as int / 16) == b64_char((c0 as int % 4) * 16 + c1 as int / 16),
        b64_char((a1 as int % 16) * 4 + a2 as int / 64) == b64_char((c1 as int % 16) * 4 + c2 as int / 64),
        b64_char(a2 as int % 64) == b64_char(c2 as int % 64),
    ensures
        a0 == c0 && a1 == c1 && a2 == c2,
{
    assert(0 <= a0 as int / 4 < 64 && 0 <= c0 as int / 4 < 64) by (bit_vector);
    assert(0 <= (a0 as int % 4) * 16 + a1 as int / 16 < 64 && 0 <= (c0 as int % 4) * 16 + c1 as int / 16 < 64) by (bit_vector);
    assert(0 <= (a1 as int % 16) * 4 + a2 as int / 64 < 64 && 0 <= (c1 as int % 16) * 4 + c2 as int / 64 < 64) by (bit_vector);
    assert(0 <= a2 as int % 64 < 64 && 0 <= c2 as int % 64 < 64) by (bit_vector);
    lemma_b64_char_inj(a0 as int / 4, c0 as int / 4);
    lemma_b64_char_inj((a0 as int % 4) * 16 + a1 as int / 16, (c0 as int % 4) * 16 + c1 as int / 16);
    lemma_b64_char_inj((a1 as int % 16) * 4 + a2 as int / 64, (c1 as int % 16) * 4 + c2 as int / 64);
    lemma_b64_char_inj(a2 as int % 64, c2 as int % 64);
    assert(a0 == c0 && a1 == c1 && a2 == c2) by (bit_vector)
        requires
            a0 as int / 4 == c0 as int / 4,
            (a0 as int % 4) * 16 + a1 as int / 16 == (c0 as int % 4) * 16 + c1 as int / 16,
            (a1 as int % 16) * 4 + a2 as int / 64 == (c1 as int % 16) * 4 + c2 as int / 64,
            a2 as int % 64 == c2 as int % 64,
    ;
}

proof fn lemma_group2_inj(a0: u8, a1: u8, c0: u8, c1: u8)
    requires
        b64_char(a0 as int / 4) == b64_char(c0 as int / 4),
        b64_char((a0 as int % 4) * 16 + a1 as int / 16) == b64_char((c0 as int % 4) * 16 + c1 as int / 16),
        b64_char((a1 as int % 16) * 4) == b64_char((c1 as int % 16) * 4),
    ensures
        a0 == c0 && a1 == c1,
{
    assert(0 <= a0 as int / 4 < 64 && 0 <= c0 as int / 4 < 64) by (bit_vector);
    assert(0 <= (a0 as int % 4) * 16 + a1 as int / 16 < 64 && 0 <= (c0 as int % 4) * 16 + c1 as int / 16 < 64) by (bit_vector);
    assert(0 <= (a1 as int % 16) * 4 < 64 && 0 <= (c1 as int % 16) * 4 < 64) by (bit_vector);
    lemma_b64_char_inj(a0 as int / 4, c0 as int / 4);
    lemma_b64_char_inj((a0 as int % 4) * 16 + a1 as int / 16, (c0 as int % 4) * 16 + c1 as int / 16);
    lemma_b64_char_inj((a1 as int % 16) * 4, (c1 as int % 16) * 4);
    assert(a0 == c0 && a1 == c1) by (bit_vector)
        requires
            a0 as int / 4 == c0 as int / 4,
            (a0 as int % 4) * 16 + a1 as int / 16 == (c0 as int % 4) * 16 + c1 as int / 16,
            (a1 as int % 16) * 4 == (c1 as int % 16) * 4,
    ;
}

proof fn lemma_group1_inj(a0: u8, c0: u8)
    requires
        b64_char(a0 as int / 4) == b64_char(c0 as int / 4),
        b64_char((a0 as int % 4) * 16) == b64_char((c0 as int % 4) * 16),
    ensures
        a0 == c0,
{
    assert(0 <= a0 as int / 4 < 64 && 0 <= c0 as int / 4 < 64) by (bit_vector);
    assert(0 <= (a0 as int % 4) * 16 < 64 && 0 <= (c0 as int % 4) * 16 < 64) by (bit_vector);
    lemma_b64_char_inj(a0 as int / 4, c0 as int / 4);
    lemma_b64_char_inj((a0 as int % 4) * 16, (c0 as int % 4) * 16);
    assert(a0 == c0) by (bit_vector)
        requires
            a0 as int / 4 == c0 as int / 4,
            (a0 as int % 4) * 16 == (c0 as int % 4) * 16,
    ;
}

/// Unpadded base64 text of three or more bytes takes at least four
/// characters; of fewer, exactly 0, 2 or 3 for 0, 1 or 2 bytes.
proof fn lemma_b64_len(b: Seq<u8>)
    ensures
        b.len() >= 3 ==> base64_spec(b, false).len() >= 4,
        b.len() == 0 ==> base64_spec(b, false).len() == 0,
        b.len() == 1 ==> base64_spec(b, false).len() == 2,
        b.len() == 2 ==> base64_spec(b, false).len() == 3,
{
}

/// Unpadded base64 text determines the bytes it encodes.
pub proof fn lemma_base64_inj(a: Seq<u8>, c: Seq<u8>)
    requires
        base64_spec(a, false) == base64_spec(c, false),
    ensures
        a == c,
    decreases a.len(),
{
    let ea = base64_spec(a, false);
    let ec = base64_spec(c, false);
    lemma_b64_len(a);
    lemma_b64_len(c);
    if a.len() >= 3 && c.len() >= 3 {
        let ra = base64_spec(a.subrange(3, a.len() as int), false);
        let rc = base64_spec(c.subrange(3, c.len() as int), false);
        assert(ea[0] == ec[0] && ea[1] == ec[1] && ea[2] == ec[2] && ea[3] == ec[3]);
        lemma_group3_inj(a[0], a[1], a[2], c[0], c[1], c[2]);
        assert(ea.subrange(4, ea.len() as int) =~= ra);
        assert(ec.subrange(4, ec.len() as int) =~= rc);
        lemma_base64_inj(a.subrange(3, a.len() as int), c.subrange(3, c.len() as int));
        assert(a =~= c) by {
            assert forall|i: int| 0 <= i < a.len() implies a[i] == c[i] by {
                if i >= 3 {
                    assert(a.subrange(3, a.len() as int)[i - 3] == c.subrange(3, c.len() as int)[i - 3]);
                }
            }
        }
    } else if a.len() < 3 && c.len() < 3 {
        assert(a.len() == c.len());
        if a.len() == 1 {
            assert(ea[0] == ec[0] && ea[1] == ec[1]);
            lemma_group1_inj(a[0], c[0]);
            assert(a =~= c);
        } else if a.len() == 2 {
            assert(ea[0] == ec[0] && ea[1] == ec[1] && ea[2] == ec[2]);
            lemma_group2_inj(a[0], a[1], c[0], c[1]);
            assert(a =~= c);
        } else {
            assert(a =~= c);
        }
    }
}

/// `256` to the power `n`.
pub open spec fn pow256(n: nat) -> nat
    decreases n,
{
    if n == 0 {
        1
    } else {
        256 * pow256((n - 1) as nat)
    }
}

/// The first `n` little-endian bytes determine a number below `256^n`.
pub proof fn lemma_le_bytes_inj(x: nat, y: nat, n: nat)
    requires
        x < pow256(n),
        y < pow256(n),
        le_bytes(x, n) == le_bytes(y, n),
    ensures
        x == y,
    decreases n,
{
    if n > 0 {
        let bx = le_bytes(x, n);
        let by_ = le_bytes(y, n);
        assert(bx[0] == by_[0]);
        assert(bx[0] == (x % 256) as u8);
        assert(x % 256 == y % 256);
        assert(bx.subrange(1, bx.len() as int) =~= le_bytes(x / 256, (n - 1) as nat));
        assert(by_.subrange(1, by_.len() as int) =~= le_bytes(y / 256, (n - 1) as nat));
        assert(x / 256 < pow256((n - 1) as nat)) by (nonlinear_arith)
            requires
                x < pow256(n),
                pow256(n) == 256 * pow256((n - 1) as nat),
        ;
        assert(y / 256 < pow256((n - 1) as nat)) by (nonlinear_arith)
            requires
                y < pow256(n),
                pow256(n) == 256 * pow256((n - 1) as nat),
        ;
        lemma_le_bytes_inj(x / 256, y / 256, (n - 1) as nat);
        assert(x == y) by (nonlinear_arith)
            requires
                x / 256 == y / 256,
                x % 256 == y % 256,
        ;
    }
}

/// A sequence is its trimmed form followed by zeros.
proof fn lemma_trim_zeros_shape(s: Seq<u8>)
    ensures
        trim_trailing_zeros(s).len() <= s.len(),
        s == trim_trailing_zeros(s) + Seq::new((s.len() - trim_trailing_zeros(s).len()) as nat, |i: int| 0u8),
    decreases s.len(),
{
    if s.len() > 0 && s[s.len() - 1] == 0 {
        let init = s.subrange(0, s.len() - 1);
        lemma_trim_zeros_shape(init);
        let t = trim_trailing_zeros(init);
        assert(trim_trailing_zeros(s) == t);
        let k = (init.len() - t.len()) as nat;
        let z = Seq::new((k + 1) as nat, |i: int| 0u8);
        assert forall|i: int| 0 <= i < s.len() implies s[i] == (t + z)[i] by {
            if i < s.len() - 1 {
                assert(s[i] == init[i]);
                assert(init[i] == (t + Seq::new(k, |j: int| 0u8))[i]);
            }
        }
        assert(s =~= t + z);
    } else {
        assert(s =~= trim_trailing_zeros(s) + Seq::new(0, |i: int| 0u8));
    }
}

proof fn lemma_le_bytes_zero(n: nat)
    ensures
        le_bytes(0, n) == Seq::new(n, |i: int| 0u8),
    decreases n,
{
    if n > 0 {
        lemma_le_bytes_zero((n - 1) as nat);
        assert(le_bytes(0, n) =~= Seq::new(n, |i: int| 0u8));
    }
}

proof fn lemma_trim_all_zeros(n: nat)
    ensures
        trim_trailing_zeros(Seq::new(n, |i: int| 0u8)).len() == 0,
    decreases n,
{
    if n > 0 {
        assert(Seq::new(n, |i: int| 0u8).subrange(0, n - 1) =~= Seq::new((n - 1) as nat, |i: int| 0u8));
        lemma_trim_all_zeros((n - 1) as nat);
    }
}

/// Distinct fingerprints get distinct ids under the same prefix, so that
/// ids never clash within a document.
pub proof fn lemma_svg_id_injective(f: Fingerprint, g: Fingerprint, prefix: Seq<char>)
    requires
        svg_id(f, prefix) == svg_id(g, prefix),
    ensures
        f == g,
{
    assert(pow256(8) == 0x1_0000_0000_0000_0000) by {
        reveal_with_fuel(pow256, 9);
    }
    let lf = le_bytes(f.lo as nat, 8);
    let lg = le_bytes(g.lo as nat, 8);
    lemma_le_bytes_len_eq(f.lo as nat, 8);
    lemma_le_bytes_len_eq(g.lo as nat, 8);
    lemma_le_bytes_len_eq(f.hi as nat, 8);
    lemma_le_bytes_len_eq(g.hi as nat, 8);
    lemma_b64_len_8(lf);
    lemma_b64_len_8(lg);
    let af = base64_spec(lf, false);
    let ag = base64_spec(lg, false);
    let bf = if f.hi == 0 { Seq::<char>::empty() } else { base64_spec(trim_trailing_zeros(le_bytes(f.hi as nat, 8)), false) };
    let bg = if g.hi == 0 { Seq::<char>::empty() } else { base64_spec(trim_trailing_zeros(le_bytes(g.hi as nat, 8)), false) };
    let idf = prefix + af + bf;
    let idg = prefix + ag + bg;
    assert(idf == svg_id(f, prefix));
    assert(af =~= idf.subrange(prefix.len() as int, prefix.len() + 11int));
    assert(ag =~= idg.subrange(prefix.len() as int, prefix.len() + 11int));
    lemma_base64_inj(lf, lg);
    lemma_le_bytes_inj(f.lo as nat, g.lo as nat, 8);
    assert(bf =~= idf.subrange(prefix.len() + 11int, idf.len() as int));
    assert(bg =~= idg.subrange(prefix.len() + 11int, idg.len() as int));
    lemma_hi_part(f.hi);
    lemma_hi_part(g.hi);
    if f.hi != 0 && g.hi != 0 {
        let tf = trim_trailing_zeros(le_bytes(f.hi as nat, 8));
        let tg = trim_trailing_zeros(le_bytes(g.hi as nat, 8));
        lemma_base64_inj(tf, tg);
        lemma_trim_zeros_shape(le_bytes(f.hi as nat, 8));
        lemma_trim_zeros_shape(le_bytes(g.hi as nat, 8));
        assert(le_bytes(f.hi as nat, 8) =~= le_bytes(g.hi as nat, 8));
        lemma_le_bytes_inj(f.hi as nat, g.hi as nat, 8);
    }
}

proof fn lemma_le_bytes_len_eq(x: nat, n: nat)
    ensures
        le_bytes(x, n).len() == n,
    decreases n,
{
    if n > 0 {
        lemma_le_bytes_len_eq(x / 256, (n - 1) as nat);
    }
}

proof fn lemma_b64_len_8(b: Seq<u8>)
    requires
        b.len() == 8,
    ensures
        base64_spec(b, false).len() == 11,
{
    let r1 = b.subrange(3, 8);
    let r2 = r1.subrange(3, 5);
    assert(base64_spec(b, false).len() == 4 + base64_spec(r1, false).len());
    assert(base64_spec(r1, false).len() == 4 + base64_spec(r2, false).len());
    lemma_b64_len(r2);
}

/// The part of an id that the high half gives is empty exactly when the
/// high half is zero.
proof fn lemma_hi_part(hi: u64)
    ensures
        hi == 0 <==> trim_trailing_zeros(le_bytes(hi as nat, 8)).len() == 0,
        hi != 0 ==> base64_spec(trim_trailing_zeros(le_bytes(hi as nat, 8)), false).len() > 0,
{
    assert(pow256(8) == 0x1_0000_0000_0000_0000) by {
        reveal_with_fuel(pow256, 9);
    }
    let s = le_bytes(hi as nat, 8);
    lemma_le_bytes_len_eq(hi as nat, 8);
    lemma_trim_zeros_shape(s);
    lemma_le_bytes_zero(8);
    lemma_trim_all_zeros(8);
    if trim_trailing_zeros(s).len() == 0 {
        assert(s =~= le_bytes(0, 8));
        lemma_le_bytes_inj(hi as nat, 0, 8);
    }
    lemma_base64_nonempty(trim_trailing_zeros(s));
}

proof fn lemma_base64_nonempty(b: Seq<u8>)
    ensures
        b.len() > 0 ==> base64_spec(b, false).len() > 0,
{
}

} // verus!
