use vstd::prelude::*;

use crate::strings::{lemma_byte_len_ascii, push_char};

verus! {

/// The lower-case hexadecimal digit of `d`.
pub open spec fn hex_digit(d: nat) -> char {
    if d < 10 {
        (48 + d) as char
    } else {
        (87 + d) as char
    }
}

/// The lower-case hexadecimal digits of `n`, without leading zeros.
pub open spec fn hex_of(n: nat) -> Seq<char>
    decreases n,
{
    if n < 16 {
        seq![hex_digit(n)]
    } else {
        hex_of(n / 16).push(hex_digit(n % 16))
    }
}

/// The lower-case hexadecimal digits of `n`, without leading zeros.
pub fn hex_digits(n: u128) -> (r: Vec<char>)
    ensures
        r@ == hex_of(n as nat),
    decreases n,
{
    let mut r = if n >= 16 {
        hex_digits(n / 16)
    } else {
        Vec::new()
    };
    let d = (n % 16) as u8;
    let c: char = if d < 10 {
        (48u8 + d) as char
    } else {
        (87u8 + d) as char
    };
    assert(c == hex_digit((n % 16) as nat));
    r.push(c);
    assert(n < 16 ==> r@ =~= seq![hex_digit(n as nat)]);
    r
}

/// The digits of a 128-bit number are ASCII and at most 32.
pub proof fn lemma_hex_len(n: nat)
    requires
        n < 0x1_0000_0000_0000_0000_0000_0000_0000_0000,
    ensures
        1 <= hex_of(n).len() <= 32,
        forall|j: int| 0 <= j < hex_of(n).len() ==> (#[trigger] hex_of(n)[j] as u32) < 128,
{
    assert(pow16(32) == 0x1_0000_0000_0000_0000_0000_0000_0000_0000) by {
        reveal_with_fuel(pow16, 33);
    }
    lemma_hex_len_bound(n, 32);
}

proof fn lemma_hex_len_bound(n: nat, k: nat)
    requires
        n < pow16(k),
        k >= 1,
    ensures
        1 <= hex_of(n).len() <= k,
        forall|j: int| 0 <= j < hex_of(n).len() ==> (#[trigger] hex_of(n)[j] as u32) < 128,
    decreases k,
{
    if n >= 16 {
        assert(k > 1) by {
            if k == 1 {
                assert(pow16(1) == 16 * pow16(0));
            }
        }
        assert(n / 16 < pow16((k - 1) as nat)) by (nonlinear_arith)
            requires
                n < pow16(k),
                pow16(k) == 16 * pow16((k - 1) as nat),
        ;
        lemma_hex_len_bound(n / 16, (k - 1) as nat);
    }
}

/// `16` to the power `k`.
pub open spec fn pow16(k: nat) -> nat
    decreases k,
{
    if k == 0 {
        1
    } else {
        16 * pow16((k - 1) as nat)
    }
}

/// `n` in lower-case hexadecimal, without leading zeros (as `{:x}` writes
/// it).
pub fn to_hex(n: u128) -> (r: String)
    ensures
        r@ == hex_of(n as nat),
{
    let digits = hex_digits(n);
    proof {
        lemma_hex_len(n as nat);
    }
    let mut out = String::new();
    let mut i: usize = 0;
    while i < digits.len()
        invariant
            i <= digits@.len(),
            digits@ == hex_of(n as nat),
            digits@.len() <= 32,
            out@ == digits@.subrange(0, i as int),
            forall|j: int| 0 <= j < digits@.len() ==> (#[trigger] digits@[j] as u32) < 128,
        decreases digits@.len() - i,
    {
        proof {
            assert(out@.push(digits@[i as int]) =~= digits@.subrange(0, i + 1));
            assert forall|j: int| 0 <= j < digits@.subrange(0, i + 1).len() implies (#[trigger] digits@.subrange(0, i + 1)[j] as u32) < 128 by {
                assert(digits@.subrange(0, i + 1)[j] == digits@[j]);
            }
            lemma_byte_len_ascii(digits@.subrange(0, i + 1));
        }
        push_char(&mut out, digits[i]);
        i = i + 1;
    }
    assert(digits@.subrange(0, digits@.len() as int) =~= digits@);
    out
}

} // verus!
