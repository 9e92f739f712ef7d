//! Mathematical model of little-endian bit sequences.
//!
//! A wire image is a `Seq<bool>`; bit `i` of an `n`-bit integer field is the
//! coefficient of `2^i` (least significant bit first), matching the order in
//! which the cursor consumes bits.  Strings travel as their UTF-8 bytes
//! followed by a single zero byte.

use vstd::prelude::*;

verus! {

use vstd::arithmetic::power2::pow2;
use vstd::arithmetic::power2::lemma_pow2_unfold;
use vstd::arithmetic::power2::lemma_pow2_pos;
use vstd::arithmetic::div_mod::lemma_div_denominator;
use vstd::arithmetic::div_mod::lemma_fundamental_div_mod;
use vstd::utf8::encode_utf8;
use vstd::string::StringSliceAdditionalSpecFns;

/// The `n` low bits of `v`, least significant first.
pub open spec fn le_bits(v: nat, n: nat) -> Seq<bool>
    decreases n,
{
    if n == 0 {
        Seq::empty()
    } else {
        seq![v % 2 == 1] + le_bits(v / 2, (n - 1) as nat)
    }
}

/// Each byte contributes its eight bits, least significant first.
pub open spec fn bytes_bits(bs: Seq<u8>) -> Seq<bool>
    decreases bs.len(),
{
    if bs.len() == 0 {
        Seq::empty()
    } else {
        le_bits(bs[0] as nat, 8) + bytes_bits(bs.drop_first())
    }
}

/// Wire form of a string: its UTF-8 bytes, then a terminating zero byte.
pub open spec fn str_bits(s: Seq<char>) -> Seq<bool> {
    bytes_bits(encode_utf8(s) + seq![0u8])
}

/// A string that survives the wire: none of its characters is the terminator.
pub open spec fn str_ok(s: Seq<char>) -> bool {
    forall|i: int| 0 <= i < s.len() ==> (#[trigger] s[i]) as u32 != 0
}

/// `e` occupies `bits[pos .. pos + e.len()]`.
pub open spec fn bits_at(bits: Seq<bool>, pos: int, e: Seq<bool>) -> bool {
    &&& 0 <= pos
    &&& pos + e.len() <= bits.len()
    &&& bits.subrange(pos, pos + e.len() as int) == e
}

pub proof fn lemma_le_bits_len(v: nat, n: nat)
    ensures
        le_bits(v, n).len() == n,
    decreases n,
{
    if n > 0 {
        lemma_le_bits_len(v / 2, (n - 1) as nat);
    }
}

/// Extending the width appends the next-higher bit.
pub proof fn lemma_le_bits_snoc(v: nat, n: nat)
    ensures
        le_bits(v, n + 1) =~= le_bits(v, n) + seq![v / pow2(n) % 2 == 1],
    decreases n,
{
    lemma_le_bits_len(v, n);
    lemma_le_bits_len(v, n + 1);
    if n == 0 {
        assert(pow2(0) == 1) by {
            vstd::arithmetic::power2::lemma2_to64();
        }
    } else {
        lemma_le_bits_snoc(v / 2, (n - 1) as nat);
        lemma_pow2_unfold(n);
        lemma_pow2_pos((n - 1) as nat);
        lemma_div_denominator(v as int, 2, pow2((n - 1) as nat) as int);
        assert(v / 2 / pow2((n - 1) as nat) == v / pow2(n));
        lemma_le_bits_len(v / 2, (n - 1) as nat);
        lemma_le_bits_len(v / 2, n);
    }
}

/// An `n`-bit field determines its value: no two values below `2^n` share an
/// encoding.
pub proof fn lemma_le_bits_inj(a: nat, b: nat, n: nat)
    requires
        a < pow2(n),
        b < pow2(n),
        le_bits(a, n) == le_bits(b, n),
    ensures
        a == b,
    decreases n,
{
    if n == 0 {
        assert(pow2(0) == 1) by {
            vstd::arithmetic::power2::lemma2_to64();
        }
    } else {
        lemma_le_bits_len(a / 2, (n - 1) as nat);
        lemma_le_bits_len(b / 2, (n - 1) as nat);
        assert(le_bits(a, n)[0] == (a % 2 == 1));
        assert(le_bits(b, n)[0] == (b % 2 == 1));
        assert(a % 2 == b % 2) by {
            if (a % 2 == 1) != (b % 2 == 1) {
                assert(false);
            }
        }
        assert(le_bits(a / 2, (n - 1) as nat) =~= le_bits(b / 2, (n - 1) as nat)) by {
            let ta = le_bits(a / 2, (n - 1) as nat);
            let tb = le_bits(b / 2, (n - 1) as nat);
            assert forall|i: int| 0 <= i < ta.len() implies ta[i] == tb[i] by {
                assert(ta[i] == le_bits(a, n)[i + 1]);
                assert(tb[i] == le_bits(b, n)[i + 1]);
            }
        }
        lemma_pow2_unfold(n);
        lemma_pow2_pos((n - 1) as nat);
        assert(a / 2 < pow2((n - 1) as nat)) by {
            lemma_fundamental_div_mod(a as int, 2);
        }
        assert(b / 2 < pow2((n - 1) as nat)) by {
            lemma_fundamental_div_mod(b as int, 2);
        }
        lemma_le_bits_inj(a / 2, b / 2, (n - 1) as nat);
        lemma_fundamental_div_mod(a as int, 2);
        lemma_fundamental_div_mod(b as int, 2);
    }
}

pub proof fn lemma_bytes_bits_len(bs: Seq<u8>)
    ensures
        bytes_bits(bs).len() == 8 * bs.len(),
    decreases bs.len(),
{
    if bs.len() > 0 {
        lemma_le_bits_len(bs[0] as nat, 8);
        lemma_bytes_bits_len(bs.drop_first());
    }
}

pub proof fn lemma_bytes_bits_concat(a: Seq<u8>, b: Seq<u8>)
    ensures
        bytes_bits(a + b) =~= bytes_bits(a) + bytes_bits(b),
    decreases a.len(),
{
    if a.len() == 0 {
        assert(a + b =~= b);
    } else {
        assert((a + b).drop_first() =~= a.drop_first() + b);
        lemma_bytes_bits_concat(a.drop_first(), b);
        assert((a + b)[0] == a[0]);
    }
}

pub proof fn lemma_bytes_bits_snoc(bs: Seq<u8>, x: u8)
    ensures
        bytes_bits(bs.push(x)) =~= bytes_bits(bs) + le_bits(x as nat, 8),
{
    assert(bs.push(x) =~= bs + seq![x]);
    lemma_bytes_bits_concat(bs, seq![x]);
    assert(seq![x].drop_first() =~= Seq::<u8>::empty());
    assert(seq![x][0] == x);
    assert(bytes_bits(seq![x]) =~= le_bits(x as nat, 8) + bytes_bits(seq![x].drop_first()));
    lemma_le_bits_len(x as nat, 8);
    assert(le_bits(x as nat, 8) + Seq::<bool>::empty() =~= le_bits(x as nat, 8));
}

/// Splitting a placed concatenation places both halves.
pub proof fn lemma_bits_at_split(bits: Seq<bool>, pos: int, e1: Seq<bool>, e2: Seq<bool>)
    requires
        bits_at(bits, pos, e1 + e2),
    ensures
        bits_at(bits, pos, e1),
        bits_at(bits, pos + e1.len(), e2),
{
    let whole = bits.subrange(pos, pos + e1.len() + e2.len());
    assert(bits.subrange(pos, pos + e1.len() as int) =~= e1) by {
        assert forall|i: int| 0 <= i < e1.len() implies bits[pos + i] == e1[i] by {
            assert(whole[i] == (e1 + e2)[i]);
        }
    }
    assert(bits.subrange(pos + e1.len(), pos + e1.len() + e2.len()) =~= e2) by {
        assert forall|i: int| 0 <= i < e2.len() implies bits[pos + e1.len() + i] == e2[i] by {
            assert(whole[e1.len() + i] == (e1 + e2)[e1.len() + i]);
        }
    }
}

/// A placed encoding fixes each of its bits.
pub proof fn lemma_bits_at_index(bits: Seq<bool>, pos: int, e: Seq<bool>, i: int)
    requires
        bits_at(bits, pos, e),
        0 <= i < e.len(),
    ensures
        bits[pos + i] == e[i],
{
    assert(bits.subrange(pos, pos + e.len() as int)[i] == e[i]);
}

/// Append the `n`-bit little-endian image of `v`.
pub fn push_le_bits(out: &mut Vec<bool>, v: u32, n: usize)
    requires
        n <= 32,
        (v as nat) < pow2(n as nat),
    ensures
        final(out)@ =~= old(out)@ + le_bits(v as nat, n as nat),
{
    let ghost init = out@;
    let mut x: u32 = v;
    let mut i: usize = 0;
    proof {
        lemma_le_bits_len(v as nat, 0);
        assert(out@ =~= init + le_bits(v as nat, 0));
        vstd::arithmetic::power2::lemma2_to64();
        assert(pow2(0) == 1);
        assert((v as nat) / 1 == v as nat);
    }
    while i < n
        invariant
            i <= n,
            n <= 32,
            x as nat == (v as nat) / pow2(i as nat),
            out@ =~= init + le_bits(v as nat, i as nat),
        decreases n - i,
    {
        out.push(x % 2 == 1);
        proof {
            lemma_le_bits_snoc(v as nat, i as nat);
            assert((v as nat) / pow2(i as nat) % 2 == (x as nat) % 2);
            lemma_le_bits_len(v as nat, i as nat);
            assert(out@ =~= init + le_bits(v as nat, (i + 1) as nat));
            lemma_pow2_unfold((i + 1) as nat);
            lemma_pow2_pos(i as nat);
            lemma_div_denominator(v as int, pow2(i as nat) as int, 2);
            assert((v as nat) / pow2(i as nat) / 2 == (v as nat) / pow2((i + 1) as nat));
        }
        x = x / 2;
        i = i + 1;
    }
}

/// Append one byte, least significant bit first.
pub fn push_byte(out: &mut Vec<bool>, b: u8)
    ensures
        final(out)@ =~= old(out)@ + le_bits(b as nat, 8),
{
    proof {
        vstd::arithmetic::power2::lemma2_to64();
        assert((b as nat) < pow2(8));
    }
    push_le_bits(out, b as u32, 8);
}

/// Append a run of bytes.
pub fn push_bytes(out: &mut Vec<bool>, bs: &[u8])
    ensures
        final(out)@ =~= old(out)@ + bytes_bits(bs@),
{
    let ghost init = out@;
    let mut i: usize = 0;
    proof {
        assert(bs@.take(0) =~= Seq::<u8>::empty());
        assert(out@ =~= init + bytes_bits(bs@.take(0)));
    }
    while i < bs.len()
        invariant
            i <= bs@.len(),
            out@ =~= init + bytes_bits(bs@.take(i as int)),
        decreases bs@.len() - i,
    {
        let b = bs[i];
        push_byte(out, b);
        proof {
            assert(bs@.take(i + 1) =~= bs@.take(i as int).push(bs@[i as int]));
            lemma_bytes_bits_snoc(bs@.take(i as int), bs@[i as int]);
        }
        i = i + 1;
    }
    proof {
        assert(bs@.take(bs@.len() as int) =~= bs@);
    }
}

/// Append the wire form of a string: UTF-8 bytes, then the zero terminator.
pub fn push_str(out: &mut Vec<bool>, s: &str)
    ensures
        final(out)@ =~= old(out)@ + str_bits(s@),
{
    let bs = s.as_bytes();
    push_bytes(out, bs);
    push_byte(out, 0);
    proof {
        lemma_bytes_bits_snoc(encode_utf8(s@), 0u8);
        assert(encode_utf8(s@).push(0u8) =~= encode_utf8(s@) + seq![0u8]);
    }
}


/// A sequence of `n` zero bits: the padding of a length-delimited region.
pub open spec fn zero_bits(n: nat) -> Seq<bool> {
    Seq::new(n, |i: int| false)
}

/// A placed encoding stays placed in a window that contains it.
pub proof fn lemma_bits_at_sub(bits: Seq<bool>, lo: int, hi: int, pos: int, e: Seq<bool>)
    requires
        bits_at(bits, pos, e),
        0 <= lo <= pos,
        pos + e.len() <= hi <= bits.len(),
    ensures
        bits_at(bits.subrange(lo, hi), pos - lo, e),
{
    let w = bits.subrange(lo, hi);
    assert(w.subrange(pos - lo, pos - lo + e.len() as int) =~= e) by {
        assert forall|i: int| 0 <= i < e.len() implies w[pos - lo + i] == e[i] by {
            lemma_bits_at_index(bits, pos, e, i);
        }
    }
}
/// An opaque run of bits carried through a message as payload.
#[derive(Debug, Clone, PartialEq, Eq)]
pub struct BitData(pub Vec<bool>);

impl View for BitData {
    type V = Seq<bool>;

    open spec fn view(&self) -> Seq<bool> {
        self.0@
    }
}

impl BitData {
    /// The payload's length in bits.
    pub fn bit_len(&self) -> (r: usize)
        ensures
            r == self@.len(),
    {
        self.0.len()
    }
}

} // verus!
