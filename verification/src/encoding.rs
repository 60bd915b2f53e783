//! Hexadecimal digit machinery shared by the numeric literal encoder and the
//! jump-offset resolution pass: a value's hex digits (most significant
//! first), their grouping into bytes, and lowercase hex rendering.

use vstd::prelude::*;

verus! {

/// The hexadecimal digits of `v`, most significant first, with no leading
/// zero digit; the value zero is the single digit `0`.
pub open spec fn nibbles_of(v: nat) -> Seq<u8>
    decreases v,
{
    if v < 16 {
        seq![v as u8]
    } else {
        nibbles_of(v / 16).push((v % 16) as u8)
    }
}

/// Groups a digit string into bytes, two digits per byte reading left to
/// right; a trailing lone digit forms a byte on its own (a `0` digit is
/// prefixed, so the byte's value is the digit's value).
pub open spec fn chunk_bytes(d: Seq<u8>) -> Seq<u8>
    decreases d.len(),
{
    if d.len() == 0 {
        Seq::empty()
    } else if d.len() == 1 {
        seq![d[0]]
    } else {
        seq![(16 * d[0] + d[1]) as u8] + chunk_bytes(d.skip(2))
    }
}

/// The operand bytes emitted for the literal `v`: its hex digits grouped
/// into bytes.
pub open spec fn num_bytes(v: u32) -> Seq<u8> {
    chunk_bytes(nibbles_of(v as nat))
}

/// The big-endian byte representation of `v`, with no leading zero byte.
pub open spec fn be_bytes(v: nat) -> Seq<u8>
    decreases v,
{
    if v < 256 {
        seq![v as u8]
    } else {
        be_bytes(v / 256).push((v % 256) as u8)
    }
}

/// The lowercase hex character for the digit value `d`.
pub open spec fn hex_char(d: u8) -> char {
    if d < 10 {
        ((48 + d) as u8) as char
    } else {
        ((87 + d) as u8) as char
    }
}

/// The two lowercase hex characters of the byte `b`.
pub open spec fn hex_byte_chars(b: u8) -> Seq<char> {
    seq![hex_char(b / 16), hex_char(b % 16)]
}

/// The characters a resolved jump placeholder becomes: the hex digits of the
/// destination index, prefixed with `0` when their count is odd.
pub open spec fn offset_chars(i: nat) -> Seq<char> {
    let ds = nibbles_of(i).map_values(|d: u8| hex_char(d));
    if ds.len() % 2 == 1 {
        seq![hex_char(0)] + ds
    } else {
        ds
    }
}

/// Sixteen to the power `k`.
pub open spec fn pow16(k: nat) -> nat
    decreases k,
{
    if k == 0 {
        1
    } else {
        16 * pow16((k - 1) as nat)
    }
}

/// A digit string is never empty and every digit is below sixteen.
pub proof fn lemma_nibbles_props(v: nat)
    ensures
        nibbles_of(v).len() >= 1,
        forall|i: int| 0 <= i < nibbles_of(v).len() ==> nibbles_of(v)[i] < 16,
    decreases v,
{
    if v >= 16 {
        lemma_nibbles_props(v / 16);
    }
}

/// Grouping `n` digits yields `(n + 1) / 2` bytes.
pub proof fn lemma_chunk_len(d: Seq<u8>)
    ensures
        chunk_bytes(d).len() == (d.len() + 1) / 2,
    decreases d.len(),
{
    if d.len() >= 2 {
        lemma_chunk_len(d.skip(2));
    }
}

/// A value below `16^k` has at most `k` hex digits.
pub proof fn lemma_nibbles_len_le(v: nat, k: nat)
    requires
        k >= 1,
        v < pow16(k),
    ensures
        nibbles_of(v).len() <= k,
    decreases k,
{
    if v >= 16 {
        assert(pow16(k) == 16 * pow16((k - 1) as nat));
        assert(v / 16 < pow16((k - 1) as nat)) by (nonlinear_arith)
            requires
                v < 16 * pow16((k - 1) as nat),
        ;
        assert(k - 1 >= 1) by {
            if k == 1 {
                assert(pow16(1nat) == 16);
            }
        }
        lemma_nibbles_len_le(v / 16, (k - 1) as nat);
    }
}

/// A `u32` literal has at most eight hex digits, hence at most four operand
/// bytes.
pub proof fn lemma_num_bytes_small(v: u32)
    ensures
        nibbles_of(v as nat).len() <= 8,
        1 <= num_bytes(v).len() <= 4,
{
    assert(pow16(8nat) == 0x100000000) by {
        reveal_with_fuel(pow16, 9);
    }
    lemma_nibbles_len_le(v as nat, 8nat);
    lemma_nibbles_props(v as nat);
    lemma_chunk_len(nibbles_of(v as nat));
}

/// Grouping distributes over concatenation when the first part has an even
/// digit count.
pub proof fn lemma_chunk_append_even(a: Seq<u8>, b: Seq<u8>)
    requires
        a.len() % 2 == 0,
    ensures
        chunk_bytes(a + b) == chunk_bytes(a) + chunk_bytes(b),
    decreases a.len(),
{
    if a.len() == 0 {
        assert(a + b =~= b);
        assert(chunk_bytes(a) + chunk_bytes(b) =~= chunk_bytes(b));
    } else {
        assert((a + b).skip(2) =~= a.skip(2) + b);
        lemma_chunk_append_even(a.skip(2), b);
        if b.len() == 0 && a.len() == 2 {
            assert(chunk_bytes(a.skip(2)) + chunk_bytes(b) =~= Seq::<u8>::empty());
        }
        assert((a + b).len() >= 2);
        assert((a + b)[0] == a[0] && (a + b)[1] == a[1]);
        assert(chunk_bytes(a + b) =~= chunk_bytes(a) + chunk_bytes(b));
    }
}

/// With an even digit count, grouping the hex digits of `v` gives exactly
/// the big-endian byte representation of `v`.
pub proof fn lemma_chunk_even_is_be(v: nat)
    requires
        nibbles_of(v).len() % 2 == 0,
    ensures
        chunk_bytes(nibbles_of(v)) == be_bytes(v),
    decreases v,
{
    lemma_nibbles_props(v);
    if v < 256 {
        assert(v >= 16);
        assert(nibbles_of(v / 16) =~= seq![(v / 16) as u8]);
        assert(nibbles_of(v) =~= seq![(v / 16) as u8, (v % 16) as u8]);
        assert(nibbles_of(v).skip(2) =~= Seq::<u8>::empty());
        assert(16 * (v / 16) + v % 16 == v);
        assert(chunk_bytes(nibbles_of(v)) =~= seq![v as u8] + chunk_bytes(
            Seq::<u8>::empty(),
        ));
        assert(chunk_bytes(nibbles_of(v)) =~= seq![v as u8]);
    } else {
        assert(v / 16 >= 16);
        assert(v / 16 / 16 == v / 256) by (nonlinear_arith);
        let two = seq![((v / 16) % 16) as u8, (v % 16) as u8];
        assert(nibbles_of(v / 16) =~= nibbles_of(v / 256).push(((v / 16) % 16) as u8));
        assert(nibbles_of(v) =~= nibbles_of(v / 16).push((v % 16) as u8));
        assert(nibbles_of(v) =~= nibbles_of(v / 256) + two);
        lemma_nibbles_props(v / 256);
        lemma_chunk_even_is_be(v / 256);
        lemma_chunk_append_even(nibbles_of(v / 256), two);
        assert(two.skip(2) =~= Seq::<u8>::empty());
        assert(chunk_bytes(two) =~= seq![(16 * two[0] + two[1]) as u8] + chunk_bytes(
            Seq::<u8>::empty(),
        ));
        assert(16 * ((v / 16) % 16) + v % 16 == v % 256) by (nonlinear_arith);
        assert(chunk_bytes(two) =~= seq![(v % 256) as u8]);
        assert(chunk_bytes(nibbles_of(v)) =~= be_bytes(v / 256) + seq![(v % 256) as u8]);
        assert(be_bytes(v) =~= be_bytes(v / 256) + seq![(v % 256) as u8]);
    }
}

/// Relies on `String::push`: it appends exactly one character.
#[verifier::external_body]
pub(crate) fn push_char(s: &mut String, c: char)
    ensures
        final(s)@ == old(s)@.push(c),
{
    s.push(c);
}

/// The lowercase hex character of a digit value.
pub(crate) fn hex_char_of(d: u8) -> (c: char)
    requires
        d < 16,
    ensures
        c == hex_char(d),
{
    if d < 10 {
        (48 + d) as char
    } else {
        (87 + d) as char
    }
}

/// Appends the two lowercase hex characters of `b`.
pub(crate) fn push_hex_byte(s: &mut String, b: u8)
    ensures
        final(s)@ == old(s)@ + hex_byte_chars(b),
{
    let hi = hex_char_of(b / 16);
    push_char(s, hi);
    let lo = hex_char_of(b % 16);
    push_char(s, lo);
    proof {
        assert(s@ =~= old(s)@ + hex_byte_chars(b));
    }
}

/// The hex digits of `v`, most significant first.
pub(crate) fn hex_digits_of(v: u64) -> (d: Vec<u8>)
    ensures
        d@ == nibbles_of(v as nat),
{
    let mut rev: Vec<u8> = Vec::new();
    rev.push((v % 16) as u8);
    let mut tmp: u64 = v / 16;
    proof {
        if tmp == 0 {
            assert(nibbles_of(v as nat) =~= rev@.reverse());
        } else {
            assert(nibbles_of(v as nat) =~= nibbles_of(tmp as nat) + rev@.reverse());
        }
    }
    while tmp != 0
        invariant
            rev@.len() >= 1,
            tmp != 0 ==> nibbles_of(v as nat) == nibbles_of(tmp as nat) + rev@.reverse(),
            tmp == 0 ==> nibbles_of(v as nat) == rev@.reverse(),
        decreases tmp,
    {
        let ghost prev = rev@;
        let ghost pt = tmp as nat;
        rev.push((tmp % 16) as u8);
        tmp = tmp / 16;
        proof {
            assert(rev@.reverse() =~= seq![(pt % 16) as u8] + prev.reverse());
            if tmp == 0 {
                assert(nibbles_of(pt) =~= seq![(pt % 16) as u8]);
                assert(nibbles_of(v as nat) =~= rev@.reverse());
            } else {
                assert(nibbles_of(pt) =~= nibbles_of(pt / 16).push((pt % 16) as u8));
                assert(nibbles_of(pt) =~= nibbles_of(tmp as nat) + seq![(pt % 16) as u8]);
                assert(nibbles_of(v as nat) =~= nibbles_of(tmp as nat) + rev@.reverse());
            }
        }
    }
    let n = rev.len();
    let mut d: Vec<u8> = Vec::new();
    let mut j: usize = n;
    while j > 0
        invariant
            n == rev@.len(),
            j <= n,
            d@.len() == n - j,
            forall|i: int| 0 <= i < n - j ==> d@[i] == rev@[n - 1 - i],
        decreases j,
    {
        j = j - 1;
        d.push(rev[j]);
    }
    proof {
        assert(d@ =~= rev@.reverse());
    }
    d
}

} // verus!
