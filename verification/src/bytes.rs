//! Byte strings and the integers they spell.

use vstd::prelude::*;

verus! {

/// The `n` low-order bytes of `v`, least significant first.
pub open spec fn le_bytes(v: nat, n: nat) -> Seq<u8>
    decreases n,
{
    if n == 0 {
        Seq::empty()
    } else {
        seq![(v % 256) as u8] + le_bytes(v / 256, (n - 1) as nat)
    }
}

/// The `n` low-order bytes of `v`, most significant first.
pub open spec fn be_bytes(v: nat, n: nat) -> Seq<u8>
    decreases n,
{
    if n == 0 {
        Seq::empty()
    } else {
        be_bytes(v / 256, (n - 1) as nat).push((v % 256) as u8)
    }
}

/// The number that `s` spells with its least significant byte first.
pub open spec fn le_value(s: Seq<u8>) -> nat
    decreases s.len(),
{
    if s.len() == 0 {
        0
    } else {
        s[0] as nat + 256 * le_value(s.drop_first())
    }
}

/// The number that `s` spells with its most significant byte first.
pub open spec fn be_value(s: Seq<u8>) -> nat
    decreases s.len(),
{
    if s.len() == 0 {
        0
    } else {
        256 * be_value(s.drop_last()) + s.last() as nat
    }
}

/// How many numbers `n` bytes can spell.
pub open spec fn byte_span(n: nat) -> nat
    decreases n,
{
    if n == 0 {
        1
    } else {
        256 * byte_span((n - 1) as nat)
    }
}

/// The spans of the machine integers.
pub proof fn lemma_byte_spans()
    ensures
        byte_span(0) == 1,
        byte_span(1) == 0x100,
        byte_span(2) == 0x1_0000,
        byte_span(4) == 0x1_0000_0000,
        byte_span(8) == 0x1_0000_0000_0000_0000,
{
    reveal_with_fuel(byte_span, 9);
}

/// Encoding yields exactly the number of bytes asked for.
pub proof fn lemma_le_bytes_len(v: nat, n: nat)
    ensures
        le_bytes(v, n).len() == n,
    decreases n,
{
    if n > 0 {
        lemma_le_bytes_len(v / 256, (n - 1) as nat);
    }
}

/// Encoding yields exactly the number of bytes asked for.
pub proof fn lemma_be_bytes_len(v: nat, n: nat)
    ensures
        be_bytes(v, n).len() == n,
    decreases n,
{
    if n > 0 {
        lemma_be_bytes_len(v / 256, (n - 1) as nat);
    }
}

/// A string of `n` bytes spells a number below the span of `n` bytes.
pub proof fn lemma_le_value_bound(s: Seq<u8>)
    ensures
        le_value(s) < byte_span(s.len()),
    decreases s.len(),
{
    if s.len() > 0 {
        lemma_le_value_bound(s.drop_first());
    }
}

/// A string of `n` bytes spells a number below the span of `n` bytes.
pub proof fn lemma_be_value_bound(s: Seq<u8>)
    ensures
        be_value(s) < byte_span(s.len()),
    decreases s.len(),
{
    if s.len() > 0 {
        lemma_be_value_bound(s.drop_last());
    }
}

/// Reading little-endian bytes gives back the number that was written.
pub proof fn lemma_le_round_trip(v: nat, n: nat)
    requires
        v < byte_span(n),
    ensures
        le_value(le_bytes(v, n)) == v,
    decreases n,
{
    if n > 0 {
        lemma_le_round_trip(v / 256, (n - 1) as nat);
        lemma_le_bytes_len(v, n);
        assert(le_bytes(v, n).drop_first() =~= le_bytes(v / 256, (n - 1) as nat));
    }
}

/// Reading big-endian bytes gives back the number that was written.
pub proof fn lemma_be_round_trip(v: nat, n: nat)
    requires
        v < byte_span(n),
    ensures
        be_value(be_bytes(v, n)) == v,
    decreases n,
{
    if n > 0 {
        lemma_be_round_trip(v / 256, (n - 1) as nat);
        lemma_be_bytes_len(v, n);
        assert(be_bytes(v, n).drop_last() =~= be_bytes(v / 256, (n - 1) as nat));
    }
}

/// Writing the number that little-endian bytes spell gives the bytes back.
pub proof fn lemma_le_inverse(s: Seq<u8>)
    ensures
        le_bytes(le_value(s), s.len()) == s,
    decreases s.len(),
{
    if s.len() > 0 {
        lemma_le_inverse(s.drop_first());
        let v = le_value(s);
        assert(v % 256 == s[0] as nat);
        assert(v / 256 == le_value(s.drop_first()));
        assert(le_bytes(v, s.len()) =~= s);
    } else {
        assert(le_bytes(le_value(s), s.len()) =~= s);
    }
}

proof fn lemma_low_digits(v: nat)
    ensures
        ({
            let w = v % 0x1_0000_0000;
            &&& w % 256 == v % 256
            &&& w / 256 % 256 == v / 256 % 256
            &&& w / 256 / 256 % 256 == v / 256 / 256 % 256
            &&& w / 256 / 256 / 256 % 256 == v / 256 / 256 / 256 % 256
        }),
{
    let w = v % 0x1_0000_0000;
    let q = v / 0x1_0000_0000;
    assert(v == q * 0x1_0000_0000 + w);
    assert(v / 256 == q * 0x100_0000 + w / 256);
    assert(v / 256 / 256 == q * 0x1_0000 + w / 256 / 256);
    assert(v / 256 / 256 / 256 == q * 0x100 + w / 256 / 256 / 256);
}

/// Four bytes spell a number by its low 32 bits alone.
#[verifier::spinoff_prover]
pub proof fn lemma_be_bytes_low(v: nat)
    ensures
        be_bytes(v % 0x1_0000_0000, 4) == be_bytes(v, 4),
{
    lemma_low_digits(v);
    reveal_with_fuel(be_bytes, 5);
}

/// Append the low `n` bytes of `v`, least significant first.
pub fn push_le(out: &mut Vec<u8>, v: u64, n: usize)
    ensures
        final(out)@ == old(out)@ + le_bytes(v as nat, n as nat),
{
    let mut rest: u64 = v;
    let mut i: usize = 0;
    while i < n
        invariant
            i <= n,
            out@ + le_bytes(rest as nat, (n - i) as nat) == old(out)@ + le_bytes(
                v as nat,
                n as nat,
            ),
        decreases n - i,
    {
        let ghost before = out@;
        out.push((rest % 256) as u8);
        proof {
            assert(before + le_bytes(rest as nat, (n - i) as nat) =~= out@ + le_bytes(
                (rest / 256) as nat,
                (n - i - 1) as nat,
            ));
        }
        rest = rest / 256;
        i = i + 1;
    }
    assert(out@ + le_bytes(rest as nat, 0) =~= out@);
}

/// Append the low `n` bytes of `v`, most significant first.
pub fn push_be(out: &mut Vec<u8>, v: u64, n: usize)
    ensures
        final(out)@ == old(out)@ + be_bytes(v as nat, n as nat),
    decreases n,
{
    if n > 0 {
        push_be(out, v / 256, n - 1);
        out.push((v % 256) as u8);
        assert(out@ =~= old(out)@ + be_bytes(v as nat, n as nat));
    } else {
        assert(out@ =~= old(out)@ + be_bytes(v as nat, n as nat));
    }
}

/// The number that the `n` bytes at `off` spell, least significant first.
pub fn read_le(s: &[u8], off: usize, n: usize) -> (v: u64)
    requires
        off + n <= s@.len(),
        n <= 8,
    ensures
        v as nat == le_value(s@.subrange(off as int, off + n)),
{
    let mut acc: u64 = 0;
    let mut i: usize = n;
    assert(s@.subrange(off + n, off + n) =~= Seq::<u8>::empty());
    while i > 0
        invariant
            i <= n <= 8,
            off + n <= s.len(),
            acc as nat == le_value(s@.subrange(off + i, off + n)),
        decreases i,
    {
        i = i - 1;
        proof {
            let tail = s@.subrange(off + i, off + n);
            assert(tail.drop_first() =~= s@.subrange(off + i + 1, off + n));
            lemma_le_value_bound(tail);
            lemma_span_monotone(tail.len(), 8);
            lemma_byte_spans();
        }
        acc = s[off + i] as u64 + 256 * acc;
    }
    acc
}

/// The number that the `n` bytes at `off` spell, most significant first.
pub fn read_be(s: &[u8], off: usize, n: usize) -> (v: u64)
    requires
        off + n <= s@.len(),
        n <= 8,
    ensures
        v as nat == be_value(s@.subrange(off as int, off + n)),
{
    let mut acc: u64 = 0;
    let mut i: usize = 0;
    assert(s@.subrange(off as int, off + i) =~= Seq::<u8>::empty());
    while i < n
        invariant
            i <= n <= 8,
            off + n <= s.len(),
            acc as nat == be_value(s@.subrange(off as int, off + i)),
        decreases n - i,
    {
        proof {
            let head = s@.subrange(off as int, off + i + 1);
            assert(head.drop_last() =~= s@.subrange(off as int, off + i));
            lemma_be_value_bound(head);
            lemma_span_monotone(head.len(), 8);
            lemma_byte_spans();
        }
        acc = 256 * acc + s[off + i] as u64;
        i = i + 1;
    }
    acc
}

/// More bytes spell more numbers.
pub proof fn lemma_span_monotone(a: nat, b: nat)
    requires
        a <= b,
    ensures
        1 <= byte_span(a) <= byte_span(b),
    decreases b,
{
    if a < b {
        lemma_span_monotone(a, (b - 1) as nat);
    } else if a > 0 {
        lemma_span_monotone((a - 1) as nat, (b - 1) as nat);
    }
}

/// `s` with the bytes of `data` in place of those at `off`.
pub open spec fn spliced(s: Seq<u8>, off: int, data: Seq<u8>) -> Seq<u8> {
    Seq::new(
        s.len(),
        |i: int|
            if off <= i < off + data.len() {
                data[i - off]
            } else {
                s[i]
            },
    )
}

/// Overwrite the bytes at `off` with `data`.
pub fn write_at(dst: &mut [u8], off: usize, data: &[u8])
    requires
        off + data@.len() <= old(dst)@.len(),
    ensures
        final(dst)@ == spliced(old(dst)@, off as int, data@),
{
    let mut i: usize = 0;
    assert(dst@ =~= spliced(old(dst)@, off as int, data@.subrange(0, 0)));
    while i < data.len()
        invariant
            i <= data@.len(),
            off + data@.len() <= old(dst).len(),
            dst@ == spliced(old(dst)@, off as int, data@.subrange(0, i as int)),
        decreases data@.len() - i,
    {
        dst[off + i] = data[i];
        i = i + 1;
        assert(dst@ =~= spliced(old(dst)@, off as int, data@.subrange(0, i as int)));
    }
    assert(data@.subrange(0, i as int) =~= data@);
}

/// Append a copy of `data`.
pub fn push_all(out: &mut Vec<u8>, data: &[u8])
    ensures
        final(out)@ == old(out)@ + data@,
{
    out.extend_from_slice(data);
    assert(out@ =~= old(out)@ + data@);
}

/// Append `n` zero bytes.
pub fn push_zeros(out: &mut Vec<u8>, n: usize)
    ensures
        final(out)@ == old(out)@ + Seq::new(n as nat, |i: int| 0u8),
{
    let mut i: usize = 0;
    assert(out@ =~= old(out)@ + Seq::new(0nat, |k: int| 0u8));
    while i < n
        invariant
            i <= n,
            out@ == old(out)@ + Seq::new(i as nat, |k: int| 0u8),
        decreases n - i,
    {
        out.push(0);
        i = i + 1;
        assert(out@ =~= old(out)@ + Seq::new(i as nat, |k: int| 0u8));
    }
}

/// The lower-case hexadecimal digit for `d`.
pub open spec fn hex_digit(d: nat) -> u8 {
    if d < 10 {
        (48 + d) as u8
    } else {
        (87 + d) as u8
    }
}

/// `v` in lower-case hexadecimal without leading zeros.
pub open spec fn hex_text(v: nat) -> Seq<u8>
    decreases v,
{
    if v < 16 {
        seq![hex_digit(v)]
    } else {
        hex_text(v / 16).push(hex_digit(v % 16))
    }
}

/// Append `v` in lower-case hexadecimal without leading zeros.
pub fn push_hex(out: &mut Vec<u8>, v: u64)
    ensures
        final(out)@ == old(out)@ + hex_text(v as nat),
    decreases v,
{
    if v >= 16 {
        push_hex(out, v / 16);
    }
    let d: u8 = (v % 16) as u8;
    let ghost before = out@;
    if d < 10 {
        out.push(48 + d);
    } else {
        out.push(87 + d);
    }
    assert(out@ =~= old(out)@ + hex_text(v as nat));
}

/// `v` in decimal without leading zeros.
pub open spec fn dec_text(v: nat) -> Seq<u8>
    decreases v,
{
    if v < 10 {
        seq![(48 + v) as u8]
    } else {
        dec_text(v / 10).push((48 + v % 10) as u8)
    }
}

/// Append `v` in decimal without leading zeros.
pub fn push_dec(out: &mut Vec<u8>, v: u64)
    ensures
        final(out)@ == old(out)@ + dec_text(v as nat),
    decreases v,
{
    if v >= 10 {
        push_dec(out, v / 10);
    }
    out.push(48 + (v % 10) as u8);
    assert(out@ =~= old(out)@ + dec_text(v as nat));
}

/// A copy of the bytes from `from` up to `to`.
pub fn copy_range(s: &[u8], from: usize, to: usize) -> (out: Vec<u8>)
    requires
        from <= to <= s@.len(),
    ensures
        out@ == s@.subrange(from as int, to as int),
{
    vstd::slice::slice_to_vec(vstd::slice::slice_subrange(s, from, to))
}

} // verus!
