//! Big-endian integer encoding shared by every part of the wire format.
use vstd::arithmetic::div_mod::{lemma_fundamental_div_mod, lemma_mod_breakdown};
use vstd::prelude::*;

verus! {

/// `256` raised to `n`: the number of values that `n` bytes can hold.
pub open spec fn radix(n: nat) -> nat
    decreases n,
{
    if n == 0 {
        1
    } else {
        256 * radix((n - 1) as nat)
    }
}

/// The unsigned number that the bytes `s` spell in network byte order.
pub open spec fn be_value(s: Seq<u8>) -> nat
    decreases s.len(),
{
    if s.len() == 0 {
        0
    } else {
        be_value(s.drop_last()) * 256 + s.last() as nat
    }
}

/// The low `n` bytes of `v`, most significant first.
pub open spec fn be_bytes(v: nat, n: nat) -> Seq<u8>
    decreases n,
{
    if n == 0 {
        Seq::empty()
    } else {
        be_bytes(v / 256, (n - 1) as nat).push((v % 256) as u8)
    }
}

pub proof fn lemma_radix_pos(n: nat)
    ensures
        radix(n) > 0,
    decreases n,
{
    if n > 0 {
        lemma_radix_pos((n - 1) as nat);
    }
}

pub proof fn lemma_radix_mono(a: nat, b: nat)
    requires
        a <= b,
    ensures
        radix(a) <= radix(b),
    decreases b,
{
    if a < b {
        lemma_radix_mono(a, (b - 1) as nat);
        lemma_radix_pos((b - 1) as nat);
    }
}

pub proof fn lemma_be_bytes_len(v: nat, n: nat)
    ensures
        be_bytes(v, n).len() == n,
    decreases n,
{
    if n > 0 {
        lemma_be_bytes_len(v / 256, (n - 1) as nat);
    }
}

pub proof fn lemma_be_value_bound(s: Seq<u8>)
    ensures
        be_value(s) < radix(s.len()),
    decreases s.len(),
{
    if s.len() > 0 {
        lemma_be_value_bound(s.drop_last());
    }
}

/// Reading back the bytes of `v` gives `v` modulo the width.
pub proof fn lemma_be_round_trip(v: nat, n: nat)
    ensures
        be_value(be_bytes(v, n)) == v % radix(n),
    decreases n,
{
    if n == 0 {
        assert(v % 1 == 0);
    } else {
        let m = (n - 1) as nat;
        lemma_be_round_trip(v / 256, m);
        lemma_radix_pos(m);
        assert(be_bytes(v, n).drop_last() == be_bytes(v / 256, m));
        lemma_mod_breakdown(v as int, 256, radix(m) as int);
        assert(be_value(be_bytes(v, n)) == ((v / 256) % radix(m)) * 256 + v % 256);
    }
}

/// The widths this codec reads and writes, as numbers.
pub proof fn lemma_radix_values()
    ensures
        radix(1) == 0x100,
        radix(2) == 0x1_0000,
        radix(4) == 0x1_0000_0000,
        radix(5) == 0x100_0000_0000,
        radix(8) == 0x1_0000_0000_0000_0000,
        radix(15) == 0x1_0000_0000_0000_0000_0000_0000_0000_00,
        radix(16) == 0x1_0000_0000_0000_0000_0000_0000_0000_0000 as nat,
{
    reveal_with_fuel(radix, 17);
}

/// Appends the low `n` bytes of `v` to `out`, most significant first.
pub fn push_be(out: &mut Vec<u8>, v: u128, n: usize)
    requires
        n <= 16,
    ensures
        final(out)@ == old(out)@ + be_bytes(v as nat, n as nat),
    decreases n,
{
    if n > 0 {
        push_be(out, v / 256, n - 1);
        out.push((v % 256) as u8);
        assert(final(out)@ =~= old(out)@ + be_bytes(v as nat, n as nat));
    } else {
        assert(final(out)@ =~= old(out)@ + be_bytes(v as nat, n as nat));
    }
}

/// Reads the `n` bytes at `pos` as a big-endian unsigned number.
pub fn read_be(buf: &[u8], pos: usize, n: usize) -> (r: u128)
    requires
        n <= 16,
        pos + n <= buf.len(),
    ensures
        r as nat == be_value(buf@.subrange(pos as int, pos + n)),
    decreases n,
{
    if n == 0 {
        0
    } else {
        let hi = read_be(buf, pos, n - 1);
        let idx: usize = pos + (n - 1);
        let last = buf[idx] as u128;
        proof {
            let s = buf@.subrange(pos as int, pos + n);
            assert(s.drop_last() =~= buf@.subrange(pos as int, pos + n - 1));
            lemma_be_value_bound(s.drop_last());
            lemma_radix_mono((n - 1) as nat, 15);
            lemma_radix_values();
        }
        hi * 256 + last
    }
}

/// Appends every byte of `data` to `out`.
pub fn push_all(out: &mut Vec<u8>, data: &[u8])
    ensures
        final(out)@ == old(out)@ + data@,
{
    let mut i: usize = 0;
    while i < data.len()
        invariant
            i <= data@.len(),
            out@ == old(out)@ + data@.subrange(0, i as int),
        decreases data@.len() - i,
    {
        out.push(data[i]);
        i = i + 1;
        assert(out@ =~= old(out)@ + data@.subrange(0, i as int));
    }
    assert(data@.subrange(0, i as int) =~= data@);
}

/// A fresh copy of the bytes from `start` up to `end`.
pub fn copy_range(buf: &[u8], start: usize, end: usize) -> (r: Vec<u8>)
    requires
        start <= end <= buf.len(),
    ensures
        r@ == buf@.subrange(start as int, end as int),
{
    let mut r: Vec<u8> = Vec::new();
    let mut i: usize = start;
    while i < end
        invariant
            start <= i <= end <= buf.len(),
            r@ == buf@.subrange(start as int, i as int),
        decreases end - i,
    {
        r.push(buf[i]);
        i = i + 1;
        assert(r@ =~= buf@.subrange(start as int, i as int));
    }
    r
}

/// Overwrites the two bytes at `at` with `v`, big-endian.
pub fn patch_u16(out: &mut Vec<u8>, at: usize, v: u16)
    requires
        at + 2 <= old(out).len(),
    ensures
        final(out)@ == old(out)@.subrange(0, at as int) + be_bytes(v as nat, 2) + old(
            out,
        )@.subrange(at + 2 as int, old(out)@.len() as int),
{
    out.set(at, (v / 256) as u8);
    out.set(at + 1, (v % 256) as u8);
    proof {
        reveal_with_fuel(be_bytes, 3);
        vstd::arithmetic::div_mod::lemma_small_mod((v as nat) / 256, 256);
        assert(final(out)@ =~= old(out)@.subrange(0, at as int) + be_bytes(v as nat, 2) + old(
            out,
        )@.subrange(at + 2 as int, old(out)@.len() as int));
    }
}

} // verus!
