//! Fixed-width little-endian integers.

use vstd::prelude::*;

verus! {

/// A number in `n` bytes, least significant byte first.
pub open spec fn le(v: int, n: int) -> Seq<u8>
    decreases n,
{
    if n <= 0 {
        Seq::empty()
    } else {
        seq![(v % 256) as u8] + le(v / 256, n - 1)
    }
}

/// The number that bytes write, least significant byte first.
pub open spec fn le_value(b: Seq<u8>) -> int
    decreases b.len(),
{
    if b.len() == 0 {
        0
    } else {
        b[0] + 256 * le_value(b.skip(1))
    }
}

/// One more than the largest number that `n` bytes write.
pub open spec fn le_bound(n: int) -> int
    decreases n,
{
    if n <= 0 {
        1
    } else {
        256 * le_bound(n - 1)
    }
}

pub proof fn lemma_le_value_bound(b: Seq<u8>)
    ensures
        0 <= le_value(b) < le_bound(b.len() as int),
    decreases b.len(),
{
    if b.len() > 0 {
        lemma_le_value_bound(b.skip(1));
    }
}

pub proof fn lemma_le_bounds()
    ensures
        le_bound(4) == 0x1_0000_0000,
        le_bound(8) == 0x1_0000_0000_0000_0000,
{
    reveal_with_fuel(le_bound, 9);
}

/// Writing a number and reading it back gives the number.
pub proof fn lemma_le_roundtrip(v: int, n: int)
    requires
        0 <= n,
        0 <= v < le_bound(n),
    ensures
        le(v, n).len() == n,
        le_value(le(v, n)) == v,
    decreases n,
{
    if n > 0 {
        lemma_le_roundtrip(v / 256, n - 1);
        assert(le(v, n).skip(1) =~= le(v / 256, n - 1));
    }
}

pub proof fn lemma_le_len(v: int, n: int)
    requires
        0 <= n,
    ensures
        le(v, n).len() == n,
    decreases n,
{
    if n > 0 {
        lemma_le_len(v / 256, n - 1);
    }
}

fn put_le(out: &mut Vec<u8>, v: u64, n: usize)
    ensures
        final(out)@ == old(out)@ + le(v as int, n as int),
{
    let mut rest: u64 = v;
    let mut i: usize = 0;
    assert(out@ + le(v as int, n as int) =~= old(out)@ + le(v as int, n as int));
    while i < n
        invariant
            i <= n,
            out@ + le(rest as int, n - i) == old(out)@ + le(v as int, n as int),
        decreases n - i,
    {
        let ghost before = out@;
        out.push((rest % 256) as u8);
        assert(before + le(rest as int, n - i) =~= out@ + le((rest / 256) as int, n - i - 1));
        rest = rest / 256;
        i = i + 1;
    }
    assert(out@ + le(rest as int, 0) =~= out@);
}

pub fn put_u32(out: &mut Vec<u8>, v: u32)
    ensures
        final(out)@ == old(out)@ + le(v as int, 4),
{
    put_le(out, v as u64, 4);
}

pub fn put_u64(out: &mut Vec<u8>, v: u64)
    ensures
        final(out)@ == old(out)@ + le(v as int, 8),
{
    put_le(out, v, 8);
}

fn get_le(b: &[u8], pos: usize, n: usize) -> (v: u64)
    requires
        pos + n <= b@.len(),
        n <= 8,
    ensures
        v as int == le_value(b@.subrange(pos as int, pos + n)),
    decreases n,
{
    let ghost s = b@.subrange(pos as int, pos + n);
    if n == 0 {
        return 0;
    }
    assert(b.len() == b@.len());
    let hi: u64 = get_le(b, pos + 1, n - 1);
    proof {
        assert(s.skip(1) =~= b@.subrange(pos + 1, pos + n));
        lemma_le_value_bound(s);
        lemma_bound_grows(n as int, 8);
        lemma_le_bounds();
    }
    b[pos] as u64 + 256 * hi
}

proof fn lemma_bound_grows(i: int, j: int)
    requires
        0 <= i <= j,
    ensures
        1 <= le_bound(i) <= le_bound(j),
    decreases j,
{
    if i < j {
        lemma_bound_grows(i, j - 1);
    } else if i > 0 {
        lemma_bound_grows(i - 1, i - 1);
    }
}

pub fn get_u32(b: &[u8], pos: usize) -> (v: u32)
    requires
        pos + 4 <= b@.len(),
    ensures
        v as int == le_value(b@.subrange(pos as int, pos + 4)),
{
    proof {
        lemma_le_value_bound(b@.subrange(pos as int, pos + 4));
        lemma_le_bounds();
    }
    get_le(b, pos, 4) as u32
}

pub fn get_u64(b: &[u8], pos: usize) -> (v: u64)
    requires
        pos + 8 <= b@.len(),
    ensures
        v as int == le_value(b@.subrange(pos as int, pos + 8)),
{
    get_le(b, pos, 8)
}

} // verus!
