//! Little-endian integers in byte buffers.

use vstd::prelude::*;

verus! {

/// `n` in `k` bytes, lowest first.
pub open spec fn le(n: int, k: int) -> Seq<u8>
    decreases k,
{
    if k <= 0 {
        Seq::empty()
    } else {
        seq![(n % 256) as u8] + le(n / 256, k - 1)
    }
}

/// The number that bytes, lowest first, stand for.
pub open spec fn un_le(s: Seq<u8>) -> int
    decreases s.len(),
{
    if s.len() == 0 {
        0
    } else {
        s[0] as int + 256 * un_le(s.skip(1))
    }
}

/// 256 to the power of `k`.
pub open spec fn pow256(k: int) -> int
    decreases k,
{
    if k <= 0 {
        1
    } else {
        256 * pow256(k - 1)
    }
}

/// How many values four and eight bytes can hold.
pub proof fn lemma_pow256()
    ensures
        pow256(4) == 0x1_0000_0000,
        pow256(8) == 0x1_0000_0000_0000_0000,
{
    reveal_with_fuel(pow256, 9);
}

/// A number written in enough bytes reads back.
pub proof fn lemma_le(n: int, k: int)
    requires
        0 <= k,
        0 <= n < pow256(k),
    ensures
        le(n, k).len() == k,
        un_le(le(n, k)) == n,
    decreases k,
{
    if k > 0 {
        assert(n / 256 < pow256(k - 1));
        lemma_le(n / 256, k - 1);
        assert(le(n, k).skip(1) =~= le(n / 256, k - 1));
    }
}

pub proof fn lemma_le_len(n: int, k: int)
    requires
        0 <= k,
    ensures
        le(n, k).len() == k,
    decreases k,
{
    if k > 0 {
        lemma_le_len(n / 256, k - 1);
    }
}

pub proof fn lemma_un_le_bound(s: Seq<u8>)
    ensures
        0 <= un_le(s) < pow256(s.len() as int),
    decreases s.len(),
{
    if s.len() > 0 {
        lemma_un_le_bound(s.skip(1));
    }
}

/// Append `n` in `k` bytes, lowest first.
pub fn push_le(v: &mut Vec<u8>, n: u64, k: u64)
    ensures
        final(v)@ == old(v)@ + le(n as int, k as int),
    decreases k,
{
    if k > 0 {
        v.push((n % 256) as u8);
        push_le(v, n / 256, k - 1);
    }
    assert(v@ =~= old(v)@ + le(n as int, k as int));
}

/// The number in the eight bytes from `at` on.
pub fn read_u64(b: &[u8], at: usize) -> (n: u64)
    requires
        at + 8 <= b@.len(),
    ensures
        n == un_le(b@.subrange(at as int, at + 8)),
{
    let len: usize = b.len();
    assert(at + 8 <= len);
    let lo: u32 = read_u32(b, at);
    let hi: u32 = read_u32(b, at + 4);
    let ghost s = b@.subrange(at as int, at + 8);
    proof {
        reveal_with_fuel(un_le, 9);
        let l = b@.subrange(at as int, at + 4);
        let h = b@.subrange(at + 4, at + 8);
        assert(s.skip(1).skip(1).skip(1).skip(1) =~= h);
        assert(l.skip(1).skip(1).skip(1).skip(1) =~= Seq::empty());
        assert(un_le(s) == un_le(l) + 0x1_0000_0000 * un_le(h));
    }
    lo as u64 + (hi as u64) * 0x1_0000_0000
}

/// The number in the four bytes from `at` on.
pub fn read_u32(b: &[u8], at: usize) -> (n: u32)
    requires
        at + 4 <= b@.len(),
    ensures
        n == un_le(b@.subrange(at as int, at + 4)),
{
    let ghost s = b@.subrange(at as int, at + 4);
    proof {
        reveal_with_fuel(un_le, 5);
        assert(s.skip(1).skip(1).skip(1).skip(1) =~= Seq::empty());
    }
    b[at] as u32 + 256 * (b[at + 1] as u32) + 0x1_0000 * (b[at + 2] as u32) + 0x100_0000 * (b[at
        + 3] as u32)
}

/// A signed number as the unsigned one with the same bits.
pub open spec fn bits_of(x: i32) -> int {
    if x >= 0 {
        x as int
    } else {
        x + 0x1_0000_0000
    }
}

/// The signed number with the bits of `n`.
pub open spec fn of_bits(n: int) -> int {
    if n < 0x8000_0000 {
        n
    } else {
        n - 0x1_0000_0000
    }
}

/// Append a signed number in four bytes.
pub fn push_i32(v: &mut Vec<u8>, x: i32)
    ensures
        final(v)@ == old(v)@ + le(bits_of(x), 4),
{
    let n: u64 = if x >= 0 {
        x as u64
    } else {
        (x as i64 + 0x1_0000_0000) as u64
    };
    push_le(v, n, 4);
}

/// The signed number in the four bytes from `at` on.
pub fn read_i32(b: &[u8], at: usize) -> (x: i32)
    requires
        at + 4 <= b@.len(),
    ensures
        x == of_bits(un_le(b@.subrange(at as int, at + 4))),
{
    let n: u32 = read_u32(b, at);
    if n < 0x8000_0000 {
        n as i32
    } else {
        (n as i64 - 0x1_0000_0000) as i32
    }
}

// ---------------------------------------------------------------------------
// Runs of items
// ---------------------------------------------------------------------------

/// Items laid out one after the other.
pub open spec fn laid<T>(items: Seq<T>, enc: spec_fn(T) -> Seq<u8>) -> Seq<u8>
    decreases items.len(),
{
    if items.len() == 0 {
        Seq::empty()
    } else {
        laid(items.drop_last(), enc) + enc(items.last())
    }
}

/// Items of one width stand at multiples of it.
pub proof fn lemma_laid<T>(items: Seq<T>, enc: spec_fn(T) -> Seq<u8>, w: int)
    requires
        w >= 0,
        forall|x: T| (#[trigger] enc(x)).len() == w,
    ensures
        laid(items, enc).len() == w * items.len(),
        forall|i: int|
            0 <= i < items.len() ==> laid(items, enc).subrange(w * i, w * i + w) == enc(
                #[trigger] items[i],
            ),
    decreases items.len(),
{
    if items.len() > 0 {
        let head = items.drop_last();
        let n = head.len() as int;
        lemma_laid(head, enc, w);
        assert(w * (n + 1) == w * n + w) by (nonlinear_arith);
        let all = laid(items, enc);
        assert forall|i: int| 0 <= i < items.len() implies all.subrange(w * i, w * i + w) == enc(
            #[trigger] items[i],
        ) by {
            if i < n {
                assert(w * i + w <= w * n) by (nonlinear_arith)
                    requires
                        w >= 0,
                        i + 1 <= n,
                ;
                assert(0 <= w * i) by (nonlinear_arith)
                    requires
                        w >= 0,
                        0 <= i,
                ;
                assert(head[i] == items[i]);
                assert(all.subrange(w * i, w * i + w) =~= laid(head, enc).subrange(
                    w * i,
                    w * i + w,
                ));
            } else {
                assert(0 <= w * n) by (nonlinear_arith)
                    requires
                        w >= 0,
                        0 <= n,
                ;
                assert(all.subrange(w * i, w * i + w) =~= enc(items.last()));
            }
        }
    } else {
        assert(w * 0 == 0) by (nonlinear_arith);
    }
}

// ---------------------------------------------------------------------------
// Laws
// ---------------------------------------------------------------------------

/// Four bytes stand for a number, and eight for another, the lowest byte first.
pub proof fn lemma_bytes_stand_for(s: Seq<u8>)
    ensures
        s.len() == 4 ==> un_le(s) == s[0] + 0x100 * s[1] + 0x1_0000 * s[2] + 0x100_0000 * s[3],
        s.len() == 8 ==> un_le(s) == s[0] + 0x100 * s[1] + 0x1_0000 * s[2] + 0x100_0000 * s[3]
            + 0x1_0000_0000 * s[4] + 0x100_0000_0000 * s[5] + 0x1_0000_0000_0000 * s[6]
            + 0x100_0000_0000_0000 * s[7],
{
    reveal_with_fuel(un_le, 9);
    if s.len() == 4 || s.len() == 8 {
        let a = s.skip(1);
        let b = a.skip(1);
        let c = b.skip(1);
        let d = c.skip(1);
        assert(a[0] == s[1] && b[0] == s[2] && c[0] == s[3]);
        if s.len() == 8 {
            let e = d.skip(1);
            let f = e.skip(1);
            let g = f.skip(1);
            assert(d[0] == s[4] && e[0] == s[5] && f[0] == s[6] && g[0] == s[7]);
            assert(g.skip(1).len() == 0);
        } else {
            assert(d.len() == 0);
        }
    }
}

/// A signed number's bits are the number where it is not negative, and else what it
/// lacks to the next power of two; read back they give the number.
pub proof fn lemma_sign_bits(x: i32)
    ensures
        x >= 0 ==> bits_of(x) == x,
        x < 0 ==> bits_of(x) == x + 0x1_0000_0000,
        of_bits(bits_of(x)) == x,
{
}

} // verus!
