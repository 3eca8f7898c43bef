//! The byte form in which the cache's nodes are shared between processes:
//! for each node, in node order, a record of 24 bytes holding the hash of the
//! file name and the load time, as little-endian 64-bit words (the hash, then
//! the low and the high word of the load time).
use vstd::prelude::*;

verus! {

/// 256 to the power `k`.
pub open spec fn pow256(k: nat) -> nat
    decreases k,
{
    if k == 0 {
        1
    } else {
        256 * pow256((k - 1) as nat)
    }
}

/// The `k` little-endian bytes of `x`.
pub open spec fn le_bytes(x: nat, k: nat) -> Seq<u8>
    decreases k,
{
    if k == 0 {
        Seq::<u8>::empty()
    } else {
        seq![(x % 256) as u8] + le_bytes(x / 256, (k - 1) as nat)
    }
}

/// 2^64.
pub open spec fn word() -> nat {
    0x1_0000_0000_0000_0000
}

/// The record of one node: (hash, load time).
pub open spec fn entry_bytes(e: (u64, u128)) -> Seq<u8> {
    le_bytes(e.0 as nat, 8) + le_bytes((e.1 as nat) % word(), 8) + le_bytes((e.1 as nat) / word(), 8)
}

/// The records of the nodes, in order.
pub open spec fn log_bytes(es: Seq<(u64, u128)>) -> Seq<u8>
    decreases es.len(),
{
    if es.len() == 0 {
        Seq::<u8>::empty()
    } else {
        log_bytes(es.drop_last()) + entry_bytes(es.last())
    }
}

proof fn lemma_le_bytes_len(x: nat, k: nat)
    ensures
        le_bytes(x, k).len() == k,
    decreases k,
{
    if k > 0 {
        lemma_le_bytes_len(x / 256, (k - 1) as nat);
    }
}

proof fn lemma_pow256_8()
    ensures
        pow256(8) == word(),
{
    reveal_with_fuel(pow256, 9);
}

proof fn lemma_pow256_mono(a: nat, b: nat)
    requires
        a <= b,
    ensures
        1 <= pow256(a) <= pow256(b),
    decreases b,
{
    if a < b {
        lemma_pow256_mono(a, (b - 1) as nat);
    } else if a > 0 {
        lemma_pow256_mono((a - 1) as nat, (a - 1) as nat);
    }
}

/// Little-endian bytes of values below `256^k` tell the values apart.
proof fn lemma_le_bytes_injective(x: nat, y: nat, k: nat)
    requires
        x < pow256(k),
        y < pow256(k),
        le_bytes(x, k) == le_bytes(y, k),
    ensures
        x == y,
    decreases k,
{
    if k == 0 {
    } else {
        let p = pow256((k - 1) as nat);
        assert(le_bytes(x, k) == seq![(x % 256) as u8] + le_bytes(x / 256, (k - 1) as nat));
        assert(le_bytes(y, k) == seq![(y % 256) as u8] + le_bytes(y / 256, (k - 1) as nat));
        let hx = seq![(x % 256) as u8];
        let hy = seq![(y % 256) as u8];
        assert(hx.len() == 1 && hx[0] == (x % 256) as u8);
        assert(hy.len() == 1 && hy[0] == (y % 256) as u8);
        assert((hx + le_bytes(x / 256, (k - 1) as nat))[0] == hx[0]);
        assert((hy + le_bytes(y / 256, (k - 1) as nat))[0] == hy[0]);
        assert((x % 256) as u8 == (y % 256) as u8);
        assert(x % 256 == y % 256);
        assert(le_bytes(x / 256, (k - 1) as nat) == le_bytes(x, k).drop_first());
        assert(le_bytes(y / 256, (k - 1) as nat) == le_bytes(y, k).drop_first());
        assert(x / 256 < p) by (nonlinear_arith)
            requires
                x < 256 * p,
        {
        }
        assert(y / 256 < p) by (nonlinear_arith)
            requires
                y < 256 * p,
        {
        }
        lemma_le_bytes_injective(x / 256, y / 256, (k - 1) as nat);
    }
}

proof fn lemma_entry_bytes_len(e: (u64, u128))
    ensures
        entry_bytes(e).len() == 24,
{
    lemma_le_bytes_len(e.0 as nat, 8);
    lemma_le_bytes_len((e.1 as nat) % word(), 8);
    lemma_le_bytes_len((e.1 as nat) / word(), 8);
}

/// Each record is 24 bytes long.
pub proof fn lemma_log_bytes_len(es: Seq<(u64, u128)>)
    ensures
        log_bytes(es).len() == 24 * es.len(),
    decreases es.len(),
{
    if es.len() > 0 {
        lemma_log_bytes_len(es.drop_last());
        lemma_entry_bytes_len(es.last());
    }
}

proof fn lemma_entry_bytes_injective(a: (u64, u128), b: (u64, u128))
    requires
        entry_bytes(a) == entry_bytes(b),
    ensures
        a == b,
{
    lemma_pow256_8();
    lemma_le_bytes_len(a.0 as nat, 8);
    lemma_le_bytes_len((a.1 as nat) % word(), 8);
    lemma_le_bytes_len((a.1 as nat) / word(), 8);
    lemma_le_bytes_len(b.0 as nat, 8);
    lemma_le_bytes_len((b.1 as nat) % word(), 8);
    lemma_le_bytes_len((b.1 as nat) / word(), 8);
    let ea = entry_bytes(a);
    let eb = entry_bytes(b);
    assert(ea.subrange(0, 8) =~= le_bytes(a.0 as nat, 8));
    assert(eb.subrange(0, 8) =~= le_bytes(b.0 as nat, 8));
    assert(ea.subrange(8, 16) =~= le_bytes((a.1 as nat) % word(), 8));
    assert(eb.subrange(8, 16) =~= le_bytes((b.1 as nat) % word(), 8));
    assert(ea.subrange(16, 24) =~= le_bytes((a.1 as nat) / word(), 8));
    assert(eb.subrange(16, 24) =~= le_bytes((b.1 as nat) / word(), 8));
    lemma_le_bytes_injective(a.0 as nat, b.0 as nat, 8);
    lemma_le_bytes_injective((a.1 as nat) % word(), (b.1 as nat) % word(), 8);
    assert((a.1 as nat) / word() < word()) by (nonlinear_arith)
        requires
            a.1 < word() * word(),
    {
    }
    assert((b.1 as nat) / word() < word()) by (nonlinear_arith)
        requires
            b.1 < word() * word(),
    {
    }
    lemma_le_bytes_injective((a.1 as nat) / word(), (b.1 as nat) / word(), 8);
    assert(a.1 == word() * ((a.1 as nat) / word()) + (a.1 as nat) % word()) by (nonlinear_arith);
    assert(b.1 == word() * ((b.1 as nat) / word()) + (b.1 as nat) % word()) by (nonlinear_arith);
}

/// Two node lists of the same length with the same records are equal: the
/// byte form loses nothing.
pub proof fn law_log_bytes_injective(a: Seq<(u64, u128)>, b: Seq<(u64, u128)>)
    requires
        a.len() == b.len(),
        log_bytes(a) == log_bytes(b),
    ensures
        a == b,
    decreases a.len(),
{
    if a.len() > 0 {
        lemma_log_bytes_len(a.drop_last());
        lemma_log_bytes_len(b.drop_last());
        lemma_entry_bytes_len(a.last());
        lemma_entry_bytes_len(b.last());
        let n = 24 * (a.len() - 1);
        assert(log_bytes(a).subrange(0, n) =~= log_bytes(a.drop_last()));
        assert(log_bytes(b).subrange(0, n) =~= log_bytes(b.drop_last()));
        assert(log_bytes(a).subrange(n, n + 24) =~= entry_bytes(a.last()));
        assert(log_bytes(b).subrange(n, n + 24) =~= entry_bytes(b.last()));
        law_log_bytes_injective(a.drop_last(), b.drop_last());
        lemma_entry_bytes_injective(a.last(), b.last());
        assert(a =~= a.drop_last().push(a.last()));
        assert(b =~= b.drop_last().push(b.last()));
    }
}

/// The size in bytes of the records of `count` nodes; `None` when it does
/// not fit in a `usize`.
pub fn log_size(count: usize) -> (r: Option<usize>)
    ensures
        r == (if 24 * count <= usize::MAX {
            Some((24 * count) as usize)
        } else {
            None::<usize>
        }),
{
    count.checked_mul(24)
}

/// Appends the 8 little-endian bytes of `x`.
fn push_le64(out: &mut Vec<u8>, x: u64)
    ensures
        final(out)@ == old(out)@ + le_bytes(x as nat, 8),
{
    let mut v: u64 = x;
    let mut i: usize = 0;
    while i < 8
        invariant
            i <= 8,
            old(out)@ + le_bytes(x as nat, 8) == out@ + le_bytes(v as nat, (8 - i) as nat),
        decreases 8 - i,
    {
        let ghost before = out@;
        out.push((v % 256) as u8);
        assert(le_bytes(v as nat, (8 - i) as nat) == seq![(v % 256) as u8] + le_bytes(
            (v / 256) as nat,
            (8 - i - 1) as nat,
        ));
        assert(out@ + le_bytes((v / 256) as nat, (8 - i - 1) as nat) =~= before + le_bytes(
            v as nat,
            (8 - i) as nat,
        ));
        v = v / 256;
        i += 1;
    }
    assert(le_bytes(v as nat, 0) =~= Seq::<u8>::empty());
    assert(out@ =~= out@ + le_bytes(v as nat, 0));
}

/// The value of the 8 little-endian bytes at `start`.
fn read_le64(bytes: &Vec<u8>, start: usize) -> (r: u64)
    requires
        start + 8 <= bytes.len(),
    ensures
        le_bytes(r as nat, 8) == bytes@.subrange(start as int, start + 8),
{
    let mut v: u128 = 0;
    let mut j: usize = 8;
    proof {
        lemma_pow256_8();
    }
    assert(le_bytes(0, 0) =~= bytes@.subrange(start + 8, start + 8));
    while j > 0
        invariant
            j <= 8,
            start + 8 <= bytes.len(),
            pow256(8) == word(),
            v < pow256((8 - j) as nat),
            le_bytes(v as nat, (8 - j) as nat) == bytes@.subrange(start + j, start + 8),
        decreases j,
    {
        let b = bytes[start + j - 1];
        proof {
            lemma_pow256_mono((8 - j + 1) as nat, 8);
        }
        let ghost p = pow256((8 - j) as nat);
        assert(v * 256 + b < 256 * p) by (nonlinear_arith)
            requires
                v < p,
                b < 256,
        {
        }
        let nv: u128 = v * 256 + b as u128;
        assert(nv % 256 == b as int && nv / 256 == v as int) by (nonlinear_arith)
            requires
                nv == v * 256 + b,
                b < 256,
        {
        }
        assert(le_bytes(nv as nat, (8 - j + 1) as nat) =~= bytes@.subrange(start + j - 1, start + 8));
        v = nv;
        j -= 1;
    }
    v as u64
}

/// The records of `es`.
pub fn encode_log(es: &Vec<(u64, u128)>) -> (r: Vec<u8>)
    ensures
        r@ == log_bytes(es@),
{
    let mut out: Vec<u8> = Vec::new();
    let mut i: usize = 0;
    while i < es.len()
        invariant
            i <= es.len(),
            out@ == log_bytes(es@.take(i as int)),
        decreases es.len() - i,
    {
        let (h, t) = es[i];
        let ghost before = out@;
        push_le64(&mut out, h);
        push_le64(&mut out, (t % 0x1_0000_0000_0000_0000) as u64);
        push_le64(&mut out, (t / 0x1_0000_0000_0000_0000) as u64);
        assert(es@.take(i + 1).drop_last() =~= es@.take(i as int));
        assert(out@ =~= before + entry_bytes((h, t)));
        i += 1;
    }
    assert(es@.take(es.len() as int) =~= es@);
    out
}

/// Reads `count` records from the front of `bytes`; `None` when `bytes`
/// is shorter than `count` records.
pub fn decode_log(bytes: &Vec<u8>, count: usize) -> (r: Option<Vec<(u64, u128)>>)
    ensures
        match r {
            Some(es) => es.len() == count && log_bytes(es@) == bytes@.take(24 * count as int),
            None => bytes.len() < 24 * count,
        },
{
    if count > bytes.len() / 24 {
        return None;
    }
    let mut es: Vec<(u64, u128)> = Vec::new();
    let mut i: usize = 0;
    while i < count
        invariant
            i <= count,
            24 * count <= bytes.len(),
            es.len() == i,
            log_bytes(es@) == bytes@.take(24 * i as int),
        decreases count - i,
    {
        let s = 24 * i;
        let h = read_le64(bytes, s);
        let lo = read_le64(bytes, s + 8);
        let hi = read_le64(bytes, s + 16);
        let t: u128 = (hi as u128) * 0x1_0000_0000_0000_0000 + lo as u128;
        assert(t % 0x1_0000_0000_0000_0000 == lo && t / 0x1_0000_0000_0000_0000 == hi) by (nonlinear_arith)
            requires
                t == hi * 0x1_0000_0000_0000_0000 + lo,
                lo < 0x1_0000_0000_0000_0000,
        {
        }
        let ghost before = es@;
        es.push((h, t));
        assert(es@.drop_last() =~= before);
        assert(entry_bytes((h, t)) =~= bytes@.subrange(s as int, s + 24));
        assert(bytes@.take(24 * (i + 1)) =~= bytes@.take(24 * i as int) + bytes@.subrange(s as int, s + 24));
        i += 1;
    }
    Some(es)
}

/// Reading back the records of a node list gives that list.
pub proof fn law_decode_after_encode(es: Seq<(u64, u128)>, bytes: Seq<u8>, decoded: Seq<(u64, u128)>)
    requires
        bytes == log_bytes(es),
        decoded.len() == es.len(),
        log_bytes(decoded) == bytes.take((24 * es.len()) as int),
    ensures
        decoded == es,
{
    lemma_log_bytes_len(es);
    assert(bytes.take((24 * es.len()) as int) =~= bytes);
    law_log_bytes_injective(decoded, es);
}

} // verus!
