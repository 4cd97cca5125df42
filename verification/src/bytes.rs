//! Byte-order arithmetic for the wire record.
//!
//! A rule record is packed as little-endian container words whose address
//! and port payloads are pre-swapped to network (big-endian) order.  This
//! module defines the little-endian encoding of a value, the value of a
//! byte sequence read in either order, and the byte-swap that turns a
//! host-order payload into the container value.

use vstd::prelude::*;

verus! {

/// 256 to the n-th power: the number of values of an n-byte field.
pub open spec fn pow256(n: nat) -> nat
    decreases n,
{
    if n == 0 {
        1
    } else {
        256 * pow256((n - 1) as nat)
    }
}

/// Concrete powers used for the 2-, 4-, 15- and 16-byte fields.
pub proof fn lemma_pow256_values()
    ensures
        pow256(2) == 0x10000,
        pow256(4) == 0x100000000,
        pow256(15) == 0x1000000000000000000000000000000,
        pow256(16) == 0x100000000000000000000000000000000,
{
    assert(pow256(0) == 1);
    assert(pow256(1) == 256);
    assert(pow256(2) == 0x10000);
    assert(pow256(3) == 0x1000000);
    assert(pow256(4) == 0x100000000);
    assert(pow256(5) == 0x10000000000);
    assert(pow256(6) == 0x1000000000000);
    assert(pow256(7) == 0x100000000000000);
    assert(pow256(8) == 0x10000000000000000);
    assert(pow256(9) == 0x1000000000000000000);
    assert(pow256(10) == 0x100000000000000000000);
    assert(pow256(11) == 0x10000000000000000000000);
    assert(pow256(12) == 0x1000000000000000000000000);
    assert(pow256(13) == 0x100000000000000000000000000);
    assert(pow256(14) == 0x10000000000000000000000000000);
    assert(pow256(15) == 0x1000000000000000000000000000000);
    assert(pow256(16) == 0x100000000000000000000000000000000);
}

pub proof fn lemma_pow256_pos(n: nat)
    ensures
        pow256(n) >= 1,
    decreases n,
{
    if n > 0 {
        lemma_pow256_pos((n - 1) as nat);
    }
}

/// The little-endian encoding of `v` in exactly `n` bytes (high bytes are
/// truncated if `v` does not fit).
pub open spec fn le_bytes(v: nat, n: nat) -> Seq<u8>
    decreases n,
{
    if n == 0 {
        Seq::empty()
    } else {
        seq![(v % 256) as u8] + le_bytes(v / 256, (n - 1) as nat)
    }
}

/// The value of a byte sequence read little-endian (first byte least
/// significant).
pub open spec fn le_value(s: Seq<u8>) -> nat
    decreases s.len(),
{
    if s.len() == 0 {
        0
    } else {
        (s[0] + 256 * le_value(s.drop_first())) as nat
    }
}

/// The value of a byte sequence read big-endian (first byte most
/// significant).
pub open spec fn be_value(s: Seq<u8>) -> nat
    decreases s.len(),
{
    if s.len() == 0 {
        0
    } else {
        (256 * be_value(s.drop_last()) + s.last()) as nat
    }
}

/// The network-order (big-endian) byte sequence of `v` in `n` bytes.
pub open spec fn be_bytes(v: nat, n: nat) -> Seq<u8> {
    le_bytes(v, n).reverse()
}

/// The container value that, stored little-endian in `n` bytes, puts the
/// bytes of `v` on the wire in network order.
pub open spec fn swapped(v: nat, n: nat) -> nat {
    be_value(le_bytes(v, n))
}

pub proof fn lemma_le_bytes_len(v: nat, n: nat)
    ensures
        le_bytes(v, n).len() == n,
    decreases n,
{
    if n > 0 {
        lemma_le_bytes_len(v / 256, (n - 1) as nat);
    }
}

/// Every byte sequence of length n denotes a value below 256^n.
pub proof fn lemma_le_value_bound(s: Seq<u8>)
    ensures
        le_value(s) < pow256(s.len()),
    decreases s.len(),
{
    if s.len() > 0 {
        lemma_le_value_bound(s.drop_first());
        lemma_pow256_pos((s.len() - 1) as nat);
    }
}

pub proof fn lemma_be_value_bound(s: Seq<u8>)
    ensures
        be_value(s) < pow256(s.len()),
    decreases s.len(),
{
    if s.len() > 0 {
        lemma_be_value_bound(s.drop_last());
        lemma_pow256_pos((s.len() - 1) as nat);
    }
}

/// Decoding inverts encoding: reading the little-endian bytes of a value
/// that fits in n bytes gives the value back.
pub proof fn lemma_le_value_of_le_bytes(v: nat, n: nat)
    requires
        v < pow256(n),
    ensures
        le_value(le_bytes(v, n)) == v,
    decreases n,
{
    if n > 0 {
        lemma_le_bytes_len(v / 256, (n - 1) as nat);
        assert(le_bytes(v, n).drop_first() =~= le_bytes(v / 256, (n - 1) as nat));
        lemma_le_value_of_le_bytes(v / 256, (n - 1) as nat);
    }
}

/// Reading a sequence big-endian is the same as reading its reverse
/// little-endian.
pub proof fn lemma_be_value_of_reverse(s: Seq<u8>)
    ensures
        be_value(s.reverse()) == le_value(s),
    decreases s.len(),
{
    if s.len() > 0 {
        assert(s.reverse().drop_last() =~= s.drop_first().reverse());
        assert(s.reverse().last() == s[0]);
        lemma_be_value_of_reverse(s.drop_first());
    }
}

/// The little-endian bytes of a big-endian reading reproduce the sequence
/// reversed.
pub proof fn lemma_le_bytes_of_be_value(s: Seq<u8>)
    ensures
        le_bytes(be_value(s), s.len()) == s.reverse(),
    decreases s.len(),
{
    if s.len() == 0 {
        assert(le_bytes(be_value(s), s.len()) =~= s.reverse());
    } else {
        let v = be_value(s);
        let hi = be_value(s.drop_last());
        assert(v == 256 * hi + s.last());
        assert(v % 256 == s.last() && v / 256 == hi) by {
            assert(s.last() < 256);
            vstd::arithmetic::div_mod::lemma_fundamental_div_mod_converse(
                v as int, 256, hi as int, s.last() as int);
        }
        lemma_le_bytes_of_be_value(s.drop_last());
        assert(le_bytes(v, s.len()) =~= seq![s.last()] + le_bytes(hi, (s.len() - 1) as nat));
        assert(s.reverse() =~= seq![s.last()] + s.drop_last().reverse());
    }
}

/// Swapping a value's bytes and storing the result little-endian yields
/// exactly the network-order bytes of the value.
pub proof fn lemma_le_bytes_of_swapped(v: nat, n: nat)
    ensures
        le_bytes(swapped(v, n), n) == be_bytes(v, n),
{
    lemma_le_bytes_len(v, n);
    lemma_le_bytes_of_be_value(le_bytes(v, n));
}

/// The byte swap is an involution on values that fit in n bytes.
pub proof fn lemma_swapped_involutive(v: nat, n: nat)
    requires
        v < pow256(n),
    ensures
        swapped(swapped(v, n), n) == v,
{
    lemma_le_bytes_len(v, n);
    lemma_le_bytes_of_be_value(le_bytes(v, n));
    lemma_be_value_of_reverse(le_bytes(v, n));
    lemma_le_value_of_le_bytes(v, n);
}

pub proof fn lemma_swapped_bound(v: nat, n: nat)
    ensures
        swapped(v, n) < pow256(n),
{
    lemma_le_bytes_len(v, n);
    lemma_be_value_bound(le_bytes(v, n));
}

/// The little-endian bytes of `v` in `n` bytes, executable form.
pub fn le_bytes_exec(v: u128, n: usize) -> (r: Vec<u8>)
    ensures
        r@ == le_bytes(v as nat, n as nat),
    decreases n,
{
    if n == 0 {
        let r: Vec<u8> = Vec::new();
        assert(r@ =~= le_bytes(v as nat, 0));
        r
    } else {
        let b: u8 = (v % 256) as u8;
        let mut rest = le_bytes_exec(v / 256, n - 1);
        rest.insert(0, b);
        proof {
            assert(rest@ =~= seq![b] + le_bytes((v as nat) / 256, (n - 1) as nat));
        }
        rest
    }
}

/// Reads `n` bytes at `off` little-endian.
pub fn le_value_range(s: &Vec<u8>, off: usize, n: usize) -> (r: u128)
    requires
        off + n <= s.len(),
        n <= 16,
    ensures
        r as nat == le_value(s@.subrange(off as int, off + n)),
    decreases n,
{
    proof {
        lemma_le_value_bound(s@.subrange(off as int, off + n));
        lemma_pow256_values();
        pow256_monotonic(n as nat, 16);
    }
    if n == 0 {
        assert(s@.subrange(off as int, off as int) =~= Seq::<u8>::empty());
        0
    } else {
        let lo: u8 = s[off];
        let hi: u128 = le_value_range(s, off + 1, n - 1);
        proof {
            let whole = s@.subrange(off as int, off + n);
            assert(whole.drop_first() =~= s@.subrange(off + 1, off + 1 + (n - 1)));
            lemma_le_value_bound(whole);
        }
        lo as u128 + 256 * hi
    }
}

proof fn pow256_monotonic(a: nat, b: nat)
    requires
        a <= b,
    ensures
        pow256(a) <= pow256(b),
    decreases b,
{
    if a < b && b > 0 {
        pow256_monotonic(a, (b - 1) as nat);
        lemma_pow256_pos((b - 1) as nat);
    }
}

/// Reverses the byte order of the low `n` bytes of `v`: the container
/// value whose little-endian storage is the network-order form of `v`.
pub fn swap_bytes(v: u128, n: usize) -> (r: u128)
    requires
        n <= 16,
        (v as nat) < pow256(n as nat),
    ensures
        r as nat == swapped(v as nat, n as nat),
{
    let bytes = le_bytes_exec(v, n);
    proof {
        lemma_le_bytes_len(v as nat, n as nat);
    }
    let mut acc: u128 = 0;
    let mut i: usize = 0;
    while i < n
        invariant
            i <= n,
            n <= 16,
            bytes@ == le_bytes(v as nat, n as nat),
            bytes@.len() == n,
            acc as nat == be_value(bytes@.subrange(0, i as int)),
        decreases n - i,
    {
        proof {
            let pre = bytes@.subrange(0, i as int);
            let post = bytes@.subrange(0, i + 1);
            assert(post.drop_last() =~= pre);
            assert(post.last() == bytes@[i as int]);
            lemma_be_value_bound(pre);
            pow256_monotonic(i as nat, 15);
            lemma_pow256_values();
        }
        acc = acc * 256 + bytes[i] as u128;
        i = i + 1;
    }
    proof {
        assert(bytes@.subrange(0, n as int) =~= bytes@);
    }
    acc
}

/// Byte swap of a 16-bit port value.
pub fn swap_u16(v: u16) -> (r: u16)
    ensures
        r as nat == swapped(v as nat, 2),
{
    proof {
        lemma_pow256_values();
        lemma_swapped_bound(v as nat, 2);
    }
    swap_bytes(v as u128, 2) as u16
}

/// Byte swap of a 32-bit address value.
pub fn swap_u32(v: u32) -> (r: u32)
    ensures
        r as nat == swapped(v as nat, 4),
{
    proof {
        lemma_pow256_values();
        lemma_swapped_bound(v as nat, 4);
    }
    swap_bytes(v as u128, 4) as u32
}

/// Byte swap of a 128-bit address value.
pub fn swap_u128(v: u128) -> (r: u128)
    ensures
        r as nat == swapped(v as nat, 16),
{
    proof {
        lemma_pow256_values();
        lemma_swapped_bound(v as nat, 16);
    }
    swap_bytes(v, 16)
}


proof fn lemma_le_bytes_zero(n: nat)
    ensures
        le_bytes(0, n).len() == n,
        forall|i: int| 0 <= i < n ==> le_bytes(0, n)[i] == 0,
    decreases n,
{
    lemma_le_bytes_len(0, n);
    if n > 0 {
        lemma_le_bytes_zero((n - 1) as nat);
        assert(forall|i: int|
            1 <= i < n ==> le_bytes(0, n)[i] == #[trigger] le_bytes(0, (n - 1) as nat)[i - 1]);
    }
}

/// A zero payload swaps to a zero container, in any width.
pub proof fn lemma_swapped_zero(n: nat)
    ensures
        swapped(0, n) == 0,
    decreases n,
{
    lemma_le_bytes_zero(n);
    if n > 0 {
        lemma_swapped_zero((n - 1) as nat);
        lemma_le_bytes_zero((n - 1) as nat);
        assert(le_bytes(0, n).drop_last() =~= le_bytes(0, (n - 1) as nat));
        assert(le_bytes(0, n).last() == 0);
    }
}

} // verus!
