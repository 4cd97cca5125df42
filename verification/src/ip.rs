//! Address parsing and the library's own address model.
//!
//! An address value is held as a plain host-order number: 32 bits for
//! IPv4, 128 bits for IPv6.  The text grammar is the usual presentation
//! form: a dotted quad for IPv4; colon-separated groups of up to four hex
//! digits for IPv6, with at most one `::` gap and an optional embedded
//! dotted quad as the final two groups.  A socket form appends a port:
//! `a.b.c.d:p` for IPv4 and `[addr]:p` for IPv6; a bare address means
//! port 0, which stands for "any port".

use vstd::prelude::*;

use crate::text::{
    all_digits, dec_run_end, dec_run_end_exec, dec_value, dec_value_port, dec_value_small, digit,
    hex_run_end, hex_run_end_exec, hex_value, hex_value_small, is_digit, is_hex_digit,
    lemma_dec_run_end, lemma_hex_run_end, lemma_hex_value_bound, lemma_pow16_values,
};

verus! {

/// A host-order address value of one IP family.
#[derive(Clone, Copy, Debug, PartialEq, Eq, Structural)]
pub enum Ip {
    V4(u32),
    V6(u128),
}

impl Ip {
    pub open spec fn spec_is_v6(self) -> bool {
        self is V6
    }

    pub fn is_v6(&self) -> (r: bool)
        ensures
            r == self.spec_is_v6(),
    {
        match self {
            Ip::V4(_) => false,
            Ip::V6(_) => true,
        }
    }
}

/// An address together with a port; port 0 means "any port".
#[derive(Clone, Copy, Debug, PartialEq, Eq, Structural)]
pub struct SockAddr {
    pub ip: Ip,
    pub port: u16,
}

impl SockAddr {
    pub open spec fn spec_is_v6(self) -> bool {
        self.ip.spec_is_v6()
    }

    pub fn is_v6(&self) -> (r: bool)
        ensures
            r == self.spec_is_v6(),
    {
        self.ip.is_v6()
    }
}

pub open spec fn spec_zero_addr(ipv6: bool) -> SockAddr {
    SockAddr { ip: if ipv6 { Ip::V6(0) } else { Ip::V4(0) }, port: 0 }
}

/// The all-zero ("any") address of the chosen family, with port 0.
pub fn get_zero_addr(ipv6: bool) -> (r: SockAddr)
    ensures
        r == spec_zero_addr(ipv6),
{
    SockAddr { ip: if ipv6 { Ip::V6(0) } else { Ip::V4(0) }, port: 0 }
}

// ---------------------------------------------------------------------
// IPv4
// ---------------------------------------------------------------------
/// One dotted-quad component at position `i`: one to three decimal
/// digits with a value of at most 255.  Yields the value and the first
/// position after the digits.
pub open spec fn octet_at(s: Seq<char>, i: int) -> Option<(u32, int)> {
    let j = dec_run_end(s, i);
    if 1 <= j - i <= 3 && dec_value(s.subrange(i, j)) <= 255 {
        Some((dec_value(s.subrange(i, j)) as u32, j))
    } else {
        None
    }
}

/// A dotted quad at position `i`: four octets separated by `'.'`.
/// Yields the host-order value and the first position after the quad.
pub open spec fn spec_ipv4_at(s: Seq<char>, i: int) -> Option<(u32, int)> {
    match octet_at(s, i) {
        None => None,
        Some((o1, p1)) => if p1 < s.len() && s[p1] == '.' {
            match octet_at(s, p1 + 1) {
                None => None,
                Some((o2, p2)) => if p2 < s.len() && s[p2] == '.' {
                    match octet_at(s, p2 + 1) {
                        None => None,
                        Some((o3, p3)) => if p3 < s.len() && s[p3] == '.' {
                            match octet_at(s, p3 + 1) {
                                None => None,
                                Some((o4, p4)) => Some(
                                    (
                                        (o1 * 0x1000000 + o2 * 0x10000 + o3 * 0x100 + o4) as u32,
                                        p4,
                                    ),
                                ),
                            }
                        } else {
                            None
                        },
                    }
                } else {
                    None
                },
            }
        } else {
            None
        },
    }
}

/// The host-order value of a whole string in dotted-quad form.
pub open spec fn spec_ipv4(s: Seq<char>) -> Option<u32> {
    match spec_ipv4_at(s, 0) {
        Some((v, end)) => if end == s.len() {
            Some(v)
        } else {
            None
        },
        None => None,
    }
}

fn octet_at_exec(s: &Vec<char>, i: usize) -> (r: Option<(u32, usize)>)
    requires
        i <= s.len(),
    ensures
        match r {
            Some((v, j)) => octet_at(s@, i as int) == Some((v, j as int)) && i < j <= s.len(),
            None => octet_at(s@, i as int) is None,
        },
{
    let j = dec_run_end_exec(s, i);
    proof {
        lemma_dec_run_end(s@, i as int);
    }
    if 1 <= j - i && j - i <= 3 {
        let v = dec_value_small(s, i, j);
        if v <= 255 {
            Some((v, j))
        } else {
            None
        }
    } else {
        None
    }
}

fn ipv4_at_exec(s: &Vec<char>, i: usize) -> (r: Option<(u32, usize)>)
    requires
        i <= s.len(),
    ensures
        match r {
            Some((v, j)) => spec_ipv4_at(s@, i as int) == Some((v, j as int)) && i < j <= s.len(),
            None => spec_ipv4_at(s@, i as int) is None,
        },
{
    let (o1, p1) = match octet_at_exec(s, i) {
        Some(x) => x,
        None => {
            return None;
        },
    };
    if !(p1 < s.len() && s[p1] == '.') {
        return None;
    }
    let (o2, p2) = match octet_at_exec(s, p1 + 1) {
        Some(x) => x,
        None => {
            return None;
        },
    };
    if !(p2 < s.len() && s[p2] == '.') {
        return None;
    }
    let (o3, p3) = match octet_at_exec(s, p2 + 1) {
        Some(x) => x,
        None => {
            return None;
        },
    };
    if !(p3 < s.len() && s[p3] == '.') {
        return None;
    }
    let (o4, p4) = match octet_at_exec(s, p3 + 1) {
        Some(x) => x,
        None => {
            return None;
        },
    };
    Some((o1 * 0x1000000 + o2 * 0x10000 + o3 * 0x100 + o4, p4))
}

/// Parses a whole word as an IPv4 address.
pub fn parse_ipv4(s: &Vec<char>) -> (r: Option<u32>)
    ensures
        r == spec_ipv4(s@),
{
    match ipv4_at_exec(s, 0) {
        Some((v, end)) => if end == s.len() {
            Some(v)
        } else {
            None
        },
        None => None,
    }
}

// ---------------------------------------------------------------------
// IPv6
// ---------------------------------------------------------------------
/// First position at or after `i` holding `':'`, or the length.
pub open spec fn colon_end(s: Seq<char>, i: int) -> int
    decreases s.len() - i,
{
    if i < 0 || i >= s.len() || s[i] == ':' {
        i
    } else {
        colon_end(s, i + 1)
    }
}

/// First position of a `"::"` at or after `i`.
pub open spec fn find_cc(s: Seq<char>, i: int) -> Option<int>
    decreases s.len() - i,
{
    if i < 0 || i + 1 >= s.len() {
        None
    } else if s[i] == ':' && s[i + 1] == ':' {
        Some(i)
    } else {
        find_cc(s, i + 1)
    }
}

fn find_cc_exec(s: &Vec<char>, i: usize) -> (r: Option<usize>)
    requires
        i <= s.len(),
    ensures
        match r {
            Some(p) => find_cc(s@, i as int) == Some(p as int) && i <= p && p + 1 < s.len(),
            None => find_cc(s@, i as int) is None,
        },
{
    let mut j: usize = i;
    let mut found = false;
    loop
        invariant_except_break
            !found,
        invariant
            i <= j <= s.len(),
            find_cc(s@, i as int) == find_cc(s@, j as int),
        ensures
            match find_cc(s@, i as int) {
                Some(p) => found && i <= p && p + 1 < s.len() && j == p,
                None => !found,
            },
        decreases s.len() - j,
    {
        if j >= s.len() {
            proof {
                assert(find_cc(s@, j as int) is None);
            }
            break ;
        }
        if j + 1 >= s.len() {
            proof {
                assert(find_cc(s@, j as int) is None);
            }
            break ;
        }
        if s[j] == ':' && s[j + 1] == ':' {
            found = true;
            break ;
        }
        j = j + 1;
    }
    if found {
        Some(j)
    } else {
        None
    }
}

/// One hex group at position `i`: one to four hex digits.  Yields the
/// group value and the first position after the digits.
pub open spec fn group_at(s: Seq<char>, i: int) -> Option<(u16, int)> {
    let j = hex_run_end(s, i);
    if 1 <= j - i <= 4 {
        Some((hex_value(s.subrange(i, j)) as u16, j))
    } else {
        None
    }
}

fn group_at_exec(s: &Vec<char>, i: usize) -> (r: Option<(u16, usize)>)
    requires
        i <= s.len(),
    ensures
        match r {
            Some((g, j)) => group_at(s@, i as int) == Some((g, j as int)) && i < j <= s.len(),
            None => group_at(s@, i as int) is None,
        },
{
    let j = hex_run_end_exec(s, i);
    proof {
        lemma_hex_run_end(s@, i as int);
        if 1 <= j - i <= 4 {
            lemma_hex_value_bound(s@.subrange(i as int, j as int));
            lemma_pow16_values();
            crate::text::lemma_pow16_pos(3);
            assert(crate::text::pow16((j - i) as nat) <= crate::text::pow16(4)) by {
                if j - i < 4 {
                    pow16_mono_local((j - i) as nat, 4);
                }
            }
        }
    }
    if 1 <= j - i && j - i <= 4 {
        let g = hex_value_small(s, i, j);
        Some((g, j))
    } else {
        None
    }
}

proof fn pow16_mono_local(a: nat, b: nat)
    requires
        a <= b,
    ensures
        crate::text::pow16(a) <= crate::text::pow16(b),
    decreases b,
{
    if a < b && b > 0 {
        pow16_mono_local(a, (b - 1) as nat);
        crate::text::lemma_pow16_pos((b - 1) as nat);
    }
}

/// The colon-separated groups from `i` to the end of the string.  When
/// `allow_v4` is set, the final field may instead be a dotted quad,
/// which contributes its upper and lower 16-bit halves as two groups.
pub open spec fn groups_at(s: Seq<char>, i: int, allow_v4: bool) -> Option<Seq<u16>>
    decreases s.len() - i,
{
    if allow_v4 && ipv4_fills_rest(s, i) {
        let ve = spec_ipv4_at(s, i)->0;
        let v = ve.0;
        Some(seq![(v / 0x10000) as u16, (v % 0x10000) as u16])
    } else {
        match group_at(s, i) {
            Some((g, j)) => if j == s.len() {
                Some(seq![g])
            } else if i < j && j < s.len() && s[j] == ':' {
                match groups_at(s, j + 1, allow_v4) {
                    Some(rest) => Some(seq![g] + rest),
                    None => None,
                }
            } else {
                None
            },
            None => None,
        }
    }
}

/// Does a dotted quad start at `i` and run to the end of the string?
pub open spec fn ipv4_fills_rest(s: Seq<char>, i: int) -> bool {
    match spec_ipv4_at(s, i) {
        Some((v, e)) => e == s.len(),
        None => false,
    }
}

fn groups_at_exec(s: &Vec<char>, i: usize, allow_v4: bool) -> (r: Option<Vec<u16>>)
    requires
        i <= s.len(),
    ensures
        match r {
            Some(v) => groups_at(s@, i as int, allow_v4) == Some(v@),
            None => groups_at(s@, i as int, allow_v4) is None,
        },
    decreases s.len() - i,
{
    if allow_v4 {
        if let Some((v, e)) = ipv4_at_exec(s, i) {
            if e == s.len() {
                let mut out: Vec<u16> = Vec::new();
                out.push((v / 0x10000) as u16);
                out.push((v % 0x10000) as u16);
                proof {
                    assert(out@ =~= seq![
                        ((v as u32) / 0x10000) as u16,
                        ((v as u32) % 0x10000) as u16,
                    ]);
                }
                return Some(out);
            }
        }
    }
    match group_at_exec(s, i) {
        Some((g, j)) => {
            if j == s.len() {
                let mut out: Vec<u16> = Vec::new();
                out.push(g);
                proof {
                    assert(out@ =~= seq![g]);
                }
                Some(out)
            } else if s[j] == ':' {
                match groups_at_exec(s, j + 1, allow_v4) {
                    Some(rest) => {
                        let mut out: Vec<u16> = Vec::new();
                        out.push(g);
                        let mut tail = rest;
                        out.append(&mut tail);
                        proof {
                            assert(out@ =~= seq![g] + groups_at(
                                s@,
                                j + 1,
                                allow_v4,
                            )->0);
                        }
                        Some(out)
                    },
                    None => None,
                }
            } else {
                None
            }
        },
        None => None,
    }
}

/// The 128-bit value of eight 16-bit groups, first group most
/// significant.
pub open spec fn groups_value(g: Seq<u16>) -> nat
    decreases g.len(),
{
    if g.len() == 0 {
        0
    } else {
        (0x10000 * groups_value(g.drop_last()) + g.last()) as nat
    }
}

pub open spec fn pow65536(n: nat) -> nat
    decreases n,
{
    if n == 0 {
        1
    } else {
        0x10000 * pow65536((n - 1) as nat)
    }
}

pub proof fn lemma_groups_value_bound(g: Seq<u16>)
    ensures
        groups_value(g) < pow65536(g.len()),
    decreases g.len(),
{
    if g.len() > 0 {
        lemma_groups_value_bound(g.drop_last());
        assert(pow65536((g.len() - 1) as nat) >= 1) by {
            lemma_pow65536_pos((g.len() - 1) as nat);
        }
    }
}

pub proof fn lemma_pow65536_pos(n: nat)
    ensures
        pow65536(n) >= 1,
    decreases n,
{
    if n > 0 {
        lemma_pow65536_pos((n - 1) as nat);
    }
}

pub proof fn lemma_pow65536_values()
    ensures
        pow65536(0) == 1,
        pow65536(1) == 0x10000,
        pow65536(2) == 0x100000000,
        pow65536(3) == 0x1000000000000,
        pow65536(4) == 0x10000000000000000,
        pow65536(5) == 0x100000000000000000000,
        pow65536(6) == 0x1000000000000000000000000,
        pow65536(7) == 0x10000000000000000000000000000,
        pow65536(8) == 0x100000000000000000000000000000000,
{
    assert(pow65536(0) == 1);
    assert(pow65536(1) == 0x10000);
    assert(pow65536(2) == 0x100000000);
    assert(pow65536(3) == 0x1000000000000);
    assert(pow65536(4) == 0x10000000000000000);
    assert(pow65536(5) == 0x100000000000000000000);
    assert(pow65536(6) == 0x1000000000000000000000000);
    assert(pow65536(7) == 0x10000000000000000000000000000);
    assert(pow65536(8) == 0x100000000000000000000000000000000);
}

fn groups_value_exec(g: &Vec<u16>) -> (r: u128)
    requires
        g.len() <= 8,
    ensures
        r as nat == groups_value(g@),
{
    let mut acc: u128 = 0;
    let mut i: usize = 0;
    while i < g.len()
        invariant
            i <= g.len() <= 8,
            acc as nat == groups_value(g@.subrange(0, i as int)),
        decreases g.len() - i,
    {
        proof {
            let pre = g@.subrange(0, i as int);
            let post = g@.subrange(0, i + 1);
            assert(post.drop_last() =~= pre);
            assert(post.last() == g@[i as int]);
            lemma_groups_value_bound(pre);
            lemma_pow65536_values();
            pow65536_mono_local(i as nat, 7);
        }
        acc = acc * 0x10000 + g[i] as u128;
        i = i + 1;
    }
    proof {
        assert(g@.subrange(0, g@.len() as int) =~= g@);
    }
    acc
}

proof fn pow65536_mono_local(a: nat, b: nat)
    requires
        a <= b,
    ensures
        pow65536(a) <= pow65536(b),
    decreases b,
{
    if a < b && b > 0 {
        pow65536_mono_local(a, (b - 1) as nat);
        lemma_pow65536_pos((b - 1) as nat);
    }
}

/// The value of a whole string in IPv6 presentation form.
pub open spec fn spec_ipv6(s: Seq<char>) -> Option<u128> {
    match find_cc(s, 0) {
        None => match groups_at(s, 0, true) {
            Some(g) => if g.len() == 8 {
                Some(groups_value(g) as u128)
            } else {
                None
            },
            None => None,
        },
        Some(p) => if find_cc(s, p + 1) is Some {
            None
        } else {
            let l = s.subrange(0, p);
            let r = s.subrange(p + 2, s.len() as int);
            let lg = if l.len() == 0 {
                Some(Seq::<u16>::empty())
            } else {
                groups_at(l, 0, false)
            };
            let rg = if r.len() == 0 {
                Some(Seq::<u16>::empty())
            } else {
                groups_at(r, 0, true)
            };
            match (lg, rg) {
                (Some(lgs), Some(rgs)) => if lgs.len() + rgs.len() <= 7 {
                    let zeros = Seq::<u16>::new((8 - lgs.len() - rgs.len()) as nat, |k: int| 0u16);
                    Some(groups_value(lgs + zeros + rgs) as u128)
                } else {
                    None
                },
                _ => None,
            }
        },
    }
}

/// Copies the characters in `[i, j)`.
fn subvec(s: &Vec<char>, i: usize, j: usize) -> (r: Vec<char>)
    requires
        i <= j <= s.len(),
    ensures
        r@ == s@.subrange(i as int, j as int),
{
    let mut v: Vec<char> = Vec::new();
    let mut k: usize = i;
    while k < j
        invariant
            i <= k <= j <= s.len(),
            v@ =~= s@.subrange(i as int, k as int),
        decreases j - k,
    {
        v.push(s[k]);
        proof {
            assert(v@ =~= s@.subrange(i as int, k + 1));
        }
        k = k + 1;
    }
    v
}

/// Parses a whole word as an IPv6 address.
pub fn parse_ipv6(s: &Vec<char>) -> (r: Option<u128>)
    ensures
        r == spec_ipv6(s@),
{
    match find_cc_exec(s, 0) {
        None => {
            match groups_at_exec(s, 0, true) {
                Some(g) => {
                    if g.len() == 8 {
                        Some(groups_value_exec(&g))
                    } else {
                        None
                    }
                },
                None => None,
            }
        },
        Some(p) => {
            if find_cc_exec(s, p + 1).is_some() {
                return None;
            }
            let l = subvec(s, 0, p);
            let r = subvec(s, p + 2, s.len());
            let lg: Option<Vec<u16>> = if l.len() == 0 {
                Some(Vec::new())
            } else {
                groups_at_exec(&l, 0, false)
            };
            let rg: Option<Vec<u16>> = if r.len() == 0 {
                Some(Vec::new())
            } else {
                groups_at_exec(&r, 0, true)
            };
            match (lg, rg) {
                (Some(lgs), Some(rgs)) => {
                    if lgs.len() <= 7 && rgs.len() <= 7 - lgs.len() {
                        let gap = 8 - lgs.len() - rgs.len();
                        let mut full: Vec<u16> = Vec::new();
                        let mut part = lgs;
                        full.append(&mut part);
                        let mut k: usize = 0;
                        while k < gap
                            invariant
                                k <= gap,
                                full@ =~= groups_at_spec_left(s@, p as int) + Seq::<u16>::new(
                                    k as nat,
                                    |m: int| 0u16,
                                ),
                            decreases gap - k,
                        {
                            full.push(0u16);
                            proof {
                                assert(Seq::<u16>::new((k + 1) as nat, |m: int| 0u16) =~= Seq::<
                                    u16,
                                >::new(k as nat, |m: int| 0u16) + seq![0u16]);
                            }
                            k = k + 1;
                        }
                        let mut part = rgs;
                        full.append(&mut part);
                        proof {
                            let lseq = groups_at_spec_left(s@, p as int);
                            let rseq = groups_at_spec_right(s@, p as int);
                            let zeros = Seq::<u16>::new((8 - lseq.len() - rseq.len()) as nat, |m: int| 0u16);
                            assert(full@ =~= lseq + zeros + rseq);
                        }
                        Some(groups_value_exec(&full))
                    } else {
                        None
                    }
                },
                _ => None,
            }
        },
    }
}

/// The groups before the gap, assuming they parse.
pub open spec fn groups_at_spec_left(s: Seq<char>, p: int) -> Seq<u16> {
    let l = s.subrange(0, p);
    if l.len() == 0 {
        Seq::<u16>::empty()
    } else {
        groups_at(l, 0, false)->0
    }
}

/// The groups after the gap, assuming they parse.
pub open spec fn groups_at_spec_right(s: Seq<char>, p: int) -> Seq<u16> {
    let r = s.subrange(p + 2, s.len() as int);
    if r.len() == 0 {
        Seq::<u16>::empty()
    } else {
        groups_at(r, 0, true)->0
    }
}

// ---------------------------------------------------------------------
// Socket form
// ---------------------------------------------------------------------
/// A port suffix: at least one decimal digit, value at most 65535.
pub open spec fn port_ok(t: Seq<char>) -> bool {
    t.len() >= 1 && all_digits(t) && dec_value(t) <= 65535
}

/// The address denoted by a word: `a.b.c.d:p`, `[v6]:p`, a bare dotted
/// quad, or a bare IPv6 form; a bare address gets port 0.
pub open spec fn spec_sock(s: Seq<char>) -> Option<SockAddr> {
    let c = colon_end(s, 0);
    if c < s.len() && spec_ipv4(s.subrange(0, c)) is Some && port_ok(
        s.subrange(c + 1, s.len() as int),
    ) {
        Some(
            SockAddr {
                ip: Ip::V4(spec_ipv4(s.subrange(0, c))->0),
                port: dec_value(s.subrange(c + 1, s.len() as int)) as u16,
            },
        )
    } else if s.len() > 0 && s[0] == '[' {
        let q = rbracket_end(s, 0);
        if q < s.len() && q + 1 < s.len() && s[q + 1] == ':' && spec_ipv6(s.subrange(1, q)) is Some
            && port_ok(s.subrange(q + 2, s.len() as int)) {
            Some(
                SockAddr {
                    ip: Ip::V6(spec_ipv6(s.subrange(1, q))->0),
                    port: dec_value(s.subrange(q + 2, s.len() as int)) as u16,
                },
            )
        } else {
            None
        }
    } else if spec_ipv4(s) is Some {
        Some(SockAddr { ip: Ip::V4(spec_ipv4(s)->0), port: 0 })
    } else if spec_ipv6(s) is Some {
        Some(SockAddr { ip: Ip::V6(spec_ipv6(s)->0), port: 0 })
    } else {
        None
    }
}

/// First position at or after `i` holding `']'`, or the length.
pub open spec fn rbracket_end(s: Seq<char>, i: int) -> int
    decreases s.len() - i,
{
    if i < 0 || i >= s.len() || s[i] == ']' {
        i
    } else {
        rbracket_end(s, i + 1)
    }
}

proof fn lemma_rbracket_end_ge(s: Seq<char>, i: int)
    requires
        0 <= i <= s.len(),
    ensures
        rbracket_end(s, i) >= i,
    decreases s.len() - i,
{
    if i < s.len() && s[i] != ']' {
        lemma_rbracket_end_ge(s, i + 1);
    }
}

fn colon_end_exec(s: &Vec<char>, i: usize) -> (r: usize)
    requires
        i <= s.len(),
    ensures
        r == colon_end(s@, i as int),
        i <= r <= s.len(),
{
    let mut j: usize = i;
    while j < s.len() && s[j] != ':'
        invariant
            i <= j <= s.len(),
            colon_end(s@, i as int) == colon_end(s@, j as int),
        decreases s.len() - j,
    {
        j = j + 1;
    }
    j
}

fn rbracket_end_exec(s: &Vec<char>, i: usize) -> (r: usize)
    requires
        i <= s.len(),
    ensures
        r == rbracket_end(s@, i as int),
        i <= r <= s.len(),
{
    let mut j: usize = i;
    while j < s.len() && s[j] != ']'
        invariant
            i <= j <= s.len(),
            rbracket_end(s@, i as int) == rbracket_end(s@, j as int),
        decreases s.len() - j,
    {
        j = j + 1;
    }
    j
}

/// Checks a port suffix `[i, len)` and returns its value.
fn port_at_exec(s: &Vec<char>, i: usize) -> (r: Option<u16>)
    requires
        i <= s.len(),
    ensures
        match r {
            Some(p) => port_ok(s@.subrange(i as int, s@.len() as int)) && p == dec_value(
                s@.subrange(i as int, s@.len() as int),
            ),
            None => !port_ok(s@.subrange(i as int, s@.len() as int)),
        },
{
    if i == s.len() {
        return None;
    }
    let e = dec_run_end_exec(s, i);
    proof {
        lemma_dec_run_end(s@, i as int);
    }
    if e != s.len() {
        proof {
            let t = s@.subrange(i as int, s@.len() as int);
            assert(!is_digit(t[e - i])) by {
                assert(t[e - i] == s@[e as int]);
            }
        }
        return None;
    }
    proof {
        let t = s@.subrange(i as int, s@.len() as int);
        assert(all_digits(t)) by {
            assert(forall|k: int|
                0 <= k < t.len() ==> #[trigger] t[k] == s@[i + k]);
        }
    }
    dec_value_port(s, i, s.len())
}

/// Parses a word as an address with an optional port.
pub fn parse_sock_addr(s: &Vec<char>) -> (r: Option<SockAddr>)
    ensures
        r == spec_sock(s@),
{
    let c = colon_end_exec(s, 0);
    if c < s.len() {
        let pre = subvec(s, 0, c);
        if let Some(v4) = parse_ipv4(&pre) {
            if let Some(p) = port_at_exec(s, c + 1) {
                return Some(SockAddr { ip: Ip::V4(v4), port: p });
            }
        }
    }
    if s.len() > 0 && s[0] == '[' {
        let q = rbracket_end_exec(s, 0);
        if q < s.len() && q + 1 < s.len() && s[q + 1] == ':' {
            proof {
                assert(s@[0] != ']');
                lemma_rbracket_end_ge(s@, 1);
            }
            let inner = subvec(s, 1, q);
            if let Some(v6) = parse_ipv6(&inner) {
                if let Some(p) = port_at_exec(s, q + 2) {
                    return Some(SockAddr { ip: Ip::V6(v6), port: p });
                }
            }
        }
        return None;
    }
    if let Some(v4) = parse_ipv4(s) {
        return Some(SockAddr { ip: Ip::V4(v4), port: 0 });
    }
    if let Some(v6) = parse_ipv6(s) {
        return Some(SockAddr { ip: Ip::V6(v6), port: 0 });
    }
    None
}


// ---------------------------------------------------------------------
// Presentation-form rendering
// ---------------------------------------------------------------------
/// The dotted-quad presentation of a host-order IPv4 value.
pub open spec fn render_v4(v: nat) -> Seq<char> {
    crate::text::dec_str(v / 0x1000000) + seq!['.'] + crate::text::dec_str((v / 0x10000) % 256)
        + seq!['.'] + crate::text::dec_str((v / 0x100) % 256) + seq!['.'] + crate::text::dec_str(
        v % 256,
    )
}

/// Renders an IPv4 value in dotted-quad form.
pub fn render_ipv4(v: u32) -> (r: Vec<char>)
    ensures
        r@ == render_v4(v as nat),
{
    let mut out = crate::text::dec_chars(v / 0x1000000);
    out.push('.');
    let mut part = crate::text::dec_chars((v / 0x10000) % 256);
    out.append(&mut part);
    out.push('.');
    let mut part = crate::text::dec_chars((v / 0x100) % 256);
    out.append(&mut part);
    out.push('.');
    let mut part = crate::text::dec_chars(v % 256);
    out.append(&mut part);
    proof {
        assert(out@ =~= render_v4(v as nat));
    }
    out
}

/// The full eight-group presentation of a host-order IPv6 value, from
/// group `k` on: lowercase hex groups joined by `':'`, no compression.
pub open spec fn render_v6_from(v: nat, k: nat) -> Seq<char>
    decreases 8 - k,
{
    let g = (v / pow65536((7 - k) as nat)) % 0x10000;
    if k >= 7 {
        crate::text::hex_str(g)
    } else {
        crate::text::hex_str(g) + seq![':'] + render_v6_from(v, (k + 1) as nat)
    }
}

pub open spec fn render_v6(v: nat) -> Seq<char> {
    render_v6_from(v, 0)
}

/// Renders an IPv6 value as eight uncompressed hex groups.
pub fn render_ipv6(v: u128) -> (r: Vec<char>)
    ensures
        r@ == render_v6(v as nat),
{
    let mut out: Vec<char> = Vec::new();
    let mut k: usize = 0;
    let mut scale: u128 = 0x10000000000000000000000000000;
    proof {
        lemma_pow65536_values();
        assert(render_v6(v as nat) =~= out@ + render_v6_from(v as nat, 0));
    }
    while k < 8
        invariant
            k <= 8,
            k < 8 ==> scale as nat == pow65536((7 - k) as nat),
            k < 8 ==> render_v6(v as nat) == out@ + render_v6_from(v as nat, k as nat),
            k == 8 ==> out@ == render_v6(v as nat),
        decreases 8 - k,
    {
        proof {
            lemma_pow65536_pos((7 - k) as nat);
        }
        let g: u16 = ((v / scale) % 0x10000) as u16;
        let ghost o0 = out@;
        let ghost gs = ((v as nat) / pow65536((7 - k) as nat)) % 0x10000;
        proof {
            assert(g as nat == gs);
        }
        let mut part = crate::text::hex_chars(g);
        out.append(&mut part);
        if k < 7 {
            out.push(':');
            proof {
                assert(render_v6_from(v as nat, k as nat) == crate::text::hex_str(gs) + seq![':']
                    + render_v6_from(v as nat, (k + 1) as nat));
                assert(out@ =~= o0 + (crate::text::hex_str(gs) + seq![':']));
                assert(o0 + (crate::text::hex_str(gs) + seq![':'] + render_v6_from(
                    v as nat,
                    (k + 1) as nat,
                )) =~= out@ + render_v6_from(v as nat, (k + 1) as nat));
            }
            scale = scale / 0x10000;
            proof {
                assert(pow65536((7 - (k + 1)) as nat) * 0x10000 == pow65536((7 - k) as nat));
                vstd::arithmetic::div_mod::lemma_div_multiples_vanish(
                    pow65536((6 - k) as nat) as int,
                    0x10000,
                );
            }
        } else {
            proof {
                assert(render_v6_from(v as nat, 7) == crate::text::hex_str(gs));
                assert(out@ =~= o0 + crate::text::hex_str(gs));
            }
        }
        k = k + 1;
    }
    out
}


// ---------------------------------------------------------------------
// Rendering round trips
// ---------------------------------------------------------------------
/// A decimal rendering of at most three digits.
proof fn lemma_dec_str_short(n: nat)
    requires
        n <= 999,
    ensures
        1 <= crate::text::dec_str(n).len() <= 3,
    decreases n,
{
    if n >= 10 {
        lemma_dec_str_short(n / 10);
        if n / 10 >= 10 {
            assert(crate::text::dec_str(n / 10).len() == crate::text::dec_str(n / 100).len() + 1);
        }
    }
}

/// Pins the end of a digit run: digits up to `k`, then a non-digit or
/// the end.
proof fn lemma_dec_run_end_is(s: Seq<char>, i: int, k: int)
    requires
        0 <= i <= k <= s.len(),
        forall|j: int| i <= j < k ==> is_digit(#[trigger] s[j]),
        k == s.len() || !is_digit(s[k]),
    ensures
        dec_run_end(s, i) == k,
    decreases k - i,
{
    if i < k {
        lemma_dec_run_end_is(s, i + 1, k);
    }
}

/// Pins the end of a hex run.
proof fn lemma_hex_run_end_is(s: Seq<char>, i: int, k: int)
    requires
        0 <= i <= k <= s.len(),
        forall|j: int| i <= j < k ==> is_hex_digit(#[trigger] s[j]),
        k == s.len() || !is_hex_digit(s[k]),
    ensures
        hex_run_end(s, i) == k,
    decreases k - i,
{
    if i < k {
        lemma_hex_run_end_is(s, i + 1, k);
    }
}

/// An octet rendering parses back to the octet and stops right after
/// it.
proof fn lemma_octet_render(s: Seq<char>, i: int, o: nat)
    requires
        o <= 255,
        0 <= i,
        i + crate::text::dec_str(o).len() <= s.len(),
        forall|j: int|
            0 <= j < crate::text::dec_str(o).len() ==> s[i + j] == crate::text::dec_str(o)[j],
        i + crate::text::dec_str(o).len() == s.len() || !is_digit(
            s[i + crate::text::dec_str(o).len()],
        ),
    ensures
        octet_at(s, i) == Some((o as u32, i + crate::text::dec_str(o).len())),
{
    let d = crate::text::dec_str(o);
    crate::text::lemma_dec_str_digits(o);
    lemma_dec_str_short(o);
    assert(forall|j: int| i <= j < i + d.len() ==> is_digit(#[trigger] s[j])) by {
        assert(forall|j: int|
            i <= j < i + d.len() ==> #[trigger] s[j] == d[j - i] && is_digit(d[j - i]));
    }
    lemma_dec_run_end_is(s, i, i + d.len());
    assert(s.subrange(i, i + d.len()) =~= d);
}

/// A dotted-quad rendering parses back to the value it renders.
pub proof fn lemma_render_v4_round_trip(v: u32)
    ensures
        spec_ipv4(render_v4(v as nat)) == Some(v),
{
    let o1 = (v as nat) / 0x1000000;
    let o2 = ((v as nat) / 0x10000) % 256;
    let o3 = ((v as nat) / 0x100) % 256;
    let o4 = (v as nat) % 256;
    let d1 = crate::text::dec_str(o1);
    let d2 = crate::text::dec_str(o2);
    let d3 = crate::text::dec_str(o3);
    let d4 = crate::text::dec_str(o4);
    let s = render_v4(v as nat);
    assert(o1 <= 255) by {
        assert((v as nat) < 0x100000000);
        assert((v as nat) / 0x1000000 < 0x100) by (nonlinear_arith)
            requires
                (v as nat) < 0x100000000,
        ;
    }
    crate::text::lemma_dec_str_digits(o1);
    crate::text::lemma_dec_str_digits(o2);
    crate::text::lemma_dec_str_digits(o3);
    crate::text::lemma_dec_str_digits(o4);
    lemma_dec_str_short(o1);
    lemma_dec_str_short(o2);
    lemma_dec_str_short(o3);
    lemma_dec_str_short(o4);
    let p1 = d1.len() as int;
    let p2 = p1 + 1 + d2.len();
    let p3 = p2 + 1 + d3.len();
    let p4 = p3 + 1 + d4.len();
    assert(s.len() == p4);
    assert(forall|j: int| 0 <= j < d1.len() ==> s[j] == d1[j]);
    assert(s[p1] == '.');
    assert(forall|j: int| 0 <= j < d2.len() ==> s[p1 + 1 + j] == d2[j]);
    assert(s[p2] == '.');
    assert(forall|j: int| 0 <= j < d3.len() ==> s[p2 + 1 + j] == d3[j]);
    assert(s[p3] == '.');
    assert(forall|j: int| 0 <= j < d4.len() ==> s[p3 + 1 + j] == d4[j]);
    assert(!is_digit('.'));
    lemma_octet_render(s, 0, o1);
    lemma_octet_render(s, p1 + 1, o2);
    lemma_octet_render(s, p2 + 1, o3);
    lemma_octet_render(s, p3 + 1, o4);
    assert(spec_ipv4_at(s, 0) == Some(
        (((o1 * 0x1000000 + o2 * 0x10000 + o3 * 0x100 + o4) as u32), p4),
    ));
    assert(o1 * 0x1000000 + o2 * 0x10000 + o3 * 0x100 + o4 == v as nat) by (nonlinear_arith)
        requires
            o1 == (v as nat) / 0x1000000,
            o2 == ((v as nat) / 0x10000) % 256,
            o3 == ((v as nat) / 0x100) % 256,
            o4 == (v as nat) % 256,
            (v as nat) < 0x100000000,
    ;
}


/// A hexadecimal rendering of at most four digits.
proof fn lemma_hex_str_short(n: nat)
    requires
        n <= 0xffff,
    ensures
        1 <= crate::text::hex_str(n).len() <= 4,
    decreases n,
{
    if n >= 16 {
        lemma_hex_str_short(n / 16);
        if n / 16 >= 16 {
            assert(crate::text::hex_str(n / 16).len() == crate::text::hex_str(n / 256).len() + 1);
            if n / 256 >= 16 {
                assert(crate::text::hex_str(n / 256).len() == crate::text::hex_str(
                    n / 4096,
                ).len() + 1);
            }
        }
    }
}

/// A dotted quad cannot start where the text holds no dot at all.
proof fn lemma_ipv4_at_no_dot(s: Seq<char>, i: int)
    requires
        forall|j: int| i <= j < s.len() ==> s[j] != '.',
        0 <= i,
    ensures
        spec_ipv4_at(s, i) is None,
{
    crate::text::lemma_dec_run_end(s, if i <= s.len() {
        i
    } else {
        s.len() as int
    });
    match octet_at(s, i) {
        Some((o1, p1)) => {
            if i <= s.len() {
                crate::text::lemma_dec_run_end(s, i);
            }
        },
        None => {},
    }
}

/// The group of `v` at position `k` of its eight-group form.
pub open spec fn v6_group(v: nat, k: int) -> u16 {
    ((v / pow65536((7 - k) as nat)) % 0x10000) as u16
}

/// The groups of `v` from position `k` on.
pub open spec fn tail_groups(v: nat, k: int) -> Seq<u16> {
    Seq::new((8 - k) as nat, |m: int| v6_group(v, k + m))
}

/// The suffix of a full rendering starting at group `k` re-parses to
/// exactly the remaining groups, and holds only hex digits and single
/// colons.
proof fn lemma_v6_suffix(v: u128, k: int, s: Seq<char>, p: int)
    requires
        0 <= k <= 7,
        0 <= p <= s.len(),
        s.skip(p) == render_v6_from(v as nat, k as nat),
    ensures
        groups_at(s, p, true) == Some(tail_groups(v as nat, k)),
        forall|i: int| p <= i < s.len() ==> is_hex_digit(#[trigger] s[i]) || s[i] == ':',
        forall|i: int| p <= i < s.len() ==> s[i] != '.',
        forall|i: int|
            p <= i && i + 1 < s.len() ==> !(#[trigger] s[i] == ':' && s[i + 1] == ':'),
        p < s.len() && is_hex_digit(s[p]),
    decreases 7 - k,
{
    let g = v6_group(v as nat, k) as nat;
    let d = crate::text::hex_str(g);
    crate::text::lemma_hex_str_digits(g);
    lemma_hex_str_short(g);
    let suffix = s.skip(p);
    assert(forall|j: int| 0 <= j < suffix.len() ==> #[trigger] suffix[j] == s[p + j]);
    if k == 7 {
        assert(suffix =~= d);
        assert(s.len() == p + d.len());
        assert(forall|j: int| 0 <= j < d.len() ==> s[p + j] == d[j]);
        assert(forall|i: int| p <= i < s.len() ==> is_hex_digit(#[trigger] s[i])) by {
            assert(forall|i: int|
                p <= i < s.len() ==> #[trigger] s[i] == d[i - p] && is_hex_digit(d[i - p]));
        }
        lemma_ipv4_at_no_dot(s, p);
        lemma_hex_run_end_is(s, p, s.len() as int);
        assert(s.subrange(p, p + d.len()) =~= d);
        assert(group_at(s, p) == Some((v6_group(v as nat, 7), s.len() as int)));
        assert(groups_at(s, p, true) == Some(seq![v6_group(v as nat, 7)]));
        assert(seq![v6_group(v as nat, 7)] =~= tail_groups(v as nat, 7));
    } else {
        let rest = render_v6_from(v as nat, (k + 1) as nat);
        assert(suffix == d + seq![':'] + rest);
        let q = p + d.len() + 1;
        assert(s.len() == p + d.len() + 1 + rest.len());
        assert forall|j: int| 0 <= j < d.len() implies #[trigger] s[p + j] == d[j] by {
            assert(suffix[j] == d[j]);
            assert(suffix[j] == s[p + j]);
        };
        assert(s[p + d.len()] == ':') by {
            assert(suffix[d.len() as int] == ':');
            assert(suffix[d.len() as int] == s[p + d.len()]);
        }
        assert(s.skip(q) =~= rest) by {
            assert forall|j: int| 0 <= j < s.len() - q implies #[trigger] s.skip(q)[j] == rest[j]
            by {
                assert(s.skip(q)[j] == s[q + j]);
                assert(suffix[d.len() + 1 + j] == s[q + j]);
                assert(suffix[d.len() + 1 + j] == rest[j]);
            };
        }
        lemma_v6_suffix(v, k + 1, s, q);
        // character classes across the segment, the colon, and the rest
        assert forall|i: int| p <= i < p + d.len() implies is_hex_digit(#[trigger] s[i]) by {
            assert(s[p + (i - p)] == d[i - p]);
            assert(is_hex_digit(d[i - p]));
        };
        assert(forall|i: int| p <= i < s.len() ==> is_hex_digit(#[trigger] s[i]) || s[i] == ':');
        assert(forall|i: int| p <= i < s.len() ==> s[i] != '.');
        assert(forall|i: int|
            p <= i && i + 1 < s.len() ==> !(#[trigger] s[i] == ':' && s[i + 1] == ':')) by {
            assert(is_hex_digit(s[q]));
            assert(forall|i: int|
                p <= i < p + d.len() ==> is_hex_digit(#[trigger] s[i]) && s[i] != ':');
        }
        // the group parses and the tail follows
        lemma_ipv4_at_no_dot(s, p);
        lemma_hex_run_end_is(s, p, p + d.len());
        assert(s.subrange(p, p + d.len()) =~= d);
        assert(group_at(s, p) == Some((v6_group(v as nat, k), p + d.len())));
        assert(groups_at(s, p, true) == Some(
            seq![v6_group(v as nat, k)] + tail_groups(v as nat, k + 1),
        ));
        assert(seq![v6_group(v as nat, k)] + tail_groups(v as nat, k + 1) =~= tail_groups(
            v as nat,
            k,
        ));
    }
}

/// Text without adjacent colons holds no gap marker.
proof fn lemma_find_cc_none(s: Seq<char>, i: int)
    requires
        0 <= i,
        forall|j: int| 0 <= j && j + 1 < s.len() ==> !(#[trigger] s[j] == ':' && s[j + 1] == ':'),
    ensures
        find_cc(s, i) is None,
    decreases s.len() - i,
{
    if i + 1 < s.len() {
        lemma_find_cc_none(s, i + 1);
    }
}

/// The value the first `k` groups accumulate.
proof fn lemma_groups_value_prefix(v: u128, k: int)
    requires
        0 <= k <= 8,
    ensures
        groups_value(Seq::new(k as nat, |m: int| v6_group(v as nat, m))) == (v as nat)
            / pow65536((8 - k) as nat),
    decreases k,
{
    let vn = v as nat;
    if k == 0 {
        lemma_pow65536_values();
        vstd::arithmetic::div_mod::lemma_basic_div(vn as int, pow65536(8) as int);
        assert(Seq::new(0, |m: int| v6_group(vn, m)) =~= Seq::<u16>::empty());
    } else {
        lemma_groups_value_prefix(v, k - 1);
        let cur = Seq::new(k as nat, |m: int| v6_group(vn, m));
        let prev = Seq::new((k - 1) as nat, |m: int| v6_group(vn, m));
        assert(cur.drop_last() =~= prev);
        assert(cur.last() == v6_group(vn, k - 1));
        let a = pow65536((8 - k) as nat);
        lemma_pow65536_pos((8 - k) as nat);
        let w = vn / a;
        assert(pow65536((9 - k) as nat) == 0x10000 * a);
        vstd::arithmetic::div_mod::lemma_div_denominator(vn as int, a as int, 0x10000);
        vstd::arithmetic::div_mod::lemma_fundamental_div_mod(w as int, 0x10000);
        assert(a * 0x10000 == 0x10000 * a) by (nonlinear_arith);
        assert(w == 0x10000 * (vn / pow65536((9 - k) as nat)) + w % 0x10000);
        assert(groups_value(cur) == (0x10000 * groups_value(prev) + v6_group(vn, k - 1)) as nat);
        assert(v6_group(vn, k - 1) as nat == (vn / pow65536((7 - (k - 1)) as nat)) % 0x10000);
    }
}

/// An eight-group rendering parses back to the value it renders.
pub proof fn lemma_render_v6_round_trip(v: u128)
    ensures
        spec_ipv6(render_v6(v as nat)) == Some(v),
{
    let s = render_v6(v as nat);
    assert(s.skip(0) =~= s);
    lemma_v6_suffix(v, 0, s, 0);
    lemma_find_cc_none(s, 0);
    assert(tail_groups(v as nat, 0).len() == 8);
    lemma_groups_value_prefix(v, 8);
    assert(tail_groups(v as nat, 0) =~= Seq::new(8, |m: int| v6_group(v as nat, m)));
    lemma_pow65536_values();
    assert(pow65536(0) == 1);
    assert((v as nat) / 1 == v as nat) by {
        vstd::arithmetic::div_mod::lemma_fundamental_div_mod(v as int, 1);
    }
}


/// Pins the first colon: none up to `k`, then a colon or the end.
proof fn lemma_colon_end_is(s: Seq<char>, i: int, k: int)
    requires
        0 <= i <= k <= s.len(),
        forall|j: int| i <= j < k ==> s[j] != ':',
        k == s.len() || s[k] == ':',
    ensures
        colon_end(s, i) == k,
    decreases k - i,
{
    if i < k {
        lemma_colon_end_is(s, i + 1, k);
    }
}

/// The characters of a dotted-quad rendering: digits and dots.
proof fn lemma_render_v4_chars(v: u32)
    ensures
        forall|i: int|
            0 <= i < render_v4(v as nat).len() ==> is_digit(#[trigger] render_v4(v as nat)[i])
                || render_v4(v as nat)[i] == '.',
{
    let o1 = (v as nat) / 0x1000000;
    let o2 = ((v as nat) / 0x10000) % 256;
    let o3 = ((v as nat) / 0x100) % 256;
    let o4 = (v as nat) % 256;
    crate::text::lemma_dec_str_digits(o1);
    crate::text::lemma_dec_str_digits(o2);
    crate::text::lemma_dec_str_digits(o3);
    crate::text::lemma_dec_str_digits(o4);
    let s = render_v4(v as nat);
    let d1 = crate::text::dec_str(o1);
    let d2 = crate::text::dec_str(o2);
    let d3 = crate::text::dec_str(o3);
    let d4 = crate::text::dec_str(o4);
    assert forall|i: int| 0 <= i < s.len() implies is_digit(#[trigger] s[i]) || s[i] == '.' by {
        let p1 = d1.len() as int;
        let p2 = p1 + 1 + d2.len();
        let p3 = p2 + 1 + d3.len();
        if i < p1 {
            assert(s[i] == d1[i]);
        } else if i == p1 {
            assert(s[i] == '.');
        } else if i < p2 {
            assert(s[i] == d2[i - p1 - 1]);
        } else if i == p2 {
            assert(s[i] == '.');
        } else if i < p3 {
            assert(s[i] == d3[i - p2 - 1]);
        } else if i == p3 {
            assert(s[i] == '.');
        } else {
            assert(s[i] == d4[i - p3 - 1]);
        }
    };
}

/// A rendered IPv4 address re-parses, as a bare word, to the same
/// address with port 0.
pub proof fn lemma_render_sock_v4(v: u32)
    ensures
        spec_sock(render_v4(v as nat)) == Some(SockAddr { ip: Ip::V4(v), port: 0 }),
{
    let s = render_v4(v as nat);
    lemma_render_v4_chars(v);
    lemma_render_v4_round_trip(v);
    assert(forall|j: int| 0 <= j < s.len() ==> #[trigger] s[j] != ':');
    lemma_colon_end_is(s, 0, s.len() as int);
    assert(s.len() > 0) by {
        crate::text::lemma_dec_str_digits((v as nat) / 0x1000000);
    }
    assert(s[0] != '[');
}

/// A rendered IPv6 address re-parses, as a bare word, to the same
/// address with port 0.
pub proof fn lemma_render_sock_v6(v: u128)
    ensures
        spec_sock(render_v6(v as nat)) == Some(SockAddr { ip: Ip::V6(v), port: 0 }),
{
    let s = render_v6(v as nat);
    assert(s.skip(0) =~= s);
    lemma_v6_suffix(v, 0, s, 0);
    lemma_render_v6_round_trip(v);
    let g = v6_group(v as nat, 0) as nat;
    let d = crate::text::hex_str(g);
    crate::text::lemma_hex_str_digits(g);
    // the first colon ends the first hex group
    let rest = render_v6_from(v as nat, 1);
    assert(s == d + seq![':'] + rest);
    assert forall|j: int| 0 <= j < d.len() implies #[trigger] s[j] != ':' by {
        assert(s[j] == d[j]);
        assert(is_hex_digit(d[j]));
    };
    assert(s[d.len() as int] == ':');
    lemma_colon_end_is(s, 0, d.len() as int);
    let c = d.len() as int;
    // the text before the colon is a hex group, never a dotted quad
    assert(s.subrange(0, c) =~= d);
    assert(forall|j: int| 0 <= j < d.len() ==> #[trigger] d[j] != '.');
    lemma_ipv4_at_no_dot(d, 0);
    assert(spec_ipv4(s.subrange(0, c)) is None);
    // the whole text holds no dot either, so it is no dotted quad
    lemma_ipv4_at_no_dot(s, 0);
    assert(spec_ipv4(s) is None);
    assert(s[0] != '[') by {
        assert(is_hex_digit(s[0]));
    }
}

} // verus!
