//! Character-level helpers shared by the lexer, the address parser and
//! the program emitter: ASCII whitespace, decimal and hexadecimal digit
//! runs, and decimal rendering of counters.

use vstd::prelude::*;
use vstd::std_specs::iter::IteratorSpec;

verus! {

/// ASCII whitespace: space, tab, newline, form feed, carriage return.
pub open spec fn is_ws(c: char) -> bool {
    c == ' ' || c == '\t' || c == '\n' || c == '\u{c}' || c == '\r'
}

/// ASCII whitespace other than newline: a token separator.
pub open spec fn is_ws_not_nl(c: char) -> bool {
    is_ws(c) && c != '\n'
}

pub fn ws(c: char) -> (r: bool)
    ensures
        r == is_ws(c),
{
    c == ' ' || c == '\t' || c == '\n' || c == '\u{c}' || c == '\r'
}

pub fn ws_not_nl(c: char) -> (r: bool)
    ensures
        r == is_ws_not_nl(c),
{
    ws(c) && c != '\n'
}

pub open spec fn is_digit(c: char) -> bool {
    48 <= c as u32 <= 57
}

pub open spec fn digit_val(c: char) -> nat {
    (c as u32 - 48) as nat
}

pub fn digit(c: char) -> (r: bool)
    ensures
        r == is_digit(c),
{
    let u = c as u32;
    48 <= u && u <= 57
}

pub open spec fn is_hex_digit(c: char) -> bool {
    is_digit(c) || (97 <= c as u32 <= 102) || (65 <= c as u32 <= 70)
}

pub open spec fn hex_val(c: char) -> nat {
    if is_digit(c) {
        digit_val(c)
    } else if 97 <= c as u32 <= 102 {
        (c as u32 - 87) as nat
    } else {
        (c as u32 - 55) as nat
    }
}

pub fn hex_digit(c: char) -> (r: bool)
    ensures
        r == is_hex_digit(c),
{
    let u = c as u32;
    (48 <= u && u <= 57) || (97 <= u && u <= 102) || (65 <= u && u <= 70)
}

/// The value of a run of decimal digits, most significant first.
pub open spec fn dec_value(s: Seq<char>) -> nat
    decreases s.len(),
{
    if s.len() == 0 {
        0
    } else {
        (10 * dec_value(s.drop_last()) + digit_val(s.last())) as nat
    }
}

pub open spec fn all_digits(s: Seq<char>) -> bool {
    forall|i: int| 0 <= i < s.len() ==> is_digit(#[trigger] s[i])
}

/// The value of a run of hexadecimal digits, most significant first.
pub open spec fn hex_value(s: Seq<char>) -> nat
    decreases s.len(),
{
    if s.len() == 0 {
        0
    } else {
        (16 * hex_value(s.drop_last()) + hex_val(s.last())) as nat
    }
}

pub open spec fn all_hex(s: Seq<char>) -> bool {
    forall|i: int| 0 <= i < s.len() ==> is_hex_digit(#[trigger] s[i])
}

pub open spec fn pow10(n: nat) -> nat
    decreases n,
{
    if n == 0 {
        1
    } else {
        10 * pow10((n - 1) as nat)
    }
}

pub open spec fn pow16(n: nat) -> nat
    decreases n,
{
    if n == 0 {
        1
    } else {
        16 * pow16((n - 1) as nat)
    }
}

pub proof fn lemma_dec_value_bound(s: Seq<char>)
    requires
        all_digits(s),
    ensures
        dec_value(s) < pow10(s.len()),
    decreases s.len(),
{
    if s.len() > 0 {
        assert(all_digits(s.drop_last())) by {
            assert(forall|i: int|
                0 <= i < s.len() - 1 ==> #[trigger] s.drop_last()[i] == s[i]);
        }
        lemma_dec_value_bound(s.drop_last());
        assert(digit_val(s.last()) <= 9);
    }
}

pub proof fn lemma_hex_value_bound(s: Seq<char>)
    requires
        all_hex(s),
    ensures
        hex_value(s) < pow16(s.len()),
    decreases s.len(),
{
    if s.len() > 0 {
        assert(all_hex(s.drop_last())) by {
            assert(forall|i: int| 0 <= i < s.len() - 1 ==> #[trigger] s.drop_last()[i] == s[i]);
        }
        lemma_hex_value_bound(s.drop_last());
        assert(hex_val(s.last()) <= 15);
    }
}

/// A digit run's value only grows as the run extends.
pub proof fn lemma_dec_value_prefix(t: Seq<char>, u: Seq<char>)
    ensures
        dec_value(t) <= dec_value(t + u),
    decreases u.len(),
{
    if u.len() == 0 {
        assert(t + u =~= t);
    } else {
        assert((t + u).drop_last() =~= t + u.drop_last());
        lemma_dec_value_prefix(t, u.drop_last());
    }
}

/// First index at or after `i` that is not a decimal digit.
pub open spec fn dec_run_end(s: Seq<char>, i: int) -> int
    decreases s.len() - i,
{
    if i < 0 || i >= s.len() || !is_digit(s[i]) {
        i
    } else {
        dec_run_end(s, i + 1)
    }
}

pub proof fn lemma_dec_run_end(s: Seq<char>, i: int)
    requires
        0 <= i <= s.len(),
    ensures
        i <= dec_run_end(s, i) <= s.len(),
        forall|k: int| i <= k < dec_run_end(s, i) ==> is_digit(#[trigger] s[k]),
        dec_run_end(s, i) < s.len() ==> !is_digit(s[dec_run_end(s, i)]),
    decreases s.len() - i,
{
    if i < s.len() && is_digit(s[i]) {
        lemma_dec_run_end(s, i + 1);
    }
}

/// First index at or after `i` that is not a hexadecimal digit.
pub open spec fn hex_run_end(s: Seq<char>, i: int) -> int
    decreases s.len() - i,
{
    if i < 0 || i >= s.len() || !is_hex_digit(s[i]) {
        i
    } else {
        hex_run_end(s, i + 1)
    }
}

pub proof fn lemma_hex_run_end(s: Seq<char>, i: int)
    requires
        0 <= i <= s.len(),
    ensures
        i <= hex_run_end(s, i) <= s.len(),
        forall|k: int| i <= k < hex_run_end(s, i) ==> is_hex_digit(#[trigger] s[k]),
        hex_run_end(s, i) < s.len() ==> !is_hex_digit(s[hex_run_end(s, i)]),
    decreases s.len() - i,
{
    if i < s.len() && is_hex_digit(s[i]) {
        lemma_hex_run_end(s, i + 1);
    }
}

pub fn dec_run_end_exec(s: &Vec<char>, i: usize) -> (r: usize)
    requires
        i <= s.len(),
    ensures
        r == dec_run_end(s@, i as int),
{
    let mut j: usize = i;
    while j < s.len() && digit(s[j])
        invariant
            i <= j <= s.len(),
            dec_run_end(s@, i as int) == dec_run_end(s@, j as int),
        decreases s.len() - j,
    {
        j = j + 1;
    }
    j
}

pub fn hex_run_end_exec(s: &Vec<char>, i: usize) -> (r: usize)
    requires
        i <= s.len(),
    ensures
        r == hex_run_end(s@, i as int),
{
    let mut j: usize = i;
    while j < s.len() && hex_digit(s[j])
        invariant
            i <= j <= s.len(),
            hex_run_end(s@, i as int) == hex_run_end(s@, j as int),
        decreases s.len() - j,
    {
        j = j + 1;
    }
    j
}

/// Value of the digits in `[i, j)`, for short runs that cannot overflow.
pub fn dec_value_small(s: &Vec<char>, i: usize, j: usize) -> (r: u32)
    requires
        i <= j <= s.len(),
        j - i <= 9,
        forall|k: int| i <= k < j ==> is_digit(#[trigger] s@[k]),
    ensures
        r == dec_value(s@.subrange(i as int, j as int)),
{
    let mut acc: u32 = 0;
    let mut k: usize = i;
    while k < j
        invariant
            i <= k <= j <= s.len(),
            j - i <= 9,
            forall|m: int| i <= m < j ==> is_digit(#[trigger] s@[m]),
            acc == dec_value(s@.subrange(i as int, k as int)),
            acc < pow10((k - i) as nat),
        decreases j - k,
    {
        proof {
            let pre = s@.subrange(i as int, k as int);
            let post = s@.subrange(i as int, k + 1);
            assert(post.drop_last() =~= pre);
            assert(post.last() == s@[k as int]);
            lemma_pow10_values();
            assert(all_digits(post));
            lemma_dec_value_bound(post);
            pow10_monotonic(((k + 1) - i) as nat, 9);
        }
        acc = acc * 10 + (s[k] as u32 - 48);
        k = k + 1;
    }
    acc
}

/// Value of the digits in `[i, j)` if it fits a port number.  Returns
/// `None` exactly when the run's value exceeds 65535.
pub fn dec_value_port(s: &Vec<char>, i: usize, j: usize) -> (r: Option<u16>)
    requires
        i <= j <= s.len(),
        forall|k: int| i <= k < j ==> is_digit(#[trigger] s@[k]),
    ensures
        match r {
            Some(v) => dec_value(s@.subrange(i as int, j as int)) == v,
            None => dec_value(s@.subrange(i as int, j as int)) > 65535,
        },
{
    let mut acc: u32 = 0;
    let mut k: usize = i;
    while k < j
        invariant
            i <= k <= j <= s.len(),
            forall|m: int| i <= m < j ==> is_digit(#[trigger] s@[m]),
            acc == dec_value(s@.subrange(i as int, k as int)),
            acc <= 65535,
        decreases j - k,
    {
        proof {
            let pre = s@.subrange(i as int, k as int);
            let post = s@.subrange(i as int, k + 1);
            assert(post.drop_last() =~= pre);
            assert(post.last() == s@[k as int]);
        }
        acc = acc * 10 + (s[k] as u32 - 48);
        if acc > 65535 {
            proof {
                let post = s@.subrange(i as int, k + 1);
                let whole = s@.subrange(i as int, j as int);
                let tail = s@.subrange(k + 1, j as int);
                assert(whole =~= post + tail);
                lemma_dec_value_prefix(post, tail);
            }
            return None;
        }
        k = k + 1;
    }
    Some(acc as u16)
}

pub proof fn lemma_pow10_values()
    ensures
        pow10(2) == 100,
        pow10(3) == 1000,
        pow10(4) == 10000,
        pow10(5) == 100000,
        pow10(9) == 1000000000,
    decreases 0nat,
{
    assert(pow10(0) == 1);
    assert(pow10(1) == 10);
    assert(pow10(2) == 100);
    assert(pow10(3) == 1000);
    assert(pow10(4) == 10000);
    assert(pow10(5) == 100000);
    assert(pow10(6) == 1000000);
    assert(pow10(7) == 10000000);
    assert(pow10(8) == 100000000);
    assert(pow10(9) == 1000000000);
}

proof fn pow10_monotonic(a: nat, b: nat)
    requires
        a <= b,
    ensures
        pow10(a) <= pow10(b),
    decreases b,
{
    if a < b && b > 0 {
        pow10_monotonic(a, (b - 1) as nat);
        lemma_pow10_pos((b - 1) as nat);
    }
}

pub proof fn lemma_pow10_pos(n: nat)
    ensures
        pow10(n) >= 1,
    decreases n,
{
    if n > 0 {
        lemma_pow10_pos((n - 1) as nat);
    }
}

pub proof fn lemma_pow16_values()
    ensures
        pow16(4) == 0x10000,
{
    assert(pow16(0) == 1);
    assert(pow16(1) == 16);
    assert(pow16(2) == 0x100);
    assert(pow16(3) == 0x1000);
    assert(pow16(4) == 0x10000);
}

/// Value of the hex digits in `[i, j)`, for runs of at most four digits.
pub fn hex_value_small(s: &Vec<char>, i: usize, j: usize) -> (r: u16)
    requires
        i <= j <= s.len(),
        j - i <= 4,
        forall|k: int| i <= k < j ==> is_hex_digit(#[trigger] s@[k]),
    ensures
        r == hex_value(s@.subrange(i as int, j as int)),
{
    let mut acc: u32 = 0;
    let mut k: usize = i;
    while k < j
        invariant
            i <= k <= j <= s.len(),
            j - i <= 4,
            forall|m: int| i <= m < j ==> is_hex_digit(#[trigger] s@[m]),
            acc == hex_value(s@.subrange(i as int, k as int)),
            acc < pow16((k - i) as nat),
        decreases j - k,
    {
        proof {
            let pre = s@.subrange(i as int, k as int);
            let post = s@.subrange(i as int, k + 1);
            assert(post.drop_last() =~= pre);
            assert(post.last() == s@[k as int]);
            lemma_pow16_values();
            assert(all_hex(post));
            lemma_hex_value_bound(post);
            pow16_monotonic(((k + 1) - i) as nat, 4);
        }
        let c = s[k];
        let u = c as u32;
        let d: u32 = if 48 <= u && u <= 57 {
            u - 48
        } else if 97 <= u && u <= 102 {
            u - 87
        } else {
            u - 55
        };
        acc = acc * 16 + d;
        k = k + 1;
    }
    proof {
        lemma_pow16_values();
        pow16_monotonic(((j - i)) as nat, 4);
    }
    acc as u16
}

proof fn pow16_monotonic(a: nat, b: nat)
    requires
        a <= b,
    ensures
        pow16(a) <= pow16(b),
    decreases b,
{
    if a < b && b > 0 {
        pow16_monotonic(a, (b - 1) as nat);
        lemma_pow16_pos((b - 1) as nat);
    }
}

pub proof fn lemma_pow16_pos(n: nat)
    ensures
        pow16(n) >= 1,
    decreases n,
{
    if n > 0 {
        lemma_pow16_pos((n - 1) as nat);
    }
}

/// The character of one decimal digit.
pub open spec fn digit_char(d: nat) -> char {
    ((48 + d) as u8) as char
}

/// The decimal rendering of `n`, without a sign and without leading
/// zeros (a single `'0'` for zero).
pub open spec fn dec_str(n: nat) -> Seq<char>
    decreases n,
{
    if n < 10 {
        seq![digit_char(n)]
    } else {
        dec_str(n / 10) + seq![digit_char(n % 10)]
    }
}

pub proof fn lemma_dec_str_digits(n: nat)
    ensures
        dec_str(n).len() >= 1,
        all_digits(dec_str(n)),
        dec_value(dec_str(n)) == n,
    decreases n,
{
    if n < 10 {
        assert(dec_str(n) =~= seq![digit_char(n)]);
        assert(is_digit(digit_char(n)));
        assert(dec_value(dec_str(n).drop_last()) == 0) by {
            assert(dec_str(n).drop_last() =~= Seq::<char>::empty());
        }
    } else {
        lemma_dec_str_digits(n / 10);
        let s = dec_str(n);
        assert(s.drop_last() =~= dec_str(n / 10));
        assert(s.last() == digit_char(n % 10));
        assert(is_digit(digit_char(n % 10)));
        assert(all_digits(s)) by {
            assert(forall|i: int|
                0 <= i < s.len() - 1 ==> #[trigger] s[i] == dec_str(n / 10)[i]);
        }
        assert(dec_value(s) == 10 * (n / 10) + (n % 10));
    }
}

/// Converts one digit to the text of that digit.
fn digit_str(d: u32) -> (r: &'static str)
    requires
        d < 10,
    ensures
        r@ == seq![digit_char(d as nat)],
{
    proof {
        reveal_strlit("0");
        reveal_strlit("1");
        reveal_strlit("2");
        reveal_strlit("3");
        reveal_strlit("4");
        reveal_strlit("5");
        reveal_strlit("6");
        reveal_strlit("7");
        reveal_strlit("8");
        reveal_strlit("9");
    }
    match d {
        0 => "0",
        1 => "1",
        2 => "2",
        3 => "3",
        4 => "4",
        5 => "5",
        6 => "6",
        7 => "7",
        8 => "8",
        _ => "9",
    }
}

/// Renders `n` in decimal.
pub fn u32_to_string(n: u32) -> (r: String)
    ensures
        r@ == dec_str(n as nat),
    decreases n,
{
    if n < 10 {
        String::from_str(digit_str(n))
    } else {
        let mut s = u32_to_string(n / 10);
        s.append(digit_str(n % 10));
        s
    }
}

/// Renders `n` in decimal.
pub fn usize_to_string(n: usize) -> (r: String)
    ensures
        r@ == dec_str(n as nat),
    decreases n,
{
    if n < 10 {
        String::from_str(digit_str(n as u32))
    } else {
        let mut s = usize_to_string(n / 10);
        s.append(digit_str((n % 10) as u32));
        s
    }
}

/// Renders `n` in decimal as characters.
pub fn dec_chars(n: u32) -> (r: Vec<char>)
    ensures
        r@ == dec_str(n as nat),
    decreases n,
{
    if n < 10 {
        let c: char = (48 + n as u8) as char;
        let mut v: Vec<char> = Vec::new();
        v.push(c);
        proof {
            assert(v@ =~= seq![digit_char(n as nat)]);
        }
        v
    } else {
        let mut v = dec_chars(n / 10);
        let d: u32 = n % 10;
        let c: char = (48 + d as u8) as char;
        v.push(c);
        proof {
            assert(v@ =~= dec_str((n / 10) as nat) + seq![digit_char((n % 10) as nat)]);
        }
        v
    }
}

/// Collects the characters of a string slice.
pub fn str_to_chars(s: &str) -> (r: Vec<char>)
    ensures
        r@ == s@,
{
    broadcast use vstd::string::next_postcondition;
    broadcast use vstd::string::axiom_spec_iter;

    let mut v: Vec<char> = Vec::new();
    let mut it = s.chars();
    loop
        invariant
            v@ + it.remaining() == s@,
            it.decrease() is Some,
        ensures
            v@ == s@,
        decreases it.decrease()->0,
    {
        let ghost pre = it.remaining();
        match it.next() {
            Some(c) => {
                proof {
                    assert(pre.len() > 0);
                    assert(v@ + pre =~= (v@ + seq![c]) + pre.drop_first());
                }
                v.push(c);
            },
            None => {
                proof {
                    assert(pre.len() == 0);
                    assert(v@ + pre =~= v@);
                }
                break ;
            },
        }
    }
    v
}

/// Relies on `String::from_iter` (via `Iterator::collect` on `char`s):
/// the collected string holds exactly the characters of the vector.
#[verifier::external_body]
pub fn chars_to_string(v: &Vec<char>) -> (r: String)
    ensures
        r@ == v@,
{
    v.iter().collect()
}

/// Element-wise equality of two character vectors.
pub fn chars_eq(a: &Vec<char>, b: &Vec<char>) -> (r: bool)
    ensures
        r == (a@ == b@),
{
    if a.len() != b.len() {
        return false;
    }
    let mut i: usize = 0;
    while i < a.len()
        invariant
            i <= a.len(),
            a.len() == b.len(),
            forall|k: int| 0 <= k < i ==> a@[k] == b@[k],
        decreases a.len() - i,
    {
        if a[i] != b[i] {
            return false;
        }
        i = i + 1;
    }
    proof {
        assert(a@ =~= b@);
    }
    true
}

/// Does the vector hold exactly the characters of `s`?
pub fn chars_eq_str(a: &Vec<char>, s: &str) -> (r: bool)
    ensures
        r == (a@ == s@),
{
    let b = str_to_chars(s);
    chars_eq(a, &b)
}

/// Lowercases one ASCII letter; leaves every other character alone.
pub open spec fn lower_char(c: char) -> char {
    if 65 <= c as u32 <= 90 {
        ((c as u32 + 32) as u8) as char
    } else {
        c
    }
}

pub open spec fn lower(s: Seq<char>) -> Seq<char> {
    s.map_values(|c: char| lower_char(c))
}

/// ASCII-lowercases a word.
pub fn to_lower(a: &Vec<char>) -> (r: Vec<char>)
    ensures
        r@ == lower(a@),
{
    let mut v: Vec<char> = Vec::new();
    let mut i: usize = 0;
    while i < a.len()
        invariant
            i <= a.len(),
            v@ =~= a@.subrange(0, i as int).map_values(|c: char| lower_char(c)),
        decreases a.len() - i,
    {
        let c = a[i];
        let u = c as u32;
        let lc: char = if 65 <= u && u <= 90 {
            ((u + 32) as u8) as char
        } else {
            c
        };
        proof {
            assert(a@.subrange(0, i + 1).map_values(|c: char| lower_char(c)) =~= a@.subrange(
                0,
                i as int,
            ).map_values(|c: char| lower_char(c)) + seq![lower_char(a@[i as int])]);
        }
        v.push(lc);
        i = i + 1;
    }
    proof {
        assert(a@.subrange(0, a@.len() as int) =~= a@);
    }
    v
}


/// The character of one hexadecimal digit, lowercase.
pub open spec fn hex_char(d: nat) -> char {
    if d < 10 {
        digit_char(d)
    } else {
        ((87 + d) as u8) as char
    }
}

/// The lowercase hexadecimal rendering of `n`, without leading zeros
/// (a single `'0'` for zero).
pub open spec fn hex_str(n: nat) -> Seq<char>
    decreases n,
{
    if n < 16 {
        seq![hex_char(n)]
    } else {
        hex_str(n / 16) + seq![hex_char(n % 16)]
    }
}

pub proof fn lemma_hex_str_digits(n: nat)
    ensures
        hex_str(n).len() >= 1,
        all_hex(hex_str(n)),
        hex_value(hex_str(n)) == n,
    decreases n,
{
    if n < 16 {
        assert(hex_str(n) =~= seq![hex_char(n)]);
        assert(is_hex_digit(hex_char(n)));
        assert(hex_value(hex_str(n).drop_last()) == 0) by {
            assert(hex_str(n).drop_last() =~= Seq::<char>::empty());
        }
        assert(hex_val(hex_char(n)) == n);
    } else {
        lemma_hex_str_digits(n / 16);
        let s = hex_str(n);
        assert(s.drop_last() =~= hex_str(n / 16));
        assert(s.last() == hex_char(n % 16));
        assert(is_hex_digit(hex_char(n % 16)));
        assert(hex_val(hex_char(n % 16)) == n % 16);
        assert(all_hex(s)) by {
            assert(forall|i: int|
                0 <= i < s.len() - 1 ==> #[trigger] s[i] == hex_str(n / 16)[i]);
        }
        assert(hex_value(s) == 16 * (n / 16) + (n % 16));
    }
}

fn hex_digit_char(d: u16) -> (r: char)
    requires
        d < 16,
    ensures
        r == hex_char(d as nat),
{
    if d < 10 {
        (48 + d as u8) as char
    } else {
        (87 + d as u8) as char
    }
}

/// Renders `n` in lowercase hexadecimal as characters.
pub fn hex_chars(n: u16) -> (r: Vec<char>)
    ensures
        r@ == hex_str(n as nat),
    decreases n,
{
    if n < 16 {
        let mut v: Vec<char> = Vec::new();
        v.push(hex_digit_char(n));
        proof {
            assert(v@ =~= seq![hex_char(n as nat)]);
        }
        v
    } else {
        let mut v = hex_chars(n / 16);
        v.push(hex_digit_char(n % 16));
        proof {
            assert(v@ =~= hex_str((n / 16) as nat) + seq![hex_char((n % 16) as nat)]);
        }
        v
    }
}

} // verus!
