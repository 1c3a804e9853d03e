use vstd::prelude::*;
use crate::addr::{
    dec_octet, double_colon_at, first_double_colon, groups_value, hex_group, hex_groups, ip_of,
    ipv4_of, ipv6_groups, tail_groups, IpAddr,
};
use crate::record::{parse_record, IpRange, IpRangeView};
use crate::text::{
    digits_below, digits_value, hex_digit_value, is_dec_digit, is_white_space, lemma_split_nonempty,
    split_on, trim, trim_end, trim_start, u32_of, unsigned_digits,
};

verus! {

/// No character of `s` is `c`.
pub open spec fn free_of(s: Seq<char>, c: char) -> bool {
    forall|i: int| 0 <= i < s.len() ==> s[i] != c
}

/// The pieces `parts` written one after another with `sep` between each two.
pub open spec fn join(parts: Seq<Seq<char>>, sep: char) -> Seq<char>
    decreases parts.len(),
{
    if parts.len() == 0 {
        Seq::empty()
    } else if parts.len() == 1 {
        parts[0]
    } else {
        join(parts.drop_last(), sep).push(sep) + parts.last()
    }
}

proof fn lemma_split_single(b: Seq<char>, sep: char)
    requires
        free_of(b, sep),
    ensures
        split_on(b, sep) == seq![b],
    decreases b.len(),
{
    if b.len() == 0 {
        assert(b =~= Seq::<char>::empty());
    } else {
        let b2 = b.drop_last();
        assert(free_of(b2, sep)) by {
            assert forall|i: int| 0 <= i < b2.len() implies b2[i] != sep by {
                assert(b2[i] == b[i]);
            }
        }
        lemma_split_single(b2, sep);
        assert(b2.push(b.last()) =~= b);
        assert(seq![b2].update(0, b2.push(b.last())) =~= seq![b]);
    }
}

proof fn lemma_split_after_sep(x: Seq<char>, b: Seq<char>, sep: char)
    requires
        free_of(b, sep),
    ensures
        split_on(x.push(sep) + b, sep) == split_on(x, sep).push(b),
    decreases b.len(),
{
    if b.len() == 0 {
        assert(x.push(sep) + b =~= x.push(sep));
        assert(x.push(sep).drop_last() =~= x);
        assert(b =~= Seq::<char>::empty());
    } else {
        let b2 = b.drop_last();
        assert(free_of(b2, sep)) by {
            assert forall|i: int| 0 <= i < b2.len() implies b2[i] != sep by {
                assert(b2[i] == b[i]);
            }
        }
        lemma_split_after_sep(x, b2, sep);
        let y = x.push(sep) + b;
        assert(y.drop_last() =~= x.push(sep) + b2);
        assert(y.last() == b.last());
        let p = split_on(x, sep).push(b2);
        assert(b2.push(b.last()) =~= b);
        assert(p.update(p.len() - 1, p.last().push(b.last())) =~= split_on(x, sep).push(b));
    }
}

/// Splitting the join of pieces that hold no separator gives the pieces back.
pub proof fn lemma_split_join(parts: Seq<Seq<char>>, sep: char)
    requires
        parts.len() >= 1,
        forall|k: int| 0 <= k < parts.len() ==> free_of(#[trigger] parts[k], sep),
    ensures
        split_on(join(parts, sep), sep) == parts,
    decreases parts.len(),
{
    if parts.len() == 1 {
        lemma_split_single(parts[0], sep);
        assert(seq![parts[0]] =~= parts);
    } else {
        let p = parts.drop_last();
        assert forall|k: int| 0 <= k < p.len() implies free_of(#[trigger] p[k], sep) by {
            assert(p[k] == parts[k]);
        }
        lemma_split_join(p, sep);
        assert(free_of(parts[parts.len() - 1], sep));
        lemma_split_after_sep(join(p, sep), parts.last(), sep);
        assert(p.push(parts.last()) =~= parts);
    }
}

/// The characters that a rendered address is made of.
pub open spec fn is_addr_char(c: char) -> bool {
    hex_digit_value(c) < 16 || c == '.' || c == ':'
}

pub open spec fn addr_chars(s: Seq<char>) -> bool {
    forall|i: int| 0 <= i < s.len() ==> is_addr_char(#[trigger] s[i])
}

proof fn lemma_join_addr_chars(parts: Seq<Seq<char>>, sep: char)
    requires
        is_addr_char(sep),
        forall|k: int| 0 <= k < parts.len() ==> addr_chars(#[trigger] parts[k]),
    ensures
        addr_chars(join(parts, sep)),
    decreases parts.len(),
{
    if parts.len() > 1 {
        let p = parts.drop_last();
        assert forall|k: int| 0 <= k < p.len() implies addr_chars(#[trigger] p[k]) by {
            assert(p[k] == parts[k]);
        }
        lemma_join_addr_chars(p, sep);
        assert(addr_chars(parts[parts.len() - 1]));
        let j = join(p, sep);
        let s = j.push(sep) + parts.last();
        assert forall|i: int| 0 <= i < s.len() implies is_addr_char(#[trigger] s[i]) by {
            if i < j.len() {
                assert(s[i] == j[i]);
            } else if i > j.len() {
                assert(s[i] == parts.last()[i - j.len() - 1]);
            }
        }
    } else if parts.len() == 1 {
        assert(addr_chars(parts[0]));
    }
}

proof fn lemma_addr_chars_free(s: Seq<char>, c: char)
    requires
        addr_chars(s),
        !is_addr_char(c),
    ensures
        free_of(s, c),
{
    assert forall|i: int| 0 <= i < s.len() implies s[i] != c by {
        assert(is_addr_char(s[i]));
    }
}

/// Text with no white space at all is its own trimmed form.
proof fn lemma_trim_addr_chars(s: Seq<char>)
    requires
        addr_chars(s),
    ensures
        trim(s) == s,
{
    if s.len() > 0 {
        assert(is_addr_char(s[0]));
        assert(is_addr_char(s[s.len() - 1]));
    }
}

proof fn lemma_trim_start_shape(s: Seq<char>)
    ensures
        trim_start(s).len() == 0 || !is_white_space(trim_start(s)[0]),
        forall|c: char| free_of(s, c) ==> free_of(#[trigger] trim_start(s), c),
    decreases s.len(),
{
    if s.len() > 0 && is_white_space(s[0]) {
        lemma_trim_start_shape(s.drop_first());
        assert forall|c: char| free_of(s, c) implies free_of(#[trigger] trim_start(s), c) by {
            assert(free_of(s.drop_first(), c)) by {
                assert forall|i: int| 0 <= i < s.drop_first().len() implies s.drop_first()[i]
                    != c by {
                    assert(s.drop_first()[i] == s[i + 1]);
                }
            }
        }
    }
}

proof fn lemma_trim_end_shape(s: Seq<char>)
    ensures
        trim_end(s).len() == 0 || !is_white_space(trim_end(s).last()),
        s.len() == 0 || !is_white_space(s[0]) ==> trim_end(s).len() == 0 || !is_white_space(
            trim_end(s)[0],
        ),
        forall|c: char| free_of(s, c) ==> free_of(#[trigger] trim_end(s), c),
    decreases s.len(),
{
    if s.len() > 0 && is_white_space(s.last()) {
        let t = s.drop_last();
        lemma_trim_end_shape(t);
        if s.len() > 1 {
            assert(t[0] == s[0]);
        }
        assert forall|c: char| free_of(s, c) implies free_of(#[trigger] trim_end(s), c) by {
            assert(free_of(t, c)) by {
                assert forall|i: int| 0 <= i < t.len() implies t[i] != c by {
                    assert(t[i] == s[i]);
                }
            }
        }
    }
}

/// Trimming twice is trimming once, and keeps out what the text kept out.
pub proof fn lemma_trim_idempotent(s: Seq<char>)
    ensures
        trim(trim(s)) == trim(s),
        forall|c: char| free_of(s, c) ==> free_of(#[trigger] trim(s), c),
{
    lemma_trim_start_shape(s);
    lemma_trim_end_shape(trim_start(s));
    let t = trim(s);
    if t.len() > 0 {
        assert(trim_start(t) == t);
        assert(trim_end(t) == t);
    } else {
        assert(trim_start(t) == t);
    }
}

/// The digit of value `d` below 16, lower case.
pub open spec fn digit_char(d: int) -> char {
    if d == 0 {
        '0'
    } else if d == 1 {
        '1'
    } else if d == 2 {
        '2'
    } else if d == 3 {
        '3'
    } else if d == 4 {
        '4'
    } else if d == 5 {
        '5'
    } else if d == 6 {
        '6'
    } else if d == 7 {
        '7'
    } else if d == 8 {
        '8'
    } else if d == 9 {
        '9'
    } else if d == 10 {
        'a'
    } else if d == 11 {
        'b'
    } else if d == 12 {
        'c'
    } else if d == 13 {
        'd'
    } else if d == 14 {
        'e'
    } else {
        'f'
    }
}

proof fn lemma_digit_char(d: int)
    requires
        0 <= d < 16,
    ensures
        hex_digit_value(digit_char(d)) == d,
        d < 10 ==> is_dec_digit(digit_char(d)),
        d > 0 ==> digit_char(d) != '0',
        digit_char(d) != '+',
{
}

#[via_fn]
proof fn numeral_decreases(n: nat, base: nat) {
    if n >= base && base >= 2 {
        vstd::arithmetic::div_mod::lemma_div_decreases(n as int, base as int);
    }
}

/// `n` written in base `base` without leading zeros, lower-case digits.
pub open spec fn numeral(n: nat, base: nat) -> Seq<char>
    decreases n via numeral_decreases
{
    if n < base || base < 2 {
        seq![digit_char(n as int)]
    } else {
        numeral(n / base, base).push(digit_char((n % base) as int))
    }
}

/// A numeral reads back as the number it writes, and starts with a zero only
/// when it is zero.
pub proof fn lemma_numeral(n: nat, base: nat)
    requires
        base == 10 || base == 16,
    ensures
        numeral(n, base).len() >= 1,
        digits_below(numeral(n, base), base as int),
        digits_value(numeral(n, base), base as int) == n,
        n >= 1 ==> numeral(n, base)[0] != '0',
        numeral(n, base)[0] != '+',
        addr_chars(numeral(n, base)),
    decreases n,
{
    let s = numeral(n, base);
    if n < base {
        lemma_digit_char(n as int);
        assert(s.drop_last() =~= Seq::<char>::empty());
        assert(digits_value(s.drop_last(), base as int) == 0);
        assert(digits_value(s, base as int) == 0 * base + hex_digit_value(s.last()));
    } else {
        vstd::arithmetic::div_mod::lemma_div_decreases(n as int, base as int);
        let q = n / base;
        let r = n % base;
        lemma_numeral(q, base);
        lemma_digit_char(r as int);
        let t = numeral(q, base);
        assert(s.drop_last() =~= t);
        assert(s.last() == digit_char(r as int));
        vstd::arithmetic::div_mod::lemma_fundamental_div_mod(n as int, base as int);
        assert(q * base == base * q) by (nonlinear_arith);
        assert(digits_value(s, base as int) == digits_value(t, base as int) * base + r);
        assert forall|i: int| 0 <= i < s.len() implies hex_digit_value(#[trigger] s[i]) < base by {
            if i < t.len() {
                assert(s[i] == t[i]);
            }
        }
        assert forall|i: int| 0 <= i < s.len() implies is_addr_char(#[trigger] s[i]) by {
            if i < t.len() {
                assert(s[i] == t[i]);
            }
        }
        assert(q >= 1) by {
            if q == 0 {
                assert(n == r);
            }
        }
        assert(s[0] == t[0]);
    }
}

/// A number below `base` to the power `k` takes at most `k` digits.
pub proof fn lemma_numeral_len(n: nat, base: nat, k: nat)
    requires
        base == 10 || base == 16,
        k >= 1,
        n < vstd::arithmetic::power::pow(base as int, k),
    ensures
        numeral(n, base).len() <= k,
    decreases n,
{
    reveal(vstd::arithmetic::power::pow);
    if n >= base {
        let q = n / base;
        vstd::arithmetic::div_mod::lemma_div_decreases(n as int, base as int);
        vstd::arithmetic::div_mod::lemma_fundamental_div_mod(n as int, base as int);
        vstd::arithmetic::div_mod::lemma_mod_pos_bound(n as int, base as int);
        if k == 1 {
            assert(vstd::arithmetic::power::pow(base as int, 0) == 1);
        } else {
            let p = vstd::arithmetic::power::pow(base as int, (k - 1) as nat);
            assert(q < p) by {
                if q >= p {
                    assert(base * q >= base * p) by (nonlinear_arith)
                        requires
                            q >= p,
                            base > 0,
                    ;
                }
            }
            lemma_numeral_len(q, base, (k - 1) as nat);
        }
    }
}

proof fn lemma_digits_free(s: Seq<char>, c: char)
    requires
        digits_below(s, 16),
        hex_digit_value(c) >= 16,
    ensures
        free_of(s, c),
{
    assert forall|i: int| 0 <= i < s.len() implies s[i] != c by {
        assert(hex_digit_value(s[i]) < 16);
    }
}

proof fn lemma_join_free(parts: Seq<Seq<char>>, sep: char, c: char)
    requires
        sep != c,
        forall|k: int| 0 <= k < parts.len() ==> free_of(#[trigger] parts[k], c),
    ensures
        free_of(join(parts, sep), c),
    decreases parts.len(),
{
    if parts.len() > 1 {
        let p = parts.drop_last();
        assert forall|k: int| 0 <= k < p.len() implies free_of(#[trigger] p[k], c) by {
            assert(p[k] == parts[k]);
        }
        lemma_join_free(p, sep, c);
        assert(free_of(parts[parts.len() - 1], c));
        let j = join(p, sep);
        let s = j.push(sep) + parts.last();
        assert forall|i: int| 0 <= i < s.len() implies s[i] != c by {
            if i < j.len() {
                assert(s[i] == j[i]);
            } else if i > j.len() {
                assert(s[i] == parts.last()[i - j.len() - 1]);
            }
        }
    } else if parts.len() == 1 {
        assert(free_of(parts[0], c));
    }
}

/// The join on `:` of non-empty pieces without a colon starts and ends with
/// no colon and holds no `::`.
proof fn lemma_join_no_double_colon(parts: Seq<Seq<char>>)
    requires
        parts.len() >= 1,
        forall|k: int| 0 <= k < parts.len() ==> (#[trigger] parts[k]).len() >= 1 && free_of(parts[k], ':'),
    ensures
        join(parts, ':').len() >= 1,
        join(parts, ':')[0] != ':',
        join(parts, ':').last() != ':',
        forall|k: int| !double_colon_at(join(parts, ':'), k),
    decreases parts.len(),
{
    let s = join(parts, ':');
    if parts.len() == 1 {
        assert(parts[0].len() >= 1 && free_of(parts[0], ':'));
        assert forall|k: int| !double_colon_at(s, k) by {
            if 0 <= k < s.len() {
                assert(s[k] != ':');
            }
        }
    } else {
        let p = parts.drop_last();
        assert forall|k: int| 0 <= k < p.len() implies (#[trigger] p[k]).len() >= 1 && free_of(p[k], ':') by {
            assert(p[k] == parts[k]);
        }
        lemma_join_no_double_colon(p);
        let j = join(p, ':');
        let l = parts.last();
        assert(l.len() >= 1 && free_of(l, ':'));
        assert(s == j.push(':') + l);
        assert(s[0] == j[0]);
        assert(s.last() == l.last());
        assert forall|k: int| !double_colon_at(s, k) by {
            if 0 <= k && k + 1 < s.len() {
                if k + 1 < j.len() {
                    assert(s[k] == j[k] && s[k + 1] == j[k + 1]);
                    assert(!double_colon_at(j, k));
                } else if k + 1 == j.len() {
                    assert(s[k] == j.last());
                } else if k == j.len() {
                    assert(s[k + 1] == l[0]);
                } else {
                    assert(s[k] == l[k - j.len() - 1]);
                }
            }
        }
    }
}

/// An octet written in decimal reads back as itself.
proof fn lemma_octet_round_trip(o: nat)
    requires
        o < 256,
    ensures
        dec_octet(numeral(o, 10)) == Some(o as u8),
        addr_chars(numeral(o, 10)),
        free_of(numeral(o, 10), '.'),
        free_of(numeral(o, 10), ':'),
{
    lemma_numeral(o, 10);
    reveal_with_fuel(vstd::arithmetic::power::pow, 4);
    lemma_numeral_len(o, 10, 3);
    lemma_digits_free(numeral(o, 10), '.');
    lemma_digits_free(numeral(o, 10), ':');
}

/// A group written in hexadecimal reads back as itself.
proof fn lemma_group_round_trip(g: u16)
    ensures
        hex_group(numeral(g as nat, 16)) == Some(g),
        addr_chars(numeral(g as nat, 16)),
        numeral(g as nat, 16).len() >= 1,
        free_of(numeral(g as nat, 16), '.'),
        free_of(numeral(g as nat, 16), ':'),
{
    lemma_numeral(g as nat, 16);
    reveal_with_fuel(vstd::arithmetic::power::pow, 5);
    lemma_numeral_len(g as nat, 16, 4);
    lemma_digits_free(numeral(g as nat, 16), '.');
    lemma_digits_free(numeral(g as nat, 16), ':');
}

/// The four octets of an IPv4 address, most significant first, in decimal.
pub open spec fn octet_numerals(x: u32) -> Seq<Seq<char>> {
    seq![
        numeral((x / 0x100_0000) as nat, 10),
        numeral(((x / 0x1_0000) % 0x100) as nat, 10),
        numeral(((x / 0x100) % 0x100) as nat, 10),
        numeral((x % 0x100) as nat, 10),
    ]
}

/// The groups of `x`, the last `n` base-65536 digits, most significant first.
pub open spec fn groups_of(x: int, n: nat) -> Seq<u16>
    decreases n,
{
    if n == 0 {
        Seq::empty()
    } else {
        groups_of(x / 0x1_0000, (n - 1) as nat).push((x % 0x1_0000) as u16)
    }
}

/// Each group of `gs` in hexadecimal.
pub open spec fn hex_numerals(gs: Seq<u16>) -> Seq<Seq<char>> {
    Seq::new(gs.len(), |k: int| numeral(gs[k] as nat, 16))
}

/// The eight groups of an IPv6 address in hexadecimal.
pub open spec fn group_numerals(x: u128) -> Seq<Seq<char>> {
    hex_numerals(groups_of(x as int, 8))
}

/// The text of an address: a dotted quad, or eight hexadecimal groups.
pub open spec fn addr_text(a: IpAddr) -> Seq<char> {
    match a {
        IpAddr::V4(x) => join(octet_numerals(x), '.'),
        IpAddr::V6(x) => join(group_numerals(x), ':'),
    }
}

proof fn lemma_groups_of(x: int, n: nat)
    requires
        x >= 0,
    ensures
        groups_of(x, n).len() == n,
        groups_value(groups_of(x, n)) == x % vstd::arithmetic::power::pow(0x1_0000, n),
    decreases n,
{
    reveal(vstd::arithmetic::power::pow);
    if n == 0 {
    } else {
        let p = vstd::arithmetic::power::pow(0x1_0000, (n - 1) as nat);
        vstd::arithmetic::power::lemma_pow_positive(0x1_0000, (n - 1) as nat);
        lemma_groups_of(x / 0x1_0000, (n - 1) as nat);
        let g = groups_of(x, n);
        assert(g.drop_last() =~= groups_of(x / 0x1_0000, (n - 1) as nat));
        vstd::arithmetic::div_mod::lemma_breakdown(x, 0x1_0000, p);
        assert(g.last() as int == x % 0x1_0000);
        assert(groups_value(g) == (x / 0x1_0000 % p) * 0x1_0000 + x % 0x1_0000);
        assert((x / 0x1_0000 % p) * 0x1_0000 == 0x1_0000 * (x / 0x1_0000 % p)) by (nonlinear_arith);
    }
}

proof fn lemma_hex_groups_of_numerals(gs: Seq<u16>)
    ensures
        hex_groups(hex_numerals(gs)) == Some(gs),
    decreases gs.len(),
{
    let ms = hex_numerals(gs);
    if gs.len() > 0 {
        let t = gs.drop_last();
        assert(ms.drop_last() =~= hex_numerals(t));
        lemma_hex_groups_of_numerals(t);
        lemma_group_round_trip(gs.last());
        assert(t.push(gs.last()) =~= gs);
    } else {
        assert(gs =~= Seq::<u16>::empty());
    }
}

proof fn lemma_octets_value(x: u32)
    ensures
        (x / 0x100_0000) * 0x100_0000 + ((x / 0x1_0000) % 0x100) * 0x1_0000 + ((x / 0x100) % 0x100)
            * 0x100 + x % 0x100 == x,
{
    let q1 = x / 0x100;
    let q2 = x / 0x1_0000;
    let q3 = x / 0x100_0000;
    assert(x == 0x100 * q1 + x % 0x100);
    assert(q1 / 0x100 == q2);
    assert(q1 == 0x100 * q2 + q1 % 0x100);
    assert(q2 / 0x100 == q3);
    assert(q2 == 0x100 * q3 + q2 % 0x100);
}

proof fn lemma_ipv4_round_trip(x: u32)
    ensures
        ip_of(addr_text(IpAddr::V4(x))) == Some(IpAddr::V4(x)),
        addr_chars(addr_text(IpAddr::V4(x))),
{
    let parts = octet_numerals(x);
    let o0 = (x / 0x100_0000) as nat;
    let o1 = ((x / 0x1_0000) % 0x100) as nat;
    let o2 = ((x / 0x100) % 0x100) as nat;
    let o3 = (x % 0x100) as nat;
    lemma_octet_round_trip(o0);
    lemma_octet_round_trip(o1);
    lemma_octet_round_trip(o2);
    lemma_octet_round_trip(o3);
    assert(parts[0] == numeral(o0, 10));
    assert(parts[1] == numeral(o1, 10));
    assert(parts[2] == numeral(o2, 10));
    assert(parts[3] == numeral(o3, 10));
    assert forall|k: int| 0 <= k < parts.len() implies free_of(#[trigger] parts[k], '.') by {}
    assert forall|k: int| 0 <= k < parts.len() implies addr_chars(#[trigger] parts[k]) by {}
    lemma_split_join(parts, '.');
    lemma_join_addr_chars(parts, '.');
    lemma_octets_value(x);
}

proof fn lemma_ipv6_round_trip(x: u128)
    ensures
        ip_of(addr_text(IpAddr::V6(x))) == Some(IpAddr::V6(x)),
        addr_chars(addr_text(IpAddr::V6(x))),
{
    let gs = groups_of(x as int, 8);
    let parts = group_numerals(x);
    let text = join(parts, ':');
    lemma_groups_of(x as int, 8);
    lemma_hex_groups_of_numerals(gs);
    assert forall|k: int| 0 <= k < parts.len() implies (#[trigger] parts[k]).len() >= 1
        && free_of(parts[k], ':') && free_of(parts[k], '.') && addr_chars(parts[k]) by {
        lemma_group_round_trip(gs[k]);
    }
    lemma_split_join(parts, ':');
    lemma_join_addr_chars(parts, ':');
    lemma_join_free(parts, ':', '.');
    lemma_join_no_double_colon(parts);
    lemma_split_single(text, '.');
    assert(first_double_colon(text) is None);
    assert(free_of(parts[parts.len() - 1], '.'));
    lemma_split_single(parts.last(), '.');
    assert(ipv4_of(parts.last()) is None);
    assert(tail_groups(parts) == Some(gs));
    assert(ipv6_groups(text) == Some(gs));
    assert(vstd::arithmetic::power::pow(0x1_0000, 8) == 0x1_0000_0000_0000_0000_0000_0000_0000_0000) by {
        reveal_with_fuel(vstd::arithmetic::power::pow, 9);
    }
    assert(groups_value(gs) == x);
}

/// A rendered address reads back as the same address.
pub proof fn lemma_addr_round_trip(a: IpAddr)
    ensures
        ip_of(addr_text(a)) == Some(a),
        addr_chars(addr_text(a)),
{
    match a {
        IpAddr::V4(x) => lemma_ipv4_round_trip(x),
        IpAddr::V6(x) => lemma_ipv6_round_trip(x),
    }
}

proof fn lemma_split_pieces_free(s: Seq<char>, sep: char)
    ensures
        forall|k: int| 0 <= k < split_on(s, sep).len() ==> free_of(#[trigger] split_on(s, sep)[k], sep),
    decreases s.len(),
{
    if s.len() > 0 {
        let t = s.drop_last();
        lemma_split_pieces_free(t, sep);
        lemma_split_nonempty(t, sep);
        let p = split_on(t, sep);
        let q = split_on(s, sep);
        if s.last() != sep {
            let l = p.last().push(s.last());
            assert(free_of(p[p.len() - 1], sep));
            assert(free_of(l, sep)) by {
                assert forall|i: int| 0 <= i < l.len() implies l[i] != sep by {
                    if i < l.len() - 1 {
                        assert(l[i] == p.last()[i]);
                    }
                }
            }
            assert forall|k: int| 0 <= k < q.len() implies free_of(#[trigger] q[k], sep) by {
                if k < q.len() - 1 {
                    assert(q[k] == p[k]);
                }
            }
        } else {
            assert forall|k: int| 0 <= k < q.len() implies free_of(#[trigger] q[k], sep) by {
                if k < q.len() - 1 {
                    assert(q[k] == p[k]);
                }
            }
        }
    }
}

/// A range written as a record line: its five fields joined by tabs, the
/// addresses rendered by `addr_text` and the AS number in decimal.
pub open spec fn record_line(v: IpRangeView) -> Seq<char> {
    join(
        seq![
            addr_text(v.start_ip),
            addr_text(v.end_ip),
            numeral(v.number as nat, 10),
            v.country,
            v.description,
        ],
        '\t',
    )
}

proof fn lemma_number_round_trip(n: u32)
    ensures
        u32_of(numeral(n as nat, 10)) == Some(n),
        addr_chars(numeral(n as nat, 10)),
{
    let t = numeral(n as nat, 10);
    lemma_numeral(n as nat, 10);
    assert(unsigned_digits(t) == t);
    assert forall|i: int| 0 <= i < t.len() implies is_dec_digit(#[trigger] t[i]) by {
        assert(hex_digit_value(t[i]) < 10);
    }
}

/// Writing a parsed record back as a line and reading that line again gives
/// the same record.
pub proof fn lemma_record_round_trip(s: Seq<char>)
    requires
        parse_record(s) is Ok,
    ensures
        parse_record(record_line(parse_record(s)->Ok_0)) == parse_record(s),
{
    let f = split_on(s, '\t');
    let v = parse_record(s)->Ok_0;
    let parts = seq![
        addr_text(v.start_ip),
        addr_text(v.end_ip),
        numeral(v.number as nat, 10),
        v.country,
        v.description,
    ];
    lemma_split_pieces_free(s, '\t');
    assert(free_of(f[3], '\t'));
    assert(free_of(f[4], '\t'));
    lemma_trim_idempotent(f[3]);
    lemma_trim_idempotent(f[4]);
    lemma_addr_round_trip(v.start_ip);
    lemma_addr_round_trip(v.end_ip);
    lemma_number_round_trip(v.number);
    lemma_addr_chars_free(parts[0], '\t');
    lemma_addr_chars_free(parts[1], '\t');
    lemma_addr_chars_free(parts[2], '\t');
    assert forall|k: int| 0 <= k < parts.len() implies free_of(#[trigger] parts[k], '\t') by {}
    lemma_split_join(parts, '\t');
    lemma_trim_addr_chars(parts[0]);
    lemma_trim_addr_chars(parts[1]);
    lemma_trim_addr_chars(parts[2]);
    let l = record_line(v);
    assert(split_on(l, '\t') == parts);
}

fn push_digit(out: &mut String, d: u128)
    requires
        d < 16,
    ensures
        final(out)@ == old(out)@.push(digit_char(d as int)),
{
    let digits = "0123456789abcdef";
    proof {
        reveal_strlit("0123456789abcdef");
    }
    let i = d as usize;
    let piece = digits.substring_char(i, i + 1);
    assert(piece@ =~= seq![digit_char(d as int)]);
    out.append(piece);
}

fn push_sep(out: &mut String, sep: &str, c: Ghost<char>)
    requires
        sep@.len() == 1,
        sep@[0] == c@,
    ensures
        final(out)@ == old(out)@.push(c@),
{
    out.append(sep);
    assert(final(out)@ =~= old(out)@.push(c@));
}

fn write_numeral(out: &mut String, n: u128, base: u128)
    requires
        base == 10 || base == 16,
    ensures
        final(out)@ == old(out)@ + numeral(n as nat, base as nat),
    decreases n,
{
    let ghost before = out@;
    if n >= base {
        proof {
            vstd::arithmetic::div_mod::lemma_div_decreases(n as int, base as int);
        }
        write_numeral(out, n / base, base);
        push_digit(out, n % base);
        assert(out@ =~= before + numeral(n as nat, base as nat));
    } else {
        push_digit(out, n);
        assert(out@ =~= before + numeral(n as nat, base as nat));
    }
}

fn write_groups(out: &mut String, x: u128, n: usize)
    requires
        1 <= n <= 8,
    ensures
        final(out)@ == old(out)@ + join(hex_numerals(groups_of(x as int, n as nat)), ':'),
    decreases n,
{
    let ghost before = out@;
    let ghost parts = hex_numerals(groups_of(x as int, n as nat));
    proof {
        lemma_groups_of(x as int, n as nat);
    }
    let ghost last = numeral((x % 0x1_0000) as nat, 16);
    assert(parts.last() == last);
    if n > 1 {
        let ghost init = hex_numerals(groups_of((x / 0x1_0000) as int, (n - 1) as nat));
        assert(parts.drop_last() =~= init);
        write_groups(out, x / 0x1_0000, n - 1);
        proof {
            reveal_strlit(":");
        }
        push_sep(out, ":", Ghost(':'));
        write_numeral(out, x % 0x1_0000, 16);
        assert(join(parts, ':') == join(init, ':').push(':') + last);
        assert(out@ =~= before + join(parts, ':'));
    } else {
        write_numeral(out, x % 0x1_0000, 16);
        assert(join(parts, ':') == parts[0]);
        assert(out@ =~= before + join(parts, ':'));
    }
}

fn write_addr(out: &mut String, a: IpAddr)
    ensures
        final(out)@ == old(out)@ + addr_text(a),
{
    let ghost before = out@;
    match a {
        IpAddr::V4(x) => {
            let ghost parts = octet_numerals(x);
            proof {
                reveal_strlit(".");
            }
            let ghost one = seq![parts[0]];
            let ghost two = seq![parts[0], parts[1]];
            let ghost three = seq![parts[0], parts[1], parts[2]];
            write_numeral(out, (x / 0x100_0000) as u128, 10);
            assert(out@ =~= before + join(one, '.'));
            push_sep(out, ".", Ghost('.'));
            write_numeral(out, ((x / 0x1_0000) % 0x100) as u128, 10);
            assert(two.drop_last() =~= one);
            assert(out@ =~= before + join(two, '.'));
            push_sep(out, ".", Ghost('.'));
            write_numeral(out, ((x / 0x100) % 0x100) as u128, 10);
            assert(three.drop_last() =~= two);
            assert(out@ =~= before + join(three, '.'));
            push_sep(out, ".", Ghost('.'));
            write_numeral(out, (x % 0x100) as u128, 10);
            assert(parts.drop_last() =~= three);
            assert(out@ =~= before + join(parts, '.'));
        },
        IpAddr::V6(x) => {
            write_groups(out, x, 8);
        },
    }
}

impl IpRange {
    /// This range as a record line, which `line_to_ip_range` reads back as
    /// the same range.
    pub fn to_line(&self) -> (r: String)
        ensures
            r@ == record_line(self@),
    {
        let mut out = String::new();
        proof {
            reveal_strlit("\t");
        }
        let ghost parts = seq![
            addr_text(self.start_ip),
            addr_text(self.end_ip),
            numeral(self.number as nat, 10),
            self.country@,
            self.description@,
        ];
        let ghost one = seq![parts[0]];
        let ghost two = seq![parts[0], parts[1]];
        let ghost three = seq![parts[0], parts[1], parts[2]];
        let ghost four = seq![parts[0], parts[1], parts[2], parts[3]];
        write_addr(&mut out, self.start_ip);
        assert(out@ =~= join(one, '\t'));
        push_sep(&mut out, "\t", Ghost('\t'));
        write_addr(&mut out, self.end_ip);
        assert(two.drop_last() =~= one);
        assert(out@ =~= join(two, '\t'));
        push_sep(&mut out, "\t", Ghost('\t'));
        write_numeral(&mut out, self.number as u128, 10);
        assert(three.drop_last() =~= two);
        assert(out@ =~= join(three, '\t'));
        push_sep(&mut out, "\t", Ghost('\t'));
        out.append(self.country.as_str());
        assert(four.drop_last() =~= three);
        assert(out@ =~= join(four, '\t'));
        push_sep(&mut out, "\t", Ghost('\t'));
        out.append(self.description.as_str());
        assert(parts.drop_last() =~= four);
        assert(out@ =~= join(parts, '\t'));
        out
    }
}

} // verus!
