use vstd::prelude::*;
use crate::text::{
    chars_of, digits_below, digits_value, pieces, read_digits, split_bounds, split_on,
    bounds_within,
};

verus! {

/// An IPv4 or IPv6 address, held as its numeric value.
#[derive(Clone, Copy, Debug, PartialEq, Eq, Structural, Hash)]
pub enum IpAddr {
    V4(u32),
    V6(u128),
}

/// The position of an address in the total order on addresses: every IPv4
/// address comes before every IPv6 address, and within a family addresses are
/// ordered by value.
pub open spec fn addr_key(a: IpAddr) -> int {
    match a {
        IpAddr::V4(x) => x as int,
        IpAddr::V6(x) => 0x1_0000_0000 + x as int,
    }
}

impl IpAddr {
    pub fn is_ipv4(&self) -> (r: bool)
        ensures
            r == (*self is V4),
    {
        match self {
            IpAddr::V4(_) => true,
            IpAddr::V6(_) => false,
        }
    }

    /// `self <= other` in the order of `addr_key`.
    pub fn le(&self, other: &IpAddr) -> (r: bool)
        ensures
            r == (addr_key(*self) <= addr_key(*other)),
    {
        match (self, other) {
            (IpAddr::V4(a), IpAddr::V4(b)) => *a <= *b,
            (IpAddr::V6(a), IpAddr::V6(b)) => *a <= *b,
            (IpAddr::V4(_), IpAddr::V6(_)) => true,
            (IpAddr::V6(_), IpAddr::V4(_)) => false,
        }
    }
}

/// A decimal octet of a dotted-quad literal: one to three digits, no leading
/// zero unless the octet is `0` itself, value at most 255.
pub open spec fn dec_octet(s: Seq<char>) -> Option<u8> {
    if 1 <= s.len() <= 3 && digits_below(s, 10) && !(s.len() > 1 && s[0] == '0')
        && digits_value(s, 10) <= 255 {
        Some(digits_value(s, 10) as u8)
    } else {
        None
    }
}

/// A group of an IPv6 literal: one to four hexadecimal digits, either case.
pub open spec fn hex_group(s: Seq<char>) -> Option<u16> {
    if 1 <= s.len() <= 4 && digits_below(s, 16) {
        Some(digits_value(s, 16) as u16)
    } else {
        None
    }
}

/// The value of a dotted-quad literal `a.b.c.d`.
pub open spec fn ipv4_of(s: Seq<char>) -> Option<u32> {
    let p = split_on(s, '.');
    if p.len() == 4 && dec_octet(p[0]) is Some && dec_octet(p[1]) is Some && dec_octet(p[2]) is Some
        && dec_octet(p[3]) is Some {
        Some(
            (dec_octet(p[0])->0 as int * 0x100_0000 + dec_octet(p[1])->0 as int * 0x1_0000
                + dec_octet(p[2])->0 as int * 0x100 + dec_octet(p[3])->0 as int) as u32,
        )
    } else {
        None
    }
}

fn parse_octet(cs: &Vec<char>, lo: usize, hi: usize) -> (r: Option<u8>)
    requires
        lo <= hi <= cs@.len(),
    ensures
        r == dec_octet(cs@.subrange(lo as int, hi as int)),
{
    if hi - lo < 1 || hi - lo > 3 {
        return None;
    }
    if hi - lo > 1 && cs[lo] == '0' {
        return None;
    }
    match read_digits(cs, lo, hi, 10) {
        Some(v) => {
            if v > 255 {
                None
            } else {
                Some(v as u8)
            }
        },
        None => None,
    }
}

/// Reads `cs[lo..hi]` as a dotted-quad IPv4 literal.
pub fn parse_ipv4(cs: &Vec<char>, lo: usize, hi: usize) -> (r: Option<u32>)
    requires
        lo <= hi <= cs@.len(),
    ensures
        r == ipv4_of(cs@.subrange(lo as int, hi as int)),
{
    let parts = split_bounds(cs, lo, hi, '.');
    let ghost p = pieces(cs@, parts@);
    if parts.len() != 4 {
        return None;
    }
    assert(bounds_within(parts@, lo as int, hi as int));
    assert(parts@[0].0 <= parts@[0].1 <= hi);
    assert(parts@[1].0 <= parts@[1].1 <= hi);
    assert(parts@[2].0 <= parts@[2].1 <= hi);
    assert(parts@[3].0 <= parts@[3].1 <= hi);
    let a = parse_octet(cs, parts[0].0, parts[0].1);
    let b = parse_octet(cs, parts[1].0, parts[1].1);
    let c = parse_octet(cs, parts[2].0, parts[2].1);
    let d = parse_octet(cs, parts[3].0, parts[3].1);
    assert(p[0] == cs@.subrange(parts@[0].0 as int, parts@[0].1 as int));
    assert(p[1] == cs@.subrange(parts@[1].0 as int, parts@[1].1 as int));
    assert(p[2] == cs@.subrange(parts@[2].0 as int, parts@[2].1 as int));
    assert(p[3] == cs@.subrange(parts@[3].0 as int, parts@[3].1 as int));
    match (a, b, c, d) {
        (Some(a), Some(b), Some(c), Some(d)) => Some(
            (a as u32) * 0x100_0000 + (b as u32) * 0x1_0000 + (c as u32) * 0x100 + d as u32,
        ),
        _ => None,
    }
}

/// `s` holds `::` at position `k`.
pub open spec fn double_colon_at(s: Seq<char>, k: int) -> bool {
    0 <= k && k + 1 < s.len() && s[k] == ':' && s[k + 1] == ':'
}

/// The position of the first `::` in `s`.
pub open spec fn first_double_colon(s: Seq<char>) -> Option<int> {
    if exists|k: int| double_colon_at(s, k) && forall|j: int| 0 <= j < k ==> !double_colon_at(s, j) {
        Some(
            choose|k: int|
                double_colon_at(s, k) && forall|j: int| 0 <= j < k ==> !double_colon_at(s, j),
        )
    } else {
        None
    }
}

/// The colon-separated pieces of `s`; none where `s` is empty.
pub open spec fn group_list(s: Seq<char>) -> Seq<Seq<char>> {
    if s.len() == 0 {
        Seq::empty()
    } else {
        split_on(s, ':')
    }
}

/// The values of `parts`, if every one of them is a hexadecimal group.
pub open spec fn hex_groups(parts: Seq<Seq<char>>) -> Option<Seq<u16>>
    decreases parts.len(),
{
    if parts.len() == 0 {
        Some(Seq::empty())
    } else {
        match (hex_groups(parts.drop_last()), hex_group(parts.last())) {
            (Some(g), Some(x)) => Some(g.push(x)),
            _ => None,
        }
    }
}

/// The groups written by `parts`, where the last part may also be a
/// dotted-quad literal, which stands for two groups.
pub open spec fn tail_groups(parts: Seq<Seq<char>>) -> Option<Seq<u16>> {
    if parts.len() == 0 {
        Some(Seq::empty())
    } else {
        match ipv4_of(parts.last()) {
            Some(v) => match hex_groups(parts.drop_last()) {
                Some(g) => Some(g.push((v / 0x1_0000) as u16).push((v % 0x1_0000) as u16)),
                None => None,
            },
            None => hex_groups(parts),
        }
    }
}

/// The eight groups of an IPv6 literal: either eight groups written out, or
/// the groups before and after one `::`, which stands for one or more zero
/// groups. Only the last written group may be a dotted quad.
pub open spec fn ipv6_groups(s: Seq<char>) -> Option<Seq<u16>> {
    match first_double_colon(s) {
        None => match tail_groups(split_on(s, ':')) {
            Some(g) => if g.len() == 8 {
                Some(g)
            } else {
                None
            },
            None => None,
        },
        Some(k) => match (
            hex_groups(group_list(s.take(k))),
            tail_groups(group_list(s.skip(k + 2))),
        ) {
            (Some(h), Some(t)) => if h.len() + t.len() <= 7 {
                Some(h + Seq::new((8 - h.len() - t.len()) as nat, |i: int| 0u16) + t)
            } else {
                None
            },
            _ => None,
        },
    }
}

/// The number that `g` writes with each group as one base-65536 digit, most
/// significant first.
pub open spec fn groups_value(g: Seq<u16>) -> int
    decreases g.len(),
{
    if g.len() == 0 {
        0
    } else {
        groups_value(g.drop_last()) * 0x1_0000 + g.last() as int
    }
}

/// The value of an IPv6 literal.
pub open spec fn ipv6_of(s: Seq<char>) -> Option<u128> {
    match ipv6_groups(s) {
        Some(g) => Some(groups_value(g) as u128),
        None => None,
    }
}

/// The address that `s` writes, as `std`'s `IpAddr::from_str` reads it: a
/// dotted quad is an IPv4 address, anything else must be an IPv6 literal.
pub open spec fn ip_of(s: Seq<char>) -> Option<IpAddr> {
    match ipv4_of(s) {
        Some(v) => Some(IpAddr::V4(v)),
        None => match ipv6_of(s) {
            Some(v) => Some(IpAddr::V6(v)),
            None => None,
        },
    }
}

fn find_double_colon(cs: &Vec<char>, lo: usize, hi: usize) -> (r: Option<usize>)
    requires
        lo <= hi <= cs@.len(),
    ensures
        match r {
            Some(p) => lo <= p && p + 2 <= hi && first_double_colon(cs@.subrange(lo as int, hi as int))
                == Some(p - lo),
            None => first_double_colon(cs@.subrange(lo as int, hi as int)) is None,
        },
{
    let ghost s = cs@.subrange(lo as int, hi as int);
    let mut i: usize = lo;
    while hi - i >= 2
        invariant
            lo <= i <= hi <= cs@.len(),
            s == cs@.subrange(lo as int, hi as int),
            forall|j: int| 0 <= j < i - lo ==> !double_colon_at(s, j),
        decreases hi - i,
    {
        if cs[i] == ':' && cs[i + 1] == ':' {
            let ghost k = i - lo;
            assert(double_colon_at(s, k));
            let ghost c = choose|k: int|
                double_colon_at(s, k) && forall|j: int| 0 <= j < k ==> !double_colon_at(s, j);
            assert(c == k) by {
                if c < k {
                } else if c > k {
                    assert(!double_colon_at(s, k));
                }
            }
            return Some(i);
        }
        i = i + 1;
    }
    assert forall|k: int| !double_colon_at(s, k) by {
        if 0 <= k < i - lo {
        }
    }
    None
}

fn parse_group(cs: &Vec<char>, lo: usize, hi: usize) -> (r: Option<u16>)
    requires
        lo <= hi <= cs@.len(),
    ensures
        r == hex_group(cs@.subrange(lo as int, hi as int)),
{
    if hi - lo < 1 || hi - lo > 4 {
        return None;
    }
    match read_digits(cs, lo, hi, 16) {
        Some(v) => Some(v as u16),
        None => None,
    }
}

/// A part that is no hexadecimal group spoils every list of groups that
/// holds it.
proof fn lemma_hex_groups_fail(parts: Seq<Seq<char>>, j: int, n: int)
    requires
        0 <= j < n <= parts.len(),
        hex_group(parts[j]) is None,
    ensures
        hex_groups(parts.take(n)) is None,
    decreases n,
{
    assert(parts.take(n).drop_last() =~= parts.take(n - 1));
    if j < n - 1 {
        lemma_hex_groups_fail(parts, j, n - 1);
    }
}

/// Reads the first `n` parts named by `parts` as hexadecimal groups.
fn parse_hex_groups(cs: &Vec<char>, parts: &Vec<(usize, usize)>, n: usize, lo: Ghost<int>, hi: Ghost<int>) -> (r: Option<Vec<u16>>)
    requires
        bounds_within(parts@, lo@, hi@),
        0 <= lo@ && hi@ <= cs@.len(),
        n <= parts@.len(),
    ensures
        r is Some <==> hex_groups(pieces(cs@, parts@).take(n as int)) is Some,
        r matches Some(g) ==> hex_groups(pieces(cs@, parts@).take(n as int)) == Some(g@),
{
    let ghost ps = pieces(cs@, parts@);
    let mut out: Vec<u16> = Vec::new();
    let mut j: usize = 0;
    assert(ps.take(0) =~= Seq::<Seq<char>>::empty());
    while j < n
        invariant
            j <= n <= parts@.len(),
            ps == pieces(cs@, parts@),
            bounds_within(parts@, lo@, hi@),
            0 <= lo@ && hi@ <= cs@.len(),
            hex_groups(ps.take(j as int)) == Some(out@),
        decreases n - j,
    {
        let (a, b) = parts[j];
        assert(parts@[j as int].0 <= parts@[j as int].1 <= hi@);
        assert(ps[j as int] == cs@.subrange(a as int, b as int));
        assert(ps.take(j + 1).drop_last() =~= ps.take(j as int));
        match parse_group(cs, a, b) {
            Some(x) => {
                out.push(x);
            },
            None => {
                proof {
                    lemma_hex_groups_fail(ps, j as int, n as int);
                }
                return None;
            },
        }
        j = j + 1;
    }
    Some(out)
}

/// Reads the parts named by `parts` as groups, the last of which may be a
/// dotted quad.
fn parse_tail_groups(cs: &Vec<char>, parts: &Vec<(usize, usize)>, lo: Ghost<int>, hi: Ghost<int>) -> (r: Option<Vec<u16>>)
    requires
        bounds_within(parts@, lo@, hi@),
        0 <= lo@ && hi@ <= cs@.len(),
    ensures
        r is Some <==> tail_groups(pieces(cs@, parts@)) is Some,
        r matches Some(g) ==> tail_groups(pieces(cs@, parts@)) == Some(g@),
{
    let ghost ps = pieces(cs@, parts@);
    let n = parts.len();
    assert(ps.take(n as int) =~= ps);
    if n == 0 {
        return Some(Vec::new());
    }
    let (a, b) = parts[n - 1];
    assert(parts@[n - 1].0 <= parts@[n - 1].1 <= hi@);
    assert(ps.last() == cs@.subrange(a as int, b as int));
    assert(ps.take(n - 1) =~= ps.drop_last());
    match parse_ipv4(cs, a, b) {
        Some(v) => match parse_hex_groups(cs, parts, n - 1, lo, hi) {
            Some(g) => {
                let mut g = g;
                g.push((v / 0x1_0000) as u16);
                g.push((v % 0x1_0000) as u16);
                Some(g)
            },
            None => None,
        },
        None => parse_hex_groups(cs, parts, n, lo, hi),
    }
}

/// The value of eight groups as one 128-bit number.
fn groups_to_u128(g: &Vec<u16>) -> (r: u128)
    requires
        g@.len() == 8,
    ensures
        r == groups_value(g@),
{
    let mut acc: u128 = 0;
    let mut i: usize = 0;
    proof {
        reveal(vstd::arithmetic::power::pow);
        assert(g@.take(0) =~= Seq::<u16>::empty());
    }
    while i < 8
        invariant
            i <= 8,
            g@.len() == 8,
            acc == groups_value(g@.take(i as int)),
            acc < vstd::arithmetic::power::pow(0x1_0000, i as nat),
        decreases 8 - i,
    {
        let ghost p = vstd::arithmetic::power::pow(0x1_0000, i as nat);
        proof {
            vstd::arithmetic::power::lemma_pow_increases(0x1_0000, i as nat, 7);
            reveal_with_fuel(vstd::arithmetic::power::pow, 8);
            assert(vstd::arithmetic::power::pow(0x1_0000, (i + 1) as nat) == 0x1_0000 * p) by {
                reveal(vstd::arithmetic::power::pow);
            }
            let x = g@[i as int] as int;
            assert(acc * 0x1_0000 + x < 0x1_0000 * p) by (nonlinear_arith)
                requires
                    acc < p,
                    0 <= x < 0x1_0000,
            ;
            assert(0x1_0000 * p <= 0x1_0000 * 0x1_0000_0000_0000_0000_0000_0000_0000) by (nonlinear_arith)
                requires
                    p <= 0x1_0000_0000_0000_0000_0000_0000_0000,
            ;
        }
        acc = acc * 0x1_0000 + g[i] as u128;
        assert(g@.take(i + 1).drop_last() =~= g@.take(i as int));
        i = i + 1;
    }
    assert(g@.take(8) =~= g@);
    acc
}

/// Reads `cs[lo..hi]` as an IPv6 literal.
pub fn parse_ipv6(cs: &Vec<char>, lo: usize, hi: usize) -> (r: Option<u128>)
    requires
        lo <= hi <= cs@.len(),
    ensures
        r == ipv6_of(cs@.subrange(lo as int, hi as int)),
{
    let ghost s = cs@.subrange(lo as int, hi as int);
    match find_double_colon(cs, lo, hi) {
        None => {
            let parts = split_bounds(cs, lo, hi, ':');
            match parse_tail_groups(cs, &parts, Ghost(lo as int), Ghost(hi as int)) {
                Some(g) => {
                    if g.len() == 8 {
                        Some(groups_to_u128(&g))
                    } else {
                        None
                    }
                },
                None => None,
            }
        },
        Some(p) => {
            let ghost k = p - lo;
            assert(s.take(k) =~= cs@.subrange(lo as int, p as int));
            assert(s.skip(k + 2) =~= cs@.subrange(p + 2, hi as int));
            let head = if p == lo {
                Vec::new()
            } else {
                split_bounds(cs, lo, p, ':')
            };
            assert(pieces(cs@, head@) =~= group_list(s.take(k)));
            let tail = if p + 2 == hi {
                Vec::new()
            } else {
                split_bounds(cs, p + 2, hi, ':')
            };
            assert(pieces(cs@, tail@) =~= group_list(s.skip(k + 2)));
            assert(pieces(cs@, head@).take(head@.len() as int) =~= pieces(cs@, head@));
            let h = parse_hex_groups(cs, &head, head.len(), Ghost(lo as int), Ghost(hi as int));
            let t = parse_tail_groups(cs, &tail, Ghost(lo as int), Ghost(hi as int));
            match (h, t) {
                (Some(h), Some(t)) => {
                    if h.len() > 7 || t.len() > 7 - h.len() {
                        return None;
                    }
                    let zeros = 8 - h.len() - t.len();
                    let mut g = h;
                    let ghost hv = g@;
                    let mut z: usize = 0;
                    while z < zeros
                        invariant
                            z <= zeros,
                            g@ == hv + Seq::new(z as nat, |i: int| 0u16),
                        decreases zeros - z,
                    {
                        g.push(0);
                        assert(g@ =~= hv + Seq::new((z + 1) as nat, |i: int| 0u16));
                        z = z + 1;
                    }
                    let ghost mid = g@;
                    let mut j: usize = 0;
                    while j < t.len()
                        invariant
                            j <= t@.len(),
                            g@ == mid + t@.take(j as int),
                        decreases t@.len() - j,
                    {
                        g.push(t[j]);
                        assert(g@ =~= mid + t@.take(j + 1));
                        j = j + 1;
                    }
                    assert(t@.take(j as int) =~= t@);
                    Some(groups_to_u128(&g))
                },
                _ => None,
            }
        },
    }
}

/// Reads `cs[lo..hi]` as an IPv4 or IPv6 literal.
pub fn parse_ip(cs: &Vec<char>, lo: usize, hi: usize) -> (r: Option<IpAddr>)
    requires
        lo <= hi <= cs@.len(),
    ensures
        r == ip_of(cs@.subrange(lo as int, hi as int)),
{
    match parse_ipv4(cs, lo, hi) {
        Some(v) => Some(IpAddr::V4(v)),
        None => match parse_ipv6(cs, lo, hi) {
            Some(v) => Some(IpAddr::V6(v)),
            None => None,
        },
    }
}

/// Reads `s` as an IPv4 or IPv6 address literal.
pub fn parse_ip_addr(s: &str) -> (r: Option<IpAddr>)
    ensures
        r == ip_of(s@),
{
    let cs = chars_of(s);
    assert(cs@.subrange(0, cs@.len() as int) =~= s@);
    parse_ip(&cs, 0, cs.len())
}

} // verus!
