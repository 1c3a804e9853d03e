use vstd::prelude::*;

verus! {

/// The pieces of `s` between occurrences of `sep`, as `str::split` gives
/// them: one more piece than there are separators, empty pieces kept.
pub open spec fn split_on(s: Seq<char>, sep: char) -> Seq<Seq<char>>
    decreases s.len(),
{
    if s.len() == 0 {
        seq![Seq::<char>::empty()]
    } else {
        let p = split_on(s.drop_last(), sep);
        if s.last() == sep {
            p.push(Seq::<char>::empty())
        } else {
            p.update(p.len() - 1, p.last().push(s.last()))
        }
    }
}

pub proof fn lemma_split_nonempty(s: Seq<char>, sep: char)
    ensures
        split_on(s, sep).len() >= 1,
    decreases s.len(),
{
    if s.len() > 0 {
        lemma_split_nonempty(s.drop_last(), sep);
    }
}

/// The text of each piece named by `bounds`, a list of `[start, end)` pairs
/// into `cs`.
pub open spec fn pieces(cs: Seq<char>, bounds: Seq<(usize, usize)>) -> Seq<Seq<char>> {
    Seq::new(bounds.len(), |j: int| cs.subrange(bounds[j].0 as int, bounds[j].1 as int))
}

/// Every pair of `bounds` is an ordered pair of positions in `[lo, hi]`.
pub open spec fn bounds_within(bounds: Seq<(usize, usize)>, lo: int, hi: int) -> bool {
    forall|j: int|
        0 <= j < bounds.len() ==> lo <= (#[trigger] bounds[j]).0 <= bounds[j].1 <= hi
}

/// Splits `cs[lo..hi]` on `sep`, giving the bounds of each piece.
pub fn split_bounds(cs: &Vec<char>, lo: usize, hi: usize, sep: char) -> (r: Vec<(usize, usize)>)
    requires
        lo <= hi <= cs@.len(),
    ensures
        bounds_within(r@, lo as int, hi as int),
        pieces(cs@, r@) == split_on(cs@.subrange(lo as int, hi as int), sep),
{
    let mut done: Vec<(usize, usize)> = Vec::new();
    let mut start: usize = lo;
    let mut i: usize = lo;
    proof {
        assert(cs@.subrange(lo as int, lo as int) =~= Seq::<char>::empty());
        assert(pieces(cs@, done@).push(cs@.subrange(start as int, i as int)) =~= seq![
            Seq::<char>::empty(),
        ]);
    }
    while i < hi
        invariant
            lo <= start <= i <= hi <= cs@.len(),
            bounds_within(done@, lo as int, start as int),
            pieces(cs@, done@).push(cs@.subrange(start as int, i as int)) == split_on(
                cs@.subrange(lo as int, i as int),
                sep,
            ),
        decreases hi - i,
    {
        let ghost prev = pieces(cs@, done@).push(cs@.subrange(start as int, i as int));
        let c = cs[i];
        assert(cs@.subrange(lo as int, i + 1).drop_last() =~= cs@.subrange(lo as int, i as int));
        assert(cs@.subrange(lo as int, i + 1).last() == c);
        if c == sep {
            let ghost old_done = done@;
            done.push((start, i));
            assert(pieces(cs@, done@) =~= pieces(cs@, old_done).push(
                cs@.subrange(start as int, i as int),
            ));
            start = i + 1;
            assert(cs@.subrange(start as int, i + 1) =~= Seq::<char>::empty());
            assert(pieces(cs@, done@).push(cs@.subrange(start as int, i + 1)) =~= prev.push(
                Seq::<char>::empty(),
            ));
        } else {
            assert(cs@.subrange(start as int, i + 1) =~= cs@.subrange(start as int, i as int).push(
                c,
            ));
            assert(pieces(cs@, done@).push(cs@.subrange(start as int, i + 1)) =~= prev.update(
                prev.len() - 1,
                prev.last().push(c),
            ));
        }
        i = i + 1;
    }
    done.push((start, hi));
    assert(pieces(cs@, done@) =~= pieces(cs@, done@.drop_last()).push(
        cs@.subrange(start as int, hi as int),
    ));
    done
}

/// The characters that `char::is_whitespace` accepts: those with the Unicode
/// `White_Space` property.
pub open spec fn is_white_space(c: char) -> bool {
    let u = c as u32;
    (0x9 <= u <= 0xD) || u == 0x20 || u == 0x85 || u == 0xA0 || u == 0x1680 || (0x2000 <= u
        <= 0x200A) || u == 0x2028 || u == 0x2029 || u == 0x202F || u == 0x205F || u == 0x3000
}

pub fn white_space(c: char) -> (r: bool)
    ensures
        r == is_white_space(c),
{
    let u = c as u32;
    (0x9 <= u && u <= 0xD) || u == 0x20 || u == 0x85 || u == 0xA0 || u == 0x1680 || (0x2000 <= u
        && u <= 0x200A) || u == 0x2028 || u == 0x2029 || u == 0x202F || u == 0x205F || u == 0x3000
}

pub open spec fn trim_start(s: Seq<char>) -> Seq<char>
    decreases s.len(),
{
    if s.len() > 0 && is_white_space(s[0]) {
        trim_start(s.drop_first())
    } else {
        s
    }
}

pub open spec fn trim_end(s: Seq<char>) -> Seq<char>
    decreases s.len(),
{
    if s.len() > 0 && is_white_space(s.last()) {
        trim_end(s.drop_last())
    } else {
        s
    }
}

/// `s` without its leading and trailing white space, as `str::trim` gives it.
pub open spec fn trim(s: Seq<char>) -> Seq<char> {
    trim_end(trim_start(s))
}

/// The bounds of `trim(cs[lo..hi])` within `cs`.
pub fn trim_bounds(cs: &Vec<char>, lo: usize, hi: usize) -> (r: (usize, usize))
    requires
        lo <= hi <= cs@.len(),
    ensures
        lo <= r.0 <= r.1 <= hi,
        cs@.subrange(r.0 as int, r.1 as int) == trim(cs@.subrange(lo as int, hi as int)),
{
    let mut a: usize = lo;
    while a < hi && white_space(cs[a])
        invariant
            lo <= a <= hi <= cs@.len(),
            trim_start(cs@.subrange(lo as int, hi as int)) == trim_start(
                cs@.subrange(a as int, hi as int),
            ),
        decreases hi - a,
    {
        assert(cs@.subrange(a as int, hi as int).drop_first() =~= cs@.subrange(a + 1, hi as int));
        a = a + 1;
    }
    let mut b: usize = hi;
    while b > a && white_space(cs[b - 1])
        invariant
            lo <= a <= b <= hi <= cs@.len(),
            trim(cs@.subrange(lo as int, hi as int)) == trim_end(cs@.subrange(a as int, b as int)),
        decreases b,
    {
        assert(cs@.subrange(a as int, b as int).drop_last() =~= cs@.subrange(a as int, b - 1));
        b = b - 1;
    }
    (a, b)
}

/// The characters of `s`, in order.
pub fn chars_of(s: &str) -> (r: Vec<char>)
    ensures
        r@ == s@,
{
    broadcast use vstd::string::axiom_spec_iter;

    let mut out: Vec<char> = Vec::new();
    for c in it: s.chars()
        invariant
            it.seq() == s@,
            out@ == it.seq().take(it.index() as int),
    {
        out.push(c);
        assert(out@ =~= it.seq().take(it.index() + 1));
    }
    assert(out@ =~= s@);
    out
}

/// The value of a hexadecimal digit (`0-9`, `a-f`, `A-F`), or 16 for any
/// other character.
pub open spec fn hex_digit_value(c: char) -> int {
    if '0' <= c <= '9' {
        (c as u32 - '0' as u32) as int
    } else if 'a' <= c <= 'f' {
        (c as u32 - 'a' as u32 + 10) as int
    } else if 'A' <= c <= 'F' {
        (c as u32 - 'A' as u32 + 10) as int
    } else {
        16
    }
}

pub open spec fn is_dec_digit(c: char) -> bool {
    '0' <= c <= '9'
}

pub open spec fn all_dec(s: Seq<char>) -> bool {
    forall|i: int| 0 <= i < s.len() ==> is_dec_digit(#[trigger] s[i])
}

/// Every character of `s` is a digit of value below `base`.
pub open spec fn digits_below(s: Seq<char>, base: int) -> bool {
    forall|i: int| 0 <= i < s.len() ==> hex_digit_value(#[trigger] s[i]) < base
}

/// The number that the digits `s` write in base `base`, most significant
/// first.
pub open spec fn digits_value(s: Seq<char>, base: int) -> int
    decreases s.len(),
{
    if s.len() == 0 {
        0
    } else {
        digits_value(s.drop_last(), base) * base + hex_digit_value(s.last())
    }
}

pub fn hex_digit(c: char) -> (r: u32)
    ensures
        r == hex_digit_value(c),
{
    if '0' <= c && c <= '9' {
        c as u32 - '0' as u32
    } else if 'a' <= c && c <= 'f' {
        c as u32 - 'a' as u32 + 10
    } else if 'A' <= c && c <= 'F' {
        c as u32 - 'A' as u32 + 10
    } else {
        16
    }
}

/// Digits that all lie below `base` write a number below `base` to the
/// power of their count.
pub proof fn lemma_digits_bound(s: Seq<char>, base: int)
    requires
        base >= 2,
        digits_below(s, base),
    ensures
        0 <= digits_value(s, base) < vstd::arithmetic::power::pow(base, s.len()),
    decreases s.len(),
{
    reveal(vstd::arithmetic::power::pow);
    if s.len() > 0 {
        let t = s.drop_last();
        assert forall|i: int| 0 <= i < t.len() implies hex_digit_value(#[trigger] t[i]) < base by {
            assert(t[i] == s[i]);
        }
        lemma_digits_bound(t, base);
        let v = digits_value(t, base);
        let p = vstd::arithmetic::power::pow(base, t.len());
        let d = hex_digit_value(s.last());
        assert(0 <= d < base);
        assert(vstd::arithmetic::power::pow(base, s.len()) == base * p);
        assert(p * base == base * p) by (nonlinear_arith);
        assert(v * base + d < p * base) by (nonlinear_arith)
            requires
                0 <= v < p,
                0 <= d < base,
        ;
        assert(0 <= v * base) by (nonlinear_arith)
            requires
                0 <= v,
                base >= 2,
        ;
    }
}

/// A longer run of decimal digits never writes a smaller number.
pub proof fn lemma_dec_prefix_le(s: Seq<char>, k: int)
    requires
        all_dec(s),
        0 <= k <= s.len(),
    ensures
        0 <= digits_value(s.take(k), 10) <= digits_value(s, 10),
    decreases s.len(),
{
    if s.len() > 0 {
        let t = s.drop_last();
        assert(all_dec(t)) by {
            assert forall|i: int| 0 <= i < t.len() implies is_dec_digit(#[trigger] t[i]) by {
                assert(t[i] == s[i]);
            }
        }
        if k == s.len() {
            assert(s.take(k) =~= s);
            lemma_dec_prefix_le(t, 0);
        } else {
            assert(t.take(k) =~= s.take(k));
            lemma_dec_prefix_le(t, k);
        }
        let v = digits_value(t, 10);
        assert(v <= v * 10 + hex_digit_value(s.last())) by (nonlinear_arith)
            requires
                0 <= v,
                0 <= hex_digit_value(s.last()),
        ;
    }
}

/// The digits of an unsigned integer literal: `s` without one leading `+`.
pub open spec fn unsigned_digits(s: Seq<char>) -> Seq<char> {
    if s.len() > 0 && s[0] == '+' {
        s.drop_first()
    } else {
        s
    }
}

/// What `u32::from_str` accepts: an optional `+`, then one or more decimal
/// digits whose value is at most `u32::MAX`.
pub open spec fn u32_of(s: Seq<char>) -> Option<u32> {
    let d = unsigned_digits(s);
    if d.len() > 0 && all_dec(d) && digits_value(d, 10) <= u32::MAX {
        Some(digits_value(d, 10) as u32)
    } else {
        None
    }
}

/// Reads `cs[lo..hi]` as a base-10 unsigned 32-bit integer.
pub fn parse_u32(cs: &Vec<char>, lo: usize, hi: usize) -> (r: Option<u32>)
    requires
        lo <= hi <= cs@.len(),
    ensures
        r == u32_of(cs@.subrange(lo as int, hi as int)),
{
    let ghost s = cs@.subrange(lo as int, hi as int);
    let mut i: usize = lo;
    if lo < hi && cs[lo] == '+' {
        i = lo + 1;
    }
    let ghost d = unsigned_digits(s);
    assert(d =~= cs@.subrange(i as int, hi as int));
    if i == hi {
        return None;
    }
    let start = i;
    let mut acc: u64 = 0;
    while i < hi
        invariant
            start <= i <= hi <= cs@.len(),
            d == cs@.subrange(start as int, hi as int),
            d == unsigned_digits(cs@.subrange(lo as int, hi as int)),
            d.len() > 0,
            all_dec(d.take(i - start)),
            acc == digits_value(d.take(i - start), 10),
            acc <= u32::MAX,
        decreases hi - i,
    {
        let c = cs[i];
        assert(d.take(i - start + 1).drop_last() =~= d.take(i - start));
        assert(d[i - start] == c);
        if !('0' <= c && c <= '9') {
            assert(!is_dec_digit(d[i - start]));
            assert(!all_dec(d));
            return None;
        }
        acc = acc * 10 + hex_digit(c) as u64;
        assert(d.take(i - start + 1).last() == c);
        assert(all_dec(d.take(i - start + 1))) by {
            assert forall|j: int| 0 <= j < i - start + 1 implies is_dec_digit(
                #[trigger] d.take(i - start + 1)[j],
            ) by {
                if j < i - start {
                    assert(d.take(i - start + 1)[j] == d.take(i - start)[j]);
                }
            }
        }
        if acc > u32::MAX as u64 {
            proof {
                if all_dec(d) {
                    lemma_dec_prefix_le(d, i - start + 1);
                }
            }
            return None;
        }
        i = i + 1;
    }
    assert(d.take(i - start) =~= d);
    Some(acc as u32)
}

/// Reads `cs[lo..hi]`, at most four characters, as digits in base 10 or 16.
pub fn read_digits(cs: &Vec<char>, lo: usize, hi: usize, base: u32) -> (r: Option<u32>)
    requires
        lo <= hi <= cs@.len(),
        hi - lo <= 4,
        base == 10 || base == 16,
    ensures
        r is Some <==> digits_below(cs@.subrange(lo as int, hi as int), base as int),
        r matches Some(v) ==> v == digits_value(cs@.subrange(lo as int, hi as int), base as int)
            && v < 65536,
{
    let ghost s = cs@.subrange(lo as int, hi as int);
    let mut acc: u32 = 0;
    let mut i: usize = lo;
    proof {
        reveal(vstd::arithmetic::power::pow);
    }
    while i < hi
        invariant
            lo <= i <= hi <= cs@.len(),
            hi - lo <= 4,
            base == 10 || base == 16,
            s == cs@.subrange(lo as int, hi as int),
            digits_below(s.take(i - lo), base as int),
            acc == digits_value(s.take(i - lo), base as int),
            acc < vstd::arithmetic::power::pow(base as int, (i - lo) as nat),
        decreases hi - i,
    {
        let d = hex_digit(cs[i]);
        assert(s[i - lo] == cs@[i as int]);
        if d >= base {
            assert(!digits_below(s, base as int));
            return None;
        }
        let ghost k = (i - lo) as nat;
        let ghost p = vstd::arithmetic::power::pow(base as int, k);
        proof {
            reveal_with_fuel(vstd::arithmetic::power::pow, 4);
            assert(p <= 4096);
            assert(vstd::arithmetic::power::pow(base as int, k + 1) == base * p) by {
                reveal(vstd::arithmetic::power::pow);
            }
            assert(acc * base + d < base * p) by (nonlinear_arith)
                requires
                    acc < p,
                    d < base,
            ;
            assert(base * p <= 65536) by (nonlinear_arith)
                requires
                    base <= 16,
                    p <= 4096,
            ;
        }
        acc = acc * base + d;
        assert(s.take(i - lo + 1).drop_last() =~= s.take(i - lo));
        assert(digits_below(s.take(i - lo + 1), base as int)) by {
            assert forall|j: int| 0 <= j < i - lo + 1 implies hex_digit_value(
                #[trigger] s.take(i - lo + 1)[j],
            ) < base by {
                if j < i - lo {
                    assert(s.take(i - lo + 1)[j] == s.take(i - lo)[j]);
                }
            }
        }
        i = i + 1;
    }
    assert(s.take(i - lo) =~= s);
    proof {
        reveal_with_fuel(vstd::arithmetic::power::pow, 5);
    }
    Some(acc)
}

} // verus!
