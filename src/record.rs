use vstd::prelude::*;
use crate::addr::{addr_key, ip_of, parse_ip, IpAddr};
use crate::text::{chars_of, parse_u32, pieces, split_bounds, split_on, trim, trim_bounds, u32_of};

verus! {

/// One contiguous block of address space, `[start_ip, end_ip]`, with the
/// autonomous system that owns it.
#[derive(Clone, Debug, PartialEq, Eq)]
pub struct IpRange {
    pub start_ip: IpAddr,
    pub end_ip: IpAddr,
    pub number: u32,
    pub country: String,
    pub description: String,
}

/// The value of an `IpRange`, with its text fields as character sequences.
pub struct IpRangeView {
    pub start_ip: IpAddr,
    pub end_ip: IpAddr,
    pub number: u32,
    pub country: Seq<char>,
    pub description: Seq<char>,
}

impl View for IpRange {
    type V = IpRangeView;

    open spec fn view(&self) -> IpRangeView {
        IpRangeView {
            start_ip: self.start_ip,
            end_ip: self.end_ip,
            number: self.number,
            country: self.country@,
            description: self.description@,
        }
    }
}

/// Whether the closed interval of `r` holds `ip`.
pub open spec fn range_contains(r: IpRangeView, ip: IpAddr) -> bool {
    addr_key(r.start_ip) <= addr_key(ip) <= addr_key(r.end_ip)
}

impl IpRange {
    /// A copy of this range that the caller owns.
    pub fn duplicate(&self) -> (r: IpRange)
        ensures
            r@ == self@,
    {
        IpRange {
            start_ip: self.start_ip,
            end_ip: self.end_ip,
            number: self.number,
            country: self.country.clone(),
            description: self.description.clone(),
        }
    }
}

/// Why a record could not be read.
#[derive(Clone, Copy, Debug, PartialEq, Eq, Structural, Hash)]
pub enum ParseError {
    /// The record does not have exactly five tab-separated fields.
    MalformedRecord,
    /// An address field is not an IPv4 or IPv6 literal.
    InvalidAddress,
    /// The AS-number field is not a decimal integer that fits in 32 bits.
    InvalidNumber,
}

/// The values of a sequence of ranges.
pub open spec fn views(rs: Seq<IpRange>) -> Seq<IpRangeView> {
    rs.map_values(|r: IpRange| r@)
}

/// What a record line holds: five tab-separated fields, each trimmed of
/// white space, read as start address, end address, AS number, country and
/// description. A wrong field count is reported first, then a bad address
/// (start before end), then a bad number.
pub open spec fn parse_record(s: Seq<char>) -> Result<IpRangeView, ParseError> {
    let f = split_on(s, '\t');
    if f.len() != 5 {
        Err(ParseError::MalformedRecord)
    } else {
        match (ip_of(trim(f[0])), ip_of(trim(f[1]))) {
            (Some(start_ip), Some(end_ip)) => match u32_of(trim(f[2])) {
                Some(number) => Ok(
                    IpRangeView {
                        start_ip,
                        end_ip,
                        number,
                        country: trim(f[3]),
                        description: trim(f[4]),
                    },
                ),
                None => Err(ParseError::InvalidNumber),
            },
            _ => Err(ParseError::InvalidAddress),
        }
    }
}

/// A line fails with the error of its first fault and then yields no range:
/// a field count other than five is a malformed record; with five fields, a
/// start or end field that is no address literal is an invalid address; with
/// both addresses good, a number field that is no 32-bit decimal integer is
/// an invalid number. A line with none of these faults is read.
pub proof fn lemma_record_errors(s: Seq<char>)
    ensures
        split_on(s, '\t').len() != 5 ==> parse_record(s) == Err::<IpRangeView, ParseError>(
            ParseError::MalformedRecord,
        ),
        split_on(s, '\t').len() == 5 && (ip_of(trim(split_on(s, '\t')[0])) is None || ip_of(
            trim(split_on(s, '\t')[1]),
        ) is None) ==> parse_record(s) == Err::<IpRangeView, ParseError>(ParseError::InvalidAddress),
        split_on(s, '\t').len() == 5 && ip_of(trim(split_on(s, '\t')[0])) is Some && ip_of(
            trim(split_on(s, '\t')[1]),
        ) is Some && u32_of(trim(split_on(s, '\t')[2])) is None ==> parse_record(s) == Err::<
            IpRangeView,
            ParseError,
        >(ParseError::InvalidNumber),
        split_on(s, '\t').len() == 5 && ip_of(trim(split_on(s, '\t')[0])) is Some && ip_of(
            trim(split_on(s, '\t')[1]),
        ) is Some && u32_of(trim(split_on(s, '\t')[2])) is Some ==> parse_record(s) is Ok,
{
}

/// Reads one tab-separated record line into a range.
pub fn line_to_ip_range(line: &str) -> (r: Result<IpRange, ParseError>)
    ensures
        match r {
            Ok(range) => parse_record(line@) == Ok::<IpRangeView, ParseError>(range@),
            Err(e) => parse_record(line@) == Err::<IpRangeView, ParseError>(e),
        },
{
    let cs = chars_of(line);
    let n = cs.len();
    assert(cs@.subrange(0, n as int) =~= line@);
    let parts = split_bounds(&cs, 0, n, '\t');
    let ghost f = pieces(cs@, parts@);
    if parts.len() != 5 {
        return Err(ParseError::MalformedRecord);
    }
    let mut trimmed: Vec<(usize, usize)> = Vec::new();
    let mut j: usize = 0;
    while j < 5
        invariant
            j <= 5,
            parts@.len() == 5,
            n == cs@.len(),
            f == pieces(cs@, parts@),
            crate::text::bounds_within(parts@, 0, n as int),
            trimmed@.len() == j,
            forall|k: int| 0 <= k < j ==> (#[trigger] trimmed@[k]).0 <= trimmed@[k].1 <= n
                && cs@.subrange(trimmed@[k].0 as int, trimmed@[k].1 as int) == trim(f[k]),
        decreases 5 - j,
    {
        let (a, b) = parts[j];
        assert(parts@[j as int].0 <= parts@[j as int].1 <= n);
        trimmed.push(trim_bounds(&cs, a, b));
        j = j + 1;
    }
    let (a0, b0) = trimmed[0];
    let (a1, b1) = trimmed[1];
    let (a2, b2) = trimmed[2];
    let (a3, b3) = trimmed[3];
    let (a4, b4) = trimmed[4];
    let start_ip = parse_ip(&cs, a0, b0);
    let end_ip = parse_ip(&cs, a1, b1);
    match (start_ip, end_ip) {
        (Some(start_ip), Some(end_ip)) => match parse_u32(&cs, a2, b2) {
            Some(number) => Ok(
                IpRange {
                    start_ip,
                    end_ip,
                    number,
                    country: line.substring_char(a3, b3).to_owned(),
                    description: line.substring_char(a4, b4).to_owned(),
                },
            ),
            None => Err(ParseError::InvalidNumber),
        },
        _ => Err(ParseError::InvalidAddress),
    }
}

/// The ranges that `lines` hold, in order, leaving out the lines that are no
/// valid record.
pub open spec fn loaded_ranges(lines: Seq<Seq<char>>) -> Seq<IpRangeView>
    decreases lines.len(),
{
    if lines.len() == 0 {
        Seq::empty()
    } else {
        let p = loaded_ranges(lines.drop_last());
        match parse_record(lines.last()) {
            Ok(v) => p.push(v),
            Err(_) => p,
        }
    }
}

/// The index and error of each line of `lines` that is no valid record, in
/// order.
pub open spec fn rejected_lines(lines: Seq<Seq<char>>) -> Seq<(usize, ParseError)>
    decreases lines.len(),
{
    if lines.len() == 0 {
        Seq::empty()
    } else {
        let p = rejected_lines(lines.drop_last());
        match parse_record(lines.last()) {
            Ok(_) => p,
            Err(e) => p.push(((lines.len() - 1) as usize, e)),
        }
    }
}

pub open spec fn texts(lines: Seq<String>) -> Seq<Seq<char>> {
    lines.map_values(|l: String| l@)
}

/// Builds a range table from record lines. A line that is no valid record
/// does not stop the work: it is left out of the table and listed, with its
/// index and error, in the second result.
pub fn load_ranges(lines: &Vec<String>) -> (r: (Vec<IpRange>, Vec<(usize, ParseError)>))
    ensures
        views(r.0@) == loaded_ranges(texts(lines@)),
        r.1@ == rejected_lines(texts(lines@)),
{
    let mut ranges: Vec<IpRange> = Vec::new();
    let mut rejected: Vec<(usize, ParseError)> = Vec::new();
    let mut i: usize = 0;
    assert(texts(lines@).take(0) =~= Seq::<Seq<char>>::empty());
    assert(views(ranges@) =~= Seq::<IpRangeView>::empty());
    while i < lines.len()
        invariant
            i <= lines@.len(),
            views(ranges@) == loaded_ranges(texts(lines@).take(i as int)),
            rejected@ == rejected_lines(texts(lines@).take(i as int)),
        decreases lines@.len() - i,
    {
        let ghost pre = texts(lines@).take(i + 1);
        assert(pre.drop_last() =~= texts(lines@).take(i as int));
        assert(pre.last() == lines@[i as int]@);
        let ghost old_ranges = ranges@;
        match line_to_ip_range(lines[i].as_str()) {
            Ok(range) => {
                ranges.push(range);
                assert(views(ranges@) =~= views(old_ranges).push(range@));
            },
            Err(e) => {
                rejected.push((i, e));
            },
        }
        i = i + 1;
    }
    assert(texts(lines@).take(i as int) =~= texts(lines@));
    (ranges, rejected)
}

} // verus!
