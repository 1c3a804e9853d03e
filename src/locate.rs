use vstd::prelude::*;
use crate::addr::{addr_key, IpAddr};
use crate::record::{range_contains, views, IpRange, IpRangeView};

verus! {

/// A table in which every range is well formed (`start_ip <= end_ip`) and every
/// range ends before the next one starts: sorted ascending by start address,
/// with no two ranges overlapping.
pub open spec fn sorted_disjoint(t: Seq<IpRangeView>) -> bool {
    &&& forall|i: int| 0 <= i < t.len() ==> addr_key(#[trigger] t[i].start_ip) <= addr_key(t[i].end_ip)
    &&& forall|i: int, j: int|
        0 <= i < j < t.len() ==> addr_key(#[trigger] t[i].end_ip) < addr_key(#[trigger] t[j].start_ip)
}

/// Whether some range of `t` holds `ip`.
pub open spec fn table_holds(t: Seq<IpRangeView>, ip: IpAddr) -> bool {
    exists|k: int| 0 <= k < t.len() && range_contains(#[trigger] t[k], ip)
}

/// In a sorted, non-overlapping table no two ranges hold the same address.
pub proof fn lemma_containing_range_unique(t: Seq<IpRangeView>, ip: IpAddr, i: int, j: int)
    requires
        sorted_disjoint(t),
        0 <= i < t.len(),
        0 <= j < t.len(),
        range_contains(t[i], ip),
        range_contains(t[j], ip),
    ensures
        i == j,
{
    if i < j {
        assert(addr_key(t[i].end_ip) < addr_key(t[j].start_ip));
    } else if j < i {
        assert(addr_key(t[j].end_ip) < addr_key(t[i].start_ip));
    }
}

/// Both ends of a range of a sorted, non-overlapping table lie in that range
/// and in no other, so a lookup of either end finds that range.
pub proof fn lemma_range_ends_found(t: Seq<IpRangeView>, k: int)
    requires
        sorted_disjoint(t),
        0 <= k < t.len(),
    ensures
        range_contains(t[k], t[k].start_ip),
        range_contains(t[k], t[k].end_ip),
        forall|j: int| 0 <= j < t.len() && #[trigger] range_contains(t[j], t[k].start_ip) ==> j == k,
        forall|j: int| 0 <= j < t.len() && #[trigger] range_contains(t[j], t[k].end_ip) ==> j == k,
{
    assert forall|j: int| 0 <= j < t.len() && #[trigger] range_contains(t[j], t[k].start_ip) implies j == k by {
        lemma_containing_range_unique(t, t[k].start_ip, j, k);
    }
    assert forall|j: int| 0 <= j < t.len() && #[trigger] range_contains(t[j], t[k].end_ip) implies j == k by {
        lemma_containing_range_unique(t, t[k].end_ip, j, k);
    }
}

/// Finds the range of `ranges` whose closed interval holds `ip`, by binary
/// search.
///
/// Whatever the table, a returned range is one of its entries and holds `ip`.
/// On a sorted, non-overlapping table the search is complete: it returns
/// `None` only when no range holds `ip`. On other tables the result is some
/// entry that holds `ip`, or `None`.
pub fn find_asn(ranges: &[IpRange], ip: IpAddr) -> (r: Option<IpRange>)
    ensures
        r matches Some(found) ==> exists|k: int|
            0 <= k < ranges@.len() && found@ == #[trigger] ranges@[k]@ && range_contains(found@, ip),
        sorted_disjoint(views(ranges@)) ==> (r is None <==> !table_holds(views(ranges@), ip)),
        sorted_disjoint(views(ranges@)) ==> forall|k: int|
            0 <= k < ranges@.len() && range_contains(#[trigger] views(ranges@)[k], ip) ==> (r is Some
                && r->0@ == views(ranges@)[k]),
        ranges@.len() == 0 ==> r is None,
{
    let ghost t = views(ranges@);
    if ranges.len() == 0 {
        return None;
    }
    // The window is `[low, high)`: an empty window needs no index below zero.
    let mut low: usize = 0;
    let mut high: usize = ranges.len();
    while low < high
        invariant
            low <= high <= ranges@.len(),
            t == views(ranges@),
            sorted_disjoint(t) ==> forall|k: int|
                0 <= k < ranges@.len() && !(low <= k < high) ==> !range_contains(#[trigger] t[k], ip),
        decreases high - low,
    {
        let mid = low + (high - low) / 2;
        let cur = &ranges[mid];
        assert(t[mid as int] == cur@);
        if cur.start_ip.le(&ip) && ip.le(&cur.end_ip) {
            proof {
                if sorted_disjoint(t) {
                    assert forall|k: int|
                        0 <= k < ranges@.len() && range_contains(#[trigger] t[k], ip) implies k
                        == mid as int by {
                        lemma_containing_range_unique(t, ip, k, mid as int);
                    }
                }
            }
            return Some(cur.duplicate());
        } else if !cur.start_ip.le(&ip) {
            high = mid;
        } else {
            low = mid + 1;
        }
    }
    None
}

} // verus!
