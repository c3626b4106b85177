//! Aggregate statistics: counts of records by status, derived on demand
//! from the current store contents and the catalog size, never cached.
use vstd::prelude::*;

use crate::database::views_of;
use crate::models::{RecordView, UserAnimeData};
use crate::models::str_eq;

verus! {

/// Derived counts of records by status; `total_unmarked` is what the
/// catalog holds beyond the marked records.
pub struct AnimeStats {
    pub total_watched: i32,
    pub total_wishlist: i32,
    pub total_skipped: i32,
    pub total_unmarked: i32,
}

/// How many records of `rs` carry exactly the status `st`.
pub open spec fn count_status(rs: Seq<RecordView>, st: Seq<char>) -> nat
    decreases rs.len(),
{
    if rs.len() == 0 {
        0
    } else {
        count_status(rs.drop_last(), st) + if rs.last().status == st {
            1nat
        } else {
            0nat
        }
    }
}

/// The three status values are distinct strings.
proof fn lemma_statuses_distinct()
    ensures
        "watched"@ != "wishlist"@,
        "watched"@ != "skipped"@,
        "wishlist"@ != "skipped"@,
{
    reveal_strlit("watched");
    reveal_strlit("wishlist");
    reveal_strlit("skipped");
    assert("watched"@.len() == 7);
    assert("wishlist"@.len() == 8);
    assert("watched"@[0] == 'w');
    assert("skipped"@[0] == 's');
}

/// Each record carries one status, so the three counts together never
/// exceed the number of records.
pub proof fn lemma_counts_bounded(rs: Seq<RecordView>)
    ensures
        count_status(rs, "watched"@) + count_status(rs, "wishlist"@) + count_status(
            rs,
            "skipped"@,
        ) <= rs.len(),
    decreases rs.len(),
{
    lemma_statuses_distinct();
    if rs.len() > 0 {
        lemma_counts_bounded(rs.drop_last());
    }
}

/// Stats consistency: for a catalog of `total_catalog` items, the counts are
/// exactly the per-status record counts and the unmarked count is the
/// catalog size minus all three.
pub fn compute_stats(all_status: &Vec<UserAnimeData>, total_catalog: usize) -> (r: AnimeStats)
    requires
        all_status@.len() <= i32::MAX,
        total_catalog <= i32::MAX,
    ensures
        r.total_watched == count_status(views_of(all_status@), "watched"@),
        r.total_wishlist == count_status(views_of(all_status@), "wishlist"@),
        r.total_skipped == count_status(views_of(all_status@), "skipped"@),
        r.total_unmarked == total_catalog - r.total_watched - r.total_wishlist - r.total_skipped,
{
    let n = all_status.len();
    let ghost vs: Seq<RecordView> = views_of(all_status@);
    let mut w: i32 = 0;
    let mut wl: i32 = 0;
    let mut sk: i32 = 0;
    let mut i: usize = 0;
    while i < n
        invariant
            n == all_status@.len(),
            n <= i32::MAX,
            0 <= i <= n,
            vs == views_of(all_status@),
            w == count_status(vs.take(i as int), "watched"@),
            wl == count_status(vs.take(i as int), "wishlist"@),
            sk == count_status(vs.take(i as int), "skipped"@),
            w + wl + sk <= i,
        decreases n - i,
    {
        proof {
            assert(vs.take(i + 1).drop_last() =~= vs.take(i as int));
            assert(vs.take(i + 1).last() == all_status@[i as int]@);
        }
        let s = &all_status[i];
        if str_eq(s.status.as_str(), "watched") {
            w += 1;
        } else if str_eq(s.status.as_str(), "wishlist") {
            wl += 1;
        } else if str_eq(s.status.as_str(), "skipped") {
            sk += 1;
        }
        proof {
            lemma_statuses_distinct();
        }
        i += 1;
    }
    proof {
        assert(vs.take(n as int) =~= vs);
    }
    let total = total_catalog as i32;
    AnimeStats {
        total_watched: w,
        total_wishlist: wl,
        total_skipped: sk,
        total_unmarked: total - w - wl - sk,
    }
}

} // verus!
