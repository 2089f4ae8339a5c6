//! Per-day traffic kept in date order, with the sums over a month.
use vstd::prelude::*;
use crate::collector::{DailyRecord, MonthlyRecord};
use crate::text::{
    char_index_at, char_index_at_byte, is_prefix_of, lemma_char_index_bound,
    lemma_char_index_in_prefix, lemma_text_lt_irreflexive, lemma_text_lt_total,
    lemma_text_lt_transitive, push_char, starts_with_text, text_less, text_lt, trim_leading_zeros,
    trim_zeros,
};

verus! {

/// The traffic recorded under one day's key.
#[derive(Clone, Debug)]
pub struct DayEntry {
    /// The key of the day (`%Y-%m-%d` when the collector wrote it).
    pub day: String,
    pub record: DailyRecord,
}

/// Strictly increasing keys.
pub open spec fn keys_sorted(entries: Seq<DayEntry>) -> bool {
    forall|i: int, j: int|
        0 <= i < j < entries.len() ==> text_lt(#[trigger] entries[i].day@, #[trigger] entries[j].day@)
}

/// The position of the first entry whose key is not below `day`.
pub open spec fn lower_bound(entries: Seq<DayEntry>, day: Seq<char>) -> int
    decreases entries.len(),
{
    if entries.len() == 0 || !text_lt(entries[0].day@, day) {
        0
    } else {
        1 + lower_bound(entries.drop_first(), day)
    }
}

/// There is an entry with key `day` (in sorted entries, at `lower_bound`).
pub open spec fn has_day(entries: Seq<DayEntry>, day: Seq<char>) -> bool {
    let i = lower_bound(entries, day);
    i < entries.len() && entries[i].day@ == day
}

pub proof fn lemma_lower_bound(entries: Seq<DayEntry>, day: Seq<char>)
    ensures
        0 <= lower_bound(entries, day) <= entries.len(),
        forall|j: int| 0 <= j < lower_bound(entries, day) ==> text_lt(#[trigger] entries[j].day@, day),
        lower_bound(entries, day) < entries.len() ==> !text_lt(
            entries[lower_bound(entries, day)].day@,
            day,
        ),
    decreases entries.len(),
{
    if entries.len() > 0 && text_lt(entries[0].day@, day) {
        let rest = entries.drop_first();
        lemma_lower_bound(rest, day);
        assert forall|j: int| 0 <= j < lower_bound(entries, day) implies text_lt(
            #[trigger] entries[j].day@,
            day,
        ) by {
            if j > 0 {
                assert(entries[j] == rest[j - 1]);
            }
        }
    }
}

/// In sorted entries, an entry with key `day` can only stand at `lower_bound`,
/// and inserting a new key there keeps the entries sorted.
pub proof fn lemma_sorted_insert(entries: Seq<DayEntry>, e: DayEntry)
    requires
        keys_sorted(entries),
        !has_day(entries, e.day@),
    ensures
        keys_sorted(entries.insert(lower_bound(entries, e.day@), e)),
        forall|j: int| 0 <= j < entries.len() ==> (#[trigger] entries[j]).day@ != e.day@,
{
    let d = e.day@;
    let i = lower_bound(entries, d);
    lemma_lower_bound(entries, d);
    if i < entries.len() {
        lemma_text_lt_total(entries[i].day@, d);
    }
    assert forall|j: int| i <= j < entries.len() implies text_lt(d, #[trigger] entries[j].day@) by {
        if j > i {
            lemma_text_lt_transitive(d, entries[i].day@, entries[j].day@);
        }
    }
    assert forall|j: int| 0 <= j < entries.len() implies (#[trigger] entries[j]).day@ != d by {
        if j < i {
            if entries[j].day@ == d {
                lemma_text_lt_irreflexive(d);
            }
        } else {
            if entries[j].day@ == d {
                lemma_text_lt_irreflexive(d);
            }
        }
    }
    let n = entries.insert(i, e);
    assert forall|a: int, b: int| 0 <= a < b < n.len() implies text_lt(
        #[trigger] n[a].day@,
        #[trigger] n[b].day@,
    ) by {
        if b < i {
        } else if b == i {
        } else if a < i {
            lemma_text_lt_transitive(n[a].day@, d, n[b].day@);
        } else if a == i {
        } else {
        }
    }
}

/// In sorted entries, the entry at `lower_bound` is the only one with its key.
pub proof fn lemma_sorted_unique(entries: Seq<DayEntry>, day: Seq<char>)
    requires
        keys_sorted(entries),
        has_day(entries, day),
    ensures
        forall|j: int|
            0 <= j < entries.len() && (#[trigger] entries[j]).day@ == day ==> j == lower_bound(
                entries,
                day,
            ),
{
    let i = lower_bound(entries, day);
    lemma_lower_bound(entries, day);
    assert forall|j: int| 0 <= j < entries.len() && (#[trigger] entries[j]).day@ == day implies j
        == i by {
        lemma_text_lt_irreflexive(day);
        if j < i {
            assert(text_lt(entries[j].day@, entries[i].day@));
        } else if j > i {
            assert(text_lt(entries[i].day@, entries[j].day@));
        }
    }
}

/// A record after one reading added `dl` and `ul` bytes to it.
pub open spec fn with_traffic(r: DailyRecord, dl: u64, ul: u64) -> DailyRecord {
    DailyRecord {
        date: r.date,
        download: (r.download + dl) as u64,
        upload: (r.upload + ul) as u64,
        total: (r.download + dl + r.upload + ul) as u64,
    }
}

/// Adding a reading to the record of `day` overflows no counter.
pub open spec fn traffic_fits(entries: Seq<DayEntry>, day: Seq<char>, dl: u64, ul: u64) -> bool {
    if has_day(entries, day) {
        let r = entries[lower_bound(entries, day)].record;
        &&& r.download + dl <= u64::MAX
        &&& r.upload + ul <= u64::MAX
        &&& r.download + dl + r.upload + ul <= u64::MAX
    } else {
        dl + ul <= u64::MAX
    }
}

/// The entries after a reading of `dl` and `ul` bytes on `day`: the day's
/// record grows, or a record for the day is created.
pub open spec fn traffic_added(entries: Seq<DayEntry>, day: String, dl: u64, ul: u64) -> Seq<
    DayEntry,
> {
    let i = lower_bound(entries, day@);
    if has_day(entries, day@) {
        entries.update(
            i,
            DayEntry { day: entries[i].day, record: with_traffic(entries[i].record, dl, ul) },
        )
    } else {
        entries.insert(
            i,
            DayEntry {
                day: day,
                record: DailyRecord { date: day, download: dl, upload: ul, total: (dl + ul) as u64 },
            },
        )
    }
}

/// Every record's total is its download plus its upload.
pub open spec fn totals_consistent(entries: Seq<DayEntry>) -> bool {
    forall|i: int|
        0 <= i < entries.len() ==> (#[trigger] entries[i]).record.total == entries[i].record.download
            + entries[i].record.upload
}

/// Law: a reading keeps every record's total equal to its download plus its
/// upload.
pub proof fn law_reading_keeps_totals(entries: Seq<DayEntry>, day: String, dl: u64, ul: u64)
    requires
        traffic_fits(entries, day@, dl, ul),
        totals_consistent(entries),
    ensures
        totals_consistent(traffic_added(entries, day, dl, ul)),
{
    lemma_lower_bound(entries, day@);
    let n = traffic_added(entries, day, dl, ul);
    let i = lower_bound(entries, day@);
    if !has_day(entries, day@) {
        assert forall|j: int| 0 <= j < n.len() implies (#[trigger] n[j]).record.total
            == n[j].record.download + n[j].record.upload by {
            if j < i {
                assert(n[j] == entries[j]);
            } else if j > i {
                assert(n[j] == entries[j - 1]);
            }
        }
    }
}

/// Bytes downloaded on the days whose key starts with `month`.
pub open spec fn month_download(entries: Seq<DayEntry>, month: Seq<char>) -> int
    decreases entries.len(),
{
    if entries.len() == 0 {
        0
    } else {
        month_download(entries.drop_last(), month) + if is_prefix_of(
            month,
            entries.last().day@,
        ) {
            entries.last().record.download as int
        } else {
            0
        }
    }
}

/// Bytes uploaded on the days whose key starts with `month`.
pub open spec fn month_upload(entries: Seq<DayEntry>, month: Seq<char>) -> int
    decreases entries.len(),
{
    if entries.len() == 0 {
        0
    } else {
        month_upload(entries.drop_last(), month) + if is_prefix_of(month, entries.last().day@) {
            entries.last().record.upload as int
        } else {
            0
        }
    }
}

proof fn lemma_month_sums_grow(entries: Seq<DayEntry>, month: Seq<char>, k: int)
    requires
        0 <= k <= entries.len(),
    ensures
        month_download(entries.take(k), month) <= month_download(entries, month),
        month_upload(entries.take(k), month) <= month_upload(entries, month),
    decreases entries.len(),
{
    if k < entries.len() {
        assert(entries.drop_last().take(k) =~= entries.take(k));
        lemma_month_sums_grow(entries.drop_last(), month, k);
    } else {
        assert(entries.take(k) =~= entries);
    }
}

proof fn lemma_month_sums_insert(entries: Seq<DayEntry>, i: int, e: DayEntry, month: Seq<char>)
    requires
        0 <= i <= entries.len(),
    ensures
        month_download(entries.insert(i, e), month) == month_download(entries, month) + if is_prefix_of(
            month,
            e.day@,
        ) {
            e.record.download as int
        } else {
            0
        },
        month_upload(entries.insert(i, e), month) == month_upload(entries, month) + if is_prefix_of(
            month,
            e.day@,
        ) {
            e.record.upload as int
        } else {
            0
        },
    decreases entries.len(),
{
    let n = entries.insert(i, e);
    if i == entries.len() {
        assert(n.drop_last() =~= entries);
    } else {
        assert(n.drop_last() =~= entries.drop_last().insert(i, e));
        lemma_month_sums_insert(entries.drop_last(), i, e, month);
    }
}

proof fn lemma_month_sums_update(entries: Seq<DayEntry>, i: int, e: DayEntry, month: Seq<char>)
    requires
        0 <= i < entries.len(),
        e.day@ == entries[i].day@,
    ensures
        month_download(entries.update(i, e), month) == month_download(entries, month) + if is_prefix_of(
            month,
            e.day@,
        ) {
            e.record.download - entries[i].record.download
        } else {
            0
        },
        month_upload(entries.update(i, e), month) == month_upload(entries, month) + if is_prefix_of(
            month,
            e.day@,
        ) {
            e.record.upload - entries[i].record.upload
        } else {
            0
        },
    decreases entries.len(),
{
    let n = entries.update(i, e);
    if i == entries.len() - 1 {
        assert(n.drop_last() =~= entries.drop_last());
    } else {
        assert(n.drop_last() =~= entries.drop_last().update(i, e));
        lemma_month_sums_update(entries.drop_last(), i, e, month);
    }
}

/// Law: a reading of `dl` and `ul` bytes on `day` adds exactly that traffic
/// to the sums of every month that the day's key starts with, and leaves the
/// sums of every other month as they were.
pub proof fn law_reading_adds_to_its_month(
    entries: Seq<DayEntry>,
    day: String,
    dl: u64,
    ul: u64,
    month: Seq<char>,
)
    requires
        traffic_fits(entries, day@, dl, ul),
    ensures
        month_download(traffic_added(entries, day, dl, ul), month) == month_download(entries, month)
            + if is_prefix_of(month, day@) {
            dl as int
        } else {
            0
        },
        month_upload(traffic_added(entries, day, dl, ul), month) == month_upload(entries, month)
            + if is_prefix_of(month, day@) {
            ul as int
        } else {
            0
        },
{
    let i = lower_bound(entries, day@);
    lemma_lower_bound(entries, day@);
    if has_day(entries, day@) {
        let e = DayEntry { day: entries[i].day, record: with_traffic(entries[i].record, dl, ul) };
        lemma_month_sums_update(entries, i, e, month);
    } else {
        let e = DayEntry {
            day: day,
            record: DailyRecord { date: day, download: dl, upload: ul, total: (dl + ul) as u64 },
        };
        lemma_month_sums_insert(entries, i, e, month);
    }
}

/// The last `n` items, newest first.
pub open spec fn newest_first<T>(s: Seq<T>, n: int) -> Seq<T> {
    let k = if n < s.len() {
        n
    } else {
        s.len() as int
    };
    Seq::new(k as nat, |i: int| s[s.len() - 1 - i])
}

/// The month of a day key: its first 7 bytes (`%Y-%m` of a `%Y-%m-%d` key).
pub open spec fn month_key(day: Seq<char>) -> Seq<char> {
    match char_index_at_byte(day, 7) {
        Some(k) => day.take(k),
        None => day,
    }
}

/// Month sums: (month, bytes downloaded, bytes uploaded).
pub type MonthSums = Seq<(Seq<char>, int, int)>;

/// The position of the first sum whose month is not below `month`.
pub open spec fn sums_lower_bound(sums: MonthSums, month: Seq<char>) -> int
    decreases sums.len(),
{
    if sums.len() == 0 || !text_lt(sums[0].0, month) {
        0
    } else {
        1 + sums_lower_bound(sums.drop_first(), month)
    }
}

/// There is a sum for `month` (at `sums_lower_bound`).
pub open spec fn has_month(sums: MonthSums, month: Seq<char>) -> bool {
    let i = sums_lower_bound(sums, month);
    i < sums.len() && sums[i].0 == month
}

/// The sums after one day of `dl` and `ul` bytes in `month` is added.
pub open spec fn sums_add(sums: MonthSums, month: Seq<char>, dl: int, ul: int) -> MonthSums {
    let i = sums_lower_bound(sums, month);
    if has_month(sums, month) {
        sums.update(i, (month, sums[i].1 + dl, sums[i].2 + ul))
    } else {
        sums.insert(i, (month, dl, ul))
    }
}

/// The sums of the days of each month, in increasing month order.
pub open spec fn month_sums(entries: Seq<DayEntry>) -> MonthSums
    decreases entries.len(),
{
    if entries.len() == 0 {
        Seq::empty()
    } else {
        let e = entries.last();
        sums_add(
            month_sums(entries.drop_last()),
            month_key(e.day@),
            e.record.download as int,
            e.record.upload as int,
        )
    }
}

/// Summing the months day by day finds every key at least 7 bytes long
/// with a character boundary there, and overflows no sum.
pub open spec fn month_sums_fit(entries: Seq<DayEntry>) -> bool
    decreases entries.len(),
{
    if entries.len() == 0 {
        true
    } else {
        let e = entries.last();
        let prev = month_sums(entries.drop_last());
        let m = month_key(e.day@);
        let i = sums_lower_bound(prev, m);
        &&& month_sums_fit(entries.drop_last())
        &&& char_index_at_byte(e.day@, 7) is Some
        &&& has_month(prev, m) ==> prev[i].1 + e.record.download <= u64::MAX && prev[i].2
            + e.record.upload <= u64::MAX
    }
}

proof fn lemma_month_sums_fit_prefix(entries: Seq<DayEntry>, k: int)
    requires
        0 <= k <= entries.len(),
        month_sums_fit(entries),
    ensures
        month_sums_fit(entries.take(k)),
    decreases entries.len(),
{
    if k < entries.len() {
        assert(entries.drop_last().take(k) =~= entries.take(k));
        lemma_month_sums_fit_prefix(entries.drop_last(), k);
    } else {
        assert(entries.take(k) =~= entries);
    }
}

/// Strictly increasing months.
pub open spec fn months_sorted(sums: MonthSums) -> bool {
    forall|i: int, j: int| 0 <= i < j < sums.len() ==> text_lt(#[trigger] sums[i].0, #[trigger] sums[j].0)
}

/// Bytes downloaded on the days whose month key is `month`.
pub open spec fn key_download(entries: Seq<DayEntry>, month: Seq<char>) -> int
    decreases entries.len(),
{
    if entries.len() == 0 {
        0
    } else {
        key_download(entries.drop_last(), month) + if month_key(entries.last().day@) == month {
            entries.last().record.download as int
        } else {
            0
        }
    }
}

/// Bytes uploaded on the days whose month key is `month`.
pub open spec fn key_upload(entries: Seq<DayEntry>, month: Seq<char>) -> int
    decreases entries.len(),
{
    if entries.len() == 0 {
        0
    } else {
        key_upload(entries.drop_last(), month) + if month_key(entries.last().day@) == month {
            entries.last().record.upload as int
        } else {
            0
        }
    }
}

/// Some day has month key `month`.
pub open spec fn has_day_in(entries: Seq<DayEntry>, month: Seq<char>) -> bool {
    exists|i: int| 0 <= i < entries.len() && month_key((#[trigger] entries[i]).day@) == month
}

proof fn lemma_key_sums_absent(entries: Seq<DayEntry>, month: Seq<char>)
    requires
        !has_day_in(entries, month),
    ensures
        key_download(entries, month) == 0,
        key_upload(entries, month) == 0,
    decreases entries.len(),
{
    if entries.len() > 0 {
        let prev = entries.drop_last();
        assert(!has_day_in(prev, month)) by {
            if has_day_in(prev, month) {
                let i = choose|i: int| 0 <= i < prev.len() && month_key((#[trigger] prev[i]).day@) == month;
                assert(entries[i] == prev[i]);
            }
        }
        assert(entries[entries.len() - 1] == entries.last());
        lemma_key_sums_absent(prev, month);
    }
}

proof fn lemma_sums_lower_bound(sums: MonthSums, month: Seq<char>)
    ensures
        0 <= sums_lower_bound(sums, month) <= sums.len(),
        forall|j: int| 0 <= j < sums_lower_bound(sums, month) ==> text_lt((#[trigger] sums[j]).0, month),
        sums_lower_bound(sums, month) < sums.len() ==> !text_lt(
            sums[sums_lower_bound(sums, month)].0,
            month,
        ),
    decreases sums.len(),
{
    if sums.len() > 0 && text_lt(sums[0].0, month) {
        let rest = sums.drop_first();
        lemma_sums_lower_bound(rest, month);
        assert forall|j: int| 0 <= j < sums_lower_bound(sums, month) implies text_lt(
            (#[trigger] sums[j]).0,
            month,
        ) by {
            if j > 0 {
                assert(sums[j] == rest[j - 1]);
            }
        }
    }
}

/// In sorted sums, `has_month` says whether any sum is of `month`; a new
/// month inserted at `sums_lower_bound` keeps them sorted.
proof fn lemma_sums_sorted(sums: MonthSums, month: Seq<char>, dl: int, ul: int)
    requires
        months_sorted(sums),
    ensures
        has_month(sums, month) <==> exists|j: int| 0 <= j < sums.len() && (#[trigger] sums[j]).0 == month,
        has_month(sums, month) ==> forall|j: int|
            0 <= j < sums.len() && (#[trigger] sums[j]).0 == month ==> j == sums_lower_bound(sums, month),
        !has_month(sums, month) ==> months_sorted(
            sums.insert(sums_lower_bound(sums, month), (month, dl, ul)),
        ),
{
    let i = sums_lower_bound(sums, month);
    lemma_sums_lower_bound(sums, month);
    lemma_text_lt_irreflexive(month);
    if i < sums.len() {
        lemma_text_lt_total(sums[i].0, month);
    }
    assert forall|j: int| 0 <= j < sums.len() && (#[trigger] sums[j]).0 == month implies j == i by {
        if j > i {
            assert(text_lt(sums[i].0, sums[j].0));
        }
    }
    if !has_month(sums, month) {
        assert forall|j: int| i <= j < sums.len() implies text_lt(month, (#[trigger] sums[j]).0) by {
            if j > i {
                lemma_text_lt_transitive(month, sums[i].0, sums[j].0);
            }
        }
        let n = sums.insert(i, (month, dl, ul));
        assert forall|a: int, b: int| 0 <= a < b < n.len() implies text_lt(
            (#[trigger] n[a]).0,
            (#[trigger] n[b]).0,
        ) by {
            if b < i {
            } else if b == i {
            } else if a < i {
                lemma_text_lt_transitive(n[a].0, month, n[b].0);
            } else if a == i {
            } else {
            }
        }
    }
}

/// Law: the month sums hold, in increasing month order, exactly the months
/// of the days, each with the sum of its days' traffic.
pub proof fn law_month_sums(entries: Seq<DayEntry>)
    ensures
        months_sorted(month_sums(entries)),
        forall|j: int|
            0 <= j < month_sums(entries).len() ==> (#[trigger] month_sums(entries)[j]).1 == key_download(
                entries,
                month_sums(entries)[j].0,
            ) && month_sums(entries)[j].2 == key_upload(entries, month_sums(entries)[j].0),
        forall|month: Seq<char>|
            (exists|j: int|
                0 <= j < month_sums(entries).len() && (#[trigger] month_sums(entries)[j]).0 == month)
                <==> #[trigger] has_day_in(entries, month),
    decreases entries.len(),
{
    if entries.len() > 0 {
        let prev_entries = entries.drop_last();
        law_month_sums(prev_entries);
        let prev = month_sums(prev_entries);
        let e = entries.last();
        let m = month_key(e.day@);
        let dl = e.record.download as int;
        let ul = e.record.upload as int;
        let i = sums_lower_bound(prev, m);
        let sums = month_sums(entries);
        assert(sums == sums_add(prev, m, dl, ul));
        lemma_sums_sorted(prev, m, dl, ul);
        lemma_sums_lower_bound(prev, m);
        assert(entries[entries.len() - 1] == e);
        assert forall|month: Seq<char>| #[trigger] has_day_in(entries, month) <==> (has_day_in(
            prev_entries,
            month,
        ) || m == month) by {
            if has_day_in(entries, month) && !has_day_in(prev_entries, month) {
                let k = choose|k: int| 0 <= k < entries.len() && month_key((#[trigger] entries[k]).day@) == month;
                if k < entries.len() - 1 {
                    assert(prev_entries[k] == entries[k]);
                }
            }
            if has_day_in(prev_entries, month) {
                let k = choose|k: int| 0 <= k < prev_entries.len() && month_key((#[trigger] prev_entries[k]).day@) == month;
                assert(prev_entries[k] == entries[k]);
            }
        }
        if has_month(prev, m) {
            assert forall|j: int| 0 <= j < sums.len() implies (#[trigger] sums[j]).1 == key_download(
                entries,
                sums[j].0,
            ) && sums[j].2 == key_upload(entries, sums[j].0) by {
                assert(prev[j].0 == sums[j].0);
            }
            assert forall|month: Seq<char>|
                (exists|j: int| 0 <= j < sums.len() && (#[trigger] sums[j]).0 == month) <==> #[trigger] has_day_in(
                    entries,
                    month,
                ) by {
                if exists|j: int| 0 <= j < sums.len() && (#[trigger] sums[j]).0 == month {
                    let j = choose|j: int| 0 <= j < sums.len() && (#[trigger] sums[j]).0 == month;
                    assert(prev[j].0 == month);
                }
                if has_day_in(entries, month) {
                    if has_day_in(prev_entries, month) {
                        let j = choose|j: int| 0 <= j < prev.len() && (#[trigger] prev[j]).0 == month;
                        assert(sums[j].0 == month);
                    } else {
                        assert(sums[i].0 == month);
                    }
                }
            }
        } else {
            assert(!has_day_in(prev_entries, m));
            lemma_key_sums_absent(prev_entries, m);
            assert forall|j: int| 0 <= j < sums.len() implies (#[trigger] sums[j]).1 == key_download(
                entries,
                sums[j].0,
            ) && sums[j].2 == key_upload(entries, sums[j].0) by {
                if j < i {
                    assert(sums[j] == prev[j]);
                } else if j > i {
                    assert(sums[j] == prev[j - 1]);
                }
            }
            assert forall|month: Seq<char>|
                (exists|j: int| 0 <= j < sums.len() && (#[trigger] sums[j]).0 == month) <==> #[trigger] has_day_in(
                    entries,
                    month,
                ) by {
                if exists|j: int| 0 <= j < sums.len() && (#[trigger] sums[j]).0 == month {
                    let j = choose|j: int| 0 <= j < sums.len() && (#[trigger] sums[j]).0 == month;
                    if j < i {
                        assert(prev[j].0 == month);
                    } else if j > i {
                        assert(prev[j - 1].0 == month);
                    }
                }
                if has_day_in(entries, month) {
                    if has_day_in(prev_entries, month) {
                        let j = choose|j: int| 0 <= j < prev.len() && (#[trigger] prev[j]).0 == month;
                        if j < i {
                            assert(sums[j].0 == month);
                        } else {
                            assert(sums[j + 1].0 == month);
                        }
                    } else {
                        assert(sums[i].0 == month);
                    }
                }
            }
        }
    } else {
        assert forall|month: Seq<char>| !#[trigger] has_day_in(entries, month) by {}
    }
}

/// Law: when `month` is a whole 7-byte month key (`%Y-%m`) and every day
/// has a month key, the days whose key starts with `month` are exactly the
/// days of that month key; so the traffic of the current month equals the
/// month sum of `month` (see `law_month_sums`).
pub proof fn law_current_month_is_its_month_sum(entries: Seq<DayEntry>, month: Seq<char>)
    requires
        month_sums_fit(entries),
        char_index_at_byte(month, 7) == Some(month.len() as int),
    ensures
        month_download(entries, month) == key_download(entries, month),
        month_upload(entries, month) == key_upload(entries, month),
    decreases entries.len(),
{
    if entries.len() > 0 {
        let prev = entries.drop_last();
        law_current_month_is_its_month_sum(prev, month);
        let day = entries.last().day@;
        if is_prefix_of(month, day) {
            lemma_char_index_in_prefix(month, day, 7);
        }
        if month_key(day) == month {
            let k = char_index_at_byte(day, 7)->0;
            lemma_char_index_bound(day, 7);
            assert(day.take(k) == month);
            assert(day.take(month.len() as int) =~= month);
        }
    }
}

/// The label of a month key: `"2024-03"` becomes `"2024年3月"` (the first 4
/// bytes, 年, the bytes from the sixth on without leading zeros, 月).
pub open spec fn month_label(month: Seq<char>) -> Seq<char> {
    let k4 = char_index_at_byte(month, 4).unwrap();
    let k5 = char_index_at_byte(month, 5).unwrap();
    month.take(k4) + seq!['年'] + trim_leading_zeros(month.skip(k5)) + seq!['月']
}

/// Byte offsets 4 and 5 are character boundaries of the month key.
pub open spec fn label_fits(month: Seq<char>) -> bool {
    char_index_at_byte(month, 4) is Some && char_index_at_byte(month, 5) is Some
}

/// The summary of the last `count` months can be made: the month sums fit,
/// and each shown month has a label and a total that fits.
pub open spec fn summary_fits(entries: Seq<DayEntry>, count: int) -> bool {
    let top = newest_first(month_sums(entries), count);
    &&& month_sums_fit(entries)
    &&& forall|i: int|
        0 <= i < top.len() ==> label_fits((#[trigger] top[i]).0) && top[i].1 + top[i].2
            <= u64::MAX
}

/// The month sums held in a vector.
pub open spec fn sums_view(v: Seq<(String, u64, u64)>) -> MonthSums {
    v.map_values(|t: (String, u64, u64)| (t.0@, t.1 as int, t.2 as int))
}

/// The entries as a map from day keys to records.
pub open spec fn as_map(entries: Seq<DayEntry>) -> Map<Seq<char>, DailyRecord>
    decreases entries.len(),
{
    if entries.len() == 0 {
        Map::empty()
    } else {
        as_map(entries.drop_last()).insert(entries.last().day@, entries.last().record)
    }
}

proof fn lemma_as_map(entries: Seq<DayEntry>)
    requires
        keys_sorted(entries),
    ensures
        forall|k: Seq<char>|
            #[trigger] as_map(entries).dom().contains(k) <==> exists|i: int|
                0 <= i < entries.len() && (#[trigger] entries[i]).day@ == k,
        forall|i: int|
            0 <= i < entries.len() ==> as_map(entries)[(#[trigger] entries[i]).day@]
                == entries[i].record,
    decreases entries.len(),
{
    if entries.len() > 0 {
        let prev = entries.drop_last();
        let last = entries.len() - 1;
        assert(keys_sorted(prev));
        lemma_as_map(prev);
        assert forall|k: Seq<char>| #[trigger] as_map(entries).dom().contains(k) <==> exists|i: int|
            0 <= i < entries.len() && (#[trigger] entries[i]).day@ == k by {
            if exists|i: int| 0 <= i < entries.len() && (#[trigger] entries[i]).day@ == k {
                let i = choose|i: int| 0 <= i < entries.len() && (#[trigger] entries[i]).day@ == k;
                if i < last {
                    assert(prev[i] == entries[i]);
                }
            }
            if as_map(prev).dom().contains(k) {
                let i = choose|i: int| 0 <= i < prev.len() && (#[trigger] prev[i]).day@ == k;
                assert(prev[i] == entries[i]);
            }
        }
        assert forall|i: int| 0 <= i < entries.len() implies as_map(entries)[(#[trigger] entries[i]).day@]
            == entries[i].record by {
            if i < last {
                assert(prev[i] == entries[i]);
                assert(text_lt(entries[i].day@, entries[last].day@));
                lemma_text_lt_irreflexive(entries[i].day@);
            }
        }
    }
}

/// Law: storing a record under a day key changes the map of days in
/// exactly that key, as `BTreeMap::insert` does.
pub proof fn law_insert_is_map_insert(entries: Seq<DayEntry>, day: String, record: DailyRecord)
    requires
        keys_sorted(entries),
    ensures
        ({
            let i = lower_bound(entries, day@);
            let stored = if has_day(entries, day@) {
                entries.update(i, DayEntry { day: entries[i].day, record: record })
            } else {
                entries.insert(i, DayEntry { day: day, record: record })
            };
            as_map(stored) == as_map(entries).insert(day@, record)
        }),
{
    let i = lower_bound(entries, day@);
    lemma_lower_bound(entries, day@);
    lemma_as_map(entries);
    if has_day(entries, day@) {
        let n = entries.update(i, DayEntry { day: entries[i].day, record: record });
        assert(keys_sorted(n));
        lemma_as_map(n);
        lemma_sorted_unique(entries, day@);
        assert(as_map(n) =~= as_map(entries).insert(day@, record)) by {
            assert forall|k: Seq<char>| #[trigger] as_map(n).dom().contains(k) implies as_map(
                entries,
            ).insert(day@, record).dom().contains(k) by {
                let j = choose|j: int| 0 <= j < n.len() && (#[trigger] n[j]).day@ == k;
                assert(entries[j].day@ == k);
            }
            assert forall|k: Seq<char>| #[trigger] as_map(entries).insert(day@, record).dom().contains(
                k,
            ) implies as_map(n).dom().contains(k) && as_map(n)[k] == as_map(entries).insert(
                day@,
                record,
            )[k] by {
                if k == day@ {
                    assert(n[i].day@ == k);
                } else {
                    let j = choose|j: int| 0 <= j < entries.len() && (#[trigger] entries[j]).day@ == k;
                    assert(n[j].day@ == k);
                }
            }
        }
    } else {
        let e = DayEntry { day: day, record: record };
        let n = entries.insert(i, e);
        lemma_sorted_insert(entries, e);
        lemma_as_map(n);
        assert(as_map(n) =~= as_map(entries).insert(day@, record)) by {
            assert forall|k: Seq<char>| #[trigger] as_map(n).dom().contains(k) implies as_map(
                entries,
            ).insert(day@, record).dom().contains(k) by {
                let j = choose|j: int| 0 <= j < n.len() && (#[trigger] n[j]).day@ == k;
                if j < i {
                    assert(entries[j].day@ == k);
                } else if j > i {
                    assert(entries[j - 1].day@ == k);
                }
            }
            assert forall|k: Seq<char>| #[trigger] as_map(entries).insert(day@, record).dom().contains(
                k,
            ) implies as_map(n).dom().contains(k) && as_map(n)[k] == as_map(entries).insert(
                day@,
                record,
            )[k] by {
                if k == day@ {
                    assert(n[i].day@ == k);
                } else {
                    let j = choose|j: int| 0 <= j < entries.len() && (#[trigger] entries[j]).day@ == k;
                    if j < i {
                        assert(n[j].day@ == k);
                    } else {
                        assert(n[j + 1].day@ == k);
                    }
                }
            }
        }
    }
}

/// The record that a reading of `dl` and `ul` bytes leaves for `day`.
pub open spec fn record_after_reading(entries: Seq<DayEntry>, day: String, dl: u64, ul: u64) -> DailyRecord {
    if has_day(entries, day@) {
        with_traffic(entries[lower_bound(entries, day@)].record, dl, ul)
    } else {
        DailyRecord { date: day, download: dl, upload: ul, total: (dl + ul) as u64 }
    }
}

/// Law: a reading changes the map of days in the reading's day alone, whose
/// record gains the reading's traffic (or starts with it).
pub proof fn law_reading_is_map_update(entries: Seq<DayEntry>, day: String, dl: u64, ul: u64)
    requires
        keys_sorted(entries),
    ensures
        as_map(traffic_added(entries, day, dl, ul)) == as_map(entries).insert(
            day@,
            record_after_reading(entries, day, dl, ul),
        ),
{
    law_insert_is_map_insert(entries, day, record_after_reading(entries, day, dl, ul));
}

/// Law: the newest `n` items are as many as asked for, or all items when
/// there are fewer, and they are the last items in reverse order.
pub proof fn law_newest_first<T>(s: Seq<T>, n: int)
    requires
        n >= 0,
    ensures
        n <= s.len() ==> newest_first(s, n).len() == n,
        n >= s.len() ==> newest_first(s, n).len() == s.len(),
        forall|i: int| 0 <= i < newest_first(s, n).len() ==> #[trigger] newest_first(s, n)[i] == s[s.len() - 1 - i],
{
}

/// Per-day traffic with one entry per key, in increasing key order: a map
/// from day keys to records.
pub struct DailyLog {
    entries: Vec<DayEntry>,
}

impl View for DailyLog {
    type V = Seq<DayEntry>;

    closed spec fn view(&self) -> Seq<DayEntry> {
        self.entries@
    }
}

impl DailyLog {
    #[verifier::type_invariant]
    spec fn sorted(self) -> bool {
        keys_sorted(self.entries@)
    }

    /// An empty log.
    pub fn new() -> (r: Self)
        ensures
            r@.len() == 0,
    {
        DailyLog { entries: Vec::new() }
    }

    /// The entries in increasing key order.
    pub fn entries(&self) -> (r: &Vec<DayEntry>)
        ensures
            r@ == self@,
            keys_sorted(self@),
    {
        proof {
            use_type_invariant(self);
        }
        &self.entries
    }

    /// The position of the first entry whose key is not below `day`.
    fn position(&self, day: &String) -> (i: usize)
        ensures
            i == lower_bound(self@, day@),
    {
        let mut i: usize = 0;
        assert(self.entries@.skip(0) =~= self.entries@);
        while i < self.entries.len() && text_less(self.entries[i].day.as_str(), day.as_str())
            invariant
                i <= self.entries@.len(),
                lower_bound(self.entries@, day@) == i + lower_bound(
                    self.entries@.skip(i as int),
                    day@,
                ),
            decreases self.entries.len() - i,
        {
            assert(self.entries@.skip(i as int).drop_first() =~= self.entries@.skip(i + 1));
            i = i + 1;
        }
        i
    }

    /// Stores `record` under `day`, replacing the record stored under an equal
    /// key (whose key stays), as `BTreeMap::insert` does.
    pub fn insert(&mut self, day: String, record: DailyRecord)
        ensures
            keys_sorted(final(self)@),
            ({
                let i = lower_bound(old(self)@, day@);
                if has_day(old(self)@, day@) {
                    final(self)@ == old(self)@.update(
                        i,
                        DayEntry { day: old(self)@[i].day, record: record },
                    )
                } else {
                    final(self)@ == old(self)@.insert(i, DayEntry { day: day, record: record })
                }
            }),
    {
        proof {
            use_type_invariant(&*self);
        }
        let i = self.position(&day);
        proof {
            lemma_lower_bound(self@, day@);
        }
        let mut entries: Vec<DayEntry> = Vec::new();
        std::mem::swap(&mut entries, &mut self.entries);
        if i < entries.len() && entries[i].day == day {
            let e = DayEntry { day: entries[i].day.clone(), record };
            assert(keys_sorted(entries@.update(i as int, e)));
            entries.set(i, e);
        } else {
            let e = DayEntry { day, record };
            proof {
                lemma_sorted_insert(entries@, e);
            }
            entries.insert(i, e);
        }
        self.entries = entries;
    }

    /// Adds a reading of `dl` downloaded and `ul` uploaded bytes to the record
    /// of `day`, creating it when there is none. Returns false, changing
    /// nothing, when a counter would overflow.
    pub fn add_traffic(&mut self, day: &String, dl: u64, ul: u64) -> (ok: bool)
        ensures
            ok == traffic_fits(old(self)@, day@, dl, ul),
            ok ==> final(self)@ == traffic_added(old(self)@, *day, dl, ul),
            !ok ==> final(self)@ == old(self)@,
            keys_sorted(final(self)@),
    {
        proof {
            use_type_invariant(&*self);
        }
        let i = self.position(day);
        proof {
            lemma_lower_bound(self@, day@);
        }
        if i < self.entries.len() && self.entries[i].day == *day {
            let r = &self.entries[i].record;
            if r.download > u64::MAX - dl || r.upload > u64::MAX - ul {
                return false;
            }
            let download = r.download + dl;
            let upload = r.upload + ul;
            if download > u64::MAX - upload {
                return false;
            }
            let e = DayEntry {
                day: self.entries[i].day.clone(),
                record: DailyRecord {
                    date: r.date.clone(),
                    download,
                    upload,
                    total: download + upload,
                },
            };
            let mut entries: Vec<DayEntry> = Vec::new();
            std::mem::swap(&mut entries, &mut self.entries);
            assert(keys_sorted(entries@.update(i as int, e)));
            entries.set(i, e);
            self.entries = entries;
        } else {
            if dl > u64::MAX - ul {
                return false;
            }
            let e = DayEntry {
                day: day.clone(),
                record: DailyRecord { date: day.clone(), download: dl, upload: ul, total: dl + ul },
            };
            let mut entries: Vec<DayEntry> = Vec::new();
            std::mem::swap(&mut entries, &mut self.entries);
            proof {
                lemma_sorted_insert(entries@, e);
            }
            entries.insert(i, e);
            self.entries = entries;
        }
        true
    }

    /// Bytes downloaded and uploaded on the days whose key starts with
    /// `month`, or `None` when a sum overflows.
    pub fn month_totals(&self, month: &String) -> (r: Option<(u64, u64)>)
        ensures
            r is Some <==> (month_download(self@, month@) <= u64::MAX && month_upload(
                self@,
                month@,
            ) <= u64::MAX),
            r matches Some(t) ==> t.0 == month_download(self@, month@) && t.1 == month_upload(
                self@,
                month@,
            ),
    {
        let mut down: u64 = 0;
        let mut up: u64 = 0;
        let mut i: usize = 0;
        while i < self.entries.len()
            invariant
                i <= self.entries@.len(),
                down == month_download(self.entries@.take(i as int), month@),
                up == month_upload(self.entries@.take(i as int), month@),
            decreases self.entries.len() - i,
        {
            assert(self.entries@.take(i + 1).drop_last() =~= self.entries@.take(i as int));
            let e = &self.entries[i];
            if starts_with_text(e.day.as_str(), month.as_str()) {
                if down > u64::MAX - e.record.download || up > u64::MAX - e.record.upload {
                    proof {
                        lemma_month_sums_grow(self.entries@, month@, i + 1);
                    }
                    return None;
                }
                down = down + e.record.download;
                up = up + e.record.upload;
            }
            i = i + 1;
        }
        assert(self.entries@.take(i as int) =~= self.entries@);
        Some((down, up))
    }

    /// The records of the last `count` days, newest first.
    pub fn recent_days(&self, count: usize) -> (r: Vec<DailyRecord>)
        ensures
            r@ == newest_first(self@, count as int).map_values(|e: DayEntry| e.record),
    {
        let n = self.entries.len();
        let mut r: Vec<DailyRecord> = Vec::new();
        let mut i: usize = 0;
        while i < count && i < n
            invariant
                n == self.entries@.len(),
                i <= n,
                i <= count,
                r@ =~= newest_first(self@, count as int).map_values(|e: DayEntry| e.record).take(
                    i as int,
                ),
            decreases n - i,
        {
            let e = &self.entries[n - 1 - i];
            r.push(
                DailyRecord {
                    date: e.record.date.clone(),
                    download: e.record.download,
                    upload: e.record.upload,
                    total: e.record.total,
                },
            );
            i = i + 1;
        }
        r
    }

    /// The sums of the days of each month, in increasing month order, or
    /// `None` when a key has no 7-byte month or a sum overflows.
    pub fn sums_by_month(&self) -> (r: Option<Vec<(String, u64, u64)>>)
        ensures
            r is Some <==> month_sums_fit(self@),
            r matches Some(v) ==> sums_view(v@) == month_sums(self@),
    {
        let mut sums: Vec<(String, u64, u64)> = Vec::new();
        let mut i: usize = 0;
        while i < self.entries.len()
            invariant
                i <= self.entries@.len(),
                month_sums_fit(self.entries@.take(i as int)),
                sums_view(sums@) == month_sums(self.entries@.take(i as int)),
            decreases self.entries.len() - i,
        {
            let ghost before = self.entries@.take(i as int);
            assert(self.entries@.take(i + 1).drop_last() =~= before);
            let e = &self.entries[i];
            let k = match char_index_at(e.day.as_str(), 7) {
                Some(k) => k,
                None => {
                    proof {
                        if month_sums_fit(self.entries@) {
                            lemma_month_sums_fit_prefix(self.entries@, i + 1);
                        }
                    }
                    return None;
                },
            };
            let month = String::from_str(e.day.as_str().substring_char(0, k));
            assert(month@ =~= month_key(e.day@));
            let mut j: usize = 0;
            let ghost view = sums_view(sums@);
            assert(view.skip(0) =~= view);
            while j < sums.len() && text_less(sums[j].0.as_str(), month.as_str())
                invariant
                    view == sums_view(sums@),
                    j <= sums@.len(),
                    sums_lower_bound(view, month@) == j + sums_lower_bound(
                        view.skip(j as int),
                        month@,
                    ),
                decreases sums.len() - j,
            {
                assert(view.skip(j as int).drop_first() =~= view.skip(j + 1));
                j = j + 1;
            }
            if j < sums.len() && sums[j].0 == month {
                if sums[j].1 > u64::MAX - e.record.download || sums[j].2 > u64::MAX
                    - e.record.upload {
                    proof {
                        if month_sums_fit(self.entries@) {
                            lemma_month_sums_fit_prefix(self.entries@, i + 1);
                        }
                    }
                    return None;
                }
                let t = (month, sums[j].1 + e.record.download, sums[j].2 + e.record.upload);
                sums.set(j, t);
                assert(sums_view(sums@) =~= view.update(j as int, (t.0@, t.1 as int, t.2 as int)));
            } else {
                let t = (month, e.record.download, e.record.upload);
                sums.insert(j, t);
                assert(sums_view(sums@) =~= view.insert(j as int, (t.0@, t.1 as int, t.2 as int)));
            }
            i = i + 1;
        }
        assert(self.entries@.take(i as int) =~= self.entries@);
        Some(sums)
    }

    /// The traffic of the last `count` months, newest first, each labelled
    /// by `month_label`; `None` when the sums or the labels cannot be made
    /// (see `summary_fits`).
    pub fn monthly_summary(&self, count: usize) -> (r: Option<Vec<MonthlyRecord>>)
        ensures
            r is Some <==> summary_fits(self@, count as int),
            r matches Some(v) ==> {
                let top = newest_first(month_sums(self@), count as int);
                &&& v@.len() == top.len()
                &&& forall|i: int|
                    0 <= i < top.len() ==> {
                        &&& (#[trigger] v@[i]).month@ == month_label(top[i].0)
                        &&& v@[i].download == top[i].1
                        &&& v@[i].upload == top[i].2
                        &&& v@[i].total == top[i].1 + top[i].2
                    }
            },
    {
        let sums = match self.sums_by_month() {
            Some(sums) => sums,
            None => {
                return None;
            },
        };
        let ghost top = newest_first(month_sums(self@), count as int);
        let n = sums.len();
        let mut v: Vec<MonthlyRecord> = Vec::new();
        let mut i: usize = 0;
        while i < count && i < n
            invariant
                n == sums@.len(),
                sums_view(sums@) == month_sums(self@),
                top == newest_first(month_sums(self@), count as int),
                i <= n,
                i <= count,
                v@.len() == i,
                forall|j: int|
                    0 <= j < i ==> label_fits((#[trigger] top[j]).0) && top[j].1 + top[j].2
                        <= u64::MAX,
                forall|j: int|
                    0 <= j < i ==> {
                        &&& (#[trigger] v@[j]).month@ == month_label(top[j].0)
                        &&& v@[j].download == top[j].1
                        &&& v@[j].upload == top[j].2
                        &&& v@[j].total == top[j].1 + top[j].2
                    },
            decreases n - i,
        {
            let t = &sums[n - 1 - i];
            assert(top[i as int] == (t.0@, t.1 as int, t.2 as int));
            let m = t.0.as_str();
            let k4 = match char_index_at(m, 4) {
                Some(k) => k,
                None => {
                    return None;
                },
            };
            let k5 = match char_index_at(m, 5) {
                Some(k) => k,
                None => {
                    return None;
                },
            };
            if t.1 > u64::MAX - t.2 {
                return None;
            }
            let mut label = String::from_str(m.substring_char(0, k4));
            push_char(&mut label, '年');
            let rest = trim_zeros(m.substring_char(k5, m.unicode_len()));
            label.append(rest.as_str());
            push_char(&mut label, '月');
            assert(m@.subrange(k5 as int, m@.len() as int) =~= m@.skip(k5 as int));
            assert(m@.subrange(0, k4 as int) =~= m@.take(k4 as int));
            assert(label@ =~= month_label(top[i as int].0));
            v.push(MonthlyRecord { month: label, download: t.1, upload: t.2, total: t.1 + t.2 });
            i = i + 1;
        }
        Some(v)
    }
}

} // verus!
