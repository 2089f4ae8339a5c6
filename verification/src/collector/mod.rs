//! The state that the collector keeps and the interface shows.
pub mod adapter;
pub mod daily;
pub mod traffic;

use vstd::prelude::*;
use crate::collector::adapter::{default_index, law_single_default, InterfaceRow};
use crate::collector::daily::{
    month_download, month_label, month_sums, month_upload, newest_first, summary_fits,
    traffic_added, traffic_fits, DailyLog, DayEntry,
};
use crate::collector::traffic::{get_adapter_speed, speed_outcome, table_rows};
use crate::text::shift_index;

verus! {

/// A physical network adapter that can be monitored.
#[derive(Debug)]
pub struct AdapterInfo {
    /// The interface index in decimal: the adapter's key.
    pub name: String,
    /// The name shown to the user.
    pub alias: String,
    pub ip_address: String,
    pub is_default: bool,
}

/// Bytes downloaded and uploaded over some period.
#[derive(Debug)]
pub struct TrafficStats {
    pub download: u64,
    pub upload: u64,
    pub total: u64,
}

impl TrafficStats {
    pub fn new() -> (r: Self)
        ensures
            r.download == 0,
            r.upload == 0,
            r.total == 0,
    {
        TrafficStats { download: 0, upload: 0, total: 0 }
    }
}

/// The traffic of one day.
#[derive(Debug)]
pub struct DailyRecord {
    pub date: String,
    pub download: u64,
    pub upload: u64,
    pub total: u64,
}

/// The traffic of one month, labelled for display.
#[derive(Debug)]
pub struct MonthlyRecord {
    pub month: String,
    pub download: u64,
    pub upload: u64,
    pub total: u64,
}

/// Everything the interface shows, plus the last counter readings.
#[derive(Debug)]
pub struct AppState {
    pub adapters: Vec<AdapterInfo>,
    pub selected_adapter: String,
    pub today: TrafficStats,
    pub month: TrafficStats,
    pub daily_records: Vec<DailyRecord>,
    pub monthly_records: Vec<MonthlyRecord>,
    pub ip_address: String,
    pub connected: bool,
    pub last_in_bytes: u64,
    pub last_out_bytes: u64,
}

impl Clone for AdapterInfo {
    fn clone(&self) -> (r: Self)
        ensures
            r == *self,
    {
        AdapterInfo {
            name: self.name.clone(),
            alias: self.alias.clone(),
            ip_address: self.ip_address.clone(),
            is_default: self.is_default,
        }
    }
}

impl Clone for TrafficStats {
    fn clone(&self) -> (r: Self)
        ensures
            r == *self,
    {
        TrafficStats { download: self.download, upload: self.upload, total: self.total }
    }
}

impl Clone for DailyRecord {
    fn clone(&self) -> (r: Self)
        ensures
            r == *self,
    {
        DailyRecord {
            date: self.date.clone(),
            download: self.download,
            upload: self.upload,
            total: self.total,
        }
    }
}

impl Clone for MonthlyRecord {
    fn clone(&self) -> (r: Self)
        ensures
            r == *self,
    {
        MonthlyRecord {
            month: self.month.clone(),
            download: self.download,
            upload: self.upload,
            total: self.total,
        }
    }
}

impl Clone for AppState {
    /// A copy whose fields hold the same values (the vectors the same items).
    fn clone(&self) -> (r: Self)
        ensures
            r.adapters@ == self.adapters@,
            r.selected_adapter == self.selected_adapter,
            r.today == self.today,
            r.month == self.month,
            r.daily_records@ == self.daily_records@,
            r.monthly_records@ == self.monthly_records@,
            r.ip_address == self.ip_address,
            r.connected == self.connected,
            r.last_in_bytes == self.last_in_bytes,
            r.last_out_bytes == self.last_out_bytes,
    {
        let adapters = self.adapters.clone();
        let daily_records = self.daily_records.clone();
        let monthly_records = self.monthly_records.clone();
        assert(adapters@ =~= self.adapters@);
        assert(daily_records@ =~= self.daily_records@);
        assert(monthly_records@ =~= self.monthly_records@);
        AppState {
            adapters,
            selected_adapter: self.selected_adapter.clone(),
            today: self.today.clone(),
            month: self.month.clone(),
            daily_records,
            monthly_records,
            ip_address: self.ip_address.clone(),
            connected: self.connected,
            last_in_bytes: self.last_in_bytes,
            last_out_bytes: self.last_out_bytes,
        }
    }
}

/// The index of the first adapter marked default, if any.
pub open spec fn first_default(adapters: Seq<AdapterInfo>) -> Option<int>
    decreases adapters.len(),
{
    if adapters.len() == 0 {
        None
    } else if adapters[0].is_default {
        Some(0)
    } else {
        shift_index(first_default(adapters.drop_first()), 1)
    }
}

/// The adapter chosen at start-up: the first one marked default, else the first.
pub open spec fn startup_index(adapters: Seq<AdapterInfo>) -> int {
    match first_default(adapters) {
        Some(i) => i,
        None => 0,
    }
}

proof fn lemma_first_default(adapters: Seq<AdapterInfo>)
    ensures
        first_default(adapters) matches Some(i) ==> 0 <= i < adapters.len() && adapters[i].is_default
            && forall|j: int| 0 <= j < i ==> !(#[trigger] adapters[j]).is_default,
        first_default(adapters) is None ==> forall|j: int|
            0 <= j < adapters.len() ==> !(#[trigger] adapters[j]).is_default,
    decreases adapters.len(),
{
    if adapters.len() > 0 {
        let rest = adapters.drop_first();
        lemma_first_default(rest);
        assert forall|j: int| 1 <= j < adapters.len() implies adapters[j] == rest[j - 1] by {}
    }
}

/// Law: on adapters from `get_adapters` (one marked default), start-up
/// selects the adapter marked default.
pub proof fn law_startup_selects_the_default(adapters: Seq<AdapterInfo>)
    requires
        adapters.len() > 0,
        forall|i: int|
            0 <= i < adapters.len() ==> (#[trigger] adapters[i]).is_default == (i == default_index(
                adapters,
            )),
    ensures
        startup_index(adapters) == default_index(adapters),
        0 <= startup_index(adapters) < adapters.len(),
{
    law_single_default(adapters);
    lemma_first_default(adapters);
}

impl AppState {
    pub fn new() -> (r: Self)
        ensures
            r.adapters@.len() == 0,
            r.selected_adapter@.len() == 0,
            r.today.download == 0 && r.today.upload == 0 && r.today.total == 0,
            r.month.download == 0 && r.month.upload == 0 && r.month.total == 0,
            r.daily_records@.len() == 0,
            r.monthly_records@.len() == 0,
            r.ip_address@.len() == 0,
            !r.connected,
            r.last_in_bytes == 0,
            r.last_out_bytes == 0,
    {
        AppState {
            adapters: Vec::new(),
            selected_adapter: String::new(),
            today: TrafficStats::new(),
            month: TrafficStats::new(),
            daily_records: Vec::new(),
            monthly_records: Vec::new(),
            ip_address: String::new(),
            connected: false,
            last_in_bytes: 0,
            last_out_bytes: 0,
        }
    }

    /// Stores the discovered adapters and, when there is one, selects the
    /// first adapter marked default (else the first adapter) with its address.
    pub fn install_adapters(&mut self, adapters: Vec<AdapterInfo>)
        ensures
            final(self).adapters@ == adapters@,
            adapters@.len() == 0 ==> final(self).selected_adapter == old(self).selected_adapter
                && final(self).ip_address == old(self).ip_address && final(self).connected == old(
                self,
            ).connected,
            adapters@.len() > 0 ==> {
                let d = adapters@[startup_index(adapters@)];
                &&& final(self).selected_adapter@ == d.name@
                &&& final(self).ip_address@ == d.ip_address@
                &&& final(self).connected == (d.ip_address@.len() > 0)
            },
            final(self).today == old(self).today,
            final(self).month == old(self).month,
            final(self).daily_records == old(self).daily_records,
            final(self).monthly_records == old(self).monthly_records,
            final(self).last_in_bytes == old(self).last_in_bytes,
            final(self).last_out_bytes == old(self).last_out_bytes,
    {
        if adapters.len() > 0 {
            let mut i: usize = 0;
            assert(adapters@.skip(0) =~= adapters@);
            while i < adapters.len() && !adapters[i].is_default
                invariant
                    i <= adapters.len(),
                    adapters.len() > 0,
                    first_default(adapters@) == shift_index(
                        first_default(adapters@.skip(i as int)),
                        i as int,
                    ),
                decreases adapters.len() - i,
            {
                proof {
                    assert(adapters@.skip(i as int).drop_first() =~= adapters@.skip(i + 1));
                }
                i = i + 1;
            }
            if i == adapters.len() {
                i = 0;
            }
            self.selected_adapter = adapters[i].name.clone();
            self.ip_address = adapters[i].ip_address.clone();
            self.connected = self.ip_address.unicode_len() > 0;
        }
        self.adapters = adapters;
    }
}


/// How many days the interface lists.
pub const DAYS_SHOWN: usize = 7;

/// How many months the interface lists.
pub const MONTHS_SHOWN: usize = 3;

/// The daily log is saved every this many ticks.
pub const SAVE_EVERY: u64 = 30;

/// Monthly records as the summary of the last `count` months of `entries`
/// makes them: newest first, labelled, with their sums.
pub open spec fn monthly_records_of(v: Seq<MonthlyRecord>, entries: Seq<DayEntry>, count: int) -> bool {
    let top = newest_first(month_sums(entries), count);
    &&& v.len() == top.len()
    &&& forall|i: int|
        0 <= i < top.len() ==> {
            &&& (#[trigger] v[i]).month@ == month_label(top[i].0)
            &&& v[i].download == top[i].1
            &&& v[i].upload == top[i].2
            &&& v[i].total == top[i].1 + top[i].2
        }
}

/// The traffic that one tick reads: the speed of the selected adapter, or
/// nothing when it cannot be read.
pub open spec fn tick_speed(state: AppState, table: Option<Vec<InterfaceRow>>) -> (u64, u64) {
    match speed_outcome(state, table_rows(table)).0 {
        Some(t) => t,
        None => (0, 0),
    }
}

/// One tick overflows no counter and finds every key and label it needs:
/// the inputs on which a tick completes.
pub open spec fn step_fits(
    state: AppState,
    collector: Collector,
    today: String,
    month: String,
    table: Option<Vec<InterfaceRow>>,
) -> bool {
    let (dl, ul) = tick_speed(state, table);
    let days = traffic_added(collector.daily@, today, dl, ul);
    &&& collector.tick < u64::MAX
    &&& state.today.download + dl <= u64::MAX
    &&& state.today.upload + ul <= u64::MAX
    &&& state.today.download + dl + state.today.upload + ul <= u64::MAX
    &&& traffic_fits(collector.daily@, today@, dl, ul)
    &&& month_download(days, month@) <= u64::MAX
    &&& month_upload(days, month@) <= u64::MAX
    &&& month_download(days, month@) + month_upload(days, month@) <= u64::MAX
    &&& summary_fits(days, MONTHS_SHOWN as int)
}

/// What the collector loop keeps between ticks.
pub struct Collector {
    /// Traffic per day, saved to disk every `SAVE_EVERY` ticks.
    pub daily: DailyLog,
    /// The day of the last save (empty before the first).
    pub last_save_day: String,
    /// The number of ticks so far.
    pub tick: u64,
}

impl Collector {
    /// A collector that starts from the days restored from disk.
    pub fn new(daily: DailyLog) -> (r: Self)
        ensures
            r.daily@ == daily@,
            r.last_save_day@.len() == 0,
            r.tick == 0,
    {
        Collector { daily, last_save_day: String::new(), tick: 0 }
    }

    /// One tick of the collector, one second after the last: reads the
    /// selected adapter's traffic from the interface table, adds it to today
    /// and to the day `today` of the log, recomputes the month `month`, the
    /// recent days and the recent months, and on a new day (known from the
    /// last save) starts today from zero. Returns whether the log is to be
    /// saved now, or `None` where a counter would overflow or a key or label
    /// cannot be cut (see `step_fits`), after which nothing is promised.
    pub fn step(
        &mut self,
        state: &mut AppState,
        today: &String,
        month: &String,
        table: &Option<Vec<InterfaceRow>>,
    ) -> (r: Option<bool>)
        ensures
            r is Some <==> step_fits(*old(state), *old(self), *today, *month, *table),
            r matches Some(save) ==> {
                let out = speed_outcome(*old(state), table_rows(*table));
                let (dl, ul) = tick_speed(*old(state), *table);
                let days = traffic_added(old(self).daily@, *today, dl, ul);
                let tick = old(self).tick + 1;
                let saved_day = if save {
                    *today
                } else {
                    old(self).last_save_day
                };
                let new_day = today@ != saved_day@ && saved_day@.len() > 0;
                let md = month_download(days, month@);
                let mu = month_upload(days, month@);
                &&& save == (tick % SAVE_EVERY as int == 0)
                &&& final(self).tick == tick
                &&& final(self).daily@ == days
                &&& final(self).last_save_day == if new_day {
                    *today
                } else {
                    saved_day
                }
                &&& final(state).last_in_bytes == out.1
                &&& final(state).last_out_bytes == out.2
                &&& new_day ==> final(state).today.download == 0 && final(state).today.upload == 0
                    && final(state).today.total == 0
                &&& !new_day ==> final(state).today.download == old(state).today.download + dl
                    && final(state).today.upload == old(state).today.upload + ul
                    && final(state).today.total == final(state).today.download
                    + final(state).today.upload
                &&& final(state).month.download == md
                &&& final(state).month.upload == mu
                &&& final(state).month.total == md + mu
                &&& final(state).daily_records@ == newest_first(days, DAYS_SHOWN as int).map_values(
                    |e: DayEntry| e.record,
                )
                &&& monthly_records_of(final(state).monthly_records@, days, MONTHS_SHOWN as int)
                &&& final(state).adapters == old(state).adapters
                &&& final(state).selected_adapter == old(state).selected_adapter
                &&& final(state).ip_address == old(state).ip_address
                &&& final(state).connected == old(state).connected
            },
    {
        if self.tick == u64::MAX {
            return None;
        }
        self.tick = self.tick + 1;
        let (dl, ul) = match get_adapter_speed(state, table) {
            Some(t) => t,
            None => (0, 0),
        };
        if state.today.download > u64::MAX - dl || state.today.upload > u64::MAX - ul {
            return None;
        }
        let down = state.today.download + dl;
        let up = state.today.upload + ul;
        if down > u64::MAX - up {
            return None;
        }
        state.today = TrafficStats { download: down, upload: up, total: down + up };
        if !self.daily.add_traffic(today, dl, ul) {
            return None;
        }
        let (md, mu) = match self.daily.month_totals(month) {
            Some(t) => t,
            None => {
                return None;
            },
        };
        if md > u64::MAX - mu {
            return None;
        }
        state.month = TrafficStats { download: md, upload: mu, total: md + mu };
        state.daily_records = self.daily.recent_days(DAYS_SHOWN);
        state.monthly_records = match self.daily.monthly_summary(MONTHS_SHOWN) {
            Some(v) => v,
            None => {
                return None;
            },
        };
        let save = self.tick % SAVE_EVERY == 0;
        if save {
            self.last_save_day = today.clone();
        }
        if *today != self.last_save_day && self.last_save_day.unicode_len() > 0 {
            state.today = TrafficStats::new();
            self.last_save_day = today.clone();
        }
        Some(save)
    }
}

} // verus!
