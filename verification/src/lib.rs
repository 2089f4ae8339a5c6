//! Network traffic bookkeeping: adapter discovery rules, counter deltas,
//! per-day and per-month accounting, and the decisions of the collector loop.
pub mod collector;
pub mod commands;
pub mod text;

use vstd::prelude::*;
use crate::collector::DailyRecord;
use crate::collector::daily::DailyLog;
use crate::text::{contains_chars, chars_of, occurs_in};

verus! {

/// The first data format: the traffic of one day.
#[derive(Clone, Debug)]
pub struct OldFormat {
    pub date: String,
    pub today_download: u64,
    pub today_upload: u64,
}

/// Data is in the first format, and not in the current one: it was read as
/// `OldFormat`, and the text names no `"daily_records"`.
pub open spec fn needs_migration(content: Seq<char>, old: Option<OldFormat>) -> bool {
    old is Some && !occurs_in("\"daily_records\""@, content)
}

/// Law: data in the first format is migrated unless its text names
/// `"daily_records"`, whatever other fields it holds; what the text holds
/// matters only through that marker.
pub proof fn law_migration_depends_only_on_the_marker(
    content: Seq<char>,
    other: Seq<char>,
    old: Option<OldFormat>,
)
    ensures
        old is Some && !occurs_in("\"daily_records\""@, content) ==> needs_migration(content, old),
        old is None ==> !needs_migration(content, old),
        occurs_in("\"daily_records\""@, content) ==> !needs_migration(content, old),
        occurs_in("\"daily_records\""@, content) == occurs_in("\"daily_records\""@, other)
            ==> needs_migration(content, old) == needs_migration(other, old),
{
}

/// The daily log that replaces data in the first format: one record, of the
/// day that the data holds. `content` is the data's text and `old` what it
/// reads as in the first format (`None` where it does not). `None` when
/// there is nothing to migrate.
pub fn migrate_old_format(content: &String, old: Option<OldFormat>) -> (r: Option<DailyLog>)
    requires
        needs_migration(content@, old) ==> old->0.today_download + old->0.today_upload
            <= u64::MAX,
    ensures
        r is Some <==> needs_migration(content@, old),
        r matches Some(log) ==> {
            let o = old->0;
            &&& log@.len() == 1
            &&& log@[0].day == o.date
            &&& log@[0].record == (DailyRecord {
                date: o.date,
                download: o.today_download,
                upload: o.today_upload,
                total: (o.today_download + o.today_upload) as u64,
            })
        },
{
    let o = match old {
        Some(o) => o,
        None => {
            return None;
        },
    };
    let marker = chars_of("\"daily_records\"");
    let text = chars_of(content.as_str());
    if contains_chars(&text, &marker) {
        return None;
    }
    let record = DailyRecord {
        date: o.date.clone(),
        download: o.today_download,
        upload: o.today_upload,
        total: o.today_download + o.today_upload,
    };
    let mut log = DailyLog::new();
    log.insert(o.date, record);
    Some(log)
}

} // verus!
