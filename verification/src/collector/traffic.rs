//! Turning cumulative interface counters into per-interval traffic.
use vstd::prelude::*;
use crate::collector::AppState;
use crate::collector::adapter::InterfaceRow;
use crate::text::{decimal, decimal_string, shift_index};

verus! {

/// The index of the first row whose decimal interface index is `name`.
pub open spec fn row_for(rows: Seq<InterfaceRow>, name: Seq<char>) -> Option<int>
    decreases rows.len(),
{
    if rows.len() == 0 {
        None
    } else if decimal(rows[0].interface_index as nat) == name {
        Some(0)
    } else {
        shift_index(row_for(rows.drop_first(), name), 1)
    }
}

/// Traffic since the last reading: nothing on the first reading (both last
/// counters zero), and per direction the counter's increase, or nothing when
/// the counter went back.
pub open spec fn counter_delta(last_in: u64, last_out: u64, cur_in: u64, cur_out: u64) -> (u64, u64) {
    if last_in == 0 && last_out == 0 {
        (0, 0)
    } else {
        (
            if cur_in >= last_in { (cur_in - last_in) as u64 } else { 0 },
            if cur_out >= last_out { (cur_out - last_out) as u64 } else { 0 },
        )
    }
}

/// Law: an unchanged counter reads no traffic.
pub proof fn law_unchanged_counters_read_nothing(cur_in: u64, cur_out: u64)
    ensures
        counter_delta(cur_in, cur_out, cur_in, cur_out) == (0u64, 0u64),
{
}

/// Law: traffic adds up. While counters only grow, the traffic read over two
/// successive intervals is the traffic of the whole interval (once a
/// baseline is set, that is, once the last counters are not both zero).
pub proof fn law_deltas_add_up(a_in: u64, a_out: u64, b_in: u64, b_out: u64, c_in: u64, c_out: u64)
    requires
        !(a_in == 0 && a_out == 0),
        a_in <= b_in <= c_in,
        a_out <= b_out <= c_out,
    ensures
        counter_delta(a_in, a_out, b_in, b_out).0 + counter_delta(b_in, b_out, c_in, c_out).0
            == counter_delta(a_in, a_out, c_in, c_out).0,
        counter_delta(a_in, a_out, b_in, b_out).1 + counter_delta(b_in, b_out, c_in, c_out).1
            == counter_delta(a_in, a_out, c_in, c_out).1,
{
}

/// What one speed reading returns, and the counters it leaves as the last ones.
/// `table` is the interface table, or `None` when it could not be read.
pub open spec fn speed_outcome(state: AppState, table: Option<Seq<InterfaceRow>>) -> (
    Option<(u64, u64)>,
    u64,
    u64,
) {
    if state.selected_adapter@.len() == 0 {
        (Some((0, 0)), state.last_in_bytes, state.last_out_bytes)
    } else {
        match table {
            None => (None, state.last_in_bytes, state.last_out_bytes),
            Some(rows) => match row_for(rows, state.selected_adapter@) {
                None => (Some((0, 0)), state.last_in_bytes, state.last_out_bytes),
                Some(i) => (
                    Some(
                        counter_delta(
                            state.last_in_bytes,
                            state.last_out_bytes,
                            rows[i].in_octets,
                            rows[i].out_octets,
                        ),
                    ),
                    rows[i].in_octets,
                    rows[i].out_octets,
                ),
            },
        }
    }
}

proof fn lemma_row_for(rows: Seq<InterfaceRow>, name: Seq<char>)
    ensures
        row_for(rows, name) matches Some(i) ==> 0 <= i < rows.len(),
    decreases rows.len(),
{
    if rows.len() > 0 {
        lemma_row_for(rows.drop_first(), name);
    }
}

/// The state after reading `rows`: the counters read become the last ones.
pub open spec fn after_reading(state: AppState, rows: Seq<InterfaceRow>) -> AppState {
    let out = speed_outcome(state, Some(rows));
    AppState { last_in_bytes: out.1, last_out_bytes: out.2, ..state }
}

/// The traffic read, in total, by reading the tables one after the other
/// (a reading that fails counts as nothing).
pub open spec fn traffic_read(state: AppState, tables: Seq<Seq<InterfaceRow>>) -> (int, int)
    decreases tables.len(),
{
    if tables.len() == 0 {
        (0, 0)
    } else {
        let first = match speed_outcome(state, Some(tables[0])).0 {
            Some(t) => t,
            None => (0u64, 0u64),
        };
        let rest = traffic_read(after_reading(state, tables[0]), tables.drop_first());
        (first.0 + rest.0, first.1 + rest.1)
    }
}

/// The row of the adapter `name` in a table that has one.
pub open spec fn row_of(rows: Seq<InterfaceRow>, name: Seq<char>) -> InterfaceRow {
    rows[row_for(rows, name)->0]
}

/// Law: readings add up. Once a baseline is set, reading tables in which the
/// selected adapter's counters only grow reads, in total, exactly the growth
/// of its counters from the baseline to the last table: nothing is counted
/// twice and nothing is lost.
pub proof fn law_readings_add_up(state: AppState, tables: Seq<Seq<InterfaceRow>>)
    requires
        state.selected_adapter@.len() > 0,
        !(state.last_in_bytes == 0 && state.last_out_bytes == 0),
        tables.len() > 0,
        forall|i: int| 0 <= i < tables.len() ==> row_for(#[trigger] tables[i], state.selected_adapter@) is Some,
        state.last_in_bytes <= row_of(tables[0], state.selected_adapter@).in_octets,
        state.last_out_bytes <= row_of(tables[0], state.selected_adapter@).out_octets,
        forall|i: int|
            0 <= i < tables.len() - 1 ==> row_of(#[trigger] tables[i], state.selected_adapter@).in_octets
                <= row_of(tables[i + 1], state.selected_adapter@).in_octets && row_of(
                tables[i],
                state.selected_adapter@,
            ).out_octets <= row_of(tables[i + 1], state.selected_adapter@).out_octets,
    ensures
        traffic_read(state, tables) == (
            row_of(tables.last(), state.selected_adapter@).in_octets - state.last_in_bytes,
            row_of(tables.last(), state.selected_adapter@).out_octets - state.last_out_bytes,
        ),
    decreases tables.len(),
{
    let name = state.selected_adapter@;
    let t0 = tables[0];
    assert(row_for(tables[0], name) is Some);
    lemma_row_for(t0, name);
    let row = row_of(t0, name);
    let d = ((row.in_octets - state.last_in_bytes) as u64, (row.out_octets - state.last_out_bytes) as u64);
    assert(speed_outcome(state, Some(t0)).0 == Some(d));
    let next = after_reading(state, t0);
    assert(next.last_in_bytes == row_of(t0, name).in_octets);
    assert(next.last_out_bytes == row_of(t0, name).out_octets);
    if tables.len() > 1 {
        let rest = tables.drop_first();
        assert forall|i: int| 0 <= i < rest.len() implies row_for(#[trigger] rest[i], name) is Some by {
            assert(rest[i] == tables[i + 1]);
        }
        assert forall|i: int| 0 <= i < rest.len() - 1 implies row_of(#[trigger] rest[i], name).in_octets
            <= row_of(rest[i + 1], name).in_octets && row_of(rest[i], name).out_octets <= row_of(
            rest[i + 1],
            name,
        ).out_octets by {
            assert(rest[i] == tables[i + 1]);
            assert(rest[i + 1] == tables[i + 2]);
        }
        assert(rest[0] == tables[1]);
        assert(0 <= 0 < tables.len() - 1);
        assert(row_of(tables[0], name).in_octets <= row_of(tables[1], name).in_octets);
        law_readings_add_up(next, rest);
        assert(rest.last() == tables.last());
        assert(traffic_read(state, tables) == (d.0 + traffic_read(next, rest).0, d.1 + traffic_read(
            next,
            rest,
        ).1));
    } else {
        assert(tables.drop_first().len() == 0);
        assert(traffic_read(next, tables.drop_first()) == (0int, 0int));
        assert(tables.last() == t0);
    }
}

/// Law: downloads add up. Once the receive counter's baseline is set (not
/// zero), reading tables in which the selected adapter's receive counter
/// only grows downloads, in total, exactly that counter's growth from the
/// baseline to the last table, whatever the send counter does.
pub proof fn law_downloads_add_up(state: AppState, tables: Seq<Seq<InterfaceRow>>)
    requires
        state.selected_adapter@.len() > 0,
        state.last_in_bytes > 0,
        tables.len() > 0,
        forall|i: int| 0 <= i < tables.len() ==> row_for(#[trigger] tables[i], state.selected_adapter@) is Some,
        state.last_in_bytes <= row_of(tables[0], state.selected_adapter@).in_octets,
        forall|i: int|
            0 <= i < tables.len() - 1 ==> row_of(#[trigger] tables[i], state.selected_adapter@).in_octets
                <= row_of(tables[i + 1], state.selected_adapter@).in_octets,
    ensures
        traffic_read(state, tables).0 == row_of(tables.last(), state.selected_adapter@).in_octets
            - state.last_in_bytes,
    decreases tables.len(),
{
    let name = state.selected_adapter@;
    let t0 = tables[0];
    assert(row_for(tables[0], name) is Some);
    lemma_row_for(t0, name);
    let row = row_of(t0, name);
    let d = counter_delta(state.last_in_bytes, state.last_out_bytes, row.in_octets, row.out_octets);
    assert(d.0 == row.in_octets - state.last_in_bytes);
    assert(speed_outcome(state, Some(t0)).0 == Some(d));
    let next = after_reading(state, t0);
    assert(next.last_in_bytes == row.in_octets);
    if tables.len() > 1 {
        let rest = tables.drop_first();
        assert forall|i: int| 0 <= i < rest.len() implies row_for(#[trigger] rest[i], name) is Some by {
            assert(rest[i] == tables[i + 1]);
        }
        assert forall|i: int| 0 <= i < rest.len() - 1 implies row_of(#[trigger] rest[i], name).in_octets
            <= row_of(rest[i + 1], name).in_octets by {
            assert(rest[i] == tables[i + 1]);
            assert(rest[i + 1] == tables[i + 2]);
        }
        assert(rest[0] == tables[1]);
        assert(0 <= 0 < tables.len() - 1);
        assert(row_of(tables[0], name).in_octets <= row_of(tables[1], name).in_octets);
        law_downloads_add_up(next, rest);
        assert(rest.last() == tables.last());
        assert(traffic_read(state, tables).0 == d.0 + traffic_read(next, rest).0);
    } else {
        assert(tables.drop_first().len() == 0);
        assert(traffic_read(next, tables.drop_first()) == (0int, 0int));
        assert(tables.last() == t0);
    }
}

/// Law: uploads add up. Once the send counter's baseline is set (not zero),
/// reading tables in which the selected adapter's send counter only grows
/// uploads, in total, exactly that counter's growth from the baseline to the
/// last table, whatever the receive counter does.
pub proof fn law_uploads_add_up(state: AppState, tables: Seq<Seq<InterfaceRow>>)
    requires
        state.selected_adapter@.len() > 0,
        state.last_out_bytes > 0,
        tables.len() > 0,
        forall|i: int| 0 <= i < tables.len() ==> row_for(#[trigger] tables[i], state.selected_adapter@) is Some,
        state.last_out_bytes <= row_of(tables[0], state.selected_adapter@).out_octets,
        forall|i: int|
            0 <= i < tables.len() - 1 ==> row_of(#[trigger] tables[i], state.selected_adapter@).out_octets
                <= row_of(tables[i + 1], state.selected_adapter@).out_octets,
    ensures
        traffic_read(state, tables).1 == row_of(tables.last(), state.selected_adapter@).out_octets
            - state.last_out_bytes,
    decreases tables.len(),
{
    let name = state.selected_adapter@;
    let t0 = tables[0];
    assert(row_for(tables[0], name) is Some);
    lemma_row_for(t0, name);
    let row = row_of(t0, name);
    let d = counter_delta(state.last_in_bytes, state.last_out_bytes, row.in_octets, row.out_octets);
    assert(d.1 == row.out_octets - state.last_out_bytes);
    assert(speed_outcome(state, Some(t0)).0 == Some(d));
    let next = after_reading(state, t0);
    assert(next.last_out_bytes == row.out_octets);
    if tables.len() > 1 {
        let rest = tables.drop_first();
        assert forall|i: int| 0 <= i < rest.len() implies row_for(#[trigger] rest[i], name) is Some by {
            assert(rest[i] == tables[i + 1]);
        }
        assert forall|i: int| 0 <= i < rest.len() - 1 implies row_of(#[trigger] rest[i], name).out_octets
            <= row_of(rest[i + 1], name).out_octets by {
            assert(rest[i] == tables[i + 1]);
            assert(rest[i + 1] == tables[i + 2]);
        }
        assert(rest[0] == tables[1]);
        assert(0 <= 0 < tables.len() - 1);
        assert(row_of(tables[0], name).out_octets <= row_of(tables[1], name).out_octets);
        law_uploads_add_up(next, rest);
        assert(rest.last() == tables.last());
        assert(traffic_read(state, tables).1 == d.1 + traffic_read(next, rest).1);
    } else {
        assert(tables.drop_first().len() == 0);
        assert(traffic_read(next, tables.drop_first()) == (0int, 0int));
        assert(tables.last() == t0);
    }
}

/// Law: a reading that finds the selected adapter stores the counters it
/// read as the last ones, both of them, whether or not a counter went back.
pub proof fn law_reading_stores_what_it_read(state: AppState, rows: Seq<InterfaceRow>)
    requires
        state.selected_adapter@.len() > 0,
        row_for(rows, state.selected_adapter@) is Some,
    ensures
        after_reading(state, rows).last_in_bytes == row_of(rows, state.selected_adapter@).in_octets,
        after_reading(state, rows).last_out_bytes == row_of(rows, state.selected_adapter@).out_octets,
        after_reading(state, rows).selected_adapter == state.selected_adapter,
{
}

/// Law: after a counter goes back (a reset, or a switch of adapter), the
/// next growth of `g` bytes reads as `g` bytes: a reading of `rows1` and then
/// of `rows2` reads, on the second reading, exactly the growth of each
/// counter from `rows1` to `rows2`, whatever the last counters were before.
pub proof fn law_growth_after_any_reading_counts(
    state: AppState,
    rows1: Seq<InterfaceRow>,
    rows2: Seq<InterfaceRow>,
)
    requires
        state.selected_adapter@.len() > 0,
        row_for(rows1, state.selected_adapter@) is Some,
        row_for(rows2, state.selected_adapter@) is Some,
        !(row_of(rows1, state.selected_adapter@).in_octets == 0 && row_of(
            rows1,
            state.selected_adapter@,
        ).out_octets == 0),
        row_of(rows1, state.selected_adapter@).in_octets <= row_of(
            rows2,
            state.selected_adapter@,
        ).in_octets,
        row_of(rows1, state.selected_adapter@).out_octets <= row_of(
            rows2,
            state.selected_adapter@,
        ).out_octets,
    ensures
        ({
            let name = state.selected_adapter@;
            let second = speed_outcome(after_reading(state, rows1), Some(rows2)).0;
            let read = second->0;
            &&& second is Some
            &&& read.0 == row_of(rows2, name).in_octets - row_of(rows1, name).in_octets
            &&& read.1 == row_of(rows2, name).out_octets - row_of(rows1, name).out_octets
        }),
{
    law_reading_stores_what_it_read(state, rows1);
    lemma_row_for(rows2, state.selected_adapter@);
}

/// The interface table as a sequence, if it was read.
pub open spec fn table_rows(table: Option<Vec<InterfaceRow>>) -> Option<Seq<InterfaceRow>> {
    match table {
        Some(rows) => Some(rows@),
        None => None,
    }
}

/// Law: a reading stores the counters it read, so reading the same table
/// again right after reads no traffic.
pub proof fn law_rereading_reads_nothing(state: AppState, rows: Seq<InterfaceRow>)
    ensures
        ({
            let out = speed_outcome(state, Some(rows));
            let next = AppState { last_in_bytes: out.1, last_out_bytes: out.2, ..state };
            speed_outcome(next, Some(rows)).0 == Some((0u64, 0u64))
        }),
{
}

/// Bytes received and sent by the selected adapter since the last reading,
/// from the interface table (`None` when the table could not be read); the
/// selected adapter's counters become the last ones.
pub fn get_adapter_speed(state: &mut AppState, table: &Option<Vec<InterfaceRow>>) -> (r: Option<
    (u64, u64),
>)
    ensures
        ({
            let out = speed_outcome(*old(state), table_rows(*table));
            &&& r == out.0
            &&& *final(state) == (AppState {
                last_in_bytes: out.1,
                last_out_bytes: out.2,
                ..*old(state)
            })
        }),
{
    if state.selected_adapter.unicode_len() == 0 {
        return Some((0, 0));
    }
    let rows = match table {
        None => {
            return None;
        },
        Some(rows) => rows,
    };
    let mut i: usize = 0;
    assert(rows@.skip(0) =~= rows@);
    assert(table_rows(*table) == Some(rows@));
    loop
        invariant
            i <= rows.len(),
            state.selected_adapter@.len() > 0,
            *state == *old(state),
            table_rows(*table) == Some(rows@),
            row_for(rows@, state.selected_adapter@) == shift_index(
                row_for(rows@.skip(i as int), state.selected_adapter@),
                i as int,
            ),
        decreases rows.len() - i,
    {
        if i == rows.len() {
            assert(rows@.skip(i as int).len() == 0);
            return Some((0, 0));
        }
        let idx = decimal_string(rows[i].interface_index);
        assert(rows@.skip(i as int)[0] == rows@[i as int]);
        if idx == state.selected_adapter {
            assert(row_for(rows@.skip(i as int), state.selected_adapter@) == Some(0int));
            let cur_in = rows[i].in_octets;
            let cur_out = rows[i].out_octets;
            if state.last_in_bytes == 0 && state.last_out_bytes == 0 {
                state.last_in_bytes = cur_in;
                state.last_out_bytes = cur_out;
                return Some((0, 0));
            }
            let dl = if cur_in >= state.last_in_bytes {
                cur_in - state.last_in_bytes
            } else {
                0
            };
            let ul = if cur_out >= state.last_out_bytes {
                cur_out - state.last_out_bytes
            } else {
                0
            };
            state.last_in_bytes = cur_in;
            state.last_out_bytes = cur_out;
            return Some((dl, ul));
        }
        assert(rows@.skip(i as int).drop_first() =~= rows@.skip(i + 1));
        i = i + 1;
    }
}

} // verus!
