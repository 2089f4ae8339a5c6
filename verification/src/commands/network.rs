//! Choosing the adapter to monitor.
use vstd::prelude::*;
use crate::collector::{AdapterInfo, AppState};

verus! {

/// The whole state, as the interface polls it every second.
pub fn get_full_state(state: &AppState) -> (r: Result<AppState, String>)
    ensures
        r matches Ok(c) && {
            &&& c.adapters@ == state.adapters@
            &&& c.selected_adapter == state.selected_adapter
            &&& c.today == state.today
            &&& c.month == state.month
            &&& c.daily_records@ == state.daily_records@
            &&& c.monthly_records@ == state.monthly_records@
            &&& c.ip_address == state.ip_address
            &&& c.connected == state.connected
            &&& c.last_in_bytes == state.last_in_bytes
            &&& c.last_out_bytes == state.last_out_bytes
        },
{
    Ok(state.clone())
}

/// The adapters that can be monitored.
pub fn get_adapters(state: &AppState) -> (r: Result<Vec<AdapterInfo>, String>)
    ensures
        r matches Ok(v) && v@ == state.adapters@,
{
    let v = state.adapters.clone();
    assert(v@ =~= state.adapters@);
    Ok(v)
}

/// Some adapter has the key `name`.
pub open spec fn has_adapter(state: AppState, name: Seq<char>) -> bool {
    exists|i: int| 0 <= i < state.adapters@.len() && (#[trigger] state.adapters@[i]).name@ == name
}

/// The message of a refused selection.
pub open spec fn not_found_message(name: Seq<char>) -> Seq<char> {
    "Adapter '"@ + name + "' not found"@
}

/// Monitors the adapter with key `name` from now on; refused, with nothing
/// changed, when no adapter has that key.
pub fn select_adapter(name: String, state: &mut AppState) -> (r: Result<(), String>)
    ensures
        r is Ok <==> has_adapter(*old(state), name@),
        r is Ok ==> *final(state) == (AppState { selected_adapter: name, ..*old(state) }),
        r matches Err(e) ==> e@ == not_found_message(name@) && *final(state) == *old(state),
{
    let mut i: usize = 0;
    while i < state.adapters.len()
        invariant
            i <= state.adapters@.len(),
            *state == *old(state),
            forall|j: int| 0 <= j < i ==> (#[trigger] state.adapters@[j]).name@ != name@,
        decreases state.adapters.len() - i,
    {
        if state.adapters[i].name == name {
            assert(state.adapters@[i as int].name@ == name@);
            state.selected_adapter = name;
            return Ok(());
        }
        i = i + 1;
    }
    let mut message = String::from_str("Adapter '");
    message.append(name.as_str());
    message.append("' not found");
    Err(message)
}

} // verus!
