//! Which network interfaces count as adapters, and which one is the default.
use vstd::prelude::*;
use crate::collector::AdapterInfo;
use crate::text::{
    chars_of, contains_chars, decimal, decimal_string, from_utf16_lossy, lowercase, occurs_in,
    push_char, shift_index, to_lowercase, utf16_lossy, law_utf16_lossy,
};

verus! {

/// One row of the operating system's interface table, as plain values.
#[derive(Clone, Debug)]
pub struct InterfaceRow {
    pub interface_index: u32,
    /// The interface type (`IFTYPE`): 6 is Ethernet, 71 is IEEE 802.11 wireless.
    pub if_type: u32,
    /// The operational status: 1 is up.
    pub oper_status: i32,
    /// The alias, as NUL-terminated UTF-16.
    pub alias: Vec<u16>,
    /// The description, as NUL-terminated UTF-16.
    pub description: Vec<u16>,
    pub in_octets: u64,
    pub out_octets: u64,
}

/// The index of the first NUL code unit, or the length when there is none.
pub open spec fn nul_position(units: Seq<u16>) -> int
    decreases units.len(),
{
    if units.len() == 0 || units[0] == 0 {
        0
    } else {
        1 + nul_position(units.drop_first())
    }
}

/// The text held in a NUL-terminated UTF-16 buffer.
pub open spec fn u16_text(units: Seq<u16>) -> Seq<char> {
    let n = nul_position(units);
    if n == 0 {
        Seq::empty()
    } else {
        utf16_lossy(units.take(n))
    }
}

proof fn lemma_nul_position(units: Seq<u16>)
    ensures
        0 <= nul_position(units) <= units.len(),
        forall|i: int| 0 <= i < nul_position(units) ==> units[i] != 0,
        nul_position(units) < units.len() ==> units[nul_position(units)] == 0,
    decreases units.len(),
{
    if units.len() > 0 && units[0] != 0 {
        let rest = units.drop_first();
        lemma_nul_position(rest);
        assert forall|i: int| 0 <= i < nul_position(units) implies units[i] != 0 by {
            if i > 0 {
                assert(units[i] == rest[i - 1]);
            }
        }
    }
}

proof fn lemma_nul_position_of_first(units: Seq<u16>, n: int)
    requires
        0 <= n <= units.len(),
        forall|i: int| 0 <= i < n ==> units[i] != 0,
        n < units.len() ==> units[n] == 0,
    ensures
        nul_position(units) == n,
    decreases units.len(),
{
    if units.len() > 0 && n > 0 {
        let rest = units.drop_first();
        assert forall|i: int| 0 <= i < n - 1 implies rest[i] != 0 by {
            assert(rest[i] == units[i + 1]);
        }
        lemma_nul_position_of_first(rest, n - 1);
    }
}

/// Law: the text of a buffer holds no NUL character.
pub proof fn law_u16_text_has_no_nul(units: Seq<u16>)
    ensures
        forall|j: int| 0 <= j < u16_text(units).len() ==> u16_text(units)[j] != '\0',
{
    lemma_nul_position(units);
    let n = nul_position(units);
    if n > 0 {
        let t = units.take(n);
        assert forall|i: int| 0 <= i < t.len() implies t[i] != 0 by {}
        law_utf16_lossy(t);
    }
}

/// Law: what follows the first NUL does not change the text: a buffer of
/// units without 0, then a NUL, then anything, holds the text of those units.
pub proof fn law_u16_text_ends_at_nul(text: Seq<u16>, tail: Seq<u16>)
    requires
        forall|i: int| 0 <= i < text.len() ==> text[i] != 0,
    ensures
        u16_text(text + seq![0u16] + tail) == u16_text(text),
{
    let whole = text + seq![0u16] + tail;
    assert forall|i: int| 0 <= i < text.len() implies whole[i] != 0 by {
        assert(whole[i] == text[i]);
    }
    assert(whole[text.len() as int] == 0);
    lemma_nul_position_of_first(whole, text.len() as int);
    lemma_nul_position_of_first(text, text.len() as int);
    assert(whole.take(text.len() as int) =~= text);
    assert(text.take(text.len() as int) =~= text);
}

/// Decodes the UTF-16 text in `arr` up to its first NUL (or its end), with
/// invalid data replaced by U+FFFD.
pub fn read_u16_slice(arr: &[u16]) -> (r: String)
    ensures
        r@ == u16_text(arr@),
{
    let mut len: usize = 0;
    let mut prefix: Vec<u16> = Vec::new();
    assert(arr@.skip(0) =~= arr@);
    while len < arr.len() && arr[len] != 0
        invariant
            len <= arr@.len(),
            prefix@ =~= arr@.take(len as int),
            nul_position(arr@) == len + nul_position(arr@.skip(len as int)),
        decreases arr.len() - len,
    {
        assert(arr@.skip(len as int).drop_first() =~= arr@.skip(len + 1));
        prefix.push(arr[len]);
        len = len + 1;
    }
    if len == 0 {
        return String::new();
    }
    from_utf16_lossy(prefix.as_slice())
}

/// Words that mark filter drivers, virtual interfaces, tunnels and the like.
pub open spec fn blacklist() -> Seq<Seq<char>> {
    seq![
        "wfp"@, "lightweight"@, "filter"@, "qos"@, "scheduler"@,
        "wan miniport"@, "virtual"@, "vpn"@, "sangfor"@, "tunnel"@,
        "meta"@, "clash"@, "mihomo"@, "flclash"@, "bluetooth"@,
        "kernel debug"@, "teredo"@, "6to4"@, "ip-https"@,
        "wi-fi direct"@, "wifi direct"@, "miniport"@,
        "loopback"@, "pseudo"@,
    ]
}

fn blacklist_words() -> (v: Vec<&'static str>)
    ensures
        v@.len() == blacklist().len(),
        forall|i: int| 0 <= i < v@.len() ==> (#[trigger] v@[i])@ == blacklist()[i],
{
    let v = vec![
        "wfp", "lightweight", "filter", "qos", "scheduler",
        "wan miniport", "virtual", "vpn", "sangfor", "tunnel",
        "meta", "clash", "mihomo", "flclash", "bluetooth",
        "kernel debug", "teredo", "6to4", "ip-https",
        "wi-fi direct", "wifi direct", "miniport",
        "loopback", "pseudo",
    ];
    v
}

/// The lowercased alias and description, joined by a space.
pub open spec fn search_text(alias: Seq<char>, desc: Seq<char>) -> Seq<char> {
    lowercase(alias) + seq![' '] + lowercase(desc)
}

/// Some blacklisted word occurs in the lowercased alias and description.
pub open spec fn is_blocked(alias: Seq<char>, desc: Seq<char>) -> bool {
    exists|k: int| 0 <= k < blacklist().len() && occurs_in(#[trigger] blacklist()[k], search_text(alias, desc))
}

/// A row is listed when it is an up Ethernet or Wi-Fi interface with an
/// alias, and no blacklisted word occurs in its names.
pub open spec fn is_listed(row: InterfaceRow) -> bool {
    let alias = u16_text(row.alias@);
    let desc = u16_text(row.description@);
    &&& row.if_type == 6 || row.if_type == 71
    &&& row.oper_status == 1
    &&& !is_blocked(alias, desc)
    &&& alias.len() > 0
}

/// The listed rows, in table order.
pub open spec fn listed_rows(rows: Seq<InterfaceRow>) -> Seq<InterfaceRow>
    decreases rows.len(),
{
    if rows.len() == 0 {
        Seq::empty()
    } else if is_listed(rows.last()) {
        listed_rows(rows.drop_last()).push(rows.last())
    } else {
        listed_rows(rows.drop_last())
    }
}

/// Two rows that the listing cannot tell apart: the same index, type and
/// status, alias and description equal once lowercased, and both aliases
/// empty or both not.
pub open spec fn same_once_lowercased(a: InterfaceRow, b: InterfaceRow) -> bool {
    &&& a.interface_index == b.interface_index
    &&& a.if_type == b.if_type
    &&& a.oper_status == b.oper_status
    &&& lowercase(u16_text(a.alias@)) == lowercase(u16_text(b.alias@))
    &&& lowercase(u16_text(a.description@)) == lowercase(u16_text(b.description@))
    &&& (u16_text(a.alias@).len() > 0) == (u16_text(b.alias@).len() > 0)
}

/// Law: the blacklist is matched against lowercased text only, so tables
/// whose rows differ only in what lowercasing removes list the same
/// adapters: as many, with the same interface indices (the adapters' names),
/// in the same order.
pub proof fn law_listing_sees_lowercased_text(rows1: Seq<InterfaceRow>, rows2: Seq<InterfaceRow>)
    requires
        rows1.len() == rows2.len(),
        forall|i: int| 0 <= i < rows1.len() ==> same_once_lowercased(#[trigger] rows1[i], rows2[i]),
    ensures
        listed_rows(rows1).len() == listed_rows(rows2).len(),
        forall|i: int|
            0 <= i < listed_rows(rows1).len() ==> (#[trigger] listed_rows(rows1)[i]).interface_index
                == listed_rows(rows2)[i].interface_index,
    decreases rows1.len(),
{
    if rows1.len() > 0 {
        let p1 = rows1.drop_last();
        let p2 = rows2.drop_last();
        assert forall|i: int| 0 <= i < p1.len() implies same_once_lowercased(#[trigger] p1[i], p2[i]) by {
            assert(p1[i] == rows1[i]);
            assert(p2[i] == rows2[i]);
        }
        law_listing_sees_lowercased_text(p1, p2);
        let last = rows1.len() - 1;
        assert(same_once_lowercased(rows1[last], rows2[last]));
        assert(search_text(u16_text(rows1.last().alias@), u16_text(rows1.last().description@))
            == search_text(u16_text(rows2.last().alias@), u16_text(rows2.last().description@)));
        assert(is_listed(rows1.last()) == is_listed(rows2.last()));
    }
}

/// Law: the names of an interface are blocked exactly when one of these
/// words occurs in its lowercased alias and description joined by a space:
/// wfp, lightweight, filter, qos, scheduler, wan miniport, virtual, vpn,
/// sangfor, tunnel, meta, clash, mihomo, flclash, bluetooth, kernel debug,
/// teredo, 6to4, ip-https, wi-fi direct, wifi direct, miniport, loopback,
/// pseudo.
pub proof fn law_blocked_words(alias: Seq<char>, desc: Seq<char>)
    ensures
        is_blocked(alias, desc) <==> {
            ||| occurs_in("wfp"@, lowercase(alias) + seq![' '] + lowercase(desc))
            ||| occurs_in("lightweight"@, lowercase(alias) + seq![' '] + lowercase(desc))
            ||| occurs_in("filter"@, lowercase(alias) + seq![' '] + lowercase(desc))
            ||| occurs_in("qos"@, lowercase(alias) + seq![' '] + lowercase(desc))
            ||| occurs_in("scheduler"@, lowercase(alias) + seq![' '] + lowercase(desc))
            ||| occurs_in("wan miniport"@, lowercase(alias) + seq![' '] + lowercase(desc))
            ||| occurs_in("virtual"@, lowercase(alias) + seq![' '] + lowercase(desc))
            ||| occurs_in("vpn"@, lowercase(alias) + seq![' '] + lowercase(desc))
            ||| occurs_in("sangfor"@, lowercase(alias) + seq![' '] + lowercase(desc))
            ||| occurs_in("tunnel"@, lowercase(alias) + seq![' '] + lowercase(desc))
            ||| occurs_in("meta"@, lowercase(alias) + seq![' '] + lowercase(desc))
            ||| occurs_in("clash"@, lowercase(alias) + seq![' '] + lowercase(desc))
            ||| occurs_in("mihomo"@, lowercase(alias) + seq![' '] + lowercase(desc))
            ||| occurs_in("flclash"@, lowercase(alias) + seq![' '] + lowercase(desc))
            ||| occurs_in("bluetooth"@, lowercase(alias) + seq![' '] + lowercase(desc))
            ||| occurs_in("kernel debug"@, lowercase(alias) + seq![' '] + lowercase(desc))
            ||| occurs_in("teredo"@, lowercase(alias) + seq![' '] + lowercase(desc))
            ||| occurs_in("6to4"@, lowercase(alias) + seq![' '] + lowercase(desc))
            ||| occurs_in("ip-https"@, lowercase(alias) + seq![' '] + lowercase(desc))
            ||| occurs_in("wi-fi direct"@, lowercase(alias) + seq![' '] + lowercase(desc))
            ||| occurs_in("wifi direct"@, lowercase(alias) + seq![' '] + lowercase(desc))
            ||| occurs_in("miniport"@, lowercase(alias) + seq![' '] + lowercase(desc))
            ||| occurs_in("loopback"@, lowercase(alias) + seq![' '] + lowercase(desc))
            ||| occurs_in("pseudo"@, lowercase(alias) + seq![' '] + lowercase(desc))
        },
{
    assert(blacklist().len() == 24);
    assert(blacklist()[0] == "wfp"@);
    assert(blacklist()[1] == "lightweight"@);
    assert(blacklist()[2] == "filter"@);
    assert(blacklist()[3] == "qos"@);
    assert(blacklist()[4] == "scheduler"@);
    assert(blacklist()[5] == "wan miniport"@);
    assert(blacklist()[6] == "virtual"@);
    assert(blacklist()[7] == "vpn"@);
    assert(blacklist()[8] == "sangfor"@);
    assert(blacklist()[9] == "tunnel"@);
    assert(blacklist()[10] == "meta"@);
    assert(blacklist()[11] == "clash"@);
    assert(blacklist()[12] == "mihomo"@);
    assert(blacklist()[13] == "flclash"@);
    assert(blacklist()[14] == "bluetooth"@);
    assert(blacklist()[15] == "kernel debug"@);
    assert(blacklist()[16] == "teredo"@);
    assert(blacklist()[17] == "6to4"@);
    assert(blacklist()[18] == "ip-https"@);
    assert(blacklist()[19] == "wi-fi direct"@);
    assert(blacklist()[20] == "wifi direct"@);
    assert(blacklist()[21] == "miniport"@);
    assert(blacklist()[22] == "loopback"@);
    assert(blacklist()[23] == "pseudo"@);
    let text = lowercase(alias) + seq![' '] + lowercase(desc);
    assert(search_text(alias, desc) == text);
    if is_blocked(alias, desc) {
        let k = choose|k: int| 0 <= k < blacklist().len() && occurs_in(#[trigger] blacklist()[k], search_text(alias, desc));
        assert(occurs_in(blacklist()[k], text));
    }
}

/// Law: the listed rows are rows of the table, in table order, that are up
/// (status 1) Ethernet (type 6) or Wi-Fi (type 71) interfaces with an alias
/// and unblocked names; and every such row is listed.
pub proof fn law_listed_rows(rows: Seq<InterfaceRow>)
    ensures
        forall|j: int|
            0 <= j < listed_rows(rows).len() ==> {
                let r = #[trigger] listed_rows(rows)[j];
                &&& rows.contains(r)
                &&& r.if_type == 6 || r.if_type == 71
                &&& r.oper_status == 1
                &&& u16_text(r.alias@).len() > 0
                &&& !is_blocked(u16_text(r.alias@), u16_text(r.description@))
            },
        forall|i: int|
            0 <= i < rows.len() && ((#[trigger] rows[i]).if_type == 6 || rows[i].if_type == 71)
                && rows[i].oper_status == 1 && u16_text(rows[i].alias@).len() > 0 && !is_blocked(
                u16_text(rows[i].alias@),
                u16_text(rows[i].description@),
            ) ==> listed_rows(rows).contains(rows[i]),
        listed_rows(rows).len() <= rows.len(),
    decreases rows.len(),
{
    if rows.len() > 0 {
        let prev = rows.drop_last();
        law_listed_rows(prev);
        let l = listed_rows(rows);
        let lp = listed_rows(prev);
        let last = rows.last();
        assert forall|j: int| 0 <= j < l.len() implies {
            let r = #[trigger] l[j];
            &&& rows.contains(r)
            &&& r.if_type == 6 || r.if_type == 71
            &&& r.oper_status == 1
            &&& u16_text(r.alias@).len() > 0
            &&& !is_blocked(u16_text(r.alias@), u16_text(r.description@))
        } by {
            if j < lp.len() {
                assert(l[j] == lp[j]);
                let r = lp[j];
                assert(prev.contains(r));
                let x = choose|x: int| 0 <= x < prev.len() && prev[x] == r;
                assert(rows[x] == r);
            } else {
                assert(l[j] == last);
                assert(rows[rows.len() - 1] == last);
            }
        }
        assert forall|i: int|
            0 <= i < rows.len() && ((#[trigger] rows[i]).if_type == 6 || rows[i].if_type == 71)
                && rows[i].oper_status == 1 && u16_text(rows[i].alias@).len() > 0 && !is_blocked(
                u16_text(rows[i].alias@),
                u16_text(rows[i].description@),
            ) implies l.contains(rows[i]) by {
            if i < rows.len() - 1 {
                assert(prev[i] == rows[i]);
                let x = choose|x: int| 0 <= x < lp.len() && lp[x] == rows[i];
                assert(l[x] == lp[x]);
            } else {
                assert(l[l.len() - 1] == last);
            }
        }
    }
}

/// The name shown for an adapter: its description, or its alias when the
/// description is empty.
pub open spec fn display_name(alias: Seq<char>, desc: Seq<char>) -> Seq<char> {
    if desc.len() > 0 {
        desc
    } else {
        alias
    }
}

/// The index of the first adapter with an address, if any.
pub open spec fn first_with_address(adapters: Seq<AdapterInfo>) -> Option<int>
    decreases adapters.len(),
{
    if adapters.len() == 0 {
        None
    } else if adapters[0].ip_address@.len() > 0 {
        Some(0)
    } else {
        shift_index(first_with_address(adapters.drop_first()), 1)
    }
}

/// The adapter marked default: the first with an address, else the first.
pub open spec fn default_index(adapters: Seq<AdapterInfo>) -> int {
    match first_with_address(adapters) {
        Some(i) => i,
        None => 0,
    }
}

proof fn lemma_first_with_address_same_addresses(a: Seq<AdapterInfo>, b: Seq<AdapterInfo>)
    requires
        a.len() == b.len(),
        forall|i: int| 0 <= i < a.len() ==> (#[trigger] a[i]).ip_address@ == b[i].ip_address@,
    ensures
        first_with_address(a) == first_with_address(b),
    decreases a.len(),
{
    if a.len() > 0 {
        lemma_first_with_address_same_addresses(a.drop_first(), b.drop_first());
    }
}

proof fn lemma_first_with_address(adapters: Seq<AdapterInfo>)
    ensures
        first_with_address(adapters) matches Some(i) ==> 0 <= i < adapters.len()
            && adapters[i].ip_address@.len() > 0 && forall|j: int|
            0 <= j < i ==> (#[trigger] adapters[j]).ip_address@.len() == 0,
        first_with_address(adapters) is None ==> forall|j: int|
            0 <= j < adapters.len() ==> (#[trigger] adapters[j]).ip_address@.len() == 0,
    decreases adapters.len(),
{
    if adapters.len() > 0 {
        let rest = adapters.drop_first();
        lemma_first_with_address(rest);
        assert forall|j: int| 1 <= j < adapters.len() implies adapters[j] == rest[j - 1] by {}
    }
}

/// Law: a list marked as `get_adapters` marks it has exactly one default
/// adapter when it is not empty: the first adapter with an address, or the
/// first adapter when none has one.
pub proof fn law_single_default(adapters: Seq<AdapterInfo>)
    requires
        adapters.len() > 0,
        forall|i: int|
            0 <= i < adapters.len() ==> (#[trigger] adapters[i]).is_default == (i == default_index(
                adapters,
            )),
    ensures
        0 <= default_index(adapters) < adapters.len(),
        adapters[default_index(adapters)].is_default,
        forall|i: int, j: int|
            0 <= i < adapters.len() && 0 <= j < adapters.len() && (#[trigger] adapters[i]).is_default
                && (#[trigger] adapters[j]).is_default ==> i == j,
        forall|j: int|
            0 <= j < default_index(adapters) ==> (#[trigger] adapters[j]).ip_address@.len() == 0,
        (exists|j: int| 0 <= j < adapters.len() && (#[trigger] adapters[j]).ip_address@.len() > 0)
            ==> adapters[default_index(adapters)].ip_address@.len() > 0,
{
    lemma_first_with_address(adapters);
}

/// Marks the default adapter (see `default_index`), leaving the others as they are.
pub fn mark_default(adapters: &mut Vec<AdapterInfo>)
    ensures
        final(adapters)@.len() == old(adapters)@.len(),
        forall|i: int|
            0 <= i < old(adapters)@.len() ==> {
                &&& (#[trigger] final(adapters)@[i]).name == old(adapters)@[i].name
                &&& final(adapters)@[i].alias == old(adapters)@[i].alias
                &&& final(adapters)@[i].ip_address == old(adapters)@[i].ip_address
                &&& final(adapters)@[i].is_default == (i == default_index(old(adapters)@)
                    || old(adapters)@[i].is_default)
            },
{
    if adapters.len() == 0 {
        return;
    }
    let mut i: usize = 0;
    assert(adapters@.skip(0) =~= adapters@);
    while i < adapters.len() && adapters[i].ip_address.unicode_len() == 0
        invariant
            i <= adapters.len(),
            first_with_address(adapters@) == shift_index(
                first_with_address(adapters@.skip(i as int)),
                i as int,
            ),
        decreases adapters.len() - i,
    {
        assert(adapters@.skip(i as int).drop_first() =~= adapters@.skip(i + 1));
        i = i + 1;
    }
    if i == adapters.len() {
        i = 0;
    }
    let marked = AdapterInfo {
        name: adapters[i].name.clone(),
        alias: adapters[i].alias.clone(),
        ip_address: adapters[i].ip_address.clone(),
        is_default: true,
    };
    adapters.set(i, marked);
}

/// Whether a blacklisted word occurs in the lowercased names.
fn blocked(alias: &String, desc: &String) -> (r: bool)
    ensures
        r == is_blocked(alias@, desc@),
{
    let mut text = to_lowercase(alias.as_str());
    push_char(&mut text, ' ');
    let lower_desc = to_lowercase(desc.as_str());
    text.append(lower_desc.as_str());
    let hay = chars_of(text.as_str());
    assert(hay@ =~= search_text(alias@, desc@));
    let words = blacklist_words();
    let mut k: usize = 0;
    while k < words.len()
        invariant
            hay@ == search_text(alias@, desc@),
            words@.len() == blacklist().len(),
            forall|i: int| 0 <= i < words@.len() ==> (#[trigger] words@[i])@ == blacklist()[i],
            k <= words.len(),
            forall|j: int| 0 <= j < k ==> !occurs_in(#[trigger] blacklist()[j], hay@),
        decreases words.len() - k,
    {
        let needle = chars_of(words[k]);
        if contains_chars(&hay, &needle) {
            assert(occurs_in(blacklist()[k as int], search_text(alias@, desc@)));
            return true;
        }
        k = k + 1;
    }
    false
}

/// The physical adapters among the interface table's rows (see `is_listed`),
/// each with `local_ip` as its address, the default one marked.
pub fn get_adapters(rows: &Vec<InterfaceRow>, local_ip: &String) -> (r: Vec<AdapterInfo>)
    ensures
        r@.len() == listed_rows(rows@).len(),
        forall|i: int|
            0 <= i < r@.len() ==> {
                let row = listed_rows(rows@)[i];
                &&& (#[trigger] r@[i]).name@ == decimal(row.interface_index as nat)
                &&& r@[i].alias@ == display_name(u16_text(row.alias@), u16_text(row.description@))
                &&& r@[i].ip_address == *local_ip
                &&& r@[i].is_default == (i == default_index(r@))
            },
{
    let mut adapters: Vec<AdapterInfo> = Vec::new();
    let mut i: usize = 0;
    while i < rows.len()
        invariant
            i <= rows.len(),
            adapters@.len() == listed_rows(rows@.take(i as int)).len(),
            forall|j: int|
                0 <= j < adapters@.len() ==> {
                    let row = listed_rows(rows@.take(i as int))[j];
                    &&& (#[trigger] adapters@[j]).name@ == decimal(row.interface_index as nat)
                    &&& adapters@[j].alias@ == display_name(
                        u16_text(row.alias@),
                        u16_text(row.description@),
                    )
                    &&& adapters@[j].ip_address == *local_ip
                    &&& !adapters@[j].is_default
                },
        decreases rows.len() - i,
    {
        let row = &rows[i];
        assert(rows@.take(i + 1).drop_last() =~= rows@.take(i as int));
        let alias = read_u16_slice(row.alias.as_slice());
        let desc = read_u16_slice(row.description.as_slice());
        if (row.if_type == 6 || row.if_type == 71) && row.oper_status == 1 && !blocked(
            &alias,
            &desc,
        ) && alias.unicode_len() > 0 {
            let display = if desc.unicode_len() > 0 {
                desc
            } else {
                alias
            };
            adapters.push(
                AdapterInfo {
                    name: decimal_string(row.interface_index),
                    alias: display,
                    ip_address: local_ip.clone(),
                    is_default: false,
                },
            );
        }
        i = i + 1;
    }
    assert(rows@.take(rows@.len() as int) =~= rows@);
    let ghost unmarked = adapters@;
    mark_default(&mut adapters);
    proof {
        lemma_first_with_address_same_addresses(unmarked, adapters@);
    }
    adapters
}

} // verus!
