//! What of the boot configuration is shown: the entries that look usable and
//! the boot order restricted to them.
use vstd::prelude::*;

use crate::models::{BootEntry, BootEntryType, BootInfo, EntryModel, InfoModel};
use crate::parser::is_linux_id;
use crate::text;

verus! {

/// The entries that are not suspected to be invalid, in their order.
pub open spec fn visible_entries(es: Seq<EntryModel>) -> Seq<EntryModel> {
    es.filter(|e: EntryModel| !e.suspected_invalid)
}

/// The identifiers of the entries, in their order.
pub open spec fn entry_ids(es: Seq<EntryModel>) -> Seq<Seq<char>> {
    es.map_values(|e: EntryModel| e.id)
}

/// A boot order of EFI entry numbers, as `efibootmgr` reports it.
pub open spec fn is_linux_order(order: Seq<Seq<char>>) -> bool {
    forall|i: int| 0 <= i < order.len() ==> is_linux_id(#[trigger] order[i])
}

pub open spec fn has_windows_entry(es: Seq<EntryModel>) -> bool {
    exists|i: int| 0 <= i < es.len() && (#[trigger] es[i]).entry_type == BootEntryType::Windows
}

/// Whether an identifier of the boot order stays: it names a shown entry, or
/// it is the Windows boot manager of a non-EFI-number order in which a
/// Windows entry is shown.
pub open spec fn keeps_order_id(
    id: Seq<char>,
    ids: Seq<Seq<char>>,
    linux: bool,
    windows: bool,
) -> bool {
    ids.contains(id) || (!linux && id == "{bootmgr}"@ && windows)
}

/// A current or next entry stays unless the order is one of EFI entry
/// numbers and no shown entry has its identifier.
pub open spec fn kept_mark(mark: Option<Seq<char>>, ids: Seq<Seq<char>>, linux: bool) -> Option<
    Seq<char>,
> {
    match mark {
        Some(id) => if linux && !ids.contains(id) {
            None
        } else {
            Some(id)
        },
        None => None,
    }
}

/// What `visible_boot_info` returns.
pub open spec fn visible_info(info: InfoModel) -> InfoModel {
    let es = visible_entries(info.entries);
    let ids = entry_ids(es);
    let linux = is_linux_order(info.boot_order);
    let windows = has_windows_entry(es);
    InfoModel {
        current_os: info.current_os,
        uefi: info.uefi,
        secure_boot: info.secure_boot,
        boot_current: kept_mark(info.boot_current, ids, linux),
        boot_next: kept_mark(info.boot_next, ids, linux),
        boot_order: info.boot_order.filter(
            |id: Seq<char>| keeps_order_id(id, ids, linux, windows),
        ),
        entries: es,
    }
}

fn visible_entries_exec(entries: &Vec<BootEntry>) -> (r: Vec<BootEntry>)
    ensures
        crate::models::entry_models(r@) == visible_entries(crate::models::entry_models(entries@)),
{
    let ghost all = crate::models::entry_models(entries@);
    let mut r: Vec<BootEntry> = Vec::new();
    let mut i: usize = 0;
    assert(all.take(0).filter(|e: EntryModel| !e.suspected_invalid) =~= Seq::<EntryModel>::empty())
        by {
        reveal(Seq::filter);
    }
    while i < entries.len()
        invariant
            i <= entries@.len(),
            all == crate::models::entry_models(entries@),
            crate::models::entry_models(r@) == visible_entries(all.take(i as int)),
        decreases entries@.len() - i,
    {
        let ghost r0 = r@;
        proof {
            reveal(Seq::filter);
            assert(all.take(i + 1).drop_last() == all.take(i as int));
            assert(all.take(i + 1).last() == entries@[i as int]@);
        }
        if !entries[i].suspected_invalid {
            let e = entries[i].duplicate();
            r.push(e);
            assert(crate::models::entry_models(r@) =~= crate::models::entry_models(r0).push(e@));
        }
        i = i + 1;
    }
    assert(all.take(i as int) == all);
    r
}

/// Whether some entry has the identifier `id`.
pub fn lists_id(entries: &Vec<BootEntry>, id: &str) -> (r: bool)
    ensures
        r == entry_ids(crate::models::entry_models(entries@)).contains(id@),
{
    let ghost ids = entry_ids(crate::models::entry_models(entries@));
    let key = text::chars_of(id);
    let mut i: usize = 0;
    while i < entries.len()
        invariant
            i <= entries@.len(),
            key@ == id@,
            ids == entry_ids(crate::models::entry_models(entries@)),
            forall|j: int| 0 <= j < i ==> ids[j] != id@,
        decreases entries@.len() - i,
    {
        let c = text::chars_of(entries[i].id.as_str());
        if text::seq_eq_exec(c.as_slice(), key.as_slice()) {
            assert(ids[i as int] == id@);
            return true;
        }
        i = i + 1;
    }
    false
}

fn linux_order_exec(order: &Vec<String>) -> (r: bool)
    ensures
        r == is_linux_order(crate::models::texts(order@)),
{
    let ghost o = crate::models::texts(order@);
    let mut i: usize = 0;
    while i < order.len()
        invariant
            i <= order@.len(),
            o == crate::models::texts(order@),
            forall|j: int| 0 <= j < i ==> is_linux_id(#[trigger] o[j]),
        decreases order@.len() - i,
    {
        if !crate::parser::valid_linux_id(order[i].as_str()) {
            assert(!is_linux_id(o[i as int]));
            return false;
        }
        i = i + 1;
    }
    true
}

fn windows_entry_exec(entries: &Vec<BootEntry>) -> (r: bool)
    ensures
        r == has_windows_entry(crate::models::entry_models(entries@)),
{
    let ghost es = crate::models::entry_models(entries@);
    let mut i: usize = 0;
    while i < entries.len()
        invariant
            i <= entries@.len(),
            es == crate::models::entry_models(entries@),
            forall|j: int| 0 <= j < i ==> (#[trigger] es[j]).entry_type != BootEntryType::Windows,
        decreases entries@.len() - i,
    {
        if entries[i].entry_type == BootEntryType::Windows {
            assert(es[i as int].entry_type == BootEntryType::Windows);
            return true;
        }
        i = i + 1;
    }
    false
}

fn kept_mark_exec(mark: &Option<String>, entries: &Vec<BootEntry>, linux: bool) -> (r: Option<
    String,
>)
    ensures
        crate::models::opt_text(r) == kept_mark(
            crate::models::opt_text(*mark),
            entry_ids(crate::models::entry_models(entries@)),
            linux,
        ),
{
    match mark {
        Some(id) => {
            if linux && !lists_id(entries, id.as_str()) {
                None
            } else {
                Some(id.clone())
            }
        },
        None => None,
    }
}

/// The boot configuration as the user sees it: the entries without the
/// suspect ones, the boot order restricted to the shown entries (and, in a
/// Windows order, to `{bootmgr}` where a Windows entry is shown), and, for an
/// order of EFI entry numbers, the current and next marks only where a shown
/// entry has them.
pub fn visible_boot_info(info: BootInfo) -> (r: BootInfo)
    ensures
        r@ == visible_info(info@),
{
    let entries = visible_entries_exec(&info.entries);
    let linux = linux_order_exec(&info.boot_order);
    let windows = windows_entry_exec(&entries);
    let ghost ids = entry_ids(crate::models::entry_models(entries@));
    let ghost order = crate::models::texts(info.boot_order@);
    let ghost keep = |id: Seq<char>| keeps_order_id(id, ids, linux, windows);
    let bootmgr = text::chars_of("{bootmgr}");
    let mut kept: Vec<String> = Vec::new();
    let mut i: usize = 0;
    assert(order.take(0).filter(keep) =~= Seq::<Seq<char>>::empty()) by {
        reveal(Seq::filter);
    }
    while i < info.boot_order.len()
        invariant
            i <= info.boot_order@.len(),
            order == crate::models::texts(info.boot_order@),
            ids == entry_ids(crate::models::entry_models(entries@)),
            bootmgr@ == "{bootmgr}"@,
            keep == (|id: Seq<char>| keeps_order_id(id, ids, linux, windows)),
            crate::models::texts(kept@) == order.take(i as int).filter(keep),
        decreases info.boot_order@.len() - i,
    {
        let ghost k0 = kept@;
        let id = &info.boot_order[i];
        let listed = lists_id(&entries, id.as_str());
        let c = text::chars_of(id.as_str());
        let is_bootmgr = text::seq_eq_exec(c.as_slice(), bootmgr.as_slice());
        proof {
            reveal(Seq::filter);
            assert(order.take(i + 1).drop_last() == order.take(i as int));
            assert(order.take(i + 1).last() == id@);
        }
        if listed || (!linux && is_bootmgr && windows) {
            let s = id.clone();
            kept.push(s);
            assert(crate::models::texts(kept@) =~= crate::models::texts(k0).push(s@));
        }
        i = i + 1;
    }
    assert(order.take(i as int) == order);
    let current = kept_mark_exec(&info.boot_current, &entries, linux);
    let next = kept_mark_exec(&info.boot_next, &entries, linux);
    BootInfo {
        current_os: info.current_os,
        uefi: info.uefi,
        secure_boot: info.secure_boot,
        boot_current: current,
        boot_next: next,
        boot_order: kept,
        entries: entries,
    }
}

} // verus!

verus! {

/// The operating system the application runs on.
#[derive(Clone, Copy, PartialEq, Eq, Structural)]
pub enum Platform {
    Windows,
    Linux,
    Other,
}

/// The boot manager of a platform.
pub enum Manager {
    Windows(crate::windows::WindowsBootManager),
    Linux(crate::linux::LinuxBootManager),
}

/// The boot manager for the platform: `bcdedit` on Windows, `efibootmgr` on
/// Linux; other platforms are not supported.
pub fn current_manager(platform: Platform) -> (r: crate::error::BootResult<Manager>)
    ensures
        platform == Platform::Windows ==> r matches Ok(Manager::Windows(_)),
        platform == Platform::Linux ==> r matches Ok(Manager::Linux(_)),
        platform == Platform::Other ==> (r matches Err(e) && e@
            == crate::error::ErrorModel::UnsupportedPlatform),
{
    match platform {
        Platform::Windows => Ok(Manager::Windows(crate::windows::WindowsBootManager::new())),
        Platform::Linux => Ok(Manager::Linux(crate::linux::LinuxBootManager::new())),
        Platform::Other => Err(crate::error::BootError::UnsupportedPlatform),
    }
}

} // verus!

verus! {

/// What `visible_boot_info` shows is consistent: it shows exactly the input's
/// entries that are not suspect, in their order; its boot order is the
/// input's with some identifiers left out; and where the input's order is one
/// of EFI entry numbers, every identifier of the shown order and the current
/// and next marks name a shown entry. The other fields stay as they were.
pub proof fn visible_info_consistent(info: InfoModel)
    ensures
        ({
            let v = visible_info(info);
            &&& forall|i: int|
                0 <= i < v.entries.len() ==> !(#[trigger] v.entries[i]).suspected_invalid
                    && info.entries.contains(v.entries[i])
            &&& forall|i: int|
                0 <= i < info.entries.len() && !(#[trigger] info.entries[i]).suspected_invalid
                    ==> v.entries.contains(info.entries[i])
            &&& forall|i: int|
                0 <= i < v.boot_order.len() ==> info.boot_order.contains(#[trigger] v.boot_order[i])
            &&& is_linux_order(info.boot_order) ==> {
                &&& forall|i: int|
                    0 <= i < v.boot_order.len() ==> entry_ids(v.entries).contains(
                        #[trigger] v.boot_order[i],
                    )
                &&& v.boot_current matches Some(id) ==> entry_ids(v.entries).contains(id)
                &&& v.boot_next matches Some(id) ==> entry_ids(v.entries).contains(id)
            }
            &&& v.current_os == info.current_os
            &&& v.uefi == info.uefi
            &&& v.secure_boot == info.secure_boot
        }),
{
    let v = visible_info(info);
    let keep_entry = |e: EntryModel| !e.suspected_invalid;
    let es = visible_entries(info.entries);
    let ids = entry_ids(es);
    let linux = is_linux_order(info.boot_order);
    let windows = has_windows_entry(es);
    let keep = |id: Seq<char>| keeps_order_id(id, ids, linux, windows);
    assert forall|i: int| 0 <= i < v.entries.len() implies !(#[trigger] v.entries[i]).suspected_invalid
        && info.entries.contains(v.entries[i]) by {
        info.entries.lemma_filter_pred(keep_entry, i);
        assert(es.contains(es[i]));
        info.entries.lemma_filter_contains_rev(keep_entry, es[i]);
    }
    assert forall|i: int|
        0 <= i < info.entries.len() && !(#[trigger] info.entries[i]).suspected_invalid implies v.entries.contains(
        info.entries[i],
    ) by {
        info.entries.lemma_filter_contains(keep_entry, i);
    }
    assert forall|i: int| 0 <= i < v.boot_order.len() implies info.boot_order.contains(
        #[trigger] v.boot_order[i],
    ) by {
        assert(v.boot_order.contains(v.boot_order[i]));
        info.boot_order.lemma_filter_contains_rev(keep, v.boot_order[i]);
    }
    if linux {
        assert forall|i: int| 0 <= i < v.boot_order.len() implies entry_ids(v.entries).contains(
            #[trigger] v.boot_order[i],
        ) by {
            info.boot_order.lemma_filter_pred(keep, i);
        }
    }
}

} // verus!

verus! {

proof fn lemma_filter_keeps_all<A>(s: Seq<A>, p: spec_fn(A) -> bool)
    requires
        forall|i: int| 0 <= i < s.len() ==> p(#[trigger] s[i]),
    ensures
        s.filter(p) == s,
    decreases s.len(),
{
    reveal(Seq::filter);
    if s.len() > 0 {
        lemma_filter_keeps_all(s.drop_last(), p);
        assert(s.drop_last().push(s.last()) == s);
    }
}

/// A mark that, if set, names a shown entry.
pub open spec fn names_shown(mark: Option<Seq<char>>, info: InfoModel) -> bool {
    mark matches Some(id) ==> entry_ids(info.entries).contains(id)
}

/// What `visible_boot_info` keeps: the entries that are not suspect, in
/// their order; and of the boot order and the marks, in terms of the entries
/// it shows: the shown order is the input's, in its order,
/// restricted to the identifiers of the shown entries (so every identifier of
/// the input order that names a shown entry stays), and, for an order that
/// is not one of EFI entry numbers, also to `{bootmgr}` where a Windows entry
/// is shown. For an order of EFI entry numbers the current and next marks
/// stay where they name a shown entry and are cleared otherwise; for another
/// order they stay as they were.
pub proof fn visible_order_follows_shown_entries(info: InfoModel)
    ensures
        ({
            let v = visible_info(info);
            let shown = entry_ids(v.entries);
            let linux = is_linux_order(info.boot_order);
            let windows_shown = exists|j: int|
                0 <= j < v.entries.len() && (#[trigger] v.entries[j]).entry_type
                    == BootEntryType::Windows;
            &&& v.entries == info.entries.filter(|e: EntryModel| !e.suspected_invalid)
            &&& v.boot_order == info.boot_order.filter(
                |id: Seq<char>| shown.contains(id) || (!linux && id == "{bootmgr}"@ && windows_shown),
            )
            &&& forall|i: int|
                0 <= i < info.boot_order.len() && shown.contains(#[trigger] info.boot_order[i])
                    ==> v.boot_order.contains(info.boot_order[i])
            &&& linux ==> v.boot_order == info.boot_order.filter(|id: Seq<char>| shown.contains(id))
            &&& v.boot_current == match info.boot_current {
                Some(id) => if linux && !shown.contains(id) {
                    None
                } else {
                    Some(id)
                },
                None => None,
            }
            &&& v.boot_next == match info.boot_next {
                Some(id) => if linux && !shown.contains(id) {
                    None
                } else {
                    Some(id)
                },
                None => None,
            }
        }),
{
    let v = visible_info(info);
    let shown = entry_ids(v.entries);
    let linux = is_linux_order(info.boot_order);
    let windows_shown = exists|j: int|
        0 <= j < v.entries.len() && (#[trigger] v.entries[j]).entry_type == BootEntryType::Windows;
    let es = visible_entries(info.entries);
    let keep = |id: Seq<char>| keeps_order_id(id, entry_ids(es), linux, has_windows_entry(es));
    let want = |id: Seq<char>| shown.contains(id) || (!linux && id == "{bootmgr}"@ && windows_shown);
    assert(keep =~= want);
    assert forall|i: int|
        0 <= i < info.boot_order.len() && shown.contains(#[trigger] info.boot_order[i]) implies v.boot_order.contains(
        info.boot_order[i],
    ) by {
        info.boot_order.lemma_filter_contains(keep, i);
    }
    if linux {
        let only = |id: Seq<char>| shown.contains(id);
        assert(keep =~= only);
    }
}

/// Showing what is shown changes nothing. It fails only where the input's
/// order is not one of EFI entry numbers but the shown order is (an order of
/// `{bootmgr}` alone with no Windows entry shown, say) and a current or next
/// mark names no shown entry: the second pass then clears that mark.
pub proof fn visible_info_idempotent(info: InfoModel)
    requires
        is_linux_order(info.boot_order) || !is_linux_order(visible_info(info).boot_order) || (
        names_shown(visible_info(info).boot_current, visible_info(info)) && names_shown(
            visible_info(info).boot_next,
            visible_info(info),
        )),
    ensures
        visible_info(visible_info(info)) == visible_info(info),
{
    let v = visible_info(info);
    let w = visible_info(v);
    visible_info_consistent(info);
    let keep_entry = |e: EntryModel| !e.suspected_invalid;
    lemma_filter_keeps_all(v.entries, keep_entry);
    assert(w.entries == v.entries);
    let ids = entry_ids(v.entries);
    let linux_x = is_linux_order(info.boot_order);
    let linux_v = is_linux_order(v.boot_order);
    let windows = has_windows_entry(v.entries);
    let keep_x = |id: Seq<char>| keeps_order_id(id, ids, linux_x, windows);
    let keep_v = |id: Seq<char>| keeps_order_id(id, ids, linux_v, windows);
    assert forall|i: int| 0 <= i < v.boot_order.len() implies #[trigger] keep_v(v.boot_order[i]) by {
        info.boot_order.lemma_filter_pred(keep_x, i);
        if linux_v && !linux_x {
            assert(is_linux_id(v.boot_order[i]));
            reveal_strlit("{bootmgr}");
            assert(v.boot_order[i] != "{bootmgr}"@);
        }
    }
    lemma_filter_keeps_all(v.boot_order, keep_v);
    assert(w.boot_order == v.boot_order);
    assert(w.boot_current == v.boot_current);
    assert(w.boot_next == v.boot_next);
}

} // verus!
