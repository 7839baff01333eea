//! Boot entries on Windows, through `bcdedit`: decoding what the command
//! prints, the decisions taken on it, and on what the user asks for.
use vstd::prelude::*;
use vstd::utf8::{decode_utf8, valid_utf8};

use crate::command::{CommandOutput, SpawnFailure, error_text, error_text_exec};
use crate::error::{BootError, BootResult, ErrorModel, outcome};
use crate::models::{BootEntry, BootInfo, EntryModel, InfoModel};
use crate::parser::{bcdedit_boot_state, bcdedit_entries, is_windows_id};
use crate::text;

verus! {

/// The boot manager of Windows systems, which works through `bcdedit`.
pub struct WindowsBootManager;

// ---------------------------------------------------------------------------
// Decoding the output of bcdedit
// ---------------------------------------------------------------------------

/// A UTF-16 surrogate code unit.
pub open spec fn is_surrogate(u: u16) -> bool {
    0xD800 <= u <= 0xDFFF
}

/// The text that UTF-16 code units encode, each unpaired surrogate read as
/// U+FFFD: a high surrogate (`D800`-`DBFF`) followed by a low one
/// (`DC00`-`DFFF`) makes one character, any other unit outside the
/// surrogates is the character of that number.
pub open spec fn utf16_text(u: Seq<u16>) -> Seq<char>
    decreases u.len(),
{
    if u.len() == 0 {
        Seq::empty()
    } else if !is_surrogate(u[0]) {
        seq![u[0] as char] + utf16_text(u.drop_first())
    } else if u[0] <= 0xDBFF && u.len() >= 2 && 0xDC00 <= u[1] <= 0xDFFF {
        seq![(0x10000 + (u[0] - 0xD800) * 0x400 + (u[1] - 0xDC00)) as char] + utf16_text(
            u.subrange(2, u.len() as int),
        )
    } else {
        seq!['\u{FFFD}'] + utf16_text(u.drop_first())
    }
}

/// Calls `String::from_utf16_lossy`, which decodes the units as UTF-16 and
/// puts U+FFFD in place of each unpaired surrogate.
#[verifier::external_body]
fn from_utf16_lossy(units: &[u16]) -> (r: String)
    ensures
        r@ == utf16_text(units@),
{
    String::from_utf16_lossy(units)
}

/// Calls `std::str::from_utf8`: the text that the bytes encode when they are
/// valid UTF-8, else `None`.
#[verifier::external_body]
fn str_from_utf8(bytes: &[u8]) -> (r: Option<String>)
    ensures
        r is Some <==> valid_utf8(bytes@),
        r matches Some(s) ==> s@ == decode_utf8(bytes@),
{
    match std::str::from_utf8(bytes) {
        Ok(s) => Some(s.to_string()),
        Err(_) => None,
    }
}

/// What `encoding_rs::GBK.decode` returns for some bytes: the text, decoded as
/// GBK (or by the encoding a leading byte-order mark names), malformed
/// sequences replaced by U+FFFD.
pub uninterp spec fn gbk_decode(bytes: Seq<u8>) -> Seq<char>;

/// Calls `encoding_rs::GBK.decode` and keeps the decoded text. The result is
/// the named value `gbk_decode` of the bytes. The length bound keeps the
/// buffer size that the decoder computes (about three bytes of output per
/// byte of input) from overflowing, where it would panic.
#[verifier::external_body]
fn decode_gbk(bytes: &[u8]) -> (r: String)
    requires
        bytes@.len() <= usize::MAX / 4,
    ensures
        r@ == gbk_decode(bytes@),
{
    let (decoded, _, _) = encoding_rs::GBK.decode(bytes);
    decoded.into_owned()
}

/// Two zero bytes stand side by side (the mark of UTF-16 text).
pub open spec fn has_zero_pair(b: Seq<u8>) -> bool {
    exists|i: int| 0 <= i && i + 1 < b.len() && b[i] == 0 && #[trigger] b[i + 1] == 0
}

/// The little-endian 16-bit units of the bytes; an odd last byte is dropped.
pub open spec fn le_units(b: Seq<u8>) -> Seq<u16> {
    Seq::new(b.len() / 2, |i: int| (b[2 * i] as int + 256 * b[2 * i + 1] as int) as u16)
}

/// The text of `bcdedit` output: UTF-16 (little endian) where two zero bytes
/// stand side by side, else UTF-8 where the bytes are valid UTF-8, else GBK.
pub open spec fn windows_text(b: Seq<u8>) -> Seq<char> {
    if b.len() >= 2 && has_zero_pair(b) {
        utf16_text(le_units(b))
    } else if valid_utf8(b) {
        decode_utf8(b)
    } else {
        gbk_decode(b)
    }
}

fn has_zero_pair_exec(b: &[u8]) -> (r: bool)
    ensures
        r == has_zero_pair(b@),
{
    let n = b.len();
    if n < 2 {
        return false;
    }
    let mut i: usize = 0;
    while i < n - 1
        invariant
            n == b@.len(),
            n >= 2,
            forall|j: int| 0 <= j < i && j + 1 < n ==> !(b@[j] == 0 && #[trigger] b@[j + 1] == 0),
        decreases n - i,
    {
        if b[i] == 0 && b[i + 1] == 0 {
            return true;
        }
        i = i + 1;
    }
    false
}

fn le_units_exec(b: &[u8]) -> (r: Vec<u16>)
    ensures
        r@ == le_units(b@),
{
    let len = b.len();
    let n = len / 2;
    assert(2 * n <= b@.len()) by (nonlinear_arith)
        requires
            n == b@.len() / 2,
    ;
    let mut r: Vec<u16> = Vec::new();
    let mut i: usize = 0;
    while i < n
        invariant
            n == b@.len() / 2,
            2 * n <= b@.len(),
            b@.len() <= usize::MAX,
            i <= n,
            r@.len() == i,
            forall|j: int| 0 <= j < i ==> r@[j] == le_units(b@)[j],
        decreases n - i,
    {
        let lo = b[2 * i] as u16;
        let hi = b[2 * i + 1] as u16;
        let u = lo + hi * 256;
        r.push(u);
        i = i + 1;
    }
    assert(r@ =~= le_units(b@));
    r
}

/// Decodes `bcdedit` output, which Windows writes in UTF-16, UTF-8 or the
/// console's code page.
pub fn decode_windows_text(bytes: &[u8]) -> (r: String)
    requires
        bytes@.len() <= usize::MAX / 4,
    ensures
        r@ == windows_text(bytes@),
{
    if bytes.len() >= 2 && has_zero_pair_exec(bytes) {
        let units = le_units_exec(bytes);
        return from_utf16_lossy(units.as_slice());
    }
    match str_from_utf8(bytes) {
        Some(s) => s,
        None => decode_gbk(bytes),
    }
}

// ---------------------------------------------------------------------------
// Decisions on the output
// ---------------------------------------------------------------------------

/// What `output_text` returns: the decoded standard output for a successful
/// command; otherwise a permission error where the standard error speaks of
/// access being denied, else the standard error as the failure message.
pub open spec fn windows_output_text_model(output: CommandOutput) -> Result<Seq<char>, ErrorModel> {
    if !output.success {
        let m = error_text(output);
        if text::contains_sub(text::to_lower(m), "access"@) || text::contains_sub(m, "拒绝"@) {
            Err(ErrorModel::PermissionDenied)
        } else {
            Err(ErrorModel::CommandFailed(m))
        }
    } else {
        Ok(windows_text(output.stdout@))
    }
}

/// The first index at or after `i` of an entry with identifier `id`.
pub open spec fn entry_index_from(es: Seq<EntryModel>, id: Seq<char>, i: int) -> Option<int>
    decreases es.len() - i,
{
    if i < 0 || i >= es.len() {
        None
    } else if es[i].id == id {
        Some(i)
    } else {
        entry_index_from(es, id, i + 1)
    }
}

/// Gives the first entry with identifier `id` the place `k`.
pub open spec fn set_order(es: Seq<EntryModel>, id: Seq<char>, k: int) -> Seq<EntryModel> {
    match entry_index_from(es, id, 0) {
        Some(j) => es.update(j, EntryModel { order: Some(k as u32), ..es[j] }),
        None => es,
    }
}

/// Places the entries by the display order, one identifier after another.
pub open spec fn with_orders(es: Seq<EntryModel>, order: Seq<Seq<char>>) -> Seq<EntryModel>
    decreases order.len(),
{
    if order.len() == 0 {
        es
    } else {
        set_order(with_orders(es, order.drop_last()), order.last(), order.len() - 1)
    }
}

/// Marks the first entry with the boot sequence's identifier as the next one.
pub open spec fn with_next(es: Seq<EntryModel>, next: Option<Seq<char>>) -> Seq<EntryModel> {
    match next {
        Some(id) => match entry_index_from(es, id, 0) {
            Some(j) => es.update(j, EntryModel { next: true, ..es[j] }),
            None => es,
        },
        None => es,
    }
}

/// What `boot_info_from_text` returns.
pub open spec fn windows_info_model(text: Seq<char>, current_os: Seq<char>) -> Result<
    InfoModel,
    ErrorModel,
> {
    match bcdedit_entries(text) {
        Err(e) => Err(e),
        Ok(es) => {
            let order = bcdedit_boot_state(text).0;
            let next = bcdedit_boot_state(text).1;
            Ok(
                InfoModel {
                    current_os: current_os,
                    uefi: true,
                    secure_boot: None,
                    boot_current: None,
                    boot_next: next,
                    boot_order: order,
                    entries: with_next(with_orders(es, order), next),
                },
            )
        },
    }
}

/// An identifier that may be set as the next or the default entry: a
/// Windows identifier other than `{bootmgr}` and `{fwbootmgr}`.
pub open spec fn is_target_id(id: Seq<char>) -> bool {
    is_windows_id(id) && id != "{bootmgr}"@ && id != "{fwbootmgr}"@
}

fn entry_index(entries: &Vec<BootEntry>, id: &[char]) -> (r: Option<usize>)
    ensures
        match r {
            Some(j) => entry_index_from(crate::models::entry_models(entries@), id@, 0) == Some(
                j as int,
            ) && j < entries@.len(),
            None => entry_index_from(crate::models::entry_models(entries@), id@, 0) is None,
        },
{
    let ghost es = crate::models::entry_models(entries@);
    let mut i: usize = 0;
    while i < entries.len()
        invariant
            i <= entries@.len(),
            es == crate::models::entry_models(entries@),
            entry_index_from(es, id@, 0) == entry_index_from(es, id@, i as int),
        decreases entries@.len() - i,
    {
        let c = text::chars_of(entries[i].id.as_str());
        if text::seq_eq_exec(c.as_slice(), id) {
            return Some(i);
        }
        i = i + 1;
    }
    None
}

impl WindowsBootManager {
    pub fn new() -> (r: WindowsBootManager) {
        WindowsBootManager
    }

    /// The error for `bcdedit` not starting.
    pub fn spawn_error(&self, failure: SpawnFailure) -> (r: BootError)
        ensures
            r@ == crate::command::spawn_error_model("bcdedit"@, failure),
    {
        crate::command::spawn_error("bcdedit", failure)
    }

    /// The text that `bcdedit` printed, or the error its failure means.
    pub fn output_text(&self, output: &CommandOutput) -> (r: BootResult<String>)
        requires
            output.stdout@.len() <= usize::MAX / 4,
        ensures
            outcome(r) == windows_output_text_model(*output),
    {
        if !output.success {
            let m = error_text_exec(output);
            let lower = text::lower_text(m.as_slice());
            let access = text::chars_of("access");
            let denied = text::chars_of("拒绝");
            if text::contains_exec(lower.as_slice(), access.as_slice()) || text::contains_exec(
                m.as_slice(),
                denied.as_slice(),
            ) {
                return Err(BootError::PermissionDenied);
            }
            return Err(BootError::CommandFailed(text::string_of(m.as_slice())));
        }
        Ok(decode_windows_text(output.stdout.as_slice()))
    }

    /// The boot configuration that `bcdedit /enum firmware /v` output
    /// describes: its entries, placed by the display order and with the boot
    /// sequence entry marked as the next one.
    pub fn boot_info_from_text(&self, text: &str, current_os: String) -> (r: BootResult<
        BootInfo,
    >)
        ensures
            outcome(r) == windows_info_model(text@, current_os@),
    {
        let mut entries = match crate::parser::parse_bcdedit(text) {
            Err(e) => {
                return Err(e);
            },
            Ok(es) => es,
        };
        let (boot_order, boot_next) = crate::parser::parse_bcdedit_boot_state(text);
        let ghost es0 = crate::models::entry_models(entries@);
        let ghost order = crate::models::texts(boot_order@);
        let mut k: usize = 0;
        while k < boot_order.len()
            invariant
                k <= boot_order@.len(),
                order == crate::models::texts(boot_order@),
                crate::models::entry_models(entries@) == with_orders(es0, order.take(k as int)),
            decreases boot_order@.len() - k,
        {
            let id = text::chars_of(boot_order[k].as_str());
            let ghost before = crate::models::entry_models(entries@);
            proof {
                assert(order.take(k + 1).drop_last() == order.take(k as int));
                assert(order.take(k + 1).last() == id@);
            }
            match entry_index(&entries, id.as_slice()) {
                Some(j) => {
                    let mut e = entries[j].duplicate();
                    e.order = Some(k as u32);
                    entries.set(j, e);
                    assert(crate::models::entry_models(entries@) =~= before.update(
                        j as int,
                        EntryModel { order: Some(k as u32), ..before[j as int] },
                    ));
                },
                None => {},
            }
            k = k + 1;
        }
        assert(order.take(k as int) == order);
        let ghost placed = crate::models::entry_models(entries@);
        match &boot_next {
            Some(id) => {
                let c = text::chars_of(id.as_str());
                match entry_index(&entries, c.as_slice()) {
                    Some(j) => {
                        let mut e = entries[j].duplicate();
                        e.next = true;
                        entries.set(j, e);
                        assert(crate::models::entry_models(entries@) =~= placed.update(
                            j as int,
                            EntryModel { next: true, ..placed[j as int] },
                        ));
                    },
                    None => {},
                }
            },
            None => {},
        }
        Ok(
            BootInfo {
                current_os,
                uefi: true,
                secure_boot: None,
                boot_current: None,
                boot_next,
                boot_order,
                entries,
            },
        )
    }

    /// The boot configuration from what `bcdedit /enum firmware /v` returned:
    /// the error that a failed run means, or the configuration its decoded
    /// output describes.
    pub fn boot_info_from_output(&self, output: &CommandOutput, current_os: String) -> (r:
        BootResult<BootInfo>)
        requires
            output.stdout@.len() <= usize::MAX / 4,
        ensures
            match windows_output_text_model(*output) {
                Err(e) => r matches Err(x) && x@ == e,
                Ok(t) => outcome(r) == windows_info_model(t, current_os@),
            },
    {
        match self.output_text(output) {
            Err(e) => Err(e),
            Ok(t) => self.boot_info_from_text(t.as_str(), current_os),
        }
    }

    /// Accepts only identifiers that may be set as the next or the default
    /// entry.
    pub fn check_target(&self, id: &str) -> (r: BootResult<()>)
        ensures
            r is Ok <==> is_target_id(id@),
            r matches Err(e) ==> e@ == ErrorModel::InvalidBootId(id@),
    {
        let c = text::chars_of(id);
        let bootmgr = text::chars_of("{bootmgr}");
        let fwbootmgr = text::chars_of("{fwbootmgr}");
        if !crate::parser::valid_windows_id(id) || text::seq_eq_exec(c.as_slice(), bootmgr.as_slice())
            || text::seq_eq_exec(c.as_slice(), fwbootmgr.as_slice()) {
            return Err(BootError::InvalidBootId(text::owned(id)));
        }
        Ok(())
    }

    /// The `bcdedit` arguments that make `id` the next boot entry, for an
    /// identifier that may be set.
    pub fn boot_next_args(&self, id: &str) -> (r: BootResult<Vec<String>>)
        ensures
            r is Ok <==> is_target_id(id@),
            r matches Err(e) ==> e@ == ErrorModel::InvalidBootId(id@),
            r matches Ok(args) ==> crate::models::texts(args@) == seq![
                "/set"@,
                "{fwbootmgr}"@,
                "bootsequence"@,
                id@,
            ],
    {
        match self.check_target(id) {
            Err(e) => Err(e),
            Ok(()) => {
                let args = vec![
                    text::owned("/set"),
                    text::owned("{fwbootmgr}"),
                    text::owned("bootsequence"),
                    text::owned(id),
                ];
                assert(crate::models::texts(args@) =~= seq![
                    "/set"@,
                    "{fwbootmgr}"@,
                    "bootsequence"@,
                    id@,
                ]);
                Ok(args)
            },
        }
    }

    /// The `bcdedit` arguments that put `id` first in the firmware's display
    /// order, for an identifier that may be set.
    pub fn default_boot_args(&self, id: &str) -> (r: BootResult<Vec<String>>)
        ensures
            r is Ok <==> is_target_id(id@),
            r matches Err(e) ==> e@ == ErrorModel::InvalidBootId(id@),
            r matches Ok(args) ==> crate::models::texts(args@) == seq![
                "/set"@,
                "{fwbootmgr}"@,
                "displayorder"@,
                id@,
                "/addfirst"@,
            ],
    {
        match self.check_target(id) {
            Err(e) => Err(e),
            Ok(()) => {
                let args = vec![
                    text::owned("/set"),
                    text::owned("{fwbootmgr}"),
                    text::owned("displayorder"),
                    text::owned(id),
                    text::owned("/addfirst"),
                ];
                assert(crate::models::texts(args@) =~= seq![
                    "/set"@,
                    "{fwbootmgr}"@,
                    "displayorder"@,
                    id@,
                    "/addfirst"@,
                ]);
                Ok(args)
            },
        }
    }
}

} // verus!

verus! {

/// The last index where `id` stands in `order`.
pub open spec fn last_position(order: Seq<Seq<char>>, id: Seq<char>) -> Option<int>
    decreases order.len(),
{
    if order.len() == 0 {
        None
    } else if order.last() == id {
        Some(order.len() - 1)
    } else {
        last_position(order.drop_last(), id)
    }
}

/// Entry `j` is the first with its identifier.
pub open spec fn is_first_with_id(es: Seq<EntryModel>, j: int) -> bool {
    entry_index_from(es, es[j].id, 0) == Some(j)
}

/// The place that the display order gives entry `j`.
pub open spec fn placed_order(es: Seq<EntryModel>, order: Seq<Seq<char>>, j: int) -> Option<u32> {
    if is_first_with_id(es, j) && last_position(order, es[j].id) is Some {
        Some(last_position(order, es[j].id)->0 as u32)
    } else {
        es[j].order
    }
}

proof fn lemma_entry_index_from(es: Seq<EntryModel>, id: Seq<char>, i: int)
    requires
        0 <= i,
    ensures
        entry_index_from(es, id, i) matches Some(k) ==> i <= k < es.len() && es[k].id == id
            && forall|j: int| i <= j < k ==> es[j].id != id,
        entry_index_from(es, id, i) is None ==> forall|j: int| i <= j < es.len() ==> es[j].id != id,
    decreases es.len() - i,
{
    if i < es.len() && es[i].id != id {
        lemma_entry_index_from(es, id, i + 1);
    }
}

proof fn lemma_entry_index_same_ids(es: Seq<EntryModel>, f: Seq<EntryModel>, id: Seq<char>, i: int)
    requires
        es.len() == f.len(),
        forall|j: int| 0 <= j < es.len() ==> (#[trigger] es[j]).id == f[j].id,
        0 <= i,
    ensures
        entry_index_from(es, id, i) == entry_index_from(f, id, i),
    decreases es.len() - i,
{
    if i < es.len() {
        lemma_entry_index_same_ids(es, f, id, i + 1);
    }
}

proof fn lemma_with_orders(es: Seq<EntryModel>, order: Seq<Seq<char>>)
    ensures
        with_orders(es, order).len() == es.len(),
        forall|j: int|
            0 <= j < es.len() ==> #[trigger] with_orders(es, order)[j] == (EntryModel {
                order: placed_order(es, order, j),
                ..es[j]
            }),
    decreases order.len(),
{
    if order.len() > 0 {
        let prev = order.drop_last();
        lemma_with_orders(es, prev);
        let w = with_orders(es, prev);
        let id = order.last();
        let k = order.len() - 1;
        assert forall|j: int| 0 <= j < es.len() implies (#[trigger] es[j]).id == w[j].id by {
            assert(w[j] == (EntryModel { order: placed_order(es, prev, j), ..es[j] }));
        }
        lemma_entry_index_same_ids(es, w, id, 0);
        lemma_entry_index_from(es, id, 0);
        assert forall|j: int| 0 <= j < es.len() implies #[trigger] with_orders(es, order)[j] == (
        EntryModel { order: placed_order(es, order, j), ..es[j] }) by {
            assert(w[j] == (EntryModel { order: placed_order(es, prev, j), ..es[j] }));
            if es[j].id == id {
                assert(last_position(order, es[j].id) == Some(k));
            } else {
                assert(last_position(order, es[j].id) == last_position(prev, es[j].id));
            }
        }
    }
}

/// On Windows the entries come placed by the firmware's display order and
/// marked by its boot sequence: the first entry with an identifier takes the
/// last place of that identifier in the display order, and is the next entry
/// where the boot sequence names it; every other entry has no place and is
/// not the next one. Apart from these two marks the entries are those that
/// `parse_bcdedit` read, as many and in the same order.
pub proof fn windows_entries_placed(text: Seq<char>, current_os: Seq<char>)
    ensures
        bcdedit_entries(text) matches Ok(es) ==> windows_info_model(text, current_os) matches Ok(
            info,
        ) && info.entries.len() == es.len() && forall|j: int|
            0 <= j < es.len() ==> #[trigger] info.entries[j] == (EntryModel {
                order: info.entries[j].order,
                next: info.entries[j].next,
                ..es[j]
            }),
        windows_info_model(text, current_os) matches Ok(info) ==> forall|j: int|
            0 <= j < info.entries.len() ==> {
                &&& (#[trigger] info.entries[j]).order == if is_first_with_id(info.entries, j)
                    && last_position(info.boot_order, info.entries[j].id) is Some {
                    Some(last_position(info.boot_order, info.entries[j].id)->0 as u32)
                } else {
                    None
                }
                &&& info.entries[j].next == (is_first_with_id(info.entries, j)
                    && info.boot_next == Some(info.entries[j].id))
            },
{
    crate::parser::bcdedit_entries_well_formed(text);
    if let Ok(es) = bcdedit_entries(text) {
        let order = bcdedit_boot_state(text).0;
        let next = bcdedit_boot_state(text).1;
        let w = with_orders(es, order);
        lemma_with_orders(es, order);
        let fin = with_next(w, next);
        assert forall|j: int| 0 <= j < es.len() implies (#[trigger] es[j]).id == w[j].id by {
            assert(w[j] == (EntryModel { order: placed_order(es, order, j), ..es[j] }));
        }
        match next {
            Some(id) => {
                lemma_entry_index_from(w, id, 0);
            },
            None => {},
        }
        assert(fin.len() == es.len());
        assert forall|j: int| 0 <= j < fin.len() implies (#[trigger] fin[j]).id == es[j].id by {
            assert(w[j] == (EntryModel { order: placed_order(es, order, j), ..es[j] }));
        }
        assert forall|j: int|
            0 <= j < fin.len() implies entry_index_from(fin, fin[j].id, 0) == entry_index_from(
            es,
            es[j].id,
            0,
        ) by {
            lemma_entry_index_same_ids(es, fin, es[j].id, 0);
        }
        assert forall|j: int| 0 <= j < fin.len() implies {
            &&& (#[trigger] fin[j]).order == if is_first_with_id(fin, j) && last_position(
                order,
                fin[j].id,
            ) is Some {
                Some(last_position(order, fin[j].id)->0 as u32)
            } else {
                None
            }
            &&& fin[j].next == (is_first_with_id(fin, j) && next == Some(fin[j].id))
        } by {
            assert(w[j] == (EntryModel { order: placed_order(es, order, j), ..es[j] }));
            lemma_entry_index_same_ids(es, w, es[j].id, 0);
            lemma_entry_index_from(es, es[j].id, 0);
        }
        assert forall|j: int| 0 <= j < es.len() implies #[trigger] fin[j] == (EntryModel {
            order: fin[j].order,
            next: fin[j].next,
            ..es[j]
        }) by {
            assert(w[j] == (EntryModel { order: placed_order(es, order, j), ..es[j] }));
        }
    }
}

} // verus!
