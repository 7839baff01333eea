//! Parsing of the text that `bcdedit` (Windows) and `efibootmgr` (Linux)
//! print about the firmware boot entries.
use vstd::prelude::*;
use vstd::slice::slice_to_vec;

use crate::models::{BootEntry, BootEntryType, EntryModel};
use crate::text;
use crate::text::Strip;

verus! {

// ---------------------------------------------------------------------------
// Fields of a line
// ---------------------------------------------------------------------------

/// The comparable form of a field label: trimmed, without byte-order marks at
/// either end, in lowercase.
pub open spec fn normalized(v: Seq<char>) -> Seq<char> {
    text::to_lower(text::strip_both(text::trim(v), Strip::Bom))
}

fn normalize(v: &[char]) -> (r: Vec<char>)
    ensures
        r@ == normalized(v@),
{
    let t = text::trim_exec(v);
    let b = text::strip_both_exec(t, Strip::Bom);
    text::lower_text(b)
}

/// The label and the value of a line: split at the first colon, or else at
/// the first whitespace character of the trimmed line; both parts trimmed.
pub open spec fn field_parts(line: Seq<char>) -> Option<(Seq<char>, Seq<char>)> {
    match text::find_char(line, ':') {
        Some(k) => Some((text::trim(line.take(k)), text::trim(line.skip(k + 1)))),
        None => {
            let t = text::trim(line);
            match text::find_ws(t) {
                Some(j) => Some((t.take(j), text::trim(t.skip(j + 1)))),
                None => None,
            }
        },
    }
}

fn split_field<'a>(line: &'a [char]) -> (r: Option<(&'a [char], &'a [char])>)
    ensures
        match r {
            Some(p) => field_parts(line@) == Some((p.0@, p.1@)),
            None => field_parts(line@) is None,
        },
{
    proof {
        text::lemma_find_char_from(line@, ':', 0);
    }
    match text::find_char_exec(line, ':') {
        Some(k) => {
            let n = line.len();
            assert(k < n);
            let key = text::trim_exec(&line[0..k]);
            let value = text::trim_exec(&line[k + 1..n]);
            Some((key, value))
        },
        None => {
            let t = text::trim_exec(line);
            proof {
                text::lemma_find_ws_from(t@, 0);
            }
            match text::find_ws_exec(t) {
                Some(j) => {
                    let n = t.len();
                    assert(j < n);
                    let value = text::trim_exec(&t[j + 1..n]);
                    Some((&t[0..j], value))
                },
                None => None,
            }
        },
    }
}

/// Whether a normalized label ends with one of the given labels.
pub open spec fn has_label(key: Seq<char>, labels: Seq<Seq<char>>) -> bool {
    exists|i: int| 0 <= i < labels.len() && text::ends_with(key, #[trigger] labels[i])
}

/// The value of a line whose label is one of `labels`, where it is not empty.
pub open spec fn field_of(line: Seq<char>, labels: Seq<Seq<char>>) -> Option<Seq<char>> {
    match field_parts(line) {
        Some((key, value)) => if value.len() > 0 && has_label(normalized(key), labels) {
            Some(value)
        } else {
            None
        },
        None => None,
    }
}

fn has_label_exec(key: &[char], labels: &Vec<Vec<char>>) -> (r: bool)
    ensures
        r == has_label(key@, text::seqs_of(labels@)),
{
    let ghost ls = text::seqs_of(labels@);
    let mut i: usize = 0;
    while i < labels.len()
        invariant
            i <= labels@.len(),
            ls == text::seqs_of(labels@),
            forall|j: int| 0 <= j < i ==> !text::ends_with(key@, #[trigger] ls[j]),
        decreases labels@.len() - i,
    {
        if text::ends_with_exec(key, labels[i].as_slice()) {
            assert(text::ends_with(key@, ls[i as int]));
            return true;
        }
        i = i + 1;
    }
    false
}

fn field_value(line: &[char], labels: &Vec<Vec<char>>) -> (r: Option<Vec<char>>)
    ensures
        text::opt_chars(r) == field_of(line@, text::seqs_of(labels@)),
{
    match split_field(line) {
        Some((key, value)) => {
            if value.len() == 0 {
                return None;
            }
            let key_norm = normalize(key);
            if has_label_exec(key_norm.as_slice(), labels) {
                Some(slice_to_vec(value))
            } else {
                None
            }
        },
        None => None,
    }
}

// ---------------------------------------------------------------------------
// Identifiers
// ---------------------------------------------------------------------------

/// Whether the character at position `i` of a GUID's 36 characters fits:
/// hyphens at positions 8, 13, 18 and 23, hexadecimal digits elsewhere.
pub open spec fn guid_char_ok(i: int, c: char) -> bool {
    if i == 8 || i == 13 || i == 18 || i == 23 {
        c == '-'
    } else {
        text::is_hex(c)
    }
}

/// A GUID in braces, such as `{12345678-1234-1234-1234-123456789abc}`.
pub open spec fn is_braced_guid(s: Seq<char>) -> bool {
    &&& s.len() == 38
    &&& s[0] == '{'
    &&& s[37] == '}'
    &&& forall|i: int| 0 <= i < 36 ==> guid_char_ok(i, #[trigger] s[i + 1])
}

/// An identifier of a Windows boot manager object: `{bootmgr}`,
/// `{fwbootmgr}`, or a GUID in braces.
pub open spec fn is_windows_id(s: Seq<char>) -> bool {
    s == "{bootmgr}"@ || s == "{fwbootmgr}"@ || is_braced_guid(s)
}

fn braced_guid_exec(s: &[char]) -> (r: bool)
    ensures
        r == is_braced_guid(s@),
{
    if s.len() != 38 || s[0] != '{' || s[37] != '}' {
        return false;
    }
    let mut i: usize = 0;
    while i < 36
        invariant
            i <= 36,
            s@.len() == 38,
            forall|j: int| 0 <= j < i ==> guid_char_ok(j, #[trigger] s@[j + 1]),
        decreases 36 - i,
    {
        let c = s[i + 1];
        let ok = if i == 8 || i == 13 || i == 18 || i == 23 {
            c == '-'
        } else {
            text::is_hex_exec(c)
        };
        if !ok {
            assert(!guid_char_ok(i as int, s@[i + 1]));
            return false;
        }
        i = i + 1;
    }
    true
}

fn windows_id_chars(s: &[char]) -> (r: bool)
    ensures
        r == is_windows_id(s@),
{
    let bootmgr = text::chars_of("{bootmgr}");
    let fwbootmgr = text::chars_of("{fwbootmgr}");
    text::seq_eq_exec(s, bootmgr.as_slice()) || text::seq_eq_exec(s, fwbootmgr.as_slice())
        || braced_guid_exec(s)
}

/// Whether `id` names a Windows boot manager object: `{bootmgr}`,
/// `{fwbootmgr}`, or a GUID in braces.
pub fn valid_windows_id(id: &str) -> (r: bool)
    ensures
        r == is_windows_id(id@),
{
    let c = text::chars_of(id);
    windows_id_chars(c.as_slice())
}

/// An EFI boot entry number: four hexadecimal digits.
pub open spec fn is_linux_id(s: Seq<char>) -> bool {
    s.len() == 4 && text::all_hex(s)
}

fn linux_id_chars(s: &[char]) -> (r: bool)
    ensures
        r == is_linux_id(s@),
{
    s.len() == 4 && text::all_hex_exec(s)
}

/// Whether `id` is an EFI boot entry number: four hexadecimal digits.
pub fn valid_linux_id(id: &str) -> (r: bool)
    ensures
        r == is_linux_id(id@),
{
    let c = text::chars_of(id);
    linux_id_chars(c.as_slice())
}

/// The first brace-delimited piece of `v`, where it is a Windows identifier.
pub open spec fn braced_id(v: Seq<char>) -> Option<Seq<char>> {
    match text::find_char(v, '{') {
        None => None,
        Some(s) => match text::find_char(v.skip(s), '}') {
            None => None,
            Some(e) => if is_windows_id(v.subrange(s, s + e + 1)) {
                Some(v.subrange(s, s + e + 1))
            } else {
                None
            },
        },
    }
}

fn extract_id(v: &[char]) -> (r: Option<Vec<char>>)
    ensures
        text::opt_chars(r) == braced_id(v@),
        r matches Some(id) ==> is_windows_id(id@),
{
    proof {
        text::lemma_find_char_from(v@, '{', 0);
    }
    match text::find_char_exec(v, '{') {
        None => None,
        Some(s) => {
            let tail = &v[s..v.len()];
            assert(tail@ == v@.skip(s as int));
            proof {
                text::lemma_find_char_from(tail@, '}', 0);
            }
            match text::find_char_exec(tail, '}') {
                None => None,
                Some(e) => {
                    let id = &v[s..s + e + 1];
                    if windows_id_chars(id) {
                        Some(slice_to_vec(id))
                    } else {
                        None
                    }
                },
            }
        },
    }
}

/// The EFI file path in `v`: the whitespace-free run that starts at the first
/// `\efi\` (in any letter case), without surrounding quotes and commas.
pub open spec fn efi_path_of(v: Seq<char>) -> Option<Seq<char>> {
    match text::find_sub(text::lower_ascii(v), "\\efi\\"@) {
        None => None,
        Some(s) => {
            let p = text::strip_both(text::first_token(v.skip(s)), Strip::QuoteOrComma);
            if p.len() > 0 {
                Some(p)
            } else {
                None
            }
        },
    }
}

fn extract_efi_path(v: &[char]) -> (r: Option<Vec<char>>)
    ensures
        text::opt_chars(r) == efi_path_of(v@),
{
    let lower = text::lower_ascii_exec(v);
    let marker = text::chars_of("\\efi\\");
    proof {
        text::lemma_find_sub_from(text::lower_ascii(v@), "\\efi\\"@, 0);
    }
    match text::find_sub_exec(lower.as_slice(), marker.as_slice()) {
        None => None,
        Some(s) => {
            let token = text::first_token_exec(&v[s..v.len()]);
            let p = text::strip_both_exec(token, Strip::QuoteOrComma);
            if p.len() > 0 {
                Some(slice_to_vec(p))
            } else {
                None
            }
        },
    }
}

/// A trimmed four-digit hexadecimal number, in uppercase.
pub open spec fn four_hex(v: Seq<char>) -> Option<Seq<char>> {
    let t = text::trim(v);
    if is_linux_id(t) {
        Some(text::upper_ascii(t))
    } else {
        None
    }
}

fn parse_four_hex(v: &[char]) -> (r: Option<Vec<char>>)
    ensures
        text::opt_chars(r) == four_hex(v@),
{
    let t = text::trim_exec(v);
    if linux_id_chars(t) {
        Some(text::upper_ascii_exec(t))
    } else {
        None
    }
}

// ---------------------------------------------------------------------------
// Kind of an entry
// ---------------------------------------------------------------------------

/// The kind of an entry, judged from its name and file path.
pub open spec fn kind_of(name: Seq<char>, path: Option<Seq<char>>, firmware: bool) -> BootEntryType {
    let hay = text::to_lower(
        name + " "@ + match path {
            Some(p) => p,
            None => Seq::empty(),
        },
    );
    if firmware {
        BootEntryType::Firmware
    } else if text::contains_sub(hay, "microsoft"@) || text::contains_sub(hay, "bootmgfw"@)
        || text::contains_sub(hay, "windows"@) {
        BootEntryType::Windows
    } else if text::contains_sub(hay, "ubuntu"@) || text::contains_sub(hay, "debian"@)
        || text::contains_sub(hay, "fedora"@) || text::contains_sub(hay, "arch"@)
        || text::contains_sub(hay, "linux"@) || text::contains_sub(hay, "grub"@)
        || text::contains_sub(hay, "shim"@) {
        BootEntryType::Linux
    } else if text::contains_sub(hay, "usb"@) || text::contains_sub(hay, "removable"@) {
        BootEntryType::Removable
    } else if text::contains_sub(hay, "network"@) || text::contains_sub(hay, "pxe"@) {
        BootEntryType::Network
    } else {
        BootEntryType::Unknown
    }
}

fn has(hay: &Vec<char>, word: &str) -> (r: bool)
    ensures
        r == text::contains_sub(hay@, word@),
{
    let w = text::chars_of(word);
    text::contains_exec(hay.as_slice(), w.as_slice())
}

fn entry_type_chars(name: &[char], path: Option<&[char]>, firmware: bool) -> (r: BootEntryType)
    ensures
        r == kind_of(
            name@,
            match path {
                Some(p) => Some(p@),
                None => None,
            },
            firmware,
        ),
{
    let mut joined = slice_to_vec(name);
    joined.push(' ');
    match path {
        Some(p) => {
            let mut i: usize = 0;
            let ghost base = joined@;
            while i < p.len()
                invariant
                    i <= p@.len(),
                    joined@ == base + p@.take(i as int),
                decreases p@.len() - i,
            {
                joined.push(p[i]);
                assert(p@.take(i + 1) == p@.take(i as int).push(p@[i as int]));
                i = i + 1;
            }
            assert(p@.take(i as int) == p@);
        },
        None => {},
    }
    assert(joined@ == name@ + " "@ + match path {
        Some(p) => p@,
        None => Seq::<char>::empty(),
    }) by {
        reveal_strlit(" ");
    }
    let hay = text::lower_text(joined.as_slice());
    if firmware {
        BootEntryType::Firmware
    } else if has(&hay, "microsoft") || has(&hay, "bootmgfw") || has(&hay, "windows") {
        BootEntryType::Windows
    } else if has(&hay, "ubuntu") || has(&hay, "debian") || has(&hay, "fedora") || has(
        &hay,
        "arch",
    ) || has(&hay, "linux") || has(&hay, "grub") || has(&hay, "shim") {
        BootEntryType::Linux
    } else if has(&hay, "usb") || has(&hay, "removable") {
        BootEntryType::Removable
    } else if has(&hay, "network") || has(&hay, "pxe") {
        BootEntryType::Network
    } else {
        BootEntryType::Unknown
    }
}

/// The kind of an entry with the given name and file path; every entry of a
/// firmware section is a firmware entry.
pub fn entry_type(name: &str, path: Option<&str>, firmware: bool) -> (r: BootEntryType)
    ensures
        r == kind_of(
            name@,
            match path {
                Some(p) => Some(p@),
                None => None,
            },
            firmware,
        ),
{
    let n = text::chars_of(name);
    match path {
        Some(p) => {
            let pc = text::chars_of(p);
            entry_type_chars(n.as_slice(), Some(pc.as_slice()), firmware)
        },
        None => entry_type_chars(n.as_slice(), None, firmware),
    }
}

} // verus!

verus! {

// ---------------------------------------------------------------------------
// Field labels, in English, Chinese, German, French and Japanese
// ---------------------------------------------------------------------------

pub open spec fn identifier_labels() -> Seq<Seq<char>> {
    seq!["identifier"@, "标识符"@, "kennung"@, "identifiant"@, "識別子"@]
}

pub open spec fn description_labels() -> Seq<Seq<char>> {
    seq!["description"@, "描述"@, "说明"@, "beschreibung"@, "説明"@]
}

pub open spec fn device_labels() -> Seq<Seq<char>> {
    seq!["device"@, "设备"@, "gerät"@, "デバイス"@]
}

pub open spec fn path_labels() -> Seq<Seq<char>> {
    seq!["path"@, "路径"@, "pfad"@, "パス"@]
}

pub open spec fn order_labels() -> Seq<Seq<char>> {
    seq!["displayorder"@, "display order"@, "显示顺序"@, "显示次序"@, "启动顺序"@]
}

pub open spec fn sequence_labels() -> Seq<Seq<char>> {
    seq!["bootsequence"@, "boot sequence"@, "启动序列"@, "下次启动"@]
}

/// The label lists as character vectors.
struct Labels {
    identifier: Vec<Vec<char>>,
    description: Vec<Vec<char>>,
    device: Vec<Vec<char>>,
    path: Vec<Vec<char>>,
    order: Vec<Vec<char>>,
    sequence: Vec<Vec<char>>,
}

impl Labels {
    spec fn wf(&self) -> bool {
        &&& text::seqs_of(self.identifier@) == identifier_labels()
        &&& text::seqs_of(self.description@) == description_labels()
        &&& text::seqs_of(self.device@) == device_labels()
        &&& text::seqs_of(self.path@) == path_labels()
        &&& text::seqs_of(self.order@) == order_labels()
        &&& text::seqs_of(self.sequence@) == sequence_labels()
    }

    fn new() -> (r: Labels)
        ensures
            r.wf(),
    {
        let identifier = vec![
            text::chars_of("identifier"),
            text::chars_of("标识符"),
            text::chars_of("kennung"),
            text::chars_of("identifiant"),
            text::chars_of("識別子"),
        ];
        let description = vec![
            text::chars_of("description"),
            text::chars_of("描述"),
            text::chars_of("说明"),
            text::chars_of("beschreibung"),
            text::chars_of("説明"),
        ];
        let device = vec![
            text::chars_of("device"),
            text::chars_of("设备"),
            text::chars_of("gerät"),
            text::chars_of("デバイス"),
        ];
        let path = vec![
            text::chars_of("path"),
            text::chars_of("路径"),
            text::chars_of("pfad"),
            text::chars_of("パス"),
        ];
        let order = vec![
            text::chars_of("displayorder"),
            text::chars_of("display order"),
            text::chars_of("显示顺序"),
            text::chars_of("显示次序"),
            text::chars_of("启动顺序"),
        ];
        let sequence = vec![
            text::chars_of("bootsequence"),
            text::chars_of("boot sequence"),
            text::chars_of("启动序列"),
            text::chars_of("下次启动"),
        ];
        assert(text::seqs_of(identifier@) =~= identifier_labels());
        assert(text::seqs_of(description@) =~= description_labels());
        assert(text::seqs_of(device@) =~= device_labels());
        assert(text::seqs_of(path@) =~= path_labels());
        assert(text::seqs_of(order@) =~= order_labels());
        assert(text::seqs_of(sequence@) =~= sequence_labels());
        Labels { identifier, description, device, path, order, sequence }
    }
}

// ---------------------------------------------------------------------------
// bcdedit /enum firmware
// ---------------------------------------------------------------------------

/// What has been read of `bcdedit` output so far: the finished entries, the
/// title of the current section, and the fields of the entry being read.
pub struct BcdState {
    pub entries: Seq<EntryModel>,
    pub title: Seq<char>,
    pub identifier: Option<Seq<char>>,
    pub description: Option<Seq<char>>,
    pub device: Option<Seq<char>>,
    pub path: Option<Seq<char>>,
    pub firmware: bool,
}

pub open spec fn bcd_start() -> BcdState {
    BcdState {
        entries: Seq::empty(),
        title: Seq::empty(),
        identifier: None,
        description: None,
        device: None,
        path: None,
        firmware: false,
    }
}

/// The entry that the fields read so far make, for identifier `id`: named by
/// its description, else by the section title, else by the identifier;
/// suspect when it has no path or its device is unknown.
pub open spec fn bcd_entry(st: BcdState, id: Seq<char>) -> EntryModel {
    let display = match st.description {
        Some(d) => d,
        None => if text::trim(st.title).len() > 0 {
            text::trim(st.title)
        } else {
            id
        },
    };
    let unknown_device = match st.device {
        Some(v) => text::contains_sub(normalized(v), "unknown"@),
        None => false,
    };
    EntryModel {
        id: id,
        name: display,
        description: Some(display),
        path: st.path,
        device: st.device,
        active: true,
        current: false,
        next: false,
        order: None,
        entry_type: kind_of(st.title, st.path, st.firmware),
        suspected_invalid: unknown_device || st.path is None,
    }
}

/// Ends the entry being read, if it has an identifier.
pub open spec fn bcd_flush(st: BcdState) -> BcdState {
    match st.identifier {
        None => st,
        Some(id) => BcdState {
            entries: st.entries.push(bcd_entry(st, id)),
            title: st.title,
            identifier: None,
            description: None,
            device: None,
            path: None,
            firmware: st.firmware,
        },
    }
}

/// A labelled field on a line, and whether there was one.
pub open spec fn bcd_fields(st: BcdState, line: Seq<char>) -> (BcdState, bool) {
    if let Some(v) = field_of(line, identifier_labels()) {
        (BcdState { identifier: braced_id(v), ..st }, true)
    } else if let Some(v) = field_of(line, description_labels()) {
        (BcdState { description: Some(v), ..st }, true)
    } else if let Some(v) = field_of(line, device_labels()) {
        (BcdState { device: Some(v), ..st }, true)
    } else if let Some(v) = field_of(line, path_labels()) {
        (BcdState { path: Some(v), ..st }, true)
    } else {
        (st, false)
    }
}

/// An identifier or an EFI path found on a line whose label could not be
/// read, where none has been read yet.
pub open spec fn bcd_recover(st: BcdState, t: Seq<char>, recognized: bool) -> (BcdState, bool) {
    let (s2, r2) = if st.identifier is None && braced_id(t) is Some {
        (BcdState { identifier: braced_id(t), ..st }, true)
    } else {
        (st, recognized)
    };
    if s2.path is None && efi_path_of(t) is Some {
        (BcdState { path: efi_path_of(t), ..s2 }, true)
    } else {
        (s2, r2)
    }
}

pub open spec fn starts_indented(line: Seq<char>) -> bool {
    line.len() > 0 && (line[0] == ' ' || line[0] == '\t')
}

/// A section title: not indented, without a colon, not an identifier.
pub open spec fn is_title_line(line: Seq<char>, t: Seq<char>) -> bool {
    !starts_indented(line) && text::find_char(t, ':') is None && t[0] != '{'
}

/// Reads one line of `bcdedit` output.
#[verifier::opaque]
pub open spec fn bcd_step(st: BcdState, line: Seq<char>) -> BcdState {
    let t = text::trim(line);
    if t.len() == 0 || text::all_are(t, '-') {
        st
    } else {
        let f = bcd_fields(st, line);
        let r = bcd_recover(f.0, t, f.1);
        if r.1 {
            r.0
        } else if is_title_line(line, t) {
            let fl = bcd_flush(r.0);
            BcdState {
                title: t,
                firmware: text::contains_sub(normalized(t), "firmware"@),
                ..fl
            }
        } else {
            r.0
        }
    }
}

/// The state after reading the given lines in order.
pub open spec fn bcd_scan(ls: Seq<Seq<char>>) -> BcdState {
    ls.fold_left(bcd_start(), |st: BcdState, l: Seq<char>| bcd_step(st, l))
}

/// What `parse_bcdedit` returns for a text.
pub open spec fn bcdedit_entries(input: Seq<char>) -> Result<Seq<EntryModel>, crate::error::ErrorModel> {
    let fin = bcd_flush(bcd_scan(text::lines(input)));
    if text::trim(input).len() == 0 {
        Err(crate::error::ErrorModel::ParseError("bcdedit 输出为空"@))
    } else if fin.entries.len() == 0 {
        Err(crate::error::ErrorModel::ParseError("未找到有效的固件启动项"@))
    } else {
        Ok(fin.entries)
    }
}

struct BcdScan {
    entries: Vec<BootEntry>,
    title: Vec<char>,
    identifier: Option<Vec<char>>,
    description: Option<Vec<char>>,
    device: Option<Vec<char>>,
    path: Option<Vec<char>>,
    firmware: bool,
}

impl View for BcdScan {
    type V = BcdState;

    closed spec fn view(&self) -> BcdState {
        BcdState {
            entries: crate::models::entry_models(self.entries@),
            title: self.title@,
            identifier: text::opt_chars(self.identifier),
            description: text::opt_chars(self.description),
            device: text::opt_chars(self.device),
            path: text::opt_chars(self.path),
            firmware: self.firmware,
        }
    }
}

fn opt_string(o: &Option<Vec<char>>) -> (r: Option<String>)
    ensures
        crate::models::opt_text(r) == text::opt_chars(*o),
{
    match o {
        Some(v) => Some(text::string_of(v.as_slice())),
        None => None,
    }
}

impl BcdScan {
    fn flush(&mut self)
        ensures
            final(self)@ == bcd_flush(old(self)@),
    {
        let id = match &self.identifier {
            None => {
                return ;
            },
            Some(id) => slice_to_vec(id.as_slice()),
        };
        let display: Vec<char> = match &self.description {
            Some(d) => slice_to_vec(d.as_slice()),
            None => {
                let t = text::trim_exec(self.title.as_slice());
                if t.len() > 0 {
                    slice_to_vec(t)
                } else {
                    slice_to_vec(id.as_slice())
                }
            },
        };
        let unknown_device = match &self.device {
            Some(v) => {
                let n = normalize(v.as_slice());
                has(&n, "unknown")
            },
            None => false,
        };
        let kind = entry_type_chars(
            self.title.as_slice(),
            match &self.path {
                Some(p) => Some(p.as_slice()),
                None => None,
            },
            self.firmware,
        );
        let entry = BootEntry {
            id: text::string_of(id.as_slice()),
            name: text::string_of(display.as_slice()),
            description: Some(text::string_of(display.as_slice())),
            path: opt_string(&self.path),
            device: opt_string(&self.device),
            active: true,
            current: false,
            next: false,
            order: None,
            entry_type: kind,
            suspected_invalid: unknown_device || self.path.is_none(),
        };
        let ghost before = self.entries@;
        self.entries.push(entry);
        assert(crate::models::entry_models(self.entries@) =~= crate::models::entry_models(
            before,
        ).push(entry@));
        self.identifier = None;
        self.description = None;
        self.device = None;
        self.path = None;
    }

    fn step(&mut self, line: &[char], labels: &Labels)
        requires
            labels.wf(),
        ensures
            final(self)@ == bcd_step(old(self)@, line@),
    {
        reveal(bcd_step);
        let t = text::trim_exec(line);
        if t.len() == 0 || text::all_are_exec(t, '-') {
            return ;
        }
        let mut recognized = false;
        if let Some(v) = field_value(line, &labels.identifier) {
            self.identifier = extract_id(v.as_slice());
            recognized = true;
        } else if let Some(v) = field_value(line, &labels.description) {
            self.description = Some(v);
            recognized = true;
        } else if let Some(v) = field_value(line, &labels.device) {
            self.device = Some(v);
            recognized = true;
        } else if let Some(v) = field_value(line, &labels.path) {
            self.path = Some(v);
            recognized = true;
        }
        assert(self@ == bcd_fields(old(self)@, line@).0);
        assert(recognized == bcd_fields(old(self)@, line@).1);
        if self.identifier.is_none() {
            if let Some(v) = extract_id(t) {
                self.identifier = Some(v);
                recognized = true;
            }
        }
        if self.path.is_none() {
            if let Some(v) = extract_efi_path(t) {
                self.path = Some(v);
                recognized = true;
            }
        }
        assert(self@ == bcd_recover(bcd_fields(old(self)@, line@).0, t@, bcd_fields(
            old(self)@,
            line@,
        ).1).0);
        if recognized {
            return ;
        }
        let indented = line.len() > 0 && (line[0] == ' ' || line[0] == '\t');
        if !indented && text::find_char_exec(t, ':').is_none() && t[0] != '{' {
            self.flush();
            self.title = slice_to_vec(t);
            let n = normalize(t);
            self.firmware = has(&n, "firmware");
        }
    }
}

/// Unfolds `lines` once.
proof fn lemma_lines_step(s: Seq<char>)
    requires
        s.len() > 0,
    ensures
        text::lines(s) == seq![text::first_line(s).0] + text::lines(text::first_line(s).1),
{
}

/// Moving past one line keeps the lines read so far and the lines left
/// together equal to all the lines.
proof fn lemma_lines_advance(
    all: Seq<char>,
    pos: int,
    c: int,
    line: Seq<char>,
    done: Seq<Seq<char>>,
)
    requires
        0 <= pos < all.len(),
        0 < c,
        pos + c <= all.len(),
        done + text::lines(all.skip(pos)) == text::lines(all),
        line == text::first_line(all.skip(pos)).0,
        all.skip(pos).skip(c) == text::first_line(all.skip(pos)).1,
    ensures
        done.push(line) + text::lines(all.skip(pos + c)) == text::lines(all),
{
    lemma_lines_step(all.skip(pos));
    assert(all.skip(pos).skip(c) == all.skip(pos + c));
    assert(done.push(line) + text::lines(all.skip(pos + c)) == done + text::lines(all.skip(pos)));
}

/// Reads the entries of `bcdedit /enum firmware` output. Each entry starts at
/// its identifier line; an entry ends at the next section title or at the
/// end of the text.
pub fn parse_bcdedit(input: &str) -> (r: crate::error::BootResult<Vec<BootEntry>>)
    ensures
        match r {
            Ok(es) => bcdedit_entries(input@) == Ok::<Seq<EntryModel>, crate::error::ErrorModel>(
                crate::models::entry_models(es@),
            ),
            Err(e) => bcdedit_entries(input@) == Err::<Seq<EntryModel>, crate::error::ErrorModel>(e@),
        },
{
    let chars = text::chars_of(input);
    let labels = Labels::new();
    let mut scan = BcdScan {
        entries: Vec::new(),
        title: Vec::new(),
        identifier: None,
        description: None,
        device: None,
        path: None,
        firmware: false,
    };
    assert(scan@.entries =~= Seq::<EntryModel>::empty());
    assert(scan@.title =~= Seq::<char>::empty());
    let n = chars.len();
    let mut pos: usize = 0;
    let ghost mut done: Seq<Seq<char>> = Seq::empty();
    assert(chars@.skip(0) == chars@);
    while pos < n
        invariant
            n == chars@.len(),
            pos <= n,
            labels.wf(),
            done + text::lines(chars@.skip(pos as int)) == text::lines(chars@),
            scan@ == bcd_scan(done),
        decreases n - pos,
    {
        let rest = &chars[pos..n];
        let (a, b, c) = text::first_line_exec(rest);
        let line = &rest[a..b];
        scan.step(line, &labels);
        proof {
            assert(rest@ == chars@.skip(pos as int));
            lemma_lines_advance(chars@, pos as int, c as int, line@, done);
            assert(done.push(line@).drop_last() == done);
            done = done.push(line@);
        }
        pos = pos + c;
    }
    proof {
        assert(chars@.skip(pos as int) == Seq::<char>::empty());
        assert(done == text::lines(chars@));
    }
    scan.flush();
    if text::trim_exec(chars.as_slice()).len() == 0 {
        return Err(crate::error::BootError::ParseError(text::string_of(text::chars_of("bcdedit 输出为空").as_slice())));
    }
    if scan.entries.len() == 0 {
        return Err(crate::error::BootError::ParseError(text::string_of(text::chars_of("未找到有效的固件启动项").as_slice())));
    }
    Ok(scan.entries)
}

} // verus!

verus! {

// ---------------------------------------------------------------------------
// bcdedit: the firmware boot manager's display order and boot sequence
// ---------------------------------------------------------------------------

/// The list that indented identifier lines continue.
#[derive(Clone, Copy, PartialEq, Eq, Structural)]
pub enum ActiveList {
    DisplayOrder,
    BootSequence,
    Neither,
}

/// What has been read of the display order and boot sequence so far.
pub struct OrderState {
    pub order: Seq<Seq<char>>,
    pub next: Option<Seq<char>>,
    pub active: ActiveList,
}

pub open spec fn order_start() -> OrderState {
    OrderState { order: Seq::empty(), next: None, active: ActiveList::Neither }
}

/// Reads one line: a `displayorder` line starts the order list, a
/// `bootsequence` line sets the next entry, and an indented identifier
/// continues the list that the last such line started.
#[verifier::opaque]
pub open spec fn order_step(st: OrderState, line: Seq<char>) -> OrderState {
    let t = text::trim(line);
    if t.len() == 0 || text::all_are(t, '-') {
        st
    } else if let Some(v) = field_of(line, order_labels()) {
        OrderState {
            order: match braced_id(v) {
                Some(id) => st.order.push(id),
                None => st.order,
            },
            next: st.next,
            active: ActiveList::DisplayOrder,
        }
    } else if let Some(v) = field_of(line, sequence_labels()) {
        OrderState { order: st.order, next: braced_id(v), active: ActiveList::BootSequence }
    } else if starts_indented(line) {
        match braced_id(t) {
            Some(id) => match st.active {
                ActiveList::DisplayOrder => OrderState { order: st.order.push(id), ..st },
                ActiveList::BootSequence => OrderState { next: Some(id), ..st },
                ActiveList::Neither => st,
            },
            None => st,
        }
    } else {
        OrderState { active: ActiveList::Neither, ..st }
    }
}

pub open spec fn order_scan(ls: Seq<Seq<char>>) -> OrderState {
    ls.fold_left(order_start(), |st: OrderState, l: Seq<char>| order_step(st, l))
}

/// What `parse_bcdedit_boot_state` returns for a text: the display order and
/// the boot sequence entry.
pub open spec fn bcdedit_boot_state(input: Seq<char>) -> (Seq<Seq<char>>, Option<Seq<char>>) {
    let fin = order_scan(text::lines(input));
    (fin.order, fin.next)
}

struct OrderScan {
    order: Vec<String>,
    next: Option<String>,
    active: ActiveList,
}

impl View for OrderScan {
    type V = OrderState;

    closed spec fn view(&self) -> OrderState {
        OrderState {
            order: crate::models::texts(self.order@),
            next: crate::models::opt_text(self.next),
            active: self.active,
        }
    }
}

impl OrderScan {
    fn push_order(&mut self, id: &Vec<char>)
        ensures
            final(self)@ == (OrderState { order: old(self)@.order.push(id@), ..old(self)@ }),
    {
        let ghost before = self.order@;
        self.order.push(text::string_of(id.as_slice()));
        assert(crate::models::texts(self.order@) =~= crate::models::texts(before).push(id@));
    }

    fn step(&mut self, line: &[char], labels: &Labels)
        requires
            labels.wf(),
        ensures
            final(self)@ == order_step(old(self)@, line@),
    {
        reveal(order_step);
        let t = text::trim_exec(line);
        if t.len() == 0 || text::all_are_exec(t, '-') {
            return ;
        }
        if let Some(v) = field_value(line, &labels.order) {
            self.active = ActiveList::DisplayOrder;
            if let Some(id) = extract_id(v.as_slice()) {
                self.push_order(&id);
            }
            return ;
        }
        if let Some(v) = field_value(line, &labels.sequence) {
            self.active = ActiveList::BootSequence;
            self.next = opt_string(&extract_id(v.as_slice()));
            return ;
        }
        if line.len() > 0 && (line[0] == ' ' || line[0] == '\t') {
            if let Some(id) = extract_id(t) {
                match self.active {
                    ActiveList::DisplayOrder => self.push_order(&id),
                    ActiveList::BootSequence => self.next = Some(text::string_of(id.as_slice())),
                    ActiveList::Neither => {},
                }
            }
        } else {
            self.active = ActiveList::Neither;
        }
    }
}

/// Reads the firmware boot manager's `displayorder` list and its
/// `bootsequence` entry from `bcdedit /enum firmware` output.
pub fn parse_bcdedit_boot_state(input: &str) -> (r: (Vec<String>, Option<String>))
    ensures
        (crate::models::texts(r.0@), crate::models::opt_text(r.1)) == bcdedit_boot_state(input@),
{
    let chars = text::chars_of(input);
    let labels = Labels::new();
    let mut scan = OrderScan { order: Vec::new(), next: None, active: ActiveList::Neither };
    assert(scan@.order =~= Seq::<Seq<char>>::empty());
    let n = chars.len();
    let mut pos: usize = 0;
    let ghost mut done: Seq<Seq<char>> = Seq::empty();
    assert(chars@.skip(0) == chars@);
    while pos < n
        invariant
            n == chars@.len(),
            pos <= n,
            labels.wf(),
            done + text::lines(chars@.skip(pos as int)) == text::lines(chars@),
            scan@ == order_scan(done),
        decreases n - pos,
    {
        let rest = &chars[pos..n];
        let (a, b, c) = text::first_line_exec(rest);
        let line = &rest[a..b];
        scan.step(line, &labels);
        proof {
            assert(rest@ == chars@.skip(pos as int));
            lemma_lines_advance(chars@, pos as int, c as int, line@, done);
            assert(done.push(line@).drop_last() == done);
            done = done.push(line@);
        }
        pos = pos + c;
    }
    proof {
        assert(chars@.skip(pos as int) == Seq::<char>::empty());
        assert(done == text::lines(chars@));
    }
    (scan.order, scan.next)
}

} // verus!

verus! {

// ---------------------------------------------------------------------------
// efibootmgr -v
// ---------------------------------------------------------------------------

/// The entry numbers in a `BootOrder:` list, in order; pieces that are not
/// four hexadecimal digits are left out.
pub open spec fn order_ids(s: Seq<char>) -> Seq<Seq<char>> {
    hex_pieces(text::split_char(s, ','))
}

pub open spec fn hex_pieces(ps: Seq<Seq<char>>) -> Seq<Seq<char>> {
    ps.filter_map(|p: Seq<char>| four_hex(p))
}

/// The first index at or after `i` where `id` stands in `order`.
pub open spec fn position_from(order: Seq<Seq<char>>, id: Seq<char>, i: int) -> Option<int>
    decreases order.len() - i,
{
    if i < 0 || i >= order.len() {
        None
    } else if order[i] == id {
        Some(i)
    } else {
        position_from(order, id, i + 1)
    }
}

/// The place of `id` in the boot order, as a `u32`.
pub open spec fn order_place(order: Seq<Seq<char>>, id: Seq<char>) -> Option<u32> {
    match position_from(order, id, 0) {
        Some(k) => Some(k as u32),
        None => None,
    }
}

/// What has been read of `efibootmgr` output so far.
pub struct EfiState {
    pub current: Option<Seq<char>>,
    pub next: Option<Seq<char>>,
    pub order: Seq<Seq<char>>,
    pub entries: Seq<EntryModel>,
}

pub open spec fn efi_start() -> EfiState {
    EfiState { current: None, next: None, order: Seq::empty(), entries: Seq::empty() }
}

/// The name and the file path of an entry line's description: the path is
/// what stands between `File(` and the next `)`.
pub open spec fn efi_name_path(rest: Seq<char>) -> (Seq<char>, Option<Seq<char>>) {
    match text::find_sub(rest, "File("@) {
        Some(f) => {
            let name = text::trim(
                text::strip_end(text::trim(rest.take(f)), Strip::Slash),
            );
            let p = text::trim(text::before_char(rest.skip(f + "File("@.len()), ')'));
            (name, if p.len() > 0 { Some(p) } else { None })
        },
        None => (rest, None),
    }
}

/// The entry that a line `BootNNNN[*] description` makes, with the state's
/// current, next and order at that point.
pub open spec fn efi_entry(st: EfiState, t: Seq<char>, id: Seq<char>) -> EntryModel {
    let rest0 = text::strip_start(t.skip(8), Strip::Whitespace);
    let rest = text::trim(text::strip_start(rest0, Strip::Star));
    let name = efi_name_path(rest).0;
    let path = efi_name_path(rest).1;
    EntryModel {
        id: id,
        name: if name.len() == 0 {
            "未命名启动项"@
        } else {
            name
        },
        description: Some(name),
        path: path,
        device: None,
        active: rest0.len() > 0 && rest0[0] == '*',
        current: st.current == Some(id),
        next: st.next == Some(id),
        order: order_place(st.order, id),
        entry_type: kind_of(name, path, false),
        suspected_invalid: path is None || text::contains_sub(text::to_lower(rest), "unknown"@),
    }
}

/// Reads one line of `efibootmgr` output.
#[verifier::opaque]
pub open spec fn efi_step(st: EfiState, line: Seq<char>) -> EfiState {
    let t = text::trim(line);
    if text::starts_with(t, "BootCurrent:"@) {
        EfiState { current: four_hex(t.skip("BootCurrent:"@.len() as int)), ..st }
    } else if text::starts_with(t, "BootNext:"@) {
        EfiState { next: four_hex(t.skip("BootNext:"@.len() as int)), ..st }
    } else if text::starts_with(t, "BootOrder:"@) {
        EfiState { order: order_ids(t.skip("BootOrder:"@.len() as int)), ..st }
    } else if !text::starts_with(t, "Boot"@) || t.len() < 8 {
        st
    } else {
        match four_hex(t.subrange(4, 8)) {
            None => st,
            Some(id) => EfiState { entries: st.entries.push(efi_entry(st, t, id)), ..st },
        }
    }
}

pub open spec fn efi_scan(ls: Seq<Seq<char>>) -> EfiState {
    ls.fold_left(efi_start(), |st: EfiState, l: Seq<char>| efi_step(st, l))
}

/// What `parse_efibootmgr` returns for a text: the current entry, the next
/// entry, the boot order and the entries.
pub open spec fn efibootmgr_result(input: Seq<char>) -> Result<
    (Option<Seq<char>>, Option<Seq<char>>, Seq<Seq<char>>, Seq<EntryModel>),
    crate::error::ErrorModel,
> {
    let fin = efi_scan(text::lines(input));
    if text::trim(input).len() == 0 {
        Err(crate::error::ErrorModel::ParseError("efibootmgr 输出为空"@))
    } else if fin.entries.len() == 0 {
        Err(crate::error::ErrorModel::ParseError("未找到有效的 EFI 启动项"@))
    } else {
        Ok((fin.current, fin.next, fin.order, fin.entries))
    }
}

/// Whether the entry number of a trimmed line can be cut out at bytes 4 to 8:
/// the line is shorter than 8 bytes in UTF-8, or byte 8 starts a character.
pub open spec fn id_bytes_aligned(t: Seq<char>) -> bool {
    text::utf8_len(t) < 8 || exists|k: int| 0 <= k <= t.len() && text::utf8_len(t.take(k)) == 8
}

/// A line whose entry number can be cut out by bytes.
pub open spec fn efi_line_sliceable(line: Seq<char>) -> bool {
    let t = text::trim(line);
    ||| text::starts_with(t, "BootCurrent:"@)
    ||| text::starts_with(t, "BootNext:"@)
    ||| text::starts_with(t, "BootOrder:"@)
    ||| !text::starts_with(t, "Boot"@)
    ||| id_bytes_aligned(t)
}

/// Every line of the text is one whose entry number can be cut out by bytes.
pub open spec fn efibootmgr_sliceable(input: Seq<char>) -> bool {
    forall|i: int| 0 <= i < text::lines(input).len() ==> efi_line_sliceable(#[trigger] text::lines(input)[i])
}

fn hex_pieces_exec(s: &[char]) -> (r: Vec<Vec<char>>)
    ensures
        text::seqs_of(r@) == order_ids(s@),
{
    let n = s.len();
    let mut r: Vec<Vec<char>> = Vec::new();
    let mut pos: usize = 0;
    let ghost mut done: Seq<Seq<char>> = Seq::empty();
    assert(s@.skip(0) == s@);
    assert(text::seqs_of(r@) =~= hex_pieces(done));
    loop
        invariant
            n == s@.len(),
            pos <= n,
            done + text::split_char(s@.skip(pos as int), ',') == text::split_char(s@, ','),
            text::seqs_of(r@) == hex_pieces(done),
        decreases n - pos,
    {
        let rest = &s[pos..n];
        assert(rest@ == s@.skip(pos as int));
        proof {
            text::lemma_find_char_from(rest@, ',', 0);
        }
        let found = text::find_char_exec(rest, ',');
        let piece = match found {
            Some(i) => &rest[0..i],
            None => rest,
        };
        let ghost r0 = r@;
        match parse_four_hex(piece) {
            Some(x) => {
                r.push(x);
                assert(text::seqs_of(r@) =~= text::seqs_of(r0).push(x@));
            },
            None => {},
        }
        proof {
            let d2 = done.push(piece@);
            assert(d2.drop_last() == done);
            done = d2;
        }
        match found {
            Some(i) => {
                assert(rest@.skip(i + 1) == s@.skip(pos + i + 1));
                pos = pos + i + 1;
            },
            None => {
                assert(done == text::split_char(s@, ','));
                return r;
            },
        }
    }
}

fn position_exec(order: &Vec<Vec<char>>, id: &[char]) -> (r: Option<u32>)
    ensures
        r == order_place(text::seqs_of(order@), id@),
{
    let ghost os = text::seqs_of(order@);
    let mut i: usize = 0;
    while i < order.len()
        invariant
            i <= order@.len(),
            os == text::seqs_of(order@),
            position_from(os, id@, 0) == position_from(os, id@, i as int),
        decreases order@.len() - i,
    {
        if text::seq_eq_exec(order[i].as_slice(), id) {
            assert(os[i as int] == id@);
            return Some(i as u32);
        }
        i = i + 1;
    }
    None
}

fn opt_chars_eq(o: &Option<Vec<char>>, id: &[char]) -> (r: bool)
    ensures
        r == (text::opt_chars(*o) == Some(id@)),
{
    match o {
        Some(v) => text::seq_eq_exec(v.as_slice(), id),
        None => false,
    }
}

fn efi_name_path_exec(rest: &[char]) -> (r: (Vec<char>, Option<Vec<char>>))
    ensures
        (r.0@, text::opt_chars(r.1)) == efi_name_path(rest@),
{
    let file = text::chars_of("File(");
    proof {
        text::lemma_find_sub_from(rest@, "File("@, 0);
    }
    match text::find_sub_exec(rest, file.as_slice()) {
        Some(f) => {
            let head = text::trim_exec(&rest[0..f]);
            let name = text::trim_exec(text::strip_end_exec(head, Strip::Slash));
            let n = rest.len();
            assert(text::occurs_at(rest@, file@, f as int));
            let p = text::trim_exec(text::before_char_exec(&rest[f + file.len()..n], ')'));
            let path = if p.len() > 0 {
                Some(slice_to_vec(p))
            } else {
                None
            };
            (slice_to_vec(name), path)
        },
        None => (slice_to_vec(rest), None),
    }
}

struct EfiScan {
    current: Option<Vec<char>>,
    next: Option<Vec<char>>,
    order: Vec<Vec<char>>,
    entries: Vec<BootEntry>,
}

impl View for EfiScan {
    type V = EfiState;

    closed spec fn view(&self) -> EfiState {
        EfiState {
            current: text::opt_chars(self.current),
            next: text::opt_chars(self.next),
            order: text::seqs_of(self.order@),
            entries: crate::models::entry_models(self.entries@),
        }
    }
}

impl EfiScan {
    fn make_entry(&self, t: &[char], id: Vec<char>) -> (r: BootEntry)
        requires
            t@.len() >= 8,
        ensures
            r@ == efi_entry(self@, t@, id@),
    {
        let rest0 = text::strip_start_exec(&t[8..t.len()], Strip::Whitespace);
        let active = rest0.len() > 0 && rest0[0] == '*';
        let rest = text::trim_exec(text::strip_start_exec(rest0, Strip::Star));
        let (name, path) = efi_name_path_exec(rest);
        let kind = entry_type_chars(
            name.as_slice(),
            match &path {
                Some(p) => Some(p.as_slice()),
                None => None,
            },
            false,
        );
        let lower = text::lower_text(rest);
        let invalid = path.is_none() || has(&lower, "unknown");
        let shown = if name.len() == 0 {
            text::string_of(text::chars_of("未命名启动项").as_slice())
        } else {
            text::string_of(name.as_slice())
        };
        BootEntry {
            id: text::string_of(id.as_slice()),
            name: shown,
            description: Some(text::string_of(name.as_slice())),
            path: opt_string(&path),
            device: None,
            active: active,
            current: opt_chars_eq(&self.current, id.as_slice()),
            next: opt_chars_eq(&self.next, id.as_slice()),
            order: position_exec(&self.order, id.as_slice()),
            entry_type: kind,
            suspected_invalid: invalid,
        }
    }

    fn step(&mut self, line: &[char])
        ensures
            final(self)@ == efi_step(old(self)@, line@),
    {
        reveal(efi_step);
        let t = text::trim_exec(line);
        let n = t.len();
        let current_label = text::chars_of("BootCurrent:");
        if text::starts_with_exec(t, current_label.as_slice()) {
            self.current = parse_four_hex(&t[current_label.len()..n]);
            return ;
        }
        let next_label = text::chars_of("BootNext:");
        if text::starts_with_exec(t, next_label.as_slice()) {
            self.next = parse_four_hex(&t[next_label.len()..n]);
            return ;
        }
        let order_label = text::chars_of("BootOrder:");
        if text::starts_with_exec(t, order_label.as_slice()) {
            self.order = hex_pieces_exec(&t[order_label.len()..n]);
            return ;
        }
        let boot = text::chars_of("Boot");
        if !text::starts_with_exec(t, boot.as_slice()) || n < 8 {
            return ;
        }
        match parse_four_hex(&t[4..8]) {
            None => {},
            Some(id) => {
                let entry = self.make_entry(t, id);
                let ghost before = self.entries@;
                self.entries.push(entry);
                assert(crate::models::entry_models(self.entries@) =~= crate::models::entry_models(
                    before,
                ).push(entry@));
            },
        }
    }
}

proof fn lemma_efi_scan_push(done: Seq<Seq<char>>, l: Seq<char>)
    ensures
        efi_scan(done.push(l)) == efi_step(efi_scan(done), l),
{
    assert(done.push(l).drop_last() == done);
}

fn strings_of(v: &Vec<Vec<char>>) -> (r: Vec<String>)
    ensures
        crate::models::texts(r@) == text::seqs_of(v@),
{
    let mut r: Vec<String> = Vec::new();
    let mut i: usize = 0;
    while i < v.len()
        invariant
            i <= v@.len(),
            crate::models::texts(r@) == text::seqs_of(v@).take(i as int),
        decreases v@.len() - i,
    {
        let ghost r0 = r@;
        let s = text::string_of(v[i].as_slice());
        r.push(s);
        assert(r@ == r0.push(s));
        assert(text::seqs_of(v@).take(i + 1) == text::seqs_of(v@).take(i as int).push(v@[i as int]@));
        assert(crate::models::texts(r@) =~= crate::models::texts(r0).push(s@));
        assert(crate::models::texts(r@) =~= text::seqs_of(v@).take(i + 1));
        i = i + 1;
    }
    assert(text::seqs_of(v@).take(i as int) =~= text::seqs_of(v@));
    r
}

/// Reads `efibootmgr -v` output: the `BootCurrent`, `BootNext` and
/// `BootOrder` values and one entry for each `BootNNNN` line. An entry's
/// current, next and order marks reflect the values read before its line.
#[verifier::rlimit(40)]
pub fn parse_efibootmgr(input: &str) -> (r: crate::error::BootResult<
    (Option<String>, Option<String>, Vec<String>, Vec<BootEntry>),
>)
    requires
        efibootmgr_sliceable(input@),
    ensures
        match r {
            Ok((c, nx, o, es)) => efibootmgr_result(input@) == Ok::<
                (Option<Seq<char>>, Option<Seq<char>>, Seq<Seq<char>>, Seq<EntryModel>),
                crate::error::ErrorModel,
            >(
                (
                    crate::models::opt_text(c),
                    crate::models::opt_text(nx),
                    crate::models::texts(o@),
                    crate::models::entry_models(es@),
                ),
            ),
            Err(e) => efibootmgr_result(input@) == Err::<
                (Option<Seq<char>>, Option<Seq<char>>, Seq<Seq<char>>, Seq<EntryModel>),
                crate::error::ErrorModel,
            >(e@),
        },
{
    let chars = text::chars_of(input);
    let mut scan = EfiScan { current: None, next: None, order: Vec::new(), entries: Vec::new() };
    assert(scan@.order =~= Seq::<Seq<char>>::empty());
    assert(scan@.entries =~= Seq::<EntryModel>::empty());
    let n = chars.len();
    let mut pos: usize = 0;
    let ghost mut done: Seq<Seq<char>> = Seq::empty();
    assert(chars@.skip(0) == chars@);
    while pos < n
        invariant
            n == chars@.len(),
            pos <= n,
            done + text::lines(chars@.skip(pos as int)) == text::lines(chars@),
            scan@ == efi_scan(done),
        decreases n - pos,
    {
        let rest = &chars[pos..n];
        let (a, b, c) = text::first_line_exec(rest);
        let line = &rest[a..b];
        scan.step(line);
        proof {
            assert(rest@ == chars@.skip(pos as int));
            lemma_lines_advance(chars@, pos as int, c as int, line@, done);
            lemma_efi_scan_push(done, line@);
            done = done.push(line@);
        }
        pos = pos + c;
    }
    proof {
        assert(chars@.skip(pos as int) == Seq::<char>::empty());
        assert(done == text::lines(chars@));
    }
    if text::trim_exec(chars.as_slice()).len() == 0 {
        return Err(
            crate::error::BootError::ParseError(
                text::string_of(text::chars_of("efibootmgr 输出为空").as_slice()),
            ),
        );
    }
    if scan.entries.len() == 0 {
        return Err(
            crate::error::BootError::ParseError(
                text::string_of(text::chars_of("未找到有效的 EFI 启动项").as_slice()),
            ),
        );
    }
    let order = strings_of(&scan.order);
    Ok((opt_string(&scan.current), opt_string(&scan.next), order, scan.entries))
}

} // verus!

verus! {

fn id_bytes_aligned_exec(t: &[char]) -> (r: bool)
    ensures
        r == id_bytes_aligned(t@),
{
    let n = t.len();
    let mut acc: usize = 0;
    let mut k: usize = 0;
    assert(t@.take(0) =~= Seq::<char>::empty());
    while k < n && acc < 8
        invariant
            n == t@.len(),
            k <= n,
            acc <= 11,
            acc == text::utf8_len(t@.take(k as int)),
            forall|j: int| 0 <= j < k ==> text::utf8_len(#[trigger] t@.take(j)) < 8,
        decreases n - k,
    {
        let w = text::utf8_width_exec(t[k]);
        proof {
            assert(t@.take(k + 1).drop_last() == t@.take(k as int));
            assert forall|j: int| 0 <= j < k + 1 implies text::utf8_len(#[trigger] t@.take(j)) < 8 by {
                text::lemma_utf8_len_prefix(t@, j, k as int);
            }
        }
        acc = acc + w;
        k = k + 1;
    }
    assert(t@.take(n as int) == t@);
    if acc == 8 {
        return true;
    }
    if acc > 8 {
        proof {
            text::lemma_utf8_len_prefix(t@, k as int, n as int);
            assert forall|j: int| 0 <= j <= t@.len() implies text::utf8_len(t@.take(j)) != 8 by {
                if j >= k {
                    text::lemma_utf8_len_prefix(t@, k as int, j);
                }
            }
        }
        return false;
    }
    true
}

proof fn lemma_concat_first(a: Seq<Seq<char>>, b: Seq<Seq<char>>, c: Seq<Seq<char>>)
    requires
        a + b == c,
        b.len() > 0,
    ensures
        a.len() < c.len(),
        c[a.len() as int] == b[0],
{
    assert((a + b)[a.len() as int] == b[0]);
}

fn line_sliceable(line: &[char]) -> (r: bool)
    ensures
        r == efi_line_sliceable(line@),
{
    let t = text::trim_exec(line);
    let current_label = text::chars_of("BootCurrent:");
    let next_label = text::chars_of("BootNext:");
    let order_label = text::chars_of("BootOrder:");
    let boot = text::chars_of("Boot");
    text::starts_with_exec(t, current_label.as_slice()) || text::starts_with_exec(
        t,
        next_label.as_slice(),
    ) || text::starts_with_exec(t, order_label.as_slice()) || !text::starts_with_exec(
        t,
        boot.as_slice(),
    ) || id_bytes_aligned_exec(t)
}

/// Whether `parse_efibootmgr` accepts the text: whether every `BootNNNN`
/// line's entry number can be cut out at bytes 4 to 8 of the trimmed line.
#[verifier::rlimit(30)]
pub fn efibootmgr_output_sliceable(input: &str) -> (r: bool)
    ensures
        r == efibootmgr_sliceable(input@),
{
    let chars = text::chars_of(input);
    let n = chars.len();
    let mut pos: usize = 0;
    let ghost mut done: Seq<Seq<char>> = Seq::empty();
    assert(chars@.skip(0) == chars@);
    while pos < n
        invariant
            n == chars@.len(),
            pos <= n,
            done + text::lines(chars@.skip(pos as int)) == text::lines(chars@),
            chars@ == input@,
            forall|i: int| 0 <= i < done.len() ==> efi_line_sliceable(#[trigger] done[i]),
        decreases n - pos,
    {
        let rest = &chars[pos..n];
        let (a, b, c) = text::first_line_exec(rest);
        let line = &rest[a..b];
        proof {
            lemma_lines_step(rest@);
            assert(rest@ == chars@.skip(pos as int));
            assert(rest@.skip(c as int) == chars@.skip(pos + c));
        }
        if !line_sliceable(line) {
            proof {
                lemma_concat_first(done, text::lines(rest@), text::lines(input@));
                assert(!efi_line_sliceable(text::lines(input@)[done.len() as int]));
            }
            return false;
        }
        proof {
            let d2 = done.push(line@);
            assert(d2 + text::lines(chars@.skip(pos + c)) == done + text::lines(
                chars@.skip(pos as int),
            ));
            done = d2;
        }
        pos = pos + c;
    }
    proof {
        assert(chars@.skip(pos as int) == Seq::<char>::empty());
        assert(done == text::lines(chars@));
    }
    true
}

} // verus!

verus! {

// ---------------------------------------------------------------------------
// Laws of the parsers
// ---------------------------------------------------------------------------

/// What holds of every state that reading `bcdedit` output reaches: each
/// finished entry has a Windows identifier, is active, neither current nor
/// next, and unplaced; the identifier being read, if any, is a Windows one.
pub open spec fn bcd_state_ok(st: BcdState) -> bool {
    &&& forall|i: int|
        0 <= i < st.entries.len() ==> {
            &&& is_windows_id((#[trigger] st.entries[i]).id)
            &&& st.entries[i].active
            &&& !st.entries[i].current
            &&& !st.entries[i].next
            &&& st.entries[i].order is None
        }
    &&& st.identifier matches Some(id) ==> is_windows_id(id)
}

proof fn lemma_braced_id_valid(v: Seq<char>)
    ensures
        braced_id(v) matches Some(id) ==> is_windows_id(id),
{
}

proof fn lemma_bcd_flush_ok(st: BcdState)
    requires
        bcd_state_ok(st),
    ensures
        bcd_state_ok(bcd_flush(st)),
{
}

proof fn lemma_bcd_step_ok(st: BcdState, line: Seq<char>)
    requires
        bcd_state_ok(st),
    ensures
        bcd_state_ok(bcd_step(st, line)),
{
    reveal(bcd_step);
    let t = text::trim(line);
    if !(t.len() == 0 || text::all_are(t, '-')) {
        let f = bcd_fields(st, line);
        assert(bcd_state_ok(f.0));
        lemma_braced_id_valid(t);
        let r = bcd_recover(f.0, t, f.1);
        assert(bcd_state_ok(r.0));
        if !r.1 && is_title_line(line, t) {
            lemma_bcd_flush_ok(r.0);
        }
    }
}

proof fn lemma_bcd_scan_ok(ls: Seq<Seq<char>>)
    ensures
        bcd_state_ok(bcd_scan(ls)),
    decreases ls.len(),
{
    if ls.len() > 0 {
        lemma_bcd_scan_ok(ls.drop_last());
        lemma_bcd_step_ok(bcd_scan(ls.drop_last()), ls.last());
    }
}

/// Every entry that `parse_bcdedit` returns has a Windows identifier
/// (`{bootmgr}`, `{fwbootmgr}` or a GUID in braces), is active, is neither
/// the current nor the next entry, and has no place in the boot order; and a
/// successful result is never empty.
pub proof fn bcdedit_entries_well_formed(input: Seq<char>)
    ensures
        bcdedit_entries(input) matches Ok(es) ==> {
            &&& es.len() > 0
            &&& forall|i: int|
                0 <= i < es.len() ==> {
                    &&& is_windows_id((#[trigger] es[i]).id)
                    &&& es[i].active
                    &&& !es[i].current
                    &&& !es[i].next
                    &&& es[i].order is None
                }
        },
{
    lemma_bcd_scan_ok(text::lines(input));
    lemma_bcd_flush_ok(bcd_scan(text::lines(input)));
}

pub open spec fn order_state_ok(st: OrderState) -> bool {
    &&& forall|i: int| 0 <= i < st.order.len() ==> is_windows_id(#[trigger] st.order[i])
    &&& st.next matches Some(id) ==> is_windows_id(id)
}

proof fn lemma_order_scan_ok(ls: Seq<Seq<char>>)
    ensures
        order_state_ok(order_scan(ls)),
    decreases ls.len(),
{
    if ls.len() > 0 {
        lemma_order_scan_ok(ls.drop_last());
        reveal(order_step);
    }
}

/// Every identifier of the display order and the boot sequence that
/// `parse_bcdedit_boot_state` returns is a Windows identifier.
pub proof fn bcdedit_boot_state_ids_valid(input: Seq<char>)
    ensures
        forall|i: int|
            0 <= i < bcdedit_boot_state(input).0.len() ==> is_windows_id(
                #[trigger] bcdedit_boot_state(input).0[i],
            ),
        bcdedit_boot_state(input).1 matches Some(id) ==> is_windows_id(id),
{
    lemma_order_scan_ok(text::lines(input));
}

/// An EFI entry number as `efibootmgr` reports it: four hexadecimal digits,
/// with letters in uppercase.
pub open spec fn is_entry_number(s: Seq<char>) -> bool {
    is_linux_id(s) && text::upper_ascii(s) == s
}

proof fn lemma_upper_hex(c: char)
    requires
        text::is_hex(c),
    ensures
        text::is_hex(text::ascii_upper(c)),
        text::ascii_upper(text::ascii_upper(c)) == text::ascii_upper(c),
{
}

proof fn lemma_four_hex_number(v: Seq<char>)
    ensures
        four_hex(v) matches Some(x) ==> is_entry_number(x),
{
    let t = text::trim(v);
    if is_linux_id(t) {
        let x = text::upper_ascii(t);
        assert forall|i: int| 0 <= i < x.len() implies text::is_hex(#[trigger] x[i]) by {
            lemma_upper_hex(t[i]);
        }
        assert forall|i: int| 0 <= i < x.len() implies #[trigger] text::upper_ascii(x)[i] == x[i] by {
            lemma_upper_hex(t[i]);
        }
        assert(text::upper_ascii(x) =~= x);
    }
}

proof fn lemma_hex_pieces_numbers(ps: Seq<Seq<char>>)
    ensures
        forall|i: int| 0 <= i < hex_pieces(ps).len() ==> is_entry_number(#[trigger] hex_pieces(ps)[i]),
    decreases ps.len(),
{
    if ps.len() > 0 {
        lemma_hex_pieces_numbers(ps.drop_last());
        lemma_four_hex_number(ps.last());
        let rest = hex_pieces(ps.drop_last());
        match four_hex(ps.last()) {
            Some(x) => {
                assert(hex_pieces(ps) == rest + seq![x]);
                assert forall|i: int| 0 <= i < hex_pieces(ps).len() implies is_entry_number(
                    #[trigger] hex_pieces(ps)[i],
                ) by {
                    if i < rest.len() {
                        assert(hex_pieces(ps)[i] == rest[i]);
                    } else {
                        assert(hex_pieces(ps)[i] == x);
                    }
                }
            },
            None => {
                assert(hex_pieces(ps) == rest);
            },
        }
    }
}

pub open spec fn efi_state_ok(st: EfiState) -> bool {
    &&& st.current matches Some(id) ==> is_entry_number(id)
    &&& st.next matches Some(id) ==> is_entry_number(id)
    &&& forall|i: int| 0 <= i < st.order.len() ==> is_entry_number(#[trigger] st.order[i])
    &&& forall|i: int| 0 <= i < st.entries.len() ==> is_entry_number(#[trigger] st.entries[i].id)
}

proof fn lemma_efi_step_ok(st: EfiState, line: Seq<char>)
    requires
        efi_state_ok(st),
    ensures
        efi_state_ok(efi_step(st, line)),
{
    reveal(efi_step);
    let t = text::trim(line);
    lemma_four_hex_number(t.skip("BootCurrent:"@.len() as int));
    lemma_four_hex_number(t.skip("BootNext:"@.len() as int));
    lemma_hex_pieces_numbers(text::split_char(t.skip("BootOrder:"@.len() as int), ','));
    if t.len() >= 8 {
        lemma_four_hex_number(t.subrange(4, 8));
    }
}

proof fn lemma_efi_scan_ok(ls: Seq<Seq<char>>)
    ensures
        efi_state_ok(efi_scan(ls)),
    decreases ls.len(),
{
    if ls.len() > 0 {
        lemma_efi_scan_ok(ls.drop_last());
        lemma_efi_step_ok(efi_scan(ls.drop_last()), ls.last());
    }
}

/// Every entry number that `parse_efibootmgr` returns (the current and next
/// entries, each of the boot order, each entry's identifier) is four
/// hexadecimal digits in uppercase, and a successful result has an entry.
pub proof fn efibootmgr_result_well_formed(input: Seq<char>)
    ensures
        efibootmgr_result(input) matches Ok((current, next, order, es)) ==> {
            &&& es.len() > 0
            &&& current matches Some(id) ==> is_entry_number(id)
            &&& next matches Some(id) ==> is_entry_number(id)
            &&& forall|i: int| 0 <= i < order.len() ==> is_entry_number(#[trigger] order[i])
            &&& forall|i: int| 0 <= i < es.len() ==> is_entry_number(#[trigger] es[i].id)
        },
{
    lemma_efi_scan_ok(text::lines(input));
}

/// A line of `efibootmgr` output that describes an entry: trimmed, it starts
/// with `Boot` and its characters 4 to 8 are four hexadecimal digits.
pub open spec fn is_entry_line(line: Seq<char>) -> bool {
    let t = text::trim(line);
    text::starts_with(t, "Boot"@) && t.len() >= 8 && is_linux_id(t.subrange(4, 8))
}

/// A line that gives the current entry, the next entry or the boot order.
pub open spec fn is_mark_line(line: Seq<char>) -> bool {
    let t = text::trim(line);
    text::starts_with(t, "BootCurrent:"@) || text::starts_with(t, "BootNext:"@)
        || text::starts_with(t, "BootOrder:"@)
}

/// The entry lines among some lines, in their order.
pub open spec fn entry_lines(ls: Seq<Seq<char>>) -> Seq<Seq<char>> {
    ls.filter(|l: Seq<char>| is_entry_line(l))
}

/// The entry that an entry line describes, before any mark: not current,
/// not next, without a place in the boot order.
pub open spec fn line_entry(line: Seq<char>) -> EntryModel {
    let t = text::trim(line);
    efi_entry(efi_start(), t, text::upper_ascii(t.subrange(4, 8)))
}

/// An entry without its current and next marks and its place.
pub open spec fn unmarked(e: EntryModel) -> EntryModel {
    EntryModel { current: false, next: false, order: None, ..e }
}

/// No line that gives the current entry, the next entry or the boot order
/// comes after an entry line.
pub open spec fn marks_before_entries(ls: Seq<Seq<char>>) -> bool {
    forall|i: int, j: int|
        #![trigger ls[i], ls[j]]
        0 <= i < j < ls.len() && is_entry_line(ls[i]) ==> !is_mark_line(ls[j])
}

/// What one line does to the entries and to the marks.
proof fn lemma_efi_step_lines(st: EfiState, line: Seq<char>)
    ensures
        is_entry_line(line) ==> efi_step(st, line) == (EfiState {
            entries: st.entries.push(
                efi_entry(st, text::trim(line), text::upper_ascii(text::trim(line).subrange(4, 8))),
            ),
            ..st
        }),
        !is_entry_line(line) ==> efi_step(st, line).entries == st.entries,
        !is_mark_line(line) ==> efi_step(st, line).current == st.current && efi_step(st, line).next
            == st.next && efi_step(st, line).order == st.order,
{
    reveal(efi_step);
    reveal_strlit("BootCurrent:");
    reveal_strlit("BootNext:");
    reveal_strlit("BootOrder:");
    reveal_strlit("Boot");
    let t = text::trim(line);
    if t.len() >= 8 {
        let x = t.subrange(4, 8);
        if is_linux_id(x) {
            assert(x[0] == t[4]);
            assert(x[1] == t[5]);
            if text::starts_with(t, "BootCurrent:"@) {
                assert(t[5] == t.take(12)[5]);
            }
            if text::starts_with(t, "BootNext:"@) {
                assert(t[4] == t.take(9)[4]);
            }
            if text::starts_with(t, "BootOrder:"@) {
                assert(t[4] == t.take(10)[4]);
            }
            text::lemma_trim_fixed(x);
        } else {
            text::lemma_trim(x);
            if text::trim(x).len() == 4 {
                assert(text::trim(x) =~= x);
            }
        }
    }
}

/// The entries and the marks after reading some lines.
proof fn lemma_efi_scan_lines(ls: Seq<Seq<char>>)
    ensures
        efi_scan(ls).entries.len() == entry_lines(ls).len(),
        forall|i: int|
            0 <= i < efi_scan(ls).entries.len() ==> unmarked(#[trigger] efi_scan(ls).entries[i])
                == line_entry(entry_lines(ls)[i]),
        (efi_scan(ls).entries.len() > 0) == (exists|i: int|
            0 <= i < ls.len() && is_entry_line(#[trigger] ls[i])),
        marks_before_entries(ls) ==> forall|i: int|
            0 <= i < efi_scan(ls).entries.len() ==> {
                let e = #[trigger] efi_scan(ls).entries[i];
                &&& e.current == (efi_scan(ls).current == Some(e.id))
                &&& e.next == (efi_scan(ls).next == Some(e.id))
                &&& e.order == order_place(efi_scan(ls).order, e.id)
            },
    decreases ls.len(),
{
    reveal(Seq::filter);
    if ls.len() > 0 {
        let prev = ls.drop_last();
        let l = ls.last();
        lemma_efi_scan_lines(prev);
        let st = efi_scan(prev);
        lemma_efi_step_lines(st, l);
        let fin = efi_scan(ls);
        assert(fin == efi_step(st, l));
        assert(entry_lines(ls) == if is_entry_line(l) {
            entry_lines(prev).push(l)
        } else {
            entry_lines(prev)
        });
        if exists|i: int| 0 <= i < prev.len() && is_entry_line(#[trigger] prev[i]) {
            let i = choose|i: int| 0 <= i < prev.len() && is_entry_line(#[trigger] prev[i]);
            assert(ls[i] == prev[i]);
        }
        if exists|i: int| 0 <= i < ls.len() && is_entry_line(#[trigger] ls[i]) {
            let i = choose|i: int| 0 <= i < ls.len() && is_entry_line(#[trigger] ls[i]);
            if i < prev.len() {
                assert(prev[i] == ls[i]);
            }
        }
        if is_entry_line(l) {
            assert(is_entry_line(ls[ls.len() - 1]));
            let t = text::trim(l);
            let id = text::upper_ascii(t.subrange(4, 8));
            assert(unmarked(efi_entry(st, t, id)) == line_entry(l));
            assert forall|i: int| 0 <= i < fin.entries.len() implies unmarked(
                #[trigger] fin.entries[i],
            ) == line_entry(entry_lines(ls)[i]) by {
                if i < st.entries.len() {
                    assert(fin.entries[i] == st.entries[i]);
                }
            }
        }
        if marks_before_entries(ls) {
            assert(marks_before_entries(prev)) by {
                assert forall|i: int, j: int|
                    #![trigger prev[i], prev[j]]
                    0 <= i < j < prev.len() && is_entry_line(prev[i]) implies !is_mark_line(
                        prev[j],
                    ) by {
                    assert(ls[i] == prev[i] && ls[j] == prev[j]);
                }
            }
            if is_mark_line(l) {
                assert forall|i: int| 0 <= i < prev.len() implies !is_entry_line(
                    #[trigger] prev[i],
                ) by {
                    assert(ls[i] == prev[i] && ls[ls.len() - 1] == l);
                }
            }
        }
    }
}

/// `parse_efibootmgr` succeeds exactly when some line is an entry line.
/// Otherwise it says that the output is empty, where it holds nothing but
/// whitespace, and else that it found no entry. On success it returns one
/// entry for each entry line, in the order of the lines; apart from its
/// current and next marks and its place, each is the entry its line
/// describes, and none names a device.
pub proof fn efibootmgr_entries_follow_lines(input: Seq<char>)
    ensures
        efibootmgr_result(input) is Ok <==> exists|i: int|
            0 <= i < text::lines(input).len() && is_entry_line(#[trigger] text::lines(input)[i]),
        efibootmgr_result(input) matches Err(e) ==> e == crate::error::ErrorModel::ParseError(
            if text::trim(input).len() == 0 {
                "efibootmgr 输出为空"@
            } else {
                "未找到有效的 EFI 启动项"@
            },
        ),
        efibootmgr_result(input) matches Ok((current, next, order, es)) ==> {
            &&& es.len() == entry_lines(text::lines(input)).len()
            &&& forall|i: int|
                0 <= i < es.len() ==> unmarked(#[trigger] es[i]) == line_entry(
                    entry_lines(text::lines(input))[i],
                ) && es[i].device is None
        },
{
    let ls = text::lines(input);
    lemma_efi_scan_lines(ls);
    if exists|i: int| 0 <= i < ls.len() && is_entry_line(#[trigger] ls[i]) {
        let i = choose|i: int| 0 <= i < ls.len() && is_entry_line(#[trigger] ls[i]);
        let l = ls[i];
        if text::trim(input).len() == 0 {
            text::lemma_trim(input);
            text::lemma_lines_within(input);
            let (p, q) = choose|p: int, q: int|
                0 <= p <= q <= input.len() && #[trigger] input.subrange(p, q) == l;
            let cd = text::lemma_trim(l);
            reveal_strlit("Boot");
            assert(l[cd.0] == input[p + cd.0]);
            assert(false);
        }
    }
    let fin = efi_scan(ls);
    assert forall|i: int| 0 <= i < fin.entries.len() implies (#[trigger] fin.entries[i]).device
        is None by {
        assert(unmarked(fin.entries[i]).device == fin.entries[i].device);
    }
}

/// Where every line that gives the current entry, the next entry or the boot
/// order comes before the entry lines, each entry that `parse_efibootmgr`
/// returns is current exactly when it is the current entry returned, next
/// exactly when it is the next entry returned, and placed at its first
/// position in the boot order returned.
pub proof fn efibootmgr_marks_follow_values(input: Seq<char>)
    requires
        marks_before_entries(text::lines(input)),
    ensures
        efibootmgr_result(input) matches Ok((current, next, order, es)) ==> forall|i: int|
            0 <= i < es.len() ==> {
                &&& (#[trigger] es[i]).current == (current == Some(es[i].id))
                &&& es[i].next == (next == Some(es[i].id))
                &&& es[i].order == order_place(order, es[i].id)
            },
{
    lemma_efi_scan_lines(text::lines(input));
}

// ---------------------------------------------------------------------------
// Where the entries of `bcdedit` output come from
// ---------------------------------------------------------------------------

/// `x` stands in one of the lines.
pub open spec fn from_some_line(x: Seq<char>, ls: Seq<Seq<char>>) -> bool {
    exists|j: int| 0 <= j < ls.len() && text::text_within(x, #[trigger] ls[j])
}

/// A line with a labelled identifier, description, device or path.
pub open spec fn has_field_label(line: Seq<char>) -> bool {
    ||| field_of(line, identifier_labels()) is Some
    ||| field_of(line, description_labels()) is Some
    ||| field_of(line, device_labels()) is Some
    ||| field_of(line, path_labels()) is Some
}

/// A section title among some lines: empty (before the first title), or,
/// trimmed, a title line of them that has no labelled field.
pub open spec fn is_section_title(ls: Seq<Seq<char>>, t: Seq<char>) -> bool {
    t.len() == 0 || exists|j: int|
        0 <= j < ls.len() && text::trim(#[trigger] ls[j]) == t && is_title_line(ls[j], t)
            && !has_field_label(ls[j])
}

/// A section title that names firmware, in any letter case.
pub open spec fn names_firmware(t: Seq<char>) -> bool {
    text::contains_sub(normalized(t), "firmware"@)
}

/// What holds of an entry read from some lines of `bcdedit` output.
pub open spec fn bcd_entry_from(e: EntryModel, ls: Seq<Seq<char>>) -> bool {
    &&& from_some_line(e.id, ls)
    &&& e.name.len() > 0
    &&& e.description == Some(e.name)
    &&& e.suspected_invalid == (e.path is None || (e.device matches Some(d) && text::contains_sub(
        normalized(d),
        "unknown"@,
    )))
    &&& e.path matches Some(p) ==> p.len() > 0 && text::trim(p) == p
    &&& e.device matches Some(d) ==> text::trim(d) == d
    &&& exists|t: Seq<char>|
        #[trigger] is_section_title(ls, t) && e.entry_type == kind_of(t, e.path, names_firmware(t))
}

/// What holds of the state after reading some lines of `bcdedit` output.
pub open spec fn bcd_from_lines(st: BcdState, ls: Seq<Seq<char>>) -> bool {
    &&& forall|i: int| 0 <= i < st.entries.len() ==> bcd_entry_from(#[trigger] st.entries[i], ls)
    &&& st.description matches Some(d) ==> d.len() > 0
    &&& st.path matches Some(p) ==> p.len() > 0 && text::trim(p) == p
    &&& st.device matches Some(d) ==> text::trim(d) == d
    &&& st.identifier matches Some(id) ==> is_windows_id(id) && from_some_line(id, ls)
    &&& st.firmware == names_firmware(st.title)
    &&& is_section_title(ls, st.title)
}

/// A field's value is non-empty, trimmed, and stands in its line.
proof fn lemma_field_of(line: Seq<char>, labels: Seq<Seq<char>>)
    ensures
        field_of(line, labels) matches Some(v) ==> v.len() > 0 && text::trim(v) == v
            && text::text_within(v, line),
{
    text::lemma_find_char_from(line, ':', 0);
    match text::find_char(line, ':') {
        Some(k) => {
            let x = line.skip(k + 1);
            text::lemma_trim_trimmed(x);
            assert(x == line.subrange(k + 1, line.len() as int));
            text::lemma_within_subrange(line, k + 1, line.len() as int);
            text::lemma_within_trans(text::trim(x), x, line);
        },
        None => {
            let t = text::trim(line);
            text::lemma_trim_trimmed(line);
            text::lemma_find_ws_from(t, 0);
            match text::find_ws(t) {
                Some(j) => {
                    let x = t.skip(j + 1);
                    text::lemma_trim_trimmed(x);
                    assert(x == t.subrange(j + 1, t.len() as int));
                    text::lemma_within_subrange(t, j + 1, t.len() as int);
                    text::lemma_within_trans(text::trim(x), x, t);
                    text::lemma_within_trans(text::trim(x), t, line);
                },
                None => {},
            }
        },
    }
}

/// An identifier cut out of a text stands in it.
proof fn lemma_braced_id_within(v: Seq<char>)
    ensures
        braced_id(v) matches Some(id) ==> is_windows_id(id) && text::text_within(id, v),
{
    text::lemma_find_char_from(v, '{', 0);
    match text::find_char(v, '{') {
        Some(s) => {
            text::lemma_find_char_from(v.skip(s), '}', 0);
            match text::find_char(v.skip(s), '}') {
                Some(e) => {
                    text::lemma_within_subrange(v, s, s + e + 1);
                },
                None => {},
            }
        },
        None => {},
    }
}

/// An EFI path found in a text is non-empty and trimmed.
proof fn lemma_efi_path_trimmed(v: Seq<char>)
    ensures
        efi_path_of(v) matches Some(p) ==> p.len() > 0 && text::trim(p) == p,
{
    text::lemma_find_sub_from(text::lower_ascii(v), "\\efi\\"@, 0);
    match text::find_sub(text::lower_ascii(v), "\\efi\\"@) {
        Some(s) => {
            let x = v.skip(s);
            let t0 = text::strip_start(x, Strip::Whitespace);
            text::lemma_find_ws_from(t0, 0);
            let ft = text::first_token(x);
            assert forall|i: int| 0 <= i < ft.len() implies !text::is_ws(#[trigger] ft[i]) by {
                match text::find_ws(t0) {
                    Some(j) => {
                        assert(ft[i] == t0[i]);
                    },
                    None => {},
                }
            }
            let n = text::lemma_strip_start(ft, Strip::QuoteOrComma);
            let y = ft.skip(n);
            let m = text::lemma_strip_end(y, Strip::QuoteOrComma);
            let p = y.take(m);
            if m > 0 {
                assert(p[0] == ft[n]);
                assert(p.last() == ft[n + m - 1]);
            }
            text::lemma_trim_fixed(p);
        },
        None => {},
    }
}

/// Windows identifiers are not empty.
proof fn lemma_windows_id_nonempty(id: Seq<char>)
    requires
        is_windows_id(id),
    ensures
        id.len() > 0,
{
    reveal_strlit("{bootmgr}");
    reveal_strlit("{fwbootmgr}");
}

proof fn lemma_from_line_grow(x: Seq<char>, ls: Seq<Seq<char>>, l: Seq<char>)
    requires
        from_some_line(x, ls),
    ensures
        from_some_line(x, ls.push(l)),
{
    let j = choose|j: int| 0 <= j < ls.len() && text::text_within(x, #[trigger] ls[j]);
    assert(ls.push(l)[j] == ls[j]);
}

proof fn lemma_title_grow(ls: Seq<Seq<char>>, l: Seq<char>, t: Seq<char>)
    requires
        is_section_title(ls, t),
    ensures
        is_section_title(ls.push(l), t),
{
    if t.len() > 0 {
        let j = choose|j: int|
            0 <= j < ls.len() && text::trim(#[trigger] ls[j]) == t && is_title_line(ls[j], t)
                && !has_field_label(ls[j]);
        assert(ls.push(l)[j] == ls[j]);
    }
}

proof fn lemma_bcd_from_grow(st: BcdState, ls: Seq<Seq<char>>, l: Seq<char>)
    requires
        bcd_from_lines(st, ls),
    ensures
        bcd_from_lines(st, ls.push(l)),
{
    let ls2 = ls.push(l);
    assert forall|i: int| 0 <= i < st.entries.len() implies bcd_entry_from(
        #[trigger] st.entries[i],
        ls2,
    ) by {
        let e = st.entries[i];
        lemma_from_line_grow(e.id, ls, l);
        let t = choose|t: Seq<char>|
            #[trigger] is_section_title(ls, t) && e.entry_type == kind_of(t, e.path, names_firmware(t));
        lemma_title_grow(ls, l, t);
    }
    if let Some(id) = st.identifier {
        lemma_from_line_grow(id, ls, l);
    }
    lemma_title_grow(ls, l, st.title);
}

proof fn lemma_bcd_flush_from(st: BcdState, ls: Seq<Seq<char>>)
    requires
        bcd_from_lines(st, ls),
    ensures
        bcd_from_lines(bcd_flush(st), ls),
{
    if let Some(id) = st.identifier {
        lemma_windows_id_nonempty(id);
        let e = bcd_entry(st, id);
        assert(is_section_title(ls, st.title));
        assert(bcd_entry_from(e, ls));
        let fl = bcd_flush(st);
        assert forall|i: int| 0 <= i < fl.entries.len() implies bcd_entry_from(
            #[trigger] fl.entries[i],
            ls,
        ) by {
            if i < st.entries.len() {
                assert(fl.entries[i] == st.entries[i]);
            }
        }
    }
}

proof fn lemma_bcd_step_from(st: BcdState, prev: Seq<Seq<char>>, l: Seq<char>)
    requires
        bcd_from_lines(st, prev),
    ensures
        bcd_from_lines(bcd_step(st, l), prev.push(l)),
{
    reveal(bcd_step);
    let ls = prev.push(l);
    lemma_bcd_from_grow(st, prev, l);
    assert(ls[ls.len() - 1] == l);
    let t = text::trim(l);
    if !(t.len() == 0 || text::all_are(t, '-')) {
        lemma_field_of(l, identifier_labels());
        lemma_field_of(l, description_labels());
        lemma_field_of(l, device_labels());
        lemma_field_of(l, path_labels());
        if let Some(v) = field_of(l, identifier_labels()) {
            lemma_braced_id_within(v);
            if let Some(id) = braced_id(v) {
                text::lemma_within_trans(id, v, l);
            }
        }
        let f = bcd_fields(st, l);
        assert(bcd_from_lines(f.0, ls));
        text::lemma_trim_trimmed(l);
        lemma_braced_id_within(t);
        if let Some(id) = braced_id(t) {
            text::lemma_within_trans(id, t, l);
        }
        lemma_efi_path_trimmed(t);
        let r = bcd_recover(f.0, t, f.1);
        assert(bcd_from_lines(r.0, ls));
        if !r.1 && is_title_line(l, t) {
            lemma_bcd_flush_from(r.0, ls);
            assert(!f.1);
            assert(!has_field_label(l));
            assert(is_section_title(ls, t));
        }
    }
}

proof fn lemma_bcd_scan_from(ls: Seq<Seq<char>>)
    ensures
        bcd_from_lines(bcd_scan(ls), ls),
    decreases ls.len(),
{
    if ls.len() == 0 {
        reveal_strlit("firmware");
        assert(text::lower_simple(Seq::<char>::empty()) =~= Seq::<char>::empty());
        assert(normalized(Seq::<char>::empty()) =~= Seq::<char>::empty());
    } else {
        let prev = ls.drop_last();
        lemma_bcd_scan_from(prev);
        lemma_bcd_step_from(bcd_scan(prev), prev, ls.last());
        assert(prev.push(ls.last()) == ls);
    }
}

/// Every entry that `parse_bcdedit` returns has an identifier copied from the
/// input, and a non-empty name that is also its description. Where it has a
/// file path, the path is non-empty and has no whitespace at either end. It
/// is suspect exactly when it has no path or its device, in lowercase, speaks
/// of `unknown`; the device has no whitespace at either end, and where it
/// neither starts nor ends with U+FEFF its lowercase form is the one tested. Its kind is judged from its path and the title of a section
/// of the input (a line without a labelled field; or no title), and is
/// `Firmware` wherever that title names firmware in any letter case.
pub proof fn bcdedit_entries_from_input(input: Seq<char>)
    ensures
        bcdedit_entries(input) matches Ok(es) ==> forall|i: int|
            0 <= i < es.len() ==> {
                let e = #[trigger] es[i];
                &&& text::text_within(e.id, input)
                &&& e.name.len() > 0
                &&& e.description == Some(e.name)
                &&& e.suspected_invalid == (e.path is None || (e.device matches Some(d)
                    && text::contains_sub(normalized(d), "unknown"@)))
                &&& e.path matches Some(p) ==> p.len() > 0 && text::trim(p) == p
                &&& e.device matches Some(d) ==> text::trim(d) == d && (d.len() > 0 && d[0]
                    != '\u{feff}' && d.last() != '\u{feff}' ==> e.suspected_invalid == (e.path is None
                    || text::contains_sub(text::to_lower(d), "unknown"@)))
                &&& exists|t: Seq<char>|
                    #[trigger] is_section_title(text::lines(input), t) && e.entry_type == kind_of(
                        t,
                        e.path,
                        names_firmware(t),
                    )
            },
{
    let ls = text::lines(input);
    lemma_bcd_scan_from(ls);
    lemma_bcd_flush_from(bcd_scan(ls), ls);
    text::lemma_lines_within(input);
    let fin = bcd_flush(bcd_scan(ls));
    assert forall|i: int| 0 <= i < fin.entries.len() implies text::text_within(
        (#[trigger] fin.entries[i]).id,
        input,
    ) by {
        let e = fin.entries[i];
        assert(bcd_entry_from(e, ls));
        let j = choose|j: int| 0 <= j < ls.len() && text::text_within(e.id, #[trigger] ls[j]);
        text::lemma_within_trans(e.id, ls[j], input);
    }
    assert forall|i: int| 0 <= i < fin.entries.len() implies bcd_entry_from(
        #[trigger] fin.entries[i],
        ls,
    ) by {}
    assert forall|i: int|
        0 <= i < fin.entries.len() && (#[trigger] fin.entries[i]).device is Some && fin.entries[i].device->0.len()
            > 0 && fin.entries[i].device->0[0] != '\u{feff}' && fin.entries[i].device->0.last()
            != '\u{feff}' implies normalized(fin.entries[i].device->0) == text::to_lower(
        fin.entries[i].device->0,
    ) by {
        let d = fin.entries[i].device->0;
        assert(bcd_entry_from(fin.entries[i], ls));
        assert(text::strip_start(d, Strip::Bom) == d);
        assert(text::strip_end(d, Strip::Bom) == d);
    }
}

/// The identifiers of `order` stand in the lines at the indices `w`, one
/// line each, in the order of the lines.
pub open spec fn placed_in_lines(order: Seq<Seq<char>>, ls: Seq<Seq<char>>, w: Seq<int>) -> bool {
    &&& w.len() == order.len()
    &&& forall|i: int|
        0 <= i < w.len() ==> 0 <= #[trigger] w[i] < ls.len() && text::text_within(order[i], ls[w[i]])
    &&& forall|i: int, j: int| 0 <= i < j < w.len() ==> #[trigger] w[i] < #[trigger] w[j]
}

proof fn lemma_order_step_from(st: OrderState, prev: Seq<Seq<char>>, l: Seq<char>, w: Seq<int>) -> (w2:
    Seq<int>)
    requires
        placed_in_lines(st.order, prev, w),
        st.next matches Some(id) ==> from_some_line(id, prev),
    ensures
        placed_in_lines(order_step(st, l).order, prev.push(l), w2),
        order_step(st, l).next matches Some(id) ==> from_some_line(id, prev.push(l)),
{
    reveal(order_step);
    let ls = prev.push(l);
    let last = prev.len() as int;
    assert(ls[last] == l);
    assert forall|i: int| 0 <= i < w.len() implies ls[#[trigger] w[i]] == prev[w[i]] by {}
    if let Some(id) = st.next {
        lemma_from_line_grow(id, prev, l);
    }
    let t = text::trim(l);
    text::lemma_trim_trimmed(l);
    lemma_braced_id_within(t);
    if let Some(id) = braced_id(t) {
        text::lemma_within_trans(id, t, l);
    }
    lemma_field_of(l, order_labels());
    lemma_field_of(l, sequence_labels());
    if let Some(v) = field_of(l, order_labels()) {
        lemma_braced_id_within(v);
        if let Some(id) = braced_id(v) {
            text::lemma_within_trans(id, v, l);
        }
    }
    if let Some(v) = field_of(l, sequence_labels()) {
        lemma_braced_id_within(v);
        if let Some(id) = braced_id(v) {
            text::lemma_within_trans(id, v, l);
        }
    }
    let nx = order_step(st, l);
    if nx.order.len() > st.order.len() {
        let w2 = w.push(last);
        assert(nx.order == st.order.push(nx.order.last()));
        assert(text::text_within(nx.order.last(), l));
        assert forall|i: int| 0 <= i < w2.len() implies 0 <= #[trigger] w2[i] < ls.len()
            && text::text_within(nx.order[i], ls[w2[i]]) by {
            if i < w.len() {
                assert(w2[i] == w[i]);
                assert(nx.order[i] == st.order[i]);
            }
        }
        assert forall|i: int, j: int| 0 <= i < j < w2.len() implies #[trigger] w2[i]
            < #[trigger] w2[j] by {
            if j < w.len() {
                assert(w2[i] == w[i] && w2[j] == w[j]);
            } else {
                assert(w2[i] == w[i]);
            }
        }
        w2
    } else {
        assert(nx.order == st.order);
        w
    }
}

proof fn lemma_order_scan_from(ls: Seq<Seq<char>>) -> (w: Seq<int>)
    ensures
        placed_in_lines(order_scan(ls).order, ls, w),
        order_scan(ls).next matches Some(id) ==> from_some_line(id, ls),
    decreases ls.len(),
{
    if ls.len() == 0 {
        Seq::empty()
    } else {
        let prev = ls.drop_last();
        let w = lemma_order_scan_from(prev);
        assert(prev.push(ls.last()) == ls);
        lemma_order_step_from(order_scan(prev), prev, ls.last(), w)
    }
}

/// Every identifier that `parse_bcdedit_boot_state` returns is copied from
/// the input. The display order lists its identifiers in the order of the
/// lines of the input they come from, no two from the same line.
pub proof fn bcdedit_boot_state_from_input(input: Seq<char>)
    ensures
        exists|w: Seq<int>| placed_in_lines(bcdedit_boot_state(input).0, text::lines(input), w),
        forall|i: int|
            0 <= i < bcdedit_boot_state(input).0.len() ==> text::text_within(
                #[trigger] bcdedit_boot_state(input).0[i],
                input,
            ),
        bcdedit_boot_state(input).1 matches Some(id) ==> text::text_within(id, input),
{
    let ls = text::lines(input);
    let w = lemma_order_scan_from(ls);
    text::lemma_lines_within(input);
    let order = bcdedit_boot_state(input).0;
    assert forall|i: int| 0 <= i < order.len() implies text::text_within(
        #[trigger] order[i],
        input,
    ) by {
        assert(0 <= w[i] < ls.len());
        text::lemma_within_trans(order[i], ls[w[i]], input);
    }
    if let Some(id) = bcdedit_boot_state(input).1 {
        let j = choose|j: int| 0 <= j < ls.len() && text::text_within(id, #[trigger] ls[j]);
        text::lemma_within_trans(id, ls[j], input);
    }
}

// ---------------------------------------------------------------------------
// How the display order and the boot sequence are collected
// ---------------------------------------------------------------------------

/// A line that reading skips: blank, or a rule of dashes.
pub open spec fn is_blank_line(l: Seq<char>) -> bool {
    let t = text::trim(l);
    t.len() == 0 || text::all_are(t, '-')
}

/// An indented line that is neither a `displayorder` nor a `bootsequence`
/// field: it may continue the list that such a field started.
pub open spec fn is_continuation_line(l: Seq<char>) -> bool {
    &&& !is_blank_line(l)
    &&& field_of(l, order_labels()) is None
    &&& field_of(l, sequence_labels()) is None
    &&& starts_indented(l)
}

/// The list that an indented line continues after the lines `ls`: that of
/// the last `displayorder` or `bootsequence` field line, where only blank
/// and continuation lines stand after it; otherwise none.
pub open spec fn open_list(ls: Seq<Seq<char>>) -> ActiveList
    decreases ls.len(),
{
    if ls.len() == 0 {
        ActiveList::Neither
    } else {
        let l = ls.last();
        if is_blank_line(l) || is_continuation_line(l) {
            open_list(ls.drop_last())
        } else if field_of(l, order_labels()) is Some {
            ActiveList::DisplayOrder
        } else if field_of(l, sequence_labels()) is Some {
            ActiveList::BootSequence
        } else {
            ActiveList::Neither
        }
    }
}

/// The identifier that line `j` adds to the display order: that of a
/// `displayorder` field line, or that of a continuation line of the display
/// order.
pub open spec fn order_item(ls: Seq<Seq<char>>, j: int) -> Option<Seq<char>> {
    let l = ls[j];
    if is_blank_line(l) {
        None
    } else {
        match field_of(l, order_labels()) {
            Some(v) => braced_id(v),
            None => if is_continuation_line(l) && open_list(ls.take(j))
                == ActiveList::DisplayOrder {
                braced_id(text::trim(l))
            } else {
                None
            },
        }
    }
}

/// What line `j` sets the boot sequence to, if it sets it: a `bootsequence`
/// field line sets it to its identifier, or to none where it has no valid
/// one; a continuation line of the boot sequence with an identifier sets it
/// to that identifier.
pub open spec fn sequence_item(ls: Seq<Seq<char>>, j: int) -> Option<Option<Seq<char>>> {
    let l = ls[j];
    if is_blank_line(l) || field_of(l, order_labels()) is Some {
        None
    } else {
        match field_of(l, sequence_labels()) {
            Some(v) => Some(braced_id(v)),
            None => if is_continuation_line(l) && open_list(ls.take(j))
                == ActiveList::BootSequence && braced_id(text::trim(l)) is Some {
                Some(braced_id(text::trim(l)))
            } else {
                None
            },
        }
    }
}

/// The identifiers that the first `n` lines add to the display order, in
/// the order of the lines.
pub open spec fn order_items(ls: Seq<Seq<char>>, n: int) -> Seq<Seq<char>>
    decreases n,
{
    if n <= 0 {
        Seq::empty()
    } else {
        match order_item(ls, n - 1) {
            Some(id) => order_items(ls, n - 1).push(id),
            None => order_items(ls, n - 1),
        }
    }
}

/// The boot sequence after the first `n` lines: what the last of them that
/// sets it sets it to; none where none does.
pub open spec fn last_sequence(ls: Seq<Seq<char>>, n: int) -> Option<Seq<char>>
    decreases n,
{
    if n <= 0 {
        None
    } else {
        match sequence_item(ls, n - 1) {
            Some(x) => x,
            None => last_sequence(ls, n - 1),
        }
    }
}

proof fn lemma_order_items_grow(ls: Seq<Seq<char>>, l: Seq<char>, n: int)
    requires
        0 <= n <= ls.len(),
    ensures
        order_items(ls.push(l), n) == order_items(ls, n),
        last_sequence(ls.push(l), n) == last_sequence(ls, n),
    decreases n,
{
    if n > 0 {
        lemma_order_items_grow(ls, l, n - 1);
        let ls2 = ls.push(l);
        assert(ls2[n - 1] == ls[n - 1]);
        assert(ls2.take(n - 1) =~= ls.take(n - 1));
    }
}

proof fn lemma_order_scan_collects(ls: Seq<Seq<char>>)
    ensures
        order_scan(ls) == (OrderState {
            order: order_items(ls, ls.len() as int),
            next: last_sequence(ls, ls.len() as int),
            active: open_list(ls),
        }),
    decreases ls.len(),
{
    if ls.len() > 0 {
        let prev = ls.drop_last();
        let l = ls.last();
        let n = prev.len() as int;
        lemma_order_scan_collects(prev);
        assert(prev.push(l) == ls);
        lemma_order_items_grow(prev, l, n);
        assert(ls.take(n) =~= prev);
        assert(ls[n] == l);
        reveal(order_step);
    }
}

/// How `parse_bcdedit_boot_state` collects what it returns, line by line:
/// the display order is, in the order of the lines, the identifier of each
/// `displayorder` field line and of each indented identifier line that
/// continues it (only blank and indented lines between); the boot sequence
/// is what the last line that sets it sets it to: a `bootsequence` field
/// line (to none where it has no valid identifier) or an indented
/// identifier line that continues it.
pub proof fn bcdedit_boot_state_collects(input: Seq<char>)
    ensures
        bcdedit_boot_state(input) == (
            order_items(text::lines(input), text::lines(input).len() as int),
            last_sequence(text::lines(input), text::lines(input).len() as int),
        ),
{
    lemma_order_scan_collects(text::lines(input));
}

// ---------------------------------------------------------------------------
// The sections of `bcdedit` output
// ---------------------------------------------------------------------------

/// Whether reading line `l` in state `st` opens a new section: a title line
/// that is read neither as a labelled field nor for an identifier or an EFI
/// path.
pub open spec fn is_title_step(st: BcdState, l: Seq<char>) -> bool {
    let t = text::trim(l);
    let f = bcd_fields(st, l);
    &&& !(t.len() == 0 || text::all_are(t, '-'))
    &&& !bcd_recover(f.0, t, f.1).1
    &&& is_title_line(l, t)
}

/// Line `j` of `ls` opens a section.
pub open spec fn opens_section(ls: Seq<Seq<char>>, j: int) -> bool {
    is_title_step(bcd_scan(ls.take(j)), ls[j])
}

/// The title of the section that line `s` opens; empty for `s == -1`, the
/// part before the first section.
pub open spec fn section_title(ls: Seq<Seq<char>>, s: int) -> Seq<char> {
    if s < 0 {
        Seq::empty()
    } else {
        text::trim(ls[s])
    }
}

/// The description that a line gives: that of a description field, on a
/// line without an identifier field.
pub open spec fn description_of_line(l: Seq<char>) -> Option<Seq<char>> {
    if is_blank_line(l) || field_of(l, identifier_labels()) is Some {
        None
    } else {
        field_of(l, description_labels())
    }
}

/// The last description given on the lines strictly between `lo` and `hi`.
pub open spec fn last_description(ls: Seq<Seq<char>>, lo: int, hi: int) -> Option<Seq<char>>
    decreases hi - lo,
{
    if hi - 1 <= lo {
        None
    } else {
        match description_of_line(ls[hi - 1]) {
            Some(d) => Some(d),
            None => last_description(ls, lo, hi - 1),
        }
    }
}

/// Entry `e` is the one of the section that starts after line `s` (the line
/// that opens it, or `-1`) and ends before line `f` (the line that opens the
/// next section, or the end), where the previous entry's section ended at
/// line `p` (or `p == -1`): its identifier stands on a line of the section;
/// its name is the last description given after line `p` and before line
/// `f`, else the section's title where that is not empty, else its
/// identifier; and its kind is judged from the section's title.
pub open spec fn entry_of_section(e: EntryModel, ls: Seq<Seq<char>>, p: int, s: int, f: int) -> bool {
    let title = section_title(ls, s);
    &&& -1 <= p <= s < f <= ls.len()
    &&& s >= 0 ==> opens_section(ls, s)
    &&& f < ls.len() ==> opens_section(ls, f)
    &&& forall|j: int| s < j < f ==> !opens_section(ls, j)
    &&& exists|j: int| s < j < f && text::text_within(e.id, #[trigger] ls[j])
    &&& e.name == match last_description(ls, p, f) {
        Some(d) => d,
        None => if title.len() > 0 {
            title
        } else {
            e.id
        },
    }
    &&& e.entry_type == kind_of(title, e.path, names_firmware(title))
}

/// Where the section of the entry before entry `k` ended (`-1` for the
/// first entry).
pub open spec fn previous_end(fs: Seq<int>, k: int) -> int {
    if k == 0 {
        -1
    } else {
        fs[k - 1]
    }
}

/// Each entry comes from the section between `ss[k]` and `fs[k]`, and the
/// sections of the entries follow one another in the order of the entries.
pub open spec fn entries_by_section(
    es: Seq<EntryModel>,
    ls: Seq<Seq<char>>,
    ss: Seq<int>,
    fs: Seq<int>,
) -> bool {
    &&& ss.len() == es.len()
    &&& fs.len() == es.len()
    &&& forall|k: int|
        0 <= k < es.len() ==> entry_of_section(#[trigger] es[k], ls, previous_end(fs, k), ss[k], fs[k])
    &&& forall|k1: int, k2: int| 0 <= k1 < k2 < es.len() ==> #[trigger] fs[k1] <= #[trigger] ss[k2]
}

/// The last line among the first `n` that opens a section, or `-1`.
spec fn last_opening(ls: Seq<Seq<char>>, n: int) -> int
    decreases n,
{
    if n <= 0 {
        -1
    } else if opens_section(ls, n - 1) {
        n - 1
    } else {
        last_opening(ls, n - 1)
    }
}

proof fn lemma_last_opening(ls: Seq<Seq<char>>, n: int)
    requires
        0 <= n,
    ensures
        -1 <= last_opening(ls, n) < n,
        last_opening(ls, n) >= 0 ==> opens_section(ls, last_opening(ls, n)),
        forall|j: int| last_opening(ls, n) < j < n ==> !opens_section(ls, j),
    decreases n,
{
    if n > 0 {
        lemma_last_opening(ls, n - 1);
    }
}

/// A line added at the end changes nothing of what an earlier line opens.
proof fn lemma_opens_grow(ls: Seq<Seq<char>>, l: Seq<char>, j: int)
    requires
        0 <= j < ls.len(),
    ensures
        opens_section(ls.push(l), j) == opens_section(ls, j),
{
    assert(ls.push(l).take(j) =~= ls.take(j));
    assert(ls.push(l)[j] == ls[j]);
}

proof fn lemma_last_opening_grow(ls: Seq<Seq<char>>, l: Seq<char>, n: int)
    requires
        0 <= n <= ls.len(),
    ensures
        last_opening(ls.push(l), n) == last_opening(ls, n),
    decreases n,
{
    if n > 0 {
        lemma_opens_grow(ls, l, n - 1);
        lemma_last_opening_grow(ls, l, n - 1);
    }
}

proof fn lemma_last_description_grow(ls: Seq<Seq<char>>, l: Seq<char>, lo: int, hi: int)
    requires
        -1 <= lo,
        hi <= ls.len(),
    ensures
        last_description(ls.push(l), lo, hi) == last_description(ls, lo, hi),
    decreases hi - lo,
{
    if hi - 1 > lo {
        assert(ls.push(l)[hi - 1] == ls[hi - 1]);
        lemma_last_description_grow(ls, l, lo, hi - 1);
    }
}

proof fn lemma_entry_of_section_grow(
    e: EntryModel,
    ls: Seq<Seq<char>>,
    l: Seq<char>,
    p: int,
    s: int,
    f: int,
)
    requires
        entry_of_section(e, ls, p, s, f),
        f < ls.len() || opens_section(ls.push(l), f),
    ensures
        entry_of_section(e, ls.push(l), p, s, f),
{
    let ls2 = ls.push(l);
    assert forall|j: int| s < j < f implies !opens_section(ls2, j) by {
        lemma_opens_grow(ls, l, j);
    }
    if s >= 0 {
        lemma_opens_grow(ls, l, s);
    }
    if f < ls.len() {
        lemma_opens_grow(ls, l, f);
    }
    lemma_last_description_grow(ls, l, p, f);
    let j = choose|j: int| s < j < f && text::text_within(e.id, #[trigger] ls[j]);
    assert(ls2[j] == ls[j]);
    if s >= 0 {
        assert(ls2[s] == ls[s]);
    }
    assert(section_title(ls2, s) == section_title(ls, s));
}

proof fn lemma_section_ends_nonnegative(
    es: Seq<EntryModel>,
    ls: Seq<Seq<char>>,
    ss: Seq<int>,
    fs: Seq<int>,
)
    requires
        entries_by_section(es, ls, ss, fs),
    ensures
        forall|k: int| 0 <= k < fs.len() ==> 0 <= #[trigger] fs[k],
{
    assert forall|k: int| 0 <= k < fs.len() implies 0 <= #[trigger] fs[k] by {
        assert(entry_of_section(es[k], ls, previous_end(fs, k), ss[k], fs[k]));
    }
}

/// What holds after reading the lines `ls`: the finished entries come from
/// sections that end by the start of the current one; the title, the
/// description and the identifier being read are those of the current
/// section.
spec fn bcd_sections(st: BcdState, ls: Seq<Seq<char>>, ss: Seq<int>, fs: Seq<int>) -> bool {
    let s = last_opening(ls, ls.len() as int);
    &&& entries_by_section(st.entries, ls, ss, fs)
    &&& forall|k: int| 0 <= k < fs.len() ==> #[trigger] fs[k] <= s
    &&& st.title == section_title(ls, s)
    &&& st.description == last_description(ls, previous_end(fs, fs.len() as int), ls.len() as int)
    &&& st.identifier matches Some(id) ==> exists|j: int|
        s < j < ls.len() && text::text_within(id, #[trigger] ls[j])
}

/// Ends the current section: its entry, if it has an identifier, comes from
/// the section between `s` and `f`.
proof fn lemma_bcd_flush_section(
    st: BcdState,
    ls: Seq<Seq<char>>,
    ss: Seq<int>,
    fs: Seq<int>,
    f: int,
) -> (w: (Seq<int>, Seq<int>))
    requires
        bcd_sections(st, ls, ss, fs),
        bcd_from_lines(st, ls),
        f == ls.len() || (f < ls.len() && opens_section(ls, f) && forall|j: int|
            last_opening(ls, ls.len() as int) < j < ls.len() && j != f ==> !opens_section(ls, j)),
        last_opening(ls, ls.len() as int) < f,
    ensures
        entries_by_section(bcd_flush(st).entries, ls, w.0, w.1),
        forall|k: int| 0 <= k < w.1.len() ==> #[trigger] w.1[k] <= f,
        st.identifier is None ==> w.0 == ss && w.1 == fs,
        st.identifier is Some ==> w.1.len() > 0 && w.1.last() == f,
{
    let s = last_opening(ls, ls.len() as int);
    lemma_last_opening(ls, ls.len() as int);
    lemma_section_ends_nonnegative(st.entries, ls, ss, fs);
    match st.identifier {
        None => (ss, fs),
        Some(id) => {
            let e = bcd_entry(st, id);
            let fl = bcd_flush(st);
            if s >= 0 {
                text::lemma_trim_trimmed(ls[s]);
            }
            assert(text::trim(st.title) == st.title);
            let j = choose|j: int| s < j < ls.len() && text::text_within(id, #[trigger] ls[j]);
            assert(j < f || f == ls.len());
            assert(entry_of_section(e, ls, previous_end(fs, fs.len() as int), s, f));
            let ss2 = ss.push(s);
            let fs2 = fs.push(f);
            assert forall|k: int| 0 <= k < fl.entries.len() implies entry_of_section(
                #[trigger] fl.entries[k],
                ls,
                previous_end(fs2, k),
                ss2[k],
                fs2[k],
            ) by {
                if k < st.entries.len() {
                    assert(fl.entries[k] == st.entries[k]);
                    assert(previous_end(fs2, k) == previous_end(fs, k));
                }
            }
            assert forall|k1: int, k2: int| 0 <= k1 < k2 < fl.entries.len() implies #[trigger] fs2[k1]
                <= #[trigger] ss2[k2] by {
                if k2 < st.entries.len() {
                    assert(fs2[k1] == fs[k1] && ss2[k2] == ss[k2]);
                } else {
                    assert(fs2[k1] == fs[k1]);
                }
            }
            assert forall|k: int| 0 <= k < fs2.len() implies #[trigger] fs2[k] <= f by {
                if k < fs.len() {
                    assert(fs2[k] == fs[k]);
                }
            }
            (ss2, fs2)
        },
    }
}

/// The entries of sections that end by line `n` stay the entries of those
/// sections when a line is added.
proof fn lemma_entries_by_section_grow(
    es: Seq<EntryModel>,
    ls: Seq<Seq<char>>,
    l: Seq<char>,
    ss: Seq<int>,
    fs: Seq<int>,
)
    requires
        entries_by_section(es, ls, ss, fs),
        forall|k: int| 0 <= k < fs.len() ==> #[trigger] fs[k] < ls.len() || opens_section(ls.push(l), fs[k]),
    ensures
        entries_by_section(es, ls.push(l), ss, fs),
{
    assert forall|k: int| 0 <= k < es.len() implies entry_of_section(
        #[trigger] es[k],
        ls.push(l),
        previous_end(fs, k),
        ss[k],
        fs[k],
    ) by {
        lemma_entry_of_section_grow(es[k], ls, l, previous_end(fs, k), ss[k], fs[k]);
    }
}

#[verifier::rlimit(60)]
proof fn lemma_bcd_step_section(
    st: BcdState,
    ls: Seq<Seq<char>>,
    ss: Seq<int>,
    fs: Seq<int>,
    l: Seq<char>,
) -> (w: (Seq<int>, Seq<int>))
    requires
        st == bcd_scan(ls),
        bcd_sections(st, ls, ss, fs),
    ensures
        bcd_sections(bcd_step(st, l), ls.push(l), w.0, w.1),
{
    reveal(bcd_step);
    let n = ls.len() as int;
    let ls2 = ls.push(l);
    let s = last_opening(ls, n);
    lemma_bcd_scan_from(ls);
    lemma_last_opening(ls, n);
    lemma_last_opening_grow(ls, l, n);
    lemma_section_ends_nonnegative(st.entries, ls, ss, fs);
    assert(ls2.take(n) =~= ls);
    assert(ls2[n] == l);
    assert(opens_section(ls2, n) == is_title_step(st, l));
    let t = text::trim(l);
    let nx = bcd_step(st, l);
    if is_title_step(st, l) {
        let w = lemma_bcd_flush_section(st, ls, ss, fs, n);
        lemma_entries_by_section_grow(bcd_flush(st).entries, ls, l, w.0, w.1);
        assert(last_opening(ls2, n + 1) == n);
        assert(nx.entries == bcd_flush(st).entries);
        assert(ls2.len() == n + 1);
        if st.identifier is Some {
            assert(nx.description is None);
            assert(last_description(ls2, n, n + 1) is None);
        } else {
            let pe = previous_end(fs, fs.len() as int);
            if fs.len() > 0 {
                assert(fs[fs.len() - 1] <= s);
            }
            lemma_last_description_grow(ls, l, pe, n);
            assert(description_of_line(l) is None);
            assert(nx.description == last_description(ls2, pe, n + 1));
        }
        w
    } else {
        assert(last_opening(ls2, n + 1) == s);
        lemma_entries_by_section_grow(st.entries, ls, l, ss, fs);
        assert(nx.entries == st.entries);
        if s >= 0 {
            assert(ls2[s] == ls[s]);
        }
        let pe = previous_end(fs, fs.len() as int);
        if fs.len() > 0 {
            assert(fs[fs.len() - 1] <= s);
        }
        lemma_last_description_grow(ls, l, pe, n);
        assert(nx.description == last_description(ls2, pe, n + 1));
        assert(ls2.len() == n + 1);
        lemma_field_of(l, identifier_labels());
        if let Some(v) = field_of(l, identifier_labels()) {
            lemma_braced_id_within(v);
            if let Some(id) = braced_id(v) {
                text::lemma_within_trans(id, v, l);
            }
        }
        text::lemma_trim_trimmed(l);
        lemma_braced_id_within(t);
        if let Some(id) = braced_id(t) {
            text::lemma_within_trans(id, t, l);
        }
        if let Some(id) = nx.identifier {
            if st.identifier == Some(id) {
                let j = choose|j: int| s < j < n && text::text_within(id, #[trigger] ls[j]);
                assert(ls2[j] == ls[j]);
            } else {
                assert(text::text_within(id, ls2[n]));
            }
        }
        (ss, fs)
    }
}

proof fn lemma_bcd_scan_section(ls: Seq<Seq<char>>) -> (w: (Seq<int>, Seq<int>))
    ensures
        bcd_sections(bcd_scan(ls), ls, w.0, w.1),
    decreases ls.len(),
{
    if ls.len() == 0 {
        assert(bcd_scan(ls).entries =~= Seq::<EntryModel>::empty());
        (Seq::empty(), Seq::empty())
    } else {
        let prev = ls.drop_last();
        let w = lemma_bcd_scan_section(prev);
        assert(prev.push(ls.last()) == ls);
        lemma_bcd_step_section(bcd_scan(prev), prev, w.0, w.1, ls.last())
    }
}

/// Each entry that `parse_bcdedit` returns comes from a section of its own,
/// and the entries come in the order of their sections. A section starts at
/// a title line (not indented, without a colon, not starting with `{`, read
/// neither as a field nor for an identifier or an EFI path), or at the start
/// of the input, and runs to the next title line or the end. Each entry's
/// identifier stands on a line of its section; its name is the last
/// description given since the previous entry's section ended (a description
/// in a section that made no entry carries over), else the title of its
/// section where that is not empty, else its identifier; and its kind is
/// judged, as `entry_type` judges it, from the title of its own section.
pub proof fn bcdedit_entries_by_section(input: Seq<char>)
    ensures
        bcdedit_entries(input) matches Ok(es) ==> exists|ss: Seq<int>, fs: Seq<int>|
            entries_by_section(es, text::lines(input), ss, fs),
{
    let ls = text::lines(input);
    let w = lemma_bcd_scan_section(ls);
    lemma_bcd_scan_from(ls);
    lemma_last_opening(ls, ls.len() as int);
    let w2 = lemma_bcd_flush_section(bcd_scan(ls), ls, w.0, w.1, ls.len() as int);
    if let Ok(es) = bcdedit_entries(input) {
        assert(entries_by_section(es, ls, w2.0, w2.1));
    }
}

// ---------------------------------------------------------------------------
// The kind of an entry, by its keywords
// ---------------------------------------------------------------------------

/// Words that mark a Windows entry.
pub open spec fn windows_words() -> Seq<Seq<char>> {
    seq!["microsoft"@, "bootmgfw"@, "windows"@]
}

/// Words that mark a Linux entry.
pub open spec fn linux_words() -> Seq<Seq<char>> {
    seq!["ubuntu"@, "debian"@, "fedora"@, "arch"@, "linux"@, "grub"@, "shim"@]
}

/// Words that mark a removable medium.
pub open spec fn removable_words() -> Seq<Seq<char>> {
    seq!["usb"@, "removable"@]
}

/// Words that mark a network boot.
pub open spec fn network_words() -> Seq<Seq<char>> {
    seq!["network"@, "pxe"@]
}

/// Some word of `words` stands in `hay`.
pub open spec fn mentions(hay: Seq<char>, words: Seq<Seq<char>>) -> bool {
    exists|i: int| 0 <= i < words.len() && text::contains_sub(hay, #[trigger] words[i])
}

/// The name and the path of an entry, with a space between, in lowercase.
pub open spec fn kind_text(name: Seq<char>, path: Option<Seq<char>>) -> Seq<char> {
    text::to_lower(
        name + " "@ + match path {
            Some(p) => p,
            None => Seq::empty(),
        },
    )
}

/// How an entry's kind follows from its name and path, in any letter case:
/// every entry of a firmware section is a firmware entry; otherwise a
/// Windows word makes a Windows entry; else a Linux word (ubuntu, debian,
/// fedora, arch, linux, grub, shim) a Linux entry; else a USB or removable
/// word a removable one; else a network or PXE word a network one; else the
/// kind is unknown.
pub proof fn kind_follows_keywords(name: Seq<char>, path: Option<Seq<char>>, firmware: bool)
    ensures
        ({
            let hay = kind_text(name, path);
            let k = kind_of(name, path, firmware);
            &&& firmware ==> k == BootEntryType::Firmware
            &&& !firmware && mentions(hay, windows_words()) ==> k == BootEntryType::Windows
            &&& !firmware && !mentions(hay, windows_words()) && mentions(hay, linux_words()) ==> k
                == BootEntryType::Linux
            &&& !firmware && !mentions(hay, windows_words()) && !mentions(hay, linux_words())
                && mentions(hay, removable_words()) ==> k == BootEntryType::Removable
            &&& !firmware && !mentions(hay, windows_words()) && !mentions(hay, linux_words())
                && !mentions(hay, removable_words()) && mentions(hay, network_words()) ==> k
                == BootEntryType::Network
            &&& !firmware && !mentions(hay, windows_words()) && !mentions(hay, linux_words())
                && !mentions(hay, removable_words()) && !mentions(hay, network_words()) ==> k
                == BootEntryType::Unknown
        }),
{
    let hay = kind_text(name, path);
    let w = windows_words();
    let l = linux_words();
    let r = removable_words();
    let n = network_words();
    assert(w[0] == "microsoft"@ && w[1] == "bootmgfw"@ && w[2] == "windows"@);
    assert(l[0] == "ubuntu"@ && l[1] == "debian"@ && l[2] == "fedora"@ && l[3] == "arch"@ && l[4]
        == "linux"@ && l[5] == "grub"@ && l[6] == "shim"@);
    assert(r[0] == "usb"@ && r[1] == "removable"@);
    assert(n[0] == "network"@ && n[1] == "pxe"@);
    if mentions(hay, w) {
        let i = choose|i: int| 0 <= i < w.len() && text::contains_sub(hay, #[trigger] w[i]);
        assert(i == 0 || i == 1 || i == 2);
    }
    if mentions(hay, l) {
        let i = choose|i: int| 0 <= i < l.len() && text::contains_sub(hay, #[trigger] l[i]);
        assert(i == 0 || i == 1 || i == 2 || i == 3 || i == 4 || i == 5 || i == 6);
    }
    if mentions(hay, r) {
        let i = choose|i: int| 0 <= i < r.len() && text::contains_sub(hay, #[trigger] r[i]);
        assert(i == 0 || i == 1);
    }
    if mentions(hay, n) {
        let i = choose|i: int| 0 <= i < n.len() && text::contains_sub(hay, #[trigger] n[i]);
        assert(i == 0 || i == 1);
    }
    if text::contains_sub(hay, w[0]) || text::contains_sub(hay, w[1]) || text::contains_sub(hay, w[2]) {
        assert(mentions(hay, w));
    }
    if text::contains_sub(hay, l[0]) || text::contains_sub(hay, l[1]) || text::contains_sub(hay, l[2])
        || text::contains_sub(hay, l[3]) || text::contains_sub(hay, l[4]) || text::contains_sub(hay, l[5])
        || text::contains_sub(hay, l[6]) {
        assert(mentions(hay, l));
    }
    if text::contains_sub(hay, r[0]) || text::contains_sub(hay, r[1]) {
        assert(mentions(hay, r));
    }
    if text::contains_sub(hay, n[0]) || text::contains_sub(hay, n[1]) {
        assert(mentions(hay, n));
    }
}

/// What the entry of an `efibootmgr` entry line is: its identifier is the
/// line's four hex digits in uppercase; it names no device and carries no
/// mark; its description is the text it reads for the entry (possibly
/// empty), its name that text, or "未命名启动项" where it is empty; its kind
/// is judged from that text and its path, never as a firmware entry; a path,
/// where there is one, is non-empty, has no whitespace at either end and no
/// closing parenthesis; and it is suspect exactly when it has no path or the
/// rest of its line speaks, in lowercase, of `unknown`.
pub proof fn efibootmgr_line_entry_rules(line: Seq<char>)
    requires
        is_entry_line(line),
    ensures
        ({
            let t = text::trim(line);
            let e = line_entry(line);
            let rest = text::trim(
                text::strip_start(text::strip_start(t.skip(8), Strip::Whitespace), Strip::Star),
            );
            &&& e.id == text::upper_ascii(t.subrange(4, 8))
            &&& is_entry_number(e.id)
            &&& e.device is None && !e.current && !e.next && e.order is None
            &&& e.description matches Some(d) && e.name == (if d.len() == 0 {
                "未命名启动项"@
            } else {
                d
            }) && e.entry_type == kind_of(d, e.path, false) && e.entry_type
                != BootEntryType::Firmware
            &&& e.path matches Some(p) ==> p.len() > 0 && text::trim(p) == p && text::find_char(
                p,
                ')',
            ) is None
            &&& e.suspected_invalid == (e.path is None || text::contains_sub(
                text::to_lower(rest),
                "unknown"@,
            ))
        }),
{
    let t = text::trim(line);
    let x = t.subrange(4, 8);
    text::lemma_trim_fixed(x);
    lemma_four_hex_number(x);
    let e = line_entry(line);
    let rest = text::trim(
        text::strip_start(text::strip_start(t.skip(8), Strip::Whitespace), Strip::Star),
    );
    kind_follows_keywords(efi_name_path(rest).0, efi_name_path(rest).1, false);
    text::lemma_find_sub_from(rest, "File("@, 0);
    if let Some(f) = text::find_sub(rest, "File("@) {
        let y = rest.skip(f + "File("@.len());
        let b = text::before_char(y, ')');
        text::lemma_find_char_from(y, ')', 0);
        assert forall|i: int| 0 <= i < b.len() implies b[i] != ')' by {}
        let ab = text::lemma_trim(b);
        text::lemma_trim_trimmed(b);
        let p = text::trim(b);
        text::lemma_find_char_from(p, ')', 0);
        if text::find_char(p, ')') is Some {
            let k = text::find_char(p, ')')->0;
            assert(p[k] == b[ab.0 + k]);
        }
    }
}

} // verus!
