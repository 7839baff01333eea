//! Boot entries on Linux, through `efibootmgr`: the decisions taken on what
//! the command prints and on what the user asks for.
use vstd::prelude::*;
use vstd::slice::slice_to_vec;

use crate::command::{CommandOutput, SpawnFailure, error_text, error_text_exec, utf8_lossy};
use crate::error::{BootError, BootResult, ErrorModel, outcome};
use crate::models::{BootInfo, InfoModel};
use crate::parser::{efibootmgr_result, efibootmgr_sliceable, is_linux_id};
use crate::text;

verus! {

/// The boot manager of Linux systems, which works through `efibootmgr`.
pub struct LinuxBootManager;

/// The texts joined with `sep` between them.
pub open spec fn join(parts: Seq<Seq<char>>, sep: Seq<char>) -> Seq<char>
    decreases parts.len(),
{
    if parts.len() == 0 {
        Seq::empty()
    } else if parts.len() == 1 {
        parts[0]
    } else {
        join(parts.drop_last(), sep) + sep + parts.last()
    }
}

/// The boot order that makes `id` the default: `id` in uppercase first, then
/// the other entries in their order.
pub open spec fn default_order(id: Seq<char>, order: Seq<Seq<char>>) -> Seq<Seq<char>> {
    seq![text::upper_ascii(id)] + order.filter(other_than(id))
}

/// The test for entries other than `id`.
pub open spec fn other_than(id: Seq<char>) -> spec_fn(Seq<char>) -> bool {
    |e: Seq<char>| e != id
}

/// What `output_text` returns: the standard output as text for a successful
/// command; otherwise a permission error where the standard error speaks of
/// permissions, else the standard error as the failure message.
pub open spec fn output_text_model(output: CommandOutput) -> Result<Seq<char>, ErrorModel> {
    if !output.success {
        let m = error_text(output);
        if text::contains_sub(text::to_lower(m), "permission"@) || text::contains_sub(m, "权限"@) {
            Err(ErrorModel::PermissionDenied)
        } else {
            Err(ErrorModel::CommandFailed(m))
        }
    } else {
        Ok(utf8_lossy(output.stdout@))
    }
}

/// What `boot_info_from_text` returns.
pub open spec fn linux_info_model(
    text: Seq<char>,
    current_os: Seq<char>,
    secure_boot: Option<bool>,
) -> Result<InfoModel, ErrorModel> {
    match efibootmgr_result(text) {
        Err(e) => Err(e),
        Ok((current, next, order, entries)) => Ok(
            InfoModel {
                current_os: current_os,
                uefi: true,
                secure_boot: secure_boot,
                boot_current: current,
                boot_next: next,
                boot_order: order,
                entries: entries,
            },
        ),
    }
}

/// What `default_order_args` returns: the `efibootmgr` arguments that set the
/// boot order, for a valid entry number that the order holds.
pub open spec fn default_order_args_model(id: Seq<char>, order: Seq<Seq<char>>) -> Result<
    Seq<Seq<char>>,
    ErrorModel,
> {
    if !is_linux_id(id) {
        Err(ErrorModel::InvalidBootId(id))
    } else if !order.contains(id) {
        Err(ErrorModel::BootEntryNotFound(id))
    } else {
        Ok(seq!["-o"@, join(default_order(id, order), ","@)])
    }
}

fn invalid_id(id: &str) -> (r: BootError)
    ensures
        r@ == ErrorModel::InvalidBootId(id@),
{
    BootError::InvalidBootId(text::owned(id))
}

impl LinuxBootManager {
    pub fn new() -> (r: LinuxBootManager) {
        LinuxBootManager
    }

    /// The error for `efibootmgr` not starting.
    pub fn spawn_error(&self, failure: SpawnFailure) -> (r: BootError)
        ensures
            r@ == crate::command::spawn_error_model("efibootmgr"@, failure),
    {
        crate::command::spawn_error("efibootmgr", failure)
    }

    /// The text that `efibootmgr` printed, or the error its failure means.
    pub fn output_text(&self, output: &CommandOutput) -> (r: BootResult<String>)
        ensures
            outcome(r) == output_text_model(*output),
    {
        if !output.success {
            let m = error_text_exec(output);
            let lower = text::lower_text(m.as_slice());
            let permission = text::chars_of("permission");
            let denied = text::chars_of("权限");
            if text::contains_exec(lower.as_slice(), permission.as_slice()) || text::contains_exec(
                m.as_slice(),
                denied.as_slice(),
            ) {
                return Err(BootError::PermissionDenied);
            }
            return Err(BootError::CommandFailed(text::string_of(m.as_slice())));
        }
        Ok(crate::command::from_utf8_lossy(output.stdout.as_slice()))
    }

    /// The boot configuration that `efibootmgr -v` output describes.
    pub fn boot_info_from_text(
        &self,
        text: &str,
        current_os: String,
        secure_boot: Option<bool>,
    ) -> (r: BootResult<BootInfo>)
        requires
            efibootmgr_sliceable(text@),
        ensures
            outcome(r) == linux_info_model(text@, current_os@, secure_boot),
    {
        match crate::parser::parse_efibootmgr(text) {
            Err(e) => Err(e),
            Ok((boot_current, boot_next, boot_order, entries)) => Ok(
                BootInfo {
                    current_os,
                    uefi: true,
                    secure_boot,
                    boot_current,
                    boot_next,
                    boot_order,
                    entries,
                },
            ),
        }
    }

    /// The boot configuration from what `efibootmgr -v` returned: the error
    /// that a failed run means, or the configuration its output describes;
    /// `None` where an entry number of the output cannot be cut out by bytes.
    pub fn boot_info_from_output(
        &self,
        output: &CommandOutput,
        current_os: String,
        secure_boot: Option<bool>,
    ) -> (r: Option<BootResult<BootInfo>>)
        ensures
            match output_text_model(*output) {
                Err(e) => r matches Some(Err(x)) && x@ == e,
                Ok(t) => if efibootmgr_sliceable(t) {
                    r matches Some(res) && outcome(res) == linux_info_model(
                        t,
                        current_os@,
                        secure_boot,
                    )
                } else {
                    r is None
                },
            },
    {
        match self.output_text(output) {
            Err(e) => Some(Err(e)),
            Ok(t) => {
                if crate::parser::efibootmgr_output_sliceable(t.as_str()) {
                    Some(self.boot_info_from_text(t.as_str(), current_os, secure_boot))
                } else {
                    None
                }
            },
        }
    }

    /// Accepts only EFI entry numbers.
    pub fn check_id(&self, id: &str) -> (r: BootResult<()>)
        ensures
            r is Ok <==> is_linux_id(id@),
            r matches Err(e) ==> e@ == ErrorModel::InvalidBootId(id@),
    {
        if crate::parser::valid_linux_id(id) {
            Ok(())
        } else {
            Err(invalid_id(id))
        }
    }

    /// The `efibootmgr` arguments that set the next boot entry (`-n ID`), for
    /// a valid entry number.
    pub fn boot_next_args(&self, id: &str) -> (r: BootResult<Vec<String>>)
        ensures
            r is Ok <==> is_linux_id(id@),
            r matches Err(e) ==> e@ == ErrorModel::InvalidBootId(id@),
            r matches Ok(args) ==> crate::models::texts(args@) == seq!["-n"@, id@],
    {
        if !crate::parser::valid_linux_id(id) {
            return Err(invalid_id(id));
        }
        let args = vec![text::owned("-n"), text::owned(id)];
        assert(crate::models::texts(args@) =~= seq!["-n"@, id@]);
        Ok(args)
    }

    /// The `efibootmgr` arguments that make `id` the default entry: `-o` and
    /// the new boot order, `id` first.
    pub fn default_order_args(&self, id: &str, boot_order: &Vec<String>) -> (r: BootResult<
        Vec<String>,
    >)
        ensures
            match r {
                Ok(args) => default_order_args_model(id@, crate::models::texts(boot_order@))
                    == Ok::<Seq<Seq<char>>, ErrorModel>(crate::models::texts(args@)),
                Err(e) => default_order_args_model(id@, crate::models::texts(boot_order@)) == Err::<
                    Seq<Seq<char>>,
                    ErrorModel,
                >(e@),
            },
    {
        if !crate::parser::valid_linux_id(id) {
            return Err(invalid_id(id));
        }
        let ghost order = crate::models::texts(boot_order@);
        let key = text::chars_of(id);
        // Whether the order holds `id`, and the order without it.
        let mut found = false;
        let mut rest: Vec<Vec<char>> = Vec::new();
        let mut i: usize = 0;
        let ghost keep = other_than(id@);
        assert(order.take(0).filter(keep) =~= Seq::<Seq<char>>::empty()) by {
            reveal(Seq::filter);
        }
        while i < boot_order.len()
            invariant
                i <= boot_order@.len(),
                order == crate::models::texts(boot_order@),
                key@ == id@,
                keep == other_than(id@),
                found <==> order.take(i as int).contains(id@),
                text::seqs_of(rest@) == order.take(i as int).filter(keep),
            decreases boot_order@.len() - i,
        {
            let ghost r0 = rest@;
            let e = text::chars_of(boot_order[i].as_str());
            proof {
                reveal(Seq::filter);
                assert(order.take(i + 1).drop_last() == order.take(i as int));
                assert(order.take(i + 1).last() == e@);
                assert(order.take(i + 1) == order.take(i as int).push(e@));
            }
            if text::seq_eq_exec(e.as_slice(), key.as_slice()) {
                found = true;
                assert(order.take(i + 1)[i as int] == id@);
            } else {
                rest.push(e);
                assert(text::seqs_of(rest@) =~= text::seqs_of(r0).push(e@));
                assert(order.take(i as int).contains(id@) <==> order.take(i + 1).contains(id@));
            }
            i = i + 1;
        }
        assert(order.take(i as int) == order);
        if !found {
            return Err(BootError::BootEntryNotFound(text::owned(id)));
        }
        // The joined order: `id` in uppercase, then the rest, separated by commas.
        let first = text::upper_ascii_exec(key.as_slice());
        let mut joined: Vec<char> = slice_to_vec(first.as_slice());
        let ghost parts = seq![first@] + order.filter(other_than(id@));
        let mut j: usize = 0;
        assert(parts.take(1) =~= seq![first@]);
        while j < rest.len()
            invariant
                j <= rest@.len(),
                parts == seq![first@] + text::seqs_of(rest@),
                joined@ == join(parts.take(j + 1), ","@),
            decreases rest@.len() - j,
        {
            let ghost before = joined@;
            joined.push(',');
            let piece = &rest[j];
            let mut k: usize = 0;
            while k < piece.len()
                invariant
                    k <= piece@.len(),
                    joined@ == before + seq![','] + piece@.take(k as int),
                decreases piece@.len() - k,
            {
                joined.push(piece[k]);
                assert(piece@.take(k + 1) == piece@.take(k as int).push(piece@[k as int]));
                k = k + 1;
            }
            proof {
                reveal_strlit(",");
                assert(piece@.take(k as int) == piece@);
                assert(parts.take(j + 2).drop_last() == parts.take(j + 1));
                assert(parts.take(j + 2).last() == piece@);
            }
            j = j + 1;
        }
        assert(parts.take(j + 1) == parts);
        let args = vec![text::owned("-o"), text::string_of(joined.as_slice())];
        assert(crate::models::texts(args@) =~= seq!["-o"@, joined@]);
        Ok(args)
    }

    /// Reading the boot configuration needs the firmware's EFI variables:
    /// where `/sys/firmware/efi` is missing the system did not boot by UEFI,
    /// and nothing is run.
    pub fn require_uefi(&self, efi_dir_exists: bool) -> (r: BootResult<()>)
        ensures
            r is Ok <==> efi_dir_exists,
            r matches Err(e) ==> e@ == ErrorModel::NotUefi,
    {
        if efi_dir_exists {
            Ok(())
        } else {
            Err(BootError::NotUefi)
        }
    }

    /// The command line that sets the next boot entry: `efibootmgr -n ID`
    /// through `pkexec`, since it writes an EFI variable.
    pub fn boot_next_command(&self, id: &str) -> (r: BootResult<(String, Vec<String>)>)
        ensures
            r is Ok <==> is_linux_id(id@),
            r matches Err(e) ==> e@ == ErrorModel::InvalidBootId(id@),
            r matches Ok(c) ==> c.0@ == "pkexec"@ && crate::models::texts(c.1@) == seq![
                "efibootmgr"@,
                "-n"@,
                id@,
            ],
    {
        let args = self.boot_next_args(id)?;
        let c = privileged_command("efibootmgr", &args);
        assert(seq!["efibootmgr"@] + seq!["-n"@, id@] =~= seq!["efibootmgr"@, "-n"@, id@]);
        Ok(c)
    }

    /// The command line that makes `id` the default entry: `efibootmgr -o`
    /// with the new boot order, through `pkexec`, since it writes an EFI
    /// variable.
    pub fn default_order_command(&self, id: &str, boot_order: &Vec<String>) -> (r: BootResult<
        (String, Vec<String>),
    >)
        ensures
            match r {
                Ok(c) => c.0@ == "pkexec"@ && default_order_args_model(
                    id@,
                    crate::models::texts(boot_order@),
                ) == Ok::<Seq<Seq<char>>, ErrorModel>(crate::models::texts(c.1@).drop_first())
                    && crate::models::texts(c.1@).len() > 0 && crate::models::texts(c.1@)[0]
                    == "efibootmgr"@,
                Err(e) => default_order_args_model(id@, crate::models::texts(boot_order@)) == Err::<
                    Seq<Seq<char>>,
                    ErrorModel,
                >(e@),
            },
    {
        let args = self.default_order_args(id, boot_order)?;
        let c = privileged_command("efibootmgr", &args);
        assert((seq!["efibootmgr"@] + crate::models::texts(args@)).drop_first() =~= crate::models::texts(
            args@,
        ));
        Ok(c)
    }

    /// The command line that restarts the machine: `systemctl reboot`,
    /// through `pkexec`.
    pub fn reboot_command(&self) -> (r: (String, Vec<String>))
        ensures
            r.0@ == "pkexec"@,
            crate::models::texts(r.1@) == seq!["systemctl"@, "reboot"@],
    {
        let args = vec![text::owned("reboot")];
        let c = privileged_command("systemctl", &args);
        assert(crate::models::texts(args@) =~= seq!["reboot"@]);
        assert(seq!["systemctl"@] + seq!["reboot"@] =~= seq!["systemctl"@, "reboot"@]);
        c
    }
}

/// The command line that runs `program` with `args` through polkit's
/// `pkexec`, the way commands that change EFI variables or restart the
/// machine are run.
pub fn privileged_command(program: &str, args: &Vec<String>) -> (r: (String, Vec<String>))
    ensures
        r.0@ == "pkexec"@,
        crate::models::texts(r.1@) == seq![program@] + crate::models::texts(args@),
{
    let mut v: Vec<String> = vec![text::owned(program)];
    let mut i: usize = 0;
    assert(crate::models::texts(v@) =~= seq![program@] + crate::models::texts(args@).take(0));
    while i < args.len()
        invariant
            i <= args@.len(),
            crate::models::texts(v@) == seq![program@] + crate::models::texts(args@).take(i as int),
        decreases args@.len() - i,
    {
        let ghost v0 = v@;
        let a = text::owned(args[i].as_str());
        v.push(a);
        assert(crate::models::texts(v@) =~= crate::models::texts(v0).push(a@));
        assert(crate::models::texts(args@).take(i + 1) =~= crate::models::texts(args@).take(
            i as int,
        ).push(args@[i as int]@));
        i = i + 1;
    }
    assert(crate::models::texts(args@).take(i as int) =~= crate::models::texts(args@));
    (text::owned("pkexec"), v)
}

} // verus!

verus! {

/// A text without the given character.
pub open spec fn free_of(s: Seq<char>, c: char) -> bool {
    forall|i: int| 0 <= i < s.len() ==> s[i] != c
}

proof fn lemma_split_free(s: Seq<char>, c: char)
    requires
        free_of(s, c),
    ensures
        text::split_char(s, c) == seq![s],
{
    text::lemma_find_char_from(s, c, 0);
}

/// Splitting at `c` distributes over a joint made with `c`.
proof fn lemma_split_concat(a: Seq<char>, b: Seq<char>, c: char)
    ensures
        text::split_char(a + seq![c] + b, c) == text::split_char(a, c) + text::split_char(b, c),
    decreases a.len(),
{
    let s = a + seq![c] + b;
    text::lemma_find_char_from(a, c, 0);
    text::lemma_find_char_from(s, c, 0);
    match text::find_char(a, c) {
        Some(i) => {
            assert(s[i] == c);
            assert(text::find_char(s, c) == Some(i));
            assert(s.take(i) == a.take(i));
            assert(s.skip(i + 1) == a.skip(i + 1) + seq![c] + b);
            lemma_split_concat(a.skip(i + 1), b, c);
        },
        None => {
            assert(s[a.len() as int] == c);
            assert(text::find_char(s, c) == Some(a.len() as int));
            assert(s.take(a.len() as int) == a);
            assert(s.skip(a.len() as int + 1) == b);
        },
    }
}

proof fn lemma_split_join(parts: Seq<Seq<char>>, c: char)
    requires
        parts.len() > 0,
        forall|i: int| 0 <= i < parts.len() ==> free_of(#[trigger] parts[i], c),
    ensures
        text::split_char(join(parts, seq![c]), c) == parts,
    decreases parts.len(),
{
    if parts.len() == 1 {
        lemma_split_free(parts[0], c);
        assert(parts == seq![parts[0]]);
    } else {
        let init = parts.drop_last();
        lemma_split_join(init, c);
        lemma_split_concat(join(init, seq![c]), parts.last(), c);
        lemma_split_free(parts.last(), c);
        assert(init + seq![parts.last()] == parts);
    }
}

/// `default_order_args` refuses an identifier that is not an entry number,
/// then one that the order does not hold; otherwise it gives `-o` and the
/// new order joined by commas: the chosen entry first, in uppercase, then
/// every other entry of the old order, in their order, wherever the chosen
/// one stood.
pub proof fn default_order_args_exact(id: Seq<char>, order: Seq<Seq<char>>)
    ensures
        default_order_args_model(id, order) == if !is_linux_id(id) {
            Err::<Seq<Seq<char>>, ErrorModel>(ErrorModel::InvalidBootId(id))
        } else if !order.contains(id) {
            Err(ErrorModel::BootEntryNotFound(id))
        } else {
            Ok(
                seq![
                    "-o"@,
                    join(seq![text::upper_ascii(id)] + order.filter(|x: Seq<char>| x != id), ","@),
                ],
            )
        },
{
    assert(other_than(id) =~= (|x: Seq<char>| x != id));
}

/// The order that `default_order_args` hands to `efibootmgr -o` reads back,
/// split at its commas, as the intended order: the chosen entry first, in
/// uppercase, then every other entry of the old order, in their order,
/// wherever the chosen one stood. The arguments are made exactly where the
/// identifier is an entry number that the order holds. (Entry numbers hold
/// no commas.)
pub proof fn default_order_reads_back(id: Seq<char>, order: Seq<Seq<char>>)
    requires
        forall|i: int| 0 <= i < order.len() ==> free_of(#[trigger] order[i], ','),
    ensures
        default_order_args_model(id, order) is Ok <==> is_linux_id(id) && order.contains(id),
        default_order_args_model(id, order) matches Ok(args) ==> text::split_char(args[1], ',')
            == default_order(id, order),
        default_order_args_model(id, order) matches Ok(args) ==> {
            &&& args.len() == 2
            &&& args[0] == "-o"@
            &&& text::split_char(args[1], ',') == seq![text::upper_ascii(id)] + order.filter(
                |x: Seq<char>| x != id,
            )
        },
{
    assert(other_than(id) =~= (|x: Seq<char>| x != id));
    if default_order_args_model(id, order) is Ok {
        let parts = default_order(id, order);
        let keep = other_than(id);
        assert forall|i: int| 0 <= i < parts.len() implies free_of(#[trigger] parts[i], ',') by {
            if i == 0 {
                assert(parts[0] == text::upper_ascii(id));
                assert forall|k: int| 0 <= k < parts[0].len() implies parts[0][k] != ',' by {
                    assert(text::is_hex(id[k]));
                }
            } else {
                order.lemma_filter_pred(keep, i - 1);
                assert(parts[i] == order.filter(keep)[i - 1]);
                assert(order.filter(keep).contains(parts[i]));
                order.lemma_filter_contains_rev(keep, parts[i]);
            }
        }
        reveal_strlit(",");
        assert(","@ == seq![',']);
        lemma_split_join(parts, ',');
    }
}

} // verus!

verus! {

/// On Linux every entry that is listed to the user can be set as the next
/// or the default entry: its identifier is an EFI entry number, which
/// `check_id` and `boot_next_args` accept.
pub proof fn listed_entries_are_settable(
    text: Seq<char>,
    current_os: Seq<char>,
    secure_boot: Option<bool>,
)
    ensures
        linux_info_model(text, current_os, secure_boot) matches Ok(info) ==> forall|i: int|
            0 <= i < crate::boot::visible_info(info).entries.len() ==> is_linux_id(
                (#[trigger] crate::boot::visible_info(info).entries[i]).id,
            ),
{
    crate::parser::efibootmgr_result_well_formed(text);
    if let Ok(info) = linux_info_model(text, current_os, secure_boot) {
        crate::boot::visible_info_consistent(info);
        let v = crate::boot::visible_info(info);
        assert forall|i: int| 0 <= i < v.entries.len() implies is_linux_id(
            (#[trigger] v.entries[i]).id,
        ) by {
            let k = choose|k: int| 0 <= k < info.entries.len() && info.entries[k] == v.entries[i];
            assert(crate::parser::is_entry_number(info.entries[k].id));
        }
    }
}

} // verus!
