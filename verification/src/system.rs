//! Facts about the running system, read from what the system files hold.
use vstd::prelude::*;

use crate::text;
use crate::text::Strip;

verus! {

/// The value of the first `PRETTY_NAME=` line, without surrounding quotes.
pub open spec fn pretty_name(ls: Seq<Seq<char>>) -> Option<Seq<char>>
    decreases ls.len(),
{
    if ls.len() == 0 {
        None
    } else if text::starts_with(ls[0], "PRETTY_NAME="@) {
        Some(text::strip_both(ls[0].skip("PRETTY_NAME="@.len() as int), Strip::Quote))
    } else {
        pretty_name(ls.drop_first())
    }
}

/// The name of the operating system that an `os-release` file gives, or
/// `Linux` where it gives none.
pub open spec fn os_release_name(content: Seq<char>) -> Seq<char> {
    match pretty_name(text::lines(content)) {
        Some(n) => n,
        None => "Linux"@,
    }
}

/// The name of the operating system from the content of `/etc/os-release`:
/// its `PRETTY_NAME`, else `Linux`.
pub fn os_name_from_release(content: &str) -> (r: String)
    ensures
        r@ == os_release_name(content@),
{
    let chars = text::chars_of(content);
    let label = text::chars_of("PRETTY_NAME=");
    let n = chars.len();
    let mut pos: usize = 0;
    assert(chars@.skip(0) == chars@);
    while pos < n
        invariant
            n == chars@.len(),
            pos <= n,
            label@ == "PRETTY_NAME="@,
            chars@ == content@,
            pretty_name(text::lines(chars@)) == pretty_name(text::lines(chars@.skip(pos as int))),
        decreases n - pos,
    {
        let rest = &chars[pos..n];
        let (a, b, c) = text::first_line_exec(rest);
        let line = &rest[a..b];
        proof {
            assert(rest@ == chars@.skip(pos as int));
            assert(text::lines(rest@) == seq![text::first_line(rest@).0] + text::lines(
                text::first_line(rest@).1,
            ));
            assert(rest@.skip(c as int) == chars@.skip(pos + c));
            assert(text::lines(rest@)[0] == line@);
            assert(text::lines(rest@).drop_first() == text::lines(chars@.skip(pos + c)));
        }
        if text::starts_with_exec(line, label.as_slice()) {
            let value = text::strip_both_exec(&line[label.len()..line.len()], Strip::Quote);
            return text::string_of(value);
        }
        pos = pos + c;
    }
    assert(chars@.skip(pos as int) == Seq::<char>::empty());
    text::owned("Linux")
}

/// Whether an EFI variable file holds the Secure Boot state.
pub fn is_secure_boot_var(name: &str) -> (r: bool)
    ensures
        r == text::starts_with(name@, "SecureBoot-"@),
{
    let c = text::chars_of(name);
    text::starts_with_exec(c.as_slice(), text::chars_of("SecureBoot-").as_slice())
}

/// The Secure Boot state from the content of its EFI variable: on where the
/// last byte is 1, unknown where the variable is empty.
pub fn secure_boot_from_var(bytes: &[u8]) -> (r: Option<bool>)
    ensures
        r == if bytes@.len() == 0 {
            None
        } else {
            Some(bytes@.last() == 1)
        },
{
    if bytes.len() == 0 {
        None
    } else {
        Some(bytes[bytes.len() - 1] == 1)
    }
}

} // verus!
