//! The data directory layout under %LOCALAPPDATA%\ContextMenuRs, with
//! Windows path joining.
use vstd::prelude::*;
use vstd::string::*;
use crate::text::{chars_of, is_ascii_alpha, push_char, push_chars};

verus! {

broadcast use vstd::string::group_string_axioms;

/// A Windows path separator.
pub open spec fn is_sep(c: char) -> bool {
    c == '\\' || c == '/'
}

/// A bare drive prefix such as "C:", after which no separator is inserted.
pub open spec fn is_bare_drive(p: Seq<char>) -> bool {
    p.len() == 2 && is_ascii_alpha(p[0]) && p[1] == ':'
}

/// `base` joined with the relative component `name` (`Path::join` on
/// Windows): a backslash goes between them unless `base` is empty, already
/// ends in a separator, or is a bare drive.
pub open spec fn join_of(base: Seq<char>, name: Seq<char>) -> Seq<char> {
    if base.len() == 0 || is_sep(base.last()) || is_bare_drive(base) {
        base + name
    } else {
        base + seq!['\\'] + name
    }
}

/// See `join_of`.
pub fn join_path(base: &str, name: &str) -> (r: String)
    ensures
        r@ == join_of(base@, name@),
{
    let b = chars_of(base);
    let n = chars_of(name);
    let mut r = String::new();
    push_chars(&mut r, &b);
    let k = b.len();
    let bare_drive = k == 2 && (('a' <= b[0] && b[0] <= 'z') || ('A' <= b[0] && b[0] <= 'Z'))
        && b[1] == ':';
    if k > 0 && b[k - 1] != '\\' && b[k - 1] != '/' && !bare_drive {
        push_char(&mut r, '\\');
    }
    push_chars(&mut r, &n);
    assert(r@ =~= join_of(base@, name@));
    r
}

/// Root data directory: `ContextMenuRs` under %LOCALAPPDATA% (its value,
/// `None` when unset, which falls back to the current directory ".").
pub open spec fn data_root_of(local_app_data: Option<Seq<char>>) -> Seq<char> {
    join_of(
        match local_app_data {
            Some(b) => b,
            None => "."@,
        },
        "ContextMenuRs"@,
    )
}

/// See `data_root_of`.
pub fn data_root(local_app_data: Option<&str>) -> (r: String)
    ensures
        r@ == data_root_of(
            match local_app_data {
                Some(b) => Some(b@),
                None => None,
            },
        ),
{
    match local_app_data {
        Some(b) => join_path(b, "ContextMenuRs"),
        None => join_path(".", "ContextMenuRs"),
    }
}

/// Where the menu *.json files live.
pub fn config_dir(data_root: &str) -> (r: String)
    ensures
        r@ == join_of(data_root@, "custom_commands"@),
{
    join_path(data_root, "custom_commands")
}

/// Where generated (copied / badged) icons live.
pub fn icons_dir(data_root: &str) -> (r: String)
    ensures
        r@ == join_of(data_root@, "icons"@),
{
    join_path(data_root, "icons")
}

/// Where the installed binaries live.
pub fn bin_dir(data_root: &str) -> (r: String)
    ensures
        r@ == join_of(data_root@, "bin"@),
{
    join_path(data_root, "bin")
}

/// Where the generated packages live, one directory per config.
pub fn pkg_root(data_root: &str) -> (r: String)
    ensures
        r@ == join_of(data_root@, "packages"@),
{
    join_path(data_root, "packages")
}

/// The installed shell extension DLL.
pub fn installed_dll(data_root: &str) -> (r: String)
    ensures
        r@ == join_of(join_of(data_root@, "bin"@), "cmrs.dll"@),
{
    let b = bin_dir(data_root);
    join_path(b.as_str(), "cmrs.dll")
}

/// The installed classic-menu runner.
pub fn installed_runner(data_root: &str) -> (r: String)
    ensures
        r@ == join_of(join_of(data_root@, "bin"@), "cmrsRun.exe"@),
{
    let b = bin_dir(data_root);
    join_path(b.as_str(), "cmrsRun.exe")
}

/// The CLSID -> config mapping read by the shell extension.
pub fn mapping_file(data_root: &str) -> (r: String)
    ensures
        r@ == join_of(data_root@, "packages.json"@),
{
    join_path(data_root, "packages.json")
}

/// The opt-in debug log.
pub fn debug_log_file(data_root: &str) -> (r: String)
    ensures
        r@ == join_of(data_root@, "debug.log"@),
{
    join_path(data_root, "debug.log")
}

} // verus!
