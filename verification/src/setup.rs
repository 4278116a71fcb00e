//! Package-generation logic for the installer: slugs, deterministic CLSIDs,
//! icon specs, the AppX manifest and the classic-menu registry targets. The
//! identity/CLSID scheme must never change, or existing installs break.
use vstd::prelude::*;
use vstd::string::*;
use vstd::hash_set::StringHashSet;
use vstd::utf8::{encode_utf8, is_char_boundary};
use crate::config::{
    dir_flag_of, ext_list, ext_list_of, file_flag_of, rule_index, string_views, MenuConfig,
    DIR_BACKGROUND, DIR_DIRECTORY, DIR_DRIVE, FILE_EXT_LIST, FILE_NONE,
};
use crate::text::{
    chars_eq, chars_of, eq_ignore_ascii_case, eq_ignore_case, find_char, find_char_exec, is_alnum,
    is_ascii_alnum, lemma_find_char_bounds, lemma_rfind_char_bounds, lowercase_of, parse_i32,
    parse_i32_exec, push_char, rfind_char, rfind_char_exec, replace_all, skip_class, slice_range, starts_with,
    string_of, to_lowercase, trim, trim_start, trim_ws, trimmed, CharClass,
};

verus! {

broadcast use vstd::string::group_string_axioms;

/// Package identity prefix; also the classic-menu registry key prefix.
pub const ID_PREFIX: &'static str = "CtxRs.";

// ------------------------------------------------------------------ slug

/// The ASCII letters and digits of `s`, in order.
pub open spec fn alnum_only(s: Seq<char>) -> Seq<char>
    decreases s.len(),
{
    if s.len() == 0 {
        s
    } else if is_ascii_alnum(s.last()) {
        alnum_only(s.drop_last()).push(s.last())
    } else {
        alnum_only(s.drop_last())
    }
}

/// A config file name without a trailing ".json" (any case).
pub open spec fn json_stem(name: Seq<char>) -> Seq<char> {
    if name.len() >= 5 && eq_ignore_ascii_case(name.skip(name.len() - 5), ".json"@) {
        name.take(name.len() - 5)
    } else {
        name
    }
}

/// Alphanumeric slug of a config file name: at most 30 characters, "entry"
/// when nothing is left.
pub open spec fn slug_of(name: Seq<char>) -> Seq<char> {
    let all = alnum_only(json_stem(name));
    let s = if all.len() > 30 {
        all.take(30)
    } else {
        all
    };
    if s.len() == 0 {
        "entry"@
    } else {
        s
    }
}

/// Whether cutting the last five bytes of `s` off lands on a character
/// boundary (the slug of a name needs this: it cuts there to drop ".json").
pub open spec fn suffix_cut_ok(s: Seq<char>) -> bool {
    encode_utf8(s).len() < 5 || is_char_boundary(encode_utf8(s), encode_utf8(s).len() - 5)
}

fn alnum_filter(s: &[char]) -> (r: Vec<char>)
    ensures
        r@ == alnum_only(s@),
{
    let mut r: Vec<char> = Vec::new();
    let mut i: usize = 0;
    assert(s@.take(0) =~= Seq::<char>::empty());
    while i < s.len()
        invariant
            i <= s@.len(),
            r@ == alnum_only(s@.take(i as int)),
        decreases s@.len() - i,
    {
        assert(s@.take(i + 1).drop_last() =~= s@.take(i as int));
        if is_alnum(s[i]) {
            r.push(s[i]);
        }
        i += 1;
    }
    assert(s@.take(s@.len() as int) =~= s@);
    r
}

/// Alphanumeric slug of a config file name, max 30 chars, fallback "entry".
pub fn slug(file_name: &str) -> (r: String)
    requires
        suffix_cut_ok(file_name@),
    ensures
        r@ == slug_of(file_name@),
{
    let v = chars_of(file_name);
    let n = v.len();
    let stem = if n >= 5 {
        let tail = slice_range(&v, n - 5, n);
        let json = chars_of(".json");
        assert(tail@ =~= v@.skip(n - 5));
        if eq_ignore_case(&tail, &json) {
            slice_range(&v, 0, n - 5)
        } else {
            v
        }
    } else {
        v
    };
    assert(stem@ =~= json_stem(file_name@));
    let all = alnum_filter(&stem);
    let take = if all.len() > 30 {
        30
    } else {
        all.len()
    };
    let s = slice_range(&all, 0, take);
    assert(s@ =~= (if all@.len() > 30 {
        all@.take(30)
    } else {
        all@
    }));
    if s.len() == 0 {
        String::from_str("entry")
    } else {
        string_of(&s)
    }
}

// ------------------------------------------------------------------ CLSID

/// Name for what `md5::compute` returns: the MD5 digest of the bytes.
pub uninterp spec fn md5_digest(data: Seq<u8>) -> Seq<u8>;

/// `md5::compute`: the 16-byte MD5 digest of `data`.
#[verifier::external_body]
fn md5_compute(data: &[u8]) -> (d: [u8; 16])
    ensures
        d@ == md5_digest(data@),
{
    md5::compute(data).0
}

/// Uppercase hexadecimal digit of a value below 16.
pub open spec fn hex_digit(v: int) -> char {
    if v < 10 {
        ('0' as int + v) as char
    } else {
        ('A' as int + v - 10) as char
    }
}

/// Two uppercase hex digits of a byte.
pub open spec fn hex2(b: u8) -> Seq<char> {
    seq![hex_digit(b as int / 16), hex_digit(b as int % 16)]
}

/// A 16-byte digest as a GUID in .NET `Guid(byte[])` form: the first three
/// fields little-endian, "D" format, uppercase.
pub open spec fn guid_text(d: Seq<u8>) -> Seq<char> {
    hex2(d[3]) + hex2(d[2]) + hex2(d[1]) + hex2(d[0]) + seq!['-'] + hex2(d[5]) + hex2(d[4])
        + seq!['-'] + hex2(d[7]) + hex2(d[6]) + seq!['-'] + hex2(d[8]) + hex2(d[9]) + seq!['-']
        + hex2(d[10]) + hex2(d[11]) + hex2(d[12]) + hex2(d[13]) + hex2(d[14]) + hex2(d[15])
}

/// The CLSID of a config file name: MD5 of the UTF-8 bytes of its
/// lowercase form, as a GUID.
pub open spec fn clsid_of(name: Seq<char>) -> Seq<char> {
    guid_text(md5_digest(encode_utf8(lowercase_of(name))))
}

fn hex_char(v: u8) -> (c: char)
    requires
        v < 16,
    ensures
        c == hex_digit(v as int),
{
    if v < 10 {
        (48u8 + v) as char
    } else {
        (65u8 + v - 10) as char
    }
}

pub(crate) fn push_hex_pair(s: &mut String, b: u8)
    ensures
        final(s)@ == old(s)@ + hex2(b),
{
    push_char(s, hex_char(b / 16));
    push_char(s, hex_char(b % 16));
    assert(s@ =~= old(s)@ + hex2(b));
}

/// Deterministic CLSID for a config file name: MD5 of the lowercased name,
/// interpreted with .NET `Guid(byte[])` semantics (first three fields
/// little-endian), formatted "D" uppercase.
pub fn deterministic_clsid(file_name: &str) -> (r: String)
    ensures
        r@ == clsid_of(file_name@),
{
    let lower = to_lowercase(file_name);
    let d = md5_compute(lower.as_str().as_bytes());
    let ghost dv = d@;
    let mut r = String::new();
    push_hex_pair(&mut r, d[3]);
    push_hex_pair(&mut r, d[2]);
    push_hex_pair(&mut r, d[1]);
    push_hex_pair(&mut r, d[0]);
    push_char(&mut r, '-');
    push_hex_pair(&mut r, d[5]);
    push_hex_pair(&mut r, d[4]);
    push_char(&mut r, '-');
    push_hex_pair(&mut r, d[7]);
    push_hex_pair(&mut r, d[6]);
    push_char(&mut r, '-');
    push_hex_pair(&mut r, d[8]);
    push_hex_pair(&mut r, d[9]);
    push_char(&mut r, '-');
    push_hex_pair(&mut r, d[10]);
    push_hex_pair(&mut r, d[11]);
    push_hex_pair(&mut r, d[12]);
    push_hex_pair(&mut r, d[13]);
    push_hex_pair(&mut r, d[14]);
    push_hex_pair(&mut r, d[15]);
    assert(r@ =~= guid_text(dv));
    r
}

// ------------------------------------------------------------------ icons

pub open spec fn generated_icon_name_of(slug: Seq<char>, dark: bool) -> Seq<char> {
    slug + (if dark {
        ".dark"@
    } else {
        Seq::<char>::empty()
    }) + ".ico"@
}

/// File name of a generated (copied / shield-badged) icon for a config slug.
pub fn generated_icon_name(slug: &str, dark: bool) -> (r: String)
    ensures
        r@ == generated_icon_name_of(slug@, dark),
{
    proof {
        reveal_strlit("");
    }
    let mut r = String::from_str(slug);
    if dark {
        r.append(".dark");
    } else {
        r.append("");
    }
    r.append(".ico");
    r
}

/// Path and index of an icon resource spec (`C:\x.exe,0`, `"C:\a b.exe",-3`,
/// `C:\x.ico`).
pub open spec fn icon_spec_of(spec: Seq<char>) -> (Seq<char>, i32) {
    let s = trim_ws(spec);
    let rest = s.drop_first();
    let quoted = s.len() > 0 && s[0] == '"' && find_char(rest, '"') is Some;
    if quoted {
        let end = find_char(rest, '"').unwrap();
        let tail = trim_start(trim_start(rest.skip(end + 1), CharClass::Whitespace), CharClass::Comma);
        (
            rest.take(end),
            match parse_i32(trim_ws(tail)) {
                Some(n) => n,
                None => 0,
            },
        )
    } else {
        match rfind_char(s, ',') {
            Some(i) => match parse_i32(trim_ws(s.skip(i + 1))) {
                Some(n) => (trim(trim_ws(s.take(i)), CharClass::Quote), n),
                None => (trim(s, CharClass::Quote), 0),
            },
            None => (trim(s, CharClass::Quote), 0),
        }
    }
}

/// Split an icon resource spec (`C:\x.exe,0`, `"C:\a b.exe",-3`, `C:\x.ico`)
/// into path + icon index.
pub fn parse_icon_spec(spec: &str) -> (r: (String, i32))
    ensures
        r.0@ == icon_spec_of(spec@).0,
        r.1 == icon_spec_of(spec@).1,
{
    let raw = chars_of(spec);
    let s = trimmed(&raw, CharClass::Whitespace);
    if s.len() > 0 && s[0] == '"' {
        let rest = slice_range(&s, 1, s.len());
        assert(rest@ =~= s@.drop_first());
        match find_char_exec(&rest, '"') {
            Some(end) => {
                proof {
                    lemma_find_char_bounds(rest@, '"');
                }
                let after = skip_class(&rest, end + 1, CharClass::Whitespace);
                let after2 = skip_class(&rest, after, CharClass::Comma);
                let tail = slice_range(&rest, after2, rest.len());
                assert(rest@.skip(after as int) =~= rest@.skip(end + 1).skip(after - end - 1))
                    by {
                    assert(trim_start(rest@.skip(end + 1), CharClass::Whitespace) == rest@.skip(
                        after as int,
                    ));
                }
                assert(tail@ =~= rest@.skip(after2 as int));
                let t = trimmed(&tail, CharClass::Whitespace);
                let n = match parse_i32_exec(&t) {
                    Some(n) => n,
                    None => 0,
                };
                return (string_of(&slice_range(&rest, 0, end)), n);
            },
            None => {},
        }
    }
    match rfind_char_exec(&s, ',') {
        Some(i) => {
            proof {
                lemma_rfind_char_bounds(s@, ',');
            }
            let after = slice_range(&s, i + 1, s.len());
            assert(after@ =~= s@.skip(i + 1));
            let t = trimmed(&after, CharClass::Whitespace);
            match parse_i32_exec(&t) {
                Some(n) => {
                    let before = slice_range(&s, 0, i);
                    assert(before@ =~= s@.take(i as int));
                    let p1 = trimmed(&before, CharClass::Whitespace);
                    let p2 = trimmed(&p1, CharClass::Quote);
                    (string_of(&p2), n)
                },
                None => (string_of(&trimmed(&s, CharClass::Quote)), 0),
            }
        },
        None => (string_of(&trimmed(&s, CharClass::Quote)), 0),
    }
}

// ------------------------------------------------------------------ XML

/// XML escape of one character.
pub open spec fn xml_escape_char(c: char) -> Seq<char> {
    if c == '&' {
        "&amp;"@
    } else if c == '<' {
        "&lt;"@
    } else if c == '>' {
        "&gt;"@
    } else if c == '"' {
        "&quot;"@
    } else if c == '\'' {
        "&apos;"@
    } else {
        seq![c]
    }
}

/// Every `&`, `<`, `>`, `"` and `'` replaced by its entity.
pub open spec fn xml_escape_of(s: Seq<char>) -> Seq<char>
    decreases s.len(),
{
    if s.len() == 0 {
        s
    } else {
        xml_escape_of(s.drop_last()) + xml_escape_char(s.last())
    }
}

/// Escapes text for use in XML attribute values and element content.
pub fn xml_escape(s: &str) -> (r: String)
    ensures
        r@ == xml_escape_of(s@),
{
    let v = chars_of(s);
    let mut r = String::new();
    let mut i: usize = 0;
    assert(v@.take(0) =~= Seq::<char>::empty());
    while i < v.len()
        invariant
            i <= v@.len(),
            v@ == s@,
            r@ == xml_escape_of(v@.take(i as int)),
        decreases v@.len() - i,
    {
        assert(v@.take(i + 1).drop_last() =~= v@.take(i as int));
        let c = v[i];
        if c == '&' {
            r.append("&amp;");
        } else if c == '<' {
            r.append("&lt;");
        } else if c == '>' {
            r.append("&gt;");
        } else if c == '"' {
            r.append("&quot;");
        } else if c == '\'' {
            r.append("&apos;");
        } else {
            push_char(&mut r, c);
        }
        i += 1;
    }
    assert(v@.take(v@.len() as int) =~= v@);
    r
}

/// One `<ns:ItemType>` line of the manifest.
pub open spec fn item_type_line(ns: Seq<char>, item_type: Seq<char>, clsid: Seq<char>) -> Seq<
    char,
> {
    "            <"@ + ns + ":ItemType Type=\""@ + item_type + "\"><"@ + ns
        + ":Verb Id=\"Cmd\" Clsid=\""@ + clsid + "\"/></"@ + ns + ":ItemType>\r\n"@
}

fn push_item_type(out: &mut String, ns: &str, item_type: &str, clsid: &str)
    ensures
        final(out)@ == old(out)@ + item_type_line(ns@, item_type@, clsid@),
{
    out.append("            <");
    out.append(ns);
    out.append(":ItemType Type=\"");
    out.append(item_type);
    out.append("\"><");
    out.append(ns);
    out.append(":Verb Id=\"Cmd\" Clsid=\"");
    out.append(clsid);
    out.append("\"/></");
    out.append(ns);
    out.append(":ItemType>\r\n");
    assert(out@ =~= old(out)@ + item_type_line(ns@, item_type@, clsid@));
}

/// The `<desktop*:ItemType>` lines for the effective flags: folders,
/// backgrounds (folder or desktop), files, drives.
pub open spec fn item_types_of(dir_flag: u32, file_flag: u32, clsid: Seq<char>) -> Seq<char> {
    (if dir_flag & 1 != 0 {
        item_type_line("desktop5"@, "Directory"@, clsid)
    } else {
        Seq::<char>::empty()
    }) + (if dir_flag & (2u32 | 4u32) != 0 {
        item_type_line("desktop5"@, "Directory\\Background"@, clsid)
    } else {
        Seq::<char>::empty()
    }) + (if file_flag > 0 {
        item_type_line("desktop5"@, "*"@, clsid)
    } else {
        Seq::<char>::empty()
    }) + (if dir_flag & 8 != 0 {
        item_type_line("desktop10"@, "Drive"@, clsid)
    } else {
        Seq::<char>::empty()
    })
}

/// The `<desktop*:ItemType>` block for a config's effective flags.
/// Empty result = the config matches nothing and should be skipped.
pub fn item_types_xml(dir_flag: u32, file_flag: u32, clsid: &str) -> (r: String)
    ensures
        r@ == item_types_of(dir_flag, file_flag, clsid@),
{
    let mut out = String::new();
    if dir_flag & 1 != 0 {
        push_item_type(&mut out, "desktop5", "Directory", clsid);
    }
    if dir_flag & (2 | 4) != 0 {
        push_item_type(&mut out, "desktop5", "Directory\\Background", clsid);
    }
    if file_flag > 0 {
        push_item_type(&mut out, "desktop5", "*", clsid);
    }
    if dir_flag & 8 != 0 {
        push_item_type(&mut out, "desktop10", "Drive", clsid);
    }
    assert(out@ =~= item_types_of(dir_flag, file_flag, clsid@));
    out
}

pub const MANIFEST_1: &'static str = "<?xml version=\"1.0\" encoding=\"utf-8\"?>\n<Package\n  xmlns=\"http://schemas.microsoft.com/appx/manifest/foundation/windows10\"\n  xmlns:uap=\"http://schemas.microsoft.com/appx/manifest/uap/windows10\"\n  xmlns:desktop4=\"http://schemas.microsoft.com/appx/manifest/desktop/windows10/4\"\n  xmlns:desktop5=\"http://schemas.microsoft.com/appx/manifest/desktop/windows10/5\"\n  xmlns:desktop10=\"http://schemas.microsoft.com/appx/manifest/desktop/windows10/10\"\n  xmlns:com=\"http://schemas.microsoft.com/appx/manifest/com/windows10\"\n  xmlns:rescap=\"http://schemas.microsoft.com/appx/manifest/foundation/windows10/restrictedcapabilities\"\n  IgnorableNamespaces=\"uap desktop4 desktop5 desktop10 com rescap\">\n  <Identity Name=\"";

pub const MANIFEST_2: &'static str = "\" Publisher=\"CN=ContextMenuRs\" Version=\"1.0.0.0\" ProcessorArchitecture=\"x64\" />\n  <Properties>\n    <DisplayName>";

pub const MANIFEST_3: &'static str = "</DisplayName>\n    <PublisherDisplayName>windows11-context-rs</PublisherDisplayName>\n    <Logo>Assets\\logo.png</Logo>\n  </Properties>\n  <Dependencies>\n    <TargetDeviceFamily Name=\"Windows.Desktop\" MinVersion=\"10.0.22000.0\" MaxVersionTested=\"10.0.26100.0\" />\n  </Dependencies>\n  <Resources>\n    <Resource Language=\"en-us\" />\n  </Resources>\n  <Applications>\n    <Application Id=\"App\" Executable=\"cmrsRun.exe\" EntryPoint=\"Windows.FullTrustApplication\">\n      <uap:VisualElements\n        DisplayName=\"";

pub const MANIFEST_4: &'static str = "\"\n        Description=\"Custom context menu entry\"\n        BackgroundColor=\"transparent\"\n        Square150x150Logo=\"Assets\\logo.png\"\n        Square44x44Logo=\"Assets\\logo.png\"\n        AppListEntry=\"none\" />\n      <Extensions>\n        <desktop4:Extension Category=\"windows.fileExplorerContextMenus\">\n          <desktop4:FileExplorerContextMenus>\n";

pub const MANIFEST_5: &'static str = "          </desktop4:FileExplorerContextMenus>\n        </desktop4:Extension>\n        <com:Extension Category=\"windows.comServer\">\n          <com:ComServer>\n            <com:SurrogateServer DisplayName=\"";

pub const MANIFEST_6: &'static str = "\">\n              <com:Class Id=\"";

pub const MANIFEST_7: &'static str = "\" Path=\"cmrs.dll\" ThreadingModel=\"STA\" />\n            </com:SurrogateServer>\n          </com:ComServer>\n        </com:Extension>\n      </Extensions>\n    </Application>\n  </Applications>\n  <Capabilities>\n    <rescap:Capability Name=\"runFullTrust\" />\n  </Capabilities>\n</Package>\n";

/// The AppxManifest.xml of one package.
pub open spec fn manifest_of(
    identity: Seq<char>,
    title: Seq<char>,
    clsid: Seq<char>,
    item_types: Seq<char>,
) -> Seq<char> {
    let t = xml_escape_of(title);
    MANIFEST_1@ + identity + MANIFEST_2@ + t + MANIFEST_3@ + t + MANIFEST_4@ + item_types
        + MANIFEST_5@ + t + MANIFEST_6@ + clsid + MANIFEST_7@
}

/// The AppxManifest.xml of the package for one config (title XML-escaped).
pub fn manifest_xml(identity: &str, title: &str, clsid: &str, item_types: &str) -> (r: String)
    ensures
        r@ == manifest_of(identity@, title@, clsid@, item_types@),
{
    let t = xml_escape(title);
    let mut r = String::from_str(MANIFEST_1);
    r.append(identity);
    r.append(MANIFEST_2);
    r.append(t.as_str());
    r.append(MANIFEST_3);
    r.append(t.as_str());
    r.append(MANIFEST_4);
    r.append(item_types);
    r.append(MANIFEST_5);
    r.append(t.as_str());
    r.append(MANIFEST_6);
    r.append(clsid);
    r.append(MANIFEST_7);
    r
}


// ------------------------------------------------------------------ classic menu

/// HKCU-relative parent of classic-menu verbs on folders.
pub const ROOT_DIRECTORY: &'static str = "Software\\Classes\\Directory\\shell";

/// HKCU-relative parent of classic-menu verbs on folder backgrounds.
pub const ROOT_BACKGROUND: &'static str = "Software\\Classes\\Directory\\Background\\shell";

/// HKCU-relative parent of classic-menu verbs on drives.
pub const ROOT_DRIVE: &'static str = "Software\\Classes\\Drive\\shell";

/// HKCU-relative parent of classic-menu verbs on all files.
pub const ROOT_ALL_FILES: &'static str = "Software\\Classes\\*\\shell";

/// Per-extension verbs live under `<this>\<.ext>\shell`.
pub const FILE_ASSOC_ROOT: &'static str = "Software\\Classes\\SystemFileAssociations";

/// Explorer's placeholder for a folder-like target.
pub const ARG_FOLDER: &'static str = "%V";

/// Explorer's placeholder for a file target.
pub const ARG_FILE: &'static str = "%1";

/// Where one classic-menu verb is registered.
#[derive(Debug, Clone, PartialEq, Eq)]
pub struct ClassicTarget {
    /// HKCU-relative key the verb is created under.
    pub root: String,
    /// Explorer's path placeholder for this kind of target.
    pub arg: &'static str,
    pub title: String,
}

impl View for ClassicTarget {
    type V = (Seq<char>, Seq<char>, Seq<char>);

    open spec fn view(&self) -> (Seq<char>, Seq<char>, Seq<char>) {
        (self.root@, self.arg@, self.title@)
    }
}

pub open spec fn target_views(v: Seq<ClassicTarget>) -> Seq<(Seq<char>, Seq<char>, Seq<char>)> {
    v.map_values(|t: ClassicTarget| t@)
}

/// Whether an extension can carry its own verbs: a dot and at least one more
/// character, no path separators.
pub open spec fn valid_ext(ext: Seq<char>) -> bool {
    ext.len() > 1 && ext[0] == '.' && !ext.contains('\\') && !ext.contains('/')
}

pub open spec fn ext_shell_root_of(ext: Seq<char>) -> Seq<char> {
    FILE_ASSOC_ROOT@ + seq!['\\'] + ext + "\\shell"@
}

/// Registry parent of the verbs for one extension, if it is a valid one.
fn ext_shell_root(ext: &str) -> (r: Option<String>)
    ensures
        match r {
            Some(root) => valid_ext(ext@) && root@ == ext_shell_root_of(ext@),
            None => !valid_ext(ext@),
        },
{
    let v = chars_of(ext);
    if v.len() <= 1 || v[0] != '.' {
        return None;
    }
    let mut i: usize = 0;
    while i < v.len()
        invariant
            i <= v@.len(),
            v@ == ext@,
            forall|j: int| 0 <= j < i ==> v@[j] != '\\' && v@[j] != '/',
        decreases v@.len() - i,
    {
        if v[i] == '\\' || v[i] == '/' {
            assert(v@.contains(v@[i as int]));
            return None;
        }
        i += 1;
    }
    let mut r = String::from_str(FILE_ASSOC_ROOT);
    push_char(&mut r, '\\');
    r.append(ext);
    r.append("\\shell");
    Some(r)
}

/// The extensions of every title rule, in rule order.
pub open spec fn rule_exts(rules: Seq<crate::config::TitleRule>) -> Seq<Seq<char>>
    decreases rules.len(),
{
    if rules.len() == 0 {
        Seq::<Seq<char>>::empty()
    } else {
        rule_exts(rules.drop_last()) + ext_list_of(rules.last().accept_exts@)
    }
}

/// Extensions that get their own verbs: per-extension candidates for the
/// config's file mode.
pub open spec fn per_ext_candidates(c: MenuConfig) -> Seq<Seq<char>> {
    let f = file_flag_of(c);
    if f == FILE_NONE {
        Seq::<Seq<char>>::empty()
    } else if f == FILE_EXT_LIST {
        ext_list_of(c.accept_exts@)
    } else {
        rule_exts(c.title_rules@)
    }
}

/// The valid extensions of `exts`, each once, in order of first occurrence.
pub open spec fn unique_valid(exts: Seq<Seq<char>>) -> Seq<Seq<char>>
    decreases exts.len(),
{
    if exts.len() == 0 {
        exts
    } else {
        let r = unique_valid(exts.drop_last());
        if valid_ext(exts.last()) && !r.contains(exts.last()) {
            r.push(exts.last())
        } else {
            r
        }
    }
}

/// Title of the per-extension verb: the first title rule listing the
/// extension, else the entry title.
pub open spec fn ext_title(c: MenuConfig, ext: Seq<char>, title: Seq<char>) -> Seq<char> {
    match rule_index(c.title_rules@, ext) {
        Some(i) => c.title_rules@[i].title@,
        None => title,
    }
}

pub open spec fn ext_targets(c: MenuConfig, exts: Seq<Seq<char>>, title: Seq<char>) -> Seq<
    (Seq<char>, Seq<char>, Seq<char>),
> {
    exts.map_values(|e: Seq<char>| (ext_shell_root_of(e), ARG_FILE@, ext_title(c, e, title)))
}

pub open spec fn folder_targets(dir_flag: u32, title: Seq<char>) -> Seq<
    (Seq<char>, Seq<char>, Seq<char>),
> {
    (if dir_flag & DIR_DIRECTORY != 0 {
        seq![(ROOT_DIRECTORY@, ARG_FOLDER@, title)]
    } else {
        Seq::empty()
    }) + (if dir_flag & DIR_BACKGROUND != 0 {
        seq![(ROOT_BACKGROUND@, ARG_FOLDER@, title)]
    } else {
        Seq::empty()
    }) + (if dir_flag & DIR_DRIVE != 0 {
        seq![(ROOT_DRIVE@, ARG_FOLDER@, title)]
    } else {
        Seq::empty()
    })
}

/// Every classic-menu verb of a config, in registration order.
pub open spec fn classic_targets_of(c: MenuConfig, title: Seq<char>) -> Seq<
    (Seq<char>, Seq<char>, Seq<char>),
> {
    if !c.classic_menu {
        Seq::empty()
    } else {
        let f = file_flag_of(c);
        folder_targets(dir_flag_of(c), title) + (if f != FILE_NONE && f != FILE_EXT_LIST {
            seq![(ROOT_ALL_FILES@, ARG_FILE@, title)]
        } else {
            Seq::empty()
        }) + ext_targets(c, unique_valid(per_ext_candidates(c)), title)
    }
}

fn push_target(targets: &mut Vec<ClassicTarget>, root: &str, arg: &'static str, title: &str)
    ensures
        target_views(final(targets)@) == target_views(old(targets)@).push((root@, arg@, title@)),
{
    targets.push(ClassicTarget { root: String::from_str(root), arg, title: String::from_str(title) });
    assert(target_views(targets@) =~= target_views(old(targets)@).push((root@, arg@, title@)));
}

/// Per-extension candidates of a config, computed.
fn candidates(cfg: &MenuConfig) -> (r: Vec<String>)
    ensures
        string_views(r@) == per_ext_candidates(*cfg),
{
    let f = cfg.file_flag();
    if f == FILE_NONE {
        let r: Vec<String> = Vec::new();
        assert(string_views(r@) =~= Seq::<Seq<char>>::empty());
        r
    } else if f == FILE_EXT_LIST {
        ext_list(cfg.accept_exts.as_str())
    } else {
        let ghost rules = cfg.title_rules@;
        let mut r: Vec<String> = Vec::new();
        let mut i: usize = 0;
        assert(rules.take(0) =~= Seq::<crate::config::TitleRule>::empty());
        assert(string_views(r@) =~= Seq::<Seq<char>>::empty());
        while i < cfg.title_rules.len()
            invariant
                i <= rules.len(),
                rules == cfg.title_rules@,
                string_views(r@) == rule_exts(rules.take(i as int)),
            decreases rules.len() - i,
        {
            let list = ext_list(cfg.title_rules[i].accept_exts.as_str());
            let ghost before = r@;
            let mut j: usize = 0;
            while j < list.len()
                invariant
                    j <= list@.len(),
                    string_views(r@) == string_views(before) + string_views(list@).take(j as int),
                decreases list@.len() - j,
            {
                let item = String::from_str(list[j].as_str());
                assert(string_views(list@).take(j + 1) =~= string_views(list@).take(j as int).push(
                    list@[j as int]@,
                ));
                let ghost mid = r@;
                r.push(item);
                assert(string_views(r@) =~= string_views(mid).push(item@));
                assert(string_views(r@) =~= string_views(before) + string_views(list@).take(
                    j + 1,
                ));
                j += 1;
            }
            assert(string_views(list@).take(list@.len() as int) =~= string_views(list@));
            assert(rules.take(i + 1).drop_last() =~= rules.take(i as int));
            i += 1;
        }
        assert(rules.take(rules.len() as int) =~= rules);
        r
    }
}

/// Where a config's classic-menu verbs go. Explorer shows a same-named
/// per-extension verb instead of the `*` one, so title rules override per type.
pub fn classic_targets(cfg: &MenuConfig, title: &str) -> (r: Vec<ClassicTarget>)
    ensures
        target_views(r@) == classic_targets_of(*cfg, title@),
{
    let mut targets: Vec<ClassicTarget> = Vec::new();
    if !cfg.classic_menu {
        assert(target_views(targets@) =~= Seq::<(Seq<char>, Seq<char>, Seq<char>)>::empty());
        return targets;
    }
    let dir_flag = cfg.dir_flag();
    if dir_flag & DIR_DIRECTORY != 0 {
        push_target(&mut targets, ROOT_DIRECTORY, ARG_FOLDER, title);
    }
    if dir_flag & DIR_BACKGROUND != 0 {
        push_target(&mut targets, ROOT_BACKGROUND, ARG_FOLDER, title);
    }
    if dir_flag & DIR_DRIVE != 0 {
        push_target(&mut targets, ROOT_DRIVE, ARG_FOLDER, title);
    }
    assert(target_views(targets@) =~= folder_targets(dir_flag, title@));
    let f = cfg.file_flag();
    if f != FILE_NONE && f != FILE_EXT_LIST {
        push_target(&mut targets, ROOT_ALL_FILES, ARG_FILE, title);
    }
    let ghost head = target_views(targets@);
    let per_ext = candidates(cfg);
    let ghost exts = string_views(per_ext@);
    let mut seen = StringHashSet::new();
    let ghost mut order: Seq<Seq<char>> = Seq::empty();
    let mut i: usize = 0;
    assert(exts.take(0) =~= Seq::<Seq<char>>::empty());
    assert(order =~= unique_valid(exts.take(0)));
    assert(seen@ =~= order.to_set());
    assert(target_views(targets@) =~= head + ext_targets(*cfg, unique_valid(exts.take(0)), title@));
    while i < per_ext.len()
        invariant
            i <= per_ext@.len(),
            exts == string_views(per_ext@),
            order == unique_valid(exts.take(i as int)),
            seen@ == order.to_set(),
            target_views(targets@) == head + ext_targets(*cfg, order, title@),
        decreases per_ext@.len() - i,
    {
        let ext = per_ext[i].as_str();
        assert(exts.take(i + 1).drop_last() =~= exts.take(i as int));
        assert(exts.take(i + 1).last() == ext@);
        match ext_shell_root(ext) {
            None => {},
            Some(root) => {
                let ghost before = order;
                if seen.insert(String::from_str(ext)) {
                    assert(!before.contains(ext@));
                    proof {
                        order = before.push(ext@);
                        assert forall|x: Seq<char>| #[trigger] order.contains(x) <==> (before.contains(x)
                            || x == ext@) by {
                            if order.contains(x) {
                                let k = choose|k: int| 0 <= k < order.len() && order[k] == x;
                                if k < before.len() {
                                    assert(before[k] == x);
                                }
                            }
                            if before.contains(x) {
                                let k = choose|k: int| 0 <= k < before.len() && before[k] == x;
                                assert(order[k] == x);
                            }
                            if x == ext@ {
                                assert(order[before.len() as int] == x);
                            }
                        }
                        assert(seen@ =~= order.to_set());
                    }
                    let ext_title_str: &str = match cfg.rule_for_ext(ext) {
                        Some(rule) => rule.title.as_str(),
                        None => title,
                    };
                    push_target(&mut targets, root.as_str(), ARG_FILE, ext_title_str);
                    assert(ext_targets(*cfg, order, title@) =~= ext_targets(*cfg, before, title@).push(
                        (ext_shell_root_of(ext@), ARG_FILE@, ext_title(*cfg, ext@, title@)),
                    ));
                    assert(target_views(targets@) =~= head + ext_targets(*cfg, order, title@));
                } else {
                    assert(before.to_set().contains(ext@));
                    assert(before.contains(ext@));
                    assert(seen@ =~= order.to_set());
                }
            },
        }
        i += 1;
    }
    assert(exts.take(per_ext@.len() as int) =~= exts);
    targets
}


// ------------------------------------------------------------------ laws

/// An uppercase hexadecimal digit.
pub open spec fn is_upper_hex(c: char) -> bool {
    ('0' <= c && c <= '9') || ('A' <= c && c <= 'F')
}

/// A config's CLSID does not depend on the letter case of its file name:
/// names with the same lowercase form get the same CLSID.
pub proof fn clsid_ignores_case(a: Seq<char>, b: Seq<char>)
    requires
        lowercase_of(a) == lowercase_of(b),
    ensures
        clsid_of(a) == clsid_of(b),
{
}

proof fn lemma_hex2(b: u8)
    ensures
        hex2(b).len() == 2,
        is_upper_hex(hex2(b)[0]),
        is_upper_hex(hex2(b)[1]),
{
    assert(0 <= b as int / 16 < 16);
    assert(0 <= b as int % 16 < 16);
}

/// Every CLSID is in registry form: 36 characters, hyphens at positions 8,
/// 13, 18 and 23, uppercase hexadecimal digits everywhere else.
pub proof fn clsid_shape(name: Seq<char>)
    ensures
        clsid_of(name).len() == 36,
        forall|i: int|
            0 <= i < 36 ==> if i == 8 || i == 13 || i == 18 || i == 23 {
                #[trigger] clsid_of(name)[i] == '-'
            } else {
                is_upper_hex(clsid_of(name)[i])
            },
{
    let d = md5_digest(encode_utf8(lowercase_of(name)));
    assert forall|j: int| 0 <= j < 16 implies #[trigger] hex2(d[j]).len() == 2 && is_upper_hex(
        hex2(d[j])[0],
    ) && is_upper_hex(hex2(d[j])[1]) by {
        lemma_hex2(d[j]);
    }
    assert(hex2(d[0]).len() == 2);
    assert(hex2(d[1]).len() == 2);
    assert(hex2(d[2]).len() == 2);
    assert(hex2(d[3]).len() == 2);
    assert(hex2(d[4]).len() == 2);
    assert(hex2(d[5]).len() == 2);
    assert(hex2(d[6]).len() == 2);
    assert(hex2(d[7]).len() == 2);
    assert(hex2(d[8]).len() == 2);
    assert(hex2(d[9]).len() == 2);
    assert(hex2(d[10]).len() == 2);
    assert(hex2(d[11]).len() == 2);
    assert(hex2(d[12]).len() == 2);
    assert(hex2(d[13]).len() == 2);
    assert(hex2(d[14]).len() == 2);
    assert(hex2(d[15]).len() == 2);
    let g = guid_text(d);
    assert(g == clsid_of(name));
    assert forall|i: int|
        0 <= i < 36 implies if i == 8 || i == 13 || i == 18 || i == 23 {
        #[trigger] g[i] == '-'
    } else {
        is_upper_hex(g[i])
    } by {
        let pair = if i < 8 {
            3 - i / 2
        } else if i < 13 {
            if i < 10 {
                5
            } else {
                4
            }
        } else if i < 18 {
            if i < 15 {
                7
            } else {
                6
            }
        } else if i < 23 {
            if i < 21 {
                8
            } else {
                9
            }
        } else {
            10 + (i - 24) / 2
        };
        if !(i == 8 || i == 13 || i == 18 || i == 23) {
            assert(hex2(d[pair]).len() == 2 && is_upper_hex(hex2(d[pair])[0]) && is_upper_hex(
                hex2(d[pair])[1],
            ));
        }
    }
}

proof fn lemma_alnum_only(s: Seq<char>)
    ensures
        alnum_only(s).len() <= s.len(),
        forall|i: int| 0 <= i < alnum_only(s).len() ==> is_ascii_alnum(#[trigger] alnum_only(s)[i]),
    decreases s.len(),
{
    if s.len() > 0 {
        lemma_alnum_only(s.drop_last());
    }
}

/// A slug is never empty, has at most 30 characters, and holds only ASCII
/// letters and digits.
pub proof fn slug_shape(name: Seq<char>)
    ensures
        0 < slug_of(name).len() <= 30,
        forall|i: int| 0 <= i < slug_of(name).len() ==> is_ascii_alnum(#[trigger] slug_of(name)[i]),
{
    reveal_strlit("entry");
    lemma_alnum_only(json_stem(name));
}

proof fn lemma_xml_escape_safe(s: Seq<char>)
    ensures
        forall|i: int|
            0 <= i < xml_escape_of(s).len() ==> {
                let c = #[trigger] xml_escape_of(s)[i];
                c != '<' && c != '>' && c != '"' && c != '\''
            },
    decreases s.len(),
{
    reveal_strlit("&amp;");
    reveal_strlit("&lt;");
    reveal_strlit("&gt;");
    reveal_strlit("&quot;");
    reveal_strlit("&apos;");
    if s.len() > 0 {
        lemma_xml_escape_safe(s.drop_last());
        let a = xml_escape_of(s.drop_last());
        let b = xml_escape_char(s.last());
        assert forall|i: int| 0 <= i < (a + b).len() implies {
            let c = #[trigger] (a + b)[i];
            c != '<' && c != '>' && c != '"' && c != '\''
        } by {
            if i >= a.len() {
                assert((a + b)[i] == b[i - a.len()]);
            } else {
                assert((a + b)[i] == a[i]);
            }
        }
    }
}

/// Escaped text holds no `<`, `>`, `"` or `'`, so it cannot end an
/// attribute value or open a tag.
pub proof fn xml_escape_is_safe(s: Seq<char>)
    ensures
        !xml_escape_of(s).contains('<'),
        !xml_escape_of(s).contains('>'),
        !xml_escape_of(s).contains('"'),
        !xml_escape_of(s).contains('\''),
{
    lemma_xml_escape_safe(s);
}

/// Text without any of `&`, `<`, `>`, `"`, `'` is left as it is.
pub proof fn xml_escape_keeps_plain_text(s: Seq<char>)
    requires
        !s.contains('&'),
        !s.contains('<'),
        !s.contains('>'),
        !s.contains('"'),
        !s.contains('\''),
    ensures
        xml_escape_of(s) == s,
    decreases s.len(),
{
    if s.len() > 0 {
        let t = s.drop_last();
        assert(!t.contains('&') && !t.contains('<') && !t.contains('>') && !t.contains('"')
            && !t.contains('\'')) by {
            if t.contains('&') || t.contains('<') || t.contains('>') || t.contains('"') || t.contains(
                '\'',
            ) {
                let k = choose|k: int|
                    0 <= k < t.len() && (t[k] == '&' || t[k] == '<' || t[k] == '>' || t[k] == '"'
                        || t[k] == '\'');
                assert(s[k] == t[k]);
            }
        }
        xml_escape_keeps_plain_text(t);
        assert(s[s.len() - 1] == s.last());
        assert(xml_escape_char(s.last()) == seq![s.last()]);
        assert(t.push(s.last()) =~= s);
    }
}

/// Whether `s` begins with one of the five entities that `xml_escape`
/// writes.
pub open spec fn starts_with_entity(s: Seq<char>) -> bool {
    ||| starts_with(s, "&amp;"@)
    ||| starts_with(s, "&lt;"@)
    ||| starts_with(s, "&gt;"@)
    ||| starts_with(s, "&quot;"@)
    ||| starts_with(s, "&apos;"@)
}

proof fn lemma_xml_escape_front(c: char, t: Seq<char>)
    ensures
        xml_escape_of(seq![c] + t) == xml_escape_char(c) + xml_escape_of(t),
    decreases t.len(),
{
    let s = seq![c] + t;
    assert(s.len() > 0);
    assert(xml_escape_of(s) == xml_escape_of(s.drop_last()) + xml_escape_char(s.last()));
    if t.len() == 0 {
        assert(s.drop_last() =~= Seq::<char>::empty());
        assert(s.last() == c);
        assert(xml_escape_of(s.drop_last()) == Seq::<char>::empty());
        assert(xml_escape_of(t) == t);
        assert(xml_escape_char(c) + xml_escape_of(t) =~= xml_escape_char(c));
        assert(Seq::<char>::empty() + xml_escape_char(c) =~= xml_escape_char(c));
    } else {
        assert(s.drop_last() =~= seq![c] + t.drop_last());
        assert(s.last() == t.last());
        lemma_xml_escape_front(c, t.drop_last());
        assert(xml_escape_of(t) == xml_escape_of(t.drop_last()) + xml_escape_char(t.last()));
        assert(xml_escape_char(c) + xml_escape_of(t.drop_last()) + xml_escape_char(t.last())
            =~= xml_escape_char(c) + (xml_escape_of(t.drop_last()) + xml_escape_char(t.last())));
    }
}

proof fn lemma_prefix_chars(s: Seq<char>, p: Seq<char>)
    requires
        starts_with(s, p),
    ensures
        forall|j: int| 0 <= j < p.len() ==> s[j] == #[trigger] p[j],
{
    assert forall|j: int| 0 <= j < p.len() implies s[j] == #[trigger] p[j] by {
        assert(s.subrange(0, p.len() as int)[j] == s[j]);
    }
}

/// Undoes `xml_escape` by the reverse chain of replacements: `&lt;`, `&gt;`,
/// `&quot;` and `&apos;` first, then `&amp;` last.
pub open spec fn xml_unescape_of(s: Seq<char>) -> Seq<char> {
    replace_all(
        replace_all(
            replace_all(
                replace_all(replace_all(s, "&lt;"@, seq!['<']), "&gt;"@, seq!['>']),
                "&quot;"@,
                seq!['"'],
            ),
            "&apos;"@,
            seq!['\''],
        ),
        "&amp;"@,
        seq!['&'],
    )
}

/// The entity that replacement step `level` of `xml_unescape_of` reads.
spec fn stage_entity(level: int) -> Seq<char> {
    if level == 0 {
        "&lt;"@
    } else if level == 1 {
        "&gt;"@
    } else if level == 2 {
        "&quot;"@
    } else if level == 3 {
        "&apos;"@
    } else {
        "&amp;"@
    }
}

/// The character that replacement step `level` writes.
spec fn stage_char(level: int) -> char {
    if level == 0 {
        '<'
    } else if level == 1 {
        '>'
    } else if level == 2 {
        '"'
    } else if level == 3 {
        '\''
    } else {
        '&'
    }
}

/// Whether `c` is back to itself after the first `level` replacement steps.
spec fn raw_at(c: char, level: int) -> bool {
    ||| c == '<' && level >= 1
    ||| c == '>' && level >= 2
    ||| c == '"' && level >= 3
    ||| c == '\'' && level >= 4
    ||| c == '&' && level >= 5
}

spec fn esc_at(c: char, level: int) -> Seq<char> {
    if raw_at(c, level) {
        seq![c]
    } else {
        xml_escape_char(c)
    }
}

/// Escaped text after the first `level` replacement steps.
spec fn esc_level(s: Seq<char>, level: int) -> Seq<char>
    decreases s.len(),
{
    if s.len() == 0 {
        s
    } else {
        esc_at(s[0], level) + esc_level(s.drop_first(), level)
    }
}

proof fn lemma_esc_level_first(s: Seq<char>)
    ensures
        esc_level(s, 0) == xml_escape_of(s),
    decreases s.len(),
{
    if s.len() > 0 {
        lemma_esc_level_first(s.drop_first());
        lemma_xml_escape_front(s[0], s.drop_first());
        assert(seq![s[0]] + s.drop_first() =~= s);
    }
}

proof fn lemma_esc_level_last(s: Seq<char>)
    ensures
        esc_level(s, 5) == s,
    decreases s.len(),
{
    if s.len() > 0 {
        lemma_esc_level_last(s.drop_first());
        assert(esc_at(s[0], 5) == seq![s[0]]);
        assert(seq![s[0]] + s.drop_first() =~= s);
    }
}

proof fn lemma_replace_passes(x: Seq<char>, rest: Seq<char>, from: Seq<char>, to: Seq<char>)
    requires
        from.len() > 0,
        forall|j: int| 0 <= j < x.len() ==> !#[trigger] starts_with((x + rest).skip(j), from),
    ensures
        replace_all(x + rest, from, to) == x + replace_all(rest, from, to),
    decreases x.len(),
{
    if x.len() > 0 {
        let e = x + rest;
        let y = x.drop_first();
        assert(!starts_with(e.skip(0), from));
        assert(e.skip(0) =~= e);
        assert(e.drop_first() =~= y + rest);
        assert forall|j: int| 0 <= j < y.len() implies !#[trigger] starts_with((y + rest).skip(j), from) by {
            assert((y + rest).skip(j) =~= e.skip(j + 1));
            assert(!starts_with((x + rest).skip(j + 1), from));
        }
        lemma_replace_passes(y, rest, from, to);
        assert(seq![e[0]] + (y + replace_all(rest, from, to)) =~= x + replace_all(rest, from, to));
    } else {
        assert(x + rest =~= rest);
        assert(x + replace_all(rest, from, to) =~= replace_all(rest, from, to));
    }
}

spec fn is_special(c: char) -> bool {
    c == '&' || c == '<' || c == '>' || c == '"' || c == '\''
}

proof fn lemma_token(c: char, level: int)
    requires
        0 <= level < 5,
    ensures
        esc_at(c, level).len() > 0,
        forall|m: int| 1 <= m < esc_at(c, level).len() ==> #[trigger] esc_at(c, level)[m] != '&',
        esc_at(c, level)[0] == '&' ==> is_special(c) && esc_at(c, level) == xml_escape_char(c)
            && xml_escape_char(c).len() >= 4,
{
    reveal_strlit("&amp;");
    reveal_strlit("&lt;");
    reveal_strlit("&gt;");
    reveal_strlit("&quot;");
    reveal_strlit("&apos;");
    if raw_at(c, level) {
        assert(c != '&');
    } else if c == '&' {
        assert(esc_at(c, level) == "&amp;"@);
    } else if c == '<' {
        assert(esc_at(c, level) == "&lt;"@);
    } else if c == '>' {
        assert(esc_at(c, level) == "&gt;"@);
    } else if c == '"' {
        assert(esc_at(c, level) == "&quot;"@);
    } else if c == '\'' {
        assert(esc_at(c, level) == "&apos;"@);
    } else {
        assert(esc_at(c, level) == seq![c]);
    }
}

proof fn lemma_entity_heads(c: char, d: char)
    requires
        is_special(c),
        is_special(d),
        c != d,
    ensures
        xml_escape_char(c).len() >= 4,
        xml_escape_char(d).len() >= 4,
        xml_escape_char(c)[1] != xml_escape_char(d)[1] || xml_escape_char(c)[2] != xml_escape_char(d)[2],
{
    reveal_strlit("&amp;");
    reveal_strlit("&lt;");
    reveal_strlit("&gt;");
    reveal_strlit("&quot;");
    reveal_strlit("&apos;");
    assert("&amp;"@[1] == 'a' && "&amp;"@[2] == 'm');
    assert("&lt;"@[1] == 'l');
    assert("&gt;"@[1] == 'g');
    assert("&quot;"@[1] == 'q');
    assert("&apos;"@[1] == 'a' && "&apos;"@[2] == 'p');
}

proof fn lemma_stage_entity(level: int)
    requires
        0 <= level < 5,
    ensures
        stage_entity(level) == xml_escape_char(stage_char(level)),
        is_special(stage_char(level)),
        stage_entity(level).len() >= 4,
        stage_entity(level)[0] == '&',
{
    reveal_strlit("&amp;");
    reveal_strlit("&lt;");
    reveal_strlit("&gt;");
    reveal_strlit("&quot;");
    reveal_strlit("&apos;");
}

proof fn lemma_stage(s: Seq<char>, level: int)
    requires
        0 <= level < 5,
    ensures
        replace_all(esc_level(s, level), stage_entity(level), seq![stage_char(level)]) == esc_level(
            s,
            level + 1,
        ),
    decreases s.len(),
{
    reveal_strlit("&amp;");
    reveal_strlit("&lt;");
    reveal_strlit("&gt;");
    reveal_strlit("&quot;");
    reveal_strlit("&apos;");
    let from = stage_entity(level);
    let to = seq![stage_char(level)];
    if s.len() > 0 {
        let c = s[0];
        let t = s.drop_first();
        lemma_stage(t, level);
        let x = esc_at(c, level);
        let r = esc_level(t, level);
        let e = x + r;
        assert(esc_level(s, level) == e);
        if c == stage_char(level) {
            assert(x == from);
            assert(e.subrange(0, from.len() as int) =~= from);
            assert(starts_with(e, from));
            assert(e.skip(from.len() as int) =~= r);
            assert(esc_at(c, level + 1) == to);
        } else {
            assert(esc_at(c, level + 1) == x);
            lemma_token(c, level);
            lemma_stage_entity(level);
            assert forall|j: int| 0 <= j < x.len() implies !#[trigger] starts_with(e.skip(j), from) by {
                let f = e.skip(j);
                if starts_with(f, from) {
                    lemma_prefix_chars(f, from);
                    assert(f[0] == from[0]);
                    assert(f[0] == e[j] && e[j] == x[j]);
                    if j == 0 {
                        lemma_entity_heads(c, stage_char(level));
                        assert(f[1] == x[1] && f[2] == x[2]);
                        assert(f[1] == from[1] && f[2] == from[2]);
                    }
                }
            }
            lemma_replace_passes(x, r, from, to);
        }
    } else {
        assert(esc_level(s, level) == s);
        assert(esc_level(s, level + 1) == s);
    }
}

/// Decoding undoes `xml_escape`: replacing `&lt;`, `&gt;`, `&quot;` and
/// `&apos;` and then `&amp;` gives the original text back.
pub proof fn xml_unescape_undoes_escape(s: Seq<char>)
    ensures
        xml_unescape_of(xml_escape_of(s)) == s,
{
    lemma_esc_level_first(s);
    lemma_stage(s, 0);
    lemma_stage(s, 1);
    lemma_stage(s, 2);
    lemma_stage(s, 3);
    lemma_stage(s, 4);
    lemma_esc_level_last(s);
}

/// In escaped text every `&` begins one of the five entities.
pub proof fn xml_escape_ampersands_begin_entities(s: Seq<char>)
    ensures
        forall|i: int|
            0 <= i < xml_escape_of(s).len() && xml_escape_of(s)[i] == '&' ==> starts_with_entity(
                #[trigger] xml_escape_of(s).skip(i),
            ),
    decreases s.len(),
{
    reveal_strlit("&amp;");
    reveal_strlit("&lt;");
    reveal_strlit("&gt;");
    reveal_strlit("&quot;");
    reveal_strlit("&apos;");
    if s.len() > 0 {
        let c = s[0];
        let t = s.drop_first();
        assert(seq![c] + t =~= s);
        lemma_xml_escape_front(c, t);
        xml_escape_ampersands_begin_entities(t);
        let x = xml_escape_char(c);
        let r = xml_escape_of(t);
        let e = x + r;
        assert(e == xml_escape_of(s));
        assert forall|i: int| 0 <= i < e.len() && e[i] == '&' implies starts_with_entity(
            #[trigger] e.skip(i),
        ) by {
            if i < x.len() {
                assert(e[i] == x[i]);
                assert(i == 0);
                assert(e.skip(0) =~= e);
                assert(e.subrange(0, x.len() as int) =~= x);
            } else {
                assert(e.skip(i) =~= r.skip(i - x.len()));
                assert(r[i - x.len()] == e[i]);
            }
        }
    }
}

/// Whether `e` is a safe XML rendering of `text`: it decodes back to `text`,
/// holds none of `<`, `>`, `"`, `'`, and each `&` in it begins an entity.
pub open spec fn renders_text(e: Seq<char>, text: Seq<char>) -> bool {
    &&& xml_unescape_of(e) == text
    &&& !e.contains('<') && !e.contains('>') && !e.contains('"') && !e.contains('\'')
    &&& forall|i: int| 0 <= i < e.len() && e[i] == '&' ==> starts_with_entity(#[trigger] e.skip(i))
}

/// The manifest holds the title only in safe, escaped form: it is the
/// manifest template with the identity, item types and CLSID in their
/// places, and in each of its three title places the same text, which
/// decodes back to the title and cannot end an attribute or open a tag.
pub proof fn manifest_holds_title_escaped(
    identity: Seq<char>,
    title: Seq<char>,
    clsid: Seq<char>,
    item_types: Seq<char>,
)
    ensures
        exists|e: Seq<char>|
            #[trigger] renders_text(e, title) && manifest_of(identity, title, clsid, item_types) == MANIFEST_1@
                + identity + MANIFEST_2@ + e + MANIFEST_3@ + e + MANIFEST_4@ + item_types + MANIFEST_5@ + e
                + MANIFEST_6@ + clsid + MANIFEST_7@,
{
    let e = xml_escape_of(title);
    xml_unescape_undoes_escape(title);
    xml_escape_is_safe(title);
    xml_escape_ampersands_begin_entities(title);
    assert(renders_text(e, title));
}

/// A config gets no package (no item types) exactly when it accepts no
/// folder-like target and no files.
pub proof fn item_types_empty_iff_nothing_accepted(dir_flag: u32, file_flag: u32, clsid: Seq<char>)
    ensures
        item_types_of(dir_flag, file_flag, clsid).len() == 0 <==> (dir_flag & 15u32 == 0 && file_flag
            == 0),
{
    reveal_strlit("            <");
    assert((dir_flag & 15u32 == 0) <==> (dir_flag & 1u32 == 0 && dir_flag & (2u32 | 4u32) == 0
        && dir_flag & 8u32 == 0)) by (bit_vector);
}

/// The light and dark generated icons of a config are different files.
pub proof fn generated_icon_names_differ(slug: Seq<char>)
    ensures
        generated_icon_name_of(slug, true) != generated_icon_name_of(slug, false),
{
    reveal_strlit(".dark");
    reveal_strlit(".ico");
    assert(generated_icon_name_of(slug, true).len() != generated_icon_name_of(slug, false).len());
}

proof fn lemma_unique_valid(exts: Seq<Seq<char>>)
    ensures
        forall|i: int| 0 <= i < unique_valid(exts).len() ==> valid_ext(#[trigger] unique_valid(exts)[i]),
        forall|i: int, j: int|
            0 <= i < j < unique_valid(exts).len() ==> #[trigger] unique_valid(exts)[i]
                != #[trigger] unique_valid(exts)[j],
    decreases exts.len(),
{
    if exts.len() > 0 {
        lemma_unique_valid(exts.drop_last());
        let r = unique_valid(exts.drop_last());
        let x = exts.last();
        if valid_ext(x) && !r.contains(x) {
            let u = r.push(x);
            assert(unique_valid(exts) == u);
            assert forall|i: int| 0 <= i < u.len() implies valid_ext(#[trigger] u[i]) by {
                if i < r.len() {
                    assert(u[i] == r[i]);
                }
            }
            assert forall|i: int, j: int| 0 <= i < j < u.len() implies #[trigger] u[i]
                != #[trigger] u[j] by {
                assert(u[i] == r[i]);
                if j == r.len() {
                    if r[i] == x {
                        assert(r.contains(x));
                    }
                } else {
                    assert(u[j] == r[j]);
                }
            }
        }
    }
}

/// A config registers at most one classic verb per extension, and only for
/// valid extensions: the per-extension verbs come from `unique_valid`,
/// whose extensions are all valid and pairwise distinct.
pub proof fn per_extension_verbs_unique(exts: Seq<Seq<char>>)
    ensures
        forall|i: int| 0 <= i < unique_valid(exts).len() ==> valid_ext(#[trigger] unique_valid(exts)[i]),
        forall|i: int, j: int|
            0 <= i < j < unique_valid(exts).len() ==> #[trigger] unique_valid(exts)[i]
                != #[trigger] unique_valid(exts)[j],
{
    lemma_unique_valid(exts);
}

} // verus!
