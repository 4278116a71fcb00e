//! Menu configuration: the effective flags of one context-menu entry, item
//! matching, and command-line substitution. Numeric flag values and the
//! deprecated accept* booleans keep their meaning, so configs written for
//! ContextMenuForWindows11 continue to work.
use vstd::prelude::*;
use vstd::string::*;
use crate::text::{
    ascii_lower, chars_eq, chars_eq_str, chars_of, contains_exec, contains_seq, eq_ignore_ascii_case,
    eq_ignore_case, is_alnum, is_ascii_alnum, lower_ascii_char, lowercase_of, push_chars,
    slice_range, split_char, split_exec, string_of, to_lowercase, trim, trim_bounds, trim_ws,
    trimmed, views, CharClass, trim_end, rfind_class, rfind_char, skip_class_back,
    rfind_class_exec, rfind_char_exec, skip_class, trim_start, lemma_rfind_class_bounds, lemma_rfind_char_bounds,
    replace_all, replace_chars, push_char, shift, in_class,
};

verus! {

broadcast use vstd::string::group_string_axioms;

// acceptDirectoryFlag bits
pub const DIR_DIRECTORY: u32 = 1;

pub const DIR_BACKGROUND: u32 = 2;

pub const DIR_DESKTOP: u32 = 4;

pub const DIR_DRIVE: u32 = 8;

// acceptFileFlag values
pub const FILE_NONE: u32 = 0;

/// Fuzzy extension match ("contains").
pub const FILE_EXT: u32 = 1;

/// Regex on the file name.
pub const FILE_REGEX: u32 = 2;

/// Exact list, '|' separated.
pub const FILE_EXT_LIST: u32 = 3;

pub const FILE_ALL: u32 = 4;

// acceptMultipleFilesFlag values
pub const MULTI_NONE: u32 = 0;

pub const MULTI_EACH: u32 = 1;

pub const MULTI_JOIN: u32 = 2;

/// Kind of a right-clicked item.
#[derive(Debug, Clone, Copy, PartialEq, Eq, Structural)]
pub enum FileType {
    File,
    Directory,
    Background,
    Desktop,
    Drive,
}

/// Corner of an icon that a badge is composited onto.
#[derive(Debug, Clone, Copy, PartialEq, Eq, Structural)]
pub enum Corner {
    TopLeft,
    TopRight,
    BottomLeft,
    BottomRight,
}

// ------------------------------------------------------------------ readable names

/// Lowercased, separators stripped: "top-left" / "TOP_LEFT" -> "topleft".
/// Only ASCII letters and digits survive, so lowercasing is ASCII lowercasing.
pub open spec fn norm_key(s: Seq<char>) -> Seq<char>
    decreases s.len(),
{
    if s.len() == 0 {
        Seq::<char>::empty()
    } else if is_ascii_alnum(s.last()) {
        norm_key(s.drop_last()).push(ascii_lower(s.last()))
    } else {
        norm_key(s.drop_last())
    }
}

/// See `norm_key`.
pub fn norm_key_exec(s: &str) -> (r: Vec<char>)
    ensures
        r@ == norm_key(s@),
{
    let v = chars_of(s);
    let mut r: Vec<char> = Vec::new();
    let mut i: usize = 0;
    assert(v@.take(0) =~= Seq::<char>::empty());
    while i < v.len()
        invariant
            v@ == s@,
            i <= v@.len(),
            r@ == norm_key(v@.take(i as int)),
        decreases v@.len() - i,
    {
        assert(v@.take(i + 1).drop_last() =~= v@.take(i as int));
        if is_alnum(v[i]) {
            r.push(lower_ascii_char(v[i]));
        }
        i += 1;
    }
    assert(v@.take(v@.len() as int) =~= v@);
    r
}

pub open spec fn corner_of_key(k: Seq<char>) -> Corner {
    if k == "topleft"@ {
        Corner::TopLeft
    } else if k == "topright"@ {
        Corner::TopRight
    } else if k == "bottomleft"@ {
        Corner::BottomLeft
    } else {
        Corner::BottomRight
    }
}

impl Corner {
    /// Tolerant of case and separators: "topLeft", "top-left", "TOP_LEFT", ...
    /// Anything unrecognised is the bottom-right corner.
    pub fn parse(s: &str) -> (r: Corner)
        ensures
            r == corner_of_key(norm_key(s@)),
    {
        let k = norm_key_exec(s);
        if chars_eq_str(&k, "topleft") {
            Corner::TopLeft
        } else if chars_eq_str(&k, "topright") {
            Corner::TopRight
        } else if chars_eq_str(&k, "bottomleft") {
            Corner::BottomLeft
        } else {
            Corner::BottomRight
        }
    }
}

/// Error text for an unrecognised readable flag value. The normalised key
/// holds only ASCII letters and digits, so its debug form is just the key in
/// double quotes.
pub open spec fn unknown_value_message(field: Seq<char>, key: Seq<char>) -> Seq<char> {
    "unknown "@ + field + " value: \""@ + key + "\""@
}

fn unknown_value(field: &str, key: &[char]) -> (r: String)
    ensures
        r@ == unknown_value_message(field@, key@),
{
    let mut r = String::from_str("unknown ");
    r.append(field);
    r.append(" value: \"");
    push_chars(&mut r, key);
    r.append("\"");
    r
}

/// Bits of one readable `acceptDirectoryFlag` name, by normalised key.
pub open spec fn dir_bits_of_key(k: Seq<char>) -> Option<u32> {
    if k == "directory"@ || k == "dir"@ || k == "folder"@ {
        Some(DIR_DIRECTORY)
    } else if k == "background"@ || k == "directorybackground"@ || k == "folderbackground"@ {
        Some(DIR_BACKGROUND)
    } else if k == "desktop"@ {
        Some(DIR_DESKTOP)
    } else if k == "drive"@ {
        Some(DIR_DRIVE)
    } else if k == "all"@ {
        Some(15u32)
    } else if k == "none"@ {
        Some(0u32)
    } else {
        None
    }
}

/// One readable `acceptDirectoryFlag` value ("directory", "folder-background",
/// "all", ...) as its bits.
pub fn dir_bits(s: &str) -> (r: Result<u32, String>)
    ensures
        match r {
            Ok(b) => dir_bits_of_key(norm_key(s@)) == Some(b),
            Err(e) => dir_bits_of_key(norm_key(s@)) is None && e@ == unknown_value_message(
                "acceptDirectoryFlag"@,
                norm_key(s@),
            ),
        },
{
    let k = norm_key_exec(s);
    if chars_eq_str(&k, "directory") || chars_eq_str(&k, "dir") || chars_eq_str(&k, "folder") {
        Ok(DIR_DIRECTORY)
    } else if chars_eq_str(&k, "background") || chars_eq_str(&k, "directorybackground")
        || chars_eq_str(&k, "folderbackground") {
        Ok(DIR_BACKGROUND)
    } else if chars_eq_str(&k, "desktop") {
        Ok(DIR_DESKTOP)
    } else if chars_eq_str(&k, "drive") {
        Ok(DIR_DRIVE)
    } else if chars_eq_str(&k, "all") {
        assert(1u32 | 2u32 | 4u32 | 8u32 == 15u32) by (bit_vector);
        Ok(DIR_DIRECTORY | DIR_BACKGROUND | DIR_DESKTOP | DIR_DRIVE)
    } else if chars_eq_str(&k, "none") {
        Ok(0)
    } else {
        Err(unknown_value("acceptDirectoryFlag", &k))
    }
}

/// Bitwise OR of the bits of every name in `ks`, all of which are known.
pub open spec fn dir_bits_or(ks: Seq<Seq<char>>) -> u32
    decreases ks.len(),
{
    if ks.len() == 0 {
        0
    } else {
        dir_bits_or(ks.drop_last()) | dir_bits_of_key(norm_key(ks.last())).unwrap()
    }
}

pub open spec fn string_views(v: Seq<String>) -> Seq<Seq<char>> {
    v.map_values(|s: String| s@)
}

/// A list of readable `acceptDirectoryFlag` names, combined with OR. The
/// first unknown name is reported.
pub fn dir_flag_from_names(names: &[String]) -> (r: Result<u32, String>)
    ensures
        match r {
            Ok(b) => (forall|i: int|
                0 <= i < names@.len() ==> #[trigger] dir_bits_of_key(norm_key(names@[i]@))
                    is Some) && b == dir_bits_or(string_views(names@)),
            Err(e) => exists|i: int|
                0 <= i < names@.len() && #[trigger] dir_bits_of_key(norm_key(names@[i]@)) is None
                    && (forall|j: int|
                    0 <= j < i ==> #[trigger] dir_bits_of_key(norm_key(names@[j]@)) is Some)
                    && e@ == unknown_value_message("acceptDirectoryFlag"@, norm_key(names@[i]@)),
        },
{
    let mut acc: u32 = 0;
    let mut i: usize = 0;
    while i < names.len()
        invariant
            i <= names@.len(),
            forall|j: int|
                0 <= j < i ==> #[trigger] dir_bits_of_key(norm_key(names@[j]@)) is Some,
            acc == dir_bits_or(string_views(names@).take(i as int)),
        decreases names@.len() - i,
    {
        match dir_bits(names[i].as_str()) {
            Ok(b) => {
                assert(string_views(names@).take(i + 1).drop_last() =~= string_views(
                    names@,
                ).take(i as int));
                acc = acc | b;
                i += 1;
            },
            Err(e) => {
                return Err(e);
            },
        }
    }
    assert(string_views(names@).take(names@.len() as int) =~= string_views(names@));
    Ok(acc)
}

/// `acceptFileFlag` value of a readable name, by normalised key.
pub open spec fn file_flag_of_key(k: Seq<char>) -> Option<u32> {
    if k == "none"@ {
        Some(FILE_NONE)
    } else if k == "extension"@ || k == "ext"@ || k == "exts"@ {
        Some(FILE_EXT)
    } else if k == "regex"@ {
        Some(FILE_REGEX)
    } else if k == "extensionlist"@ || k == "extlist"@ || k == "list"@ {
        Some(FILE_EXT_LIST)
    } else if k == "all"@ {
        Some(FILE_ALL)
    } else {
        None
    }
}

/// A readable `acceptFileFlag` value ("none", "extension", "regex",
/// "extensionList", "all").
pub fn file_flag_from_name(s: &str) -> (r: Result<u32, String>)
    ensures
        match r {
            Ok(f) => file_flag_of_key(norm_key(s@)) == Some(f),
            Err(e) => file_flag_of_key(norm_key(s@)) is None && e@ == unknown_value_message(
                "acceptFileFlag"@,
                norm_key(s@),
            ),
        },
{
    let k = norm_key_exec(s);
    if chars_eq_str(&k, "none") {
        Ok(FILE_NONE)
    } else if chars_eq_str(&k, "extension") || chars_eq_str(&k, "ext") || chars_eq_str(&k, "exts") {
        Ok(FILE_EXT)
    } else if chars_eq_str(&k, "regex") {
        Ok(FILE_REGEX)
    } else if chars_eq_str(&k, "extensionlist") || chars_eq_str(&k, "extlist") || chars_eq_str(
        &k,
        "list",
    ) {
        Ok(FILE_EXT_LIST)
    } else if chars_eq_str(&k, "all") {
        Ok(FILE_ALL)
    } else {
        Err(unknown_value("acceptFileFlag", &k))
    }
}

/// `acceptMultipleFilesFlag` value of a readable name, by normalised key.
pub open spec fn multi_flag_of_key(k: Seq<char>) -> Option<u32> {
    if k == "none"@ {
        Some(MULTI_NONE)
    } else if k == "each"@ {
        Some(MULTI_EACH)
    } else if k == "join"@ {
        Some(MULTI_JOIN)
    } else {
        None
    }
}

/// A readable `acceptMultipleFilesFlag` value ("none", "each", "join").
pub fn multi_flag_from_name(s: &str) -> (r: Result<u32, String>)
    ensures
        match r {
            Ok(f) => multi_flag_of_key(norm_key(s@)) == Some(f),
            Err(e) => multi_flag_of_key(norm_key(s@)) is None && e@ == unknown_value_message(
                "acceptMultipleFilesFlag"@,
                norm_key(s@),
            ),
        },
{
    let k = norm_key_exec(s);
    if chars_eq_str(&k, "none") {
        Ok(MULTI_NONE)
    } else if chars_eq_str(&k, "each") {
        Ok(MULTI_EACH)
    } else if chars_eq_str(&k, "join") {
        Ok(MULTI_JOIN)
    } else {
        Err(unknown_value("acceptMultipleFilesFlag", &k))
    }
}

/// `showWindowFlag` value of a readable name, by normalised key.
pub open spec fn show_window_of_key(k: Seq<char>) -> Option<i32> {
    if k == "hide"@ || k == "hidden"@ {
        Some(-1i32)
    } else if k == "normal"@ || k == "show"@ {
        Some(0i32)
    } else if k == "minimized"@ || k == "min"@ {
        Some(1i32)
    } else if k == "maximized"@ || k == "max"@ {
        Some(2i32)
    } else {
        None
    }
}

/// A readable `showWindowFlag` value ("hide", "normal", "minimized",
/// "maximized" and short forms).
pub fn show_window_from_name(s: &str) -> (r: Result<i32, String>)
    ensures
        match r {
            Ok(f) => show_window_of_key(norm_key(s@)) == Some(f),
            Err(e) => show_window_of_key(norm_key(s@)) is None && e@ == unknown_value_message(
                "showWindowFlag"@,
                norm_key(s@),
            ),
        },
{
    let k = norm_key_exec(s);
    if chars_eq_str(&k, "hide") || chars_eq_str(&k, "hidden") {
        Ok(-1)
    } else if chars_eq_str(&k, "normal") || chars_eq_str(&k, "show") {
        Ok(0)
    } else if chars_eq_str(&k, "minimized") || chars_eq_str(&k, "min") {
        Ok(1)
    } else if chars_eq_str(&k, "maximized") || chars_eq_str(&k, "max") {
        Ok(2)
    } else {
        Err(unknown_value("showWindowFlag", &k))
    }
}


// ------------------------------------------------------------------ the config

/// `smallIcon`: badge composited onto the entry's icon.
#[derive(Debug, Clone)]
pub struct SmallIcon {
    /// Icon spec ("path,index"), "uac" for the system UAC shield, or "exe"
    /// for the entry's own exe.
    pub icon: String,
    /// Corner, default bottomRight.
    pub location: String,
}

impl Default for SmallIcon {
    fn default() -> (r: SmallIcon)
        ensures
            r.icon@.len() == 0,
            r.location@.len() == 0,
    {
        SmallIcon { icon: String::new(), location: String::new() }
    }
}

/// `titleRules` entry: a per-extension title for the classic menu and for a
/// selection whose extensions all fall under the rule.
#[derive(Debug, Clone)]
pub struct TitleRule {
    /// Extensions, '|' separated, with leading dot.
    pub accept_exts: String,
    pub title: String,
}

/// One menu entry, as read from its JSON file (field names there are the
/// camelCase forms).
#[derive(Debug, Clone)]
pub struct MenuConfig {
    pub title: String,
    pub exe: String,
    pub param: String,
    pub icon: String,
    pub icon_dark: String,
    /// Deprecated boolean form of `acceptDirectoryFlag`.
    pub accept_directory: Option<bool>,
    pub accept_directory_flag: Option<u32>,
    /// Deprecated boolean form of `acceptFileFlag`.
    pub accept_file: Option<bool>,
    pub accept_file_flag: Option<u32>,
    pub accept_exts: String,
    pub accept_file_regex: String,
    pub accept_multiple_files_flag: u32,
    pub path_delimiter: String,
    pub param_for_multiple_files: String,
    pub index: i32,
    pub show_window_flag: i32,
    pub working_directory: String,
    /// Run the command elevated (UAC prompt).
    pub run_as_admin: bool,
    /// Snapshot the icon into a local .ico at sync time, so the entry
    /// survives the source path changing (e.g. Store apps on update).
    pub copy_icon: bool,
    /// Corner badge for the entry's icon.
    pub small_icon: Option<SmallIcon>,
    /// Register classic ("Show more options") menu verbs too.
    pub classic_menu: bool,
    /// Per-extension titles.
    pub title_rules: Vec<TitleRule>,
    /// The config file name this entry was loaded from (not part of JSON).
    pub source_file: String,
}

/// The configuration a JSON object with only `title` and `exe` describes:
/// every other field at its documented default.
pub open spec fn is_default_config(c: MenuConfig, title: Seq<char>, exe: Seq<char>) -> bool {
    &&& c.title@ == title
    &&& c.exe@ == exe
    &&& c.param@.len() == 0
    &&& c.icon@.len() == 0
    &&& c.icon_dark@.len() == 0
    &&& c.accept_directory is None
    &&& c.accept_directory_flag is None
    &&& c.accept_file is None
    &&& c.accept_file_flag is None
    &&& c.accept_exts@.len() == 0
    &&& c.accept_file_regex@.len() == 0
    &&& c.accept_multiple_files_flag == MULTI_NONE
    &&& c.path_delimiter@.len() == 0
    &&& c.param_for_multiple_files@.len() == 0
    &&& c.index == 0
    &&& c.show_window_flag == 0
    &&& c.working_directory@.len() == 0
    &&& !c.run_as_admin
    &&& !c.copy_icon
    &&& c.small_icon is None
    &&& c.classic_menu
    &&& c.title_rules@.len() == 0
    &&& c.source_file@.len() == 0
}

/// Name for whether `regex::Regex::new` accepts a pattern.
pub uninterp spec fn regex_compiles(pattern: Seq<char>) -> bool;

/// Name for what `regex::Regex::is_match` answers for a regex compiled from
/// `pattern` on `haystack`.
pub uninterp spec fn regex_is_match(pattern: Seq<char>, haystack: Seq<char>) -> bool;

#[verifier::external_type_specification]
#[verifier::external_body]
pub struct ExRegex(regex::Regex);

#[verifier::external_type_specification]
#[verifier::external_body]
pub struct ExRegexError(regex::Error);

/// A compiled `acceptFileRegex` together with the pattern it was built from.
pub struct FileNameRegex {
    re: regex::Regex,
    pattern: Ghost<Seq<char>>,
}

impl FileNameRegex {
    pub closed spec fn pattern(&self) -> Seq<char> {
        self.pattern@
    }
}

/// `regex::Regex::new`: succeeds exactly for the patterns the crate accepts;
/// the compiled regex remembers its pattern.
#[verifier::external_body]
fn regex_new(pattern: &str) -> (r: Result<FileNameRegex, regex::Error>)
    ensures
        r is Ok <==> regex_compiles(pattern@),
        r matches Ok(re) ==> re.pattern() == pattern@,
{
    match regex::Regex::new(pattern) {
        Ok(re) => Ok(FileNameRegex { re, pattern: Ghost(pattern@) }),
        Err(e) => Err(e),
    }
}

/// `regex::Regex::is_match`: whether the regex matches anywhere in
/// `haystack`.
#[verifier::external_body]
fn regex_match(re: &FileNameRegex, haystack: &str) -> (b: bool)
    ensures
        b == regex_is_match(re.pattern(), haystack@),
{
    re.re.is_match(haystack)
}

/// Effective directory-matching bitmask.
pub open spec fn dir_flag_of(c: MenuConfig) -> u32 {
    match c.accept_directory_flag {
        Some(f) => f & 15,
        None => match c.accept_directory {
            Some(false) => 0,
            _ => 15,
        },
    }
}

/// Effective file-matching mode.
pub open spec fn file_flag_of(c: MenuConfig) -> u32 {
    if c.accept_file == Some(false) {
        FILE_NONE
    } else if c.accept_file_flag is Some {
        let f = c.accept_file_flag.unwrap();
        if f < 4 {
            f
        } else {
            4
        }
    } else if trim_ws(c.accept_exts@).len() != 0 && trim_ws(c.accept_exts@) != "*"@ {
        FILE_EXT
    } else {
        FILE_ALL
    }
}

/// The pieces of a '|' separated extension list after lowercasing, each
/// trimmed (empty pieces kept).
pub open spec fn ext_pieces(exts: Seq<char>) -> Seq<Seq<char>> {
    split_char(lowercase_of(exts), '|').map_values(|p: Seq<char>| trim_ws(p))
}

/// Whether a single item matches the entry.
pub open spec fn accepts_spec(c: MenuConfig, t: FileType, name: Seq<char>, ext: Seq<char>) -> bool {
    match t {
        FileType::Directory => dir_flag_of(c) & DIR_DIRECTORY != 0,
        FileType::Background => dir_flag_of(c) & DIR_BACKGROUND != 0,
        FileType::Desktop => dir_flag_of(c) & DIR_DESKTOP != 0,
        FileType::Drive => dir_flag_of(c) & DIR_DRIVE != 0,
        FileType::File => {
            let f = file_flag_of(c);
            if f == FILE_NONE {
                false
            } else if f == FILE_ALL {
                true
            } else if f == FILE_EXT {
                let exts = lowercase_of(trim_ws(c.accept_exts@));
                exts.len() == 0 || exts == "*"@ || (ext.len() != 0 && contains_seq(exts, ext))
            } else if f == FILE_REGEX {
                regex_compiles(c.accept_file_regex@) && regex_is_match(
                    c.accept_file_regex@,
                    name,
                )
            } else {
                ext_pieces(c.accept_exts@).contains(ext)
            }
        },
    }
}

pub open spec fn badge_spec_of(c: MenuConfig) -> Option<Seq<char>> {
    match c.small_icon {
        Some(si) => if trim_ws(si.icon@).len() == 0 {
            None
        } else {
            Some(trim_ws(si.icon@))
        },
        None => None,
    }
}

pub open spec fn badge_location_of(c: MenuConfig) -> Seq<char> {
    match c.small_icon {
        Some(si) => si.location@,
        None => Seq::<char>::empty(),
    }
}

/// The spec an icon field resolves to: "exe" (any case, surrounding
/// whitespace ignored) stands for the entry's own exe, unquoted.
pub open spec fn resolve_icon_of(c: MenuConfig, spec: Seq<char>) -> Seq<char> {
    if eq_ignore_ascii_case(trim_ws(spec), "exe"@) {
        trim(trim_ws(c.exe@), CharClass::Quote)
    } else {
        spec
    }
}

pub open spec fn delimiter_of(c: MenuConfig) -> Seq<char> {
    if c.path_delimiter@.len() == 0 {
        " "@
    } else {
        c.path_delimiter@
    }
}

/// Whether the piece list holds `ext`.
fn pieces_contain(pieces: &Vec<Vec<char>>, ext: &[char]) -> (b: bool)
    ensures
        b == views(pieces@).map_values(|p: Seq<char>| trim_ws(p)).contains(ext@),
{
    let ghost all = views(pieces@).map_values(|p: Seq<char>| trim_ws(p));
    let mut i: usize = 0;
    while i < pieces.len()
        invariant
            i <= pieces@.len(),
            all == views(pieces@).map_values(|p: Seq<char>| trim_ws(p)),
            forall|j: int| 0 <= j < i ==> all[j] != ext@,
        decreases pieces@.len() - i,
    {
        let t = trimmed(&pieces[i], CharClass::Whitespace);
        if chars_eq(&t, ext) {
            assert(all[i as int] == ext@);
            return true;
        }
        i += 1;
    }
    assert(!all.contains(ext@));
    false
}

impl MenuConfig {
    /// A configuration with the given title and exe and every other field at
    /// its default (`classicMenu` defaults to true).
    pub fn new(title: &str, exe: &str) -> (r: MenuConfig)
        ensures
            is_default_config(r, title@, exe@),
    {
        MenuConfig {
            title: String::from_str(title),
            exe: String::from_str(exe),
            param: String::new(),
            icon: String::new(),
            icon_dark: String::new(),
            accept_directory: None,
            accept_directory_flag: None,
            accept_file: None,
            accept_file_flag: None,
            accept_exts: String::new(),
            accept_file_regex: String::new(),
            accept_multiple_files_flag: MULTI_NONE,
            path_delimiter: String::new(),
            param_for_multiple_files: String::new(),
            index: 0,
            show_window_flag: 0,
            working_directory: String::new(),
            run_as_admin: false,
            copy_icon: false,
            small_icon: None,
            classic_menu: true,
            title_rules: Vec::new(),
            source_file: String::new(),
        }
    }

    /// Effective directory-matching bitmask.
    /// Priority: acceptDirectoryFlag > deprecated acceptDirectory bool > schema default (15).
    pub fn dir_flag(&self) -> (r: u32)
        ensures
            r == dir_flag_of(*self),
            r <= 15,
    {
        if let Some(f) = self.accept_directory_flag {
            assert(f & 15 <= 15) by (bit_vector);
            return f & 15;
        }
        match self.accept_directory {
            Some(true) => 15,
            Some(false) => 0,
            None => 15,
        }
    }

    /// Effective file-matching mode.
    /// Priority: acceptFile==false > acceptFileFlag > acceptExts heuristic > schema default (All).
    pub fn file_flag(&self) -> (r: u32)
        ensures
            r == file_flag_of(*self),
            r <= FILE_ALL,
    {
        if self.accept_file == Some(false) {
            return FILE_NONE;
        }
        if let Some(f) = self.accept_file_flag {
            return if f < 4 {
                f
            } else {
                4
            };
        }
        // Compat heuristic: acceptExts set without a flag means fuzzy ext matching.
        let exts = chars_of(self.accept_exts.as_str());
        let t = trimmed(&exts, CharClass::Whitespace);
        if t.len() != 0 && !chars_eq_str(&t, "*") {
            return FILE_EXT;
        }
        FILE_ALL
    }

    /// Does this entry match a single item of `file_type` with file `name` / `ext`
    /// (ext lowercase, with leading dot, empty for folders or dotfiles)?
    pub fn accepts(&self, file_type: FileType, name: &str, ext: &str) -> (r: bool)
        ensures
            r == accepts_spec(*self, file_type, name@, ext@),
    {
        match file_type {
            FileType::Directory => self.dir_flag() & DIR_DIRECTORY != 0,
            FileType::Background => self.dir_flag() & DIR_BACKGROUND != 0,
            FileType::Desktop => self.dir_flag() & DIR_DESKTOP != 0,
            FileType::Drive => self.dir_flag() & DIR_DRIVE != 0,
            FileType::File => {
                let f = self.file_flag();
                if f == FILE_NONE {
                    false
                } else if f == FILE_ALL {
                    true
                } else if f == FILE_EXT {
                    let raw = chars_of(self.accept_exts.as_str());
                    let t = string_of(&trimmed(&raw, CharClass::Whitespace));
                    let exts = chars_of(to_lowercase(t.as_str()).as_str());
                    let e = chars_of(ext);
                    exts.len() == 0 || chars_eq_str(&exts, "*") || (e.len() != 0 && contains_exec(
                        &exts,
                        &e,
                    ))
                } else if f == FILE_REGEX {
                    match regex_new(self.accept_file_regex.as_str()) {
                        Ok(re) => regex_match(&re, name),
                        Err(_) => false,
                    }
                } else {
                    let lower = chars_of(to_lowercase(self.accept_exts.as_str()).as_str());
                    let pieces = split_exec(&lower, '|');
                    let e = chars_of(ext);
                    pieces_contain(&pieces, &e)
                }
            },
        }
    }

    /// Effective badge icon spec: from `smallIcon`, if set. None = no badge.
    pub fn badge_spec(&self) -> (r: Option<&str>)
        ensures
            match r {
                Some(s) => badge_spec_of(*self) == Some(s@),
                None => badge_spec_of(*self) is None,
            },
    {
        match &self.small_icon {
            Some(si) => {
                let v = chars_of(si.icon.as_str());
                let (a, b) = trim_bounds(&v, CharClass::Whitespace);
                if a == b {
                    None
                } else {
                    Some(si.icon.as_str().substring_char(a, b))
                }
            },
            None => None,
        }
    }

    /// Badge corner from `smallIcon.location` (bottom right when unset).
    pub fn badge_corner(&self) -> (r: Corner)
        ensures
            r == corner_of_key(norm_key(badge_location_of(*self))),
    {
        match &self.small_icon {
            Some(si) => Corner::parse(si.location.as_str()),
            None => {
                proof {
                    reveal_strlit("");
                }
                Corner::parse("")
            },
        }
    }

    /// Resolves the "exe" icon-spec shorthand (this entry's own exe) to the
    /// `exe` field. Any other spec, including empty, passes through unchanged.
    pub fn resolve_icon_spec<'a>(&'a self, spec: &'a str) -> (r: &'a str)
        ensures
            r@ == resolve_icon_of(*self, spec@),
    {
        let sv = chars_of(spec);
        let st = trimmed(&sv, CharClass::Whitespace);
        let exe_word = chars_of("exe");
        if eq_ignore_case(&st, &exe_word) {
            let ev = chars_of(self.exe.as_str());
            let (a, b) = trim_bounds(&ev, CharClass::Whitespace);
            let inner = slice_range(&ev, a, b);
            let (c, d) = trim_bounds(&inner, CharClass::Quote);
            proof {
                assert(inner@.subrange(c as int, d as int) =~= ev@.subrange(a + c, a + d));
            }
            self.exe.as_str().substring_char(a + c, a + d)
        } else {
            spec
        }
    }

    /// Whether the menu icon comes from a generated file in the icons dir
    /// (badged and/or locally copied) instead of the raw `icon` spec.
    pub fn uses_generated_icon(&self) -> (r: bool)
        ensures
            r == (badge_spec_of(*self) is Some || self.copy_icon),
    {
        self.badge_spec().is_some() || self.copy_icon
    }

    /// Multi-selection support (when >1 items are selected).
    pub fn accepts_multiple(&self) -> (r: bool)
        ensures
            r == (self.accept_multiple_files_flag == MULTI_EACH || self.accept_multiple_files_flag
                == MULTI_JOIN),
    {
        self.accept_multiple_files_flag == MULTI_EACH || self.accept_multiple_files_flag
            == MULTI_JOIN
    }

    /// Effective delimiter for JOIN mode (schema default: a space).
    pub fn delimiter(&self) -> (r: &str)
        ensures
            r@ == delimiter_of(*self),
    {
        if self.path_delimiter.as_str().is_empty() {
            " "
        } else {
            self.path_delimiter.as_str()
        }
    }
}

// ------------------------------------------------------------------ paths and substitution

/// Derived path components for substitution variables.
pub struct PathVars {
    pub path: String,
    pub parent: String,
    pub name: String,
    pub name_no_ext: String,
    pub extension: String,
}

/// The abstract value of a `PathVars`.
pub struct PathParts {
    pub path: Seq<char>,
    pub parent: Seq<char>,
    pub name: Seq<char>,
    pub name_no_ext: Seq<char>,
    pub extension: Seq<char>,
}

impl View for PathVars {
    type V = PathParts;

    open spec fn view(&self) -> PathParts {
        PathParts {
            path: self.path@,
            parent: self.parent@,
            name: self.name@,
            name_no_ext: self.name_no_ext@,
            extension: self.extension@,
        }
    }
}

/// Parent and file name of a path: trailing separators ('\' or '/') are
/// dropped, then the path is split at its last separator.
pub open spec fn split_parent_name(p: Seq<char>) -> (Seq<char>, Seq<char>) {
    let t = trim_end(p, CharClass::PathSep);
    match rfind_class(t, CharClass::PathSep) {
        Some(i) => (t.take(i), t.skip(i + 1)),
        None => (Seq::<char>::empty(), t),
    }
}

/// Direct children of a drive root get the root with its backslash as
/// parent: "C:" -> "C:\".
pub open spec fn parent_of(p: Seq<char>) -> Seq<char> {
    let parent = split_parent_name(p).0;
    if parent.len() > 0 && parent.last() == ':' {
        parent.push('\\')
    } else {
        parent
    }
}

/// Name without extension, and extension with its dot. Dotfiles
/// (".gitignore") have no extension.
pub open spec fn stem_and_ext(name: Seq<char>) -> (Seq<char>, Seq<char>) {
    if name.len() > 0 && name[0] == '.' {
        (name, Seq::<char>::empty())
    } else {
        match rfind_char(name, '.') {
            Some(i) => if i > 0 {
                (name.take(i), name.skip(i))
            } else {
                (name, Seq::<char>::empty())
            },
            None => (name, Seq::<char>::empty()),
        }
    }
}

/// The substitution variables of one path.
pub open spec fn path_parts(p: Seq<char>) -> PathParts {
    let name = split_parent_name(p).1;
    PathParts {
        path: p,
        parent: parent_of(p),
        name: name,
        name_no_ext: stem_and_ext(name).0,
        extension: stem_and_ext(name).1,
    }
}

impl PathVars {
    /// Splits a Windows or POSIX style path by hand (not with `std::path`),
    /// so behaviour is identical on every platform.
    pub fn from_path(p: &str) -> (r: PathVars)
        ensures
            r@ == path_parts(p@),
    {
        let v = chars_of(p);
        let end = skip_class_back(&v, v.len(), CharClass::PathSep);
        let t = slice_range(&v, 0, end);
        assert(v@.take(v@.len() as int) =~= v@);
        assert(t@ =~= v@.take(end as int));
        let (parent0, name) = match rfind_class_exec(&t, CharClass::PathSep) {
            Some(i) => {
                proof {
                    lemma_rfind_class_bounds(t@, CharClass::PathSep);
                }
                (slice_range(&t, 0, i), slice_range(&t, i + 1, t.len()))
            },
            None => (Vec::new(), t),
        };
        let ghost split = split_parent_name(p@);
        assert(parent0@ =~= split.0);
        assert(name@ =~= split.1);
        let mut parent = parent0;
        if parent.len() > 0 && parent[parent.len() - 1] == ':' {
            parent.push('\\');
        }
        let (stem, ext) = if name.len() > 0 && name[0] == '.' {
            (slice_range(&name, 0, name.len()), Vec::new())
        } else {
            match rfind_char_exec(&name, '.') {
                Some(i) => {
                    proof {
                        lemma_rfind_char_bounds(name@, '.');
                    }
                    if i > 0 {
                        (slice_range(&name, 0, i), slice_range(&name, i, name.len()))
                    } else {
                        (slice_range(&name, 0, name.len()), Vec::new())
                    }
                },
                None => (slice_range(&name, 0, name.len()), Vec::new()),
            }
        };
        assert(name@.subrange(0, name@.len() as int) =~= name@);
        assert(stem@ =~= stem_and_ext(name@).0);
        assert(ext@ =~= stem_and_ext(name@).1);
        PathVars {
            path: String::from_str(p),
            parent: string_of(&parent),
            name: string_of(&name),
            name_no_ext: string_of(&stem),
            extension: string_of(&ext),
        }
    }

    /// The extension, lowercased.
    pub fn ext_lower(&self) -> (r: String)
        ensures
            r@ == lowercase_of(self.extension@),
    {
        to_lowercase(self.extension.as_str())
    }
}

/// Every `{variable}` of a template replaced: the plain ones from `v`, the
/// `0`-suffixed ones (first selected item) from `f`.
pub open spec fn substitute_spec(t: Seq<char>, v: PathParts, f: PathParts) -> Seq<char> {
    let s1 = replace_all(t, "{path}"@, v.path);
    let s2 = replace_all(s1, "{parent}"@, v.parent);
    let s3 = replace_all(s2, "{nameNoExt}"@, v.name_no_ext);
    let s4 = replace_all(s3, "{name}"@, v.name);
    let s5 = replace_all(s4, "{extension}"@, v.extension);
    let s6 = replace_all(s5, "{path0}"@, f.path);
    let s7 = replace_all(s6, "{nameNoExt0}"@, f.name_no_ext);
    let s8 = replace_all(s7, "{name0}"@, f.name);
    replace_all(s8, "{extension0}"@, f.extension)
}

fn replace_var(s: &Vec<char>, var: &str, value: &String) -> (r: Vec<char>)
    requires
        var@.len() > 0,
    ensures
        r@ == replace_all(s@, var@, value@),
{
    let from = chars_of(var);
    let to = chars_of(value.as_str());
    replace_chars(s, &from, &to)
}

/// Substitute template variables for a single path.
/// `first` supplies {path0}/{name0}/{nameNoExt0}/{extension0} (first selected item).
pub fn substitute(template: &str, vars: &PathVars, first: &PathVars) -> (r: String)
    ensures
        r@ == substitute_spec(template@, vars@, first@),
{
    proof {
        reveal_strlit("{path}");
        reveal_strlit("{parent}");
        reveal_strlit("{nameNoExt}");
        reveal_strlit("{name}");
        reveal_strlit("{extension}");
        reveal_strlit("{path0}");
        reveal_strlit("{nameNoExt0}");
        reveal_strlit("{name0}");
        reveal_strlit("{extension0}");
    }
    let t = chars_of(template);
    let s1 = replace_var(&t, "{path}", &vars.path);
    let s2 = replace_var(&s1, "{parent}", &vars.parent);
    let s3 = replace_var(&s2, "{nameNoExt}", &vars.name_no_ext);
    let s4 = replace_var(&s3, "{name}", &vars.name);
    let s5 = replace_var(&s4, "{extension}", &vars.extension);
    let s6 = replace_var(&s5, "{path0}", &first.path);
    let s7 = replace_var(&s6, "{nameNoExt0}", &first.name_no_ext);
    let s8 = replace_var(&s7, "{name0}", &first.name);
    let s9 = replace_var(&s8, "{extension0}", &first.extension);
    string_of(&s9)
}

/// A path in double quotes.
pub open spec fn quoted(p: Seq<char>) -> Seq<char> {
    seq!['"'] + p + seq!['"']
}

/// Every path quoted, joined with the delimiter.
pub open spec fn join_quoted(ps: Seq<Seq<char>>, d: Seq<char>) -> Seq<char>
    decreases ps.len(),
{
    if ps.len() == 0 {
        Seq::<char>::empty()
    } else if ps.len() == 1 {
        quoted(ps[0])
    } else {
        join_quoted(ps.drop_last(), d) + d + quoted(ps.last())
    }
}

/// JOIN mode: every path quoted, joined with the delimiter, then substituted as {path}.
pub fn join_paths(paths: &[String], delimiter: &str) -> (r: String)
    ensures
        r@ == join_quoted(string_views(paths@), delimiter@),
{
    let ghost ps = string_views(paths@);
    let mut r = String::new();
    let mut i: usize = 0;
    assert(ps.take(0) =~= Seq::<Seq<char>>::empty());
    while i < paths.len()
        invariant
            i <= paths@.len(),
            ps == string_views(paths@),
            r@ == join_quoted(ps.take(i as int), delimiter@),
        decreases paths@.len() - i,
    {
        assert(ps.take(i + 1).drop_last() =~= ps.take(i as int));
        assert(ps.take(i + 1).last() == paths@[i as int]@);
        if i > 0 {
            r.append(delimiter);
        }
        push_char(&mut r, '"');
        r.append(paths[i].as_str());
        push_char(&mut r, '"');
        if i == 0 {
            assert(r@ =~= quoted(paths@[0]@));
        } else {
            assert(r@ =~= join_quoted(ps.take(i as int), delimiter@) + delimiter@ + quoted(
                paths@[i as int]@,
            ));
        }
        i += 1;
    }
    assert(ps.take(paths@.len() as int) =~= ps);
    r
}

/// The parameter string of one invocation.
pub open spec fn build_param_spec(c: MenuConfig, ps: Seq<Seq<char>>) -> Seq<char> {
    if ps.len() == 0 {
        c.param@
    } else {
        let first = path_parts(ps[0]);
        if ps.len() > 1 && c.accept_multiple_files_flag == MULTI_JOIN {
            let template = if c.param_for_multiple_files@.len() == 0 {
                c.param@
            } else {
                c.param_for_multiple_files@
            };
            let joined = PathParts {
                path: join_quoted(ps, delimiter_of(c)),
                parent: first.parent,
                name: first.name,
                name_no_ext: first.name_no_ext,
                extension: first.extension,
            };
            substitute_spec(template, joined, first)
        } else {
            substitute_spec(c.param@, first, first)
        }
    }
}

/// Build the final parameter string for an invocation.
/// For JOIN mode, `paths` has all items; otherwise exactly one.
pub fn build_param(cfg: &MenuConfig, paths: &[String]) -> (r: String)
    ensures
        r@ == build_param_spec(*cfg, string_views(paths@)),
{
    if paths.len() == 0 {
        return cfg.param.clone();
    }
    let first = PathVars::from_path(paths[0].as_str());
    if paths.len() > 1 && cfg.accept_multiple_files_flag == MULTI_JOIN {
        let template = if cfg.param_for_multiple_files.as_str().is_empty() {
            &cfg.param
        } else {
            &cfg.param_for_multiple_files
        };
        let joined = join_paths(paths, cfg.delimiter());
        // {path} receives the pre-quoted joined list; other vars come from the first item.
        let mut joined_vars = PathVars::from_path(paths[0].as_str());
        joined_vars.path = joined;
        substitute(template.as_str(), &joined_vars, &first)
    } else {
        substitute(cfg.param.as_str(), &first, &first)
    }
}

// ------------------------------------------------------------------ extension lists and titles

/// The non-empty pieces of a '|' separated extension list, lowercased and
/// trimmed.
pub open spec fn nonempty_only(ps: Seq<Seq<char>>) -> Seq<Seq<char>>
    decreases ps.len(),
{
    if ps.len() == 0 {
        ps
    } else if ps.last().len() == 0 {
        nonempty_only(ps.drop_last())
    } else {
        nonempty_only(ps.drop_last()).push(ps.last())
    }
}

pub open spec fn ext_list_of(exts: Seq<char>) -> Seq<Seq<char>> {
    nonempty_only(ext_pieces(exts))
}

/// Extensions of a '|' separated list: lowercased, trimmed, empty ones dropped.
pub fn ext_list(exts: &str) -> (r: Vec<String>)
    ensures
        string_views(r@) == ext_list_of(exts@),
{
    let lower = chars_of(to_lowercase(exts).as_str());
    let pieces = split_exec(&lower, '|');
    let ghost all = ext_pieces(exts@);
    assert(all =~= views(pieces@).map_values(|p: Seq<char>| trim_ws(p)));
    let mut r: Vec<String> = Vec::new();
    let mut i: usize = 0;
    assert(all.take(0) =~= Seq::<Seq<char>>::empty());
    while i < pieces.len()
        invariant
            i <= pieces@.len(),
            all == views(pieces@).map_values(|p: Seq<char>| trim_ws(p)),
            string_views(r@) == nonempty_only(all.take(i as int)),
        decreases pieces@.len() - i,
    {
        assert(all.take(i + 1).drop_last() =~= all.take(i as int));
        let t = trimmed(&pieces[i], CharClass::Whitespace);
        assert(t@ == all[i as int]);
        if t.len() > 0 {
            let ghost before = r@;
            r.push(string_of(&t));
            assert(string_views(r@) =~= string_views(before).push(t@));
        }
        i += 1;
    }
    assert(all.take(pieces@.len() as int) =~= all);
    r
}

/// Whether a title rule lists `ext`.
pub open spec fn rule_lists(rule: TitleRule, ext: Seq<char>) -> bool {
    ext_list_of(rule.accept_exts@).contains(ext)
}

/// Index of the first rule that lists `ext`.
pub open spec fn rule_index(rules: Seq<TitleRule>, ext: Seq<char>) -> Option<int>
    decreases rules.len(),
{
    if rules.len() == 0 {
        None
    } else if rule_lists(rules[0], ext) {
        Some(0)
    } else {
        shift(rule_index(rules.drop_first(), ext), 1)
    }
}

/// Whether `list` holds `x` (by view).
fn list_contains(list: &Vec<String>, x: &str) -> (b: bool)
    ensures
        b == string_views(list@).contains(x@),
{
    let xv = chars_of(x);
    let mut i: usize = 0;
    while i < list.len()
        invariant
            i <= list@.len(),
            xv@ == x@,
            forall|j: int| 0 <= j < i ==> list@[j]@ != x@,
        decreases list@.len() - i,
    {
        let e = chars_of(list[i].as_str());
        if chars_eq(&e, &xv) {
            assert(string_views(list@)[i as int] == x@);
            return true;
        }
        i += 1;
    }
    assert(!string_views(list@).contains(x@)) by {
        if string_views(list@).contains(x@) {
            let k = choose|k: int| 0 <= k < list@.len() && string_views(list@)[k] == x@;
            assert(list@[k]@ == x@);
        }
    }
    false
}

impl MenuConfig {
    /// The first title rule that lists `ext`.
    pub fn rule_for_ext(&self, ext: &str) -> (r: Option<&TitleRule>)
        ensures
            match rule_index(self.title_rules@, ext@) {
                Some(i) => r == Some(&self.title_rules@[i]),
                None => r is None,
            },
    {
        let ghost rules = self.title_rules@;
        let mut i: usize = 0;
        assert(rules.skip(0) =~= rules);
        while i < self.title_rules.len()
            invariant
                i <= rules.len(),
                rules == self.title_rules@,
                rule_index(rules, ext@) == shift(rule_index(rules.skip(i as int), ext@), i as int),
            decreases rules.len() - i,
        {
            let list = ext_list(self.title_rules[i].accept_exts.as_str());
            if list_contains(&list, ext) {
                assert(rules.skip(i as int)[0] == rules[i as int]);
                return Some(&self.title_rules[i]);
            }
            assert(rules.skip(i as int).drop_first() =~= rules.skip(i + 1));
            i += 1;
        }
        None
    }
}


/// Whether a rule lists every one of a non-empty list of extensions.
pub open spec fn rule_covers(rule: TitleRule, exts: Seq<Seq<char>>) -> bool {
    exts.len() > 0 && forall|i: int| 0 <= i < exts.len() ==> rule_lists(rule, #[trigger] exts[i])
}

/// Index of the first rule that covers all of `exts`.
pub open spec fn covering_rule(rules: Seq<TitleRule>, exts: Seq<Seq<char>>) -> Option<int>
    decreases rules.len(),
{
    if rules.len() == 0 {
        None
    } else if rule_covers(rules[0], exts) {
        Some(0)
    } else {
        shift(covering_rule(rules.drop_first(), exts), 1)
    }
}

/// Whether `rule` lists every extension of `exts` (and `exts` is non-empty).
fn covers(rule: &TitleRule, exts: &[String]) -> (b: bool)
    ensures
        b == rule_covers(*rule, string_views(exts@)),
{
    if exts.len() == 0 {
        return false;
    }
    let list = ext_list(rule.accept_exts.as_str());
    let mut i: usize = 0;
    while i < exts.len()
        invariant
            i <= exts@.len(),
            string_views(list@) == ext_list_of(rule.accept_exts@),
            forall|j: int| 0 <= j < i ==> rule_lists(*rule, #[trigger] string_views(exts@)[j]),
        decreases exts@.len() - i,
    {
        if !list_contains(&list, exts[i].as_str()) {
            assert(!rule_lists(*rule, string_views(exts@)[i as int]));
            return false;
        }
        i += 1;
    }
    true
}

impl MenuConfig {
    /// Title for a selection whose items have the extensions `exts`
    /// (lowercase, empty for folders): the first title rule listing all of
    /// them, otherwise the entry's own title.
    pub fn title_for(&self, exts: &[String]) -> (r: &str)
        ensures
            r@ == match covering_rule(self.title_rules@, string_views(exts@)) {
                Some(i) => self.title_rules@[i].title@,
                None => self.title@,
            },
    {
        let ghost rules = self.title_rules@;
        let mut i: usize = 0;
        assert(rules.skip(0) =~= rules);
        while i < self.title_rules.len()
            invariant
                i <= rules.len(),
                rules == self.title_rules@,
                covering_rule(rules, string_views(exts@)) == shift(
                    covering_rule(rules.skip(i as int), string_views(exts@)),
                    i as int,
                ),
            decreases rules.len() - i,
        {
            if covers(&self.title_rules[i], exts) {
                assert(rules.skip(i as int)[0] == rules[i as int]);
                return self.title_rules[i].title.as_str();
            }
            assert(rules.skip(i as int).drop_first() =~= rules.skip(i + 1));
            i += 1;
        }
        self.title.as_str()
    }
}

// ------------------------------------------------------------------ loading

/// Whether a file name has the extension "json" (any case), as
/// `Path::extension` sees it: the part after the last dot, where a name whose
/// only dot is its first character has no extension.
pub open spec fn has_json_extension(name: Seq<char>) -> bool {
    match rfind_char(name, '.') {
        Some(i) => i > 0 && eq_ignore_ascii_case(name.skip(i + 1), "json"@),
        None => false,
    }
}

/// Whether a directory entry named `name` is a config file candidate.
pub fn is_config_file_name(name: &str) -> (b: bool)
    ensures
        b == has_json_extension(name@),
{
    let v = chars_of(name);
    let n = v.len();
    match rfind_char_exec(&v, '.') {
        Some(i) => {
            proof {
                lemma_rfind_char_bounds(v@, '.');
            }
            if i == 0 {
                return false;
            }
            let ext = slice_range(&v, i + 1, v.len());
            let json = chars_of("json");
            eq_ignore_case(&ext, &json)
        },
        None => false,
    }
}

/// Whether the file is among `only_files` (case-insensitively); every file
/// is when there is no filter.
pub open spec fn selected_by(name: Seq<char>, only: Option<Seq<Seq<char>>>) -> bool {
    match only {
        None => true,
        Some(fs) => exists|i: int| 0 <= i < fs.len() && eq_ignore_ascii_case(#[trigger] fs[i], name),
    }
}

/// Whether some name in `names` equals `name` ignoring ASCII case.
pub fn any_eq_ignore_case(names: &[String], name: &str) -> (b: bool)
    ensures
        b == exists|i: int|
            0 <= i < names@.len() && eq_ignore_ascii_case(#[trigger] string_views(names@)[i], name@),
{
    let n = chars_of(name);
    let mut i: usize = 0;
    while i < names.len()
        invariant
            i <= names@.len(),
            n@ == name@,
            forall|j: int|
                0 <= j < i ==> !eq_ignore_ascii_case(#[trigger] string_views(names@)[j], name@),
        decreases names@.len() - i,
    {
        let x = chars_of(names[i].as_str());
        if eq_ignore_case(&x, &n) {
            assert(string_views(names@)[i as int] == names@[i as int]@);
            assert(eq_ignore_ascii_case(string_views(names@)[i as int], name@));
            return true;
        }
        assert(string_views(names@)[i as int] == names@[i as int]@);
        i += 1;
    }
    false
}

/// Whether `name` passes the `only_files` filter of `load_configs`.
pub fn is_selected(name: &str, only_files: Option<&[String]>) -> (b: bool)
    ensures
        b == selected_by(
            name@,
            match only_files {
                Some(f) => Some(string_views(f@)),
                None => None,
            },
        ),
{
    match only_files {
        None => true,
        Some(filter) => any_eq_ignore_case(filter, name),
    }
}

/// Text without a leading UTF-8 byte order mark.
pub open spec fn strip_bom_spec(t: Seq<char>) -> Seq<char> {
    trim_start(t, CharClass::Bom)
}

/// Tolerate a UTF-8 BOM in a config file's text.
pub fn strip_bom(text: &str) -> (r: &str)
    ensures
        r@ == strip_bom_spec(text@),
{
    let v = chars_of(text);
    let a = skip_class(&v, 0, CharClass::Bom);
    assert(v@.skip(0) =~= v@);
    assert(v@.subrange(a as int, v@.len() as int) =~= v@.skip(a as int));
    text.substring_char(a, v.len())
}

/// Lexicographic order on character sequences (by code point), the order of
/// `String`'s `Ord`.
pub open spec fn seq_lt(a: Seq<char>, b: Seq<char>) -> bool
    decreases a.len(),
{
    if a.len() == 0 {
        b.len() > 0
    } else if b.len() == 0 {
        false
    } else if a[0] != b[0] {
        a[0] < b[0]
    } else {
        seq_lt(a.drop_first(), b.drop_first())
    }
}

fn chars_lt(a: &[char], b: &[char]) -> (r: bool)
    ensures
        r == seq_lt(a@, b@),
{
    let mut i: usize = 0;
    assert(a@.skip(0) =~= a@);
    assert(b@.skip(0) =~= b@);
    while i < a.len() && i < b.len() && a[i] == b[i]
        invariant
            i <= a@.len(),
            i <= b@.len(),
            seq_lt(a@, b@) == seq_lt(a@.skip(i as int), b@.skip(i as int)),
        decreases a@.len() - i,
    {
        assert(a@.skip(i as int).drop_first() =~= a@.skip(i + 1));
        assert(b@.skip(i as int).drop_first() =~= b@.skip(i + 1));
        i += 1;
    }
    if i == a.len() {
        i < b.len()
    } else if i == b.len() {
        false
    } else {
        a[i] < b[i]
    }
}

/// Load order: by `index`, then by file name.
pub open spec fn config_before(a: MenuConfig, b: MenuConfig) -> bool {
    a.index < b.index || (a.index == b.index && seq_lt(a.source_file@, b.source_file@))
}

pub open spec fn config_le(a: MenuConfig, b: MenuConfig) -> bool {
    !config_before(b, a)
}

pub open spec fn sorted_configs(s: Seq<MenuConfig>) -> bool {
    forall|i: int, j: int| 0 <= i < j < s.len() ==> config_le(#[trigger] s[i], #[trigger] s[j])
}

fn config_before_exec(a: &MenuConfig, b: &MenuConfig) -> (r: bool)
    ensures
        r == config_before(*a, *b),
{
    if a.index < b.index {
        return true;
    }
    if a.index != b.index {
        return false;
    }
    let x = chars_of(a.source_file.as_str());
    let y = chars_of(b.source_file.as_str());
    chars_lt(&x, &y)
}

proof fn lemma_seq_lt_total(a: Seq<char>, b: Seq<char>)
    ensures
        seq_lt(a, b) || seq_lt(b, a) || a == b,
    decreases a.len(),
{
    if a.len() > 0 && b.len() > 0 && a[0] == b[0] {
        lemma_seq_lt_total(a.drop_first(), b.drop_first());
        if a.drop_first() == b.drop_first() {
            assert(a =~= seq![a[0]] + a.drop_first());
            assert(b =~= seq![b[0]] + b.drop_first());
        }
    } else if a.len() == 0 && b.len() == 0 {
        assert(a =~= b);
    }
}

proof fn lemma_seq_lt_trans(a: Seq<char>, b: Seq<char>, c: Seq<char>)
    requires
        seq_lt(a, b),
        seq_lt(b, c),
    ensures
        seq_lt(a, c),
    decreases a.len(),
{
    if a.len() > 0 && b.len() > 0 && c.len() > 0 && a[0] == b[0] && b[0] == c[0] {
        lemma_seq_lt_trans(a.drop_first(), b.drop_first(), c.drop_first());
    }
}

proof fn lemma_seq_lt_irrefl(a: Seq<char>)
    ensures
        !seq_lt(a, a),
    decreases a.len(),
{
    if a.len() > 0 {
        lemma_seq_lt_irrefl(a.drop_first());
    }
}

/// Neither config comes before the other: same index and file name.
pub open spec fn config_tied(a: MenuConfig, b: MenuConfig) -> bool {
    !config_before(a, b) && !config_before(b, a)
}

/// `r` is `v` rearranged by `perm` (position in `r` -> position in `v`),
/// keeping tied configs in their order in `v`.
pub open spec fn stable_rearrangement(v: Seq<MenuConfig>, r: Seq<MenuConfig>, perm: Seq<int>) -> bool {
    &&& perm.len() == r.len()
    &&& r.len() == v.len()
    &&& forall|k: int| 0 <= k < perm.len() ==> 0 <= #[trigger] perm[k] < v.len() && r[k] == v[perm[k]]
    &&& forall|i: int, j: int| 0 <= i < j < perm.len() ==> #[trigger] perm[i] != #[trigger] perm[j]
    &&& forall|i: int, j: int|
        0 <= i < j < r.len() && config_tied(#[trigger] r[i], #[trigger] r[j]) ==> perm[i] < perm[j]
}

/// Sorts configs by `index`, then by file name; the sort is stable.
pub fn sort_configs(v: Vec<MenuConfig>) -> (r: Vec<MenuConfig>)
    ensures
        r@.to_multiset() == v@.to_multiset(),
        sorted_configs(r@),
        exists|perm: Seq<int>| stable_rearrangement(v@, r@, perm),
{
    broadcast use vstd::seq_lib::group_to_multiset_ensures;

    let ghost vs = v@;
    let ghost n = v@.len();
    let mut rest = v;
    let mut r: Vec<MenuConfig> = Vec::new();
    let ghost mut perm: Seq<int> = Seq::empty();
    assert(vs.take(n as int) =~= vs);
    while rest.len() > 0
        invariant
            r@.to_multiset().add(rest@.to_multiset()) == vs.to_multiset(),
            sorted_configs(r@),
            n == vs.len(),
            rest@ == vs.take(rest@.len() as int),
            r@.len() + rest@.len() == n,
            perm.len() == r@.len(),
            forall|k: int|
                0 <= k < perm.len() ==> rest@.len() <= #[trigger] perm[k] < n && r@[k] == vs[perm[k]],
            forall|i: int, j: int| 0 <= i < j < perm.len() ==> #[trigger] perm[i] != #[trigger] perm[j],
            forall|i: int, j: int|
                0 <= i < j < r@.len() && config_tied(#[trigger] r@[i], #[trigger] r@[j]) ==> perm[i]
                    < perm[j],
        decreases rest@.len(),
    {
        let ghost before_rest = rest@;
        let ghost m = rest@.len() as int;
        let x = rest.pop().unwrap();
        assert(before_rest =~= rest@.push(x));
        assert(x == vs[m - 1]);
        assert(rest@ =~= vs.take(m - 1));
        // Insert before the first element that `x` does not come after.
        let mut pos: usize = 0;
        while pos < r.len() && config_before_exec(&r[pos], &x)
            invariant
                pos <= r@.len(),
                forall|k: int| 0 <= k < pos ==> config_before(#[trigger] r@[k], x),
            decreases r@.len() - pos,
        {
            pos += 1;
        }
        let ghost old_r = r@;
        let ghost old_perm = perm;
        proof {
            assert forall|k: int| pos <= k < old_r.len() implies config_le(
                x,
                #[trigger] old_r[k],
            ) by {
                if config_before(old_r[k], x) {
                    // r[pos] is not before x, yet r[pos] <= r[k] < x.
                    assert(!config_before(old_r[pos as int], x));
                    lemma_config_le_before(old_r[pos as int], old_r[k], x);
                }
            }
        }
        r.insert(pos, x);
        proof {
            perm = old_perm.insert(pos as int, m - 1);
        }
        assert(r@ =~= old_r.insert(pos as int, x));
        proof {
            broadcast use vstd::multiset::group_multiset_axioms;

            vstd::seq_lib::to_multiset_build(rest@, x);
            vstd::seq_lib::to_multiset_insert(old_r, pos as int, x);
            assert(before_rest.to_multiset() =~= rest@.to_multiset().insert(x));
            assert(r@.to_multiset() =~= old_r.to_multiset().insert(x));
            assert(r@.to_multiset().add(rest@.to_multiset()) =~= old_r.to_multiset().add(
                before_rest.to_multiset(),
            ));
        }
        proof {
            assert(r@.remove(pos as int) =~= old_r);
            assert(r@[pos as int] == x);
            assert forall|i: int, j: int| 0 <= i < j < r@.len() implies config_le(
                #[trigger] r@[i],
                #[trigger] r@[j],
            ) by {
                if i < pos && j == pos {
                    assert(config_before(old_r[i], x));
                    lemma_config_before_le(old_r[i], x);
                } else if i < pos && j > pos {
                    assert(r@[j] == old_r[j - 1]);
                } else if i == pos && j > pos {
                    assert(r@[j] == old_r[j - 1]);
                } else if i > pos {
                    assert(r@[i] == old_r[i - 1]);
                    assert(r@[j] == old_r[j - 1]);
                }
            }
            assert forall|k: int| 0 <= k < perm.len() implies rest@.len() <= #[trigger] perm[k] < n
                && r@[k] == vs[perm[k]] by {
                if k < pos {
                    assert(perm[k] == old_perm[k]);
                } else if k > pos {
                    assert(perm[k] == old_perm[k - 1]);
                    assert(r@[k] == old_r[k - 1]);
                }
            }
            assert forall|i: int, j: int| 0 <= i < j < perm.len() implies #[trigger] perm[i]
                != #[trigger] perm[j] by {
                if i < pos && j < pos {
                    assert(perm[i] == old_perm[i] && perm[j] == old_perm[j]);
                } else if i < pos && j == pos {
                    assert(perm[i] == old_perm[i]);
                } else if i < pos && j > pos {
                    assert(perm[i] == old_perm[i] && perm[j] == old_perm[j - 1]);
                } else if i == pos {
                    assert(perm[j] == old_perm[j - 1]);
                } else {
                    assert(perm[i] == old_perm[i - 1] && perm[j] == old_perm[j - 1]);
                }
            }
            assert forall|i: int, j: int|
                0 <= i < j < r@.len() && config_tied(#[trigger] r@[i], #[trigger] r@[j]) implies perm[i]
                < perm[j] by {
                if i < pos && j == pos {
                    assert(config_before(old_r[i], x));
                } else if i < pos && j > pos {
                    assert(perm[i] == old_perm[i] && perm[j] == old_perm[j - 1]);
                    assert(r@[i] == old_r[i] && r@[j] == old_r[j - 1]);
                } else if i < pos {
                    assert(perm[i] == old_perm[i] && perm[j] == old_perm[j]);
                    assert(r@[i] == old_r[i] && r@[j] == old_r[j]);
                } else if i == pos {
                    assert(perm[j] == old_perm[j - 1]);
                } else {
                    assert(perm[i] == old_perm[i - 1] && perm[j] == old_perm[j - 1]);
                    assert(r@[i] == old_r[i - 1] && r@[j] == old_r[j - 1]);
                }
            }
        }
    }
    assert(rest@ =~= Seq::<MenuConfig>::empty());
    assert(stable_rearrangement(vs, r@, perm));
    r
}

proof fn lemma_config_before_le(a: MenuConfig, b: MenuConfig)
    requires
        config_before(a, b),
    ensures
        config_le(a, b),
{
    if config_before(b, a) {
        if a.index == b.index {
            lemma_seq_lt_trans(a.source_file@, b.source_file@, a.source_file@);
            lemma_seq_lt_irrefl(a.source_file@);
        }
    }
}

/// a <= b and b < c gives a < c.
proof fn lemma_config_le_before(a: MenuConfig, b: MenuConfig, c: MenuConfig)
    requires
        config_le(a, b),
        config_before(b, c),
    ensures
        config_before(a, c),
{
    if a.index == b.index && b.index == c.index {
        lemma_seq_lt_total(a.source_file@, b.source_file@);
        if seq_lt(a.source_file@, b.source_file@) {
            lemma_seq_lt_trans(a.source_file@, b.source_file@, c.source_file@);
        }
    }
}


/// The names among `names` that are config file candidates (a "json"
/// extension) selected by `only`, in order.
pub open spec fn candidate_names(names: Seq<Seq<char>>, only: Option<Seq<Seq<char>>>) -> Seq<
    Seq<char>,
>
    decreases names.len(),
{
    if names.len() == 0 {
        names
    } else {
        let r = candidate_names(names.drop_last(), only);
        if has_json_extension(names.last()) && selected_by(names.last(), only) {
            r.push(names.last())
        } else {
            r
        }
    }
}

/// The file names the configs were loaded from.
pub open spec fn source_views(v: Seq<MenuConfig>) -> Seq<Seq<char>> {
    v.map_values(|c: MenuConfig| c.source_file@)
}

/// `c` with its `source_file` replaced by `s`.
pub open spec fn with_source(c: MenuConfig, s: String) -> MenuConfig {
    MenuConfig { source_file: s, ..c }
}

/// Whether `c` is what `parse` gave for the text that `read` gave for the
/// file `c` names in `source_file` (byte order mark stripped), with that
/// file name set.
pub open spec fn loaded_by<R, P>(read: R, parse: P, c: MenuConfig) -> bool where
    R: Fn(&str) -> Option<String>,
    P: Fn(&str) -> Option<MenuConfig>,
 {
    exists|n: &str, text: String, t: &str, c0: MenuConfig|
        #![trigger call_ensures(read, (n,), Some(text)), call_ensures(parse, (t,), Some(c0))]
        n@ == c.source_file@ && call_ensures(read, (n,), Some(text)) && t@ == strip_bom_spec(text@)
            && call_ensures(parse, (t,), Some(c0)) && c == with_source(c0, c.source_file)
}

/// Whether some config of `r` was loaded from the file `name`.
pub open spec fn has_source(r: Seq<MenuConfig>, name: Seq<char>) -> bool {
    exists|j: int| 0 <= j < r.len() && #[trigger] r[j].source_file@ == name
}

/// Whether loading the file `name` can fail: `read` can give nothing for it,
/// or a text that `parse` rejects once the byte order mark is stripped.
pub open spec fn load_may_fail<R, P>(read: R, parse: P, name: Seq<char>) -> bool where
    R: Fn(&str) -> Option<String>,
    P: Fn(&str) -> Option<MenuConfig>,
 {
    exists|n: &str, o: Option<String>|
        n@ == name && #[trigger] call_ensures(read, (n,), o) && match o {
            None => true,
            Some(text) => exists|t: &str|
                t@ == strip_bom_spec(text@) && #[trigger] call_ensures(parse, (t,), None::<MenuConfig>),
        }
}

/// Whether each file name of `cand` has a config in `r`, or loading it can
/// fail.
pub open spec fn loads_or_fails<R, P>(read: R, parse: P, r: Seq<MenuConfig>, cand: Seq<Seq<char>>) -> bool where
    R: Fn(&str) -> Option<String>,
    P: Fn(&str) -> Option<MenuConfig>,
 {
    forall|k: int|
        0 <= k < cand.len() ==> has_source(r, #[trigger] cand[k]) || load_may_fail(read, parse, cand[k])
}

proof fn lemma_has_source_push(r: Seq<MenuConfig>, c: MenuConfig, name: Seq<char>)
    requires
        has_source(r, name),
    ensures
        has_source(r.push(c), name),
{
    let j = choose|j: int| 0 <= j < r.len() && #[trigger] r[j].source_file@ == name;
    assert(r.push(c)[j] == r[j]);
}

proof fn lemma_has_source_perm(r: Seq<MenuConfig>, v: Seq<MenuConfig>, name: Seq<char>)
    requires
        r.to_multiset() == v.to_multiset(),
        has_source(v, name),
    ensures
        has_source(r, name),
{
    broadcast use vstd::seq_lib::group_to_multiset_ensures;

    let j = choose|j: int| 0 <= j < v.len() && #[trigger] v[j].source_file@ == name;
    assert(v.to_multiset().count(v[j]) > 0);
    assert(r.to_multiset().count(v[j]) > 0);
    assert(r.contains(v[j]));
    let i = choose|i: int| 0 <= i < r.len() && r[i] == v[j];
    assert(r[i].source_file@ == name);
}

/// Whether loading the file `name` cannot fail: `read` gives a text for
/// it, whichever it gives, and `parse` accepts that text once the byte order
/// mark is stripped.
pub open spec fn load_succeeds<R, P>(read: R, parse: P, name: Seq<char>) -> bool where
    R: Fn(&str) -> Option<String>,
    P: Fn(&str) -> Option<MenuConfig>,
 {
    forall|n: &str, o: Option<String>|
        n@ == name && #[trigger] call_ensures(read, (n,), o) ==> (o matches Some(text) && forall|
            t: &str,
            c: Option<MenuConfig>,
        | t@ == strip_bom_spec(text@) && #[trigger] call_ensures(parse, (t,), c) ==> c is Some)
}

/// Whether each file name of `cand` that loads surely has its config in `r`.
pub open spec fn keeps_sure_loads<R, P>(read: R, parse: P, r: Seq<MenuConfig>, cand: Seq<Seq<char>>) -> bool where
    R: Fn(&str) -> Option<String>,
    P: Fn(&str) -> Option<MenuConfig>,
 {
    forall|k: int|
        0 <= k < cand.len() && load_succeeds(read, parse, cand[k]) ==> has_source(r, #[trigger] cand[k])
}

proof fn lemma_succeeds_not_fail<R, P>(read: R, parse: P, name: Seq<char>) where
    R: Fn(&str) -> Option<String>,
    P: Fn(&str) -> Option<MenuConfig>,

    requires
        load_succeeds(read, parse, name),
    ensures
        !load_may_fail(read, parse, name),
{
    if load_may_fail(read, parse, name) {
        let (n, o) = choose|n: &str, o: Option<String>|
            n@ == name && #[trigger] call_ensures(read, (n,), o) && match o {
                None => true,
                Some(text) => exists|t: &str|
                    t@ == strip_bom_spec(text@) && #[trigger] call_ensures(parse, (t,), None::<MenuConfig>),
            };
        assert(o is Some);
        let text = o->0;
        let t = choose|t: &str|
            t@ == strip_bom_spec(text@) && #[trigger] call_ensures(parse, (t,), None::<MenuConfig>);
        assert(false);
    }
}

/// Loads the configs of a directory, given the names of its files: every
/// name with a "json" extension (any case) that `only_files` selects is read
/// with `read`, stripped of a byte order mark and parsed with `parse`; the
/// configs that parse, each with its file name in `source_file`, come back
/// sorted by `index`, then file name. Files that cannot be read or parsed
/// are left out, and only they: each such file has its config in the result
/// or could not be loaded, and a file that loads surely is in the result.
/// No file comes back twice when the names are distinct.
pub fn load_configs<R, P>(names: &[String], only_files: Option<&[String]>, read: R, parse: P) -> (r:
    Vec<MenuConfig>) where R: Fn(&str) -> Option<String>, P: Fn(&str) -> Option<MenuConfig>
    requires
        forall|n: &str| #[trigger] read.requires((n,)),
        forall|t: &str| #[trigger] parse.requires((t,)),
    ensures
        sorted_configs(r@),
        r@.len() <= names@.len(),
        forall|k: int|
            0 <= k < r@.len() ==> has_json_extension(#[trigger] r@[k].source_file@) && selected_by(
                r@[k].source_file@,
                match only_files {
                    Some(f) => Some(string_views(f@)),
                    None => None,
                },
            ) && string_views(names@).contains(r@[k].source_file@) && loaded_by(read, parse, r@[k]),
        loads_or_fails(
            read,
            parse,
            r@,
            candidate_names(
                string_views(names@),
                match only_files {
                    Some(f) => Some(string_views(f@)),
                    None => None,
                },
            ),
        ),
        keeps_sure_loads(
            read,
            parse,
            r@,
            candidate_names(
                string_views(names@),
                match only_files {
                    Some(f) => Some(string_views(f@)),
                    None => None,
                },
            ),
        ),
        string_views(names@).no_duplicates() ==> source_views(r@).no_duplicates(),
{
    let ghost only = match only_files {
        Some(f) => Some(string_views(f@)),
        None => None,
    };
    let ghost nv = string_views(names@);
    let mut out: Vec<MenuConfig> = Vec::new();
    let mut i: usize = 0;
    assert(nv.take(0) =~= Seq::<Seq<char>>::empty());
    assert(source_views(out@) =~= Seq::<Seq<char>>::empty());
    while i < names.len()
        invariant
            i <= names@.len(),
            out@.len() <= i,
            nv == string_views(names@),
            only == match only_files {
                Some(f) => Some(string_views(f@)),
                None => None::<Seq<Seq<char>>>,
            },
            forall|n: &str| #[trigger] read.requires((n,)),
            forall|t: &str| #[trigger] parse.requires((t,)),
            forall|k: int|
                0 <= k < out@.len() ==> has_json_extension(#[trigger] out@[k].source_file@)
                    && selected_by(out@[k].source_file@, only) && string_views(names@).contains(
                    out@[k].source_file@,
                ) && loaded_by(read, parse, out@[k]),
            forall|k: int|
                0 <= k < out@.len() ==> nv.take(i as int).contains(#[trigger] out@[k].source_file@),
            nv.no_duplicates() ==> source_views(out@).no_duplicates(),
            loads_or_fails(read, parse, out@, candidate_names(nv.take(i as int), only)),
        decreases names@.len() - i,
    {
        let name = names[i].as_str();
        assert(string_views(names@)[i as int] == name@);
        assert(nv.take(i + 1).drop_last() =~= nv.take(i as int));
        assert(nv.take(i + 1).last() == name@);
        let ghost before = out@;
        let ghost cand_before = candidate_names(nv.take(i as int), only);
        let ghost cand_after = candidate_names(nv.take(i + 1), only);
        if is_config_file_name(name) && is_selected(name, only_files) {
            assert(cand_after == cand_before.push(name@));
            match read(name) {
                Some(text) => {
                    let body = strip_bom(text.as_str());
                    match parse(body) {
                        Some(c) => {
                            let ghost c0 = c;
                            let mut cfg = c;
                            cfg.source_file = String::from_str(name);
                            assert(cfg == with_source(c0, cfg.source_file));
                            assert(call_ensures(read, (name,), Some(text)) && call_ensures(
                                parse,
                                (body,),
                                Some(c0),
                            ));
                            assert(loaded_by(read, parse, cfg));
                            out.push(cfg);
                            assert(out@[out@.len() - 1] == cfg);
                            assert(source_views(out@) =~= source_views(before).push(name@));
                            assert(out@ == before.push(cfg));
                            proof {
                                if nv.no_duplicates() {
                                    assert(!source_views(before).contains(name@)) by {
                                        if source_views(before).contains(name@) {
                                            let k = choose|k: int|
                                                0 <= k < before.len() && source_views(before)[k] == name@;
                                            assert(before[k].source_file@ == name@);
                                            assert(nv.take(i as int).contains(before[k].source_file@));
                                            let x = choose|x: int|
                                                0 <= x < i && nv.take(i as int)[x] == before[k].source_file@;
                                            assert(nv[x] == nv[i as int]);
                                        }
                                    }
                                    let sv = source_views(out@);
                                    assert forall|a: int, b: int|
                                        0 <= a < sv.len() && 0 <= b < sv.len() && a != b implies sv[a]
                                        != sv[b] by {
                                        if a == sv.len() - 1 {
                                            assert(source_views(before)[b] == sv[b]);
                                        } else if b == sv.len() - 1 {
                                            assert(source_views(before)[a] == sv[a]);
                                        } else {
                                            assert(source_views(before)[a] == sv[a]);
                                            assert(source_views(before)[b] == sv[b]);
                                        }
                                    }
                                }
                            }
                            assert forall|k: int| 0 <= k < cand_after.len() implies has_source(
                                out@,
                                #[trigger] cand_after[k],
                            ) || load_may_fail(read, parse, cand_after[k]) by {
                                if k < cand_before.len() {
                                    assert(cand_after[k] == cand_before[k]);
                                    if has_source(before, cand_before[k]) {
                                        lemma_has_source_push(before, cfg, cand_before[k]);
                                    }
                                } else {
                                    assert(out@[out@.len() - 1].source_file@ == name@);
                                }
                            }
                        },
                        None => {
                            assert(call_ensures(parse, (body,), None::<MenuConfig>));
                            assert(load_may_fail(read, parse, name@));
                            assert forall|k: int| 0 <= k < cand_after.len() implies has_source(
                                out@,
                                #[trigger] cand_after[k],
                            ) || load_may_fail(read, parse, cand_after[k]) by {
                                if k < cand_before.len() {
                                    assert(cand_after[k] == cand_before[k]);
                                }
                            }
                        },
                    }
                },
                None => {
                    assert(call_ensures(read, (name,), None::<String>));
                    assert(load_may_fail(read, parse, name@));
                    assert forall|k: int| 0 <= k < cand_after.len() implies has_source(
                        out@,
                        #[trigger] cand_after[k],
                    ) || load_may_fail(read, parse, cand_after[k]) by {
                        if k < cand_before.len() {
                            assert(cand_after[k] == cand_before[k]);
                        }
                    }
                },
            }
        } else {
            assert(cand_after == cand_before);
        }
        assert forall|k: int| 0 <= k < out@.len() implies nv.take(i + 1).contains(
            #[trigger] out@[k].source_file@,
        ) by {
            if k < before.len() {
                assert(out@[k] == before[k]);
                assert(nv.take(i as int).contains(before[k].source_file@));
                let x = choose|x: int| 0 <= x < i && nv.take(i as int)[x] == before[k].source_file@;
                assert(nv.take(i + 1)[x] == nv.take(i as int)[x]);
            } else {
                assert(out@[k].source_file@ == name@);
                assert(nv.take(i + 1)[i as int] == name@);
            }
        }
        i += 1;
    }
    assert(nv.take(i as int) =~= nv);
    let ghost unsorted = out@;
    let r = sort_configs(out);
    proof {
        broadcast use vstd::seq_lib::group_to_multiset_ensures;

        assert forall|k: int| 0 <= k < r@.len() implies has_json_extension(
            #[trigger] r@[k].source_file@,
        ) && selected_by(r@[k].source_file@, only) && string_views(names@).contains(
            r@[k].source_file@,
        ) && loaded_by(read, parse, r@[k]) by {
            assert(r@.to_multiset().count(r@[k]) > 0);
            assert(unsorted.to_multiset().count(r@[k]) > 0);
            assert(unsorted.contains(r@[k]));
            let j = choose|j: int| 0 <= j < unsorted.len() && unsorted[j] == r@[k];
            assert(has_json_extension(unsorted[j].source_file@));
        }
        assert(r@.len() == unsorted.len()) by {
            assert(r@.to_multiset().len() == r@.len());
            assert(unsorted.to_multiset().len() == unsorted.len());
        }
        let cand = candidate_names(nv, only);
        assert forall|k: int| 0 <= k < cand.len() implies has_source(r@, #[trigger] cand[k])
            || load_may_fail(read, parse, cand[k]) by {
            if has_source(unsorted, cand[k]) {
                lemma_has_source_perm(r@, unsorted, cand[k]);
            }
        }
        assert forall|k: int| 0 <= k < cand.len() && load_succeeds(read, parse, cand[k]) implies has_source(
            r@,
            #[trigger] cand[k],
        ) by {
            lemma_succeeds_not_fail(read, parse, cand[k]);
        }
        if nv.no_duplicates() {
            let perm = choose|perm: Seq<int>| stable_rearrangement(unsorted, r@, perm);
            let sv = source_views(r@);
            let su = source_views(unsorted);
            assert forall|a: int, b: int| 0 <= a < sv.len() && 0 <= b < sv.len() && a != b implies sv[a]
                != sv[b] by {
                if a < b {
                    assert(perm[a] != perm[b]);
                } else {
                    assert(perm[b] != perm[a]);
                }
                assert(r@[a] == unsorted[perm[a]]);
                assert(r@[b] == unsorted[perm[b]]);
                assert(su[perm[a]] == sv[a]);
                assert(su[perm[b]] == sv[b]);
            }
        }
    }
    r
}

// ------------------------------------------------------------------ laws

proof fn lemma_replace_absent(s: Seq<char>, from: Seq<char>, to: Seq<char>)
    requires
        from.len() > 0,
        !s.contains(from[0]),
    ensures
        replace_all(s, from, to) == s,
    decreases s.len(),
{
    if s.len() > 0 {
        assert(s[0] != from[0]);
        assert(!crate::text::starts_with(s, from)) by {
            if crate::text::starts_with(s, from) {
                assert(s.take(from.len() as int)[0] == s[0]);
            }
        }
        let t = s.drop_first();
        assert(!t.contains(from[0])) by {
            if t.contains(from[0]) {
                let k = choose|k: int| 0 <= k < t.len() && t[k] == from[0];
                assert(s[k + 1] == t[k]);
            }
        }
        lemma_replace_absent(t, from, to);
        assert(seq![s[0]] + t =~= s);
    }
}

/// A `{variable}` name: `{`, then characters other than braces, then `}`.
spec fn is_var(s: Seq<char>) -> bool {
    &&& s.len() >= 3 && s[0] == '{' && s[s.len() - 1] == '}'
    &&& forall|j: int| 0 < j < s.len() - 1 ==> s[j] != '{' && s[j] != '}'
}

proof fn lemma_var_kept(t: Seq<char>, from: Seq<char>, to: Seq<char>)
    requires
        is_var(t),
        is_var(from),
        t.len() != from.len() || t[1] != from[1],
    ensures
        replace_all(t, from, to) == t,
{
    if crate::text::starts_with(t, from) {
        let k = from.len() - 1;
        assert(t.subrange(0, from.len() as int)[k] == t[k]);
        assert(t[k] == '}');
        assert(k == t.len() - 1);
        assert(t.subrange(0, from.len() as int)[1] == t[1]);
    }
    let u = t.drop_first();
    assert(!u.contains(from[0])) by {
        if u.contains(from[0]) {
            let j = choose|j: int| 0 <= j < u.len() && u[j] == from[0];
            assert(t[j + 1] == u[j]);
        }
    }
    lemma_replace_absent(u, from, to);
    assert(seq![t[0]] + u =~= t);
}

proof fn lemma_var_replaced(t: Seq<char>, to: Seq<char>)
    requires
        is_var(t),
    ensures
        replace_all(t, t, to) == to,
{
    assert(t.subrange(0, t.len() as int) =~= t);
    assert(crate::text::starts_with(t, t));
    let e = t.skip(t.len() as int);
    assert(e =~= Seq::<char>::empty());
    assert(replace_all(e, t, to) == e);
    assert(replace_all(t, t, to) == to + replace_all(e, t, to));
    assert(to + e =~= to);
}

/// Every variable of the substitution table is replaced: a template that is
/// just `{path}`, `{parent}`, `{nameNoExt}`, `{name}` or `{extension}`
/// becomes that part of the item's path, and `{path0}`, `{nameNoExt0}`,
/// `{name0}` or `{extension0}` that part of the first item's path (as long
/// as the part holds no `{` of its own, which a later variable could take).
pub proof fn each_variable_is_replaced(v: PathParts, f: PathParts)
    ensures
        !v.path.contains('{') ==> substitute_spec("{path}"@, v, f) == v.path,
        !v.parent.contains('{') ==> substitute_spec("{parent}"@, v, f) == v.parent,
        !v.name_no_ext.contains('{') ==> substitute_spec("{nameNoExt}"@, v, f) == v.name_no_ext,
        !v.name.contains('{') ==> substitute_spec("{name}"@, v, f) == v.name,
        !v.extension.contains('{') ==> substitute_spec("{extension}"@, v, f) == v.extension,
        !f.path.contains('{') ==> substitute_spec("{path0}"@, v, f) == f.path,
        !f.name_no_ext.contains('{') ==> substitute_spec("{nameNoExt0}"@, v, f) == f.name_no_ext,
        !f.name.contains('{') ==> substitute_spec("{name0}"@, v, f) == f.name,
        !f.extension.contains('{') ==> substitute_spec("{extension0}"@, v, f) == f.extension,
{
    reveal_strlit("{path}");
    reveal_strlit("{parent}");
    reveal_strlit("{nameNoExt}");
    reveal_strlit("{name}");
    reveal_strlit("{extension}");
    reveal_strlit("{path0}");
    reveal_strlit("{nameNoExt0}");
    reveal_strlit("{name0}");
    reveal_strlit("{extension0}");
    assert(is_var("{path}"@));
    assert(is_var("{parent}"@));
    assert(is_var("{nameNoExt}"@));
    assert(is_var("{name}"@));
    assert(is_var("{extension}"@));
    assert(is_var("{path0}"@));
    assert(is_var("{nameNoExt0}"@));
    assert(is_var("{name0}"@));
    assert(is_var("{extension0}"@));
    if !v.path.contains('{') {
        lemma_var_replaced("{path}"@, v.path);
        lemma_replace_absent(v.path, "{parent}"@, v.parent);
        lemma_replace_absent(v.path, "{nameNoExt}"@, v.name_no_ext);
        lemma_replace_absent(v.path, "{name}"@, v.name);
        lemma_replace_absent(v.path, "{extension}"@, v.extension);
        lemma_replace_absent(v.path, "{path0}"@, f.path);
        lemma_replace_absent(v.path, "{nameNoExt0}"@, f.name_no_ext);
        lemma_replace_absent(v.path, "{name0}"@, f.name);
        lemma_replace_absent(v.path, "{extension0}"@, f.extension);
    }
    if !v.parent.contains('{') {
        lemma_var_kept("{parent}"@, "{path}"@, v.path);
        lemma_var_replaced("{parent}"@, v.parent);
        lemma_replace_absent(v.parent, "{nameNoExt}"@, v.name_no_ext);
        lemma_replace_absent(v.parent, "{name}"@, v.name);
        lemma_replace_absent(v.parent, "{extension}"@, v.extension);
        lemma_replace_absent(v.parent, "{path0}"@, f.path);
        lemma_replace_absent(v.parent, "{nameNoExt0}"@, f.name_no_ext);
        lemma_replace_absent(v.parent, "{name0}"@, f.name);
        lemma_replace_absent(v.parent, "{extension0}"@, f.extension);
    }
    if !v.name_no_ext.contains('{') {
        lemma_var_kept("{nameNoExt}"@, "{path}"@, v.path);
        lemma_var_kept("{nameNoExt}"@, "{parent}"@, v.parent);
        lemma_var_replaced("{nameNoExt}"@, v.name_no_ext);
        lemma_replace_absent(v.name_no_ext, "{name}"@, v.name);
        lemma_replace_absent(v.name_no_ext, "{extension}"@, v.extension);
        lemma_replace_absent(v.name_no_ext, "{path0}"@, f.path);
        lemma_replace_absent(v.name_no_ext, "{nameNoExt0}"@, f.name_no_ext);
        lemma_replace_absent(v.name_no_ext, "{name0}"@, f.name);
        lemma_replace_absent(v.name_no_ext, "{extension0}"@, f.extension);
    }
    if !v.name.contains('{') {
        lemma_var_kept("{name}"@, "{path}"@, v.path);
        lemma_var_kept("{name}"@, "{parent}"@, v.parent);
        lemma_var_kept("{name}"@, "{nameNoExt}"@, v.name_no_ext);
        lemma_var_replaced("{name}"@, v.name);
        lemma_replace_absent(v.name, "{extension}"@, v.extension);
        lemma_replace_absent(v.name, "{path0}"@, f.path);
        lemma_replace_absent(v.name, "{nameNoExt0}"@, f.name_no_ext);
        lemma_replace_absent(v.name, "{name0}"@, f.name);
        lemma_replace_absent(v.name, "{extension0}"@, f.extension);
    }
    if !v.extension.contains('{') {
        lemma_var_kept("{extension}"@, "{path}"@, v.path);
        lemma_var_kept("{extension}"@, "{parent}"@, v.parent);
        lemma_var_kept("{extension}"@, "{nameNoExt}"@, v.name_no_ext);
        lemma_var_kept("{extension}"@, "{name}"@, v.name);
        lemma_var_replaced("{extension}"@, v.extension);
        lemma_replace_absent(v.extension, "{path0}"@, f.path);
        lemma_replace_absent(v.extension, "{nameNoExt0}"@, f.name_no_ext);
        lemma_replace_absent(v.extension, "{name0}"@, f.name);
        lemma_replace_absent(v.extension, "{extension0}"@, f.extension);
    }
    if !f.path.contains('{') {
        lemma_var_kept("{path0}"@, "{path}"@, v.path);
        lemma_var_kept("{path0}"@, "{parent}"@, v.parent);
        lemma_var_kept("{path0}"@, "{nameNoExt}"@, v.name_no_ext);
        lemma_var_kept("{path0}"@, "{name}"@, v.name);
        lemma_var_kept("{path0}"@, "{extension}"@, v.extension);
        lemma_var_replaced("{path0}"@, f.path);
        lemma_replace_absent(f.path, "{nameNoExt0}"@, f.name_no_ext);
        lemma_replace_absent(f.path, "{name0}"@, f.name);
        lemma_replace_absent(f.path, "{extension0}"@, f.extension);
    }
    if !f.name_no_ext.contains('{') {
        lemma_var_kept("{nameNoExt0}"@, "{path}"@, v.path);
        lemma_var_kept("{nameNoExt0}"@, "{parent}"@, v.parent);
        lemma_var_kept("{nameNoExt0}"@, "{nameNoExt}"@, v.name_no_ext);
        lemma_var_kept("{nameNoExt0}"@, "{name}"@, v.name);
        lemma_var_kept("{nameNoExt0}"@, "{extension}"@, v.extension);
        lemma_var_kept("{nameNoExt0}"@, "{path0}"@, f.path);
        lemma_var_replaced("{nameNoExt0}"@, f.name_no_ext);
        lemma_replace_absent(f.name_no_ext, "{name0}"@, f.name);
        lemma_replace_absent(f.name_no_ext, "{extension0}"@, f.extension);
    }
    if !f.name.contains('{') {
        lemma_var_kept("{name0}"@, "{path}"@, v.path);
        lemma_var_kept("{name0}"@, "{parent}"@, v.parent);
        lemma_var_kept("{name0}"@, "{nameNoExt}"@, v.name_no_ext);
        lemma_var_kept("{name0}"@, "{name}"@, v.name);
        lemma_var_kept("{name0}"@, "{extension}"@, v.extension);
        lemma_var_kept("{name0}"@, "{path0}"@, f.path);
        lemma_var_kept("{name0}"@, "{nameNoExt0}"@, f.name_no_ext);
        lemma_var_replaced("{name0}"@, f.name);
        lemma_replace_absent(f.name, "{extension0}"@, f.extension);
    }
    if !f.extension.contains('{') {
        lemma_var_kept("{extension0}"@, "{path}"@, v.path);
        lemma_var_kept("{extension0}"@, "{parent}"@, v.parent);
        lemma_var_kept("{extension0}"@, "{nameNoExt}"@, v.name_no_ext);
        lemma_var_kept("{extension0}"@, "{name}"@, v.name);
        lemma_var_kept("{extension0}"@, "{extension}"@, v.extension);
        lemma_var_kept("{extension0}"@, "{path0}"@, f.path);
        lemma_var_kept("{extension0}"@, "{nameNoExt0}"@, f.name_no_ext);
        lemma_var_kept("{extension0}"@, "{name0}"@, f.name);
        lemma_var_replaced("{extension0}"@, f.extension);
    }
}

/// A template without `{` has no variables: substitution leaves it as it is.
pub proof fn substitute_plain_template(t: Seq<char>, v: PathParts, f: PathParts)
    requires
        !t.contains('{'),
    ensures
        substitute_spec(t, v, f) == t,
{
    reveal_strlit("{path}");
    reveal_strlit("{parent}");
    reveal_strlit("{nameNoExt}");
    reveal_strlit("{name}");
    reveal_strlit("{extension}");
    reveal_strlit("{path0}");
    reveal_strlit("{nameNoExt0}");
    reveal_strlit("{name0}");
    reveal_strlit("{extension0}");
    lemma_replace_absent(t, "{path}"@, v.path);
    lemma_replace_absent(t, "{parent}"@, v.parent);
    lemma_replace_absent(t, "{nameNoExt}"@, v.name_no_ext);
    lemma_replace_absent(t, "{name}"@, v.name);
    lemma_replace_absent(t, "{extension}"@, v.extension);
    lemma_replace_absent(t, "{path0}"@, f.path);
    lemma_replace_absent(t, "{nameNoExt0}"@, f.name_no_ext);
    lemma_replace_absent(t, "{name0}"@, f.name);
    lemma_replace_absent(t, "{extension0}"@, f.extension);
}

/// The template "{path}" becomes the item's path, when the path itself
/// holds no `{`.
pub proof fn substitute_path_alone(v: PathParts, f: PathParts)
    requires
        !v.path.contains('{'),
    ensures
        substitute_spec("{path}"@, v, f) == v.path,
{
    reveal_strlit("{path}");
    reveal_strlit("{parent}");
    reveal_strlit("{nameNoExt}");
    reveal_strlit("{name}");
    reveal_strlit("{extension}");
    reveal_strlit("{path0}");
    reveal_strlit("{nameNoExt0}");
    reveal_strlit("{name0}");
    reveal_strlit("{extension0}");
    let t = "{path}"@;
    assert(crate::text::starts_with(t, t)) by {
        assert(t.take(t.len() as int) =~= t);
    }
    assert(t.skip(t.len() as int) =~= Seq::<char>::empty());
    assert(t.len() == 6);
    assert(replace_all(t.skip(t.len() as int), t, v.path) == t.skip(t.len() as int));
    assert(replace_all(t, t, v.path) == v.path + replace_all(t.skip(t.len() as int), t, v.path));
    assert(replace_all(t, t, v.path) =~= v.path);
    let p = v.path;
    lemma_replace_absent(p, "{parent}"@, v.parent);
    lemma_replace_absent(p, "{nameNoExt}"@, v.name_no_ext);
    lemma_replace_absent(p, "{name}"@, v.name);
    lemma_replace_absent(p, "{extension}"@, v.extension);
    lemma_replace_absent(p, "{path0}"@, f.path);
    lemma_replace_absent(p, "{nameNoExt0}"@, f.name_no_ext);
    lemma_replace_absent(p, "{name0}"@, f.name);
    lemma_replace_absent(p, "{extension0}"@, f.extension);
}

/// A file name is its name without extension followed by its extension
/// ({nameNoExt}{extension} is {name}), and the extension is empty or starts
/// with a dot.
pub proof fn name_splits_into_stem_and_extension(name: Seq<char>)
    ensures
        stem_and_ext(name).0 + stem_and_ext(name).1 == name,
        stem_and_ext(name).1.len() == 0 || stem_and_ext(name).1[0] == '.',
{
    crate::text::lemma_rfind_char_bounds(name, '.');
    assert(name + Seq::<char>::empty() =~= name);
    match rfind_char(name, '.') {
        Some(i) => {
            assert(name.take(i) + name.skip(i) =~= name);
        },
        None => {},
    }
}

/// How `PathVars::from_path` splits a path: the path is kept as given; the
/// name holds no separator; the name is its stem followed by its extension;
/// the extension is empty or a dot followed by no other dot; a dotfile has
/// no extension; and a parent that ends in ':' (a bare drive) gets a
/// backslash, so that it names the drive's root.
pub proof fn path_splits(p: Seq<char>)
    ensures
        path_parts(p).path == p,
        forall|j: int|
            0 <= j < path_parts(p).name.len() ==> #[trigger] path_parts(p).name[j] != '\\'
                && path_parts(p).name[j] != '/',
        path_parts(p).name_no_ext + path_parts(p).extension == path_parts(p).name,
        path_parts(p).extension.len() == 0 || (path_parts(p).extension[0] == '.' && forall|j: int|
            1 <= j < path_parts(p).extension.len() ==> #[trigger] path_parts(p).extension[j] != '.'),
        path_parts(p).name.len() > 0 && path_parts(p).name[0] == '.' ==> path_parts(p).extension.len()
            == 0,
        ({
            let parent = split_parent_name(p).0;
            parent.len() > 0 && parent.last() == ':' ==> path_parts(p).parent == parent.push('\\')
        }),
{
    let t = trim_end(p, CharClass::PathSep);
    let name = split_parent_name(p).1;
    lemma_rfind_class_bounds(t, CharClass::PathSep);
    assert forall|j: int| 0 <= j < name.len() implies #[trigger] name[j] != '\\' && name[j] != '/' by {
        match rfind_class(t, CharClass::PathSep) {
            Some(i) => {
                assert(name[j] == t[i + 1 + j]);
                assert(!in_class(t[i + 1 + j], CharClass::PathSep));
            },
            None => {
                assert(!in_class(t[j], CharClass::PathSep));
            },
        }
    }
    name_splits_into_stem_and_extension(name);
    lemma_rfind_char_bounds(name, '.');
    let ext = stem_and_ext(name).1;
    if ext.len() > 0 {
        match rfind_char(name, '.') {
            Some(i) => {
                assert forall|j: int| 1 <= j < ext.len() implies #[trigger] ext[j] != '.' by {
                    assert(ext[j] == name[i + j]);
                }
            },
            None => {},
        }
    }
}

/// The configs come out of `sort_configs` ordered by `index`, and by file
/// name among equal indexes: two configs with different indexes are in
/// index order.
pub proof fn sorted_by_index(s: Seq<MenuConfig>, i: int, j: int)
    requires
        sorted_configs(s),
        0 <= i < j < s.len(),
    ensures
        s[i].index <= s[j].index,
        s[i].index == s[j].index ==> !seq_lt(s[j].source_file@, s[i].source_file@),
{
    assert(config_le(s[i], s[j]));
}


} // verus!
