//! Decisions of the Explorer command (COM) host: classifying the clicked
//! items, choosing the configs that match a selection, the CLSID -> config
//! mapping, and the title and icon shown.
use vstd::prelude::*;
use vstd::string::*;
use crate::config::{
    accepts_spec, badge_spec_of, covering_rule, path_parts, resolve_icon_of,
    string_views, FileType, MenuConfig, MULTI_EACH, MULTI_JOIN,
};
use crate::setup::{
    generated_icon_name, generated_icon_name_of, hex2, push_hex_pair, slug, slug_of, suffix_cut_ok,
};
use crate::text::{
    chars_of, eq_ignore_ascii_case, eq_ignore_case, is_ascii_alpha, lowercase_of, push_char, trim,
    CharClass,
};
use crate::exec::{launch_views, run, run_plan, Launch};

verus! {

broadcast use vstd::string::group_string_axioms;

/// "C:" or "C:\" (any drive letter).
pub open spec fn is_drive_root_spec(p: Seq<char>) -> bool {
    (p.len() == 2 || p.len() == 3) && is_ascii_alpha(p[0]) && p[1] == ':' && (p.len() == 2 || p[2]
        == '\\')
}

/// Whether a path is a drive root such as "C:" or "C:\".
pub fn is_drive_root(path: &str) -> (b: bool)
    ensures
        b == is_drive_root_spec(path@),
{
    let v = chars_of(path);
    (v.len() == 2 || v.len() == 3) && (('a' <= v[0] && v[0] <= 'z') || ('A' <= v[0] && v[0]
        <= 'Z')) && v[1] == ':' && (v.len() == 2 || v[2] == '\\')
}

/// Kind of a selected item or background folder. `desktop` is the path of
/// the user's desktop folder, when it could be determined.
pub open spec fn classify_spec(
    p: Seq<char>,
    is_dir: bool,
    is_background: bool,
    desktop: Option<Seq<char>>,
) -> FileType {
    if !is_dir {
        FileType::File
    } else if is_background {
        match desktop {
            Some(d) => if eq_ignore_ascii_case(d, p) {
                FileType::Desktop
            } else {
                FileType::Background
            },
            None => FileType::Background,
        }
    } else if is_drive_root_spec(p) {
        FileType::Drive
    } else {
        FileType::Directory
    }
}

/// Classify a single selected item / background folder.
pub fn classify(path: &str, is_dir: bool, is_background: bool, desktop: Option<&str>) -> (r:
    FileType)
    ensures
        r == classify_spec(
            path@,
            is_dir,
            is_background,
            match desktop {
                Some(d) => Some(d@),
                None => None,
            },
        ),
{
    if !is_dir {
        return FileType::File;
    }
    if is_background {
        if let Some(desk) = desktop {
            let d = chars_of(desk);
            let p = chars_of(path);
            if eq_ignore_case(&d, &p) {
                return FileType::Desktop;
            }
        }
        return FileType::Background;
    }
    if is_drive_root(path) {
        FileType::Drive
    } else {
        FileType::Directory
    }
}

/// File name of a selected item, and its lowercase extension (empty for
/// anything but files).
pub fn name_and_ext(path: &str, file_type: FileType) -> (r: (String, String))
    ensures
        r.0@ == path_parts(path@).name,
        r.1@ == (if file_type == FileType::File {
            lowercase_of(path_parts(path@).extension)
        } else {
            Seq::<char>::empty()
        }),
{
    let vars = crate::config::PathVars::from_path(path);
    match file_type {
        FileType::File => {
            let e = vars.ext_lower();
            (vars.name, e)
        },
        _ => (vars.name, String::new()),
    }
}

// ------------------------------------------------------------------ matching

/// Whether a config applies to the whole selection: more than one item needs
/// multi-selection support, and every item must be accepted.
pub open spec fn config_matches(
    c: MenuConfig,
    types: Seq<FileType>,
    names: Seq<Seq<char>>,
    exts: Seq<Seq<char>>,
) -> bool {
    &&& (types.len() > 1 ==> (c.accept_multiple_files_flag == MULTI_EACH
        || c.accept_multiple_files_flag == MULTI_JOIN))
    &&& forall|i: int| 0 <= i < types.len() ==> accepts_spec(c, #[trigger] types[i], names[i], exts[i])
}

/// The configs (in order) that apply to the selection.
pub open spec fn matching_of(
    cs: Seq<MenuConfig>,
    types: Seq<FileType>,
    names: Seq<Seq<char>>,
    exts: Seq<Seq<char>>,
) -> Seq<MenuConfig>
    decreases cs.len(),
{
    if cs.len() == 0 {
        cs
    } else {
        let r = matching_of(cs.drop_last(), types, names, exts);
        if config_matches(cs.last(), types, names, exts) {
            r.push(cs.last())
        } else {
            r
        }
    }
}

fn config_matches_exec(
    c: &MenuConfig,
    types: &[FileType],
    names: &[String],
    exts: &[String],
) -> (b: bool)
    requires
        names@.len() == types@.len(),
        exts@.len() == types@.len(),
    ensures
        b == config_matches(*c, types@, string_views(names@), string_views(exts@)),
{
    if types.len() > 1 && !c.accepts_multiple() {
        return false;
    }
    let mut i: usize = 0;
    while i < types.len()
        invariant
            i <= types@.len(),
            names@.len() == types@.len(),
            exts@.len() == types@.len(),
            forall|j: int|
                0 <= j < i ==> accepts_spec(
                    *c,
                    #[trigger] types@[j],
                    string_views(names@)[j],
                    string_views(exts@)[j],
                ),
        decreases types@.len() - i,
    {
        assert(string_views(names@)[i as int] == names@[i as int]@);
        assert(string_views(exts@)[i as int] == exts@[i as int]@);
        if !c.accepts(types[i], names[i].as_str(), exts[i].as_str()) {
            return false;
        }
        i += 1;
    }
    true
}

/// The configs that apply to a selection: every selected item (of kind
/// `types[i]`, file name `names[i]`, lowercase extension `exts[i]`) must be
/// accepted, and a selection of several items needs multi-selection support.
pub fn matching_configs(
    configs: Vec<MenuConfig>,
    types: &[FileType],
    names: &[String],
    exts: &[String],
) -> (r: Vec<MenuConfig>)
    requires
        names@.len() == types@.len(),
        exts@.len() == types@.len(),
    ensures
        r@ == matching_of(configs@, types@, string_views(names@), string_views(exts@)),
{
    let ghost cs = configs@;
    let n = configs.len();
    let mut rest = configs;
    let mut r: Vec<MenuConfig> = Vec::new();
    let mut i: usize = 0;
    assert(cs.take(0) =~= Seq::<MenuConfig>::empty());
    assert(cs.skip(0) =~= cs);
    while rest.len() > 0
        invariant
            names@.len() == types@.len(),
            exts@.len() == types@.len(),
            i <= cs.len(),
            n == cs.len(),
            rest@ == cs.skip(i as int),
            r@ == matching_of(cs.take(i as int), types@, string_views(names@), string_views(exts@)),
        decreases rest@.len(),
    {
        let c = rest.remove(0);
        assert(c == cs[i as int]);
        assert(rest@ =~= cs.skip(i + 1));
        assert(cs.take(i + 1).drop_last() =~= cs.take(i as int));
        if config_matches_exec(&c, types, names, exts) {
            r.push(c);
        }
        i += 1;
    }
    assert(cs.take(cs.len() as int) =~= cs);
    r
}

// ------------------------------------------------------------------ CLSID mapping

/// Title of the flyout of a CLSID that serves several (or all) configs.
pub open spec fn default_group_title_of() -> Seq<char> {
    "Custom Menu"@
}

/// See `default_group_title_of`.
pub fn default_group_title() -> (r: String)
    ensures
        r@ == default_group_title_of(),
{
    String::from_str("Custom Menu")
}

/// One `packages.json` entry: the flyout title and the config files served
/// by a CLSID (`None` = all files).
#[derive(Debug, Clone)]
pub struct MappingEntry {
    pub title: String,
    /// Config file names served by this CLSID. None => all files.
    pub files: Option<Vec<String>>,
}

impl Default for MappingEntry {
    fn default() -> (r: MappingEntry)
        ensures
            r.title@ == default_group_title_of(),
            r.files is None,
    {
        MappingEntry { title: default_group_title(), files: None }
    }
}

/// Hex digits of a 32-bit value, most significant first.
pub open spec fn hex_u32(v: u32) -> Seq<char> {
    hex2((v / 0x100_0000) as u8) + hex2(((v / 0x1_0000) % 0x100) as u8) + hex2(
        ((v / 0x100) % 0x100) as u8,
    ) + hex2((v % 0x100) as u8)
}

pub open spec fn hex_u16(v: u16) -> Seq<char> {
    hex2((v / 0x100) as u8) + hex2((v % 0x100) as u8)
}

/// A GUID given by its fields, uppercase, no braces:
/// "AAAAAAAA-BBBB-CCCC-DDDD-EEEEEEEEEEEE".
pub open spec fn format_guid_of(data1: u32, data2: u16, data3: u16, data4: Seq<u8>) -> Seq<char> {
    hex_u32(data1) + seq!['-'] + hex_u16(data2) + seq!['-'] + hex_u16(data3) + seq!['-'] + hex2(
        data4[0],
    ) + hex2(data4[1]) + seq!['-'] + hex2(data4[2]) + hex2(data4[3]) + hex2(data4[4]) + hex2(
        data4[5],
    ) + hex2(data4[6]) + hex2(data4[7])
}

/// Uppercase, no braces: "AAAAAAAA-BBBB-CCCC-DDDD-EEEEEEEEEEEE".
pub fn format_guid(data1: u32, data2: u16, data3: u16, data4: [u8; 8]) -> (r: String)
    ensures
        r@ == format_guid_of(data1, data2, data3, data4@),
{
    let mut r = String::new();
    push_hex_pair(&mut r, (data1 / 0x100_0000) as u8);
    push_hex_pair(&mut r, ((data1 / 0x1_0000) % 0x100) as u8);
    push_hex_pair(&mut r, ((data1 / 0x100) % 0x100) as u8);
    push_hex_pair(&mut r, (data1 % 0x100) as u8);
    push_char(&mut r, '-');
    push_hex_pair(&mut r, (data2 / 0x100) as u8);
    push_hex_pair(&mut r, (data2 % 0x100) as u8);
    push_char(&mut r, '-');
    push_hex_pair(&mut r, (data3 / 0x100) as u8);
    push_hex_pair(&mut r, (data3 % 0x100) as u8);
    push_char(&mut r, '-');
    push_hex_pair(&mut r, data4[0]);
    push_hex_pair(&mut r, data4[1]);
    push_char(&mut r, '-');
    push_hex_pair(&mut r, data4[2]);
    push_hex_pair(&mut r, data4[3]);
    push_hex_pair(&mut r, data4[4]);
    push_hex_pair(&mut r, data4[5]);
    push_hex_pair(&mut r, data4[6]);
    push_hex_pair(&mut r, data4[7]);
    assert(r@ =~= format_guid_of(data1, data2, data3, data4@));
    r
}

/// Whether a `packages.json` key names the CLSID `guid` (formatted as by
/// `format_guid`): braces around the key and letter case are ignored.
pub open spec fn clsid_key_matches_spec(key: Seq<char>, guid: Seq<char>) -> bool {
    eq_ignore_ascii_case(trim(key, CharClass::Brace), guid)
}

/// See `clsid_key_matches_spec`.
pub fn clsid_key_matches(key: &str, guid: &str) -> (b: bool)
    ensures
        b == clsid_key_matches_spec(key@, guid@),
{
    let k = chars_of(key);
    let t = crate::text::trimmed(&k, CharClass::Brace);
    let g = chars_of(guid);
    eq_ignore_case(&t, &g)
}

// ------------------------------------------------------------------ title and icon

/// Title of the root command: a single matching config is shown directly
/// (its per-extension title), several share one flyout under the package
/// title.
pub open spec fn root_title_of(
    matched: Seq<MenuConfig>,
    exts: Seq<Seq<char>>,
    group_title: Seq<char>,
) -> Seq<char> {
    if matched.len() == 1 {
        match covering_rule(matched[0].title_rules@, exts) {
            Some(i) => matched[0].title_rules@[i].title@,
            None => matched[0].title@,
        }
    } else {
        group_title
    }
}

/// See `root_title_of`.
pub fn root_title<'a>(matched: &'a [MenuConfig], exts: &[String], group_title: &'a str) -> (r:
    &'a str)
    ensures
        r@ == root_title_of(matched@, string_views(exts@), group_title@),
{
    if matched.len() == 1 {
        matched[0].title_for(exts)
    } else {
        group_title
    }
}

/// Where the menu icon of a config is looked up: generated icon files (in
/// the icons dir) to try in order, then the icon spec to fall back on
/// (%EnvVars% still to be expanded).
pub struct IconChoice {
    pub generated: Vec<String>,
    pub fallback: String,
}

pub open spec fn icon_choice_generated(c: MenuConfig, dark: bool) -> Seq<Seq<char>> {
    if badge_spec_of(c) is Some || c.copy_icon {
        let s = slug_of(c.source_file@);
        if dark && c.icon_dark@.len() != 0 {
            seq![generated_icon_name_of(s, true), generated_icon_name_of(s, false)]
        } else {
            seq![generated_icon_name_of(s, false)]
        }
    } else {
        Seq::empty()
    }
}

pub open spec fn icon_choice_fallback(c: MenuConfig, dark: bool) -> Seq<char> {
    if dark && c.icon_dark@.len() != 0 {
        resolve_icon_of(c, c.icon_dark@)
    } else {
        resolve_icon_of(c, c.icon@)
    }
}

/// The icon lookup of a config in light or dark mode. Copied/shield-badged
/// icons are pre-generated by the installer; only a path lookup happens
/// in Explorer.
pub fn icon_of(cfg: &MenuConfig, dark: bool) -> (r: IconChoice)
    requires
        suffix_cut_ok(cfg.source_file@),
    ensures
        string_views(r.generated@) == icon_choice_generated(*cfg, dark),
        r.fallback@ == icon_choice_fallback(*cfg, dark),
{
    let mut generated: Vec<String> = Vec::new();
    if cfg.uses_generated_icon() {
        let s = slug(cfg.source_file.as_str());
        if dark && !cfg.icon_dark.as_str().is_empty() {
            generated.push(generated_icon_name(s.as_str(), true));
        }
        generated.push(generated_icon_name(s.as_str(), false));
    }
    assert(string_views(generated@) =~= icon_choice_generated(*cfg, dark));
    let fallback = if dark && !cfg.icon_dark.as_str().is_empty() {
        String::from_str(cfg.resolve_icon_spec(cfg.icon_dark.as_str()))
    } else {
        String::from_str(cfg.resolve_icon_spec(cfg.icon.as_str()))
    };
    IconChoice { generated, fallback }
}


// ------------------------------------------------------------------ root command

/// Copies of the strings of `v`.
pub fn copy_strings(v: &[String]) -> (r: Vec<String>)
    ensures
        string_views(r@) == string_views(v@),
{
    let mut r: Vec<String> = Vec::new();
    let mut i: usize = 0;
    while i < v.len()
        invariant
            i <= v@.len(),
            r@.len() == i,
            string_views(r@) == string_views(v@).take(i as int),
        decreases v@.len() - i,
    {
        let ghost prev = r@;
        r.push(String::from_str(v[i].as_str()));
        assert forall|k: int| 0 <= k < i + 1 implies #[trigger] string_views(r@)[k] == string_views(
            v@,
        ).take(i + 1)[k] by {
            if k < i {
                assert(r@[k] == prev[k]);
                assert(string_views(prev)[k] == string_views(v@).take(i as int)[k]);
            }
        }
        i += 1;
        assert(string_views(r@) =~= string_views(v@).take(i as int));
    }
    assert(string_views(v@).take(v@.len() as int) =~= string_views(v@));
    r
}

pub open spec fn opt_views(o: Option<Vec<String>>) -> Option<Seq<Seq<char>>> {
    match o {
        Some(v) => Some(string_views(v@)),
        None => None,
    }
}

/// The top-level Explorer command of one CLSID: its package title and the
/// config files it serves (`None` = all), and what the last selection
/// matched: the configs, the selected paths, their lowercase extensions
/// (empty for folders) and whether dark mode is on.
pub struct RootCommand {
    pub title: String,
    pub files: Option<Vec<String>>,
    pub matched: Vec<MenuConfig>,
    pub paths: Vec<String>,
    pub exts: Vec<String>,
    pub dark: bool,
}

/// Names of the selected items (see `name_and_ext`).
pub open spec fn item_names(items: Seq<(String, FileType)>) -> Seq<Seq<char>> {
    items.map_values(|it: (String, FileType)| path_parts(it.0@).name)
}

/// Extensions of the selected items (see `name_and_ext`).
pub open spec fn item_exts(items: Seq<(String, FileType)>) -> Seq<Seq<char>> {
    items.map_values(
        |it: (String, FileType)|
            if it.1 == FileType::File {
                lowercase_of(path_parts(it.0@).extension)
            } else {
                Seq::<char>::empty()
            },
    )
}

pub open spec fn item_types(items: Seq<(String, FileType)>) -> Seq<FileType> {
    items.map_values(|it: (String, FileType)| it.1)
}

pub open spec fn item_paths(items: Seq<(String, FileType)>) -> Seq<Seq<char>> {
    items.map_values(|it: (String, FileType)| it.0@)
}

impl RootCommand {
    /// A root command for a `packages.json` entry, with nothing matched yet.
    pub fn new(entry: &MappingEntry) -> (r: RootCommand)
        ensures
            r.title@ == entry.title@,
            opt_views(r.files) == opt_views(entry.files),
            r.matched@.len() == 0,
            r.paths@.len() == 0,
            r.exts@.len() == 0,
            !r.dark,
    {
        let files = match &entry.files {
            Some(f) => Some(copy_strings(f.as_slice())),
            None => None,
        };
        RootCommand {
            title: String::from_str(entry.title.as_str()),
            files,
            matched: Vec::new(),
            paths: Vec::new(),
            exts: Vec::new(),
            dark: false,
        }
    }

    /// Takes a selection (each item's path and kind) and the configs this
    /// command serves: records the configs that match it (`matching_configs`),
    /// the paths, their extensions and the theme, and says whether any
    /// matched. An empty selection matches nothing and changes nothing.
    pub fn update(&mut self, items: &[(String, FileType)], configs: Vec<MenuConfig>, dark: bool) -> (r:
        bool)
        ensures
            items@.len() == 0 ==> !r && *final(self) == *old(self),
            items@.len() > 0 ==> {
                &&& final(self).matched@ == matching_of(
                    configs@,
                    item_types(items@),
                    item_names(items@),
                    item_exts(items@),
                )
                &&& string_views(final(self).paths@) == item_paths(items@)
                &&& string_views(final(self).exts@) == item_exts(items@)
                &&& final(self).dark == dark
                &&& final(self).title == old(self).title
                &&& final(self).files == old(self).files
                &&& r == (final(self).matched@.len() > 0)
            },
    {
        if items.len() == 0 {
            return false;
        }
        let mut types: Vec<FileType> = Vec::new();
        let mut names: Vec<String> = Vec::new();
        let mut exts: Vec<String> = Vec::new();
        let mut paths: Vec<String> = Vec::new();
        let mut i: usize = 0;
        while i < items.len()
            invariant
                i <= items@.len(),
                names@.len() == i,
                exts@.len() == i,
                paths@.len() == i,
                types@ == item_types(items@).take(i as int),
                string_views(names@) == item_names(items@).take(i as int),
                string_views(exts@) == item_exts(items@).take(i as int),
                string_views(paths@) == item_paths(items@).take(i as int),
            decreases items@.len() - i,
        {
            let (name, ext) = name_and_ext(items[i].0.as_str(), items[i].1);
            let ghost pn = names@;
            let ghost pe = exts@;
            let ghost pp = paths@;
            types.push(items[i].1);
            names.push(name);
            exts.push(ext);
            paths.push(String::from_str(items[i].0.as_str()));
            assert forall|k: int| 0 <= k < i + 1 implies #[trigger] string_views(names@)[k]
                == item_names(items@).take(i + 1)[k] by {
                if k < i {
                    assert(names@[k] == pn[k]);
                    assert(string_views(pn)[k] == item_names(items@).take(i as int)[k]);
                }
            }
            assert forall|k: int| 0 <= k < i + 1 implies #[trigger] string_views(exts@)[k]
                == item_exts(items@).take(i + 1)[k] by {
                if k < i {
                    assert(exts@[k] == pe[k]);
                    assert(string_views(pe)[k] == item_exts(items@).take(i as int)[k]);
                }
            }
            assert forall|k: int| 0 <= k < i + 1 implies #[trigger] string_views(paths@)[k]
                == item_paths(items@).take(i + 1)[k] by {
                if k < i {
                    assert(paths@[k] == pp[k]);
                    assert(string_views(pp)[k] == item_paths(items@).take(i as int)[k]);
                }
            }
            i += 1;
            assert(types@ =~= item_types(items@).take(i as int));
            assert(string_views(names@) =~= item_names(items@).take(i as int));
            assert(string_views(exts@) =~= item_exts(items@).take(i as int));
            assert(string_views(paths@) =~= item_paths(items@).take(i as int));
        }
        assert(item_types(items@).take(i as int) =~= item_types(items@));
        assert(item_names(items@).take(i as int) =~= item_names(items@));
        assert(item_exts(items@).take(i as int) =~= item_exts(items@));
        assert(item_paths(items@).take(i as int) =~= item_paths(items@));
        let matched = matching_configs(configs, types.as_slice(), names.as_slice(), exts.as_slice());
        let any = matched.len() > 0;
        self.matched = matched;
        self.paths = paths;
        self.exts = exts;
        self.dark = dark;
        any
    }

    /// Title shown: see `root_title`.
    pub fn get_title(&self) -> (r: &str)
        ensures
            r@ == root_title_of(self.matched@, string_views(self.exts@), self.title@),
    {
        root_title(self.matched.as_slice(), self.exts.as_slice(), self.title.as_str())
    }

    /// Icon lookup of the single matched config; `None` (no icon) otherwise.
    pub fn get_icon(&self) -> (r: Option<IconChoice>)
        requires
            self.matched@.len() == 1 ==> suffix_cut_ok(self.matched@[0].source_file@),
        ensures
            r is Some <==> self.matched@.len() == 1,
            r matches Some(ic) ==> string_views(ic.generated@) == icon_choice_generated(
                self.matched@[0],
                self.dark,
            ) && ic.fallback@ == icon_choice_fallback(self.matched@[0], self.dark),
    {
        if self.matched.len() == 1 {
            Some(icon_of(&self.matched[0], self.dark))
        } else {
            None
        }
    }

    /// Several matched configs make a flyout of sub-commands.
    pub fn has_sub_commands(&self) -> (r: bool)
        ensures
            r == (self.matched@.len() > 1),
    {
        self.matched.len() > 1
    }

    /// What invoking the command runs: the single matched config on the
    /// selection; nothing when several matched (each sub-command runs its own).
    pub fn invoke(&self) -> (r: Vec<Launch>)
        ensures
            self.matched@.len() == 1 ==> launch_views(r@) == run_plan(
                self.matched@[0],
                string_views(self.paths@),
            ),
            self.matched@.len() != 1 ==> r@.len() == 0,
    {
        if self.matched.len() == 1 {
            run(&self.matched[0], self.paths.as_slice())
        } else {
            Vec::new()
        }
    }

    /// Titles of the sub-commands of the flyout, one per matched config, in
    /// order; none unless several configs matched.
    pub fn sub_titles(&self) -> (r: Vec<String>)
        ensures
            self.matched@.len() <= 1 ==> r@.len() == 0,
            self.matched@.len() > 1 ==> r@.len() == self.matched@.len() && forall|k: int|
                0 <= k < r@.len() ==> #[trigger] r@[k]@ == root_title_of(
                    seq![self.matched@[k]],
                    string_views(self.exts@),
                    self.title@,
                ),
    {
        let mut r: Vec<String> = Vec::new();
        if self.matched.len() <= 1 {
            return r;
        }
        let mut i: usize = 0;
        while i < self.matched.len()
            invariant
                self.matched@.len() > 1,
                i <= self.matched@.len(),
                r@.len() == i,
                forall|k: int|
                    0 <= k < i ==> #[trigger] r@[k]@ == root_title_of(
                        seq![self.matched@[k]],
                        string_views(self.exts@),
                        self.title@,
                    ),
            decreases self.matched@.len() - i,
        {
            let t = self.matched[i].title_for(self.exts.as_slice());
            r.push(String::from_str(t));
            i += 1;
        }
        r
    }
}

/// The class factory of one CLSID: makes root commands for its mapping entry.
pub struct ClassFactory {
    pub entry: MappingEntry,
}

impl ClassFactory {
    /// A new root command; `None` when asked to aggregate (`has_outer`),
    /// which is not supported.
    pub fn create_instance(&self, has_outer: bool) -> (r: Option<RootCommand>)
        ensures
            r is None <==> has_outer,
            r matches Some(c) ==> c.title@ == self.entry.title@ && opt_views(c.files) == opt_views(
                self.entry.files,
            ) && c.matched@.len() == 0 && c.paths@.len() == 0 && c.exts@.len() == 0 && !c.dark,
    {
        if has_outer {
            None
        } else {
            Some(RootCommand::new(&self.entry))
        }
    }
}

/// Window class of Explorer's folder tree, where the command stays visible.
pub open spec fn tree_class_of() -> Seq<char> {
    "NamespaceTreeControl"@
}

/// Whether the host window (its class name, `None` when it could not be
/// read) is the classic menu, where the command hides: every host but the
/// folder tree.
pub fn is_classic_menu_host(class_name: Option<&str>) -> (r: bool)
    ensures
        r == match class_name {
            Some(c) => c@ != tree_class_of(),
            None => true,
        },
{
    match class_name {
        Some(c) => {
            let v = chars_of(c);
            !crate::text::chars_eq_str(&v, "NamespaceTreeControl")
        },
        None => true,
    }
}

/// Position of an enumeration of `len` sub-commands.
pub struct CommandCursor {
    pub len: usize,
    pub pos: usize,
}

impl CommandCursor {
    pub open spec fn wf(&self) -> bool {
        self.pos <= self.len
    }

    pub fn new(len: usize) -> (r: CommandCursor)
        ensures
            r.wf(),
            r.len == len,
            r.pos == 0,
    {
        CommandCursor { len, pos: 0 }
    }

    /// Hands out up to `celt` items from the current position: returns the
    /// index of the first and how many; the enumeration has given all that
    /// was asked when that is `celt`.
    pub fn next(&mut self, celt: u32) -> (r: (usize, u32))
        requires
            old(self).wf(),
        ensures
            final(self).wf(),
            final(self).len == old(self).len,
            r.0 == old(self).pos,
            r.1 as int == if celt as int <= old(self).len - old(self).pos {
                celt as int
            } else {
                old(self).len - old(self).pos
            },
            final(self).pos == old(self).pos + r.1,
    {
        let start = self.pos;
        let mut fetched: u32 = 0;
        while fetched < celt && self.pos < self.len
            invariant
                self.pos <= self.len,
                self.len == old(self).len,
                fetched <= celt,
                self.pos == start + fetched,
                start == old(self).pos,
            decreases celt - fetched,
        {
            self.pos += 1;
            fetched += 1;
        }
        (start, fetched)
    }

    /// Skips `celt` items, stopping at the end.
    pub fn skip(&mut self, celt: u32)
        requires
            old(self).wf(),
        ensures
            final(self).wf(),
            final(self).len == old(self).len,
            final(self).pos == if old(self).pos + celt <= old(self).len {
                old(self).pos + celt
            } else {
                old(self).len as int
            },
    {
        let room = self.len - self.pos;
        if (celt as usize) <= room {
            self.pos = self.pos + celt as usize;
        } else {
            self.pos = self.len;
        }
    }

    /// Back to the first item.
    pub fn reset(&mut self)
        ensures
            final(self).len == old(self).len,
            final(self).pos == 0,
            final(self).wf(),
    {
        self.pos = 0;
    }
}


/// Index of the first of `keys` (the `packages.json` CLSIDs, in the order
/// given) that names the CLSID `guid`; `None` when none does, and the
/// default entry applies.
pub fn find_entry(keys: &[String], guid: &str) -> (r: Option<usize>)
    ensures
        match r {
            Some(i) => i < keys@.len() && clsid_key_matches_spec(keys@[i as int]@, guid@) && forall|
                j: int,
            | 0 <= j < i ==> !clsid_key_matches_spec(#[trigger] keys@[j]@, guid@),
            None => forall|j: int|
                0 <= j < keys@.len() ==> !clsid_key_matches_spec(#[trigger] keys@[j]@, guid@),
        },
{
    let mut i: usize = 0;
    while i < keys.len()
        invariant
            i <= keys@.len(),
            forall|j: int| 0 <= j < i ==> !clsid_key_matches_spec(#[trigger] keys@[j]@, guid@),
        decreases keys@.len() - i,
    {
        if clsid_key_matches(keys[i].as_str(), guid) {
            return Some(i);
        }
        i += 1;
    }
    None
}


// ------------------------------------------------------------------ laws

/// Every config of a selection's matches applies to the whole selection,
/// and the matches keep the configs' order: they are the configs that
/// apply, each taken from the list given.
pub proof fn matched_configs_apply(
    cs: Seq<MenuConfig>,
    types: Seq<FileType>,
    names: Seq<Seq<char>>,
    exts: Seq<Seq<char>>,
)
    ensures
        matching_of(cs, types, names, exts).len() <= cs.len(),
        forall|k: int|
            0 <= k < matching_of(cs, types, names, exts).len() ==> config_matches(
                #[trigger] matching_of(cs, types, names, exts)[k],
                types,
                names,
                exts,
            ) && cs.contains(matching_of(cs, types, names, exts)[k]),
    decreases cs.len(),
{
    if cs.len() > 0 {
        let rest = cs.drop_last();
        matched_configs_apply(rest, types, names, exts);
        let r = matching_of(rest, types, names, exts);
        let m = matching_of(cs, types, names, exts);
        assert forall|k: int| 0 <= k < m.len() implies config_matches(
            #[trigger] m[k],
            types,
            names,
            exts,
        ) && cs.contains(m[k]) by {
            if k < r.len() {
                assert(m[k] == r[k]);
                let j = choose|j: int| 0 <= j < rest.len() && rest[j] == r[k];
                assert(cs[j] == rest[j]);
            } else {
                assert(m[k] == cs.last());
                assert(cs[cs.len() - 1] == cs.last());
            }
        }
    }
}

/// A config is shown for a selection exactly when it accepts every selected
/// item and, when more than one item is selected, takes several items at
/// once, one launch each ("each") or all in one ("join"): matched alone, it
/// comes back then and only then.
pub proof fn shown_for_selection(
    c: MenuConfig,
    types: Seq<FileType>,
    names: Seq<Seq<char>>,
    exts: Seq<Seq<char>>,
)
    ensures
        matching_of(seq![c], types, names, exts) == if (forall|i: int|
            0 <= i < types.len() ==> #[trigger] accepts_spec(c, types[i], names[i], exts[i])) && (types.len()
            <= 1 || c.accept_multiple_files_flag == MULTI_EACH || c.accept_multiple_files_flag
            == MULTI_JOIN) {
            seq![c]
        } else {
            Seq::<MenuConfig>::empty()
        },
{
    let cs = seq![c];
    assert(cs.drop_last() =~= Seq::<MenuConfig>::empty());
    assert(cs.last() == c);
    assert(matching_of(cs.drop_last(), types, names, exts) =~= Seq::<MenuConfig>::empty());
    assert(Seq::<MenuConfig>::empty().push(c) =~= cs);
}

} // verus!
