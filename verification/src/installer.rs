//! Decisions of the installer (cmrsSetup): its command line, what a config
//! becomes (package identity, title, icons to generate, classic-menu
//! registry writes), file URIs for package registration, and which
//! installed items are stale.
use vstd::prelude::*;
use vstd::string::*;
use crate::config::{
    badge_location_of, badge_spec_of, corner_of_key, dir_flag_of, file_flag_of, norm_key,
    resolve_icon_of, string_views, Corner, MenuConfig,
};
use crate::setup::{
    clsid_of, deterministic_clsid, generated_icon_name, generated_icon_name_of, item_types_of,
    item_types_xml, slug, slug_of, suffix_cut_ok, ARG_FILE, ARG_FOLDER, ID_PREFIX, ROOT_ALL_FILES,
    ROOT_BACKGROUND, ROOT_DIRECTORY, ROOT_DRIVE,
};
use crate::text::{
    ascii_lower_seq, chars_eq_str, chars_of, concat, ends_with, eq_ignore_ascii_case,
    eq_ignore_case, push_char, push_chars, starts_with, trim, trim_ws, trimmed,
    CharClass,
};

verus! {

broadcast use vstd::string::group_string_axioms;

// ------------------------------------------------------------------ command line

/// The installer's commands.
#[derive(PartialEq, Eq, Structural, Clone, Copy, Debug)]
pub enum SetupCommand {
    Install,
    Sync,
    Uninstall,
    List,
    EnableDevMode,
}

/// What the command line asks for.
pub enum CliAction {
    /// Print the usage text and exit with 0 (`-h`, `--help`, `help`, or no
    /// command at all).
    Usage,
    /// Report the unknown argument, print the usage text and exit with 2.
    Unknown(String),
    /// Run a command; `--purge`, `--dll <path>` and `--exe <path>` as given.
    Run { command: SetupCommand, purge: bool, dll: Option<String>, exe: Option<String> },
}

/// Abstract value of a `CliAction`.
pub enum CliView {
    Usage,
    Unknown(Seq<char>),
    Run { command: SetupCommand, purge: bool, dll: Option<Seq<char>>, exe: Option<Seq<char>> },
}

pub open spec fn opt_str(o: Option<String>) -> Option<Seq<char>> {
    match o {
        Some(s) => Some(s@),
        None => None,
    }
}

impl View for CliAction {
    type V = CliView;

    open spec fn view(&self) -> CliView {
        match self {
            CliAction::Usage => CliView::Usage,
            CliAction::Unknown(a) => CliView::Unknown(a@),
            CliAction::Run { command, purge, dll, exe } => CliView::Run {
                command: *command,
                purge: *purge,
                dll: opt_str(*dll),
                exe: opt_str(*exe),
            },
        }
    }
}

/// The command a word names, if any.
pub open spec fn command_of(a: Seq<char>) -> Option<SetupCommand> {
    if a == "install"@ {
        Some(SetupCommand::Install)
    } else if a == "sync"@ {
        Some(SetupCommand::Sync)
    } else if a == "uninstall"@ {
        Some(SetupCommand::Uninstall)
    } else if a == "list"@ {
        Some(SetupCommand::List)
    } else if a == "enable-devmode"@ {
        Some(SetupCommand::EnableDevMode)
    } else {
        None
    }
}

pub open spec fn is_help(a: Seq<char>) -> bool {
    a == "-h"@ || a == "--help"@ || a == "help"@
}

/// The argument after position `i`, if there is one.
pub open spec fn value_after(args: Seq<Seq<char>>, i: int) -> Option<Seq<char>> {
    if i + 1 < args.len() {
        Some(args[i + 1])
    } else {
        None
    }
}

/// Reads `args` from position `i` on, with what was read before: the last
/// command named wins; `--dll` and `--exe` take the next argument (none at
/// the end); a help word or an unknown argument ends the reading at once.
pub open spec fn parse_from(
    args: Seq<Seq<char>>,
    i: int,
    cmd: Option<SetupCommand>,
    purge: bool,
    dll: Option<Seq<char>>,
    exe: Option<Seq<char>>,
) -> CliView
    decreases args.len() + 1 - i,
{
    if i < 0 || i >= args.len() {
        match cmd {
            Some(c) => CliView::Run { command: c, purge, dll, exe },
            None => CliView::Usage,
        }
    } else {
        let a = args[i];
        if command_of(a) is Some {
            parse_from(args, i + 1, command_of(a), purge, dll, exe)
        } else if a == "--purge"@ {
            parse_from(args, i + 1, cmd, true, dll, exe)
        } else if a == "--dll"@ {
            parse_from(args, i + 2, cmd, purge, value_after(args, i), exe)
        } else if a == "--exe"@ {
            parse_from(args, i + 2, cmd, purge, dll, value_after(args, i))
        } else if is_help(a) {
            CliView::Usage
        } else {
            CliView::Unknown(a)
        }
    }
}

/// Reads the installer's arguments (without the program name).
pub fn parse_args(args: &[String]) -> (r: CliAction)
    ensures
        r@ == parse_from(string_views(args@), 0, None, false, None, None),
{
    let ghost a = string_views(args@);
    let mut cmd: Option<SetupCommand> = None;
    let mut purge = false;
    let mut dll: Option<String> = None;
    let mut exe: Option<String> = None;
    let mut i: usize = 0;
    while i < args.len()
        invariant
            a == string_views(args@),
            i <= args@.len(),
            parse_from(a, i as int, cmd, purge, opt_str(dll), opt_str(exe)) == parse_from(
                a,
                0,
                None,
                false,
                None,
                None,
            ),
        decreases args@.len() - i,
    {
        proof {
            reveal_strlit("install");
            reveal_strlit("sync");
            reveal_strlit("uninstall");
            reveal_strlit("list");
            reveal_strlit("enable-devmode");
            reveal_strlit("--purge");
            reveal_strlit("--dll");
            reveal_strlit("--exe");
            reveal_strlit("-h");
            reveal_strlit("--help");
            reveal_strlit("help");
        }
        let w = chars_of(args[i].as_str());
        assert(w@ == a[i as int]);
        let ghost i0 = i as int;
        let ghost st = (cmd, purge, opt_str(dll), opt_str(exe));
        if chars_eq_str(&w, "install") {
            cmd = Some(SetupCommand::Install);
            i += 1;
        } else if chars_eq_str(&w, "sync") {
            cmd = Some(SetupCommand::Sync);
            i += 1;
        } else if chars_eq_str(&w, "uninstall") {
            cmd = Some(SetupCommand::Uninstall);
            i += 1;
        } else if chars_eq_str(&w, "list") {
            cmd = Some(SetupCommand::List);
            i += 1;
        } else if chars_eq_str(&w, "enable-devmode") {
            cmd = Some(SetupCommand::EnableDevMode);
            i += 1;
        } else if chars_eq_str(&w, "--purge") {
            purge = true;
            i += 1;
        } else if chars_eq_str(&w, "--dll") {
            i += 1;
            if i < args.len() {
                dll = Some(String::from_str(args[i].as_str()));
                i += 1;
            } else {
                dll = None;
            }
            assert(parse_from(a, i0, st.0, st.1, st.2, st.3) == parse_from(
                a,
                i0 + 2,
                st.0,
                st.1,
                value_after(a, i0),
                st.3,
            ));
            assert(parse_from(a, i0 + 2, st.0, st.1, value_after(a, i0), st.3) == parse_from(
                a,
                i as int,
                cmd,
                purge,
                opt_str(dll),
                opt_str(exe),
            ));
        } else if chars_eq_str(&w, "--exe") {
            i += 1;
            if i < args.len() {
                exe = Some(String::from_str(args[i].as_str()));
                i += 1;
            } else {
                exe = None;
            }
            assert(parse_from(a, i0, st.0, st.1, st.2, st.3) == parse_from(
                a,
                i0 + 2,
                st.0,
                st.1,
                st.2,
                value_after(a, i0),
            ));
            assert(parse_from(a, i0 + 2, st.0, st.1, st.2, value_after(a, i0)) == parse_from(
                a,
                i as int,
                cmd,
                purge,
                opt_str(dll),
                opt_str(exe),
            ));
        } else if chars_eq_str(&w, "-h") || chars_eq_str(&w, "--help") || chars_eq_str(&w, "help") {
            return CliAction::Usage;
        } else {
            return CliAction::Unknown(String::from_str(args[i].as_str()));
        }
    }
    match cmd {
        Some(c) => CliAction::Run { command: c, purge, dll, exe },
        None => CliAction::Usage,
    }
}


// ------------------------------------------------------------------ packages

/// What one config file becomes: its slug, CLSID, package identity, menu
/// title and the package's item types (empty: the config matches nothing
/// and gets no package).
pub struct PackagePlan {
    pub slug: String,
    pub clsid: String,
    pub identity: String,
    pub title: String,
    pub item_types: String,
}

/// The entry title, or the slug when the title is blank.
pub open spec fn package_title_of(title: Seq<char>, slug: Seq<char>) -> Seq<char> {
    if trim_ws(title).len() == 0 {
        slug
    } else {
        title
    }
}

/// The package of the config `cfg` read from the file `file_name`.
pub fn plan_package(file_name: &str, cfg: &MenuConfig) -> (r: PackagePlan)
    requires
        suffix_cut_ok(file_name@),
    ensures
        r.slug@ == slug_of(file_name@),
        r.clsid@ == clsid_of(file_name@),
        r.identity@ == ID_PREFIX@ + slug_of(file_name@),
        r.title@ == package_title_of(cfg.title@, slug_of(file_name@)),
        r.item_types@ == item_types_of(dir_flag_of(*cfg), file_flag_of(*cfg), clsid_of(file_name@)),
{
    let slug = slug(file_name);
    let clsid = deterministic_clsid(file_name);
    let identity = concat(ID_PREFIX, slug.as_str());
    let tv = chars_of(cfg.title.as_str());
    let tt = trimmed(&tv, CharClass::Whitespace);
    let title = if tt.len() == 0 {
        String::from_str(slug.as_str())
    } else {
        String::from_str(cfg.title.as_str())
    };
    let item_types = item_types_xml(cfg.dir_flag(), cfg.file_flag(), clsid.as_str());
    PackagePlan { slug, clsid, identity, title, item_types }
}

// ------------------------------------------------------------------ icons

/// An icon file to generate for a config: the base icon spec and optional
/// badge (spec and corner), with %EnvVars% still to be expanded, the file
/// name in the icons dir, and whether it is the dark-mode variant.
pub struct IconJob {
    pub base: String,
    pub badge: Option<(String, Corner)>,
    pub file: String,
    pub dark: bool,
}

/// Abstract value of an `IconJob`.
pub struct IconJobView {
    pub base: Seq<char>,
    pub badge: Option<(Seq<char>, Corner)>,
    pub file: Seq<char>,
    pub dark: bool,
}

impl View for IconJob {
    type V = IconJobView;

    open spec fn view(&self) -> IconJobView {
        IconJobView {
            base: self.base@,
            badge: match self.badge {
                Some((b, c)) => Some((b@, c)),
                None => None,
            },
            file: self.file@,
            dark: self.dark,
        }
    }
}

pub open spec fn job_views(v: Seq<IconJob>) -> Seq<IconJobView> {
    v.map_values(|j: IconJob| j@)
}

/// The badge of a config's generated icons, resolved ("exe" = its exe).
pub open spec fn job_badge_of(c: MenuConfig) -> Option<(Seq<char>, Corner)> {
    match badge_spec_of(c) {
        Some(b) => Some((resolve_icon_of(c, b), corner_of_key(norm_key(badge_location_of(c))))),
        None => None,
    }
}

/// The icons to generate for a config with slug `slug`: none unless it uses
/// a generated icon; then the light icon when there is a badge or an icon,
/// and the dark one when there is a dark icon.
pub open spec fn icon_jobs_of(c: MenuConfig, slug: Seq<char>) -> Seq<IconJobView> {
    if !(badge_spec_of(c) is Some || c.copy_icon) {
        Seq::empty()
    } else {
        let badge = job_badge_of(c);
        (if badge is Some || trim_ws(c.icon@).len() != 0 {
            seq![
                IconJobView {
                    base: resolve_icon_of(c, c.icon@),
                    badge,
                    file: generated_icon_name_of(slug, false),
                    dark: false,
                },
            ]
        } else {
            Seq::empty()
        }) + (if trim_ws(c.icon_dark@).len() != 0 {
            seq![
                IconJobView {
                    base: resolve_icon_of(c, c.icon_dark@),
                    badge,
                    file: generated_icon_name_of(slug, true),
                    dark: true,
                },
            ]
        } else {
            Seq::empty()
        })
    }
}

fn copy_badge(b: &Option<(String, Corner)>) -> (r: Option<(String, Corner)>)
    ensures
        match r {
            Some((s, c)) => b matches Some((t, d)) && s@ == t@ && c == d,
            None => b is None,
        },
{
    match b {
        Some((s, c)) => Some((String::from_str(s.as_str()), *c)),
        None => None,
    }
}

/// See `icon_jobs_of`.
pub fn icon_jobs(cfg: &MenuConfig, slug: &str) -> (r: Vec<IconJob>)
    ensures
        job_views(r@) == icon_jobs_of(*cfg, slug@),
{
    let mut r: Vec<IconJob> = Vec::new();
    if !cfg.uses_generated_icon() {
        assert(job_views(r@) =~= icon_jobs_of(*cfg, slug@));
        return r;
    }
    let badge: Option<(String, Corner)> = match cfg.badge_spec() {
        Some(s) => Some((String::from_str(cfg.resolve_icon_spec(s)), cfg.badge_corner())),
        None => None,
    };
    let iv = chars_of(cfg.icon.as_str());
    let it = trimmed(&iv, CharClass::Whitespace);
    if badge.is_some() || it.len() != 0 {
        let b = copy_badge(&badge);
        r.push(
            IconJob {
                base: String::from_str(cfg.resolve_icon_spec(cfg.icon.as_str())),
                badge: b,
                file: generated_icon_name(slug, false),
                dark: false,
            },
        );
    }
    let dv = chars_of(cfg.icon_dark.as_str());
    let dt = trimmed(&dv, CharClass::Whitespace);
    if dt.len() != 0 {
        let b = copy_badge(&badge);
        r.push(
            IconJob {
                base: String::from_str(cfg.resolve_icon_spec(cfg.icon_dark.as_str())),
                badge: b,
                file: generated_icon_name(slug, true),
                dark: true,
            },
        );
    }
    assert(job_views(r@) =~= icon_jobs_of(*cfg, slug@));
    r
}

/// The icon spec of a config's menu entry when no generated icon replaces
/// it: its icon with surrounding quotes removed, resolved ("exe" = its exe);
/// %EnvVars% still to be expanded.
pub fn menu_icon_spec(cfg: &MenuConfig) -> (r: &str)
    ensures
        r@ == resolve_icon_of(*cfg, trim(cfg.icon@, CharClass::Quote)),
{
    let v = chars_of(cfg.icon.as_str());
    let (a, b) = crate::text::trim_bounds(&v, CharClass::Quote);
    let inner = cfg.icon.as_str().substring_char(a, b);
    cfg.resolve_icon_spec(inner)
}


// ------------------------------------------------------------------ classic menu

/// The classic-menu verbs of a config, as (registry parent, path
/// placeholder): folders, folder backgrounds and drives per its folder flag,
/// and all files when it accepts files at all.
pub open spec fn classic_verbs_of(c: MenuConfig) -> Seq<(Seq<char>, Seq<char>)> {
    let d = dir_flag_of(c);
    (if d & 1 != 0 {
        seq![(ROOT_DIRECTORY@, ARG_FOLDER@)]
    } else {
        Seq::empty()
    }) + (if d & 2 != 0 {
        seq![(ROOT_BACKGROUND@, ARG_FOLDER@)]
    } else {
        Seq::empty()
    }) + (if d & 8 != 0 {
        seq![(ROOT_DRIVE@, ARG_FOLDER@)]
    } else {
        Seq::empty()
    }) + (if file_flag_of(c) > 0 {
        seq![(ROOT_ALL_FILES@, ARG_FILE@)]
    } else {
        Seq::empty()
    })
}

pub open spec fn pair_views(v: Seq<(&'static str, &'static str)>) -> Seq<(Seq<char>, Seq<char>)> {
    v.map_values(|p: (&'static str, &'static str)| (p.0@, p.1@))
}

/// See `classic_verbs_of`.
pub fn classic_verbs(cfg: &MenuConfig) -> (r: Vec<(&'static str, &'static str)>)
    ensures
        pair_views(r@) == classic_verbs_of(*cfg),
{
    let d = cfg.dir_flag();
    let mut v: Vec<(&'static str, &'static str)> = Vec::new();
    if d & 1 != 0 {
        v.push((ROOT_DIRECTORY, ARG_FOLDER));
    }
    if d & 2 != 0 {
        v.push((ROOT_BACKGROUND, ARG_FOLDER));
    }
    if d & 8 != 0 {
        v.push((ROOT_DRIVE, ARG_FOLDER));
    }
    if cfg.file_flag() > 0 {
        v.push((ROOT_ALL_FILES, ARG_FILE));
    }
    assert(pair_views(v@) =~= classic_verbs_of(*cfg));
    v
}

/// One registry string value to set under HKCU: the key, the value name
/// (`None` for the key's default value) and the data.
pub struct RegWrite {
    pub key: String,
    pub name: Option<String>,
    pub data: String,
}

/// Abstract value of a `RegWrite`.
pub struct RegWriteView {
    pub key: Seq<char>,
    pub name: Option<Seq<char>>,
    pub data: Seq<char>,
}

impl View for RegWrite {
    type V = RegWriteView;

    open spec fn view(&self) -> RegWriteView {
        RegWriteView { key: self.key@, name: opt_str(self.name), data: self.data@ }
    }
}

pub open spec fn write_views(v: Seq<RegWrite>) -> Seq<RegWriteView> {
    v.map_values(|w: RegWrite| w@)
}

/// `"<runner>" "<file_name>" "<arg>"`: how a classic verb runs the runner.
pub open spec fn verb_command_of(runner: Seq<char>, file_name: Seq<char>, arg: Seq<char>) -> Seq<
    char,
> {
    seq!['"'] + runner + "\" \""@ + file_name + "\" \""@ + arg + seq!['"']
}

/// The registry writes of one classic verb under `root`: the verb key
/// `<root>\CtxRs.<slug>` gets the title, the icon (when there is one), and a
/// `command` subkey that runs the runner on the config file and the target.
pub open spec fn verb_writes_of(
    root: Seq<char>,
    arg: Seq<char>,
    slug: Seq<char>,
    title: Seq<char>,
    file_name: Seq<char>,
    icon: Seq<char>,
    runner: Seq<char>,
) -> Seq<RegWriteView> {
    let key = root + seq!['\\'] + ID_PREFIX@ + slug;
    seq![RegWriteView { key, name: None, data: title }] + (if icon.len() != 0 {
        seq![RegWriteView { key, name: Some("Icon"@), data: icon }]
    } else {
        Seq::empty()
    }) + seq![
        RegWriteView {
            key: key + "\\command"@,
            name: None,
            data: verb_command_of(runner, file_name, arg),
        },
    ]
}

/// The registry writes of all the verbs `verbs`, in order.
pub open spec fn classic_writes_of(
    verbs: Seq<(Seq<char>, Seq<char>)>,
    slug: Seq<char>,
    title: Seq<char>,
    file_name: Seq<char>,
    icon: Seq<char>,
    runner: Seq<char>,
) -> Seq<RegWriteView>
    decreases verbs.len(),
{
    if verbs.len() == 0 {
        Seq::empty()
    } else {
        classic_writes_of(verbs.drop_last(), slug, title, file_name, icon, runner) + verb_writes_of(
            verbs.last().0,
            verbs.last().1,
            slug,
            title,
            file_name,
            icon,
            runner,
        )
    }
}

fn push_verb_writes(
    out: &mut Vec<RegWrite>,
    root: &str,
    arg: &str,
    slug: &str,
    title: &str,
    file_name: &str,
    icon: &str,
    runner: &str,
)
    ensures
        write_views(final(out)@) == write_views(old(out)@) + verb_writes_of(
            root@,
            arg@,
            slug@,
            title@,
            file_name@,
            icon@,
            runner@,
        ),
{
    let mut key = String::from_str(root);
    push_char(&mut key, '\\');
    key.append(ID_PREFIX);
    key.append(slug);
    let ghost k = key@;
    assert(k =~= root@ + seq!['\\'] + ID_PREFIX@ + slug@);
    let ghost start = write_views(out@);
    out.push(RegWrite { key: String::from_str(key.as_str()), name: None, data: String::from_str(title) });
    if !icon.is_empty() {
        out.push(
            RegWrite {
                key: String::from_str(key.as_str()),
                name: Some(String::from_str("Icon")),
                data: String::from_str(icon),
            },
        );
    }
    let mut command = String::new();
    push_char(&mut command, '"');
    command.append(runner);
    command.append("\" \"");
    command.append(file_name);
    command.append("\" \"");
    command.append(arg);
    push_char(&mut command, '"');
    assert(command@ =~= verb_command_of(runner@, file_name@, arg@));
    let mut sub = key;
    sub.append("\\command");
    out.push(RegWrite { key: sub, name: None, data: command });
    assert(write_views(out@) =~= start + verb_writes_of(
        root@,
        arg@,
        slug@,
        title@,
        file_name@,
        icon@,
        runner@,
    ));
}

/// The registry writes that register a config's classic-menu verbs
/// (`classic_verbs`); `icon` empty for none, `runner` the installed runner.
pub fn classic_entries(
    slug: &str,
    title: &str,
    cfg: &MenuConfig,
    file_name: &str,
    icon: &str,
    runner: &str,
) -> (r: Vec<RegWrite>)
    ensures
        write_views(r@) == classic_writes_of(
            classic_verbs_of(*cfg),
            slug@,
            title@,
            file_name@,
            icon@,
            runner@,
        ),
{
    let verbs = classic_verbs(cfg);
    let ghost vs = pair_views(verbs@);
    let mut out: Vec<RegWrite> = Vec::new();
    let mut i: usize = 0;
    assert(vs.take(0) =~= Seq::<(Seq<char>, Seq<char>)>::empty());
    while i < verbs.len()
        invariant
            i <= verbs@.len(),
            vs == pair_views(verbs@),
            write_views(out@) == classic_writes_of(
                vs.take(i as int),
                slug@,
                title@,
                file_name@,
                icon@,
                runner@,
            ),
        decreases verbs@.len() - i,
    {
        let (root, arg) = verbs[i];
        push_verb_writes(&mut out, root, arg, slug, title, file_name, icon, runner);
        assert(vs.take(i + 1).drop_last() =~= vs.take(i as int));
        assert(vs.take(i + 1).last() == (root@, arg@));
        i += 1;
    }
    assert(vs.take(i as int) =~= vs);
    out
}

// ------------------------------------------------------------------ package registration

/// `p` with every backslash turned into a slash.
pub open spec fn slashed(p: Seq<char>) -> Seq<char> {
    p.map_values(|c: char| if c == '\\' {
        '/'
    } else {
        c
    })
}

/// How a character appears in a file URI: `%`, space, `#` and `?` are
/// percent-encoded, the rest is kept.
pub open spec fn uri_char(c: char) -> Seq<char> {
    if c == '%' {
        "%25"@
    } else if c == ' ' {
        "%20"@
    } else if c == '#' {
        "%23"@
    } else if c == '?' {
        "%3F"@
    } else {
        seq![c]
    }
}

pub open spec fn uri_escaped(s: Seq<char>) -> Seq<char>
    decreases s.len(),
{
    if s.len() == 0 {
        s
    } else {
        uri_escaped(s.drop_last()) + uri_char(s.last())
    }
}

/// The `file:///` URI of a Windows path.
pub open spec fn file_uri_of(p: Seq<char>) -> Seq<char> {
    "file:///"@ + crate::text::trim_start(uri_escaped(slashed(p)), CharClass::Slash)
}

/// See `file_uri_of`.
pub fn file_uri(path: &str) -> (r: String)
    ensures
        r@ == file_uri_of(path@),
{
    proof {
        reveal_strlit("%25");
        reveal_strlit("%20");
        reveal_strlit("%23");
        reveal_strlit("%3F");
    }
    let v = chars_of(path);
    let mut enc: Vec<char> = Vec::new();
    let mut i: usize = 0;
    assert(slashed(v@).take(0) =~= Seq::<char>::empty());
    while i < v.len()
        invariant
            i <= v@.len(),
            v@ == path@,
            enc@ == uri_escaped(slashed(v@).take(i as int)),
        decreases v@.len() - i,
    {
        proof {
            reveal_strlit("%25");
            reveal_strlit("%20");
            reveal_strlit("%23");
            reveal_strlit("%3F");
        }
        let c = if v[i] == '\\' {
            '/'
        } else {
            v[i]
        };
        assert(slashed(v@).take(i + 1).drop_last() =~= slashed(v@).take(i as int));
        assert(slashed(v@).take(i + 1).last() == c);
        let ghost before = enc@;
        if c == '%' {
            enc.push('%');
            enc.push('2');
            enc.push('5');
        } else if c == ' ' {
            enc.push('%');
            enc.push('2');
            enc.push('0');
        } else if c == '#' {
            enc.push('%');
            enc.push('2');
            enc.push('3');
        } else if c == '?' {
            enc.push('%');
            enc.push('3');
            enc.push('F');
        } else {
            enc.push(c);
        }
        assert(enc@ =~= before + uri_char(c));
        i += 1;
    }
    assert(slashed(v@).take(i as int) =~= slashed(v@));
    let t = crate::text::skip_class(&enc, 0, CharClass::Slash);
    assert(enc@.skip(0) =~= enc@);
    let rest = crate::text::slice_range(&enc, t, enc.len());
    assert(rest@ =~= enc@.skip(t as int));
    let mut r = String::from_str("file:///");
    push_chars(&mut r, &rest);
    r
}

/// Dev-mode registration refuses a same-version package whose contents
/// changed with this error code (0x80073CFB).
pub const PACKAGE_ALREADY_EXISTS: i32 = -2147009285i32;

/// Whether a failed registration is retried after removing the registered
/// package: only when the package already exists with other contents.
pub fn replaces_on_retry(code: i32) -> (r: bool)
    ensures
        r == (code == PACKAGE_ALREADY_EXISTS),
{
    code == PACKAGE_ALREADY_EXISTS
}

/// Windows' ERROR_SHARING_VIOLATION: the file is in use by a process.
pub const SHARING_VIOLATION: i32 = 32i32;

/// Whether a failed copy over an installed binary is retried after moving
/// the old file aside: only when the file is in use (a loaded DLL or exe
/// can be renamed, not overwritten).
pub fn moves_aside_on_retry(os_error: Option<i32>) -> (r: bool)
    ensures
        r == (os_error == Some(SHARING_VIOLATION)),
{
    match os_error {
        Some(code) => code == SHARING_VIOLATION,
        None => false,
    }
}

/// The name an in-use file is moved aside to: its name plus ".old".
pub fn aside_name(file_name: &str) -> (r: String)
    ensures
        r@ == file_name@ + ".old"@,
{
    concat(file_name, ".old")
}

/// How Developer Mode, which registering unsigned packages needs, gets on.
#[derive(PartialEq, Eq, Structural, Clone, Copy, Debug)]
pub enum DevModeAction {
    /// It is on already.
    Ready,
    /// Turn it on from this process, which runs as administrator.
    EnableHere,
    /// Turn it on from an elevated copy of the installer (a UAC prompt).
    EnableElevated,
}

/// What to do about Developer Mode given whether it is on and whether the
/// installer runs as administrator.
pub fn dev_mode_action(enabled: bool, is_admin: bool) -> (r: DevModeAction)
    ensures
        r == if enabled {
            DevModeAction::Ready
        } else if is_admin {
            DevModeAction::EnableHere
        } else {
            DevModeAction::EnableElevated
        },
{
    if enabled {
        DevModeAction::Ready
    } else if is_admin {
        DevModeAction::EnableHere
    } else {
        DevModeAction::EnableElevated
    }
}

pub open spec fn dev_mode_error_of() -> Seq<char> {
    "could not enable Developer Mode. Enable it manually: Settings > System > For developers > Developer Mode, then re-run."@
}

/// The outcome of `action` given whether the attempt turned Developer Mode
/// on (for `EnableElevated`: the elevated copy exited with 0 and the mode
/// is on now): success, or the instructions to turn it on by hand.
pub fn dev_mode_outcome(action: DevModeAction, turned_on: bool) -> (r: Result<(), String>)
    ensures
        r is Ok <==> (action == DevModeAction::Ready || turned_on),
        r matches Err(e) ==> e@ == dev_mode_error_of(),
{
    if action == DevModeAction::Ready || turned_on {
        Ok(())
    } else {
        Err(String::from_str(
            "could not enable Developer Mode. Enable it manually: Settings > System > For developers > Developer Mode, then re-run.",
        ))
    }
}

// ------------------------------------------------------------------ sync ledger

/// What a sync gathers as it goes through the configs: the packages.json
/// entries (CLSID, title, config file) of the configs that got a package,
/// the package identities of every config seen, and the icon files it
/// generated. The identities and icons are the ones that stay; everything
/// else of ours is stale once the sync is done.
pub struct SyncLedger {
    pub mapping: Vec<(String, String, String)>,
    pub live_identities: Vec<String>,
    pub live_icons: Vec<String>,
}

/// The entries of packages.json as character sequences.
pub open spec fn mapping_views(v: Seq<(String, String, String)>) -> Seq<(Seq<char>, Seq<char>, Seq<char>)> {
    v.map_values(|t: (String, String, String)| (t.0@, t.1@, t.2@))
}

impl SyncLedger {
    /// A ledger with nothing in it.
    pub fn new() -> (r: SyncLedger)
        ensures
            r.mapping@.len() == 0,
            r.live_identities@.len() == 0,
            r.live_icons@.len() == 0,
    {
        SyncLedger { mapping: Vec::new(), live_identities: Vec::new(), live_icons: Vec::new() }
    }

    /// Records the plan of the config read from `file_name`: its identity
    /// stays live whatever comes of it, and it gets a packages.json entry
    /// only when its package has item types. Returns whether it gets a
    /// package (a config that matches nothing is skipped).
    pub fn add_config(&mut self, plan: &PackagePlan, file_name: &str) -> (packaged: bool)
        ensures
            packaged == (plan.item_types@.len() > 0),
            string_views(final(self).live_identities@) == string_views(
                old(self).live_identities@,
            ).push(plan.identity@),
            mapping_views(final(self).mapping@) == if packaged {
                mapping_views(old(self).mapping@).push((plan.clsid@, plan.title@, file_name@))
            } else {
                mapping_views(old(self).mapping@)
            },
            final(self).live_icons@ == old(self).live_icons@,
    {
        let ghost ids = self.live_identities@;
        let ghost map = self.mapping@;
        self.live_identities.push(plan.identity.clone());
        assert(string_views(self.live_identities@) =~= string_views(ids).push(plan.identity@));
        if plan.item_types.as_str().is_empty() {
            return false;
        }
        self.mapping.push((plan.clsid.clone(), plan.title.clone(), String::from_str(file_name)));
        assert(mapping_views(self.mapping@) =~= mapping_views(map).push(
            (plan.clsid@, plan.title@, file_name@),
        ));
        true
    }

    /// Records what came of the icon job `job`: a generated icon file stays
    /// live, and the light variant's file `dest` becomes the menu icon; when
    /// generation failed the menu icon stays as it was (the config's own
    /// icon spec). Returns whether to warn: the light variant failed.
    pub fn add_icon(&mut self, job: &IconJob, generated: bool, dest: &str, menu_icon: &mut String) -> (warn:
        bool)
        ensures
            warn == (!generated && !job.dark),
            string_views(final(self).live_icons@) == if generated {
                string_views(old(self).live_icons@).push(job.file@)
            } else {
                string_views(old(self).live_icons@)
            },
            final(menu_icon)@ == if generated && !job.dark {
                dest@
            } else {
                old(menu_icon)@
            },
            final(self).mapping@ == old(self).mapping@,
            final(self).live_identities@ == old(self).live_identities@,
    {
        let ghost icons = self.live_icons@;
        if generated {
            if !job.dark {
                *menu_icon = String::from_str(dest);
            }
            self.live_icons.push(job.file.clone());
            assert(string_views(self.live_icons@) =~= string_views(icons).push(job.file@));
            false
        } else {
            !job.dark
        }
    }
}

// ------------------------------------------------------------------ stale items

/// Whether `name` is in `keep`, ignoring ASCII case.
pub open spec fn kept(keep: Seq<Seq<char>>, name: Seq<char>) -> bool {
    exists|i: int| 0 <= i < keep.len() && eq_ignore_ascii_case(#[trigger] keep[i], name)
}

/// Whether an installed package or classic-menu key named `name` is stale:
/// one of ours (`CtxRs.` prefix) that no live config keeps.
pub fn is_stale_identity(name: &str, keep: &[String]) -> (b: bool)
    ensures
        b == (starts_with(name@, ID_PREFIX@) && !kept(string_views(keep@), name@)),
{
    let v = chars_of(name);
    let p = chars_of(ID_PREFIX);
    let ours = v.len() >= p.len() && crate::text::occurs_at_exec(&v, &p, 0);
    proof {
        if v@.len() >= p@.len() {
            assert(v@.subrange(0, p@.len() as int) =~= v@.take(p@.len() as int));
        }
    }
    ours && !crate::config::any_eq_ignore_case(keep, name)
}

/// Whether a file in the icons dir is stale: no live config keeps it.
pub fn is_stale_icon(name: &str, keep: &[String]) -> (b: bool)
    ensures
        b == !kept(string_views(keep@), name@),
{
    !crate::config::any_eq_ignore_case(keep, name)
}

/// Whether a directory entry is listed as a config: its name ends in
/// ".json", ignoring ASCII case.
pub fn is_json_listing(name: &str) -> (b: bool)
    ensures
        b == ends_with(ascii_lower_seq(name@), ".json"@),
{
    proof {
        reveal_strlit(".json");
    }
    let v = chars_of(name);
    let n = v.len();
    if n < 5 {
        return false;
    }
    let tail = crate::text::slice_range(&v, n - 5, n);
    let json = chars_of(".json");
    let r = eq_ignore_case(&tail, &json);
    proof {
        let l = ascii_lower_seq(name@);
        assert(l.len() == n);
        assert(l.skip(n - 5) =~= ascii_lower_seq(tail@));
        assert(ascii_lower_seq(json@) =~= json@) by {
            assert(json@ =~= ".json"@);
        }
    }
    r
}

// ------------------------------------------------------------------ listing

/// Where a config stands, as `list` reports it.
#[derive(PartialEq, Eq, Structural, Clone, Copy, Debug)]
pub enum ConfigStatus {
    /// The config matches nothing, so it has no package.
    Skipped,
    /// Its package is registered.
    Installed,
    /// Its package is not registered yet.
    NotInstalled,
}

impl ConfigStatus {
    /// The text `list` prints.
    pub fn text(&self) -> (r: &'static str)
        ensures
            r@ == match *self {
                ConfigStatus::Skipped => "skipped (matches nothing)"@,
                ConfigStatus::Installed => "installed"@,
                ConfigStatus::NotInstalled => "not installed (run `cmrsSetup sync`)"@,
            },
    {
        match self {
            ConfigStatus::Skipped => "skipped (matches nothing)",
            ConfigStatus::Installed => "installed",
            ConfigStatus::NotInstalled => "not installed (run `cmrsSetup sync`)",
        }
    }
}

/// Whether `identity` is among the registered package names of ours (those
/// with the `CtxRs.` prefix), exactly.
pub open spec fn registered_as(names: Seq<Seq<char>>, identity: Seq<char>) -> bool {
    exists|i: int|
        0 <= i < names.len() && starts_with(#[trigger] names[i], ID_PREFIX@) && names[i] == identity
}

/// Status of the config `cfg` read from `file_name`, given the names of the
/// registered packages.
pub fn config_status(file_name: &str, cfg: &MenuConfig, registered: &[String]) -> (r: ConfigStatus)
    requires
        suffix_cut_ok(file_name@),
    ensures
        r == if item_types_of(
            dir_flag_of(*cfg),
            file_flag_of(*cfg),
            ID_PREFIX@ + slug_of(file_name@),
        ).len() == 0 {
            ConfigStatus::Skipped
        } else if registered_as(string_views(registered@), ID_PREFIX@ + slug_of(file_name@)) {
            ConfigStatus::Installed
        } else {
            ConfigStatus::NotInstalled
        },
{
    let s = slug(file_name);
    let identity = concat(ID_PREFIX, s.as_str());
    let item_types = item_types_xml(cfg.dir_flag(), cfg.file_flag(), identity.as_str());
    if item_types.as_str().is_empty() {
        return ConfigStatus::Skipped;
    }
    let id = chars_of(identity.as_str());
    let p = chars_of(ID_PREFIX);
    let mut i: usize = 0;
    while i < registered.len()
        invariant
            i <= registered@.len(),
            id@ == ID_PREFIX@ + slug_of(file_name@),
            p@ == ID_PREFIX@,
            item_types_of(dir_flag_of(*cfg), file_flag_of(*cfg), ID_PREFIX@ + slug_of(file_name@)).len()
                != 0,
            forall|j: int|
                0 <= j < i ==> !(starts_with(#[trigger] string_views(registered@)[j], ID_PREFIX@)
                    && string_views(registered@)[j] == id@),
        decreases registered@.len() - i,
    {
        let name = chars_of(registered[i].as_str());
        assert(string_views(registered@)[i as int] == name@);
        let ours = name.len() >= p.len() && crate::text::occurs_at_exec(&name, &p, 0);
        proof {
            if name@.len() >= p@.len() {
                assert(name@.subrange(0, p@.len() as int) =~= name@.take(p@.len() as int));
            }
        }
        if ours && crate::text::chars_eq(&name, &id) {
            assert(starts_with(string_views(registered@)[i as int], ID_PREFIX@)
                && string_views(registered@)[i as int] == ID_PREFIX@ + slug_of(file_name@));
            return ConfigStatus::Installed;
        }
        i += 1;
    }
    ConfigStatus::NotInstalled
}


// ------------------------------------------------------------------ laws

proof fn lemma_uri_escaped_clean(s: Seq<char>)
    requires
        !s.contains('\\'),
    ensures
        !uri_escaped(s).contains(' '),
        !uri_escaped(s).contains('#'),
        !uri_escaped(s).contains('?'),
        !uri_escaped(s).contains('\\'),
    decreases s.len(),
{
    reveal_strlit("%25");
    reveal_strlit("%20");
    reveal_strlit("%23");
    reveal_strlit("%3F");
    if s.len() > 0 {
        let t = s.drop_last();
        assert(!t.contains('\\')) by {
            if t.contains('\\') {
                let k = choose|k: int| 0 <= k < t.len() && t[k] == '\\';
                assert(s[k] == t[k]);
            }
        }
        lemma_uri_escaped_clean(t);
        let a = uri_escaped(t);
        let b = uri_char(s.last());
        assert(s[s.len() - 1] == s.last());
        assert forall|c: char| (c == ' ' || c == '#' || c == '?' || c == '\\') implies !(a
            + b).contains(c) by {
            if (a + b).contains(c) {
                let k = choose|k: int| 0 <= k < (a + b).len() && (a + b)[k] == c;
                if k < a.len() {
                    assert(a[k] == c);
                } else {
                    assert(b[k - a.len()] == c);
                }
            }
        }
    }
}

/// A package's file URI starts with `file:///` and holds no space, `#`, `?`
/// or backslash after it, whatever the path.
pub proof fn file_uri_is_clean(p: Seq<char>)
    ensures
        starts_with(file_uri_of(p), "file:///"@),
        !file_uri_of(p).skip(8).contains(' '),
        !file_uri_of(p).skip(8).contains('#'),
        !file_uri_of(p).skip(8).contains('?'),
        !file_uri_of(p).skip(8).contains('\\'),
{
    reveal_strlit("file:///");
    let sl = slashed(p);
    assert(!sl.contains('\\')) by {
        if sl.contains('\\') {
            let k = choose|k: int| 0 <= k < sl.len() && sl[k] == '\\';
        }
    }
    lemma_uri_escaped_clean(sl);
    let e = uri_escaped(sl);
    let t = crate::text::trim_start(e, CharClass::Slash);
    lemma_trim_start_suffix(e, CharClass::Slash);
    let u = file_uri_of(p);
    assert(u.skip(8) =~= t);
    assert(u.take(8) =~= "file:///"@);
    assert forall|c: char| (c == ' ' || c == '#' || c == '?' || c == '\\') implies !t.contains(c) by {
        if t.contains(c) {
            let k = choose|k: int| 0 <= k < t.len() && t[k] == c;
            assert(e[k + (e.len() - t.len())] == t[k]);
        }
    }
}

proof fn lemma_trim_start_suffix(s: Seq<char>, k: CharClass)
    ensures
        crate::text::trim_start(s, k).len() <= s.len(),
        crate::text::trim_start(s, k) == s.skip(s.len() - crate::text::trim_start(s, k).len()),
    decreases s.len(),
{
    if s.len() > 0 && crate::text::in_class(s[0], k) {
        lemma_trim_start_suffix(s.drop_first(), k);
        let t = crate::text::trim_start(s.drop_first(), k);
        assert(s.drop_first().skip(s.drop_first().len() - t.len()) =~= s.skip(s.len() - t.len()));
    } else {
        assert(s.skip(0) =~= s);
    }
}

/// A config's badge goes on every icon generated for it, the dark-mode icon
/// included.
pub proof fn every_icon_job_has_the_badge(c: MenuConfig, slug: Seq<char>)
    ensures
        forall|k: int|
            0 <= k < icon_jobs_of(c, slug).len() ==> (#[trigger] icon_jobs_of(c, slug)[k]).badge
                == job_badge_of(c),
{
    let jobs = icon_jobs_of(c, slug);
    assert forall|k: int| 0 <= k < jobs.len() implies (#[trigger] jobs[k]).badge == job_badge_of(c) by {
        if badge_spec_of(c) is Some || c.copy_icon {
            let badge = job_badge_of(c);
            let a: Seq<IconJobView> = if badge is Some || trim_ws(c.icon@).len() != 0 {
                seq![
                    IconJobView {
                        base: resolve_icon_of(c, c.icon@),
                        badge,
                        file: generated_icon_name_of(slug, false),
                        dark: false,
                    },
                ]
            } else {
                Seq::empty()
            };
            let b: Seq<IconJobView> = if trim_ws(c.icon_dark@).len() != 0 {
                seq![
                    IconJobView {
                        base: resolve_icon_of(c, c.icon_dark@),
                        badge,
                        file: generated_icon_name_of(slug, true),
                        dark: true,
                    },
                ]
            } else {
                Seq::empty()
            };
            assert(jobs == a + b);
            if k < a.len() {
                assert(jobs[k] == a[k]);
            } else {
                assert(jobs[k] == b[k - a.len()]);
            }
        }
    }
}

/// Every classic verb gets its registry entries, in the order of the verbs:
/// the verb key `<root>\CtxRs.<slug>` gets the title as its default value
/// (and the icon, when there is one), and its `command` subkey runs the
/// runner on the config file and the verb's target placeholder. That makes
/// two writes per verb, three with an icon.
pub proof fn classic_entries_cover_every_verb(
    verbs: Seq<(Seq<char>, Seq<char>)>,
    slug: Seq<char>,
    title: Seq<char>,
    file_name: Seq<char>,
    icon: Seq<char>,
    runner: Seq<char>,
)
    ensures
        icon.len() == 0 ==> {
            let w = classic_writes_of(verbs, slug, title, file_name, icon, runner);
            &&& w.len() == 2 * verbs.len()
            &&& forall|k: int|
                0 <= k < verbs.len() ==> w[2 * k] == (RegWriteView {
                    key: verbs[k].0 + seq!['\\'] + ID_PREFIX@ + slug,
                    name: None,
                    data: title,
                }) && w[2 * k + 1] == (RegWriteView {
                    key: verbs[k].0 + seq!['\\'] + ID_PREFIX@ + slug + "\\command"@,
                    name: None,
                    data: seq!['"'] + runner + "\" \""@ + file_name + "\" \""@ + verbs[k].1 + seq!['"'],
                })
        },
        icon.len() != 0 ==> {
            let w = classic_writes_of(verbs, slug, title, file_name, icon, runner);
            &&& w.len() == 3 * verbs.len()
            &&& forall|k: int|
                0 <= k < verbs.len() ==> w[3 * k] == (RegWriteView {
                    key: verbs[k].0 + seq!['\\'] + ID_PREFIX@ + slug,
                    name: None,
                    data: title,
                }) && w[3 * k + 1] == (RegWriteView {
                    key: verbs[k].0 + seq!['\\'] + ID_PREFIX@ + slug,
                    name: Some("Icon"@),
                    data: icon,
                }) && w[3 * k + 2] == (RegWriteView {
                    key: verbs[k].0 + seq!['\\'] + ID_PREFIX@ + slug + "\\command"@,
                    name: None,
                    data: seq!['"'] + runner + "\" \""@ + file_name + "\" \""@ + verbs[k].1 + seq!['"'],
                })
        },
    decreases verbs.len(),
{
    if verbs.len() > 0 {
        let pre = verbs.drop_last();
        classic_entries_cover_every_verb(pre, slug, title, file_name, icon, runner);
        let p = classic_writes_of(pre, slug, title, file_name, icon, runner);
        let last = verbs.last();
        let tail = verb_writes_of(last.0, last.1, slug, title, file_name, icon, runner);
        let w = classic_writes_of(verbs, slug, title, file_name, icon, runner);
        assert(w == p + tail);
        let n = pre.len() as int;
        assert forall|k: int| 0 <= k < n implies #[trigger] verbs[k] == pre[k] by {}
        assert(verbs[n] == last);
        if icon.len() == 0 {
            assert(tail.len() == 2);
            assert forall|k: int| 0 <= k < verbs.len() implies w[2 * k] == (RegWriteView {
                key: verbs[k].0 + seq!['\\'] + ID_PREFIX@ + slug,
                name: None,
                data: title,
            }) && w[2 * k + 1] == (RegWriteView {
                key: verbs[k].0 + seq!['\\'] + ID_PREFIX@ + slug + "\\command"@,
                name: None,
                data: seq!['"'] + runner + "\" \""@ + file_name + "\" \""@ + verbs[k].1 + seq!['"'],
            }) by {
                if k < n {
                    assert(w[2 * k] == p[2 * k]);
                    assert(w[2 * k + 1] == p[2 * k + 1]);
                } else {
                    assert(w[2 * k] == tail[0]);
                    assert(w[2 * k + 1] == tail[1]);
                }
            }
        } else {
            assert(tail.len() == 3);
            assert forall|k: int| 0 <= k < verbs.len() implies w[3 * k] == (RegWriteView {
                key: verbs[k].0 + seq!['\\'] + ID_PREFIX@ + slug,
                name: None,
                data: title,
            }) && w[3 * k + 1] == (RegWriteView {
                key: verbs[k].0 + seq!['\\'] + ID_PREFIX@ + slug,
                name: Some("Icon"@),
                data: icon,
            }) && w[3 * k + 2] == (RegWriteView {
                key: verbs[k].0 + seq!['\\'] + ID_PREFIX@ + slug + "\\command"@,
                name: None,
                data: seq!['"'] + runner + "\" \""@ + file_name + "\" \""@ + verbs[k].1 + seq!['"'],
            }) by {
                if k < n {
                    assert(w[3 * k] == p[3 * k]);
                    assert(w[3 * k + 1] == p[3 * k + 1]);
                    assert(w[3 * k + 2] == p[3 * k + 2]);
                } else {
                    assert(w[3 * k] == tail[0]);
                    assert(w[3 * k + 1] == tail[1]);
                    assert(w[3 * k + 2] == tail[2]);
                }
            }
        }
    }
}

} // verus!
