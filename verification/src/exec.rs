//! Command execution plans: what ShellExecuteExW is asked to launch for a
//! config and a selection (env-var expansion and the launch itself are the
//! caller's I/O).
use vstd::prelude::*;
use vstd::string::*;
use crate::config::{
    build_param, build_param_spec, path_parts, string_views, substitute, substitute_spec,
    MenuConfig, PathVars, MULTI_EACH,
};
use crate::text::{chars_of, push_utf16, trim, trim_bounds, trim_ws, utf16_of, CharClass};

verus! {

broadcast use vstd::string::group_string_axioms;

/// NUL-terminated UTF-16 form of a string, for Win32 calls.
pub fn to_wide(s: &str) -> (r: Vec<u16>)
    ensures
        r@ == utf16_of(s@).push(0u16),
{
    let v = chars_of(s);
    let mut r: Vec<u16> = Vec::new();
    let mut i: usize = 0;
    assert(v@.take(0) =~= Seq::<char>::empty());
    while i < v.len()
        invariant
            i <= v@.len(),
            v@ == s@,
            r@ == utf16_of(v@.take(i as int)),
        decreases v@.len() - i,
    {
        assert(v@.take(i + 1).drop_last() =~= v@.take(i as int));
        push_utf16(&mut r, v[i]);
        i += 1;
    }
    assert(v@.take(v@.len() as int) =~= v@);
    r.push(0);
    r
}

/// showWindowFlag (-1 Hide, 0 Normal, 1 Minimized, 2 Maximized) -> SW_* value.
pub open spec fn show_cmd_of(flag: i32) -> i32 {
    if flag == -1 {
        0
    } else if flag == 1 {
        2
    } else if flag == 2 {
        3
    } else {
        1
    }
}

/// showWindowFlag (-1 Hide, 0 Normal, 1 Minimized, 2 Maximized) -> SW_* value
/// (SW_HIDE, SW_SHOWNORMAL, SW_SHOWMINIMIZED, SW_SHOWMAXIMIZED).
pub fn show_cmd(flag: i32) -> (r: i32)
    ensures
        r == show_cmd_of(flag),
{
    match flag {
        -1 => 0,
        1 => 2,
        2 => 3,
        _ => 1,
    }
}

/// `s` without surrounding whitespace and then surrounding double quotes.
pub open spec fn strip_quotes_of(s: Seq<char>) -> Seq<char> {
    trim(trim_ws(s), CharClass::Quote)
}

/// Trims whitespace, then surrounding double quotes.
pub fn strip_quotes(s: &str) -> (r: &str)
    ensures
        r@ == strip_quotes_of(s@),
{
    let v = chars_of(s);
    let (a, b) = trim_bounds(&v, CharClass::Whitespace);
    let inner = crate::text::slice_range(&v, a, b);
    let (c, d) = trim_bounds(&inner, CharClass::Quote);
    assert(inner@.subrange(c as int, d as int) =~= v@.subrange(a + c, a + d));
    s.substring_char(a + c, a + d)
}

/// One ShellExecuteExW invocation, before env-var expansion.
pub struct Launch {
    /// "runas" for runAsAdmin entries, else "open".
    pub verb: &'static str,
    /// The program, quotes stripped; %EnvVars% still to be expanded.
    pub exe: String,
    /// The parameters (not env-expanded).
    pub params: String,
    /// The working directory, substituted; %EnvVars% still to be expanded.
    /// Empty for none.
    pub workdir: String,
    /// SW_* show command.
    pub show: i32,
}

/// Abstract value of a launch.
pub struct LaunchView {
    pub verb: Seq<char>,
    pub exe: Seq<char>,
    pub params: Seq<char>,
    pub workdir: Seq<char>,
    pub show: i32,
}

impl View for Launch {
    type V = LaunchView;

    open spec fn view(&self) -> LaunchView {
        LaunchView {
            verb: self.verb@,
            exe: self.exe@,
            params: self.params@,
            workdir: self.workdir@,
            show: self.show,
        }
    }
}

/// The launch for one group of paths (one path in EACH mode, all of them
/// otherwise).
pub open spec fn launch_of(c: MenuConfig, ps: Seq<Seq<char>>) -> LaunchView {
    let first = path_parts(if ps.len() > 0 {
        ps[0]
    } else {
        Seq::<char>::empty()
    });
    LaunchView {
        verb: if c.run_as_admin {
            "runas"@
        } else {
            "open"@
        },
        exe: strip_quotes_of(c.exe@),
        params: build_param_spec(c, ps),
        workdir: if c.working_directory@.len() == 0 {
            Seq::<char>::empty()
        } else {
            substitute_spec(c.working_directory@, first, first)
        },
        show: show_cmd_of(c.show_window_flag),
    }
}

/// Every launch for a selection: EACH mode runs once per path; JOIN and
/// single selections run once.
pub open spec fn run_plan(c: MenuConfig, ps: Seq<Seq<char>>) -> Seq<LaunchView> {
    if ps.len() > 1 && c.accept_multiple_files_flag == MULTI_EACH {
        ps.map_values(|p: Seq<char>| launch_of(c, seq![p]))
    } else {
        seq![launch_of(c, ps)]
    }
}

pub open spec fn launch_views(v: Seq<Launch>) -> Seq<LaunchView> {
    v.map_values(|l: Launch| l@)
}

fn launch_one(cfg: &MenuConfig, paths: &[String]) -> (r: Launch)
    ensures
        r@ == launch_of(*cfg, string_views(paths@)),
{
    let params = build_param(cfg, paths);
    let workdir = if cfg.working_directory.as_str().is_empty() {
        String::new()
    } else {
        let ghost ps = string_views(paths@);
        let first = if paths.len() > 0 {
            assert(ps[0] == paths@[0]@);
            PathVars::from_path(paths[0].as_str())
        } else {
            proof {
                reveal_strlit("");
            }
            assert(""@ =~= Seq::<char>::empty());
            PathVars::from_path("")
        };
        assert(first@ == path_parts(
            if ps.len() > 0 {
                ps[0]
            } else {
                Seq::<char>::empty()
            },
        ));
        substitute(cfg.working_directory.as_str(), &first, &first)
    };
    let exe = strip_quotes(cfg.exe.as_str());
    let ghost ps = string_views(paths@);
    assert(paths@.len() > 0 ==> ps[0] == paths@[0]@);
    let r = Launch {
        verb: if cfg.run_as_admin {
            "runas"
        } else {
            "open"
        },
        exe: String::from_str(exe),
        params,
        workdir,
        show: show_cmd(cfg.show_window_flag),
    };
    assert(r@.workdir == launch_of(*cfg, ps).workdir);
    assert(r@.verb == launch_of(*cfg, ps).verb);
    r
}

/// Execute `cfg` for the selected `paths`: the ShellExecuteExW calls to make.
/// EACH mode runs once per path; JOIN/single runs once.
pub fn run(cfg: &MenuConfig, paths: &[String]) -> (r: Vec<Launch>)
    ensures
        launch_views(r@) == run_plan(*cfg, string_views(paths@)),
{
    let ghost ps = string_views(paths@);
    let mut r: Vec<Launch> = Vec::new();
    if paths.len() > 1 && cfg.accept_multiple_files_flag == MULTI_EACH {
        let mut i: usize = 0;
        while i < paths.len()
            invariant
                i <= paths@.len(),
                ps == string_views(paths@),
                launch_views(r@) == ps.take(i as int).map_values(
                    |p: Seq<char>| launch_of(*cfg, seq![p]),
                ),
            decreases paths@.len() - i,
        {
            let mut one: Vec<String> = Vec::new();
            one.push(paths[i].clone());
            let l = launch_one(cfg, &one);
            assert(string_views(one@) =~= seq![ps[i as int]]);
            let ghost before = launch_views(r@);
            r.push(l);
            assert(launch_views(r@) =~= before.push(launch_of(*cfg, seq![ps[i as int]])));
            assert(ps.take(i + 1) =~= ps.take(i as int).push(ps[i as int]));
            assert(launch_views(r@) =~= ps.take(i + 1).map_values(
                |p: Seq<char>| launch_of(*cfg, seq![p]),
            ));
            i += 1;
        }
        assert(ps.take(paths@.len() as int) =~= ps);
    } else {
        let l = launch_one(cfg, paths);
        r.push(l);
        assert(launch_views(r@) =~= seq![launch_of(*cfg, ps)]);
    }
    r
}


/// Whether a string has %EnvVars% to expand: strings without a `%` are used
/// as they are.
pub fn needs_env_expansion(s: &str) -> (b: bool)
    ensures
        b == s@.contains('%'),
{
    let v = chars_of(s);
    let mut i: usize = 0;
    while i < v.len()
        invariant
            i <= v@.len(),
            v@ == s@,
            forall|j: int| 0 <= j < i ==> v@[j] != '%',
        decreases v@.len() - i,
    {
        if v[i] == '%' {
            assert(v@[i as int] == '%');
            return true;
        }
        i += 1;
    }
    false
}

/// A target path as the classic menu hands it over, with the quote that
/// %V expansion leaves after a drive root ("C:\"") turned back into the
/// backslash.
pub open spec fn normalized_target_of(p: Seq<char>) -> Seq<char> {
    if p.len() > 0 && p.last() == '"' {
        p.drop_last().push('\\')
    } else {
        p
    }
}

/// See `normalized_target_of`.
pub fn normalize_target(p: &str) -> (r: String)
    ensures
        r@ == normalized_target_of(p@),
{
    let v = chars_of(p);
    let n = v.len();
    if n > 0 && v[n - 1] == '"' {
        let mut r = crate::text::string_of(&crate::text::slice_range(&v, 0, n - 1));
        crate::text::push_char(&mut r, '\\');
        assert(v@.subrange(0, n - 1) =~= v@.drop_last());
        r
    } else {
        String::from_str(p)
    }
}

/// The runner's arguments (without the program name): the config file name
/// and the target paths, normalized. `None` (nothing to run) with fewer
/// than two.
pub fn runner_request(args: &[String]) -> (r: Option<(String, Vec<String>)>)
    ensures
        r is None <==> args@.len() < 2,
        r matches Some((name, paths)) ==> {
            &&& name@ == args@[0]@
            &&& string_views(paths@) == string_views(args@).skip(1).map_values(
                |p: Seq<char>| normalized_target_of(p),
            )
        },
{
    if args.len() < 2 {
        return None;
    }
    let ghost want = string_views(args@).skip(1).map_values(|p: Seq<char>| normalized_target_of(p));
    let mut paths: Vec<String> = Vec::new();
    let mut i: usize = 1;
    while i < args.len()
        invariant
            1 <= i <= args@.len(),
            want == string_views(args@).skip(1).map_values(|p: Seq<char>| normalized_target_of(p)),
            paths@.len() == i - 1,
            forall|k: int| 0 <= k < i - 1 ==> #[trigger] paths@[k]@ == want[k],
        decreases args@.len() - i,
    {
        let t = normalize_target(args[i].as_str());
        assert(want[i - 1] == normalized_target_of(args@[i as int]@));
        paths.push(t);
        i += 1;
    }
    assert(string_views(paths@) =~= want);
    Some((String::from_str(args[0].as_str()), paths))
}


/// EACH mode launches once per selected path; every other selection is
/// launched once.
pub proof fn launch_count(c: MenuConfig, ps: Seq<Seq<char>>)
    ensures
        run_plan(c, ps).len() == if ps.len() > 1 && c.accept_multiple_files_flag == MULTI_EACH {
            ps.len()
        } else {
            1
        },
{
}

} // verus!
