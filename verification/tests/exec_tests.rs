use cmrs::config::MenuConfig;
use cmrs::exec::{needs_env_expansion, run, runner_request, show_cmd, strip_quotes, to_wide};

fn strings(v: &[&str]) -> Vec<String> {
    v.iter().map(|s| s.to_string()).collect()
}

#[test]
fn wide_strings_end_with_nul() {
    assert_eq!(to_wide("ab"), vec![97, 98, 0]);
    assert_eq!(to_wide(""), vec![0]);
    assert_eq!(to_wide("😀"), vec![0xD83D, 0xDE00, 0]);
}

#[test]
fn show_commands() {
    assert_eq!(show_cmd(-1), 0);
    assert_eq!(show_cmd(0), 1);
    assert_eq!(show_cmd(1), 2);
    assert_eq!(show_cmd(2), 3);
    assert_eq!(show_cmd(7), 1);
}

#[test]
fn quotes_stripped() {
    assert_eq!(strip_quotes("  \"C:\\a b\\x.exe\"  "), "C:\\a b\\x.exe");
    assert_eq!(strip_quotes("x.exe"), "x.exe");
}

#[test]
fn launches_each_or_once() {
    let mut cfg = MenuConfig::new("T", " \"%WINDIR%\\notepad.exe\" ");
    cfg.param = "\"{path}\"".to_string();
    cfg.working_directory = "{parent}".to_string();
    cfg.run_as_admin = true;
    cfg.show_window_flag = 2;
    cfg.accept_multiple_files_flag = 1;
    let runs = run(&cfg, &strings(&["C:\\d\\a.txt", "C:\\e\\b.txt"]));
    assert_eq!(runs.len(), 2);
    assert_eq!(runs[0].verb, "runas");
    assert_eq!(runs[0].exe, "%WINDIR%\\notepad.exe");
    assert_eq!(runs[0].params, "\"C:\\d\\a.txt\"");
    assert_eq!(runs[0].workdir, "C:\\d");
    assert_eq!(runs[1].workdir, "C:\\e");
    assert_eq!(runs[0].show, 3);

    cfg.accept_multiple_files_flag = 2;
    cfg.run_as_admin = false;
    cfg.working_directory = String::new();
    let runs = run(&cfg, &strings(&["a", "b"]));
    assert_eq!(runs.len(), 1);
    assert_eq!(runs[0].verb, "open");
    assert_eq!(runs[0].params, "\"\"a\" \"b\"\"");
    assert_eq!(runs[0].workdir, "");
}

#[test]
fn env_expansion_needed_only_with_percent() {
    assert!(needs_env_expansion("%WINDIR%\\x"));
    assert!(!needs_env_expansion("C:\\x"));
}

#[test]
fn runner_arguments() {
    assert!(runner_request(&strings(&["a.json"])).is_none());
    let (name, paths) = runner_request(&strings(&["a.json", "C:\\\"", "D:\\x"])).unwrap();
    assert_eq!(name, "a.json");
    assert_eq!(paths, strings(&["C:\\\\", "D:\\x"]));
}
