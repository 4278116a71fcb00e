use cmrs::config::{Corner, MenuConfig, SmallIcon};
use cmrs::installer::{
    aside_name, classic_entries, classic_verbs, config_status, dev_mode_action, dev_mode_outcome,
    file_uri, icon_jobs, is_json_listing, is_stale_icon, is_stale_identity, menu_icon_spec,
    moves_aside_on_retry, parse_args, plan_package, replaces_on_retry, CliAction, ConfigStatus,
    DevModeAction, IconJob, SetupCommand, SyncLedger, PACKAGE_ALREADY_EXISTS,
};
use cmrs::paths::{
    config_dir, data_root, icons_dir, installed_dll, installed_runner, join_path, pkg_root,
};

fn strings(v: &[&str]) -> Vec<String> {
    v.iter().map(|s| s.to_string()).collect()
}

#[test]
fn command_line() {
    assert!(matches!(parse_args(&[]), CliAction::Usage));
    assert!(matches!(parse_args(&strings(&["--purge"])), CliAction::Usage));
    assert!(matches!(parse_args(&strings(&["sync", "-h"])), CliAction::Usage));
    match parse_args(&strings(&["sync", "--bogus", "help"])) {
        CliAction::Unknown(a) => assert_eq!(a, "--bogus"),
        _ => panic!("expected an unknown argument"),
    }
    match parse_args(&strings(&["install", "--dll", "d.dll", "uninstall", "--purge"])) {
        CliAction::Run { command, purge, dll, exe } => {
            assert_eq!(command, SetupCommand::Uninstall);
            assert!(purge);
            assert_eq!(dll.as_deref(), Some("d.dll"));
            assert!(exe.is_none());
        }
        _ => panic!("expected a command"),
    }
    match parse_args(&strings(&["list", "--exe"])) {
        CliAction::Run { command, exe, .. } => {
            assert_eq!(command, SetupCommand::List);
            assert!(exe.is_none());
        }
        _ => panic!("expected a command"),
    }
    match parse_args(&strings(&["--exe", "install", "enable-devmode"])) {
        CliAction::Run { command, exe, .. } => {
            assert_eq!(command, SetupCommand::EnableDevMode);
            assert_eq!(exe.as_deref(), Some("install"));
        }
        _ => panic!("expected a command"),
    }
}

#[test]
fn package_plans() {
    let mut cfg = MenuConfig::new("  ", "x");
    cfg.accept_file_flag = Some(0);
    cfg.accept_directory_flag = Some(0);
    let p = plan_package("My Tool.json", &cfg);
    assert_eq!(p.slug, "MyTool");
    assert_eq!(p.identity, "CtxRs.MyTool");
    assert_eq!(p.title, "MyTool");
    assert_eq!(p.clsid, cmrs::setup::deterministic_clsid("My Tool.json"));
    assert!(p.item_types.is_empty());

    let cfg = MenuConfig::new("Title", "x");
    let p = plan_package("My Tool.json", &cfg);
    assert_eq!(p.title, "Title");
    assert!(p.item_types.contains(&p.clsid));
}

#[test]
fn icon_job_rules() {
    let cfg = MenuConfig::new("T", "x");
    assert!(icon_jobs(&cfg, "S").is_empty());

    let mut cfg = MenuConfig::new("T", "C:\\app.exe");
    cfg.icon = "exe".to_string();
    cfg.icon_dark = "C:\\d.ico".to_string();
    cfg.small_icon = Some(SmallIcon { icon: "uac".to_string(), location: "top-left".to_string() });
    let jobs = icon_jobs(&cfg, "S");
    assert_eq!(jobs.len(), 2);
    assert_eq!(jobs[0].base, "C:\\app.exe");
    assert_eq!(jobs[0].file, "S.ico");
    assert!(!jobs[0].dark);
    assert_eq!(jobs[0].badge, Some(("uac".to_string(), Corner::TopLeft)));
    assert_eq!(jobs[1].base, "C:\\d.ico");
    assert_eq!(jobs[1].file, "S.dark.ico");
    assert!(jobs[1].dark);

    let mut cfg = MenuConfig::new("T", "x");
    cfg.copy_icon = true;
    assert!(icon_jobs(&cfg, "S").is_empty());
    cfg.icon = "C:\\i.ico".to_string();
    let jobs = icon_jobs(&cfg, "S");
    assert_eq!(jobs.len(), 1);
    assert!(jobs[0].badge.is_none());
}

#[test]
fn menu_icons() {
    let mut cfg = MenuConfig::new("T", "\"C:\\a b\\app.exe\"");
    cfg.icon = "\"exe\"".to_string();
    assert_eq!(menu_icon_spec(&cfg), "C:\\a b\\app.exe");
    cfg.icon = "\"C:\\i.ico\",2".to_string();
    assert_eq!(menu_icon_spec(&cfg), "C:\\i.ico\",2");
}

#[test]
fn classic_verbs_follow_flags() {
    let mut cfg = MenuConfig::new("T", "x");
    cfg.accept_directory_flag = Some(1 | 4 | 8);
    cfg.accept_file_flag = Some(1);
    assert_eq!(
        classic_verbs(&cfg),
        vec![
            (r"Software\Classes\Directory\shell", "%V"),
            (r"Software\Classes\Drive\shell", "%V"),
            (r"Software\Classes\*\shell", "%1"),
        ]
    );
}

#[test]
fn classic_registry_writes() {
    let mut cfg = MenuConfig::new("T", "x");
    cfg.accept_directory_flag = Some(2);
    cfg.accept_file_flag = Some(0);
    let w = classic_entries("Slug", "Title", &cfg, "a.json", "C:\\i.ico", "C:\\bin\\cmrsRun.exe");
    assert_eq!(w.len(), 3);
    let key = r"Software\Classes\Directory\Background\shell\CtxRs.Slug";
    assert_eq!(w[0].key, key);
    assert!(w[0].name.is_none());
    assert_eq!(w[0].data, "Title");
    assert_eq!(w[1].name.as_deref(), Some("Icon"));
    assert_eq!(w[1].data, "C:\\i.ico");
    assert_eq!(w[2].key, format!("{key}\\command"));
    assert_eq!(w[2].data, "\"C:\\bin\\cmrsRun.exe\" \"a.json\" \"%V\"");

    let w = classic_entries("Slug", "Title", &cfg, "a.json", "", "r.exe");
    assert_eq!(w.len(), 2);
}

#[test]
fn file_uris() {
    assert_eq!(
        file_uri("C:\\Users\\me\\My Pkg#1\\AppxManifest.xml"),
        "file:///C:/Users/me/My%20Pkg%231/AppxManifest.xml"
    );
    assert_eq!(file_uri("\\\\server\\a?b%c"), "file:///server/a%3Fb%25c");
}

#[test]
fn stale_items() {
    let keep = strings(&["CtxRs.Alpha"]);
    assert!(!is_stale_identity("ctxrs.alpha", &keep));
    assert!(!is_stale_identity("CtxRs.ALPHA", &keep));
    assert!(is_stale_identity("CtxRs.Beta", &keep));
    assert!(!is_stale_identity("Other.Beta", &keep));
    let icons = strings(&["a.ico"]);
    assert!(!is_stale_icon("A.ICO", &icons));
    assert!(is_stale_icon("b.ico", &icons));
}

#[test]
fn json_listing() {
    assert!(is_json_listing("x.JSON"));
    assert!(is_json_listing(".json"));
    assert!(!is_json_listing("x.json.txt"));
    assert!(!is_json_listing("json"));
}

#[test]
fn listing_status() {
    let cfg = MenuConfig::new("T", "x");
    let registered = strings(&["Other.Thing", "CtxRs.a"]);
    assert_eq!(config_status("a.json", &cfg, &registered), ConfigStatus::Installed);
    assert_eq!(config_status("b.json", &cfg, &registered), ConfigStatus::NotInstalled);
    let mut none = MenuConfig::new("T", "x");
    none.accept_directory_flag = Some(0);
    none.accept_file_flag = Some(0);
    assert_eq!(config_status("a.json", &none, &registered), ConfigStatus::Skipped);
    assert_eq!(ConfigStatus::Skipped.text(), "skipped (matches nothing)");
    assert_eq!(ConfigStatus::Installed.text(), "installed");
    assert_eq!(
        ConfigStatus::NotInstalled.text(),
        "not installed (run `cmrsSetup sync`)"
    );
}

#[test]
fn registration_retry() {
    assert!(replaces_on_retry(PACKAGE_ALREADY_EXISTS));
    assert_eq!(PACKAGE_ALREADY_EXISTS, 0x8007_3CFB_u32 as i32);
    assert!(!replaces_on_retry(0));
}

#[test]
fn data_layout() {
    let root = data_root(Some("C:\\Users\\me\\AppData\\Local"));
    assert_eq!(root, "C:\\Users\\me\\AppData\\Local\\ContextMenuRs");
    assert_eq!(data_root(None), ".\\ContextMenuRs");
    assert_eq!(config_dir(&root), format!("{root}\\custom_commands"));
    assert_eq!(icons_dir(&root), format!("{root}\\icons"));
    assert_eq!(pkg_root(&root), format!("{root}\\packages"));
    assert_eq!(installed_dll(&root), format!("{root}\\bin\\cmrs.dll"));
    assert_eq!(installed_runner(&root), format!("{root}\\bin\\cmrsRun.exe"));
    assert_eq!(join_path("C:\\", "x"), "C:\\x");
    assert_eq!(join_path("C:", "x"), "C:x");
    assert_eq!(join_path("a/", "x"), "a/x");
    assert_eq!(join_path("", "x"), "x");
}

#[test]
fn in_use_files_move_aside() {
    assert!(moves_aside_on_retry(Some(32)));
    assert!(!moves_aside_on_retry(Some(5)));
    assert!(!moves_aside_on_retry(None));
    assert_eq!(aside_name("cmrs.dll"), "cmrs.dll.old");
}

#[test]
fn developer_mode_steps() {
    assert_eq!(dev_mode_action(true, false), DevModeAction::Ready);
    assert_eq!(dev_mode_action(false, true), DevModeAction::EnableHere);
    assert_eq!(dev_mode_action(false, false), DevModeAction::EnableElevated);
    assert_eq!(dev_mode_outcome(DevModeAction::Ready, false), Ok(()));
    assert_eq!(dev_mode_outcome(DevModeAction::EnableHere, true), Ok(()));
    assert_eq!(
        dev_mode_outcome(DevModeAction::EnableElevated, false),
        Err("could not enable Developer Mode. Enable it manually: Settings > System > For developers > Developer Mode, then re-run.".to_string())
    );
}

#[test]
fn sync_ledger_bookkeeping() {
    let mut ledger = SyncLedger::new();
    let mut none = MenuConfig::new("Nothing", "x");
    none.accept_file_flag = Some(0);
    none.accept_directory_flag = Some(0);
    let skipped = plan_package("none.json", &none);
    assert!(!ledger.add_config(&skipped, "none.json"));
    let cfg = MenuConfig::new("Tool", "x");
    let plan = plan_package("tool.json", &cfg);
    assert!(ledger.add_config(&plan, "tool.json"));
    assert_eq!(ledger.live_identities, strings(&["CtxRs.none", "CtxRs.tool"]));
    assert_eq!(
        ledger.mapping,
        vec![(plan.clsid.clone(), "Tool".to_string(), "tool.json".to_string())]
    );

    let mut menu_icon = "tool.exe,0".to_string();
    let light = IconJob { base: "b,0".to_string(), badge: None, file: "light.ico".to_string(), dark: false };
    let dark = IconJob { base: "b,0".to_string(), badge: None, file: "dark.ico".to_string(), dark: true };
    assert!(ledger.add_icon(&light, false, r"C:\i\light.ico", &mut menu_icon));
    assert_eq!(menu_icon, "tool.exe,0");
    assert!(!ledger.add_icon(&dark, false, r"C:\i\dark.ico", &mut menu_icon));
    assert!(!ledger.add_icon(&dark, true, r"C:\i\dark.ico", &mut menu_icon));
    assert_eq!(menu_icon, "tool.exe,0");
    assert!(!ledger.add_icon(&light, true, r"C:\i\light.ico", &mut menu_icon));
    assert_eq!(menu_icon, r"C:\i\light.ico");
    assert_eq!(ledger.live_icons, strings(&["dark.ico", "light.ico"]));
}
