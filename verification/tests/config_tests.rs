use cmrs::config::{
    build_param, dir_bits, dir_flag_from_names, file_flag_from_name, is_config_file_name,
    is_selected, join_paths, multi_flag_from_name, show_window_from_name, sort_configs, strip_bom,
    substitute, Corner, FileType, MenuConfig, PathVars, SmallIcon, TitleRule, DIR_BACKGROUND,
    DIR_DIRECTORY, DIR_DRIVE, FILE_ALL, FILE_EXT, FILE_EXT_LIST, FILE_NONE, MULTI_EACH, MULTI_JOIN,
};

fn names(v: &[&str]) -> Vec<String> {
    v.iter().map(|s| s.to_string()).collect()
}

fn sample() -> MenuConfig {
    let mut c = MenuConfig::new(
        "Open With VScode",
        "\"%LocalAppData%\\Programs\\Microsoft VS Code\\Code.exe\"",
    );
    c.index = 21;
    c.param = "\"{path}\"".to_string();
    c.icon = "\"%LocalAppData%\\Programs\\Microsoft VS Code\\Code.exe\",0".to_string();
    c.accept_directory_flag = Some(3);
    c.accept_file_flag = Some(4);
    c.accept_exts = "*".to_string();
    c.accept_multiple_files_flag = 1;
    c.show_window_flag = 0;
    c
}

fn badge(icon: &str, location: &str) -> Option<SmallIcon> {
    Some(SmallIcon {
        icon: icon.to_string(),
        location: location.to_string(),
    })
}

#[test]
fn parses_numeric_flags_sample() {
    let c = sample();
    assert_eq!(c.title, "Open With VScode");
    assert_eq!(c.index, 21);
    assert_eq!(c.dir_flag(), 3);
    assert_eq!(c.file_flag(), FILE_ALL);
    assert!(c.accepts(FileType::Directory, "", ""));
    assert!(c.accepts(FileType::Background, "", ""));
    assert!(!c.accepts(FileType::Desktop, "", ""));
    assert!(!c.accepts(FileType::Drive, "", ""));
    assert!(c.accepts(FileType::File, "a.txt", ".txt"));
    assert!(!c.run_as_admin);
}

#[test]
fn run_as_admin_extension() {
    let mut c = MenuConfig::new("T", "wt.exe");
    c.run_as_admin = true;
    c.small_icon = badge("uac", "");
    c.accept_directory_flag = Some(15);
    c.accept_file_flag = Some(0);
    assert!(c.run_as_admin);
    assert!(c.uses_generated_icon());
    assert!(!c.accepts(FileType::File, "a.txt", ".txt"));
    assert!(c.accepts(FileType::Drive, "", ""));
}

#[test]
fn generated_icon_rules() {
    let mut c = MenuConfig::new("T", "x");
    c.copy_icon = true;
    assert!(c.copy_icon);
    assert!(c.uses_generated_icon());
    assert!(c.badge_spec().is_none());
    let c = MenuConfig::new("T", "x");
    assert!(!c.uses_generated_icon());
}

#[test]
fn small_icon_badge() {
    let mut c = MenuConfig::new("T", "x");
    c.small_icon = badge("C:\\b.ico", "top-left");
    assert_eq!(c.badge_spec(), Some("C:\\b.ico"));
    assert_eq!(c.badge_corner(), Corner::TopLeft);
    assert!(c.uses_generated_icon());

    let mut c = MenuConfig::new("T", "x");
    c.small_icon = badge("uac", "");
    assert_eq!(c.badge_spec(), Some("uac"));
    assert_eq!(c.badge_corner(), Corner::BottomRight);

    let mut c = MenuConfig::new("T", "x");
    c.small_icon = badge("exe", "");
    assert_eq!(c.badge_spec(), Some("exe"));

    let mut c = MenuConfig::new("T", "x");
    c.small_icon = Some(SmallIcon::default());
    assert_eq!(c.badge_spec(), None);
}

#[test]
fn exe_icon_token() {
    let c = MenuConfig::new("T", " \"C:\\a b\\app.exe\" ");
    assert_eq!(c.resolve_icon_spec("exe"), r"C:\a b\app.exe");
    assert_eq!(c.resolve_icon_spec("EXE"), r"C:\a b\app.exe");
    assert_eq!(c.resolve_icon_spec("  exe  "), r"C:\a b\app.exe");
    assert_eq!(c.resolve_icon_spec("C:\\i.ico,2"), "C:\\i.ico,2");
    assert_eq!(c.resolve_icon_spec(""), "");
}

#[test]
fn readable_flags() {
    let mut c = MenuConfig::new("T", "x");
    c.accept_directory_flag = Some(dir_flag_from_names(&names(&["directory", "drive"])).unwrap());
    c.accept_file_flag = Some(file_flag_from_name("extensionList").unwrap());
    c.accept_exts = ".apk|.apkx".to_string();
    c.accept_multiple_files_flag = multi_flag_from_name("join").unwrap();
    c.show_window_flag = show_window_from_name("hide").unwrap();
    assert_eq!(c.dir_flag(), DIR_DIRECTORY | DIR_DRIVE);
    assert_eq!(c.file_flag(), FILE_EXT_LIST);
    assert_eq!(c.accept_multiple_files_flag, MULTI_JOIN);
    assert_eq!(c.show_window_flag, -1);

    let mut c = MenuConfig::new("T", "x");
    c.accept_directory_flag = Some(dir_bits("all").unwrap());
    c.accept_file_flag = Some(file_flag_from_name("none").unwrap());
    c.accept_multiple_files_flag = multi_flag_from_name("each").unwrap();
    c.show_window_flag = show_window_from_name("maximized").unwrap();
    assert_eq!(c.dir_flag(), 15);
    assert_eq!(c.file_flag(), FILE_NONE);
    assert_eq!(c.accept_multiple_files_flag, MULTI_EACH);
    assert_eq!(c.show_window_flag, 2);

    let mut c = MenuConfig::new("T", "x");
    c.accept_directory_flag = Some(dir_flag_from_names(&names(&["Folder-Background"])).unwrap());
    c.show_window_flag = show_window_from_name("MIN").unwrap();
    assert_eq!(c.dir_flag(), DIR_BACKGROUND);
    assert_eq!(c.show_window_flag, 1);
    assert!(dir_bits("everything").is_err());

    let mut c = MenuConfig::new("T", "x");
    c.accept_directory_flag = Some(3);
    c.accept_file_flag = Some(4);
    c.accept_multiple_files_flag = 2;
    c.show_window_flag = -1;
    assert_eq!(c.dir_flag(), 3);
    assert_eq!(c.file_flag(), FILE_ALL);
    assert_eq!(c.accept_multiple_files_flag, MULTI_JOIN);
    assert_eq!(c.show_window_flag, -1);
}

#[test]
fn corner_parsing() {
    assert_eq!(Corner::parse("topLeft"), Corner::TopLeft);
    assert_eq!(Corner::parse("TOP_RIGHT"), Corner::TopRight);
    assert_eq!(Corner::parse("bottom-left"), Corner::BottomLeft);
    assert_eq!(Corner::parse("bottomright"), Corner::BottomRight);
    assert_eq!(Corner::parse(""), Corner::BottomRight);
    assert_eq!(Corner::parse("garbage"), Corner::BottomRight);
}

#[test]
fn deprecated_accept_directory() {
    let mut c = MenuConfig::new("T", "x");
    c.accept_directory = Some(false);
    assert_eq!(c.dir_flag(), 0);
    let mut c = MenuConfig::new("T", "x");
    c.accept_directory = Some(true);
    assert_eq!(c.dir_flag(), 15);
}

#[test]
fn ext_list_matching() {
    let mut c = MenuConfig::new("T", "x");
    c.accept_file_flag = Some(3);
    c.accept_exts = ".apkx|.apk".to_string();
    assert!(c.accepts(FileType::File, "a.apk", ".apk"));
    assert!(c.accepts(FileType::File, "b.APKX", ".apkx"));
    assert!(!c.accepts(FileType::File, "c.txt", ".txt"));
}

#[test]
fn regex_matching() {
    let mut c = MenuConfig::new("T", "x");
    c.accept_file_flag = Some(2);
    c.accept_file_regex = ".+?\\.txt".to_string();
    assert!(c.accepts(FileType::File, "note.txt", ".txt"));
    assert!(!c.accepts(FileType::File, "note.md", ".md"));
}

#[test]
fn exts_heuristic_without_flag() {
    let mut c = MenuConfig::new("T", "x");
    c.accept_exts = ".apkx .mapk".to_string();
    assert_eq!(c.file_flag(), FILE_EXT);
    assert!(c.accepts(FileType::File, "a.apkx", ".apkx"));
    assert!(!c.accepts(FileType::File, "a.zip", ".zip"));
}

#[test]
fn path_vars() {
    let v = PathVars::from_path(r"C:\test\MpDlpCmd.exe");
    assert_eq!(v.path, r"C:\test\MpDlpCmd.exe");
    assert_eq!(v.parent, r"C:\test");
    assert_eq!(v.name, "MpDlpCmd.exe");
    assert_eq!(v.name_no_ext, "MpDlpCmd");
    assert_eq!(v.extension, ".exe");

    let dot = PathVars::from_path(r"C:\x\.gitignore");
    assert_eq!(dot.extension, "");
    assert_eq!(dot.name_no_ext, ".gitignore");
}

#[test]
fn substitution_examples() {
    let v = PathVars::from_path(r"C:\test\MpDlpCmd.exe");
    assert_eq!(substitute("{path}", &v, &v), r"C:\test\MpDlpCmd.exe");
    assert_eq!(substitute("\"{path}\"", &v, &v), "\"C:\\test\\MpDlpCmd.exe\"");
    assert_eq!(
        substitute("cmd.exe /s /k pushd \"{path}\"", &v, &v),
        "cmd.exe /s /k pushd \"C:\\test\\MpDlpCmd.exe\""
    );
    assert_eq!(
        substitute("a -ad \"{parent}\\{nameNoExt}.7z\" \"{path}\"", &v, &v),
        "a -ad \"C:\\test\\MpDlpCmd.7z\" \"C:\\test\\MpDlpCmd.exe\""
    );
}

#[test]
fn join_mode() {
    let mut cfg = MenuConfig::new("T", "x");
    cfg.param = "{path}".to_string();
    cfg.accept_multiple_files_flag = 2;
    cfg.path_delimiter = ",".to_string();
    let paths = vec!["p1.txt".to_string(), "p2.txt".to_string()];
    assert_eq!(build_param(&cfg, &paths), "\"p1.txt\",\"p2.txt\"");
}

#[test]
fn join_default_delimiter_is_space() {
    let mut cfg = MenuConfig::new("T", "x");
    cfg.param = "{path}".to_string();
    cfg.accept_multiple_files_flag = 2;
    let paths = vec!["a".to_string(), "b".to_string()];
    assert_eq!(build_param(&cfg, &paths), "\"a\" \"b\"");
}

#[test]
fn param_for_multiple_files_used_in_join() {
    let mut cfg = MenuConfig::new("T", "x");
    cfg.param = "single {path}".to_string();
    cfg.param_for_multiple_files = "multi {path}".to_string();
    cfg.accept_multiple_files_flag = 2;
    assert_eq!(
        build_param(&cfg, &["a".into(), "b".into()]),
        "multi \"a\" \"b\""
    );
    assert_eq!(build_param(&cfg, &["a".into()]), "single a");
}

// ---------------------------------------------------------------- further cases

#[test]
fn unknown_flag_names_are_reported() {
    assert_eq!(
        dir_bits("everything"),
        Err("unknown acceptDirectoryFlag value: \"everything\"".to_string())
    );
    assert_eq!(
        dir_flag_from_names(&names(&["dir", "Bogus-Name", "nope"])),
        Err("unknown acceptDirectoryFlag value: \"bogusname\"".to_string())
    );
    assert_eq!(
        file_flag_from_name("files"),
        Err("unknown acceptFileFlag value: \"files\"".to_string())
    );
    assert_eq!(
        multi_flag_from_name("both"),
        Err("unknown acceptMultipleFilesFlag value: \"both\"".to_string())
    );
    assert_eq!(
        show_window_from_name("full screen"),
        Err("unknown showWindowFlag value: \"fullscreen\"".to_string())
    );
}

#[test]
fn flag_name_aliases() {
    assert_eq!(dir_bits("Desktop"), Ok(4));
    assert_eq!(dir_bits("none"), Ok(0));
    assert_eq!(dir_flag_from_names(&[]), Ok(0));
    assert_eq!(file_flag_from_name("regex"), Ok(2));
    assert_eq!(file_flag_from_name("EXT"), Ok(1));
    assert_eq!(multi_flag_from_name("None"), Ok(0));
    assert_eq!(show_window_from_name("show"), Ok(0));
    assert_eq!(show_window_from_name("Hidden"), Ok(-1));
}

#[test]
fn dir_flag_priority() {
    let mut c = MenuConfig::new("T", "x");
    assert_eq!(c.dir_flag(), 15);
    c.accept_directory = Some(false);
    c.accept_directory_flag = Some(2);
    assert_eq!(c.dir_flag(), 2);
    c.accept_directory_flag = Some(0xff);
    assert!(c.dir_flag() <= 15);
}

#[test]
fn desktop_and_background_flags() {
    let mut c = MenuConfig::new("T", "x");
    c.accept_directory_flag = Some(4);
    assert!(c.accepts(FileType::Desktop, "", ""));
    assert!(!c.accepts(FileType::Background, "", ""));
    assert!(!c.accepts(FileType::Directory, "", ""));
}

#[test]
fn title_rules_pick_titles() {
    let mut c = MenuConfig::new("Upload", "x");
    c.title_rules = vec![
        TitleRule { accept_exts: ".png|.jpg".to_string(), title: "Upload image".to_string() },
        TitleRule { accept_exts: ".mp4".to_string(), title: "Upload video".to_string() },
    ];
    assert_eq!(c.title_for(&names(&[".png"])), "Upload image");
    assert_eq!(c.title_for(&names(&[".png", ".jpg"])), "Upload image");
    assert_eq!(c.title_for(&names(&[".png", ".mp4"])), "Upload");
    assert_eq!(c.title_for(&names(&[".mp4"])), "Upload video");
    assert_eq!(c.title_for(&names(&[""])), "Upload");
    assert!(c.rule_for_ext(".jpg").is_some());
    assert!(c.rule_for_ext(".gif").is_none());
}

#[test]
fn config_file_selection() {
    assert!(is_config_file_name("menu.JSON"));
    assert!(!is_config_file_name(".json"));
    assert!(!is_config_file_name("menu.json.bak"));
    assert!(is_selected("A.json", None));
    let only = names(&["a.JSON"]);
    assert!(is_selected("A.json", Some(&only)));
    assert!(!is_selected("b.json", Some(&only)));
}

#[test]
fn bom_is_stripped() {
    assert_eq!(strip_bom("\u{feff}{\"a\":1}"), "{\"a\":1}");
    assert_eq!(strip_bom("{}"), "{}");
}

#[test]
fn configs_sort_by_index_then_name() {
    let mut a = MenuConfig::new("A", "x");
    a.index = 2;
    a.source_file = "a.json".to_string();
    let mut b = MenuConfig::new("B", "x");
    b.index = 1;
    b.source_file = "z.json".to_string();
    let mut c = MenuConfig::new("C", "x");
    c.index = 1;
    c.source_file = "m.json".to_string();
    let sorted = sort_configs(vec![a, b, c]);
    let order: Vec<&str> = sorted.iter().map(|c| c.title.as_str()).collect();
    assert_eq!(order, ["C", "B", "A"]);
}

#[test]
fn join_paths_quotes_each() {
    assert_eq!(join_paths(&names(&["a b", "c"]), ";"), "\"a b\";\"c\"");
    assert_eq!(join_paths(&[], ";"), "");
}

#[test]
fn param_without_paths_is_the_template() {
    let mut cfg = MenuConfig::new("T", "x");
    cfg.param = "--flag {path}".to_string();
    assert_eq!(build_param(&cfg, &[]), "--flag {path}");
}

#[test]
fn first_item_variables() {
    let v = PathVars::from_path(r"C:\d\b.txt");
    let f = PathVars::from_path(r"C:\d\a.md");
    assert_eq!(
        substitute("{name}|{name0}|{extension0}|{nameNoExt0}|{path0}", &v, &f),
        r"b.txt|a.md|.md|a|C:\d\a.md"
    );
}

#[test]
fn load_configs_filters_and_sorts() {
    let files = names(&["b.json", "a.JSON", "notes.txt", "broken.json", "skip.json"]);
    let only = names(&["a.json", "B.JSON", "broken.json", "notes.txt"]);
    let read = |n: &str| -> Option<String> {
        match n {
            "broken.json" => Some("not json".to_string()),
            _ => Some(format!("\u{feff}{}", n)),
        }
    };
    let parse = |t: &str| -> Option<MenuConfig> {
        if t.starts_with('\u{feff}') || t == "not json" {
            return None;
        }
        let mut c = MenuConfig::new(t, "x");
        c.index = if t == "b.json" { 0 } else { 1 };
        Some(c)
    };
    let out = cmrs::config::load_configs(&files, Some(&only), read, parse);
    let got: Vec<(&str, i32)> = out.iter().map(|c| (c.source_file.as_str(), c.index)).collect();
    assert_eq!(got, [("b.json", 0), ("a.JSON", 1)]);
}

#[test]
fn plain_template_unchanged() {
    let v = PathVars::from_path(r"C:\d\b.txt");
    assert_eq!(substitute("--verbose --all", &v, &v), "--verbose --all");
    assert_eq!(substitute("", &v, &v), "");
}

#[test]
fn sort_keeps_ties_in_order() {
    let mut items = Vec::new();
    for t in ["first", "second", "third"] {
        let mut c = MenuConfig::new(t, "x");
        c.index = 5;
        c.source_file = "same.json".to_string();
        items.push(c);
    }
    let mut early = MenuConfig::new("early", "x");
    early.index = -1;
    items.push(early);
    let sorted = sort_configs(items);
    let order: Vec<&str> = sorted.iter().map(|c| c.title.as_str()).collect();
    assert_eq!(order, ["early", "first", "second", "third"]);
}

#[test]
fn path_split_rules() {
    let root = PathVars::from_path(r"C:\a.txt");
    assert_eq!(root.parent, r"C:\");
    assert_eq!(root.name, "a.txt");
    let trailing = PathVars::from_path("dir/sub/archive.tar.gz//");
    assert_eq!(trailing.parent, "dir/sub");
    assert_eq!(trailing.name, "archive.tar.gz");
    assert_eq!(trailing.name_no_ext, "archive.tar");
    assert_eq!(trailing.extension, ".gz");
    let bare = PathVars::from_path("README");
    assert_eq!(bare.parent, "");
    assert_eq!(bare.name_no_ext, "README");
    assert_eq!(bare.extension, "");
}

#[test]
fn one_bad_file_costs_no_other() {
    let files = names(&["z.json", "gone.json", "bad.json", "a.json"]);
    let read = |n: &str| -> Option<String> {
        match n {
            "gone.json" => None,
            "bad.json" => Some("{".to_string()),
            _ => Some(n.to_string()),
        }
    };
    let parse = |t: &str| -> Option<MenuConfig> {
        if t == "{" {
            None
        } else {
            Some(MenuConfig::new(t, "x"))
        }
    };
    let out = cmrs::config::load_configs(&files, None, read, parse);
    let got: Vec<&str> = out.iter().map(|c| c.source_file.as_str()).collect();
    assert_eq!(got, ["a.json", "z.json"]);
}
