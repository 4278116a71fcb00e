use cmrs::config::{FileType, MenuConfig, SmallIcon};
use cmrs::shell::{
    classify, clsid_key_matches, default_group_title, find_entry, format_guid, icon_of,
    is_classic_menu_host, is_drive_root, matching_configs, name_and_ext, root_title, ClassFactory,
    CommandCursor, MappingEntry, RootCommand,
};

fn strings(v: &[&str]) -> Vec<String> {
    v.iter().map(|s| s.to_string()).collect()
}

#[test]
fn drive_roots() {
    assert!(is_drive_root("C:"));
    assert!(is_drive_root("d:\\"));
    assert!(!is_drive_root("C:\\x"));
    assert!(!is_drive_root("1:\\"));
    assert!(!is_drive_root("C:/"));
}

#[test]
fn classifying_items() {
    assert_eq!(classify("C:\\a.txt", false, false, None), FileType::File);
    assert_eq!(classify("C:\\dir", true, false, None), FileType::Directory);
    assert_eq!(classify("C:\\", true, false, None), FileType::Drive);
    assert_eq!(
        classify("C:\\Users\\me\\Desktop", true, true, Some("c:\\users\\ME\\desktop")),
        FileType::Desktop
    );
    assert_eq!(classify("C:\\dir", true, true, Some("C:\\Users\\me\\Desktop")), FileType::Background);
    assert_eq!(classify("C:\\dir", true, true, None), FileType::Background);
}

#[test]
fn names_and_extensions() {
    assert_eq!(
        name_and_ext("C:\\d\\Report.PDF", FileType::File),
        ("Report.PDF".to_string(), ".pdf".to_string())
    );
    assert_eq!(
        name_and_ext("C:\\d\\folder.v2", FileType::Directory),
        ("folder.v2".to_string(), String::new())
    );
}

#[test]
fn matching_keeps_order_and_needs_multi_support() {
    let mut files = MenuConfig::new("files", "x");
    files.accept_directory_flag = Some(0);
    files.accept_file_flag = Some(4);
    let mut multi = MenuConfig::new("multi", "x");
    multi.accept_file_flag = Some(4);
    multi.accept_multiple_files_flag = 1;
    let mut folders = MenuConfig::new("folders", "x");
    folders.accept_file_flag = Some(0);
    let types = [FileType::File, FileType::File];
    let names = strings(&["a.txt", "b.txt"]);
    let exts = strings(&[".txt", ".txt"]);
    let m = matching_configs(vec![files.clone(), multi.clone(), folders.clone()], &types, &names, &exts);
    let titles: Vec<&str> = m.iter().map(|c| c.title.as_str()).collect();
    assert_eq!(titles, ["multi"]);

    let m = matching_configs(vec![files, multi, folders], &types[..1], &names[..1], &exts[..1]);
    let titles: Vec<&str> = m.iter().map(|c| c.title.as_str()).collect();
    assert_eq!(titles, ["files", "multi"]);
}

#[test]
fn guid_formatting_and_keys() {
    let g = format_guid(0x01234567, 0x89ab, 0xcdef, [0, 1, 2, 3, 4, 5, 6, 0xff]);
    assert_eq!(g, "01234567-89AB-CDEF-0001-0203040506FF");
    assert!(clsid_key_matches("{01234567-89ab-cdef-0001-0203040506ff}", &g));
    assert!(clsid_key_matches("01234567-89AB-CDEF-0001-0203040506FF", &g));
    assert!(!clsid_key_matches("01234567-89AB-CDEF-0001-0203040506FE", &g));
}

#[test]
fn mapping_entry_defaults() {
    let e = MappingEntry::default();
    assert_eq!(e.title, "Custom Menu");
    assert!(e.files.is_none());
    assert_eq!(default_group_title(), "Custom Menu");
}

#[test]
fn finding_mapping_entries() {
    let keys = strings(&["AAAA", "{bbbb}", "BBBB"]);
    assert_eq!(find_entry(&keys, "BBBB"), Some(1));
    assert_eq!(find_entry(&keys, "CCCC"), None);
}

#[test]
fn root_titles() {
    let mut c = MenuConfig::new("Only", "x");
    c.title_rules = vec![cmrs::config::TitleRule {
        accept_exts: ".md".to_string(),
        title: "Markdown".to_string(),
    }];
    let d = MenuConfig::new("Other", "x");
    assert_eq!(root_title(&[c.clone()], &strings(&[".md"]), "Group"), "Markdown");
    assert_eq!(root_title(&[c.clone()], &strings(&[".txt"]), "Group"), "Only");
    assert_eq!(root_title(&[c, d], &strings(&[".md"]), "Group"), "Group");
}

#[test]
fn icon_lookup() {
    let mut c = MenuConfig::new("T", "C:\\app.exe");
    c.source_file = "My Entry.json".to_string();
    c.icon = "exe".to_string();
    c.icon_dark = "C:\\dark.ico".to_string();
    let plain = icon_of(&c, true);
    assert!(plain.generated.is_empty());
    assert_eq!(plain.fallback, "C:\\dark.ico");
    assert_eq!(icon_of(&c, false).fallback, "C:\\app.exe");
    c.small_icon = Some(SmallIcon { icon: "uac".to_string(), location: String::new() });
    let gen = icon_of(&c, true);
    assert_eq!(gen.generated, strings(&["MyEntry.dark.ico", "MyEntry.ico"]));
    assert_eq!(icon_of(&c, false).generated, strings(&["MyEntry.ico"]));
}

#[test]
fn root_command_flow() {
    let entry = MappingEntry { title: "Group".to_string(), files: None };
    let factory = ClassFactory { entry };
    assert!(factory.create_instance(true).is_none());
    let mut cmd = factory.create_instance(false).unwrap();
    assert_eq!(cmd.title, "Group");
    assert!(!cmd.has_sub_commands());

    let mut a = MenuConfig::new("A", "a.exe");
    a.source_file = "a.json".to_string();
    a.param = "{name}".to_string();
    let mut b = MenuConfig::new("B", "b.exe");
    b.source_file = "b.json".to_string();
    b.accept_file_flag = Some(0);
    let items = vec![("C:\\d\\x.txt".to_string(), FileType::File)];
    assert!(cmd.update(&items, vec![a.clone(), b.clone()], false));
    assert_eq!(cmd.matched.len(), 1);
    assert_eq!(cmd.get_title(), "A");
    assert_eq!(cmd.exts, strings(&[".txt"]));
    let runs = cmd.invoke();
    assert_eq!(runs.len(), 1);
    assert_eq!(runs[0].params, "x.txt");
    assert!(cmd.get_icon().is_some());
    assert!(cmd.sub_titles().is_empty());

    let folder = vec![("C:\\d".to_string(), FileType::Directory)];
    assert!(cmd.update(&folder, vec![a, b], true));
    assert!(cmd.has_sub_commands());
    assert_eq!(cmd.get_title(), "Group");
    assert!(cmd.invoke().is_empty());
    assert!(cmd.get_icon().is_none());
    assert_eq!(cmd.sub_titles(), strings(&["A", "B"]));

    assert!(!cmd.update(&[], Vec::new(), false));
    assert_eq!(cmd.matched.len(), 2);
    assert!(cmd.dark);
}

#[test]
fn root_command_new_copies_entry() {
    let entry = MappingEntry { title: "T".to_string(), files: Some(strings(&["a.json"])) };
    let cmd = RootCommand::new(&entry);
    assert_eq!(cmd.files, Some(strings(&["a.json"])));
    assert!(cmd.matched.is_empty() && cmd.paths.is_empty() && cmd.exts.is_empty());
}

#[test]
fn classic_menu_hosts() {
    assert!(!is_classic_menu_host(Some("NamespaceTreeControl")));
    assert!(is_classic_menu_host(Some("SHELLDLL_DefView")));
    assert!(is_classic_menu_host(None));
}

#[test]
fn command_cursor() {
    let mut c = CommandCursor::new(3);
    assert_eq!(c.next(2), (0, 2));
    assert_eq!(c.next(2), (2, 1));
    assert_eq!(c.next(1), (3, 0));
    c.reset();
    c.skip(5);
    assert_eq!(c.pos, 3);
    c.reset();
    c.skip(1);
    assert_eq!(c.next(5), (1, 2));
}
