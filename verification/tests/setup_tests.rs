use cmrs::config::{MenuConfig, TitleRule};
use cmrs::setup::{
    classic_targets, deterministic_clsid, generated_icon_name, item_types_xml, manifest_xml,
    parse_icon_spec, slug, xml_escape, ClassicTarget,
};

fn roots_and_titles(targets: &[ClassicTarget]) -> Vec<(&str, &str)> {
    targets
        .iter()
        .map(|t| (t.root.as_str(), t.title.as_str()))
        .collect()
}

fn rule(exts: &str, title: &str) -> TitleRule {
    TitleRule {
        accept_exts: exts.to_string(),
        title: title.to_string(),
    }
}

#[test]
fn clsid_reference_vectors() {
    assert_eq!(
        deterministic_clsid("Open in Terminal (Admin).json"),
        "F45A1604-346E-8227-E86D-48177CBE7295"
    );
    assert_eq!(deterministic_clsid("a.json"), "5CACDDE5-73ED-D7ED-BFED-38B88716496E");
}

#[test]
fn clsid_is_case_insensitive() {
    assert_eq!(deterministic_clsid("A.JSON"), deterministic_clsid("a.json"));
}

#[test]
fn slug_rules() {
    assert_eq!(slug("Open in Terminal (Admin).json"), "OpeninTerminalAdmin");
    assert_eq!(slug("a.JSON"), "a");
    assert_eq!(slug("---.json"), "entry");
    assert_eq!(slug(&format!("{}.json", "x".repeat(40))), "x".repeat(30));
}

#[test]
fn item_types_follow_flags() {
    let all = item_types_xml(15, 4, "G");
    assert!(all.contains("Type=\"Directory\""));
    assert!(all.contains("Type=\"Directory\\Background\""));
    assert!(all.contains("Type=\"*\""));
    assert!(all.contains("desktop10:ItemType Type=\"Drive\""));

    assert_eq!(item_types_xml(0, 0, "G"), "");
    let bg_only = item_types_xml(4, 0, "G");
    assert!(bg_only.contains("Directory\\Background"));
    assert!(!bg_only.contains("Type=\"Directory\"><"));
}

#[test]
fn manifest_escapes_title() {
    let m = manifest_xml("CtxRs.x", "A & B <\"'>", "G", "");
    assert!(m.contains("<DisplayName>A &amp; B &lt;&quot;&apos;&gt;</DisplayName>"));
    assert!(m.contains("Name=\"CtxRs.x\""));
}

#[test]
fn icon_spec_parsing() {
    assert_eq!(parse_icon_spec(r"C:\x\wt.exe,0"), (r"C:\x\wt.exe".into(), 0));
    assert_eq!(parse_icon_spec(r"C:\i.ico"), (r"C:\i.ico".into(), 0));
    assert_eq!(
        parse_icon_spec(r#""C:\a b\app.exe",-78"#),
        (r"C:\a b\app.exe".into(), -78)
    );
    assert_eq!(
        parse_icon_spec(r"C:\dir,with,commas\i.ico"),
        (r"C:\dir,with,commas\i.ico".into(), 0)
    );
    assert_eq!(parse_icon_spec(" \"C:\\q.exe\" , 3 "), (r"C:\q.exe".into(), 3));
}

#[test]
fn generated_icon_names() {
    assert_eq!(generated_icon_name("Slug", false), "Slug.ico");
    assert_eq!(generated_icon_name("Slug", true), "Slug.dark.ico");
}

#[test]
fn classic_targets_all_files_with_rules() {
    let mut cfg = MenuConfig::new("Upload file", "x");
    cfg.accept_directory_flag = Some(0);
    cfg.accept_file_flag = Some(4);
    cfg.title_rules = vec![rule(".png|.jpg", "Upload image"), rule(".PNG|.mp4", "Upload video")];
    let targets = classic_targets(&cfg, "Upload file");
    assert_eq!(
        roots_and_titles(&targets),
        [
            (r"Software\Classes\*\shell", "Upload file"),
            (r"Software\Classes\SystemFileAssociations\.png\shell", "Upload image"),
            (r"Software\Classes\SystemFileAssociations\.jpg\shell", "Upload image"),
            (r"Software\Classes\SystemFileAssociations\.mp4\shell", "Upload video"),
        ]
    );
    assert!(targets.iter().all(|t| t.arg == "%1"));
}

#[test]
fn classic_targets_ext_list_skips_the_all_files_root() {
    let mut cfg = MenuConfig::new("T", "x");
    cfg.accept_directory_flag = Some(1 | 8);
    cfg.accept_file_flag = Some(3);
    cfg.accept_exts = ".txt|.md|bad|".to_string();
    cfg.title_rules = vec![rule(".md", "Markdown")];
    assert_eq!(
        roots_and_titles(&classic_targets(&cfg, "T")),
        [
            (r"Software\Classes\Directory\shell", "T"),
            (r"Software\Classes\Drive\shell", "T"),
            (r"Software\Classes\SystemFileAssociations\.txt\shell", "T"),
            (r"Software\Classes\SystemFileAssociations\.md\shell", "Markdown"),
        ]
    );
}

#[test]
fn classic_targets_disabled() {
    let mut cfg = MenuConfig::new("T", "x");
    cfg.classic_menu = false;
    assert!(classic_targets(&cfg, "T").is_empty());
}

// ---------------------------------------------------------------- further cases

#[test]
fn clsid_has_registry_shape() {
    let g = deterministic_clsid("whatever name.json");
    assert_eq!(g.len(), 36);
    for (i, c) in g.chars().enumerate() {
        if i == 8 || i == 13 || i == 18 || i == 23 {
            assert_eq!(c, '-');
        } else {
            assert!(c.is_ascii_digit() || ('A'..='F').contains(&c));
        }
    }
}

#[test]
fn clsid_depends_on_the_name() {
    assert_ne!(deterministic_clsid("a.json"), deterministic_clsid("b.json"));
}

#[test]
fn slug_is_short_alphanumeric() {
    let s = slug("Ünïcode & symbols!! 123 and a very long tail indeed.json");
    assert!(!s.is_empty() && s.len() <= 30);
    assert!(s.chars().all(|c| c.is_ascii_alphanumeric()));
    assert_eq!(slug("noext"), "noext");
    assert_eq!(slug(""), "entry");
}

#[test]
fn xml_escape_examples() {
    assert_eq!(xml_escape("plain text"), "plain text");
    assert_eq!(xml_escape("a&b"), "a&amp;b");
    assert_eq!(xml_escape("<'\">"), "&lt;&apos;&quot;&gt;");
}

#[test]
fn item_types_empty_only_without_targets() {
    assert_eq!(item_types_xml(0, 0, "G"), "");
    assert!(!item_types_xml(0, 1, "G").is_empty());
    assert!(!item_types_xml(8, 0, "G").is_empty());
    assert_eq!(item_types_xml(16, 0, "G"), "");
    let drive = item_types_xml(8, 0, "G");
    assert_eq!(
        drive,
        "            <desktop10:ItemType Type=\"Drive\"><desktop10:Verb Id=\"Cmd\" Clsid=\"G\"/></desktop10:ItemType>\r\n"
    );
}

#[test]
fn manifest_carries_clsid_and_item_types() {
    let m = manifest_xml("CtxRs.y", "T", "CLSID-1", "ITEMS");
    assert!(m.starts_with("<?xml version=\"1.0\" encoding=\"utf-8\"?>"));
    assert!(m.contains("<com:Class Id=\"CLSID-1\""));
    assert!(m.contains("ITEMS"));
}

#[test]
fn icon_spec_edge_cases() {
    assert_eq!(parse_icon_spec(""), (String::new(), 0));
    assert_eq!(parse_icon_spec("C:\\x.exe,abc"), ("C:\\x.exe,abc".into(), 0));
    assert_eq!(parse_icon_spec("\"C:\\x.exe\""), ("C:\\x.exe".into(), 0));
}

#[test]
fn classic_targets_folders_only() {
    let mut cfg = MenuConfig::new("T", "x");
    cfg.accept_directory_flag = Some(15);
    cfg.accept_file_flag = Some(0);
    assert_eq!(
        roots_and_titles(&classic_targets(&cfg, "Title")),
        [
            (r"Software\Classes\Directory\shell", "Title"),
            (r"Software\Classes\Directory\Background\shell", "Title"),
            (r"Software\Classes\Drive\shell", "Title"),
        ]
    );
}

#[test]
fn xml_escape_writes_only_entities() {
    assert_eq!(xml_escape("A & B"), "A &amp; B");
    assert_eq!(xml_escape("&amp;"), "&amp;amp;");
    assert_eq!(xml_escape("x<y>'z'\"&"), "x&lt;y&gt;&apos;z&apos;&quot;&amp;");
}
