use crate_diagram::args::{DetectWorkspace, Level, OutputFormat, ParseMode, select_parse_mode};
use crate_diagram::diagram::Diagram;
use crate_diagram::errors::Error;
use crate_diagram::metadata::{
    CrateData, CrateEntry, IndexEntry, ItemData, ItemKind, Visibility, check_format_version,
};
use crate_diagram::package::parse_package;
use crate_diagram::rustdoc::{strip_json_suffix, target_folder};
use crate_diagram::walker::walker;
use crate_diagram::workspace::{DependencyData, ManifestData, WorkspaceData, parse_workspace};

fn module_item(name: &str, public: bool, children: &[&str]) -> ItemData {
    ItemData {
        name: Some(name.to_string()),
        visibility: if public { Visibility::Public } else { Visibility::NotPublic },
        kind: ItemKind::Module {
            children: children.iter().map(|c| c.to_string()).collect(),
        },
        docs: None,
        source_path: None,
    }
}

fn other_item(name: &str) -> ItemData {
    ItemData {
        name: Some(name.to_string()),
        visibility: Visibility::Public,
        kind: ItemKind::Other,
        docs: None,
        source_path: None,
    }
}

fn entry(id: &str, item: ItemData) -> IndexEntry {
    IndexEntry { id: id.to_string(), item }
}

fn small_tree() -> CrateData {
    CrateData {
        root: "0".to_string(),
        format_version: 30,
        items: vec![
            entry("0", module_item("root", true, &["1", "2"])),
            entry("1", module_item("a", true, &["3"])),
            entry("2", module_item("b", true, &[])),
            entry("3", module_item("c", true, &[])),
        ],
    }
}

fn one_crate_map(data: CrateData) -> Vec<CrateEntry> {
    vec![CrateEntry { name: "demo".to_string(), data }]
}

#[test]
fn walker_renders_three_module_tree() {
    let crates = one_crate_map(small_tree());
    let mut d = walker(None, &crates, Level::Module { crate_name: "demo".to_string() }).unwrap();
    d.clean();
    let out = d.render(OutputFormat::C4);
    assert_eq!(out.matches("\tContainer(").count(), 4);
    assert_eq!(out.matches("\tRel(").count(), 3);
    assert!(out.contains("\tRel(0, 1, \"Contains\")\n"));
    assert!(out.contains("\tRel(0, 2, \"Contains\")\n"));
    assert!(out.contains("\tRel(1, 3, \"Contains\")\n"));
}

#[test]
fn walker_diamond_yields_one_element_two_edges() {
    let data = CrateData {
        root: "0".to_string(),
        format_version: 30,
        items: vec![
            entry("0", module_item("root", true, &["1", "2"])),
            entry("1", module_item("left", true, &["3"])),
            entry("2", module_item("right", true, &["3"])),
            entry("3", module_item("shared", true, &[])),
        ],
    };
    let crates = one_crate_map(data);
    let d = walker(None, &crates, Level::Module { crate_name: "demo".to_string() }).unwrap();
    let out = d.render(OutputFormat::C4);
    assert_eq!(out.matches("Container(3,").count(), 1);
    assert_eq!(out.matches(", 3, \"Contains\")").count(), 2);
}

#[test]
fn walker_depth_limit_bounds_the_walk() {
    let data = CrateData {
        root: "0".to_string(),
        format_version: 30,
        items: vec![
            entry("0", module_item("root", true, &["1"])),
            entry("1", module_item("mid", true, &["2"])),
            entry("2", module_item("deep", true, &[])),
        ],
    };
    let crates = one_crate_map(data);
    let d0 = walker(Some(0), &crates, Level::Module { crate_name: "demo".to_string() }).unwrap();
    assert_eq!(d0.render(OutputFormat::C4).matches("\tContainer(").count(), 0);
    let d1 = walker(Some(1), &crates, Level::Module { crate_name: "demo".to_string() }).unwrap();
    assert_eq!(d1.render(OutputFormat::C4).matches("\tContainer(").count(), 1);
    let d2 = walker(Some(2), &crates, Level::Module { crate_name: "demo".to_string() }).unwrap();
    assert_eq!(d2.render(OutputFormat::C4).matches("\tContainer(").count(), 2);
    let d_all = walker(None, &crates, Level::Module { crate_name: "demo".to_string() }).unwrap();
    assert_eq!(d_all.render(OutputFormat::C4).matches("\tContainer(").count(), 3);
}

#[test]
fn walker_depth_cutoff_leaves_dangling_edge_for_clean() {
    let data = CrateData {
        root: "0".to_string(),
        format_version: 30,
        items: vec![
            entry("0", module_item("root", true, &["1"])),
            entry("1", module_item("mid", true, &[])),
        ],
    };
    let crates = one_crate_map(data);
    let mut d = walker(Some(1), &crates, Level::Module { crate_name: "demo".to_string() }).unwrap();
    let before = d.render(OutputFormat::C4);
    assert_eq!(before.matches("\tRel(").count(), 1);
    d.clean();
    let after = d.render(OutputFormat::C4);
    assert_eq!(after.matches("\tRel(").count(), 0);
}

#[test]
fn walker_unknown_crate_is_crate_not_found() {
    let crates = one_crate_map(small_tree());
    let res = walker(None, &crates, Level::Module { crate_name: "absent".to_string() });
    match res {
        Err(Error::CrateNotFound { name }) => assert_eq!(name, "absent"),
        _ => panic!("expected CrateNotFound"),
    }
}

#[test]
fn walker_missing_child_is_malformed_metadata() {
    let data = CrateData {
        root: "0".to_string(),
        format_version: 30,
        items: vec![entry("0", module_item("root", true, &["9"]))],
    };
    let crates = one_crate_map(data);
    let res = walker(None, &crates, Level::Module { crate_name: "demo".to_string() });
    match res {
        Err(Error::MalformedMetadata { id }) => assert_eq!(id, "9"),
        _ => panic!("expected MalformedMetadata"),
    }
}

#[test]
fn walker_non_module_root_is_malformed() {
    let data = CrateData {
        root: "0".to_string(),
        format_version: 30,
        items: vec![entry("0", other_item("not_a_module"))],
    };
    let crates = one_crate_map(data);
    let res = walker(None, &crates, Level::Module { crate_name: "demo".to_string() });
    match res {
        Err(Error::MalformedMetadata { id }) => assert_eq!(id, "0"),
        _ => panic!("expected MalformedMetadata"),
    }
}

#[test]
fn walker_skips_non_module_children() {
    let data = CrateData {
        root: "0".to_string(),
        format_version: 30,
        items: vec![
            entry("0", module_item("root", true, &["1", "2"])),
            entry("1", other_item("a_function")),
            entry("2", module_item("inner", true, &[])),
        ],
    };
    let crates = one_crate_map(data);
    let d = walker(None, &crates, Level::Module { crate_name: "demo".to_string() }).unwrap();
    let out = d.render(OutputFormat::C4);
    assert_eq!(out.matches("\tContainer(").count(), 2);
    assert!(!out.contains("Container(1"));
}

#[test]
fn walker_crate_level_merges_all_crates() {
    let one = CrateData {
        root: "a0".to_string(),
        format_version: 30,
        items: vec![entry("a0", module_item("first", true, &[]))],
    };
    let two = CrateData {
        root: "b0".to_string(),
        format_version: 30,
        items: vec![entry("b0", module_item("second", true, &[]))],
    };
    let crates = vec![
        CrateEntry { name: "first".to_string(), data: one },
        CrateEntry { name: "second".to_string(), data: two },
    ];
    let d = walker(None, &crates, Level::Crate).unwrap();
    let out = d.render(OutputFormat::C4);
    assert!(out.contains("Container(a0"));
    assert!(out.contains("Container(b0"));
}

#[test]
fn walker_uses_source_path_as_description() {
    let data = CrateData {
        root: "0".to_string(),
        format_version: 30,
        items: vec![entry(
            "0",
            ItemData {
                name: Some("root".to_string()),
                visibility: Visibility::Public,
                kind: ItemKind::Module { children: vec![] },
                docs: None,
                source_path: Some("src/lib.rs".to_string()),
            },
        )],
    };
    let crates = one_crate_map(data);
    let d = walker(None, &crates, Level::Module { crate_name: "demo".to_string() }).unwrap();
    let out = d.render(OutputFormat::C4);
    assert!(out.contains("\tContainer(0, \"root\", \"src/lib.rs\")\n"));
}

#[test]
fn parse_package_registers_public_modules_only() {
    let data = CrateData {
        root: "0".to_string(),
        format_version: 30,
        items: vec![
            entry("0", module_item("root", true, &["1", "2", "3"])),
            entry("1", module_item("pub_mod", true, &[])),
            entry("2", module_item("priv_mod", false, &[])),
            entry("3", other_item("a_struct")),
        ],
    };
    let mut d = Diagram::new("Diagram".to_string(), "".to_string());
    parse_package(&mut d, &data).unwrap();
    let out = d.render(OutputFormat::C4);
    assert_eq!(out.matches("\tContainer(").count(), 2);
    assert!(out.contains("Container(1, \"pub_mod\", \"Module\")"));
    assert!(!out.contains("Container(2"));
    assert!(!out.contains("Container(3"));
    assert!(out.contains("\tRel(0, 1, \"Contains\")\n"));
}

#[test]
fn parse_package_diamond_keeps_both_parent_edges() {
    let data = CrateData {
        root: "0".to_string(),
        format_version: 30,
        items: vec![
            entry("0", module_item("root", true, &["1", "2"])),
            entry("1", module_item("left", true, &["3"])),
            entry("2", module_item("right", true, &["3"])),
            entry("3", module_item("shared", true, &[])),
        ],
    };
    let mut d = Diagram::new("Diagram".to_string(), "".to_string());
    parse_package(&mut d, &data).unwrap();
    let out = d.render(OutputFormat::C4);
    assert_eq!(out.matches("Container(3,").count(), 1);
    assert_eq!(out.matches(", 3, \"Contains\")").count(), 2);
    assert!(out.contains("\tRel(1, 3, \"Contains\")\n"));
    assert!(out.contains("\tRel(2, 3, \"Contains\")\n"));
}

#[test]
fn parse_package_root_uses_docs_as_description() {
    let data = CrateData {
        root: "0".to_string(),
        format_version: 30,
        items: vec![entry(
            "0",
            ItemData {
                name: Some("demo".to_string()),
                visibility: Visibility::Public,
                kind: ItemKind::Module { children: vec![] },
                docs: Some("the demo crate".to_string()),
                source_path: None,
            },
        )],
    };
    let mut d = Diagram::new("Diagram".to_string(), "".to_string());
    parse_package(&mut d, &data).unwrap();
    let out = d.render(OutputFormat::C4);
    assert!(out.contains("\tContainer(0, \"demo\", \"the demo crate\")\n"));
}

#[test]
fn parse_package_non_module_root_is_malformed() {
    let data = CrateData {
        root: "0".to_string(),
        format_version: 30,
        items: vec![entry("0", other_item("not_a_module"))],
    };
    let mut d = Diagram::new("Diagram".to_string(), "".to_string());
    let res = parse_package(&mut d, &data);
    match res {
        Err(Error::MalformedMetadata { id }) => assert_eq!(id, "0"),
        _ => panic!("expected MalformedMetadata"),
    }
}

#[test]
fn workspace_path_dependency_yields_one_edge_and_no_registry_noise() {
    let ws = WorkspaceData {
        members: vec!["core".to_string(), "app".to_string()],
        manifests: vec![
            ManifestData { has_package: true, dependencies: vec![] },
            ManifestData {
                has_package: true,
                dependencies: vec![
                    DependencyData {
                        name: "serde".to_string(),
                        rename: None,
                        registry_hosted: true,
                    },
                    DependencyData {
                        name: "core".to_string(),
                        rename: None,
                        registry_hosted: false,
                    },
                ],
            },
        ],
    };
    let mut d = Diagram::new("Diagram".to_string(), "".to_string());
    parse_workspace(&mut d, &ws).unwrap();
    let out = d.render(OutputFormat::C4);
    assert_eq!(out.matches("\tContainer(").count(), 1);
    assert!(out.contains("Container(core, \"core\", \"\")"));
    assert!(!out.contains("serde"));
    assert_eq!(out.matches("\tRel(").count(), 1);
    assert!(out.contains("\tRel(app, core, \"depends\")\n"));
}

#[test]
fn workspace_rename_resolves_effective_name() {
    let ws = WorkspaceData {
        members: vec!["core".to_string(), "app".to_string()],
        manifests: vec![
            ManifestData { has_package: true, dependencies: vec![] },
            ManifestData {
                has_package: true,
                dependencies: vec![DependencyData {
                    name: "core_alias".to_string(),
                    rename: Some("core".to_string()),
                    registry_hosted: false,
                }],
            },
        ],
    };
    let mut d = Diagram::new("Diagram".to_string(), "".to_string());
    parse_workspace(&mut d, &ws).unwrap();
    let out = d.render(OutputFormat::Graphviz);
    assert!(out.contains("\"app\" -> \"core\""));
}

#[test]
fn workspace_member_without_package_is_malformed() {
    let ws = WorkspaceData {
        members: vec!["core".to_string()],
        manifests: vec![ManifestData { has_package: false, dependencies: vec![] }],
    };
    let mut d = Diagram::new("Diagram".to_string(), "".to_string());
    let res = parse_workspace(&mut d, &ws);
    match res {
        Err(Error::MalformedMetadata { id }) => assert_eq!(id, "core"),
        _ => panic!("expected MalformedMetadata"),
    }
}

#[test]
fn workspace_non_member_local_dependency_is_ignored() {
    let ws = WorkspaceData {
        members: vec!["app".to_string()],
        manifests: vec![ManifestData {
            has_package: true,
            dependencies: vec![DependencyData {
                name: "elsewhere".to_string(),
                rename: None,
                registry_hosted: false,
            }],
        }],
    };
    let mut d = Diagram::new("Diagram".to_string(), "".to_string());
    parse_workspace(&mut d, &ws).unwrap();
    let out = d.render(OutputFormat::C4);
    assert_eq!(out.matches("\tContainer(").count(), 0);
    assert_eq!(out.matches("\tRel(").count(), 0);
}

#[test]
fn format_version_check_accepts_match_and_names_mismatch() {
    let data = small_tree();
    assert!(check_format_version(&data, 30).is_ok());
    match check_format_version(&data, 29) {
        Err(Error::UnsupportedSchemaVersion { found, expected }) => {
            assert_eq!(found, 30);
            assert_eq!(expected, 29);
        },
        _ => panic!("expected UnsupportedSchemaVersion"),
    }
}

#[test]
fn select_parse_mode_follows_detection() {
    assert!(matches!(
        select_parse_mode(&DetectWorkspace::Yes, true, false),
        Ok(ParseMode::Workspace)
    ));
    assert!(matches!(
        select_parse_mode(&DetectWorkspace::Yes, false, true),
        Err(Error::NoWorkspaceFound)
    ));
    assert!(matches!(
        select_parse_mode(&DetectWorkspace::No, false, true),
        Ok(ParseMode::Package)
    ));
    assert!(matches!(
        select_parse_mode(&DetectWorkspace::No, true, false),
        Err(Error::NoPackageFound)
    ));
    assert!(matches!(
        select_parse_mode(&DetectWorkspace::Auto, true, true),
        Ok(ParseMode::Workspace)
    ));
    assert!(matches!(
        select_parse_mode(&DetectWorkspace::Auto, false, true),
        Ok(ParseMode::Package)
    ));
    assert!(matches!(
        select_parse_mode(&DetectWorkspace::Auto, false, false),
        Err(Error::NoPackageFound)
    ));
}

#[test]
fn target_folder_appends_doc_path() {
    assert_eq!(target_folder("/proj"), "/proj/target/doc");
    assert_eq!(target_folder("."), "./target/doc");
}

#[test]
fn strip_json_suffix_handles_both_cases() {
    assert_eq!(strip_json_suffix("demo.json"), Some("demo".to_string()));
    assert_eq!(strip_json_suffix(".json"), Some("".to_string()));
    assert_eq!(strip_json_suffix("demo.txt"), None);
    assert_eq!(strip_json_suffix("js"), None);
}
