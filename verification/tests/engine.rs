use used_items::crate_map::{list_used_items_in_project, Project, SourceFile, SourceRoot};
use used_items::item_map::UsedItemMap;
use used_items::use_tree::{
    used_items, used_items_in_use_item, used_items_in_use_tree, FileSyntax, ModuleItem,
    Resolution, UseDecl, UseTree,
};
use used_items::used_item::{NavTarget, SyntaxCategory, UsedItem, UsedItemKind};

fn target(name: &str, category: SyntaxCategory) -> NavTarget {
    NavTarget { name: name.to_string(), category }
}

fn leaf(targets: Vec<NavTarget>) -> UseTree {
    UseTree::Leaf(Resolution::Resolved(targets))
}

fn use_of(tree: UseTree) -> ModuleItem {
    ModuleItem::Use(UseDecl { tree: Some(tree) })
}

fn names(items: &Vec<UsedItem>) -> Vec<String> {
    items.iter().map(|i| i.name().clone()).collect()
}

fn assert_map_is(
    map: &UsedItemMap,
    modules: &[&str],
    traits: &[&str],
    structs: &[&str],
    enums: &[&str],
    fns: &[&str],
    consts: &[&str],
    macros: &[&str],
    others: &[&str],
) {
    assert_eq!(names(map.modules()), modules);
    assert_eq!(names(map.traits()), traits);
    assert_eq!(names(map.structs()), structs);
    assert_eq!(names(map.enums()), enums);
    assert_eq!(names(map.fns()), fns);
    assert_eq!(names(map.consts()), consts);
    assert_eq!(names(map.macros()), macros);
    assert_eq!(names(map.others()), others);
}

#[test]
fn classifies_every_recognized_category() {
    assert_eq!(
        UsedItemKind::from_syntax_kind(SyntaxCategory::SourceFile),
        UsedItemKind::Module
    );
    assert_eq!(
        UsedItemKind::from_syntax_kind(SyntaxCategory::TraitDef),
        UsedItemKind::Trait
    );
    assert_eq!(
        UsedItemKind::from_syntax_kind(SyntaxCategory::StructDef),
        UsedItemKind::Struct
    );
    assert_eq!(
        UsedItemKind::from_syntax_kind(SyntaxCategory::EnumDef),
        UsedItemKind::Enum
    );
    assert_eq!(UsedItemKind::from_syntax_kind(SyntaxCategory::FnDef), UsedItemKind::Fn);
    assert_eq!(
        UsedItemKind::from_syntax_kind(SyntaxCategory::ConstDef),
        UsedItemKind::Const
    );
    assert_eq!(
        UsedItemKind::from_syntax_kind(SyntaxCategory::MacroCall),
        UsedItemKind::Macro
    );
    assert_eq!(
        UsedItemKind::from_syntax_kind(SyntaxCategory::Unrecognized),
        UsedItemKind::Other
    );
}

#[test]
fn navigation_target_becomes_classified_item() {
    let item = UsedItem::from_navigation_target(&target("Reader", SyntaxCategory::TraitDef));
    assert_eq!(item.name().as_str(), "Reader");
    assert_eq!(item.kind(), UsedItemKind::Trait);
}

#[test]
fn single_struct_import() {
    // `use std::collections::HashMap;` where HashMap resolves to a struct.
    let file = FileSyntax::Parsed(vec![use_of(leaf(vec![target(
        "HashMap",
        SyntaxCategory::StructDef,
    )]))]);
    let map = used_items(&file);
    assert_map_is(&map, &[], &[], &["HashMap"], &[], &[], &[], &[], &[]);
    assert!(!map.is_empty());
}

#[test]
fn group_of_function_and_enum() {
    // `use foo::{bar, baz::Qux};` where bar is a fn and Qux an enum.
    let file = FileSyntax::Parsed(vec![use_of(UseTree::Group(vec![
        leaf(vec![target("bar", SyntaxCategory::FnDef)]),
        leaf(vec![target("Qux", SyntaxCategory::EnumDef)]),
    ]))]);
    let map = used_items(&file);
    assert_map_is(&map, &[], &[], &[], &["Qux"], &["bar"], &[], &[], &[]);
}

#[test]
fn file_without_imports_is_empty() {
    let file = FileSyntax::Parsed(vec![ModuleItem::Other, ModuleItem::Other]);
    let map = used_items(&file);
    assert!(map.is_empty());
}

#[test]
fn unparsable_file_is_empty() {
    let map = used_items(&FileSyntax::Unparsable);
    assert!(map.is_empty());
}

#[test]
fn duplicate_imports_are_deduplicated() {
    // `use a::{b, b};` resolves twice to the same function.
    let file = FileSyntax::Parsed(vec![use_of(UseTree::Group(vec![
        leaf(vec![target("b", SyntaxCategory::FnDef)]),
        leaf(vec![target("b", SyntaxCategory::FnDef)]),
    ]))]);
    let map = used_items(&file);
    assert_map_is(&map, &[], &[], &[], &[], &["b"], &[], &[], &[]);
    assert_eq!(map.fns().len(), 1);
}

#[test]
fn same_name_under_two_kinds_kept_apart() {
    let file = FileSyntax::Parsed(vec![use_of(UseTree::Group(vec![
        leaf(vec![target("color", SyntaxCategory::FnDef)]),
        leaf(vec![target("color", SyntaxCategory::ConstDef)]),
    ]))]);
    let map = used_items(&file);
    assert_map_is(&map, &[], &[], &[], &[], &["color"], &["color"], &[], &[]);
}

#[test]
fn empty_group_contributes_nothing() {
    // `use a::{};` beside a real import.
    let file = FileSyntax::Parsed(vec![
        use_of(UseTree::Group(vec![])),
        use_of(leaf(vec![target("run", SyntaxCategory::FnDef)])),
    ]);
    let map = used_items(&file);
    assert_map_is(&map, &[], &[], &[], &[], &["run"], &[], &[], &[]);
}

#[test]
fn empty_group_alone_yields_empty_map() {
    let file = FileSyntax::Parsed(vec![use_of(UseTree::Group(vec![]))]);
    let map = used_items(&file);
    assert!(map.is_empty());
}

#[test]
fn unresolved_import_is_omitted_siblings_kept() {
    let file = FileSyntax::Parsed(vec![use_of(UseTree::Group(vec![
        UseTree::Leaf(Resolution::Unresolved),
        leaf(vec![target("Known", SyntaxCategory::StructDef)]),
    ]))]);
    let map = used_items(&file);
    assert_map_is(&map, &[], &[], &["Known"], &[], &[], &[], &[], &[]);
}

#[test]
fn declaration_without_tree_contributes_nothing() {
    let file = FileSyntax::Parsed(vec![
        ModuleItem::Use(UseDecl { tree: None }),
        use_of(leaf(vec![target("go", SyntaxCategory::FnDef)])),
    ]);
    let map = used_items(&file);
    assert_map_is(&map, &[], &[], &[], &[], &["go"], &[], &[], &[]);
}

#[test]
fn group_expansion_matches_separate_imports() {
    // Resolving `a::{b, c}` equals the union of resolving a::b and a::c.
    let grouped = FileSyntax::Parsed(vec![use_of(UseTree::Group(vec![
        leaf(vec![target("b", SyntaxCategory::FnDef)]),
        leaf(vec![target("c", SyntaxCategory::StructDef)]),
    ]))]);
    let separate = FileSyntax::Parsed(vec![
        use_of(leaf(vec![target("b", SyntaxCategory::FnDef)])),
        use_of(leaf(vec![target("c", SyntaxCategory::StructDef)])),
    ]);
    let m1 = used_items(&grouped);
    let m2 = used_items(&separate);
    assert_eq!(names(m1.fns()), names(m2.fns()));
    assert_eq!(names(m1.structs()), names(m2.structs()));
    assert_eq!(names(m1.modules()), names(m2.modules()));
    assert_eq!(names(m1.others()), names(m2.others()));
}

#[test]
fn nested_groups_expand_left_to_right() {
    // `use a::{b, c::{d, e}};`
    let tree = UseTree::Group(vec![
        leaf(vec![target("b", SyntaxCategory::FnDef)]),
        UseTree::Group(vec![
            leaf(vec![target("d", SyntaxCategory::FnDef)]),
            leaf(vec![target("e", SyntaxCategory::FnDef)]),
        ]),
    ]);
    let expanded = used_items_in_use_tree(&tree).expect("a group always yields a list");
    let got: Vec<String> = expanded.iter().map(|i| i.name().clone()).collect();
    assert_eq!(got, vec!["b".to_string(), "d".to_string(), "e".to_string()]);
}

#[test]
fn declaration_without_tree_yields_no_result() {
    let malformed = UseDecl { tree: None };
    assert!(used_items_in_use_item(&malformed).is_none());
}

#[test]
fn declaration_with_unresolved_leaf_yields_empty_result() {
    let decl = UseDecl {
        tree: Some(UseTree::Leaf(Resolution::Unresolved)),
    };
    let expanded = used_items_in_use_item(&decl).expect("a declaration with a tree has a result");
    assert!(expanded.is_empty());
}

#[test]
fn unparsable_file_leaves_other_entries_unchanged() {
    let other = || SourceFile {
        path: "src/ok.rs".to_string(),
        syntax: FileSyntax::Parsed(vec![use_of(leaf(vec![target(
            "Kept",
            SyntaxCategory::StructDef,
        )]))]),
    };
    let with_failure = Project {
        roots: vec![SourceRoot {
            is_member: true,
            files: vec![
                SourceFile {
                    path: "src/d.rs".to_string(),
                    syntax: FileSyntax::Unparsable,
                },
                other(),
            ],
        }],
    };
    let with_parse = Project {
        roots: vec![SourceRoot {
            is_member: true,
            files: vec![
                SourceFile {
                    path: "src/d.rs".to_string(),
                    syntax: FileSyntax::Parsed(vec![use_of(leaf(vec![target(
                        "Gone",
                        SyntaxCategory::FnDef,
                    )]))]),
                },
                other(),
            ],
        }],
    };
    let cm1 = list_used_items_in_project(&with_failure);
    let cm2 = list_used_items_in_project(&with_parse);
    assert_eq!(cm1.len(), 2);
    assert!(cm1.get("src/d.rs").expect("entry present").is_empty());
    let kept1 = cm1.get("src/ok.rs").expect("entry present");
    let kept2 = cm2.get("src/ok.rs").expect("entry present");
    assert_eq!(kept1.structs(), kept2.structs());
    assert_eq!(names(kept1.structs()), vec!["Kept".to_string()]);
}

#[test]
fn unresolved_leaf_expands_to_nothing() {
    let tree = UseTree::Leaf(Resolution::Unresolved);
    assert!(used_items_in_use_tree(&tree).is_none());
}

#[test]
fn multi_target_resolution_keeps_all_results() {
    // One path resolving to both a function and a macro.
    let file = FileSyntax::Parsed(vec![use_of(leaf(vec![
        target("dual", SyntaxCategory::FnDef),
        target("dual", SyntaxCategory::MacroCall),
    ]))]);
    let map = used_items(&file);
    assert_map_is(&map, &[], &[], &[], &[], &["dual"], &[], &["dual"], &[]);
}

#[test]
fn every_kind_lands_in_its_own_set() {
    let file = FileSyntax::Parsed(vec![use_of(UseTree::Group(vec![
        leaf(vec![target("m", SyntaxCategory::SourceFile)]),
        leaf(vec![target("t", SyntaxCategory::TraitDef)]),
        leaf(vec![target("s", SyntaxCategory::StructDef)]),
        leaf(vec![target("e", SyntaxCategory::EnumDef)]),
        leaf(vec![target("f", SyntaxCategory::FnDef)]),
        leaf(vec![target("c", SyntaxCategory::ConstDef)]),
        leaf(vec![target("mac", SyntaxCategory::MacroCall)]),
        leaf(vec![target("o", SyntaxCategory::Unrecognized)]),
    ]))]);
    let map = used_items(&file);
    assert_map_is(&map, &["m"], &["t"], &["s"], &["e"], &["f"], &["c"], &["mac"], &["o"]);
}

#[test]
fn items_are_sorted_by_name() {
    let file = FileSyntax::Parsed(vec![use_of(UseTree::Group(vec![
        leaf(vec![target("zeta", SyntaxCategory::FnDef)]),
        leaf(vec![target("alpha", SyntaxCategory::FnDef)]),
        leaf(vec![target("mid", SyntaxCategory::FnDef)]),
    ]))]);
    let map = used_items(&file);
    assert_eq!(
        names(map.fns()),
        vec!["alpha".to_string(), "mid".to_string(), "zeta".to_string()]
    );
}

fn two_file_project() -> Project {
    Project {
        roots: vec![SourceRoot {
            is_member: true,
            files: vec![
                SourceFile {
                    path: "src/lib.rs".to_string(),
                    syntax: FileSyntax::Parsed(vec![use_of(leaf(vec![target(
                        "HashMap",
                        SyntaxCategory::StructDef,
                    )]))]),
                },
                SourceFile {
                    path: "src/broken.rs".to_string(),
                    syntax: FileSyntax::Unparsable,
                },
            ],
        }],
    }
}

#[test]
fn walker_collects_every_member_file() {
    let cm = list_used_items_in_project(&two_file_project());
    assert_eq!(cm.len(), 2);
    let lib = cm.get("src/lib.rs").expect("lib.rs walked");
    assert_eq!(names(lib.structs()), vec!["HashMap".to_string()]);
    let broken = cm.get("src/broken.rs").expect("unparsable file still reported");
    assert!(broken.is_empty());
    assert!(cm.get("src/absent.rs").is_none());
}

#[test]
fn non_member_roots_are_skipped() {
    let project = Project {
        roots: vec![
            SourceRoot {
                is_member: false,
                files: vec![SourceFile {
                    path: "dep/lib.rs".to_string(),
                    syntax: FileSyntax::Parsed(vec![use_of(leaf(vec![target(
                        "Hidden",
                        SyntaxCategory::StructDef,
                    )]))]),
                }],
            },
            SourceRoot {
                is_member: true,
                files: vec![SourceFile {
                    path: "src/main.rs".to_string(),
                    syntax: FileSyntax::Parsed(vec![]),
                }],
            },
        ],
    };
    let cm = list_used_items_in_project(&project);
    assert_eq!(cm.len(), 1);
    assert!(cm.get("dep/lib.rs").is_none());
    assert!(cm.get("src/main.rs").is_some());
}

#[test]
fn entries_are_ordered_lexicographically_by_path() {
    let project = Project {
        roots: vec![SourceRoot {
            is_member: true,
            files: vec![
                SourceFile {
                    path: "src/zz.rs".to_string(),
                    syntax: FileSyntax::Parsed(vec![]),
                },
                SourceFile {
                    path: "src/aa.rs".to_string(),
                    syntax: FileSyntax::Parsed(vec![]),
                },
                SourceFile {
                    path: "src/mm.rs".to_string(),
                    syntax: FileSyntax::Parsed(vec![]),
                },
            ],
        }],
    };
    let cm = list_used_items_in_project(&project);
    assert_eq!(cm.len(), 3);
    assert_eq!(cm.path_at(0).as_str(), "src/aa.rs");
    assert_eq!(cm.path_at(1).as_str(), "src/mm.rs");
    assert_eq!(cm.path_at(2).as_str(), "src/zz.rs");
}

#[test]
fn later_file_with_same_path_wins() {
    let project = Project {
        roots: vec![
            SourceRoot {
                is_member: true,
                files: vec![SourceFile {
                    path: "src/lib.rs".to_string(),
                    syntax: FileSyntax::Parsed(vec![use_of(leaf(vec![target(
                        "First",
                        SyntaxCategory::StructDef,
                    )]))]),
                }],
            },
            SourceRoot {
                is_member: true,
                files: vec![SourceFile {
                    path: "src/lib.rs".to_string(),
                    syntax: FileSyntax::Parsed(vec![use_of(leaf(vec![target(
                        "Second",
                        SyntaxCategory::StructDef,
                    )]))]),
                }],
            },
        ],
    };
    let cm = list_used_items_in_project(&project);
    assert_eq!(cm.len(), 1);
    let map = cm.get("src/lib.rs").expect("path present once");
    assert_eq!(names(map.structs()), vec!["Second".to_string()]);
}

#[test]
fn running_twice_yields_identical_results() {
    let project = two_file_project();
    let cm1 = list_used_items_in_project(&project);
    let cm2 = list_used_items_in_project(&project);
    assert_eq!(cm1.len(), cm2.len());
    for i in 0..cm1.len() {
        assert_eq!(cm1.path_at(i), cm2.path_at(i));
        let m1 = cm1.items_at(i);
        let m2 = cm2.items_at(i);
        assert_eq!(m1.modules(), m2.modules());
        assert_eq!(m1.traits(), m2.traits());
        assert_eq!(m1.structs(), m2.structs());
        assert_eq!(m1.enums(), m2.enums());
        assert_eq!(m1.fns(), m2.fns());
        assert_eq!(m1.consts(), m2.consts());
        assert_eq!(m1.macros(), m2.macros());
        assert_eq!(m1.others(), m2.others());
    }
}
