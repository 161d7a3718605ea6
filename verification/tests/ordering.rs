use used_items::order::{cmp_str, Cmp};
use used_items::use_tree::{used_items, FileSyntax, ModuleItem, Resolution, UseDecl, UseTree};
use used_items::used_item::{NavTarget, SyntaxCategory};

#[test]
fn string_comparison_is_lexicographic() {
    assert_eq!(cmp_str("", ""), Cmp::Equal);
    assert_eq!(cmp_str("", "a"), Cmp::Less);
    assert_eq!(cmp_str("a", ""), Cmp::Greater);
    assert_eq!(cmp_str("abc", "abc"), Cmp::Equal);
    assert_eq!(cmp_str("abc", "abd"), Cmp::Less);
    assert_eq!(cmp_str("abd", "abc"), Cmp::Greater);
    assert_eq!(cmp_str("ab", "abc"), Cmp::Less);
    assert_eq!(cmp_str("abc", "ab"), Cmp::Greater);
    assert_eq!(cmp_str("B", "a"), Cmp::Less);
}

#[test]
fn sorting_handles_names_sharing_prefixes() {
    let mk = |name: &str| {
        UseTree::Leaf(Resolution::Resolved(vec![NavTarget {
            name: name.to_string(),
            category: SyntaxCategory::FnDef,
        }]))
    };
    let file = FileSyntax::Parsed(vec![ModuleItem::Use(UseDecl {
        tree: Some(UseTree::Group(vec![
            mk("read_to_end"),
            mk("read"),
            mk("read_exact"),
        ])),
    })]);
    let map = used_items(&file);
    let got: Vec<String> = map.fns().iter().map(|i| i.name().clone()).collect();
    assert_eq!(
        got,
        vec![
            "read".to_string(),
            "read_exact".to_string(),
            "read_to_end".to_string()
        ]
    );
}
