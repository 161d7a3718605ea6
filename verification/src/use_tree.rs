//! Import declarations and the recursive expansion of their trees.
//!
//! An import declaration names either a single leaf path or a group of
//! nested subtrees.  The semantic-analysis collaborator resolves each
//! leaf path to the declarations it names; this module models a tree
//! whose leaves already carry that resolution outcome, and expands the
//! tree into the flat sequence of classified used items it denotes.
//! A leaf the collaborator could not resolve contributes nothing, and
//! does not disturb its siblings.

use vstd::prelude::*;

use crate::item_map::{map_has, views, UsedItemMap};
use crate::used_item::{spec_item_of_target, ItemView, NavTarget, UsedItem};

verus! {

/// What the semantic-analysis collaborator answered for one leaf path:
/// the declarations it names (possibly several, possibly none), or a
/// resolution failure, which the engine tolerates silently.
#[derive(Debug)]
pub enum Resolution {
    Resolved(Vec<NavTarget>),
    Unresolved,
}

/// The tree of one import declaration: a leaf path (with its
/// resolution outcome) or an ordered group of subtrees, nested
/// arbitrarily.
#[derive(Debug)]
pub enum UseTree {
    Leaf(Resolution),
    Group(Vec<UseTree>),
}

/// One import declaration of a file.  A malformed declaration has no
/// tree at all.
#[derive(Debug)]
pub struct UseDecl {
    pub tree: Option<UseTree>,
}

/// A top-level item of a file, as far as the engine cares: an import
/// declaration, or anything else.
#[derive(Debug)]
pub enum ModuleItem {
    Use(UseDecl),
    Other,
}

/// The outcome of parsing one file: its top-level items, or a parse
/// failure, which degrades to an empty result for that file.
#[derive(Debug)]
pub enum FileSyntax {
    Parsed(Vec<ModuleItem>),
    Unparsable,
}

/// The item values of a sequence of resolution targets.
pub open spec fn target_items(ts: Seq<NavTarget>) -> Seq<ItemView> {
    ts.map_values(|t: NavTarget| spec_item_of_target(t))
}

/// The items one leaf contributes: all declarations it resolved to,
/// or nothing on a resolution failure.
pub open spec fn leaf_items(r: Resolution) -> Seq<ItemView> {
    match r {
        Resolution::Resolved(ts) => target_items(ts@),
        Resolution::Unresolved => Seq::empty(),
    }
}

/// The flat, left-to-right sequence of items an import tree denotes.
pub open spec fn tree_items(t: UseTree) -> Seq<ItemView>
    decreases t, 0int, 0int,
{
    match t {
        UseTree::Leaf(r) => leaf_items(r),
        UseTree::Group(children) => trees_items_prefix(children@, children@.len() as int),
    }
}

/// The items the first `n` subtrees of a group denote, concatenated in
/// order.
pub open spec fn trees_items_prefix(ts: Seq<UseTree>, n: int) -> Seq<ItemView>
    decreases ts, 1int, n,
{
    if n <= 0 || n > ts.len() {
        Seq::empty()
    } else {
        trees_items_prefix(ts, n - 1) + tree_items(ts[n - 1])
    }
}

/// The items one import declaration denotes; a declaration without a
/// tree denotes nothing.
pub open spec fn use_decl_items(u: UseDecl) -> Seq<ItemView> {
    match u.tree {
        Option::Some(t) => tree_items(t),
        Option::None => Seq::empty(),
    }
}

/// The items one top-level item contributes: only import declarations
/// contribute.
pub open spec fn module_item_items(m: ModuleItem) -> Seq<ItemView> {
    match m {
        ModuleItem::Use(u) => use_decl_items(u),
        ModuleItem::Other => Seq::empty(),
    }
}

/// The items the first `n` top-level items of a file contribute.
pub open spec fn module_items_prefix(s: Seq<ModuleItem>, n: int) -> Seq<ItemView>
    decreases n,
{
    if n <= 0 || n > s.len() {
        Seq::empty()
    } else {
        module_items_prefix(s, n - 1) + module_item_items(s[n - 1])
    }
}

/// All items a file's import declarations denote; an unparsable file
/// denotes nothing.
pub open spec fn file_items(f: FileSyntax) -> Seq<ItemView> {
    match f {
        FileSyntax::Parsed(items) => module_items_prefix(items@, items@.len() as int),
        FileSyntax::Unparsable => Seq::empty(),
    }
}

/// Membership in a concatenation is membership in either part.
pub proof fn lemma_concat_contains<A>(a: Seq<A>, b: Seq<A>)
    ensures
        forall|v: A| (a + b).contains(v) <==> a.contains(v) || b.contains(v),
{
    assert forall|v: A| (a + b).contains(v) implies a.contains(v) || b.contains(v) by {
        let w = choose|w: int| 0 <= w < (a + b).len() && (a + b)[w] == v;
        if w < a.len() {
            assert(a[w] == v);
        } else {
            assert(b[w - a.len()] == v);
        }
    }
    assert forall|v: A| a.contains(v) || b.contains(v) implies (a + b).contains(v) by {
        if a.contains(v) {
            let w = choose|w: int| 0 <= w < a.len() && a[w] == v;
            assert((a + b)[w] == v);
        } else {
            let w = choose|w: int| 0 <= w < b.len() && b[w] == v;
            assert((a + b)[w + a.len()] == v);
        }
    }
}

/// What a prefix of a group denotes is exactly what some subtree of
/// the prefix denotes.
pub proof fn lemma_prefix_contains(ts: Seq<UseTree>, n: int)
    requires
        0 <= n <= ts.len(),
    ensures
        forall|v: ItemView| #[trigger]
            trees_items_prefix(ts, n).contains(v) <==> exists|i: int|
                0 <= i < n && #[trigger] tree_items(ts[i]).contains(v),
    decreases n,
{
    if n > 0 {
        lemma_prefix_contains(ts, n - 1);
        lemma_concat_contains(trees_items_prefix(ts, n - 1), tree_items(ts[n - 1]));
        assert(trees_items_prefix(ts, n) == trees_items_prefix(ts, n - 1) + tree_items(
            ts[n - 1],
        ));
        assert forall|v: ItemView| #[trigger]
            trees_items_prefix(ts, n).contains(v) <==> exists|i: int|
                0 <= i < n && #[trigger] tree_items(ts[i]).contains(v) by {
            if trees_items_prefix(ts, n).contains(v) {
                if trees_items_prefix(ts, n - 1).contains(v) {
                    let w = choose|w: int| 0 <= w < n - 1 && #[trigger] tree_items(
                        ts[w],
                    ).contains(v);
                    assert(0 <= w < n && tree_items(ts[w]).contains(v));
                } else {
                    assert(tree_items(ts[n - 1]).contains(v));
                }
                assert(exists|i: int| 0 <= i < n && #[trigger] tree_items(ts[i]).contains(v));
            }
            if exists|i: int| 0 <= i < n && #[trigger] tree_items(ts[i]).contains(v) {
                let w = choose|w: int| 0 <= w < n && #[trigger] tree_items(ts[w]).contains(v);
                if w < n - 1 {
                    assert(exists|i: int|
                        0 <= i < n - 1 && #[trigger] tree_items(ts[i]).contains(v));
                    assert(trees_items_prefix(ts, n - 1).contains(v));
                } else {
                    assert(tree_items(ts[n - 1]).contains(v));
                }
                assert(trees_items_prefix(ts, n).contains(v));
            }
        }
    }
}

/// Group expansion distributivity: a group denotes an item exactly
/// when one of its subtrees denotes it, so resolving a group yields
/// the union, over its subtrees, of resolving each independently.
pub proof fn lemma_group_expansion(children: Vec<UseTree>)
    ensures
        forall|v: ItemView| #[trigger]
            tree_items(UseTree::Group(children)).contains(v) <==> exists|i: int|
                0 <= i < children@.len() && #[trigger] tree_items(children@[i]).contains(v),
{
    lemma_prefix_contains(children@, children@.len() as int);
    assert(tree_items(UseTree::Group(children)) == trees_items_prefix(
        children@,
        children@.len() as int,
    ));
    assert forall|v: ItemView| #[trigger]
        tree_items(UseTree::Group(children)).contains(v) <==> exists|i: int|
            0 <= i < children@.len() && #[trigger] tree_items(children@[i]).contains(v) by {
        assert(trees_items_prefix(children@, children@.len() as int).contains(v) <==> exists|
            i: int,
        | 0 <= i < children@.len() && #[trigger] tree_items(children@[i]).contains(v));
    }
}

/// The two-subtree case: a group of exactly two subtrees denotes the
/// union of what the two denote, insensitive to which side an item
/// comes from.
pub proof fn lemma_group_expansion_pair(children: Vec<UseTree>, b: UseTree, c: UseTree)
    requires
        children@ == seq![b, c],
    ensures
        forall|v: ItemView| #[trigger]
            tree_items(UseTree::Group(children)).contains(v) <==> tree_items(b).contains(v)
                || tree_items(c).contains(v),
{
    lemma_group_expansion(children);
    assert(children@[0] == b);
    assert(children@[1] == c);
    assert forall|v: ItemView| #[trigger]
        tree_items(UseTree::Group(children)).contains(v) <==> tree_items(b).contains(v)
            || tree_items(c).contains(v) by {
        if tree_items(UseTree::Group(children)).contains(v) {
            let w = choose|w: int|
                0 <= w < children@.len() && #[trigger] tree_items(children@[w]).contains(v);
            assert(w == 0 || w == 1);
        }
        if tree_items(b).contains(v) {
            assert(tree_items(children@[0]).contains(v));
        }
        if tree_items(c).contains(v) {
            assert(tree_items(children@[1]).contains(v));
        }
    }
}

/// Empty-group neutrality: a group with no subtrees denotes nothing,
/// and is not an error.
pub proof fn lemma_empty_group_neutral(children: Vec<UseTree>)
    requires
        children@.len() == 0,
    ensures
        tree_items(UseTree::Group(children)) == Seq::<ItemView>::empty(),
{
}

/// Unresolvable-import tolerance: a leaf the collaborator could not
/// resolve denotes nothing, and a group containing such a leaf
/// denotes exactly what its other subtrees denote.
pub proof fn lemma_unresolved_tolerated(children: Vec<UseTree>, i: int)
    requires
        0 <= i < children@.len(),
        children@[i] == UseTree::Leaf(Resolution::Unresolved),
    ensures
        tree_items(children@[i]) == Seq::<ItemView>::empty(),
        forall|v: ItemView| #[trigger]
            tree_items(UseTree::Group(children)).contains(v) <==> exists|j: int|
                0 <= j < children@.len() && j != i && #[trigger] tree_items(
                children@[j],
            ).contains(v),
{
    lemma_group_expansion(children);
    assert forall|v: ItemView| #[trigger]
        tree_items(UseTree::Group(children)).contains(v) <==> exists|j: int|
            0 <= j < children@.len() && j != i && #[trigger] tree_items(
            children@[j],
        ).contains(v) by {
        if tree_items(UseTree::Group(children)).contains(v) {
            let w = choose|w: int|
                0 <= w < children@.len() && #[trigger] tree_items(children@[w]).contains(v);
            assert(w != i);
        }
        if exists|j: int|
            0 <= j < children@.len() && j != i && #[trigger] tree_items(
                children@[j],
            ).contains(v) {
            let w = choose|w: int|
                0 <= w < children@.len() && w != i && #[trigger] tree_items(
                    children@[w],
                ).contains(v);
            assert(exists|j: int|
                0 <= j < children@.len() && #[trigger] tree_items(children@[j]).contains(v));
        }
    }
}

/// Expand one import tree into the used items it denotes, resolving
/// leaves in place.  Returns nothing only for a leaf whose resolution
/// failed; a group always yields a (possibly empty) list.
pub fn used_items_in_use_tree(tree: &UseTree) -> (r: Option<Vec<UsedItem>>)
    ensures
        (r matches Option::None) <==> (*tree matches UseTree::Leaf(Resolution::Unresolved)),
        match r {
            Option::Some(v) => views(v@) == tree_items(*tree),
            Option::None => tree_items(*tree) == Seq::<ItemView>::empty(),
        },
    decreases *tree,
{
    match tree {
        UseTree::Leaf(resolution) => {
            match resolution {
                Resolution::Unresolved => Option::None,
                Resolution::Resolved(targets) => {
                    let mut out: Vec<UsedItem> = Vec::new();
                    let n = targets.len();
                    let mut i: usize = 0;
                    while i < n
                        invariant
                            0 <= i <= n,
                            n == targets@.len(),
                            views(out@) == target_items(targets@.subrange(0, i as int)),
                        decreases n - i,
                    {
                        let ghost prev = out@;
                        out.push(UsedItem::from_navigation_target(&targets[i]));
                        proof {
                            assert(views(out@) =~= views(prev).push(spec_item_of_target(
                                targets@[i as int],
                            )));
                            assert(target_items(targets@.subrange(0, i as int + 1)) =~= views(
                                prev,
                            ).push(spec_item_of_target(targets@[i as int])));
                        }
                        i = i + 1;
                    }
                    proof {
                        assert(targets@.subrange(0, n as int) =~= targets@);
                    }
                    Option::Some(out)
                },
            }
        },
        UseTree::Group(children) => {
            let mut out: Vec<UsedItem> = Vec::new();
            let n = children.len();
            let mut i: usize = 0;
            while i < n
                invariant
                    0 <= i <= n,
                    n == children@.len(),
                    *tree == UseTree::Group(*children),
                    views(out@) == trees_items_prefix(children@, i as int),
                decreases n - i,
            {
                let ghost prev = out@;
                proof {
                    assert(decreases_to!(*tree => tree->Group_0));
                    assert(tree->Group_0 == *children);
                    assert(decreases_to!(*children => children@));
                    assert(decreases_to!(children@ => children@[i as int]));
                }
                let sub = used_items_in_use_tree(&children[i]);
                match sub {
                    Option::Some(mut items) => {
                        let ghost got = items@;
                        out.append(&mut items);
                        proof {
                            assert(views(out@) =~= views(prev) + views(got));
                        }
                    },
                    Option::None => {
                        proof {
                            assert(views(out@) =~= views(prev) + tree_items(
                                children@[i as int],
                            ));
                        }
                    },
                }
                i = i + 1;
            }
            Option::Some(out)
        },
    }
}

/// Expand one import declaration.  No result is reserved for a
/// malformed declaration without a tree; any declaration with a tree
/// yields the (possibly empty) list of items its tree denotes.
pub fn used_items_in_use_item(use_decl: &UseDecl) -> (r: Option<Vec<UsedItem>>)
    ensures
        (r matches Option::None) <==> (use_decl.tree matches Option::None),
        match r {
            Option::Some(v) => views(v@) == use_decl_items(*use_decl),
            Option::None => use_decl_items(*use_decl) == Seq::<ItemView>::empty(),
        },
{
    match &use_decl.tree {
        Option::Some(t) => {
            match used_items_in_use_tree(t) {
                Option::Some(items) => Option::Some(items),
                Option::None => {
                    let empty: Vec<UsedItem> = Vec::new();
                    proof {
                        assert(views(empty@) =~= Seq::<ItemView>::empty());
                    }
                    Option::Some(empty)
                },
            }
        },
        Option::None => Option::None,
    }
}

/// Pick out an import declaration from a top-level item.
pub fn item_to_use_item(item: &ModuleItem) -> (r: Option<&UseDecl>)
    ensures
        match r {
            Option::Some(u) => *item matches ModuleItem::Use(d) && d == *u,
            Option::None => *item matches ModuleItem::Other,
        },
{
    match item {
        ModuleItem::Use(use_decl) => Option::Some(use_decl),
        ModuleItem::Other => Option::None,
    }
}

/// Run the expander over every import declaration of one file and
/// accumulate the results into a kind-partitioned set map.  A file
/// that failed to parse yields the empty map.
pub fn used_items(file: &FileSyntax) -> (m: UsedItemMap)
    ensures
        m@.wf(),
        forall|v: ItemView| map_has(m@, v) <==> file_items(*file).contains(v),
{
    let mut map = UsedItemMap::new();
    match file {
        FileSyntax::Unparsable => map,
        FileSyntax::Parsed(items) => {
            let n = items.len();
            let mut i: usize = 0;
            while i < n
                invariant
                    0 <= i <= n,
                    n == items@.len(),
                    map@.wf(),
                    forall|v: ItemView|
                        map_has(map@, v) <==> module_items_prefix(items@, i as int).contains(v),
                decreases n - i,
            {
                match item_to_use_item(&items[i]) {
                    Option::Some(use_decl) => {
                        match used_items_in_use_item(use_decl) {
                            Option::Some(imported) => {
                                map.add_imported_items(imported);
                                proof {
                                    lemma_concat_contains(
                                        module_items_prefix(items@, i as int),
                                        module_item_items(items@[i as int]),
                                    );
                                }
                            },
                            Option::None => {
                                proof {
                                    lemma_concat_contains(
                                        module_items_prefix(items@, i as int),
                                        module_item_items(items@[i as int]),
                                    );
                                }
                            },
                        }
                    },
                    Option::None => {
                        proof {
                            lemma_concat_contains(
                                module_items_prefix(items@, i as int),
                                module_item_items(items@[i as int]),
                            );
                        }
                    },
                }
                i = i + 1;
            }
            map
        },
    }
}

} // verus!
