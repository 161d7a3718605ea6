//! Used items: the classified symbols that import declarations bring in.
//!
//! A resolved import names a declaration somewhere in the project or its
//! dependencies.  The semantic-analysis collaborator reports that
//! declaration as a name together with the syntactic category of the
//! defining construct; this module classifies the category into one of
//! the eight closed [`UsedItemKind`] values and pairs it with the name.

use vstd::prelude::*;

use crate::order::{chars_lt, cmp_str, lemma_chars_lt_asymmetric, lemma_chars_lt_irrefl,
    lemma_chars_lt_transitive, Cmp};

verus! {

/// The syntactic category of a defining construct, as the
/// semantic-analysis collaborator reports it.  The categories that the
/// classifier does not recognize are all represented by `Unrecognized`.
#[derive(Debug, Clone, Copy, PartialEq, Eq, Structural)]
pub enum SyntaxCategory {
    SourceFile,
    TraitDef,
    StructDef,
    EnumDef,
    FnDef,
    ConstDef,
    MacroCall,
    Unrecognized,
}

/// A resolution target reported by the semantic-analysis collaborator:
/// the name of the declaration an import path resolves to, and the
/// syntactic category of its defining construct.
#[derive(Debug, PartialEq, Eq)]
pub struct NavTarget {
    pub name: String,
    pub category: SyntaxCategory,
}

/// The kind of a symbol that an import declaration brings into scope.
/// This enumeration is closed: every resolved symbol is classified as
/// exactly one of these eight kinds, with `Other` as the catch-all.
#[derive(Debug, Clone, Copy, PartialEq, Eq, Structural)]
pub enum UsedItemKind {
    Module,
    Trait,
    Struct,
    Enum,
    Fn,
    Const,
    Macro,
    Other,
}

/// The kind a syntactic category classifies to.  Total: every category
/// maps to a kind, with `Other` for the unrecognized ones.
pub open spec fn spec_kind_of_category(category: SyntaxCategory) -> UsedItemKind {
    match category {
        SyntaxCategory::SourceFile => UsedItemKind::Module,
        SyntaxCategory::TraitDef => UsedItemKind::Trait,
        SyntaxCategory::StructDef => UsedItemKind::Struct,
        SyntaxCategory::EnumDef => UsedItemKind::Enum,
        SyntaxCategory::FnDef => UsedItemKind::Fn,
        SyntaxCategory::ConstDef => UsedItemKind::Const,
        SyntaxCategory::MacroCall => UsedItemKind::Macro,
        SyntaxCategory::Unrecognized => UsedItemKind::Other,
    }
}

/// Position of a kind in the fixed kind order (declaration order).
pub open spec fn kind_rank(k: UsedItemKind) -> int {
    match k {
        UsedItemKind::Module => 0,
        UsedItemKind::Trait => 1,
        UsedItemKind::Struct => 2,
        UsedItemKind::Enum => 3,
        UsedItemKind::Fn => 4,
        UsedItemKind::Const => 5,
        UsedItemKind::Macro => 6,
        UsedItemKind::Other => 7,
    }
}

/// Mathematical value of a [`UsedItem`]: the name as a character
/// sequence together with the kind.
pub ghost struct ItemView {
    pub name: Seq<char>,
    pub kind: UsedItemKind,
}

/// Strict total order on used items: by name first, then by kind.
pub open spec fn item_lt(a: ItemView, b: ItemView) -> bool {
    chars_lt(a.name, b.name) || (a.name == b.name && kind_rank(a.kind) < kind_rank(b.kind))
}

/// `item_lt` is irreflexive.
pub proof fn lemma_item_lt_irrefl(a: ItemView)
    ensures
        !item_lt(a, a),
{
    lemma_chars_lt_irrefl(a.name);
}

/// `item_lt` is transitive.
pub proof fn lemma_item_lt_transitive(a: ItemView, b: ItemView, c: ItemView)
    ensures
        item_lt(a, b) && item_lt(b, c) ==> item_lt(a, c),
{
    if item_lt(a, b) && item_lt(b, c) {
        if chars_lt(a.name, b.name) && chars_lt(b.name, c.name) {
            lemma_chars_lt_transitive(a.name, b.name, c.name);
        }
    }
}

/// At most one of `a < b`, `b < a` holds.
pub proof fn lemma_item_lt_asymmetric(a: ItemView, b: ItemView)
    ensures
        item_lt(a, b) ==> !item_lt(b, a),
{
    if chars_lt(a.name, b.name) {
        lemma_chars_lt_asymmetric(a.name, b.name);
    }
    if chars_lt(b.name, a.name) {
        lemma_chars_lt_asymmetric(b.name, a.name);
    }
}

/// A symbol imported by a file: its name and its classified kind.
#[derive(Debug, PartialEq, Eq)]
pub struct UsedItem {
    name: String,
    kind: UsedItemKind,
}

impl View for UsedItem {
    type V = ItemView;

    closed spec fn view(&self) -> ItemView {
        ItemView { name: self.name@, kind: self.kind }
    }
}

impl UsedItemKind {
    /// Classify a syntactic category.  Total; categories outside the
    /// recognized set classify as `Other`.
    pub fn from_syntax_kind(category: SyntaxCategory) -> (k: UsedItemKind)
        ensures
            k == spec_kind_of_category(category),
    {
        match category {
            SyntaxCategory::SourceFile => UsedItemKind::Module,
            SyntaxCategory::TraitDef => UsedItemKind::Trait,
            SyntaxCategory::StructDef => UsedItemKind::Struct,
            SyntaxCategory::EnumDef => UsedItemKind::Enum,
            SyntaxCategory::FnDef => UsedItemKind::Fn,
            SyntaxCategory::ConstDef => UsedItemKind::Const,
            SyntaxCategory::MacroCall => UsedItemKind::Macro,
            SyntaxCategory::Unrecognized => UsedItemKind::Other,
        }
    }
}

/// The item value a resolution target turns into.
pub open spec fn spec_item_of_target(target: NavTarget) -> ItemView {
    ItemView { name: target.name@, kind: spec_kind_of_category(target.category) }
}

impl UsedItem {
    /// Build the used item a resolution target reports: the target's
    /// name, under the kind its syntactic category classifies to.
    pub fn from_navigation_target(target: &NavTarget) -> (item: UsedItem)
        ensures
            item@ == spec_item_of_target(*target),
    {
        let name = target.name.clone();
        let kind = UsedItemKind::from_syntax_kind(target.category);
        UsedItem { name, kind }
    }

    /// A copy of the item, equal in value.
    pub fn clone_item(&self) -> (r: UsedItem)
        ensures
            r@ == self@,
    {
        UsedItem { name: self.name.clone(), kind: self.kind }
    }

    /// The symbol's name.
    pub fn name(&self) -> (r: &String)
        ensures
            r@ == self@.name,
    {
        &self.name
    }

    /// The symbol's kind.
    pub fn kind(&self) -> (r: UsedItemKind)
        ensures
            r == self@.kind,
    {
        self.kind
    }
}

/// Three-way comparison of two used items under `item_lt`.
pub fn cmp_items(a: &UsedItem, b: &UsedItem) -> (r: Cmp)
    ensures
        r == Cmp::Less <==> item_lt(a@, b@),
        r == Cmp::Equal <==> a@ == b@,
        r == Cmp::Greater <==> item_lt(b@, a@),
{
    let by_name = cmp_str(a.name.as_str(), b.name.as_str());
    match by_name {
        Cmp::Less => {
            proof {
                lemma_item_lt_asymmetric(a@, b@);
                lemma_item_lt_irrefl(a@);
            }
            Cmp::Less
        },
        Cmp::Greater => {
            proof {
                lemma_item_lt_asymmetric(b@, a@);
                lemma_item_lt_irrefl(a@);
            }
            Cmp::Greater
        },
        Cmp::Equal => {
            proof {
                lemma_chars_lt_irrefl(a@.name);
            }
            let ra = kind_rank_exec(a.kind);
            let rb = kind_rank_exec(b.kind);
            if ra < rb {
                Cmp::Less
            } else if rb < ra {
                Cmp::Greater
            } else {
                proof {
                    lemma_kind_rank_injective(a@.kind, b@.kind);
                }
                Cmp::Equal
            }
        },
    }
}

/// Kinds with the same rank are the same kind.
proof fn lemma_kind_rank_injective(a: UsedItemKind, b: UsedItemKind)
    requires
        kind_rank(a) == kind_rank(b),
    ensures
        a == b,
{
}

/// Executable counterpart of [`kind_rank`].
fn kind_rank_exec(k: UsedItemKind) -> (r: u8)
    ensures
        r as int == kind_rank(k),
{
    match k {
        UsedItemKind::Module => 0,
        UsedItemKind::Trait => 1,
        UsedItemKind::Struct => 2,
        UsedItemKind::Enum => 3,
        UsedItemKind::Fn => 4,
        UsedItemKind::Const => 5,
        UsedItemKind::Macro => 6,
        UsedItemKind::Other => 7,
    }
}

/// Kind closure: every used item's kind lies in the closed
/// eight-element enumeration; there is no ninth kind.
pub proof fn lemma_kind_closure(item: ItemView)
    ensures
        item.kind == UsedItemKind::Module || item.kind == UsedItemKind::Trait || item.kind
            == UsedItemKind::Struct || item.kind == UsedItemKind::Enum || item.kind
            == UsedItemKind::Fn || item.kind == UsedItemKind::Const || item.kind
            == UsedItemKind::Macro || item.kind == UsedItemKind::Other,
{
    match item.kind {
        UsedItemKind::Module => {},
        UsedItemKind::Trait => {},
        UsedItemKind::Struct => {},
        UsedItemKind::Enum => {},
        UsedItemKind::Fn => {},
        UsedItemKind::Const => {},
        UsedItemKind::Macro => {},
        UsedItemKind::Other => {},
    }
}

} // verus!
