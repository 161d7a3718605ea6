//! Per-file accumulation of used items, partitioned by kind.
//!
//! A [`UsedItemMap`] holds, for one source file, one set of used items
//! per kind.  Each set is kept as a vector sorted strictly by the item
//! order, so sets are duplicate-free and equal contents always have the
//! identical representation.

use vstd::prelude::*;

use crate::order::Cmp;
use crate::used_item::{cmp_items, item_lt, lemma_item_lt_asymmetric, lemma_item_lt_irrefl,
    lemma_item_lt_transitive, ItemView, UsedItem, UsedItemKind};

verus! {

/// The item values of a sequence of used items.
pub open spec fn views(s: Seq<UsedItem>) -> Seq<ItemView> {
    s.map_values(|u: UsedItem| u@)
}

/// A sequence of item values sorted strictly by the item order;
/// strictness makes it duplicate-free.
pub open spec fn sorted_unique(s: Seq<ItemView>) -> bool {
    forall|i: int, j: int| 0 <= i < j < s.len() ==> item_lt(s[i], s[j])
}

/// Mathematical value of a [`UsedItemMap`]: one sorted sequence of
/// item values per kind.
pub ghost struct MapView {
    pub modules: Seq<ItemView>,
    pub traits: Seq<ItemView>,
    pub structs: Seq<ItemView>,
    pub enums: Seq<ItemView>,
    pub fns: Seq<ItemView>,
    pub consts: Seq<ItemView>,
    pub macros: Seq<ItemView>,
    pub others: Seq<ItemView>,
}

/// The set a given kind is bucketed into.
pub open spec fn bucket(mv: MapView, k: UsedItemKind) -> Seq<ItemView> {
    match k {
        UsedItemKind::Module => mv.modules,
        UsedItemKind::Trait => mv.traits,
        UsedItemKind::Struct => mv.structs,
        UsedItemKind::Enum => mv.enums,
        UsedItemKind::Fn => mv.fns,
        UsedItemKind::Const => mv.consts,
        UsedItemKind::Macro => mv.macros,
        UsedItemKind::Other => mv.others,
    }
}

/// Well-formedness: every bucket is sorted and duplicate-free, and an
/// item under kind `k` lives only in the bucket for `k`.
pub open spec fn map_wf(mv: MapView) -> bool {
    forall|k: UsedItemKind|
        {
            &&& sorted_unique(#[trigger] bucket(mv, k))
            &&& forall|i: int| 0 <= i < bucket(mv, k).len() ==> bucket(mv, k)[i].kind == k
        }
}

/// Membership: the map holds the item, in the bucket of its own kind.
pub open spec fn map_has(mv: MapView, v: ItemView) -> bool {
    bucket(mv, v.kind).contains(v)
}

/// One source file's used items, grouped by kind, each group a set
/// ordered by the item order.
#[derive(Debug)]
pub struct UsedItemMap {
    modules: Vec<UsedItem>,
    traits: Vec<UsedItem>,
    structs: Vec<UsedItem>,
    enums: Vec<UsedItem>,
    fns: Vec<UsedItem>,
    consts: Vec<UsedItem>,
    macros: Vec<UsedItem>,
    others: Vec<UsedItem>,
}

impl View for UsedItemMap {
    type V = MapView;

    closed spec fn view(&self) -> MapView {
        MapView {
            modules: views(self.modules@),
            traits: views(self.traits@),
            structs: views(self.structs@),
            enums: views(self.enums@),
            fns: views(self.fns@),
            consts: views(self.consts@),
            macros: views(self.macros@),
            others: views(self.others@),
        }
    }
}

/// Inserting into a sorted duplicate-free sequence at the found
/// position keeps it sorted and duplicate-free.
proof fn lemma_insert_sorted(s: Seq<ItemView>, pos: int, x: ItemView)
    requires
        sorted_unique(s),
        0 <= pos <= s.len(),
        forall|j: int| 0 <= j < pos ==> item_lt(s[j], x),
        pos == s.len() || item_lt(x, s[pos]),
    ensures
        sorted_unique(s.insert(pos, x)),
        forall|y: ItemView| s.insert(pos, x).contains(y) <==> s.contains(y) || y == x,
{
    s.insert_ensures(pos, x);
    let t = s.insert(pos, x);
    assert forall|i: int, j: int| 0 <= i < j < t.len() implies item_lt(t[i], t[j]) by {
        if i < pos && j < pos {
        } else if i < pos && j == pos {
        } else if i == pos && j > pos {
            assert(t[j] == s[j - 1]);
            if pos < j - 1 {
                lemma_item_lt_transitive(x, s[pos], s[j - 1]);
            }
        } else if i < pos && j > pos {
            assert(t[j] == s[j - 1]);
            if pos == j - 1 {
                lemma_item_lt_transitive(s[i], x, s[j - 1]);
            } else {
                lemma_item_lt_transitive(s[i], s[pos], s[j - 1]);
                lemma_item_lt_transitive(s[i], x, s[pos]);
            }
        } else {
            assert(i > pos || i == pos && j > pos || j > pos);
            if i > pos {
                assert(t[i] == s[i - 1]);
                assert(t[j] == s[j - 1]);
            }
        }
    }
    assert forall|y: ItemView| t.contains(y) implies s.contains(y) || y == x by {
        let w = choose|w: int| 0 <= w < t.len() && t[w] == y;
        if w < pos {
            assert(s[w] == y);
        } else if w == pos {
        } else {
            assert(s[w - 1] == y);
        }
    }
    assert forall|y: ItemView| s.contains(y) || y == x implies t.contains(y) by {
        if s.contains(y) {
            let w = choose|w: int| 0 <= w < s.len() && s[w] == y;
            if w < pos {
                assert(t[w] == y);
            } else {
                assert(t[w + 1] == y);
            }
        } else {
            assert(t[pos] == x);
        }
    }
}

/// Insert one item into a sorted duplicate-free vector of items of its
/// kind; inserting an item already present changes nothing.
fn insert_sorted(v: &mut Vec<UsedItem>, item: UsedItem)
    requires
        sorted_unique(views(old(v)@)),
    ensures
        sorted_unique(views(final(v)@)),
        forall|y: ItemView|
            views(final(v)@).contains(y) <==> views(old(v)@).contains(y) || y == item@,
{
    let ghost s = views(v@);
    let mut i: usize = 0;
    loop
        invariant
            0 <= i <= v.len(),
            v@ == old(v)@,
            s == views(v@),
            sorted_unique(s),
            forall|j: int| 0 <= j < i ==> item_lt(s[j], item@),
        ensures
            0 <= i <= v.len(),
            v@ == old(v)@,
            forall|j: int| 0 <= j < i ==> item_lt(s[j], item@),
            i == v@.len() || item_lt(item@, s[i as int]),
        decreases v.len() - i,
    {
        if i == v.len() {
            break ;
        }
        let c = cmp_items(&v[i], &item);
        match c {
            Cmp::Less => {
                i = i + 1;
            },
            Cmp::Equal => {
                assert(s.contains(item@)) by {
                    assert(s[i as int] == item@);
                }
                return ;
            },
            Cmp::Greater => {
                break ;
            },
        }
    }
    proof {
        lemma_insert_sorted(s, i as int, item@);
    }
    v.insert(i, item);
    proof {
        assert(views(v@) =~= s.insert(i as int, item@)) by {
            s.insert_ensures(i as int, item@);
            assert(v@ == old(v)@.insert(i as int, item));
            old(v)@.insert_ensures(i as int, item);
        }
    }
}

impl UsedItemMap {
    /// The empty map: every kind's set is empty.
    pub fn new() -> (m: UsedItemMap)
        ensures
            m@.wf(),
            forall|v: ItemView| !map_has(m@, v),
    {
        let m = UsedItemMap {
            modules: Vec::new(),
            traits: Vec::new(),
            structs: Vec::new(),
            enums: Vec::new(),
            fns: Vec::new(),
            consts: Vec::new(),
            macros: Vec::new(),
            others: Vec::new(),
        };
        proof {
            assert forall|k: UsedItemKind| bucket(m@, k).len() == 0 by {
                match k {
                    UsedItemKind::Module => {},
                    UsedItemKind::Trait => {},
                    UsedItemKind::Struct => {},
                    UsedItemKind::Enum => {},
                    UsedItemKind::Fn => {},
                    UsedItemKind::Const => {},
                    UsedItemKind::Macro => {},
                    UsedItemKind::Other => {},
                }
            }
        }
        m
    }

    /// Bucket every item of the list into the set of its kind, with
    /// set semantics: an item equal to one already present is dropped.
    /// This is the deduplication point for the whole file.
    pub fn add_imported_items(&mut self, used_items: Vec<UsedItem>)
        requires
            old(self)@.wf(),
        ensures
            final(self)@.wf(),
            forall|v: ItemView|
                map_has(final(self)@, v) <==> map_has(old(self)@, v) || views(used_items@)
                    .contains(v),
    {
        let n = used_items.len();
        let mut idx: usize = 0;
        let items = used_items;
        while idx < n
            invariant
                0 <= idx <= n,
                n == items@.len(),
                self@.wf(),
                forall|v: ItemView|
                    map_has(self@, v) <==> map_has(old(self)@, v) || views(items@).subrange(
                        0,
                        idx as int,
                    ).contains(v),
            decreases n - idx,
        {
            let item = items[idx].clone_item();
            self.insert_one(item);
            proof {
                assert(views(items@)[idx as int] == items@[idx as int]@);
                assert forall|v: ItemView|
                    map_has(self@, v) <==> map_has(old(self)@, v) || views(items@).subrange(
                        0,
                        idx as int + 1,
                    ).contains(v) by {
                    let s = views(items@);
                    assert(s.subrange(0, idx as int + 1) == s.subrange(0, idx as int).push(
                        s[idx as int],
                    )) by {
                        assert(s.subrange(0, idx as int + 1) =~= s.subrange(0, idx as int).push(
                            s[idx as int],
                        ));
                    }
                    assert(s.subrange(0, idx as int).push(s[idx as int]).contains(v) <==> s
                        .subrange(0, idx as int).contains(v) || v == s[idx as int]) by {
                        let t = s.subrange(0, idx as int);
                        if t.push(s[idx as int]).contains(v) {
                            let w = choose|w: int|
                                0 <= w < t.push(s[idx as int]).len() && t.push(s[idx as int])[w]
                                    == v;
                            if w < t.len() {
                                assert(t[w] == v);
                            }
                        }
                        if t.contains(v) {
                            let w = choose|w: int| 0 <= w < t.len() && t[w] == v;
                            assert(t.push(s[idx as int])[w] == v);
                        }
                        if v == s[idx as int] {
                            assert(t.push(s[idx as int])[t.len() as int] == v);
                        }
                    }
                }
            }
            idx = idx + 1;
        }
        proof {
            assert(views(items@).subrange(0, idx as int) =~= views(items@));
        }
    }

    /// Insert one item into the set of its kind.
    fn insert_one(&mut self, item: UsedItem)
        requires
            old(self)@.wf(),
        ensures
            final(self)@.wf(),
            forall|v: ItemView|
                map_has(final(self)@, v) <==> map_has(old(self)@, v) || v == item@,
    {
        let ghost pre = self@;
        let ghost iv = item@;
        proof {
            assert(sorted_unique(bucket(pre, UsedItemKind::Module)));
            assert(sorted_unique(bucket(pre, UsedItemKind::Trait)));
            assert(sorted_unique(bucket(pre, UsedItemKind::Struct)));
            assert(sorted_unique(bucket(pre, UsedItemKind::Enum)));
            assert(sorted_unique(bucket(pre, UsedItemKind::Fn)));
            assert(sorted_unique(bucket(pre, UsedItemKind::Const)));
            assert(sorted_unique(bucket(pre, UsedItemKind::Macro)));
            assert(sorted_unique(bucket(pre, UsedItemKind::Other)));
        }
        let k = item.kind();
        match k {
            UsedItemKind::Module => insert_sorted(&mut self.modules, item),
            UsedItemKind::Trait => insert_sorted(&mut self.traits, item),
            UsedItemKind::Struct => insert_sorted(&mut self.structs, item),
            UsedItemKind::Enum => insert_sorted(&mut self.enums, item),
            UsedItemKind::Fn => insert_sorted(&mut self.fns, item),
            UsedItemKind::Const => insert_sorted(&mut self.consts, item),
            UsedItemKind::Macro => insert_sorted(&mut self.macros, item),
            UsedItemKind::Other => insert_sorted(&mut self.others, item),
        }
        proof {
            assert(sorted_unique(bucket(self@, iv.kind)));
            assert(forall|y: ItemView|
                bucket(self@, iv.kind).contains(y) <==> bucket(pre, iv.kind).contains(y) || y
                    == iv);
            assert forall|kk: UsedItemKind| kk != iv.kind implies bucket(self@, kk) == bucket(
                pre,
                kk,
            ) by {}
            assert forall|kk: UsedItemKind|
                {
                    &&& sorted_unique(#[trigger] bucket(self@, kk))
                    &&& forall|i: int|
                        0 <= i < bucket(self@, kk).len() ==> bucket(self@, kk)[i].kind == kk
                } by {
                if kk == iv.kind {
                    assert forall|i: int|
                        0 <= i < bucket(self@, kk).len() implies bucket(self@, kk)[i].kind
                        == kk by {
                        let y = bucket(self@, kk)[i];
                        lemma_index_contains(bucket(self@, kk), i);
                        if bucket(pre, kk).contains(y) {
                            let w = choose|w: int|
                                0 <= w < bucket(pre, kk).len() && bucket(pre, kk)[w] == y;
                        }
                    }
                } else {
                    assert(bucket(self@, kk) == bucket(pre, kk));
                }
            }
            assert forall|v: ItemView|
                map_has(self@, v) <==> map_has(pre, v) || v == iv by {
                if v.kind == iv.kind {
                } else {
                    assert(bucket(self@, v.kind) == bucket(pre, v.kind));
                }
            }
        }
    }
}

/// An element at a valid index is contained in its sequence.
proof fn lemma_index_contains(s: Seq<ItemView>, i: int)
    requires
        0 <= i < s.len(),
    ensures
        s.contains(s[i]),
{
    assert(exists|j: int| 0 <= j < s.len() && s[j] == s[i]) by {
        assert(0 <= i < s.len() && s[i] == s[i]);
    }
}

impl MapView {
    /// Well-formedness of the map value.
    pub open spec fn wf(self) -> bool {
        map_wf(self)
    }
}

impl UsedItemMap {
    /// The set of imported modules.
    pub fn modules(&self) -> (r: &Vec<UsedItem>)
        ensures
            views(r@) == self@.modules,
    {
        &self.modules
    }

    /// The set of imported traits.
    pub fn traits(&self) -> (r: &Vec<UsedItem>)
        ensures
            views(r@) == self@.traits,
    {
        &self.traits
    }

    /// The set of imported structs.
    pub fn structs(&self) -> (r: &Vec<UsedItem>)
        ensures
            views(r@) == self@.structs,
    {
        &self.structs
    }

    /// The set of imported enums.
    pub fn enums(&self) -> (r: &Vec<UsedItem>)
        ensures
            views(r@) == self@.enums,
    {
        &self.enums
    }

    /// The set of imported functions.
    pub fn fns(&self) -> (r: &Vec<UsedItem>)
        ensures
            views(r@) == self@.fns,
    {
        &self.fns
    }

    /// The set of imported constants.
    pub fn consts(&self) -> (r: &Vec<UsedItem>)
        ensures
            views(r@) == self@.consts,
    {
        &self.consts
    }

    /// The set of imported macros.
    pub fn macros(&self) -> (r: &Vec<UsedItem>)
        ensures
            views(r@) == self@.macros,
    {
        &self.macros
    }

    /// The set of imported items of any other kind.
    pub fn others(&self) -> (r: &Vec<UsedItem>)
        ensures
            views(r@) == self@.others,
    {
        &self.others
    }

    /// Whether every kind's set is empty.
    pub fn is_empty(&self) -> (r: bool)
        requires
            self@.wf(),
        ensures
            r <==> (forall|v: ItemView| !map_has(self@, v)),
    {
        let r = self.modules.len() == 0 && self.traits.len() == 0 && self.structs.len() == 0
            && self.enums.len() == 0 && self.fns.len() == 0 && self.consts.len() == 0
            && self.macros.len() == 0 && self.others.len() == 0;
        proof {
            if r {
                assert forall|v: ItemView| !map_has(self@, v) by {
                    assert(bucket(self@, v.kind).len() == 0);
                }
            } else {
                if self.modules.len() > 0 {
                    lemma_index_contains(self@.modules, 0);
                    assert(bucket(self@, UsedItemKind::Module) == self@.modules);
                    assert(self@.modules[0].kind == UsedItemKind::Module);
                    assert(map_has(self@, self@.modules[0]));
                } else if self.traits.len() > 0 {
                    lemma_index_contains(self@.traits, 0);
                    assert(bucket(self@, UsedItemKind::Trait) == self@.traits);
                    assert(self@.traits[0].kind == UsedItemKind::Trait);
                    assert(map_has(self@, self@.traits[0]));
                } else if self.structs.len() > 0 {
                    lemma_index_contains(self@.structs, 0);
                    assert(bucket(self@, UsedItemKind::Struct) == self@.structs);
                    assert(self@.structs[0].kind == UsedItemKind::Struct);
                    assert(map_has(self@, self@.structs[0]));
                } else if self.enums.len() > 0 {
                    lemma_index_contains(self@.enums, 0);
                    assert(bucket(self@, UsedItemKind::Enum) == self@.enums);
                    assert(self@.enums[0].kind == UsedItemKind::Enum);
                    assert(map_has(self@, self@.enums[0]));
                } else if self.fns.len() > 0 {
                    lemma_index_contains(self@.fns, 0);
                    assert(bucket(self@, UsedItemKind::Fn) == self@.fns);
                    assert(self@.fns[0].kind == UsedItemKind::Fn);
                    assert(map_has(self@, self@.fns[0]));
                } else if self.consts.len() > 0 {
                    lemma_index_contains(self@.consts, 0);
                    assert(bucket(self@, UsedItemKind::Const) == self@.consts);
                    assert(self@.consts[0].kind == UsedItemKind::Const);
                    assert(map_has(self@, self@.consts[0]));
                } else if self.macros.len() > 0 {
                    lemma_index_contains(self@.macros, 0);
                    assert(bucket(self@, UsedItemKind::Macro) == self@.macros);
                    assert(self@.macros[0].kind == UsedItemKind::Macro);
                    assert(map_has(self@, self@.macros[0]));
                } else {
                    lemma_index_contains(self@.others, 0);
                    assert(bucket(self@, UsedItemKind::Other) == self@.others);
                    assert(self@.others[0].kind == UsedItemKind::Other);
                    assert(map_has(self@, self@.others[0]));
                }
            }
        }
        r
    }
}

impl Default for UsedItemMap {
    /// The empty map, as [`UsedItemMap::new`] builds it.
    fn default() -> (m: UsedItemMap)
        ensures
            m@.wf(),
            forall|v: ItemView| !map_has(m@, v),
    {
        UsedItemMap::new()
    }
}

/// Deduplication: in a well-formed map, no kind's set holds two items
/// with equal name and kind.
pub proof fn lemma_dedup(mv: MapView, k: UsedItemKind, i: int, j: int)
    requires
        mv.wf(),
        0 <= i < j < bucket(mv, k).len(),
    ensures
        !(bucket(mv, k)[i].name == bucket(mv, k)[j].name && bucket(mv, k)[i].kind == bucket(
            mv,
            k,
        )[j].kind),
{
    let a = bucket(mv, k)[i];
    let b = bucket(mv, k)[j];
    if a.name == b.name && a.kind == b.kind {
        assert(a == b);
        assert(item_lt(a, b));
        lemma_item_lt_irrefl(a);
    }
}

/// A sorted duplicate-free sequence is determined by its contents:
/// two such sequences holding the same items are identical.
pub proof fn lemma_sorted_canonical(s1: Seq<ItemView>, s2: Seq<ItemView>)
    requires
        sorted_unique(s1),
        sorted_unique(s2),
        forall|v: ItemView| s1.contains(v) <==> s2.contains(v),
    ensures
        s1 == s2,
    decreases s1.len(),
{
    if s1.len() == 0 {
        if s2.len() > 0 {
            lemma_index_contains(s2, 0);
            assert(s1.contains(s2[0]));
        }
        assert(s1 =~= s2);
    } else if s2.len() == 0 {
        lemma_index_contains(s1, 0);
        assert(s2.contains(s1[0]));
    } else {
        let a = s1[0];
        let b = s2[0];
        lemma_index_contains(s1, 0);
        lemma_index_contains(s2, 0);
        assert(s2.contains(a));
        assert(s1.contains(b));
        let wa = choose|w: int| 0 <= w < s2.len() && s2[w] == a;
        let wb = choose|w: int| 0 <= w < s1.len() && s1[w] == b;
        if wa > 0 && wb > 0 {
            assert(item_lt(b, a));
            assert(item_lt(a, b));
            lemma_item_lt_asymmetric(a, b);
        }
        if wa > 0 && wb == 0 {
            assert(item_lt(b, a));
            assert(a == b);
            lemma_item_lt_irrefl(a);
        }
        if wa == 0 && wb > 0 {
            assert(item_lt(a, b));
            assert(a == b);
            lemma_item_lt_irrefl(a);
        }
        assert(a == b);
        let t1 = s1.drop_first();
        let t2 = s2.drop_first();
        assert forall|v: ItemView| t1.contains(v) <==> t2.contains(v) by {
            lemma_tail_contains(s1, v);
            lemma_tail_contains(s2, v);
        }
        lemma_sorted_canonical(t1, t2);
        assert forall|i: int| 0 <= i < s1.len() implies s1[i] == s2[i] by {
            if i > 0 {
                assert(s1[i] == t1[i - 1]);
                assert(s2[i] == t2[i - 1]);
            }
        }
        assert(s1 =~= s2);
    }
}

/// For a sorted duplicate-free sequence, the tail holds exactly the
/// items other than the head.
proof fn lemma_tail_contains(s: Seq<ItemView>, v: ItemView)
    requires
        sorted_unique(s),
        s.len() > 0,
    ensures
        s.drop_first().contains(v) <==> s.contains(v) && v != s[0],
{
    let t = s.drop_first();
    if t.contains(v) {
        let w = choose|w: int| 0 <= w < t.len() && t[w] == v;
        assert(s[w + 1] == v);
        assert(s.contains(v));
        assert(item_lt(s[0], s[w + 1]));
        if v == s[0] {
            lemma_item_lt_irrefl(v);
        }
    }
    if s.contains(v) && v != s[0] {
        let w = choose|w: int| 0 <= w < s.len() && s[w] == v;
        assert(w > 0);
        assert(t[w - 1] == v);
        assert(t.contains(v));
    }
}

/// Canonical representation: two well-formed maps holding the same
/// items are identical.  Together with the engine's exact contracts
/// this makes a run's result a function of the loaded project alone,
/// so an unchanged project always yields the identical result.
pub proof fn lemma_map_canonical(m1: MapView, m2: MapView)
    requires
        m1.wf(),
        m2.wf(),
        forall|v: ItemView| map_has(m1, v) <==> map_has(m2, v),
    ensures
        m1 == m2,
{
    assert forall|k: UsedItemKind| #[trigger] bucket(m1, k) == bucket(m2, k) by {
        assert forall|v: ItemView| bucket(m1, k).contains(v) <==> bucket(m2, k).contains(
            v,
        ) by {
            if bucket(m1, k).contains(v) {
                let w = choose|w: int| 0 <= w < bucket(m1, k).len() && bucket(m1, k)[w] == v;
                assert(v.kind == k);
                assert(map_has(m1, v));
            }
            if bucket(m2, k).contains(v) {
                let w = choose|w: int| 0 <= w < bucket(m2, k).len() && bucket(m2, k)[w] == v;
                assert(v.kind == k);
                assert(map_has(m2, v));
            }
        }
        lemma_sorted_canonical(bucket(m1, k), bucket(m2, k));
    }
    assert(bucket(m1, UsedItemKind::Module) == bucket(m2, UsedItemKind::Module));
    assert(bucket(m1, UsedItemKind::Trait) == bucket(m2, UsedItemKind::Trait));
    assert(bucket(m1, UsedItemKind::Struct) == bucket(m2, UsedItemKind::Struct));
    assert(bucket(m1, UsedItemKind::Enum) == bucket(m2, UsedItemKind::Enum));
    assert(bucket(m1, UsedItemKind::Fn) == bucket(m2, UsedItemKind::Fn));
    assert(bucket(m1, UsedItemKind::Const) == bucket(m2, UsedItemKind::Const));
    assert(bucket(m1, UsedItemKind::Macro) == bucket(m2, UsedItemKind::Macro));
    assert(bucket(m1, UsedItemKind::Other) == bucket(m2, UsedItemKind::Other));
}

} // verus!
