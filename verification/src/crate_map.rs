//! The whole-project result: one used-item map per source file.
//!
//! The project walker visits every file of the project's own packages
//! (skipping packages present only as external dependencies), runs the
//! per-file accumulator, and assembles a mapping from project-relative
//! file path to that file's used-item map.  Entries are kept sorted by
//! path, so the mapping is deterministic for identical input.

use vstd::prelude::*;

use crate::item_map::{map_has, MapView, UsedItemMap};
use crate::order::{chars_lt, cmp_str, lemma_chars_lt_irrefl, lemma_chars_lt_transitive, Cmp};
use crate::use_tree::{file_items, used_items, FileSyntax};
use crate::used_item::ItemView;

verus! {

/// One file of a loaded project: its project-relative path and the
/// outcome of parsing it.
#[derive(Debug)]
pub struct SourceFile {
    pub path: String,
    pub syntax: FileSyntax,
}

/// One package root of a loaded project, with whether it belongs to
/// the project itself or only to an external dependency.
#[derive(Debug)]
pub struct SourceRoot {
    pub is_member: bool,
    pub files: Vec<SourceFile>,
}

/// A loaded project: its package roots in discovery order.
#[derive(Debug)]
pub struct Project {
    pub roots: Vec<SourceRoot>,
}

/// Mathematical value of one result entry: the file path and the
/// file's used-item map value.
pub ghost struct EntryView {
    pub path: Seq<char>,
    pub items: MapView,
}

/// Well-formedness of the whole result: entries strictly sorted by
/// path (hence paths unique), each per-file map well-formed.
pub open spec fn crate_map_wf(s: Seq<EntryView>) -> bool {
    &&& forall|i: int, j: int| 0 <= i < j < s.len() ==> chars_lt(s[i].path, s[j].path)
    &&& forall|i: int| 0 <= i < s.len() ==> s[i].items.wf()
}

/// The set of items a per-file map holds.
pub open spec fn item_set(mv: MapView) -> Set<ItemView> {
    Set::new(|v: ItemView| map_has(mv, v))
}

/// Whether some entry carries the given path.
pub open spec fn has_path(s: Seq<EntryView>, p: Seq<char>) -> bool {
    exists|i: int| 0 <= i < s.len() && s[i].path == p
}

/// The mathematical mapping a sequence of entries denotes; a later
/// entry for the same path replaces an earlier one.
pub open spec fn contents_map(s: Seq<EntryView>) -> Map<Seq<char>, Set<ItemView>>
    decreases s.len(),
{
    if s.len() == 0 {
        Map::empty()
    } else {
        contents_map(s.drop_last()).insert(s.last().path, item_set(s.last().items))
    }
}

/// The set of items one file's import declarations denote.
pub open spec fn file_item_set(f: SourceFile) -> Set<ItemView> {
    Set::new(|v: ItemView| file_items(f.syntax).contains(v))
}

/// The member files of the first `n` package roots, in walk order.
pub open spec fn member_files_prefix(roots: Seq<SourceRoot>, n: int) -> Seq<SourceFile>
    decreases n,
{
    if n <= 0 || n > roots.len() {
        Seq::empty()
    } else {
        member_files_prefix(roots, n - 1) + (if roots[n - 1].is_member {
            roots[n - 1].files@
        } else {
            Seq::empty()
        })
    }
}

/// All member files of a project, in walk order.
pub open spec fn member_files(p: Project) -> Seq<SourceFile> {
    member_files_prefix(p.roots@, p.roots@.len() as int)
}

/// The result the engine owes for a walked sequence of files: each
/// file's path mapped to its item set, a later file winning over an
/// earlier one with the same path.
pub open spec fn project_result(files: Seq<SourceFile>) -> Map<Seq<char>, Set<ItemView>>
    decreases files.len(),
{
    if files.len() == 0 {
        Map::empty()
    } else {
        project_result(files.drop_last()).insert(
            files.last().path@,
            file_item_set(files.last()),
        )
    }
}

/// Every member file's path is a key of the owed result.  Together
/// with the walker's contract, the run completes with an entry for
/// every member file, whatever each file's parse outcome was.
pub proof fn lemma_every_member_file_reported(files: Seq<SourceFile>, i: int)
    requires
        0 <= i < files.len(),
    ensures
        project_result(files).dom().contains(files[i].path@),
    decreases files.len(),
{
    if i < files.len() - 1 {
        lemma_every_member_file_reported(files.drop_last(), i);
        assert(files.drop_last()[i] == files[i]);
    }
}

/// Parse-failure tolerance at the project level: an unparsable member
/// file contributes the empty entry under its path, and every other
/// file's entry is the same as if that file had parsed.  `files1` and
/// `files2` are two walks of the same member files that differ only in
/// the parse outcome of the file at `i`, unparsable in `files1`.  The
/// last hypothesis excludes a later member file with the same path:
/// such a file replaces the earlier entry (a later walk of the same
/// path always wins), so the entry under that path would be the later
/// file's, parsed or not.
pub proof fn lemma_unparsable_file_tolerated(
    files1: Seq<SourceFile>,
    files2: Seq<SourceFile>,
    i: int,
)
    requires
        0 <= i < files1.len(),
        files2.len() == files1.len(),
        forall|j: int| 0 <= j < files1.len() && j != i ==> files2[j] == files1[j],
        files2[i].path@ == files1[i].path@,
        files1[i].syntax matches FileSyntax::Unparsable,
        forall|j: int| i < j < files1.len() ==> files1[j].path@ != files1[i].path@,
    ensures
        project_result(files1).dom() == project_result(files2).dom(),
        project_result(files1)[files1[i].path@] == Set::<ItemView>::empty(),
        forall|p: Seq<char>|
            project_result(files1).dom().contains(p) && p != files1[i].path@
                ==> project_result(files1)[p] == project_result(files2)[p],
    decreases files1.len(),
{
    let r1 = project_result(files1);
    let r2 = project_result(files2);
    let pi = files1[i].path@;
    if i == files1.len() - 1 {
        let t1 = files1.drop_last();
        let t2 = files2.drop_last();
        assert(t1 =~= t2);
        assert(files2.last().path@ == pi);
        assert(file_item_set(files1.last()) =~= Set::<ItemView>::empty()) by {
            assert(file_items(files1.last().syntax) == Seq::<ItemView>::empty());
        }
        assert(r1.dom() =~= r2.dom());
        assert(r1[pi] == file_item_set(files1.last()));
        assert(r1[pi] =~= Set::<ItemView>::empty());
        assert forall|p: Seq<char>| r1.dom().contains(p) && p != pi implies r1[p] == r2[p] by {
            assert(r1[p] == project_result(t1)[p]);
            assert(r2[p] == project_result(t2)[p]);
        }
    } else {
        let t1 = files1.drop_last();
        let t2 = files2.drop_last();
        assert(t1.len() == files1.len() - 1);
        assert forall|j: int| 0 <= j < t1.len() && j != i implies t2[j] == t1[j] by {
            assert(t1[j] == files1[j]);
            assert(t2[j] == files2[j]);
        }
        assert(t1[i] == files1[i]);
        assert(t2[i] == files2[i]);
        assert forall|j: int| i < j < t1.len() implies t1[j].path@ != pi by {
            assert(t1[j] == files1[j]);
        }
        lemma_unparsable_file_tolerated(t1, t2, i);
        let last = files1.last();
        assert(files2.last() == last);
        assert(last.path@ != pi);
        assert(r1 == project_result(t1).insert(last.path@, file_item_set(last)));
        assert(r2 == project_result(t2).insert(last.path@, file_item_set(last)));
        assert(r1.dom() =~= r2.dom());
        assert(r1[pi] == project_result(t1)[pi]);
        assert(project_result(t1)[t1[i].path@] == Set::<ItemView>::empty());
        assert(r1[pi] == Set::<ItemView>::empty());
        assert forall|p: Seq<char>| r1.dom().contains(p) && p != pi implies r1[p] == r2[p] by {
            if p == last.path@ {
                assert(r1[p] == file_item_set(last));
                assert(r2[p] == file_item_set(last));
            } else {
                assert(r1[p] == project_result(t1)[p]);
                assert(r2[p] == project_result(t2)[p]);
                assert(r1.dom() == project_result(t1).dom().insert(last.path@));
                assert(project_result(t1).dom().contains(p));
            }
        }
    }
}

struct CrateMapEntry {
    path: String,
    items: UsedItemMap,
}

/// The whole-project result map, ordered by file path.
pub struct CrateMap {
    entries: Vec<CrateMapEntry>,
}

impl View for CrateMap {
    type V = Seq<EntryView>;

    closed spec fn view(&self) -> Seq<EntryView> {
        self.entries@.map_values(
            |e: CrateMapEntry| EntryView { path: e.path@, items: e.items@ },
        )
    }
}

/// In a strictly sorted entry sequence the paths are unique.
proof fn lemma_sorted_entries_unique(s: Seq<EntryView>)
    requires
        forall|i: int, j: int| 0 <= i < j < s.len() ==> chars_lt(s[i].path, s[j].path),
    ensures
        forall|i: int, j: int| 0 <= i < j < s.len() ==> s[i].path != s[j].path,
{
    assert forall|i: int, j: int| 0 <= i < j < s.len() implies s[i].path != s[j].path by {
        if s[i].path == s[j].path {
            lemma_chars_lt_irrefl(s[i].path);
        }
    }
}

/// What the denoted mapping holds, for entries with unique paths: the
/// domain is exactly the carried paths, and each path maps to its
/// entry's item set.
proof fn lemma_contents_characterize(s: Seq<EntryView>)
    requires
        forall|i: int, j: int| 0 <= i < j < s.len() ==> s[i].path != s[j].path,
    ensures
        forall|p: Seq<char>| #[trigger] contents_map(s).dom().contains(p) <==> has_path(s, p),
        forall|i: int|
            0 <= i < s.len() ==> contents_map(s)[#[trigger] s[i].path] == item_set(s[i].items),
    decreases s.len(),
{
    if s.len() > 0 {
        let t = s.drop_last();
        let last = s.last();
        assert(forall|i: int, j: int| 0 <= i < j < t.len() ==> t[i].path != t[j].path);
        lemma_contents_characterize(t);
        assert forall|p: Seq<char>| #[trigger]
            contents_map(s).dom().contains(p) <==> has_path(s, p) by {
            if contents_map(s).dom().contains(p) {
                if p == last.path {
                    assert(s[s.len() - 1].path == p);
                    assert(has_path(s, p));
                } else {
                    assert(contents_map(t).dom().contains(p));
                    assert(has_path(t, p));
                    let w = choose|w: int| 0 <= w < t.len() && t[w].path == p;
                    assert(s[w].path == p);
                    assert(has_path(s, p));
                }
            }
            if has_path(s, p) {
                let w = choose|w: int| 0 <= w < s.len() && s[w].path == p;
                if w < s.len() - 1 {
                    assert(t[w].path == p);
                    assert(has_path(t, p));
                    assert(contents_map(t).dom().contains(p));
                } else {
                    assert(p == last.path);
                }
                assert(contents_map(s).dom().contains(p));
            }
        }
        assert forall|i: int|
            0 <= i < s.len() implies contents_map(s)[#[trigger] s[i].path] == item_set(
            s[i].items,
        ) by {
            if i < s.len() - 1 {
                assert(t[i] == s[i]);
                assert(contents_map(t)[t[i].path] == item_set(t[i].items));
                assert(s[i].path != last.path);
            }
        }
    }
}

/// Replacing the entry at a path already present denotes the same
/// mapping as inserting that path anew.
proof fn lemma_replace_entry(s: Seq<EntryView>, i: int, e: EntryView)
    requires
        crate_map_wf(s),
        0 <= i < s.len(),
        s[i].path == e.path,
        e.items.wf(),
    ensures
        crate_map_wf(s.remove(i).insert(i, e)),
        contents_map(s.remove(i).insert(i, e)) == contents_map(s).insert(
            e.path,
            item_set(e.items),
        ),
{
    s.remove_ensures(i);
    s.remove(i).insert_ensures(i, e);
    let t = s.remove(i).insert(i, e);
    assert(t.len() == s.len());
    assert forall|a: int| 0 <= a < t.len() implies t[a] == (if a == i {
        e
    } else {
        s[a]
    }) by {
        if a < i {
            assert(s.remove(i)[a] == s[a]);
        } else if a > i {
            assert(s.remove(i)[a - 1] == s[a]);
        }
    }
    assert forall|a: int, b: int| 0 <= a < b < t.len() implies chars_lt(t[a].path, t[b].path) by {
        assert(t[a].path == s[a].path);
        assert(t[b].path == s[b].path);
    }
    assert(crate_map_wf(t));
    lemma_sorted_entries_unique(s);
    lemma_sorted_entries_unique(t);
    lemma_contents_characterize(s);
    lemma_contents_characterize(t);
    let m1 = contents_map(t);
    let m2 = contents_map(s).insert(e.path, item_set(e.items));
    assert forall|p: Seq<char>| m1.dom().contains(p) <==> m2.dom().contains(p) by {
        assert(contents_map(s).dom().contains(p) <==> has_path(s, p));
        assert(m1.dom().contains(p) <==> has_path(t, p));
        if has_path(s, p) {
            let w = choose|w: int| 0 <= w < s.len() && s[w].path == p;
            assert(t[w].path == p);
            assert(has_path(t, p));
        }
        if has_path(t, p) {
            let w = choose|w: int| 0 <= w < t.len() && t[w].path == p;
            assert(s[w].path == p);
            assert(has_path(s, p));
        }
    }
    assert forall|p: Seq<char>| m1.dom().contains(p) implies m1[p] == m2[p] by {
        let w = choose|w: int| 0 <= w < t.len() && t[w].path == p;
        assert(m1[p] == item_set(t[w].items));
        if p == e.path {
            assert(w == i) by {
                if w != i {
                    assert(t[w].path == s[w].path);
                    assert(s[w].path != s[i].path);
                }
            }
            assert(m1[p] == item_set(e.items));
        } else {
            assert(w != i);
            assert(t[w] == s[w]);
            assert(contents_map(s)[p] == item_set(s[w].items));
        }
    }
    assert(m1 =~= m2);
}

/// Inserting an entry at its sorted position, for a path not yet
/// present, keeps the result well-formed and denotes the mapping with
/// that path inserted.
proof fn lemma_insert_entry(s: Seq<EntryView>, i: int, e: EntryView)
    requires
        crate_map_wf(s),
        0 <= i <= s.len(),
        forall|j: int| 0 <= j < i ==> chars_lt(s[j].path, e.path),
        i == s.len() || chars_lt(e.path, s[i].path),
        e.items.wf(),
    ensures
        crate_map_wf(s.insert(i, e)),
        contents_map(s.insert(i, e)) == contents_map(s).insert(e.path, item_set(e.items)),
{
    s.insert_ensures(i, e);
    let t = s.insert(i, e);
    assert forall|a: int, b: int| 0 <= a < b < t.len() implies chars_lt(t[a].path, t[b].path) by {
        if a < i && b == i {
        } else if a == i && b > i {
            assert(t[b] == s[b - 1]);
            if i < b - 1 {
                lemma_chars_lt_transitive(e.path, s[i].path, s[b - 1].path);
            }
        } else if a < i && b > i {
            assert(t[b] == s[b - 1]);
            if i == b - 1 {
                lemma_chars_lt_transitive(s[a].path, e.path, s[b - 1].path);
            } else {
                lemma_chars_lt_transitive(s[a].path, s[i].path, s[b - 1].path);
            }
        } else if a > i {
            assert(t[a] == s[a - 1]);
            assert(t[b] == s[b - 1]);
        }
    }
    assert(crate_map_wf(t));
    assert forall|j: int| 0 <= j < s.len() implies s[j].path != e.path by {
        if s[j].path == e.path {
            if j < i {
                lemma_chars_lt_irrefl(e.path);
            } else {
                lemma_chars_lt_transitive(e.path, s[i].path, s[j].path);
                lemma_chars_lt_irrefl(e.path);
            }
        }
    }
    lemma_sorted_entries_unique(s);
    lemma_sorted_entries_unique(t);
    lemma_contents_characterize(s);
    lemma_contents_characterize(t);
    let m1 = contents_map(t);
    let m2 = contents_map(s).insert(e.path, item_set(e.items));
    assert forall|p: Seq<char>| m1.dom().contains(p) <==> m2.dom().contains(p) by {
        assert(m1.dom().contains(p) <==> has_path(t, p));
        assert(contents_map(s).dom().contains(p) <==> has_path(s, p));
        if has_path(t, p) {
            let w = choose|w: int| 0 <= w < t.len() && t[w].path == p;
            if w < i {
                assert(s[w].path == p);
                assert(has_path(s, p));
            } else if w > i {
                assert(t[w] == s[w - 1]);
                assert(has_path(s, p));
            }
        }
        if has_path(s, p) {
            let w = choose|w: int| 0 <= w < s.len() && s[w].path == p;
            if w < i {
                assert(t[w].path == p);
            } else {
                assert(t[w + 1].path == p);
            }
            assert(has_path(t, p));
        }
        if p == e.path {
            assert(t[i].path == p);
            assert(has_path(t, p));
        }
    }
    assert forall|p: Seq<char>| m1.dom().contains(p) implies m1[p] == m2[p] by {
        let w = choose|w: int| 0 <= w < t.len() && t[w].path == p;
        assert(m1[p] == item_set(t[w].items));
        if p == e.path {
            assert(w == i) by {
                if w < i {
                    assert(t[w].path == s[w].path);
                    lemma_chars_lt_irrefl(e.path);
                } else if w > i {
                    assert(t[w].path == s[w - 1].path);
                    lemma_chars_lt_irrefl(e.path);
                }
            }
            assert(m1[p] == item_set(e.items));
        } else {
            assert(w != i);
            let wo: int = if w < i {
                w
            } else {
                w - 1
            };
            assert(t[w] == s[wo]);
            assert(contents_map(s)[p] == item_set(s[wo].items));
        }
    }
    assert(m1 =~= m2);
}

/// Idempotence of the engine: the whole-project result is a canonical
/// representation of the mapping it denotes, so for one and the same
/// loaded project any two runs produce identical results.
pub proof fn lemma_crate_map_canonical(s1: Seq<EntryView>, s2: Seq<EntryView>)
    requires
        crate_map_wf(s1),
        crate_map_wf(s2),
        contents_map(s1) == contents_map(s2),
    ensures
        s1 == s2,
    decreases s1.len(),
{
    lemma_sorted_entries_unique(s1);
    lemma_sorted_entries_unique(s2);
    lemma_contents_characterize(s1);
    lemma_contents_characterize(s2);
    if s1.len() == 0 {
        if s2.len() > 0 {
            assert(has_path(s2, s2[0].path));
            assert(contents_map(s2).dom().contains(s2[0].path));
            assert(has_path(s1, s2[0].path));
        }
        assert(s1 =~= s2);
    } else if s2.len() == 0 {
        assert(has_path(s1, s1[0].path));
        assert(contents_map(s1).dom().contains(s1[0].path));
        assert(has_path(s2, s1[0].path));
    } else {
        let p1 = s1[0].path;
        let p2 = s2[0].path;
        assert(has_path(s1, p1));
        assert(contents_map(s1).dom().contains(p1));
        assert(has_path(s2, p1));
        let wa = choose|w: int| 0 <= w < s2.len() && s2[w].path == p1;
        assert(has_path(s2, p2));
        assert(contents_map(s2).dom().contains(p2));
        assert(has_path(s1, p2));
        let wb = choose|w: int| 0 <= w < s1.len() && s1[w].path == p2;
        if wa > 0 && wb > 0 {
            assert(chars_lt(p2, s2[wa].path));
            assert(chars_lt(p1, s1[wb].path));
            crate::order::lemma_chars_lt_transitive(p1, p2, p1);
            lemma_chars_lt_irrefl(p1);
        }
        if wa > 0 && wb == 0 {
            assert(chars_lt(p2, p1));
            assert(p1 == p2);
            lemma_chars_lt_irrefl(p1);
        }
        if wa == 0 && wb > 0 {
            assert(chars_lt(p1, p2));
            assert(p1 == p2);
            lemma_chars_lt_irrefl(p1);
        }
        assert(p1 == p2);
        assert(contents_map(s1)[p1] == item_set(s1[0].items));
        assert(contents_map(s2)[p1] == item_set(s2[0].items));
        assert forall|v: ItemView|
            map_has(s1[0].items, v) <==> map_has(s2[0].items, v) by {
            assert(item_set(s1[0].items).contains(v) == map_has(s1[0].items, v));
            assert(item_set(s2[0].items).contains(v) == map_has(s2[0].items, v));
        }
        crate::item_map::lemma_map_canonical(s1[0].items, s2[0].items);
        assert(s1[0] == s2[0]);
        let t1 = s1.drop_first();
        let t2 = s2.drop_first();
        assert(forall|i: int| 0 <= i < t1.len() ==> t1[i] == s1[i + 1]);
        assert(forall|i: int| 0 <= i < t2.len() ==> t2[i] == s2[i + 1]);
        assert(crate_map_wf(t1));
        assert(crate_map_wf(t2));
        lemma_sorted_entries_unique(t1);
        lemma_sorted_entries_unique(t2);
        lemma_contents_characterize(t1);
        lemma_contents_characterize(t2);
        assert forall|p: Seq<char>| has_path(t1, p) <==> has_path(s1, p) && p != p1 by {
            lemma_entry_tail_paths(s1, p);
        }
        assert forall|p: Seq<char>| has_path(t2, p) <==> has_path(s2, p) && p != p1 by {
            lemma_entry_tail_paths(s2, p);
        }
        assert forall|p: Seq<char>|
            contents_map(t1).dom().contains(p) implies #[trigger] contents_map(
            t2,
        ).dom().contains(p) && contents_map(t1)[p] == contents_map(t2)[p] by {
            assert(has_path(t1, p));
            let w1 = choose|w: int| 0 <= w < t1.len() && t1[w].path == p;
            assert(contents_map(t1)[p] == item_set(t1[w1].items));
            assert(s1[w1 + 1].path == p);
            assert(contents_map(s1)[p] == item_set(s1[w1 + 1].items));
            assert(has_path(s1, p) && p != p1);
            assert(contents_map(s1).dom().contains(p));
            assert(contents_map(s2).dom().contains(p));
            assert(has_path(s2, p));
            assert(has_path(t2, p));
            let w2 = choose|w: int| 0 <= w < t2.len() && t2[w].path == p;
            assert(contents_map(t2)[p] == item_set(t2[w2].items));
            assert(s2[w2 + 1].path == p);
            assert(contents_map(s2)[p] == item_set(s2[w2 + 1].items));
        }
        assert forall|p: Seq<char>|
            contents_map(t2).dom().contains(p) implies #[trigger] contents_map(
            t1,
        ).dom().contains(p) by {
            assert(has_path(t2, p));
            assert(has_path(s2, p) && p != p1);
            assert(contents_map(s2).dom().contains(p));
            assert(contents_map(s1).dom().contains(p));
            assert(has_path(s1, p));
            assert(has_path(t1, p));
        }
        assert(contents_map(t1) =~= contents_map(t2));
        lemma_crate_map_canonical(t1, t2);
        assert forall|i: int| 0 <= i < s1.len() implies s1[i] == s2[i] by {
            if i > 0 {
                assert(s1[i] == t1[i - 1]);
                assert(s2[i] == t2[i - 1]);
            }
        }
        assert(s1 =~= s2);
    }
}

/// In an entry sequence with unique paths, the tail carries exactly
/// the paths other than the head's.
proof fn lemma_entry_tail_paths(s: Seq<EntryView>, p: Seq<char>)
    requires
        s.len() > 0,
        forall|i: int, j: int| 0 <= i < j < s.len() ==> s[i].path != s[j].path,
    ensures
        has_path(s.drop_first(), p) <==> has_path(s, p) && p != s[0].path,
{
    let t = s.drop_first();
    if has_path(t, p) {
        let w = choose|w: int| 0 <= w < t.len() && t[w].path == p;
        assert(s[w + 1].path == p);
        assert(has_path(s, p));
        assert(s[0].path != s[w + 1].path);
    }
    if has_path(s, p) && p != s[0].path {
        let w = choose|w: int| 0 <= w < s.len() && s[w].path == p;
        assert(w > 0);
        assert(t[w - 1].path == p);
        assert(has_path(t, p));
    }
}

impl CrateMap {
    /// The empty result map.
    pub fn new() -> (cm: CrateMap)
        ensures
            crate_map_wf(cm@),
            cm@ =~= Seq::<EntryView>::empty(),
            contents_map(cm@) == Map::<Seq<char>, Set<ItemView>>::empty(),
    {
        let cm = CrateMap { entries: Vec::new() };
        proof {
            assert(cm@ =~= Seq::<EntryView>::empty());
        }
        cm
    }

    /// Number of files in the result.
    pub fn len(&self) -> (n: usize)
        ensures
            n == self@.len(),
    {
        self.entries.len()
    }

    /// The path of the entry at a position, in path order.
    pub fn path_at(&self, i: usize) -> (r: &String)
        requires
            i < self@.len(),
        ensures
            r@ == self@[i as int].path,
    {
        &self.entries[i].path
    }

    /// The per-file map of the entry at a position, in path order.
    pub fn items_at(&self, i: usize) -> (r: &UsedItemMap)
        requires
            i < self@.len(),
        ensures
            r@ == self@[i as int].items,
    {
        &self.entries[i].items
    }

    /// Insert one file's result under its path; a result already
    /// present for the same path is replaced.
    pub fn insert_file(&mut self, path: String, items: UsedItemMap)
        requires
            crate_map_wf(old(self)@),
            items@.wf(),
        ensures
            crate_map_wf(final(self)@),
            contents_map(final(self)@) == contents_map(old(self)@).insert(
                path@,
                item_set(items@),
            ),
    {
        let ghost s = self@;
        let ghost e = EntryView { path: path@, items: items@ };
        let mut i: usize = 0;
        let mut found: bool = false;
        loop
            invariant_except_break
                !found,
            invariant
                0 <= i <= self.entries.len(),
                self@ == s,
                crate_map_wf(s),
                forall|j: int| 0 <= j < i ==> chars_lt(s[j].path, path@),
            ensures
                0 <= i <= self.entries.len(),
                self@ == s,
                forall|j: int| 0 <= j < i ==> chars_lt(s[j].path, path@),
                found ==> i < s.len() && s[i as int].path == path@,
                !found ==> i == s.len() || chars_lt(path@, s[i as int].path),
            decreases self.entries.len() - i,
        {
            if i == self.entries.len() {
                break ;
            }
            let c = cmp_str(self.entries[i].path.as_str(), path.as_str());
            proof {
                assert(s[i as int].path == self.entries@[i as int].path@);
            }
            match c {
                Cmp::Less => {
                    i = i + 1;
                },
                Cmp::Equal => {
                    found = true;
                    break ;
                },
                Cmp::Greater => {
                    break ;
                },
            }
        }
        if found {
            proof {
                lemma_replace_entry(s, i as int, e);
            }
            self.entries.remove(i);
            let ghost s1 = self@;
            proof {
                assert(s1 =~= s.remove(i as int));
            }
            let entry = CrateMapEntry { path, items };
            self.entries.insert(i, entry);
            proof {
                assert(self@ =~= s1.insert(i as int, e));
            }
        } else {
            proof {
                lemma_insert_entry(s, i as int, e);
            }
            let entry = CrateMapEntry { path, items };
            self.entries.insert(i, entry);
            proof {
                assert(self@ =~= s.insert(i as int, e));
            }
        }
    }

    /// Look up one file's result by path.
    pub fn get(&self, path: &str) -> (r: Option<&UsedItemMap>)
        requires
            crate_map_wf(self@),
        ensures
            match r {
                Option::Some(m) => contents_map(self@).dom().contains(path@) && m@.wf()
                    && item_set(m@) == contents_map(self@)[path@],
                Option::None => !contents_map(self@).dom().contains(path@),
            },
    {
        let n = self.entries.len();
        let mut i: usize = 0;
        while i < n
            invariant
                0 <= i <= n,
                n == self@.len(),
                crate_map_wf(self@),
                forall|j: int| 0 <= j < i ==> self@[j].path != path@,
            decreases n - i,
        {
            let c = cmp_str(self.entries[i].path.as_str(), path);
            proof {
                assert(self@[i as int].path == self.entries@[i as int].path@);
                assert(self@[i as int].items == self.entries@[i as int].items@);
            }
            match c {
                Cmp::Equal => {
                    proof {
                        lemma_sorted_entries_unique(self@);
                        lemma_contents_characterize(self@);
                        assert(self@[i as int].path == path@);
                        assert(has_path(self@, path@));
                    }
                    return Option::Some(&self.entries[i].items);
                },
                _ => {
                    i = i + 1;
                },
            }
        }
        proof {
            lemma_sorted_entries_unique(self@);
            lemma_contents_characterize(self@);
            if contents_map(self@).dom().contains(path@) {
                let w = choose|w: int| 0 <= w < self@.len() && self@[w].path == path@;
            }
        }
        Option::None
    }
}

impl Default for CrateMap {
    /// The empty result map, as [`CrateMap::new`] builds it.
    fn default() -> (cm: CrateMap)
        ensures
            crate_map_wf(cm@),
            contents_map(cm@) == Map::<Seq<char>, Set<ItemView>>::empty(),
    {
        CrateMap::new()
    }
}

/// Walk every member file of the project, run the per-file
/// accumulator over it, and assemble the whole-project result.  A file
/// appearing later in the walk replaces an earlier file with the same
/// path.
pub fn list_used_items_in_project(project: &Project) -> (cm: CrateMap)
    ensures
        crate_map_wf(cm@),
        contents_map(cm@) == project_result(member_files(*project)),
{
    let mut cm = CrateMap::new();
    let nr = project.roots.len();
    let mut r: usize = 0;
    while r < nr
        invariant
            0 <= r <= nr,
            nr == project.roots@.len(),
            crate_map_wf(cm@),
            contents_map(cm@) == project_result(member_files_prefix(project.roots@, r as int)),
        decreases nr - r,
    {
        let root = &project.roots[r];
        if root.is_member {
            let ghost walked = member_files_prefix(project.roots@, r as int);
            let nf = root.files.len();
            let mut f: usize = 0;
            while f < nf
                invariant
                    0 <= f <= nf,
                    nf == root.files@.len(),
                    *root == project.roots@[r as int],
                    root.is_member,
                    walked == member_files_prefix(project.roots@, r as int),
                    crate_map_wf(cm@),
                    contents_map(cm@) == project_result(
                        walked + root.files@.subrange(0, f as int),
                    ),
                decreases nf - f,
            {
                let file = &root.files[f];
                let items = used_items(&file.syntax);
                proof {
                    assert(item_set(items@) =~= file_item_set(*file));
                }
                let ghost before = walked + root.files@.subrange(0, f as int);
                cm.insert_file(file.path.clone(), items);
                proof {
                    let after = walked + root.files@.subrange(0, f as int + 1);
                    assert(after.drop_last() =~= before);
                    assert(after.last() == *file);
                    assert(contents_map(cm@) == project_result(after));
                }
                f = f + 1;
            }
            proof {
                assert(member_files_prefix(project.roots@, r as int + 1) =~= walked
                    + root.files@.subrange(0, nf as int));
                assert(root.files@.subrange(0, nf as int) =~= root.files@);
                assert(walked + root.files@.subrange(0, nf as int) =~= walked + root.files@);
            }
        } else {
            proof {
                assert(member_files_prefix(project.roots@, r as int + 1) =~= member_files_prefix(
                    project.roots@,
                    r as int,
                ));
            }
        }
        r = r + 1;
    }
    cm
}

} // verus!
