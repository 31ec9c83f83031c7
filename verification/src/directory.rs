//! The backup as a tree of directories, and which files a selection of
//! extensions shows.

use crate::utils::{is_file_visible, spec_file_visible};
use crate::{FileRecord, FileRecordView};
use vstd::multiset::Multiset;
use vstd::std_specs::cmp::PartialEqSpecImpl;
use vstd::prelude::*;

verus! {

/// A file in the tree, with whether the current selection shows it.
pub struct TogglableFileRecord {
    pub file_record: FileRecord,
    pub visible: bool,
}

/// A directory: its path from the root, its own name, the directories and
/// files in it, and whether the current selection shows anything in it.
pub struct DirectoryNode {
    pub full_name: String,
    pub name: String,
    pub children: Vec<DirectoryNode>,
    pub files: Vec<TogglableFileRecord>,
    pub visible: bool,
}

/// Two directories are the same directory when their paths from the root are.
impl PartialEq for DirectoryNode {
    fn eq(&self, other: &Self) -> (res: bool) {
        self.full_name == other.full_name
    }
}

impl PartialEqSpecImpl for DirectoryNode {
    open spec fn obeys_eq_spec() -> bool {
        true
    }

    open spec fn eq_spec(&self, other: &Self) -> bool {
        self.full_name@ == other.full_name@
    }
}

/// How many of the files there are, or how many of them are shown.
pub open spec fn counted_files(files: Seq<TogglableFileRecord>, only_visible: bool) -> nat
    decreases files.len(),
{
    if files.len() == 0 {
        0
    } else {
        counted_files(files.drop_last(), only_visible) + if !only_visible || files.last().visible {
            1nat
        } else {
            0nat
        }
    }
}

/// How many files the tree under `node` holds, or how many of them are shown.
pub open spec fn tree_count(node: DirectoryNode, only_visible: bool) -> nat
    decreases node, node.children@.len() + 1,
{
    children_count(node, node.children@.len() as int, only_visible) + counted_files(
        node.files@,
        only_visible,
    )
}

/// [`tree_count`] summed over the first `k` directories in `node`.
pub open spec fn children_count(node: DirectoryNode, k: int, only_visible: bool) -> nat
    decreases node, k,
{
    if k <= 0 || k > node.children@.len() {
        0
    } else {
        children_count(node, k - 1, only_visible) + tree_count(node.children@[k - 1], only_visible)
    }
}

/// `after` is `before` with the shown flags set for the selection `extensions`:
/// the same directories and files; a file shown when the selection shows it; a
/// directory shown when something in it is.
pub open spec fn filtered(before: DirectoryNode, after: DirectoryNode, extensions: Seq<String>) -> bool
    decreases before,
{
    &&& after.full_name == before.full_name
    &&& after.name == before.name
    &&& after.children@.len() == before.children@.len()
    &&& after.files@.len() == before.files@.len()
    &&& forall|i: int|
        0 <= i < before.children@.len() ==> filtered(
            #[trigger] before.children@[i],
            after.children@[i],
            extensions,
        )
    &&& forall|j: int|
        0 <= j < before.files@.len() ==> (#[trigger] after.files@[j]).file_record
            == before.files@[j].file_record && after.files@[j].visible == spec_file_visible(
            before.files@[j].file_record.inferred_extension.extension@,
            extensions,
        )
    &&& after.visible == ((exists|i: int|
        0 <= i < after.children@.len() && (#[trigger] after.children@[i]).visible) || (exists|j: int|
        0 <= j < after.files@.len() && (#[trigger] after.files@[j]).visible))
}

proof fn lemma_counted_files_prefix(files: Seq<TogglableFileRecord>, k: int, only_visible: bool)
    requires
        0 <= k < files.len(),
    ensures
        counted_files(files.take(k + 1), only_visible) == counted_files(files.take(k), only_visible)
            + if !only_visible || files[k].visible {
            1nat
        } else {
            0nat
        },
{
    assert(files.take(k + 1).drop_last() =~= files.take(k));
}

proof fn lemma_counted_files_all(files: Seq<TogglableFileRecord>)
    ensures
        counted_files(files, false) == files.len(),
        counted_files(files, true) <= files.len(),
    decreases files.len(),
{
    if files.len() > 0 {
        lemma_counted_files_all(files.drop_last());
    }
}

proof fn lemma_children_count_prefix(n1: DirectoryNode, n2: DirectoryNode, k: int, only_visible: bool)
    requires
        0 <= k <= n1.children@.len(),
        k <= n2.children@.len(),
        forall|m: int| 0 <= m < k ==> n1.children@[m] == n2.children@[m],
    ensures
        children_count(n1, k, only_visible) == children_count(n2, k, only_visible),
    decreases k,
{
    if k > 0 {
        lemma_children_count_prefix(n1, n2, k - 1, only_visible);
    }
}

proof fn lemma_tree_count_shown_le_all(node: DirectoryNode)
    ensures
        tree_count(node, true) <= tree_count(node, false),
    decreases node, node.children@.len() + 1,
{
    lemma_children_count_shown_le_all(node, node.children@.len() as int);
    lemma_counted_files_all(node.files@);
}

proof fn lemma_children_count_shown_le_all(node: DirectoryNode, k: int)
    ensures
        children_count(node, k, true) <= children_count(node, k, false),
    decreases node, k,
{
    if 0 < k <= node.children@.len() {
        lemma_children_count_shown_le_all(node, k - 1);
        lemma_tree_count_shown_le_all(node.children@[k - 1]);
    }
}

proof fn lemma_filtered_keeps_count(before: DirectoryNode, after: DirectoryNode, extensions: Seq<String>)
    requires
        filtered(before, after, extensions),
    ensures
        tree_count(after, false) == tree_count(before, false),
    decreases before, before.children@.len() + 1,
{
    lemma_filtered_prefix_count(before, after, extensions, before.children@.len() as int);
    lemma_counted_files_all(before.files@);
    lemma_counted_files_all(after.files@);
}

proof fn lemma_children_count_monotone(node: DirectoryNode, k: int, only_visible: bool)
    requires
        0 <= k <= node.children@.len(),
    ensures
        forall|m: int| 0 <= m < k ==> tree_count(#[trigger] node.children@[m], only_visible) <= children_count(node, k, only_visible),
        children_count(node, k, only_visible) <= children_count(node, node.children@.len() as int, only_visible),
    decreases node.children@.len() - k,
{
    if k < node.children@.len() {
        lemma_children_count_monotone(node, k + 1, only_visible);
    }
    lemma_children_count_covers(node, k, only_visible);
}

proof fn lemma_children_count_covers(node: DirectoryNode, k: int, only_visible: bool)
    requires
        0 <= k <= node.children@.len(),
    ensures
        forall|m: int| 0 <= m < k ==> tree_count(#[trigger] node.children@[m], only_visible) <= children_count(node, k, only_visible),
    decreases k,
{
    if k > 0 {
        lemma_children_count_covers(node, k - 1, only_visible);
    }
}

proof fn lemma_filtered_prefix_count(before: DirectoryNode, after: DirectoryNode, extensions: Seq<String>, k: int)
    requires
        0 <= k <= before.children@.len(),
        k <= after.children@.len(),
        forall|m: int| 0 <= m < k ==> filtered(before.children@[m], #[trigger] after.children@[m], extensions),
    ensures
        children_count(after, k, false) == children_count(before, k, false),
    decreases before, k,
{
    if k > 0 {
        lemma_filtered_prefix_count(before, after, extensions, k - 1);
        lemma_filtered_keeps_count(before.children@[k - 1], after.children@[k - 1], extensions);
    }
}

proof fn lemma_counted_files_all_shown(files: Seq<TogglableFileRecord>)
    requires
        forall|j: int| 0 <= j < files.len() ==> (#[trigger] files[j]).visible,
    ensures
        counted_files(files, true) == files.len(),
    decreases files.len(),
{
    if files.len() > 0 {
        lemma_counted_files_all_shown(files.drop_last());
    }
}

/// With no extension selected, every file is shown.
pub proof fn lemma_empty_selection_shows_all(before: DirectoryNode, after: DirectoryNode)
    requires
        filtered(before, after, Seq::<String>::empty()),
    ensures
        tree_count(after, true) == tree_count(before, false),
    decreases before, before.children@.len() + 1,
{
    lemma_empty_selection_children(before, after, before.children@.len() as int);
    lemma_counted_files_all_shown(after.files@);
    lemma_counted_files_all(before.files@);
}

proof fn lemma_empty_selection_children(before: DirectoryNode, after: DirectoryNode, k: int)
    requires
        filtered(before, after, Seq::<String>::empty()),
    ensures
        children_count(after, k, true) == children_count(before, k, false),
    decreases before, k,
{
    if 0 < k <= before.children@.len() {
        lemma_empty_selection_children(before, after, k - 1);
        lemma_empty_selection_shows_all(before.children@[k - 1], after.children@[k - 1]);
    }
}

impl DirectoryNode {
    /// A directory, shown.
    pub fn new(
        full_name: String,
        name: String,
        children: Vec<DirectoryNode>,
        files: Vec<TogglableFileRecord>,
    ) -> (res: Self)
        ensures
            res.full_name == full_name,
            res.name == name,
            res.children == children,
            res.files == files,
            res.visible,
    {
        DirectoryNode { full_name, name, children, files, visible: true }
    }

    /// Marks which files and directories the selection `extensions` shows and
    /// returns how many files it shows.
    pub fn filter_directory_node(&mut self, extensions: &Vec<String>) -> (file_count: usize)
        requires
            tree_count(*old(self), false) <= usize::MAX,
        ensures
            filtered(*old(self), *final(self), extensions@),
            file_count == tree_count(*final(self), true),
        decreases *old(self),
    {
        let ghost before: DirectoryNode = *self;
        let mut file_count: usize = 0;
        let mut i: usize = 0;
        while i < self.children.len()
            invariant
                i <= self.children@.len() == before.children@.len(),
                before == *old(self),
                self.full_name == before.full_name,
                self.name == before.name,
                self.files == before.files,
                tree_count(before, false) <= usize::MAX,
                forall|m: int| 0 <= m < i ==> filtered(before.children@[m], #[trigger] self.children@[m], extensions@),
                forall|m: int| i <= m < self.children@.len() ==> #[trigger] self.children@[m] == before.children@[m],
                file_count == children_count(*self, i as int, true),
            decreases self.children@.len() - i,
        {
            let ghost previous: DirectoryNode = *self;
            proof {
                lemma_children_count_monotone(before, i as int, false);
                lemma_children_count_monotone(before, (i + 1) as int, false);
                lemma_tree_count_shown_le_all(before.children@[i as int]);
                lemma_filtered_prefix_count(before, previous, extensions@, i as int);
                lemma_children_count_shown_le_all(previous, i as int);
                assert(decreases_to!(before => before.children@[i as int]));
            }
            let shown: usize = self.children[i].filter_directory_node(extensions);
            proof {
                lemma_tree_count_shown_le_all(self.children@[i as int]);
                lemma_filtered_keeps_count(before.children@[i as int], self.children@[i as int], extensions@);
                lemma_children_count_prefix(previous, *self, i as int, true);
                assert(before.children@[i as int] == previous.children@[i as int]);
            }
            file_count = file_count + shown;
            i = i + 1;
        }
        let ghost after_children: DirectoryNode = *self;
        proof {
            lemma_filtered_prefix_count(before, *self, extensions@, self.children@.len() as int);
            lemma_children_count_shown_le_all(*self, self.children@.len() as int);
            lemma_counted_files_all(self.files@);
        }
        let mut j: usize = 0;
        while j < self.files.len()
            invariant
                j <= self.files@.len() == before.files@.len(),
                self.full_name == before.full_name,
                self.name == before.name,
                self.children == after_children.children,
                forall|m: int| 0 <= m < before.children@.len() ==> filtered(before.children@[m], #[trigger] self.children@[m], extensions@),
                forall|m: int| 0 <= m < j ==> (#[trigger] self.files@[m]).file_record
                    == before.files@[m].file_record && self.files@[m].visible == spec_file_visible(
                    before.files@[m].file_record.inferred_extension.extension@,
                    extensions@,
                ),
                forall|m: int| j <= m < self.files@.len() ==> #[trigger] self.files@[m] == before.files@[m],
                file_count == children_count(after_children, self.children@.len() as int, true)
                    + counted_files(self.files@.take(j as int), true),
                children_count(after_children, self.children@.len() as int, true) + self.files@.len() <= usize::MAX,
            decreases self.files@.len() - j,
        {
            let ghost previous_files: Seq<TogglableFileRecord> = self.files@;
            let visible: bool = is_file_visible(&self.files[j].file_record, extensions.as_slice());
            let file: &mut TogglableFileRecord = &mut self.files[j];
            file.visible = visible;
            proof {
                assert(self.files@.take(j as int) =~= previous_files.take(j as int));
                lemma_counted_files_prefix(self.files@, j as int, true);
                lemma_counted_files_all(self.files@.take(j as int));
            }
            if visible {
                file_count = file_count + 1;
            }
            j = j + 1;
        }
        proof {
            assert(self.files@.take(self.files@.len() as int) =~= self.files@);
            lemma_children_count_prefix(after_children, *self, self.children@.len() as int, true);
        }
        let mut any_shown: bool = false;
        let mut c: usize = 0;
        while c < self.children.len()
            invariant
                c <= self.children@.len(),
                any_shown == exists|m: int| 0 <= m < c && (#[trigger] self.children@[m]).visible,
            decreases self.children@.len() - c,
        {
            if self.children[c].visible {
                any_shown = true;
            }
            c = c + 1;
        }
        let mut f: usize = 0;
        while f < self.files.len()
            invariant
                f <= self.files@.len(),
                any_shown == ((exists|m: int| 0 <= m < self.children@.len() && (#[trigger] self.children@[m]).visible)
                    || (exists|m: int| 0 <= m < f && (#[trigger] self.files@[m]).visible)),
            decreases self.files@.len() - f,
        {
            if self.files[f].visible {
                any_shown = true;
            }
            f = f + 1;
        }
        self.visible = any_shown;
        proof {
            lemma_children_count_prefix(after_children, *self, self.children@.len() as int, true);
        }
        file_count
    }
}


// ---------------------------------------------------------------------------
// Building the tree
// ---------------------------------------------------------------------------

/// What `std::path::Path::iter` gives for a path: its components as text.
pub uninterp spec fn path_components(path: Seq<char>) -> Seq<Seq<char>>;

/// Calls `Path::iter` on the path and takes each component as text. Claimed:
/// the result is `path_components` of the path.
#[verifier::external_body]
fn std_path_components(path: &str) -> (res: Vec<String>)
    ensures
        texts(res@) == path_components(path@),
{
    std::path::Path::new(path).iter().map(|part| part.to_string_lossy().to_string()).collect()
}

/// The texts of a list of strings.
pub open spec fn texts(strings: Seq<String>) -> Seq<Seq<char>> {
    strings.map_values(|s: String| s@)
}

/// The directories that lead to a file: its domain, then the components of its
/// path but the last.
pub open spec fn directory_parts(domain: Seq<char>, path: Seq<char>) -> Seq<Seq<char>> {
    (seq![domain] + path_components(path)).drop_last()
}

/// A well-formed tree: each directory's path is its parent's path, a slash and
/// its name, and no two directories in one directory share a name.
pub open spec fn tree_ok(node: DirectoryNode) -> bool
    decreases node,
{
    &&& forall|c: int| 0 <= c < node.children@.len() ==> tree_ok(#[trigger] node.children@[c])
    &&& forall|c: int|
        0 <= c < node.children@.len() ==> (#[trigger] node.children@[c]).full_name@ == node.full_name@
            + seq!['/'] + node.children@[c].name@
    &&& forall|c: int, d: int|
        0 <= c < d < node.children@.len() ==> node.children@[c].name@ != node.children@[d].name@
}

/// The directory reached from `node` through the directories named `parts`
/// holds the file `record`.
pub open spec fn holds_at(node: DirectoryNode, parts: Seq<Seq<char>>, record: FileRecordView) -> bool
    decreases parts.len(),
{
    if parts.len() == 0 {
        exists|j: int| 0 <= j < node.files@.len() && (#[trigger] node.files@[j]).file_record@ == record
    } else {
        exists|c: int|
            0 <= c < node.children@.len() && (#[trigger] node.children@[c]).name@ == parts[0]
                && holds_at(node.children@[c], parts.drop_first(), record)
    }
}

/// The files of a list, as a multiset.
pub open spec fn files_multiset(files: Seq<TogglableFileRecord>) -> Multiset<FileRecordView>
    decreases files.len(),
{
    if files.len() == 0 {
        Multiset::empty()
    } else {
        files_multiset(files.drop_last()).insert(files.last().file_record@)
    }
}

/// The files of the tree under `node`, as a multiset.
pub open spec fn tree_files(node: DirectoryNode) -> Multiset<FileRecordView>
    decreases node, node.children@.len() + 1,
{
    children_files(node, node.children@.len() as int).add(files_multiset(node.files@))
}

/// [`tree_files`] of the first `k` directories in `node`, together.
pub open spec fn children_files(node: DirectoryNode, k: int) -> Multiset<FileRecordView>
    decreases node, k,
{
    if k <= 0 || k > node.children@.len() {
        Multiset::empty()
    } else {
        children_files(node, k - 1).add(tree_files(node.children@[k - 1]))
    }
}

/// Every file under `node` lies in the directory that its domain and path lead
/// to, `node` being reached through the directories `prefix`.
pub open spec fn placed(node: DirectoryNode, prefix: Seq<Seq<char>>) -> bool
    decreases node,
{
    &&& forall|j: int|
        0 <= j < node.files@.len() ==> directory_parts(
            (#[trigger] node.files@[j]).file_record.mbdb.domain@,
            node.files@[j].file_record.mbdb.path@,
        ) == prefix
    &&& forall|c: int|
        0 <= c < node.children@.len() ==> placed(
            #[trigger] node.children@[c],
            prefix.push(node.children@[c].name@),
        )
}

/// Every directory and file under `node` is shown.
pub open spec fn all_shown(node: DirectoryNode) -> bool
    decreases node,
{
    &&& node.visible
    &&& forall|j: int| 0 <= j < node.files@.len() ==> (#[trigger] node.files@[j]).visible
    &&& forall|c: int| 0 <= c < node.children@.len() ==> all_shown(#[trigger] node.children@[c])
}

/// No directory under `node` is empty: each holds a file somewhere below it.
pub open spec fn no_empty_directories(node: DirectoryNode) -> bool
    decreases node,
{
    forall|c: int|
        0 <= c < node.children@.len() ==> tree_count(#[trigger] node.children@[c], false) > 0
            && no_empty_directories(node.children@[c])
}

proof fn lemma_children_files_prefix(n1: DirectoryNode, n2: DirectoryNode, k: int)
    requires
        0 <= k <= n1.children@.len(),
        k <= n2.children@.len(),
        forall|m: int| 0 <= m < k ==> n1.children@[m] == n2.children@[m],
    ensures
        children_files(n1, k) == children_files(n2, k),
    decreases k,
{
    if k > 0 {
        lemma_children_files_prefix(n1, n2, k - 1);
    }
}

proof fn lemma_children_files_one_more(n1: DirectoryNode, n2: DirectoryNode, c: int, k: int, r: FileRecordView)
    requires
        0 <= c < n1.children@.len() == n2.children@.len(),
        0 <= k <= n1.children@.len(),
        forall|m: int| 0 <= m < n1.children@.len() && m != c ==> n1.children@[m] == n2.children@[m],
        tree_files(n2.children@[c]) == tree_files(n1.children@[c]).insert(r),
    ensures
        children_files(n2, k) == if c < k {
            children_files(n1, k).insert(r)
        } else {
            children_files(n1, k)
        },
    decreases k,
{
    if k > 0 {
        lemma_children_files_one_more(n1, n2, c, k - 1, r);
        if c < k {
            if c < k - 1 {
                assert(children_files(n2, k) =~= children_files(n1, k).insert(r));
            } else {
                assert(children_files(n2, k) =~= children_files(n1, k).insert(r));
            }
        }
    }
}

proof fn lemma_children_files_push(n1: DirectoryNode, n2: DirectoryNode, k: int)
    requires
        n2.children@ == n1.children@.push(n2.children@.last()),
        0 <= k <= n1.children@.len(),
    ensures
        children_files(n2, k) == children_files(n1, k),
    decreases k,
{
    if k > 0 {
        lemma_children_files_push(n1, n2, k - 1);
    }
}

proof fn lemma_children_count_one_more(n1: DirectoryNode, n2: DirectoryNode, c: int, k: int)
    requires
        0 <= c < n1.children@.len() == n2.children@.len(),
        0 <= k <= n1.children@.len(),
        forall|m: int| 0 <= m < n1.children@.len() && m != c ==> n1.children@[m] == n2.children@[m],
        tree_count(n2.children@[c], false) == tree_count(n1.children@[c], false) + 1,
    ensures
        children_count(n2, k, false) == children_count(n1, k, false) + if c < k {
            1nat
        } else {
            0nat
        },
    decreases k,
{
    if k > 0 {
        lemma_children_count_one_more(n1, n2, c, k - 1);
    }
}

proof fn lemma_children_count_push(n1: DirectoryNode, n2: DirectoryNode, k: int)
    requires
        n2.children@ == n1.children@.push(n2.children@.last()),
        0 <= k <= n1.children@.len(),
    ensures
        children_count(n2, k, false) == children_count(n1, k, false),
        children_count(n2, k + 1, false) == children_count(n1, k, false) + if k == n1.children@.len() {
            tree_count(n2.children@.last(), false)
        } else {
            tree_count(n2.children@[k], false)
        },
    decreases k,
{
    if k > 0 {
        lemma_children_count_push(n1, n2, k - 1);
    }
}

// ---------------------------------------------------------------------------
// Order in the tree
// ---------------------------------------------------------------------------

/// The directories that lead to a file of the backup.
pub open spec fn record_parts(record: FileRecordView) -> Seq<Seq<char>> {
    directory_parts(record.mbdb.domain, record.mbdb.path)
}

/// `prefix` is a beginning of `parts`.
pub open spec fn leads_into(prefix: Seq<Seq<char>>, parts: Seq<Seq<char>>) -> bool {
    prefix.len() <= parts.len() && parts.take(prefix.len() as int) == prefix
}

/// The files among `records` that lie in the directory reached through
/// `prefix`, in the order of `records`.
pub open spec fn records_in(records: Seq<FileRecordView>, prefix: Seq<Seq<char>>) -> Seq<FileRecordView>
    decreases records.len(),
{
    if records.len() == 0 {
        seq![]
    } else if record_parts(records.last()) == prefix {
        records_in(records.drop_last(), prefix).push(records.last())
    } else {
        records_in(records.drop_last(), prefix)
    }
}

/// For each of `records` that lies below the directory reached through
/// `prefix`, the name of the directory directly below it on the way, in the
/// order of `records`, repeats included.
pub open spec fn names_below(records: Seq<FileRecordView>, prefix: Seq<Seq<char>>) -> Seq<Seq<char>>
    decreases records.len(),
{
    if records.len() == 0 {
        seq![]
    } else if leads_into(prefix, record_parts(records.last())) && record_parts(records.last()).len()
        > prefix.len() {
        names_below(records.drop_last(), prefix).push(record_parts(records.last())[prefix.len() as int])
    } else {
        names_below(records.drop_last(), prefix)
    }
}

/// The list with each element kept at its first occurrence only.
pub open spec fn first_occurrences(s: Seq<Seq<char>>) -> Seq<Seq<char>>
    decreases s.len(),
{
    if s.len() == 0 {
        seq![]
    } else if first_occurrences(s.drop_last()).contains(s.last()) {
        first_occurrences(s.drop_last())
    } else {
        first_occurrences(s.drop_last()).push(s.last())
    }
}

/// The files of a list of entries.
pub open spec fn file_views(files: Seq<TogglableFileRecord>) -> Seq<FileRecordView> {
    files.map_values(|f: TogglableFileRecord| f.file_record@)
}

/// The names of the directories in a directory, in order.
pub open spec fn child_names(node: DirectoryNode) -> Seq<Seq<char>> {
    node.children@.map_values(|c: DirectoryNode| c.name@)
}

/// The tree under `node`, reached through `prefix`, is in the order of
/// `records`: the files of each directory are the records that lie in it, in
/// the order of `records`, and its directories come in the order in which
/// their names first occur on the way to the records.
pub open spec fn ordered(node: DirectoryNode, prefix: Seq<Seq<char>>, records: Seq<FileRecordView>) -> bool
    decreases node,
{
    &&& file_views(node.files@) == records_in(records, prefix)
    &&& child_names(node) == first_occurrences(names_below(records, prefix))
    &&& forall|c: int|
        0 <= c < node.children@.len() ==> ordered(
            #[trigger] node.children@[c],
            prefix.push(node.children@[c].name@),
            records,
        )
}

proof fn lemma_first_occurrences_contains(s: Seq<Seq<char>>, x: Seq<char>)
    ensures
        first_occurrences(s).contains(x) <==> s.contains(x),
    decreases s.len(),
{
    if s.len() > 0 {
        let rest: Seq<Seq<char>> = s.drop_last();
        lemma_first_occurrences_contains(rest, x);
        let f: Seq<Seq<char>> = first_occurrences(rest);
        let g: Seq<Seq<char>> = first_occurrences(s);
        assert(g == f || g == f.push(s.last()));
        if rest.contains(x) {
            let j: int = choose|j: int| 0 <= j < rest.len() && rest[j] == x;
            assert(s[j] == x);
            let k: int = choose|k: int| 0 <= k < f.len() && f[k] == x;
            assert(g[k] == x);
        } else if s.last() == x {
            assert(s[s.len() - 1] == x);
            if !f.contains(x) {
                assert(g[f.len() as int] == x);
            }
        } else {
            assert(!s.contains(x)) by {
                if s.contains(x) {
                    let j: int = choose|j: int| 0 <= j < s.len() && s[j] == x;
                    if j < s.len() - 1 {
                        assert(rest[j] == x);
                    }
                }
            }
            assert(!g.contains(x)) by {
                if g.contains(x) {
                    let k: int = choose|k: int| 0 <= k < g.len() && g[k] == x;
                    if k < f.len() {
                        assert(f[k] == x);
                    }
                }
            }
        }
    }
}

proof fn lemma_leads_into_shorter(prefix: Seq<Seq<char>>, name: Seq<char>, parts: Seq<Seq<char>>)
    requires
        leads_into(prefix.push(name), parts),
    ensures
        leads_into(prefix, parts),
        parts[prefix.len() as int] == name,
{
    let q: Seq<Seq<char>> = prefix.push(name);
    assert(parts.take(q.len() as int) == q);
    assert(parts.take(prefix.len() as int) =~= prefix) by {
        assert forall|i: int| 0 <= i < prefix.len() implies parts.take(prefix.len() as int)[i] == prefix[i] by {
            assert(parts.take(q.len() as int)[i] == q[i]);
        }
    }
    assert(parts.take(q.len() as int)[prefix.len() as int] == q[prefix.len() as int]);
}

/// Adding a file that does not lie under `node` leaves the order under it as
/// it was.
proof fn lemma_ordered_unaffected(node: DirectoryNode, prefix: Seq<Seq<char>>, records: Seq<FileRecordView>, f: FileRecordView)
    requires
        ordered(node, prefix, records),
        !leads_into(prefix, record_parts(f)),
    ensures
        ordered(node, prefix, records.push(f)),
    decreases node,
{
    let more: Seq<FileRecordView> = records.push(f);
    assert(more.drop_last() =~= records);
    assert(record_parts(f) != prefix) by {
        if record_parts(f) == prefix {
            assert(record_parts(f).take(prefix.len() as int) =~= prefix);
        }
    }
    assert forall|c: int| 0 <= c < node.children@.len() implies ordered(
        #[trigger] node.children@[c],
        prefix.push(node.children@[c].name@),
        more,
    ) by {
        let q: Seq<Seq<char>> = prefix.push(node.children@[c].name@);
        if leads_into(q, record_parts(f)) {
            lemma_leads_into_shorter(prefix, node.children@[c].name@, record_parts(f));
        }
        lemma_ordered_unaffected(node.children@[c], q, records, f);
    }
}

/// Where no record has a directory named `name` directly below `prefix`,
/// nothing lies in or below that directory.
proof fn lemma_fresh_directory(records: Seq<FileRecordView>, prefix: Seq<Seq<char>>, name: Seq<char>)
    requires
        !names_below(records, prefix).contains(name),
    ensures
        records_in(records, prefix.push(name)) == Seq::<FileRecordView>::empty(),
        names_below(records, prefix.push(name)) == Seq::<Seq<char>>::empty(),
    decreases records.len(),
{
    if records.len() > 0 {
        let rest: Seq<FileRecordView> = records.drop_last();
        let parts: Seq<Seq<char>> = record_parts(records.last());
        let q: Seq<Seq<char>> = prefix.push(name);
        if names_below(rest, prefix).contains(name) {
            let j: int = choose|j: int| 0 <= j < names_below(rest, prefix).len() && names_below(rest, prefix)[j] == name;
            if leads_into(prefix, parts) && parts.len() > prefix.len() {
                assert(names_below(records, prefix)[j] == name);
            } else {
                assert(names_below(records, prefix)[j] == name);
            }
        }
        lemma_fresh_directory(rest, prefix, name);
        if parts == q {
            assert(parts.take(q.len() as int) =~= q);
            lemma_leads_into_shorter(prefix, name, parts);
            assert(names_below(records, prefix).last() == name);
        }
        if leads_into(q, parts) {
            lemma_leads_into_shorter(prefix, name, parts);
            assert(names_below(records, prefix).last() == name);
        }
    }
}

/// A directory made just now, named `name`, holds in the order of `records`
/// what it should where no record leads through it.
proof fn lemma_ordered_fresh(child: DirectoryNode, prefix: Seq<Seq<char>>, name: Seq<char>, records: Seq<FileRecordView>)
    requires
        child.files@.len() == 0,
        child.children@.len() == 0,
        !names_below(records, prefix).contains(name),
    ensures
        ordered(child, prefix.push(name), records),
{
    lemma_fresh_directory(records, prefix, name);
    assert(file_views(child.files@) =~= Seq::<FileRecordView>::empty());
    assert(child_names(child) =~= Seq::<Seq<char>>::empty());
    assert(first_occurrences(Seq::<Seq<char>>::empty()) == Seq::<Seq<char>>::empty());
}

/// Adding a file to the files of the directory it lies in keeps the order.
proof fn lemma_ordered_here(before: DirectoryNode, after: DirectoryNode, prefix: Seq<Seq<char>>, records: Seq<FileRecordView>, f: FileRecordView)
    requires
        ordered(before, prefix, records),
        record_parts(f) == prefix,
        after.children == before.children,
        file_views(after.files@) == file_views(before.files@).push(f),
    ensures
        ordered(after, prefix, records.push(f)),
{
    let more: Seq<FileRecordView> = records.push(f);
    assert(more.drop_last() =~= records);
    assert(records_in(more, prefix) == records_in(records, prefix).push(f));
    assert(names_below(more, prefix) == names_below(records, prefix));
    assert(child_names(after) == child_names(before));
    assert forall|c: int| 0 <= c < after.children@.len() implies ordered(
        #[trigger] after.children@[c],
        prefix.push(after.children@[c].name@),
        more,
    ) by {
        let q: Seq<Seq<char>> = prefix.push(after.children@[c].name@);
        assert(before.children@[c] == after.children@[c]);
        lemma_ordered_unaffected(after.children@[c], q, records, f);
    }
}

/// Adding a file below a directory, through its directory at `c` (found, or
/// made just now at the end), keeps the order.
proof fn lemma_ordered_below(before: DirectoryNode, after: DirectoryNode, prefix: Seq<Seq<char>>, records: Seq<FileRecordView>, f: FileRecordView, c: int)
    requires
        ordered(before, prefix, records),
        leads_into(prefix, record_parts(f)),
        record_parts(f).len() > prefix.len(),
        0 <= c < after.children@.len(),
        after.children@[c].name@ == record_parts(f)[prefix.len() as int],
        after.files@ == before.files@,
        c < before.children@.len() ==> after.children@.len() == before.children@.len()
            && before.children@[c].name@ == after.children@[c].name@,
        c >= before.children@.len() ==> c == before.children@.len() && after.children@.len() == c + 1
            && !child_names(before).contains(after.children@[c].name@),
        forall|m: int|
            0 <= m < after.children@.len() && m != c ==> after.children@[m] == before.children@[m]
                && after.children@[m].name@ != after.children@[c].name@,
        ordered(after.children@[c], prefix.push(after.children@[c].name@), records.push(f)),
    ensures
        ordered(after, prefix, records.push(f)),
{
    let more: Seq<FileRecordView> = records.push(f);
    let name: Seq<char> = after.children@[c].name@;
    let nb: Seq<Seq<char>> = names_below(records, prefix);
    assert(more.drop_last() =~= records);
    assert(record_parts(f) != prefix);
    assert(records_in(more, prefix) == records_in(records, prefix));
    assert(names_below(more, prefix) == nb.push(name));
    assert(nb.push(name).drop_last() =~= nb);
    if c < before.children@.len() {
        assert(child_names(after) =~= child_names(before)) by {
            assert forall|m: int| 0 <= m < after.children@.len() implies child_names(after)[m]
                == child_names(before)[m] by {
                if m != c {
                    assert(after.children@[m] == before.children@[m]);
                }
            }
        }
        assert(child_names(before)[c] == name);
        assert(first_occurrences(nb).contains(name));
    } else {
        assert(child_names(after) =~= child_names(before).push(name)) by {
            assert forall|m: int| 0 <= m < after.children@.len() implies child_names(after)[m]
                == child_names(before).push(name)[m] by {
                if m != c {
                    assert(after.children@[m] == before.children@[m]);
                }
            }
        }
        assert(!first_occurrences(nb).contains(name));
    }
    assert(child_names(after) == first_occurrences(names_below(more, prefix)));
    assert forall|m: int| 0 <= m < after.children@.len() implies ordered(
        #[trigger] after.children@[m],
        prefix.push(after.children@[m].name@),
        more,
    ) by {
        if m != c {
            let q: Seq<Seq<char>> = prefix.push(after.children@[m].name@);
            assert(after.children@[m] == before.children@[m]);
            if leads_into(q, record_parts(f)) {
                lemma_leads_into_shorter(prefix, after.children@[m].name@, record_parts(f));
            }
            lemma_ordered_unaffected(after.children@[m], q, records, f);
        }
    }
}

/// Files the file `file` in the directory reached from `node` through the
/// directories `dirs[i..]`, making the directories that do not exist yet.
fn insert_file(
    node: &mut DirectoryNode,
    dirs: &Vec<String>,
    i: usize,
    file: TogglableFileRecord,
    Ghost(records): Ghost<Seq<FileRecordView>>,
)
    requires
        ordered(*old(node), texts(dirs@).take(i as int), records),
        tree_ok(*old(node)),
        i <= dirs@.len(),
        placed(*old(node), texts(dirs@).take(i as int)),
        all_shown(*old(node)),
        no_empty_directories(*old(node)),
        file.visible,
        directory_parts(file.file_record.mbdb.domain@, file.file_record.mbdb.path@) == texts(dirs@),
    ensures
        tree_ok(*final(node)),
        placed(*final(node), texts(dirs@).take(i as int)),
        all_shown(*final(node)),
        no_empty_directories(*final(node)),
        tree_files(*final(node)) == tree_files(*old(node)).insert(file.file_record@),
        final(node).full_name == old(node).full_name,
        final(node).name == old(node).name,
        tree_count(*final(node), false) == tree_count(*old(node), false) + 1,
        holds_at(*final(node), texts(dirs@).skip(i as int), file.file_record@),
        forall|parts: Seq<Seq<char>>, r: FileRecordView|
            holds_at(*old(node), parts, r) ==> #[trigger] holds_at(*final(node), parts, r),
        ordered(*final(node), texts(dirs@).take(i as int), records.push(file.file_record@)),
    decreases dirs@.len() - i,
{
    let ghost before: DirectoryNode = *node;
    if i == dirs.len() {
        let ghost record: FileRecordView = file.file_record@;
        node.files.push(file);
        proof {
            assert(texts(dirs@).skip(i as int) =~= Seq::<Seq<char>>::empty());
            assert(node.files@[node.files@.len() - 1].file_record@ == record);
            assert(node.files@.drop_last() =~= before.files@);
            lemma_children_count_prefix(before, *node, node.children@.len() as int, false);
            lemma_children_files_prefix(before, *node, node.children@.len() as int);
            assert(tree_files(*node) =~= tree_files(before).insert(record));
            assert(texts(dirs@).take(i as int) =~= texts(dirs@));
            assert(node.children == before.children);
            assert(file_views(node.files@) =~= file_views(before.files@).push(record));
            lemma_ordered_here(before, *node, texts(dirs@).take(i as int), records, record);
            assert forall|parts: Seq<Seq<char>>, r: FileRecordView| holds_at(before, parts, r) implies #[trigger] holds_at(
                *node,
                parts,
                r,
            ) by {
                if parts.len() == 0 {
                    let j: int = choose|j: int| 0 <= j < before.files@.len() && (#[trigger] before.files@[j]).file_record@ == r;
                    assert(node.files@[j] == before.files@[j]);
                } else {
                    let c: int = choose|c: int|
                        0 <= c < before.children@.len() && (#[trigger] before.children@[c]).name@ == parts[0]
                            && holds_at(before.children@[c], parts.drop_first(), r);
                    assert(node.children@[c] == before.children@[c]);
                }
            }
        }
        return;
    }
    let part: &String = &dirs[i];
    let mut c: usize = 0;
    while c < node.children.len()
        invariant
            c <= node.children@.len(),
            forall|m: int| 0 <= m < c ==> node.children@[m].name@ != part@,
        ensures
            c <= node.children@.len(),
            forall|m: int| 0 <= m < c ==> node.children@[m].name@ != part@,
            c < node.children@.len() ==> node.children@[c as int].name@ == part@,
        decreases node.children@.len() - c,
    {
        if node.children[c].name == *part {
            break;
        }
        c = c + 1;
    }
    let ghost middle: DirectoryNode = *node;
    if c == node.children.len() {
        proof {
            reveal_strlit("/");
        }
        let full_name: String = node.full_name.clone().concat("/").concat(part.as_str());
        let child: DirectoryNode = DirectoryNode::new(full_name, part.clone(), Vec::new(), Vec::new());
        node.children.push(child);
        proof {
            assert(node.children@[c as int].full_name@ =~= node.full_name@ + seq!['/'] + node.children@[c as int].name@);
            assert(node.children@ == before.children@.push(node.children@.last()));
            lemma_children_count_push(before, *node, c as int);
            assert(tree_count(node.children@[c as int], false) == 0);
            assert(tree_ok(node.children@[c as int]));
            assert(tree_ok(*node));
            lemma_children_files_push(before, *node, c as int);
            assert(tree_files(node.children@[c as int]) =~= Multiset::<FileRecordView>::empty());
            assert(all_shown(node.children@[c as int]));
            assert(placed(node.children@[c as int], texts(dirs@).take(i as int).push(part@)));
        }
    }
    let ghost grown: DirectoryNode = *node;
    proof {
        assert(grown.children@[c as int].name@ == part@);
        assert(decreases_to!(dirs@.len() - i => dirs@.len() - (i + 1)));
        assert(texts(dirs@).take(i + 1) =~= texts(dirs@).take(i as int).push(part@));
        assert(placed(grown.children@[c as int], texts(dirs@).take(i as int).push(grown.children@[c as int].name@)));
        assert(all_shown(grown.children@[c as int]));
        assert(no_empty_directories(grown.children@[c as int]));
        let prefix: Seq<Seq<char>> = texts(dirs@).take(i as int);
        if c == before.children@.len() {
            assert(!child_names(before).contains(part@)) by {
                if child_names(before).contains(part@) {
                    let m: int = choose|m: int| 0 <= m < child_names(before).len() && child_names(before)[m] == part@;
                    assert(before.children@[m].name@ == part@);
                }
            }
            lemma_first_occurrences_contains(names_below(records, prefix), part@);
            lemma_ordered_fresh(grown.children@[c as int], prefix, part@, records);
        } else {
            assert(grown == before);
        }
        assert(ordered(grown.children@[c as int], texts(dirs@).take(i + 1), records));
    }
    let ghost record: FileRecordView = file.file_record@;
    insert_file(&mut node.children[c], dirs, i + 1, file, Ghost(records));
    proof {
        let n: int = node.children@.len() as int;
        assert(node.files == grown.files);
        assert(texts(dirs@).take(i + 1) =~= texts(dirs@).take(i as int).push(part@));
        lemma_children_files_one_more(grown, *node, c as int, n, record);
        if c == before.children@.len() {
            assert(tree_files(grown) =~= tree_files(before));
        }
        assert(tree_files(*node) =~= tree_files(grown).insert(record));
        assert forall|m: int| 0 <= m < n implies placed(
            #[trigger] node.children@[m],
            texts(dirs@).take(i as int).push(node.children@[m].name@),
        ) && all_shown(node.children@[m]) && tree_count(node.children@[m], false) > 0
            && no_empty_directories(node.children@[m]) by {
            if m != c {
                assert(node.children@[m] == grown.children@[m]);
                assert(grown.children@[m] == before.children@[m]);
            }
        }
        assert forall|m: int| 0 <= m < n && m != c implies node.children@[m] == grown.children@[m] by {}
        assert(tree_ok(*node));
        lemma_children_count_one_more(grown, *node, c as int, n);
        if c == before.children@.len() {
            lemma_children_count_push(before, grown, c as int);
        } else {
            assert(grown == before);
        }
        let prefix: Seq<Seq<char>> = texts(dirs@).take(i as int);
        assert(record_parts(record) == texts(dirs@));
        assert(texts(dirs@).take(prefix.len() as int) =~= prefix);
        assert(texts(dirs@)[i as int] == part@);
        assert forall|m: int| 0 <= m < n && m != c implies node.children@[m] == before.children@[m]
            && node.children@[m].name@ != node.children@[c as int].name@ by {
            assert(node.children@[m] == grown.children@[m]);
            assert(grown.children@[m] == before.children@[m]);
            if m > c {
                assert(before.children@[c as int].name@ != before.children@[m].name@);
            }
        }
        if c == before.children@.len() {
            assert(!child_names(before).contains(part@)) by {
                if child_names(before).contains(part@) {
                    let m: int = choose|m: int| 0 <= m < child_names(before).len() && child_names(before)[m] == part@;
                    assert(before.children@[m].name@ == part@);
                }
            }
        }
        lemma_ordered_below(before, *node, prefix, records, record, c as int);
        let parts: Seq<Seq<char>> = texts(dirs@).skip(i as int);
        assert(parts[0] == part@);
        assert(parts.drop_first() =~= texts(dirs@).skip(i + 1));
        assert(node.children@[c as int].name@ == parts[0]);
        assert(holds_at(*node, parts, record));
        assert forall|ps: Seq<Seq<char>>, r: FileRecordView| holds_at(before, ps, r) implies #[trigger] holds_at(
            *node,
            ps,
            r,
        ) by {
            if ps.len() == 0 {
                let j: int = choose|j: int| 0 <= j < before.files@.len() && (#[trigger] before.files@[j]).file_record@ == r;
                assert(node.files@[j] == before.files@[j]);
            } else {
                let d: int = choose|d: int|
                    0 <= d < before.children@.len() && (#[trigger] before.children@[d]).name@ == ps[0]
                        && holds_at(before.children@[d], ps.drop_first(), r);
                assert(grown.children@[d] == before.children@[d]);
                if d == c {
                    assert(holds_at(node.children@[d], ps.drop_first(), r));
                } else {
                    assert(node.children@[d] == before.children@[d]);
                }
            }
        }
    }
}


/// The directories that lead to a file: its domain, then the components of its
/// path but the last.
fn file_directories(file: &FileRecord) -> (res: Vec<String>)
    ensures
        texts(res@) == directory_parts(file.mbdb.domain@, file.mbdb.path@),
{
    let mut components: Vec<String> = std_path_components(file.mbdb.path.as_str());
    let mut parts: Vec<String> = Vec::new();
    parts.push(file.mbdb.domain.clone());
    let ghost first: Seq<String> = parts@;
    let ghost rest: Seq<String> = components@;
    parts.append(&mut components);
    let ghost all: Seq<String> = parts@;
    parts.pop();
    proof {
        assert(all == first + rest);
        assert(texts(all) =~= seq![file.mbdb.domain@] + path_components(file.mbdb.path@));
        assert(parts@ =~= all.drop_last());
        assert(texts(parts@) =~= texts(all).drop_last());
    }
    parts
}

/// The backup as a tree: an unnamed root, under it a directory per domain, and
/// under those the directories of the files' paths; each file, shown, in the
/// directory that its domain and path lead to. Each directory lists its files
/// in the order of `files`, and its directories in the order in which the files
/// first lead into them.
pub fn directory_tree(files: &[FileRecord]) -> (tree: DirectoryNode)
    ensures
        tree.full_name@ == Seq::<char>::empty(),
        tree.name@ == Seq::<char>::empty(),
        tree_ok(tree),
        tree_files(tree) == files@.map_values(|f: FileRecord| f@).to_multiset(),
        placed(tree, Seq::<Seq<char>>::empty()),
        all_shown(tree),
        no_empty_directories(tree),
        tree_count(tree, false) == files@.len(),
        ordered(tree, Seq::<Seq<char>>::empty(), files@.map_values(|f: FileRecord| f@)),
        forall|k: int|
            0 <= k < files@.len() ==> holds_at(
                tree,
                directory_parts((#[trigger] files@[k]).mbdb.domain@, files@[k].mbdb.path@),
                files@[k]@,
            ),
{
    let mut tree: DirectoryNode = DirectoryNode::new(String::new(), String::new(), Vec::new(), Vec::new());
    proof {
        lemma_counted_files_all(tree.files@);
        broadcast use vstd::seq_lib::group_to_multiset_ensures;
        assert(files@.take(0).map_values(|f: FileRecord| f@) =~= Seq::<FileRecordView>::empty());
        assert(Seq::<FileRecordView>::empty().to_multiset().len() == 0);
        assert(Seq::<FileRecordView>::empty().to_multiset() =~= Multiset::<FileRecordView>::empty());
        assert(tree_files(tree) =~= Multiset::<FileRecordView>::empty());
        let none: Seq<FileRecordView> = files@.take(0).map_values(|f: FileRecord| f@);
        assert(records_in(none, Seq::<Seq<char>>::empty()) == Seq::<FileRecordView>::empty());
        assert(names_below(none, Seq::<Seq<char>>::empty()) == Seq::<Seq<char>>::empty());
        assert(file_views(tree.files@) =~= Seq::<FileRecordView>::empty());
        assert(child_names(tree) =~= Seq::<Seq<char>>::empty());
    }
    let mut k: usize = 0;
    while k < files.len()
        invariant
            k <= files@.len(),
            tree.full_name@ == Seq::<char>::empty(),
            tree.name@ == Seq::<char>::empty(),
            tree_ok(tree),
            tree_files(tree) == files@.take(k as int).map_values(|f: FileRecord| f@).to_multiset(),
            placed(tree, Seq::<Seq<char>>::empty()),
            all_shown(tree),
            no_empty_directories(tree),
            tree_count(tree, false) == k,
            ordered(tree, Seq::<Seq<char>>::empty(), files@.take(k as int).map_values(|f: FileRecord| f@)),
            forall|m: int|
                0 <= m < k ==> holds_at(
                    tree,
                    directory_parts((#[trigger] files@[m]).mbdb.domain@, files@[m].mbdb.path@),
                    files@[m]@,
                ),
        decreases files@.len() - k,
    {
        let dirs: Vec<String> = file_directories(&files[k]);
        let entry: TogglableFileRecord = TogglableFileRecord { file_record: files[k].clone(), visible: true };
        let ghost before: DirectoryNode = tree;
        proof {
            assert(texts(dirs@).take(0) =~= Seq::<Seq<char>>::empty());
            assert(Seq::<Seq<char>>::empty() =~= texts(dirs@).take(0));
        }
        insert_file(&mut tree, &dirs, 0, entry, Ghost(files@.take(k as int).map_values(|f: FileRecord| f@)));
        proof {
            broadcast use vstd::seq_lib::group_to_multiset_ensures;
            assert(files@.take(k + 1).map_values(|f: FileRecord| f@) =~= files@.take(k as int).map_values(
                |f: FileRecord| f@,
            ).push(files@[k as int]@));
            assert(texts(dirs@).skip(0) =~= texts(dirs@));
            assert forall|m: int| 0 <= m < k + 1 implies holds_at(
                tree,
                directory_parts((#[trigger] files@[m]).mbdb.domain@, files@[m].mbdb.path@),
                files@[m]@,
            ) by {
                if m < k {
                    assert(holds_at(before, directory_parts(files@[m].mbdb.domain@, files@[m].mbdb.path@), files@[m]@));
                }
            }
        }
        k = k + 1;
    }
    proof {
        assert(files@.take(files@.len() as int) =~= files@);
    }
    tree
}

} // verus!
