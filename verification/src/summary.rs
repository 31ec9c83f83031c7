//! Counting the kinds and extensions of the files of a backup.

use crate::infer::extension_type::{ExtensionType, MatcherType};
use crate::infer::InferredExtensionView;
use crate::{inferred_views, FileRecord};
use core::cmp::Ordering;
use indexmap::IndexMap;
use vstd::prelude::*;

verus! {

/// How many of the files are of kind `t`.
pub open spec fn type_count(exts: Seq<InferredExtensionView>, t: ExtensionType) -> nat
    decreases exts.len(),
{
    if exts.len() == 0 {
        0
    } else {
        type_count(exts.drop_last(), t) + if exts.last().extension_type == t {
            1nat
        } else {
            0nat
        }
    }
}

/// How many of the files are of kind `t` with extension `e`.
pub open spec fn extension_count(exts: Seq<InferredExtensionView>, t: ExtensionType, e: Seq<char>) -> nat
    decreases exts.len(),
{
    if exts.len() == 0 {
        0
    } else {
        extension_count(exts.drop_last(), t, e) + if exts.last().extension_type == t
            && exts.last().extension == e {
            1nat
        } else {
            0nat
        }
    }
}

/// The extensions of one kind with their counts: each extension once, each
/// with its count, and every extension of that kind present.
pub open spec fn extensions_counted(
    exts: Seq<InferredExtensionView>,
    t: ExtensionType,
    list: Seq<(String, u32)>,
) -> bool {
    &&& forall|i: int, j: int| 0 <= i < j < list.len() ==> list[i].0@ != list[j].0@
    &&& forall|i: int|
        0 <= i < list.len() ==> #[trigger] list[i].1 == extension_count(exts, t, list[i].0@)
            && list[i].1 > 0
    &&& forall|e: Seq<char>|
        #[trigger] extension_count(exts, t, e) > 0 ==> exists|i: int|
            0 <= i < list.len() && list[i].0@ == e
}

/// One kind's entry of the summary: its number of files and its extensions.
pub open spec fn group_counted(
    exts: Seq<InferredExtensionView>,
    t: ExtensionType,
    total: u32,
    list: Seq<(String, u32)>,
) -> bool {
    &&& total == type_count(exts, t)
    &&& total > 0
    &&& extensions_counted(exts, t, list)
}

proof fn lemma_counts_bounded(exts: Seq<InferredExtensionView>, t: ExtensionType, e: Seq<char>)
    ensures
        extension_count(exts, t, e) <= type_count(exts, t) <= exts.len(),
    decreases exts.len(),
{
    if exts.len() > 0 {
        lemma_counts_bounded(exts.drop_last(), t, e);
    }
}

proof fn lemma_counts_push(exts: Seq<InferredExtensionView>, r: InferredExtensionView, t: ExtensionType, e: Seq<char>)
    ensures
        type_count(exts.push(r), t) == type_count(exts, t) + if r.extension_type == t {
            1nat
        } else {
            0nat
        },
        extension_count(exts.push(r), t, e) == extension_count(exts, t, e) + if r.extension_type
            == t && r.extension == e {
            1nat
        } else {
            0nat
        },
{
    assert(exts.push(r).drop_last() =~= exts);
}

/// Counts one more file with extension `extension` in a list of extensions.
fn count_extension(list: &mut Vec<(String, u32)>, extension: &String)
    requires
        forall|i: int, j: int| 0 <= i < j < old(list)@.len() ==> old(list)@[i].0@ != old(list)@[j].0@,
        forall|i: int| 0 <= i < old(list)@.len() ==> #[trigger] old(list)@[i].1 < u32::MAX,
    ensures
        (exists|j: int| 0 <= j < old(list)@.len() && old(list)@[j].0@ == extension@) ==> (exists|j: int|
            0 <= j < old(list)@.len() && old(list)@[j].0@ == extension@ && final(list)@ == old(list)@.update(
                j,
                (old(list)@[j].0, (old(list)@[j].1 + 1) as u32),
            )),
        !(exists|j: int| 0 <= j < old(list)@.len() && old(list)@[j].0@ == extension@) ==> final(list)@
            == old(list)@.push((*extension, 1u32)),
{
    let mut j: usize = 0;
    while j < list.len()
        invariant
            j <= list@.len(),
            list@ == old(list)@,
            forall|k: int| 0 <= k < old(list)@.len() ==> #[trigger] old(list)@[k].1 < u32::MAX,
            forall|k: int| 0 <= k < j ==> old(list)@[k].0@ != extension@,
        decreases list@.len() - j,
    {
        if list[j].0 == *extension {
            let count: u32 = list[j].1;
            let name: String = list[j].0.clone();
            list.set(j, (name, count + 1));
            return;
        }
        j = j + 1;
    }
    list.push((extension.clone(), 1));
}


proof fn lemma_group_unchanged(
    pre: Seq<InferredExtensionView>,
    r: InferredExtensionView,
    t: ExtensionType,
    total: u32,
    list: Seq<(String, u32)>,
)
    requires
        r.extension_type != t,
        group_counted(pre, t, total, list),
    ensures
        group_counted(pre.push(r), t, total, list),
{
    lemma_counts_push(pre, r, t, seq![]);
    assert forall|i: int| 0 <= i < list.len() implies #[trigger] list[i].1 == extension_count(
        pre.push(r),
        t,
        list[i].0@,
    ) && list[i].1 > 0 by {
        lemma_counts_push(pre, r, t, list[i].0@);
    }
    assert forall|e: Seq<char>| #[trigger] extension_count(pre.push(r), t, e) > 0 implies exists|i: int|
        0 <= i < list.len() && list[i].0@ == e by {
        lemma_counts_push(pre, r, t, e);
    }
}

proof fn lemma_group_counted_one_more(
    pre: Seq<InferredExtensionView>,
    r: InferredExtensionView,
    ext: String,
    old_list: Seq<(String, u32)>,
    new_list: Seq<(String, u32)>,
)
    requires
        ext@ == r.extension,
        extensions_counted(pre, r.extension_type, old_list),
        (exists|j: int| 0 <= j < old_list.len() && old_list[j].0@ == ext@) ==> (exists|j: int|
            0 <= j < old_list.len() && old_list[j].0@ == ext@ && new_list == old_list.update(
                j,
                (old_list[j].0, (old_list[j].1 + 1) as u32),
            )),
        !(exists|j: int| 0 <= j < old_list.len() && old_list[j].0@ == ext@) ==> new_list
            == old_list.push((ext, 1u32)),
        forall|i: int| 0 <= i < old_list.len() ==> #[trigger] old_list[i].1 < u32::MAX,
    ensures
        extensions_counted(pre.push(r), r.extension_type, new_list),
{
    let t: ExtensionType = r.extension_type;
    let post: Seq<InferredExtensionView> = pre.push(r);
    if exists|j: int| 0 <= j < old_list.len() && old_list[j].0@ == ext@ {
        let j: int = choose|j: int|
            0 <= j < old_list.len() && old_list[j].0@ == ext@ && new_list == old_list.update(
                j,
                (old_list[j].0, (old_list[j].1 + 1) as u32),
            );
        assert forall|i: int| 0 <= i < new_list.len() implies #[trigger] new_list[i].1
            == extension_count(post, t, new_list[i].0@) && new_list[i].1 > 0 by {
            lemma_counts_push(pre, r, t, new_list[i].0@);
            assert(old_list[i].1 == extension_count(pre, t, old_list[i].0@));
        }
        assert forall|e: Seq<char>| #[trigger] extension_count(post, t, e) > 0 implies exists|i: int|
            0 <= i < new_list.len() && new_list[i].0@ == e by {
            lemma_counts_push(pre, r, t, e);
            if e != ext@ {
                assert(extension_count(pre, t, e) > 0);
                let i: int = choose|i: int| 0 <= i < old_list.len() && old_list[i].0@ == e;
                assert(new_list[i].0@ == e);
            } else {
                assert(new_list[j].0@ == e);
            }
        }
    } else {
        assert forall|i: int| 0 <= i < new_list.len() implies #[trigger] new_list[i].1
            == extension_count(post, t, new_list[i].0@) && new_list[i].1 > 0 by {
            lemma_counts_push(pre, r, t, new_list[i].0@);
            if i < old_list.len() {
                assert(old_list[i].1 == extension_count(pre, t, old_list[i].0@));
            } else {
                if extension_count(pre, t, ext@) > 0 {
                    let m: int = choose|m: int| 0 <= m < old_list.len() && old_list[m].0@ == ext@;
                    assert(false);
                }
            }
        }
        assert forall|e: Seq<char>| #[trigger] extension_count(post, t, e) > 0 implies exists|i: int|
            0 <= i < new_list.len() && new_list[i].0@ == e by {
            lemma_counts_push(pre, r, t, e);
            if e != ext@ {
                assert(extension_count(pre, t, e) > 0);
                let i: int = choose|i: int| 0 <= i < old_list.len() && old_list[i].0@ == e;
                assert(new_list[i].0@ == e);
            } else {
                assert(new_list[old_list.len() as int].0@ == e);
            }
        }
    }
}

proof fn lemma_group_new(pre: Seq<InferredExtensionView>, r: InferredExtensionView, ext: String)
    requires
        ext@ == r.extension,
        type_count(pre, r.extension_type) == 0,
    ensures
        group_counted(pre.push(r), r.extension_type, 1, seq![(ext, 1u32)]),
{
    let t: ExtensionType = r.extension_type;
    lemma_counts_push(pre, r, t, ext@);
    lemma_counts_bounded(pre, t, ext@);
    assert forall|e: Seq<char>| #[trigger] extension_count(pre.push(r), t, e) > 0 implies exists|i: int|
        0 <= i < 1 && seq![(ext, 1u32)][i].0@ == e by {
        lemma_counts_push(pre, r, t, e);
        lemma_counts_bounded(pre, t, e);
        assert(seq![(ext, 1u32)][0].0@ == e);
    }
}

/// Kinds with their totals and extension lists, in parallel: each kind once,
/// each with its counts, and every kind of the files present.
pub open spec fn groups_counted(
    exts: Seq<InferredExtensionView>,
    keys: Seq<ExtensionType>,
    totals: Seq<u32>,
    lists: Seq<Vec<(String, u32)>>,
) -> bool {
    &&& keys.len() == totals.len() == lists.len()
    &&& forall|i: int, j: int| 0 <= i < j < keys.len() ==> keys[i] != keys[j]
    &&& forall|i: int|
        0 <= i < keys.len() ==> group_counted(exts, #[trigger] keys[i], totals[i], lists[i]@)
    &&& forall|t: ExtensionType|
        #[trigger] type_count(exts, t) > 0 ==> exists|i: int| 0 <= i < keys.len() && keys[i] == t
}

/// Where `t` stands among the kinds, if it does.
fn find_kind(keys: &Vec<ExtensionType>, t: ExtensionType) -> (res: Option<usize>)
    ensures
        match res {
            Some(i) => i < keys@.len() && keys@[i as int] == t,
            None => forall|i: int| 0 <= i < keys@.len() ==> keys@[i] != t,
        },
{
    let mut i: usize = 0;
    while i < keys.len()
        invariant
            i <= keys@.len(),
            forall|k: int| 0 <= k < i ==> keys@[k] != t,
        decreases keys@.len() - i,
    {
        if keys[i] == t {
            return Some(i);
        }
        i = i + 1;
    }
    None
}

/// Counts the files by kind and, within each kind, by extension; kinds and
/// extensions come in the order in which they first occur.
pub(crate) fn collect_groups(records: &[FileRecord]) -> (res: (Vec<ExtensionType>, Vec<u32>, Vec<Vec<(String, u32)>>))
    requires
        records@.len() <= u32::MAX,
    ensures
        groups_counted(inferred_views(records@), res.0@, res.1@, res.2@),
{
    let ghost all: Seq<InferredExtensionView> = inferred_views(records@);
    let mut keys: Vec<ExtensionType> = Vec::new();
    let mut totals: Vec<u32> = Vec::new();
    let mut lists: Vec<Vec<(String, u32)>> = Vec::new();
    let mut k: usize = 0;
    while k < records.len()
        invariant
            k <= records@.len() <= u32::MAX,
            all == inferred_views(records@),
            groups_counted(all.take(k as int), keys@, totals@, lists@),
        decreases records@.len() - k,
    {
        let ghost pre: Seq<InferredExtensionView> = all.take(k as int);
        let ghost r: InferredExtensionView = all[k as int];
        assert(all.take(k + 1) =~= pre.push(r));
        let inferred: &crate::infer::InferredExtension = &records[k].inferred_extension;
        assert(inferred@ == r);
        let t: ExtensionType = inferred.extension_type;
        match find_kind(&keys, t) {
            Some(i) => {
                let ghost old_list: Seq<(String, u32)> = lists@[i as int]@;
                proof {
                    lemma_counts_bounded(pre, t, r.extension);
                    assert forall|m: int| 0 <= m < old_list.len() implies #[trigger] old_list[m].1 < u32::MAX by {
                        lemma_counts_bounded(pre, t, old_list[m].0@);
                    }
                }
                let total: u32 = totals[i];
                totals.set(i, total + 1);
                count_extension(&mut lists[i], &inferred.extension);
                proof {
                    lemma_counts_push(pre, r, t, r.extension);
                    lemma_group_counted_one_more(pre, r, inferred.extension, old_list, lists@[i as int]@);
                    assert forall|m: int| 0 <= m < keys@.len() implies group_counted(
                        all.take(k + 1),
                        #[trigger] keys@[m],
                        totals@[m],
                        lists@[m]@,
                    ) by {
                        if m != i {
                            lemma_group_unchanged(pre, r, keys@[m], totals@[m], lists@[m]@);
                        }
                    }
                    assert forall|u: ExtensionType| #[trigger] type_count(all.take(k + 1), u) > 0 implies exists|m: int|
                        0 <= m < keys@.len() && keys@[m] == u by {
                        lemma_counts_push(pre, r, u, seq![]);
                        if u == t {
                            assert(keys@[i as int] == u);
                        }
                    }
                }
            },
            None => {
                let ghost old_keys: Seq<ExtensionType> = keys@;
                let ghost old_totals: Seq<u32> = totals@;
                let ghost old_lists: Seq<Vec<(String, u32)>> = lists@;
                proof {
                    if type_count(pre, t) > 0 {
                        let m: int = choose|m: int| 0 <= m < keys@.len() && keys@[m] == t;
                        assert(false);
                    }
                    lemma_group_new(pre, r, inferred.extension);
                }
                keys.push(t);
                totals.push(1);
                let mut first: Vec<(String, u32)> = Vec::new();
                first.push((inferred.extension.clone(), 1));
                lists.push(first);
                proof {
                    assert(lists@[lists@.len() - 1]@ =~= seq![(inferred.extension, 1u32)]);
                    assert forall|m: int| 0 <= m < keys@.len() implies group_counted(
                        all.take(k + 1),
                        #[trigger] keys@[m],
                        totals@[m],
                        lists@[m]@,
                    ) by {
                        if m < old_keys.len() {
                            assert(keys@[m] == old_keys[m]);
                            lemma_group_unchanged(pre, r, old_keys[m], old_totals[m], old_lists[m]@);
                        }
                    }
                    assert forall|u: ExtensionType| #[trigger] type_count(all.take(k + 1), u) > 0 implies exists|m: int|
                        0 <= m < keys@.len() && keys@[m] == u by {
                        lemma_counts_push(pre, r, u, seq![]);
                        if u == t {
                            assert(keys@[old_keys.len() as int] == u);
                        } else {
                            let m: int = choose|m: int| 0 <= m < old_keys.len() && old_keys[m] == u;
                            assert(keys@[m] == u);
                        }
                    }
                }
            },
        }
        k = k + 1;
    }
    assert(all.take(records@.len() as int) =~= all);
    (keys, totals, lists)
}


// ---------------------------------------------------------------------------
// Reordering
// ---------------------------------------------------------------------------

/// A reordering of a list whose elements differ in some key keeps the keys
/// distinct and the elements the same.
proof fn lemma_permutation_keys_unique<A, K>(s1: Seq<A>, s2: Seq<A>, key: spec_fn(A) -> K)
    requires
        s1.to_multiset() == s2.to_multiset(),
        forall|i: int, j: int| 0 <= i < j < s1.len() ==> key(s1[i]) != key(s1[j]),
    ensures
        forall|i: int, j: int| 0 <= i < j < s2.len() ==> key(s2[i]) != key(s2[j]),
        forall|a: int| 0 <= a < s2.len() ==> s1.contains(#[trigger] s2[a]),
        forall|b: int| 0 <= b < s1.len() ==> s2.contains(#[trigger] s1[b]),
{
    broadcast use vstd::seq_lib::to_multiset_contains;

    assert forall|a: int| 0 <= a < s2.len() implies s1.contains(#[trigger] s2[a]) by {
        assert(s2.contains(s2[a]));
        assert(s2.to_multiset().count(s2[a]) > 0);
        assert(s1.to_multiset().count(s2[a]) > 0);
    }
    assert forall|b: int| 0 <= b < s1.len() implies s2.contains(#[trigger] s1[b]) by {
        assert(s1.contains(s1[b]));
        assert(s1.to_multiset().count(s1[b]) > 0);
        assert(s2.to_multiset().count(s1[b]) > 0);
    }
    assert(s1.no_duplicates()) by {
        assert forall|i: int, j: int| 0 <= i < s1.len() && 0 <= j < s1.len() && i != j implies s1[i]
            != s1[j] by {
            if i < j {
                assert(key(s1[i]) != key(s1[j]));
            } else {
                assert(key(s1[j]) != key(s1[i]));
            }
        }
    }
    s1.lemma_multiset_has_no_duplicates();
    s2.lemma_multiset_has_no_duplicates_conv();
    assert forall|i: int, j: int| 0 <= i < j < s2.len() implies key(s2[i]) != key(s2[j]) by {
        assert(s1.contains(s2[i]));
        assert(s1.contains(s2[j]));
        let x: int = choose|x: int| 0 <= x < s1.len() && s1[x] == s2[i];
        let y: int = choose|y: int| 0 <= y < s1.len() && s1[y] == s2[j];
        if key(s2[i]) == key(s2[j]) {
            if x < y {
                assert(key(s1[x]) != key(s1[y]));
            } else if y < x {
                assert(key(s1[y]) != key(s1[x]));
            } else {
                assert(s2[i] == s2[j]);
            }
        }
    }
}

/// No extension comes after one with fewer files.
pub open spec fn count_sorted(list: Seq<(String, u32)>) -> bool {
    forall|i: int, j: int| 0 <= i < j < list.len() ==> list[i].1 >= list[j].1
}

proof fn lemma_counted_permuted(
    exts: Seq<InferredExtensionView>,
    t: ExtensionType,
    l1: Seq<(String, u32)>,
    l2: Seq<(String, u32)>,
)
    requires
        extensions_counted(exts, t, l1),
        l1.to_multiset() == l2.to_multiset(),
    ensures
        extensions_counted(exts, t, l2),
{
    let key: spec_fn((String, u32)) -> Seq<char> = |p: (String, u32)| p.0@;
    lemma_permutation_keys_unique(l1, l2, key);
    assert forall|i: int| 0 <= i < l2.len() implies #[trigger] l2[i].1 == extension_count(exts, t, l2[i].0@)
        && l2[i].1 > 0 by {
        assert(l1.contains(l2[i]));
        let x: int = choose|x: int| 0 <= x < l1.len() && l1[x] == l2[i];
        assert(l1[x].1 == extension_count(exts, t, l1[x].0@));
    }
    assert forall|e: Seq<char>| #[trigger] extension_count(exts, t, e) > 0 implies exists|i: int|
        0 <= i < l2.len() && l2[i].0@ == e by {
        let x: int = choose|x: int| 0 <= x < l1.len() && l1[x].0@ == e;
        assert(l2.contains(l1[x]));
        let i: int = choose|i: int| 0 <= i < l2.len() && l2[i] == l1[x];
        assert(l2[i].0@ == e);
    }
}

/// Calls `sort_by_key` on the list with the count as the key. Claimed (std's
/// documentation): the list is reordered, and the counts no longer decrease.
#[verifier::external_body]
fn sort_by_count(list: &mut Vec<(String, u32)>)
    ensures
        final(list)@.to_multiset() == old(list)@.to_multiset(),
        forall|i: int, j: int| 0 <= i < j < final(list)@.len() ==> final(list)@[i].1 <= final(list)@[j].1,
{
    list.sort_by_key(|&(_, count)| count);
}

/// Reverses the list.
fn reverse_list(list: &mut Vec<(String, u32)>)
    ensures
        final(list)@ == old(list)@.reverse(),
{
    let ghost whole: Seq<(String, u32)> = list@;
    let mut reversed: Vec<(String, u32)> = Vec::new();
    while list.len() > 0
        invariant
            list@.len() <= whole.len(),
            list@ == whole.take(list@.len() as int),
            reversed@.len() == whole.len() - list@.len(),
            forall|k: int| 0 <= k < reversed@.len() ==> #[trigger] reversed@[k] == whole[whole.len() - 1 - k],
        decreases list@.len(),
    {
        let ghost rest: Seq<(String, u32)> = list@;
        let item: (String, u32) = list.pop().unwrap();
        proof {
            assert(item == whole[rest.len() - 1]);
            assert(list@ =~= whole.take(list@.len() as int));
        }
        reversed.push(item);
    }
    *list = reversed;
    proof {
        assert(list@ =~= whole.reverse());
    }
}

/// Orders the extensions of a kind from the most to the least frequent.
fn sort_extensions(list: &mut Vec<(String, u32)>)
    ensures
        final(list)@.to_multiset() == old(list)@.to_multiset(),
        count_sorted(final(list)@),
{
    sort_by_count(list);
    let ghost ascending: Seq<(String, u32)> = list@;
    reverse_list(list);
    proof {
        ascending.lemma_reverse_to_multiset();
        assert forall|i: int, j: int| 0 <= i < j < list@.len() implies list@[i].1 >= list@[j].1 by {
            let n: int = ascending.len() as int;
            assert(list@[i] == ascending[n - 1 - i]);
            assert(list@[j] == ascending[n - 1 - j]);
        }
    }
}

// ---------------------------------------------------------------------------
// The summary map
// ---------------------------------------------------------------------------

#[verifier::external_type_specification]
#[verifier::external_body]
#[verifier::reject_recursive_types(K)]
#[verifier::reject_recursive_types(V)]
#[verifier::reject_recursive_types(S)]
pub struct ExIndexMap<K, V, S>(IndexMap<K, V, S>);

/// The entries of a summary map, in its order.
pub uninterp spec fn summary_entries(summary: IndexMap<ExtensionType, (u32, Vec<(String, u32)>)>) -> Seq<(ExtensionType, (u32, Vec<(String, u32)>))>;

/// Calls `IndexMap::new`. Claimed: the map is empty.
#[verifier::external_body]
fn summary_new() -> (res: IndexMap<ExtensionType, (u32, Vec<(String, u32)>)>)
    ensures
        summary_entries(res) == Seq::<(ExtensionType, (u32, Vec<(String, u32)>))>::empty(),
{
    IndexMap::new()
}

/// Calls `IndexMap::insert` with a key that the map does not hold. Claimed
/// (the crate's documentation): the entry is added last.
#[verifier::external_body]
fn summary_insert(
    summary: &mut IndexMap<ExtensionType, (u32, Vec<(String, u32)>)>,
    key: ExtensionType,
    value: (u32, Vec<(String, u32)>),
)
    requires
        forall|i: int| 0 <= i < summary_entries(*old(summary)).len() ==> #[trigger] summary_entries(*old(summary))[i].0 != key,
    ensures
        summary_entries(*final(summary)) == summary_entries(*old(summary)).push((key, value)),
{
    summary.insert(key, value);
}

/// How far back the kind goes: the unrecognised kind after all others.
pub open spec fn priority(t: ExtensionType) -> int {
    if t.0 == MatcherType::Custom {
        1
    } else {
        0
    }
}

/// Kind `a` with `a_total` files goes strictly before kind `b` with `b_total`
/// files: it has the smaller priority, or the same and more files.
pub open spec fn group_before(a: ExtensionType, a_total: u32, b: ExtensionType, b_total: u32) -> bool {
    priority(a) < priority(b) || (priority(a) == priority(b) && a_total > b_total)
}

fn priority_of(t: &ExtensionType) -> (res: u8)
    ensures
        res == priority(*t),
{
    match t.0 {
        MatcherType::Custom => 1,
        _ => 0,
    }
}

/// Compares two entries of the summary: by priority, then by number of files,
/// larger first.
pub fn compare_groups(
    a_type: &ExtensionType,
    a: &(u32, Vec<(String, u32)>),
    b_type: &ExtensionType,
    b: &(u32, Vec<(String, u32)>),
) -> (res: Ordering)
    ensures
        (res == Ordering::Less) == group_before(*a_type, a.0, *b_type, b.0),
        (res == Ordering::Greater) == group_before(*b_type, b.0, *a_type, a.0),
{
    match priority_of(a_type).cmp(&priority_of(b_type)) {
        Ordering::Equal => b.0.cmp(&a.0),
        other => other,
    }
}

/// Calls `IndexMap::sort_by` with [`compare_groups`]. Claimed (the crate's
/// documentation, for a comparison that is a total order): the entries are
/// reordered, and none goes strictly before an earlier one.
#[verifier::external_body]
fn summary_sort(summary: &mut IndexMap<ExtensionType, (u32, Vec<(String, u32)>)>)
    ensures
        summary_entries(*final(summary)).to_multiset() == summary_entries(*old(summary)).to_multiset(),
        forall|i: int, j: int|
            0 <= i < j < summary_entries(*final(summary)).len() ==> !group_before(
                summary_entries(*final(summary))[j].0,
                summary_entries(*final(summary))[j].1.0,
                summary_entries(*final(summary))[i].0,
                summary_entries(*final(summary))[i].1.0,
            ),
{
    summary.sort_by(|a_type, a, b_type, b| compare_groups(a_type, a, b_type, b));
}


/// The summary of a list of files: one entry per kind of file present, with
/// the kind's number of files and its extensions, each once with its number of
/// files, most frequent first; the unrecognised kind last, and otherwise the
/// kinds with more files first.
pub open spec fn summary_correct(
    exts: Seq<InferredExtensionView>,
    entries: Seq<(ExtensionType, (u32, Vec<(String, u32)>))>,
) -> bool {
    &&& forall|a: int, b: int| 0 <= a < b < entries.len() ==> entries[a].0 != entries[b].0
    &&& forall|a: int|
        0 <= a < entries.len() ==> group_counted(exts, #[trigger] entries[a].0, entries[a].1.0, entries[a].1.1@)
            && count_sorted(entries[a].1.1@)
    &&& forall|t: ExtensionType|
        #[trigger] type_count(exts, t) > 0 ==> exists|a: int| 0 <= a < entries.len() && entries[a].0 == t
    &&& forall|a: int, b: int|
        0 <= a < b < entries.len() ==> !group_before(entries[b].0, entries[b].1.0, entries[a].0, entries[a].1.0)
}

/// Summarises the kinds and extensions of a list of files (see
/// [`summary_correct`]).
pub fn gather_extensions(file_records: &[FileRecord]) -> (res: IndexMap<ExtensionType, (u32, Vec<(String, u32)>)>)
    requires
        file_records@.len() <= u32::MAX,
    ensures
        summary_correct(inferred_views(file_records@), summary_entries(res)),
{
    let ghost all: Seq<InferredExtensionView> = inferred_views(file_records@);
    let (mut keys, mut totals, mut lists) = collect_groups(file_records);
    let mut summary: IndexMap<ExtensionType, (u32, Vec<(String, u32)>)> = summary_new();
    while keys.len() > 0
        invariant
            keys@.len() == totals@.len() == lists@.len(),
            forall|i: int, j: int| 0 <= i < j < keys@.len() ==> keys@[i] != keys@[j],
            forall|i: int|
                0 <= i < keys@.len() ==> group_counted(all, #[trigger] keys@[i], totals@[i], lists@[i]@),
            forall|a: int, b: int|
                0 <= a < b < summary_entries(summary).len() ==> summary_entries(summary)[a].0
                    != summary_entries(summary)[b].0,
            forall|a: int, i: int|
                0 <= a < summary_entries(summary).len() && 0 <= i < keys@.len() ==> summary_entries(summary)[a].0
                    != keys@[i],
            forall|a: int|
                0 <= a < summary_entries(summary).len() ==> group_counted(
                    all,
                    #[trigger] summary_entries(summary)[a].0,
                    summary_entries(summary)[a].1.0,
                    summary_entries(summary)[a].1.1@,
                ) && count_sorted(summary_entries(summary)[a].1.1@),
            forall|t: ExtensionType|
                #[trigger] type_count(all, t) > 0 ==> (exists|i: int| 0 <= i < keys@.len() && keys@[i] == t)
                    || (exists|a: int| 0 <= a < summary_entries(summary).len() && summary_entries(summary)[a].0 == t),
        decreases keys@.len(),
    {
        let ghost before: Seq<(ExtensionType, (u32, Vec<(String, u32)>))> = summary_entries(summary);
        let ghost old_keys: Seq<ExtensionType> = keys@;
        let key: ExtensionType = keys.pop().unwrap();
        let total: u32 = totals.pop().unwrap();
        let mut list: Vec<(String, u32)> = lists.pop().unwrap();
        let ghost unsorted: Seq<(String, u32)> = list@;
        sort_extensions(&mut list);
        proof {
            lemma_counted_permuted(all, key, unsorted, list@);
        }
        summary_insert(&mut summary, key, (total, list));
        proof {
            let after: Seq<(ExtensionType, (u32, Vec<(String, u32)>))> = summary_entries(summary);
            assert(after[before.len() as int] == (key, (total, list)));
            assert forall|t: ExtensionType| #[trigger] type_count(all, t) > 0 implies (exists|i: int|
                0 <= i < keys@.len() && keys@[i] == t) || (exists|a: int|
                0 <= a < after.len() && after[a].0 == t) by {
                if exists|a: int| 0 <= a < before.len() && before[a].0 == t {
                    let a: int = choose|a: int| 0 <= a < before.len() && before[a].0 == t;
                    assert(after[a].0 == t);
                } else {
                    let i: int = choose|i: int| 0 <= i < old_keys.len() && old_keys[i] == t;
                    if i == keys@.len() {
                        assert(after[before.len() as int].0 == t);
                    } else {
                        assert(keys@[i] == t);
                    }
                }
            }
        }
    }
    let ghost unsorted_entries: Seq<(ExtensionType, (u32, Vec<(String, u32)>))> = summary_entries(summary);
    summary_sort(&mut summary);
    proof {
        let sorted: Seq<(ExtensionType, (u32, Vec<(String, u32)>))> = summary_entries(summary);
        let key: spec_fn((ExtensionType, (u32, Vec<(String, u32)>))) -> ExtensionType = |e: (
            ExtensionType,
            (u32, Vec<(String, u32)>),
        )| e.0;
        lemma_permutation_keys_unique(unsorted_entries, sorted, key);
        assert forall|a: int| 0 <= a < sorted.len() implies group_counted(
            all,
            #[trigger] sorted[a].0,
            sorted[a].1.0,
            sorted[a].1.1@,
        ) && count_sorted(sorted[a].1.1@) by {
            assert(unsorted_entries.contains(sorted[a]));
        }
        assert forall|t: ExtensionType| #[trigger] type_count(all, t) > 0 implies exists|a: int|
            0 <= a < sorted.len() && sorted[a].0 == t by {
            let b: int = choose|b: int| 0 <= b < unsorted_entries.len() && unsorted_entries[b].0 == t;
            assert(sorted.contains(unsorted_entries[b]));
        }
    }
    summary
}


// ---------------------------------------------------------------------------
// Totals
// ---------------------------------------------------------------------------

/// The numbers of files of the entries of a summary, added up.
pub open spec fn totals_sum(entries: Seq<(ExtensionType, (u32, Vec<(String, u32)>))>) -> nat
    decreases entries.len(),
{
    if entries.len() == 0 {
        0
    } else {
        totals_sum(entries.drop_last()) + entries.last().1.0 as nat
    }
}

/// The numbers of files of the extensions of a list, added up.
pub open spec fn counts_sum(list: Seq<(String, u32)>) -> nat
    decreases list.len(),
{
    if list.len() == 0 {
        0
    } else {
        counts_sum(list.drop_last()) + list.last().1 as nat
    }
}

spec fn key_sum(exts: Seq<InferredExtensionView>, keys: Seq<ExtensionType>) -> nat
    decreases keys.len(),
{
    if keys.len() == 0 {
        0
    } else {
        key_sum(exts, keys.drop_last()) + type_count(exts, keys.last())
    }
}

spec fn key_hits(keys: Seq<ExtensionType>, t: ExtensionType) -> nat
    decreases keys.len(),
{
    if keys.len() == 0 {
        0
    } else {
        key_hits(keys.drop_last(), t) + if keys.last() == t {
            1nat
        } else {
            0nat
        }
    }
}

proof fn lemma_key_sum_push(exts: Seq<InferredExtensionView>, r: InferredExtensionView, keys: Seq<ExtensionType>)
    ensures
        key_sum(exts.push(r), keys) == key_sum(exts, keys) + key_hits(keys, r.extension_type),
    decreases keys.len(),
{
    if keys.len() > 0 {
        lemma_key_sum_push(exts, r, keys.drop_last());
        lemma_counts_push(exts, r, keys.last(), seq![]);
    }
}

proof fn lemma_key_sum_empty(keys: Seq<ExtensionType>)
    ensures
        key_sum(Seq::<InferredExtensionView>::empty(), keys) == 0,
    decreases keys.len(),
{
    if keys.len() > 0 {
        lemma_key_sum_empty(keys.drop_last());
    }
}

proof fn lemma_key_hits_unique(keys: Seq<ExtensionType>, t: ExtensionType)
    requires
        forall|a: int, b: int| 0 <= a < b < keys.len() ==> keys[a] != keys[b],
    ensures
        key_hits(keys, t) == if (exists|a: int| 0 <= a < keys.len() && keys[a] == t) {
            1nat
        } else {
            0nat
        },
    decreases keys.len(),
{
    if keys.len() > 0 {
        let rest: Seq<ExtensionType> = keys.drop_last();
        lemma_key_hits_unique(rest, t);
        if keys.last() == t {
            assert(keys[keys.len() - 1] == t);
            if exists|a: int| 0 <= a < rest.len() && rest[a] == t {
                let a: int = choose|a: int| 0 <= a < rest.len() && rest[a] == t;
                assert(keys[a] == keys[keys.len() - 1]);
            }
        } else {
            if exists|a: int| 0 <= a < keys.len() && keys[a] == t {
                let a: int = choose|a: int| 0 <= a < keys.len() && keys[a] == t;
                assert(rest[a] == t);
            }
        }
    }
}

proof fn lemma_key_sum_total(exts: Seq<InferredExtensionView>, keys: Seq<ExtensionType>)
    requires
        forall|a: int, b: int| 0 <= a < b < keys.len() ==> keys[a] != keys[b],
        forall|t: ExtensionType|
            #[trigger] type_count(exts, t) > 0 ==> exists|a: int| 0 <= a < keys.len() && keys[a] == t,
    ensures
        key_sum(exts, keys) == exts.len(),
    decreases exts.len(),
{
    if exts.len() == 0 {
        lemma_key_sum_empty(keys);
        assert(exts =~= Seq::<InferredExtensionView>::empty());
    } else {
        let pre: Seq<InferredExtensionView> = exts.drop_last();
        let r: InferredExtensionView = exts.last();
        assert(pre.push(r) =~= exts);
        assert forall|t: ExtensionType| #[trigger] type_count(pre, t) > 0 implies exists|a: int|
            0 <= a < keys.len() && keys[a] == t by {
            lemma_counts_push(pre, r, t, seq![]);
        }
        lemma_key_sum_total(pre, keys);
        lemma_key_sum_push(pre, r, keys);
        lemma_counts_push(pre, r, r.extension_type, seq![]);
        lemma_key_hits_unique(keys, r.extension_type);
    }
}

spec fn name_sum(exts: Seq<InferredExtensionView>, t: ExtensionType, list: Seq<(String, u32)>) -> nat
    decreases list.len(),
{
    if list.len() == 0 {
        0
    } else {
        name_sum(exts, t, list.drop_last()) + extension_count(exts, t, list.last().0@)
    }
}

spec fn name_hits(list: Seq<(String, u32)>, e: Seq<char>) -> nat
    decreases list.len(),
{
    if list.len() == 0 {
        0
    } else {
        name_hits(list.drop_last(), e) + if list.last().0@ == e {
            1nat
        } else {
            0nat
        }
    }
}

proof fn lemma_name_sum_push(
    exts: Seq<InferredExtensionView>,
    r: InferredExtensionView,
    t: ExtensionType,
    list: Seq<(String, u32)>,
)
    ensures
        name_sum(exts.push(r), t, list) == name_sum(exts, t, list) + if r.extension_type == t {
            name_hits(list, r.extension)
        } else {
            0nat
        },
    decreases list.len(),
{
    if list.len() > 0 {
        lemma_name_sum_push(exts, r, t, list.drop_last());
        lemma_counts_push(exts, r, t, list.last().0@);
    }
}

proof fn lemma_name_sum_empty(t: ExtensionType, list: Seq<(String, u32)>)
    ensures
        name_sum(Seq::<InferredExtensionView>::empty(), t, list) == 0,
    decreases list.len(),
{
    if list.len() > 0 {
        lemma_name_sum_empty(t, list.drop_last());
    }
}

proof fn lemma_name_hits_unique(list: Seq<(String, u32)>, e: Seq<char>)
    requires
        forall|a: int, b: int| 0 <= a < b < list.len() ==> list[a].0@ != list[b].0@,
    ensures
        name_hits(list, e) == if (exists|a: int| 0 <= a < list.len() && list[a].0@ == e) {
            1nat
        } else {
            0nat
        },
    decreases list.len(),
{
    if list.len() > 0 {
        let rest: Seq<(String, u32)> = list.drop_last();
        lemma_name_hits_unique(rest, e);
        if list.last().0@ == e {
            assert(list[list.len() - 1].0@ == e);
            if exists|a: int| 0 <= a < rest.len() && rest[a].0@ == e {
                let a: int = choose|a: int| 0 <= a < rest.len() && rest[a].0@ == e;
                assert(list[a].0@ == list[list.len() - 1].0@);
            }
        } else {
            if exists|a: int| 0 <= a < list.len() && list[a].0@ == e {
                let a: int = choose|a: int| 0 <= a < list.len() && list[a].0@ == e;
                assert(rest[a].0@ == e);
            }
        }
    }
}

proof fn lemma_name_sum_total(exts: Seq<InferredExtensionView>, t: ExtensionType, list: Seq<(String, u32)>)
    requires
        forall|a: int, b: int| 0 <= a < b < list.len() ==> list[a].0@ != list[b].0@,
        forall|e: Seq<char>|
            #[trigger] extension_count(exts, t, e) > 0 ==> exists|a: int| 0 <= a < list.len() && list[a].0@ == e,
    ensures
        name_sum(exts, t, list) == type_count(exts, t),
    decreases exts.len(),
{
    if exts.len() == 0 {
        lemma_name_sum_empty(t, list);
        assert(exts =~= Seq::<InferredExtensionView>::empty());
    } else {
        let pre: Seq<InferredExtensionView> = exts.drop_last();
        let r: InferredExtensionView = exts.last();
        assert(pre.push(r) =~= exts);
        assert forall|e: Seq<char>| #[trigger] extension_count(pre, t, e) > 0 implies exists|a: int|
            0 <= a < list.len() && list[a].0@ == e by {
            lemma_counts_push(pre, r, t, e);
        }
        lemma_name_sum_total(pre, t, list);
        lemma_name_sum_push(pre, r, t, list);
        lemma_counts_push(pre, r, t, r.extension);
        lemma_name_hits_unique(list, r.extension);
    }
}

proof fn lemma_counts_sum_is_name_sum(exts: Seq<InferredExtensionView>, t: ExtensionType, list: Seq<(String, u32)>)
    requires
        forall|i: int| 0 <= i < list.len() ==> #[trigger] list[i].1 == extension_count(exts, t, list[i].0@),
    ensures
        counts_sum(list) == name_sum(exts, t, list),
    decreases list.len(),
{
    if list.len() > 0 {
        lemma_counts_sum_is_name_sum(exts, t, list.drop_last());
        assert(list.last() == list[list.len() - 1]);
    }
}

proof fn lemma_totals_sum_is_key_sum(
    exts: Seq<InferredExtensionView>,
    entries: Seq<(ExtensionType, (u32, Vec<(String, u32)>))>,
)
    requires
        forall|a: int| 0 <= a < entries.len() ==> (#[trigger] entries[a]).1.0 == type_count(exts, entries[a].0),
    ensures
        totals_sum(entries) == key_sum(exts, entries.map_values(|e: (ExtensionType, (u32, Vec<(String, u32)>))| e.0)),
    decreases entries.len(),
{
    let keys: Seq<ExtensionType> = entries.map_values(|e: (ExtensionType, (u32, Vec<(String, u32)>))| e.0);
    if entries.len() > 0 {
        let rest: Seq<(ExtensionType, (u32, Vec<(String, u32)>))> = entries.drop_last();
        lemma_totals_sum_is_key_sum(exts, rest);
        assert(keys.drop_last() =~= rest.map_values(|e: (ExtensionType, (u32, Vec<(String, u32)>))| e.0));
        assert(entries.last() == entries[entries.len() - 1]);
    }
}

/// Every file is counted once in a summary: its kinds' numbers of files add up
/// to the number of files, and each kind's extension counts add up to the
/// kind's number of files.
pub proof fn lemma_summary_counts_every_file(
    exts: Seq<InferredExtensionView>,
    entries: Seq<(ExtensionType, (u32, Vec<(String, u32)>))>,
)
    requires
        summary_correct(exts, entries),
    ensures
        totals_sum(entries) == exts.len(),
        forall|a: int| 0 <= a < entries.len() ==> counts_sum((#[trigger] entries[a]).1.1@) == entries[a].1.0,
{
    let keys: Seq<ExtensionType> = entries.map_values(|e: (ExtensionType, (u32, Vec<(String, u32)>))| e.0);
    lemma_totals_sum_is_key_sum(exts, entries);
    assert forall|t: ExtensionType| #[trigger] type_count(exts, t) > 0 implies exists|a: int|
        0 <= a < keys.len() && keys[a] == t by {
        let a: int = choose|a: int| 0 <= a < entries.len() && entries[a].0 == t;
        assert(keys[a] == t);
    }
    lemma_key_sum_total(exts, keys);
    assert forall|a: int| 0 <= a < entries.len() implies counts_sum((#[trigger] entries[a]).1.1@) == entries[a].1.0 by {
        let list: Seq<(String, u32)> = entries[a].1.1@;
        assert(group_counted(exts, entries[a].0, entries[a].1.0, list));
        lemma_counts_sum_is_name_sum(exts, entries[a].0, list);
        lemma_name_sum_total(exts, entries[a].0, list);
    }
}


// ---------------------------------------------------------------------------
// Independence of the order of the files
// ---------------------------------------------------------------------------

spec fn count_where<A>(s: Seq<A>, p: spec_fn(A) -> bool) -> nat
    decreases s.len(),
{
    if s.len() == 0 {
        0
    } else {
        count_where(s.drop_last(), p) + if p(s.last()) {
            1nat
        } else {
            0nat
        }
    }
}

proof fn lemma_count_where_remove<A>(s: Seq<A>, p: spec_fn(A) -> bool, j: int)
    requires
        0 <= j < s.len(),
    ensures
        count_where(s, p) == count_where(s.remove(j), p) + if p(s[j]) {
            1nat
        } else {
            0nat
        },
    decreases s.len(),
{
    if j == s.len() - 1 {
        assert(s.remove(j) =~= s.drop_last());
    } else {
        let rest: Seq<A> = s.drop_last();
        lemma_count_where_remove(rest, p, j);
        assert(s.remove(j).drop_last() =~= rest.remove(j));
        assert(s.remove(j).last() == s.last());
        assert(rest[j] == s[j]);
    }
}

proof fn lemma_count_where_permutation<A>(s1: Seq<A>, s2: Seq<A>, p: spec_fn(A) -> bool)
    requires
        s1.to_multiset() == s2.to_multiset(),
    ensures
        count_where(s1, p) == count_where(s2, p),
    decreases s1.len(),
{
    broadcast use vstd::seq_lib::group_to_multiset_ensures;

    if s1.len() == 0 {
        assert(s2.to_multiset().len() == 0);
        assert(s2.len() == 0);
    } else {
        let x: A = s1.last();
        let rest: Seq<A> = s1.drop_last();
        assert(rest.push(x) =~= s1);
        assert(s1.to_multiset().count(x) > 0);
        assert(s2.contains(x));
        let j: int = choose|j: int| 0 <= j < s2.len() && s2[j] == x;
        assert(s2.remove(j).to_multiset() =~= s2.to_multiset().remove(x));
        assert(rest.to_multiset() =~= s1.to_multiset().remove(x));
        lemma_count_where_permutation(rest, s2.remove(j), p);
        lemma_count_where_remove(s2, p, j);
    }
}

proof fn lemma_type_count_where(exts: Seq<InferredExtensionView>, t: ExtensionType)
    ensures
        type_count(exts, t) == count_where(exts, |r: InferredExtensionView| r.extension_type == t),
    decreases exts.len(),
{
    if exts.len() > 0 {
        lemma_type_count_where(exts.drop_last(), t);
    }
}

proof fn lemma_extension_count_where(exts: Seq<InferredExtensionView>, t: ExtensionType, e: Seq<char>)
    ensures
        extension_count(exts, t, e) == count_where(
            exts,
            |r: InferredExtensionView| r.extension_type == t && r.extension == e,
        ),
    decreases exts.len(),
{
    if exts.len() > 0 {
        lemma_extension_count_where(exts.drop_last(), t, e);
    }
}

proof fn lemma_counts_ignore_order(x1: Seq<InferredExtensionView>, x2: Seq<InferredExtensionView>)
    requires
        x1.to_multiset() == x2.to_multiset(),
    ensures
        forall|t: ExtensionType| #[trigger] type_count(x1, t) == type_count(x2, t),
        forall|t: ExtensionType, e: Seq<char>| #[trigger] extension_count(x1, t, e) == extension_count(x2, t, e),
{
    assert forall|t: ExtensionType| #[trigger] type_count(x1, t) == type_count(x2, t) by {
        lemma_type_count_where(x1, t);
        lemma_type_count_where(x2, t);
        lemma_count_where_permutation(x1, x2, |r: InferredExtensionView| r.extension_type == t);
    }
    assert forall|t: ExtensionType, e: Seq<char>| #[trigger] extension_count(x1, t, e) == extension_count(x2, t, e) by {
        lemma_extension_count_where(x1, t, e);
        lemma_extension_count_where(x2, t, e);
        lemma_count_where_permutation(
            x1,
            x2,
            |r: InferredExtensionView| r.extension_type == t && r.extension == e,
        );
    }
}

/// The order of the files does not matter: a summary of the files is a
/// summary of any reordering of them.
pub proof fn lemma_summary_ignores_order(
    x1: Seq<InferredExtensionView>,
    x2: Seq<InferredExtensionView>,
    entries: Seq<(ExtensionType, (u32, Vec<(String, u32)>))>,
)
    requires
        x1.to_multiset() == x2.to_multiset(),
        summary_correct(x1, entries),
    ensures
        summary_correct(x2, entries),
{
    lemma_counts_ignore_order(x1, x2);
    assert forall|a: int| 0 <= a < entries.len() implies group_counted(x2, #[trigger] entries[a].0, entries[a].1.0, entries[a].1.1@)
        && count_sorted(entries[a].1.1@) by {
        let list: Seq<(String, u32)> = entries[a].1.1@;
        assert(group_counted(x1, entries[a].0, entries[a].1.0, list));
        assert(type_count(x1, entries[a].0) == type_count(x2, entries[a].0));
        assert forall|i: int| 0 <= i < list.len() implies #[trigger] list[i].1 == extension_count(x2, entries[a].0, list[i].0@)
            && list[i].1 > 0 by {
            assert(extension_count(x1, entries[a].0, list[i].0@) == extension_count(x2, entries[a].0, list[i].0@));
        }
        assert forall|e: Seq<char>| #[trigger] extension_count(x2, entries[a].0, e) > 0 implies exists|i: int|
            0 <= i < list.len() && list[i].0@ == e by {
            assert(extension_count(x1, entries[a].0, e) == extension_count(x2, entries[a].0, e));
        }
    }
    assert forall|t: ExtensionType| #[trigger] type_count(x2, t) > 0 implies exists|a: int|
        0 <= a < entries.len() && entries[a].0 == t by {
        assert(type_count(x1, t) == type_count(x2, t));
    }
}

/// The summary has an entry for kind `t`.
pub open spec fn has_kind(entries: Seq<(ExtensionType, (u32, Vec<(String, u32)>))>, t: ExtensionType) -> bool {
    exists|a: int| 0 <= a < entries.len() && entries[a].0 == t
}

/// The list holds extension `e` with count `n`.
pub open spec fn has_extension(list: Seq<(String, u32)>, e: Seq<char>, n: u32) -> bool {
    exists|i: int| 0 <= i < list.len() && list[i].0@ == e && list[i].1 == n
}

/// Summaries of two orderings of the same files hold the same kinds, each with
/// the same number of files and the same extensions with the same counts; only
/// the order of entries with equal counts may differ.
pub proof fn lemma_summaries_of_reorderings_agree(
    x1: Seq<InferredExtensionView>,
    x2: Seq<InferredExtensionView>,
    e1: Seq<(ExtensionType, (u32, Vec<(String, u32)>))>,
    e2: Seq<(ExtensionType, (u32, Vec<(String, u32)>))>,
)
    requires
        x1.to_multiset() == x2.to_multiset(),
        summary_correct(x1, e1),
        summary_correct(x2, e2),
    ensures
        forall|t: ExtensionType| #[trigger] has_kind(e1, t) <==> has_kind(e2, t),
        forall|a: int, b: int|
            0 <= a < e1.len() && 0 <= b < e2.len() && #[trigger] e1[a].0 == #[trigger] e2[b].0 ==> {
                &&& e1[a].1.0 == e2[b].1.0
                &&& forall|e: Seq<char>, n: u32| #[trigger] has_extension(e1[a].1.1@, e, n) <==> has_extension(e2[b].1.1@, e, n)
            },
{
    lemma_summary_ignores_order(x1, x2, e1);
    assert forall|t: ExtensionType| #[trigger] has_kind(e1, t) <==> has_kind(e2, t) by {
        if exists|a: int| 0 <= a < e1.len() && e1[a].0 == t {
            let a: int = choose|a: int| 0 <= a < e1.len() && e1[a].0 == t;
            assert(group_counted(x2, e1[a].0, e1[a].1.0, e1[a].1.1@));
            assert(type_count(x2, t) > 0);
        }
        if exists|b: int| 0 <= b < e2.len() && e2[b].0 == t {
            let b: int = choose|b: int| 0 <= b < e2.len() && e2[b].0 == t;
            assert(group_counted(x2, e2[b].0, e2[b].1.0, e2[b].1.1@));
            assert(type_count(x2, t) > 0);
        }
    }
    assert forall|a: int, b: int|
        0 <= a < e1.len() && 0 <= b < e2.len() && #[trigger] e1[a].0 == #[trigger] e2[b].0 implies {
            &&& e1[a].1.0 == e2[b].1.0
            &&& forall|e: Seq<char>, n: u32| #[trigger] has_extension(e1[a].1.1@, e, n) <==> has_extension(e2[b].1.1@, e, n)
        } by {
        let t: ExtensionType = e1[a].0;
        let l1: Seq<(String, u32)> = e1[a].1.1@;
        let l2: Seq<(String, u32)> = e2[b].1.1@;
        assert(group_counted(x2, t, e1[a].1.0, l1));
        assert(group_counted(x2, t, e2[b].1.0, l2));
        assert forall|e: Seq<char>, n: u32| #[trigger] has_extension(l1, e, n) <==> has_extension(l2, e, n) by {
            if exists|i: int| 0 <= i < l1.len() && l1[i].0@ == e && l1[i].1 == n {
                let i: int = choose|i: int| 0 <= i < l1.len() && l1[i].0@ == e && l1[i].1 == n;
                assert(l1[i].1 == extension_count(x2, t, l1[i].0@));
                assert(extension_count(x2, t, e) > 0);
                let j: int = choose|j: int| 0 <= j < l2.len() && l2[j].0@ == e;
                assert(l2[j].1 == extension_count(x2, t, l2[j].0@));
            }
            if exists|j: int| 0 <= j < l2.len() && l2[j].0@ == e && l2[j].1 == n {
                let j: int = choose|j: int| 0 <= j < l2.len() && l2[j].0@ == e && l2[j].1 == n;
                assert(l2[j].1 == extension_count(x2, t, l2[j].0@));
                assert(extension_count(x2, t, e) > 0);
                let i: int = choose|i: int| 0 <= i < l1.len() && l1[i].0@ == e;
                assert(l1[i].1 == extension_count(x2, t, l1[i].0@));
            }
        }
    }
}

/// The order of the kinds in a summary: of two recognised kinds, the one with
/// more files comes first, and the unrecognised kind comes after every other.
pub proof fn lemma_summary_kind_order(
    exts: Seq<InferredExtensionView>,
    entries: Seq<(ExtensionType, (u32, Vec<(String, u32)>))>,
)
    requires
        summary_correct(exts, entries),
    ensures
        forall|a: int, b: int|
            0 <= a < b < entries.len() && entries[a].0.0 != MatcherType::Custom && entries[b].0.0
                != MatcherType::Custom ==> #[trigger] entries[a].1.0 >= #[trigger] entries[b].1.0,
        forall|a: int, b: int|
            0 <= a < b < entries.len() ==> (#[trigger] entries[a]).0.0 != MatcherType::Custom || (#[trigger] entries[b]).0.0
                == MatcherType::Custom,
{
    assert forall|a: int, b: int|
        0 <= a < b < entries.len() && entries[a].0.0 != MatcherType::Custom && entries[b].0.0
            != MatcherType::Custom implies #[trigger] entries[a].1.0 >= #[trigger] entries[b].1.0 by {
        assert(!group_before(entries[b].0, entries[b].1.0, entries[a].0, entries[a].1.0));
    }
    assert forall|a: int, b: int| 0 <= a < b < entries.len() implies (#[trigger] entries[a]).0.0
        != MatcherType::Custom || (#[trigger] entries[b]).0.0 == MatcherType::Custom by {
        assert(!group_before(entries[b].0, entries[b].1.0, entries[a].0, entries[a].1.0));
    }
}

} // verus!
