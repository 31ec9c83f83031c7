//! Turning the options chosen in the file-type filter into a list of
//! extensions.

use crate::infer::extension_type::{kind_named, ExtensionType};
use crate::directory::texts;
use crate::summary::summary_entries;
use indexmap::IndexMap;
use vstd::prelude::*;
use vstd::utf8::*;

verus! {

// ---------------------------------------------------------------------------
// Order of text
// ---------------------------------------------------------------------------

/// Lexicographic order of byte strings, a proper prefix first.
pub open spec fn bytes_le(a: Seq<u8>, b: Seq<u8>) -> bool
    decreases a.len(),
{
    if a.len() == 0 {
        true
    } else if b.len() == 0 {
        false
    } else if a[0] != b[0] {
        a[0] < b[0]
    } else {
        bytes_le(a.drop_first(), b.drop_first())
    }
}

/// The order of `String`s: that of their UTF-8 bytes.
pub open spec fn text_le(a: Seq<char>, b: Seq<char>) -> bool {
    bytes_le(encode_utf8(a), encode_utf8(b))
}

proof fn lemma_bytes_le_antisymmetric(a: Seq<u8>, b: Seq<u8>)
    requires
        bytes_le(a, b),
        bytes_le(b, a),
    ensures
        a == b,
    decreases a.len(),
{
    if a.len() > 0 {
        lemma_bytes_le_antisymmetric(a.drop_first(), b.drop_first());
        assert(a =~= seq![a[0]] + a.drop_first());
        assert(b =~= seq![b[0]] + b.drop_first());
    } else {
        assert(b.len() == 0 || bytes_le(b, a));
        assert(b =~= a);
    }
}

proof fn lemma_bytes_le_transitive(a: Seq<u8>, b: Seq<u8>, c: Seq<u8>)
    requires
        bytes_le(a, b),
        bytes_le(b, c),
    ensures
        bytes_le(a, c),
    decreases a.len(),
{
    if a.len() > 0 && b.len() > 0 && c.len() > 0 && a[0] == b[0] && b[0] == c[0] {
        lemma_bytes_le_transitive(a.drop_first(), b.drop_first(), c.drop_first());
    }
}

proof fn lemma_text_le_antisymmetric(a: Seq<char>, b: Seq<char>)
    requires
        text_le(a, b),
        text_le(b, a),
    ensures
        a == b,
{
    lemma_bytes_le_antisymmetric(encode_utf8(a), encode_utf8(b));
    encode_utf8_decode_utf8(a);
    encode_utf8_decode_utf8(b);
}

// ---------------------------------------------------------------------------
// Removing repeats
// ---------------------------------------------------------------------------

/// The list with each run of equal neighbours reduced to its first element.
pub open spec fn dedup_spec<A>(s: Seq<A>) -> Seq<A>
    decreases s.len(),
{
    if s.len() <= 1 {
        s
    } else if s[s.len() - 1] == s[s.len() - 2] {
        dedup_spec(s.drop_last())
    } else {
        dedup_spec(s.drop_last()).push(s.last())
    }
}

/// No text comes before one that precedes it in the order of text.
pub open spec fn texts_sorted(s: Seq<Seq<char>>) -> bool {
    forall|i: int, j: int| #![trigger s[i], s[j]] 0 <= i < j < s.len() ==> text_le(s[i], s[j])
}

/// Each text comes strictly before the next ones.
pub open spec fn texts_increasing(s: Seq<Seq<char>>) -> bool {
    forall|i: int, j: int| #![trigger s[i], s[j]] 0 <= i < j < s.len() ==> text_le(s[i], s[j]) && s[i] != s[j]
}

proof fn lemma_dedup_contents<A>(s: Seq<A>)
    ensures
        forall|x: A| dedup_spec(s).contains(x) <==> s.contains(x),
        s.len() > 0 ==> dedup_spec(s).len() > 0 && dedup_spec(s).last() == s.last(),
    decreases s.len(),
{
    if s.len() > 1 {
        let rest: Seq<A> = s.drop_last();
        lemma_dedup_contents(rest);
        let d: Seq<A> = dedup_spec(rest);
        let n: int = s.len() as int;
        let same: bool = s[n - 1] == s[n - 2];
        assert(dedup_spec(s) == if same {
            d
        } else {
            d.push(s.last())
        });
        assert(rest.len() == n - 1);
        assert forall|x: A| s.contains(x) implies dedup_spec(s).contains(x) by {
            let i: int = choose|i: int| 0 <= i < s.len() && s[i] == x;
            let j: int = if i < n - 1 {
                i
            } else {
                n - 2
            };
            if i < n - 1 || same {
                assert(rest[j] == s[j]);
                assert(rest.contains(x));
                assert(d.contains(x));
                let k: int = choose|k: int| 0 <= k < d.len() && d[k] == x;
                if !same {
                    assert(d.push(s.last())[k] == x);
                }
            } else {
                assert(d.push(s.last())[d.len() as int] == x);
            }
        }
        assert forall|x: A| dedup_spec(s).contains(x) implies s.contains(x) by {
            let k: int = choose|k: int| 0 <= k < dedup_spec(s).len() && dedup_spec(s)[k] == x;
            if !same && k == d.len() {
                assert(s[n - 1] == x);
            } else {
                assert(d[k] == x);
                assert(d.contains(x));
                assert(rest.contains(x));
                let j: int = choose|j: int| 0 <= j < rest.len() && rest[j] == x;
                assert(s[j] == rest[j]);
            }
        }
        if same {
            assert(rest.last() == s[n - 2]);
        }
    }
}

proof fn lemma_dedup_sorted(s: Seq<Seq<char>>)
    requires
        texts_sorted(s),
    ensures
        texts_increasing(dedup_spec(s)),
    decreases s.len(),
{
    if s.len() > 1 {
        let rest: Seq<Seq<char>> = s.drop_last();
        let n: int = s.len() as int;
        assert forall|i: int, j: int| 0 <= i < j < rest.len() implies text_le(rest[i], rest[j]) by {
            assert(rest[i] == s[i] && rest[j] == s[j]);
        }
        lemma_dedup_sorted(rest);
        lemma_dedup_contents(rest);
        let d: Seq<Seq<char>> = dedup_spec(rest);
        let last: Seq<char> = s[n - 1];
        if last != s[n - 2] {
            assert(dedup_spec(s) == d.push(last));
            let e: Seq<Seq<char>> = d.push(last);
            assert forall|i: int, j: int| 0 <= i < j < e.len() implies text_le(e[i], e[j]) && e[i] != e[j] by {
                if j == d.len() {
                    assert(e[i] == d[i]);
                    assert(e[j] == last);
                    assert(d.contains(d[i]));
                    assert(rest.contains(d[i]));
                    let k: int = choose|k: int| 0 <= k < rest.len() && rest[k] == d[i];
                    assert(s[k] == d[i]);
                    assert(text_le(s[k], s[n - 1]));
                    if d[i] == last {
                        if k < n - 2 {
                            assert(text_le(s[k], s[n - 2]));
                            assert(text_le(s[n - 2], s[n - 1]));
                            lemma_bytes_le_transitive(encode_utf8(s[n - 1]), encode_utf8(s[k]), encode_utf8(s[n - 2]));
                            lemma_text_le_antisymmetric(s[n - 2], s[n - 1]);
                        } else {
                            assert(k == n - 2);
                        }
                    }
                    assert(text_le(e[i], e[j]));
                    assert(e[i] != e[j]);
                } else {
                    assert(e[i] == d[i]);
                    assert(e[j] == d[j]);
                    assert(text_le(d[i], d[j]) && d[i] != d[j]);
                }
            }
        }
    }
}

// ---------------------------------------------------------------------------
// Trusted calls
// ---------------------------------------------------------------------------

/// The value of the first entry of `entries` whose key is `t`.
pub open spec fn lookup(entries: Seq<(ExtensionType, (u32, Vec<(String, u32)>))>, t: ExtensionType) -> Option<
    (u32, Vec<(String, u32)>),
>
    decreases entries.len(),
{
    if entries.len() == 0 {
        None
    } else if entries[0].0 == t {
        Some(entries[0].1)
    } else {
        lookup(entries.drop_first(), t)
    }
}

/// Calls `IndexMap::get`. Claimed: the value of the entry with that key, if
/// the map holds one (a map holds each key once).
#[verifier::external_body]
fn summary_get<'a>(
    summary: &'a IndexMap<ExtensionType, (u32, Vec<(String, u32)>)>,
    key: &ExtensionType,
) -> (res: Option<&'a (u32, Vec<(String, u32)>)>)
    ensures
        match lookup(summary_entries(*summary), *key) {
            Some(v) => res matches Some(r) && *r == v,
            None => res is None,
        },
{
    summary.get(key)
}

/// Calls `sort` on a list of strings. Claimed (std's documentation): the list
/// is reordered into the order of `String`, the order of their bytes.
#[verifier::external_body]
fn sort_strings(list: &mut Vec<String>)
    ensures
        final(list)@.to_multiset() == old(list)@.to_multiset(),
        forall|i: int, j: int| 0 <= i < j < final(list)@.len() ==> text_le(final(list)@[i]@, final(list)@[j]@),
{
    list.sort();
}

/// Reduces each run of equal neighbours in the list to its first element.
fn dedup_strings(list: &mut Vec<String>)
    ensures
        texts(final(list)@) == dedup_spec(texts(old(list)@)),
{
    let ghost whole: Seq<Seq<char>> = texts(list@);
    let mut kept: Vec<String> = Vec::new();
    let mut i: usize = 0;
    while i < list.len()
        invariant
            i <= list@.len(),
            texts(list@) == whole,
            texts(kept@) == dedup_spec(whole.take(i as int)),
        decreases list@.len() - i,
    {
        let ghost before: Seq<String> = kept@;
        proof {
            assert(whole.take(i + 1).drop_last() =~= whole.take(i as int));
            assert(whole.take(i + 1).last() == list@[i as int]@);
            if i > 0 {
                assert(whole.take(i + 1)[i - 1] == list@[i - 1]@);
            }
        }
        if i == 0 || list[i] != list[i - 1] {
            let item: String = list[i].clone();
            kept.push(item);
            proof {
                assert(texts(kept@) =~= texts(before).push(list@[i as int]@));
            }
        }
        i = i + 1;
    }
    proof {
        assert(whole.take(i as int) =~= whole);
    }
    *list = kept;
}


// ---------------------------------------------------------------------------
// Selection
// ---------------------------------------------------------------------------

/// An option that names an extension: a dot, then the extension.
pub open spec fn starts_with_dot(value: Seq<char>) -> bool {
    value.len() > 0 && value[0] == '.'
}

/// The extensions of a list with counts.
pub open spec fn names_of(list: Seq<(String, u32)>) -> Seq<Seq<char>> {
    list.map_values(|p: (String, u32)| p.0@)
}

/// What one chosen option selects: the extension after the dot, or all the
/// extensions of the kind that the option names.
pub open spec fn option_selects(entries: Seq<(ExtensionType, (u32, Vec<(String, u32)>))>, value: Seq<char>) -> Seq<Seq<char>> {
    if starts_with_dot(value) {
        seq![value.drop_first()]
    } else {
        match kind_named(value) {
            Some(kind) => match lookup(entries, ExtensionType(kind)) {
                Some(group) => names_of(group.1@),
                None => seq![],
            },
            None => seq![],
        }
    }
}

/// What the chosen options select, in order, repeats included.
pub open spec fn gathered(entries: Seq<(ExtensionType, (u32, Vec<(String, u32)>))>, values: Seq<Seq<char>>) -> Seq<Seq<char>>
    decreases values.len(),
{
    if values.len() == 0 {
        seq![]
    } else {
        gathered(entries, values.drop_last()) + option_selects(entries, values.last())
    }
}

/// An option that the filter can have offered: an extension, or a kind that the
/// summary holds.
pub open spec fn option_offered(entries: Seq<(ExtensionType, (u32, Vec<(String, u32)>))>, value: Seq<char>) -> bool {
    starts_with_dot(value) || (kind_named(value) matches Some(kind) && lookup(entries, ExtensionType(kind)) is Some)
}

proof fn lemma_texts_permuted(s1: Seq<String>, s2: Seq<String>)
    requires
        s1.to_multiset() == s2.to_multiset(),
    ensures
        forall|e: Seq<char>| texts(s1).contains(e) <==> texts(s2).contains(e),
{
    broadcast use vstd::seq_lib::to_multiset_contains;

    assert forall|e: Seq<char>| texts(s1).contains(e) implies texts(s2).contains(e) by {
        let i: int = choose|i: int| 0 <= i < texts(s1).len() && texts(s1)[i] == e;
        assert(s1.contains(s1[i]));
        assert(s1.to_multiset().count(s1[i]) > 0);
        assert(s2.contains(s1[i]));
        let j: int = choose|j: int| 0 <= j < s2.len() && s2[j] == s1[i];
        assert(texts(s2)[j] == e);
    }
    assert forall|e: Seq<char>| texts(s2).contains(e) implies texts(s1).contains(e) by {
        let i: int = choose|i: int| 0 <= i < texts(s2).len() && texts(s2)[i] == e;
        assert(s2.contains(s2[i]));
        assert(s2.to_multiset().count(s2[i]) > 0);
        assert(s1.contains(s2[i]));
        let j: int = choose|j: int| 0 <= j < s1.len() && s1[j] == s2[i];
        assert(texts(s1)[j] == e);
    }
}

/// Every one of the options is one that the filter offers.
pub open spec fn all_offered(entries: Seq<(ExtensionType, (u32, Vec<(String, u32)>))>, values: Seq<String>) -> bool {
    forall|i: int| 0 <= i < values.len() ==> option_offered(entries, #[trigger] values[i]@)
}

/// The extensions that the options chosen in the filter select: an option
/// `.ext` selects `ext`, an option naming a kind selects all extensions of that
/// kind in the summary; sorted, each once. Each option is one that the filter
/// offers: an extension, or a kind that the summary holds.
pub fn selected_extensions(
    option_values: &[String],
    extensions: &IndexMap<ExtensionType, (u32, Vec<(String, u32)>)>,
) -> (res: Vec<String>)
    requires
        all_offered(summary_entries(*extensions), option_values@),
    ensures
        texts_increasing(texts(res@)),
        forall|e: Seq<char>|
            texts(res@).contains(e) <==> gathered(summary_entries(*extensions), texts(option_values@)).contains(e),
{
    let ghost entries: Seq<(ExtensionType, (u32, Vec<(String, u32)>))> = summary_entries(*extensions);
    let ghost values: Seq<Seq<char>> = texts(option_values@);
    let mut selected: Vec<String> = Vec::new();
    let mut i: usize = 0;
    while i < option_values.len()
        invariant
            i <= option_values@.len(),
            entries == summary_entries(*extensions),
            values == texts(option_values@),
            forall|m: int| 0 <= m < option_values@.len() ==> option_offered(entries, #[trigger] option_values@[m]@),
            texts(selected@) == gathered(entries, values.take(i as int)),
        decreases option_values@.len() - i,
    {
        let value: &str = option_values[i].as_str();
        let ghost before: Seq<Seq<char>> = texts(selected@);
        proof {
            assert(values.take(i + 1).drop_last() =~= values.take(i as int));
            assert(values.take(i + 1).last() == value@);
            assert(option_offered(entries, option_values@[i as int]@));
        }
        let length: usize = value.unicode_len();
        if length > 0 && value.get_char(0) == '.' {
            let extension: String = value.substring_char(1, length).to_owned();
            selected.push(extension);
            proof {
                assert(extension@ =~= value@.drop_first());
                assert(texts(selected@) =~= before + seq![value@.drop_first()]);
            }
        } else {
            if let Ok(kind) = ExtensionType::from_str(value) {
                if let Some(group) = summary_get(extensions, &kind) {
                    let mut j: usize = 0;
                    while j < group.1.len()
                        invariant
                            j <= group.1@.len(),
                            texts(selected@) == before + names_of(group.1@).take(j as int),
                        decreases group.1@.len() - j,
                    {
                        let ghost prior: Seq<String> = selected@;
                        selected.push(group.1[j].0.clone());
                        proof {
                            assert(names_of(group.1@).take(j + 1) =~= names_of(group.1@).take(j as int).push(
                                group.1@[j as int].0@,
                            ));
                            assert(texts(selected@) =~= texts(prior).push(group.1@[j as int].0@));
                        }
                        j = j + 1;
                    }
                    proof {
                        assert(names_of(group.1@).take(group.1@.len() as int) =~= names_of(group.1@));
                    }
                }
            }
        }
        i = i + 1;
    }
    proof {
        assert(values.take(option_values@.len() as int) =~= values);
    }
    let ghost unsorted: Seq<String> = selected@;
    sort_strings(&mut selected);
    let ghost sorted: Seq<String> = selected@;
    dedup_strings(&mut selected);
    proof {
        lemma_texts_permuted(unsorted, sorted);
        assert forall|a: int, b: int| 0 <= a < b < texts(sorted).len() implies text_le(
            #[trigger] texts(sorted)[a],
            #[trigger] texts(sorted)[b],
        ) by {}
        lemma_dedup_sorted(texts(sorted));
        lemma_dedup_contents(texts(sorted));
    }
    selected
}

/// Whether the filter offers the option `value` for this summary: an
/// extension (a dot, then the extension), or a kind that the summary holds.
pub fn is_option_offered(
    value: &str,
    extensions: &IndexMap<ExtensionType, (u32, Vec<(String, u32)>)>,
) -> (res: bool)
    ensures
        res == option_offered(summary_entries(*extensions), value@),
{
    let length: usize = value.unicode_len();
    if length > 0 && value.get_char(0) == '.' {
        return true;
    }
    match ExtensionType::from_str(value) {
        Ok(kind) => summary_get(extensions, &kind).is_some(),
        Err(_) => false,
    }
}

/// [`selected_extensions`] for options that may not all be offered: `None`
/// where one of them is not, the selected extensions otherwise.
pub fn selected_extensions_checked(
    option_values: &[String],
    extensions: &IndexMap<ExtensionType, (u32, Vec<(String, u32)>)>,
) -> (res: Option<Vec<String>>)
    ensures
        match res {
            Some(v) => all_offered(summary_entries(*extensions), option_values@) && texts_increasing(texts(v@))
                && forall|e: Seq<char>|
                texts(v@).contains(e) <==> gathered(summary_entries(*extensions), texts(option_values@)).contains(e),
            None => !all_offered(summary_entries(*extensions), option_values@),
        },
{
    let mut i: usize = 0;
    while i < option_values.len()
        invariant
            i <= option_values@.len(),
            forall|m: int| 0 <= m < i ==> option_offered(summary_entries(*extensions), #[trigger] option_values@[m]@),
        decreases option_values@.len() - i,
    {
        if !is_option_offered(option_values[i].as_str(), extensions) {
            return None;
        }
        i = i + 1;
    }
    Some(selected_extensions(option_values, extensions))
}

} // verus!
