//! What the compiled catalog and the generated code do not depend on: the
//! order in which the keys of the raw catalog stand.

use crate::catalog::all_readable;
use crate::catalog::compiled;
use crate::catalog::compiled_from;
use crate::catalog::distinct_identifiers;
use crate::catalog::entry_of;
use crate::catalog::keys_of;
use crate::catalog::lemma_compiled_ascends;
use crate::catalog::lemma_compiled_entries;
use crate::catalog::normalized;
use crate::catalog::CatalogEntryView;
use crate::emit::formatted;
use crate::order::ascending;
use crate::order::lemma_ascending_unique;
use crate::reader::as_map;
use crate::reader::distinct_keys;
use crate::reader::has_key;
use crate::reader::lemma_key_index;
use crate::reader::RawEntryView;
use crate::text::lemma_lex_irreflexive;
use crate::text::lemma_text_order_strict;
use crate::text::text_order;
use vstd::prelude::*;

verus! {

/// A sequence of entries with ascending keys is determined by the entries
/// it holds.
pub proof fn lemma_ascending_by_key_unique(s: Seq<CatalogEntryView>, t: Seq<CatalogEntryView>)
    requires
        ascending(keys_of(s), text_order()),
        ascending(keys_of(t), text_order()),
        forall|e: CatalogEntryView| s.contains(e) <==> t.contains(e),
    ensures
        s == t,
{
    let ks = keys_of(s);
    let kt = keys_of(t);
    lemma_text_order_strict();
    assert forall|k: Seq<char>| ks.to_set().contains(k) == kt.to_set().contains(k) by {
        if ks.contains(k) {
            let i = choose|i: int| 0 <= i < ks.len() && ks[i] == k;
            assert(s.contains(s[i]));
            let j = choose|j: int| 0 <= j < t.len() && t[j] == s[i];
            assert(kt[j] == k);
        }
        if kt.contains(k) {
            let i = choose|i: int| 0 <= i < kt.len() && kt[i] == k;
            assert(t.contains(t[i]));
            let j = choose|j: int| 0 <= j < s.len() && s[j] == t[i];
            assert(ks[j] == k);
        }
    }
    assert(ks.to_set() =~= kt.to_set());
    lemma_ascending_unique(ks, kt, text_order());
    assert(ks.len() == s.len() && kt.len() == t.len());
    assert(s.len() == t.len());
    assert forall|i: int| 0 <= i < s.len() implies s[i] == t[i] by {
        assert(s.contains(s[i]));
        let j = choose|j: int| 0 <= j < t.len() && t[j] == s[i];
        assert(kt[j] == ks[i]);
        assert(kt[i] == ks[i]);
        lemma_lex_irreflexive(ks[i]);
        if j < i {
            assert(text_order()(kt[j], kt[i]));
        } else if i < j {
            assert(text_order()(kt[i], kt[j]));
        }
    }
    assert(s =~= t);
}

/// Two raw catalogs that are the same mapping hold the same entries.
pub proof fn lemma_same_mapping_same_entries(a: Seq<RawEntryView>, b: Seq<RawEntryView>, i: int)
    requires
        distinct_keys(a),
        distinct_keys(b),
        as_map(a) == as_map(b),
        0 <= i < a.len(),
    ensures
        b.contains(a[i]),
{
    let key = a[i].key;
    lemma_key_index(a, key);
    lemma_key_index(b, key);
    assert(has_key(a, key));
    assert(as_map(a).dom().contains(key));
    assert(as_map(b).dom().contains(key));
    assert(has_key(b, key));
    let p = crate::reader::key_index(a, key) as int;
    let q = crate::reader::key_index(b, key) as int;
    assert(p == i) by {
        if p < i {
            assert(a[p].key != a[i].key);
        }
    }
    assert(as_map(a)[key] == a[i].translations);
    assert(as_map(b)[key] == b[q].translations);
    assert(b[q] == a[i]);
}

/// The compiled catalog depends on the mapping from key to translation
/// list alone: two raw catalogs that are the same mapping, whatever the
/// order of their keys, compile both or fail both, and where they compile
/// they give the same catalog.
pub proof fn lemma_compiled_needs_no_order(a: Seq<RawEntryView>, b: Seq<RawEntryView>)
    requires
        distinct_keys(a),
        distinct_keys(b),
        as_map(a) == as_map(b),
    ensures
        compiled(a) is Ok <==> compiled(b) is Ok,
        compiled(a) is Ok ==> compiled(a) == compiled(b),
{
    lemma_compiled_entries(a);
    lemma_compiled_entries(b);
    if all_readable(a) && distinct_identifiers(a) {
        lemma_readable_needs_no_order(a, b);
    }
    if all_readable(b) && distinct_identifiers(b) {
        lemma_readable_needs_no_order(b, a);
    }
    if compiled(a) is Ok {
        let s = compiled(a)->Ok_0;
        let t = compiled(b)->Ok_0;
        lemma_compiled_ascends(a);
        lemma_compiled_ascends(b);
        assert forall|e: CatalogEntryView| s.contains(e) <==> t.contains(e) by {
            if compiled_from(a, e) {
                let i = choose|i: int| 0 <= i < a.len() && entry_of(#[trigger] a[i]) == Ok::<
                    CatalogEntryView,
                    Seq<char>,
                >(e);
                lemma_same_mapping_same_entries(a, b, i);
                let j = choose|j: int| 0 <= j < b.len() && b[j] == a[i];
                assert(entry_of(b[j]) == Ok::<CatalogEntryView, Seq<char>>(e));
            }
            if compiled_from(b, e) {
                let i = choose|i: int| 0 <= i < b.len() && entry_of(#[trigger] b[i]) == Ok::<
                    CatalogEntryView,
                    Seq<char>,
                >(e);
                lemma_same_mapping_same_entries(b, a, i);
                let j = choose|j: int| 0 <= j < a.len() && a[j] == b[i];
                assert(entry_of(a[j]) == Ok::<CatalogEntryView, Seq<char>>(e));
            }
        }
        lemma_ascending_by_key_unique(s, t);
    }
}

/// What makes a raw catalog compile holds of every raw catalog that is
/// the same mapping.
pub proof fn lemma_readable_needs_no_order(a: Seq<RawEntryView>, b: Seq<RawEntryView>)
    requires
        distinct_keys(a),
        distinct_keys(b),
        as_map(a) == as_map(b),
        all_readable(a),
        distinct_identifiers(a),
    ensures
        all_readable(b),
        distinct_identifiers(b),
{
    assert forall|i: int| 0 <= i < b.len() implies entry_of(#[trigger] b[i]) is Ok by {
        lemma_same_mapping_same_entries(b, a, i);
        let p = choose|p: int| 0 <= p < a.len() && a[p] == b[i];
        assert(entry_of(a[p]) is Ok);
    }
    assert forall|i: int, j: int| 0 <= i < j < b.len() implies normalized(
        (#[trigger] b[i]).key,
    ) != normalized((#[trigger] b[j]).key) by {
        lemma_same_mapping_same_entries(b, a, i);
        lemma_same_mapping_same_entries(b, a, j);
        let p = choose|p: int| 0 <= p < a.len() && a[p] == b[i];
        let q = choose|q: int| 0 <= q < a.len() && a[q] == b[j];
        assert(b[i].key != b[j].key);
        if p < q {
            assert(normalized(a[p].key) != normalized(a[q].key));
        } else if q < p {
            assert(normalized(a[q].key) != normalized(a[p].key));
        }
    }
}

/// The generated code depends on the mapping from key to translation
/// list alone: whatever the order in which the keys of the raw catalog
/// stand, the code is the same, character for character.
pub proof fn lemma_code_needs_no_order(
    a: Seq<RawEntryView>,
    b: Seq<RawEntryView>,
    with_codec: bool,
)
    requires
        distinct_keys(a),
        distinct_keys(b),
        as_map(a) == as_map(b),
        compiled(a) is Ok,
    ensures
        compiled(b) is Ok,
        formatted(compiled(a)->Ok_0, with_codec) == formatted(compiled(b)->Ok_0, with_codec),
{
    lemma_compiled_needs_no_order(a, b);
}

} // verus!
