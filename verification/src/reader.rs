//! The catalog reader: from source text to the raw catalog.

use crate::pattern::regex_captures;
use crate::pattern::Found;
use crate::pattern::Grammar;
use crate::pattern::KEY_VALUE_PATTERN;
use crate::pattern::SECTION_PATTERN;
use crate::text::lines_of;
use crate::text::split_lines;
use crate::text::text_eq;
use vstd::prelude::*;

verus! {

/// One section of a catalog: its key and, in source order, the pairs of
/// locale tag and raw text listed under it.
#[derive(Debug)]
pub struct RawEntry {
    pub key: String,
    pub translations: Vec<(String, String)>,
}

/// The mathematical content of a [`RawEntry`].
pub struct RawEntryView {
    pub key: Seq<char>,
    pub translations: Seq<(Seq<char>, Seq<char>)>,
}

impl DeepView for RawEntry {
    type V = RawEntryView;

    open spec fn deep_view(&self) -> RawEntryView {
        RawEntryView { key: self.key@, translations: self.translations.deep_view() }
    }
}

/// The index of the first entry under `key`, or the number of entries when
/// there is none.
pub open spec fn key_index(entries: Seq<RawEntryView>, key: Seq<char>) -> nat
    decreases entries.len(),
{
    if entries.len() == 0 || entries[0].key == key {
        0
    } else {
        1 + key_index(entries.drop_first(), key)
    }
}

/// No two entries share a key.
pub open spec fn distinct_keys(entries: Seq<RawEntryView>) -> bool {
    forall|i: int, j: int| 0 <= i < j < entries.len() ==> entries[i].key != entries[j].key
}

/// Whether some entry stands under `key`.
pub open spec fn has_key(entries: Seq<RawEntryView>, key: Seq<char>) -> bool {
    exists|i: int| 0 <= i < entries.len() && #[trigger] entries[i].key == key
}

/// The entries as a mapping from key to translation list.
pub open spec fn as_map(entries: Seq<RawEntryView>) -> Map<Seq<char>, Seq<(Seq<char>, Seq<char>)>> {
    Map::new(
        |key: Seq<char>| has_key(entries, key),
        |key: Seq<char>| entries[key_index(entries, key) as int].translations,
    )
}

/// `key_index` finds the first entry under the key when there is one.
pub proof fn lemma_key_index(entries: Seq<RawEntryView>, key: Seq<char>)
    ensures
        key_index(entries, key) <= entries.len(),
        key_index(entries, key) < entries.len() ==> entries[key_index(entries, key) as int].key
            == key,
        forall|j: int| 0 <= j < key_index(entries, key) ==> entries[j].key != key,
        key_index(entries, key) < entries.len() <==> has_key(entries, key),
    decreases entries.len(),
{
    if entries.len() == 0 || entries[0].key == key {
    } else {
        let rest = entries.drop_first();
        lemma_key_index(rest, key);
        assert forall|j: int| 0 <= j < key_index(entries, key) implies entries[j].key != key by {
            if j > 0 {
                assert(rest[j - 1].key != key);
            }
        }
        if has_key(entries, key) {
            let i = choose|i: int| 0 <= i < entries.len() && #[trigger] entries[i].key == key;
            assert(rest[i - 1].key == key);
        }
        if key_index(rest, key) < rest.len() {
            assert(entries[key_index(rest, key) as int + 1].key == key);
        }
    }
}

/// The name in the groups of a section header: the first group behind
/// the whole match.
pub open spec fn section_named(found: Found) -> Option<Seq<char>> {
    match found {
        Some(groups) => if groups.len() > 1 {
            groups[1]
        } else {
            None
        },
        None => None,
    }
}

/// The locale tag and the raw text in the groups of a key-value line: the
/// first and the second group behind the whole match.
pub open spec fn pair_held(found: Found) -> Option<(Seq<char>, Seq<char>)> {
    match found {
        Some(groups) => if groups.len() > 2 && groups[1] is Some && groups[2] is Some {
            Some((groups[1]->0, groups[2]->0))
        } else {
            None
        },
        None => None,
    }
}

/// The section header that `line` starts with names this section.
pub open spec fn section_name(line: Seq<char>) -> Option<Seq<char>> {
    section_named(regex_captures(SECTION_PATTERN@, line))
}

/// The locale tag and the raw text of the key-value pair that `line` holds.
pub open spec fn key_value(line: Seq<char>) -> Option<(Seq<char>, Seq<char>)> {
    pair_held(regex_captures(KEY_VALUE_PATTERN@, line))
}

/// The reader between two lines: the entries so far and the open section.
pub struct Reading {
    pub entries: Seq<RawEntryView>,
    pub section: Option<int>,
}

/// Before the first line: no entry, no open section.
pub open spec fn reading_start() -> Reading {
    Reading { entries: Seq::empty(), section: None }
}

/// A header opens the section of that name: the existing one, or a new and
/// empty one after all others.
pub open spec fn open_section(r: Reading, name: Seq<char>) -> Reading {
    let i = key_index(r.entries, name);
    if i < r.entries.len() {
        Reading { entries: r.entries, section: Some(i as int) }
    } else {
        Reading {
            entries: r.entries.push(RawEntryView { key: name, translations: Seq::empty() }),
            section: Some(r.entries.len() as int),
        }
    }
}

/// `entry` with one more pair at the end of its list.
pub open spec fn with_pair(entry: RawEntryView, pair: (Seq<char>, Seq<char>)) -> RawEntryView {
    RawEntryView { key: entry.key, translations: entry.translations.push(pair) }
}

/// What a header and a pair do to the reader: the header opens its
/// section, then the pair goes to the open section. `None` when there is a
/// pair and no section is open.
pub open spec fn fed(r: Reading, header: Option<Seq<char>>, pair: Option<(Seq<char>, Seq<char>)>)
    -> Option<Reading> {
    let opened = match header {
        Some(name) => open_section(r, name),
        None => r,
    };
    match pair {
        Some(pair) => match opened.section {
            Some(i) => Some(
                Reading {
                    entries: opened.entries.update(i, with_pair(opened.entries[i], pair)),
                    section: opened.section,
                },
            ),
            None => None,
        },
        None => Some(opened),
    }
}

/// What one line does to the reader: the line is fed with the header that
/// it starts with and the pair that it holds. A line may have both, or
/// neither.
pub open spec fn read_line(r: Reading, line: Seq<char>) -> Option<Reading> {
    fed(r, section_name(line), key_value(line))
}

/// The reader after the first `n` lines, or the number, from 1, of the
/// first line that holds a pair outside any section.
pub open spec fn read_lines(lines: Seq<Seq<char>>, n: nat) -> Result<Reading, nat>
    decreases n,
{
    if n == 0 {
        Ok(reading_start())
    } else {
        match read_lines(lines, (n - 1) as nat) {
            Ok(r) => match read_line(r, lines[n - 1]) {
                Some(next) => Ok(next),
                None => Err(n),
            },
            Err(line) => Err(line),
        }
    }
}

/// The entries that `text` defines, or the number of its first offending
/// line.
pub open spec fn read_text(text: Seq<char>) -> Result<Seq<RawEntryView>, nat> {
    let lines = lines_of(text);
    match read_lines(lines, lines.len()) {
        Ok(r) => Ok(r.entries),
        Err(line) => Err(line),
    }
}

/// The reader keeps the keys apart and the open section among the entries.
pub open spec fn reading_wf(r: Reading) -> bool {
    &&& distinct_keys(r.entries)
    &&& r.section matches Some(i) ==> 0 <= i < r.entries.len()
}

/// Feeding keeps the reader well formed.
pub proof fn lemma_fed_wf(r: Reading, header: Option<Seq<char>>, pair: Option<(Seq<char>, Seq<char>)>)
    requires
        reading_wf(r),
    ensures
        fed(r, header, pair) matches Some(next) ==> reading_wf(next),
{
    if let Some(name) = header {
        lemma_key_index(r.entries, name);
    }
}

/// Reading keeps the reader well formed.
pub proof fn lemma_read_lines_wf(lines: Seq<Seq<char>>, n: nat)
    ensures
        read_lines(lines, n) matches Ok(r) ==> reading_wf(r),
    decreases n,
{
    if n > 0 {
        lemma_read_lines_wf(lines, (n - 1) as nat);
        if let Ok(r) = read_lines(lines, (n - 1) as nat) {
            lemma_fed_wf(r, section_name(lines[n - 1]), key_value(lines[n - 1]));
        }
    }
}

/// Once a line has failed, the lines after it change nothing.
pub proof fn lemma_read_lines_stay_failed(lines: Seq<Seq<char>>, n: nat, m: nat)
    requires
        n <= m,
        read_lines(lines, n) is Err,
    ensures
        read_lines(lines, m) == read_lines(lines, n),
    decreases m,
{
    if n < m {
        lemma_read_lines_stay_failed(lines, n, (m - 1) as nat);
    }
}

/// `entries` with `entry` put under its key: in the place of the entry
/// that had the key, or after all others.
pub open spec fn upsert(entries: Seq<RawEntryView>, entry: RawEntryView) -> Seq<RawEntryView> {
    let i = key_index(entries, entry.key);
    if i < entries.len() {
        entries.update(i as int, entry)
    } else {
        entries.push(entry)
    }
}

/// `base` after the entries of `other` were put into it one by one.
pub open spec fn merged(base: Seq<RawEntryView>, other: Seq<RawEntryView>) -> Seq<RawEntryView>
    decreases other.len(),
{
    if other.len() == 0 {
        base
    } else {
        upsert(merged(base, other.drop_last()), other.last())
    }
}

/// Putting an entry in keeps the keys apart, and changes the mapping at
/// that entry's key alone.
pub proof fn lemma_upsert(entries: Seq<RawEntryView>, entry: RawEntryView)
    requires
        distinct_keys(entries),
    ensures
        distinct_keys(upsert(entries, entry)),
        as_map(upsert(entries, entry)) == as_map(entries).insert(entry.key, entry.translations),
{
    let after = upsert(entries, entry);
    let i = key_index(entries, entry.key);
    lemma_key_index(entries, entry.key);
    assert forall|key: Seq<char>| has_key(after, key) == (has_key(entries, key) || key
        == entry.key) by {
        if has_key(after, key) {
            let j = choose|j: int| 0 <= j < after.len() && #[trigger] after[j].key == key;
            if j != i {
                assert(entries[j].key == key);
            }
        }
        if has_key(entries, key) {
            let j = choose|j: int| 0 <= j < entries.len() && #[trigger] entries[j].key == key;
            assert(after[j].key == key);
        }
        if key == entry.key {
            assert(after[i as int].key == key);
        }
    }
    assert forall|key: Seq<char>| has_key(after, key) implies #[trigger] as_map(after)[key]
        == as_map(entries).insert(entry.key, entry.translations)[key] by {
        lemma_key_index(after, key);
        lemma_key_index(entries, key);
        let j = key_index(after, key) as int;
        if key == entry.key {
            assert(after[i as int].key == key);
            assert(j == i);
        } else {
            assert(after[j].key == key);
            assert(entries[j].key == key);
            let k = key_index(entries, key) as int;
            assert(after[k].key == key);
            assert(j == k);
        }
    }
    assert(as_map(after) =~= as_map(entries).insert(entry.key, entry.translations));
}

/// Whole-key override: after a merge every key of the later catalog has
/// the later catalog's list, and every other key keeps what it had.
pub proof fn lemma_merge_overrides(base: Seq<RawEntryView>, other: Seq<RawEntryView>)
    requires
        distinct_keys(base),
        distinct_keys(other),
    ensures
        distinct_keys(merged(base, other)),
        as_map(merged(base, other)) == as_map(base).union_prefer_right(as_map(other)),
    decreases other.len(),
{
    if other.len() == 0 {
        assert(as_map(other) =~= Map::empty());
        assert(as_map(base).union_prefer_right(as_map(other)) =~= as_map(base));
    } else {
        let init = other.drop_last();
        let last = other.last();
        lemma_merge_overrides(base, init);
        lemma_upsert(merged(base, init), last);
        assert forall|key: Seq<char>| has_key(init, key) implies key != last.key by {
            let j = choose|j: int| 0 <= j < init.len() && #[trigger] init[j].key == key;
            assert(other[j].key == key);
        }
        lemma_key_index(init, last.key);
        assert(upsert(init, last) =~= other);
        lemma_upsert(init, last);
        assert(as_map(base).union_prefer_right(as_map(init)).insert(last.key, last.translations)
            =~= as_map(base).union_prefer_right(as_map(init).insert(last.key, last.translations)));
    }
}

/// The name in the groups of a section header, if there is one.
pub fn section_name_in(found: &Option<Vec<Option<String>>>) -> (r: Option<String>)
    ensures
        r.deep_view() == section_named(found.deep_view()),
{
    match found {
        Some(groups) => {
            proof {
                assert(groups.deep_view().len() == groups.len());
            }
            if groups.len() > 1 {
                match &groups[1] {
                    Some(name) => {
                        assert(groups.deep_view()[1] == Some(name@));
                        Some(name.clone())
                    },
                    None => {
                        assert(groups.deep_view()[1] is None);
                        None
                    },
                }
            } else {
                None
            }
        },
        None => None,
    }
}

/// The locale tag and the raw text in the groups of a key-value line, if
/// both are there.
pub fn key_value_in(found: &Option<Vec<Option<String>>>) -> (r: Option<(String, String)>)
    ensures
        r.deep_view() == pair_held(found.deep_view()),
{
    match found {
        Some(groups) => {
            proof {
                assert(groups.deep_view().len() == groups.len());
            }
            if groups.len() > 2 {
                match (&groups[1], &groups[2]) {
                    (Some(tag), Some(value)) => {
                        assert(groups.deep_view()[1] == Some(tag@));
                        assert(groups.deep_view()[2] == Some(value@));
                        Some((tag.clone(), value.clone()))
                    },
                    _ => {
                        assert(groups.deep_view()[1] is None || groups.deep_view()[2] is None);
                        None
                    },
                }
            } else {
                None
            }
        },
        None => None,
    }
}

/// The reader at work: it is fed line by line and gives the raw catalog
/// in the end.
#[derive(Debug)]
pub struct CatalogReader {
    entries: Vec<RawEntry>,
    section: Option<usize>,
}

impl View for CatalogReader {
    type V = Reading;

    closed spec fn view(&self) -> Reading {
        Reading {
            entries: self.entries.deep_view(),
            section: match self.section {
                Some(i) => Some(i as int),
                None => None,
            },
        }
    }
}

impl CatalogReader {
    /// No key stands twice, and the open section is one of the entries.
    pub open spec fn wf(&self) -> bool {
        reading_wf(self@)
    }

    /// The reader before the first line.
    pub fn new() -> (r: CatalogReader)
        ensures
            r@ == reading_start(),
            r.wf(),
    {
        let r = CatalogReader { entries: Vec::new(), section: None };
        assert(r@.entries =~= Seq::<RawEntryView>::empty());
        r
    }

    /// Feeds one line to the reader, given the header that the line starts
    /// with and the pair that it holds. Returns `false`, and changes
    /// nothing, when there is a pair and no section is open.
    pub fn feed(&mut self, header: Option<String>, pair: Option<(String, String)>) -> (ok: bool)
        requires
            old(self).wf(),
        ensures
            match fed(old(self)@, header.deep_view(), pair.deep_view()) {
                Some(next) => ok && final(self)@ == next,
                None => !ok && final(self)@ == old(self)@,
            },
            final(self).wf(),
    {
        let ghost before = self@;
        proof {
            lemma_fed_wf(before, header.deep_view(), pair.deep_view());
        }
        if header.is_none() && pair.is_some() && self.section.is_none() {
            return false;
        }
        match header {
            Some(name) => {
                let i = find_key(&self.entries, name.as_str());
                proof {
                    lemma_key_index(before.entries, name@);
                }
                if i >= self.entries.len() {
                    self.entries.push(RawEntry { key: name, translations: Vec::new() });
                    proof {
                        let fresh = RawEntryView { key: name@, translations: Seq::empty() };
                        assert(self.entries@.last().translations.deep_view() =~= Seq::<
                            (Seq<char>, Seq<char>),
                        >::empty());
                        assert(self.entries.deep_view() =~= before.entries.push(fresh));
                    }
                }
                self.section = Some(i);
            },
            None => {},
        }
        let ghost opened = self@;
        proof {
            assert(opened == match header.deep_view() {
                Some(name) => open_section(before, name),
                None => before,
            });
        }
        match pair {
            Some(pair) => {
                match self.section {
                    Some(i) => {
                        let ghost old_list = self.entries@[i as int].translations.deep_view();
                        let ghost added = pair.deep_view();
                        self.entries[i].translations.push(pair);
                        proof {
                            assert(self.entries@[i as int].translations.deep_view()
                                =~= old_list.push(added));
                            assert(self.entries.deep_view() =~= opened.entries.update(
                                i as int,
                                with_pair(opened.entries[i as int], added),
                            ));
                        }
                    },
                    None => {},
                }
            },
            None => {},
        }
        true
    }

    /// The raw catalog of the lines fed so far.
    pub fn finish(self) -> (r: RawCatalog)
        requires
            self.wf(),
        ensures
            r@ == self@.entries,
            r.wf(),
    {
        RawCatalog { entries: self.entries }
    }
}

/// A raw catalog: the sections of one or more sources, each key once.
#[derive(Debug)]
pub struct RawCatalog {
    entries: Vec<RawEntry>,
}

impl View for RawCatalog {
    type V = Seq<RawEntryView>;

    closed spec fn view(&self) -> Seq<RawEntryView> {
        self.entries.deep_view()
    }
}

/// The index in `entries` of the first entry under `key`, or their number.
fn find_key(entries: &Vec<RawEntry>, key: &str) -> (i: usize)
    ensures
        i == key_index(entries.deep_view(), key@),
{
    let ghost all = entries.deep_view();
    let mut i: usize = 0;
    proof {
        assert(all.skip(0) =~= all);
    }
    while i < entries.len()
        invariant
            i <= entries.len(),
            all == entries.deep_view(),
            key_index(all, key@) == i + key_index(all.skip(i as int), key@),
        decreases entries.len() - i,
    {
        if text_eq(entries[i].key.as_str(), key) {
            return i;
        }
        proof {
            assert(all.skip(i as int).drop_first() =~= all.skip(i + 1));
        }
        i += 1;
    }
    i
}

impl RawCatalog {
    /// No key stands twice.
    pub open spec fn wf(&self) -> bool {
        distinct_keys(self@)
    }

    /// The catalog without any section.
    pub fn new() -> (r: RawCatalog)
        ensures
            r@ == Seq::<RawEntryView>::empty(),
            r.wf(),
    {
        let r = RawCatalog { entries: Vec::new() };
        assert(r@ =~= Seq::<RawEntryView>::empty());
        r
    }

    /// Reads one source: the entries it defines, or the number, from 1, of
    /// its first line that holds a key-value pair outside any section.
    pub fn read(grammar: &Grammar, text: &str) -> (r: Result<RawCatalog, usize>)
        ensures
            match r {
                Ok(catalog) => read_text(text@) == Ok::<Seq<RawEntryView>, nat>(catalog@)
                    && catalog.wf(),
                Err(line) => read_text(text@) == Err::<Seq<RawEntryView>, nat>(line as nat),
            },
    {
        let lines = split_lines(text);
        let ghost all = lines.deep_view();
        let mut reader = CatalogReader::new();
        let mut n: usize = 0;
        while n < lines.len()
            invariant
                n <= lines.len(),
                all == lines.deep_view(),
                all == lines_of(text@),
                reader.wf(),
                read_lines(all, n as nat) == Ok::<Reading, nat>(reader@),
            decreases lines.len() - n,
        {
            let line = lines[n].as_str();
            proof {
                assert(line@ == all[n as int]);
            }
            let header = section_name_in(&grammar.section_groups(line));
            let pair = key_value_in(&grammar.key_value_groups(line));
            if !reader.feed(header, pair) {
                proof {
                    assert(read_lines(all, (n + 1) as nat) == Err::<Reading, nat>((n + 1) as nat));
                    lemma_read_lines_stay_failed(all, (n + 1) as nat, all.len());
                }
                return Err(n + 1);
            }
            n += 1;
        }
        Ok(reader.finish())
    }

    /// Puts every section of `other` into this catalog: under a key that
    /// both have, the list of `other` replaces the one that was here.
    pub fn merge(&mut self, other: RawCatalog)
        requires
            old(self).wf(),
        ensures
            final(self)@ == merged(old(self)@, other@),
            final(self).wf(),
    {
        let ghost start = self@;
        let ghost incoming = other@;
        let ghost source = other.entries@;
        proof {
            assert(incoming =~= source.map_values(|e: RawEntry| e.deep_view()));
            assert(incoming.take(0) =~= Seq::<RawEntryView>::empty());
        }
        for entry in it: other.entries
            invariant
                it.seq() == source,
                incoming == source.map_values(|e: RawEntry| e.deep_view()),
                distinct_keys(self@),
                self@ == merged(start, incoming.take(it.index() as int)),
        {
            let ghost k = it.index() as int;
            let i = find_key(&self.entries, entry.key.as_str());
            proof {
                lemma_upsert(self@, entry.deep_view());
                assert(incoming[k] == entry.deep_view());
                assert(incoming.take(k + 1).drop_last() =~= incoming.take(k));
                assert(incoming.take(k + 1).last() == entry.deep_view());
            }
            let ghost before = self@;
            if i < self.entries.len() {
                self.entries.set(i, entry);
                proof {
                    assert(self@ =~= before.update(i as int, entry.deep_view()));
                }
            } else {
                self.entries.push(entry);
                proof {
                    assert(self@ =~= before.push(entry.deep_view()));
                }
            }
        }
        proof {
            assert(incoming.take(incoming.len() as int) =~= incoming);
        }
    }

    /// The sections, in the order in which they were first opened.
    pub fn entries(&self) -> (r: &Vec<RawEntry>)
        ensures
            r.deep_view() == self@,
    {
        &self.entries
    }

    /// The number of sections.
    pub fn len(&self) -> (n: usize)
        ensures
            n == self@.len(),
    {
        self.entries.len()
    }

    /// The translation list under `key`, if the catalog has that key.
    pub fn get(&self, key: &str) -> (r: Option<&Vec<(String, String)>>)
        ensures
            r is Some <==> has_key(self@, key@),
            r matches Some(list) ==> list.deep_view() == as_map(self@)[key@],
    {
        let i = find_key(&self.entries, key);
        proof {
            lemma_key_index(self@, key@);
        }
        if i < self.entries.len() {
            Some(&self.entries[i].translations)
        } else {
            None
        }
    }
}

} // verus!
