//! The compiled catalog: every key normalised, every locale tag and every
//! translation read, the entries in the order of their keys.

use crate::casing::heck_snake_case;
use crate::casing::snake_case;
use crate::error::TwineError;
use crate::error::TwineErrorView;
use crate::locale::locale_of;
use crate::locale::tag_order;
use crate::locale::LocaleSet;
use crate::locale::LocaleTag;
use crate::locale::LocaleTagView;
use crate::order::ascending;
use crate::order::lemma_rank;
use crate::order::lemma_rank_ascending;
use crate::order::lemma_set_inserted;
use crate::order::rank;
use crate::order::set_inserted;
use crate::pattern::Grammar;
use crate::reader::RawCatalog;
use crate::reader::RawEntryView;
use crate::template::template_of;
use crate::template::FormatTemplate;
use crate::template::SegmentView;
use crate::text::lemma_text_order_strict;
use crate::text::lemma_undotted_has_no_dot;
use crate::text::replace_dots;
use crate::text::text_eq;
use crate::text::text_less;
use crate::text::text_order;
use crate::text::undotted;
use vstd::prelude::*;

verus! {

/// The identifier that a catalog key is known by in the generated code:
/// the key in snake case, with every dot that is left replaced by a double
/// underscore.
pub open spec fn normalized(key: Seq<char>) -> Seq<char> {
    undotted(heck_snake_case(key))
}

/// Turns a catalog key into its identifier.
pub fn normalize(key: &str) -> (id: String)
    ensures
        id@ == normalized(key@),
        !id@.contains('.'),
{
    let snake = snake_case(key);
    proof {
        lemma_undotted_has_no_dot(snake@);
    }
    replace_dots(snake.as_str())
}

/// One translation of a key: the locale it is for and its text, cut into
/// segments.
#[derive(Debug)]
pub struct Translation {
    pub locale: LocaleTag,
    pub template: FormatTemplate,
}

/// The mathematical content of a [`Translation`].
pub struct TranslationView {
    pub locale: LocaleTagView,
    pub template: Seq<SegmentView>,
}

impl DeepView for Translation {
    type V = TranslationView;

    open spec fn deep_view(&self) -> TranslationView {
        TranslationView { locale: self.locale.deep_view(), template: self.template.deep_view() }
    }
}

/// One key of the compiled catalog with its translations in source order.
#[derive(Debug)]
pub struct CatalogEntry {
    pub key: String,
    pub translations: Vec<Translation>,
}

/// The mathematical content of a [`CatalogEntry`].
pub struct CatalogEntryView {
    pub key: Seq<char>,
    pub translations: Seq<TranslationView>,
}

impl DeepView for CatalogEntry {
    type V = CatalogEntryView;

    open spec fn deep_view(&self) -> CatalogEntryView {
        CatalogEntryView { key: self.key@, translations: self.translations.deep_view() }
    }
}

/// The translations that a list of pairs of tag string and raw text
/// stands for, or the first tag string that is no locale tag.
pub open spec fn translations_of(pairs: Seq<(Seq<char>, Seq<char>)>) -> Result<
    Seq<TranslationView>,
    Seq<char>,
>
    decreases pairs.len(),
{
    if pairs.len() == 0 {
        Ok(Seq::empty())
    } else {
        match translations_of(pairs.drop_last()) {
            Ok(before) => match locale_of(pairs.last().0) {
                Some(locale) => Ok(
                    before.push(
                        TranslationView { locale, template: template_of(pairs.last().1) },
                    ),
                ),
                None => Err(pairs.last().0),
            },
            Err(tag) => Err(tag),
        }
    }
}

/// The compiled form of a raw entry, or its first malformed tag string.
pub open spec fn entry_of(raw: RawEntryView) -> Result<CatalogEntryView, Seq<char>> {
    match translations_of(raw.translations) {
        Ok(translations) => Ok(CatalogEntryView { key: normalized(raw.key), translations }),
        Err(tag) => Err(tag),
    }
}

/// The keys of the entries, in the entries' order.
pub open spec fn keys_of(entries: Seq<CatalogEntryView>) -> Seq<Seq<char>> {
    entries.map_values(|e: CatalogEntryView| e.key)
}

/// `entries` with `entry` in the place that its key gives it, or a key
/// collision when an entry with that key is there already.
pub open spec fn with_entry(entries: Seq<CatalogEntryView>, entry: CatalogEntryView) -> Result<
    Seq<CatalogEntryView>,
    TwineErrorView,
> {
    let i = rank(keys_of(entries), entry.key, text_order()) as int;
    if i > 0 && entries[i - 1].key == entry.key {
        Err(TwineErrorView::KeyCollision { key: entry.key })
    } else {
        Ok(entries.insert(i, entry))
    }
}

/// The compiled forms of the raw entries, in the raw entries' order, or
/// the first tag string that is no locale tag.
pub open spec fn entries_of(raw: Seq<RawEntryView>) -> Result<Seq<CatalogEntryView>, Seq<char>>
    decreases raw.len(),
{
    if raw.len() == 0 {
        Ok(Seq::empty())
    } else {
        match entries_of(raw.drop_last()) {
            Ok(before) => match entry_of(raw.last()) {
                Ok(entry) => Ok(before.push(entry)),
                Err(tag) => Err(tag),
            },
            Err(tag) => Err(tag),
        }
    }
}

/// The entries put in the order of their keys, one by one, or a key
/// collision at the first entry whose key an earlier entry has.
pub open spec fn arranged(entries: Seq<CatalogEntryView>) -> Result<
    Seq<CatalogEntryView>,
    TwineErrorView,
>
    decreases entries.len(),
{
    if entries.len() == 0 {
        Ok(Seq::empty())
    } else {
        match arranged(entries.drop_last()) {
            Ok(sorted) => with_entry(sorted, entries.last()),
            Err(e) => Err(e),
        }
    }
}

/// The compiled catalog of a raw catalog: its entries are compiled, then
/// put in the order of their keys. A malformed locale tag ends the work,
/// and so does, where every tag is well formed, an identifier that two
/// keys give.
pub open spec fn compiled(raw: Seq<RawEntryView>) -> Result<Seq<CatalogEntryView>, TwineErrorView> {
    match entries_of(raw) {
        Ok(entries) => arranged(entries),
        Err(tag) => Err(TwineErrorView::MalformedLocaleTag { tag }),
    }
}

/// The tags of `translations` added to the ascending sequence `start`.
pub open spec fn with_locales(start: Seq<LocaleTagView>, translations: Seq<TranslationView>) -> Seq<
    LocaleTagView,
>
    decreases translations.len(),
{
    if translations.len() == 0 {
        start
    } else {
        set_inserted(
            with_locales(start, translations.drop_last()),
            translations.last().locale,
            tag_order(),
        )
    }
}

/// Every locale tag of the catalog, each once, in ascending order.
pub open spec fn locales_of(entries: Seq<CatalogEntryView>) -> Seq<LocaleTagView>
    decreases entries.len(),
{
    if entries.len() == 0 {
        Seq::empty()
    } else {
        with_locales(locales_of(entries.drop_last()), entries.last().translations)
    }
}

/// Whether some translation of some entry is for `tag`.
pub open spec fn has_locale(entries: Seq<CatalogEntryView>, tag: LocaleTagView) -> bool {
    exists|i: int, j: int|
        0 <= i < entries.len() && 0 <= j < entries[i].translations.len()
            && #[trigger] entries[i].translations[j].locale == tag
}

/// Whether one of `translations` is for `tag`.
pub open spec fn lists_locale(translations: Seq<TranslationView>, tag: LocaleTagView) -> bool {
    exists|j: int| 0 <= j < translations.len() && (#[trigger] translations[j]).locale == tag
}

/// Adding the tags of translations keeps the sequence ascending and adds
/// those tags and nothing else.
pub proof fn lemma_with_locales(start: Seq<LocaleTagView>, translations: Seq<TranslationView>)
    requires
        ascending(start, tag_order()),
    ensures
        ascending(with_locales(start, translations), tag_order()),
        forall|t: LocaleTagView|
            #[trigger] with_locales(start, translations).contains(t) <==> start.contains(t)
                || lists_locale(translations, t),
    decreases translations.len(),
{
    if translations.len() > 0 {
        let init = translations.drop_last();
        let last = translations.last();
        let before = with_locales(start, init);
        let after = with_locales(start, translations);
        lemma_with_locales(start, init);
        crate::locale::lemma_tag_order_strict();
        lemma_set_inserted(before, last.locale, tag_order());
        assert forall|t: LocaleTagView| #[trigger] after.contains(t) <==> start.contains(t)
            || lists_locale(translations, t) by {
            assert(after.to_set().contains(t) == before.to_set().insert(last.locale).contains(t));
            assert(after.contains(t) <==> before.contains(t) || t == last.locale);
            assert(before.contains(t) <==> start.contains(t) || lists_locale(init, t));
            if lists_locale(init, t) {
                let j = choose|j: int| 0 <= j < init.len() && (#[trigger] init[j]).locale == t;
                assert(translations[j].locale == t);
            }
            if t == last.locale {
                assert(translations[translations.len() - 1].locale == t);
            }
            if lists_locale(translations, t) {
                let j = choose|j: int|
                    0 <= j < translations.len() && (#[trigger] translations[j]).locale == t;
                if j < init.len() {
                    assert(init[j].locale == t);
                }
            }
        }
    }
}

/// The locales of a catalog ascend, and they are the tags of its
/// translations: every one of them and nothing else.
pub proof fn lemma_locales_are_the_tags(entries: Seq<CatalogEntryView>)
    ensures
        ascending(locales_of(entries), tag_order()),
        forall|t: LocaleTagView|
            #[trigger] locales_of(entries).contains(t) <==> has_locale(entries, t),
    decreases entries.len(),
{
    if entries.len() > 0 {
        let init = entries.drop_last();
        let last = entries.last();
        lemma_locales_are_the_tags(init);
        lemma_with_locales(locales_of(init), last.translations);
        assert forall|t: LocaleTagView| #[trigger] locales_of(entries).contains(t) <==> has_locale(
            entries,
            t,
        ) by {
            assert(locales_of(entries).contains(t) <==> locales_of(init).contains(t)
                || lists_locale(last.translations, t));
            assert(locales_of(init).contains(t) <==> has_locale(init, t));
            if has_locale(init, t) {
                let (i, j) = choose|i: int, j: int|
                    0 <= i < init.len() && 0 <= j < init[i].translations.len()
                        && #[trigger] init[i].translations[j].locale == t;
                assert(entries[i].translations[j].locale == t);
            }
            if lists_locale(last.translations, t) {
                let j = choose|j: int|
                    0 <= j < last.translations.len() && (#[trigger] last.translations[j]).locale
                        == t;
                assert(entries[entries.len() - 1].translations[j].locale == t);
            }
            if has_locale(entries, t) {
                let (i, j) = choose|i: int, j: int|
                    0 <= i < entries.len() && 0 <= j < entries[i].translations.len()
                        && #[trigger] entries[i].translations[j].locale == t;
                if i < init.len() {
                    assert(init[i].translations[j].locale == t);
                } else {
                    assert(last.translations[j].locale == t);
                }
            }
        }
    }
}

/// The locales of a catalog depend on the tags of its translations alone,
/// not on the order in which its keys or translations stand.
pub proof fn lemma_locales_need_no_order(a: Seq<CatalogEntryView>, b: Seq<CatalogEntryView>)
    requires
        forall|t: LocaleTagView| has_locale(a, t) <==> has_locale(b, t),
    ensures
        locales_of(a) == locales_of(b),
{
    lemma_locales_are_the_tags(a);
    lemma_locales_are_the_tags(b);
    crate::locale::lemma_tag_order_strict();
    assert forall|t: LocaleTagView| locales_of(a).to_set().contains(t) == locales_of(
        b,
    ).to_set().contains(t) by {
        assert(locales_of(a).contains(t) <==> has_locale(a, t));
        assert(locales_of(b).contains(t) <==> has_locale(b, t));
        assert(has_locale(a, t) <==> has_locale(b, t));
    }
    assert(locales_of(a).to_set() =~= locales_of(b).to_set());
    crate::order::lemma_ascending_unique(locales_of(a), locales_of(b), tag_order());
}

/// Whether an entry has a translation for `language` without region.
pub open spec fn has_baseline(entry: CatalogEntryView, language: Seq<char>) -> bool {
    exact_index(entry.translations, LocaleTagView { language, region: None })
        < entry.translations.len()
}

/// Whether every entry has a translation without region for every
/// language of the catalog.
pub open spec fn covers_baselines(entries: Seq<CatalogEntryView>) -> bool {
    forall|i: int, k: int|
        0 <= i < entries.len() && 0 <= k < crate::locale::languages_of(
            locales_of(entries),
        ).len() ==> has_baseline(
            #[trigger] entries[i],
            #[trigger] crate::locale::languages_of(locales_of(entries))[k],
        )
}

/// The index of the first translation for exactly `locale`, or the number
/// of translations.
pub open spec fn exact_index(translations: Seq<TranslationView>, locale: LocaleTagView) -> nat
    decreases translations.len(),
{
    if translations.len() == 0 || translations[0].locale == locale {
        0
    } else {
        1 + exact_index(translations.drop_first(), locale)
    }
}

/// What a key resolves to for a locale: the first translation for that
/// language and region where the locale has a region and such a
/// translation exists; else the first translation for that language
/// without region; else the first translation listed. `None` only when
/// nothing is listed.
pub open spec fn resolved(translations: Seq<TranslationView>, locale: LocaleTagView) -> Option<
    int,
> {
    let exact = exact_index(translations, locale);
    let baseline = exact_index(
        translations,
        LocaleTagView { language: locale.language, region: None },
    );
    if exact < translations.len() {
        Some(exact as int)
    } else if baseline < translations.len() {
        Some(baseline as int)
    } else if translations.len() > 0 {
        Some(0)
    } else {
        None
    }
}

/// `exact_index` finds the first translation for the locale.
pub proof fn lemma_exact_index(translations: Seq<TranslationView>, locale: LocaleTagView)
    ensures
        exact_index(translations, locale) <= translations.len(),
        exact_index(translations, locale) < translations.len() ==> translations[exact_index(
            translations,
            locale,
        ) as int].locale == locale,
        forall|j: int|
            0 <= j < exact_index(translations, locale) ==> (#[trigger] translations[j]).locale
                != locale,
    decreases translations.len(),
{
    if translations.len() == 0 || translations[0].locale == locale {
    } else {
        let rest = translations.drop_first();
        lemma_exact_index(rest, locale);
        assert forall|j: int| 0 <= j < exact_index(translations, locale) implies (
        #[trigger] translations[j]).locale != locale by {
            if j > 0 {
                assert(rest[j - 1].locale != locale);
            }
        }
    }
}

/// The index in `entries` of the entry under `key`, if there is one.
pub open spec fn entry_index(entries: Seq<CatalogEntryView>, key: Seq<char>) -> Option<int> {
    let i = rank(keys_of(entries), key, text_order()) as int;
    if i > 0 && entries[i - 1].key == key {
        Some(i - 1)
    } else {
        None
    }
}

/// The compiled catalog.
#[derive(Debug)]
pub struct Catalog {
    entries: Vec<CatalogEntry>,
}

impl View for Catalog {
    type V = Seq<CatalogEntryView>;

    closed spec fn view(&self) -> Seq<CatalogEntryView> {
        self.entries.deep_view()
    }
}

/// The index of the first of `entries` whose key `key` comes strictly
/// before, or their number.
fn key_rank(entries: &Vec<CatalogEntry>, key: &str) -> (i: usize)
    ensures
        i == rank(keys_of(entries.deep_view()), key@, text_order()),
        i <= entries.len(),
{
    let ghost keys = keys_of(entries.deep_view());
    let mut i: usize = 0;
    proof {
        assert(keys.skip(0) =~= keys);
    }
    while i < entries.len()
        invariant
            i <= entries.len(),
            keys == keys_of(entries.deep_view()),
            rank(keys, key@, text_order()) == i + rank(keys.skip(i as int), key@, text_order()),
        decreases entries.len() - i,
    {
        proof {
            assert(keys.skip(i as int)[0] == entries@[i as int].key@);
        }
        if text_less(key, entries[i].key.as_str()) {
            return i;
        }
        proof {
            assert(keys.skip(i as int).drop_first() =~= keys.skip(i + 1));
        }
        i += 1;
    }
    i
}

/// Compiles the translations of one raw entry.
fn compile_translations(grammar: &Grammar, pairs: &Vec<(String, String)>) -> (r: Result<
    Vec<Translation>,
    TwineError,
>)
    ensures
        match r {
            Ok(list) => translations_of(pairs.deep_view()) == Ok::<
                Seq<TranslationView>,
                Seq<char>,
            >(list.deep_view()),
            Err(e) => translations_of(pairs.deep_view()) matches Err(tag) && e@ == (
            TwineErrorView::MalformedLocaleTag { tag }),
        },
{
    let ghost all = pairs.deep_view();
    let mut list: Vec<Translation> = Vec::new();
    let mut i: usize = 0;
    proof {
        assert(all.take(0) =~= Seq::<(Seq<char>, Seq<char>)>::empty());
        assert(list.deep_view() =~= Seq::<TranslationView>::empty());
    }
    while i < pairs.len()
        invariant
            i <= pairs.len(),
            all == pairs.deep_view(),
            translations_of(all.take(i as int)) == Ok::<Seq<TranslationView>, Seq<char>>(
                list.deep_view(),
            ),
        decreases pairs.len() - i,
    {
        let ghost before = list.deep_view();
        proof {
            assert(all.take(i + 1).drop_last() =~= all.take(i as int));
            assert(all.take(i + 1).last() == all[i as int]);
            assert(all[i as int] == (pairs@[i as int].0@, pairs@[i as int].1@));
        }
        let locale = match LocaleTag::parse(grammar, pairs[i].0.as_str()) {
            Ok(locale) => locale,
            Err(e) => {
                proof {
                    lemma_translations_stay_failed(all, i + 1, all.len() as int);
                    assert(all.take(all.len() as int) =~= all);
                }
                return Err(e);
            },
        };
        let template = FormatTemplate::parse(grammar, pairs[i].1.as_str());
        let translation = Translation { locale, template };
        list.push(translation);
        proof {
            assert(list.deep_view() =~= before.push(translation.deep_view()));
        }
        i += 1;
    }
    proof {
        assert(all.take(all.len() as int) =~= all);
    }
    Ok(list)
}

/// Once a tag string has failed, the pairs after it change nothing.
pub proof fn lemma_translations_stay_failed(pairs: Seq<(Seq<char>, Seq<char>)>, n: int, m: int)
    requires
        0 <= n <= m <= pairs.len(),
        translations_of(pairs.take(n)) is Err,
    ensures
        translations_of(pairs.take(m)) == translations_of(pairs.take(n)),
    decreases m,
{
    if n < m {
        lemma_translations_stay_failed(pairs, n, m - 1);
        assert(pairs.take(m).drop_last() =~= pairs.take(m - 1));
    }
}

/// Once an entry has failed, the entries after it change nothing.
pub proof fn lemma_entries_stay_failed(raw: Seq<RawEntryView>, n: int, m: int)
    requires
        0 <= n <= m <= raw.len(),
        entries_of(raw.take(n)) is Err,
    ensures
        entries_of(raw.take(m)) == entries_of(raw.take(n)),
    decreases m,
{
    if n < m {
        lemma_entries_stay_failed(raw, n, m - 1);
        assert(raw.take(m).drop_last() =~= raw.take(m - 1));
    }
}

/// Once a key has collided, the entries after it change nothing.
pub proof fn lemma_arranged_stays_failed(entries: Seq<CatalogEntryView>, n: int, m: int)
    requires
        0 <= n <= m <= entries.len(),
        arranged(entries.take(n)) is Err,
    ensures
        arranged(entries.take(m)) == arranged(entries.take(n)),
    decreases m,
{
    if n < m {
        lemma_arranged_stays_failed(entries, n, m - 1);
        assert(entries.take(m).drop_last() =~= entries.take(m - 1));
    }
}

/// Whether `entry` is the compiled form of one of the raw entries.
pub open spec fn compiled_from(raw: Seq<RawEntryView>, entry: CatalogEntryView) -> bool {
    exists|i: int| 0 <= i < raw.len() && entry_of(#[trigger] raw[i]) == Ok::<
        CatalogEntryView,
        Seq<char>,
    >(entry)
}

/// Every raw entry can be compiled.
pub open spec fn all_readable(raw: Seq<RawEntryView>) -> bool {
    forall|i: int| 0 <= i < raw.len() ==> entry_of(#[trigger] raw[i]) is Ok
}

/// No two raw entries give the same identifier.
pub open spec fn distinct_identifiers(raw: Seq<RawEntryView>) -> bool {
    forall|i: int, j: int|
        0 <= i < j < raw.len() ==> normalized((#[trigger] raw[i]).key) != normalized(
            (#[trigger] raw[j]).key,
        )
}

/// The raw entries compile one by one: all of them, or none.
pub proof fn lemma_entries_of(raw: Seq<RawEntryView>)
    ensures
        entries_of(raw) is Ok <==> all_readable(raw),
        entries_of(raw) matches Ok(entries) ==> entries.len() == raw.len() && forall|i: int|
            0 <= i < raw.len() ==> entry_of(#[trigger] raw[i]) == Ok::<
                CatalogEntryView,
                Seq<char>,
            >(entries[i]),
    decreases raw.len(),
{
    if raw.len() > 0 {
        let init = raw.drop_last();
        lemma_entries_of(init);
        if all_readable(raw) {
            assert forall|i: int| 0 <= i < init.len() implies entry_of(#[trigger] init[i])
                is Ok by {
                assert(init[i] == raw[i]);
            }
            assert(entry_of(raw[raw.len() - 1]) is Ok);
        }
        if let Ok(entries) = entries_of(raw) {
            let before = entries_of(init)->Ok_0;
            assert forall|i: int| 0 <= i < raw.len() implies entry_of(#[trigger] raw[i]) == Ok::<
                CatalogEntryView,
                Seq<char>,
            >(entries[i]) by {
                if i < init.len() {
                    assert(init[i] == raw[i]);
                    assert(entries[i] == before[i]);
                }
            }
        } else if entries_of(init) is Ok {
            assert(!(entry_of(raw[raw.len() - 1]) is Ok));
        } else {
            assert(!all_readable(init));
            if all_readable(raw) {
                assert forall|i: int| 0 <= i < init.len() implies entry_of(#[trigger] init[i])
                    is Ok by {
                    assert(init[i] == raw[i]);
                }
            }
        }
    }
}

/// Entries can be put in the order of their keys exactly when no two of
/// them have the same key; the result then ascends by key and holds the
/// same entries.
pub proof fn lemma_arranged(entries: Seq<CatalogEntryView>)
    ensures
        arranged(entries) is Ok <==> forall|i: int, j: int|
            0 <= i < j < entries.len() ==> (#[trigger] entries[i]).key != (
            #[trigger] entries[j]).key,
        arranged(entries) matches Ok(sorted) ==> ascending(keys_of(sorted), text_order())
            && forall|e: CatalogEntryView| #[trigger] sorted.contains(e) <==> entries.contains(e),
    decreases entries.len(),
{
    if entries.len() > 0 {
        let init = entries.drop_last();
        let last = entries.last();
        lemma_arranged(init);
        if let Ok(sorted) = arranged(init) {
            lemma_with_entry(sorted, last);
            let keys = keys_of(sorted);
            if keys.contains(last.key) {
                let k = choose|k: int| 0 <= k < keys.len() && keys[k] == last.key;
                assert(sorted.contains(sorted[k]));
                assert(init.contains(sorted[k]));
                let i = choose|i: int| 0 <= i < init.len() && init[i] == sorted[k];
                assert(entries[i].key == entries[entries.len() - 1].key);
            } else {
                let after = with_entry(sorted, last)->Ok_0;
                let r = rank(keys, last.key, text_order()) as int;
                lemma_rank(keys, last.key, text_order());
                assert(after == sorted.insert(r, last));
                assert forall|e: CatalogEntryView| #[trigger] after.contains(e)
                    <==> entries.contains(e) by {
                    if after.contains(e) {
                        let k = choose|k: int| 0 <= k < after.len() && after[k] == e;
                        if k < r {
                            assert(sorted[k] == e);
                            assert(sorted.contains(e));
                        } else if k > r {
                            assert(sorted[k - 1] == e);
                            assert(sorted.contains(e));
                        }
                        if sorted.contains(e) {
                            assert(init.contains(e));
                            let i = choose|i: int| 0 <= i < init.len() && init[i] == e;
                            assert(entries[i] == e);
                        } else {
                            assert(entries[entries.len() - 1] == e);
                        }
                    }
                    if entries.contains(e) {
                        let i = choose|i: int| 0 <= i < entries.len() && entries[i] == e;
                        if i < init.len() {
                            assert(init[i] == e);
                            assert(init.contains(e));
                            assert(sorted.contains(e));
                            let k = choose|k: int| 0 <= k < sorted.len() && sorted[k] == e;
                            if k < r {
                                assert(after[k] == e);
                            } else {
                                assert(after[k + 1] == e);
                            }
                        } else {
                            assert(after[r] == e);
                        }
                    }
                }
                assert forall|i: int, j: int| 0 <= i < j < entries.len() implies (
                #[trigger] entries[i]).key != (#[trigger] entries[j]).key by {
                    if j < init.len() {
                        assert(init[i] == entries[i] && init[j] == entries[j]);
                    } else {
                        assert(init[i] == entries[i]);
                        assert(init.contains(init[i]));
                        assert(sorted.contains(init[i]));
                        let k = choose|k: int| 0 <= k < sorted.len() && sorted[k] == init[i];
                        assert(keys[k] == init[i].key);
                    }
                }
            }
        } else {
            if forall|i: int, j: int|
                0 <= i < j < entries.len() ==> (#[trigger] entries[i]).key != (
                #[trigger] entries[j]).key {
                assert forall|i: int, j: int| 0 <= i < j < init.len() implies (
                #[trigger] init[i]).key != (#[trigger] init[j]).key by {
                    assert(init[i] == entries[i] && init[j] == entries[j]);
                }
            }
        }
    }
}

/// A compiled catalog has its keys in strictly ascending order.
pub proof fn lemma_compiled_ascends(raw: Seq<RawEntryView>)
    ensures
        compiled(raw) matches Ok(entries) ==> ascending(keys_of(entries), text_order()),
{
    if let Ok(entries) = entries_of(raw) {
        lemma_arranged(entries);
    }
}

/// A raw catalog compiles exactly when each of its entries can be
/// compiled and no two of them give the same identifier; the compiled
/// catalog then holds the compiled forms of the raw entries and nothing
/// else.
pub proof fn lemma_compiled_entries(raw: Seq<RawEntryView>)
    ensures
        compiled(raw) is Ok <==> all_readable(raw) && distinct_identifiers(raw),
        compiled(raw) matches Ok(entries) ==> forall|e: CatalogEntryView|
            #[trigger] entries.contains(e) <==> compiled_from(raw, e),
{
    lemma_entries_of(raw);
    if let Ok(entries) = entries_of(raw) {
        lemma_arranged(entries);
        let apart = forall|i: int, j: int|
            0 <= i < j < entries.len() ==> (#[trigger] entries[i]).key != (
            #[trigger] entries[j]).key;
        if apart {
            assert forall|i: int, j: int| 0 <= i < j < raw.len() implies normalized(
                (#[trigger] raw[i]).key,
            ) != normalized((#[trigger] raw[j]).key) by {
                assert(entry_of(raw[i]) == Ok::<CatalogEntryView, Seq<char>>(entries[i]));
                assert(entry_of(raw[j]) == Ok::<CatalogEntryView, Seq<char>>(entries[j]));
                assert(entries[i].key != entries[j].key);
            }
        }
        if distinct_identifiers(raw) {
            assert forall|i: int, j: int| 0 <= i < j < entries.len() implies (
            #[trigger] entries[i]).key != (#[trigger] entries[j]).key by {
                assert(entry_of(raw[i]) == Ok::<CatalogEntryView, Seq<char>>(entries[i]));
                assert(entry_of(raw[j]) == Ok::<CatalogEntryView, Seq<char>>(entries[j]));
                assert(normalized(raw[i].key) != normalized(raw[j].key));
            }
        }
        if let Ok(sorted) = arranged(entries) {
            assert forall|e: CatalogEntryView| #[trigger] sorted.contains(e) <==> compiled_from(
                raw,
                e,
            ) by {
                assert(sorted.contains(e) <==> entries.contains(e));
                if entries.contains(e) {
                    let i = choose|i: int| 0 <= i < entries.len() && entries[i] == e;
                    assert(entry_of(raw[i]) == Ok::<CatalogEntryView, Seq<char>>(e));
                }
                if compiled_from(raw, e) {
                    let i = choose|i: int| 0 <= i < raw.len() && entry_of(#[trigger] raw[i])
                        == Ok::<CatalogEntryView, Seq<char>>(e);
                    assert(entry_of(raw[i]) == Ok::<CatalogEntryView, Seq<char>>(entries[i]));
                    assert(entries[i] == e);
                }
            }
        }
    }
}

/// The keys of a compiled catalog are the identifiers of the raw keys: a
/// key that no source gives is not in the catalog.
pub proof fn lemma_keys_come_from_the_sources(raw: Seq<RawEntryView>, id: Seq<char>)
    requires
        compiled(raw) is Ok,
    ensures
        entry_index(compiled(raw)->Ok_0, id) is Some <==> exists|i: int|
            0 <= i < raw.len() && normalized((#[trigger] raw[i]).key) == id,
{
    let entries = compiled(raw)->Ok_0;
    let keys = keys_of(entries);
    lemma_compiled_entries(raw);
    lemma_compiled_ascends(raw);
    lemma_rank(keys, id, text_order());
    lemma_text_order_strict();
    lemma_rank_ascending(keys, id, text_order());
    let r = rank(keys, id, text_order()) as int;
    if r > 0 {
        assert(keys[r - 1] == entries[r - 1].key);
    }
    if keys.contains(id) {
        let k = choose|k: int| 0 <= k < keys.len() && keys[k] == id;
        assert(entries.contains(entries[k]));
        assert(compiled_from(raw, entries[k]));
        let i = choose|i: int| 0 <= i < raw.len() && entry_of(#[trigger] raw[i]) == Ok::<
            CatalogEntryView,
            Seq<char>,
        >(entries[k]);
        assert(normalized(raw[i].key) == id);
    }
    if exists|i: int| 0 <= i < raw.len() && normalized((#[trigger] raw[i]).key) == id {
        let i = choose|i: int| 0 <= i < raw.len() && normalized((#[trigger] raw[i]).key) == id;
        assert(entry_of(raw[i]) is Ok);
        let e = entry_of(raw[i])->Ok_0;
        assert(compiled_from(raw, e));
        assert(entries.contains(e));
        let k = choose|k: int| 0 <= k < entries.len() && entries[k] == e;
        assert(keys[k] == id);
    }
}

/// Putting an entry in keeps the keys ascending.
pub proof fn lemma_with_entry(entries: Seq<CatalogEntryView>, entry: CatalogEntryView)
    requires
        ascending(keys_of(entries), text_order()),
    ensures
        with_entry(entries, entry) matches Ok(after) ==> ascending(keys_of(after), text_order())
            && keys_of(after) == set_inserted(keys_of(entries), entry.key, text_order()),
        with_entry(entries, entry) is Err <==> keys_of(entries).contains(entry.key),
{
    let keys = keys_of(entries);
    let i = rank(keys, entry.key, text_order()) as int;
    lemma_rank(keys, entry.key, text_order());
    lemma_text_order_strict();
    lemma_rank_ascending(keys, entry.key, text_order());
    lemma_set_inserted(keys, entry.key, text_order());
    if i > 0 {
        assert(keys[i - 1] == entries[i - 1].key);
    }
    if let Ok(after) = with_entry(entries, entry) {
        assert(keys_of(after) =~= keys.insert(i, entry.key));
    }
}

impl Catalog {
    /// The keys ascend strictly, so none stands twice.
    pub open spec fn wf(&self) -> bool {
        ascending(keys_of(self@), text_order())
    }

    /// Puts compiled entries in the order of their keys.
    pub fn arrange(entries: Vec<CatalogEntry>) -> (r: Result<Catalog, TwineError>)
        ensures
            match r {
                Ok(catalog) => arranged(entries.deep_view()) == Ok::<
                    Seq<CatalogEntryView>,
                    TwineErrorView,
                >(catalog@) && catalog.wf(),
                Err(e) => arranged(entries.deep_view()) == Err::<
                    Seq<CatalogEntryView>,
                    TwineErrorView,
                >(e@),
            },
    {
        let ghost all = entries.deep_view();
        let ghost source = entries@;
        let mut sorted: Vec<CatalogEntry> = Vec::new();
        proof {
            assert(all =~= source.map_values(|e: CatalogEntry| e.deep_view()));
            assert(all.take(0) =~= Seq::<CatalogEntryView>::empty());
            assert(sorted.deep_view() =~= Seq::<CatalogEntryView>::empty());
        }
        for entry in it: entries
            invariant
                it.seq() == source,
                all == entries.deep_view(),
                all == source.map_values(|e: CatalogEntry| e.deep_view()),
                arranged(all.take(it.index() as int)) == Ok::<
                    Seq<CatalogEntryView>,
                    TwineErrorView,
                >(sorted.deep_view()),
        {
            let ghost i = it.index() as int;
            let ghost before = sorted.deep_view();
            proof {
                assert(all.take(i + 1).drop_last() =~= all.take(i));
                assert(all.take(i + 1).last() == entry.deep_view());
            }
            let at = key_rank(&sorted, entry.key.as_str());
            if at > 0 && text_eq(sorted[at - 1].key.as_str(), entry.key.as_str()) {
                proof {
                    assert(before[at - 1].key == entry.key@);
                    assert(with_entry(before, entry.deep_view()) is Err);
                    lemma_arranged_stays_failed(all, i + 1, all.len() as int);
                    assert(all.take(all.len() as int) =~= all);
                }
                return Err(TwineError::KeyCollision { key: entry.key });
            }
            proof {
                if at > 0 {
                    assert(before[at - 1].key == sorted@[at - 1].key@);
                }
            }
            sorted.insert(at, entry);
            proof {
                assert(sorted.deep_view() =~= before.insert(at as int, entry.deep_view()));
            }
        }
        proof {
            assert(all.take(all.len() as int) =~= all);
            lemma_arranged(all);
        }
        Ok(Catalog { entries: sorted })
    }

    /// Compiles a raw catalog.
    pub fn compile(grammar: &Grammar, raw: &RawCatalog) -> (r: Result<Catalog, TwineError>)
        ensures
            match r {
                Ok(catalog) => compiled(raw@) == Ok::<Seq<CatalogEntryView>, TwineErrorView>(
                    catalog@,
                ) && catalog.wf(),
                Err(e) => compiled(raw@) == Err::<Seq<CatalogEntryView>, TwineErrorView>(e@),
            },
    {
        let source = raw.entries();
        let ghost all = raw@;
        let mut entries: Vec<CatalogEntry> = Vec::new();
        let mut i: usize = 0;
        proof {
            assert(all.take(0) =~= Seq::<RawEntryView>::empty());
            assert(entries.deep_view() =~= Seq::<CatalogEntryView>::empty());
        }
        while i < source.len()
            invariant
                i <= source.len(),
                all == source.deep_view(),
                all == raw@,
                entries_of(all.take(i as int)) == Ok::<Seq<CatalogEntryView>, Seq<char>>(
                    entries.deep_view(),
                ),
            decreases source.len() - i,
        {
            let ghost before = entries.deep_view();
            proof {
                assert(all.take(i + 1).drop_last() =~= all.take(i as int));
                assert(all.take(i + 1).last() == all[i as int]);
                assert(all[i as int] == source@[i as int].deep_view());
            }
            let translations = match compile_translations(grammar, &source[i].translations) {
                Ok(list) => list,
                Err(e) => {
                    proof {
                        assert(entry_of(all[i as int]) is Err);
                        lemma_entries_stay_failed(all, i + 1, all.len() as int);
                        assert(all.take(all.len() as int) =~= all);
                    }
                    return Err(e);
                },
            };
            let entry = CatalogEntry { key: normalize(source[i].key.as_str()), translations };
            proof {
                assert(entry_of(all[i as int]) == Ok::<CatalogEntryView, Seq<char>>(
                    entry.deep_view(),
                ));
            }
            entries.push(entry);
            proof {
                assert(entries.deep_view() =~= before.push(entry.deep_view()));
            }
            i += 1;
        }
        proof {
            assert(all.take(all.len() as int) =~= all);
        }
        Self::arrange(entries)
    }

    /// The entries in the order of their keys.
    pub fn entries(&self) -> (r: &Vec<CatalogEntry>)
        ensures
            r.deep_view() == self@,
    {
        &self.entries
    }

    /// The number of keys.
    pub fn len(&self) -> (n: usize)
        ensures
            n == self@.len(),
    {
        self.entries.len()
    }

    /// Every locale tag of the catalog, each once, in ascending order.
    pub fn locales(&self) -> (r: LocaleSet)
        ensures
            r@ == locales_of(self@),
            r.wf(),
    {
        let ghost all = self@;
        let mut set = LocaleSet::new();
        let mut i: usize = 0;
        proof {
            assert(all.take(0) =~= Seq::<CatalogEntryView>::empty());
        }
        while i < self.entries.len()
            invariant
                i <= self.entries.len(),
                all == self@,
                set.wf(),
                set@ == locales_of(all.take(i as int)),
            decreases self.entries.len() - i,
        {
            let list = &self.entries[i].translations;
            let ghost items = list.deep_view();
            let ghost start = set@;
            let mut j: usize = 0;
            proof {
                assert(all.take(i + 1).drop_last() =~= all.take(i as int));
                assert(all.take(i + 1).last().translations == items);
                assert(items.take(0) =~= Seq::<TranslationView>::empty());
            }
            while j < list.len()
                invariant
                    j <= list.len(),
                    items == list.deep_view(),
                    set.wf(),
                    set@ == with_locales(start, items.take(j as int)),
                decreases list.len() - j,
            {
                proof {
                    assert(items.take(j + 1).drop_last() =~= items.take(j as int));
                    assert(items.take(j + 1).last() == items[j as int]);
                }
                set.insert(list[j].locale.duplicate());
                j += 1;
            }
            proof {
                assert(items.take(items.len() as int) =~= items);
            }
            i += 1;
        }
        proof {
            assert(all.take(all.len() as int) =~= all);
        }
        set
    }

    /// Whether every key has a translation without region for every
    /// language that the catalog knows: the baseline that translations
    /// with a region add to.
    pub fn covers_baselines(&self) -> (r: bool)
        ensures
            r == covers_baselines(self@),
    {
        let languages = self.locales().languages();
        let ghost names = languages.deep_view();
        let ghost all = self@;
        let mut i: usize = 0;
        while i < self.entries.len()
            invariant
                i <= self.entries.len(),
                all == self@,
                names == languages.deep_view(),
                names == crate::locale::languages_of(locales_of(all)),
                forall|p: int, k: int|
                    0 <= p < i && 0 <= k < names.len() ==> has_baseline(
                        #[trigger] all[p],
                        #[trigger] names[k],
                    ),
            decreases self.entries.len() - i,
        {
            let list = &self.entries[i].translations;
            let mut k: usize = 0;
            while k < languages.len()
                invariant
                    k <= languages.len(),
                    i < self.entries.len(),
                    all == self@,
                    names == languages.deep_view(),
                    names == crate::locale::languages_of(locales_of(all)),
                    list.deep_view() == all[i as int].translations,
                    forall|q: int| 0 <= q < k ==> has_baseline(all[i as int], #[trigger] names[q]),
                decreases languages.len() - k,
            {
                let plain = LocaleTag { language: languages[k].clone(), region: None };
                proof {
                    assert(names[k as int] == languages@[k as int]@);
                    assert(plain.deep_view() == LocaleTagView {
                        language: names[k as int],
                        region: None,
                    });
                }
                if find_locale(list, &plain) >= list.len() {
                    proof {
                        assert(!has_baseline(all[i as int], names[k as int]));
                    }
                    return false;
                }
                proof {
                    assert(names[k as int] == languages@[k as int]@);
                }
                k += 1;
            }
            i += 1;
        }
        true
    }

    /// The translations under the identifier `key`, if the catalog has it.
    pub fn get(&self, key: &str) -> (r: Option<&CatalogEntry>)
        requires
            self.wf(),
        ensures
            r is Some <==> keys_of(self@).contains(key@),
            r is Some <==> entry_index(self@, key@) is Some,
            r matches Some(entry) ==> entry.deep_view() == self@[entry_index(self@, key@)->0],
    {
        let at = key_rank(&self.entries, key);
        proof {
            let keys = keys_of(self@);
            lemma_rank(keys, key@, text_order());
            lemma_text_order_strict();
            lemma_rank_ascending(keys, key@, text_order());
            if at > 0 {
                assert(keys[at - 1] == self@[at - 1].key);
            }
        }
        if at > 0 && text_eq(self.entries[at - 1].key.as_str(), key) {
            Some(&self.entries[at - 1])
        } else {
            None
        }
    }

    /// Resolves the identifier `key` for `locale` to a translation: the
    /// one for that language and region, else the one for that language
    /// without region, else the first one listed under the key. Fails when
    /// the catalog has no such key or lists nothing under it.
    pub fn lookup(&self, key: &str, locale: &LocaleTag) -> (r: Result<&Translation, TwineError>)
        requires
            self.wf(),
        ensures
            match r {
                Ok(found) => entry_index(self@, key@) matches Some(i) && resolved(
                    self@[i].translations,
                    locale.deep_view(),
                ) matches Some(j) && found.deep_view() == self@[i].translations[j],
                Err(e) => e@ == (TwineErrorView::UnresolvedKey { key: key@ }) && (entry_index(
                    self@,
                    key@,
                ) matches Some(i) ==> self@[i].translations.len() == 0),
            },
    {
        let entry = match self.get(key) {
            Some(entry) => entry,
            None => {
                return Err(TwineError::UnresolvedKey { key: key.to_owned() });
            },
        };
        let list = &entry.translations;
        if list.len() == 0 {
            return Err(TwineError::UnresolvedKey { key: key.to_owned() });
        }
        let exact = find_locale(list, locale);
        if exact < list.len() {
            return Ok(&list[exact]);
        }
        let plain = LocaleTag { language: locale.language.clone(), region: None };
        let baseline = find_locale(list, &plain);
        if baseline < list.len() {
            return Ok(&list[baseline]);
        }
        Ok(&list[0])
    }
}

/// The index of the first of `translations` that is for exactly `locale`,
/// or their number.
fn find_locale(translations: &Vec<Translation>, locale: &LocaleTag) -> (i: usize)
    ensures
        i == exact_index(translations.deep_view(), locale.deep_view()),
        i <= translations.len(),
{
    let ghost all = translations.deep_view();
    let mut i: usize = 0;
    proof {
        assert(all.skip(0) =~= all);
    }
    while i < translations.len()
        invariant
            i <= translations.len(),
            all == translations.deep_view(),
            exact_index(all, locale.deep_view()) == i + exact_index(
                all.skip(i as int),
                locale.deep_view(),
            ),
        decreases translations.len() - i,
    {
        proof {
            assert(all.skip(i as int)[0] == translations@[i as int].deep_view());
        }
        if translations[i].locale.same_as(locale) {
            return i;
        }
        proof {
            assert(all.skip(i as int).drop_first() =~= all.skip(i + 1));
        }
        i += 1;
    }
    i
}

} // verus!
