//! Locale tags, their order, and the set of all tags of a catalog.

use crate::casing::camel_case;
use crate::casing::heck_camel_case;
use crate::error::TwineError;
use crate::error::TwineErrorView;
use crate::order::ascending;
use crate::order::lemma_rank;
use crate::order::lemma_set_inserted;
use crate::order::rank;
use crate::order::set_inserted;
use crate::order::strict_total;
use crate::pattern::regex_captures;
use crate::pattern::Found;
use crate::pattern::Grammar;
use crate::pattern::LOCALE_PATTERN;
use crate::text::insert_text;
use crate::text::lemma_lex_irreflexive;
use crate::text::lemma_lex_total;
use crate::text::lemma_lex_transitive;
use crate::text::lex_less;
use crate::text::text_eq;
use crate::text::text_less;
use crate::text::text_order;
use vstd::prelude::*;

verus! {

/// A language and, optionally, a region. The language is held in the form
/// in which it names a variant of the generated locale type.
#[derive(Debug)]
pub struct LocaleTag {
    pub language: String,
    pub region: Option<String>,
}

/// The mathematical content of a [`LocaleTag`].
pub struct LocaleTagView {
    pub language: Seq<char>,
    pub region: Option<Seq<char>>,
}

impl DeepView for LocaleTag {
    type V = LocaleTagView;

    open spec fn deep_view(&self) -> LocaleTagView {
        LocaleTagView { language: self.language@, region: self.region.deep_view() }
    }
}

/// The language word and the region in the groups of a locale tag: the
/// first and the third group behind the whole match. `None` when there is
/// no match or no language word.
pub open spec fn tag_parts(found: Found) -> Option<(Seq<char>, Option<Seq<char>>)> {
    match found {
        Some(groups) => if groups.len() > 3 && groups[1] is Some {
            Some((groups[1]->0, groups[3]))
        } else {
            None
        },
        None => None,
    }
}

/// The tag that a tag string stands for: the first word found in it is
/// the language, put in camel case; a word that follows it after a hyphen
/// is the region, taken as it is. `None` when the string holds no word.
pub open spec fn locale_of(tag: Seq<char>) -> Option<LocaleTagView> {
    match tag_parts(regex_captures(LOCALE_PATTERN@, tag)) {
        Some((word, region)) => Some(LocaleTagView { language: heck_camel_case(word), region }),
        None => None,
    }
}

/// Absence of a region comes before any region; two regions compare as
/// texts.
pub open spec fn region_less(a: Option<Seq<char>>, b: Option<Seq<char>>) -> bool {
    match (a, b) {
        (None, Some(_)) => true,
        (Some(x), Some(y)) => lex_less(x, y),
        _ => false,
    }
}

/// The order of tags: by language, then a tag without region before those
/// with one, then by region.
pub open spec fn tag_less(a: LocaleTagView, b: LocaleTagView) -> bool {
    lex_less(a.language, b.language) || (a.language == b.language && region_less(
        a.region,
        b.region,
    ))
}

/// The order of tags as a relation.
pub open spec fn tag_order() -> spec_fn(LocaleTagView, LocaleTagView) -> bool {
    |a: LocaleTagView, b: LocaleTagView| tag_less(a, b)
}

/// The order of tags is a strict total order.
pub proof fn lemma_tag_order_strict()
    ensures
        strict_total(tag_order()),
{
    let less = tag_order();
    assert forall|a: LocaleTagView| !#[trigger] less(a, a) by {
        lemma_lex_irreflexive(a.language);
        if let Some(r) = a.region {
            lemma_lex_irreflexive(r);
        }
    }
    assert forall|a: LocaleTagView, b: LocaleTagView, c: LocaleTagView| #[trigger] less(a, b)
        && #[trigger] less(b, c) implies less(a, c) by {
        if lex_less(a.language, b.language) && lex_less(b.language, c.language) {
            lemma_lex_transitive(a.language, b.language, c.language);
        }
        if a.language == b.language && b.language == c.language {
            if let (Some(x), Some(y), Some(z)) = (a.region, b.region, c.region) {
                if lex_less(x, y) && lex_less(y, z) {
                    lemma_lex_transitive(x, y, z);
                }
            }
        }
    }
    assert forall|a: LocaleTagView, b: LocaleTagView| a != b implies #[trigger] less(a, b)
        || #[trigger] less(b, a) by {
        lemma_lex_total(a.language, b.language);
        if let (Some(x), Some(y)) = (a.region, b.region) {
            lemma_lex_total(x, y);
        }
    }
}

impl LocaleTag {
    /// The language word and the region in the groups of a locale tag, if
    /// there is a language word.
    pub fn parts_in(found: &Option<Vec<Option<String>>>) -> (r: Option<(String, Option<String>)>)
        ensures
            r.deep_view() == tag_parts(found.deep_view()),
    {
        match found {
            Some(groups) => {
                proof {
                    assert(groups.deep_view().len() == groups.len());
                }
                if groups.len() > 3 {
                    match &groups[1] {
                        Some(word) => {
                            assert(groups.deep_view()[1] == Some(word@));
                            let region = match &groups[3] {
                                Some(r) => Some(r.clone()),
                                None => None,
                            };
                            assert(region.deep_view() == groups.deep_view()[3]);
                            Some((word.clone(), region))
                        },
                        None => {
                            assert(groups.deep_view()[1] is None);
                            None
                        },
                    }
                } else {
                    None
                }
            },
            None => None,
        }
    }

    /// Reads a tag string such as `en` or `en-gb`.
    pub fn parse(grammar: &Grammar, tag: &str) -> (r: Result<LocaleTag, TwineError>)
        ensures
            match r {
                Ok(t) => locale_of(tag@) == Some(t.deep_view()),
                Err(e) => locale_of(tag@) is None && e@ == (TwineErrorView::MalformedLocaleTag {
                    tag: tag@,
                }),
            },
    {
        match Self::parts_in(&grammar.locale_groups(tag)) {
            Some((word, region)) => Ok(
                LocaleTag { language: camel_case(word.as_str()), region },
            ),
            None => Err(TwineError::MalformedLocaleTag { tag: tag.to_owned() }),
        }
    }

    /// A second tag with the same language and region.
    pub fn duplicate(&self) -> (r: LocaleTag)
        ensures
            r.deep_view() == self.deep_view(),
    {
        let region = match &self.region {
            Some(r) => Some(r.clone()),
            None => None,
        };
        LocaleTag { language: self.language.clone(), region }
    }

    /// Whether this tag comes strictly before `other`.
    pub fn comes_before(&self, other: &LocaleTag) -> (r: bool)
        ensures
            r == tag_less(self.deep_view(), other.deep_view()),
    {
        if text_less(self.language.as_str(), other.language.as_str()) {
            return true;
        }
        if !text_eq(self.language.as_str(), other.language.as_str()) {
            return false;
        }
        match (&self.region, &other.region) {
            (None, Some(_)) => true,
            (Some(x), Some(y)) => text_less(x.as_str(), y.as_str()),
            _ => false,
        }
    }

    /// Whether this tag and `other` have the same language and region.
    pub fn same_as(&self, other: &LocaleTag) -> (r: bool)
        ensures
            r == (self.deep_view() == other.deep_view()),
    {
        if !text_eq(self.language.as_str(), other.language.as_str()) {
            return false;
        }
        match (&self.region, &other.region) {
            (None, None) => true,
            (Some(x), Some(y)) => text_eq(x.as_str(), y.as_str()),
            _ => false,
        }
    }
}

/// The index of the first of `tags` that `tag` comes strictly before, or
/// their number.
fn tag_rank(tags: &Vec<LocaleTag>, tag: &LocaleTag) -> (i: usize)
    ensures
        i == rank(tags.deep_view(), tag.deep_view(), tag_order()),
{
    let ghost all = tags.deep_view();
    let ghost x = tag.deep_view();
    let mut i: usize = 0;
    proof {
        assert(all.skip(0) =~= all);
    }
    while i < tags.len()
        invariant
            i <= tags.len(),
            all == tags.deep_view(),
            x == tag.deep_view(),
            rank(all, x, tag_order()) == i + rank(all.skip(i as int), x, tag_order()),
        decreases tags.len() - i,
    {
        if tag.comes_before(&tags[i]) {
            return i;
        }
        proof {
            assert(all.skip(i as int).drop_first() =~= all.skip(i + 1));
        }
        i += 1;
    }
    i
}

/// The languages of `tags`, each once, in the order of their first tag.
pub open spec fn languages_of(tags: Seq<LocaleTagView>) -> Seq<Seq<char>>
    decreases tags.len(),
{
    if tags.len() == 0 {
        Seq::empty()
    } else {
        let before = languages_of(tags.drop_last());
        if before.len() > 0 && before.last() == tags.last().language {
            before
        } else {
            before.push(tags.last().language)
        }
    }
}

/// The regions of `tags`, each once, in ascending order.
pub open spec fn regions_of(tags: Seq<LocaleTagView>) -> Seq<Seq<char>>
    decreases tags.len(),
{
    if tags.len() == 0 {
        Seq::empty()
    } else {
        let before = regions_of(tags.drop_last());
        match tags.last().region {
            Some(region) => set_inserted(before, region, text_order()),
            None => before,
        }
    }
}

/// Whether one of `tags` has the language `language`.
pub open spec fn has_language(tags: Seq<LocaleTagView>, language: Seq<char>) -> bool {
    exists|i: int| 0 <= i < tags.len() && (#[trigger] tags[i]).language == language
}

/// Whether one of `tags` has the region `region`.
pub open spec fn has_region(tags: Seq<LocaleTagView>, region: Seq<char>) -> bool {
    exists|i: int| 0 <= i < tags.len() && (#[trigger] tags[i]).region == Some(region)
}

/// The languages of ascending tags ascend, so none stands twice, and they
/// are the languages of the tags: every one of them and nothing else.
pub proof fn lemma_languages_of(tags: Seq<LocaleTagView>)
    requires
        ascending(tags, tag_order()),
    ensures
        ascending(languages_of(tags), text_order()),
        forall|l: Seq<char>| #[trigger] languages_of(tags).contains(l) <==> has_language(tags, l),
        tags.len() > 0 ==> languages_of(tags).len() > 0 && languages_of(tags).last()
            == tags.last().language,
    decreases tags.len(),
{
    if tags.len() > 0 {
        let init = tags.drop_last();
        let last = tags.last();
        let before = languages_of(init);
        let after = languages_of(tags);
        assert(ascending(init, tag_order())) by {
            assert forall|i: int, j: int| 0 <= i < j < init.len() implies #[trigger] tag_order()(
                init[i],
                init[j],
            ) by {
                assert(tag_order()(tags[i], tags[j]));
            }
        }
        lemma_languages_of(init);
        if before.len() > 0 && before.last() == last.language {
        } else {
            assert forall|i: int, j: int| 0 <= i < j < after.len() implies #[trigger] text_order()(
                after[i],
                after[j],
            ) by {
                if j < before.len() {
                    assert(text_order()(before[i], before[j]));
                } else {
                    // the new language comes behind the language of the tag before it
                    let prev = init.last();
                    assert(tag_order()(tags[tags.len() - 2], tags[tags.len() - 1]));
                    assert(lex_less(prev.language, last.language));
                    if i < before.len() - 1 {
                        assert(text_order()(before[i], before[before.len() - 1]));
                        lemma_lex_transitive(before[i], prev.language, last.language);
                    }
                }
            }
        }
        assert forall|l: Seq<char>| #[trigger] after.contains(l) <==> has_language(tags, l) by {
            assert(before.contains(l) <==> has_language(init, l));
            if has_language(init, l) {
                let i = choose|i: int| 0 <= i < init.len() && (#[trigger] init[i]).language == l;
                assert(tags[i].language == l);
            }
            if has_language(tags, l) {
                let i = choose|i: int| 0 <= i < tags.len() && (#[trigger] tags[i]).language == l;
                if i < init.len() {
                    assert(init[i].language == l);
                }
            }
            if l == last.language {
                assert(tags[tags.len() - 1].language == l);
                assert(after[after.len() - 1] == l);
            }
            if before.contains(l) {
                let k = choose|k: int| 0 <= k < before.len() && before[k] == l;
                assert(after[k] == l);
            }
            if after.contains(l) {
                let k = choose|k: int| 0 <= k < after.len() && after[k] == l;
                if k < before.len() {
                    assert(before[k] == l);
                }
            }
        }
    }
}

/// The regions of tags ascend, so none stands twice, and they are the
/// regions of the tags: every one of them and nothing else.
pub proof fn lemma_regions_of(tags: Seq<LocaleTagView>)
    ensures
        ascending(regions_of(tags), text_order()),
        forall|r: Seq<char>| #[trigger] regions_of(tags).contains(r) <==> has_region(tags, r),
    decreases tags.len(),
{
    if tags.len() > 0 {
        let init = tags.drop_last();
        let last = tags.last();
        let before = regions_of(init);
        let after = regions_of(tags);
        lemma_regions_of(init);
        crate::text::lemma_text_order_strict();
        if let Some(region) = last.region {
            lemma_set_inserted(before, region, text_order());
        }
        assert forall|r: Seq<char>| #[trigger] after.contains(r) <==> has_region(tags, r) by {
            assert(before.contains(r) <==> has_region(init, r));
            if let Some(region) = last.region {
                assert(after.to_set().contains(r) == before.to_set().insert(region).contains(r));
            }
            if has_region(init, r) {
                let i = choose|i: int| 0 <= i < init.len() && (#[trigger] init[i]).region == Some(r);
                assert(tags[i].region == Some(r));
            }
            if has_region(tags, r) {
                let i = choose|i: int| 0 <= i < tags.len() && (#[trigger] tags[i]).region == Some(r);
                if i < init.len() {
                    assert(init[i].region == Some(r));
                }
            }
            if last.region == Some(r) {
                assert(tags[tags.len() - 1].region == Some(r));
            }
        }
    }
}

/// The set of the locale tags of a catalog, in ascending order.
#[derive(Debug)]
pub struct LocaleSet {
    tags: Vec<LocaleTag>,
}

impl View for LocaleSet {
    type V = Seq<LocaleTagView>;

    closed spec fn view(&self) -> Seq<LocaleTagView> {
        self.tags.deep_view()
    }
}

impl LocaleSet {
    /// The tags ascend strictly, so none stands twice.
    pub open spec fn wf(&self) -> bool {
        ascending(self@, tag_order())
    }

    /// The empty set.
    pub fn new() -> (r: LocaleSet)
        ensures
            r@ == Seq::<LocaleTagView>::empty(),
            r.wf(),
    {
        let r = LocaleSet { tags: Vec::new() };
        assert(r@ =~= Seq::<LocaleTagView>::empty());
        r
    }

    /// Adds a tag to the set.
    pub fn insert(&mut self, tag: LocaleTag)
        requires
            old(self).wf(),
        ensures
            final(self)@ == set_inserted(old(self)@, tag.deep_view(), tag_order()),
            final(self).wf(),
            final(self)@.to_set() == old(self)@.to_set().insert(tag.deep_view()),
    {
        let ghost before = self@;
        let i = tag_rank(&self.tags, &tag);
        proof {
            lemma_rank(before, tag.deep_view(), tag_order());
            lemma_tag_order_strict();
            lemma_set_inserted(before, tag.deep_view(), tag_order());
        }
        if i > 0 && self.tags[i - 1].same_as(&tag) {
        } else {
            self.tags.insert(i, tag);
            proof {
                assert(self@ =~= before.insert(i as int, tag.deep_view()));
            }
        }
    }

    /// The number of tags.
    pub fn len(&self) -> (n: usize)
        ensures
            n == self@.len(),
    {
        self.tags.len()
    }

    /// The tags in ascending order.
    pub fn tags(&self) -> (r: &Vec<LocaleTag>)
        ensures
            r.deep_view() == self@,
    {
        &self.tags
    }

    /// The default locale: the least tag of the set, if the set has one.
    pub fn default_locale(&self) -> (r: Option<&LocaleTag>)
        requires
            self.wf(),
        ensures
            r is Some <==> self@.len() > 0,
            r matches Some(tag) ==> tag.deep_view() == self@[0] && forall|i: int|
                0 < i < self@.len() ==> tag_less(tag.deep_view(), #[trigger] self@[i]),
    {
        if self.tags.len() > 0 {
            proof {
                let less = tag_order();
                assert forall|i: int| 0 < i < self@.len() implies tag_less(
                    self@[0],
                    #[trigger] self@[i],
                ) by {
                    assert(less(self@[0], self@[i]));
                }
            }
            Some(&self.tags[0])
        } else {
            None
        }
    }

    /// Whether the set holds `tag`.
    pub fn contains(&self, tag: &LocaleTag) -> (r: bool)
        requires
            self.wf(),
        ensures
            r == self@.contains(tag.deep_view()),
    {
        let i = tag_rank(&self.tags, tag);
        proof {
            lemma_rank(self@, tag.deep_view(), tag_order());
            lemma_tag_order_strict();
            crate::order::lemma_rank_ascending(self@, tag.deep_view(), tag_order());
        }
        i > 0 && self.tags[i - 1].same_as(tag)
    }

    /// The languages of the set, each once, in ascending order.
    pub fn languages(&self) -> (r: Vec<String>)
        ensures
            r.deep_view() == languages_of(self@),
            self.wf() ==> ascending(r.deep_view(), text_order()),
    {
        proof {
            if self.wf() {
                lemma_languages_of(self@);
            }
        }
        let mut out: Vec<String> = Vec::new();
        let mut i: usize = 0;
        proof {
            assert(self@.take(0) =~= Seq::<LocaleTagView>::empty());
            assert(out.deep_view() =~= Seq::<Seq<char>>::empty());
        }
        while i < self.tags.len()
            invariant
                i <= self.tags.len(),
                out.deep_view() == languages_of(self@.take(i as int)),
            decreases self.tags.len() - i,
        {
            let ghost before = out.deep_view();
            proof {
                assert(self@.take(i + 1).drop_last() =~= self@.take(i as int));
                assert(self@.take(i + 1).last() == self@[i as int]);
            }
            let n = out.len();
            if n > 0 && text_eq(out[n - 1].as_str(), self.tags[i].language.as_str()) {
            } else {
                out.push(self.tags[i].language.clone());
                proof {
                    assert(out.deep_view() =~= before.push(self@[i as int].language));
                }
            }
            i += 1;
        }
        proof {
            assert(self@.take(self@.len() as int) =~= self@);
        }
        out
    }

    /// The regions of the set, each once, in ascending order.
    pub fn regions(&self) -> (r: Vec<String>)
        ensures
            r.deep_view() == regions_of(self@),
            ascending(r.deep_view(), text_order()),
    {
        proof {
            lemma_regions_of(self@);
        }
        let mut out: Vec<String> = Vec::new();
        let mut i: usize = 0;
        proof {
            assert(self@.take(0) =~= Seq::<LocaleTagView>::empty());
            assert(out.deep_view() =~= Seq::<Seq<char>>::empty());
        }
        while i < self.tags.len()
            invariant
                i <= self.tags.len(),
                out.deep_view() == regions_of(self@.take(i as int)),
            decreases self.tags.len() - i,
        {
            proof {
                assert(self@.take(i + 1).drop_last() =~= self@.take(i as int));
                assert(self@.take(i + 1).last() == self@[i as int]);
            }
            match &self.tags[i].region {
                Some(region) => {
                    insert_text(&mut out, region.clone());
                },
                None => {},
            }
            i += 1;
        }
        proof {
            assert(self@.take(self@.len() as int) =~= self@);
        }
        out
    }
}

} // verus!
