//! The locale codec: a locale as a name such as `en` or `en_GB`, and back.

use crate::casing::heck_snake_case;
use crate::casing::lowercase;
use crate::casing::snake_case;
use crate::casing::to_lower;
use crate::casing::to_upper;
use crate::casing::uppercase;
use crate::error::TwineError;
use crate::error::TwineErrorView;
use crate::locale::languages_of;
use crate::locale::regions_of;
use crate::locale::LocaleSet;
use crate::locale::LocaleTag;
use crate::locale::LocaleTagView;
use crate::text::after_first;
use crate::text::before_first;
use crate::text::split_at_first;
use crate::text::text_eq;
use vstd::prelude::*;

verus! {

/// The name of a locale: its language in snake case; then, where it has a
/// region that is not empty, an underscore and the region in upper case.
pub open spec fn encoded(tag: LocaleTagView) -> Seq<char> {
    match tag.region {
        Some(region) => if region.len() > 0 {
            heck_snake_case(tag.language) + seq!['_'] + uppercase(region)
        } else {
            heck_snake_case(tag.language)
        },
        None => heck_snake_case(tag.language),
    }
}

/// The language part of a locale name, in lower case: what stands before
/// its first underscore.
pub open spec fn name_language(name: Seq<char>) -> Seq<char> {
    lowercase(before_first(name, '_'))
}

/// The region part of a locale name, in lower case: what stands after its
/// first underscore.
pub open spec fn name_region(name: Seq<char>) -> Seq<char> {
    lowercase(after_first(name, '_'))
}

/// The index of the first of `texts` that is `text`, or their number.
pub open spec fn position(texts: Seq<Seq<char>>, text: Seq<char>) -> nat
    decreases texts.len(),
{
    if texts.len() == 0 || texts[0] == text {
        0
    } else {
        1 + position(texts.drop_first(), text)
    }
}

/// The locale that a language name and a region pick: the language whose
/// name it is, and the region where it is not empty. `None` when no
/// language has the name, or when the region is neither empty nor among
/// the regions. `names` holds the names of `languages`, one for one.
pub open spec fn picked(
    names: Seq<Seq<char>>,
    languages: Seq<Seq<char>>,
    regions: Seq<Seq<char>>,
    language: Seq<char>,
    region: Seq<char>,
) -> Option<LocaleTagView> {
    let i = position(names, language);
    if i >= names.len() || i >= languages.len() {
        None
    } else if region.len() == 0 {
        Some(LocaleTagView { language: languages[i as int], region: None })
    } else if regions.contains(region) {
        Some(LocaleTagView { language: languages[i as int], region: Some(region) })
    } else {
        None
    }
}

/// The names of the languages: each in snake case.
pub open spec fn names_of(languages: Seq<Seq<char>>) -> Seq<Seq<char>> {
    languages.map_values(|l: Seq<char>| heck_snake_case(l))
}

/// The locale that a name stands for among the locales `tags`: its
/// language part must name one of their languages; its region part must
/// be empty or one of their regions. Case plays no role.
pub open spec fn decoded(tags: Seq<LocaleTagView>, name: Seq<char>) -> Option<LocaleTagView> {
    picked(
        names_of(languages_of(tags)),
        languages_of(tags),
        regions_of(tags),
        name_language(name),
        name_region(name),
    )
}

/// The canonical form of a locale name: its language part in lower case;
/// then, where its region part is not empty, an underscore and the region
/// part in upper case.
pub open spec fn canonical(name: Seq<char>) -> Seq<char> {
    if name_region(name).len() > 0 {
        name_language(name) + seq!['_'] + uppercase(name_region(name))
    } else {
        name_language(name)
    }
}

/// `position` finds the text when it is there.
pub proof fn lemma_position(texts: Seq<Seq<char>>, text: Seq<char>)
    ensures
        position(texts, text) <= texts.len(),
        position(texts, text) < texts.len() ==> texts[position(texts, text) as int] == text,
    decreases texts.len(),
{
    if texts.len() == 0 || texts[0] == text {
    } else {
        lemma_position(texts.drop_first(), text);
    }
}

/// Round trip: every name that stands for a locale is decoded to a locale
/// whose name is the canonical form of that name.
pub proof fn lemma_encode_decode(tags: Seq<LocaleTagView>, name: Seq<char>)
    requires
        decoded(tags, name) is Some,
    ensures
        encoded(decoded(tags, name)->0) == canonical(name),
{
    lemma_position(names_of(languages_of(tags)), name_language(name));
}

/// The name of a locale.
pub fn encode(tag: &LocaleTag) -> (r: String)
    ensures
        r@ == encoded(tag.deep_view()),
{
    let mut name = snake_case(tag.language.as_str());
    match &tag.region {
        Some(region) => {
            if !region.as_str().is_empty() {
                let ghost head = name@;
                name.push('_');
                name.append(to_upper(region.as_str()).as_str());
                assert(name@ =~= head + seq!['_'] + uppercase(region@));
            }
        },
        None => {},
    }
    name
}

/// The index of the first of `texts` that is `text`, or their number.
fn find_text(texts: &Vec<String>, text: &str) -> (i: usize)
    ensures
        i == position(texts.deep_view(), text@),
        i <= texts.len(),
{
    let ghost all = texts.deep_view();
    let mut i: usize = 0;
    proof {
        assert(all.skip(0) =~= all);
    }
    while i < texts.len()
        invariant
            i <= texts.len(),
            all == texts.deep_view(),
            position(all, text@) == i + position(all.skip(i as int), text@),
        decreases texts.len() - i,
    {
        proof {
            assert(all.skip(i as int)[0] == texts@[i as int]@);
        }
        if text_eq(texts[i].as_str(), text) {
            return i;
        }
        proof {
            assert(all.skip(i as int).drop_first() =~= all.skip(i + 1));
        }
        i += 1;
    }
    i
}

/// The locale that a language name and a region pick, where `names` holds
/// the names of `languages`, one for one.
pub fn pick(
    names: &Vec<String>,
    languages: &Vec<String>,
    regions: &Vec<String>,
    language: &str,
    region: String,
) -> (r: Option<LocaleTag>)
    ensures
        r.deep_view() == picked(
            names.deep_view(),
            languages.deep_view(),
            regions.deep_view(),
            language@,
            region@,
        ),
{
    let i = find_text(names, language);
    if i >= names.len() || i >= languages.len() {
        return None;
    }
    proof {
        assert(languages.deep_view()[i as int] == languages@[i as int]@);
    }
    if region.as_str().is_empty() {
        return Some(LocaleTag { language: languages[i].clone(), region: None });
    }
    let j = find_text(regions, region.as_str());
    proof {
        lemma_position(regions.deep_view(), region@);
        if regions.deep_view().contains(region@) {
            let k = choose|k: int| 0 <= k < regions.len() && regions.deep_view()[k] == region@;
            lemma_position_finds(regions.deep_view(), region@, k);
        }
    }
    if j < regions.len() {
        Some(LocaleTag { language: languages[i].clone(), region: Some(region) })
    } else {
        None
    }
}

/// A text that is there is found.
pub proof fn lemma_position_finds(texts: Seq<Seq<char>>, text: Seq<char>, k: int)
    requires
        0 <= k < texts.len(),
        texts[k] == text,
    ensures
        position(texts, text) <= k,
    decreases texts.len(),
{
    if texts[0] != text {
        lemma_position_finds(texts.drop_first(), text, k - 1);
    }
}

/// The names of the languages: each in snake case.
fn names_for(languages: &Vec<String>) -> (names: Vec<String>)
    ensures
        names.deep_view() == names_of(languages.deep_view()),
{
    let ghost all = languages.deep_view();
    let mut names: Vec<String> = Vec::new();
    let mut i: usize = 0;
    proof {
        assert(names.deep_view() =~= names_of(all.take(0)));
    }
    while i < languages.len()
        invariant
            i <= languages.len(),
            all == languages.deep_view(),
            names.deep_view() == names_of(all.take(i as int)),
        decreases languages.len() - i,
    {
        let ghost before = names.deep_view();
        let name = snake_case(languages[i].as_str());
        names.push(name);
        proof {
            assert(all[i as int] == languages@[i as int]@);
            assert(names.deep_view() =~= before.push(heck_snake_case(all[i as int])));
            assert(names_of(all.take(i + 1)) =~= names_of(all.take(i as int)).push(
                heck_snake_case(all[i as int]),
            ));
        }
        i += 1;
    }
    proof {
        assert(all.take(all.len() as int) =~= all);
    }
    names
}

/// The locale that `name` stands for among the locales of `locales`.
pub fn decode(locales: &LocaleSet, name: &str) -> (r: Result<LocaleTag, TwineError>)
    ensures
        match r {
            Ok(tag) => decoded(locales@, name@) == Some(tag.deep_view()),
            Err(e) => decoded(locales@, name@) is None && e@ == (
            TwineErrorView::UnknownLocaleOnDecode { text: name@ }),
        },
{
    let parts = split_at_first(name, '_');
    let language = to_lower(parts.0.as_str());
    let region = to_lower(parts.1.as_str());
    let languages = locales.languages();
    let names = names_for(&languages);
    let regions = locales.regions();
    match pick(&names, &languages, &regions, language.as_str(), region) {
        Some(tag) => Ok(tag),
        None => Err(TwineError::UnknownLocaleOnDecode { text: name.to_owned() }),
    }
}

} // verus!
