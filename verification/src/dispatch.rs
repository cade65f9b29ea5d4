//! The dispatch of a key: in which order its arms stand in the generated
//! code, which arm serves a locale, and that this is the translation that
//! the catalog resolves the key to.

use crate::catalog::exact_index;
use crate::catalog::lemma_exact_index;
use crate::catalog::resolved;
use crate::catalog::Translation;
use crate::catalog::TranslationView;
use crate::locale::LocaleTagView;
use crate::order::lemma_rank;
use crate::order::rank;
use crate::text::lemma_lex_irreflexive;
use crate::text::lemma_lex_total;
use crate::text::lemma_lex_transitive;
use crate::text::lex_less;
use crate::text::text_eq;
use crate::text::text_less;
use vstd::prelude::*;

verus! {

/// The order of the dispatch arms: by language, and within a language the
/// translations with a region before those without.
pub open spec fn arm_before(a: TranslationView, b: TranslationView) -> bool {
    lex_less(a.locale.language, b.locale.language) || (a.locale.language == b.locale.language
        && a.locale.region is Some && b.locale.region is None)
}

/// The order of the dispatch arms as a relation.
pub open spec fn arm_order() -> spec_fn(TranslationView, TranslationView) -> bool {
    |a: TranslationView, b: TranslationView| arm_before(a, b)
}

/// The translations in the order of their arms. Translations that the
/// order does not tell apart keep their source order.
pub open spec fn arms_in_order(translations: Seq<TranslationView>) -> Seq<TranslationView>
    decreases translations.len(),
{
    if translations.len() == 0 {
        Seq::empty()
    } else {
        let before = arms_in_order(translations.drop_last());
        before.insert(
            rank(before, translations.last(), arm_order()) as int,
            translations.last(),
        )
    }
}

/// Whether the arm of `a` comes strictly before the arm of `b`.
pub fn arm_comes_before(a: &Translation, b: &Translation) -> (r: bool)
    ensures
        r == arm_before(a.deep_view(), b.deep_view()),
{
    if text_less(a.locale.language.as_str(), b.locale.language.as_str()) {
        return true;
    }
    if !text_eq(a.locale.language.as_str(), b.locale.language.as_str()) {
        return false;
    }
    a.locale.region.is_some() && b.locale.region.is_none()
}

/// The index of the first of `arms` that the arm of `t` comes strictly
/// before, or their number.
fn arm_rank(arms: &Vec<&Translation>, t: &Translation) -> (i: usize)
    ensures
        i == rank(arms.deep_view(), t.deep_view(), arm_order()),
        i <= arms.len(),
{
    let ghost all = arms.deep_view();
    let mut i: usize = 0;
    proof {
        assert(all.skip(0) =~= all);
    }
    while i < arms.len()
        invariant
            i <= arms.len(),
            all == arms.deep_view(),
            rank(all, t.deep_view(), arm_order()) == i + rank(
                all.skip(i as int),
                t.deep_view(),
                arm_order(),
            ),
        decreases arms.len() - i,
    {
        proof {
            assert(all.skip(i as int)[0] == arms@[i as int].deep_view());
        }
        if arm_comes_before(t, arms[i]) {
            return i;
        }
        proof {
            assert(all.skip(i as int).drop_first() =~= all.skip(i + 1));
        }
        i += 1;
    }
    i
}

/// The translations of a key in the order of their arms.
pub fn arms_of<'a>(translations: &'a Vec<Translation>) -> (arms: Vec<&'a Translation>)
    ensures
        arms.deep_view() == arms_in_order(translations.deep_view()),
{
    let ghost all = translations.deep_view();
    let mut arms: Vec<&Translation> = Vec::new();
    let mut i: usize = 0;
    proof {
        assert(all.take(0) =~= Seq::<TranslationView>::empty());
        assert(arms.deep_view() =~= Seq::<TranslationView>::empty());
    }
    while i < translations.len()
        invariant
            i <= translations.len(),
            all == translations.deep_view(),
            arms.deep_view() == arms_in_order(all.take(i as int)),
        decreases translations.len() - i,
    {
        let ghost before = arms.deep_view();
        proof {
            assert(all.take(i + 1).drop_last() =~= all.take(i as int));
            assert(all.take(i + 1).last() == translations@[i as int].deep_view());
        }
        let at = arm_rank(&arms, &translations[i]);
        arms.insert(at, &translations[i]);
        proof {
            assert(arms.deep_view() =~= before.insert(
                at as int,
                translations@[i as int].deep_view(),
            ));
        }
        i += 1;
    }
    proof {
        assert(all.take(all.len() as int) =~= all);
    }
    arms
}

/// Whether the arm of `t` serves `locale`: it is for the locale's
/// language, and it names the locale's region or no region at all.
pub open spec fn arm_serves(t: TranslationView, locale: LocaleTagView) -> bool {
    t.locale.language == locale.language && (t.locale.region is None || t.locale.region
        == locale.region)
}

/// The index of the first of `arms` that serves `locale`, or their number.
pub open spec fn first_serving(arms: Seq<TranslationView>, locale: LocaleTagView) -> nat
    decreases arms.len(),
{
    if arms.len() == 0 || arm_serves(arms[0], locale) {
        0
    } else {
        1 + first_serving(arms.drop_first(), locale)
    }
}

/// What the generated code of a key gives for a locale: the translation
/// of the first arm that serves the locale, else the translation of the
/// fallback arm, which is the first one listed.
pub open spec fn dispatched(translations: Seq<TranslationView>, locale: LocaleTagView) -> Option<
    TranslationView,
> {
    let arms = arms_in_order(translations);
    let i = first_serving(arms, locale);
    if i < arms.len() {
        Some(arms[i as int])
    } else if translations.len() > 0 {
        Some(translations[0])
    } else {
        None
    }
}

/// No arm comes after an arm that stands behind it.
pub open spec fn arms_sorted(arms: Seq<TranslationView>) -> bool {
    forall|i: int, j: int| 0 <= i < j < arms.len() ==> !arm_before(arms[j], arms[i])
}

/// The order of the arms is strict, and what it does not tell apart it
/// treats alike.
pub proof fn lemma_arm_order(a: TranslationView, b: TranslationView, c: TranslationView)
    ensures
        !arm_before(a, a),
        arm_before(a, b) && arm_before(b, c) ==> arm_before(a, c),
        arm_before(a, c) ==> arm_before(a, b) || arm_before(b, c),
{
    lemma_lex_irreflexive(a.locale.language);
    lemma_lex_total(a.locale.language, b.locale.language);
    lemma_lex_total(b.locale.language, c.locale.language);
    if lex_less(a.locale.language, b.locale.language) && lex_less(
        b.locale.language,
        c.locale.language,
    ) {
        lemma_lex_transitive(a.locale.language, b.locale.language, c.locale.language);
    }
    if lex_less(b.locale.language, a.locale.language) && lex_less(
        a.locale.language,
        c.locale.language,
    ) {
        lemma_lex_transitive(b.locale.language, a.locale.language, c.locale.language);
    }
    if lex_less(a.locale.language, c.locale.language) && lex_less(
        c.locale.language,
        b.locale.language,
    ) {
        lemma_lex_transitive(a.locale.language, c.locale.language, b.locale.language);
    }
}

/// `exact_index` is the one index that holds the first translation for
/// the locale.
pub proof fn lemma_exact_index_is(s: Seq<TranslationView>, g: LocaleTagView, i: int)
    requires
        0 <= i <= s.len(),
        i < s.len() ==> s[i].locale == g,
        forall|j: int| 0 <= j < i ==> (#[trigger] s[j]).locale != g,
    ensures
        exact_index(s, g) == i,
{
    lemma_exact_index(s, g);
    let e = exact_index(s, g) as int;
    if e < i {
        assert(s[e].locale != g);
    }
}

/// The arms of a key stand in their order.
pub proof fn lemma_arms_sorted(translations: Seq<TranslationView>)
    ensures
        arms_sorted(arms_in_order(translations)),
        arms_in_order(translations).len() == translations.len(),
    decreases translations.len(),
{
    if translations.len() > 0 {
        let before = arms_in_order(translations.drop_last());
        let x = translations.last();
        let r = rank(before, x, arm_order()) as int;
        let after = before.insert(r, x);
        lemma_arms_sorted(translations.drop_last());
        lemma_rank(before, x, arm_order());
        assert forall|i: int, j: int| 0 <= i < j < after.len() implies !arm_before(
            after[j],
            after[i],
        ) by {
            if j < r {
                assert(!arm_before(before[j], before[i]));
            } else if j == r {
                assert(!arm_order()(x, before[i]));
            } else if i < r {
                assert(!arm_before(before[j - 1], before[i]));
            } else if i == r {
                // x comes before the arm at its rank, which no later arm comes before
                assert(arm_order()(x, before[r]));
                if j - 1 > r {
                    assert(!arm_before(before[j - 1], before[r]));
                }
                lemma_arm_order(before[j - 1], x, before[r]);
                lemma_arm_order(x, before[r], x);
            } else {
                assert(!arm_before(before[j - 1], before[i - 1]));
            }
        }
    }
}

/// Among the translations for one locale, the arms keep the source order:
/// the first arm for a locale is the first translation listed for it.
pub proof fn lemma_arms_keep_the_first(translations: Seq<TranslationView>, g: LocaleTagView)
    ensures
        exact_index(arms_in_order(translations), g) < translations.len() <==> exact_index(
            translations,
            g,
        ) < translations.len(),
        exact_index(translations, g) < translations.len() ==> arms_in_order(
            translations,
        )[exact_index(arms_in_order(translations), g) as int] == translations[exact_index(
            translations,
            g,
        ) as int],
    decreases translations.len(),
{
    let arms = arms_in_order(translations);
    lemma_arms_sorted(translations);
    lemma_exact_index(arms, g);
    lemma_exact_index(translations, g);
    if translations.len() > 0 {
        let init = translations.drop_last();
        let before = arms_in_order(init);
        let x = translations.last();
        let r = rank(before, x, arm_order()) as int;
        lemma_arms_keep_the_first(init, g);
        lemma_arms_sorted(init);
        lemma_rank(before, x, arm_order());
        lemma_exact_index(before, g);
        lemma_exact_index(init, g);
        let e = exact_index(before, g) as int;
        let f = exact_index(init, g) as int;
        if f < init.len() {
            // the translations before the last list the locale already
            assert forall|j: int| 0 <= j < f implies (#[trigger] translations[j]).locale != g by {
                assert(init[j].locale != g);
            }
            assert(translations[f] == init[f]);
            lemma_exact_index_is(translations, g, f);
            if x.locale == g {
                // the last translation goes behind the arm that was first
                if r <= e {
                    assert(arm_order()(x, before[r]));
                    assert(arm_before(x, before[r]));
                    assert(before[e].locale == x.locale);
                    lemma_lex_irreflexive(g.language);
                    if r < e {
                        assert(!arm_before(before[e], before[r]));
                        assert(arm_before(before[e], before[r]));
                    }
                    assert(false);
                }
            }
            if e < r {
                assert forall|j: int| 0 <= j < e implies (#[trigger] arms[j]).locale != g by {
                    assert(before[j].locale != g);
                }
                assert(arms[e] == before[e]);
                lemma_exact_index_is(arms, g, e);
            } else {
                assert forall|j: int| 0 <= j < e + 1 implies (#[trigger] arms[j]).locale != g by {
                    if j < r {
                        assert(before[j].locale != g);
                    } else if j > r {
                        assert(before[j - 1].locale != g);
                    }
                }
                assert(arms[e + 1] == before[e]);
                lemma_exact_index_is(arms, g, e + 1);
            }
        } else if x.locale == g {
            assert forall|j: int| 0 <= j < init.len() implies (#[trigger] translations[j]).locale
                != g by {
                assert(init[j].locale != g);
            }
            lemma_exact_index_is(translations, g, init.len() as int);
            assert forall|j: int| 0 <= j < r implies (#[trigger] arms[j]).locale != g by {
                assert(before[j].locale != g);
            }
            assert(arms[r] == x);
            lemma_exact_index_is(arms, g, r);
        } else {
            assert forall|j: int| 0 <= j < translations.len() implies (
            #[trigger] translations[j]).locale != g by {
                if j < init.len() {
                    assert(init[j].locale != g);
                }
            }
            lemma_exact_index_is(translations, g, translations.len() as int);
            assert forall|j: int| 0 <= j < arms.len() implies (#[trigger] arms[j]).locale != g by {
                if j < r {
                    assert(before[j].locale != g);
                } else if j > r {
                    assert(before[j - 1].locale != g);
                }
            }
            lemma_exact_index_is(arms, g, arms.len() as int);
        }
    }
}

/// `first_serving` finds the first arm that serves the locale.
pub proof fn lemma_first_serving(arms: Seq<TranslationView>, locale: LocaleTagView)
    ensures
        first_serving(arms, locale) <= arms.len(),
        first_serving(arms, locale) < arms.len() ==> arm_serves(
            arms[first_serving(arms, locale) as int],
            locale,
        ),
        forall|j: int| 0 <= j < first_serving(arms, locale) ==> !arm_serves(#[trigger] arms[j], locale),
    decreases arms.len(),
{
    if arms.len() == 0 || arm_serves(arms[0], locale) {
    } else {
        let rest = arms.drop_first();
        lemma_first_serving(rest, locale);
        assert forall|j: int| 0 <= j < first_serving(arms, locale) implies !arm_serves(
            #[trigger] arms[j],
            locale,
        ) by {
            if j > 0 {
                assert(!arm_serves(rest[j - 1], locale));
            }
        }
    }
}

/// The generated code of a key gives, for every locale, the translation
/// that the catalog resolves the key to: the one for the locale's language
/// and region, else the one for the language without region, else the
/// first one listed.
pub proof fn lemma_dispatch_is_resolution(translations: Seq<TranslationView>, locale: LocaleTagView)
    ensures
        match resolved(translations, locale) {
            Some(j) => dispatched(translations, locale) == Some(translations[j]),
            None => dispatched(translations, locale) is None,
        },
{
    let arms = arms_in_order(translations);
    let bare = LocaleTagView { language: locale.language, region: None };
    lemma_arms_sorted(translations);
    lemma_arms_keep_the_first(translations, locale);
    lemma_arms_keep_the_first(translations, bare);
    lemma_exact_index(translations, locale);
    lemma_exact_index(translations, bare);
    lemma_exact_index(arms, locale);
    lemma_exact_index(arms, bare);
    lemma_first_serving(arms, locale);
    let s = first_serving(arms, locale) as int;
    let e = exact_index(arms, locale) as int;
    let b = exact_index(arms, bare) as int;
    if s < arms.len() {
        // the first arm that serves is for the locale itself or for its bare language
        assert(arms[s].locale == locale || arms[s].locale == bare);
        if e < arms.len() {
            assert(arm_serves(arms[e], locale));
            if arms[s].locale != locale {
                // a bare arm stands behind every arm with a region of its language
                assert(s < e);
                assert(arms[s].locale == bare);
                assert(locale.region is Some);
                assert(arm_before(arms[e], arms[s]));
                assert(false);
            }
            if s < e {
                assert(arms[s].locale != locale);
            }
            assert(s == e);
        } else {
            assert(arms[s].locale == bare);
            assert(b <= s);
            if b < s {
                assert(arm_serves(arms[b], locale));
            }
            assert(s == b);
        }
    } else {
        if e < arms.len() {
            assert(arm_serves(arms[e], locale));
        }
        if b < arms.len() {
            assert(arm_serves(arms[b], locale));
        }
    }
}

} // verus!
