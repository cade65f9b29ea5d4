//! Emission of the generated lookup code: which blocks of text a catalog
//! gives, in which order and at which indentation level.

use crate::casing::heck_snake_case;
use crate::casing::snake_case;
use crate::catalog::locales_of;
use crate::catalog::normalize;
use crate::catalog::normalized;
use crate::catalog::Catalog;
use crate::catalog::CatalogEntry;
use crate::catalog::CatalogEntryView;
use crate::catalog::Translation;
use crate::catalog::TranslationView;
use crate::dispatch::arms_in_order;
use crate::dispatch::arms_of;
use crate::error::outcome;
use crate::error::TwineError;
use crate::error::TwineErrorView;
use crate::layout::debug_quoted;
use crate::layout::laid_out;
use crate::layout::lay_out;
use crate::layout::quoted;
use crate::layout::Block;
use crate::layout::BlockView;
use crate::locale::languages_of;
use crate::locale::regions_of;
use crate::locale::LocaleTag;
use crate::locale::LocaleTagView;
use crate::pieces;
use crate::template::or_empty;
use crate::template::rendered;
use vstd::prelude::*;

verus! {

/// The block of `text` at `level`.
pub open spec fn block(level: nat, text: Seq<char>) -> BlockView {
    BlockView { level, text }
}

/// `a`, `b` and `c` put together.
fn join3(a: &str, b: &str, c: &str) -> (r: String)
    ensures
        r@ == a@ + b@ + c@,
{
    let mut r = String::new();
    r.append(a);
    r.append(b);
    r.append(c);
    assert(r@ =~= a@ + b@ + c@);
    r
}

/// Five texts put together.
fn join5(a: &str, b: &str, c: &str, d: &str, e: &str) -> (r: String)
    ensures
        r@ == a@ + b@ + c@ + d@ + e@,
{
    let mut r = join3(a, b, c);
    r.append(d);
    r.append(e);
    r
}

/// Seven texts put together.
fn join7(a: &str, b: &str, c: &str, d: &str, e: &str, f: &str, g: &str) -> (r: String)
    ensures
        r@ == a@ + b@ + c@ + d@ + e@ + f@ + g@,
{
    let mut r = join5(a, b, c, d, e);
    r.append(f);
    r.append(g);
    r
}

/// Nine texts put together.
fn join9(
    a: &str,
    b: &str,
    c: &str,
    d: &str,
    e: &str,
    f: &str,
    g: &str,
    h: &str,
    i: &str,
) -> (r: String)
    ensures
        r@ == a@ + b@ + c@ + d@ + e@ + f@ + g@ + h@ + i@,
{
    let mut r = join7(a, b, c, d, e, f, g);
    r.append(h);
    r.append(i);
    r
}

/// Appends a block of fixed text.
fn push_fixed(blocks: &mut Vec<Block>, level: u32, text: &str)
    ensures
        final(blocks).deep_view() == old(blocks).deep_view().push(block(level as nat, text@)),
{
    let ghost before = blocks.deep_view();
    blocks.push(Block { level, text: text.to_owned() });
    assert(blocks.deep_view() =~= before.push(block(level as nat, text@)));
}

/// Appends a block.
fn push_block(blocks: &mut Vec<Block>, level: u32, text: String)
    ensures
        final(blocks).deep_view() == old(blocks).deep_view().push(block(level as nat, text@)),
{
    let ghost before = blocks.deep_view();
    blocks.push(Block { level, text });
    assert(blocks.deep_view() =~= before.push(block(level as nat, text@)));
}

/// How a dispatch arm names its region: the region quoted, or `_` for a
/// translation without region, which then serves every region.
pub open spec fn region_pattern(region: Option<Seq<char>>) -> Seq<char> {
    match region {
        Some(r) => debug_quoted(r),
        None => seq!['_'],
    }
}

/// The dispatch arm of a translation.
pub open spec fn arm_text(t: TranslationView) -> Seq<char> {
    pieces::ARM_HEAD@ + t.locale.language + pieces::ARM_OPEN@ + region_pattern(t.locale.region)
        + pieces::ARM_MID@ + debug_quoted(rendered(t.template)) + pieces::ARM_TAIL@
}

/// The fallback arm, which serves every locale that no other arm serves.
pub open spec fn fallback_text(t: TranslationView) -> Seq<char> {
    pieces::FALLBACK_HEAD@ + debug_quoted(rendered(t.template)) + pieces::FALLBACK_TAIL@
}

/// The arms of a key: one for each translation, then the fallback arm
/// with the first translation listed.
pub open spec fn match_arm_blocks(translations: Seq<TranslationView>) -> Seq<BlockView> {
    arms_in_order(translations).map_values(|t: TranslationView| block(3, arm_text(t))) + (
    if translations.len() > 0 {
        seq![block(3, fallback_text(translations[0]))]
    } else {
        Seq::empty()
    })
}

/// The head of a key's rule.
pub open spec fn key_open_text(key: Seq<char>) -> Seq<char> {
    pieces::KEY_OPEN_HEAD@ + key + pieces::KEY_OPEN_TAIL@
}

/// The rule of one key: its head, its arms, its end.
pub open spec fn key_blocks(entry: CatalogEntryView) -> Seq<BlockView> {
    seq![block(1, key_open_text(entry.key))] + match_arm_blocks(entry.translations) + seq![
        block(1, pieces::KEY_CLOSE@),
    ]
}

/// The rules of all keys, in the entries' order.
pub open spec fn all_key_blocks(entries: Seq<CatalogEntryView>) -> Seq<BlockView>
    decreases entries.len(),
{
    if entries.len() == 0 {
        Seq::empty()
    } else {
        all_key_blocks(entries.drop_last()) + key_blocks(entries.last())
    }
}

/// A variant of the locale type.
pub open spec fn variant_text(language: Seq<char>) -> Seq<char> {
    pieces::VARIANT_HEAD@ + language + pieces::VARIANT_MID@ + language + pieces::VARIANT_TAIL@
}

/// An item of the table of all locales.
pub open spec fn table_item_text(tag: LocaleTagView) -> Seq<char> {
    pieces::TABLE_ITEM_HEAD@ + tag.language + pieces::TABLE_ITEM_MID@ + debug_quoted(
        or_empty(tag.region),
    ) + pieces::TABLE_ITEM_TAIL@
}

/// The body of the default locale.
pub open spec fn default_text(tag: LocaleTagView) -> Seq<char> {
    pieces::DEFAULT_HEAD@ + tag.language + pieces::DEFAULT_MID@ + debug_quoted(
        or_empty(tag.region),
    ) + pieces::DEFAULT_TAIL@
}

/// A known region of the decoder.
pub open spec fn decoder_region_text(region: Seq<char>) -> Seq<char> {
    pieces::DECODER_REGION_HEAD@ + debug_quoted(region) + pieces::DECODER_REGION_MID@
        + debug_quoted(region) + pieces::DECODER_REGION_TAIL@
}

/// A known language of the decoder.
pub open spec fn decoder_language_text(language: Seq<char>) -> Seq<char> {
    pieces::DECODER_LANGUAGE_HEAD@ + debug_quoted(heck_snake_case(language))
        + pieces::DECODER_LANGUAGE_MID@ + language + pieces::DECODER_LANGUAGE_TAIL@
}

/// A language of the encoder.
pub open spec fn encoder_text(language: Seq<char>) -> Seq<char> {
    pieces::ENCODER_HEAD@ + language + pieces::ENCODER_BARE@ + debug_quoted(
        heck_snake_case(language),
    ) + pieces::ENCODER_NEXT@ + language + pieces::ENCODER_FULL@ + debug_quoted(
        heck_snake_case(language),
    ) + pieces::ENCODER_TAIL@
}

/// The codec of the locale type: the decoder with the known regions in
/// descending order and the known languages, then the encoder with the
/// known languages.
pub open spec fn codec_blocks(languages: Seq<Seq<char>>, regions: Seq<Seq<char>>) -> Seq<
    BlockView,
> {
    seq![block(0, pieces::DECODER_OPEN@)] + regions.reverse().map_values(
        |r: Seq<char>| block(5, decoder_region_text(r)),
    ) + seq![block(4, pieces::DECODER_LANGUAGES@)] + languages.map_values(
        |l: Seq<char>| block(5, decoder_language_text(l)),
    ) + seq![block(0, pieces::ENCODER_OPEN@)] + languages.map_values(
        |l: Seq<char>| block(3, encoder_text(l)),
    ) + seq![block(0, pieces::ENCODER_CLOSE@)]
}

/// The locale type of a catalog with the locales `tags`, of which there is
/// at least one: its variants, the table of all locales, the default.
pub open spec fn locale_type_blocks(tags: Seq<LocaleTagView>) -> Seq<BlockView> {
    seq![block(0, pieces::ENUM_OPEN@)] + languages_of(tags).map_values(
        |l: Seq<char>| block(1, variant_text(l)),
    ) + seq![block(0, pieces::TABLE_OPEN@)] + tags.map_values(
        |t: LocaleTagView| block(3, table_item_text(t)),
    ) + seq![
        block(0, pieces::TABLE_CLOSE@),
        block(0, pieces::DEFAULT_OPEN@),
        block(1, default_text(tags[0])),
        block(0, pieces::DEFAULT_CLOSE@),
    ]
}

/// All blocks of the generated code, for a catalog with at least one
/// locale: the lookup macro with one rule for each key, the locale type,
/// and the codec where it is asked for.
pub open spec fn catalog_blocks(entries: Seq<CatalogEntryView>, with_codec: bool) -> Seq<
    BlockView,
> {
    let tags = locales_of(entries);
    seq![block(0, pieces::PREAMBLE@), block(0, pieces::MACRO_OPEN@)] + all_key_blocks(entries)
        + seq![block(0, pieces::MACRO_CLOSE@)] + locale_type_blocks(tags) + (if with_codec {
        codec_blocks(languages_of(tags), regions_of(tags))
    } else {
        Seq::empty()
    })
}

/// The generated code of a compiled catalog.
pub open spec fn formatted(entries: Seq<CatalogEntryView>, with_codec: bool) -> Result<
    Seq<char>,
    TwineErrorView,
> {
    if locales_of(entries).len() == 0 {
        Err(TwineErrorView::NoLocale)
    } else {
        match laid_out(catalog_blocks(entries, with_codec)) {
            Some(text) => Ok(text),
            None => Err(TwineErrorView::BrokenLayout),
        }
    }
}

/// The text of a region that may be absent, quoted.
fn quoted_region(region: &Option<String>) -> (r: String)
    ensures
        r@ == debug_quoted(or_empty(region.deep_view())),
{
    match region {
        Some(text) => quoted(text.as_str()),
        None => {
            let empty = String::new();
            quoted(empty.as_str())
        },
    }
}

/// Writes a catalog out as lookup code.
#[derive(Debug)]
pub struct TwineFormatter {
    /// The catalog to write out.
    pub catalog: Catalog,
    /// Whether the codec of the locale type is written too.
    pub with_codec: bool,
}

impl TwineFormatter {
    /// Turns a catalog key into an identifier: snake case, then every dot
    /// that is left becomes a double underscore.
    pub fn normalize_key(key: &str) -> (id: String)
        ensures
            id@ == normalized(key@),
            !id@.contains('.'),
    {
        normalize(key)
    }

    /// Appends the dispatch arms of one key: one arm for each translation,
    /// by language and with regions first, then the fallback arm.
    pub fn generate_match_arms(translations: &Vec<Translation>, blocks: &mut Vec<Block>)
        ensures
            final(blocks).deep_view() == old(blocks).deep_view() + match_arm_blocks(
                translations.deep_view(),
            ),
    {
        let ghost start = blocks.deep_view();
        let ghost all = translations.deep_view();
        let arms = arms_of(translations);
        let ghost ordered = arms.deep_view();
        let ghost f = |t: TranslationView| block(3, arm_text(t));
        let mut j: usize = 0;
        proof {
            assert(start + ordered.take(0).map_values(f) =~= start);
        }
        while j < arms.len()
            invariant
                j <= arms.len(),
                ordered == arms.deep_view(),
                f == |t: TranslationView| block(3, arm_text(t)),
                blocks.deep_view() == start + ordered.take(j as int).map_values(f),
            decreases arms.len() - j,
        {
            let arm = arms[j];
            let pattern = match &arm.locale.region {
                Some(region) => quoted(region.as_str()),
                None => {
                    let mut any = String::new();
                    any.push('_');
                    assert(any@ =~= seq!['_']);
                    any
                },
            };
            let format = arm.template.render();
            let text = join7(
                pieces::ARM_HEAD,
                arm.locale.language.as_str(),
                pieces::ARM_OPEN,
                pattern.as_str(),
                pieces::ARM_MID,
                quoted(format.as_str()).as_str(),
                pieces::ARM_TAIL,
            );
            push_block(blocks, 3, text);
            proof {
                assert(text@ == arm_text(ordered[j as int]));
                assert(ordered.take(j + 1).map_values(f) =~= ordered.take(j as int).map_values(
                    f,
                ).push(f(ordered[j as int])));
                assert(blocks.deep_view() =~= start + ordered.take(j + 1).map_values(f));
            }
            j += 1;
        }
        proof {
            assert(ordered.take(ordered.len() as int) =~= ordered);
        }
        if translations.len() > 0 {
            let format = translations[0].template.render();
            let text = join3(
                pieces::FALLBACK_HEAD,
                quoted(format.as_str()).as_str(),
                pieces::FALLBACK_TAIL,
            );
            push_block(blocks, 3, text);
            proof {
                assert(blocks.deep_view() =~= start + match_arm_blocks(all));
            }
        } else {
            proof {
                assert(blocks.deep_view() =~= start + match_arm_blocks(all));
            }
        }
    }

    /// Appends the rule of one key.
    fn generate_key(entry: &CatalogEntry, blocks: &mut Vec<Block>)
        ensures
            final(blocks).deep_view() == old(blocks).deep_view() + key_blocks(entry.deep_view()),
    {
        let ghost start = blocks.deep_view();
        let head = join3(pieces::KEY_OPEN_HEAD, entry.key.as_str(), pieces::KEY_OPEN_TAIL);
        push_block(blocks, 1, head);
        Self::generate_match_arms(&entry.translations, blocks);
        push_fixed(blocks, 1, pieces::KEY_CLOSE);
        proof {
            assert(blocks.deep_view() =~= start + key_blocks(entry.deep_view()));
        }
    }

    /// Appends the codec of the locale type.
    pub fn generate_serde(languages: &Vec<String>, regions: &Vec<String>, blocks: &mut Vec<Block>)
        ensures
            final(blocks).deep_view() == old(blocks).deep_view() + codec_blocks(
                languages.deep_view(),
                regions.deep_view(),
            ),
    {
        let ghost start = blocks.deep_view();
        let ghost ls = languages.deep_view();
        let ghost rs = regions.deep_view().reverse();
        let ghost fr = |r: Seq<char>| block(5, decoder_region_text(r));
        let ghost fd = |l: Seq<char>| block(5, decoder_language_text(l));
        let ghost fe = |l: Seq<char>| block(3, encoder_text(l));
        push_fixed(blocks, 0, pieces::DECODER_OPEN);
        let ghost s1 = blocks.deep_view();
        let n = regions.len();
        let mut i: usize = 0;
        proof {
            assert(s1 + rs.take(0).map_values(fr) =~= s1);
        }
        while i < n
            invariant
                i <= n,
                n == regions.len(),
                rs == regions.deep_view().reverse(),
                fr == |r: Seq<char>| block(5, decoder_region_text(r)),
                blocks.deep_view() == s1 + rs.take(i as int).map_values(fr),
            decreases n - i,
        {
            let region = quoted(regions[n - 1 - i].as_str());
            let text = join5(
                pieces::DECODER_REGION_HEAD,
                region.as_str(),
                pieces::DECODER_REGION_MID,
                region.as_str(),
                pieces::DECODER_REGION_TAIL,
            );
            push_block(blocks, 5, text);
            proof {
                assert(rs[i as int] == regions@[n - 1 - i]@);
                assert(rs.take(i + 1).map_values(fr) =~= rs.take(i as int).map_values(fr).push(
                    fr(rs[i as int]),
                ));
                assert(blocks.deep_view() =~= s1 + rs.take(i + 1).map_values(fr));
            }
            i += 1;
        }
        proof {
            assert(rs.take(rs.len() as int) =~= rs);
        }
        push_fixed(blocks, 4, pieces::DECODER_LANGUAGES);
        let ghost s2 = blocks.deep_view();
        let mut j: usize = 0;
        proof {
            assert(s2 + ls.take(0).map_values(fd) =~= s2);
        }
        while j < languages.len()
            invariant
                j <= languages.len(),
                ls == languages.deep_view(),
                fd == |l: Seq<char>| block(5, decoder_language_text(l)),
                blocks.deep_view() == s2 + ls.take(j as int).map_values(fd),
            decreases languages.len() - j,
        {
            let name = quoted(snake_case(languages[j].as_str()).as_str());
            let text = join5(
                pieces::DECODER_LANGUAGE_HEAD,
                name.as_str(),
                pieces::DECODER_LANGUAGE_MID,
                languages[j].as_str(),
                pieces::DECODER_LANGUAGE_TAIL,
            );
            push_block(blocks, 5, text);
            proof {
                assert(ls[j as int] == languages@[j as int]@);
                assert(ls.take(j + 1).map_values(fd) =~= ls.take(j as int).map_values(fd).push(
                    fd(ls[j as int]),
                ));
                assert(blocks.deep_view() =~= s2 + ls.take(j + 1).map_values(fd));
            }
            j += 1;
        }
        proof {
            assert(ls.take(ls.len() as int) =~= ls);
        }
        push_fixed(blocks, 0, pieces::ENCODER_OPEN);
        let ghost s3 = blocks.deep_view();
        let mut k: usize = 0;
        proof {
            assert(s3 + ls.take(0).map_values(fe) =~= s3);
        }
        while k < languages.len()
            invariant
                k <= languages.len(),
                ls == languages.deep_view(),
                fe == |l: Seq<char>| block(3, encoder_text(l)),
                blocks.deep_view() == s3 + ls.take(k as int).map_values(fe),
            decreases languages.len() - k,
        {
            let name = quoted(snake_case(languages[k].as_str()).as_str());
            let text = join9(
                pieces::ENCODER_HEAD,
                languages[k].as_str(),
                pieces::ENCODER_BARE,
                name.as_str(),
                pieces::ENCODER_NEXT,
                languages[k].as_str(),
                pieces::ENCODER_FULL,
                name.as_str(),
                pieces::ENCODER_TAIL,
            );
            push_block(blocks, 3, text);
            proof {
                assert(ls[k as int] == languages@[k as int]@);
                assert(ls.take(k + 1).map_values(fe) =~= ls.take(k as int).map_values(fe).push(
                    fe(ls[k as int]),
                ));
                assert(blocks.deep_view() =~= s3 + ls.take(k + 1).map_values(fe));
            }
            k += 1;
        }
        proof {
            assert(ls.take(ls.len() as int) =~= ls);
        }
        push_fixed(blocks, 0, pieces::ENCODER_CLOSE);
        proof {
            assert(blocks.deep_view() =~= start + codec_blocks(
                languages.deep_view(),
                regions.deep_view(),
            ));
        }
    }

    /// Appends the locale type for the locales `tags`, of which
    /// `languages` are the languages.
    fn generate_locale_type(tags: &Vec<LocaleTag>, languages: &Vec<String>, blocks: &mut Vec<
        Block,
    >)
        requires
            tags.len() > 0,
            languages.deep_view() == languages_of(tags.deep_view()),
        ensures
            final(blocks).deep_view() == old(blocks).deep_view() + locale_type_blocks(
                tags.deep_view(),
            ),
    {
        let ghost start = blocks.deep_view();
        let ghost ts = tags.deep_view();
        let ghost ls = languages.deep_view();
        let ghost fv = |l: Seq<char>| block(1, variant_text(l));
        let ghost fi = |t: LocaleTagView| block(3, table_item_text(t));
        push_fixed(blocks, 0, pieces::ENUM_OPEN);
        let ghost s1 = blocks.deep_view();
        let mut j: usize = 0;
        proof {
            assert(s1 + ls.take(0).map_values(fv) =~= s1);
        }
        while j < languages.len()
            invariant
                j <= languages.len(),
                ls == languages.deep_view(),
                fv == |l: Seq<char>| block(1, variant_text(l)),
                blocks.deep_view() == s1 + ls.take(j as int).map_values(fv),
            decreases languages.len() - j,
        {
            let text = join5(
                pieces::VARIANT_HEAD,
                languages[j].as_str(),
                pieces::VARIANT_MID,
                languages[j].as_str(),
                pieces::VARIANT_TAIL,
            );
            push_block(blocks, 1, text);
            proof {
                assert(ls[j as int] == languages@[j as int]@);
                assert(ls.take(j + 1).map_values(fv) =~= ls.take(j as int).map_values(fv).push(
                    fv(ls[j as int]),
                ));
                assert(blocks.deep_view() =~= s1 + ls.take(j + 1).map_values(fv));
            }
            j += 1;
        }
        proof {
            assert(ls.take(ls.len() as int) =~= ls);
        }
        push_fixed(blocks, 0, pieces::TABLE_OPEN);
        let ghost s2 = blocks.deep_view();
        let mut i: usize = 0;
        proof {
            assert(s2 + ts.take(0).map_values(fi) =~= s2);
        }
        while i < tags.len()
            invariant
                i <= tags.len(),
                ts == tags.deep_view(),
                fi == |t: LocaleTagView| block(3, table_item_text(t)),
                blocks.deep_view() == s2 + ts.take(i as int).map_values(fi),
            decreases tags.len() - i,
        {
            let region = quoted_region(&tags[i].region);
            let text = join5(
                pieces::TABLE_ITEM_HEAD,
                tags[i].language.as_str(),
                pieces::TABLE_ITEM_MID,
                region.as_str(),
                pieces::TABLE_ITEM_TAIL,
            );
            push_block(blocks, 3, text);
            proof {
                assert(ts[i as int] == tags@[i as int].deep_view());
                assert(ts.take(i + 1).map_values(fi) =~= ts.take(i as int).map_values(fi).push(
                    fi(ts[i as int]),
                ));
                assert(blocks.deep_view() =~= s2 + ts.take(i + 1).map_values(fi));
            }
            i += 1;
        }
        proof {
            assert(ts.take(ts.len() as int) =~= ts);
        }
        push_fixed(blocks, 0, pieces::TABLE_CLOSE);
        push_fixed(blocks, 0, pieces::DEFAULT_OPEN);
        let region = quoted_region(&tags[0].region);
        let text = join5(
            pieces::DEFAULT_HEAD,
            tags[0].language.as_str(),
            pieces::DEFAULT_MID,
            region.as_str(),
            pieces::DEFAULT_TAIL,
        );
        push_block(blocks, 1, text);
        push_fixed(blocks, 0, pieces::DEFAULT_CLOSE);
        proof {
            assert(ts[0] == tags@[0].deep_view());
            assert(blocks.deep_view() =~= start + locale_type_blocks(ts));
        }
    }

    /// The blocks of the generated code, or `NoLocale` for a catalog
    /// without any translation.
    pub fn blocks(&self) -> (r: Result<Vec<Block>, TwineError>)
        ensures
            match r {
                Ok(blocks) => locales_of(self.catalog@).len() > 0 && blocks.deep_view()
                    == catalog_blocks(self.catalog@, self.with_codec),
                Err(e) => locales_of(self.catalog@).len() == 0 && e@ == TwineErrorView::NoLocale,
            },
    {
        let locales = self.catalog.locales();
        if locales.len() == 0 {
            return Err(TwineError::NoLocale);
        }
        let entries = self.catalog.entries();
        let ghost all = self.catalog@;
        let mut blocks: Vec<Block> = Vec::new();
        push_fixed(&mut blocks, 0, pieces::PREAMBLE);
        push_fixed(&mut blocks, 0, pieces::MACRO_OPEN);
        let ghost s0 = blocks.deep_view();
        let mut i: usize = 0;
        proof {
            assert(all.take(0) =~= Seq::<CatalogEntryView>::empty());
            assert(s0 + all_key_blocks(all.take(0)) =~= s0);
        }
        while i < entries.len()
            invariant
                i <= entries.len(),
                all == entries.deep_view(),
                blocks.deep_view() == s0 + all_key_blocks(all.take(i as int)),
            decreases entries.len() - i,
        {
            proof {
                assert(all.take(i + 1).drop_last() =~= all.take(i as int));
                assert(all.take(i + 1).last() == entries@[i as int].deep_view());
            }
            Self::generate_key(&entries[i], &mut blocks);
            proof {
                assert(blocks.deep_view() =~= s0 + all_key_blocks(all.take(i + 1)));
            }
            i += 1;
        }
        proof {
            assert(all.take(all.len() as int) =~= all);
        }
        push_fixed(&mut blocks, 0, pieces::MACRO_CLOSE);
        let languages = locales.languages();
        Self::generate_locale_type(locales.tags(), &languages, &mut blocks);
        if self.with_codec {
            let regions = locales.regions();
            Self::generate_serde(&languages, &regions, &mut blocks);
        }
        proof {
            assert(blocks.deep_view() =~= catalog_blocks(all, self.with_codec));
        }
        Ok(blocks)
    }

    /// The generated code.
    pub fn format(&self) -> (r: Result<String, TwineError>)
        ensures
            outcome(r) == formatted(self.catalog@, self.with_codec),
    {
        let blocks = match self.blocks() {
            Ok(blocks) => blocks,
            Err(e) => {
                return Err(e);
            },
        };
        lay_out(&blocks)
    }
}

} // verus!
