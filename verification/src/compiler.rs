//! The compiler's entry points: from the text of the sources to the text
//! of the generated code.

use crate::catalog::compiled;
use crate::catalog::Catalog;
use crate::emit::formatted;
use crate::emit::TwineFormatter;
use crate::error::outcome;
use crate::error::TwineError;
use crate::error::TwineErrorView;
use crate::pattern::Grammar;
use crate::reader::as_map;
use crate::reader::distinct_keys;
use crate::reader::lemma_read_lines_wf;
use crate::reader::lemma_merge_overrides;
use crate::reader::merged;
use crate::text::lines_of;
use crate::reader::read_text;
use crate::reader::RawCatalog;
use crate::reader::RawEntryView;
use vstd::prelude::*;

verus! {

/// The raw catalog of several sources read in order: each source is
/// merged into what the sources before it gave, key by key. The first
/// source with an offending line ends the work; the error names the
/// source, counted from 0, and the line, counted from 1.
pub open spec fn read_all(sources: Seq<Seq<char>>) -> Result<Seq<RawEntryView>, TwineErrorView>
    decreases sources.len(),
{
    if sources.len() == 0 {
        Ok(Seq::empty())
    } else {
        match read_all(sources.drop_last()) {
            Ok(base) => match read_text(sources.last()) {
                Ok(entries) => Ok(merged(base, entries)),
                Err(line) => Err(
                    TwineErrorView::MalformedCatalog {
                        source: (sources.len() - 1) as nat,
                        line,
                    },
                ),
            },
            Err(e) => Err(e),
        }
    }
}

/// Once a source has failed, the sources after it change nothing.
pub proof fn lemma_read_all_stays_failed(sources: Seq<Seq<char>>, n: int, m: int)
    requires
        0 <= n <= m <= sources.len(),
        read_all(sources.take(n)) is Err,
    ensures
        read_all(sources.take(m)) == read_all(sources.take(n)),
    decreases m,
{
    if n < m {
        lemma_read_all_stays_failed(sources, n, m - 1);
        assert(sources.take(m).drop_last() =~= sources.take(m - 1));
    }
}

/// What the sources give holds every key once.
pub proof fn lemma_read_all_keeps_keys_apart(sources: Seq<Seq<char>>)
    ensures
        read_all(sources) matches Ok(entries) ==> distinct_keys(entries),
    decreases sources.len(),
{
    if sources.len() > 0 {
        lemma_read_all_keeps_keys_apart(sources.drop_last());
        if let Ok(base) = read_all(sources.drop_last()) {
            if let Ok(entries) = read_text(sources.last()) {
                let lines = lines_of(sources.last());
                lemma_read_lines_wf(lines, lines.len());
                lemma_merge_overrides(base, entries);
            }
        }
    }
}

/// Whole-key override across sources: under every key of the last source
/// stands the last source's list, entire; every other key keeps the list
/// that the sources before gave it.
pub proof fn lemma_later_source_overrides(sources: Seq<Seq<char>>)
    requires
        sources.len() > 0,
        read_all(sources) is Ok,
    ensures
        read_all(sources.drop_last()) is Ok,
        read_text(sources.last()) is Ok,
        as_map(read_all(sources)->Ok_0) == as_map(
            read_all(sources.drop_last())->Ok_0,
        ).union_prefer_right(as_map(read_text(sources.last())->Ok_0)),
{
    lemma_read_all_keeps_keys_apart(sources.drop_last());
    let lines = lines_of(sources.last());
    lemma_read_lines_wf(lines, lines.len());
    lemma_merge_overrides(read_all(sources.drop_last())->Ok_0, read_text(sources.last())->Ok_0);
}

/// The generated code for the sources, given that the patterns of the
/// catalog syntax are accepted: the sources are read and merged, the
/// catalog is compiled, and its code is laid out. The first failure on
/// the way is the result.
pub open spec fn compiled_text(sources: Seq<Seq<char>>, with_codec: bool) -> Result<
    Seq<char>,
    TwineErrorView,
> {
    match read_all(sources) {
        Ok(raw) => match compiled(raw) {
            Ok(entries) => formatted(entries, with_codec),
            Err(e) => Err(e),
        },
        Err(e) => Err(e),
    }
}

/// Reads the sources in order into one raw catalog.
pub fn read_sources(grammar: &Grammar, sources: &Vec<String>) -> (r: Result<
    RawCatalog,
    TwineError,
>)
    ensures
        match r {
            Ok(catalog) => read_all(sources.deep_view()) == Ok::<
                Seq<RawEntryView>,
                TwineErrorView,
            >(catalog@) && catalog.wf(),
            Err(e) => read_all(sources.deep_view()) == Err::<Seq<RawEntryView>, TwineErrorView>(
                e@,
            ),
        },
{
    let ghost all = sources.deep_view();
    let mut catalog = RawCatalog::new();
    let mut i: usize = 0;
    proof {
        assert(all.take(0) =~= Seq::<Seq<char>>::empty());
    }
    while i < sources.len()
        invariant
            i <= sources.len(),
            all == sources.deep_view(),
            catalog.wf(),
            read_all(all.take(i as int)) == Ok::<Seq<RawEntryView>, TwineErrorView>(catalog@),
        decreases sources.len() - i,
    {
        proof {
            assert(all.take(i + 1).drop_last() =~= all.take(i as int));
            assert(all.take(i + 1).last() == sources@[i as int]@);
        }
        match RawCatalog::read(grammar, sources[i].as_str()) {
            Ok(other) => {
                catalog.merge(other);
            },
            Err(line) => {
                proof {
                    lemma_read_all_stays_failed(all, i + 1, all.len() as int);
                    assert(all.take(all.len() as int) =~= all);
                }
                return Err(TwineError::MalformedCatalog { source: i, line });
            },
        }
        i += 1;
    }
    proof {
        assert(all.take(all.len() as int) =~= all);
    }
    Ok(catalog)
}

/// What compiling the sources gives: `InvalidPattern` where the pattern
/// engine rejects the catalog syntax, else the compiled text of the
/// sources or the failure on the way to it.
pub open spec fn compile_outcome(sources: Seq<Seq<char>>, with_codec: bool) -> Result<
    Seq<char>,
    TwineErrorView,
> {
    if Grammar::patterns_accepted() {
        compiled_text(sources, with_codec)
    } else {
        Err(TwineErrorView::InvalidPattern)
    }
}

/// Compiles the sources into the generated code, with the compiled
/// patterns at hand.
pub fn compile_with(grammar: &Grammar, sources: &Vec<String>, with_codec: bool) -> (r: Result<
    String,
    TwineError,
>)
    ensures
        outcome(r) == compiled_text(sources.deep_view(), with_codec),
{
    let raw = match read_sources(grammar, sources) {
        Ok(raw) => raw,
        Err(e) => {
            return Err(e);
        },
    };
    let catalog = match Catalog::compile(grammar, &raw) {
        Ok(catalog) => catalog,
        Err(e) => {
            return Err(e);
        },
    };
    let formatter = TwineFormatter { catalog, with_codec };
    formatter.format()
}

/// Compiles the sources into the generated code. What comes out is
/// determined by the text of the sources and by `with_codec`, and by
/// nothing else: compiling the same sources again gives the same text,
/// character for character, or the same failure.
pub fn compile(sources: &Vec<String>, with_codec: bool) -> (r: Result<String, TwineError>)
    ensures
        outcome(r) == compile_outcome(sources.deep_view(), with_codec),
{
    match Grammar::new() {
        Ok(grammar) => compile_with(&grammar, sources, with_codec),
        Err(e) => Err(e),
    }
}

} // verus!
