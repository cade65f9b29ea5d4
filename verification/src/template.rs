//! The format transcompiler: printf-style placeholders in translation text
//! become placeholders of the target format syntax.

use crate::pattern::regex_captures_all;
use crate::pattern::Grammar;
use crate::pattern::PLACEHOLDER_PATTERN;
use crate::text::chars_of;
use crate::text::text_eq;
use vstd::prelude::*;

verus! {

/// What kind of value a placeholder stands for.
#[derive(Debug, Clone, Copy, PartialEq, Eq, Structural)]
pub enum Conversion {
    /// `%d`
    Decimal,
    /// `%i`
    Integer,
    /// `%s`
    Text,
    /// `%@`
    Object,
    /// `%x`
    HexLower,
    /// `%X`
    HexUpper,
    /// `%f`
    Float,
}

/// A printf placeholder: `%`, then optionally a flag, a width and a
/// precision, then the conversion letter.
#[derive(Debug)]
pub struct Placeholder {
    /// One of `-` (left-justify), `+` (always a sign), `#` (alternate
    /// form).
    pub flag: Option<String>,
    /// A run of digits.
    pub width: Option<String>,
    /// A dot and a run of digits.
    pub precision: Option<String>,
    pub conversion: Conversion,
}

/// The mathematical content of a [`Placeholder`].
pub struct PlaceholderView {
    pub flag: Option<Seq<char>>,
    pub width: Option<Seq<char>>,
    pub precision: Option<Seq<char>>,
    pub conversion: Conversion,
}

impl DeepView for Placeholder {
    type V = PlaceholderView;

    open spec fn deep_view(&self) -> PlaceholderView {
        PlaceholderView {
            flag: self.flag.deep_view(),
            width: self.width.deep_view(),
            precision: self.precision.deep_view(),
            conversion: self.conversion,
        }
    }
}

/// One piece of a translation.
#[derive(Debug)]
pub enum Segment {
    /// Text that is copied through unchanged.
    Literal(String),
    /// The escape `%%`, which stands for one `%`.
    Percent,
    /// A placeholder.
    Placeholder(Placeholder),
}

/// The mathematical content of a [`Segment`].
pub enum SegmentView {
    Literal(Seq<char>),
    Percent,
    Placeholder(PlaceholderView),
}

impl DeepView for Segment {
    type V = SegmentView;

    open spec fn deep_view(&self) -> SegmentView {
        match self {
            Segment::Literal(text) => SegmentView::Literal(text@),
            Segment::Percent => SegmentView::Percent,
            Segment::Placeholder(p) => SegmentView::Placeholder(p.deep_view()),
        }
    }
}

/// The conversion that a conversion letter selects.
pub open spec fn conversion_of(letter: Seq<char>) -> Option<Conversion> {
    if letter == seq!['d'] {
        Some(Conversion::Decimal)
    } else if letter == seq!['i'] {
        Some(Conversion::Integer)
    } else if letter == seq!['s'] {
        Some(Conversion::Text)
    } else if letter == seq!['@'] {
        Some(Conversion::Object)
    } else if letter == seq!['x'] {
        Some(Conversion::HexLower)
    } else if letter == seq!['X'] {
        Some(Conversion::HexUpper)
    } else if letter == seq!['f'] {
        Some(Conversion::Float)
    } else {
        None
    }
}

/// The letter that selects a conversion.
pub open spec fn conversion_letter(conversion: Conversion) -> char {
    match conversion {
        Conversion::Decimal => 'd',
        Conversion::Integer => 'i',
        Conversion::Text => 's',
        Conversion::Object => '@',
        Conversion::HexLower => 'x',
        Conversion::HexUpper => 'X',
        Conversion::Float => 'f',
    }
}

/// A text that may be absent counts as empty.
pub open spec fn or_empty(text: Option<Seq<char>>) -> Seq<char> {
    match text {
        Some(t) => t,
        None => Seq::empty(),
    }
}

/// The segment that one token of a translation is, given the token's
/// groups: the whole token, the flag, the width, the precision and the
/// conversion letter. A token with a conversion letter is a placeholder,
/// the token `%%` is the escape, any other token is literal text.
pub open spec fn segment_of(groups: Seq<Option<Seq<char>>>) -> SegmentView {
    if groups.len() > 4 && groups[4] is Some && conversion_of(groups[4]->0) is Some {
        SegmentView::Placeholder(
            PlaceholderView {
                flag: groups[1],
                width: groups[2],
                precision: groups[3],
                conversion: conversion_of(groups[4]->0)->0,
            },
        )
    } else if groups.len() > 0 && groups[0] == Some(seq!['%', '%']) {
        SegmentView::Percent
    } else if groups.len() > 0 {
        SegmentView::Literal(or_empty(groups[0]))
    } else {
        SegmentView::Literal(Seq::empty())
    }
}

/// The segments that the tokens are, token by token.
pub open spec fn cut(tokens: Seq<Seq<Option<Seq<char>>>>) -> Seq<SegmentView> {
    tokens.map_values(|groups: Seq<Option<Seq<char>>>| segment_of(groups))
}

/// The segments of `text`, given its tokens: one for each token where the
/// tokens account for the whole text; else the text as one literal, so
/// that nothing of it is lost.
pub open spec fn template_from(tokens: Seq<Seq<Option<Seq<char>>>>, text: Seq<char>) -> Seq<
    SegmentView,
> {
    if source_text(cut(tokens)) == text {
        cut(tokens)
    } else {
        seq![SegmentView::Literal(text)]
    }
}

/// The segments of a translation.
pub open spec fn template_of(text: Seq<char>) -> Seq<SegmentView> {
    template_from(regex_captures_all(PLACEHOLDER_PATTERN@, text), text)
}

/// What follows the precision in the target syntax: hexadecimal keeps its
/// letter and thereby its case, every other conversion leaves nothing.
pub open spec fn type_marker(conversion: Conversion) -> Seq<char> {
    match conversion {
        Conversion::HexLower => seq!['x'],
        Conversion::HexUpper => seq!['X'],
        _ => Seq::empty(),
    }
}

/// Whether the placeholder is left-justified: its flag is `-`.
pub open spec fn left_justified(p: PlaceholderView) -> bool {
    p.flag == Some(seq!['-'])
}

/// Whether the conversion puts text in: a string or an object.
pub open spec fn textual(conversion: Conversion) -> bool {
    conversion == Conversion::Text || conversion == Conversion::Object
}

/// The alignment of a placeholder in the target syntax. printf fills a
/// width on the left unless the flag `-` asks for the right; the target
/// syntax fills on the left for numbers and on the right for text. So
/// `-` becomes `<`, a width on text without `-` gets `>`, and everything
/// else needs no alignment.
pub open spec fn alignment(p: PlaceholderView) -> Seq<char> {
    if left_justified(p) {
        seq!['<']
    } else if p.width is Some && textual(p.conversion) {
        seq!['>']
    } else {
        Seq::empty()
    }
}

/// The flag of a placeholder as far as the target syntax has it: `+` and
/// `#` stay as they are, `-` has become the alignment.
pub open spec fn kept_flag(p: PlaceholderView) -> Seq<char> {
    if left_justified(p) {
        Seq::empty()
    } else {
        or_empty(p.flag)
    }
}

/// A placeholder in the target syntax: `{:`, the alignment, the flag that
/// is kept, the width, the precision, the type marker, `}`.
pub open spec fn rendered_placeholder(p: PlaceholderView) -> Seq<char> {
    seq!['{', ':'] + alignment(p) + kept_flag(p) + or_empty(p.width) + or_empty(p.precision)
        + type_marker(p.conversion) + seq!['}']
}

/// Justification is kept across the two syntaxes: a placeholder with the
/// flag `-` is written with `<` and without the flag, so that its value
/// stands on the left of the width; text with a width and without `-` is
/// written with `>`, so that it stands on the right as printf puts it;
/// a number without `-` is written as it is, since both syntaxes put it
/// on the right.
pub proof fn lemma_justification_is_kept(p: PlaceholderView)
    ensures
        left_justified(p) ==> rendered_placeholder(p) == seq!['{', ':', '<'] + or_empty(p.width)
            + or_empty(p.precision) + type_marker(p.conversion) + seq!['}'],
        !left_justified(p) && p.width is Some && textual(p.conversion) ==> rendered_placeholder(p)
            == seq!['{', ':', '>'] + or_empty(p.flag) + or_empty(p.width) + or_empty(p.precision)
            + type_marker(p.conversion) + seq!['}'],
        !left_justified(p) && !(p.width is Some && textual(p.conversion)) ==> rendered_placeholder(
            p,
        ) == seq!['{', ':'] + or_empty(p.flag) + or_empty(p.width) + or_empty(p.precision)
            + type_marker(p.conversion) + seq!['}'],
{
    if left_justified(p) {
        assert(rendered_placeholder(p) =~= seq!['{', ':', '<'] + or_empty(p.width) + or_empty(
            p.precision,
        ) + type_marker(p.conversion) + seq!['}']);
    } else if p.width is Some && textual(p.conversion) {
        assert(rendered_placeholder(p) =~= seq!['{', ':', '>'] + or_empty(p.flag) + or_empty(
            p.width,
        ) + or_empty(p.precision) + type_marker(p.conversion) + seq!['}']);
    } else {
        assert(rendered_placeholder(p) =~= seq!['{', ':'] + or_empty(p.flag) + or_empty(p.width)
            + or_empty(p.precision) + type_marker(p.conversion) + seq!['}']);
    }
}

/// A placeholder as it stood in the translation.
pub open spec fn placeholder_source(p: PlaceholderView) -> Seq<char> {
    seq!['%'] + or_empty(p.flag) + or_empty(p.width) + or_empty(p.precision) + seq![
        conversion_letter(p.conversion),
    ]
}

/// A segment in the target syntax.
pub open spec fn rendered_segment(segment: SegmentView) -> Seq<char> {
    match segment {
        SegmentView::Literal(text) => text,
        SegmentView::Percent => seq!['%'],
        SegmentView::Placeholder(p) => rendered_placeholder(p),
    }
}

/// A segment as it stood in the translation.
pub open spec fn segment_source(segment: SegmentView) -> Seq<char> {
    match segment {
        SegmentView::Literal(text) => text,
        SegmentView::Percent => seq!['%', '%'],
        SegmentView::Placeholder(p) => placeholder_source(p),
    }
}

/// The segments in the target syntax, one after the other.
pub open spec fn rendered(segments: Seq<SegmentView>) -> Seq<char>
    decreases segments.len(),
{
    if segments.len() == 0 {
        Seq::empty()
    } else {
        rendered(segments.drop_last()) + rendered_segment(segments.last())
    }
}

/// The segments as they stood in the translation, one after the other.
pub open spec fn source_text(segments: Seq<SegmentView>) -> Seq<char>
    decreases segments.len(),
{
    if segments.len() == 0 {
        Seq::empty()
    } else {
        source_text(segments.drop_last()) + segment_source(segments.last())
    }
}

/// The whole tokens, one after the other.
pub open spec fn tokens_text(tokens: Seq<Seq<Option<Seq<char>>>>) -> Seq<char>
    decreases tokens.len(),
{
    if tokens.len() == 0 {
        Seq::empty()
    } else {
        tokens_text(tokens.drop_last()) + or_empty(
            if tokens.last().len() > 0 {
                tokens.last()[0]
            } else {
                None
            },
        )
    }
}

/// A token whose whole text is its parts put together: `%`, the flag, the
/// width, the precision and the conversion letter where it has a letter.
pub open spec fn token_is_sum_of_parts(groups: Seq<Option<Seq<char>>>) -> bool {
    groups.len() > 4 && groups[4] is Some ==> groups[0] == Some(
        seq!['%'] + or_empty(groups[1]) + or_empty(groups[2]) + or_empty(groups[3])
            + groups[4]->0,
    )
}

/// The segments of a translation put together are the translation:
/// nothing is dropped, added or moved.
pub proof fn lemma_template_keeps_the_text(tokens: Seq<Seq<Option<Seq<char>>>>, text: Seq<char>)
    ensures
        source_text(template_from(tokens, text)) == text,
{
    if source_text(cut(tokens)) != text {
        let whole = seq![SegmentView::Literal(text)];
        assert(whole.drop_last() =~= Seq::<SegmentView>::empty());
        assert(source_text(whole) == source_text(whole.drop_last()) + text);
        assert(Seq::<char>::empty() + text =~= text);
    }
}

/// Where every token is the sum of its parts, the segments' sources put
/// together are the tokens put together.
pub proof fn lemma_segments_keep_the_tokens(tokens: Seq<Seq<Option<Seq<char>>>>)
    requires
        forall|i: int| 0 <= i < tokens.len() ==> token_is_sum_of_parts(#[trigger] tokens[i]),
    ensures
        source_text(cut(tokens)) == tokens_text(tokens),
    decreases tokens.len(),
{
    let f = |groups: Seq<Option<Seq<char>>>| segment_of(groups);
    if tokens.len() > 0 {
        let init = tokens.drop_last();
        let last = tokens.last();
        assert forall|i: int| 0 <= i < init.len() implies token_is_sum_of_parts(
            #[trigger] init[i],
        ) by {
            assert(init[i] == tokens[i]);
        }
        lemma_segments_keep_the_tokens(init);
        assert(tokens.map_values(f).drop_last() =~= init.map_values(f));
        assert(tokens.map_values(f).last() == segment_of(last));
        assert(token_is_sum_of_parts(last));
        if last.len() > 4 && last[4] is Some && conversion_of(last[4]->0) is Some {
            let letter = last[4]->0;
            assert(letter =~= seq![conversion_letter(conversion_of(letter)->0)]);
        }
    }
}

impl Conversion {
    /// The conversion that the letter `c` selects, if it selects one.
    pub fn from_letter(c: char) -> (r: Option<Conversion>)
        ensures
            r == conversion_of(seq![c]),
    {
        proof {
            assert(seq![c][0] == c);
            assert(seq!['d'][0] == 'd');
            assert(seq!['i'][0] == 'i');
            assert(seq!['s'][0] == 's');
            assert(seq!['@'][0] == '@');
            assert(seq!['x'][0] == 'x');
            assert(seq!['X'][0] == 'X');
            assert(seq!['f'][0] == 'f');
        }
        if c == 'd' {
            Some(Conversion::Decimal)
        } else if c == 'i' {
            Some(Conversion::Integer)
        } else if c == 's' {
            Some(Conversion::Text)
        } else if c == '@' {
            Some(Conversion::Object)
        } else if c == 'x' {
            Some(Conversion::HexLower)
        } else if c == 'X' {
            Some(Conversion::HexUpper)
        } else if c == 'f' {
            Some(Conversion::Float)
        } else {
            None
        }
    }

    /// The letter that selects this conversion.
    pub fn letter(&self) -> (c: char)
        ensures
            c == conversion_letter(*self),
    {
        match self {
            Conversion::Decimal => 'd',
            Conversion::Integer => 'i',
            Conversion::Text => 's',
            Conversion::Object => '@',
            Conversion::HexLower => 'x',
            Conversion::HexUpper => 'X',
            Conversion::Float => 'f',
        }
    }
}

/// A copy of a text that may be absent.
fn copy_of(text: &Option<String>) -> (r: Option<String>)
    ensures
        r.deep_view() == text.deep_view(),
{
    match text {
        Some(t) => Some(t.clone()),
        None => None,
    }
}

/// Appends a text that may be absent.
fn append_or_nothing(out: &mut String, text: &Option<String>)
    ensures
        final(out)@ == old(out)@ + or_empty(text.deep_view()),
{
    match text {
        Some(t) => {
            out.append(t.as_str());
        },
        None => {
            assert(out@ + Seq::<char>::empty() =~= out@);
        },
    }
}

impl Placeholder {
    /// Whether this placeholder is left-justified: its flag is `-`.
    pub fn is_left_justified(&self) -> (r: bool)
        ensures
            r == left_justified(self.deep_view()),
    {
        match &self.flag {
            Some(flag) => {
                let cs = chars_of(flag.as_str());
                proof {
                    assert(seq!['-'].len() == 1);
                    assert(seq!['-'][0] == '-');
                    if cs.len() == 1 && cs@[0] == '-' {
                        assert(flag@ =~= seq!['-']);
                    }
                }
                cs.len() == 1 && cs[0] == '-'
            },
            None => false,
        }
    }

    /// Appends the alignment of this placeholder and the flag that is kept.
    fn align_into(&self, out: &mut String)
        ensures
            final(out)@ == old(out)@ + (alignment(self.deep_view()) + kept_flag(
                self.deep_view(),
            )),
    {
        let ghost start = out@;
        let ghost p = self.deep_view();
        if self.is_left_justified() {
            out.push('<');
            proof {
                assert(alignment(p) + kept_flag(p) =~= seq!['<']);
                assert(out@ =~= start + seq!['<']);
            }
        } else {
            let text = match self.conversion {
                Conversion::Text => true,
                Conversion::Object => true,
                _ => false,
            };
            assert(text == textual(p.conversion));
            if self.width.is_some() && text {
                out.push('>');
                assert(out@ =~= start + alignment(p));
            } else {
                assert(out@ =~= start + alignment(p));
            }
            append_or_nothing(out, &self.flag);
            proof {
                assert(out@ =~= start + (alignment(p) + kept_flag(p)));
            }
        }
    }

    /// Appends the type marker of this placeholder.
    fn mark_into(&self, out: &mut String)
        ensures
            final(out)@ == old(out)@ + type_marker(self.conversion),
    {
        let ghost start = out@;
        match self.conversion {
            Conversion::HexLower => {
                out.push('x');
                assert(out@ =~= start + seq!['x']);
            },
            Conversion::HexUpper => {
                out.push('X');
                assert(out@ =~= start + seq!['X']);
            },
            _ => {
                assert(out@ =~= start + Seq::<char>::empty());
            },
        }
    }

    /// Appends this placeholder to `out` in the target syntax.
    pub fn render_into(&self, out: &mut String)
        ensures
            final(out)@ == old(out)@ + rendered_placeholder(self.deep_view()),
    {
        let ghost start = out@;
        let ghost p = self.deep_view();
        out.push('{');
        out.push(':');
        let ghost s1 = out@;
        self.align_into(out);
        let ghost s2 = out@;
        append_or_nothing(out, &self.width);
        append_or_nothing(out, &self.precision);
        let ghost s3 = out@;
        self.mark_into(out);
        let ghost s4 = out@;
        out.push('}');
        proof {
            assert(s1 =~= start + seq!['{', ':']);
            assert(s2 =~= start + (seq!['{', ':'] + alignment(p) + kept_flag(p)));
            assert(s3 =~= start + (seq!['{', ':'] + alignment(p) + kept_flag(p) + or_empty(
                p.width,
            ) + or_empty(p.precision)));
            assert(s4 =~= start + (seq!['{', ':'] + alignment(p) + kept_flag(p) + or_empty(
                p.width,
            ) + or_empty(p.precision) + type_marker(p.conversion)));
            assert(out@ =~= start + rendered_placeholder(p));
        }
    }

    /// Appends this placeholder to `out` as it stood in the translation.
    pub fn source_into(&self, out: &mut String)
        ensures
            final(out)@ == old(out)@ + placeholder_source(self.deep_view()),
    {
        let ghost start = out@;
        out.push('%');
        append_or_nothing(out, &self.flag);
        append_or_nothing(out, &self.width);
        append_or_nothing(out, &self.precision);
        out.push(self.conversion.letter());
        proof {
            assert(out@ =~= start + placeholder_source(self.deep_view()));
        }
    }
}

impl Segment {
    /// The segment that a token is, given the token's groups.
    pub fn from_groups(groups: &Vec<Option<String>>) -> (r: Segment)
        ensures
            r.deep_view() == segment_of(groups.deep_view()),
    {
        let ghost g = groups.deep_view();
        proof {
            assert(g.len() == groups.len());
        }
        if groups.len() > 4 {
            match &groups[4] {
                Some(letter) => {
                    assert(g[4] == Some(letter@));
                    let cs = chars_of(letter.as_str());
                    if cs.len() == 1 {
                        proof {
                            assert(letter@ =~= seq![cs@[0]]);
                        }
                        match Conversion::from_letter(cs[0]) {
                            Some(conversion) => {
                                proof {
                                    assert(g[1] == groups@[1].deep_view());
                                    assert(g[2] == groups@[2].deep_view());
                                    assert(g[3] == groups@[3].deep_view());
                                }
                                return Segment::Placeholder(
                                    Placeholder {
                                        flag: copy_of(&groups[1]),
                                        width: copy_of(&groups[2]),
                                        precision: copy_of(&groups[3]),
                                        conversion,
                                    },
                                );
                            },
                            None => {},
                        }
                    } else {
                        proof {
                            assert(seq!['d'].len() == 1);
                            assert(seq!['i'].len() == 1);
                            assert(seq!['s'].len() == 1);
                            assert(seq!['@'].len() == 1);
                            assert(seq!['x'].len() == 1);
                            assert(seq!['X'].len() == 1);
                            assert(seq!['f'].len() == 1);
                            assert(conversion_of(letter@) is None);
                        }
                    }
                },
                None => {
                    assert(g[4] is None);
                },
            }
        }
        if groups.len() > 0 {
            match &groups[0] {
                Some(whole) => {
                    assert(g[0] == Some(whole@));
                    let cs = chars_of(whole.as_str());
                    if cs.len() == 2 && cs[0] == '%' && cs[1] == '%' {
                        proof {
                            assert(whole@ =~= seq!['%', '%']);
                        }
                        Segment::Percent
                    } else {
                        proof {
                            if whole@ == seq!['%', '%'] {
                                assert(seq!['%', '%'].len() == 2);
                                assert(seq!['%', '%'][0] == '%');
                                assert(seq!['%', '%'][1] == '%');
                            }
                        }
                        Segment::Literal(whole.clone())
                    }
                },
                None => {
                    assert(g[0] is None);
                    Segment::Literal(String::new())
                },
            }
        } else {
            Segment::Literal(String::new())
        }
    }

    /// Appends this segment to `out` in the target syntax.
    pub fn render_into(&self, out: &mut String)
        ensures
            final(out)@ == old(out)@ + rendered_segment(self.deep_view()),
    {
        match self {
            Segment::Literal(text) => {
                out.append(text.as_str());
            },
            Segment::Percent => {
                let ghost start = out@;
                out.push('%');
                assert(out@ =~= start + seq!['%']);
            },
            Segment::Placeholder(p) => {
                p.render_into(out);
            },
        }
    }

    /// Appends this segment to `out` as it stood in the translation.
    pub fn source_into(&self, out: &mut String)
        ensures
            final(out)@ == old(out)@ + segment_source(self.deep_view()),
    {
        match self {
            Segment::Literal(text) => {
                out.append(text.as_str());
            },
            Segment::Percent => {
                let ghost start = out@;
                out.push('%');
                out.push('%');
                assert(out@ =~= start + seq!['%', '%']);
            },
            Segment::Placeholder(p) => {
                p.source_into(out);
            },
        }
    }
}

/// A translation cut into literal text and placeholders.
#[derive(Debug)]
pub struct FormatTemplate {
    pub segments: Vec<Segment>,
}

impl DeepView for FormatTemplate {
    type V = Seq<SegmentView>;

    open spec fn deep_view(&self) -> Seq<SegmentView> {
        self.segments.deep_view()
    }
}

impl FormatTemplate {
    /// The template made of the segments that the tokens are, token by
    /// token.
    pub fn cut(tokens: &Vec<Vec<Option<String>>>) -> (r: FormatTemplate)
        ensures
            r.deep_view() == cut(tokens.deep_view()),
    {
        let ghost all = tokens.deep_view();
        let ghost f = |groups: Seq<Option<Seq<char>>>| segment_of(groups);
        let mut segments: Vec<Segment> = Vec::new();
        let mut i: usize = 0;
        proof {
            assert(segments.deep_view() =~= all.take(0).map_values(f));
        }
        while i < tokens.len()
            invariant
                i <= tokens.len(),
                all == tokens.deep_view(),
                f == |groups: Seq<Option<Seq<char>>>| segment_of(groups),
                segments.deep_view() == all.take(i as int).map_values(f),
            decreases tokens.len() - i,
        {
            let ghost before = segments.deep_view();
            let segment = Segment::from_groups(&tokens[i]);
            proof {
                assert(tokens@[i as int].deep_view() == all[i as int]);
            }
            segments.push(segment);
            proof {
                assert(segments.deep_view() =~= before.push(segment_of(all[i as int])));
                assert(all.take(i + 1).map_values(f) =~= all.take(i as int).map_values(f).push(
                    segment_of(all[i as int]),
                ));
            }
            i += 1;
        }
        proof {
            assert(all.take(all.len() as int) =~= all);
        }
        FormatTemplate { segments }
    }

    /// The template of `text`, given its tokens: the segments that the
    /// tokens are where they account for the whole text, else the text as
    /// one literal. Either way the segments put together are the text.
    pub fn from_tokens(tokens: &Vec<Vec<Option<String>>>, text: &str) -> (r: FormatTemplate)
        ensures
            r.deep_view() == template_from(tokens.deep_view(), text@),
            source_text(r.deep_view()) == text@,
    {
        proof {
            lemma_template_keeps_the_text(tokens.deep_view(), text@);
        }
        let template = Self::cut(tokens);
        if text_eq(template.source().as_str(), text) {
            template
        } else {
            let mut segments: Vec<Segment> = Vec::new();
            segments.push(Segment::Literal(text.to_owned()));
            proof {
                assert(segments.deep_view() =~= seq![SegmentView::Literal(text@)]);
            }
            FormatTemplate { segments }
        }
    }

    /// Cuts a translation into its segments. The segments put together are
    /// the translation.
    pub fn parse(grammar: &Grammar, text: &str) -> (r: FormatTemplate)
        ensures
            r.deep_view() == template_of(text@),
            source_text(r.deep_view()) == text@,
    {
        let tokens = grammar.placeholder_groups(text);
        Self::from_tokens(&tokens, text)
    }

    /// The template in the target format syntax.
    pub fn render(&self) -> (r: String)
        ensures
            r@ == rendered(self.deep_view()),
    {
        let ghost all = self.deep_view();
        let mut out = String::new();
        let mut i: usize = 0;
        proof {
            assert(all.take(0) =~= Seq::<SegmentView>::empty());
        }
        while i < self.segments.len()
            invariant
                i <= self.segments.len(),
                all == self.deep_view(),
                out@ == rendered(all.take(i as int)),
            decreases self.segments.len() - i,
        {
            proof {
                assert(all.take(i + 1).drop_last() =~= all.take(i as int));
                assert(all.take(i + 1).last() == self.segments@[i as int].deep_view());
            }
            self.segments[i].render_into(&mut out);
            i += 1;
        }
        proof {
            assert(all.take(all.len() as int) =~= all);
        }
        out
    }

    /// The translation that the template was cut from.
    pub fn source(&self) -> (r: String)
        ensures
            r@ == source_text(self.deep_view()),
    {
        let ghost all = self.deep_view();
        let mut out = String::new();
        let mut i: usize = 0;
        proof {
            assert(all.take(0) =~= Seq::<SegmentView>::empty());
        }
        while i < self.segments.len()
            invariant
                i <= self.segments.len(),
                all == self.deep_view(),
                out@ == source_text(all.take(i as int)),
            decreases self.segments.len() - i,
        {
            proof {
                assert(all.take(i + 1).drop_last() =~= all.take(i as int));
                assert(all.take(i + 1).last() == self.segments@[i as int].deep_view());
            }
            self.segments[i].source_into(&mut out);
            i += 1;
        }
        proof {
            assert(all.take(all.len() as int) =~= all);
        }
        out
    }
}

} // verus!
