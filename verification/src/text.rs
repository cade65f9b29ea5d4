//! Texts as sequences of characters: conversion, comparison, order, lines
//! and small scans.

use crate::order::rank;
use crate::order::set_inserted;
use crate::order::strict_total;
use vstd::prelude::*;

verus! {

/// `String::push` of the standard library: it appends one character to the
/// end of the string.
pub assume_specification[ String::push ](s: &mut String, c: char)
    ensures
        final(s)@ == old(s)@.push(c),
;

/// The characters of `s`, in order.
pub fn chars_of(s: &str) -> (out: Vec<char>)
    ensures
        out@ == s@,
{
    let mut out: Vec<char> = Vec::new();
    for c in it: s.chars()
        invariant
            out@ == it.seq().take(it.index() as int),
            it.seq() == s@,
    {
        out.push(c);
    }
    out
}

/// The string made of the characters of `v`, in order.
pub fn string_of(v: &Vec<char>) -> (out: String)
    ensures
        out@ == v@,
{
    let mut out = String::new();
    let mut i: usize = 0;
    while i < v.len()
        invariant
            i <= v.len(),
            out@ == v@.take(i as int),
        decreases v.len() - i,
    {
        out.push(v[i]);
        i += 1;
    }
    out
}

/// What a single character becomes when dots are doubled into underscores.
pub open spec fn undotted_char(c: char) -> Seq<char> {
    if c == '.' {
        seq!['_', '_']
    } else {
        seq![c]
    }
}

/// `s` with every `.` replaced by `__`, everything else unchanged.
pub open spec fn undotted(s: Seq<char>) -> Seq<char>
    decreases s.len(),
{
    if s.len() == 0 {
        Seq::empty()
    } else {
        undotted(s.drop_last()) + undotted_char(s.last())
    }
}

/// No dot is left once they are replaced.
pub proof fn lemma_undotted_has_no_dot(s: Seq<char>)
    ensures
        !undotted(s).contains('.'),
    decreases s.len(),
{
    if s.len() > 0 {
        lemma_undotted_has_no_dot(s.drop_last());
    }
}

/// Replaces every `.` of `s` by `__`.
pub fn replace_dots(s: &str) -> (out: String)
    ensures
        out@ == undotted(s@),
{
    let mut out = String::new();
    for c in it: s.chars()
        invariant
            it.seq() == s@,
            out@ == undotted(s@.take(it.index() as int)),
    {
        proof {
            let k = it.index() as int;
            assert(s@.take(k + 1).drop_last() == s@.take(k));
        }
        if c == '.' {
            out.push('_');
            out.push('_');
        } else {
            out.push(c);
        }
    }
    proof {
        assert(s@.take(s@.len() as int) == s@);
    }
    out
}

/// Whether `a` and `b` hold the same characters.
pub fn text_eq(a: &str, b: &str) -> (r: bool)
    ensures
        r == (a@ == b@),
{
    let x = chars_of(a);
    let y = chars_of(b);
    if x.len() != y.len() {
        return false;
    }
    let mut i: usize = 0;
    while i < x.len()
        invariant
            i <= x.len(),
            x.len() == y.len(),
            x@ == a@,
            y@ == b@,
            x@.take(i as int) == y@.take(i as int),
        decreases x.len() - i,
    {
        if x[i] != y[i] {
            return false;
        }
        proof {
            assert(x@.take(i + 1) == x@.take(i as int).push(x@[i as int]));
            assert(y@.take(i + 1) == y@.take(i as int).push(y@[i as int]));
        }
        i += 1;
    }
    proof {
        assert(x@.take(x.len() as int) == x@);
        assert(y@.take(y.len() as int) == y@);
    }
    true
}

/// Strict lexicographic order of texts, character by character by code
/// point; a proper prefix comes before the longer text.
pub open spec fn lex_less(a: Seq<char>, b: Seq<char>) -> bool
    decreases a.len(),
{
    if b.len() == 0 {
        false
    } else if a.len() == 0 {
        true
    } else if a[0] == b[0] {
        lex_less(a.drop_first(), b.drop_first())
    } else {
        (a[0] as int) < (b[0] as int)
    }
}

/// No text comes before itself.
pub proof fn lemma_lex_irreflexive(a: Seq<char>)
    ensures
        !lex_less(a, a),
    decreases a.len(),
{
    if a.len() > 0 {
        lemma_lex_irreflexive(a.drop_first());
    }
}

/// The order is transitive.
pub proof fn lemma_lex_transitive(a: Seq<char>, b: Seq<char>, c: Seq<char>)
    requires
        lex_less(a, b),
        lex_less(b, c),
    ensures
        lex_less(a, c),
    decreases a.len(),
{
    if a.len() > 0 && b.len() > 0 && c.len() > 0 && a[0] == b[0] && b[0] == c[0] {
        lemma_lex_transitive(a.drop_first(), b.drop_first(), c.drop_first());
    }
}

/// Of two different texts one comes before the other.
pub proof fn lemma_lex_total(a: Seq<char>, b: Seq<char>)
    ensures
        a == b || lex_less(a, b) || lex_less(b, a),
    decreases a.len(),
{
    if a.len() > 0 && b.len() > 0 && a[0] == b[0] {
        lemma_lex_total(a.drop_first(), b.drop_first());
        if a.drop_first() == b.drop_first() {
            assert(a =~= seq![a[0]] + a.drop_first());
            assert(b =~= seq![b[0]] + b.drop_first());
        }
    } else if a.len() == 0 && b.len() == 0 {
        assert(a =~= b);
    }
}

/// The lexicographic order as a relation.
pub open spec fn text_order() -> spec_fn(Seq<char>, Seq<char>) -> bool {
    |a: Seq<char>, b: Seq<char>| lex_less(a, b)
}

/// The lexicographic order is a strict total order.
pub proof fn lemma_text_order_strict()
    ensures
        strict_total(text_order()),
{
    let less = text_order();
    assert forall|a: Seq<char>| !#[trigger] less(a, a) by {
        lemma_lex_irreflexive(a);
    }
    assert forall|a: Seq<char>, b: Seq<char>, c: Seq<char>| #[trigger] less(a, b) && #[trigger] less(
        b,
        c,
    ) implies less(a, c) by {
        lemma_lex_transitive(a, b, c);
    }
    assert forall|a: Seq<char>, b: Seq<char>| a != b implies #[trigger] less(a, b) || #[trigger] less(
        b,
        a,
    ) by {
        lemma_lex_total(a, b);
    }
}

/// Whether `a` comes strictly before `b` in lexicographic order.
pub fn text_less(a: &str, b: &str) -> (r: bool)
    ensures
        r == lex_less(a@, b@),
{
    let x = chars_of(a);
    let y = chars_of(b);
    let mut i: usize = 0;
    proof {
        assert(x@.skip(0) == x@);
        assert(y@.skip(0) == y@);
    }
    while i < x.len() && i < y.len()
        invariant
            i <= x.len(),
            i <= y.len(),
            x@ == a@,
            y@ == b@,
            lex_less(a@, b@) == lex_less(x@.skip(i as int), y@.skip(i as int)),
        decreases x.len() - i,
    {
        let p = x[i];
        let q = y[i];
        proof {
            assert(x@.skip(i as int).drop_first() == x@.skip(i + 1));
            assert(y@.skip(i as int).drop_first() == y@.skip(i + 1));
        }
        if p != q {
            return p < q;
        }
        i += 1;
    }
    i < y.len()
}

/// The index of the first of `texts` that `s` comes strictly before, or
/// their number.
pub fn text_rank(texts: &Vec<String>, s: &str) -> (i: usize)
    ensures
        i == rank(texts.deep_view(), s@, text_order()),
{
    let ghost all = texts.deep_view();
    let mut i: usize = 0;
    proof {
        assert(all.skip(0) =~= all);
    }
    while i < texts.len()
        invariant
            i <= texts.len(),
            all == texts.deep_view(),
            rank(all, s@, text_order()) == i + rank(all.skip(i as int), s@, text_order()),
        decreases texts.len() - i,
    {
        if text_less(s, texts[i].as_str()) {
            return i;
        }
        proof {
            assert(all.skip(i as int).drop_first() =~= all.skip(i + 1));
        }
        i += 1;
    }
    i
}

/// Puts `s` in its place among `texts`, unless it is there already.
pub fn insert_text(texts: &mut Vec<String>, s: String)
    ensures
        final(texts).deep_view() == set_inserted(old(texts).deep_view(), s@, text_order()),
{
    let ghost before = texts.deep_view();
    let i = text_rank(texts, s.as_str());
    proof {
        crate::order::lemma_rank(before, s@, text_order());
    }
    if i > 0 && text_eq(texts[i - 1].as_str(), s.as_str()) {
    } else {
        texts.insert(i, s);
        proof {
            assert(texts.deep_view() =~= before.insert(i as int, s@));
        }
    }
}

/// The index of the first `c` in `s`, or the length of `s` when it holds
/// none.
pub open spec fn first_index(s: Seq<char>, c: char) -> nat
    decreases s.len(),
{
    if s.len() == 0 || s[0] == c {
        0
    } else {
        1 + first_index(s.drop_first(), c)
    }
}

/// Where the first line of `s` ends: at its first line feed, or at its end
/// when it holds none.
pub open spec fn line_end(s: Seq<char>) -> nat {
    first_index(s, '\n')
}

/// `line` without the carriage return it may end in.
pub open spec fn without_cr(line: Seq<char>) -> Seq<char> {
    if line.len() > 0 && line.last() == '\r' {
        line.drop_last()
    } else {
        line
    }
}

/// The lines of `s`: each ends at a line feed, which is dropped together
/// with a carriage return just before it; what follows the last line feed
/// is a line too unless it is empty.
pub open spec fn lines_of(s: Seq<char>) -> Seq<Seq<char>>
    decreases s.len(),
{
    if s.len() == 0 {
        Seq::empty()
    } else {
        let k = line_end(s);
        if k >= s.len() {
            seq![s]
        } else {
            seq![without_cr(s.take(k as int))] + lines_of(s.skip(k as int + 1))
        }
    }
}

/// The first `c` is found behind any text that holds none.
pub proof fn lemma_first_index(head: Seq<char>, tail: Seq<char>, c: char)
    requires
        !head.contains(c),
    ensures
        first_index(head + tail, c) == head.len() + first_index(tail, c),
    decreases head.len(),
{
    if head.len() == 0 {
        assert(head + tail =~= tail);
    } else {
        assert(head[0] != c);
        assert((head + tail).drop_first() =~= head.drop_first() + tail);
        assert forall|i: int| 0 <= i < head.drop_first().len() implies head.drop_first()[i]
            != c by {
            assert(head[i + 1] != c);
        }
        lemma_first_index(head.drop_first(), tail, c);
    }
}

/// Nothing before the first `c` is `c`.
pub proof fn lemma_first_index_bounds(s: Seq<char>, c: char)
    ensures
        first_index(s, c) <= s.len(),
        first_index(s, c) < s.len() ==> s[first_index(s, c) as int] == c,
        forall|j: int| 0 <= j < first_index(s, c) ==> s[j] != c,
    decreases s.len(),
{
    if s.len() == 0 || s[0] == c {
    } else {
        lemma_first_index_bounds(s.drop_first(), c);
        assert forall|j: int| 0 <= j < first_index(s, c) implies s[j] != c by {
            if j > 0 {
                assert(s.drop_first()[j - 1] != c);
            }
        }
    }
}

/// No line holds a line feed.
pub proof fn lemma_lines_hold_no_line_feed(s: Seq<char>, i: int)
    requires
        0 <= i < lines_of(s).len(),
    ensures
        !lines_of(s)[i].contains('\n'),
    decreases s.len(),
{
    let k = line_end(s);
    lemma_first_index_bounds(s, '\n');
    if k >= s.len() {
    } else if i > 0 {
        lemma_lines_hold_no_line_feed(s.skip(k as int + 1), i - 1);
    }
}

/// Splits `text` into its lines.
pub fn split_lines(text: &str) -> (lines: Vec<String>)
    ensures
        lines.deep_view() == lines_of(text@),
        forall|i: int| 0 <= i < lines.len() ==> !(#[trigger] lines[i])@.contains('\n'),
{
    let mut lines: Vec<String> = Vec::new();
    let mut current: Vec<char> = Vec::new();
    proof {
        assert(current@ + text@.skip(0) =~= text@);
        assert(lines.deep_view() =~= Seq::<Seq<char>>::empty());
    }
    for c in it: text.chars()
        invariant
            it.seq() == text@,
            !current@.contains('\n'),
            lines_of(text@) == lines.deep_view() + lines_of(
                current@ + text@.skip(it.index() as int),
            ),
    {
        let ghost i = it.index() as int;
        let ghost rest = text@.skip(i);
        let ghost done = lines.deep_view();
        let ghost before = current@;
        proof {
            assert(rest.len() > 0 && rest[0] == c);
        }
        if c == '\n' {
            proof {
                let whole = before + rest;
                lemma_first_index(before, rest, '\n');
                assert(line_end(rest) == 0);
                assert(line_end(whole) == before.len());
                assert(whole.take(before.len() as int) =~= before);
                assert(whole.skip(before.len() as int + 1) =~= text@.skip(i + 1));
                assert(lines_of(whole) == seq![without_cr(before)] + lines_of(text@.skip(i + 1)));
            }
            let n = current.len();
            if n > 0 && current[n - 1] == '\r' {
                current.pop();
            }
            assert(current@ == without_cr(before));
            let line = string_of(&current);
            lines.push(line);
            current = Vec::new();
            proof {
                assert(lines.deep_view() =~= done.push(line@));
                assert(current@ + text@.skip(i + 1) =~= text@.skip(i + 1));
                assert(done + (seq![without_cr(before)] + lines_of(text@.skip(i + 1)))
                    =~= done.push(line@) + lines_of(text@.skip(i + 1)));
            }
        } else {
            current.push(c);
            proof {
                assert(current@ + text@.skip(i + 1) =~= before + rest);
                assert forall|j: int| 0 <= j < current@.len() implies current@[j] != '\n' by {
                    if j < before.len() {
                        assert(before[j] != '\n');
                    }
                }
            }
        }
    }
    if current.len() > 0 {
        let ghost done = lines.deep_view();
        proof {
            let i = text@.len() as int;
            assert(current@ + text@.skip(i) =~= current@);
            lemma_first_index(current@, Seq::empty(), '\n');
            assert(current@ + Seq::<char>::empty() =~= current@);
        }
        let line = string_of(&current);
        lines.push(line);
        proof {
            assert(lines.deep_view() =~= done.push(line@));
        }
    } else {
        proof {
            assert(current@ + text@.skip(text@.len() as int) =~= Seq::<char>::empty());
        }
    }
    proof {
        assert forall|i: int| 0 <= i < lines.len() implies !(#[trigger] lines[i])@.contains(
            '\n',
        ) by {
            lemma_lines_hold_no_line_feed(text@, i);
            assert(lines.deep_view()[i] == lines[i]@);
        }
    }
    lines
}

/// What stands before the first `sep` of `s`: all of `s` when it holds
/// none.
pub open spec fn before_first(s: Seq<char>, sep: char) -> Seq<char> {
    s.take(first_index(s, sep) as int)
}

/// What stands after the first `sep` of `s`: nothing when it holds none.
pub open spec fn after_first(s: Seq<char>, sep: char) -> Seq<char> {
    if first_index(s, sep) < s.len() {
        s.skip(first_index(s, sep) as int + 1)
    } else {
        Seq::empty()
    }
}

/// Splits `text` at its first `sep`.
pub fn split_at_first(text: &str, sep: char) -> (r: (String, String))
    ensures
        r.0@ == before_first(text@, sep),
        r.1@ == after_first(text@, sep),
{
    let mut head = String::new();
    let mut tail = String::new();
    let mut found = false;
    proof {
        assert(text@.take(0) =~= Seq::<char>::empty());
    }
    for c in it: text.chars()
        invariant
            it.seq() == text@,
            !found ==> head@ == text@.take(it.index() as int) && !head@.contains(sep) && tail@
                == Seq::<char>::empty(),
            found ==> first_index(text@, sep) < it.index() && head@ == before_first(text@, sep)
                && tail@ == text@.subrange(first_index(text@, sep) as int + 1, it.index() as int),
    {
        let ghost i = it.index() as int;
        if found {
            tail.push(c);
            proof {
                let k = first_index(text@, sep) as int;
                assert(text@.subrange(k + 1, i + 1) =~= text@.subrange(k + 1, i).push(c));
            }
        } else if c == sep {
            found = true;
            proof {
                lemma_first_index(head@, text@.skip(i), sep);
                assert(head@ + text@.skip(i) =~= text@);
                assert(text@.subrange(i + 1, i + 1) =~= Seq::<char>::empty());
            }
        } else {
            head.push(c);
            proof {
                assert(text@.take(i + 1) =~= text@.take(i).push(c));
                assert forall|j: int| 0 <= j < head@.len() implies head@[j] != sep by {
                    if j < i {
                        assert(text@.take(i)[j] != sep);
                    }
                }
            }
        }
    }
    proof {
        let n = text@.len() as int;
        if found {
            let k = first_index(text@, sep) as int;
            assert(text@.subrange(k + 1, n) =~= text@.skip(k + 1));
        } else {
            assert(text@.take(n) =~= text@);
            lemma_first_index(text@, Seq::empty(), sep);
            assert(text@ + Seq::<char>::empty() =~= text@);
        }
    }
    (head, tail)
}

/// The decimal digit for a number below ten.
pub open spec fn digit(d: nat) -> char {
    if d == 0 {
        '0'
    } else if d == 1 {
        '1'
    } else if d == 2 {
        '2'
    } else if d == 3 {
        '3'
    } else if d == 4 {
        '4'
    } else if d == 5 {
        '5'
    } else if d == 6 {
        '6'
    } else if d == 7 {
        '7'
    } else if d == 8 {
        '8'
    } else {
        '9'
    }
}

/// The decimal notation of `n`, without leading zeros.
pub open spec fn decimal(n: nat) -> Seq<char>
    decreases n,
{
    if n < 10 {
        seq![digit(n)]
    } else {
        decimal(n / 10).push(digit(n % 10))
    }
}

/// Appends the decimal notation of `n` to `out`.
pub fn append_decimal(out: &mut String, n: usize)
    ensures
        final(out)@ == old(out)@ + decimal(n as nat),
    decreases n,
{
    let ghost start = out@;
    if n >= 10 {
        append_decimal(out, n / 10);
    }
    let d = n % 10;
    let c = if d == 0 {
        '0'
    } else if d == 1 {
        '1'
    } else if d == 2 {
        '2'
    } else if d == 3 {
        '3'
    } else if d == 4 {
        '4'
    } else if d == 5 {
        '5'
    } else if d == 6 {
        '6'
    } else if d == 7 {
        '7'
    } else if d == 8 {
        '8'
    } else {
        '9'
    };
    out.push(c);
    proof {
        assert(out@ =~= start + decimal(n as nat));
    }
}

} // verus!
