//! Balance of brackets: whether the square brackets and braces of a text
//! close each other in pairs, and that rendered text is balanced.

use crate::render::{array_blocks, block, enclose, object_blocks, pair_text, quote, render_text};
use crate::text::{indent_step, indent_text, join_lines, lemma_indent_empty, lemma_indent_push, pad};
use crate::value::Value;
use vstd::prelude::*;

verus! {

/// What the character `c` does to the brackets `open` that wait to be
/// closed, the innermost last: an opening bracket joins them, a closing one
/// takes its partner away, anything else leaves them. There is no result
/// where a closing bracket does not meet its partner.
pub open spec fn bracket_step(open: Seq<char>, c: char) -> Option<Seq<char>> {
    if c == '[' || c == '{' {
        Some(open.push(c))
    } else if c == ']' {
        if open.len() > 0 && open.last() == '[' {
            Some(open.drop_last())
        } else {
            None
        }
    } else if c == '}' {
        if open.len() > 0 && open.last() == '{' {
            Some(open.drop_last())
        } else {
            None
        }
    } else {
        Some(open)
    }
}

/// The brackets that wait to be closed behind the text `s`, where `open`
/// waited in front of it.
pub open spec fn bracket_scan(s: Seq<char>, open: Seq<char>) -> Option<Seq<char>>
    decreases s.len(),
{
    if s.len() == 0 {
        Some(open)
    } else {
        match bracket_scan(s.drop_last(), open) {
            Some(before) => bracket_step(before, s.last()),
            None => None,
        }
    }
}

/// Whether every bracket of `s` has its partner: each closing bracket
/// closes the innermost open one, of its own kind, and none stays open.
pub open spec fn balanced(s: Seq<char>) -> bool {
    bracket_scan(s, Seq::empty()) == Some(Seq::<char>::empty())
}

/// Whether the text `s` holds no bracket at all.
pub open spec fn bracket_free(s: Seq<char>) -> bool {
    forall|i: int|
        0 <= i < s.len() ==> s[i] != '[' && s[i] != ']' && s[i] != '{' && s[i] != '}'
}

/// Whether every text that the value `v` brings along is balanced by
/// itself: each string, each number's text and each key of an object.
pub open spec fn texts_balanced(v: Value) -> bool
    decreases v,
{
    match v {
        Value::Null => true,
        Value::Bool(_) => true,
        Value::String(s) => balanced(s),
        Value::Number(t) => balanced(t),
        Value::Array(xs) => forall|i: int| 0 <= i < xs.len() ==> texts_balanced(#[trigger] xs[i]),
        Value::Object(es) => forall|i: int|
            0 <= i < es.len() ==> balanced((#[trigger] es[i]).0) && texts_balanced(es[i].1),
    }
}

/// Scanning two texts in a row is scanning the second from where the first
/// ended.
pub proof fn lemma_scan_concat(a: Seq<char>, b: Seq<char>, open: Seq<char>)
    ensures
        bracket_scan(a + b, open) == match bracket_scan(a, open) {
            Some(between) => bracket_scan(b, between),
            None => None,
        },
    decreases b.len(),
{
    if b.len() == 0 {
        assert(a + b =~= a);
    } else {
        lemma_scan_concat(a, b.drop_last(), open);
        assert((a + b).drop_last() =~= a + b.drop_last());
    }
}

/// A scan does not look at the brackets that were open before it began and
/// that it did not close: with more of them underneath it ends alike.
pub proof fn lemma_scan_frame(s: Seq<char>, below: Seq<char>, open: Seq<char>)
    requires
        bracket_scan(s, open) is Some,
    ensures
        bracket_scan(s, below + open) == Some(below + bracket_scan(s, open)->0),
    decreases s.len(),
{
    if s.len() > 0 {
        lemma_scan_frame(s.drop_last(), below, open);
        let before = bracket_scan(s.drop_last(), open)->0;
        let c = s.last();
        if c == '[' || c == '{' {
            assert((below + before).push(c) =~= below + before.push(c));
        } else if c == ']' || c == '}' {
            assert((below + before).drop_last() =~= below + before.drop_last());
        }
    }
}

/// Scanning one character is taking one step.
pub proof fn lemma_scan_one(c: char, open: Seq<char>)
    ensures
        bracket_scan(seq![c], open) == bracket_step(open, c),
{
    reveal_with_fuel(bracket_scan, 2);
    assert(seq![c].drop_last() =~= Seq::<char>::empty());
}

/// A balanced text leaves the open brackets as it found them.
pub proof fn lemma_balanced_keeps(s: Seq<char>, open: Seq<char>)
    requires
        balanced(s),
    ensures
        bracket_scan(s, open) == Some(open),
{
    lemma_scan_frame(s, open, Seq::empty());
    assert(open + Seq::<char>::empty() =~= open);
}

/// A text without brackets is balanced, and leaves the open brackets as it
/// found them.
pub proof fn lemma_bracket_free(s: Seq<char>, open: Seq<char>)
    requires
        bracket_free(s),
    ensures
        bracket_scan(s, open) == Some(open),
        balanced(s),
    decreases s.len(),
{
    if s.len() > 0 {
        lemma_bracket_free(s.drop_last(), open);
        lemma_bracket_free(s.drop_last(), Seq::empty());
    }
}

/// Two balanced texts in a row are balanced.
pub proof fn lemma_balanced_concat(a: Seq<char>, b: Seq<char>)
    requires
        balanced(a),
        balanced(b),
    ensures
        balanced(a + b),
{
    lemma_scan_concat(a, b, Seq::empty());
}

/// A balanced text between a bracket and its partner is balanced.
pub proof fn lemma_balanced_enclosed(open: char, s: Seq<char>, close: char)
    requires
        balanced(s),
        (open == '[' && close == ']') || (open == '{' && close == '}'),
    ensures
        balanced(seq![open] + s + seq![close]),
{
    let first = seq![open];
    let last = seq![close];
    let waiting = Seq::<char>::empty().push(open);
    lemma_scan_one(open, Seq::empty());
    lemma_balanced_keeps(s, waiting);
    lemma_scan_concat(first, s, Seq::empty());
    lemma_scan_one(close, waiting);
    assert(waiting.drop_last() =~= Seq::<char>::empty());
    lemma_scan_concat(first + s, last, Seq::empty());
}

/// Indenting does not touch the brackets: the indented text ends a scan as
/// the text itself does.
pub proof fn lemma_scan_indent(s: Seq<char>, n: nat, open: Seq<char>)
    ensures
        bracket_scan(indent_text(s, n), open) == bracket_scan(s, open),
    decreases s.len(),
{
    if s.len() == 0 {
        assert(s =~= Seq::<char>::empty());
        lemma_indent_empty(n);
        lemma_bracket_free(pad(n), open);
    } else {
        let s0 = s.drop_last();
        let c = s.last();
        assert(s =~= s0.push(c));
        lemma_scan_indent(s0, n, open);
        lemma_indent_push(s0, c, n);
        lemma_scan_concat(indent_text(s0, n), indent_step(c, n), open);
        if bracket_scan(s0, open) is Some {
            let before = bracket_scan(s0, open)->0;
            if c == '\n' {
                lemma_bracket_free(indent_step(c, n), before);
            } else {
                lemma_scan_one(c, before);
            }
        }
    }
}

/// Balanced lines, joined, are balanced.
pub proof fn lemma_balanced_join(ls: Seq<Seq<char>>)
    requires
        forall|i: int| 0 <= i < ls.len() ==> balanced(#[trigger] ls[i]),
    ensures
        balanced(join_lines(ls)),
    decreases ls.len(),
{
    if ls.len() >= 2 {
        lemma_balanced_join(ls.drop_last());
        lemma_bracket_free(seq!['\n'], Seq::empty());
        lemma_balanced_concat(join_lines(ls.drop_last()), seq!['\n']);
        lemma_balanced_concat(join_lines(ls.drop_last()) + seq!['\n'], ls.last());
    }
}

/// The block of a balanced entry is balanced.
pub proof fn lemma_balanced_block(entry: Seq<char>)
    requires
        balanced(entry),
    ensures
        balanced(block(entry)),
{
    lemma_bracket_free(seq![','], Seq::empty());
    lemma_balanced_concat(entry, seq![',']);
    lemma_scan_indent(entry + seq![','], 1, Seq::empty());
}

/// A container of balanced blocks is balanced.
pub proof fn lemma_balanced_container(open: char, blocks: Seq<Seq<char>>, close: char)
    requires
        forall|i: int| 0 <= i < blocks.len() ==> balanced(#[trigger] blocks[i]),
        (open == '[' && close == ']') || (open == '{' && close == '}'),
    ensures
        balanced(enclose(open, blocks, close)),
{
    let feed = seq!['\n'];
    let body = join_lines(blocks);
    lemma_balanced_join(blocks);
    lemma_bracket_free(feed, Seq::empty());
    lemma_balanced_concat(feed, body);
    lemma_balanced_concat(feed + body, feed);
    lemma_balanced_enclosed(open, feed + body + feed, close);
    assert(enclose(open, blocks, close) =~= seq![open] + (feed + body + feed) + seq![close]);
}

/// The text of a value has no unbalanced bracket, as long as the texts that
/// the value brings along (its strings, the texts of its numbers, the keys
/// of its objects) have none: what the renderer adds is balanced.
pub proof fn lemma_render_balanced(v: Value)
    requires
        texts_balanced(v),
    ensures
        balanced(render_text(v)),
    decreases v,
{
    match v {
        Value::Null => {
            lemma_bracket_free(render_text(v), Seq::empty());
        },
        Value::Bool(_) => {
            lemma_bracket_free(render_text(v), Seq::empty());
        },
        Value::String(s) => {
            lemma_balanced_quote(s);
        },
        Value::Number(_) => {},
        Value::Array(xs) => {
            let blocks = array_blocks(xs);
            assert forall|i: int| 0 <= i < blocks.len() implies balanced(#[trigger] blocks[i]) by {
                assert(texts_balanced(xs[i]));
                lemma_render_balanced(xs[i]);
                lemma_balanced_block(render_text(xs[i]));
            }
            lemma_balanced_container('[', blocks, ']');
        },
        Value::Object(es) => {
            let blocks = object_blocks(es);
            assert forall|i: int| 0 <= i < blocks.len() implies balanced(#[trigger] blocks[i]) by {
                assert(balanced(es[i].0) && texts_balanced(es[i].1));
                lemma_render_balanced(es[i].1);
                lemma_balanced_quote(es[i].0);
                lemma_bracket_free(seq![':', ' '], Seq::empty());
                lemma_balanced_concat(quote(es[i].0), seq![':', ' ']);
                lemma_balanced_concat(quote(es[i].0) + seq![':', ' '], render_text(es[i].1));
                lemma_balanced_block(pair_text(es[i].0, render_text(es[i].1)));
            }
            lemma_balanced_container('{', blocks, '}');
        },
    }
}

/// A balanced string between quotes is balanced.
pub proof fn lemma_balanced_quote(s: Seq<char>)
    requires
        balanced(s),
    ensures
        balanced(quote(s)),
{
    lemma_bracket_free(seq!['\''], Seq::empty());
    lemma_balanced_concat(seq!['\''], s);
    lemma_balanced_concat(seq!['\''] + s, seq!['\'']);
}

} // verus!
