//! The renderer: a value tree written out as indented text.

use crate::text::{
    indent, indent_text, join_lines, lemma_indent_lines, lemma_lines_append_plain,
    lemma_lines_concat, lemma_pad_each_concat, lemma_pad_each_twice, lines, pad, pad_each,
};
use crate::value::{Jsonnet, Value};
use vstd::prelude::*;
use vstd::string::StringExecFns;

verus! {

/// The string `s` between single quotes, its characters unchanged.
pub open spec fn quote(s: Seq<char>) -> Seq<char> {
    seq!['\''] + s + seq!['\'']
}

/// One entry of a container as it stands in the container's text: the entry,
/// a comma behind it, and all of that indented by one level.
pub open spec fn block(entry: Seq<char>) -> Seq<char> {
    indent_text(entry + seq![','], 1)
}

/// The text of a container: the opening bracket, a line feed, the blocks of
/// its entries with a line feed between each two, a line feed, and the
/// closing bracket. With no entries two line feeds stand between the brackets.
pub open spec fn enclose(open: char, blocks: Seq<Seq<char>>, close: char) -> Seq<char> {
    seq![open, '\n'] + join_lines(blocks) + seq!['\n', close]
}

/// An object's entry before the comma: the quoted key, a colon, a space, and
/// the text of the value.
pub open spec fn pair_text(key: Seq<char>, value: Seq<char>) -> Seq<char> {
    quote(key) + seq![':', ' '] + value
}

/// The blocks of an array's elements, in the order of the elements.
pub open spec fn array_blocks(xs: Seq<Value>) -> Seq<Seq<char>>
    decreases xs,
{
    Seq::new(
        xs.len(),
        |i: int|
            if 0 <= i < xs.len() {
                block(render_text(xs[i]))
            } else {
                Seq::empty()
            },
    )
}

/// The blocks of an object's entries, in the order of the entries.
pub open spec fn object_blocks(es: Seq<(Seq<char>, Value)>) -> Seq<Seq<char>>
    decreases es,
{
    Seq::new(
        es.len(),
        |i: int|
            if 0 <= i < es.len() {
                block(pair_text(es[i].0, render_text(es[i].1)))
            } else {
                Seq::empty()
            },
    )
}

/// The text of the value `v`.
pub open spec fn render_text(v: Value) -> Seq<char>
    decreases v,
{
    match v {
        Value::Null => seq!['n', 'u', 'l', 'l'],
        Value::Bool(b) => if b {
            seq!['t', 'r', 'u', 'e']
        } else {
            seq!['f', 'a', 'l', 's', 'e']
        },
        Value::String(s) => quote(s),
        Value::Number(t) => t,
        Value::Array(xs) => enclose('[', array_blocks(xs), ']'),
        Value::Object(es) => enclose('{', object_blocks(es), '}'),
    }
}

/// Joined lines grow at the end: one more line adds a line feed, unless it
/// is the first, and the line.
pub proof fn lemma_join_take(ls: Seq<Seq<char>>, i: int)
    requires
        0 <= i < ls.len(),
    ensures
        join_lines(ls.take(i + 1)) == if i == 0 {
            ls[i]
        } else {
            join_lines(ls.take(i)) + seq!['\n'] + ls[i]
        },
{
    assert(ls.take(i + 1).drop_last() =~= ls.take(i));
}

/// The lines of a container's text: the opening bracket, the lines of the
/// joined blocks, the closing bracket.
pub proof fn lemma_container_lines(open: char, blocks: Seq<Seq<char>>, close: char)
    requires
        open != '\n',
        close != '\n',
    ensures
        lines(enclose(open, blocks, close)) == seq![seq![open]] + lines(join_lines(blocks))
            + seq![seq![close]],
{
    let body = join_lines(blocks);
    let empty = Seq::<char>::empty();
    lemma_lines_append_plain(empty, seq![open]);
    lemma_lines_append_plain(empty, seq![close]);
    assert(empty + seq![open] =~= seq![open]);
    assert(empty + seq![close] =~= seq![close]);
    assert(lines(empty).drop_last().push(lines(empty).last() + seq![open]) =~= seq![seq![open]]);
    assert(lines(empty).drop_last().push(lines(empty).last() + seq![close]) =~= seq![
        seq![close],
    ]);
    lemma_lines_concat(seq![open], body);
    lemma_lines_concat(seq![open].push('\n') + body, seq![close]);
    assert(enclose(open, blocks, close) =~= (seq![open].push('\n') + body).push('\n') + seq![
        close,
    ]);
}

/// Inside an array every line of an element stands two spaces further in:
/// the text of an array of one element `v` is the line `[`, the lines of the
/// text of `v` and its comma, each behind two spaces, and the line `]`.
pub proof fn lemma_lines_in_array(v: Value)
    ensures
        lines(render_text(Value::Array(seq![v]))) == seq![seq!['[']] + pad_each(
            lines(render_text(v) + seq![',']),
            1,
        ) + seq![seq![']']],
{
    let blocks = array_blocks(seq![v]);
    assert(blocks =~= seq![block(render_text(v))]);
    assert(join_lines(blocks) == block(render_text(v)));
    lemma_container_lines('[', blocks, ']');
    lemma_indent_lines(render_text(v) + seq![','], 1);
}

/// Indentation compounds with depth: inside two arrays every line of a
/// value stands exactly four spaces further in than in the value's own text.
/// The text of an array that holds an array that holds `v` is the lines `[`
/// and `  [`, the lines of the text of `v` and its comma, each behind four
/// spaces, and the lines `  ],` and `]`.
pub proof fn lemma_lines_in_two_arrays(v: Value)
    ensures
        lines(render_text(Value::Array(seq![Value::Array(seq![v])]))) == seq![
            seq!['['],
            pad(1) + seq!['['],
        ] + pad_each(lines(render_text(v) + seq![',']), 2) + seq![
            pad(1) + seq![']', ','],
            seq![']'],
        ],
{
    let inner = Value::Array(seq![v]);
    let own = lines(render_text(v) + seq![',']);
    let first = seq![seq!['[']];
    let last = seq![seq![']', ',']];
    let inner_lines = lines(render_text(inner) + seq![',']);
    assert(inner_lines == first + pad_each(own, 1) + last) by {
        lemma_lines_in_array(v);
        lemma_lines_append_plain(render_text(inner), seq![',']);
        let il = lines(render_text(inner));
        assert(il.last() + seq![','] =~= seq![']', ',']);
        assert(il.drop_last() =~= first + pad_each(own, 1));
        assert(il.drop_last().push(seq![']', ',']) =~= first + pad_each(own, 1) + last);
    }
    assert(pad_each(inner_lines, 1) == seq![pad(1) + seq!['[']] + pad_each(own, 2) + seq![
        pad(1) + seq![']', ','],
    ]) by {
        lemma_pad_each_concat(first + pad_each(own, 1), last, 1);
        lemma_pad_each_concat(first, pad_each(own, 1), 1);
        lemma_pad_each_twice(own, 1, 1);
        assert(pad_each(first, 1) =~= seq![pad(1) + seq!['[']]);
        assert(pad_each(last, 1) =~= seq![pad(1) + seq![']', ',']]);
    }
    lemma_lines_in_array(inner);
    lemma_nested_lines(
        lines(render_text(Value::Array(seq![inner]))),
        pad_each(inner_lines, 1),
        pad(1) + seq!['['],
        pad_each(own, 2),
        pad(1) + seq![']', ','],
    );
}

/// Lines that stand between two lines, and themselves begin and end with a
/// line of their own, are five runs in a row.
proof fn lemma_nested_lines(
    all: Seq<Seq<char>>,
    middle: Seq<Seq<char>>,
    second: Seq<char>,
    core: Seq<Seq<char>>,
    fourth: Seq<char>,
)
    requires
        all == seq![seq!['[']] + middle + seq![seq![']']],
        middle == seq![second] + core + seq![fourth],
    ensures
        all == seq![seq!['['], second] + core + seq![fourth, seq![']']],
{
    assert(all =~= seq![seq!['['], second] + core + seq![fourth, seq![']']]);
}

/// Puts the joined blocks `body` between the brackets `open` and `close`.
fn enclosed(open: char, body: &String, close: char) -> (text: String)
    ensures
        text@ == seq![open, '\n'] + body@ + seq!['\n', close],
{
    let mut text = String::new();
    crate::text::push_char(&mut text, open);
    crate::text::push_char(&mut text, '\n');
    text.append(body.as_str());
    crate::text::push_char(&mut text, '\n');
    crate::text::push_char(&mut text, close);
    proof {
        assert(text@ =~= seq![open, '\n'] + body@ + seq!['\n', close]);
    }
    text
}

/// Adds the block of the entry `entry` to the joined blocks `body`, which
/// hold `i` blocks so far.
fn add_block(body: &mut String, i: usize, entry: String)
    ensures
        final(body)@ == if i == 0 {
            old(body)@ + block(entry@)
        } else {
            old(body)@ + seq!['\n'] + block(entry@)
        },
{
    let mut closed = entry;
    crate::text::push_char(&mut closed, ',');
    proof {
        assert(closed@ =~= entry@ + seq![',']);
    }
    let indented = indent(closed, 1);
    if i > 0 {
        crate::text::push_char(body, '\n');
    }
    body.append(indented.as_str());
    proof {
        assert(old(body)@.push('\n') =~= old(body)@ + seq!['\n']);
    }
}

impl Jsonnet {
    /// Writes the value as text: `null`, `true` and `false` as these words, a
    /// string between single quotes and otherwise unchanged, a number as its
    /// decimal text, an array between square brackets and an object between
    /// braces, each entry of either on lines of its own, indented by two
    /// spaces and closed by a comma, an object's entries as `'key': value` in
    /// ascending order of the keys.
    pub fn render(&self) -> (text: String)
        ensures
            text@ == render_text(self@),
        decreases self@,
    {
        match self {
            Jsonnet::Null => {
                proof {
                    reveal_strlit("null");
                    assert("null"@ =~= seq!['n', 'u', 'l', 'l']);
                }
                String::from_str("null")
            },
            Jsonnet::Bool(b) => {
                proof {
                    reveal_strlit("true");
                    reveal_strlit("false");
                    assert("true"@ =~= seq!['t', 'r', 'u', 'e']);
                    assert("false"@ =~= seq!['f', 'a', 'l', 's', 'e']);
                }
                if *b {
                    String::from_str("true")
                } else {
                    String::from_str("false")
                }
            },
            Jsonnet::String(s) => quoted(s),
            Jsonnet::Number(t) => t.clone(),
            Jsonnet::Array(xs) => {
                let ghost blocks = array_blocks(self@->Array_0);
                let mut body = String::new();
                let n = xs.len();
                let mut i: usize = 0;
                proof {
                    assert(blocks.take(0) =~= Seq::<Seq<char>>::empty());
                }
                while i < n
                    invariant
                        i <= n,
                        n == xs.len(),
                        self@ == Value::Array(self@->Array_0),
                        self@->Array_0.len() == n,
                        forall|j: int| 0 <= j < n ==> xs[j]@ == (#[trigger] self@->Array_0[j]),
                        blocks == array_blocks(self@->Array_0),
                        body@ == join_lines(blocks.take(i as int)),
                    decreases n - i,
                {
                    proof {
                        let ghost elements = self@->Array_0;
                        assert(xs[i as int]@ == elements[i as int]);
                        assert(decreases_to!(self@ => elements));
                        assert(decreases_to!(elements => elements[i as int]));
                    }
                    let entry = xs[i].render();
                    proof {
                        lemma_join_take(blocks, i as int);
                    }
                    add_block(&mut body, i, entry);
                    i = i + 1;
                }
                proof {
                    assert(blocks.take(n as int) =~= blocks);
                }
                enclosed('[', &body, ']')
            },
            Jsonnet::Object(m) => {
                let ghost blocks = object_blocks(m.entries());
                let mut body = String::new();
                let n = m.len();
                let mut i: usize = 0;
                proof {
                    assert(blocks.take(0) =~= Seq::<Seq<char>>::empty());
                }
                while i < n
                    invariant
                        i <= n,
                        n == m.entries().len(),
                        self@ == Value::Object(m.entries()),
                        blocks == object_blocks(m.entries()),
                        body@ == join_lines(blocks.take(i as int)),
                    decreases n - i,
                {
                    match m.entry(i) {
                        Some((key, value)) => {
                            let mut entry = quoted(key);
                            proof {
                                let ghost pairs = self@->Object_0;
                                assert(pairs == m.entries());
                                assert(decreases_to!(self@ => pairs));
                                assert(decreases_to!(pairs => pairs[i as int]));
                                assert(decreases_to!(pairs[i as int] => pairs[i as int].1));
                            }
                            let text = value.render();
                            proof {
                                reveal_strlit(": ");
                                assert(": "@ =~= seq![':', ' ']);
                                lemma_join_take(blocks, i as int);
                            }
                            entry.append(": ");
                            entry.append(text.as_str());
                            add_block(&mut body, i, entry);
                        },
                        None => {},
                    }
                    i = i + 1;
                }
                proof {
                    assert(blocks.take(n as int) =~= blocks);
                }
                enclosed('{', &body, '}')
            },
        }
    }
}

/// The string `s` between single quotes.
fn quoted(s: &String) -> (text: String)
    ensures
        text@ == quote(s@),
{
    let mut text = String::new();
    crate::text::push_char(&mut text, '\'');
    text.append(s.as_str());
    crate::text::push_char(&mut text, '\'');
    proof {
        assert(text@ =~= quote(s@));
    }
    text
}

} // verus!
