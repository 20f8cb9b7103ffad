//! Text as sequences of characters: splitting into lines, joining lines, and
//! indenting a block of text.

use vstd::prelude::*;
use vstd::std_specs::iter::IteratorSpec;

verus! {

/// The indentation of depth `n`: two spaces for each level.
pub open spec fn pad(n: nat) -> Seq<char> {
    Seq::new(2 * n, |i: int| ' ')
}

/// The lines of `s`: the pieces between its line feeds. There is always at
/// least one line, and a text that ends in a line feed has an empty last line.
pub open spec fn lines(s: Seq<char>) -> Seq<Seq<char>>
    decreases s.len(),
{
    if s.len() == 0 {
        seq![Seq::empty()]
    } else {
        let before = lines(s.drop_last());
        if s.last() == '\n' {
            before.push(Seq::empty())
        } else {
            before.drop_last().push(before.last().push(s.last()))
        }
    }
}

/// The lines `ls` with one line feed between each two neighbours.
pub open spec fn join_lines(ls: Seq<Seq<char>>) -> Seq<char>
    decreases ls.len(),
{
    if ls.len() == 0 {
        Seq::empty()
    } else if ls.len() == 1 {
        ls[0]
    } else {
        join_lines(ls.drop_last()) + seq!['\n'] + ls.last()
    }
}

/// Every line of `ls` with the indentation of depth `n` in front of it.
pub open spec fn pad_each(ls: Seq<Seq<char>>, n: nat) -> Seq<Seq<char>> {
    Seq::new(ls.len(), |i: int| pad(n) + ls[i])
}

/// The text `s` with every one of its lines, the empty ones too, indented to
/// depth `n`.
pub open spec fn indent_text(s: Seq<char>, n: nat) -> Seq<char> {
    join_lines(pad_each(lines(s), n))
}

/// What one more character adds to an indented text: the character itself,
/// and behind a line feed the indentation of the line that it opens.
pub open spec fn indent_step(c: char, n: nat) -> Seq<char> {
    if c == '\n' {
        seq![c] + pad(n)
    } else {
        seq![c]
    }
}

/// A text always has at least one line.
pub proof fn lemma_lines_nonempty(s: Seq<char>)
    ensures
        lines(s).len() >= 1,
    decreases s.len(),
{
    if s.len() > 0 {
        lemma_lines_nonempty(s.drop_last());
    }
}

/// Indenting the empty text gives the bare indentation.
pub proof fn lemma_indent_empty(n: nat)
    ensures
        indent_text(Seq::empty(), n) == pad(n),
{
    let ls = pad_each(lines(Seq::empty()), n);
    assert(ls.len() == 1);
    assert(ls[0] =~= pad(n));
}

/// Indenting is done character by character: a text that grows by `c` has
/// its indented form grow by `indent_step(c, n)`.
pub proof fn lemma_indent_push(s: Seq<char>, c: char, n: nat)
    ensures
        indent_text(s.push(c), n) == indent_text(s, n) + indent_step(c, n),
{
    let t = s.push(c);
    assert(t.drop_last() =~= s);
    assert(t.last() == c);
    lemma_lines_nonempty(s);
    let before = lines(s);
    let padded = pad_each(before, n);
    if c == '\n' {
        let after = before.push(Seq::empty());
        assert(lines(t) == after);
        let q = pad_each(after, n);
        assert(q.drop_last() =~= padded);
        assert(q.last() =~= pad(n));
        assert(join_lines(q) == join_lines(padded) + seq!['\n'] + pad(n));
        assert(join_lines(padded) + seq!['\n'] + pad(n) =~= join_lines(padded) + (seq!['\n']
            + pad(n)));
    } else {
        let after = before.drop_last().push(before.last().push(c));
        assert(lines(t) == after);
        let q = pad_each(after, n);
        assert(q.last() =~= padded.last().push(c));
        if before.len() == 1 {
            assert(join_lines(q) == q[0]);
            assert(join_lines(padded) == padded[0]);
            assert(q[0] =~= padded[0] + seq![c]);
        } else {
            assert(q.drop_last() =~= padded.drop_last());
            assert(join_lines(q) == join_lines(padded.drop_last()) + seq!['\n'] + q.last());
            assert(join_lines(padded) == join_lines(padded.drop_last()) + seq!['\n']
                + padded.last());
            assert(join_lines(padded.drop_last()) + seq!['\n'] + padded.last().push(c)
                =~= join_lines(padded.drop_last()) + seq!['\n'] + padded.last() + seq![c]);
        }
    }
}

/// Whether the text `w` holds no line feed, so that it is one line.
pub open spec fn one_line(w: Seq<char>) -> bool {
    forall|i: int| 0 <= i < w.len() ==> w[i] != '\n'
}

/// Text without a line feed, put behind a text, lengthens its last line.
pub proof fn lemma_lines_append_plain(t: Seq<char>, w: Seq<char>)
    requires
        one_line(w),
    ensures
        lines(t + w) == lines(t).drop_last().push(lines(t).last() + w),
    decreases w.len(),
{
    lemma_lines_nonempty(t);
    if w.len() == 0 {
        assert(t + w =~= t);
        assert(lines(t).last() + w =~= lines(t).last());
        assert(lines(t).drop_last().push(lines(t).last()) =~= lines(t));
    } else {
        let w0 = w.drop_last();
        lemma_lines_append_plain(t, w0);
        assert((t + w).drop_last() =~= t + w0);
        assert((t + w).last() == w.last());
        let l0 = lines(t + w0);
        assert(l0.drop_last() =~= lines(t).drop_last());
        assert(l0.last().push(w.last()) =~= lines(t).last() + w);
    }
}

/// The lines of two texts with a line feed between them are the lines of
/// the first and then the lines of the second.
pub proof fn lemma_lines_concat(a: Seq<char>, b: Seq<char>)
    ensures
        lines(a.push('\n') + b) == lines(a) + lines(b),
    decreases b.len(),
{
    if b.len() == 0 {
        assert(a.push('\n') + b =~= a.push('\n'));
        assert(a.push('\n').drop_last() =~= a);
        assert(lines(a).push(Seq::empty()) =~= lines(a) + lines(b));
    } else {
        let b0 = b.drop_last();
        lemma_lines_concat(a, b0);
        lemma_lines_nonempty(b0);
        let t = a.push('\n') + b;
        assert(t.drop_last() =~= a.push('\n') + b0);
        assert(t.last() == b.last());
        let l = lines(a) + lines(b0);
        if b.last() == '\n' {
            assert(l.push(Seq::empty()) =~= lines(a) + lines(b0).push(Seq::empty()));
        } else {
            assert(l.drop_last().push(l.last().push(b.last())) =~= lines(a) + lines(
                b0,
            ).drop_last().push(lines(b0).last().push(b.last())));
        }
    }
}

/// Indenting changes no line but by the indentation in front of it: the
/// lines of the indented text are the lines of the text, each behind the
/// indentation. So an empty line becomes a line of spaces alone.
pub proof fn lemma_indent_lines(s: Seq<char>, n: nat)
    ensures
        lines(indent_text(s, n)) == pad_each(lines(s), n),
    decreases s.len(),
{
    if s.len() == 0 {
        lemma_indent_empty(n);
        assert(s =~= Seq::<char>::empty());
        lemma_lines_append_plain(Seq::empty(), pad(n));
        assert(Seq::<char>::empty() + pad(n) =~= pad(n));
        assert(lines(pad(n)) =~= pad_each(lines(s), n));
    } else {
        let s0 = s.drop_last();
        let c = s.last();
        assert(s =~= s0.push(c));
        lemma_indent_lines(s0, n);
        lemma_indent_push(s0, c, n);
        lemma_lines_nonempty(s0);
        let t0 = indent_text(s0, n);
        let l0 = lines(s0);
        if c == '\n' {
            assert(t0 + (seq!['\n'] + pad(n)) =~= t0.push('\n') + pad(n));
            lemma_lines_append_plain(t0.push('\n'), pad(n));
            assert(t0.push('\n').drop_last() =~= t0);
            assert(lines(indent_text(s, n)) =~= pad_each(l0.push(Seq::empty()), n));
        } else {
            assert(t0 + seq![c] =~= t0.push(c));
            assert(t0.push(c).drop_last() =~= t0);
            assert(lines(indent_text(s, n)) =~= pad_each(
                l0.drop_last().push(l0.last().push(c)),
                n,
            ));
        }
    }
}

/// At every place where the text `s` has an empty line, the indented text
/// has a line that is the indentation and nothing else.
pub proof fn lemma_indent_blank_line(s: Seq<char>, n: nat, i: int)
    requires
        0 <= i < lines(s).len(),
        lines(s)[i].len() == 0,
    ensures
        lines(indent_text(s, n)).len() == lines(s).len(),
        lines(indent_text(s, n))[i] == pad(n),
        lines(indent_text(s, n))[i].len() == 2 * n,
{
    lemma_indent_lines(s, n);
    assert(pad(n) + lines(s)[i] =~= pad(n));
}

/// Text without a line feed, put behind a text, stands unchanged behind the
/// indented text.
pub proof fn lemma_indent_append_plain(t: Seq<char>, w: Seq<char>, n: nat)
    requires
        one_line(w),
    ensures
        indent_text(t + w, n) == indent_text(t, n) + w,
    decreases w.len(),
{
    if w.len() == 0 {
        assert(t + w =~= t);
        assert(indent_text(t, n) + w =~= indent_text(t, n));
    } else {
        let w0 = w.drop_last();
        lemma_indent_append_plain(t, w0, n);
        lemma_indent_push(t + w0, w.last(), n);
        assert((t + w0).push(w.last()) =~= t + w);
        assert(indent_text(t, n) + w0 + seq![w.last()] =~= indent_text(t, n) + w);
    }
}

/// Indentation adds up: indenting to depth `m` and then to depth `n` is
/// indenting to depth `m + n`.
pub proof fn lemma_indent_compose(s: Seq<char>, m: nat, n: nat)
    ensures
        indent_text(indent_text(s, m), n) == indent_text(s, m + n),
    decreases s.len(),
{
    assert(pad(n) + pad(m) =~= pad(m + n));
    if s.len() == 0 {
        assert(s =~= Seq::<char>::empty());
        lemma_indent_empty(m);
        lemma_indent_empty(n);
        lemma_indent_empty(m + n);
        lemma_indent_append_plain(Seq::empty(), pad(m), n);
        assert(Seq::<char>::empty() + pad(m) =~= pad(m));
    } else {
        let s0 = s.drop_last();
        let c = s.last();
        assert(s =~= s0.push(c));
        lemma_indent_compose(s0, m, n);
        lemma_indent_push(s0, c, m);
        lemma_indent_push(s0, c, m + n);
        let t0 = indent_text(s0, m);
        lemma_indent_push(t0, c, n);
        if c == '\n' {
            assert(t0 + (seq!['\n'] + pad(m)) =~= t0.push('\n') + pad(m));
            lemma_indent_append_plain(t0.push('\n'), pad(m), n);
            assert(indent_text(t0, n) + (seq!['\n'] + pad(n)) + pad(m) =~= indent_text(t0, n) + (
            seq!['\n'] + pad(m + n)));
        } else {
            assert(t0 + seq![c] =~= t0.push(c));
        }
    }
}

/// Indenting each line of two runs of lines is indenting each run.
pub proof fn lemma_pad_each_concat(a: Seq<Seq<char>>, b: Seq<Seq<char>>, n: nat)
    ensures
        pad_each(a + b, n) == pad_each(a, n) + pad_each(b, n),
{
    assert(pad_each(a + b, n) =~= pad_each(a, n) + pad_each(b, n));
}

/// Indenting each line to depth `m` and then to depth `n` is indenting each
/// to depth `m + n`.
pub proof fn lemma_pad_each_twice(ls: Seq<Seq<char>>, m: nat, n: nat)
    ensures
        pad_each(pad_each(ls, m), n) == pad_each(ls, m + n),
{
    assert(pad(n) + pad(m) =~= pad(m + n));
    assert forall|i: int| 0 <= i < ls.len() implies pad(n) + (pad(m) + ls[i]) == pad(m + n)
        + ls[i] by {
        assert(pad(n) + (pad(m) + ls[i]) =~= pad(n) + pad(m) + ls[i]);
    }
    assert(pad_each(pad_each(ls, m), n) =~= pad_each(ls, m + n));
}

/// Appends one character to a string, by `String::push`, which puts the
/// character behind what the string holds and changes nothing else.
#[verifier::external_body]
pub(crate) fn push_char(s: &mut String, c: char)
    ensures
        final(s)@ == old(s)@.push(c),
{
    s.push(c);
}

/// The indentation of depth `n` as a string.
fn padding(n: usize) -> (r: String)
    ensures
        r@ == pad(n as nat),
{
    let mut r = String::new();
    let mut i: usize = 0;
    while i < n
        invariant
            i <= n,
            r@ == pad(i as nat),
        decreases n - i,
    {
        proof {
            reveal_strlit("  ");
            assert(r@ + "  "@ =~= pad((i + 1) as nat));
        }
        r.append("  ");
        i = i + 1;
    }
    r
}

/// Indents every line of `x` by two spaces `n` times over. A line ends at a
/// line feed; empty lines are indented like the others, so the result of
/// indenting an empty text is the indentation alone.
pub fn indent(x: String, n: usize) -> (r: String)
    ensures
        r@ == indent_text(x@, n as nat),
{
    let prefix = padding(n);
    let mut out = prefix.clone();
    proof {
        lemma_indent_empty(n as nat);
    }
    for c in rest: x.as_str().chars()
        invariant
            rest.seq() == x@,
            out@ == indent_text(x@.take(rest.index() as int), n as nat),
            prefix@ == pad(n as nat),
    {
        proof {
            let done = x@.take(rest.index() as int);
            lemma_indent_push(done, c, n as nat);
            assert(done.push(c) =~= x@.take(rest.index() + 1));
        }
        push_char(&mut out, c);
        if c == '\n' {
            out.append(prefix.as_str());
        }
    }
    proof {
        assert(x@.take(x@.len() as int) =~= x@);
    }
    out
}

} // verus!
