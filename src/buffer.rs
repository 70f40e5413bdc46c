//! The text buffer: a `ropey::Rope` and the line structure that the rope sees in it.
use ropey::Rope;
use vstd::prelude::*;

verus! {

#[verifier::external_type_specification]
#[verifier::external_body]
pub struct ExRope(Rope);

/// The characters that a rope holds.
pub uninterp spec fn rope_text(r: Rope) -> Seq<char>;

/// A character that ends a line on its own: LF, CR, VT, FF, NEL, LS and PS.
pub open spec fn is_line_break(c: char) -> bool {
    c == '\n' || c == '\r' || c == '\u{0B}' || c == '\u{0C}' || c == '\u{85}' || c == '\u{2028}'
        || c == '\u{2029}'
}

pub fn is_break_char(c: char) -> (r: bool)
    ensures
        r == is_line_break(c),
{
    c == '\n' || c == '\r' || c == '\u{0B}' || c == '\u{0C}' || c == '\u{85}' || c == '\u{2028}'
        || c == '\u{2029}'
}

/// The index of the first line-break character at or after `i`, or the length of `t`.
pub open spec fn first_break(t: Seq<char>, i: int) -> int
    decreases t.len() - i,
{
    if i < 0 || i >= t.len() {
        t.len() as int
    } else if is_line_break(t[i]) {
        i
    } else {
        first_break(t, i + 1)
    }
}

/// The index just past the line break that starts at `j`: CR LF counts as one break.
pub open spec fn break_end(t: Seq<char>, j: int) -> int {
    if t[j] == '\r' && j + 1 < t.len() && t[j + 1] == '\n' {
        j + 2
    } else {
        j + 1
    }
}

/// The lines of `t`, each with its line break; the last one has none and may be empty.
pub open spec fn lines_of(t: Seq<char>) -> Seq<Seq<char>>
    decreases t.len(),
    via lines_of_decreases
{
    let j = first_break(t, 0);
    if j >= t.len() {
        seq![t]
    } else {
        let e = break_end(t, j);
        seq![t.subrange(0, e)] + lines_of(t.subrange(e, t.len() as int))
    }
}

/// `first_break` lies between `i` and the end of the text, on a line break if before the end.
pub proof fn lemma_first_break(t: Seq<char>, i: int)
    requires
        0 <= i <= t.len(),
    ensures
        i <= first_break(t, i) <= t.len(),
        first_break(t, i) < t.len() ==> is_line_break(t[first_break(t, i)]),
        forall|k: int| i <= k < first_break(t, i) ==> !is_line_break(#[trigger] t[k]),
    decreases t.len() - i,
{
    if i < t.len() && !is_line_break(t[i]) {
        lemma_first_break(t, i + 1);
    }
}

#[via_fn]
proof fn lines_of_decreases(t: Seq<char>) {
    lemma_first_break(t, 0);
}

/// The index of the first character of line `i` among `ls`.
pub open spec fn start_of_line(ls: Seq<Seq<char>>, i: int) -> int
    decreases i,
{
    if i <= 0 {
        0
    } else {
        start_of_line(ls, i - 1) + ls[i - 1].len()
    }
}

/// The number of lines of `t` that hold text: an empty last line, left by a
/// final line break or by an empty text, does not count.
pub open spec fn count_lines(t: Seq<char>) -> int {
    let ls = lines_of(t);
    if ls.len() > 0 && ls[ls.len() - 1].len() == 0 {
        ls.len() - 1
    } else {
        ls.len() as int
    }
}

/// The text of line `i` of `t`, with its line break.
pub open spec fn line_at(t: Seq<char>, i: int) -> Seq<char> {
    lines_of(t)[i]
}

/// The index of the first character of line `i` of `t`.
pub open spec fn line_start(t: Seq<char>, i: int) -> int {
    start_of_line(lines_of(t), i)
}

/// `l` without the line break that ends it, if any.
pub open spec fn strip_break(l: Seq<char>) -> Seq<char> {
    if l.len() >= 2 && l[l.len() - 2] == '\r' && l[l.len() - 1] == '\n' {
        l.subrange(0, l.len() - 2)
    } else if l.len() >= 1 && is_line_break(l[l.len() - 1]) {
        l.subrange(0, l.len() - 1)
    } else {
        l
    }
}

/// Line starts grow with the line index.
pub proof fn lemma_start_of_line_grows(ls: Seq<Seq<char>>, i: int, j: int)
    requires
        0 <= i <= j <= ls.len(),
    ensures
        start_of_line(ls, i) <= start_of_line(ls, j),
        0 <= start_of_line(ls, i),
    decreases j,
{
    if i < j {
        lemma_start_of_line_grows(ls, i, j - 1);
    } else if i > 0 {
        lemma_start_of_line_grows(ls, i - 1, i - 1);
    }
}

proof fn lemma_start_of_line_shift(a: Seq<char>, ls: Seq<Seq<char>>, k: int)
    requires
        0 <= k <= ls.len(),
    ensures
        start_of_line(seq![a] + ls, k + 1) == a.len() + start_of_line(ls, k),
    decreases k,
{
    if k > 0 {
        lemma_start_of_line_shift(a, ls, k - 1);
        assert((seq![a] + ls)[k] == ls[k - 1]);
        assert(start_of_line(seq![a] + ls, k + 1) == start_of_line(seq![a] + ls, k) + (seq![a]
            + ls)[k].len());
        assert(start_of_line(ls, k) == start_of_line(ls, k - 1) + ls[k - 1].len());
    } else {
        assert((seq![a] + ls)[0] == a);
        assert(start_of_line(seq![a] + ls, 0) == 0);
        assert(start_of_line(seq![a] + ls, 1) == start_of_line(seq![a] + ls, 0) + (seq![a]
            + ls)[0].len());
    }
}

/// A text has at least one line, and its lines together are as long as the text.
pub proof fn lemma_lines_cover(t: Seq<char>)
    ensures
        lines_of(t).len() >= 1,
        start_of_line(lines_of(t), lines_of(t).len() as int) == t.len(),
    decreases t.len(),
{
    lemma_first_break(t, 0);
    let j = first_break(t, 0);
    if j < t.len() {
        let e = break_end(t, j);
        let rest = t.subrange(e, t.len() as int);
        lemma_lines_cover(rest);
        lemma_start_of_line_shift(t.subrange(0, e), lines_of(rest), lines_of(rest).len() as int);
    } else {
        assert(start_of_line(seq![t], 1) == start_of_line(seq![t], 0) + t.len());
    }
}

/// Every line start lies within the text, in order.
pub proof fn lemma_line_start_bounds(t: Seq<char>, i: int, j: int)
    requires
        0 <= i <= j <= lines_of(t).len(),
    ensures
        0 <= line_start(t, i) <= line_start(t, j) <= t.len(),
        line_start(t, lines_of(t).len() as int) == t.len(),
        j == i + 1 ==> line_start(t, j) == line_start(t, i) + line_at(t, i).len(),
{
    lemma_lines_cover(t);
    lemma_start_of_line_grows(lines_of(t), i, j);
    lemma_start_of_line_grows(lines_of(t), j, lines_of(t).len() as int);
}

/// Line `i` of `t` is the text between its start and the start of the next line.
pub proof fn lemma_line_start_is_flatten(t: Seq<char>, i: int)
    requires
        0 <= i < lines_of(t).len(),
    ensures
        t.subrange(line_start(t, i), line_start(t, i + 1)) == line_at(t, i),
    decreases t.len(),
{
    lemma_first_break(t, 0);
    let j = first_break(t, 0);
    if j < t.len() {
        let e = break_end(t, j);
        let rest = t.subrange(e, t.len() as int);
        let ls = lines_of(t);
        assert(ls == seq![t.subrange(0, e)] + lines_of(rest));
        if i == 0 {
            assert(start_of_line(ls, 0) == 0);
            assert(start_of_line(ls, 1) == start_of_line(ls, 0) + ls[0].len());
        } else {
            lemma_line_start_is_flatten(rest, i - 1);
            lemma_start_of_line_shift(t.subrange(0, e), lines_of(rest), i - 1);
            lemma_start_of_line_shift(t.subrange(0, e), lines_of(rest), i);
            lemma_lines_cover(rest);
            lemma_start_of_line_grows(lines_of(rest), i - 1, i);
            lemma_start_of_line_grows(lines_of(rest), i, lines_of(rest).len() as int);
            assert(t.subrange(line_start(t, i), line_start(t, i + 1)) =~= rest.subrange(
                line_start(rest, i - 1),
                line_start(rest, i),
            ));
        }
    } else {
        assert(start_of_line(seq![t], 1) == start_of_line(seq![t], 0) + t.len());
        assert(t.subrange(0, t.len() as int) =~= t);
    }
}

/// No character of `s` is a line break.
pub open spec fn no_breaks(s: Seq<char>) -> bool {
    forall|k: int| 0 <= k < s.len() ==> !is_line_break(#[trigger] s[k])
}

/// A first break that is known to stand at `j` stands there.
pub proof fn lemma_first_break_at(t: Seq<char>, i: int, j: int)
    requires
        0 <= i <= j <= t.len(),
        forall|k: int| i <= k < j ==> !is_line_break(#[trigger] t[k]),
        j < t.len() ==> is_line_break(t[j]),
    ensures
        first_break(t, i) == j,
    decreases j - i,
{
    if i < j {
        lemma_first_break_at(t, i + 1, j);
    }
}

/// A text without line breaks is one line.
pub proof fn lemma_lines_of_no_breaks(s: Seq<char>)
    requires
        no_breaks(s),
    ensures
        lines_of(s) == seq![s],
{
    lemma_first_break_at(s, 0, s.len() as int);
}

/// Text without line breaks, then a line feed, then more text: the first line is the
/// text and its line feed, and the lines of the rest follow.
pub proof fn lemma_lines_of_line_then(a: Seq<char>, b: Seq<char>)
    requires
        no_breaks(a),
    ensures
        lines_of(a.push('\n') + b) == seq![a.push('\n')] + lines_of(b),
{
    let l = a.push('\n');
    let t = l + b;
    assert forall|k: int| 0 <= k < a.len() implies !is_line_break(#[trigger] t[k]) by {
        assert(t[k] == a[k]);
    }
    assert(t[a.len() as int] == '\n');
    lemma_first_break_at(t, 0, a.len() as int);
    assert(break_end(t, a.len() as int) == l.len());
    assert(t.subrange(0, l.len() as int) =~= l);
    assert(t.subrange(l.len() as int, t.len() as int) =~= b);
}

/// The lines `ls` one after the other.
pub open spec fn join(ls: Seq<Seq<char>>) -> Seq<char>
    decreases ls.len(),
{
    if ls.len() == 0 {
        Seq::<char>::empty()
    } else {
        ls[0] + join(ls.drop_first())
    }
}

/// `l` is one line with its break: the first break of `l` ends it.
pub open spec fn is_full_line(l: Seq<char>) -> bool {
    first_break(l, 0) < l.len() && break_end(l, first_break(l, 0)) == l.len()
}

/// A line that ends with a lone CR, followed by one that starts with LF: together
/// they would make one CR LF break.
pub open spec fn joins_crlf(a: Seq<char>, b: Seq<char>) -> bool {
    a.len() > 0 && a.last() == '\r' && b.len() > 0 && b[0] == '\n'
}

/// `ls` is how the lines of a text come out: full lines, then one without a break,
/// with no lone CR before a line that starts with LF.
pub open spec fn well_split(ls: Seq<Seq<char>>) -> bool {
    &&& ls.len() >= 1
    &&& no_breaks(ls.last())
    &&& forall|i: int| 0 <= i < ls.len() - 1 ==> is_full_line(#[trigger] ls[i])
    &&& forall|i: int| 0 <= i < ls.len() - 1 ==> !joins_crlf(#[trigger] ls[i], ls[i + 1])
}

/// A full line, then text that does not start a CR LF with it: the first line is that
/// line, and the lines of the text follow.
pub proof fn lemma_lines_of_full_line_then(a: Seq<char>, b: Seq<char>)
    requires
        is_full_line(a),
        !joins_crlf(a, b),
    ensures
        lines_of(a + b) == seq![a] + lines_of(b),
{
    let t = a + b;
    lemma_first_break(a, 0);
    let j = first_break(a, 0);
    assert forall|k: int| 0 <= k < j implies !is_line_break(#[trigger] t[k]) by {
        assert(t[k] == a[k]);
        assert(!is_line_break(a[k]));
    }
    assert(t[j] == a[j]);
    lemma_first_break_at(t, 0, j);
    if a[j] == '\r' && j + 1 < a.len() {
        assert(t[j + 1] == a[j + 1]);
    } else if a[j] == '\r' {
        if b.len() > 0 {
            assert(t[j + 1] == b[0]);
        }
    }
    assert(break_end(t, j) == a.len());
    assert(t.subrange(0, a.len() as int) =~= a);
    assert(t.subrange(a.len() as int, t.len() as int) =~= b);
}

/// The lines of a text are well split and make up the text.
pub proof fn lemma_lines_well_split(t: Seq<char>)
    ensures
        well_split(lines_of(t)),
        join(lines_of(t)) == t,
    decreases t.len(),
{
    lemma_first_break(t, 0);
    let j = first_break(t, 0);
    let ls = lines_of(t);
    if j >= t.len() {
        assert(ls == seq![t]);
        assert(no_breaks(t));
        assert(join(ls) == t + join(ls.drop_first()));
        assert(ls.drop_first() =~= Seq::<Seq<char>>::empty());
        assert(t + Seq::<char>::empty() =~= t);
    } else {
        let e = break_end(t, j);
        let head = t.subrange(0, e);
        let rest = t.subrange(e, t.len() as int);
        lemma_lines_well_split(rest);
        let rs = lines_of(rest);
        assert(ls == seq![head] + rs);
        assert forall|k: int| 0 <= k < j implies !is_line_break(#[trigger] head[k]) by {
            assert(head[k] == t[k]);
        }
        assert(head[j] == t[j]);
        lemma_first_break_at(head, 0, j);
        if t[j] == '\r' && j + 1 < t.len() && t[j + 1] == '\n' {
            assert(head[j + 1] == t[j + 1]);
        }
        assert(is_full_line(head));
        // the first line of the rest starts the rest
        assert(join(rs) == rs[0] + join(rs.drop_first()));
        if rs[0].len() > 0 {
            assert(rest[0] == rs[0][0]);
            assert(rest[0] == t[e]);
        }
        assert(!joins_crlf(head, rs[0]));
        assert(ls.drop_first() =~= rs);
        assert(head + rest =~= t);
        assert forall|i: int| 0 <= i < ls.len() - 1 implies is_full_line(#[trigger] ls[i]) by {
            if i > 0 {
                assert(ls[i] == rs[i - 1]);
            }
        }
        assert forall|i: int| 0 <= i < ls.len() - 1 implies !joins_crlf(
            #[trigger] ls[i],
            ls[i + 1],
        ) by {
            if i > 0 {
                assert(ls[i] == rs[i - 1]);
                assert(ls[i + 1] == rs[i]);
            }
        }
        assert(ls.last() == rs.last());
    }
}

/// Well-split lines are the lines of the text they make up.
pub proof fn lemma_lines_of_join(ls: Seq<Seq<char>>)
    requires
        well_split(ls),
    ensures
        lines_of(join(ls)) == ls,
    decreases ls.len(),
{
    let rest = ls.drop_first();
    assert(join(ls) == ls[0] + join(rest));
    if ls.len() == 1 {
        assert(rest =~= Seq::<Seq<char>>::empty());
        assert(ls[0] + Seq::<char>::empty() =~= ls[0]);
        lemma_lines_of_no_breaks(ls[0]);
        assert(ls =~= seq![ls[0]]);
    } else {
        assert forall|i: int| 0 <= i < rest.len() - 1 implies is_full_line(#[trigger] rest[i]) by {
            assert(rest[i] == ls[i + 1]);
        }
        assert forall|i: int| 0 <= i < rest.len() - 1 implies !joins_crlf(
            #[trigger] rest[i],
            rest[i + 1],
        ) by {
            assert(rest[i] == ls[i + 1]);
            assert(rest[i + 1] == ls[i + 2]);
        }
        assert(rest.last() == ls.last());
        lemma_lines_of_join(rest);
        assert(is_full_line(ls[0]));
        assert(!joins_crlf(ls[0], ls[1]));
        assert(join(rest) == rest[0] + join(rest.drop_first()));
        if rest[0].len() > 0 {
            assert(join(rest)[0] == rest[0][0]);
        } else {
            // only the last line may be empty
            if rest.len() > 1 {
                assert(is_full_line(rest[0]));
            }
            assert(rest.drop_first() =~= Seq::<Seq<char>>::empty());
            assert(join(rest) =~= Seq::<char>::empty());
        }
        assert(!joins_crlf(ls[0], join(rest)));
        lemma_lines_of_full_line_then(ls[0], join(rest));
        assert(ls =~= seq![ls[0]] + rest);
    }
}

/// Lines joined up to `k`, then from `k`, make the whole; the first part is as long as
/// the start of line `k`.
pub proof fn lemma_join_split(ls: Seq<Seq<char>>, k: int)
    requires
        0 <= k <= ls.len(),
    ensures
        join(ls) == join(ls.subrange(0, k)) + join(ls.subrange(k, ls.len() as int)),
        join(ls.subrange(0, k)).len() == start_of_line(ls, k),
    decreases ls.len(),
{
    if k == 0 {
        assert(ls.subrange(0, 0) =~= Seq::<Seq<char>>::empty());
        assert(ls.subrange(0, ls.len() as int) =~= ls);
        assert(Seq::<char>::empty() + join(ls) =~= join(ls));
    } else {
        let df = ls.drop_first();
        lemma_join_split(df, k - 1);
        let p = ls.subrange(0, k);
        assert(p[0] == ls[0]);
        assert(p.drop_first() =~= df.subrange(0, k - 1));
        assert(ls.subrange(k, ls.len() as int) =~= df.subrange(k - 1, df.len() as int));
        assert(join(p) == p[0] + join(p.drop_first()));
        assert(join(ls) == ls[0] + join(df));
        assert(ls =~= seq![ls[0]] + df);
        lemma_start_of_line_shift(ls[0], df, k - 1);
    }
}

/// Relies on `Rope::len_lines`: one more than the number of line breaks, with
/// LF, CR LF, CR, VT, FF, NEL, LS and PS as breaks (ropey's default features).
#[verifier::external_body]
pub(crate) fn rope_len_lines(r: &Rope) -> (n: usize)
    ensures
        n == lines_of(rope_text(*r)).len(),
{
    r.len_lines()
}

/// Relies on `Rope::len_chars`: the number of characters held.
#[verifier::external_body]
pub(crate) fn rope_len_chars(r: &Rope) -> (n: usize)
    ensures
        n == rope_text(*r).len(),
{
    r.len_chars()
}

/// Relies on `Rope::line`: the characters of line `i`, line break included.
#[verifier::external_body]
pub(crate) fn rope_line(r: &Rope, i: usize) -> (l: Vec<char>)
    requires
        i < lines_of(rope_text(*r)).len(),
    ensures
        l@ == line_at(rope_text(*r), i as int),
{
    r.line(i).chars().collect()
}

/// Relies on `Rope::line_to_char`: the index of the first character of line `i`;
/// the line one past the last starts at the end of the text.
#[verifier::external_body]
pub(crate) fn rope_line_to_char(r: &Rope, i: usize) -> (c: usize)
    requires
        i <= lines_of(rope_text(*r)).len(),
    ensures
        c == line_start(rope_text(*r), i as int),
{
    r.line_to_char(i)
}

/// Relies on `Rope::remove`: the characters from `start` up to `end` leave the rope.
#[verifier::external_body]
pub(crate) fn rope_remove(r: &mut Rope, start: usize, end: usize)
    requires
        start <= end <= rope_text(*old(r)).len(),
    ensures
        rope_text(*final(r)) == rope_text(*old(r)).subrange(0, start as int) + rope_text(
            *old(r),
        ).subrange(end as int, rope_text(*old(r)).len() as int),
{
    r.remove(start..end)
}

/// Relies on `Rope::insert`: `s` is inserted before the character at `at`.
#[verifier::external_body]
pub(crate) fn rope_insert(r: &mut Rope, at: usize, s: &str)
    requires
        at <= rope_text(*old(r)).len(),
    ensures
        rope_text(*final(r)) == rope_text(*old(r)).subrange(0, at as int) + s@ + rope_text(
            *old(r),
        ).subrange(at as int, rope_text(*old(r)).len() as int),
{
    r.insert(at, s)
}

/// Relies on `Rope::new`: an empty rope.
#[verifier::external_body]
pub(crate) fn rope_new() -> (r: Rope)
    ensures
        rope_text(r) == Seq::<char>::empty(),
{
    Rope::new()
}

} // verus!
