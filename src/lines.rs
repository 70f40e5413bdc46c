//! A walker over the lines of a text, forward and backward, one line at a time.
use crate::text::{chars_of, push_char};
use vstd::prelude::*;

verus! {

/// The index of the first LF at or after `p`, or the length of `t`.
pub open spec fn next_newline(t: Seq<char>, p: int) -> int
    decreases t.len() - p,
{
    if p < 0 || p >= t.len() {
        t.len() as int
    } else if t[p] == '\n' {
        p
    } else {
        next_newline(t, p + 1)
    }
}

/// The end of the line that starts at `p`: just past its LF, or the end of the text.
pub open spec fn line_end(t: Seq<char>, p: int) -> int {
    let n = next_newline(t, p);
    if n < t.len() {
        n + 1
    } else {
        t.len() as int
    }
}

/// `l` without a final LF, and without the CR before it.
pub open spec fn chomp(l: Seq<char>) -> Seq<char> {
    if l.len() > 0 && l.last() == '\n' {
        let m = l.drop_last();
        if m.len() > 0 && m.last() == '\r' {
            m.drop_last()
        } else {
            m
        }
    } else {
        l
    }
}

/// The line that starts at `p`, without its line break.
pub open spec fn line_from(t: Seq<char>, p: int) -> Seq<char> {
    chomp(t.subrange(p, line_end(t, p)))
}

/// The start of the line that holds the character before `p`.
pub open spec fn line_begin(t: Seq<char>, p: int) -> int
    decreases p,
{
    if p <= 0 {
        0
    } else if t[p - 1] == '\n' {
        p
    } else {
        line_begin(t, p - 1)
    }
}

/// From `p > 0`, the start of the line before: a line break just before `p` is passed first.
pub open spec fn step_back(t: Seq<char>, p: int) -> int {
    let q = if t[p - 1] == '\n' {
        if p - 1 > 0 && t[p - 2] == '\r' {
            p - 2
        } else {
            p - 1
        }
    } else {
        p
    };
    line_begin(t, q)
}

/// Where `k + 1` steps back from `p` end; `None` where the start is reached first.
pub open spec fn back_steps(t: Seq<char>, p: int, k: nat) -> Option<int>
    decreases k,
{
    if p <= 0 {
        None
    } else if k == 0 {
        Some(step_back(t, p))
    } else {
        back_steps(t, step_back(t, p), (k - 1) as nat)
    }
}

proof fn lemma_next_newline(t: Seq<char>, p: int)
    requires
        0 <= p <= t.len(),
    ensures
        p <= next_newline(t, p) <= t.len(),
        next_newline(t, p) < t.len() ==> t[next_newline(t, p)] == '\n',
    decreases t.len() - p,
{
    if p < t.len() && t[p] != '\n' {
        lemma_next_newline(t, p + 1);
    }
}

/// Lines of a text, read from a position that moves forward and backward.
pub struct LinesWalker {
    text: Vec<char>,
    pos: usize,
}

/// Walking back over the lines of a text.
pub trait LinesWalk {
    /// The line before the position, which moves to its start.
    fn rev_next(&mut self) -> Option<String>;

    /// The line `skipped + 1` lines before the position, which moves to its start.
    fn rev_skip_next(&mut self, skipped: usize) -> Option<String>;

    /// Moves to the end of the text and returns the position there.
    fn go_to_end(&mut self) -> u64;
}

impl LinesWalker {
    /// The text walked over.
    pub closed spec fn text(&self) -> Seq<char> {
        self.text@
    }

    /// The position, as an index of a character of the text.
    pub closed spec fn position(&self) -> int {
        self.pos as int
    }

    pub closed spec fn wf(&self) -> bool {
        self.pos <= self.text.len()
    }

    /// A walker at the start of `text`.
    pub fn new(text: &str) -> (r: Self)
        ensures
            r.wf(),
            r.text() == text@,
            r.position() == 0,
    {
        LinesWalker { text: chars_of(text), pos: 0 }
    }

    /// Appends the line at the position to `buf`, without a final LF and the CR before
    /// it, moves past it, and returns the number of characters read, line break included.
    pub fn read_line(&mut self, buf: &mut String) -> (n: usize)
        requires
            old(self).wf(),
        ensures
            final(self).wf(),
            final(self).text() == old(self).text(),
            n == line_end(old(self).text(), old(self).position()) - old(self).position(),
            final(self).position() == line_end(old(self).text(), old(self).position()),
            final(buf)@ == chomp(
                old(buf)@ + old(self).text().subrange(
                    old(self).position(),
                    line_end(old(self).text(), old(self).position()),
                ),
            ),
    {
        let ghost t = self.text@;
        let start = self.pos;
        let mut i = self.pos;
        proof {
            lemma_next_newline(t, start as int);
        }
        while i < self.text.len() && self.text[i] != '\n'
            invariant
                t == self.text@,
                start <= i <= self.text.len(),
                next_newline(t, i as int) == next_newline(t, start as int),
                self.pos == start,
            decreases self.text.len() - i,
        {
            i = i + 1;
        }
        let end = if i < self.text.len() {
            i + 1
        } else {
            i
        };
        let mut all = chars_of(buf.as_str());
        let ghost b = all@;
        let mut j = start;
        while j < end
            invariant
                t == self.text@,
                start <= j <= end <= self.text.len(),
                all@ == b + t.subrange(start as int, j as int),
            decreases end - j,
        {
            all.push(self.text[j]);
            j = j + 1;
            assert(t.subrange(start as int, j as int) == t.subrange(start as int, j - 1).push(
                t[j - 1],
            ));
        }
        let mut k: usize = all.len();
        if k > 0 && all[k - 1] == '\n' {
            k = k - 1;
            if k > 0 && all[k - 1] == '\r' {
                k = k - 1;
            }
        }
        let mut out = String::new();
        let mut m: usize = 0;
        while m < k
            invariant
                k <= all.len(),
                m <= k,
                out@ == all@.subrange(0, m as int),
            decreases k - m,
        {
            push_char(&mut out, all[m]);
            m = m + 1;
            assert(all@.subrange(0, m as int) == all@.subrange(0, m - 1).push(all@[m - 1]));
        }
        *buf = out;
        self.pos = end;
        proof {
            assert(buf@ =~= chomp(all@));
        }
        end - start
    }

    /// The line at the position, without its line break; the position moves past it.
    /// At the end of the text there is none.
    pub fn next(&mut self) -> (r: Option<String>)
        requires
            old(self).wf(),
        ensures
            final(self).wf(),
            final(self).text() == old(self).text(),
            old(self).position() == old(self).text().len() ==> r is None && final(self).position()
                == old(self).position(),
            old(self).position() < old(self).text().len() ==> (r matches Some(l) && (l@
                == line_from(old(self).text(), old(self).position()) && final(self).position()
                == line_end(old(self).text(), old(self).position()))),
    {
        proof {
            lemma_next_newline(self.text@, self.pos as int);
        }
        let mut buf = String::new();
        let n = self.read_line(&mut buf);
        if n == 0 {
            None
        } else {
            proof {
                assert(Seq::<char>::empty() + self.text@.subrange(old(self).pos as int, self.pos as int)
                    =~= self.text@.subrange(old(self).pos as int, self.pos as int));
            }
            Some(buf)
        }
    }

    /// Moves to the start of the line before the position.
    fn step_back(&mut self)
        requires
            old(self).wf(),
            old(self).position() > 0,
        ensures
            final(self).wf(),
            final(self).text() == old(self).text(),
            final(self).position() == step_back(old(self).text(), old(self).position()),
    {
        let ghost t = self.text@;
        let mut q = self.pos;
        if self.text[q - 1] == '\n' {
            q = q - 1;
            if q > 0 && self.text[q - 1] == '\r' {
                q = q - 1;
            }
        }
        let ghost q0 = q;
        while q > 0 && self.text[q - 1] != '\n'
            invariant
                t == self.text@,
                q <= self.text.len(),
                line_begin(t, q as int) == line_begin(t, q0 as int),
            decreases q,
        {
            q = q - 1;
        }
        self.pos = q;
    }

    /// The line `skipped + 1` lines before the position, without its line break; the
    /// position moves to its start. Where the start of the text comes first, there is
    /// none, and the position is the start.
    pub fn rev_skip_next(&mut self, skipped: usize) -> (r: Option<String>)
        requires
            old(self).wf(),
        ensures
            final(self).wf(),
            final(self).text() == old(self).text(),
            match back_steps(old(self).text(), old(self).position(), skipped as nat) {
                None => r is None && final(self).position() == 0,
                Some(q) => r matches Some(l) && l@ == line_from(old(self).text(), q)
                    && final(self).position() == q,
            },
    {
        let ghost t = self.text@;
        let ghost p0 = self.pos as int;
        let mut remaining = skipped;
        loop
            invariant_except_break
                back_steps(t, p0, skipped as nat) == back_steps(t, self.pos as int, remaining as nat),
            invariant
                self.wf(),
                t == self.text@,
                t == old(self).text(),
                p0 == old(self).position(),
            ensures
                self.wf(),
                t == self.text@,
                back_steps(t, p0, skipped as nat) == Some(self.pos as int),
            decreases remaining,
        {
            if self.pos == 0 {
                return None;
            }
            self.step_back();
            if remaining == 0 {
                break;
            }
            remaining = remaining - 1;
        }
        let q = self.pos;
        let mut line = String::new();
        self.read_line(&mut line);
        self.pos = q;
        proof {
            assert(Seq::<char>::empty() + t.subrange(q as int, line_end(t, q as int)) =~= t.subrange(
                q as int,
                line_end(t, q as int),
            ));
        }
        Some(line)
    }

    /// The line before the position, without its line break; the position moves to its start.
    pub fn rev_next(&mut self) -> (r: Option<String>)
        requires
            old(self).wf(),
        ensures
            final(self).wf(),
            final(self).text() == old(self).text(),
            match back_steps(old(self).text(), old(self).position(), 0) {
                None => r is None && final(self).position() == 0,
                Some(q) => r matches Some(l) && l@ == line_from(old(self).text(), q)
                    && final(self).position() == q,
            },
    {
        self.rev_skip_next(0)
    }

    /// Moves to the end of the text and returns the position there.
    pub fn go_to_end(&mut self) -> (r: u64)
        requires
            old(self).wf(),
        ensures
            final(self).wf(),
            final(self).text() == old(self).text(),
            final(self).position() == old(self).text().len(),
            r == old(self).text().len(),
    {
        self.pos = self.text.len();
        self.pos as u64
    }
}

impl LinesWalk for LinesWalker {
    fn rev_next(&mut self) -> Option<String> {
        if self.pos <= self.text.len() {
            LinesWalker::rev_next(self)
        } else {
            None
        }
    }

    fn rev_skip_next(&mut self, skipped: usize) -> Option<String> {
        if self.pos <= self.text.len() {
            LinesWalker::rev_skip_next(self, skipped)
        } else {
            None
        }
    }

    fn go_to_end(&mut self) -> u64 {
        self.pos = self.text.len();
        self.pos as u64
    }
}

} // verus!
