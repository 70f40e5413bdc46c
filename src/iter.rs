//! The cursor over the lines of a journal, and the query that finds a record in it.
use crate::buffer::{
    count_lines, is_break_char, is_full_line, is_line_break, join, joins_crlf, lemma_first_break_at,
    lemma_join_split,
    lemma_line_start_bounds, lemma_line_start_is_flatten, lemma_lines_cover, lemma_lines_of_join,
    lemma_lines_well_split, line_at, line_start, lines_of, no_breaks, rope_insert,
    rope_len_chars, rope_len_lines, rope_line, rope_line_to_char, rope_new, rope_remove,
    rope_text, strip_break, well_split,
};
use crate::record::{
    lemma_record_text_no_breaks, matches_query, parse_chars, parse_record, query_matches,
    record_text, view_of, Record, RecordFieldType, RecordView,
};
use crate::text::{push_char, push_chars};
use ropey::Rope;
use vstd::prelude::*;

verus! {

/// What the cursor finds on a line: a record, or a line that holds none, kept as it stands.
#[derive(Debug, Clone, PartialEq, Eq)]
pub enum Item {
    Record(Record),
    SomeLine(String),
}

pub enum ItemView {
    Record(RecordView),
    SomeLine(Seq<char>),
}

impl View for Item {
    type V = ItemView;

    open spec fn view(&self) -> ItemView {
        match self {
            Item::Record(r) => ItemView::Record(r@),
            Item::SomeLine(s) => ItemView::SomeLine(s@),
        }
    }
}

/// The item that a line holds, its line break left out.
pub open spec fn item_of_line(l: Seq<char>) -> ItemView {
    match parse_record(strip_break(l)) {
        Some(r) => ItemView::Record(r),
        None => ItemView::SomeLine(strip_break(l)),
    }
}

/// The text that stands for an item.
pub open spec fn item_text(i: ItemView) -> Seq<char> {
    match i {
        ItemView::Record(r) => record_text(r),
        ItemView::SomeLine(s) => s,
    }
}

/// The item at position `p` of the text `t`, if `p` is a line.
pub open spec fn item_at(t: Seq<char>, p: Option<int>) -> Option<ItemView> {
    match p {
        Some(i) => if 0 <= i < count_lines(t) {
            Some(item_of_line(line_at(t, i)))
        } else {
            None
        },
        None => None,
    }
}

/// The record on line `j` of `t`, if that line holds one.
pub open spec fn record_at(t: Seq<char>, j: int) -> Option<RecordView> {
    if 0 <= j < count_lines(t) {
        parse_record(strip_break(line_at(t, j)))
    } else {
        None
    }
}

/// The position after `n` steps forward from `p`, never past the end.
pub open spec fn step_forward(p: Option<int>, n: int, count: int) -> Option<int> {
    if n == 0 {
        p
    } else {
        let to = match p {
            Some(i) => i + n,
            None => n - 1,
        };
        Some(
            if to < count {
                to
            } else {
                count
            },
        )
    }
}

/// The position after `n` steps back from `p`; before the first line it is `None`.
pub open spec fn step_backward(p: Option<int>, n: int) -> Option<int> {
    match p {
        Some(i) => if i < n {
            None
        } else {
            Some(i - n)
        },
        None => None,
    }
}

/// The position at the end of a text of `count` lines.
pub open spec fn end_position(count: int) -> Option<int> {
    if count > 0 {
        Some(count)
    } else {
        None
    }
}

/// The first line at or after `j` that holds a record satisfying `q`.
pub open spec fn find_match(t: Seq<char>, q: Seq<RecordFieldType>, j: int) -> Option<int>
    decreases count_lines(t) - j,
{
    if j < 0 || j >= count_lines(t) {
        None
    } else if record_at(t, j) matches Some(r) && query_matches(q, r) {
        Some(j)
    } else {
        find_match(t, q, j + 1)
    }
}

/// A line that `find_match` finds lies at or after `j`, within the text, and holds a
/// matching record.
pub proof fn lemma_find_match(t: Seq<char>, q: Seq<RecordFieldType>, j: int)
    ensures
        find_match(t, q, j) matches Some(m) ==> (j <= m < count_lines(t) && (record_at(
            t,
            m,
        ) matches Some(r) && query_matches(q, r))),
    decreases count_lines(t) - j,
{
    if 0 <= j < count_lines(t) && !(record_at(t, j) matches Some(r) && query_matches(q, r)) {
        lemma_find_match(t, q, j + 1);
    }
}

/// Where `locate` finds a record, the cursor stands on its line.
pub proof fn lemma_locate_position(
    t: Seq<char>,
    p: Option<int>,
    q: Seq<RecordFieldType>,
    offset: int,
)
    ensures
        locate(t, p, q, offset).0 is Some ==> (locate(t, p, q, offset).1 matches Some(i) && (0
            <= i < count_lines(t) && count_lines(t) <= lines_of(t).len() && record_at(t, i)
            == locate(t, p, q, offset).0)),
{
    lemma_find_match(t, q, scan_start(p));
    lemma_lines_cover(t);
}

/// No line from `a` up to `b` holds a record.
pub open spec fn no_record_in(t: Seq<char>, a: int, b: int) -> bool {
    forall|k: int| a <= k < b ==> (#[trigger] record_at(t, k)) is None
}

/// The first line that a walk from position `p` looks at.
pub open spec fn scan_start(p: Option<int>) -> int {
    match p {
        Some(i) => i + 1,
        None => 0,
    }
}

/// The record that a query with `offset` finds from position `p`, and where the cursor stops.
///
/// The walk looks for the first record after `p` that satisfies `q`: the anchor. With a zero
/// offset the anchor is the answer; with a positive one, the line `offset` lines further
/// (never past the end). With a negative one, the count goes back from the anchor, unless
/// the anchor is the first record of the walk: then it goes back from the end of the text.
/// A line that holds no record gives no answer.
pub open spec fn locate(t: Seq<char>, p: Option<int>, q: Seq<RecordFieldType>, offset: int) -> (
    Option<RecordView>,
    Option<int>,
) {
    let first = scan_start(p);
    let count = count_lines(t);
    match find_match(t, q, first) {
        None => (None, Some(count)),
        Some(j) => if offset == 0 {
            (record_at(t, j), Some(j))
        } else if offset > 0 {
            let to = if j + offset < count {
                j + offset
            } else {
                count
            };
            (record_at(t, to), Some(to))
        } else {
            let base = if no_record_in(t, first, j) {
                count
            } else {
                j
            };
            if base < -offset {
                (None, None)
            } else {
                (record_at(t, base + offset), Some(base + offset))
            }
        },
    }
}

/// Position `p` names a line of `t`, or the place just past its last line.
pub open spec fn has_line_slot(t: Seq<char>, p: Option<int>) -> bool {
    p matches Some(i) && i <= lines_of(t).len()
}

/// `t` without line `i`; unchanged when there is no such line.
pub open spec fn delete_line(t: Seq<char>, i: int) -> Seq<char> {
    if 0 <= i < lines_of(t).len() {
        t.subrange(0, line_start(t, i)) + t.subrange(line_start(t, i + 1), t.len() as int)
    } else {
        t
    }
}

/// `t` with line `i` replaced by `s` and a line feed.
pub open spec fn replace_line(t: Seq<char>, i: int, s: Seq<char>) -> Seq<char> {
    let d = delete_line(t, i);
    let at = line_start(t, i);
    d.subrange(0, at) + s + seq!['\n'] + d.subrange(at, d.len() as int)
}

/// The offset that a query asks for: none counts as zero.
pub open spec fn offset_of(offset: Option<i32>) -> int {
    match offset {
        Some(o) => o as int,
        None => 0,
    }
}

/// What `Iter::update_record` leaves behind: `r` tells whether the text `t` became `t2`
/// by replacing the line found with the record that `f` gave back; otherwise the text
/// stays, and either no record was found or `f` gave none back.
pub open spec fn update_outcome<F: FnOnce(Record) -> Option<Record>>(
    t: Seq<char>,
    p: Option<int>,
    q: Seq<RecordFieldType>,
    offset: int,
    f: F,
    r: bool,
    t2: Seq<char>,
) -> bool {
    let (found, pos) = locate(t, p, q, offset);
    &&& r ==> found is Some && pos is Some && exists|x: Record, y: Record|
        #![trigger f.ensures((x,), Some(y))]
        Some(x@) == found && f.ensures((x,), Some(y)) && t2 == replace_line(
            t,
            pos->0,
            record_text(y@),
        )
    &&& !r ==> t2 == t && (found is None || exists|x: Record|
        #![trigger f.ensures((x,), None)]
        Some(x@) == found && f.ensures((x,), None))
}

/// What `Iter::remove_record` leaves behind: `r` tells whether the text `t` became `t2`
/// by removing the line found, with the consent of `f`; otherwise the text stays, and
/// either no record was found or `f` refused.
pub open spec fn remove_outcome<F: FnOnce(Record) -> bool>(
    t: Seq<char>,
    p: Option<int>,
    q: Seq<RecordFieldType>,
    offset: int,
    f: F,
    r: bool,
    t2: Seq<char>,
) -> bool {
    let (found, pos) = locate(t, p, q, offset);
    &&& r ==> found is Some && pos is Some && exists|x: Record|
        #![trigger f.ensures((x,), true)]
        Some(x@) == found && f.ensures((x,), true) && t2 == delete_line(t, pos->0)
    &&& !r ==> t2 == t && (found is None || exists|x: Record|
        #![trigger f.ensures((x,), false)]
        Some(x@) == found && f.ensures((x,), false))
}

pub open spec fn item_view_of(r: Option<Item>) -> Option<ItemView> {
    match r {
        Some(x) => Some(x@),
        None => None,
    }
}

impl Item {
    /// The record, if the item is one.
    pub fn record(&self) -> (r: Option<&Record>)
        ensures
            match self {
                Item::Record(x) => r == Some(x),
                Item::SomeLine(_) => r is None,
            },
    {
        match self {
            Item::Record(r) => Some(r),
            _ => None,
        }
    }

    /// The record, if the item is one.
    pub fn into_record(self) -> (r: Option<Record>)
        ensures
            match self {
                Item::Record(x) => r == Some(x),
                Item::SomeLine(_) => r is None,
            },
    {
        match self {
            Item::Record(r) => Some(r),
            _ => None,
        }
    }

    /// The text that stands for the item.
    pub fn to_string(&self) -> (r: String)
        ensures
            r@ == item_text(self@),
    {
        match self {
            Item::Record(r) => r.to_string(),
            Item::SomeLine(s) => s.clone(),
        }
    }
}

/// The item that the line `l` holds, its line break left out.
fn item_from_line(l: Vec<char>) -> (r: Item)
    ensures
        r@ == item_of_line(l@),
{
    let n = l.len();
    let mut m = n;
    if n >= 2 && l[n - 2] == '\r' && l[n - 1] == '\n' {
        m = n - 2;
    } else if n >= 1 && is_break_char(l[n - 1]) {
        m = n - 1;
    }
    let mut v: Vec<char> = Vec::new();
    let mut i: usize = 0;
    while i < m
        invariant
            m <= n == l.len(),
            i <= m,
            v@ == l@.subrange(0, i as int),
        decreases m - i,
    {
        v.push(l[i]);
        i = i + 1;
    }
    assert(v@ == strip_break(l@));
    match parse_chars(&v) {
        Some(r) => Item::Record(r),
        None => {
            let mut s = String::new();
            push_chars(&mut s, &v);
            Item::SomeLine(s)
        },
    }
}

/// A cursor over the lines of a text held in a rope. Its position is `None` before the
/// first line, or a line index, where the index one past the last line marks the end.
pub struct Iter {
    rope: Rope,
    cur_line_idx: Option<usize>,
}

impl Iter {
    /// The text under the cursor.
    pub closed spec fn text(&self) -> Seq<char> {
        rope_text(self.rope)
    }

    /// The position of the cursor.
    pub closed spec fn position(&self) -> Option<int> {
        match self.cur_line_idx {
            Some(i) => Some(i as int),
            None => None,
        }
    }

    pub fn new(rope: Rope, cur_line_idx: Option<usize>) -> (r: Self)
        ensures
            r.text() == rope_text(rope),
            r.position() == match cur_line_idx {
                Some(i) => Some(i as int),
                None => None::<int>,
            },
    {
        Iter { rope, cur_line_idx }
    }

    /// The same cursor over another text.
    pub fn with_rope(self, rope: Rope) -> (r: Self)
        ensures
            r.text() == rope_text(rope),
            r.position() == self.position(),
    {
        Iter { rope, cur_line_idx: self.cur_line_idx }
    }

    /// The rope that holds the text.
    pub fn rope(&self) -> (r: &Rope)
        ensures
            rope_text(*r) == self.text(),
    {
        &self.rope
    }

    /// The number of lines that hold text: an empty last line does not count.
    pub fn lines_count(&self) -> (n: usize)
        ensures
            n == count_lines(self.text()),
    {
        let count = rope_len_lines(&self.rope);
        proof {
            lemma_lines_cover(self.text());
        }
        if count > 0 && rope_line_to_char(&self.rope, count - 1) == rope_len_chars(&self.rope) {
            proof {
                lemma_line_start_bounds(self.text(), count - 1, count as int);
            }
            count - 1
        } else {
            proof {
                if count > 0 {
                    lemma_line_start_bounds(self.text(), count - 1, count as int);
                }
            }
            count
        }
    }

    /// The item at the position of the cursor, if it is on a line.
    pub fn get(&self) -> (r: Option<Item>)
        ensures
            item_view_of(r) == item_at(self.text(), self.position()),
    {
        match self.cur_line_idx {
            Some(idx) => {
                if idx < self.lines_count() {
                    proof {
                        lemma_lines_cover(self.text());
                    }
                    let line = rope_line(&self.rope, idx);
                    Some(item_from_line(line))
                } else {
                    None
                }
            },
            None => None,
        }
    }

    /// Moves `n` lines forward, stopping at the end; from before the first line,
    /// one step lands on the first line.
    pub fn forward(&mut self, n: usize) -> (r: &Self)
        ensures
            final(self).text() == old(self).text(),
            final(self).position() == step_forward(
                old(self).position(),
                n as int,
                count_lines(old(self).text()),
            ),
            *r == *final(self),
    {
        if n > 0 {
            let count = self.lines_count();
            let to = match self.cur_line_idx {
                Some(idx) => if idx >= count || n >= count - idx {
                    count
                } else {
                    idx + n
                },
                None => if n - 1 < count {
                    n - 1
                } else {
                    count
                },
            };
            self.cur_line_idx = Some(to);
        }
        self
    }

    /// Moves `n` lines back; from before the first line it stays there, and a step
    /// past the first line leaves the cursor before it.
    pub fn backward(&mut self, n: usize) -> (r: &Self)
        ensures
            final(self).text() == old(self).text(),
            final(self).position() == step_backward(old(self).position(), n as int),
            *r == *final(self),
    {
        if let Some(idx) = self.cur_line_idx {
            self.cur_line_idx = if idx < n {
                None
            } else {
                Some(idx - n)
            };
        }
        self
    }

    /// Puts the cursor before the first line.
    pub fn go_to_start(&mut self)
        ensures
            final(self).text() == old(self).text(),
            final(self).position() is None,
    {
        self.cur_line_idx = None;
    }

    /// Puts the cursor past the last line, or before the first if there is none.
    pub fn go_to_end(&mut self)
        ensures
            final(self).text() == old(self).text(),
            final(self).position() == end_position(count_lines(old(self).text())),
    {
        let count = self.lines_count();
        self.cur_line_idx = if count > 0 {
            Some(count)
        } else {
            None
        };
    }

    /// Moves one line forward and returns the item there.
    pub fn next(&mut self) -> (r: Option<Item>)
        ensures
            final(self).text() == old(self).text(),
            final(self).position() == step_forward(
                old(self).position(),
                1,
                count_lines(old(self).text()),
            ),
            item_view_of(r) == item_at(final(self).text(), final(self).position()),
    {
        self.forward(1).get()
    }

    /// The record at the position of the cursor, if its line holds one.
    fn record_here(&self) -> (r: Option<Record>)
        ensures
            view_of(r) == match self.position() {
                Some(i) => record_at(self.text(), i),
                None => None,
            },
    {
        match self.get() {
            Some(Item::Record(r)) => Some(r),
            _ => None,
        }
    }

    /// Walks forward from the cursor to the first record that satisfies `query`, and
    /// tells whether it is the first record of the walk. Without one, the cursor stops
    /// at the end.
    fn find_anchor(&mut self, query: &[RecordFieldType]) -> (r: Option<(Record, bool)>)
        ensures
            final(self).text() == old(self).text(),
            match find_match(old(self).text(), query@, scan_start(old(self).position())) {
                None => r is None && final(self).position() == Some(
                    count_lines(old(self).text()),
                ),
                Some(j) => r matches Some((rec, is_first)) && Some(rec@) == record_at(
                    old(self).text(),
                    j,
                ) && is_first == no_record_in(
                    old(self).text(),
                    scan_start(old(self).position()),
                    j,
                ) && final(self).position() == Some(j),
            },
    {
        let ghost t = self.text();
        let ghost start = self.position();
        let ghost first = scan_start(start);
        let ghost count = count_lines(t);
        let mut first_record = true;
        let ghost mut k: int = first;
        loop
            invariant
                self.text() == t,
                t == old(self).text(),
                start == old(self).position(),
                count == count_lines(t),
                first == scan_start(start),
                first <= k,
                k == first ==> self.position() == start,
                k > first ==> self.position() == Some(k - 1) && k - 1 < count,
                find_match(t, query@, first) == find_match(t, query@, k),
                first_record == no_record_in(t, first, k),
            decreases count + 1 - k,
        {
            let item = self.next();
            match item {
                None => {
                    return None;
                },
                Some(Item::SomeLine(_)) => {
                    proof {
                        assert(record_at(t, k) is None);
                        assert(find_match(t, query@, k) == find_match(t, query@, k + 1));
                        if first_record {
                            assert forall|m: int| first <= m < k + 1 implies (#[trigger] record_at(
                                t,
                                m,
                            )) is None by {
                                if m < k {
                                    assert(record_at(t, m) is None);
                                }
                            }
                        }
                        k = k + 1;
                    }
                },
                Some(Item::Record(record)) => {
                    assert(record_at(t, k) == Some(record@));
                    if matches_query(query, &record) {
                        return Some((record, first_record));
                    } else {
                        first_record = false;
                        proof {
                            assert(find_match(t, query@, k) == find_match(t, query@, k + 1));
                            assert(record_at(t, k) is Some);
                            assert(!no_record_in(t, first, k + 1));
                            k = k + 1;
                        }
                    }
                },
            }
        }
    }

    /// Finds the record that `query` and `offset` point at, walking from the cursor,
    /// and leaves the cursor on its line. A missing offset counts as zero.
    pub fn go_to_record(&mut self, query: &[RecordFieldType], offset: Option<i32>) -> (r: Option<
        Record,
    >)
        ensures
            final(self).text() == old(self).text(),
            (view_of(r), final(self).position()) == locate(
                old(self).text(),
                old(self).position(),
                query@,
                offset_of(offset),
            ),
    {
        let offset: i32 = match offset {
            Some(o) => o,
            None => 0,
        };
        proof {
            lemma_find_match(self.text(), query@, scan_start(self.position()));
        }
        match self.find_anchor(query) {
            None => None,
            Some((record, first_record)) => {
                if offset == 0 {
                    Some(record)
                } else if offset > 0 {
                    self.forward(offset as usize);
                    self.record_here()
                } else {
                    if first_record {
                        self.go_to_end();
                    }
                    let back: usize = (-(offset as i64)) as usize;
                    self.backward(back);
                    self.record_here()
                }
            },
        }
    }

    /// Removes the line under the cursor, line break included, and returns the index
    /// of its first character. Past the last line nothing is removed; before the first
    /// line, or beyond the end of the text, there is nothing to remove and no index.
    pub fn remove(&mut self) -> (r: Option<usize>)
        ensures
            final(self).position() == old(self).position(),
            has_line_slot(old(self).text(), old(self).position()) ==> {
                let i = old(self).position()->0;
                &&& r matches Some(s) && s == line_start(old(self).text(), i)
                &&& final(self).text() == delete_line(old(self).text(), i)
            },
            !has_line_slot(old(self).text(), old(self).position()) ==> r is None
                && final(self).text() == old(self).text(),
    {
        let cur_line_idx = match self.cur_line_idx {
            Some(i) => i,
            None => {
                return None;
            },
        };
        let len_lines = rope_len_lines(&self.rope);
        if cur_line_idx > len_lines {
            return None;
        }
        let start_idx = rope_line_to_char(&self.rope, cur_line_idx);
        if cur_line_idx < len_lines {
            let end_idx = rope_line_to_char(&self.rope, cur_line_idx + 1);
            proof {
                lemma_line_start_bounds(self.text(), cur_line_idx as int, cur_line_idx + 1);
            }
            rope_remove(&mut self.rope, start_idx, end_idx);
        }
        Some(start_idx)
    }

    /// Replaces the line under the cursor with the text of `item` and a line feed, and
    /// returns the index of its first character. Past the last line the text is added
    /// there; before the first line, or beyond the end of the text, nothing changes.
    pub fn update(&mut self, item: &Item) -> (r: Option<usize>)
        ensures
            final(self).position() == old(self).position(),
            has_line_slot(old(self).text(), old(self).position()) ==> {
                let i = old(self).position()->0;
                &&& r matches Some(s) && s == line_start(old(self).text(), i)
                &&& final(self).text() == replace_line(old(self).text(), i, item_text(item@))
            },
            !has_line_slot(old(self).text(), old(self).position()) ==> r is None
                && final(self).text() == old(self).text(),
    {
        let ghost t = self.text();
        let start_idx = match self.remove() {
            Some(s) => s,
            None => {
                return None;
            },
        };
        proof {
            let i = self.position()->0;
            lemma_line_start_bounds(t, i, lines_of(t).len() as int);
            if i < lines_of(t).len() {
                lemma_line_start_bounds(t, i, i + 1);
            }
        }
        let mut line = item.to_string();
        push_char(&mut line, '\n');
        let ghost d = self.text();
        rope_insert(&mut self.rope, start_idx, line.as_str());
        assert(self.text() =~= replace_line(t, self.position()->0, item_text(item@))) by {
            assert(line@ =~= item_text(item@) + seq!['\n']);
            assert(d == delete_line(t, self.position()->0));
        }
        Some(start_idx)
    }

    /// Finds the record that `query` and `offset` point at and hands it to `f`; where
    /// `f` gives a record back, it takes the place of the line found. Tells whether
    /// a line was replaced, that is, whether the text needs writing back.
    pub fn update_record<F: FnOnce(Record) -> Option<Record>>(
        &mut self,
        query: &[RecordFieldType],
        offset: Option<i32>,
        f: F,
    ) -> (r: bool)
        requires
            forall|x: Record| #[trigger] f.requires((x,)),
        ensures
            update_outcome(
                old(self).text(),
                old(self).position(),
                query@,
                offset_of(offset),
                f,
                r,
                final(self).text(),
            ),
    {
        let ghost t = self.text();
        match self.go_to_record(query, offset) {
            None => false,
            Some(record) => {
                let ghost x = record;
                match f(record) {
                    Some(new_record) => {
                        proof {
                            lemma_locate_position(t, old(self).position(), query@, offset_of(offset));
                        }
                        let item = Item::Record(new_record);
                        let r = self.update(&item);
                        assert(r is Some);
                        true
                    },
                    None => false,
                }
            },
        }
    }

    /// Finds the record that `query` and `offset` point at and asks `f` about it; where
    /// `f` agrees, its line is removed. Tells whether a line was removed, that is,
    /// whether the text needs writing back.
    pub fn remove_record<F: FnOnce(Record) -> bool>(
        &mut self,
        query: &[RecordFieldType],
        offset: Option<i32>,
        f: F,
    ) -> (r: bool)
        requires
            forall|x: Record| #[trigger] f.requires((x,)),
        ensures
            remove_outcome(
                old(self).text(),
                old(self).position(),
                query@,
                offset_of(offset),
                f,
                r,
                final(self).text(),
            ),
    {
        let ghost t = self.text();
        match self.go_to_record(query, offset) {
            None => false,
            Some(record) => {
                let ghost x = record;
                if f(record) {
                    proof {
                        lemma_locate_position(t, old(self).position(), query@, offset_of(offset));
                    }
                    let r = self.remove();
                    assert(r is Some);
                    true
                } else {
                    false
                }
            },
        }
    }
}

impl Default for Iter {
    /// A cursor before the first line of an empty text.
    fn default() -> (r: Self)
        ensures
            r.text() == Seq::<char>::empty(),
            r.position() is None,
    {
        Iter { rope: rope_new(), cur_line_idx: None }
    }
}

/// A query without an offset finds what the same query finds with offset zero.
pub proof fn lemma_offset_zero_is_default(
    t: Seq<char>,
    p: Option<int>,
    q: Seq<RecordFieldType>,
)
    ensures
        locate(t, p, q, offset_of(Some(0))) == locate(t, p, q, offset_of(None)),
{
}

/// Replacing a line changes that line alone: the text before it and the text after it
/// stay as they were, and in between stands the new line with a line feed.
pub proof fn lemma_replace_line_keeps_others(t: Seq<char>, i: int, s: Seq<char>)
    requires
        0 <= i < lines_of(t).len(),
    ensures
        ({
            let t2 = replace_line(t, i, s);
            let a = line_start(t, i);
            let b = line_start(t, i + 1);
            &&& t2 == t.subrange(0, a) + s + seq!['\n'] + t.subrange(b, t.len() as int)
            &&& t2.subrange(0, a) == t.subrange(0, a)
            &&& t2.subrange(a + s.len() + 1, t2.len() as int) == t.subrange(b, t.len() as int)
        }),
{
    lemma_line_start_bounds(t, i, i + 1);
    lemma_line_start_bounds(t, i + 1, lines_of(t).len() as int);
    let a = line_start(t, i);
    let b = line_start(t, i + 1);
    let d = delete_line(t, i);
    assert(d.subrange(0, a) =~= t.subrange(0, a));
    assert(d.subrange(a, d.len() as int) =~= t.subrange(b, t.len() as int));
    let t2 = replace_line(t, i, s);
    assert(t2.subrange(0, a) =~= t.subrange(0, a));
    assert(t2.subrange(a + s.len() + 1, t2.len() as int) =~= t.subrange(b, t.len() as int));
}

/// Removing a line removes that line alone: the text before it and the text after it
/// stay as they were, in their order.
pub proof fn lemma_delete_line_keeps_others(t: Seq<char>, i: int)
    requires
        0 <= i < lines_of(t).len(),
    ensures
        ({
            let a = line_start(t, i);
            let b = line_start(t, i + 1);
            delete_line(t, i) == t.subrange(0, a) + t.subrange(b, t.len() as int)
                && t.subrange(a, b) == line_at(t, i)
        }),
{
    lemma_line_start_bounds(t, i, i + 1);
    lemma_line_start_bounds(t, i + 1, lines_of(t).len() as int);
    lemma_line_start_is_flatten(t, i);
}

/// Removing a line that holds text takes out exactly one line: the lines before it stay
/// where they were, and those after it move up by one, in their order. Left out: a line
/// that ends with a lone CR before the one removed, and one that starts with LF after
/// it, which would join into a single line break.
pub proof fn lemma_delete_line_count(t: Seq<char>, i: int)
    requires
        0 <= i < count_lines(t),
        !(0 < i && i + 1 < lines_of(t).len() && joins_crlf(line_at(t, i - 1), line_at(t, i + 1))),
    ensures
        count_lines(delete_line(t, i)) == count_lines(t) - 1,
        forall|k: int| 0 <= k < i ==> #[trigger] line_at(delete_line(t, i), k) == line_at(t, k),
        forall|k: int|
            i <= k < count_lines(t) - 1 ==> #[trigger] line_at(delete_line(t, i), k) == line_at(
                t,
                k + 1,
            ),
{
    let ls = lines_of(t);
    let n = ls.len() as int;
    lemma_lines_well_split(t);
    lemma_lines_cover(t);
    lemma_join_split(ls, i);
    lemma_join_split(ls, i + 1);
    let pre = ls.subrange(0, i);
    let post = ls.subrange(i + 1, n);
    assert(t.subrange(0, line_start(t, i)) =~= join(pre));
    assert(join(ls.subrange(i, n)) == ls[i] + join(ls.subrange(i + 1, n))) by {
        assert(ls.subrange(i, n).drop_first() =~= post);
    }
    assert(t.subrange(line_start(t, i + 1), t.len() as int) =~= join(post)) by {
        lemma_join_split(ls, i + 1);
    }
    let d = delete_line(t, i);
    assert(d == join(pre) + join(post));
    if i < n - 1 {
        let m = pre + post;
        lemma_join_split(m, i);
        assert(m.subrange(0, i) =~= pre);
        assert(m.subrange(i, m.len() as int) =~= post);
        assert forall|k: int| 0 <= k < m.len() - 1 implies is_full_line(#[trigger] m[k]) by {
            if k < i {
                assert(m[k] == ls[k]);
            } else {
                assert(m[k] == ls[k + 1]);
            }
        }
        assert forall|k: int| 0 <= k < m.len() - 1 implies !joins_crlf(#[trigger] m[k], m[k + 1]) by {
            if k < i - 1 {
                assert(m[k] == ls[k]);
                assert(m[k + 1] == ls[k + 1]);
            } else if k == i - 1 {
                assert(m[k] == ls[i - 1]);
                assert(m[k + 1] == ls[i + 1]);
            } else {
                assert(m[k] == ls[k + 1]);
                assert(m[k + 1] == ls[k + 2]);
            }
        }
        assert(m.last() == ls.last());
        assert(well_split(m));
        lemma_lines_of_join(m);
        assert(lines_of(d) == m);
        assert forall|k: int| 0 <= k < i implies #[trigger] line_at(d, k) == line_at(t, k) by {
            assert(m[k] == ls[k]);
        }
        assert forall|k: int| i <= k < count_lines(t) - 1 implies #[trigger] line_at(d, k)
            == line_at(t, k + 1) by {
            assert(m[k] == ls[k + 1]);
        }
    } else {
        let e = Seq::<char>::empty();
        let m = pre.push(e);
        lemma_join_split(m, i);
        assert(m.subrange(0, i) =~= pre);
        assert(m.subrange(i, m.len() as int) =~= seq![e]);
        assert(join(seq![e]) == e + join(seq![e].drop_first()));
        assert(seq![e].drop_first() =~= Seq::<Seq<char>>::empty());
        assert(post =~= Seq::<Seq<char>>::empty());
        assert(join(m) =~= d);
        assert forall|k: int| 0 <= k < m.len() - 1 implies is_full_line(#[trigger] m[k]) by {
            assert(m[k] == ls[k]);
        }
        assert forall|k: int| 0 <= k < m.len() - 1 implies !joins_crlf(#[trigger] m[k], m[k + 1]) by {
            assert(m[k] == ls[k]);
            if k + 1 < i {
                assert(m[k + 1] == ls[k + 1]);
            }
        }
        assert(no_breaks(e));
        assert(well_split(m));
        lemma_lines_of_join(m);
        assert(lines_of(d) == m);
        assert forall|k: int| 0 <= k < i implies #[trigger] line_at(d, k) == line_at(t, k) by {
            assert(m[k] == ls[k]);
        }
    }
}

/// Replacing a line that holds text with a nonempty line of text without breaks keeps every
/// other line as it was, at its place, and the number of lines; the line replaced
/// becomes the new text and a line feed.
pub proof fn lemma_replace_line_lines(t: Seq<char>, i: int, s: Seq<char>)
    requires
        0 <= i < count_lines(t),
        no_breaks(s),
        s.len() > 0,
    ensures
        count_lines(replace_line(t, i, s)) == count_lines(t),
        line_at(replace_line(t, i, s), i) == s.push('\n'),
        forall|k: int|
            0 <= k < count_lines(t) && k != i ==> #[trigger] line_at(replace_line(t, i, s), k)
                == line_at(t, k),
{
    let ls = lines_of(t);
    let n = ls.len() as int;
    let l = s.push('\n');
    lemma_lines_well_split(t);
    lemma_lines_cover(t);
    lemma_join_split(ls, i);
    lemma_join_split(ls, i + 1);
    lemma_line_start_bounds(t, i, i + 1);
    lemma_line_start_bounds(t, i + 1, n);
    let pre = ls.subrange(0, i);
    let post = ls.subrange(i + 1, n);
    assert(t.subrange(0, line_start(t, i)) =~= join(pre));
    assert(join(ls.subrange(i, n)) == ls[i] + join(ls.subrange(i + 1, n))) by {
        assert(ls.subrange(i, n).drop_first() =~= post);
    }
    assert(t.subrange(line_start(t, i + 1), t.len() as int) =~= join(post));
    let d = delete_line(t, i);
    let t2 = replace_line(t, i, s);
    assert(d == join(pre) + join(post));
    assert(d.subrange(0, line_start(t, i)) =~= join(pre));
    assert(d.subrange(line_start(t, i), d.len() as int) =~= join(post));
    assert(t2 =~= join(pre) + (l + join(post)));
    // the new line is a full line that joins with neither neighbour
    assert forall|k: int| 0 <= k < s.len() implies !is_line_break(#[trigger] l[k]) by {
        assert(l[k] == s[k]);
    }
    lemma_first_break_at(l, 0, s.len() as int);
    assert(is_full_line(l));
    let m = if i < n - 1 {
        pre.push(l) + post
    } else {
        pre.push(l).push(Seq::<char>::empty())
    };
    assert(m.subrange(0, i) =~= pre);
    assert(m[i] == l);
    let tail = m.subrange(i + 1, m.len() as int);
    if i < n - 1 {
        assert(tail =~= post);
    } else {
        assert(tail =~= seq![Seq::<char>::empty()]);
        assert(post =~= Seq::<Seq<char>>::empty());
        assert(join(tail) == Seq::<char>::empty() + join(tail.drop_first()));
        assert(tail.drop_first() =~= Seq::<Seq<char>>::empty());
    }
    assert(join(tail) == join(post));
    lemma_join_split(m, i);
    assert(join(m.subrange(i, m.len() as int)) == l + join(tail)) by {
        assert(m.subrange(i, m.len() as int).drop_first() =~= tail);
    }
    assert(join(m) == t2);
    assert forall|k: int| 0 <= k < m.len() - 1 implies is_full_line(#[trigger] m[k]) by {
        if k < i {
            assert(m[k] == ls[k]);
        } else if k > i {
            assert(m[k] == ls[k]);
        }
    }
    assert forall|k: int| 0 <= k < m.len() - 1 implies !joins_crlf(#[trigger] m[k], m[k + 1]) by {
        if k < i - 1 {
            assert(m[k] == ls[k]);
            assert(m[k + 1] == ls[k + 1]);
        } else if k == i - 1 {
            assert(m[k] == ls[k]);
            assert(m[k + 1] == l);
            assert(l[0] == s[0]);
            assert(!is_line_break(s[0]));
        } else if k == i {
            assert(m[k] == l);
            assert(l.last() == '\n');
        } else {
            assert(m[k] == ls[k]);
            assert(m[k + 1] == ls[k + 1]);
        }
    }
    if i == n - 1 {
        assert(no_breaks(Seq::<char>::empty()));
    } else {
        assert(m.last() == ls.last());
    }
    assert(well_split(m));
    lemma_lines_of_join(m);
    assert(lines_of(t2) == m);
    assert forall|k: int| 0 <= k < count_lines(t) && k != i implies #[trigger] line_at(t2, k)
        == line_at(t, k) by {
        assert(m[k] == ls[k]);
    }
}

/// An update whose transformation always gives a record back replaces the line found,
/// and that line alone, with the record's text. Where the new note holds no line break,
/// every other line, whether it holds a record or not, stays as it was, at its place.
pub proof fn lemma_accepted_update<F: FnOnce(Record) -> Option<Record>>(
    t: Seq<char>,
    p: Option<int>,
    q: Seq<RecordFieldType>,
    offset: int,
    f: F,
    r: bool,
    t2: Seq<char>,
)
    requires
        update_outcome(t, p, q, offset, f, r, t2),
        locate(t, p, q, offset).0 is Some,
        forall|x: Record, y: Option<Record>| #[trigger] f.ensures((x,), y) ==> y is Some,
    ensures
        r,
        ({
            let i = locate(t, p, q, offset).1->0;
            let a = line_start(t, i);
            let b = line_start(t, i + 1);
            exists|y: Record|
                #![trigger record_text(y@)]
                t2 == t.subrange(0, a) + record_text(y@) + seq!['\n'] + t.subrange(
                    b,
                    t.len() as int,
                ) && (no_breaks(y@.note) ==> {
                    &&& count_lines(t2) == count_lines(t)
                    &&& line_at(t2, i) == record_text(y@).push('\n')
                    &&& forall|k: int|
                        0 <= k < count_lines(t) && k != i ==> #[trigger] line_at(t2, k)
                            == line_at(t, k)
                    &&& forall|k: int|
                        0 <= k < count_lines(t) && k != i ==> #[trigger] item_at(t2, Some(k))
                            == item_at(t, Some(k))
                })
        }),
{
    lemma_locate_position(t, p, q, offset);
    if !r {
        let x = choose|x: Record| Some(x@) == locate(t, p, q, offset).0 && f.ensures((x,), None);
        assert(f.ensures((x,), None));
    }
    let i = locate(t, p, q, offset).1->0;
    let (x, y) = choose|x: Record, y: Record|
        Some(x@) == locate(t, p, q, offset).0 && f.ensures((x,), Some(y)) && t2 == replace_line(
            t,
            i,
            record_text(y@),
        );
    lemma_replace_line_keeps_others(t, i, record_text(y@));
    if no_breaks(y@.note) {
        lemma_record_text_no_breaks(y@);
        assert(record_text(y@)[0] == '[');
        lemma_replace_line_lines(t, i, record_text(y@));
        assert forall|k: int| 0 <= k < count_lines(t) && k != i implies #[trigger] item_at(
            t2,
            Some(k),
        ) == item_at(t, Some(k)) by {
            assert(line_at(t2, k) == line_at(t, k));
        }
    }
}

/// An update whose transformation never gives a record back leaves the text as it was,
/// and asks for no writing back.
pub proof fn lemma_declined_update<F: FnOnce(Record) -> Option<Record>>(
    t: Seq<char>,
    p: Option<int>,
    q: Seq<RecordFieldType>,
    offset: int,
    f: F,
    r: bool,
    t2: Seq<char>,
)
    requires
        update_outcome(t, p, q, offset, f, r, t2),
        forall|x: Record, y: Option<Record>| #[trigger] f.ensures((x,), y) ==> y is None,
    ensures
        !r,
        t2 == t,
{
    if r {
        let (x, y) = choose|x: Record, y: Record|
            Some(x@) == locate(t, p, q, offset).0 && f.ensures((x,), Some(y)) && t2
                == replace_line(t, locate(t, p, q, offset).1->0, record_text(y@));
        assert(f.ensures((x,), Some(y)));
    }
}

/// A removal that is always agreed to takes out the line found, and that line alone:
/// what stood before it and after it stays, in its order.
pub proof fn lemma_agreed_remove<F: FnOnce(Record) -> bool>(
    t: Seq<char>,
    p: Option<int>,
    q: Seq<RecordFieldType>,
    offset: int,
    f: F,
    r: bool,
    t2: Seq<char>,
)
    requires
        remove_outcome(t, p, q, offset, f, r, t2),
        locate(t, p, q, offset).0 is Some,
        forall|x: Record, y: bool| #[trigger] f.ensures((x,), y) ==> y,
    ensures
        r,
        ({
            let i = locate(t, p, q, offset).1->0;
            let a = line_start(t, i);
            let b = line_start(t, i + 1);
            &&& t2 == t.subrange(0, a) + t.subrange(b, t.len() as int)
            &&& t.subrange(a, b) == line_at(t, i)
            &&& !(0 < i && i + 1 < lines_of(t).len() && joins_crlf(
                line_at(t, i - 1),
                line_at(t, i + 1),
            )) ==> count_lines(t2) == count_lines(t) - 1
        }),
{
    lemma_locate_position(t, p, q, offset);
    if !r {
        let x = choose|x: Record| Some(x@) == locate(t, p, q, offset).0 && f.ensures((x,), false);
        assert(f.ensures((x,), false));
    }
    let i = locate(t, p, q, offset).1->0;
    lemma_delete_line_keeps_others(t, i);
    if !(0 < i && i + 1 < lines_of(t).len() && joins_crlf(line_at(t, i - 1), line_at(t, i + 1))) {
        lemma_delete_line_count(t, i);
    }
}

} // verus!
