//! Records and the grammar of a record line:
//! `[<start>, <activity> (<rest>)] <note>`.
use crate::buffer::{is_line_break, no_breaks};
use crate::error::TimeTrackError;
use crate::text::{
    all_digits, all_digits_in, chars_of, digits_value, int_text, is_digit, is_digit_char,
    is_space, is_space_char, lemma_nat_text, nat_text, push_char, push_int, read_digits,
};
use crate::timestamp::{
    lemma_text_chars, lemma_timestamp_round_trip, parse_timestamp, timestamp_of, Timestamp,
};
use vstd::prelude::*;

verus! {

/// One entry of the journal: when it started, how many minutes of activity,
/// how many minutes of rest (or of correction, which may be negative), and a note.
#[derive(Debug, Clone, Default, PartialEq, Eq)]
pub struct Record {
    pub start: Option<Timestamp>,
    pub activity: Option<i64>,
    pub rest: Option<i64>,
    pub note: String,
}

/// What a record holds, as plain values.
pub struct RecordView {
    pub start: Option<Timestamp>,
    pub activity: Option<i64>,
    pub rest: Option<i64>,
    pub note: Seq<char>,
}

impl View for Record {
    type V = RecordView;

    open spec fn view(&self) -> RecordView {
        RecordView {
            start: self.start,
            activity: self.activity,
            rest: self.rest,
            note: self.note@,
        }
    }
}

/// A condition on one field of a record: the field equals the value, where
/// `None` asks for the field to be absent.
#[derive(Debug, Clone, PartialEq, Eq)]
pub enum RecordFieldType {
    Start(Option<Timestamp>),
    Activity(Option<i64>),
    Rest(Option<i64>),
    Note(String),
}

/// The names of the fields of a record.
#[derive(Debug, Clone, Copy, PartialEq, Eq, Structural)]
pub enum RecordFieldName {
    Start,
    Activity,
    Rest,
    Note,
}

/// A part of a query: a condition on a field, or an offset from the record found.
#[derive(Debug, Clone, PartialEq, Eq)]
pub enum RecordQuery {
    Field(RecordFieldType),
    Offset(i32),
}

/// The character classes of the line grammar.
#[derive(Clone, Copy, PartialEq, Eq, Structural)]
pub enum CharClass {
    /// White space.
    Space,
    /// A decimal digit.
    Digit,
    /// Anything but a comma.
    NotComma,
    /// A character of a note: anything but LF, CR, `|` and `^`.
    NoteChar,
    /// LF.
    Newline,
}

pub open spec fn in_class(c: char, k: CharClass) -> bool {
    match k {
        CharClass::Space => is_space(c),
        CharClass::Digit => is_digit(c),
        CharClass::NotComma => c != ',',
        CharClass::NoteChar => c != '\n' && c != '\r' && c != '|' && c != '^',
        CharClass::Newline => c == '\n',
    }
}

/// The end of the longest run of characters of class `k` that starts at `i`.
pub open spec fn run_end(t: Seq<char>, i: int, k: CharClass) -> int
    decreases t.len() - i,
{
    if 0 <= i < t.len() && in_class(t[i], k) {
        run_end(t, i + 1, k)
    } else {
        i
    }
}

/// Where the fields of a record line lie: the start text, the activity digits,
/// the rest text if the parentheses are there, and the note, each as a range of indices.
pub type FieldBounds = (int, int, int, int, Option<(int, int)>, int, int);

/// The bounds of the fields of `t`, if `t` is a record line. In the notation of
/// regular expressions, with `\s` for white space, a record line is
/// `^\[\s*(?P<start>[^,]*),\s*(?P<activity>[0-9]*)\s*(?:\(\s*(?P<rest>-?[0-9]*)\s*\))?\s*\]\s*(?P<note>[^\n|^\r]*)\r?\n*$`;
/// each run takes all it can, which is what a leftmost-first match of that expression does.
#[verifier::opaque]
pub open spec fn line_fields(t: Seq<char>) -> Option<FieldBounds> {
    if t.len() == 0 || t[0] != '[' {
        None
    } else {
        let c = run_end(t, 1, CharClass::NotComma);
        if c >= t.len() {
            None
        } else {
            let s0 = run_end(t, 1, CharClass::Space);
            let a0 = run_end(t, c + 1, CharClass::Space);
            let a1 = run_end(t, a0, CharClass::Digit);
            let g = run_end(t, a1, CharClass::Space);
            let group: Option<(Option<(int, int)>, int)> = if g < t.len() && t[g] == '(' {
                let r0 = run_end(t, g + 1, CharClass::Space);
                let r1 = if r0 < t.len() && t[r0] == '-' {
                    r0 + 1
                } else {
                    r0
                };
                let r2 = run_end(t, r1, CharClass::Digit);
                let r3 = run_end(t, r2, CharClass::Space);
                if r3 < t.len() && t[r3] == ')' {
                    Some((Some((r0, r2)), r3 + 1))
                } else {
                    None
                }
            } else {
                Some((None, g))
            };
            match group {
                None => None,
                Some((rest, after)) => {
                    let b = run_end(t, after, CharClass::Space);
                    if b >= t.len() || t[b] != ']' {
                        None
                    } else {
                        let n0 = run_end(t, b + 1, CharClass::Space);
                        let n1 = run_end(t, n0, CharClass::NoteChar);
                        let e = if n1 < t.len() && t[n1] == '\r' {
                            n1 + 1
                        } else {
                            n1
                        };
                        if run_end(t, e, CharClass::Newline) == t.len() {
                            Some((s0, c, a0, a1, rest, n0, n1))
                        } else {
                            None
                        }
                    }
                },
            }
        }
    }
}

/// A count of minutes without sign, if it fits in an `i64`.
pub open spec fn unsigned_of(s: Seq<char>) -> Option<i64> {
    if s.len() > 0 && all_digits(s) && digits_value(s) <= i64::MAX {
        Some(digits_value(s) as i64)
    } else {
        None
    }
}

/// A count of minutes with an optional minus sign, if it fits in an `i64`.
pub open spec fn signed_of(s: Seq<char>) -> Option<i64> {
    if s.len() > 0 && s[0] == '-' {
        let m = s.subrange(1, s.len() as int);
        if m.len() > 0 && all_digits(m) && digits_value(m) <= 0x8000_0000_0000_0000 {
            Some((-digits_value(m)) as i64)
        } else {
            None
        }
    } else {
        unsigned_of(s)
    }
}

/// The record that a line holds, if it is a record line. A start, activity or
/// rest text that does not read as a value leaves that field absent.
#[verifier::opaque]
pub open spec fn parse_record(t: Seq<char>) -> Option<RecordView> {
    match line_fields(t) {
        None => None,
        Some((s0, c, a0, a1, rest, n0, n1)) => Some(
            RecordView {
                start: timestamp_of(t.subrange(s0, c)),
                activity: unsigned_of(t.subrange(a0, a1)),
                rest: match rest {
                    Some((r0, r2)) => signed_of(t.subrange(r0, r2)),
                    None => None,
                },
                note: t.subrange(n0, n1),
            },
        ),
    }
}

/// The line that stands for a record: `[<start>, <activity> (<rest>)] <note>`,
/// where an absent field leaves its place empty and an empty note drops the space
/// before it.
pub open spec fn record_text(r: RecordView) -> Seq<char> {
    let start = match r.start {
        Some(t) => t.text(),
        None => Seq::<char>::empty(),
    };
    let activity = match r.activity {
        Some(a) => int_text(a as int),
        None => Seq::<char>::empty(),
    };
    let rest = match r.rest {
        Some(x) => int_text(x as int),
        None => Seq::<char>::empty(),
    };
    let note = if r.note.len() > 0 {
        seq![' '] + r.note
    } else {
        Seq::<char>::empty()
    };
    seq!['['] + start + seq![',', ' '] + activity + seq![' ', '('] + rest + seq![')', ']'] + note
}

/// Whether a record satisfies one condition.
pub open spec fn field_matches(f: RecordFieldType, r: RecordView) -> bool {
    match f {
        RecordFieldType::Start(x) => x == r.start,
        RecordFieldType::Activity(x) => x == r.activity,
        RecordFieldType::Rest(x) => x == r.rest,
        RecordFieldType::Note(x) => x@ == r.note,
    }
}

/// Whether a record satisfies every condition of a query.
pub open spec fn query_matches(q: Seq<RecordFieldType>, r: RecordView) -> bool {
    forall|i: int| 0 <= i < q.len() ==> field_matches(#[trigger] q[i], r)
}

pub proof fn lemma_run_end(t: Seq<char>, i: int, k: CharClass)
    requires
        0 <= i <= t.len(),
    ensures
        i <= run_end(t, i, k) <= t.len(),
        forall|j: int| i <= j < run_end(t, i, k) ==> in_class(#[trigger] t[j], k),
        run_end(t, i, k) < t.len() ==> !in_class(t[run_end(t, i, k)], k),
    decreases t.len() - i,
{
    if i < t.len() && in_class(t[i], k) {
        lemma_run_end(t, i + 1, k);
    }
}

/// A run that is known to end at `j` ends there.
pub proof fn lemma_run_end_at(t: Seq<char>, i: int, j: int, k: CharClass)
    requires
        0 <= i <= j <= t.len(),
        forall|m: int| i <= m < j ==> in_class(#[trigger] t[m], k),
        j < t.len() ==> !in_class(t[j], k),
    ensures
        run_end(t, i, k) == j,
    decreases j - i,
{
    if i < j {
        lemma_run_end_at(t, i + 1, j, k);
    }
}

fn char_in_class(c: char, k: CharClass) -> (r: bool)
    ensures
        r == in_class(c, k),
{
    match k {
        CharClass::Space => is_space_char(c),
        CharClass::Digit => is_digit_char(c),
        CharClass::NotComma => c != ',',
        CharClass::NoteChar => c != '\n' && c != '\r' && c != '|' && c != '^',
        CharClass::Newline => c == '\n',
    }
}

fn skip_run(v: &Vec<char>, i: usize, k: CharClass) -> (e: usize)
    requires
        i <= v.len(),
    ensures
        e == run_end(v@, i as int, k),
        i <= e <= v.len(),
{
    let mut j = i;
    while j < v.len() && char_in_class(v[j], k)
        invariant
            i <= j <= v.len(),
            run_end(v@, j as int, k) == run_end(v@, i as int, k),
        decreases v.len() - j,
    {
        j = j + 1;
    }
    j
}

/// The bounds of the fields of the record line `v`, if it is one.
pub fn scan_fields(v: &Vec<char>) -> (r: Option<(usize, usize, usize, usize, Option<(usize, usize)>, usize, usize)>)
    ensures
        match r {
            None => line_fields(v@) is None,
            Some((s0, c, a0, a1, rest, n0, n1)) => {
                &&& line_fields(v@) == Some(
                    (
                        s0 as int,
                        c as int,
                        a0 as int,
                        a1 as int,
                        match rest {
                            Some((r0, r2)) => Some((r0 as int, r2 as int)),
                            None => None,
                        },
                        n0 as int,
                        n1 as int,
                    ),
                )
                &&& s0 <= c < a0 <= a1 <= n0 <= n1 <= v.len()
                &&& rest matches Some((r0, r2)) ==> a1 <= r0 <= r2 <= n0
            },
        },
{
    reveal(line_fields);
    let t = v;
    if t.len() == 0 || t[0] != '[' {
        return None;
    }
    let c = skip_run(t, 1, CharClass::NotComma);
    if c >= t.len() {
        return None;
    }
    let s0 = skip_run(t, 1, CharClass::Space);
    proof {
        lemma_run_end(v@, 1, CharClass::Space);
        lemma_run_end(v@, 1, CharClass::NotComma);
        if s0 > c {
            assert(in_class(v@[c as int], CharClass::Space));
        }
    }
    let a0 = skip_run(t, c + 1, CharClass::Space);
    let a1 = skip_run(t, a0, CharClass::Digit);
    let g = skip_run(t, a1, CharClass::Space);
    let mut rest: Option<(usize, usize)> = None;
    let mut after = g;
    if g < t.len() && t[g] == '(' {
        let r0 = skip_run(t, g + 1, CharClass::Space);
        let r1 = if r0 < t.len() && t[r0] == '-' {
            r0 + 1
        } else {
            r0
        };
        let r2 = skip_run(t, r1, CharClass::Digit);
        let r3 = skip_run(t, r2, CharClass::Space);
        if r3 < t.len() && t[r3] == ')' {
            rest = Some((r0, r2));
            after = r3 + 1;
        } else {
            return None;
        }
    }
    let b = skip_run(t, after, CharClass::Space);
    if b >= t.len() || t[b] != ']' {
        return None;
    }
    let n0 = skip_run(t, b + 1, CharClass::Space);
    let n1 = skip_run(t, n0, CharClass::NoteChar);
    let e = if n1 < t.len() && t[n1] == '\r' {
        n1 + 1
    } else {
        n1
    };
    let z = skip_run(t, e, CharClass::Newline);
    if z == t.len() {
        Some((s0, c, a0, a1, rest, n0, n1))
    } else {
        None
    }
}

/// The fields of a record line as text, before they are read as values.
#[derive(Debug, Clone, PartialEq, Eq)]
pub struct RecordCaptures {
    pub start: String,
    pub activity: String,
    pub rest: Option<String>,
    pub note: String,
}

/// `v[from..to]` as a string.
fn string_of(v: &Vec<char>, from: usize, to: usize) -> (r: String)
    requires
        from <= to <= v.len(),
    ensures
        r@ == v@.subrange(from as int, to as int),
{
    let mut r = String::new();
    let mut i = from;
    while i < to
        invariant
            from <= i <= to <= v.len(),
            r@ == v@.subrange(from as int, i as int),
        decreases to - i,
    {
        push_char(&mut r, v[i]);
        i = i + 1;
        assert(v@.subrange(from as int, i as int) == v@.subrange(from as int, i - 1).push(
            v@[i - 1],
        ));
    }
    r
}

/// Reads `v[from..to]` as a count of minutes without sign.
fn unsigned_in(v: &Vec<char>, from: usize, to: usize) -> (r: Option<i64>)
    requires
        from <= to <= v.len(),
    ensures
        r == unsigned_of(v@.subrange(from as int, to as int)),
{
    if from == to || !all_digits_in(v, from, to) {
        return None;
    }
    match read_digits(v, from, to, 0x7fff_ffff_ffff_ffff) {
        Some(n) => Some(n as i64),
        None => None,
    }
}

/// Reads `v[from..to]` as a count of minutes with an optional minus sign.
fn signed_in(v: &Vec<char>, from: usize, to: usize) -> (r: Option<i64>)
    requires
        from <= to <= v.len(),
    ensures
        r == signed_of(v@.subrange(from as int, to as int)),
{
    let ghost s = v@.subrange(from as int, to as int);
    if from < to && v[from] == '-' {
        assert(s[0] == v@[from as int]);
        assert(s.subrange(1, s.len() as int) == v@.subrange(from + 1, to as int));
        if from + 1 == to || !all_digits_in(v, from + 1, to) {
            return None;
        }
        match read_digits(v, from + 1, to, 0x8000_0000_0000_0000) {
            Some(n) => {
                if n == 0x8000_0000_0000_0000 {
                    Some(i64::MIN)
                } else {
                    Some(-(n as i64))
                }
            },
            None => None,
        }
    } else {
        proof {
            if from < to {
                assert(s[0] == v@[from as int]);
            }
        }
        unsigned_in(v, from, to)
    }
}

pub open spec fn view_of(r: Option<Record>) -> Option<RecordView> {
    match r {
        Some(x) => Some(x@),
        None => None,
    }
}

/// The record that the line `v` holds, if any.
pub fn parse_chars(v: &Vec<char>) -> (r: Option<Record>)
    ensures
        view_of(r) == parse_record(v@),
{
    reveal(parse_record);
    match scan_fields(v) {
        None => None,
        Some((s0, c, a0, a1, rest, n0, n1)) => {
            let start = parse_timestamp(v, s0, c);
            let activity = unsigned_in(v, a0, a1);
            let rest = match rest {
                Some((r0, r2)) => signed_in(v, r0, r2),
                None => None,
            };
            let note = string_of(v, n0, n1);
            Some(Record { start, activity, rest, note })
        },
    }
}

impl Record {
    /// Reads a record from a line.
    pub fn parse(source: &str) -> (r: Result<Record, TimeTrackError>)
        ensures
            match r {
                Ok(rec) => parse_record(source@) == Some(rec@),
                Err(e) => parse_record(source@) is None && e == (
                TimeTrackError::CanNotParseRecord { source: e->source })
                    && e->source@ == source@,
            },
    {
        let v = chars_of(source);
        match parse_chars(&v) {
            Some(rec) => Ok(rec),
            None => Err(TimeTrackError::CanNotParseRecord { source: string_of(&v, 0, v.len()) }),
        }
    }

    /// The fields of a record line as text, if `line` is one.
    pub fn captures(line: &str) -> (r: Option<RecordCaptures>)
        ensures
            match (r, line_fields(line@)) {
                (None, None) => true,
                (Some(caps), Some((s0, c, a0, a1, rest, n0, n1))) => {
                    &&& caps.start@ == line@.subrange(s0, c)
                    &&& caps.activity@ == line@.subrange(a0, a1)
                    &&& match (caps.rest, rest) {
                        (None, None) => true,
                        (Some(x), Some((r0, r2))) => x@ == line@.subrange(r0, r2),
                        _ => false,
                    }
                    &&& caps.note@ == line@.subrange(n0, n1)
                },
                _ => false,
            },
    {
        let v = chars_of(line);
        match scan_fields(&v) {
            None => None,
            Some((s0, c, a0, a1, rest, n0, n1)) => {
                let rest = match rest {
                    Some((r0, r2)) => Some(string_of(&v, r0, r2)),
                    None => None,
                };
                Some(
                    RecordCaptures {
                        start: string_of(&v, s0, c),
                        activity: string_of(&v, a0, a1),
                        rest,
                        note: string_of(&v, n0, n1),
                    },
                )
            },
        }
    }

    /// Whether `line` is a record line.
    pub fn is_match(line: &str) -> (r: bool)
        ensures
            r == line_fields(line@) is Some,
    {
        let v = chars_of(line);
        scan_fields(&v).is_some()
    }

    /// The line that stands for the record.
    #[verifier::rlimit(30)]
    pub fn to_string(&self) -> (r: String)
        ensures
            r@ == record_text(self@),
    {
        let ghost v = self@;
        let ghost start = match v.start {
            Some(t) => t.text(),
            None => Seq::<char>::empty(),
        };
        let ghost activity = match v.activity {
            Some(a) => int_text(a as int),
            None => Seq::<char>::empty(),
        };
        let ghost rest = match v.rest {
            Some(x) => int_text(x as int),
            None => Seq::<char>::empty(),
        };
        let ghost note = if v.note.len() > 0 {
            seq![' '] + v.note
        } else {
            Seq::<char>::empty()
        };
        let mut r = String::new();
        push_char(&mut r, '[');
        match &self.start {
            Some(t) => t.write_to(&mut r),
            None => {},
        }
        assert(r@ =~= seq!['['] + start);
        push_char(&mut r, ',');
        push_char(&mut r, ' ');
        let ghost head = r@;
        match self.activity {
            Some(a) => push_int(&mut r, a),
            None => {},
        }
        assert(r@ =~= head + activity);
        push_char(&mut r, ' ');
        push_char(&mut r, '(');
        let ghost mid = r@;
        match self.rest {
            Some(x) => push_int(&mut r, x),
            None => {},
        }
        assert(r@ =~= mid + rest);
        push_char(&mut r, ')');
        push_char(&mut r, ']');
        let ghost body = r@;
        if self.note.unicode_len() > 0 {
            push_char(&mut r, ' ');
            r.append(self.note.as_str());
        }
        assert(r@ =~= body + note);
        assert(r@ =~= record_text(self@));
        r
    }
}

impl std::str::FromStr for Record {
    type Err = TimeTrackError;

    fn from_str(source: &str) -> Result<Record, TimeTrackError> {
        Record::parse(source)
    }
}

impl RecordFieldName {
    /// The name of the field.
    pub fn name(&self) -> (r: &'static str)
        ensures
            r@ == self.spec_name(),
    {
        proof {
            reveal_strlit("start");
            reveal_strlit("activity");
            reveal_strlit("rest");
            reveal_strlit("note");
        }
        match self {
            RecordFieldName::Start => "start",
            RecordFieldName::Activity => "activity",
            RecordFieldName::Rest => "rest",
            RecordFieldName::Note => "note",
        }
    }

    pub open spec fn spec_name(&self) -> Seq<char> {
        match self {
            RecordFieldName::Start => "start"@,
            RecordFieldName::Activity => "activity"@,
            RecordFieldName::Rest => "rest"@,
            RecordFieldName::Note => "note"@,
        }
    }
}

fn same_start(x: &Option<Timestamp>, y: &Option<Timestamp>) -> (r: bool)
    ensures
        r == (*x == *y),
{
    match (x, y) {
        (Some(a), Some(b)) => *a == *b,
        (None, None) => true,
        _ => false,
    }
}

fn same_minutes(x: &Option<i64>, y: &Option<i64>) -> (r: bool)
    ensures
        r == (*x == *y),
{
    match (x, y) {
        (Some(a), Some(b)) => *a == *b,
        (None, None) => true,
        _ => false,
    }
}

impl RecordFieldType {
    /// Whether `r` satisfies the condition.
    pub fn matches(&self, r: &Record) -> (b: bool)
        ensures
            b == field_matches(*self, r@),
    {
        match self {
            RecordFieldType::Start(x) => same_start(x, &r.start),
            RecordFieldType::Activity(x) => same_minutes(x, &r.activity),
            RecordFieldType::Rest(x) => same_minutes(x, &r.rest),
            RecordFieldType::Note(x) => *x == r.note,
        }
    }
}

/// Whether `r` satisfies every condition of `query`.
pub fn matches_query(query: &[RecordFieldType], r: &Record) -> (b: bool)
    ensures
        b == query_matches(query@, r@),
{
    let mut i: usize = 0;
    while i < query.len()
        invariant
            i <= query@.len(),
            forall|j: int| 0 <= j < i ==> field_matches(#[trigger] query@[j], r@),
        decreases query.len() - i,
    {
        if !query[i].matches(r) {
            return false;
        }
        i = i + 1;
    }
    true
}

/// A note that reads back as written: no LF, CR, `|` or `^` in it, and no white
/// space at its start.
pub open spec fn note_reads_back(note: Seq<char>) -> bool {
    &&& forall|k: int| 0 <= k < note.len() ==> in_class(#[trigger] note[k], CharClass::NoteChar)
    &&& note.len() > 0 ==> !is_space(note[0])
}

/// A record that its line can hold: a valid start, an activity that is not negative,
/// and a note that reads back.
pub open spec fn writable(r: RecordView) -> bool {
    &&& r.start matches Some(t) ==> t.wf()
    &&& r.activity matches Some(a) ==> a >= 0
    &&& note_reads_back(r.note)
}

proof fn lemma_unsigned_text(a: i64)
    requires
        a >= 0,
    ensures
        unsigned_of(int_text(a as int)) == Some(a),
        is_digit(int_text(a as int)[0]),
        int_text(a as int).len() > 0,
        all_digits(int_text(a as int)),
{
    lemma_nat_text(a as nat);
}

proof fn lemma_signed_text(x: i64)
    ensures
        signed_of(int_text(x as int)) == Some(x),
        int_text(x as int).len() > 0,
        int_text(x as int)[0] == '-' || is_digit(int_text(x as int)[0]),
        forall|k: int| 1 <= k < int_text(x as int).len() ==> is_digit(#[trigger] int_text(x as int)[k]),
{
    let s = int_text(x as int);
    if x < 0 {
        lemma_nat_text((-x) as nat);
        let m = nat_text((-x) as nat);
        assert(s.subrange(1, s.len() as int) =~= m);
        assert forall|k: int| 1 <= k < s.len() implies is_digit(#[trigger] s[k]) by {
            assert(s[k] == m[k - 1]);
        }
    } else {
        lemma_unsigned_text(x);
    }
}

pub open spec fn start_part(r: RecordView) -> Seq<char> {
    match r.start {
        Some(t) => t.text(),
        None => Seq::<char>::empty(),
    }
}

pub open spec fn activity_part(r: RecordView) -> Seq<char> {
    match r.activity {
        Some(a) => int_text(a as int),
        None => Seq::<char>::empty(),
    }
}

pub open spec fn rest_part(r: RecordView) -> Seq<char> {
    match r.rest {
        Some(x) => int_text(x as int),
        None => Seq::<char>::empty(),
    }
}

pub open spec fn note_part(r: RecordView) -> Seq<char> {
    if r.note.len() > 0 {
        seq![' '] + r.note
    } else {
        Seq::<char>::empty()
    }
}

/// Where the parts of a record's line stand.
proof fn lemma_record_text_layout(r: RecordView)
    ensures
        ({
            let t = record_text(r);
            let c = 1 + start_part(r).len() as int;
            let al = activity_part(r).len() as int;
            let g = c + 3 + al;
            let rl = rest_part(r).len() as int;
            let b = g + rl + 2;
            &&& t.len() == b + 1 + note_part(r).len()
            &&& t[0] == '['
            &&& t.subrange(1, c) == start_part(r)
            &&& forall|m: int| 1 <= m < c ==> #[trigger] t[m] == start_part(r)[m - 1]
            &&& t[c] == ','
            &&& t[c + 1] == ' '
            &&& t.subrange(c + 2, c + 2 + al) == activity_part(r)
            &&& forall|m: int| c + 2 <= m < c + 2 + al ==> #[trigger] t[m] == activity_part(r)[m
                - c - 2]
            &&& t[c + 2 + al] == ' '
            &&& t[g] == '('
            &&& t.subrange(g + 1, g + 1 + rl) == rest_part(r)
            &&& forall|m: int| g + 1 <= m < g + 1 + rl ==> #[trigger] t[m] == rest_part(r)[m - g
                - 1]
            &&& t[g + 1 + rl] == ')'
            &&& t[b] == ']'
            &&& t.subrange(b + 1, t.len() as int) == note_part(r)
            &&& forall|m: int| b + 1 <= m < t.len() ==> #[trigger] t[m] == note_part(r)[m - b - 1]
        }),
{
    let st = start_part(r);
    let act = activity_part(r);
    let rst = rest_part(r);
    let nt = note_part(r);
    let t = record_text(r);
    assert(t == seq!['['] + st + seq![',', ' '] + act + seq![' ', '('] + rst + seq![')', ']'] + nt);
    let c = 1 + st.len() as int;
    let al = act.len() as int;
    let g = c + 3 + al;
    let rl = rst.len() as int;
    let b = g + rl + 2;
    assert(t.subrange(1, c) =~= st);
    assert(t.subrange(c + 2, c + 2 + al) =~= act);
    assert(t.subrange(g + 1, g + 1 + rl) =~= rst);
    assert(t.subrange(b + 1, t.len() as int) =~= nt);
}

/// The runs of the grammar over the start and the activity of a record's line.
proof fn lemma_runs_start_activity(r: RecordView)
    requires
        writable(r),
    ensures
        ({
            let t = record_text(r);
            let c = 1 + start_part(r).len() as int;
            let al = activity_part(r).len() as int;
            let a0 = if al > 0 {
                c + 2
            } else {
                c + 3
            };
            &&& run_end(t, 1, CharClass::NotComma) == c
            &&& run_end(t, 1, CharClass::Space) == 1
            &&& run_end(t, c + 1, CharClass::Space) == a0
            &&& run_end(t, a0, CharClass::Digit) == a0 + al
            &&& run_end(t, a0 + al, CharClass::Space) == c + 3 + al
            &&& t.subrange(a0, a0 + al) == activity_part(r)
        }),
{
    lemma_record_text_layout(r);
    let t = record_text(r);
    let st = start_part(r);
    let act = activity_part(r);
    let c = 1 + st.len() as int;
    let al = act.len() as int;
    if let Some(ts) = r.start {
        lemma_text_chars(ts);
        assert(t[1] == st[0]);
    }
    assert forall|m: int| 1 <= m < c implies in_class(#[trigger] t[m], CharClass::NotComma) by {
        assert(t[m] == st[m - 1]);
    }
    lemma_run_end_at(t, 1, c, CharClass::NotComma);
    lemma_run_end_at(t, 1, 1, CharClass::Space);
    let a0 = if al > 0 {
        c + 2
    } else {
        c + 3
    };
    if let Some(a) = r.activity {
        lemma_unsigned_text(a);
        assert(t[c + 2] == act[0]);
        assert forall|m: int| c + 2 <= m < c + 2 + al implies in_class(
            #[trigger] t[m],
            CharClass::Digit,
        ) by {
            assert(t[m] == act[m - c - 2]);
        }
    }
    assert forall|m: int| c + 1 <= m < a0 implies in_class(#[trigger] t[m], CharClass::Space) by {}
    lemma_run_end_at(t, c + 1, a0, CharClass::Space);
    lemma_run_end_at(t, a0, a0 + al, CharClass::Digit);
    lemma_run_end_at(t, a0 + al, c + 3 + al, CharClass::Space);
    assert(t.subrange(a0, a0 + al) =~= act);
}

/// The runs of the grammar over the rest and the note of a record's line.
proof fn lemma_runs_rest_note(r: RecordView)
    requires
        writable(r),
    ensures
        ({
            let t = record_text(r);
            let g = 4 + start_part(r).len() as int + activity_part(r).len() as int;
            let rl = rest_part(r).len() as int;
            let r1 = if rl > 0 && rest_part(r)[0] == '-' {
                g + 2
            } else {
                g + 1
            };
            let b = g + rl + 2;
            let n0 = if r.note.len() > 0 {
                b + 2
            } else {
                b + 1
            };
            &&& run_end(t, g + 1, CharClass::Space) == g + 1
            &&& run_end(t, r1, CharClass::Digit) == g + 1 + rl
            &&& run_end(t, g + 1 + rl, CharClass::Space) == g + 1 + rl
            &&& run_end(t, b, CharClass::Space) == b
            &&& run_end(t, b + 1, CharClass::Space) == n0
            &&& run_end(t, n0, CharClass::NoteChar) == t.len()
            &&& run_end(t, t.len() as int, CharClass::Newline) == t.len()
            &&& t.subrange(n0, t.len() as int) == r.note
        }),
{
    lemma_record_text_layout(r);
    let t = record_text(r);
    let g = 4 + start_part(r).len() as int + activity_part(r).len() as int;
    let rst = rest_part(r);
    let rl = rst.len() as int;
    let r1 = if rl > 0 && rst[0] == '-' {
        g + 2
    } else {
        g + 1
    };
    let b = g + rl + 2;
    if let Some(x) = r.rest {
        lemma_signed_text(x);
        assert(t[g + 1] == rst[0]);
        assert forall|m: int| r1 <= m < g + 1 + rl implies in_class(
            #[trigger] t[m],
            CharClass::Digit,
        ) by {
            assert(t[m] == rst[m - g - 1]);
            if m == g + 1 {
                assert(rst[0] != '-');
            }
        }
    }
    lemma_run_end_at(t, g + 1, g + 1, CharClass::Space);
    lemma_run_end_at(t, r1, g + 1 + rl, CharClass::Digit);
    lemma_run_end_at(t, g + 1 + rl, g + 1 + rl, CharClass::Space);
    lemma_run_end_at(t, b, b, CharClass::Space);
    let nt = note_part(r);
    if r.note.len() > 0 {
        assert(t[b + 1] == nt[0]);
        assert(t[b + 2] == nt[1]);
        lemma_run_end_at(t, b + 1, b + 2, CharClass::Space);
        assert forall|m: int| b + 2 <= m < t.len() implies in_class(
            #[trigger] t[m],
            CharClass::NoteChar,
        ) by {
            assert(t[m] == nt[m - b - 1]);
            assert(nt[m - b - 1] == r.note[m - b - 2]);
        }
        lemma_run_end_at(t, b + 2, t.len() as int, CharClass::NoteChar);
        assert(t.subrange(b + 2, t.len() as int) =~= r.note);
    } else {
        lemma_run_end_at(t, b + 1, b + 1, CharClass::Space);
        lemma_run_end_at(t, b + 1, b + 1, CharClass::NoteChar);
        assert(t.subrange(b + 1, t.len() as int) =~= r.note);
    }
    lemma_run_end_at(t, t.len() as int, t.len() as int, CharClass::Newline);
}

/// Where the fields of a record's line lie.
#[verifier::rlimit(60)]
proof fn lemma_record_fields(r: RecordView)
    requires
        writable(r),
    ensures
        ({
            let t = record_text(r);
            let c = 1 + start_part(r).len() as int;
            let al = activity_part(r).len() as int;
            let a0 = if al > 0 {
                c + 2
            } else {
                c + 3
            };
            let g = c + 3 + al;
            let rl = rest_part(r).len() as int;
            let b = g + rl + 2;
            let n0 = if r.note.len() > 0 {
                b + 2
            } else {
                b + 1
            };
            &&& line_fields(t) == Some(
                (1int, c, a0, a0 + al, Some((g + 1, g + 1 + rl)), n0, t.len() as int),
            )
            &&& t.subrange(1, c) == start_part(r)
            &&& t.subrange(a0, a0 + al) == activity_part(r)
            &&& t.subrange(g + 1, g + 1 + rl) == rest_part(r)
            &&& t.subrange(n0, t.len() as int) == r.note
        }),
{
    lemma_record_text_layout(r);
    lemma_runs_start_activity(r);
    lemma_runs_rest_note(r);
    reveal(line_fields);
}

/// The line of a record that its line can hold reads back as the same record.
#[verifier::rlimit(60)]
pub proof fn lemma_record_round_trip(r: RecordView)
    requires
        writable(r),
    ensures
        parse_record(record_text(r)) == Some(r),
{
    lemma_record_fields(r);
    match r.start {
        Some(ts) => lemma_timestamp_round_trip(ts),
        None => {},
    }
    match r.activity {
        Some(a) => lemma_unsigned_text(a),
        None => {},
    }
    match r.rest {
        Some(x) => lemma_signed_text(x),
        None => {},
    }
    assert(unsigned_of(Seq::<char>::empty()) is None);
    assert(signed_of(Seq::<char>::empty()) is None);
    assert(timestamp_of(Seq::<char>::empty()) is None);
    reveal(parse_record);
}

proof fn lemma_no_breaks_concat(a: Seq<char>, b: Seq<char>)
    requires
        no_breaks(a),
        no_breaks(b),
    ensures
        no_breaks(a + b),
{
    assert forall|k: int| 0 <= k < (a + b).len() implies !is_line_break(#[trigger] (a + b)[k]) by {
        if k < a.len() {
            assert((a + b)[k] == a[k]);
        } else {
            assert((a + b)[k] == b[k - a.len()]);
        }
    }
}

/// The line of a record holds no line break where its note holds none.
pub proof fn lemma_record_text_no_breaks(r: RecordView)
    requires
        no_breaks(r.note),
    ensures
        no_breaks(record_text(r)),
{
    let st = start_part(r);
    let act = activity_part(r);
    let rst = rest_part(r);
    let nt = note_part(r);
    if let Some(ts) = r.start {
        lemma_text_chars(ts);
    }
    if let Some(a) = r.activity {
        lemma_signed_text(a);
        assert forall|k: int| 0 <= k < act.len() implies !is_line_break(#[trigger] act[k]) by {
            if k > 0 {
                assert(is_digit(act[k]));
            }
        }
    }
    if let Some(x) = r.rest {
        lemma_signed_text(x);
        assert forall|k: int| 0 <= k < rst.len() implies !is_line_break(#[trigger] rst[k]) by {
            if k > 0 {
                assert(is_digit(rst[k]));
            }
        }
    }
    lemma_no_breaks_concat(seq![' '], r.note);
    assert(r.note.len() > 0 ==> nt == seq![' '] + r.note);
    lemma_no_breaks_concat(seq!['['], st);
    lemma_no_breaks_concat(seq!['['] + st, seq![',', ' ']);
    lemma_no_breaks_concat(seq!['['] + st + seq![',', ' '], act);
    lemma_no_breaks_concat(seq!['['] + st + seq![',', ' '] + act, seq![' ', '(']);
    lemma_no_breaks_concat(seq!['['] + st + seq![',', ' '] + act + seq![' ', '('], rst);
    lemma_no_breaks_concat(
        seq!['['] + st + seq![',', ' '] + act + seq![' ', '('] + rst,
        seq![')', ']'],
    );
    lemma_no_breaks_concat(
        seq!['['] + st + seq![',', ' '] + act + seq![' ', '('] + rst + seq![')', ']'],
        nt,
    );
}

} // verus!
