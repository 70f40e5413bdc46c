//! The start time of a record: a local date and time to the second.
use crate::text::{
    all_digits, all_digits_in, digit_char, digit_of, digit_value, digits_value, is_digit,
    lemma_digit_char, push_char, read_digits,
};
use crate::buffer::{is_line_break, no_breaks};
use vstd::prelude::*;

verus! {

/// A local date and time, as a journal line writes it: `YYYY-MM-DD hh:mm:ss`.
#[derive(Clone, Copy, Debug, PartialEq, Eq, Structural, Hash, PartialOrd, Ord)]
pub struct Timestamp {
    pub year: u16,
    pub month: u8,
    pub day: u8,
    pub hour: u8,
    pub minute: u8,
    pub second: u8,
}

pub open spec fn is_leap_year(y: int) -> bool {
    (y % 4 == 0 && y % 100 != 0) || y % 400 == 0
}

pub open spec fn days_in_month(y: int, m: int) -> int {
    if m == 2 {
        if is_leap_year(y) {
            29
        } else {
            28
        }
    } else if m == 4 || m == 6 || m == 9 || m == 11 {
        30
    } else {
        31
    }
}

/// Two decimal digits of `n`, zero-padded.
pub open spec fn pad2(n: nat) -> Seq<char> {
    seq![digit_char(n / 10 % 10), digit_char(n % 10)]
}

/// Four decimal digits of `n`, zero-padded.
pub open spec fn pad4(n: nat) -> Seq<char> {
    seq![digit_char(n / 1000 % 10), digit_char(n / 100 % 10), digit_char(n / 10 % 10), digit_char(n % 10)]
}

impl Timestamp {
    /// A day of the calendar, a time of the day, a year of four digits.
    pub open spec fn wf(self) -> bool {
        &&& self.year <= 9999
        &&& 1 <= self.month <= 12
        &&& 1 <= self.day <= days_in_month(self.year as int, self.month as int)
        &&& self.hour < 24
        &&& self.minute < 60
        &&& self.second < 60
    }

    /// The text of the timestamp: `YYYY-MM-DD hh:mm:ss`.
    #[verifier::opaque]
    pub open spec fn text(self) -> Seq<char> {
        pad4(self.year as nat) + seq!['-'] + pad2(self.month as nat) + seq!['-'] + pad2(
            self.day as nat,
        ) + seq![' '] + pad2(self.hour as nat) + seq![':'] + pad2(self.minute as nat) + seq![':']
            + pad2(self.second as nat)
    }

    pub fn is_valid(&self) -> (r: bool)
        ensures
            r == self.wf(),
    {
        let y = self.year as u32;
        let leap = (y % 4 == 0 && y % 100 != 0) || y % 400 == 0;
        let days: u8 = if self.month == 2 {
            if leap {
                29
            } else {
                28
            }
        } else if self.month == 4 || self.month == 6 || self.month == 9 || self.month == 11 {
            30
        } else {
            31
        };
        self.year <= 9999 && 1 <= self.month && self.month <= 12 && 1 <= self.day && self.day
            <= days && self.hour < 24 && self.minute < 60 && self.second < 60
    }

    /// Appends the text of the timestamp to `s`.
    pub fn write_to(&self, s: &mut String)
        ensures
            final(s)@ == old(s)@ + self.text(),
    {
        let y = self.year as u64;
        push_char(s, digit_of(y / 1000 % 10));
        push_char(s, digit_of(y / 100 % 10));
        push_char(s, digit_of(y / 10 % 10));
        push_char(s, digit_of(y % 10));
        push_char(s, '-');
        push_pad2(s, self.month);
        push_char(s, '-');
        push_pad2(s, self.day);
        push_char(s, ' ');
        push_pad2(s, self.hour);
        push_char(s, ':');
        push_pad2(s, self.minute);
        push_char(s, ':');
        push_pad2(s, self.second);
        reveal(Timestamp::text);
        assert(s@ =~= old(s)@ + self.text());
    }
}

fn push_pad2(s: &mut String, n: u8)
    ensures
        final(s)@ == old(s)@ + pad2(n as nat),
{
    push_char(s, digit_of(n as u64 / 10 % 10));
    push_char(s, digit_of(n as u64 % 10));
    assert(s@ =~= old(s)@ + pad2(n as nat));
}

/// The fields of a timestamp text, read as numbers.
pub open spec fn field(s: Seq<char>, from: int, to: int) -> nat {
    digits_value(s.subrange(from, to))
}

/// The text has the shape `DDDD-DD-DD DD:DD:DD`, with `D` a decimal digit.
pub open spec fn has_timestamp_shape(s: Seq<char>) -> bool {
    &&& s.len() == 19
    &&& all_digits(s.subrange(0, 4))
    &&& s[4] == '-'
    &&& all_digits(s.subrange(5, 7))
    &&& s[7] == '-'
    &&& all_digits(s.subrange(8, 10))
    &&& s[10] == ' '
    &&& all_digits(s.subrange(11, 13))
    &&& s[13] == ':'
    &&& all_digits(s.subrange(14, 16))
    &&& s[16] == ':'
    &&& all_digits(s.subrange(17, 19))
}

/// The timestamp that `s` writes, if it has the shape and names a valid date and time.
pub open spec fn timestamp_of(s: Seq<char>) -> Option<Timestamp> {
    if has_timestamp_shape(s) {
        let t = Timestamp {
            year: field(s, 0, 4) as u16,
            month: field(s, 5, 7) as u8,
            day: field(s, 8, 10) as u8,
            hour: field(s, 11, 13) as u8,
            minute: field(s, 14, 16) as u8,
            second: field(s, 17, 19) as u8,
        };
        if t.wf() {
            Some(t)
        } else {
            None
        }
    } else {
        None
    }
}

proof fn lemma_small_digits(s: Seq<char>)
    requires
        all_digits(s),
        s.len() <= 4,
    ensures
        digits_value(s) < 10000,
        s.len() <= 3 ==> digits_value(s) < 1000,
        s.len() <= 2 ==> digits_value(s) < 100,
        s.len() <= 1 ==> digits_value(s) < 10,
    decreases s.len(),
{
    if s.len() > 0 {
        let p = s.drop_last();
        assert forall|k: int| 0 <= k < p.len() implies is_digit(#[trigger] p[k]) by {
            assert(p[k] == s[k]);
        }
        lemma_small_digits(p);
        assert(is_digit(s[s.len() - 1]));
        assert(digits_value(s) == digits_value(p) * 10 + digit_value(s.last()));
    }
}

/// Reads a timestamp from `v[from..to]`.
pub fn parse_timestamp(v: &Vec<char>, from: usize, to: usize) -> (r: Option<Timestamp>)
    requires
        from <= to <= v.len(),
    ensures
        r == timestamp_of(v@.subrange(from as int, to as int)),
{
    let ghost s = v@.subrange(from as int, to as int);
    if to - from != 19 {
        return None;
    }
    if !(all_digits_in(v, from, from + 4) && v[from + 4] == '-' && all_digits_in(
        v,
        from + 5,
        from + 7,
    ) && v[from + 7] == '-' && all_digits_in(v, from + 8, from + 10) && v[from + 10] == ' '
        && all_digits_in(v, from + 11, from + 13) && v[from + 13] == ':' && all_digits_in(
        v,
        from + 14,
        from + 16,
    ) && v[from + 16] == ':' && all_digits_in(v, from + 17, from + 19)) {
        proof {
            assert(s.subrange(0, 4) == v@.subrange(from as int, from + 4));
            assert(s.subrange(5, 7) == v@.subrange(from + 5, from + 7));
            assert(s.subrange(8, 10) == v@.subrange(from + 8, from + 10));
            assert(s.subrange(11, 13) == v@.subrange(from + 11, from + 13));
            assert(s.subrange(14, 16) == v@.subrange(from + 14, from + 16));
            assert(s.subrange(17, 19) == v@.subrange(from + 17, from + 19));
        }
        return None;
    }
    proof {
        assert(s.subrange(0, 4) == v@.subrange(from as int, from + 4));
        assert(s.subrange(5, 7) == v@.subrange(from + 5, from + 7));
        assert(s.subrange(8, 10) == v@.subrange(from + 8, from + 10));
        assert(s.subrange(11, 13) == v@.subrange(from + 11, from + 13));
        assert(s.subrange(14, 16) == v@.subrange(from + 14, from + 16));
        assert(s.subrange(17, 19) == v@.subrange(from + 17, from + 19));
        lemma_small_digits(s.subrange(0, 4));
        lemma_small_digits(s.subrange(5, 7));
        lemma_small_digits(s.subrange(8, 10));
        lemma_small_digits(s.subrange(11, 13));
        lemma_small_digits(s.subrange(14, 16));
        lemma_small_digits(s.subrange(17, 19));
    }
    let year = read_digits(v, from, from + 4, 9999).unwrap();
    let month = read_digits(v, from + 5, from + 7, 99).unwrap();
    let day = read_digits(v, from + 8, from + 10, 99).unwrap();
    let hour = read_digits(v, from + 11, from + 13, 99).unwrap();
    let minute = read_digits(v, from + 14, from + 16, 99).unwrap();
    let second = read_digits(v, from + 17, from + 19, 99).unwrap();
    let t = Timestamp {
        year: year as u16,
        month: month as u8,
        day: day as u8,
        hour: hour as u8,
        minute: minute as u8,
        second: second as u8,
    };
    if t.is_valid() {
        Some(t)
    } else {
        None
    }
}

proof fn lemma_value_push(s: Seq<char>, c: char)
    ensures
        digits_value(s.push(c)) == digits_value(s) * 10 + digit_value(c),
{
    assert(s.push(c).drop_last() == s);
}

proof fn lemma_pad_value(n: nat)
    requires
        n < 10000,
    ensures
        all_digits(pad4(n)),
        digits_value(pad4(n)) == n,
        n < 100 ==> all_digits(pad2(n)) && digits_value(pad2(n)) == n,
{
    lemma_digit_char(n / 1000 % 10);
    lemma_digit_char(n / 100 % 10);
    lemma_digit_char(n / 10 % 10);
    lemma_digit_char(n % 10);
    let e = Seq::<char>::empty();
    let a = e.push(digit_char(n / 1000 % 10));
    let b = a.push(digit_char(n / 100 % 10));
    let c = b.push(digit_char(n / 10 % 10));
    let d = c.push(digit_char(n % 10));
    assert(d =~= pad4(n));
    lemma_value_push(e, digit_char(n / 1000 % 10));
    lemma_value_push(a, digit_char(n / 100 % 10));
    lemma_value_push(b, digit_char(n / 10 % 10));
    lemma_value_push(c, digit_char(n % 10));
    assert(digits_value(e) == 0);
    assert((((n / 1000 % 10) * 10 + n / 100 % 10) * 10 + n / 10 % 10) * 10 + n % 10 == n)
        by (nonlinear_arith)
        requires
            n < 10000,
    ;
    if n < 100 {
        lemma_digit_char(n / 10 % 10);
        let a2 = e.push(digit_char(n / 10 % 10));
        let b2 = a2.push(digit_char(n % 10));
        assert(b2 =~= pad2(n));
        lemma_value_push(e, digit_char(n / 10 % 10));
        lemma_value_push(a2, digit_char(n % 10));
    }
}

proof fn lemma_text_fields(t: Timestamp)
    requires
        t.wf(),
    ensures
        has_timestamp_shape(t.text()),
        field(t.text(), 0, 4) == t.year,
        field(t.text(), 5, 7) == t.month,
        field(t.text(), 8, 10) == t.day,
        field(t.text(), 11, 13) == t.hour,
        field(t.text(), 14, 16) == t.minute,
        field(t.text(), 17, 19) == t.second,
{
    reveal(Timestamp::text);
    let s = t.text();
    let y = pad4(t.year as nat);
    let mo = pad2(t.month as nat);
    let d = pad2(t.day as nat);
    let h = pad2(t.hour as nat);
    let mi = pad2(t.minute as nat);
    let se = pad2(t.second as nat);
    assert(s =~= seq![
        y[0], y[1], y[2], y[3], '-', mo[0], mo[1], '-', d[0], d[1], ' ', h[0], h[1], ':',
        mi[0], mi[1], ':', se[0], se[1],
    ]);
    lemma_pad_value(t.year as nat);
    lemma_pad_value(t.month as nat);
    lemma_pad_value(t.day as nat);
    lemma_pad_value(t.hour as nat);
    lemma_pad_value(t.minute as nat);
    lemma_pad_value(t.second as nat);
    assert(s.subrange(0, 4) =~= y);
    assert(s.subrange(5, 7) =~= mo);
    assert(s.subrange(8, 10) =~= d);
    assert(s.subrange(11, 13) =~= h);
    assert(s.subrange(14, 16) =~= mi);
    assert(s.subrange(17, 19) =~= se);
}

/// The text of a timestamp has nineteen characters, starts with a digit, and holds no comma.
pub proof fn lemma_text_chars(t: Timestamp)
    ensures
        t.text().len() == 19,
        is_digit(t.text()[0]),
        forall|k: int| 0 <= k < 19 ==> #[trigger] t.text()[k] != ',',
        no_breaks(t.text()),
{
    reveal(Timestamp::text);
    let s = t.text();
    let y = pad4(t.year as nat);
    let mo = pad2(t.month as nat);
    let d = pad2(t.day as nat);
    let h = pad2(t.hour as nat);
    let mi = pad2(t.minute as nat);
    let se = pad2(t.second as nat);
    assert(s =~= seq![
        y[0], y[1], y[2], y[3], '-', mo[0], mo[1], '-', d[0], d[1], ' ', h[0], h[1], ':',
        mi[0], mi[1], ':', se[0], se[1],
    ]);
    lemma_digit_char(t.year as nat / 1000 % 10);
    assert forall|k: int| 0 <= k < 19 implies #[trigger] s[k] != ',' by {
        let n: nat = 0;
        assert(digit_char(n) != ',');
    }
    assert forall|k: int| 0 <= k < s.len() implies !is_line_break(#[trigger] s[k]) by {
        let n: nat = 0;
        assert(!is_line_break(digit_char(n)));
    }
}

/// The text of a valid timestamp reads back as the same timestamp.
pub proof fn lemma_timestamp_round_trip(t: Timestamp)
    requires
        t.wf(),
    ensures
        timestamp_of(t.text()) == Some(t),
{
    lemma_text_fields(t);
}

} // verus!
