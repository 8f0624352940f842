//! Parsing of the values a user types: day intervals and dates.

use crate::date::{valid_ymd, Date, DateView};
use vstd::prelude::*;

verus! {

/// Why a value typed by the user was refused.
#[derive(Clone, Copy, Debug, PartialEq, Eq, Structural)]
pub enum ParseError {
    /// The interval is not a non-negative integer.
    InvalidInterval,
    /// The date is neither `now` nor `YEAR-MONTH-DAY` naming a calendar day.
    InvalidDateFormat,
}

pub open spec fn is_digit(c: char) -> bool {
    '0' <= c <= '9'
}

pub open spec fn digit_value(c: char) -> int {
    (c as u32) as int - ('0' as u32) as int
}

/// The value of a string of decimal digits, most significant first.
pub open spec fn digits_value(s: Seq<char>) -> int
    decreases s.len(),
{
    if s.len() == 0 {
        0
    } else {
        digits_value(s.drop_last()) * 10 + digit_value(s.last())
    }
}

/// A numeral without its optional leading `+`.
pub open spec fn numeral_digits(s: Seq<char>) -> Seq<char> {
    if s.len() > 0 && s[0] == '+' {
        s.drop_first()
    } else {
        s
    }
}

/// An unsigned decimal numeral: an optional `+`, then one or more digits.
pub open spec fn is_numeral(s: Seq<char>) -> bool {
    let ds = numeral_digits(s);
    ds.len() > 0 && forall|i: int| 0 <= i < ds.len() ==> is_digit(#[trigger] ds[i])
}

pub open spec fn numeral_value(s: Seq<char>) -> int {
    digits_value(numeral_digits(s))
}

/// A numeral whose value is at most `max`.
pub open spec fn numeral_at_most(s: Seq<char>, max: int) -> bool {
    is_numeral(s) && numeral_value(s) <= max
}

proof fn lemma_digits_value_step(s: Seq<char>, i: int)
    requires
        0 <= i < s.len(),
    ensures
        digits_value(s.take(i + 1)) == digits_value(s.take(i)) * 10 + digit_value(s[i]),
{
    assert(s.take(i + 1).drop_last() =~= s.take(i));
}

/// The value of the numeral `s`, or `None` where `s` is no numeral or its value
/// exceeds `max`.
pub fn parse_unsigned(s: &str, max: u64) -> (r: Option<u64>)
    ensures
        r is Some <==> numeral_at_most(s@, max as int),
        r matches Some(v) ==> v == numeral_value(s@),
{
    let len = s.unicode_len();
    let mut start: usize = 0;
    if len > 0 && s.get_char(0) == '+' {
        start = 1;
    }
    let ghost ds = numeral_digits(s@);
    assert(ds =~= s@.subrange(start as int, len as int));
    let mut value: u64 = 0;
    let mut too_large = false;
    let mut all_digits = true;
    let mut i: usize = start;
    while i < len
        invariant
            start <= i <= len,
            len == s@.len(),
            ds == s@.subrange(start as int, len as int),
            all_digits <==> forall|k: int| 0 <= k < i - start ==> is_digit(#[trigger] ds[k]),
            all_digits && !too_large ==> value == digits_value(ds.take(i - start)),
            all_digits && !too_large ==> value <= max,
            all_digits && too_large ==> digits_value(ds.take(i - start)) > max,
            all_digits ==> digits_value(ds.take(i - start)) >= 0,
        decreases len - i,
    {
        let c = s.get_char(i);
        let k: usize = i - start;
        assert(ds[k as int] == c);
        if '0' <= c && c <= '9' {
            let d = (c as u32 - '0' as u32) as u64;
            proof {
                assert(ds[k as int] == c);
                lemma_digits_value_step(ds, k as int);
            }
            if all_digits && !too_large {
                if d > max || value > (max - d) / 10 {
                    too_large = true;
                    assert(value * 10 + d > max) by (nonlinear_arith)
                        requires
                            d > max || value > (max - d) / 10,
                            d <= 9,
                    ;
                } else {
                    assert(value * 10 + d <= max) by (nonlinear_arith)
                        requires
                            d <= max,
                            value <= (max - d) / 10,
                    ;
                    value = value * 10 + d;
                }
            } else if all_digits {
                assert(digits_value(ds.take(k as int)) * 10 + d > max) by (nonlinear_arith)
                    requires
                        digits_value(ds.take(k as int)) > max,
                        d >= 0,
                ;
            }
        } else {
            assert(!is_digit(ds[k as int]));
            all_digits = false;
        }
        i = i + 1;
    }
    assert(ds.take(len - start) =~= ds);
    if len > start && all_digits && !too_large {
        Some(value)
    } else {
        None
    }
}

/// The parts of `s` between the `-` signs, as `str::split('-')` yields them.
pub open spec fn dash_fields(s: Seq<char>) -> Seq<Seq<char>>
    decreases s.len(),
{
    if s.len() == 0 {
        seq![Seq::empty()]
    } else {
        let before = dash_fields(s.drop_last());
        if s.last() == '-' {
            before.push(Seq::empty())
        } else {
            before.update(before.len() - 1, before.last().push(s.last()))
        }
    }
}

proof fn lemma_dash_fields_len(s: Seq<char>)
    ensures
        dash_fields(s).len() >= 1,
    decreases s.len(),
{
    if s.len() > 0 {
        lemma_dash_fields_len(s.drop_last());
    }
}

/// A date written `YEAR-MONTH-DAY`: at least three fields, each a numeral that
/// fits in a `u32`, and the first three naming a calendar day.
pub open spec fn is_date_text(s: Seq<char>) -> bool {
    let f = dash_fields(s);
    &&& f.len() >= 3
    &&& forall|k: int| 0 <= k < f.len() ==> numeral_at_most(#[trigger] f[k], u32::MAX as int)
    &&& valid_ymd(numeral_value(f[0]), numeral_value(f[1]), numeral_value(f[2]))
}

/// The day that a text accepted by `is_date_text` names.
pub open spec fn date_of_text(s: Seq<char>) -> DateView {
    let f = dash_fields(s);
    DateView { year: numeral_value(f[0]), month: numeral_value(f[1]), day: numeral_value(f[2]) }
}

pub open spec fn is_now(s: Seq<char>) -> bool {
    s == seq!['n', 'o', 'w']
}

/// Each of `fields` is a numeral that fits in a `u32`.
pub open spec fn fields_fit_u32(fields: Seq<Seq<char>>) -> bool {
    forall|k: int| 0 <= k < fields.len() ==> numeral_at_most(#[trigger] fields[k], u32::MAX as int)
}

/// Each of `fields` fits in a `u32`, and `values` holds their values.
spec fn fields_fit(fields: Seq<Seq<char>>, values: Seq<u32>) -> bool {
    &&& fields_fit_u32(fields)
    &&& values.len() == fields.len()
    &&& forall|k: int| 0 <= k < fields.len() ==> values[k] == numeral_value(#[trigger] fields[k])
}

/// Takes one more date field: while every field so far fitted, appends the
/// value of `field` where it fits too, and tells whether all still fit.
fn push_field(field: &str, values: &mut Vec<u32>, all_fit: bool, Ghost(done): Ghost<Seq<Seq<char>>>) -> (r: bool)
    requires
        all_fit ==> fields_fit(done, old(values)@),
        !all_fit ==> !fields_fit_u32(done),
    ensures
        r ==> fields_fit(done.push(field@), final(values)@),
        !r ==> !fields_fit_u32(done.push(field@)),
{
    let ghost all = done.push(field@);
    match parse_unsigned(field, u32::MAX as u64) {
        Some(v) => {
            if all_fit {
                values.push(v as u32);
                assert forall|k: int| 0 <= k < all.len() implies numeral_at_most(
                    #[trigger] all[k],
                    u32::MAX as int,
                ) by {
                    if k < done.len() {
                        assert(all[k] == done[k]);
                    }
                }
                assert forall|k: int| 0 <= k < all.len() implies final(values)@[k] == numeral_value(
                    #[trigger] all[k],
                ) by {
                    if k < done.len() {
                        assert(all[k] == done[k]);
                    }
                }
                true
            } else {
                assert(!fields_fit_u32(done));
                let ghost k = choose|k: int| 0 <= k < done.len() && !numeral_at_most(#[trigger] done[k], u32::MAX as int);
                assert(all[k] == done[k]);
                false
            }
        },
        None => {
            assert(all[all.len() - 1] == field@);
            false
        },
    }
}

/// The interval in days that `raw` gives, if any.
pub open spec fn parsed_interval(raw: Seq<char>) -> Option<nat> {
    if numeral_at_most(raw, usize::MAX as int) {
        Some(numeral_value(raw) as nat)
    } else {
        None
    }
}

/// The day that `raw` gives, if any, where `now` stands for `today`.
pub open spec fn parsed_date(raw: Seq<char>, today: DateView) -> Option<DateView> {
    if is_now(raw) {
        Some(today)
    } else if is_date_text(raw) {
        Some(date_of_text(raw))
    } else {
        None
    }
}

/// Whether two texts are the same.
pub fn same_text(a: &str, b: &str) -> (r: bool)
    ensures
        r == (a@ == b@),
{
    let la = a.unicode_len();
    let lb = b.unicode_len();
    if la != lb {
        return false;
    }
    let mut i: usize = 0;
    while i < la
        invariant
            la == a@.len(),
            lb == b@.len(),
            la == lb,
            i <= la,
            a@.take(i as int) == b@.take(i as int),
        decreases la - i,
    {
        if a.get_char(i) != b.get_char(i) {
            return false;
        }
        assert(a@.take(i as int + 1) =~= a@.take(i as int).push(a@[i as int]));
        assert(b@.take(i as int + 1) =~= b@.take(i as int).push(b@[i as int]));
        i = i + 1;
    }
    assert(a@.take(la as int) =~= a@);
    assert(b@.take(lb as int) =~= b@);
    true
}

/// The interval that `raw` gives in days: a non-negative decimal integer.
pub fn parse_interval(raw: &str) -> (r: Result<usize, ParseError>)
    ensures
        r is Ok <==> numeral_at_most(raw@, usize::MAX as int),
        r matches Ok(v) ==> v == numeral_value(raw@),
        r matches Err(e) ==> e == ParseError::InvalidInterval,
{
    match parse_unsigned(raw, usize::MAX as u64) {
        Some(v) => Ok(v as usize),
        None => Err(ParseError::InvalidInterval),
    }
}

/// The date that `raw` gives, where `now` stands for `today`.
pub fn parse_date_at(raw: &str, today: Date) -> (r: Result<Date, ParseError>)
    ensures
        is_now(raw@) ==> r == Ok::<Date, ParseError>(today),
        !is_now(raw@) ==> (r is Ok <==> is_date_text(raw@)),
        !is_now(raw@) && r is Ok ==> r->Ok_0@ == date_of_text(raw@),
        r matches Err(e) ==> e == ParseError::InvalidDateFormat,
{
    let len = raw.unicode_len();
    if len == 3 && raw.get_char(0) == 'n' && raw.get_char(1) == 'o' && raw.get_char(2) == 'w' {
        assert(raw@ =~= seq!['n', 'o', 'w']);
        return Ok(today);
    }
    let mut values: Vec<u32> = Vec::new();
    let mut all_fit = true;
    let mut start: usize = 0;
    let mut i: usize = 0;
    let ghost mut done: Seq<Seq<char>> = Seq::empty();
    assert(raw@.take(0) =~= Seq::<char>::empty());
    assert(raw@.subrange(0, 0) =~= Seq::<char>::empty());
    assert(dash_fields(Seq::<char>::empty()) == seq![Seq::<char>::empty()]);
    while i < len
        invariant
            len == raw@.len(),
            start <= i <= len,
            dash_fields(raw@.take(i as int)) == done.push(raw@.subrange(start as int, i as int)),
            all_fit ==> fields_fit(done, values@),
            !all_fit ==> !fields_fit_u32(done),
        decreases len - i,
    {
        let c = raw.get_char(i);
        let t = Ghost(raw@.take(i as int + 1));
        assert(t@.drop_last() =~= raw@.take(i as int));
        if c == '-' {
            let field = raw.substring_char(start, i);
            let ghost old_done = done;
            all_fit = push_field(field, &mut values, all_fit, Ghost(done));
            proof {
                done = done.push(field@);
                assert(raw@.subrange(i as int + 1, i as int + 1) =~= Seq::<char>::empty());
            }
            start = i + 1;
        } else {
            assert(raw@.subrange(start as int, i as int + 1) =~= raw@.subrange(
                start as int,
                i as int,
            ).push(c));
        }
        i = i + 1;
    }
    let field = raw.substring_char(start, len);
    all_fit = push_field(field, &mut values, all_fit, Ghost(done));
    proof {
        done = done.push(field@);
        assert(raw@.take(len as int) =~= raw@);
    }
    if !all_fit || values.len() < 3 {
        proof {
            lemma_dash_fields_len(raw@);
        }
        return Err(ParseError::InvalidDateFormat);
    }
    if values[0] > i32::MAX as u32 {
        return Err(ParseError::InvalidDateFormat);
    }
    match Date::from_ymd(values[0] as i32, values[1], values[2]) {
        Some(d) => Ok(d),
        None => Err(ParseError::InvalidDateFormat),
    }
}

/// The date that `raw` gives, where `now` stands for today's date in UTC.
pub fn parse_date(raw: &str) -> (r: Result<Date, ParseError>)
    ensures
        is_now(raw@) ==> r is Ok && r->Ok_0@.valid(),
        !is_now(raw@) ==> (r is Ok <==> is_date_text(raw@)),
        !is_now(raw@) && r is Ok ==> r->Ok_0@ == date_of_text(raw@),
        r matches Err(e) ==> e == ParseError::InvalidDateFormat,
{
    let today = Date::today();
    parse_date_at(raw, today)
}

} // verus!
