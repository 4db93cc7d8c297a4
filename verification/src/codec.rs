//! The text interchange format for calendars, and its error classification.
//!
//! A calendar is stored as a JSON document with exactly two fields: the
//! holiday dates as a list of ISO-8601 strings, and the weekday pattern in
//! its 7-character string form:
//!
//! ```text
//! {"holidays":["2026-01-01","2026-11-26"],"weekmask":"1111100"}
//! ```
//!
//! `to_json_str` emits exactly this canonical form, and `from_json_str`
//! accepts exactly it.  Reading anything back that `to_json_str` wrote
//! reproduces an equivalent calendar (same holiday set, same weekmask):
//! that is the completeness clause of `from_json_str`, stated over
//! `doc_chars`, the serializer's specified output.  Conversely a successful
//! read means the text was the canonical document of exactly the returned
//! calendar's content (`parsed_doc`).

use vstd::prelude::*;

verus! {

use vstd::arithmetic::div_mod::{
    lemma_fundamental_div_mod, lemma_fundamental_div_mod_converse, lemma_mod_bound,
};
use crate::calendar::{mask_chars, BusinessCalendar};
use crate::date::Date;

/// Why loading or storing a calendar failed.  The file-level kinds
/// (`FileNotFound`, `Io`) are produced by callers that read from disk;
/// `Serde` is the catch-all for failures outside the other classes.
#[derive(Clone, Copy, PartialEq, Eq, Structural, Debug)]
pub enum Error {
    FileNotFound,
    Data,
    Io,
    Syntax,
    Eof,
    Serde,
    InvalidWeekmask,
}

pub open spec fn digit_char(n: int) -> char {
    if n == 0 {
        '0'
    } else if n == 1 {
        '1'
    } else if n == 2 {
        '2'
    } else if n == 3 {
        '3'
    } else if n == 4 {
        '4'
    } else if n == 5 {
        '5'
    } else if n == 6 {
        '6'
    } else if n == 7 {
        '7'
    } else if n == 8 {
        '8'
    } else {
        '9'
    }
}

/// The ten characters of a date in ISO-8601 form, `YYYY-MM-DD`.
pub open spec fn date_chars(d: Date) -> Seq<char> {
    seq![
        digit_char(d.year as int / 1000),
        digit_char((d.year as int / 100) % 10),
        digit_char((d.year as int / 10) % 10),
        digit_char(d.year as int % 10),
        '-',
        digit_char(d.month as int / 10),
        digit_char(d.month as int % 10),
        '-',
        digit_char(d.day as int / 10),
        digit_char(d.day as int % 10),
    ]
}

pub open spec fn quoted_date_chars(d: Date) -> Seq<char> {
    seq!['"'] + date_chars(d) + seq!['"']
}

/// The holiday list: quoted dates joined by commas.
pub open spec fn dates_chars(s: Seq<Date>) -> Seq<char>
    decreases s.len(),
{
    if s.len() == 0 {
        Seq::empty()
    } else if s.len() == 1 {
        quoted_date_chars(s[0])
    } else {
        dates_chars(s.drop_last()) + seq![','] + quoted_date_chars(s.last())
    }
}

pub open spec fn pre_chars() -> Seq<char> {
    seq!['{', '"', 'h', 'o', 'l', 'i', 'd', 'a', 'y', 's', '"', ':', '[']
}

pub open spec fn mid_chars() -> Seq<char> {
    seq![']', ',', '"', 'w', 'e', 'e', 'k', 'm', 'a', 's', 'k', '"', ':', '"']
}

pub open spec fn suf_chars() -> Seq<char> {
    seq!['"', '}']
}

/// The whole document for a holiday list and a weekday pattern.
pub open spec fn doc_chars(dates: Seq<Date>, mask: Seq<bool>) -> Seq<char> {
    pre_chars() + dates_chars(dates) + mid_chars() + mask_chars(mask) + suf_chars()
}

/// Length of the serialized holiday list.
pub proof fn lemma_dates_chars_len(s: Seq<Date>)
    ensures
        dates_chars(s).len() == if s.len() == 0 {
            0int
        } else {
            13 * s.len() - 1
        },
    decreases s.len(),
{
    if s.len() > 1 {
        lemma_dates_chars_len(s.drop_last());
    }
}

/// Where each holiday sits in the serialized holiday list.
pub proof fn lemma_dates_chars_index(s: Seq<Date>, j: int)
    requires
        0 <= j < s.len(),
    ensures
        dates_chars(s).subrange(13 * j, 13 * j + 12) == quoted_date_chars(s[j]),
        j < s.len() - 1 ==> dates_chars(s)[13 * j + 12] == ',',
    decreases s.len(),
{
    lemma_dates_chars_len(s);
    if s.len() == 1 {
        assert(dates_chars(s).subrange(0, 12) =~= quoted_date_chars(s[0]));
    } else {
        lemma_dates_chars_len(s.drop_last());
        if j == s.len() - 1 {
            assert(dates_chars(s).subrange(13 * j, 13 * j + 12) =~= quoted_date_chars(s[j]));
        } else {
            lemma_dates_chars_index(s.drop_last(), j);
            assert(s.drop_last()[j] == s[j]);
            assert(dates_chars(s).subrange(13 * j, 13 * j + 12) =~= dates_chars(
                s.drop_last(),
            ).subrange(13 * j, 13 * j + 12));
            if j < s.len() - 2 {
                assert(dates_chars(s)[13 * j + 12] == dates_chars(s.drop_last())[13 * j + 12]);
            } else {
                assert(dates_chars(s)[13 * j + 12] == ',');
            }
        }
    }
}

/// Length of the serialized holiday list, as a function of the count.
pub open spec fn hol_len(dates: Seq<Date>) -> int {
    if dates.len() == 0 {
        0int
    } else {
        13 * dates.len() - 1
    }
}

/// Offset of the closing bracket of the holiday list in the document.
pub open spec fn mid_at(dates: Seq<Date>) -> int {
    13 + hol_len(dates)
}

/// Where every piece of the document sits.
pub proof fn lemma_doc_shape(dates: Seq<Date>, mask: Seq<bool>)
    requires
        mask.len() == 7,
    ensures
        doc_chars(dates, mask).len() == mid_at(dates) + 23,
        doc_chars(dates, mask).subrange(0, 13) == pre_chars(),
        forall|j: int|
            0 <= j < dates.len() ==> doc_chars(dates, mask).subrange(13 + 13 * j, 25 + 13 * j)
                == quoted_date_chars(#[trigger] dates[j]),
        forall|j: int|
            0 <= j < dates.len() - 1 ==> (#[trigger] doc_chars(dates, mask)[25 + 13 * j]) == ',',
        doc_chars(dates, mask).subrange(mid_at(dates), mid_at(dates) + 14) == mid_chars(),
        forall|t: int|
            0 <= t < 7 ==> doc_chars(dates, mask)[mid_at(dates) + 14 + t] == (if #[trigger] mask[t] {
                '1'
            } else {
                '0'
            }),
        doc_chars(dates, mask)[mid_at(dates) + 21] == '"',
        doc_chars(dates, mask)[mid_at(dates) + 22] == '}',
{
    lemma_dates_chars_len(dates);
    let doc = doc_chars(dates, mask);
    assert(doc.subrange(0, 13) =~= pre_chars());
    assert forall|j: int| 0 <= j < dates.len() implies doc.subrange(13 + 13 * j, 25 + 13 * j)
        == quoted_date_chars(dates[j]) by {
        lemma_dates_chars_index(dates, j);
        assert(doc.subrange(13 + 13 * j, 25 + 13 * j) =~= dates_chars(dates).subrange(
            13 * j,
            13 * j + 12,
        ));
    }
    assert forall|j: int| 0 <= j < dates.len() - 1 implies (#[trigger] doc_chars(dates, mask)[25
        + 13 * j]) == ',' by {
        lemma_dates_chars_index(dates, j);
        assert(doc[25 + 13 * j] == dates_chars(dates)[13 * j + 12]);
    }
    assert(doc.subrange(mid_at(dates), mid_at(dates) + 14) =~= mid_chars());
    assert forall|t: int| 0 <= t < 7 implies doc[mid_at(dates) + 14 + t] == (if mask[t] {
        '1'
    } else {
        '0'
    }) by {
        assert(doc[mid_at(dates) + 14 + t] == mask_chars(mask)[t]);
    }
}

/// Two valid dates with the same ISO-8601 form are the same date.
pub proof fn lemma_date_chars_inj(d1: Date, d2: Date)
    requires
        d1.valid(),
        d2.valid(),
        date_chars(d1) == date_chars(d2),
    ensures
        d1 == d2,
{
    lemma_four_digits(d1.year as int);
    lemma_four_digits(d2.year as int);
    lemma_two_digits(d1.month as int);
    lemma_two_digits(d2.month as int);
    lemma_two_digits(d1.day as int);
    lemma_two_digits(d2.day as int);
    assert(date_chars(d1)[0] == date_chars(d2)[0]);
    assert(date_chars(d1)[1] == date_chars(d2)[1]);
    assert(date_chars(d1)[2] == date_chars(d2)[2]);
    assert(date_chars(d1)[3] == date_chars(d2)[3]);
    assert(date_chars(d1)[5] == date_chars(d2)[5]);
    assert(date_chars(d1)[6] == date_chars(d2)[6]);
    assert(date_chars(d1)[8] == date_chars(d2)[8]);
    assert(date_chars(d1)[9] == date_chars(d2)[9]);
    assert(d1.year == d2.year);
    assert(d1.month == d2.month);
    assert(d1.day == d2.day);
}

/// The decimal digits of a four-digit number.
pub proof fn lemma_four_digits(y: int)
    requires
        0 <= y <= 9999,
    ensures
        y == 1000 * (y / 1000) + 100 * ((y / 100) % 10) + 10 * ((y / 10) % 10) + y % 10,
        0 <= y / 1000 <= 9,
        0 <= (y / 100) % 10 <= 9,
        0 <= (y / 10) % 10 <= 9,
        0 <= y % 10 <= 9,
{
    let a = y / 1000;
    lemma_fundamental_div_mod(y, 1000);
    let r1 = y % 1000;
    let b = r1 / 100;
    lemma_fundamental_div_mod(r1, 100);
    let r2 = r1 % 100;
    let c = r2 / 10;
    lemma_fundamental_div_mod(r2, 10);
    let e = r2 % 10;
    lemma_fundamental_div_mod_converse(y, 100, 10 * a + b, r2);
    lemma_fundamental_div_mod_converse(10 * a + b, 10, a, b);
    lemma_fundamental_div_mod_converse(y, 10, 100 * a + 10 * b + c, e);
    lemma_fundamental_div_mod_converse(100 * a + 10 * b + c, 10, 10 * a + b, c);
}

/// The decimal digits of a two-digit number.
pub proof fn lemma_two_digits(m: int)
    requires
        0 <= m <= 99,
    ensures
        m == 10 * (m / 10) + m % 10,
        0 <= m / 10 <= 9,
        0 <= m % 10 <= 9,
{
    lemma_fundamental_div_mod(m, 10);
}

fn digit_str(n: u32) -> (s: &'static str)
    requires
        n < 10,
    ensures
        s@ =~= seq![digit_char(n as int)],
{
    proof {
        reveal_strlit("0");
        reveal_strlit("1");
        reveal_strlit("2");
        reveal_strlit("3");
        reveal_strlit("4");
        reveal_strlit("5");
        reveal_strlit("6");
        reveal_strlit("7");
        reveal_strlit("8");
        reveal_strlit("9");
    }
    if n == 0 {
        "0"
    } else if n == 1 {
        "1"
    } else if n == 2 {
        "2"
    } else if n == 3 {
        "3"
    } else if n == 4 {
        "4"
    } else if n == 5 {
        "5"
    } else if n == 6 {
        "6"
    } else if n == 7 {
        "7"
    } else if n == 8 {
        "8"
    } else {
        "9"
    }
}

/// A date in ISO-8601 form, `YYYY-MM-DD`.
fn date_string(d: &Date) -> (s: String)
    requires
        d.valid(),
    ensures
        s@ == date_chars(*d),
{
    let y: u32 = d.year as u32;
    let mo: u32 = d.month as u32;
    let da: u32 = d.day as u32;
    let mut s = String::new();
    s.append(digit_str(y / 1000));
    s.append(digit_str((y / 100) % 10));
    s.append(digit_str((y / 10) % 10));
    s.append(digit_str(y % 10));
    proof {
        reveal_strlit("-");
    }
    s.append("-");
    s.append(digit_str(mo / 10));
    s.append(digit_str(mo % 10));
    s.append("-");
    s.append(digit_str(da / 10));
    s.append(digit_str(da % 10));
    proof {
        assert(s@ =~= date_chars(*d));
    }
    s
}

/// `c` is a faithful reading of `text`: the text is the canonical document
/// of some valid holiday list carrying `c`'s own weekday pattern, and `c`
/// holds exactly that list's dates.
pub open spec fn parsed_doc(text: Seq<char>, c: BusinessCalendar) -> bool {
    exists|dates: Seq<Date>|
        text == doc_chars(dates, c.spec_weekmask()) && (forall|j: int|
            0 <= j < dates.len() ==> (#[trigger] dates[j]).valid()) && (forall|d: Date|
            #[trigger] c.spec_holidays().contains(d) <==> dates.contains(d))
}

/// `text` is the document for this holiday list and weekday pattern, with
/// every holiday a valid date and at least one business weekday.
pub open spec fn doc_ok(text: Seq<char>, dates: Seq<Date>, mask: Seq<bool>) -> bool {
    &&& doc_chars(dates, mask) == text
    &&& forall|j: int| 0 <= j < dates.len() ==> (#[trigger] dates[j]).valid()
    &&& mask.len() == 7
    &&& exists|j: int| 0 <= j < 7 && mask[j]
}

fn digit_val(c: char) -> (r: Option<u32>)
    ensures
        match r {
            Some(v) => v < 10 && c == digit_char(v as int),
            None => forall|n: int| 0 <= n < 10 ==> c != #[trigger] digit_char(n),
        },
{
    if c == '0' {
        Some(0)
    } else if c == '1' {
        Some(1)
    } else if c == '2' {
        Some(2)
    } else if c == '3' {
        Some(3)
    } else if c == '4' {
        Some(4)
    } else if c == '5' {
        Some(5)
    } else if c == '6' {
        Some(6)
    } else if c == '7' {
        Some(7)
    } else if c == '8' {
        Some(8)
    } else if c == '9' {
        Some(9)
    } else {
        None
    }
}

fn expect_lit(text: &str, at: usize, lit: &str) -> (r: bool)
    requires
        at + lit@.len() <= text@.len(),
        at + lit@.len() <= usize::MAX,
    ensures
        r == (text@.subrange(at as int, at as int + lit@.len() as int) == lit@),
{
    let n = lit.unicode_len();
    let mut i: usize = 0;
    while i < n
        invariant
            n == lit@.len(),
            at + n <= text@.len(),
            at + n <= usize::MAX,
            i <= n,
            forall|j: int| 0 <= j < i ==> text@[at + j] == lit@[j],
        decreases n - i,
    {
        let a = text.get_char(at + i);
        let b = lit.get_char(i);
        if a != b {
            proof {
                assert(text@.subrange(at as int, at as int + n as int)[i as int] != lit@[
                    i as int
                ]);
            }
            return false;
        }
        i += 1;
    }
    proof {
        assert(text@.subrange(at as int, at as int + n as int) =~= lit@);
    }
    true
}

/// Ten characters `YYYY-MM-DD` starting at `at`; `Data` when they do not
/// name a valid date.
#[verifier::rlimit(100)]
fn parse_date_at(text: &str, at: usize) -> (r: Result<Date, Error>)
    requires
        at + 10 <= text@.len(),
        at + 10 <= usize::MAX,
    ensures
        match r {
            Ok(d) => d.valid() && text@.subrange(at as int, at as int + 10) == date_chars(d),
            Err(e) => e == Error::Data && (forall|d: Date|
                d.valid() ==> text@.subrange(at as int, at as int + 10) != #[trigger] date_chars(
                    d,
                )),
        },
{
    let ghost sub = text@.subrange(at as int, at as int + 10);
    let c0 = text.get_char(at);
    let c1 = text.get_char(at + 1);
    let c2 = text.get_char(at + 2);
    let c3 = text.get_char(at + 3);
    let c4 = text.get_char(at + 4);
    let c5 = text.get_char(at + 5);
    let c6 = text.get_char(at + 6);
    let c7 = text.get_char(at + 7);
    let c8 = text.get_char(at + 8);
    let c9 = text.get_char(at + 9);
    proof {
        assert(sub[0] == c0 && sub[1] == c1 && sub[2] == c2 && sub[3] == c3 && sub[4] == c4
            && sub[5] == c5 && sub[6] == c6 && sub[7] == c7 && sub[8] == c8 && sub[9] == c9);
    }
    if c4 != '-' || c7 != '-' {
        proof {
            assert forall|d: Date| d.valid() implies sub != #[trigger] date_chars(d) by {
                if sub == date_chars(d) {
                    assert(sub[4] == '-' && sub[7] == '-');
                }
            }
        }
        return Err(Error::Data);
    }
    let ya = match digit_val(c0) {
        Some(v) => v,
        None => {
            proof {
                assert forall|d: Date| d.valid() implies sub != #[trigger] date_chars(d) by {
                    if sub == date_chars(d) {
                        lemma_four_digits(d.year as int);
                        assert(c0 == digit_char(d.year as int / 1000));
                    }
                }
            }
            return Err(Error::Data);
        },
    };
    let yb = match digit_val(c1) {
        Some(v) => v,
        None => {
            proof {
                assert forall|d: Date| d.valid() implies sub != #[trigger] date_chars(d) by {
                    if sub == date_chars(d) {
                        lemma_four_digits(d.year as int);
                        assert(c1 == digit_char((d.year as int / 100) % 10));
                    }
                }
            }
            return Err(Error::Data);
        },
    };
    let yc = match digit_val(c2) {
        Some(v) => v,
        None => {
            proof {
                assert forall|d: Date| d.valid() implies sub != #[trigger] date_chars(d) by {
                    if sub == date_chars(d) {
                        lemma_four_digits(d.year as int);
                        assert(c2 == digit_char((d.year as int / 10) % 10));
                    }
                }
            }
            return Err(Error::Data);
        },
    };
    let yd = match digit_val(c3) {
        Some(v) => v,
        None => {
            proof {
                assert forall|d: Date| d.valid() implies sub != #[trigger] date_chars(d) by {
                    if sub == date_chars(d) {
                        lemma_four_digits(d.year as int);
                        assert(c3 == digit_char(d.year as int % 10));
                    }
                }
            }
            return Err(Error::Data);
        },
    };
    let mh = match digit_val(c5) {
        Some(v) => v,
        None => {
            proof {
                assert forall|d: Date| d.valid() implies sub != #[trigger] date_chars(d) by {
                    if sub == date_chars(d) {
                        lemma_two_digits(d.month as int);
                        assert(c5 == digit_char(d.month as int / 10));
                    }
                }
            }
            return Err(Error::Data);
        },
    };
    let ml = match digit_val(c6) {
        Some(v) => v,
        None => {
            proof {
                assert forall|d: Date| d.valid() implies sub != #[trigger] date_chars(d) by {
                    if sub == date_chars(d) {
                        lemma_two_digits(d.month as int);
                        assert(c6 == digit_char(d.month as int % 10));
                    }
                }
            }
            return Err(Error::Data);
        },
    };
    let dh = match digit_val(c8) {
        Some(v) => v,
        None => {
            proof {
                assert forall|d: Date| d.valid() implies sub != #[trigger] date_chars(d) by {
                    if sub == date_chars(d) {
                        lemma_two_digits(d.day as int);
                        assert(c8 == digit_char(d.day as int / 10));
                    }
                }
            }
            return Err(Error::Data);
        },
    };
    let dl = match digit_val(c9) {
        Some(v) => v,
        None => {
            proof {
                assert forall|d: Date| d.valid() implies sub != #[trigger] date_chars(d) by {
                    if sub == date_chars(d) {
                        lemma_two_digits(d.day as int);
                        assert(c9 == digit_char(d.day as int % 10));
                    }
                }
            }
            return Err(Error::Data);
        },
    };
    let y: u32 = 1000 * ya + 100 * yb + 10 * yc + yd;
    let mo: u32 = 10 * mh + ml;
    let da: u32 = 10 * dh + dl;
    proof {
        lemma_fundamental_div_mod_converse(y as int, 1000, ya as int, (100 * yb + 10 * yc
            + yd) as int);
        lemma_fundamental_div_mod_converse(y as int, 100, (10 * ya + yb) as int, (10 * yc
            + yd) as int);
        lemma_fundamental_div_mod_converse((10 * ya + yb) as int, 10, ya as int, yb as int);
        lemma_fundamental_div_mod_converse(y as int, 10, (100 * ya + 10 * yb + yc) as int,
            yd as int);
        lemma_fundamental_div_mod_converse((100 * ya + 10 * yb + yc) as int, 10, (10 * ya
            + yb) as int, yc as int);
        lemma_fundamental_div_mod_converse(mo as int, 10, mh as int, ml as int);
        lemma_fundamental_div_mod_converse(da as int, 10, dh as int, dl as int);
    }
    match Date::new(y as i32, mo as u8, da as u8) {
        Some(d) => {
            proof {
                assert(sub =~= date_chars(d));
            }
            Ok(d)
        },
        None => {
            proof {
                assert forall|d: Date| d.valid() implies sub != #[trigger] date_chars(d) by {
                    if sub == date_chars(d) {
                        lemma_four_digits(d.year as int);
                        lemma_two_digits(d.month as int);
                        lemma_two_digits(d.day as int);
                        assert(digit_char(d.year as int / 1000) == digit_char(ya as int));
                        assert(digit_char((d.year as int / 100) % 10) == digit_char(yb as int));
                        assert(digit_char((d.year as int / 10) % 10) == digit_char(yc as int));
                        assert(digit_char(d.year as int % 10) == digit_char(yd as int));
                        assert(digit_char(d.month as int / 10) == digit_char(mh as int));
                        assert(digit_char(d.month as int % 10) == digit_char(ml as int));
                        assert(digit_char(d.day as int / 10) == digit_char(dh as int));
                        assert(digit_char(d.day as int % 10) == digit_char(dl as int));
                        assert(d.year as int == y as int);
                        assert(d.month as int == mo as int);
                        assert(d.day as int == da as int);
                        assert(d == (Date { year: y as i32, month: mo as u8, day: da as u8 }));
                    }
                }
            }
            Err(Error::Data)
        },
    }
}

impl BusinessCalendar {
    /// Serialize the calendar into the canonical document form.
    pub fn to_json_str(&self) -> (r: Result<String, Error>)
        requires
            self.wf(),
        ensures
            match r {
                Ok(s) => s@ == doc_chars(self.spec_holidays(), self.spec_weekmask()),
                Err(_) => false,
            },
    {
        proof {
            reveal_strlit("{\"holidays\":[");
            reveal_strlit("],\"weekmask\":\"");
            reveal_strlit("\"}");
            reveal_strlit("\"");
            reveal_strlit(",");
            assert("{\"holidays\":["@ =~= pre_chars());
            assert("],\"weekmask\":\""@ =~= mid_chars());
            assert("\"}"@ =~= suf_chars());
        }
        let hvec = self.holidays();
        let mut out = String::new();
        out.append("{\"holidays\":[");
        let mut i: usize = 0;
        while i < hvec.len()
            invariant
                self.wf(),
                hvec@ == self.spec_holidays(),
                i <= hvec@.len(),
                out@ == pre_chars() + dates_chars(hvec@.take(i as int)),
                "\""@ =~= seq!['"'],
                ","@ =~= seq![','],
                "],\"weekmask\":\""@ =~= mid_chars(),
                "\"}"@ =~= suf_chars(),
            decreases hvec@.len() - i,
        {
            if i > 0 {
                out.append(",");
            }
            out.append("\"");
            let ds = date_string(&hvec[i]);
            out.append(ds.as_str());
            out.append("\"");
            proof {
                let taken = hvec@.take(i as int + 1);
                assert(taken.drop_last() =~= hvec@.take(i as int));
                assert(taken.last() == hvec@[i as int]);
                assert(taken[0] == hvec@[0]);
                assert(out@ =~= pre_chars() + dates_chars(taken));
            }
            i += 1;
        }
        proof {
            assert(hvec@.take(hvec@.len() as int) =~= hvec@);
        }
        out.append("],\"weekmask\":\"");
        let ms = self.weekmask();
        out.append(ms.as_str());
        out.append("\"}");
        proof {
            assert(out@ =~= doc_chars(self.spec_holidays(), self.spec_weekmask()));
        }
        Ok(out)
    }

    /// Read a calendar back from the canonical document form.  `Eof` when
    /// the text ends before a document can, `Syntax` when its structure is
    /// wrong, `Data` when a date or pattern character is wrong, and
    /// `InvalidWeekmask` when the pattern admits no business weekday.
    ///
    /// The second ensures clause is the round-trip guarantee: any document
    /// that `to_json_str` can produce parses back to a calendar with the
    /// same holiday set and the same weekday pattern.
    #[verifier::rlimit(100)]
    pub fn from_json_str(text: &str) -> (r: Result<BusinessCalendar, Error>)
        ensures
            match r {
                Ok(c) => c.wf() && parsed_doc(text@, c),
                Err(e) => (e == Error::Eof || e == Error::Syntax || e == Error::Data || e
                    == Error::InvalidWeekmask) && (e == Error::Eof <==> text@.len() < 36),
            },
            forall|dates: Seq<Date>, mask: Seq<bool>|
                #[trigger] doc_ok(text@, dates, mask) ==> match r {
                    Ok(c) => c.spec_weekmask() == mask && (forall|d: Date|
                        #[trigger] c.spec_holidays().contains(d) <==> dates.contains(d)),
                    Err(_) => false,
                },
    {
        let n = text.unicode_len();
        proof {
            reveal_strlit("{\"holidays\":[");
            reveal_strlit("],\"weekmask\":\"");
            assert("{\"holidays\":["@ =~= pre_chars());
            assert("],\"weekmask\":\""@ =~= mid_chars());
        }
        if n < 36 {
            proof {
                assert forall|dates: Seq<Date>, mask: Seq<bool>| !(#[trigger] doc_ok(
                    text@,
                    dates,
                    mask,
                )) by {
                    if doc_ok(text@, dates, mask) {
                        lemma_doc_shape(dates, mask);
                    }
                }
            }
            return Err(Error::Eof);
        }
        if !expect_lit(text, 0, "{\"holidays\":[") {
            proof {
                assert forall|dates: Seq<Date>, mask: Seq<bool>| !(#[trigger] doc_ok(
                    text@,
                    dates,
                    mask,
                )) by {
                    if doc_ok(text@, dates, mask) {
                        lemma_doc_shape(dates, mask);
                        assert(text@.subrange(0, 13) == pre_chars());
                    }
                }
            }
            return Err(Error::Syntax);
        }
        let k: usize;
        if n == 36 {
            k = 0;
        } else if n >= 48 && (n - 35) % 13 == 0 {
            k = (n - 35) / 13;
            proof {
                assert(35 + 13 * (k as int) == n as int);
            }
        } else {
            proof {
                assert forall|dates: Seq<Date>, mask: Seq<bool>| !(#[trigger] doc_ok(
                    text@,
                    dates,
                    mask,
                )) by {
                    if doc_ok(text@, dates, mask) {
                        lemma_doc_shape(dates, mask);
                        let ll = dates.len() as int;
                        assert(ll >= 1);
                        assert(n as int == 35 + 13 * ll);
                        lemma_fundamental_div_mod_converse(13 * ll, 13, ll, 0);
                        assert((n as int - 35) % 13 == 0);
                    }
                }
            }
            return Err(Error::Syntax);
        }
        proof {
            assert forall|dates: Seq<Date>, mask: Seq<bool>| #[trigger] doc_ok(text@, dates, mask)
                implies dates.len() == k as int && dates.take(0) == Seq::<Date>::empty() by {
                lemma_doc_shape(dates, mask);
                let ll = dates.len() as int;
                if ll == 0 {
                    assert(n as int == 36);
                } else {
                    assert(n as int == 35 + 13 * ll);
                    lemma_fundamental_div_mod_converse(13 * ll, 13, ll, 0);
                    assert(k as int == ll);
                }
                assert(dates.take(0) =~= Seq::<Date>::empty());
            }
        }
        let mut hol: Vec<Date> = Vec::new();
        let mut j: usize = 0;
        while j < k
            invariant
                n == text@.len(),
                36 <= n,
                (k == 0 && n == 36) || (k >= 1 && 35 + 13 * (k as int) == n as int),
                j <= k,
                hol@.len() == j,
                text@.subrange(0, 13) == pre_chars(),
                forall|t: int|
                    0 <= t < j ==> text@.subrange(13 + 13 * t, 25 + 13 * t) == quoted_date_chars(
                        #[trigger] hol@[t],
                    ),
                forall|t: int| 0 <= t < j && t < k - 1 ==> (#[trigger] text@[25 + 13 * t]) == ',',
                forall|t: int| 0 <= t < j ==> (#[trigger] hol@[t]).valid(),
                forall|dates: Seq<Date>, mask: Seq<bool>|
                    #[trigger] doc_ok(text@, dates, mask) ==> dates.len() == k as int
                        && dates.take(j as int) == hol@,
            decreases k - j,
        {
            proof {
                assert(13 * (j as int) <= 13 * (k as int - 1));
            }
            let base = 13 + 13 * j;
            let cq = text.get_char(base);
            if cq != '"' {
                proof {
                    assert forall|dates: Seq<Date>, mask: Seq<bool>| !(#[trigger] doc_ok(
                        text@,
                        dates,
                        mask,
                    )) by {
                        if doc_ok(text@, dates, mask) {
                            lemma_doc_shape(dates, mask);
                            assert(text@.subrange(13 + 13 * (j as int), 25 + 13 * (j as int))
                                == quoted_date_chars(dates[j as int]));
                            assert(text@[base as int] == quoted_date_chars(dates[j as int])[0]);
                        }
                    }
                }
                return Err(Error::Syntax);
            }
            let d = match parse_date_at(text, base + 1) {
                Ok(d) => d,
                Err(e) => {
                    proof {
                        assert forall|dates: Seq<Date>, mask: Seq<bool>| !(#[trigger] doc_ok(
                            text@,
                            dates,
                            mask,
                        )) by {
                            if doc_ok(text@, dates, mask) {
                                lemma_doc_shape(dates, mask);
                                assert(text@.subrange(13 + 13 * (j as int), 25 + 13 * (j as int))
                                    == quoted_date_chars(dates[j as int]));
                                assert(text@.subrange(base as int + 1, base as int + 11)
                                    =~= quoted_date_chars(dates[j as int]).subrange(1, 11));
                                assert(quoted_date_chars(dates[j as int]).subrange(1, 11)
                                    =~= date_chars(dates[j as int]));
                                assert((dates[j as int]).valid());
                            }
                        }
                    }
                    return Err(e);
                },
            };
            let cq2 = text.get_char(base + 11);
            if cq2 != '"' {
                proof {
                    assert forall|dates: Seq<Date>, mask: Seq<bool>| !(#[trigger] doc_ok(
                        text@,
                        dates,
                        mask,
                    )) by {
                        if doc_ok(text@, dates, mask) {
                            lemma_doc_shape(dates, mask);
                            assert(text@.subrange(13 + 13 * (j as int), 25 + 13 * (j as int))
                                == quoted_date_chars(dates[j as int]));
                            assert(text@[base as int + 11] == quoted_date_chars(
                                dates[j as int],
                            )[11]);
                        }
                    }
                }
                return Err(Error::Syntax);
            }
            if j + 1 < k {
                let cc = text.get_char(base + 12);
                if cc != ',' {
                    proof {
                        assert forall|dates: Seq<Date>, mask: Seq<bool>| !(#[trigger] doc_ok(
                            text@,
                            dates,
                            mask,
                        )) by {
                            if doc_ok(text@, dates, mask) {
                                lemma_doc_shape(dates, mask);
                                assert(doc_chars(dates, mask)[25 + 13 * (j as int)] == ',');
                            }
                        }
                    }
                    return Err(Error::Syntax);
                }
                proof {
                    assert(text@[base as int + 12] == ',');
                }
            }
            hol.push(d);
            j += 1;
            proof {
                assert(text@.subrange(base as int, base as int + 12) =~= quoted_date_chars(d));
                assert forall|t: int| 0 <= t < j implies text@.subrange(13 + 13 * t, 25 + 13 * t)
                    == quoted_date_chars(#[trigger] hol@[t]) by {
                    if t == j - 1 {
                        assert(hol@[t] == d);
                        assert(13 + 13 * t == base as int);
                    }
                }
                assert forall|dates: Seq<Date>, mask: Seq<bool>| #[trigger] doc_ok(
                    text@,
                    dates,
                    mask,
                ) implies dates.len() == k as int && dates.take(j as int) == hol@ by {
                    lemma_doc_shape(dates, mask);
                    let jj = j as int - 1;
                    assert(text@.subrange(13 + 13 * jj, 25 + 13 * jj) == quoted_date_chars(
                        dates[jj],
                    ));
                    assert(text@.subrange(base as int + 1, base as int + 11) =~= quoted_date_chars(
                        dates[jj],
                    ).subrange(1, 11));
                    assert(quoted_date_chars(dates[jj]).subrange(1, 11) =~= date_chars(
                        dates[jj],
                    ));
                    lemma_date_chars_inj(d, dates[jj]);
                    assert(dates.take(jj + 1) =~= dates.take(jj).push(dates[jj]));
                }
            }
        }
        let p: usize = if k == 0 {
            13
        } else {
            12 + 13 * k
        };
        proof {
            assert(p as int == n as int - 23);
        }
        if !expect_lit(text, p, "],\"weekmask\":\"") {
            proof {
                assert forall|dates: Seq<Date>, mask: Seq<bool>| !(#[trigger] doc_ok(
                    text@,
                    dates,
                    mask,
                )) by {
                    if doc_ok(text@, dates, mask) {
                        lemma_doc_shape(dates, mask);
                        assert(mid_at(dates) == p as int);
                        assert(text@.subrange(p as int, p as int + 14) == mid_chars());
                    }
                }
            }
            return Err(Error::Syntax);
        }
        let mut bits: Vec<bool> = Vec::new();
        let mut anyb = false;
        let mut t: usize = 0;
        while t < 7
            invariant
                n == text@.len(),
                36 <= n,
                (k == 0 && n == 36) || (k >= 1 && 35 + 13 * (k as int) == n as int),
                p as int == n as int - 23,
                t <= 7,
                bits@.len() == t,
                hol@.len() == k,
                text@.subrange(0, 13) == pre_chars(),
                text@.subrange(p as int, p as int + 14) == mid_chars(),
                forall|u: int|
                    0 <= u < k ==> text@.subrange(13 + 13 * u, 25 + 13 * u) == quoted_date_chars(
                        #[trigger] hol@[u],
                    ),
                forall|u: int| 0 <= u < k - 1 ==> (#[trigger] text@[25 + 13 * u]) == ',',
                forall|u: int| 0 <= u < k ==> (#[trigger] hol@[u]).valid(),
                forall|u: int|
                    0 <= u < t ==> (((#[trigger] text@[p as int + 14 + u]) == '1' || text@[
                        p as int + 14 + u
                    ] == '0') && bits@[u] == (text@[p as int + 14 + u] == '1')),
                anyb == exists|u: int| 0 <= u < t && (#[trigger] text@[p as int + 14 + u]) == '1',
                forall|dates: Seq<Date>, mask: Seq<bool>|
                    #[trigger] doc_ok(text@, dates, mask) ==> dates.len() == k as int
                        && dates.take(k as int) == hol@ && mid_at(dates) == p as int,
            decreases 7 - t,
        {
            let c = text.get_char(p + 14 + t);
            let b: bool;
            if c == '1' {
                b = true;
                anyb = true;
            } else if c == '0' {
                b = false;
            } else {
                proof {
                    assert forall|dates: Seq<Date>, mask: Seq<bool>| !(#[trigger] doc_ok(
                        text@,
                        dates,
                        mask,
                    )) by {
                        if doc_ok(text@, dates, mask) {
                            lemma_doc_shape(dates, mask);
                            assert(mask[t as int] || !mask[t as int]);
                            assert(text@[mid_at(dates) + 14 + t as int] == (if mask[t as int] {
                                '1'
                            } else {
                                '0'
                            }));
                        }
                    }
                }
                return Err(Error::Data);
            }
            let ghost oldbits = bits@;
            bits.push(b);
            proof {
                assert forall|u: int| 0 <= u < t + 1 implies (((#[trigger] text@[p as int + 14
                    + u]) == '1' || text@[p as int + 14 + u] == '0') && bits@[u] == (text@[
                    p as int + 14 + u
                ] == '1')) by {
                    if u < t {
                        assert(bits@[u] == oldbits[u]);
                    } else {
                        assert(bits@[t as int] == b);
                        assert(text@[p as int + 14 + t as int] == c);
                    }
                }
            }
            t += 1;
        }
        if !anyb {
            proof {
                assert forall|dates: Seq<Date>, mask: Seq<bool>| !(#[trigger] doc_ok(
                    text@,
                    dates,
                    mask,
                )) by {
                    if doc_ok(text@, dates, mask) {
                        lemma_doc_shape(dates, mask);
                        let u = choose|u: int| 0 <= u < 7 && mask[u];
                        assert(text@[mid_at(dates) + 14 + u] == '1');
                    }
                }
            }
            return Err(Error::InvalidWeekmask);
        }
        let closeq = text.get_char(p + 21);
        if closeq != '"' {
            proof {
                assert forall|dates: Seq<Date>, mask: Seq<bool>| !(#[trigger] doc_ok(
                    text@,
                    dates,
                    mask,
                )) by {
                    if doc_ok(text@, dates, mask) {
                        lemma_doc_shape(dates, mask);
                        assert(text@[mid_at(dates) + 21] == '"');
                    }
                }
            }
            return Err(Error::Syntax);
        }
        let closeb = text.get_char(p + 22);
        if closeb != '}' {
            proof {
                assert forall|dates: Seq<Date>, mask: Seq<bool>| !(#[trigger] doc_ok(
                    text@,
                    dates,
                    mask,
                )) by {
                    if doc_ok(text@, dates, mask) {
                        lemma_doc_shape(dates, mask);
                        assert(text@[mid_at(dates) + 22] == '}');
                    }
                }
            }
            return Err(Error::Syntax);
        }
        proof {
            let u0 = choose|u: int| 0 <= u < 7 && (#[trigger] text@[p as int + 14 + u]) == '1';
            assert(bits@[u0]);
        }
        let ghost parsed = hol@;
        let ghost maskg = bits@;
        let cal = BusinessCalendar::from_parts(hol, bits);
        proof {
            lemma_dates_chars_len(parsed);
            lemma_doc_shape(parsed, maskg);
            assert(mid_at(parsed) == p as int);
            assert(doc_chars(parsed, maskg).len() == n as int);
            let doc = doc_chars(parsed, maskg);
            assert forall|i: int| 0 <= i < n as int implies text@[i] == doc[i] by {
                if i < 13 {
                    assert(text@[i] == text@.subrange(0, 13)[i]);
                    assert(doc[i] == doc.subrange(0, 13)[i]);
                } else if i < p as int {
                    let o = i - 13;
                    lemma_fundamental_div_mod(o, 13);
                    lemma_mod_bound(o, 13);
                    let tt = o / 13;
                    let rr = o % 13;
                    assert(0 <= tt < k as int);
                    if rr < 12 {
                        assert(text@.subrange(13 + 13 * tt, 25 + 13 * tt) == quoted_date_chars(
                            parsed[tt],
                        ));
                        assert(doc.subrange(13 + 13 * tt, 25 + 13 * tt) == quoted_date_chars(
                            parsed[tt],
                        ));
                        assert(text@[i] == text@.subrange(13 + 13 * tt, 25 + 13 * tt)[rr]);
                        assert(doc[i] == doc.subrange(13 + 13 * tt, 25 + 13 * tt)[rr]);
                    } else {
                        assert(tt < k as int - 1);
                        assert(text@[25 + 13 * tt] == ',');
                        assert(doc[25 + 13 * tt] == ',');
                    }
                } else if i < p as int + 14 {
                    assert(text@[i] == text@.subrange(p as int, p as int + 14)[i - p as int]);
                    assert(doc[i] == doc.subrange(p as int, p as int + 14)[i - p as int]);
                } else if i < p as int + 21 {
                    let u = i - (p as int + 14);
                    assert(text@[p as int + 14 + u] == '1' || text@[p as int + 14 + u] == '0');
                    assert(maskg[u] == (text@[p as int + 14 + u] == '1'));
                    assert(doc[mid_at(parsed) + 14 + u] == (if maskg[u] {
                        '1'
                    } else {
                        '0'
                    }));
                } else if i == p as int + 21 {
                    assert(text@[i] == '"' && doc[i] == '"');
                } else {
                    assert(i == p as int + 22);
                    assert(text@[i] == '}' && doc[i] == '}');
                }
            }
            assert(text@ =~= doc);
            assert(forall|j2: int| 0 <= j2 < parsed.len() ==> (#[trigger] parsed[j2]).valid());
            assert(text@ == doc_chars(parsed, cal.spec_weekmask()));
        }
        proof {
            assert forall|dates: Seq<Date>, mask: Seq<bool>| #[trigger] doc_ok(text@, dates, mask)
                implies (cal.spec_weekmask() == mask && (forall|d: Date|
                #[trigger] cal.spec_holidays().contains(d) <==> dates.contains(d))) by {
                lemma_doc_shape(dates, mask);
                assert(dates.take(k as int) =~= dates);
                assert forall|u: int| 0 <= u < 7 implies bits@[u] == mask[u] by {
                    assert(text@[mid_at(dates) + 14 + u] == (if mask[u] {
                        '1'
                    } else {
                        '0'
                    }));
                }
                assert(bits@ =~= mask);
            }
            assert(parsed_doc(text@, cal)) by {
                assert(text@ == doc_chars(parsed, cal.spec_weekmask()) && (forall|j2: int|
                    0 <= j2 < parsed.len() ==> (#[trigger] parsed[j2]).valid()) && (forall|
                    d: Date,
                |
                    #[trigger] cal.spec_holidays().contains(d) <==> parsed.contains(d)));
            }
        }
        Ok(cal)
    }
}

} // verus!
