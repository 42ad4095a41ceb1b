//! Values of the relational store and how they are written.

use crate::sql::{remove_escaped_chars, unescaped, NULLSTR};
use mysql::Value;
use std::str::FromStr;
use vstd::prelude::*;
use vstd::utf8::{decode_utf8, valid_utf8};

verus! {

/// A value of the store. Floating-point values are not among them.
#[derive(Clone, Debug, PartialEq, Eq)]
pub enum SqlValue {
    Null,
    Bytes(Vec<u8>),
    Int(i64),
    UInt(u64),
    /// year, month, day, hour, minutes, seconds, micro seconds
    Date(u16, u8, u8, u8, u8, u8, u32),
    /// is negative, days, hours, minutes, seconds, micro seconds
    Time(bool, u32, u8, u8, u8, u32),
}

/// A value as plain data.
pub enum SqlValueView {
    Null,
    Bytes(Seq<u8>),
    Int(i64),
    UInt(u64),
    Date(u16, u8, u8, u8, u8, u8, u32),
    Time(bool, u32, u8, u8, u8, u32),
}

impl View for SqlValue {
    type V = SqlValueView;

    open spec fn view(&self) -> SqlValueView {
        match *self {
            SqlValue::Null => SqlValueView::Null,
            SqlValue::Bytes(bytes) => SqlValueView::Bytes(bytes@),
            SqlValue::Int(i) => SqlValueView::Int(i),
            SqlValue::UInt(u) => SqlValueView::UInt(u),
            SqlValue::Date(y, m, d, h, i, s, u) => SqlValueView::Date(y, m, d, h, i, s, u),
            SqlValue::Time(n, d, h, i, s, u) => SqlValueView::Time(n, d, h, i, s, u),
        }
    }
}

/// How the store's client library writes a value in a statement.
pub uninterp spec fn sql_literal(value: SqlValueView) -> Seq<char>;

/// The value can be written in a statement: the hours of a time, days
/// included, fit 32 bits.
pub open spec fn is_renderable(value: SqlValueView) -> bool {
    value matches SqlValueView::Time(_, days, hours, _, _, _) ==> days * 24 + hours <= u32::MAX
}

/// `Value::as_sql` with backslash escapes left on: the literal that stands
/// for the value in a statement, a function of the value alone. It adds a
/// time's days to its hours in 32 bits.
#[verifier::external_body]
pub(crate) fn value_as_sql(value: &SqlValue) -> (r: String)
    requires
        is_renderable(value@),
    ensures
        r@ == sql_literal(value@),
{
    let outside = match value {
        SqlValue::Null => Value::NULL,
        SqlValue::Bytes(bytes) => Value::Bytes(bytes.clone()),
        SqlValue::Int(i) => Value::Int(*i),
        SqlValue::UInt(u) => Value::UInt(*u),
        SqlValue::Date(y, m, d, h, i, s, u) => Value::Date(*y, *m, *d, *h, *i, *s, *u),
        SqlValue::Time(n, d, h, i, s, u) => Value::Time(*n, *d, *h, *i, *s, *u),
    };
    outside.as_sql(false)
}

impl SqlValue {
    /// The literal that stands for the value in a statement; `None` for a
    /// time whose hours, days included, do not fit 32 bits.
    pub fn as_sql(&self) -> (r: Option<String>)
        ensures
            (r is Some) == is_renderable(self@),
            r is Some ==> r.unwrap()@ == sql_literal(self@),
    {
        match self {
            SqlValue::Time(_, days, hours, _, _, _) => {
                let hours_wide: u64 = *hours as u64;
                let days_wide: u64 = *days as u64;
                if days_wide * 24 + hours_wide > u32::MAX as u64 {
                    return None;
                }
            },
            _ => {},
        }
        Some(value_as_sql(self))
    }
}

/// A value is no integer, or is written in a way that gives none.
#[derive(Debug, Clone, Copy, PartialEq, Eq)]
pub enum ValueError {
    /// The value is neither an integer nor bytes.
    NotAnInt,
    /// The bytes do not spell a number, or the integer is negative.
    Malformed,
}

/// The character of a decimal digit.
pub open spec fn digit_char(d: int) -> char {
    if d == 0 {
        '0'
    } else if d == 1 {
        '1'
    } else if d == 2 {
        '2'
    } else if d == 3 {
        '3'
    } else if d == 4 {
        '4'
    } else if d == 5 {
        '5'
    } else if d == 6 {
        '6'
    } else if d == 7 {
        '7'
    } else if d == 8 {
        '8'
    } else {
        '9'
    }
}

/// The digit that a character stands for, if it is a decimal digit.
pub open spec fn digit_value(c: char) -> Option<int> {
    if c == '0' {
        Some(0)
    } else if c == '1' {
        Some(1)
    } else if c == '2' {
        Some(2)
    } else if c == '3' {
        Some(3)
    } else if c == '4' {
        Some(4)
    } else if c == '5' {
        Some(5)
    } else if c == '6' {
        Some(6)
    } else if c == '7' {
        Some(7)
    } else if c == '8' {
        Some(8)
    } else if c == '9' {
        Some(9)
    } else {
        None
    }
}

/// The decimal digits of a natural number, without leading zeros.
pub open spec fn decimal(n: nat) -> Seq<char>
    decreases n,
{
    if n < 10 {
        seq![digit_char(n as int)]
    } else {
        decimal(n / 10).push(digit_char((n % 10) as int))
    }
}

/// The number that a text of decimal digits spells; `None` where a character
/// is no digit. The empty text spells zero.
pub open spec fn digits_value(text: Seq<char>) -> Option<nat>
    decreases text.len(),
{
    if text.len() == 0 {
        Some(0)
    } else {
        match (digits_value(text.drop_last()), digit_value(text.last())) {
            (Some(v), Some(d)) => Some((10 * v + d) as nat),
            _ => None,
        }
    }
}

/// How a signed number is written: a minus sign where it is negative, and
/// its decimal digits.
pub open spec fn decimal_i64(v: i64) -> Seq<char> {
    if v < 0 {
        seq!['-'] + decimal((-v) as nat)
    } else {
        decimal(v as nat)
    }
}

/// How an unsigned number is written: its decimal digits.
pub open spec fn decimal_u64(v: u64) -> Seq<char> {
    decimal(v as nat)
}

/// The number that a text is read as: a plus sign or none, and then one
/// decimal digit or more, which spell a number of 64 bits. `None` for any
/// other text.
pub open spec fn parsed_u64(text: Seq<char>) -> Option<u64> {
    let digits = if text.len() > 0 && text[0] == '+' {
        text.skip(1)
    } else {
        text
    };
    if digits.len() == 0 {
        None
    } else {
        match digits_value(digits) {
            Some(v) => if v <= u64::MAX {
                Some(v as u64)
            } else {
                None
            },
            None => None,
        }
    }
}

/// The decimal digits of a number spell that number, and begin with a digit.
pub proof fn lemma_decimal_spells(n: nat)
    ensures
        decimal(n).len() >= 1,
        digits_value(decimal(n)) == Some(n),
        digit_value(decimal(n)[0]) is Some,
    decreases n,
{
    if n < 10 {
        let text = seq![digit_char(n as int)];
        assert(text.drop_last() =~= Seq::<char>::empty());
        assert(digits_value(text.drop_last()) == Some(0nat));
        assert(text.last() == digit_char(n as int));
    } else {
        lemma_decimal_spells(n / 10);
        let front = decimal(n / 10);
        let text = front.push(digit_char((n % 10) as int));
        assert(text.drop_last() =~= front);
        assert(text.last() == digit_char((n % 10) as int));
        assert(text[0] == front[0]);
    }
}

/// A text that spells a number begins with a digit, unless it is empty.
pub proof fn lemma_digits_begin_with_digit(text: Seq<char>)
    requires
        text.len() >= 1,
        digits_value(text) is Some,
    ensures
        digit_value(text[0]) is Some,
    decreases text.len(),
{
    if text.len() > 1 {
        assert(text.drop_last()[0] == text[0]);
        lemma_digits_begin_with_digit(text.drop_last());
    }
}

/// Reading what was written of a signed number gives the number back where
/// it is natural, and nothing where it is negative.
pub proof fn lemma_parse_written(v: i64)
    ensures
        v >= 0 ==> parsed_u64(decimal_i64(v)) == Some(v as u64),
        v < 0 ==> parsed_u64(decimal_i64(v)) is None,
{
    if v >= 0 {
        lemma_decimal_spells(v as nat);
    } else {
        let text = decimal_i64(v);
        lemma_decimal_spells((-v) as nat);
        assert(text[0] == '-');
        if digits_value(text) is Some {
            lemma_digits_begin_with_digit(text);
        }
    }
}

/// `i64`'s `to_string`: the number in decimal, with a minus sign where it is
/// negative.
#[verifier::external_body]
fn i64_to_string(v: i64) -> (r: String)
    ensures
        r@ == decimal_i64(v),
{
    v.to_string()
}

/// `u64`'s `to_string`: the number in decimal.
#[verifier::external_body]
fn u64_to_string(v: u64) -> (r: String)
    ensures
        r@ == decimal_u64(v),
{
    v.to_string()
}

/// `u64`'s `from_str`: the number that the text spells in decimal, after a
/// plus sign or none; nothing for an empty text, a text with another
/// character, or a number beyond 64 bits.
#[verifier::external_body]
fn parse_u64(text: &str) -> (r: Option<u64>)
    ensures
        r == parsed_u64(text@),
{
    match u64::from_str(text) {
        Ok(v) => Some(v),
        Err(_) => None,
    }
}

/// `String::from_utf8`: the text that the bytes encode, where they are valid
/// UTF-8.
#[verifier::external_body]
fn utf8_to_string(bytes: &Vec<u8>) -> (r: Option<String>)
    ensures
        (r is Some) == valid_utf8(bytes@),
        r is Some ==> r.unwrap()@ == decode_utf8(bytes@),
{
    match String::from_utf8(bytes.clone()) {
        Ok(text) => Some(text),
        Err(_) => None,
    }
}

/// The text of a value: `NULL` for a missing one, the decoded and unescaped
/// text of bytes, or nothing where they are not valid UTF-8, and the decimal
/// digits of an integer.
pub open spec fn value_text(value: SqlValueView) -> Seq<char>
    recommends
        !(value is Date) && !(value is Time),
{
    match value {
        SqlValueView::Null => NULLSTR@,
        SqlValueView::Bytes(bytes) => if valid_utf8(bytes) {
            unescaped(decode_utf8(bytes))
        } else {
            Seq::empty()
        },
        SqlValueView::Int(i) => decimal_i64(i),
        SqlValueView::UInt(u) => decimal_u64(u),
        _ => Seq::empty(),
    }
}

/// The text of a value that is neither a date nor a time.
pub fn mysql_val_to_string(val: &SqlValue) -> (r: String)
    requires
        !(val@ is Date),
        !(val@ is Time),
    ensures
        r@ == value_text(val@),
{
    match val {
        SqlValue::Null => NULLSTR.to_owned(),
        SqlValue::Bytes(bs) => {
            match utf8_to_string(bs) {
                None => String::new(),
                Some(s) => remove_escaped_chars(s.as_str()),
            }
        },
        SqlValue::Int(i) => i64_to_string(*i),
        SqlValue::UInt(i) => u64_to_string(*i),
        _ => String::new(),
    }
}

/// The number that a value stands for: that of an unsigned integer, that of
/// a signed integer that is not negative, and that which bytes spell as
/// text.
pub open spec fn value_number(value: SqlValueView) -> Result<u64, ValueError> {
    match value {
        SqlValueView::Bytes(bytes) => if valid_utf8(bytes) && parsed_u64(decode_utf8(bytes))
            is Some {
            Ok(parsed_u64(decode_utf8(bytes)).unwrap())
        } else {
            Err(ValueError::Malformed)
        },
        SqlValueView::Int(i) => if i >= 0 {
            Ok(i as u64)
        } else {
            Err(ValueError::Malformed)
        },
        SqlValueView::UInt(u) => Ok(u),
        _ => Err(ValueError::NotAnInt),
    }
}

/// The number that a value stands for.
pub fn mysql_val_to_u64(val: &SqlValue) -> (r: Result<u64, ValueError>)
    ensures
        r == value_number(val@),
{
    match val {
        SqlValue::Bytes(bs) => {
            match utf8_to_string(bs) {
                None => Err(ValueError::Malformed),
                Some(text) => match parse_u64(text.as_str()) {
                    Some(v) => Ok(v),
                    None => Err(ValueError::Malformed),
                },
            }
        },
        SqlValue::Int(i) => {
            proof {
                lemma_parse_written(*i);
            }
            match parse_u64(i64_to_string(*i).as_str()) {
                Some(v) => Ok(v),
                None => Err(ValueError::Malformed),
            }
        },
        SqlValue::UInt(i) => Ok(*i),
        _ => Err(ValueError::NotAnInt),
    }
}

} // verus!
