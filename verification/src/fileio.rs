use vstd::prelude::*;

use crate::numbers::{i32_parse, parse_i32_reporting, parse_i64, signed_text_value, ParseIntFailure};
use crate::text::{chars_of, lemma_split_on_nonempty, split_chars, split_on, string_of, strip_line_ending, trim_chars, trimmed, without_line_ending};

verus! {

/// A line that does not hold a number.
pub struct ParseError;

impl ParseError {
    /// The text shown for this error.
    pub fn to_string(&self) -> (r: String)
        ensures
            r@ == "Ошибка перевода строки в число"@,
    {
        "Ошибка перевода строки в число".to_owned()
    }
}

/// A number that should not be negative, or an empty list of numbers.
pub struct NonPositiveError;

impl NonPositiveError {
    /// The text shown for this error.
    pub fn to_string(&self) -> (r: String)
        ensures
            r@ == "Число отрицательно"@,
    {
        "Число отрицательно".to_owned()
    }
}

/// Why a line typed by the user was refused.
pub enum ScanError {
    Parse(ParseError),
    NonPositive(NonPositiveError),
    /// A piece of a list of numbers is not an `i32`, for this reason.
    Number(ParseIntFailure),
}

/// Reads the number on a line typed by the user (surrounding white space is
/// ignored), as `line.trim().parse::<i64>()` does.
pub fn scan_integer(line: &str) -> (r: Result<i64, ScanError>)
    ensures
        match r {
            Ok(n) => signed_text_value(trimmed(line@)) == Some(n as int),
            Err(e) => e is Parse && match signed_text_value(trimmed(line@)) {
                Some(n) => n < i64::MIN || n > i64::MAX,
                None => true,
            },
        },
{
    let v = chars_of(line);
    let t = trim_chars(&v);
    match parse_i64(&t) {
        Some(n) => Ok(n),
        None => Err(ScanError::Parse(ParseError)),
    }
}

/// Reads a number that must not be negative.
pub fn scan_nonnegative_number(line: &str) -> (r: Result<i64, ScanError>)
    ensures
        match r {
            Ok(n) => signed_text_value(trimmed(line@)) == Some(n as int) && n >= 0,
            Err(ScanError::NonPositive(_)) => signed_text_value(trimmed(line@)) matches Some(n) && n
                < 0 && n >= i64::MIN,
            Err(ScanError::Parse(_)) => match signed_text_value(trimmed(line@)) {
                Some(n) => n < i64::MIN || n > i64::MAX,
                None => true,
            },
            Err(ScanError::Number(_)) => false,
        },
{
    let n = scan_integer(line)?;
    if n < 0 {
        return Err(ScanError::NonPositive(NonPositiveError));
    }
    Ok(n)
}

/// The numbers of the pieces, as `str::parse::<i32>` reads them, or the
/// failure of the first piece that is not an `i32`.
pub open spec fn numbers_parsed(pieces: Seq<Seq<char>>) -> Result<Seq<i32>, ParseIntFailure>
    decreases pieces.len(),
{
    if pieces.len() == 0 {
        Ok(Seq::empty())
    } else {
        match numbers_parsed(pieces.drop_last()) {
            Err(f) => Err(f),
            Ok(ns) => match i32_parse(pieces.last()) {
                Ok(n) => Ok(ns.push(n as i32)),
                Err(f) => Err(f),
            },
        }
    }
}

/// Reads the numbers of a line typed by the user: the trimmed line split at
/// every single space, each piece an `i32`. On failure, the reason why the
/// first failing piece is not an `i32`.
pub fn input_vector(line: &str) -> (r: Result<Vec<i32>, ScanError>)
    ensures
        match r {
            Ok(v) => numbers_parsed(split_on(trimmed(line@), ' ')) == Ok::<Seq<i32>, ParseIntFailure>(
                v@,
            ),
            Err(e) => e matches ScanError::Number(f) && numbers_parsed(
                split_on(trimmed(line@), ' '),
            ) == Err::<Seq<i32>, ParseIntFailure>(f),
        },
{
    let v = chars_of(line);
    let t = trim_chars(&v);
    let parts = split_chars(&t, ' ');
    let ghost pv = split_on(t@, ' ');
    let mut out: Vec<i32> = Vec::new();
    let mut k: usize = 0;
    assert(pv.take(0) =~= Seq::<Seq<char>>::empty());
    assert(out@ =~= Seq::<i32>::empty());
    while k < parts.len()
        invariant
            k <= parts@.len(),
            parts@.len() == pv.len(),
            pv == split_on(trimmed(line@), ' '),
            forall|j: int| 0 <= j < parts@.len() ==> #[trigger] parts@[j]@ == pv[j],
            numbers_parsed(pv.take(k as int)) == Ok::<Seq<i32>, ParseIntFailure>(out@),
        decreases parts.len() - k,
    {
        assert(pv.take(k + 1).drop_last() == pv.take(k as int));
        assert(pv.take(k + 1).last() == parts@[k as int]@);
        match parse_i32_reporting(&parts[k]) {
            Ok(n) => {
                out.push(n);
            },
            Err(f) => {
                proof {
                    lemma_numbers_parsed_err_extends(pv, k as int + 1);
                }
                return Err(ScanError::Number(f));
            },
        }
        k = k + 1;
    }
    assert(pv.take(parts@.len() as int) == pv);
    Ok(out)
}

proof fn lemma_numbers_parsed_err_extends(pieces: Seq<Seq<char>>, k: int)
    requires
        0 <= k <= pieces.len(),
        numbers_parsed(pieces.take(k)) is Err,
    ensures
        numbers_parsed(pieces) == numbers_parsed(pieces.take(k)),
    decreases pieces.len() - k,
{
    if k < pieces.len() {
        assert(pieces.take(k + 1).drop_last() == pieces.take(k));
        lemma_numbers_parsed_err_extends(pieces, k + 1);
    } else {
        assert(pieces.take(k) == pieces);
    }
}

/// The answer typed after a prompt: the line without its final line ending.
pub fn read_prompt_answer(line: &str) -> (r: String)
    ensures
        r@ == without_line_ending(line@),
{
    let v = chars_of(line);
    string_of(&strip_line_ending(&v))
}

} // verus!
