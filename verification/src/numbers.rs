use vstd::prelude::*;

verus! {

/// An ASCII decimal digit.
pub open spec fn is_digit(c: char) -> bool {
    '0' <= c && c <= '9'
}

/// Every character of `s` is a decimal digit.
pub open spec fn all_digits(s: Seq<char>) -> bool {
    forall|i: int| 0 <= i < s.len() ==> is_digit(#[trigger] s[i])
}

/// The value of one decimal digit.
pub open spec fn digit_value(c: char) -> nat {
    (c as int - '0' as int) as nat
}

/// The value of a string of decimal digits, most significant first.
pub open spec fn digits_value(s: Seq<char>) -> nat
    decreases s.len(),
{
    if s.len() == 0 {
        0
    } else {
        digits_value(s.drop_last()) * 10 + digit_value(s.last())
    }
}

/// The digit character for `d < 10`.
pub open spec fn digit_char(d: nat) -> char {
    ((d + '0' as nat) as u32) as char
}

/// The decimal representation of `n`, without leading zeros (`"0"` for zero),
/// as `to_string` writes an unsigned integer.
pub open spec fn decimal(n: nat) -> Seq<char>
    decreases n,
{
    if n < 10 {
        seq![digit_char(n)]
    } else {
        decimal(n / 10).push(digit_char(n % 10))
    }
}

/// The decimal form of `n` is one or more digits whose value is `n`, so it
/// reads back as `n`.
pub proof fn lemma_decimal_reads_back(n: nat)
    ensures
        decimal(n).len() > 0,
        all_digits(decimal(n)),
        digits_value(decimal(n)) == n,
        is_digit(decimal(n)[0]),
    decreases n,
{
    let c = digit_char(n % 10);
    assert(c as int == n % 10 + '0' as int);
    assert(is_digit(c));
    assert(digit_value(c) == n % 10);
    if n >= 10 {
        lemma_decimal_reads_back(n / 10);
        let d = decimal(n / 10);
        assert(decimal(n) == d.push(c));
        assert(decimal(n).drop_last() == d);
        assert(decimal(n).last() == c);
        assert(digits_value(decimal(n)) == digits_value(d) * 10 + digit_value(c));
        assert(n == (n / 10) * 10 + n % 10);
        assert(decimal(n)[0] == d[0]);
        assert forall|i: int| 0 <= i < decimal(n).len() implies is_digit(#[trigger] decimal(n)[i]) by {
            if i < d.len() {
                assert(decimal(n)[i] == d[i]);
            }
        }
    } else {
        assert(decimal(n) == seq![c]);
        assert(decimal(n).drop_last() =~= Seq::<char>::empty());
        assert(digits_value(decimal(n)) == digits_value(decimal(n).drop_last()) * 10 + digit_value(c));
    }
}

/// What `str::parse` reads from `s` for an unsigned integer type, before the
/// range check: an optional `'+'` followed by one or more decimal digits.
pub open spec fn unsigned_text_value(s: Seq<char>) -> Option<nat> {
    let body = if s.len() > 0 && s[0] == '+' {
        s.drop_first()
    } else {
        s
    };
    if body.len() > 0 && all_digits(body) {
        Some(digits_value(body))
    } else {
        None
    }
}

/// What `str::parse` reads from `s` for a signed integer type, before the
/// range check: an optional `'+'` or `'-'` followed by one or more decimal
/// digits.
pub open spec fn signed_text_value(s: Seq<char>) -> Option<int> {
    if s.len() > 0 && s[0] == '-' {
        let body = s.drop_first();
        if body.len() > 0 && all_digits(body) {
            Some(-(digits_value(body) as int))
        } else {
            None
        }
    } else {
        match unsigned_text_value(s) {
            Some(n) => Some(n as int),
            None => None,
        }
    }
}

proof fn lemma_digits_value_monotone(s: Seq<char>, k: int)
    requires
        0 <= k <= s.len(),
    ensures
        digits_value(s.take(k)) <= digits_value(s),
    decreases s.len(),
{
    if k < s.len() {
        assert(s.drop_last().take(k) == s.take(k));
        lemma_digits_value_monotone(s.drop_last(), k);
    } else {
        assert(s.take(k) == s);
    }
}

/// The value of the digits `v[from..]`, when it fits in a `u64`.
fn digits_to_u64(v: &[char], from: usize) -> (r: Option<u64>)
    requires
        from <= v.len(),
        all_digits(v@.skip(from as int)),
    ensures
        r matches Some(x) ==> x == digits_value(v@.skip(from as int)),
        r is None ==> digits_value(v@.skip(from as int)) > u64::MAX,
{
    let ghost body = v@.skip(from as int);
    let mut acc: u64 = 0;
    let mut i = from;
    while i < v.len()
        invariant
            from <= i <= v.len(),
            body == v@.skip(from as int),
            all_digits(body),
            acc == digits_value(body.take(i - from)),
        decreases v.len() - i,
    {
        let ghost k = i - from;
        assert(body.take(k + 1).drop_last() == body.take(k));
        assert(body[k] == v@[i as int]);
        assert(is_digit(body[k]));
        let d = (v[i] as u32 - '0' as u32) as u64;
        match acc.checked_mul(10) {
            Some(m) => match m.checked_add(d) {
                Some(a) => {
                    acc = a;
                },
                None => {
                    proof {
                        lemma_digits_value_monotone(body, k + 1);
                    }
                    return None;
                },
            },
            None => {
                proof {
                    lemma_digits_value_monotone(body, k + 1);
                }
                return None;
            },
        }
        i = i + 1;
    }
    assert(body.take(i - from) == body);
    Some(acc)
}

fn digits_from(v: &[char], from: usize) -> (r: bool)
    requires
        from <= v.len(),
    ensures
        r == all_digits(v@.skip(from as int)),
{
    let mut i = from;
    while i < v.len()
        invariant
            from <= i <= v.len(),
            forall|j: int| from <= j < i ==> is_digit(#[trigger] v@[j]),
        decreases v.len() - i,
    {
        if !('0' <= v[i] && v[i] <= '9') {
            assert(!is_digit(v@.skip(from as int)[i - from]));
            return false;
        }
        i = i + 1;
    }
    assert forall|j: int| 0 <= j < v@.skip(from as int).len() implies is_digit(
        #[trigger] v@.skip(from as int)[j],
    ) by {
        assert(v@.skip(from as int)[j] == v@[from + j]);
    }
    true
}

/// Reads an unsigned integer as `str::parse::<u64>` does: `Some` exactly when
/// `v` is an optional `'+'` and one or more digits whose value fits in a `u64`.
pub fn parse_u64(v: &[char]) -> (r: Option<u64>)
    ensures
        r matches Some(x) ==> unsigned_text_value(v@) == Some(x as nat),
        r is None ==> match unsigned_text_value(v@) {
            Some(n) => n > u64::MAX,
            None => true,
        },
{
    let from: usize = if v.len() > 0 && v[0] == '+' {
        1
    } else {
        0
    };
    assert(v@.skip(0) == v@);
    assert(v@.skip(1) == v@.drop_first());
    if from >= v.len() || !digits_from(v, from) {
        return None;
    }
    digits_to_u64(v, from)
}

/// Reads a `usize` as `str::parse::<usize>` does.
pub fn parse_usize(v: &[char]) -> (r: Option<usize>)
    ensures
        r matches Some(x) ==> unsigned_text_value(v@) == Some(x as nat),
        r is None ==> match unsigned_text_value(v@) {
            Some(n) => n > usize::MAX,
            None => true,
        },
{
    match parse_u64(v) {
        Some(x) => {
            if x <= usize::MAX as u64 {
                Some(x as usize)
            } else {
                None
            }
        },
        None => None,
    }
}

/// Reads a signed integer within `[lo, hi]` as `str::parse` does for a signed
/// type with that range.
fn parse_signed_in(v: &[char], lo: i64, hi: i64) -> (r: Option<i64>)
    requires
        lo < 0 < hi,
    ensures
        r matches Some(x) ==> signed_text_value(v@) == Some(x as int) && lo <= x <= hi,
        r is None ==> match signed_text_value(v@) {
            Some(n) => n < lo || n > hi,
            None => true,
        },
{
    if v.len() > 0 && v[0] == '-' {
        assert(v@.skip(1) == v@.drop_first());
        if v.len() < 2 || !digits_from(v, 1) {
            return None;
        }
        match digits_to_u64(v, 1) {
            Some(m) => {
                let bound = (0 - (lo as i128)) as u64;
                if m <= bound {
                    let x = (0 - (m as i128)) as i64;
                    Some(x)
                } else {
                    None
                }
            },
            None => None,
        }
    } else {
        match parse_u64(v) {
            Some(m) => {
                if m <= hi as u64 {
                    Some(m as i64)
                } else {
                    None
                }
            },
            None => None,
        }
    }
}

/// Reads an `i64` as `str::parse::<i64>` does.
pub fn parse_i64(v: &[char]) -> (r: Option<i64>)
    ensures
        r matches Some(x) ==> signed_text_value(v@) == Some(x as int),
        r is None ==> match signed_text_value(v@) {
            Some(n) => n < i64::MIN || n > i64::MAX,
            None => true,
        },
{
    parse_signed_in(v, i64::MIN, i64::MAX)
}

/// Reads an `i32` as `str::parse::<i32>` does.
pub fn parse_i32(v: &[char]) -> (r: Option<i32>)
    ensures
        r matches Some(x) ==> signed_text_value(v@) == Some(x as int),
        r is None ==> match signed_text_value(v@) {
            Some(n) => n < i32::MIN || n > i32::MAX,
            None => true,
        },
{
    match parse_signed_in(v, i32::MIN as i64, i32::MAX as i64) {
        Some(x) => Some(x as i32),
        None => None,
    }
}

/// Why `str::parse` refuses a text for an integer type: the kind of the
/// `ParseIntError` it returns.
#[derive(Clone, Copy, Debug)]
pub enum ParseIntFailure {
    /// The text is empty.
    Empty,
    /// A character is not a digit, or the text is a lone sign.
    InvalidDigit,
    /// The value is above the largest value of the type.
    PosOverflow,
    /// The value is below the smallest value of the type.
    NegOverflow,
}

/// The text that a `ParseIntError` of kind `f` displays.
pub open spec fn failure_text(f: ParseIntFailure) -> Seq<char> {
    match f {
        ParseIntFailure::Empty => "cannot parse integer from empty string"@,
        ParseIntFailure::InvalidDigit => "invalid digit found in string"@,
        ParseIntFailure::PosOverflow => "number too large to fit in target type"@,
        ParseIntFailure::NegOverflow => "number too small to fit in target type"@,
    }
}

impl ParseIntFailure {
    /// The text shown for this failure.
    pub fn to_string(&self) -> (r: String)
        ensures
            r@ == failure_text(*self),
    {
        match self {
            ParseIntFailure::Empty => "cannot parse integer from empty string".to_owned(),
            ParseIntFailure::InvalidDigit => "invalid digit found in string".to_owned(),
            ParseIntFailure::PosOverflow => "number too large to fit in target type".to_owned(),
            ParseIntFailure::NegOverflow => "number too small to fit in target type".to_owned(),
        }
    }
}

/// The first failure met when the digits `d` are read one by one towards a
/// magnitude of at most `bound`: a character that is not a digit, or a digit
/// that takes the value read so far above `bound` (then `overflow`).
pub open spec fn digits_failure(d: Seq<char>, bound: nat, overflow: ParseIntFailure) -> Option<
    ParseIntFailure,
>
    decreases d.len(),
{
    if d.len() == 0 {
        None
    } else {
        match digits_failure(d.drop_last(), bound, overflow) {
            Some(f) => Some(f),
            None => if !is_digit(d.last()) {
                Some(ParseIntFailure::InvalidDigit)
            } else if digits_value(d) > bound {
                Some(overflow)
            } else {
                None
            },
        }
    }
}

/// What `str::parse::<i32>` gives for `s`: an optional sign and the digits,
/// read from the left; the first character that is not a digit, or the first
/// digit that takes the value out of the range of `i32`, decides the failure.
pub open spec fn i32_parse(s: Seq<char>) -> Result<int, ParseIntFailure> {
    if s.len() == 0 {
        Err(ParseIntFailure::Empty)
    } else if (s[0] == '+' || s[0] == '-') && s.len() == 1 {
        Err(ParseIntFailure::InvalidDigit)
    } else if s[0] == '-' {
        match digits_failure(s.drop_first(), 2147483648, ParseIntFailure::NegOverflow) {
            Some(f) => Err(f),
            None => Ok(-(digits_value(s.drop_first()) as int)),
        }
    } else {
        let d = if s[0] == '+' {
            s.drop_first()
        } else {
            s
        };
        match digits_failure(d, 2147483647, ParseIntFailure::PosOverflow) {
            Some(f) => Err(f),
            None => Ok(digits_value(d) as int),
        }
    }
}

proof fn lemma_failure_extends(d: Seq<char>, bound: nat, overflow: ParseIntFailure, k: int)
    requires
        0 <= k <= d.len(),
        digits_failure(d.take(k), bound, overflow) is Some,
    ensures
        digits_failure(d, bound, overflow) == digits_failure(d.take(k), bound, overflow),
    decreases d.len() - k,
{
    if k < d.len() {
        assert(d.take(k + 1).drop_last() == d.take(k));
        lemma_failure_extends(d, bound, overflow, k + 1);
    } else {
        assert(d.take(k) == d);
    }
}

/// Reads an `i32` as `str::parse::<i32>` does, telling why it fails.
pub fn parse_i32_reporting(v: &[char]) -> (r: Result<i32, ParseIntFailure>)
    ensures
        match r {
            Ok(x) => i32_parse(v@) == Ok::<int, ParseIntFailure>(x as int),
            Err(f) => i32_parse(v@) == Err::<int, ParseIntFailure>(f),
        },
{
    if v.len() == 0 {
        return Err(ParseIntFailure::Empty);
    }
    if (v[0] == '+' || v[0] == '-') && v.len() == 1 {
        return Err(ParseIntFailure::InvalidDigit);
    }
    let neg = v[0] == '-';
    let from: usize = if v[0] == '+' || v[0] == '-' {
        1
    } else {
        0
    };
    let bound: u64 = if neg {
        2147483648
    } else {
        2147483647
    };
    let overflow = if neg {
        ParseIntFailure::NegOverflow
    } else {
        ParseIntFailure::PosOverflow
    };
    let ghost d = v@.skip(from as int);
    assert(v@.skip(0) == v@);
    assert(v@.skip(1) == v@.drop_first());
    let mut acc: u64 = 0;
    let mut i = from;
    assert(d.take(0) =~= Seq::<char>::empty());
    while i < v.len()
        invariant
            from <= i <= v.len(),
            d == v@.skip(from as int),
            digits_failure(d.take(i - from), bound as nat, overflow) is None,
            acc == digits_value(d.take(i - from)),
            acc <= bound,
            v.len() > 0,
            neg == (v@[0] == '-'),
            from == (if v@[0] == '+' || v@[0] == '-' { 1usize } else { 0usize }),
            bound == (if neg { 2147483648u64 } else { 2147483647u64 }),
            overflow == (if neg { ParseIntFailure::NegOverflow } else { ParseIntFailure::PosOverflow }),
            !((v@[0] == '+' || v@[0] == '-') && v.len() == 1),
            v@.skip(0) == v@,
            v@.skip(1) == v@.drop_first(),
        decreases v.len() - i,
    {
        let ghost k = i - from;
        assert(d.take(k + 1).drop_last() == d.take(k));
        assert(d.take(k + 1).last() == v@[i as int]);
        let c = v[i];
        if !('0' <= c && c <= '9') {
            proof {
                lemma_failure_extends(d, bound as nat, overflow, k + 1);
            }
            return Err(ParseIntFailure::InvalidDigit);
        }
        let next = acc * 10 + (c as u32 - '0' as u32) as u64;
        if next > bound {
            proof {
                lemma_failure_extends(d, bound as nat, overflow, k + 1);
            }
            return Err(overflow);
        }
        acc = next;
        i = i + 1;
    }
    assert(d.take(v.len() - from) == d);
    if neg {
        Ok((0 - (acc as i64)) as i32)
    } else {
        Ok(acc as i32)
    }
}

/// Writes `n` in decimal, as `n.to_string()` does.
pub fn decimal_chars(n: usize) -> (r: Vec<char>)
    ensures
        r@ == decimal(n as nat),
    decreases n,
{
    let d = n % 10;
    let c = char_of_digit(d);
    if n < 10 {
        let mut r: Vec<char> = Vec::new();
        r.push(c);
        r
    } else {
        let mut r = decimal_chars(n / 10);
        r.push(c);
        r
    }
}

fn char_of_digit(d: usize) -> (c: char)
    requires
        d < 10,
    ensures
        c == digit_char(d as nat),
{
    if d == 0 {
        '0'
    } else if d == 1 {
        '1'
    } else if d == 2 {
        '2'
    } else if d == 3 {
        '3'
    } else if d == 4 {
        '4'
    } else if d == 5 {
        '5'
    } else if d == 6 {
        '6'
    } else if d == 7 {
        '7'
    } else if d == 8 {
        '8'
    } else {
        '9'
    }
}

} // verus!
