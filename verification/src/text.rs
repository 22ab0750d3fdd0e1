use vstd::prelude::*;

verus! {

/// `String::push` appends one character to the end of the string.
pub assume_specification[ String::push ](s: &mut String, ch: char)
    ensures
        final(s)@ == old(s)@.push(ch),
;

// ---------------------------------------------------------------------------
// Character classes
// ---------------------------------------------------------------------------

/// Line-break characters removed from scraped text.
pub open spec fn is_line_break(c: char) -> bool {
    c == '\n' || c == '\r'
}

/// The Unicode `White_Space` property, which is what `char::is_whitespace`
/// (and therefore `str::trim`) tests.
pub open spec fn is_white_space(c: char) -> bool {
    ||| ('\u{9}' <= c && c <= '\u{d}')
    ||| c == ' '
    ||| c == '\u{85}'
    ||| c == '\u{a0}'
    ||| c == '\u{1680}'
    ||| ('\u{2000}' <= c && c <= '\u{200a}')
    ||| c == '\u{2028}'
    ||| c == '\u{2029}'
    ||| c == '\u{202f}'
    ||| c == '\u{205f}'
    ||| c == '\u{3000}'
}

/// Decides `is_white_space`.
pub fn white_space(c: char) -> (b: bool)
    ensures
        b == is_white_space(c),
{
    ('\u{9}' <= c && c <= '\u{d}') || c == ' ' || c == '\u{85}' || c == '\u{a0}' || c
        == '\u{1680}' || ('\u{2000}' <= c && c <= '\u{200a}') || c == '\u{2028}' || c
        == '\u{2029}' || c == '\u{202f}' || c == '\u{205f}' || c == '\u{3000}'
}

// ---------------------------------------------------------------------------
// Letter case
// ---------------------------------------------------------------------------

/// What `str::to_lowercase` gives for `s`.
pub uninterp spec fn lowercase(s: Seq<char>) -> Seq<char>;

/// `s` with each ASCII capital letter replaced by its small letter.
pub open spec fn ascii_lowercase(s: Seq<char>) -> Seq<char> {
    s.map_values(|c: char| if 'A' <= c && c <= 'Z' { ((c as u32) + 32) as char } else { c })
}

/// Calls `str::to_lowercase`. The contract states that the result is
/// `lowercase(s)`, and that on an all-ASCII text it lower-cases the ASCII
/// capitals alone: in the Unicode lowercase mapping that `to_lowercase`
/// follows, `A`..`Z` map to `a`..`z` and every other ASCII character maps to
/// itself.
#[verifier::external_body]
pub(crate) fn lowercase_of(s: &str) -> (r: String)
    ensures
        r@ == lowercase(s@),
        (forall|i: int| 0 <= i < s@.len() ==> (#[trigger] s@[i] as u32) < 128) ==> r@
            == ascii_lowercase(s@),
{
    s.to_lowercase()
}

// ---------------------------------------------------------------------------
// Conversions between strings and character vectors
// ---------------------------------------------------------------------------

/// The characters of a string slice, in order.
pub fn chars_of(s: &str) -> (v: Vec<char>)
    ensures
        v@ == s@,
{
    let mut v: Vec<char> = Vec::new();
    for c in it: s.chars()
        invariant
            v@ == it.seq().take(it.index() as int),
            it.seq() == s@,
    {
        v.push(c);
    }
    v
}

/// Builds a string from a sequence of characters.
pub fn string_of(v: &[char]) -> (s: String)
    ensures
        s@ == v@,
{
    let mut s = String::new();
    let mut i: usize = 0;
    while i < v.len()
        invariant
            i <= v.len(),
            s@ == v@.take(i as int),
        decreases v.len() - i,
    {
        s.push(v[i]);
        i = i + 1;
        assert(s@ == v@.take(i as int));
    }
    assert(v@.take(v.len() as int) == v@);
    s
}

/// Appends the characters of `src` to `dst`.
pub fn append_chars(dst: &mut Vec<char>, src: &[char])
    ensures
        final(dst)@ == old(dst)@ + src@,
{
    let mut i: usize = 0;
    while i < src.len()
        invariant
            i <= src.len(),
            dst@ == old(dst)@ + src@.take(i as int),
        decreases src.len() - i,
    {
        dst.push(src[i]);
        i = i + 1;
    }
    assert(src@.take(src.len() as int) == src@);
}

/// Copies the characters `v[from..to]` into a new vector.
pub fn slice_chars(v: &[char], from: usize, to: usize) -> (r: Vec<char>)
    requires
        from <= to <= v.len(),
    ensures
        r@ == v@.subrange(from as int, to as int),
{
    let mut r: Vec<char> = Vec::new();
    let mut i = from;
    while i < to
        invariant
            from <= i <= to <= v.len(),
            r@ == v@.subrange(from as int, i as int),
        decreases to - i,
    {
        r.push(v[i]);
        i = i + 1;
    }
    r
}

/// Whether two character sequences are equal.
pub fn chars_equal(a: &[char], b: &[char]) -> (r: bool)
    ensures
        r == (a@ == b@),
{
    if a.len() != b.len() {
        return false;
    }
    let mut i: usize = 0;
    while i < a.len()
        invariant
            a.len() == b.len(),
            i <= a.len(),
            forall|j: int| 0 <= j < i ==> a@[j] == b@[j],
        decreases a.len() - i,
    {
        if a[i] != b[i] {
            return false;
        }
        i = i + 1;
    }
    assert(a@ =~= b@);
    true
}

/// `p` is a prefix of `s`.
pub open spec fn has_prefix(s: Seq<char>, p: Seq<char>) -> bool {
    p.len() <= s.len() && s.take(p.len() as int) == p
}

/// `p` is a suffix of `s`.
pub open spec fn has_suffix(s: Seq<char>, p: Seq<char>) -> bool {
    p.len() <= s.len() && s.skip(s.len() - p.len()) == p
}

/// Decides `has_prefix`, as `str::starts_with` does.
pub fn starts_with(s: &[char], p: &[char]) -> (r: bool)
    ensures
        r == has_prefix(s@, p@),
{
    if p.len() > s.len() {
        return false;
    }
    let mut i: usize = 0;
    while i < p.len()
        invariant
            p.len() <= s.len(),
            i <= p.len(),
            forall|j: int| 0 <= j < i ==> s@[j] == p@[j],
        decreases p.len() - i,
    {
        if s[i] != p[i] {
            assert(s@.take(p.len() as int)[i as int] != p@[i as int]);
            return false;
        }
        i = i + 1;
    }
    assert(s@.take(p.len() as int) =~= p@);
    true
}

/// Decides `has_suffix`, as `str::ends_with` does.
pub fn ends_with(s: &[char], p: &[char]) -> (r: bool)
    ensures
        r == has_suffix(s@, p@),
{
    if p.len() > s.len() {
        return false;
    }
    let off = s.len() - p.len();
    let mut i: usize = 0;
    while i < p.len()
        invariant
            p.len() <= s.len(),
            off == s.len() - p.len(),
            i <= p.len(),
            forall|j: int| 0 <= j < i ==> s@[off + j] == p@[j],
        decreases p.len() - i,
    {
        if s[off + i] != p[i] {
            assert(s@.skip(off as int)[i as int] != p@[i as int]);
            return false;
        }
        i = i + 1;
    }
    assert(s@.skip(off as int) =~= p@);
    true
}

/// The position of the first occurrence of `c` in `s`.
pub open spec fn first_index_of(s: Seq<char>, c: char) -> Option<int>
    decreases s.len(),
{
    if s.len() == 0 {
        None
    } else if s[0] == c {
        Some(0)
    } else {
        match first_index_of(s.drop_first(), c) {
            Some(i) => Some(i + 1),
            None => None,
        }
    }
}

/// `first_index_of` describes the first occurrence exactly.
pub proof fn lemma_first_index_of(s: Seq<char>, c: char)
    ensures
        first_index_of(s, c) matches Some(i) ==> 0 <= i < s.len() && s[i] == c && forall|j: int|
            0 <= j < i ==> s[j] != c,
        first_index_of(s, c) is None ==> forall|j: int| 0 <= j < s.len() ==> s[j] != c,
    decreases s.len(),
{
    if s.len() > 0 {
        lemma_first_index_of(s.drop_first(), c);
        if s[0] != c {
            assert forall|j: int| 0 < j < s.len() implies s[j] == s.drop_first()[j - 1] by {}
        }
    }
}

/// Finds the first occurrence of `c`, as `str::find` does with a character.
pub fn find_char(s: &[char], c: char) -> (r: Option<usize>)
    ensures
        r matches Some(i) ==> first_index_of(s@, c) == Some(i as int) && i < s.len() && s@[i as int]
            == c,
        r is None ==> first_index_of(s@, c) is None,
{
    proof {
        lemma_first_index_of(s@, c);
    }
    let mut i: usize = 0;
    while i < s.len()
        invariant
            i <= s.len(),
            forall|j: int| 0 <= j < i ==> s@[j] != c,
        decreases s.len() - i,
    {
        if s[i] == c {
            proof {
                lemma_first_index_unique(s@, c, i as int);
            }
            return Some(i);
        }
        i = i + 1;
    }
    proof {
        lemma_first_index_none(s@, c);
    }
    None
}

/// Finds the first occurrence of `c` at or after position `from`.
pub fn find_char_from(s: &[char], c: char, from: usize) -> (r: Option<usize>)
    requires
        from <= s.len(),
    ensures
        r matches Some(i) ==> from <= i < s.len() && first_index_of(s@.skip(from as int), c) == Some(
            i - from,
        ),
        r is None ==> first_index_of(s@.skip(from as int), c) is None,
{
    let ghost t = s@.skip(from as int);
    let mut i: usize = from;
    while i < s.len()
        invariant
            from <= i <= s.len(),
            t == s@.skip(from as int),
            forall|j: int| 0 <= j < i - from ==> t[j] != c,
        decreases s.len() - i,
    {
        if s[i] == c {
            proof {
                lemma_first_index_unique(t, c, i - from);
            }
            return Some(i);
        }
        i = i + 1;
    }
    proof {
        lemma_first_index_none(t, c);
    }
    None
}

/// Where `c` first occurs in `a + b`.
pub proof fn lemma_first_index_concat(a: Seq<char>, b: Seq<char>, c: char)
    ensures
        first_index_of(a + b, c) == match first_index_of(a, c) {
            Some(i) => Some(i),
            None => match first_index_of(b, c) {
                Some(j) => Some(a.len() + j),
                None => None,
            },
        },
    decreases a.len(),
{
    if a.len() > 0 {
        lemma_first_index_concat(a.drop_first(), b, c);
        assert((a + b).drop_first() == a.drop_first() + b);
    } else {
        assert(a + b == b);
    }
}

proof fn lemma_first_index_unique(s: Seq<char>, c: char, i: int)
    requires
        0 <= i < s.len(),
        s[i] == c,
        forall|j: int| 0 <= j < i ==> s[j] != c,
    ensures
        first_index_of(s, c) == Some(i),
    decreases s.len(),
{
    if i > 0 {
        assert forall|j: int| 0 <= j < i - 1 implies s.drop_first()[j] != c by {
            assert(s.drop_first()[j] == s[j + 1]);
        }
        lemma_first_index_unique(s.drop_first(), c, i - 1);
    }
}

proof fn lemma_first_index_none(s: Seq<char>, c: char)
    requires
        forall|j: int| 0 <= j < s.len() ==> s[j] != c,
    ensures
        first_index_of(s, c) is None,
    decreases s.len(),
{
    if s.len() > 0 {
        assert forall|j: int| 0 <= j < s.len() - 1 implies s.drop_first()[j] != c by {
            assert(s.drop_first()[j] == s[j + 1]);
        }
        lemma_first_index_none(s.drop_first(), c);
    }
}

// ---------------------------------------------------------------------------
// Clean-up of scraped text
// ---------------------------------------------------------------------------

/// `s` with every line break removed.
pub open spec fn without_line_breaks(s: Seq<char>) -> Seq<char> {
    s.filter(|c: char| !is_line_break(c))
}

/// `without_line_breaks` read from the end: the last character is kept unless
/// it is a line break.
proof fn lemma_without_line_breaks_step(s: Seq<char>)
    ensures
        s.len() == 0 ==> without_line_breaks(s) == s,
        s.len() > 0 ==> without_line_breaks(s) == if is_line_break(s.last()) {
            without_line_breaks(s.drop_last())
        } else {
            without_line_breaks(s.drop_last()).push(s.last())
        },
{
    reveal_with_fuel(Seq::filter, 1);
}

/// `s` where each space that directly follows a space is dropped, so runs of
/// spaces shrink to one space.
pub open spec fn collapsed_spaces(s: Seq<char>) -> Seq<char>
    decreases s.len(),
{
    if s.len() == 0 {
        s
    } else if s.last() == ' ' && s.len() >= 2 && s[s.len() - 2] == ' ' {
        collapsed_spaces(s.drop_last())
    } else {
        collapsed_spaces(s.drop_last()).push(s.last())
    }
}

/// No two spaces stand next to each other in `s`.
pub open spec fn no_double_space(s: Seq<char>) -> bool {
    forall|i: int| 0 <= i < s.len() - 1 ==> !(#[trigger] s[i] == ' ' && s[i + 1] == ' ')
}

/// No line break occurs in `s`.
pub open spec fn no_line_break(s: Seq<char>) -> bool {
    forall|i: int| 0 <= i < s.len() ==> !is_line_break(#[trigger] s[i])
}

fn without_line_breaks_chars(v: &[char]) -> (r: Vec<char>)
    ensures
        r@ == without_line_breaks(v@),
{
    let mut r: Vec<char> = Vec::new();
    let mut i: usize = 0;
    while i < v.len()
        invariant
            i <= v.len(),
            r@ == without_line_breaks(v@.take(i as int)),
        decreases v.len() - i,
    {
        assert(v@.take(i + 1).drop_last() == v@.take(i as int));
        proof {
            lemma_without_line_breaks_step(v@.take(i + 1));
        }
        if v[i] != '\n' && v[i] != '\r' {
            r.push(v[i]);
        }
        i = i + 1;
    }
    assert(v@.take(v.len() as int) == v@);
    r
}

fn collapsed_spaces_chars(v: &[char]) -> (r: Vec<char>)
    ensures
        r@ == collapsed_spaces(v@),
{
    let mut r: Vec<char> = Vec::new();
    let mut prev = '\0';
    let mut i: usize = 0;
    while i < v.len()
        invariant
            i <= v.len(),
            r@ == collapsed_spaces(v@.take(i as int)),
            i == 0 ==> prev == '\0',
            i > 0 ==> prev == v@[i - 1],
        decreases v.len() - i,
    {
        let ch = v[i];
        assert(v@.take(i + 1).drop_last() == v@.take(i as int));
        if !(ch == ' ' && prev == ' ') {
            r.push(ch);
        }
        prev = ch;
        i = i + 1;
    }
    assert(v@.take(v.len() as int) == v@);
    r
}

/// Removes every `'\n'` and `'\r'` from `s`.
pub fn remove_newlines(s: String) -> (r: String)
    ensures
        r@ == without_line_breaks(s@),
{
    let v = chars_of(s.as_str());
    let w = without_line_breaks_chars(&v);
    string_of(&w)
}

/// Drops every space that directly follows another space.
pub fn shorten_whitespace(s: String) -> (r: String)
    ensures
        r@ == collapsed_spaces(s@),
{
    let v = chars_of(s.as_str());
    let w = collapsed_spaces_chars(&v);
    string_of(&w)
}

/// Character-vector form of `remove_newlines`.
pub fn remove_line_breaks(v: &[char]) -> (r: Vec<char>)
    ensures
        r@ == without_line_breaks(v@),
{
    without_line_breaks_chars(v)
}

/// Character-vector form of `shorten_whitespace`.
pub fn collapse_spaces(v: &[char]) -> (r: Vec<char>)
    ensures
        r@ == collapsed_spaces(v@),
{
    collapsed_spaces_chars(v)
}

// ---------------------------------------------------------------------------
// Trimming
// ---------------------------------------------------------------------------

/// `s` without its leading white space.
pub open spec fn trim_start(s: Seq<char>) -> Seq<char>
    decreases s.len(),
{
    if s.len() > 0 && is_white_space(s[0]) {
        trim_start(s.drop_first())
    } else {
        s
    }
}

/// `s` without its trailing white space.
pub open spec fn trim_end(s: Seq<char>) -> Seq<char>
    decreases s.len(),
{
    if s.len() > 0 && is_white_space(s.last()) {
        trim_end(s.drop_last())
    } else {
        s
    }
}

/// `s` without leading and trailing white space, as `str::trim` gives it.
pub open spec fn trimmed(s: Seq<char>) -> Seq<char> {
    trim_end(trim_start(s))
}

proof fn lemma_trim_start_len(s: Seq<char>)
    ensures
        trim_start(s).len() <= s.len(),
    decreases s.len(),
{
    if s.len() > 0 && is_white_space(s[0]) {
        lemma_trim_start_len(s.drop_first());
    }
}

proof fn lemma_trim_end_len(s: Seq<char>)
    ensures
        trim_end(s).len() <= s.len(),
    decreases s.len(),
{
    if s.len() > 0 && is_white_space(s.last()) {
        lemma_trim_end_len(s.drop_last());
    }
}

/// Trimming never makes a text longer.
pub proof fn lemma_trimmed_len(s: Seq<char>)
    ensures
        trimmed(s).len() <= s.len(),
{
    lemma_trim_start_len(s);
    lemma_trim_end_len(trim_start(s));
}

/// `s` without trailing occurrences of `c`, as `str::trim_end_matches` gives it.
pub open spec fn trim_end_char(s: Seq<char>, c: char) -> Seq<char>
    decreases s.len(),
{
    if s.len() > 0 && s.last() == c {
        trim_end_char(s.drop_last(), c)
    } else {
        s
    }
}

proof fn lemma_trim_start_skip(s: Seq<char>, i: int)
    requires
        0 <= i <= s.len(),
        forall|j: int| 0 <= j < i ==> is_white_space(#[trigger] s[j]),
    ensures
        trim_start(s) == trim_start(s.skip(i)),
    decreases i,
{
    if i > 0 {
        assert forall|j: int| 0 <= j < i - 1 implies is_white_space(#[trigger] s.drop_first()[j]) by {
            assert(s.drop_first()[j] == s[j + 1]);
        }
        assert(is_white_space(s[0]));
        lemma_trim_start_skip(s.drop_first(), i - 1);
        assert(s.drop_first().skip(i - 1) == s.skip(i));
    } else {
        assert(s.skip(0) == s);
    }
}

proof fn lemma_trim_end_take(s: Seq<char>, k: int)
    requires
        0 <= k <= s.len(),
        forall|j: int| k <= j < s.len() ==> is_white_space(#[trigger] s[j]),
    ensures
        trim_end(s) == trim_end(s.take(k)),
    decreases s.len() - k,
{
    if k < s.len() {
        assert(s.drop_last().take(k) == s.take(k));
        lemma_trim_end_take(s.drop_last(), k);
    } else {
        assert(s.take(k) == s);
    }
}

/// Removes leading and trailing white space, as `str::trim` does.
pub fn trim_chars(v: &[char]) -> (r: Vec<char>)
    ensures
        r@ == trimmed(v@),
{
    let mut start: usize = 0;
    while start < v.len() && white_space(v[start])
        invariant
            start <= v.len(),
            forall|j: int| 0 <= j < start ==> is_white_space(#[trigger] v@[j]),
        decreases v.len() - start,
    {
        start = start + 1;
    }
    proof {
        lemma_trim_start_skip(v@, start as int);
    }
    let ghost rest = v@.skip(start as int);
    assert(trim_start(rest) == rest);
    let mut end: usize = v.len();
    while end > start && white_space(v[end - 1])
        invariant
            start <= end <= v.len(),
            rest == v@.skip(start as int),
            forall|j: int| end - start <= j < rest.len() ==> is_white_space(#[trigger] rest[j]),
        decreases end,
    {
        assert(rest[end - 1 - start] == v@[end - 1]);
        end = end - 1;
    }
    proof {
        lemma_trim_end_take(rest, (end - start) as int);
        assert(rest.take((end - start) as int) == v@.subrange(start as int, end as int));
    }
    slice_chars(v, start, end)
}

/// Removes trailing occurrences of `c`, as `str::trim_end_matches` does.
pub fn trim_end_matches_char(v: &[char], c: char) -> (r: Vec<char>)
    ensures
        r@ == trim_end_char(v@, c),
{
    let mut end: usize = v.len();
    assert(v@.take(end as int) == v@);
    while end > 0 && v[end - 1] == c
        invariant
            end <= v.len(),
            trim_end_char(v@, c) == trim_end_char(v@.take(end as int), c),
        decreases end,
    {
        assert(v@.take(end as int).drop_last() == v@.take(end - 1));
        end = end - 1;
    }
    assert(v@.take(end as int) == v@.subrange(0, end as int));
    slice_chars(v, 0, end)
}

/// `s` without one final `"\r\n"`, or else without one final `"\n"`.
pub open spec fn without_line_ending(s: Seq<char>) -> Seq<char> {
    if has_suffix(s, seq!['\r', '\n']) {
        s.take(s.len() - 2)
    } else if has_suffix(s, seq!['\n']) {
        s.take(s.len() - 1)
    } else {
        s
    }
}

/// Strips one line ending, as
/// `s.strip_suffix("\r\n").or(s.strip_suffix("\n")).unwrap_or(s)` does.
pub fn strip_line_ending(v: &[char]) -> (r: Vec<char>)
    ensures
        r@ == without_line_ending(v@),
{
    let n = v.len();
    if n >= 2 && v[n - 2] == '\r' && v[n - 1] == '\n' {
        assert(v@.skip(n - 2) =~= seq!['\r', '\n']);
        slice_chars(v, 0, n - 2)
    } else if n >= 1 && v[n - 1] == '\n' {
        assert(v@.skip(n - 1) =~= seq!['\n']);
        proof {
            if has_suffix(v@, seq!['\r', '\n']) {
                assert(v@.skip(n - 2)[0] == '\r');
            }
        }
        slice_chars(v, 0, n - 1)
    } else {
        proof {
            if has_suffix(v@, seq!['\r', '\n']) {
                assert(v@.skip(n - 2)[1] == '\n');
            }
            if has_suffix(v@, seq!['\n']) {
                assert(v@.skip(n - 1)[0] == '\n');
            }
        }
        slice_chars(v, 0, n)
    }
}


// ---------------------------------------------------------------------------
// Splitting
// ---------------------------------------------------------------------------

/// The pieces of `s` between occurrences of `sep`, as `str::split` yields
/// them: one more piece than there are separators, empty pieces included.
pub open spec fn split_on(s: Seq<char>, sep: char) -> Seq<Seq<char>>
    decreases s.len(),
{
    if s.len() == 0 {
        seq![Seq::<char>::empty()]
    } else {
        let r = split_on(s.drop_last(), sep);
        if s.last() == sep {
            r.push(Seq::<char>::empty())
        } else {
            r.update(r.len() - 1, r.last().push(s.last()))
        }
    }
}

/// `split_on` never yields an empty list of pieces.
pub proof fn lemma_split_on_nonempty(s: Seq<char>, sep: char)
    ensures
        split_on(s, sep).len() >= 1,
    decreases s.len(),
{
    if s.len() > 0 {
        lemma_split_on_nonempty(s.drop_last(), sep);
    }
}

/// Splits `v` at every `sep`, as `str::split` with a character does.
pub fn split_chars(v: &[char], sep: char) -> (r: Vec<Vec<char>>)
    ensures
        r@.len() == split_on(v@, sep).len(),
        forall|i: int| 0 <= i < r@.len() ==> #[trigger] r@[i]@ == split_on(v@, sep)[i],
{
    let mut r: Vec<Vec<char>> = Vec::new();
    let mut cur: Vec<char> = Vec::new();
    let mut i: usize = 0;
    while i < v.len()
        invariant
            i <= v.len(),
            split_on(v@.take(i as int), sep).len() == r@.len() + 1,
            forall|j: int| 0 <= j < r@.len() ==> #[trigger] r@[j]@ == split_on(
                v@.take(i as int),
                sep,
            )[j],
            cur@ == split_on(v@.take(i as int), sep).last(),
        decreases v.len() - i,
    {
        assert(v@.take(i + 1).drop_last() == v@.take(i as int));
        proof {
            lemma_split_on_nonempty(v@.take(i as int), sep);
        }
        if v[i] == sep {
            let done = cur;
            r.push(done);
            cur = Vec::new();
        } else {
            cur.push(v[i]);
        }
        i = i + 1;
    }
    assert(v@.take(v.len() as int) == v@);
    r.push(cur);
    r
}

/// What follows the first `sep` in `s`, as `s.splitn(2, sep).nth(1)` gives it.
pub open spec fn after_first(s: Seq<char>, sep: char) -> Option<Seq<char>> {
    match first_index_of(s, sep) {
        Some(i) => Some(s.skip(i + 1)),
        None => None,
    }
}

/// Computes `after_first`.
pub fn after_first_char(v: &[char], sep: char) -> (r: Option<Vec<char>>)
    ensures
        r matches Some(w) ==> after_first(v@, sep) == Some(w@),
        r is None ==> after_first(v@, sep) is None,
{
    match find_char(v, sep) {
        Some(i) => {
            Some(slice_chars(v, i + 1, v.len()))
        },
        None => None,
    }
}

// ---------------------------------------------------------------------------
// Searching for a pattern
// ---------------------------------------------------------------------------

/// `p` occurs in `s` starting at position `i`.
pub open spec fn occurs_at(s: Seq<char>, p: Seq<char>, i: int) -> bool {
    0 <= i && i + p.len() <= s.len() && s.subrange(i, i + p.len()) == p
}

/// The first position at or after `i` where `p` occurs in `s`.
pub open spec fn first_occurrence_from(s: Seq<char>, p: Seq<char>, i: int) -> Option<int>
    decreases s.len() + 1 - i,
{
    if i < 0 || i + p.len() > s.len() {
        None
    } else if occurs_at(s, p, i) {
        Some(i)
    } else {
        first_occurrence_from(s, p, i + 1)
    }
}

/// `s` up to the first occurrence of `p`, or all of `s` when `p` does not
/// occur, as `s.split_once(p).map(|(a, _)| a).unwrap_or(s)` gives it.
pub open spec fn before_pattern(s: Seq<char>, p: Seq<char>) -> Seq<char> {
    match first_occurrence_from(s, p, 0) {
        Some(i) => s.take(i),
        None => s,
    }
}

fn occurs_at_exec(s: &[char], p: &[char], i: usize) -> (b: bool)
    requires
        i + p.len() <= s.len(),
    ensures
        b == occurs_at(s@, p@, i as int),
{
    let mut k: usize = 0;
    while k < p.len()
        invariant
            i + p.len() <= s.len(),
            k <= p.len(),
            forall|j: int| 0 <= j < k ==> s@[i + j] == p@[j],
        decreases p.len() - k,
    {
        if s[i + k] != p[k] {
            assert(s@.subrange(i as int, i + p.len())[k as int] != p@[k as int]);
            return false;
        }
        k = k + 1;
    }
    assert(s@.subrange(i as int, i + p.len()) =~= p@);
    true
}

/// Finds the first occurrence of `p` in `s`, as `str::find` does.
pub fn find_pattern(s: &[char], p: &[char]) -> (r: Option<usize>)
    ensures
        r matches Some(i) ==> first_occurrence_from(s@, p@, 0) == Some(i as int) && i + p.len()
            <= s.len(),
        r is None ==> first_occurrence_from(s@, p@, 0) is None,
{
    if p.len() > s.len() {
        return None;
    }
    if p.len() == 0 {
        assert(s@.subrange(0, 0) =~= p@);
        assert(occurs_at(s@, p@, 0));
        return Some(0);
    }
    let mut i: usize = 0;
    while i <= s.len() - p.len()
        invariant
            p.len() <= s.len(),
            p.len() >= 1,
            i <= s.len() - p.len() + 1,
            first_occurrence_from(s@, p@, 0) == first_occurrence_from(s@, p@, i as int),
        decreases s.len() - i,
    {
        if occurs_at_exec(s, p, i) {
            return Some(i);
        }
        i = i + 1;
    }
    None
}

/// Computes `before_pattern`.
pub fn before_pattern_chars(s: &[char], p: &[char]) -> (r: Vec<char>)
    ensures
        r@ == before_pattern(s@, p@),
{
    match find_pattern(s, p) {
        Some(i) => slice_chars(s, 0, i),
        None => slice_chars(s, 0, s.len()),
    }
}

// ---------------------------------------------------------------------------
// Laws of the clean-up functions
// ---------------------------------------------------------------------------

/// After `remove_newlines` no line break is left.
pub proof fn law_without_line_breaks_has_none(s: Seq<char>)
    ensures
        no_line_break(without_line_breaks(s)),
    decreases s.len(),
{
    lemma_without_line_breaks_step(s);
    if s.len() > 0 {
        law_without_line_breaks_has_none(s.drop_last());
    }
}

/// Text without line breaks is left unchanged by `remove_newlines`.
pub proof fn law_without_line_breaks_keeps_clean(s: Seq<char>)
    requires
        no_line_break(s),
    ensures
        without_line_breaks(s) == s,
    decreases s.len(),
{
    lemma_without_line_breaks_step(s);
    if s.len() > 0 {
        assert(!is_line_break(s[s.len() - 1]));
        law_without_line_breaks_keeps_clean(s.drop_last());
        assert(s.drop_last().push(s.last()) == s);
    }
}

/// `remove_newlines` is idempotent.
pub proof fn law_remove_newlines_idempotent(s: Seq<char>)
    ensures
        without_line_breaks(without_line_breaks(s)) == without_line_breaks(s),
{
    law_without_line_breaks_has_none(s);
    law_without_line_breaks_keeps_clean(without_line_breaks(s));
}

proof fn lemma_collapsed_last(s: Seq<char>)
    requires
        s.len() > 0,
    ensures
        collapsed_spaces(s).len() > 0,
        collapsed_spaces(s).last() == s.last(),
    decreases s.len(),
{
    if s.len() >= 2 && s.last() == ' ' && s[s.len() - 2] == ' ' {
        lemma_collapsed_last(s.drop_last());
    }
}

/// After `shorten_whitespace` no two spaces stand next to each other.
pub proof fn law_collapsed_spaces_has_no_double_space(s: Seq<char>)
    ensures
        no_double_space(collapsed_spaces(s)),
    decreases s.len(),
{
    if s.len() > 0 {
        let t = s.drop_last();
        law_collapsed_spaces_has_no_double_space(t);
        let r = collapsed_spaces(t);
        if !(s.last() == ' ' && s.len() >= 2 && s[s.len() - 2] == ' ') {
            let r2 = r.push(s.last());
            if t.len() > 0 {
                lemma_collapsed_last(t);
            }
            assert forall|i: int| 0 <= i < r2.len() - 1 implies !(#[trigger] r2[i] == ' ' && r2[i
                + 1] == ' ') by {
                if i < r.len() - 1 {
                    assert(r2[i] == r[i] && r2[i + 1] == r[i + 1]);
                }
            }
        }
    }
}

/// Text without double spaces is left unchanged by `shorten_whitespace`.
pub proof fn law_collapsed_spaces_keeps_clean(s: Seq<char>)
    requires
        no_double_space(s),
    ensures
        collapsed_spaces(s) == s,
    decreases s.len(),
{
    if s.len() > 0 {
        let t = s.drop_last();
        assert(no_double_space(t)) by {
            assert forall|i: int| 0 <= i < t.len() - 1 implies !(#[trigger] t[i] == ' ' && t[i
                + 1] == ' ') by {
                assert(t[i] == s[i] && t[i + 1] == s[i + 1]);
            }
        }
        law_collapsed_spaces_keeps_clean(t);
        if s.len() >= 2 {
            assert(!(s[s.len() - 2] == ' ' && s[s.len() - 1] == ' '));
        }
        assert(t.push(s.last()) == s);
    }
}

/// `shorten_whitespace` is idempotent.
pub proof fn law_shorten_whitespace_idempotent(s: Seq<char>)
    ensures
        collapsed_spaces(collapsed_spaces(s)) == collapsed_spaces(s),
{
    law_collapsed_spaces_has_no_double_space(s);
    law_collapsed_spaces_keeps_clean(collapsed_spaces(s));
}

/// `shorten_whitespace` introduces no line break.
pub proof fn law_collapsed_spaces_keeps_no_line_break(s: Seq<char>)
    requires
        no_line_break(s),
    ensures
        no_line_break(collapsed_spaces(s)),
    decreases s.len(),
{
    if s.len() > 0 {
        let t = s.drop_last();
        assert(no_line_break(t)) by {
            assert forall|i: int| 0 <= i < t.len() implies !is_line_break(#[trigger] t[i]) by {
                assert(t[i] == s[i]);
            }
        }
        law_collapsed_spaces_keeps_no_line_break(t);
        assert(!is_line_break(s[s.len() - 1]));
    }
}

/// Text cleaned by `remove_newlines` and then `shorten_whitespace` has neither
/// line breaks nor double spaces.
pub proof fn law_cleaned_text(s: Seq<char>)
    ensures
        no_line_break(collapsed_spaces(without_line_breaks(s))),
        no_double_space(collapsed_spaces(without_line_breaks(s))),
{
    law_without_line_breaks_has_none(s);
    law_collapsed_spaces_keeps_no_line_break(without_line_breaks(s));
    law_collapsed_spaces_has_no_double_space(without_line_breaks(s));
}

proof fn lemma_trim_start_shape(s: Seq<char>)
    ensures
        exists|i: int|
            0 <= i <= s.len() && trim_start(s) == s.skip(i) && (forall|k: int|
                0 <= k < i ==> is_white_space(#[trigger] s[k])) && (i < s.len() ==> !is_white_space(
                s[i],
            )),
    decreases s.len(),
{
    if s.len() > 0 && is_white_space(s[0]) {
        lemma_trim_start_shape(s.drop_first());
        let i = choose|i: int|
            0 <= i <= s.drop_first().len() && trim_start(s.drop_first()) == s.drop_first().skip(i)
                && (forall|k: int| 0 <= k < i ==> is_white_space(#[trigger] s.drop_first()[k])) && (i
                < s.drop_first().len() ==> !is_white_space(s.drop_first()[i]));
        assert(s.drop_first().skip(i) == s.skip(i + 1));
        assert forall|k: int| 0 <= k < i + 1 implies is_white_space(#[trigger] s[k]) by {
            if k > 0 {
                assert(s[k] == s.drop_first()[k - 1]);
            }
        }
        if i + 1 < s.len() {
            assert(s[i + 1] == s.drop_first()[i]);
        }
    } else {
        assert(s.skip(0) == s);
    }
}

proof fn lemma_trim_end_shape(s: Seq<char>)
    ensures
        exists|j: int|
            0 <= j <= s.len() && trim_end(s) == s.take(j) && (forall|k: int|
                j <= k < s.len() ==> is_white_space(#[trigger] s[k])) && (j > 0 ==> !is_white_space(
                s[j - 1],
            )),
    decreases s.len(),
{
    if s.len() > 0 && is_white_space(s.last()) {
        lemma_trim_end_shape(s.drop_last());
        let j = choose|j: int|
            0 <= j <= s.drop_last().len() && trim_end(s.drop_last()) == s.drop_last().take(j)
                && (forall|k: int| j <= k < s.drop_last().len() ==> is_white_space(#[trigger] s.drop_last()[k]))
                && (j > 0 ==> !is_white_space(s.drop_last()[j - 1]));
        assert(s.drop_last().take(j) == s.take(j));
        assert forall|k: int| j <= k < s.len() implies is_white_space(#[trigger] s[k]) by {
            if k < s.len() - 1 {
                assert(s[k] == s.drop_last()[k]);
            }
        }
        if j > 0 {
            assert(s[j - 1] == s.drop_last()[j - 1]);
        }
    } else {
        assert(s.take(s.len() as int) == s);
    }
}

/// Trimming keeps a contiguous middle piece of the text: everything cut off
/// before and after it is white space, and the piece neither starts nor ends
/// with white space.
pub proof fn law_trimmed_is_middle_piece(s: Seq<char>)
    ensures
        exists|i: int, j: int|
            0 <= i <= j <= s.len() && trimmed(s) == s.subrange(i, j) && (forall|k: int|
                0 <= k < i ==> is_white_space(#[trigger] s[k])) && (forall|k: int|
                j <= k < s.len() ==> is_white_space(#[trigger] s[k])),
        trimmed(s).len() > 0 ==> !is_white_space(trimmed(s)[0]) && !is_white_space(trimmed(s).last()),
{
    lemma_trim_start_shape(s);
    let i = choose|i: int|
        0 <= i <= s.len() && trim_start(s) == s.skip(i) && (forall|k: int|
            0 <= k < i ==> is_white_space(#[trigger] s[k])) && (i < s.len() ==> !is_white_space(s[i]));
    let t = s.skip(i);
    lemma_trim_end_shape(t);
    let j = choose|j: int|
        0 <= j <= t.len() && trim_end(t) == t.take(j) && (forall|k: int|
            j <= k < t.len() ==> is_white_space(#[trigger] t[k])) && (j > 0 ==> !is_white_space(t[j - 1]));
    assert(t.take(j) == s.subrange(i, i + j));
    assert forall|k: int| i + j <= k < s.len() implies is_white_space(#[trigger] s[k]) by {
        assert(s[k] == t[k - i]);
    }
    if j > 0 {
        assert(trimmed(s)[0] == s[i]);
        assert(trimmed(s).last() == t[j - 1]);
    }
}

/// The pieces joined back together with `sep` between them.
pub open spec fn joined(pieces: Seq<Seq<char>>, sep: char) -> Seq<char>
    decreases pieces.len(),
{
    if pieces.len() <= 1 {
        if pieces.len() == 1 {
            pieces[0]
        } else {
            Seq::empty()
        }
    } else {
        joined(pieces.drop_last(), sep) + seq![sep] + pieces.last()
    }
}

/// Splitting at `sep` cuts the text at every `sep` and nowhere else: no
/// piece holds `sep`, and the pieces joined back with `sep` give the text.
pub proof fn law_split_pieces_join_back(s: Seq<char>, sep: char)
    ensures
        joined(split_on(s, sep), sep) == s,
        forall|i: int, k: int|
            0 <= i < split_on(s, sep).len() && 0 <= k < split_on(s, sep)[i].len() ==> #[trigger] split_on(
                s,
                sep,
            )[i][k] != sep,
    decreases s.len(),
{
    if s.len() == 0 {
        assert(joined(seq![Seq::<char>::empty()], sep) == Seq::<char>::empty());
    } else {
        let d = s.drop_last();
        let r = split_on(d, sep);
        law_split_pieces_join_back(d, sep);
        lemma_split_on_nonempty(d, sep);
        let t = split_on(s, sep);
        if s.last() == sep {
            assert(t == r.push(Seq::<char>::empty()));
            assert(t.drop_last() == r);
            assert(joined(t, sep) == d + seq![sep] + Seq::<char>::empty());
            assert(d.push(sep) == s);
            assert forall|i: int, k: int| 0 <= i < t.len() && 0 <= k < t[i].len() implies #[trigger] t[i][k] != sep by {
                assert(t[i] == r[i]);
            }
        } else {
            let x = r.last().push(s.last());
            assert(t == r.update(r.len() - 1, x));
            if r.len() == 1 {
                assert(joined(t, sep) == x);
                assert(joined(r, sep) == r[0]);
            } else {
                assert(t.drop_last() == r.drop_last());
                assert(joined(t, sep) == joined(r.drop_last(), sep) + seq![sep] + x);
                assert(joined(r, sep) == joined(r.drop_last(), sep) + seq![sep] + r.last());
            }
            assert(d.push(s.last()) == s);
            assert forall|i: int, k: int| 0 <= i < t.len() && 0 <= k < t[i].len() implies #[trigger] t[i][k] != sep by {
                if i < r.len() - 1 {
                    assert(t[i] == r[i]);
                } else if k < r.last().len() {
                    assert(t[i][k] == r[r.len() - 1][k]);
                }
            }
        }
    }
}

} // verus!
