use vstd::prelude::*;

use crate::text::{split_chars, split_on, slice_chars, chars_equal};

verus! {

/// A path component that `Path::components` keeps as a named component: not
/// empty (repeated or trailing `/`) and not `"."`.
pub open spec fn is_named_segment(seg: Seq<char>) -> bool {
    seg.len() > 0 && seg != seq!['.']
}

/// The last named component among `segs`.
pub open spec fn last_named_segment(segs: Seq<Seq<char>>) -> Option<Seq<char>>
    decreases segs.len(),
{
    if segs.len() == 0 {
        None
    } else if is_named_segment(segs.last()) {
        Some(segs.last())
    } else {
        last_named_segment(segs.drop_last())
    }
}

/// The final component of a `/`-separated path, as `Path::file_name` gives it:
/// trailing separators and `"."` components are skipped, and there is none when
/// the path ends in `".."` or has no named component at all.
pub open spec fn file_name(p: Seq<char>) -> Option<Seq<char>> {
    match last_named_segment(split_on(p, '/')) {
        Some(seg) => if seg == seq!['.', '.'] {
            None
        } else {
            Some(seg)
        },
        None => None,
    }
}

/// The position of the last `'.'` in `s`.
pub open spec fn last_dot(s: Seq<char>) -> Option<int>
    decreases s.len(),
{
    if s.len() == 0 {
        None
    } else if s.last() == '.' {
        Some(s.len() - 1)
    } else {
        last_dot(s.drop_last())
    }
}

/// The extension of a file name, as `Path::extension` defines it: what follows
/// the final `'.'`, unless there is no `'.'` or the only leading part is empty
/// (a name like `".profile"`).
pub open spec fn name_extension(name: Seq<char>) -> Option<Seq<char>> {
    if name == seq!['.', '.'] {
        None
    } else {
        match last_dot(name) {
            Some(i) => if i == 0 {
                None
            } else {
                Some(name.skip(i + 1))
            },
            None => None,
        }
    }
}

/// The extension of the path `p`, as `Path::new(p).extension()` gives it.
pub open spec fn path_extension(p: Seq<char>) -> Option<Seq<char>> {
    match file_name(p) {
        Some(name) => name_extension(name),
        None => None,
    }
}

fn is_named(seg: &Vec<char>) -> (b: bool)
    ensures
        b == is_named_segment(seg@),
{
    if seg.len() == 0 {
        return false;
    }
    if seg.len() == 1 && seg[0] == '.' {
        assert(seg@ =~= seq!['.']);
        return false;
    }
    proof {
        if seg@ == seq!['.'] {
            assert(seg@[0] == '.');
        }
    }
    true
}

/// Computes `file_name`.
pub fn file_name_of(p: &[char]) -> (r: Option<Vec<char>>)
    ensures
        r matches Some(v) ==> file_name(p@) == Some(v@),
        r is None ==> file_name(p@) is None,
{
    let segs = split_chars(p, '/');
    let ghost all = split_on(p@, '/');
    let mut n = segs.len();
    assert(segs@.map_values(|v: Vec<char>| v@) =~= all);
    assert(all.take(n as int) == all);
    while n > 0 && !is_named(&segs[n - 1])
        invariant
            n <= segs@.len(),
            segs@.len() == all.len(),
            forall|i: int| 0 <= i < segs@.len() ==> #[trigger] segs@[i]@ == all[i],
            last_named_segment(all) == last_named_segment(all.take(n as int)),
        decreases n,
    {
        assert(all.take(n as int).drop_last() == all.take(n - 1));
        n = n - 1;
    }
    if n == 0 {
        return None;
    }
    assert(all.take(n as int).last() == all[n - 1]);
    let seg = slice_chars(&segs[n - 1], 0, segs[n - 1].len());
    assert(seg@ == segs@[n - 1]@);
    let dots: [char; 2] = ['.', '.'];
    if chars_equal(&seg, &dots) {
        assert(dots@ =~= seq!['.', '.']);
        None
    } else {
        assert(dots@ =~= seq!['.', '.']);
        Some(seg)
    }
}

/// Computes `name_extension`.
pub fn name_extension_of(name: &[char]) -> (r: Option<Vec<char>>)
    ensures
        r matches Some(v) ==> name_extension(name@) == Some(v@),
        r is None ==> name_extension(name@) is None,
{
    let dots: [char; 2] = ['.', '.'];
    assert(dots@ =~= seq!['.', '.']);
    if chars_equal(name, &dots) {
        return None;
    }
    let mut n = name.len();
    assert(name@.take(n as int) == name@);
    while n > 0 && name[n - 1] != '.'
        invariant
            n <= name@.len(),
            last_dot(name@) == last_dot(name@.take(n as int)),
        decreases n,
    {
        assert(name@.take(n as int).drop_last() == name@.take(n - 1));
        n = n - 1;
    }
    if n == 0 {
        return None;
    }
    assert(name@.take(n as int).last() == name@[n - 1]);
    if n - 1 == 0 {
        return None;
    }
    Some(slice_chars(name, n, name.len()))
}

/// Computes `path_extension`, as `Path::new(p).extension()` does.
pub fn path_extension_of(p: &[char]) -> (r: Option<Vec<char>>)
    ensures
        r matches Some(v) ==> path_extension(p@) == Some(v@),
        r is None ==> path_extension(p@) is None,
{
    match file_name_of(p) {
        Some(name) => name_extension_of(&name),
        None => None,
    }
}

} // verus!
