use vstd::prelude::*;

use crate::paths::{file_name, file_name_of, last_named_segment, path_extension, path_extension_of};
use crate::text::{append_chars, chars_of, lemma_split_on_nonempty, slice_chars, split_on, string_of};

verus! {

/// What `Path::new(a).join(b)` gives on Unix, read as text: a `b` that starts
/// with `/` replaces `a`; otherwise `b` follows `a`, with a `/` between them
/// unless `a` is empty or already ends with `/`.
pub open spec fn path_join(a: Seq<char>, b: Seq<char>) -> Seq<char> {
    if b.len() > 0 && b[0] == '/' {
        b
    } else if a.len() > 0 && a.last() != '/' {
        a + seq!['/'] + b
    } else {
        a + b
    }
}

/// What `Path::new(p).parent()` gives on Unix, read as text.
pub uninterp spec fn path_parent(p: Seq<char>) -> Option<Seq<char>>;

/// What `Path::new(p).strip_prefix("/")` gives on Unix, read as text.
pub uninterp spec fn path_without_root(p: Seq<char>) -> Seq<char>;

/// `p` without one final `/`, if it has one.
pub open spec fn without_trailing_slash(p: Seq<char>) -> Seq<char> {
    if p.len() > 0 && p.last() == '/' {
        p.drop_last()
    } else {
        p
    }
}

/// A URL path without its root that names a kept page plainly: empty (the
/// root page), or a plain path with at most one final `/`.
pub open spec fn kept_path(q: Seq<char>) -> bool {
    q.len() == 0 || plain_path(without_trailing_slash(q))
}

/// A component of a plain path: not empty, not `.` and not `..`.
pub open spec fn is_plain_segment(seg: Seq<char>) -> bool {
    seg.len() > 0 && seg != seq!['.'] && seg != seq!['.', '.']
}

/// A relative path whose `/`-separated pieces are all plain components: no
/// leading, trailing or doubled `/`, and no `.` or `..` component.
pub open spec fn plain_path(p: Seq<char>) -> bool {
    &&& p.len() > 0
    &&& p[0] != '/'
    &&& forall|i: int| 0 <= i < split_on(p, '/').len() ==> is_plain_segment(#[trigger] split_on(p, '/')[i])
}

/// The position of the last occurrence of `c` in `s`.
pub open spec fn last_index(s: Seq<char>, c: char) -> Option<int>
    decreases s.len(),
{
    if s.len() == 0 {
        None
    } else if s.last() == c {
        Some(s.len() - 1)
    } else {
        last_index(s.drop_last(), c)
    }
}

/// A plain path without its last component (empty for a single component).
pub open spec fn parent_of_plain(p: Seq<char>) -> Seq<char> {
    match last_index(p, '/') {
        Some(k) => p.take(k),
        None => Seq::empty(),
    }
}

/// The last component of a plain path.
pub open spec fn last_segment(p: Seq<char>) -> Seq<char> {
    match last_index(p, '/') {
        Some(k) => p.skip(k + 1),
        None => p,
    }
}

/// Joins two paths as `Path::join` does on Unix.
pub fn join_paths(a: &str, b: &str) -> (r: String)
    ensures
        r@ == path_join(a@, b@),
{
    let av = chars_of(a);
    let bv = chars_of(b);
    if bv.len() > 0 && bv[0] == '/' {
        return string_of(&bv);
    }
    let mut v = av;
    if v.len() > 0 && v[v.len() - 1] != '/' {
        v.push('/');
    }
    append_chars(&mut v, &bv);
    string_of(&v)
}

/// Calls `Path::parent`. The contract states that the result is
/// `path_parent(p)`, and, as the documentation of `Path::parent` gives it
/// ("the path without its final component", `Some("")` for a relative path of
/// one component; a final `/` ends no component), that a plain path, with or
/// without one final `/`, has as parent the text before its last inner `/`.
#[verifier::external_body]
fn parent_path(p: &str) -> (r: Option<String>)
    ensures
        r matches Some(s) ==> path_parent(p@) == Some(s@),
        r is None ==> path_parent(p@) is None,
        r is None ==> !plain_path(without_trailing_slash(p@)),
        r matches Some(s) ==> (plain_path(without_trailing_slash(p@)) ==> s@ == parent_of_plain(
            without_trailing_slash(p@),
        )),
{
    std::path::Path::new(p).parent().map(|q| q.to_string_lossy().into_owned())
}

/// Calls `Path::strip_prefix("/")` on a path that starts with `/`, which
/// therefore has the root as its first component and so the prefix. The
/// contract states that the result is `path_without_root(p)`, and, as the
/// documentation of `Path::strip_prefix` shows it (`"/test/haha/foo.txt"`
/// gives `"test/haha/foo.txt"`, and the remaining components make up the
/// result, so a final `/` ends none), that `"/"` leaves the empty path and
/// that the root followed by a plain path, with or without one final `/`,
/// leaves that plain path.
#[verifier::external_body]
fn strip_root(p: &str) -> (r: String)
    requires
        p@.len() > 0 && p@[0] == '/',
    ensures
        r@ == path_without_root(p@),
        p@.len() == 1 ==> r@ == Seq::<char>::empty(),
        plain_path(without_trailing_slash(p@.skip(1))) ==> r@ == without_trailing_slash(p@.skip(1)),
{
    std::path::Path::new(p).strip_prefix("/").unwrap().to_string_lossy().into_owned()
}

/// `"index.html"`
pub open spec fn index_file() -> Seq<char> {
    seq!['i', 'n', 'd', 'e', 'x', '.', 'h', 't', 'm', 'l']
}

fn index_file_name() -> (r: String)
    ensures
        r@ == index_file(),
{
    let v: [char; 10] = ['i', 'n', 'd', 'e', 'x', '.', 'h', 't', 'm', 'l'];
    assert(v@ =~= index_file());
    string_of(&v)
}

/// The directory and the file of a resource path: a path with an extension
/// names a file (then its parent is the directory), any other path a
/// directory holding `index.html`.
pub open spec fn page_parts(resource: Seq<char>) -> (Seq<char>, Seq<char>) {
    if path_extension(resource) is Some {
        (
            match path_parent(resource) {
                Some(p) => p,
                None => Seq::empty(),
            },
            file_name(resource)->0,
        )
    } else {
        (resource, index_file())
    }
}

/// Where a page is stored below `root`: the directory and the file. The URL
/// path without its leading `/` names a file when it has an extension (then
/// its parent is the directory), and a directory holding `index.html`
/// otherwise.
pub open spec fn stored_page(root: Seq<char>, domain: Seq<char>, url_path: Seq<char>) -> (
    Seq<char>,
    Seq<char>,
) {
    let parts = page_parts(url_path.skip(1));
    let dir = parts.0;
    let file = parts.1;
    let save_dir = path_join(path_join(root, domain), dir);
    (save_dir, path_join(save_dir, file))
}

/// Downloads pages and, when given a directory, keeps a copy of each below it.
pub struct HtmlDownloader {
    pub download_path: Option<String>,
}

impl HtmlDownloader {
    /// A downloader that keeps copies below `download_path`, if given.
    pub fn new(download_path: Option<&str>) -> (r: HtmlDownloader)
        ensures
            r.download_path.deep_view() == download_path.deep_view(),
    {
        HtmlDownloader {
            download_path: match download_path {
                Some(p) => Some(p.to_owned()),
                None => None,
            },
        }
    }

    /// The directory to create and the file to write for a page of `domain`
    /// with path `url_path`; `None` when no copies are kept. For the root page
    /// and for a URL path made of the root and a plain path (with or without
    /// one final `/`), the file is the one that a loader searching the same
    /// directory reads for that URL path.
    pub fn save_location(&self, domain: &str, url_path: &str) -> (r: Option<(String, String)>)
        requires
            url_path@.len() > 0 && url_path@[0] == '/',
        ensures
            match self.download_path {
                Some(root) => r matches Some(loc) && (loc.0@, loc.1@) == stored_page(
                    root@,
                    domain@,
                    url_path@,
                ),
                None => r is None,
            },
            self.download_path matches Some(root) ==> (kept_path(url_path@.skip(1)) ==> (r matches Some(
                loc,
            ) && loc.1@ == found_page(Some(root@), domain@, without_trailing_slash(url_path@.skip(1))))),
    {
        let root = match &self.download_path {
            Some(root) => root,
            None => {
                return None;
            },
        };
        let p = chars_of(url_path);
        let resource = slice_chars(&p, 1, p.len());
        assert(resource@ == url_path@.skip(1));
        let resource_s = string_of(&resource);
        let (dir, file) = match path_extension_of(&resource) {
            Some(_) => {
                let dir = match parent_path(resource_s.as_str()) {
                    Some(d) => d,
                    None => string_of(&[]),
                };
                let file = match file_name_of(&resource) {
                    Some(f) => string_of(&f),
                    None => string_of(&[]),
                };
                (dir, file)
            },
            None => (resource_s, index_file_name()),
        };
        assert(dir@ == page_parts(resource@).0);
        assert(file@ == page_parts(resource@).1);
        let with_domain = join_paths(root.as_str(), domain);
        let save_dir = join_paths(with_domain.as_str(), dir.as_str());
        let target = join_paths(save_dir.as_str(), file.as_str());
        proof {
            if kept_path(resource@) {
                law_kept_page_is_found(root@, domain@, resource@);
            }
        }
        Some((save_dir, target))
    }
}

/// The file that holds the page whose URL path, without its root, is `dir`:
/// below `root` (or `downloads`), the domain and `dir`, and `index.html` when
/// `dir` has no extension.
pub open spec fn found_page(root: Option<Seq<char>>, domain: Seq<char>, dir: Seq<char>) -> Seq<char> {
    let base = match root {
        Some(r) => r,
        None => seq!['d', 'o', 'w', 'n', 'l', 'o', 'a', 'd', 's'],
    };
    let file = path_join(path_join(base, domain), dir);
    if path_extension(dir) is Some {
        file
    } else {
        path_join(file, index_file())
    }
}

/// Where a stored page of `domain` with path `url_path` is read from: the
/// URL path stripped of its root, as a path, below `root` (or `downloads`).
pub open spec fn page_file(root: Option<Seq<char>>, domain: Seq<char>, url_path: Seq<char>) -> Seq<
    char,
> {
    found_page(root, domain, path_without_root(url_path))
}

proof fn lemma_split_at_last(s: Seq<char>, c: char)
    ensures
        match last_index(s, c) {
            Some(k) => 0 <= k < s.len() && s[k] == c && split_on(s, c) == split_on(s.take(k), c).push(
                s.skip(k + 1),
            ) && forall|j: int| k < j < s.len() ==> s[j] != c,
            None => split_on(s, c) == seq![s] && forall|j: int| 0 <= j < s.len() ==> s[j] != c,
        },
    decreases s.len(),
{
    if s.len() > 0 {
        let d = s.drop_last();
        lemma_split_at_last(d, c);
        if s.last() == c {
            assert(s.take(s.len() - 1) == d);
            assert(s.skip(s.len() as int) == Seq::<char>::empty());
        } else {
            match last_index(d, c) {
                Some(k) => {
                    assert(d.take(k) == s.take(k));
                    assert(d.skip(k + 1).push(s.last()) == s.skip(k + 1));
                    assert forall|j: int| k < j < s.len() implies s[j] != c by {
                        if j < d.len() {
                            assert(s[j] == d[j]);
                        }
                    }
                },
                None => {
                    assert(d.push(s.last()) == s);
                    assert forall|j: int| 0 <= j < s.len() implies s[j] != c by {
                        if j < d.len() {
                            assert(s[j] == d[j]);
                        }
                    }
                },
            }
        }
    } else {
        assert(s =~= Seq::<char>::empty());
    }
}

/// The last component of a plain path is its file name, and the path is its
/// parent, a `/` and that component.
proof fn lemma_plain_parts(r: Seq<char>)
    requires
        plain_path(r),
    ensures
        last_segment(r).len() > 0,
        last_segment(r)[0] != '/',
        r.last() != '/',
        file_name(r) == Some(last_segment(r)),
        last_index(r, '/') is None ==> last_segment(r) == r,
        last_index(r, '/') is Some ==> {
            &&& parent_of_plain(r).len() > 0
            &&& parent_of_plain(r)[0] != '/'
            &&& parent_of_plain(r).last() != '/'
            &&& r == parent_of_plain(r) + seq!['/'] + last_segment(r)
        },
{
    let segs = split_on(r, '/');
    lemma_split_at_last(r, '/');
    lemma_split_on_nonempty(r, '/');
    assert(segs.last() == last_segment(r));
    assert(is_plain_segment(segs[segs.len() - 1]));
    match last_index(r, '/') {
        Some(k) => {
            assert(last_segment(r)[0] == r[k + 1]);
            assert(r.last() == r[r.len() - 1]);
            let a = r.take(k);
            assert(k > 0);
            let sa = split_on(a, '/');
            lemma_split_on_nonempty(a, '/');
            assert(sa.last() == segs[sa.len() - 1]);
            assert(is_plain_segment(segs[sa.len() - 1]));
            if a.last() == '/' {
                assert(sa == split_on(a.drop_last(), '/').push(Seq::<char>::empty()));
            }
            assert(a[0] == r[0]);
            assert(r == a + seq!['/'] + r.skip(k + 1));
        },
        None => {},
    }
}

proof fn lemma_join_assoc(x: Seq<char>, a: Seq<char>, n: Seq<char>)
    requires
        a.len() > 0,
        a[0] != '/',
        a.last() != '/',
        n.len() > 0,
        n[0] != '/',
    ensures
        path_join(path_join(x, a), n) == path_join(x, a + seq!['/'] + n),
{
    let j = path_join(x, a);
    assert(j.len() > 0 && j.last() == a.last());
    assert((a + seq!['/'] + n)[0] == a[0]);
    if x.len() > 0 && x.last() != '/' {
        assert(x + seq!['/'] + a + seq!['/'] + n == x + seq!['/'] + (a + seq!['/'] + n));
    } else {
        assert(x + a + seq!['/'] + n == x + (a + seq!['/'] + n));
    }
}

proof fn lemma_join_empty(x: Seq<char>, n: Seq<char>)
    requires
        n.len() > 0,
        n[0] != '/',
    ensures
        path_join(path_join(x, Seq::empty()), n) == path_join(x, n),
{
    let j = path_join(x, Seq::empty());
    if x.len() > 0 && x.last() != '/' {
        assert(j == x + seq!['/']);
        assert(j + n == x + seq!['/'] + n);
    } else {
        assert(j == x);
    }
}

proof fn lemma_join_trailing(x: Seq<char>, r: Seq<char>, n: Seq<char>)
    requires
        r.len() > 0,
        r[0] != '/',
        r.last() != '/',
        n.len() > 0,
        n[0] != '/',
    ensures
        path_join(path_join(x, r.push('/')), n) == path_join(path_join(x, r), n),
{
    let j = path_join(x, r);
    assert(r.push('/')[0] == r[0]);
    if x.len() > 0 && x.last() != '/' {
        assert(path_join(x, r.push('/')) == j.push('/'));
    } else {
        assert(path_join(x, r.push('/')) == j.push('/'));
    }
    assert(j.len() > 0 && j.last() == r.last());
    assert(j.push('/') + n == j + seq!['/'] + n);
}

/// A final `/` changes neither the file name nor the extension of a path.
proof fn lemma_trailing_slash_name(r: Seq<char>)
    ensures
        file_name(r.push('/')) == file_name(r),
        path_extension(r.push('/')) == path_extension(r),
{
    assert(r.push('/').drop_last() == r);
    lemma_split_on_nonempty(r, '/');
    assert(split_on(r.push('/'), '/').drop_last() == split_on(r, '/'));
}

/// A downloader keeps a page in the file that a loader searching the same
/// root reads for it, for the root page and for a URL path whose part after
/// the root `q` is a plain path `r` with or without one final `/`: for a path
/// with an extension, the parent of `r` joined with the last component of
/// `r`; otherwise `q` joined with `index.html`.
pub proof fn law_kept_page_is_found(root: Seq<char>, domain: Seq<char>, q: Seq<char>)
    requires
        kept_path(q),
    ensures
        path_extension(q) == path_extension(without_trailing_slash(q)),
        path_extension(q) is Some ==> file_name(q) == Some(last_segment(without_trailing_slash(q)))
            && path_join(
            path_join(path_join(root, domain), parent_of_plain(without_trailing_slash(q))),
            last_segment(without_trailing_slash(q)),
        ) == found_page(Some(root), domain, without_trailing_slash(q)),
        path_extension(q) is None ==> path_join(path_join(path_join(root, domain), q), index_file())
            == found_page(Some(root), domain, without_trailing_slash(q)),
{
    let r = without_trailing_slash(q);
    let x = path_join(root, domain);
    if q.len() > 0 && q.last() == '/' {
        assert(r.push('/') == q);
        lemma_trailing_slash_name(r);
    }
    if q.len() > 0 {
        lemma_plain_parts(r);
        if q.last() == '/' {
            lemma_join_trailing(x, r, index_file());
        }
        match last_index(r, '/') {
            Some(k) => {
                lemma_join_assoc(x, parent_of_plain(r), last_segment(r));
            },
            None => {
                lemma_join_empty(x, r);
            },
        }
    } else {
        let segs = split_on(q, '/');
        assert(segs == seq![Seq::<char>::empty()]);
        assert(last_named_segment(segs.drop_last()) is None);
        assert(last_named_segment(segs) is None);
    }
}

/// Reads pages stored by a downloader instead of fetching them.
pub struct HtmLoaderFS {
    pub search_path: Option<String>,
}

impl HtmLoaderFS {
    /// A loader that reads pages below `search_path`, or below `downloads`.
    pub fn new(search_path: Option<&str>) -> (r: HtmLoaderFS)
        ensures
            r.search_path.deep_view() == search_path.deep_view(),
    {
        HtmLoaderFS {
            search_path: match search_path {
                Some(p) => Some(p.to_owned()),
                None => None,
            },
        }
    }

    /// The file holding the page of `domain` with path `url_path`.
    pub fn page_location(&self, domain: &str, url_path: &str) -> (r: String)
        requires
            url_path@.len() > 0 && url_path@[0] == '/',
        ensures
            r@ == page_file(self.search_path.deep_view(), domain@, url_path@),
            kept_path(url_path@.skip(1)) ==> r@ == found_page(
                self.search_path.deep_view(),
                domain@,
                without_trailing_slash(url_path@.skip(1)),
            ),
    {
        let dir = strip_root(url_path);
        proof {
            if url_path@.len() == 1 {
                assert(url_path@.skip(1) =~= Seq::<char>::empty());
            }
        }
        let downloads: [char; 9] = ['d', 'o', 'w', 'n', 'l', 'o', 'a', 'd', 's'];
        assert(downloads@ =~= seq!['d', 'o', 'w', 'n', 'l', 'o', 'a', 'd', 's']);
        let base = match &self.search_path {
            Some(r) => r.clone(),
            None => string_of(&downloads),
        };
        let with_domain = join_paths(base.as_str(), domain);
        let file = join_paths(with_domain.as_str(), dir.as_str());
        let dv = chars_of(dir.as_str());
        match path_extension_of(&dv) {
            Some(_) => file,
            None => join_paths(file.as_str(), index_file_name().as_str()),
        }
    }
}

} // verus!
