use vstd::prelude::*;

use crate::paths::{path_extension, path_extension_of};
use url::ParseError as UrlParseError;
use crate::text::{
    before_pattern, before_pattern_chars, chars_equal, chars_of, first_occurrence_from, has_prefix, occurs_at, starts_with,
    string_of, strip_line_ending, trim_chars, trim_end_char, trim_end_matches_char, trimmed,
    without_line_ending,
};

verus! {

/// The parts of a parsed URL that the link rules read: its serialization, its
/// scheme, its domain (absent for IP hosts and host-less URLs) and its path.
pub struct UrlParts {
    pub text: Seq<char>,
    pub scheme: Seq<char>,
    pub domain: Option<Seq<char>>,
    pub path: Seq<char>,
}

/// What `url::Url::parse` gives for `input`: `None` when it refuses the input,
/// else the serialization, scheme, domain and path of the parsed URL.
pub uninterp spec fn url_parse(input: Seq<char>) -> Option<UrlParts>;

/// What `url::Url::set_path(path)` leaves in the URL obtained by parsing the
/// serialization `base`.
pub uninterp spec fn url_set_path(base: Seq<char>, path: Seq<char>) -> UrlParts;

/// The `href` attribute of each `<a>` element of an HTML document, in document
/// order, as the `select` crate finds them (`None` for an anchor without one).
pub uninterp spec fn anchor_hrefs(html: Seq<char>) -> Seq<Option<Seq<char>>>;

/// A URL accepted by `url::Url::parse`, held by its parts.
pub struct WebUrl {
    text: String,
    scheme: String,
    domain: Option<String>,
    path: String,
}

/// The parts of a URL as plain strings, such as `url::Url::set_path` leaves
/// them; unlike a `WebUrl`, its serialization need not parse back to itself.
pub struct UrlFields {
    pub text: String,
    pub scheme: String,
    pub domain: Option<String>,
    pub path: String,
}

/// The view of an optional string.
pub open spec fn opt_view(o: Option<String>) -> Option<Seq<char>> {
    match o {
        Some(s) => Some(s@),
        None => None,
    }
}

impl View for UrlFields {
    type V = UrlParts;

    open spec fn view(&self) -> UrlParts {
        UrlParts {
            text: self.text@,
            scheme: self.scheme@,
            domain: opt_view(self.domain),
            path: self.path@,
        }
    }
}

impl View for WebUrl {
    type V = UrlParts;

    closed spec fn view(&self) -> UrlParts {
        UrlParts {
            text: self.text@,
            scheme: self.scheme@,
            domain: opt_view(self.domain),
            path: self.path@,
        }
    }
}

/// A serialization that `url::Url::parse` reads back to the same serialization.
pub open spec fn is_url_serialization(text: Seq<char>) -> bool {
    url_parse(text) matches Some(p) && p.text == text
}

impl WebUrl {
    /// The serialization of a URL parses back to itself.
    #[verifier::type_invariant]
    closed spec fn reparses(self) -> bool {
        is_url_serialization(self.text@)
    }

    /// Parses `input` as a URL, as `url::Url::parse` does.
    pub fn parse(input: &str) -> (r: Option<WebUrl>)
        ensures
            r matches Some(u) ==> url_parse(input@) == Some(u@),
            r is None ==> url_parse(input@) is None,
    {
        match parse_url(input) {
            Ok(u) => Some(u),
            Err(_) => None,
        }
    }

    /// The serialization.
    pub fn as_str(&self) -> (r: &str)
        ensures
            r@ == self@.text,
    {
        self.text.as_str()
    }

    /// The scheme.
    pub fn scheme(&self) -> (r: &str)
        ensures
            r@ == self@.scheme,
    {
        self.scheme.as_str()
    }

    /// The domain, if the host is a domain.
    pub fn domain(&self) -> (r: Option<&str>)
        ensures
            r matches Some(d) ==> self@.domain == Some(d@),
            r is None ==> self@.domain is None,
    {
        match &self.domain {
            Some(d) => Some(d.as_str()),
            None => None,
        }
    }

    /// The path.
    pub fn path(&self) -> (r: &str)
        ensures
            r@ == self@.path,
    {
        self.path.as_str()
    }

    /// The parts of this URL as plain strings.
    pub fn fields(&self) -> (r: UrlFields)
        ensures
            r@ == self@,
    {
        UrlFields {
            text: self.text.clone(),
            scheme: self.scheme.clone(),
            domain: match &self.domain {
                Some(d) => Some(d.clone()),
                None => None,
            },
            path: self.path.clone(),
        }
    }

    /// This URL with its path replaced by `path`, as `url::Url::set_path` does.
    pub fn with_path(&self, path: &str) -> (r: UrlFields)
        ensures
            r@ == url_set_path(self@.text, path@),
    {
        proof {
            use_type_invariant(self);
        }
        url_with_path(self, path)
    }
}

/// Calls `url::Url::parse` and reads the parts of the result. The contract
/// states that the result is `url_parse(input)` and that the serialization of
/// a parsed URL parses back to the same serialization: an invariant that the
/// methods of `url::Url` assume of every value, which `Url::check_invariants`
/// tests and which the crate's deserializer checks. On failure it hands back
/// the `url::ParseError`, of which the contract states nothing.
#[verifier::external_body]
fn parse_url(input: &str) -> (r: Result<WebUrl, UrlParseError>)
    ensures
        r matches Ok(u) ==> url_parse(input@) == Some(u@) && is_url_serialization(u@.text),
        r is Err ==> url_parse(input@) is None,
{
    match url::Url::parse(input) {
        Ok(u) => Ok(
            WebUrl {
                text: u.as_str().to_string(),
                scheme: u.scheme().to_string(),
                domain: u.domain().map(|d| d.to_string()),
                path: u.path().to_string(),
            },
        ),
        Err(e) => Err(e),
    }
}

/// Parses the serialization of `base` with `url::Url::parse`, which succeeds
/// since that serialization parses back to itself, and replaces its path with
/// `url::Url::set_path`. The contract states that the result is
/// `url_set_path(base, path)`. It says nothing of whether the new
/// serialization parses back to itself: for a URL whose path is opaque (such
/// as `mailto:x`) it need not.
#[verifier::external_body]
fn url_with_path(base: &WebUrl, path: &str) -> (r: UrlFields)
    requires
        is_url_serialization(base@.text),
    ensures
        r@ == url_set_path(base@.text, path@),
{
    let mut u = url::Url::parse(base.text.as_str()).unwrap();
    u.set_path(path);
    UrlFields {
        text: u.as_str().to_string(),
        scheme: u.scheme().to_string(),
        domain: u.domain().map(|d| d.to_string()),
        path: u.path().to_string(),
    }
}

/// Parses `html` with `select::document::Document::from` and reads the `href`
/// attribute of every node that `find(Name("a"))` yields. The contract states
/// that the result is `anchor_hrefs(html)`.
#[verifier::external_body]
fn document_anchor_hrefs(html: &str) -> (r: Vec<Option<String>>)
    ensures
        r@.map_values(|o: Option<String>| opt_view(o)) == anchor_hrefs(html@),
{
    let document = select::document::Document::from(html);
    document.find(select::predicate::Name("a")).map(|node| node.attr("href").map(|h| h.to_string())).collect()
}

// ---------------------------------------------------------------------------
// Link extraction rules
// ---------------------------------------------------------------------------

/// The URL an `href` points to: a path starting with `/` replaces the path of
/// the base URL; anything else is parsed as an absolute URL.
pub open spec fn link_target(href: Seq<char>, base: UrlParts) -> Option<UrlParts> {
    if href.len() == 0 {
        None
    } else if href[0] == '/' {
        Some(url_set_path(base.text, href))
    } else {
        url_parse(href)
    }
}

/// A link is followed when it has a domain, its path has no extension or the
/// extension `html` or `htm`, its scheme is `http` or `https`, it lies under
/// the base URL and under none of the excluded prefixes.
pub open spec fn link_accepted(u: UrlParts, base: UrlParts, excluded: Seq<Seq<char>>) -> bool {
    &&& u.domain is Some
    &&& (path_extension(u.path) matches Some(ext) ==> ext == seq!['h', 't', 'm', 'l'] || ext
        == seq!['h', 't', 'm'])
    &&& (u.scheme == seq!['h', 't', 't', 'p', 's'] || u.scheme == seq!['h', 't', 't', 'p'])
    &&& has_prefix(u.text, base.text)
    &&& forall|k: int| 0 <= k < excluded.len() ==> !has_prefix(u.text, #[trigger] excluded[k])
}

/// A followed link without its query (cut at the first `?` or `%3F`), without a
/// final line ending and without trailing `/`.
pub open spec fn cleaned_link(text: Seq<char>) -> Seq<char> {
    trim_end_char(
        without_line_ending(before_pattern(before_pattern(text, seq!['?']), seq!['%', '3', 'F'])),
        '/',
    )
}

/// Adds `u` unless a URL with the same serialization is already present.
pub open spec fn insert_link(found: Seq<UrlParts>, u: UrlParts) -> Seq<UrlParts> {
    if exists|i: int| 0 <= i < found.len() && (#[trigger] found[i]).text == u.text {
        found
    } else {
        found.push(u)
    }
}

/// The links found among the `hrefs`, in order of first appearance; `Err`
/// when a cleaned link is refused by the URL parser.
pub open spec fn links_found(
    hrefs: Seq<Option<Seq<char>>>,
    base: UrlParts,
    excluded: Seq<Seq<char>>,
) -> Result<Seq<UrlParts>, ()>
    decreases hrefs.len(),
{
    if hrefs.len() == 0 {
        Ok(Seq::empty())
    } else {
        match links_found(hrefs.drop_last(), base, excluded) {
            Err(()) => Err(()),
            Ok(found) => match hrefs.last() {
                None => Ok(found),
                Some(href) => match link_target(href, base) {
                    None => Ok(found),
                    Some(u) => if !link_accepted(u, base, excluded) {
                        Ok(found)
                    } else {
                        match url_parse(cleaned_link(u.text)) {
                            None => Err(()),
                            Some(v) => Ok(insert_link(found, v)),
                        }
                    },
                },
            },
        }
    }
}

/// The error of `url::Url::parse`, carried through unread.
#[verifier::external_type_specification]
#[verifier::external_body]
pub struct ExUrlParseError(UrlParseError);

/// A link that the URL parser refused after the query was cut off, and the
/// parser's reason.
pub struct InvalidLink {
    pub link: String,
    pub reason: UrlParseError,
}

/// Extracts the links of an HTML page that a crawl should follow next.
pub struct LinkParser;

/// The views of a vector of URLs.
pub open spec fn urls_view(v: Seq<WebUrl>) -> Seq<UrlParts> {
    v.map_values(|u: WebUrl| u@)
}

fn has_text(found: &Vec<WebUrl>, text: &[char]) -> (r: bool)
    ensures
        r == exists|i: int| 0 <= i < found@.len() && (#[trigger] found@[i])@.text == text@,
{
    let mut i: usize = 0;
    while i < found.len()
        invariant
            i <= found@.len(),
            forall|j: int| 0 <= j < i ==> (#[trigger] found@[j])@.text != text@,
        decreases found.len() - i,
    {
        let t = chars_of(found[i].as_str());
        if chars_equal(&t, text) {
            return true;
        }
        i = i + 1;
    }
    false
}

fn is_prefix_of_any(excluded: &Vec<String>, text: &[char]) -> (r: bool)
    ensures
        r == exists|k: int| 0 <= k < excluded@.len() && has_prefix(text@, #[trigger] excluded@[k]@),
{
    let mut k: usize = 0;
    while k < excluded.len()
        invariant
            k <= excluded@.len(),
            forall|j: int| 0 <= j < k ==> !has_prefix(text@, #[trigger] excluded@[j]@),
        decreases excluded.len() - k,
    {
        let e = chars_of(excluded[k].as_str());
        if starts_with(text, &e) {
            return true;
        }
        k = k + 1;
    }
    false
}

fn is_html_extension(ext: &Vec<char>) -> (r: bool)
    ensures
        r == (ext@ == seq!['h', 't', 'm', 'l'] || ext@ == seq!['h', 't', 'm']),
{
    let html: [char; 4] = ['h', 't', 'm', 'l'];
    let htm: [char; 3] = ['h', 't', 'm'];
    assert(html@ =~= seq!['h', 't', 'm', 'l']);
    assert(htm@ =~= seq!['h', 't', 'm']);
    chars_equal(ext, &html) || chars_equal(ext, &htm)
}

fn is_web_scheme(scheme: &Vec<char>) -> (r: bool)
    ensures
        r == (scheme@ == seq!['h', 't', 't', 'p', 's'] || scheme@ == seq!['h', 't', 't', 'p']),
{
    let https: [char; 5] = ['h', 't', 't', 'p', 's'];
    let http: [char; 4] = ['h', 't', 't', 'p'];
    assert(https@ =~= seq!['h', 't', 't', 'p', 's']);
    assert(http@ =~= seq!['h', 't', 't', 'p']);
    chars_equal(scheme, &https) || chars_equal(scheme, &http)
}

fn accepted(u: &UrlFields, base_url: &WebUrl, base: &[char], excluded: &Vec<String>) -> (r: bool)
    requires
        base@ == base_url@.text,
    ensures
        r == link_accepted(u@, base_url@, excluded@.map_values(|s: String| s@)),
{
    let ghost ex = excluded@.map_values(|s: String| s@);
    if u.domain.is_none() {
        return false;
    }
    let path = chars_of(u.path.as_str());
    match path_extension_of(&path) {
        Some(ext) => {
            if !is_html_extension(&ext) {
                return false;
            }
        },
        None => {},
    }
    let scheme = chars_of(u.scheme.as_str());
    if !is_web_scheme(&scheme) {
        return false;
    }
    let text = chars_of(u.text.as_str());
    if !starts_with(&text, base) {
        return false;
    }
    let hit = is_prefix_of_any(excluded, &text);
    proof {
        if hit {
            let k = choose|k: int| 0 <= k < excluded@.len() && has_prefix(text@, #[trigger] excluded@[k]@);
            assert(ex[k] == excluded@[k]@);
        } else {
            assert forall|k: int| 0 <= k < ex.len() implies !has_prefix(u@.text, #[trigger] ex[k]) by {
                assert(ex[k] == excluded@[k]@);
            }
        }
    }
    !hit
}

fn clean_link(text: &[char]) -> (r: Vec<char>)
    ensures
        r@ == cleaned_link(text@),
{
    let q: [char; 1] = ['?'];
    let pct: [char; 3] = ['%', '3', 'F'];
    assert(q@ =~= seq!['?']);
    assert(pct@ =~= seq!['%', '3', 'F']);
    let a = before_pattern_chars(text, &q);
    let b = before_pattern_chars(&a, &pct);
    let c = strip_line_ending(&b);
    trim_end_matches_char(&c, '/')
}

impl LinkParser {
    /// The links of the page `html` that lie under `target_base_url` and under
    /// none of `excluded_links`, cleaned of queries and trailing `/`, each
    /// serialization once, in order of first appearance. `Err` names the first
    /// cleaned link that is not a valid URL.
    pub fn parse_links(
        html: &str,
        target_base_url: &WebUrl,
        excluded_links: &Vec<String>,
    ) -> (r: Result<Vec<WebUrl>, InvalidLink>)
        ensures
            match r {
                Ok(v) => links_found(
                    anchor_hrefs(html@),
                    target_base_url@,
                    excluded_links@.map_values(|s: String| s@),
                ) == Ok::<Seq<UrlParts>, ()>(urls_view(v@)),
                Err(_) => links_found(
                    anchor_hrefs(html@),
                    target_base_url@,
                    excluded_links@.map_values(|s: String| s@),
                ) is Err,
            },
    {
        let ghost ex = excluded_links@.map_values(|s: String| s@);
        let ghost base = target_base_url@;
        let hrefs = document_anchor_hrefs(html);
        let ghost hv = hrefs@.map_values(|o: Option<String>| opt_view(o));
        let base_text = chars_of(target_base_url.as_str());
        let mut found: Vec<WebUrl> = Vec::new();
        let mut i: usize = 0;
        assert(hv.take(0) =~= Seq::<Option<Seq<char>>>::empty());
        assert(urls_view(found@) =~= Seq::<UrlParts>::empty());
        while i < hrefs.len()
            invariant
                i <= hrefs@.len(),
                hv == hrefs@.map_values(|o: Option<String>| opt_view(o)),
                hv == anchor_hrefs(html@),
                base == target_base_url@,
                base_text@ == base.text,
                ex == excluded_links@.map_values(|s: String| s@),
                links_found(hv.take(i as int), base, ex) == Ok::<Seq<UrlParts>, ()>(
                    urls_view(found@),
                ),
            decreases hrefs.len() - i,
        {
            assert(hv.take(i + 1).drop_last() == hv.take(i as int));
            assert(hv.take(i + 1).last() == opt_view(hrefs@[i as int]));
            let ghost before = found@;
            match &hrefs[i] {
                None => {},
                Some(href) => {
                    let h = chars_of(href.as_str());
                    let target = if h.len() == 0 {
                        None
                    } else if h[0] == '/' {
                        Some(target_base_url.with_path(href.as_str()))
                    } else {
                        match WebUrl::parse(href.as_str()) {
                            Some(w) => Some(w.fields()),
                            None => None,
                        }
                    };
                    match target {
                        None => {},
                        Some(u) => {
                            if accepted(&u, target_base_url, &base_text, excluded_links) {
                                let t = chars_of(u.text.as_str());
                                let c = clean_link(&t);
                                let cs = string_of(&c);
                                match parse_url(cs.as_str()) {
                                    Err(reason) => {
                                        proof {
                                            lemma_links_found_err_extends(hv, base, ex, i as int + 1);
                                        }
                                        return Err(InvalidLink { link: cs, reason });
                                    },
                                    Ok(v) => {
                                        let vt = chars_of(v.as_str());
                                        if !has_text(&found, &vt) {
                                            found.push(v);
                                            assert(urls_view(found@) =~= urls_view(before).push(
                                                v@,
                                            ));
                                        } else {
                                            proof {
                                                let j = choose|j: int|
                                                    0 <= j < before.len() && (
                                                    #[trigger] before[j])@.text == vt@;
                                                assert(urls_view(before)[j] == before[j]@);
                                            }
                                        }
                                    },
                                }
                            }
                        },
                    }
                },
            }
            proof {
                if found@ == before {
                    assert(urls_view(found@) == urls_view(before));
                }
                assert forall|j: int| 0 <= j < urls_view(before).len() implies #[trigger] urls_view(
                    before,
                )[j].text == before[j]@.text by {}
            }
            i = i + 1;
        }
        assert(hv.take(hrefs.len() as int) == hv);
        Ok(found)
    }
}

/// Once the links of a prefix of the anchors are refused, so are the links of
/// every longer prefix.
proof fn lemma_links_found_err_extends(
    hrefs: Seq<Option<Seq<char>>>,
    base: UrlParts,
    excluded: Seq<Seq<char>>,
    k: int,
)
    requires
        0 <= k <= hrefs.len(),
        links_found(hrefs.take(k), base, excluded) is Err,
    ensures
        links_found(hrefs, base, excluded) is Err,
    decreases hrefs.len() - k,
{
    if k < hrefs.len() {
        assert(hrefs.take(k + 1).drop_last() == hrefs.take(k));
        lemma_links_found_err_extends(hrefs, base, excluded, k + 1);
    } else {
        assert(hrefs.take(k) == hrefs);
    }
}

/// A link entered by the user to be excluded from the crawl: trimmed, without
/// a final line ending and without trailing `/`.
pub open spec fn exclusion_text(link: Seq<char>) -> Seq<char> {
    trim_end_char(without_line_ending(trimmed(link)), '/')
}

/// Normalizes a link to exclude; `None` when the normalized link is not a
/// valid URL.
pub fn parse_link_to_exclude(link: &str) -> (r: Option<String>)
    ensures
        r matches Some(s) ==> s@ == exclusion_text(link@) && url_parse(s@) is Some,
        r is None ==> url_parse(exclusion_text(link@)) is None,
{
    let v = chars_of(link);
    let t = trim_chars(&v);
    let s = strip_line_ending(&t);
    let w = trim_end_matches_char(&s, '/');
    let out = string_of(&w);
    match WebUrl::parse(out.as_str()) {
        Some(_) => Some(out),
        None => None,
    }
}

/// No two links found share a serialization.
pub open spec fn distinct_links(found: Seq<UrlParts>) -> bool {
    forall|i: int, j: int| 0 <= i < j < found.len() ==> (#[trigger] found[i]).text != (
    #[trigger] found[j]).text
}

/// The link `v` is what the anchor `href` leads to: its target is followed
/// and `v` is the parse of the cleaned target.
pub open spec fn link_from_anchor(
    href: Seq<char>,
    base: UrlParts,
    excluded: Seq<Seq<char>>,
    v: UrlParts,
) -> bool {
    link_target(href, base) matches Some(u) && link_accepted(u, base, excluded) && url_parse(
        cleaned_link(u.text),
    ) == Some(v)
}

/// Anchor number `k` leads to the link `v`.
pub open spec fn anchor_leads_to(
    hrefs: Seq<Option<Seq<char>>>,
    k: int,
    base: UrlParts,
    excluded: Seq<Seq<char>>,
    v: UrlParts,
) -> bool {
    0 <= k < hrefs.len() && match hrefs[k] {
        Some(h) => link_from_anchor(h, base, excluded, v),
        None => false,
    }
}

/// Some anchor leads to the link `v`.
pub open spec fn comes_from_anchor(
    hrefs: Seq<Option<Seq<char>>>,
    base: UrlParts,
    excluded: Seq<Seq<char>>,
    v: UrlParts,
) -> bool {
    exists|k: int| #[trigger] anchor_leads_to(hrefs, k, base, excluded, v)
}

proof fn lemma_comes_from_prefix(
    hrefs: Seq<Option<Seq<char>>>,
    base: UrlParts,
    excluded: Seq<Seq<char>>,
    v: UrlParts,
)
    requires
        hrefs.len() > 0,
        comes_from_anchor(hrefs.drop_last(), base, excluded, v),
    ensures
        comes_from_anchor(hrefs, base, excluded, v),
{
    let k = choose|k: int| #[trigger] anchor_leads_to(hrefs.drop_last(), k, base, excluded, v);
    assert(hrefs[k] == hrefs.drop_last()[k]);
    assert(anchor_leads_to(hrefs, k, base, excluded, v));
}

/// The links found are pairwise distinct, and each comes from an anchor of
/// the page whose target is followed: it has a domain, an `http` or `https`
/// scheme, an HTML path or none, and lies under the base URL and under none of
/// the excluded prefixes.
pub proof fn law_found_links_distinct_and_followed(
    hrefs: Seq<Option<Seq<char>>>,
    base: UrlParts,
    excluded: Seq<Seq<char>>,
)
    ensures
        links_found(hrefs, base, excluded) matches Ok(found) ==> distinct_links(found) && forall|
            i: int,
        | 0 <= i < found.len() ==> comes_from_anchor(hrefs, base, excluded, #[trigger] found[i]),
    decreases hrefs.len(),
{
    if hrefs.len() > 0 {
        let prev = hrefs.drop_last();
        law_found_links_distinct_and_followed(prev, base, excluded);
        match links_found(prev, base, excluded) {
            Ok(found) => {
                assert forall|i: int| 0 <= i < found.len() implies comes_from_anchor(
                    hrefs,
                    base,
                    excluded,
                    #[trigger] found[i],
                ) by {
                    lemma_comes_from_prefix(hrefs, base, excluded, found[i]);
                }
                match hrefs.last() {
                    Some(href) => match link_target(href, base) {
                        Some(u) => if link_accepted(u, base, excluded) {
                            match url_parse(cleaned_link(u.text)) {
                                Some(v) => {
                                    assert(anchor_leads_to(hrefs, hrefs.len() - 1, base, excluded, v));
                                    let now = insert_link(found, v);
                                    assert forall|i: int| 0 <= i < now.len() implies comes_from_anchor(
                                        hrefs,
                                        base,
                                        excluded,
                                        #[trigger] now[i],
                                    ) by {
                                        if i < found.len() {
                                            assert(now[i] == found[i]);
                                        }
                                    }
                                },
                                None => {},
                            }
                        },
                        None => {},
                    },
                    None => {},
                }
            },
            Err(u) => {},
        }
    }
}

proof fn lemma_trim_end_char_last(s: Seq<char>, c: char)
    ensures
        trim_end_char(s, c).len() == 0 || trim_end_char(s, c).last() != c,
    decreases s.len(),
{
    if s.len() > 0 && s.last() == c {
        lemma_trim_end_char_last(s.drop_last(), c);
    }
}

/// A normalized link to exclude never ends with `/`.
pub proof fn law_excluded_link_has_no_trailing_slash(link: Seq<char>)
    ensures
        exclusion_text(link).len() == 0 || exclusion_text(link).last() != '/',
{
    lemma_trim_end_char_last(without_line_ending(trimmed(link)), '/');
}

/// Every link of `some` shares its serialization with a link of `all`.
pub open spec fn texts_within(some: Seq<UrlParts>, all: Seq<UrlParts>) -> bool {
    forall|i: int| 0 <= i < some.len() ==> exists|j: int| 0 <= j < all.len() && (#[trigger] all[j]).text == (#[trigger] some[i]).text
}

proof fn lemma_insert_link_within(found: Seq<UrlParts>, u: UrlParts)
    ensures
        texts_within(found, insert_link(found, u)),
        exists|j: int| 0 <= j < insert_link(found, u).len() && (#[trigger] insert_link(found, u)[j]).text == u.text,
{
    let now = insert_link(found, u);
    assert forall|i: int| 0 <= i < found.len() implies exists|j: int| 0 <= j < now.len() && (#[trigger] now[j]).text == (#[trigger] found[i]).text by {
        assert(now[i] == found[i]);
    }
    if exists|i: int| 0 <= i < found.len() && (#[trigger] found[i]).text == u.text {
        let i = choose|i: int| 0 <= i < found.len() && (#[trigger] found[i]).text == u.text;
        assert(now[i].text == u.text);
    } else {
        assert(now[found.len() as int] == u);
    }
}

/// Adding prefixes to exclude can only remove links: when both lists of
/// excluded prefixes let the page through, every link found with the longer
/// list is also found with the shorter one.
pub proof fn law_more_exclusions_find_fewer_links(
    hrefs: Seq<Option<Seq<char>>>,
    base: UrlParts,
    excluded: Seq<Seq<char>>,
    more: Seq<Seq<char>>,
)
    requires
        forall|k: int| 0 <= k < excluded.len() ==> more.contains(#[trigger] excluded[k]),
        links_found(hrefs, base, excluded) is Ok,
        links_found(hrefs, base, more) is Ok,
    ensures
        texts_within(links_found(hrefs, base, more)->Ok_0, links_found(hrefs, base, excluded)->Ok_0),
    decreases hrefs.len(),
{
    if hrefs.len() > 0 {
        let prev = hrefs.drop_last();
        law_more_exclusions_find_fewer_links(prev, base, excluded, more);
        let f1 = links_found(prev, base, excluded)->Ok_0;
        let f2 = links_found(prev, base, more)->Ok_0;
        let s1 = links_found(hrefs, base, excluded)->Ok_0;
        let s2 = links_found(hrefs, base, more)->Ok_0;
        match hrefs.last() {
            None => {},
            Some(href) => match link_target(href, base) {
                None => {},
                Some(u) => {
                    if link_accepted(u, base, more) {
                        assert forall|k: int| 0 <= k < excluded.len() implies !has_prefix(
                            u.text,
                            #[trigger] excluded[k],
                        ) by {
                            let m = choose|m: int| 0 <= m < more.len() && more[m] == excluded[k];
                            assert(!has_prefix(u.text, more[m]));
                        }
                        assert(link_accepted(u, base, excluded));
                        let v = url_parse(cleaned_link(u.text))->0;
                        lemma_insert_link_within(f1, v);
                        lemma_insert_link_within(f2, v);
                        assert forall|i: int| 0 <= i < s2.len() implies exists|j: int| 0 <= j < s1.len() && (#[trigger] s1[j]).text == (#[trigger] s2[i]).text by {
                            if s2[i].text == v.text {
                            } else {
                                let j2 = choose|j: int| 0 <= j < f2.len() && (#[trigger] f2[j]).text == s2[i].text;
                                let j1 = choose|j: int| 0 <= j < f1.len() && (#[trigger] f1[j]).text == f2[j2].text;
                                let j = choose|j: int| 0 <= j < s1.len() && (#[trigger] s1[j]).text == f1[j1].text;
                                assert(s1[j].text == s2[i].text);
                            }
                        }
                    } else if link_accepted(u, base, excluded) {
                        let v = url_parse(cleaned_link(u.text))->0;
                        lemma_insert_link_within(f1, v);
                        assert forall|i: int| 0 <= i < s2.len() implies exists|j: int| 0 <= j < s1.len() && (#[trigger] s1[j]).text == (#[trigger] s2[i]).text by {
                            let j1 = choose|j: int| 0 <= j < f1.len() && (#[trigger] f1[j]).text == s2[i].text;
                            let j = choose|j: int| 0 <= j < s1.len() && (#[trigger] s1[j]).text == f1[j1].text;
                        }
                    }
                },
            },
        }
    }
}

/// A site page that a page links to is followed: when an anchor's `href`
/// leads to `u` (the base URL with its path replaced by an `href` that starts
/// with `/`, the parse of any other `href`), and `u` has a domain, the scheme
/// `http` or `https`, no extension or the extension `html` or `htm`, lies
/// under the base URL and under none of the excluded prefixes, then `u`
/// without its query and trailing `/` is a valid URL and is among the links
/// found.
pub proof fn law_site_pages_are_followed(
    hrefs: Seq<Option<Seq<char>>>,
    base: UrlParts,
    excluded: Seq<Seq<char>>,
    k: int,
    h: Seq<char>,
    u: UrlParts,
)
    requires
        0 <= k < hrefs.len(),
        hrefs[k] == Some(h),
        h.len() > 0,
        h[0] == '/' ==> u == url_set_path(base.text, h),
        h[0] != '/' ==> url_parse(h) == Some(u),
        u.domain is Some,
        u.scheme == seq!['h', 't', 't', 'p'] || u.scheme == seq!['h', 't', 't', 'p', 's'],
        path_extension(u.path) is None || path_extension(u.path) == Some(seq!['h', 't', 'm', 'l'])
            || path_extension(u.path) == Some(seq!['h', 't', 'm']),
        has_prefix(u.text, base.text),
        forall|e: int| 0 <= e < excluded.len() ==> !has_prefix(u.text, #[trigger] excluded[e]),
        links_found(hrefs, base, excluded) is Ok,
    ensures
        url_parse(cleaned_link(u.text)) is Some,
        exists|j: int|
            0 <= j < links_found(hrefs, base, excluded)->Ok_0.len() && (#[trigger] links_found(
                hrefs,
                base,
                excluded,
            )->Ok_0[j]).text == url_parse(cleaned_link(u.text))->0.text,
    decreases hrefs.len(),
{
    let prev = hrefs.drop_last();
    let found = links_found(hrefs, base, excluded)->Ok_0;
    if k == hrefs.len() - 1 {
        assert(link_target(h, base) == Some(u));
        assert(link_accepted(u, base, excluded));
        let f = links_found(prev, base, excluded)->Ok_0;
        let v = url_parse(cleaned_link(u.text))->0;
        lemma_insert_link_within(f, v);
    } else {
        assert(prev[k] == hrefs[k]);
        law_site_pages_are_followed(prev, base, excluded, k, h, u);
        let f = links_found(prev, base, excluded)->Ok_0;
        let v = url_parse(cleaned_link(u.text))->0;
        let j0 = choose|j: int| 0 <= j < f.len() && (#[trigger] f[j]).text == v.text;
        if found != f {
            let w = choose|w: UrlParts| found == insert_link(f, w);
            lemma_insert_link_within(f, w);
            let j = choose|j: int| 0 <= j < found.len() && (#[trigger] found[j]).text == f[j0].text;
        } else {
            assert(found[j0].text == v.text);
        }
    }
}

/// The target `u` of the `href` `h` is a page of the site that the crawl
/// follows: `u` is the base URL with its path replaced by an `h` that starts
/// with `/`, or the parse of any other non-empty `h`; it has a domain, the
/// scheme `http` or `https`, no extension or the extension `html` or `htm`,
/// lies under the base URL and under none of the excluded prefixes.
pub open spec fn followed_target(h: Seq<char>, base: UrlParts, excluded: Seq<Seq<char>>, u: UrlParts) -> bool {
    &&& h.len() > 0
    &&& (h[0] == '/' ==> u == url_set_path(base.text, h))
    &&& (h[0] != '/' ==> url_parse(h) == Some(u))
    &&& u.domain is Some
    &&& (u.scheme == seq!['h', 't', 't', 'p'] || u.scheme == seq!['h', 't', 't', 'p', 's'])
    &&& (path_extension(u.path) is None || path_extension(u.path) == Some(seq!['h', 't', 'm', 'l'])
        || path_extension(u.path) == Some(seq!['h', 't', 'm']))
    &&& has_prefix(u.text, base.text)
    &&& forall|e: int| 0 <= e < excluded.len() ==> !has_prefix(u.text, #[trigger] excluded[e])
}

/// `v` is the cleaned form of the target of an anchor among `hrefs`, and that
/// target is a page of the site that the crawl follows.
pub open spec fn from_followed_anchor(
    hrefs: Seq<Option<Seq<char>>>,
    base: UrlParts,
    excluded: Seq<Seq<char>>,
    v: UrlParts,
) -> bool {
    exists|k: int, h: Seq<char>, u: UrlParts|
        0 <= k < hrefs.len() && #[trigger] hrefs[k] == Some(h) && #[trigger] followed_target(
            h,
            base,
            excluded,
            u,
        ) && url_parse(cleaned_link(u.text)) == Some(v)
}

/// Every link found is the cleaned form of the target of some anchor of the
/// page, and that target is a page of the site that the crawl follows.
pub proof fn law_found_links_are_site_pages(
    hrefs: Seq<Option<Seq<char>>>,
    base: UrlParts,
    excluded: Seq<Seq<char>>,
)
    ensures
        links_found(hrefs, base, excluded) is Ok ==> forall|i: int|
            0 <= i < links_found(hrefs, base, excluded)->Ok_0.len() ==> from_followed_anchor(
                hrefs,
                base,
                excluded,
                #[trigger] links_found(hrefs, base, excluded)->Ok_0[i],
            ),
{
    law_found_links_distinct_and_followed(hrefs, base, excluded);
    if links_found(hrefs, base, excluded) is Ok {
        let found = links_found(hrefs, base, excluded)->Ok_0;
        assert forall|i: int| 0 <= i < found.len() implies from_followed_anchor(
            hrefs,
            base,
            excluded,
            #[trigger] found[i],
        ) by {
            assert(comes_from_anchor(hrefs, base, excluded, found[i]));
            let k = choose|k: int| #[trigger] anchor_leads_to(hrefs, k, base, excluded, found[i]);
            let h = hrefs[k]->0;
            let u = link_target(h, base)->0;
            assert(followed_target(h, base, excluded, u));
            assert(hrefs[k] == Some(h));
        }
    }
}

proof fn lemma_first_occurrence(s: Seq<char>, p: Seq<char>, i: int)
    requires
        i >= 0,
    ensures
        first_occurrence_from(s, p, i) matches Some(j) ==> i <= j && occurs_at(s, p, j) && forall|m: int|
            i <= m < j ==> !occurs_at(s, p, m),
        first_occurrence_from(s, p, i) is None ==> forall|m: int| i <= m ==> !occurs_at(s, p, m),
    decreases s.len() + 1 - i,
{
    if !(i + p.len() > s.len()) && !occurs_at(s, p, i) {
        lemma_first_occurrence(s, p, i + 1);
    }
}

/// What comes before a pattern is a prefix of the text and holds the
/// pattern nowhere.
proof fn lemma_before_pattern(s: Seq<char>, p: Seq<char>)
    requires
        p.len() > 0,
    ensures
        has_prefix(s, before_pattern(s, p)),
        forall|m: int| !occurs_at(before_pattern(s, p), p, m),
{
    lemma_first_occurrence(s, p, 0);
    let b = before_pattern(s, p);
    assert(s.take(b.len() as int) == b);
    assert forall|m: int| !occurs_at(b, p, m) by {
        if occurs_at(b, p, m) {
            assert(b.subrange(m, m + p.len()) == s.subrange(m, m + p.len()));
            assert(occurs_at(s, p, m));
        }
    }
}

/// A prefix of a text holds a pattern only where the text holds it.
proof fn lemma_prefix_occurrences(s: Seq<char>, q: Seq<char>, p: Seq<char>)
    requires
        has_prefix(s, q),
    ensures
        forall|m: int| occurs_at(q, p, m) ==> occurs_at(s, p, m),
{
    assert forall|m: int| occurs_at(q, p, m) implies occurs_at(s, p, m) by {
        assert(q.subrange(m, m + p.len()) == s.subrange(m, m + p.len()));
    }
}

proof fn lemma_prefix_trans(s: Seq<char>, q: Seq<char>, r: Seq<char>)
    requires
        has_prefix(s, q),
        has_prefix(q, r),
    ensures
        has_prefix(s, r),
{
    assert(s.take(r.len() as int) == q.take(r.len() as int));
}

proof fn lemma_trim_end_char_prefix(s: Seq<char>, c: char)
    ensures
        has_prefix(s, trim_end_char(s, c)),
    decreases s.len(),
{
    if s.len() > 0 && s.last() == c {
        lemma_trim_end_char_prefix(s.drop_last(), c);
        lemma_prefix_trans(s, s.drop_last(), trim_end_char(s, c));
    } else {
        assert(s.take(s.len() as int) == s);
    }
}

/// A followed link is cut before its query: its cleaned form is a prefix of
/// it that holds no `?` and no `%3F`, and does not end with `/`.
pub proof fn law_cleaned_link_has_no_query(text: Seq<char>)
    ensures
        has_prefix(text, cleaned_link(text)),
        forall|i: int| 0 <= i < cleaned_link(text).len() ==> #[trigger] cleaned_link(text)[i] != '?',
        forall|m: int| !occurs_at(cleaned_link(text), seq!['%', '3', 'F'], m),
        cleaned_link(text).len() == 0 || cleaned_link(text).last() != '/',
{
    let a = before_pattern(text, seq!['?']);
    let b = before_pattern(a, seq!['%', '3', 'F']);
    let c = without_line_ending(b);
    let d = cleaned_link(text);
    lemma_before_pattern(text, seq!['?']);
    lemma_before_pattern(a, seq!['%', '3', 'F']);
    assert(has_prefix(b, c)) by {
        assert(b.take(c.len() as int) == c);
    }
    lemma_trim_end_char_prefix(c, '/');
    lemma_trim_end_char_last(c, '/');
    lemma_prefix_trans(b, c, d);
    lemma_prefix_trans(a, b, d);
    lemma_prefix_trans(text, a, d);
    lemma_prefix_occurrences(b, d, seq!['%', '3', 'F']);
    lemma_prefix_occurrences(a, d, seq!['?']);
    assert forall|i: int| 0 <= i < d.len() implies #[trigger] d[i] != '?' by {
        if d[i] == '?' {
            assert(d.subrange(i, i + 1) == seq!['?']);
            assert(occurs_at(d, seq!['?'], i));
        }
    }
}

} // verus!
