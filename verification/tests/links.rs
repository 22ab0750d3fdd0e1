use recipe_pipeline::links::{parse_link_to_exclude, LinkParser, WebUrl};

const PAGE: &str = r#"<html><body>
<a href="/recipes/borscht">borscht</a>
<a href="https://example.com/recipes/soup.html?x=1">soup</a>
<a href="https://other.com/a">elsewhere</a>
<a href="/img/pic.png">picture</a>
<a>no link</a>
<a href="mailto:someone@example.com">mail</a>
<a href="https://example.com/recipes/soup.html">soup again</a>
<a href="https://example.com/private/x">private</a>
<a href="">empty</a>
<a href="https://example.com/menu/%3Fweek=2">menu</a>
</body></html>"#;

#[test]
fn url_parse_reads_parts() {
    let u = WebUrl::parse("HTTPS://Example.com/a/b.html?q").unwrap();
    assert_eq!(u.as_str(), "https://example.com/a/b.html?q");
    assert_eq!(u.scheme(), "https");
    assert_eq!(u.domain(), Some("example.com"));
    assert_eq!(u.path(), "/a/b.html");
    assert!(WebUrl::parse("not a url").is_none());
    assert_eq!(WebUrl::parse("http://127.0.0.1/x").unwrap().domain(), None);
}

#[test]
fn with_path_replaces_the_path() {
    let base = WebUrl::parse("https://example.com/start?x=1").unwrap();
    let u = base.with_path("/recipes/soup");
    assert_eq!(u.text, "https://example.com/recipes/soup?x=1");
    assert_eq!(u.path, "/recipes/soup");
    assert_eq!(u.domain.as_deref(), Some("example.com"));
}

#[test]
fn with_path_on_an_opaque_url_need_not_reparse() {
    let base = WebUrl::parse("mailto:x").unwrap();
    let u = base.with_path("/a ");
    assert_eq!(u.text, "mailto:%2Fa ");
    assert_eq!(WebUrl::parse(&u.text).unwrap().as_str(), "mailto:%2Fa");
}

#[test]
fn parse_links_follows_only_site_pages() {
    let base = WebUrl::parse("https://example.com").unwrap();
    let excluded = vec!["https://example.com/private".to_string()];
    let found = LinkParser::parse_links(PAGE, &base, &excluded).ok().unwrap();
    let texts: Vec<&str> = found.iter().map(|u| u.as_str()).collect();
    assert_eq!(
        texts,
        vec![
            "https://example.com/recipes/borscht",
            "https://example.com/recipes/soup.html",
            "https://example.com/menu",
        ]
    );
}

#[test]
fn parse_links_without_exclusions() {
    let base = WebUrl::parse("https://example.com/").unwrap();
    let found = LinkParser::parse_links(PAGE, &base, &vec![]).ok().unwrap();
    assert_eq!(found.len(), 4);
    assert_eq!(found[2].as_str(), "https://example.com/private/x");
    assert_eq!(found[3].as_str(), "https://example.com/menu");
}

#[test]
fn parse_links_of_page_without_anchors() {
    let base = WebUrl::parse("https://example.com/").unwrap();
    let found = LinkParser::parse_links("<p>nothing</p>", &base, &vec![]).ok().unwrap();
    assert!(found.is_empty());
}

#[test]
fn link_to_exclude_is_normalized() {
    assert_eq!(
        parse_link_to_exclude("  https://example.com/private/ \n").as_deref(),
        Some("https://example.com/private")
    );
    assert_eq!(parse_link_to_exclude("https://example.com//").as_deref(), Some("https://example.com"));
    assert_eq!(parse_link_to_exclude("no url here"), None);
}

#[test]
fn more_exclusions_find_fewer_links() {
    let base = WebUrl::parse("https://example.com/").unwrap();
    let few = vec!["https://example.com/private".to_string()];
    let more = vec![
        "https://example.com/private".to_string(),
        "https://example.com/recipes/soup".to_string(),
    ];
    let all = LinkParser::parse_links(PAGE, &base, &few).ok().unwrap();
    let fewer = LinkParser::parse_links(PAGE, &base, &more).ok().unwrap();
    assert!(fewer.len() < all.len());
    for u in &fewer {
        assert!(all.iter().any(|v| v.as_str() == u.as_str()));
    }
}
