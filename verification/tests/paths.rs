use recipe_pipeline::paths::{file_name_of, name_extension_of, path_extension_of};
use std::path::Path;

fn chars(s: &str) -> Vec<char> {
    s.chars().collect()
}

fn text(v: Option<Vec<char>>) -> Option<String> {
    v.map(|c| c.into_iter().collect())
}

const SAMPLES: [&str; 22] = [
    "", "/", "a", "a/b", "a/b/", "a//b", "a/./", "a/.", "./a", ".", "..", "a/..", "/a/b.html",
    "recipes/soup.html", "a/b.", ".profile", "a/.profile", "..a", "a..b", "x.tar.gz", "dir.d/file",
    "dir.d/",
];

#[test]
fn file_name_agrees_with_std() {
    for p in SAMPLES {
        let ours = text(file_name_of(&chars(p)));
        let std_name = Path::new(p).file_name().map(|n| n.to_str().unwrap().to_string());
        assert_eq!(ours, std_name, "file name of {:?}", p);
    }
}

#[test]
fn extension_agrees_with_std() {
    for p in SAMPLES {
        let ours = text(path_extension_of(&chars(p)));
        let std_ext = Path::new(p).extension().map(|n| n.to_str().unwrap().to_string());
        assert_eq!(ours, std_ext, "extension of {:?}", p);
    }
}

#[test]
fn name_extension_examples() {
    assert_eq!(text(name_extension_of(&chars("soup.html"))), Some("html".to_string()));
    assert_eq!(text(name_extension_of(&chars(".profile"))), None);
    assert_eq!(text(name_extension_of(&chars("borscht"))), None);
    assert_eq!(text(name_extension_of(&chars("b."))), Some(String::new()));
}
