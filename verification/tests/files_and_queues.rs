use recipe_pipeline::fileio::{
    input_vector, read_prompt_answer, scan_integer, scan_nonnegative_number, NonPositiveError,
    ParseError, ScanError,
};
use recipe_pipeline::numbers::{parse_i32_reporting, ParseIntFailure};
use recipe_pipeline::loader::{join_paths, HtmLoaderFS, HtmlDownloader};
use std::path::Path;
use recipe_pipeline::queue::RabbitQueue;

#[test]
fn integer_lines_are_read() {
    assert!(matches!(scan_integer("  42\n"), Ok(42)));
    assert!(matches!(scan_integer("-7"), Ok(-7)));
    assert!(matches!(scan_integer("+8"), Ok(8)));
    assert!(matches!(scan_integer("4 2"), Err(ScanError::Parse(_))));
    assert!(matches!(scan_integer(""), Err(ScanError::Parse(_))));
    assert!(matches!(scan_integer("99999999999999999999"), Err(ScanError::Parse(_))));
}

#[test]
fn negative_numbers_are_refused() {
    assert!(matches!(scan_nonnegative_number("0"), Ok(0)));
    assert!(matches!(scan_nonnegative_number(" 15 "), Ok(15)));
    assert!(matches!(scan_nonnegative_number("-1"), Err(ScanError::NonPositive(_))));
    assert!(matches!(scan_nonnegative_number("x"), Err(ScanError::Parse(_))));
}

#[test]
fn number_lists_are_read() {
    assert_eq!(input_vector(" 1 2 -3 \n").ok().unwrap(), vec![1, 2, -3]);
    assert!(matches!(input_vector("1  2"), Err(ScanError::Number(ParseIntFailure::Empty))));
    assert!(matches!(input_vector("1 a"), Err(ScanError::Number(ParseIntFailure::InvalidDigit))));
    assert!(matches!(input_vector("3000000000"), Err(ScanError::Number(ParseIntFailure::PosOverflow))));
    assert!(matches!(input_vector("7 -3000000000 x"), Err(ScanError::Number(ParseIntFailure::NegOverflow))));
    assert!(matches!(input_vector("  \n"), Err(ScanError::Number(ParseIntFailure::Empty))));
}

#[test]
fn error_texts() {
    assert_eq!(ParseError.to_string(), "Ошибка перевода строки в число");
    assert_eq!(NonPositiveError.to_string(), "Число отрицательно");
}

#[test]
fn prompt_answer_loses_line_ending() {
    assert_eq!(read_prompt_answer("yes\n"), "yes");
    assert_eq!(read_prompt_answer("yes\r\n"), "yes");
    assert_eq!(read_prompt_answer("yes"), "yes");
}

#[test]
fn downloader_keeps_files_below_its_directory() {
    let d = HtmlDownloader::new(Some("dl"));
    let (dir, file) = d.save_location("example.com", "/recipes/soup.html").unwrap();
    assert_eq!(dir, "dl/example.com/recipes");
    assert_eq!(file, "dl/example.com/recipes/soup.html");
    let (dir, file) = d.save_location("example.com", "/recipes/borscht").unwrap();
    assert_eq!(dir, "dl/example.com/recipes/borscht");
    assert_eq!(file, "dl/example.com/recipes/borscht/index.html");
}

#[test]
fn downloader_without_directory_keeps_nothing() {
    let d = HtmlDownloader::new(None);
    assert!(d.download_path.is_none());
    assert!(d.save_location("example.com", "/a").is_none());
}

#[test]
fn stored_pages_are_found_where_they_were_kept() {
    let fs = HtmLoaderFS::new(None);
    assert_eq!(fs.page_location("example.com", "/a/b"), "downloads/example.com/a/b/index.html");
    let fs = HtmLoaderFS::new(Some("store"));
    assert_eq!(fs.page_location("example.com", "/a/b.html"), "store/example.com/a/b.html");
    let d = HtmlDownloader::new(Some("store"));
    let (_, kept) = d.save_location("example.com", "/a/b").unwrap();
    assert_eq!(fs.page_location("example.com", "/a/b"), kept);
}

#[test]
fn queues_are_bound_for_publishing() {
    let mut q = RabbitQueue::declared("html");
    assert_eq!(q.name, "html");
    assert!(!q.is_bound());
    q.bind_to_publish("amq.direct", "html_key");
    assert!(q.is_bound());
    assert_eq!(q.exchange_name.as_deref(), Some("amq.direct"));
    assert_eq!(q.routing_key.as_deref(), Some("html_key"));
    assert_eq!(q.name, "html");
}

#[test]
fn join_agrees_with_std() {
    let samples = ["", "/", "a", "a/", "/a", "a/b", "a//", "."];
    for a in samples {
        for b in samples {
            let ours = join_paths(a, b);
            let std_join = Path::new(a).join(b).to_str().unwrap().to_string();
            assert_eq!(ours, std_join, "join of {:?} and {:?}", a, b);
        }
    }
}

#[test]
fn kept_pages_with_extensions_are_found() {
    for root in ["store", "store/", "/var/store"] {
        let d = HtmlDownloader::new(Some(root));
        let fs = HtmLoaderFS::new(Some(root));
        for path in ["/a/b.html", "/b.html", "/x/y/z.htm", "/a/b", "/a", "/", "/a/b/", "/a/b.html/", "/c/"] {
            let (_, kept) = d.save_location("example.com", path).unwrap();
            assert_eq!(fs.page_location("example.com", path), kept, "{} {}", root, path);
        }
    }
}

fn chars(s: &str) -> Vec<char> {
    s.chars().collect()
}

#[test]
fn i32_failures_agree_with_std() {
    use_samples(&[
        "", "+", "-", "0", "-0", "+12", "2147483647", "2147483648", "-2147483648", "-2147483649",
        "12a", "a12", "99999999999x", "-99999999999x", "1 2", "١٢", "00000000000000000042",
    ]);
}

fn use_samples(samples: &[&str]) {
    for s in samples {
        let ours = parse_i32_reporting(&chars(s));
        match s.parse::<i32>() {
            Ok(n) => assert!(matches!(ours, Ok(m) if m == n), "{:?}", s),
            Err(e) => {
                let f = ours.err().unwrap();
                assert_eq!(f.to_string(), e.to_string(), "{:?}", s);
                let same_kind = match (f, e.kind()) {
                    (ParseIntFailure::Empty, std::num::IntErrorKind::Empty) => true,
                    (ParseIntFailure::InvalidDigit, std::num::IntErrorKind::InvalidDigit) => true,
                    (ParseIntFailure::PosOverflow, std::num::IntErrorKind::PosOverflow) => true,
                    (ParseIntFailure::NegOverflow, std::num::IntErrorKind::NegOverflow) => true,
                    _ => false,
                };
                assert!(same_kind, "{:?}", s);
            }
        }
    }
}

#[test]
fn page_location_agrees_with_std_paths() {
    let fs = HtmLoaderFS::new(Some("store"));
    for path in ["/", "/a", "/a/", "/a/b.html", "/a/b.html/", "/a//b", "/./a"] {
        let dir = Path::new(path).strip_prefix("/").unwrap();
        let mut expected = Path::new("store").join("example.com").join(dir);
        if dir.extension().is_none() {
            expected = expected.join("index.html");
        }
        assert_eq!(fs.page_location("example.com", path), expected.to_str().unwrap(), "{}", path);
    }
}
