//! The detection-pattern builders and the pattern cache, exercised against
//! the real regex engine.

use git_copyright::regex_ops::escape_for_regex;
use git_copyright::regex_ops::generate_base_regex;
use git_copyright::regex_ops::generate_comment_regex;
use git_copyright::regex_ops::generate_copyright_line;
use git_copyright::regex_ops::CopyrightCache;
use git_copyright::CommentSign;
use regex::Regex;

#[test]
fn test_generate_file_regex() {
    let file_header = "// Copyright (c) DummyCompany Ltd. 2020-2021";
    let regex = generate_comment_regex(
        &generate_base_regex("DummyCompany Ltd."),
        &CommentSign::LeftOnly("//".into()),
    )
    .unwrap();
    assert!(regex.is_match(file_header));
}

#[test]
fn test_escape_for_regex() {
    assert_eq!(escape_for_regex("/"), r"/");
    assert_eq!(escape_for_regex("//"), r"//");
    assert_eq!(escape_for_regex("/*"), r"/\*");
    assert_eq!(escape_for_regex("*/"), r"\*/");
    assert_eq!(escape_for_regex("#"), "#");
}

#[test]
fn test_rs_regex() {
    let header = "// Copyright (c) DummyCompany Ltd. 2022";
    let full_regex_str = r"^// Copyright \(c\) DummyCompany Ltd\. (\d{4}(-\d{4}){0,1})$";
    let regex = Regex::new(full_regex_str).unwrap();
    assert!(regex.is_match(header));
}

#[test]
fn test_star_in_regex() {
    let file_header = "/* Copyright (c) DummyCompany Ltd. 2020-2021 */";
    let regex_str = r"^/\* Copyright \(c\) DummyCompany Ltd. \d{4}(-\d{4}){0,1} \*/$";
    let regex = Regex::new(regex_str).unwrap();
    assert!(regex.is_match(file_header));
}

#[test]
fn test_forward_slash_in_regex() {
    let file_header = "// Copyright (c) DummyCompany Ltd. 2020-2021";
    let regex_str = r"^// Copyright \(c\) DummyCompany Ltd. \d{4}(-\d{4}){0,1}$";
    let regex = Regex::new(regex_str).unwrap();
    assert!(regex.is_match(file_header));
}

#[test]
fn test_generate_base_regex() {
    let name = "DummyCompany Ltd.";
    let base_regex = generate_base_regex(name);
    assert_eq!(
        base_regex,
        r"Copyright \(c\) DummyCompany Ltd\. (\d{4}(-\d{4}){0,1})"
    );
}

#[test]
fn test_regex_match() {
    let valid_copyrights = [
        "# Copyright (c) DummyCompany Ltd. 2019",
        "# Copyright (c) DummyCompany Ltd. 2020-2021",
    ];
    let invalid_copyrights = [
        "# Copyright (c) DummyCompany Ltd. 2019-",
        "# Copyright (c) DummyCompany Ltd. 2020-2021-2023",
        "# Copyright (c) DummyCompany Ltd. 20202021",
    ];

    let copyright_re_str = r"^# Copyright \(c\) DummyCompany Ltd. \d{4}(-\d{4}){0,1}$";
    let copyright_re = Regex::new(copyright_re_str).unwrap();

    for example in valid_copyrights {
        assert!(copyright_re.is_match(example));
    }

    for example in invalid_copyrights {
        assert!(!copyright_re.is_match(example));
    }
}

#[test]
fn test_cache_compiles_wrapped_pattern() {
    let base = generate_base_regex("Acme Inc.");
    let cache = CopyrightCache::new(&base);
    let sign = CommentSign::LeftOnly("//".into());
    let first = cache.get_regex(&sign).unwrap();
    assert_eq!(
        first.as_str(),
        r"^// Copyright \(c\) Acme Inc\. (\d{4}(-\d{4}){0,1})$"
    );
    // A second request is served from the cache and is the same pattern.
    let second = cache.get_regex(&sign).unwrap();
    assert_eq!(first.as_str(), second.as_str());
}

#[test]
fn test_cache_enclosing_pattern() {
    let base = generate_base_regex("Acme");
    let cache = CopyrightCache::new(&base);
    let sign = CommentSign::Enclosing("/*".into(), "*/".into());
    let re = cache.get_regex(&sign).unwrap();
    assert_eq!(
        re.as_str(),
        r"^/\* Copyright \(c\) Acme (\d{4}(-\d{4}){0,1}) \*/$"
    );
    assert!(re.is_match("/* Copyright (c) Acme 2020-2021 */"));
    assert!(!re.is_match("// Copyright (c) Acme 2020-2021"));
}

#[test]
fn test_generate_copyright_line_left_only() {
    let line = generate_copyright_line("Acme", &CommentSign::LeftOnly("//".into()), "2020-2021");
    assert_eq!(line, "// Copyright (c) Acme 2020-2021");
}

#[test]
fn test_generate_copyright_line_enclosing() {
    let line = generate_copyright_line(
        "Acme",
        &CommentSign::Enclosing("/*".into(), "*/".into()),
        "2021",
    );
    assert_eq!(line, "/* Copyright (c) Acme 2021 */");
}
