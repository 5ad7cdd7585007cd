//! The patch engine on whole file texts: no-op, replacement, insertion, and
//! idempotence.

use git_copyright::file_ops::apply_copyright;
use git_copyright::file_ops::PatchOutcome;
use git_copyright::regex_ops::generate_base_regex;
use git_copyright::regex_ops::generate_comment_regex;
use git_copyright::regex_ops::generate_copyright_line;
use git_copyright::CommentSign;

fn acme_regex(sign: &CommentSign) -> regex::Regex {
    generate_comment_regex(&generate_base_regex("Acme"), sign).unwrap()
}

#[test]
fn test_untouched_correct_header() {
    let sign = CommentSign::LeftOnly("//".into());
    let re = acme_regex(&sign);
    let years = "2019-2023";
    let line = generate_copyright_line("Acme", &sign, years);
    let content = "#!/bin/sh\n// Copyright (c) Acme 2019-2023\nmain\nrest of the file";
    match apply_copyright(content, &re, years, &line) {
        PatchOutcome::Unchanged => {}
        PatchOutcome::Updated(_) => panic!("a correct header must be left untouched"),
    }
}

#[test]
fn test_stale_header_replaced() {
    let sign = CommentSign::LeftOnly("//".into());
    let re = acme_regex(&sign);
    let years = "2019-2023";
    let line = generate_copyright_line("Acme", &sign, years);
    let content = "first line\n// Copyright (c) Acme 2019\nthird line\nfourth line";
    match apply_copyright(content, &re, years, &line) {
        PatchOutcome::Updated(out) => {
            assert_eq!(
                out,
                "first line\n// Copyright (c) Acme 2019-2023\nthird line\nfourth line"
            );
        }
        PatchOutcome::Unchanged => panic!("stale years must be replaced"),
    }
}

#[test]
fn test_missing_header_inserted() {
    let sign = CommentSign::LeftOnly("//".into());
    let re = acme_regex(&sign);
    let years = "2021";
    let line = generate_copyright_line("Acme", &sign, years);
    let content = "fn main() {}\n// some other comment";
    match apply_copyright(content, &re, years, &line) {
        PatchOutcome::Updated(out) => {
            assert_eq!(out, "// Copyright (c) Acme 2021\nfn main() {}\n// some other comment");
        }
        PatchOutcome::Unchanged => panic!("a missing notice must be inserted"),
    }
}

#[test]
fn test_patch_engine_idempotent() {
    let sign = CommentSign::LeftOnly("#".into());
    let re = acme_regex(&sign);
    let years = "2020-2022";
    let line = generate_copyright_line("Acme", &sign, years);
    // Once for the insertion path, once for the replacement path.
    let contents = [
        "print('hello')\nprint('world')",
        "# Copyright (c) Acme 2020\nprint('hello')",
    ];
    for content in contents {
        let first = match apply_copyright(content, &re, years, &line) {
            PatchOutcome::Updated(out) => out,
            PatchOutcome::Unchanged => panic!("these headers are missing or stale"),
        };
        match apply_copyright(&first, &re, years, &line) {
            PatchOutcome::Unchanged => {}
            PatchOutcome::Updated(second) => {
                panic!("second run changed the file again: {:?} -> {:?}", first, second)
            }
        }
    }
}

#[test]
fn test_notice_beyond_header_depth_not_seen() {
    let sign = CommentSign::LeftOnly("//".into());
    let re = acme_regex(&sign);
    let years = "2021";
    let line = generate_copyright_line("Acme", &sign, years);
    // The notice sits on the fourth line: the engine never reads that far
    // and prepends a fresh one.
    let content = "a\nb\nc\n// Copyright (c) Acme 2021";
    match apply_copyright(content, &re, years, &line) {
        PatchOutcome::Updated(out) => {
            assert_eq!(out, "// Copyright (c) Acme 2021\na\nb\nc\n// Copyright (c) Acme 2021");
        }
        PatchOutcome::Unchanged => panic!("a notice past the header depth counts as missing"),
    }
}

#[test]
fn test_empty_file_gets_notice() {
    let sign = CommentSign::LeftOnly("//".into());
    let re = acme_regex(&sign);
    let years = "2021";
    let line = generate_copyright_line("Acme", &sign, years);
    match apply_copyright("", &re, years, &line) {
        PatchOutcome::Updated(out) => {
            assert_eq!(out, "// Copyright (c) Acme 2021\n");
        }
        PatchOutcome::Unchanged => panic!("an empty file has no notice"),
    }
}

#[test]
fn test_enclosing_style_round_trip() {
    let sign = CommentSign::Enclosing("/*".into(), "*/".into());
    let re = acme_regex(&sign);
    let years = "2019-2021";
    let line = generate_copyright_line("Acme", &sign, years);
    let content = "/* Copyright (c) Acme 2019 */\nbody";
    let patched = match apply_copyright(content, &re, years, &line) {
        PatchOutcome::Updated(out) => out,
        PatchOutcome::Unchanged => panic!("the years are stale"),
    };
    assert_eq!(patched, "/* Copyright (c) Acme 2019-2021 */\nbody");
    match apply_copyright(&patched, &re, years, &line) {
        PatchOutcome::Unchanged => {}
        PatchOutcome::Updated(_) => panic!("the fixed header must be recognized"),
    }
}
