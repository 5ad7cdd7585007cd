//! Comment-sign lookup, ignore-glob filtering, and the error taxonomy.

use git_copyright::batch_verdict;
use git_copyright::check_file_copyright;
use git_copyright::file_ops::PatchOutcome;
use git_copyright::regex_ops::generate_base_regex;
use git_copyright::regex_ops::CopyrightCache;
use git_copyright::CError;
use git_copyright::CommentSign;
use git_copyright::Config;

fn sample_config() -> Config {
    Config::new(
        vec![
            ("rs".to_string(), CommentSign::LeftOnly("//".into())),
            ("py".to_string(), CommentSign::LeftOnly("#".into())),
            ("c".to_string(), CommentSign::Enclosing("/*".into(), "*/".into())),
            ("Makefile".to_string(), CommentSign::LeftOnly("#".into())),
        ],
        vec!["*.txt".to_string(), "**/*.txt".to_string()],
        vec!["**/*__pycache__*/**".to_string()],
    )
}

#[test]
fn test_filter_files() {
    let unfiltered: Vec<String> = vec!["dev/myfile.rs", "general/myfile.py", "another_file.py"]
        .iter()
        .map(|&elm| elm.into())
        .collect();
    let to_filter: Vec<String> = vec![
        "filter_me.txt",
        "./dev/I_want_out.txt",
        "dev/__pycache__/valid_file_in_ignored_folder.py",
        "dev/corner__pycache__case/myfile.py",
    ]
    .iter()
    .map(|&elm| elm.into())
    .collect();

    let cfg = sample_config();

    let mut all: Vec<String> = unfiltered.clone();
    all.extend(to_filter.iter().cloned());
    let filtered_files = cfg.filter_files(&all);
    for filename in unfiltered.iter() {
        assert!(filtered_files.contains(filename));
    }
    for filename in to_filter.iter() {
        assert!(!filtered_files.contains(filename));
    }
}

#[test]
fn test_bad_glob_dropped_siblings_kept() {
    // "a[" is not a valid glob; it is dropped, and the expressions around it
    // keep filtering.
    let cfg = Config::new(
        vec![],
        vec!["*.txt".to_string(), "a[".to_string(), "*.md".to_string()],
        vec![],
    );
    let files: Vec<String> = vec![
        "notes.txt".to_string(),
        "notes.md".to_string(),
        "keep.rs".to_string(),
    ];
    let filtered = cfg.filter_files(&files);
    assert_eq!(filtered, vec!["keep.rs".to_string()]);
}

#[test]
fn test_get_comment_sign_by_extension() {
    let cfg = sample_config();
    assert_eq!(
        cfg.get_comment_sign("src/file.rs"),
        Some(&CommentSign::LeftOnly("//".into()))
    );
    assert_eq!(
        cfg.get_comment_sign("file.py"),
        Some(&CommentSign::LeftOnly("#".into()))
    );
    assert_eq!(
        cfg.get_comment_sign("lib/deep/path/impl.c"),
        Some(&CommentSign::Enclosing("/*".into(), "*/".into()))
    );
}

#[test]
fn test_get_comment_sign_whole_name() {
    let cfg = sample_config();
    // No extension: the whole file name is the key.
    assert_eq!(
        cfg.get_comment_sign("project/Makefile"),
        Some(&CommentSign::LeftOnly("#".into()))
    );
    // A leading dot alone makes no extension.
    assert_eq!(cfg.get_comment_sign(".gitignore"), None);
}

#[test]
fn test_unknown_extension_is_per_file() {
    let cfg = sample_config();
    // The unmapped file fails with its own error...
    match cfg.require_comment_sign("notes.xyz") {
        Err(CError::UnknownCommentSign(f)) => assert_eq!(f, "notes.xyz"),
        other => panic!("expected UnknownCommentSign, got {:?}", other),
    }
    // ...and the next file is still served.
    assert!(cfg.require_comment_sign("main.rs").is_ok());
}

#[test]
fn test_check_file_copyright_chain() {
    let cfg = sample_config();
    let cache = CopyrightCache::new(&generate_base_regex("Acme"));

    // A Rust file with a stale header is fixed in place.
    let fixed = check_file_copyright(
        &cfg,
        &cache,
        "src/lib.rs",
        "Acme",
        "2019-2023",
        "// Copyright (c) Acme 2019\nfn main() {}",
    )
    .unwrap();
    match fixed {
        PatchOutcome::Updated(out) => {
            assert_eq!(out, "// Copyright (c) Acme 2019-2023\nfn main() {}")
        }
        PatchOutcome::Unchanged => panic!("the years are stale"),
    }

    // An unmapped extension is this file's own failure...
    match check_file_copyright(&cfg, &cache, "readme.xyz", "Acme", "2021", "text") {
        Err(CError::UnknownCommentSign(f)) => assert_eq!(f, "readme.xyz"),
        other => panic!("expected UnknownCommentSign, got {:?}", other),
    }

    // ...and the next file still goes through.
    let ok = check_file_copyright(
        &cfg,
        &cache,
        "script.py",
        "Acme",
        "2021",
        "# Copyright (c) Acme 2021\nprint()",
    )
    .unwrap();
    assert!(matches!(ok, PatchOutcome::Unchanged));
}

#[test]
fn test_batch_verdict() {
    assert!(batch_verdict(0).is_ok());
    assert!(matches!(batch_verdict(3), Err(CError::FixError)));
}

#[test]
fn test_error_descriptions() {
    assert_eq!(
        CError::UnknownCommentSign("a.xyz".into()).describe(),
        "No comment sign found for file a.xyz"
    );
    assert_eq!(
        CError::FixError.describe(),
        "Some copyrights could not be fixed, please check the output"
    );
    assert_eq!(
        CError::FilesChanged.describe(),
        "The copyright job changed tracked files that should be committed"
    );
    assert_eq!(CError::ReadError("f".into()).describe(), "Could not read f");
    assert_eq!(CError::WriteError("f".into()).describe(), "Could not write f");
}
