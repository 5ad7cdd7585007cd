//! Keep copyright headers in a repository's files in line with its history.
//!
//! The library has three parts: a history resolver that derives, for every
//! tracked file, the year it was added and the year it was last modified,
//! following renames backwards through the commit list; a cache of compiled
//! copyright-detection patterns, one per comment style; and a patch engine
//! that inserts or replaces the copyright notice in a file's header.
//!
//! Reading the repository and rewriting files on disk is left to the caller;
//! the functions here take plain values (commit lists, file contents) and
//! return plain values (year ranges, patched contents).

use vstd::prelude::*;

pub mod config;
pub mod error;
pub mod file_ops;
pub mod git_ops;
pub mod regex_ops;
pub mod strutil;

pub use config::Config;
pub use error::CError;

verus! {

/// The comment marker(s) a language puts around a header line: either a
/// single left-hand marker, or an enclosing pair.
#[derive(Debug, Hash)]
pub enum CommentSign {
    LeftOnly(String),
    Enclosing(String, String),
}

/// Spec-level shape of a `CommentSign`: its markers as character sequences.
pub enum CommentSignView {
    LeftOnly(Seq<char>),
    Enclosing(Seq<char>, Seq<char>),
}

impl View for CommentSign {
    type V = CommentSignView;

    open spec fn view(&self) -> CommentSignView {
        match self {
            CommentSign::LeftOnly(left) => CommentSignView::LeftOnly(left@),
            CommentSign::Enclosing(left, right) => CommentSignView::Enclosing(left@, right@),
        }
    }
}

impl Clone for CommentSign {
    fn clone(&self) -> (r: Self)
        ensures
            r@ == self@,
    {
        match self {
            CommentSign::LeftOnly(left) => CommentSign::LeftOnly(left.clone()),
            CommentSign::Enclosing(left, right) => {
                CommentSign::Enclosing(left.clone(), right.clone())
            },
        }
    }
}

impl PartialEq for CommentSign {
    fn eq(&self, other: &Self) -> (r: bool) {
        match (self, other) {
            (CommentSign::LeftOnly(a), CommentSign::LeftOnly(b)) => *a == *b,
            (CommentSign::Enclosing(a1, a2), CommentSign::Enclosing(b1, b2)) => {
                *a1 == *b1 && *a2 == *b2
            },
            _ => false,
        }
    }
}

impl vstd::std_specs::cmp::PartialEqSpecImpl for CommentSign {
    open spec fn obeys_eq_spec() -> bool {
        true
    }

    open spec fn eq_spec(&self, other: &Self) -> bool {
        self@ == other@
    }
}

/// Check one file's text: look its comment style up, fetch the compiled
/// detection pattern, and run the patch engine with the file's resolved
/// years. Everything but reading and writing the file itself.
///
/// A file whose extension maps to no comment style fails alone, with
/// `UnknownCommentSign`; a `RegexError` comes only when the style's wrapped
/// pattern does not compile, so every file with a mapped style and a
/// compilable pattern gets the patch engine's outcome. That outcome is
/// exactly the engine's on the looked-up style's pattern; and when the cache
/// was built for this holder name and `years` is a well-formed year token,
/// the text this call asks to write is one a second call leaves unchanged.
pub fn check_file_copyright(
    config: &Config,
    cache: &regex_ops::CopyrightCache,
    filepath: &str,
    name: &str,
    years: &str,
    content: &str,
) -> (r: Result<file_ops::PatchOutcome, CError>)
    ensures
        ({
            let looked_up = config::spec_lookup(
                config.sign_map_view(),
                config::spec_ext_key(filepath@),
            );
            match looked_up {
                None => r matches Err(e) && (e matches CError::UnknownCommentSign(f) && f@
                    == filepath@),
                Some(cs) => match r {
                    Ok(outcome) => {
                        let pattern = regex_ops::wrapped_pattern(cache.base(), cs);
                        let notice = regex_ops::rendered_notice(cs, name@, years@);
                        &&& outcome@ == file_ops::spec_apply(pattern, content@, years@, notice)
                        &&& (cache.base() == regex_ops::spec_base_regex(name@)
                            && regex_ops::is_year_range_chars(years@) && !notice.contains('\n'))
                            ==> file_ops::spec_apply(
                            pattern,
                            file_ops::applied_content(outcome@, content@),
                            years@,
                            notice,
                        ) is Unchanged
                    },
                    Err(e) => e is RegexError && !regex_ops::regex_compiles(
                        regex_ops::wrapped_pattern(cache.base(), cs),
                    ),
                },
            }
        }),
{
    match config.get_comment_sign(filepath) {
        None => Err(CError::UnknownCommentSign(filepath.to_owned())),
        Some(comment_sign) => {
            let copyright_line = regex_ops::generate_copyright_line(name, comment_sign, years);
            match cache.get_regex(comment_sign) {
                Err(e) => Err(e),
                Ok(regex) => {
                    let outcome = file_ops::apply_copyright(
                        content,
                        &regex,
                        years,
                        copyright_line.as_str(),
                    );
                    proof {
                        let cs = comment_sign@;
                        if cache.base() == regex_ops::spec_base_regex(name@)
                            && regex_ops::is_year_range_chars(years@)
                            && !regex_ops::rendered_notice(cs, name@, years@).contains('\n') {
                            assert(regex_ops::wrapped_pattern(cache.base(), cs)
                                == regex_ops::notice_pattern(cs, name@));
                            assert(regex_ops::regex_pattern(regex) == regex_ops::notice_pattern(
                                cs,
                                name@,
                            ));
                        }
                    }
                    Ok(outcome)
                },
            }
        },
    }
}

/// The aggregate verdict of a run: success only when no per-file job
/// failed; otherwise the distinct could-not-fix condition.
pub fn batch_verdict(failed_count: usize) -> (r: Result<(), CError>)
    ensures
        match r {
            Ok(_) => failed_count == 0,
            Err(e) => failed_count > 0 && e is FixError,
        },
{
    if failed_count == 0 {
        Ok(())
    } else {
        Err(CError::FixError)
    }
}

/// Stable hash of a value, used to address the copyright-pattern cache.
///
/// Relies on `std::collections::hash_map::DefaultHasher`: every hasher made
/// by `DefaultHasher::new` computes the same function, so the result depends
/// only on the bytes the `Hash` impl feeds it. Nothing further is promised
/// here: callers that need to distinguish two values compare the values
/// themselves.
#[verifier::external_body]
pub fn get_hash<T: std::hash::Hash>(obj: &T) -> u64 {
    let mut hasher = std::collections::hash_map::DefaultHasher::new();
    obj.hash(&mut hasher);
    std::hash::Hasher::finish(&hasher)
}

} // verus!
