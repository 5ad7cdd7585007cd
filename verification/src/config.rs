//! The run's configuration: which comment style belongs to which file
//! extension, and which files are ignored.
//!
//! Loading the configuration from a file is the caller's business; the
//! `Config` here is built from plain values. Path-glob matching is done by
//! the `glob` crate behind the trusted items declared here; the lookup and
//! filtering logic around it is verified.

use vstd::prelude::*;

use crate::error::CError;
use crate::CommentSign;
use crate::CommentSignView;

verus! {

#[verifier::external_type_specification]
#[verifier::external_body]
pub struct ExGlobPattern(glob::Pattern);

/// The text a `glob::Pattern` was compiled from, as `Pattern::as_str`
/// returns it.
pub uninterp spec fn glob_pattern_text(p: glob::Pattern) -> Seq<char>;

/// Whether a glob pattern matches a path: a function of the two texts alone.
pub uninterp spec fn glob_matches(pattern: Seq<char>, path: Seq<char>) -> bool;

/// Whether `glob::Pattern::new` accepts an expression: a function of the
/// expression text alone.
pub uninterp spec fn glob_compiles(expr: Seq<char>) -> bool;

/// Relies on `glob::Pattern::new` and `Pattern::as_str`: whether compilation
/// succeeds depends on the expression text alone, and on success the
/// returned pattern reports exactly the text it was compiled from.
#[verifier::external_body]
fn glob_new(expr: &str) -> (r: Option<glob::Pattern>)
    ensures
        r is Some <==> glob_compiles(expr@),
        match r {
            Some(p) => glob_pattern_text(p) == expr@,
            None => true,
        },
{
    glob::Pattern::new(expr).ok()
}

/// Relies on `glob::Pattern::matches`: the verdict depends on the pattern
/// and the path alone.
#[verifier::external_body]
fn glob_match(p: &glob::Pattern, path: &str) -> (r: bool)
    ensures
        r == glob_matches(glob_pattern_text(*p), path@),
{
    p.matches(path)
}

/// Index of the last occurrence of `c`, or -1.
pub open spec fn last_index_of_char(s: Seq<char>, c: char) -> int
    decreases s.len(),
{
    if s.len() == 0 {
        -1
    } else if s.last() == c {
        s.len() - 1
    } else {
        last_index_of_char(s.drop_last(), c)
    }
}

/// The final path component: everything after the last `/`.
pub open spec fn spec_basename(p: Seq<char>) -> Seq<char> {
    p.skip(last_index_of_char(p, '/') + 1)
}

/// The key a file is looked up under: its extension, or the whole file name
/// when it has none (including names that start with their only dot).
pub open spec fn spec_ext_key(p: Seq<char>) -> Seq<char> {
    let base = spec_basename(p);
    let dot = last_index_of_char(base, '.');
    if dot <= 0 {
        base
    } else {
        base.skip(dot + 1)
    }
}

/// First comment style filed under the key.
pub open spec fn spec_lookup(
    map: Seq<(Seq<char>, CommentSignView)>,
    key: Seq<char>,
) -> Option<CommentSignView>
    decreases map.len(),
{
    if map.len() == 0 {
        None
    } else if map[0].0 == key {
        Some(map[0].1)
    } else {
        spec_lookup(map.skip(1), key)
    }
}

/// A path is ignored when any ignore pattern matches it.
pub open spec fn is_ignored(patterns: Seq<Seq<char>>, path: Seq<char>) -> bool {
    exists|i: int| 0 <= i < patterns.len() && glob_matches(#[trigger] patterns[i], path)
}

/// The extension-to-comment-style mapping and the ignore globs of one run.
pub struct Config {
    comment_sign_map: Vec<(String, CommentSign)>,
    glob_pattern: Vec<glob::Pattern>,
}

impl Config {
    /// The mapping, as text keys and comment-style shapes.
    pub closed spec fn sign_map_view(&self) -> Seq<(Seq<char>, CommentSignView)> {
        self.comment_sign_map@.map_values(|p: (String, CommentSign)| (p.0@, p.1@))
    }

    /// The texts of the ignore patterns that compiled.
    pub closed spec fn ignore_patterns(&self) -> Seq<Seq<char>> {
        self.glob_pattern@.map_values(|p: glob::Pattern| glob_pattern_text(p))
    }

    /// Build a configuration from the extension mapping and the ignore-glob
    /// expressions for files and directories. The kept ignore patterns are
    /// exactly the given expressions that compile as globs, in order, the
    /// file expressions before the directory ones.
    pub fn new(
        comment_signs: Vec<(String, CommentSign)>,
        ignore_files: Vec<String>,
        ignore_dirs: Vec<String>,
    ) -> (r: Config)
        ensures
            r.sign_map_view() == comment_signs@.map_values(
                |p: (String, CommentSign)| (p.0@, p.1@),
            ),
            r.ignore_patterns() == (ignore_files@.map_values(|s: String| s@)
                + ignore_dirs@.map_values(|s: String| s@)).filter(
                |e: Seq<char>| glob_compiles(e),
            ),
    {
        let mut cfg = Config { comment_sign_map: comment_signs, glob_pattern: Vec::new() };
        cfg.build_glob_pattern(&ignore_files, &ignore_dirs);
        cfg
    }

    /// Compile the ignore expressions, dropping exactly those the glob crate
    /// rejects and keeping the rest in order, files first.
    fn build_glob_pattern(&mut self, ignore_files: &Vec<String>, ignore_dirs: &Vec<String>)
        ensures
            final(self).comment_sign_map == old(self).comment_sign_map,
            final(self).ignore_patterns() == (ignore_files@.map_values(|s: String| s@)
                + ignore_dirs@.map_values(|s: String| s@)).filter(
                |e: Seq<char>| glob_compiles(e),
            ),
    {
        let mut patterns: Vec<glob::Pattern> = Vec::new();
        let ghost files_v = ignore_files@.map_values(|s: String| s@);
        let ghost dirs_v = ignore_dirs@.map_values(|s: String| s@);
        proof {
            assert(files_v.take(0) =~= Seq::<Seq<char>>::empty());
            assert(files_v.take(0).filter(|e: Seq<char>| glob_compiles(e)) =~= Seq::<
                Seq<char>,
            >::empty()) by {
                reveal(Seq::filter);
            }
            assert(patterns@.map_values(|p: glob::Pattern| glob_pattern_text(p)) =~= Seq::<
                Seq<char>,
            >::empty());
        }
        let mut i: usize = 0;
        while i < ignore_files.len()
            invariant
                i <= ignore_files@.len(),
                files_v == ignore_files@.map_values(|s: String| s@),
                patterns@.map_values(|p: glob::Pattern| glob_pattern_text(p)) == files_v.take(
                    i as int,
                ).filter(|e: Seq<char>| glob_compiles(e)),
            decreases ignore_files@.len() - i,
        {
            proof {
                assert(files_v[i as int] == ignore_files@[i as int]@);
                assert(files_v.take(i + 1 as int).drop_last() =~= files_v.take(i as int));
                assert(files_v.take(i + 1 as int).last() == files_v[i as int]);
                reveal(Seq::filter);
            }
            match glob_new(ignore_files[i].as_str()) {
                Some(p) => {
                    patterns.push(p);
                    proof {
                        assert(patterns@.map_values(|p2: glob::Pattern| glob_pattern_text(p2))
                            =~= files_v.take(i + 1 as int).filter(
                            |e: Seq<char>| glob_compiles(e),
                        ));
                    }
                },
                None => {
                    proof {
                        assert(patterns@.map_values(|p2: glob::Pattern| glob_pattern_text(p2))
                            =~= files_v.take(i + 1 as int).filter(
                            |e: Seq<char>| glob_compiles(e),
                        ));
                    }
                },
            }
            i = i + 1;
        }
        proof {
            assert(files_v.take(ignore_files@.len() as int) =~= files_v);
            assert(dirs_v.take(0) =~= Seq::<Seq<char>>::empty());
            assert(dirs_v.take(0).filter(|e: Seq<char>| glob_compiles(e)) =~= Seq::<
                Seq<char>,
            >::empty()) by {
                reveal(Seq::filter);
            }
            assert(patterns@.map_values(|p: glob::Pattern| glob_pattern_text(p)) + dirs_v.take(
                0,
            ).filter(|e: Seq<char>| glob_compiles(e)) =~= patterns@.map_values(
                |p: glob::Pattern| glob_pattern_text(p),
            ));
        }
        let mut i: usize = 0;
        while i < ignore_dirs.len()
            invariant
                i <= ignore_dirs@.len(),
                files_v == ignore_files@.map_values(|s: String| s@),
                dirs_v == ignore_dirs@.map_values(|s: String| s@),
                patterns@.map_values(|p: glob::Pattern| glob_pattern_text(p)) == files_v.filter(
                    |e: Seq<char>| glob_compiles(e),
                ) + dirs_v.take(i as int).filter(|e: Seq<char>| glob_compiles(e)),
            decreases ignore_dirs@.len() - i,
        {
            proof {
                assert(dirs_v[i as int] == ignore_dirs@[i as int]@);
                assert(dirs_v.take(i + 1 as int).drop_last() =~= dirs_v.take(i as int));
                assert(dirs_v.take(i + 1 as int).last() == dirs_v[i as int]);
                reveal(Seq::filter);
            }
            match glob_new(ignore_dirs[i].as_str()) {
                Some(p) => {
                    let ghost pre = patterns@.map_values(|p2: glob::Pattern| glob_pattern_text(p2));
                    patterns.push(p);
                    proof {
                        assert(patterns@.map_values(|p2: glob::Pattern| glob_pattern_text(p2))
                            =~= pre.push(dirs_v[i as int]));
                        assert(dirs_v.take(i + 1 as int).filter(|e: Seq<char>| glob_compiles(e))
                            =~= dirs_v.take(i as int).filter(|e: Seq<char>| glob_compiles(e)).push(
                            dirs_v[i as int],
                        ));
                        assert(pre.push(dirs_v[i as int]) =~= files_v.filter(
                            |e: Seq<char>| glob_compiles(e),
                        ) + dirs_v.take(i as int).filter(|e: Seq<char>| glob_compiles(e)).push(
                            dirs_v[i as int],
                        ));
                        assert(patterns@.map_values(|p2: glob::Pattern| glob_pattern_text(p2))
                            =~= files_v.filter(|e: Seq<char>| glob_compiles(e)) + dirs_v.take(
                            i + 1 as int,
                        ).filter(|e: Seq<char>| glob_compiles(e)));
                    }
                },
                None => {
                    proof {
                        assert(patterns@.map_values(|p2: glob::Pattern| glob_pattern_text(p2))
                            =~= files_v.filter(|e: Seq<char>| glob_compiles(e)) + dirs_v.take(
                            i + 1 as int,
                        ).filter(|e: Seq<char>| glob_compiles(e)));
                    }
                },
            }
            i = i + 1;
        }
        self.glob_pattern = patterns;
        proof {
            assert(dirs_v.take(ignore_dirs@.len() as int) =~= dirs_v);
            Seq::<Seq<char>>::filter_distributes_over_add(
                files_v,
                dirs_v,
                |e: Seq<char>| glob_compiles(e),
            );
            assert(self.ignore_patterns() =~= patterns@.map_values(
                |p: glob::Pattern| glob_pattern_text(p),
            ));
            assert(self.ignore_patterns() =~= (files_v + dirs_v).filter(
                |e: Seq<char>| glob_compiles(e),
            ));
        }
    }

    /// The comment style for a file, by its extension — or by its whole name
    /// when it has no extension.
    pub fn get_comment_sign(&self, filename: &str) -> (r: Option<&CommentSign>)
        ensures
            match r {
                Some(cs) => spec_lookup(self.sign_map_view(), spec_ext_key(filename@)) == Some(
                    cs@,
                ),
                None => spec_lookup(self.sign_map_view(), spec_ext_key(filename@)) is None,
            },
    {
        let key = ext_key(filename);
        let mut i: usize = 0;
        while i < self.comment_sign_map.len()
            invariant
                i <= self.comment_sign_map@.len(),
                key@ == spec_ext_key(filename@),
                forall|j: int|
                    0 <= j < i ==> (#[trigger] self.sign_map_view()[j]).0 != key@,
            decreases self.comment_sign_map@.len() - i,
        {
            if self.comment_sign_map[i].0 == key {
                proof {
                    lemma_spec_lookup_found(self.sign_map_view(), key@, i as int);
                }
                return Some(&self.comment_sign_map[i].1);
            }
            i = i + 1;
        }
        proof {
            lemma_spec_lookup_none(self.sign_map_view(), key@);
        }
        None
    }

    /// The comment style for a file, or the per-file failure that reports
    /// the file as skipped: an extension nobody mapped is this file's
    /// problem alone, never the batch's.
    pub fn require_comment_sign<'a>(&'a self, filename: &str) -> (r: Result<&'a CommentSign, CError>)
        ensures
            match r {
                Ok(cs) => spec_lookup(self.sign_map_view(), spec_ext_key(filename@)) == Some(cs@),
                Err(e) => {
                    &&& spec_lookup(self.sign_map_view(), spec_ext_key(filename@)) is None
                    &&& e matches CError::UnknownCommentSign(f) && f@ == filename@
                },
            },
    {
        match self.get_comment_sign(filename) {
            Some(cs) => Ok(cs),
            None => Err(CError::UnknownCommentSign(filename.to_owned())),
        }
    }

    /// The given files with every ignored one removed.
    pub fn filter_files(&self, files: &Vec<String>) -> (r: Vec<String>)
        ensures
            r@.map_values(|s: String| s@) == files@.map_values(|s: String| s@).filter(
                |p: Seq<char>| !is_ignored(self.ignore_patterns(), p),
            ),
    {
        let ghost files_v = files@.map_values(|s: String| s@);
        let ghost pats = self.ignore_patterns();
        let mut r: Vec<String> = Vec::new();
        let mut i: usize = 0;
        proof {
            assert(files_v.take(0) =~= Seq::<Seq<char>>::empty());
            assert(files_v.take(0).filter(|p: Seq<char>| !is_ignored(pats, p)) =~= Seq::<
                Seq<char>,
            >::empty()) by {
                reveal(Seq::filter);
            }
        }
        while i < files.len()
            invariant
                i <= files@.len(),
                files_v == files@.map_values(|s: String| s@),
                pats == self.ignore_patterns(),
                r@.map_values(|s: String| s@) == files_v.take(i as int).filter(
                    |p: Seq<char>| !is_ignored(pats, p),
                ),
            decreases files@.len() - i,
        {
            let ignored = self.is_file_ignored(files[i].as_str());
            proof {
                assert(files_v.take(i + 1 as int).drop_last() =~= files_v.take(i as int));
                assert(files_v.take(i + 1 as int).last() == files_v[i as int]);
                reveal(Seq::filter);
            }
            if !ignored {
                r.push(files[i].clone());
                proof {
                    assert(r@.map_values(|s: String| s@) =~= files_v.take(i + 1 as int).filter(
                        |p: Seq<char>| !is_ignored(pats, p),
                    ));
                }
            } else {
                proof {
                    assert(r@.map_values(|s: String| s@) =~= files_v.take(i + 1 as int).filter(
                        |p: Seq<char>| !is_ignored(pats, p),
                    ));
                }
            }
            i = i + 1;
        }
        proof {
            assert(files_v.take(files@.len() as int) =~= files_v);
        }
        r
    }

    /// Whether any ignore pattern matches the path.
    fn is_file_ignored(&self, path: &str) -> (r: bool)
        ensures
            r == is_ignored(self.ignore_patterns(), path@),
    {
        let mut i: usize = 0;
        while i < self.glob_pattern.len()
            invariant
                i <= self.glob_pattern@.len(),
                forall|j: int|
                    0 <= j < i ==> !glob_matches(#[trigger] self.ignore_patterns()[j], path@),
            decreases self.glob_pattern@.len() - i,
        {
            if glob_match(&self.glob_pattern[i], path) {
                proof {
                    assert(self.ignore_patterns()[i as int] == glob_pattern_text(
                        self.glob_pattern@[i as int],
                    ));
                }
                return true;
            }
            i = i + 1;
        }
        false
    }
}

/// A key found at the first matching index is what the lookup yields.
proof fn lemma_spec_lookup_found(map: Seq<(Seq<char>, CommentSignView)>, key: Seq<char>, i: int)
    requires
        0 <= i < map.len(),
        map[i].0 == key,
        forall|j: int| 0 <= j < i ==> (#[trigger] map[j]).0 != key,
    ensures
        spec_lookup(map, key) == Some(map[i].1),
    decreases i,
{
    if i > 0 {
        assert(forall|j: int| 0 <= j < map.skip(1).len() ==> map.skip(1)[j] == map[j + 1]);
        lemma_spec_lookup_found(map.skip(1), key, i - 1);
    }
}

/// A key no entry carries yields nothing.
proof fn lemma_spec_lookup_none(map: Seq<(Seq<char>, CommentSignView)>, key: Seq<char>)
    requires
        forall|j: int| 0 <= j < map.len() ==> (#[trigger] map[j]).0 != key,
    ensures
        spec_lookup(map, key) is None,
    decreases map.len(),
{
    if map.len() > 0 {
        assert(forall|j: int| 0 <= j < map.skip(1).len() ==> map.skip(1)[j] == map[j + 1]);
        lemma_spec_lookup_none(map.skip(1), key);
    }
}

/// The lookup key of a file name, executable.
pub fn ext_key(filename: &str) -> (r: String)
    ensures
        r@ == spec_ext_key(filename@),
{
    let base = after_last(filename, '/');
    proof {
        assert(base@ == spec_basename(filename@));
    }
    let dot = last_index_exec(base.as_str(), '.');
    match dot {
        Some(d) if d > 0 => suffix_after(base.as_str(), d),
        _ => base,
    }
}

/// Index of the last occurrence of `c` in `s`, executable.
fn last_index_exec(s: &str, c: char) -> (r: Option<usize>)
    ensures
        match r {
            Some(d) => (d as int) < s@.len() && last_index_of_char(s@, c) == d as int,
            None => last_index_of_char(s@, c) == -1,
        },
{
    let n = s.unicode_len();
    let mut i: usize = n;
    proof {
        assert(s@.take(n as int) =~= s@);
    }
    while i > 0
        invariant
            i <= n,
            n == s@.len(),
            last_index_of_char(s@, c) == last_index_of_char(s@.take(i as int), c),
        decreases i,
    {
        let ch = s.get_char(i - 1);
        proof {
            assert(s@.take(i as int).last() == s@[i - 1]);
            assert(s@.take(i as int).drop_last() =~= s@.take(i - 1 as int));
        }
        if ch == c {
            proof {
                assert(last_index_of_char(s@.take(i as int), c) == i - 1);
            }
            return Some(i - 1);
        }
        i = i - 1;
    }
    proof {
        assert(s@.take(0) =~= Seq::<char>::empty());
    }
    None
}

/// Everything after the last occurrence of `c`, or all of `s` when it does
/// not occur.
fn after_last(s: &str, c: char) -> (r: String)
    ensures
        r@ == s@.skip(last_index_of_char(s@, c) + 1),
{
    let idx = last_index_exec(s, c);
    match idx {
        Some(d) => suffix_after(s, d),
        None => {
            let r = s.to_owned();
            proof {
                assert(s@.skip(0) =~= s@);
            }
            r
        },
    }
}

/// The suffix of `s` that follows character position `d`.
fn suffix_after(s: &str, d: usize) -> (r: String)
    requires
        (d as int) < s@.len(),
    ensures
        r@ == s@.skip(d + 1),
{
    let n = s.unicode_len();
    let sub = s.substring_char(d + 1, n);
    let r = sub.to_owned();
    proof {
        assert(s@.subrange(d + 1 as int, n as int) =~= s@.skip(d + 1));
    }
    r
}

} // verus!
