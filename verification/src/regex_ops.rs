//! Build, compile and cache copyright-detection patterns.
//!
//! A detection pattern is assembled from literal text (the comment markers
//! and the copyright holder's name, both escaped) around one capture group
//! that matches a year or an inclusive year range. Compilation and matching
//! are done by the `regex` crate behind the trusted items declared here;
//! everything assembled around them is verified.

use vstd::prelude::*;
use vstd::rwlock::RwLockPredicate;

use crate::error::CError;
use crate::get_hash;
use crate::strutil::push_char;
use crate::CommentSign;
use crate::CommentSignView;

verus! {

#[verifier::external_type_specification]
#[verifier::external_body]
pub struct ExRegex(regex::Regex);

/// The pattern a `regex::Regex` was compiled from, as `Regex::as_str`
/// returns it.
pub uninterp spec fn regex_pattern(re: regex::Regex) -> Seq<char>;

/// What `regex::Regex::captures` yields for group 1 on a given pattern and
/// line: the result is a function of the two texts alone.
pub uninterp spec fn regex_year_capture(pattern: Seq<char>, line: Seq<char>) -> Option<Seq<char>>;

/// Whether `regex::Regex::new`, with its default configuration, accepts a
/// pattern: a function of the pattern text alone.
pub uninterp spec fn regex_compiles(pattern: Seq<char>) -> bool;

/// The characters the `regex` crate treats as metacharacters and accepts in
/// escaped form.
pub open spec fn is_regex_meta(c: char) -> bool {
    ||| c == '\\'
    ||| c == '.'
    ||| c == '+'
    ||| c == '*'
    ||| c == '?'
    ||| c == '('
    ||| c == ')'
    ||| c == '|'
    ||| c == '['
    ||| c == ']'
    ||| c == '{'
    ||| c == '}'
    ||| c == '^'
    ||| c == '$'
}

pub open spec fn escaped_char(c: char) -> Seq<char> {
    if is_regex_meta(c) {
        seq!['\\', c]
    } else {
        seq![c]
    }
}

/// The given text escaped so that a regex matches it literally.
pub open spec fn escaped(s: Seq<char>) -> Seq<char>
    decreases s.len(),
{
    if s.len() == 0 {
        Seq::empty()
    } else {
        escaped_char(s[0]) + escaped(s.skip(1))
    }
}

/// Escaping distributes over concatenation.
pub proof fn lemma_escaped_concat(a: Seq<char>, b: Seq<char>)
    ensures
        escaped(a + b) == escaped(a) + escaped(b),
    decreases a.len(),
{
    if a.len() == 0 {
        assert(a + b =~= b);
        assert(escaped(a) + escaped(b) =~= escaped(b));
    } else {
        assert((a + b).len() > 0);
        assert((a + b)[0] == a[0]);
        assert((a + b).skip(1) =~= a.skip(1) + b);
        lemma_escaped_concat(a.skip(1), b);
        assert(escaped(a + b) == escaped_char(a[0]) + escaped((a + b).skip(1)));
        assert(escaped(a) + escaped(b) =~= escaped_char(a[0]) + (escaped(a.skip(1)) + escaped(b)));
    }
}

pub proof fn lemma_escaped_push(s: Seq<char>, c: char)
    ensures
        escaped(s.push(c)) == escaped(s) + escaped_char(c),
{
    assert(s.push(c) =~= s + seq![c]);
    lemma_escaped_concat(s, seq![c]);
    assert(seq![c].skip(1) =~= Seq::<char>::empty());
    assert(escaped(Seq::<char>::empty()) =~= Seq::<char>::empty());
    assert(escaped(seq![c]) == escaped_char(seq![c][0]) + escaped(seq![c].skip(1)));
    assert(escaped(seq![c]) =~= escaped_char(c));
}

/// The capture group that matches a four-digit year or an inclusive range of
/// two four-digit years.
pub open spec fn year_group() -> Seq<char> {
    r"(\d{4}(-\d{4}){0,1})"@
}

/// The style-independent part of a detection pattern: the copyright marker,
/// the escaped holder name, and the year capture group.
pub open spec fn spec_base_regex(name: Seq<char>) -> Seq<char> {
    r"Copyright \(c\)"@ + " "@ + escaped(name) + " "@ + year_group()
}

/// A base pattern wrapped in a comment style's escaped markers and anchored
/// to the whole line.
pub open spec fn wrapped_pattern(base: Seq<char>, sign: CommentSignView) -> Seq<char> {
    match sign {
        CommentSignView::LeftOnly(left) => "^"@ + escaped(left) + " "@ + base + "$"@,
        CommentSignView::Enclosing(left, right) => {
            "^"@ + escaped(left) + " "@ + base + " "@ + escaped(right) + "$"@
        },
    }
}

/// The full detection pattern for one comment style and holder name.
pub open spec fn notice_pattern(sign: CommentSignView, name: Seq<char>) -> Seq<char> {
    wrapped_pattern(spec_base_regex(name), sign)
}

/// Everything of a rendered notice line that stands before the years.
pub open spec fn notice_prefix(sign: CommentSignView, name: Seq<char>) -> Seq<char> {
    match sign {
        CommentSignView::LeftOnly(left) => left + " "@ + "Copyright (c)"@ + " "@ + name + " "@,
        CommentSignView::Enclosing(left, _) => {
            left + " "@ + "Copyright (c)"@ + " "@ + name + " "@
        },
    }
}

/// Everything of a rendered notice line that stands after the years.
pub open spec fn notice_suffix(sign: CommentSignView) -> Seq<char> {
    match sign {
        CommentSignView::LeftOnly(_) => Seq::empty(),
        CommentSignView::Enclosing(_, right) => " "@ + right,
    }
}

/// One rendered copyright notice line.
pub open spec fn rendered_notice(sign: CommentSignView, name: Seq<char>, years: Seq<char>) -> Seq<
    char,
> {
    notice_prefix(sign, name) + years + notice_suffix(sign)
}

pub open spec fn is_ascii_digit(c: char) -> bool {
    '0' <= c && c <= '9'
}

/// A well-formed year token: `YYYY` or `YYYY-YYYY` in ASCII digits.
pub open spec fn is_year_range_chars(y: Seq<char>) -> bool {
    ||| (y.len() == 4 && (forall|i: int| 0 <= i < 4 ==> is_ascii_digit(#[trigger] y[i])))
    ||| (y.len() == 9 && y[4] == '-' && (forall|i: int|
        (0 <= i < 4 || 5 <= i < 9) ==> is_ascii_digit(#[trigger] y[i])))
}

/// Relies on `regex::Regex::new` and `Regex::as_str`: whether compilation
/// succeeds depends on the pattern text alone, and on success the returned
/// regex reports exactly the pattern text it was compiled from.
#[verifier::external_body]
fn regex_new(pattern: &str) -> (r: Option<regex::Regex>)
    ensures
        r is Some <==> regex_compiles(pattern@),
        match r {
            Some(re) => regex_pattern(re) == pattern@,
            None => true,
        },
{
    regex::Regex::new(pattern).ok()
}

/// Relies on `regex::Regex`'s `Clone`: the clone is the same compiled
/// pattern.
#[verifier::external_body]
pub(crate) fn regex_clone(re: &regex::Regex) -> (r: regex::Regex)
    ensures
        regex_pattern(r) == regex_pattern(*re),
{
    re.clone()
}

/// Look for a copyright notice in one line and hand back the captured year
/// token, if any.
///
/// Relies on `regex::Regex::captures`: the result is a function of the
/// pattern and the line alone; and, for a detection pattern as built here —
/// anchored to the whole line, literal text escaped, one group matching
/// `\d{4}(-\d{4})?` — a line yields a capture exactly when it consists of the
/// pattern's literal prefix, a year token, and the pattern's literal suffix,
/// and group 1 is then that token. (`\d` admits any Unicode decimal digit, so
/// of a captured token only the length and the dash are promised; a token
/// written in ASCII digits is promised to be captured.)
#[verifier::external_body]
pub(crate) fn capture_year(re: &regex::Regex, line: &str) -> (r: Option<String>)
    ensures
        match r {
            Some(y) => regex_year_capture(regex_pattern(*re), line@) == Some(y@),
            None => regex_year_capture(regex_pattern(*re), line@) is None,
        },
        forall|sign: CommentSignView, name: Seq<char>|
            #![trigger notice_pattern(sign, name)]
            regex_pattern(*re) == notice_pattern(sign, name) ==> match r {
                Some(y) => {
                    &&& (y@.len() == 4 || (y@.len() == 9 && y@[4] == '-'))
                    &&& line@ == notice_prefix(sign, name) + y@ + notice_suffix(sign)
                },
                None => forall|y: Seq<char>|
                    is_year_range_chars(y) ==> line@ != rendered_notice(sign, name, y),
            },
        forall|sign: CommentSignView, name: Seq<char>, y: Seq<char>|
            #![trigger rendered_notice(sign, name, y)]
            regex_pattern(*re) == notice_pattern(sign, name) && is_year_range_chars(y) && line@
                == rendered_notice(sign, name, y) ==> match r {
                Some(cap) => cap@ == y,
                None => false,
            },
{
    re.captures(line).and_then(|caps| caps.get(1)).map(|m| m.as_str().to_string())
}

/// Escape regex metacharacters in `text` so that a pattern built from the
/// result matches `text` literally.
pub fn escape_for_regex(text: &str) -> (r: String)
    ensures
        r@ == escaped(text@),
{
    let n = text.unicode_len();
    let mut r = String::new();
    let mut i: usize = 0;
    while i < n
        invariant
            n == text@.len(),
            i <= n,
            r@ == escaped(text@.take(i as int)),
        decreases n - i,
    {
        let c = text.get_char(i);
        proof {
            lemma_escaped_push(text@.take(i as int), c);
            assert(text@.take(i as int).push(c) =~= text@.take(i + 1 as int));
        }
        if c == '\\' || c == '.' || c == '+' || c == '*' || c == '?' || c == '(' || c == ')'
            || c == '|' || c == '[' || c == ']' || c == '{' || c == '}' || c == '^' || c == '$' {
            push_char(&mut r, '\\');
            push_char(&mut r, c);
        } else {
            push_char(&mut r, c);
        }
        i = i + 1;
    }
    proof {
        assert(text@.take(n as int) =~= text@);
    }
    r
}

/// Build the style-independent part of the detection pattern for one
/// copyright holder.
pub fn generate_base_regex(name: &str) -> (r: String)
    ensures
        r@ == spec_base_regex(name@),
{
    let mut r = String::from_str(r"Copyright \(c\)");
    r.append(" ");
    let escaped_name = escape_for_regex(name);
    r.append(escaped_name.as_str());
    r.append(" ");
    r.append(r"(\d{4}(-\d{4}){0,1})");
    r
}

/// Wrap a base pattern in a comment style's escaped markers and compile it.
/// Compilation succeeds exactly when the regex crate accepts the wrapped
/// pattern.
pub fn generate_comment_regex(base_regex: &str, comment_sign: &CommentSign) -> (r: Result<
    regex::Regex,
    CError,
>)
    ensures
        r is Ok <==> regex_compiles(wrapped_pattern(base_regex@, comment_sign@)),
        match r {
            Ok(re) => regex_pattern(re) == wrapped_pattern(base_regex@, comment_sign@),
            Err(e) => e is RegexError,
        },
{
    let mut pattern = String::from_str("^");
    match comment_sign {
        CommentSign::LeftOnly(left) => {
            let escaped_left = escape_for_regex(left.as_str());
            pattern.append(escaped_left.as_str());
            pattern.append(" ");
            pattern.append(base_regex);
            pattern.append("$");
        },
        CommentSign::Enclosing(left, right) => {
            let escaped_left = escape_for_regex(left.as_str());
            pattern.append(escaped_left.as_str());
            pattern.append(" ");
            pattern.append(base_regex);
            pattern.append(" ");
            let escaped_right = escape_for_regex(right.as_str());
            pattern.append(escaped_right.as_str());
            pattern.append("$");
        },
    }
    proof {
        assert(pattern@ == wrapped_pattern(base_regex@, comment_sign@));
    }
    match regex_new(pattern.as_str()) {
        Some(re) => Ok(re),
        None => Err(CError::RegexError(pattern)),
    }
}

/// Render the notice line that belongs in a file's header: the comment
/// markers around the copyright marker, the holder's name and the years.
pub fn generate_copyright_line(name: &str, comment_sign: &CommentSign, years: &str) -> (r: String)
    ensures
        r@ == rendered_notice(comment_sign@, name@, years@),
{
    match comment_sign {
        CommentSign::LeftOnly(left) => {
            let mut r = left.clone();
            r.append(" ");
            r.append("Copyright (c)");
            r.append(" ");
            r.append(name);
            r.append(" ");
            r.append(years);
            r
        },
        CommentSign::Enclosing(left, right) => {
            let mut r = left.clone();
            r.append(" ");
            r.append("Copyright (c)");
            r.append(" ");
            r.append(name);
            r.append(" ");
            r.append(years);
            r.append(" ");
            r.append(right.as_str());
            r
        },
    }
}

/// One memoized compiled pattern: the comment style it was built for, the
/// style's hash (the cache's lookup key), and the compiled regex.
pub struct CacheEntry {
    pub key: u64,
    pub sign: CommentSign,
    pub regex: regex::Regex,
}

impl CacheEntry {
    /// The entry's regex is the detection pattern for its comment style,
    /// wrapped around the cache's base pattern — which, being stored here in
    /// compiled form, is a pattern the regex crate accepts.
    pub open spec fn consistent_with(self, base: Seq<char>) -> bool {
        &&& regex_pattern(self.regex) == wrapped_pattern(base, self.sign@)
        &&& regex_compiles(wrapped_pattern(base, self.sign@))
    }
}

/// The lock invariant of the cache: every stored pattern was compiled for
/// the comment style it is filed under.
pub struct CacheInv {
    pub base: Seq<char>,
}

impl vstd::rwlock::RwLockPredicate<Vec<CacheEntry>> for CacheInv {
    open spec fn inv(self, entries: Vec<CacheEntry>) -> bool {
        forall|i: int|
            0 <= i < entries@.len() ==> (#[trigger] entries@[i]).consistent_with(self.base)
    }
}

/// A thread-safe memo of compiled detection patterns, one per comment style.
///
/// Lookups take a shared (read) lock and may run concurrently; a miss
/// compiles the pattern and inserts it under a write lock. Two callers that
/// race on the same miss may both compile — the two results are equivalent,
/// and both stay correct under the cache invariant.
pub struct CopyrightCache {
    regexes: vstd::rwlock::RwLock<Vec<CacheEntry>, CacheInv>,
    base_regex: String,
}

impl CopyrightCache {
    /// The base pattern this cache wraps for every comment style.
    pub closed spec fn base(&self) -> Seq<char> {
        self.base_regex@
    }

    #[verifier::type_invariant]
    spec fn wf(&self) -> bool {
        self.regexes.pred() == (CacheInv { base: self.base_regex@ })
    }

    pub fn new(base_regex: &str) -> (r: Self)
        ensures
            r.base() == base_regex@,
    {
        let entries: Vec<CacheEntry> = Vec::new();
        let ghost pred = CacheInv { base: base_regex@ };
        assert(pred.inv(entries));
        CopyrightCache {
            regexes: vstd::rwlock::RwLock::new(entries, Ghost(pred)),
            base_regex: String::from_str(base_regex),
        }
    }

    /// The compiled detection pattern for one comment style: the memoized
    /// one if present, a freshly compiled (and memoized) one otherwise.
    /// Success exactly when the regex crate accepts the style's wrapped
    /// pattern.
    pub fn get_regex(&self, comment_sign: &CommentSign) -> (r: Result<regex::Regex, CError>)
        ensures
            r is Ok <==> regex_compiles(wrapped_pattern(self.base(), comment_sign@)),
            match r {
                Ok(re) => regex_pattern(re) == wrapped_pattern(self.base(), comment_sign@),
                Err(e) => e is RegexError,
            },
    {
        proof {
            use_type_invariant(self);
        }
        let c_sign_hash = get_hash(comment_sign);

        let read_handle = self.regexes.acquire_read();
        let entries = read_handle.borrow();
        let n = entries.len();
        let mut i: usize = 0;
        while i < n
            invariant
                n == entries@.len(),
                i <= n,
                forall|j: int|
                    0 <= j < n ==> (#[trigger] entries@[j]).consistent_with(self.base()),
            decreases n - i,
        {
            let entry = &entries[i];
            if entry.key == c_sign_hash && entry.sign == *comment_sign {
                let re = regex_clone(&entry.regex);
                read_handle.release_read();
                return Ok(re);
            }
            i = i + 1;
        }
        read_handle.release_read();

        match generate_comment_regex(self.base_regex.as_str(), comment_sign) {
            Ok(re) => {
                let (mut entries, write_handle) = self.regexes.acquire_write();
                entries.push(
                    CacheEntry {
                        key: c_sign_hash,
                        sign: comment_sign.clone(),
                        regex: regex_clone(&re),
                    },
                );
                write_handle.release_write(entries);
                Ok(re)
            },
            Err(e) => Err(e),
        }
    }
}

} // verus!
