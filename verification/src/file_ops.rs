//! The patch engine: decide whether a file's header already carries the
//! expected copyright notice, and produce the corrected contents when not.
//!
//! Only the first three lines of a file are searched for a notice. A found
//! notice with the wrong years is replaced in place; a missing notice is
//! prepended as a new first line; a correct notice leaves the file untouched.
//! The engine works on the file's text; reading and writing the file belongs
//! to the caller.

use vstd::prelude::*;

use crate::regex_ops::capture_year;
use crate::regex_ops::is_year_range_chars;
use crate::regex_ops::notice_pattern;
use crate::regex_ops::regex_pattern;
use crate::regex_ops::regex_year_capture;
use crate::regex_ops::rendered_notice;
use crate::strutil::push_char;
use crate::CommentSignView;

verus! {

/// How far into a file the engine looks for an existing notice.
pub const HEADER_SEARCH_DEPTH: usize = 3;

/// One step of splitting text into lines: a newline closes the current line,
/// any other character extends it.
pub open spec fn split_step(st: (Seq<Seq<char>>, Seq<char>), c: char) -> (Seq<Seq<char>>, Seq<
    char,
>) {
    if c == '\n' {
        (st.0.push(st.1), Seq::empty())
    } else {
        (st.0, st.1.push(c))
    }
}

pub open spec fn split_fold(s: Seq<char>) -> (Seq<Seq<char>>, Seq<char>)
    decreases s.len(),
{
    if s.len() == 0 {
        (Seq::empty(), Seq::empty())
    } else {
        split_step(split_fold(s.drop_last()), s.last())
    }
}

/// The lines of a text, split on `'\n'`. Empty text is one empty line; a
/// trailing newline yields a final empty line.
pub open spec fn spec_lines(s: Seq<char>) -> Seq<Seq<char>> {
    split_fold(s).0.push(split_fold(s).1)
}

/// The lines joined back with `'\n'`.
pub open spec fn spec_join_lines(ls: Seq<Seq<char>>) -> Seq<char>
    decreases ls.len(),
{
    if ls.len() == 0 {
        Seq::empty()
    } else if ls.len() == 1 {
        ls[0]
    } else {
        spec_join_lines(ls.drop_last()) + seq!['\n'] + ls.last()
    }
}

/// Split lines carry no newline character.
pub proof fn lemma_split_lines_no_newline(s: Seq<char>)
    ensures
        forall|i: int| 0 <= i < spec_lines(s).len() ==> !(#[trigger] spec_lines(s)[i]).contains(
            '\n',
        ),
    decreases s.len(),
{
    if s.len() == 0 {
        assert forall|i: int| 0 <= i < spec_lines(s).len() implies !(#[trigger] spec_lines(
            s,
        )[i]).contains('\n') by {
            assert(spec_lines(s)[i] =~= Seq::<char>::empty());
        }
    } else {
        lemma_split_lines_no_newline(s.drop_last());
        let prev = split_fold(s.drop_last());
        let c = s.last();
        assert forall|i: int| 0 <= i < spec_lines(s).len() implies !(#[trigger] spec_lines(
            s,
        )[i]).contains('\n') by {
            if c == '\n' {
                assert(spec_lines(s) == prev.0.push(prev.1).push(Seq::<char>::empty()));
                if i < spec_lines(s).len() - 1 {
                    assert(spec_lines(s)[i] == spec_lines(s.drop_last())[i]);
                } else {
                    assert(spec_lines(s)[i] =~= Seq::<char>::empty());
                }
            } else {
                assert(spec_lines(s) == prev.0.push(prev.1.push(c)));
                if i < spec_lines(s).len() - 1 {
                    assert(spec_lines(s)[i] == spec_lines(s.drop_last())[i]);
                } else {
                    assert(spec_lines(s)[i] == prev.1.push(c));
                    assert(spec_lines(s.drop_last())[prev.0.len() as int] == prev.1);
                    assert(!prev.1.contains('\n'));
                    assert forall|j: int| 0 <= j < prev.1.push(c).len() implies prev.1.push(c)[j]
                        != '\n' by {
                        if j < prev.1.len() {
                            assert(prev.1.push(c)[j] == prev.1[j]);
                        }
                    }
                }
            }
        }
    }
}

/// Joining lines that carry no newline and splitting again gives the lines
/// back.
pub proof fn lemma_split_join(ls: Seq<Seq<char>>)
    requires
        ls.len() > 0,
        forall|i: int| 0 <= i < ls.len() ==> !(#[trigger] ls[i]).contains('\n'),
    ensures
        spec_lines(spec_join_lines(ls)) == ls,
    decreases ls.len(),
{
    if ls.len() == 1 {
        lemma_split_no_newline_single(ls[0]);
        assert(spec_lines(spec_join_lines(ls)) =~= ls);
    } else {
        lemma_split_join(ls.drop_last());
        let joined = spec_join_lines(ls.drop_last()) + seq!['\n'] + ls.last();
        lemma_split_fold_append_line(spec_join_lines(ls.drop_last()), ls.last());
        assert(spec_lines(joined) =~= spec_lines(spec_join_lines(ls.drop_last())).push(ls.last()));
        assert(spec_lines(spec_join_lines(ls)) =~= ls.drop_last().push(ls.last()));
        assert(ls.drop_last().push(ls.last()) =~= ls);
    }
}

/// Splitting a newline-free text gives that text as the only line.
proof fn lemma_split_no_newline_single(l: Seq<char>)
    requires
        !l.contains('\n'),
    ensures
        split_fold(l).0 =~= Seq::<Seq<char>>::empty(),
        split_fold(l).1 =~= l,
    decreases l.len(),
{
    if l.len() > 0 {
        assert(l[l.len() - 1] != '\n');
        assert(!l.drop_last().contains('\n')) by {
            assert forall|j: int| 0 <= j < l.drop_last().len() implies l.drop_last()[j] != '\n' by {
                assert(l.drop_last()[j] == l[j]);
            }
        }
        lemma_split_no_newline_single(l.drop_last());
        assert(split_fold(l).1 =~= l.drop_last().push(l.last()));
        assert(l.drop_last().push(l.last()) =~= l);
    }
}

/// Appending `'\n'` and then a newline-free line to a text adds exactly that
/// line to its split.
proof fn lemma_split_fold_append_line(s: Seq<char>, l: Seq<char>)
    requires
        !l.contains('\n'),
    ensures
        split_fold(s + seq!['\n'] + l).0 =~= split_fold(s).0.push(split_fold(s).1),
        split_fold(s + seq!['\n'] + l).1 =~= l,
    decreases l.len(),
{
    if l.len() == 0 {
        assert(s + seq!['\n'] + l =~= s + seq!['\n']);
        assert((s + seq!['\n']).drop_last() =~= s);
        assert((s + seq!['\n']).last() == '\n');
    } else {
        assert(l[l.len() - 1] != '\n');
        assert(!l.drop_last().contains('\n')) by {
            assert forall|j: int| 0 <= j < l.drop_last().len() implies l.drop_last()[j] != '\n' by {
                assert(l.drop_last()[j] == l[j]);
            }
        }
        lemma_split_fold_append_line(s, l.drop_last());
        assert((s + seq!['\n'] + l).drop_last() =~= s + seq!['\n'] + l.drop_last());
        assert((s + seq!['\n'] + l).last() == l.last());
        assert(split_fold(s + seq!['\n'] + l).1 =~= l.drop_last().push(l.last()));
        assert(l.drop_last().push(l.last()) =~= l);
    }
}

/// Split a text into its lines.
pub fn split_lines(content: &str) -> (r: Vec<String>)
    ensures
        r@.map_values(|l: String| l@) == spec_lines(content@),
{
    let n = content.unicode_len();
    let mut acc: Vec<String> = Vec::new();
    let mut cur = String::new();
    let mut i: usize = 0;
    while i < n
        invariant
            n == content@.len(),
            i <= n,
            acc@.map_values(|l: String| l@) == split_fold(content@.take(i as int)).0,
            cur@ == split_fold(content@.take(i as int)).1,
        decreases n - i,
    {
        let c = content.get_char(i);
        proof {
            assert(content@.take(i + 1 as int).drop_last() =~= content@.take(i as int));
            assert(content@.take(i + 1 as int).last() == content@[i as int]);
        }
        if c == '\n' {
            acc.push(cur);
            cur = String::new();
            proof {
                assert(acc@.map_values(|l: String| l@) =~= split_fold(
                    content@.take(i + 1 as int),
                ).0);
            }
        } else {
            push_char(&mut cur, c);
        }
        i = i + 1;
    }
    proof {
        assert(content@.take(n as int) =~= content@);
    }
    acc.push(cur);
    proof {
        assert(acc@.map_values(|l: String| l@) =~= spec_lines(content@));
    }
    acc
}

/// What the patch engine decided for one file: leave it untouched, or
/// rewrite it with the given new contents.
#[derive(Debug)]
pub enum PatchOutcome {
    Unchanged,
    Updated(String),
}

pub enum PatchOutcomeView {
    Unchanged,
    Updated(Seq<char>),
}

impl View for PatchOutcome {
    type V = PatchOutcomeView;

    open spec fn view(&self) -> PatchOutcomeView {
        match self {
            PatchOutcome::Unchanged => PatchOutcomeView::Unchanged,
            PatchOutcome::Updated(c) => PatchOutcomeView::Updated(c@),
        }
    }
}

/// How many of a file's lines are searched: the header depth, or all of them
/// for a shorter file.
pub open spec fn scan_depth(ls: Seq<Seq<char>>) -> int {
    if ls.len() < HEADER_SEARCH_DEPTH {
        ls.len() as int
    } else {
        HEADER_SEARCH_DEPTH as int
    }
}

/// The first line within the header depth, from position `i` on, on which
/// the detection pattern captures a year token; and that token.
pub open spec fn spec_scan_from(p: Seq<char>, ls: Seq<Seq<char>>, i: int) -> Option<
    (int, Seq<char>),
>
    decreases scan_depth(ls) - i,
{
    if i < 0 || i >= scan_depth(ls) {
        None
    } else {
        match regex_year_capture(p, ls[i]) {
            Some(y) => Some((i, y)),
            None => spec_scan_from(p, ls, i + 1),
        }
    }
}

/// What the patch engine does with one file's text: nothing when the first
/// matching header line already carries the expected years; otherwise that
/// line replaced with the notice, or the notice prepended when no line
/// within the header depth matches.
pub open spec fn spec_apply(
    p: Seq<char>,
    content: Seq<char>,
    expected: Seq<char>,
    notice: Seq<char>,
) -> PatchOutcomeView {
    let ls = spec_lines(content);
    match spec_scan_from(p, ls, 0) {
        Some(iy) => {
            if iy.1 == expected {
                PatchOutcomeView::Unchanged
            } else {
                PatchOutcomeView::Updated(spec_join_lines(ls.update(iy.0, notice)))
            }
        },
        None => PatchOutcomeView::Updated(spec_join_lines(seq![notice] + ls)),
    }
}

/// The text a file holds after the engine's outcome is applied to it.
pub open spec fn applied_content(r: PatchOutcomeView, content: Seq<char>) -> Seq<char> {
    match r {
        PatchOutcomeView::Unchanged => content,
        PatchOutcomeView::Updated(c) => c,
    }
}

proof fn lemma_scan_from_finds(p: Seq<char>, ls: Seq<Seq<char>>, k: int, i: int, y: Seq<char>)
    requires
        0 <= k <= i < scan_depth(ls),
        regex_year_capture(p, ls[i]) == Some(y),
        forall|j: int| k <= j < i ==> regex_year_capture(p, #[trigger] ls[j]) is None,
    ensures
        spec_scan_from(p, ls, k) == Some((i, y)),
    decreases i - k,
{
    if k < i {
        lemma_scan_from_finds(p, ls, k + 1, i, y);
    }
}

proof fn lemma_scan_from_none(p: Seq<char>, ls: Seq<Seq<char>>, k: int)
    requires
        0 <= k,
        forall|j: int| k <= j < scan_depth(ls) ==> regex_year_capture(p, #[trigger] ls[j]) is None,
    ensures
        spec_scan_from(p, ls, k) is None,
    decreases scan_depth(ls) - k,
{
    if k < scan_depth(ls) {
        lemma_scan_from_none(p, ls, k + 1);
    }
}

/// Join lines back into one text, `'\n'`-separated.
pub fn join_lines(lines: &Vec<String>) -> (r: String)
    ensures
        r@ == spec_join_lines(lines@.map_values(|l: String| l@)),
{
    let ghost ls = lines@.map_values(|l: String| l@);
    if lines.len() == 0 {
        return String::new();
    }
    let mut r = lines[0].clone();
    let mut i: usize = 1;
    proof {
        assert(ls.take(1) =~= seq![ls[0]]);
        assert(spec_join_lines(ls.take(1)) == ls[0]);
    }
    while i < lines.len()
        invariant
            1 <= i <= lines.len(),
            ls == lines@.map_values(|l: String| l@),
            ls.len() == lines@.len(),
            r@ == spec_join_lines(ls.take(i as int)),
        decreases lines.len() - i,
    {
        push_char(&mut r, '\n');
        r.append(lines[i].as_str());
        proof {
            assert(ls.take(i + 1 as int).drop_last() =~= ls.take(i as int));
            assert(ls.take(i + 1 as int).last() == ls[i as int]);
            assert(spec_join_lines(ls.take(i + 1 as int)) == spec_join_lines(ls.take(i as int))
                + seq!['\n'] + ls[i as int]);
            assert(r@ =~= spec_join_lines(ls.take(i as int)) + seq!['\n'] + ls[i as int]);
        }
        i = i + 1;
    }
    proof {
        assert(ls.take(lines@.len() as int) =~= ls);
    }
    r
}

/// Check one file's text for the expected copyright notice and produce the
/// corrected text where needed.
///
/// The first postcondition pins the outcome exactly: the first of the first
/// `HEADER_SEARCH_DEPTH` lines on which the pattern captures a year token
/// decides — equal years leave the text untouched, different years have that
/// line replaced by `copyright_line`, no capture has `copyright_line`
/// prepended. The second postcondition is the no-false-negative guarantee
/// behind it: a header line that literally carries the expected notice, with
/// no earlier capturing line, is never rewritten. The third is idempotence:
/// when `copyright_line` renders the expected years for the pattern's own
/// comment style and holder, the text this call leaves behind is one the
/// engine will not touch again.
pub fn apply_copyright(
    content: &str,
    re: &regex::Regex,
    expected_years: &str,
    copyright_line: &str,
) -> (r: PatchOutcome)
    ensures
        r@ == spec_apply(regex_pattern(*re), content@, expected_years@, copyright_line@),
        forall|sign: CommentSignView, name: Seq<char>, i: int|
            #![trigger notice_pattern(sign, name), spec_lines(content@)[i]]
            {
                let ls = spec_lines(content@);
                (regex_pattern(*re) == notice_pattern(sign, name) && is_year_range_chars(
                    expected_years@,
                ) && 0 <= i < scan_depth(ls) && ls[i] == rendered_notice(
                    sign,
                    name,
                    expected_years@,
                ) && (forall|j: int|
                    0 <= j < i ==> regex_year_capture(
                        regex_pattern(*re),
                        #[trigger] ls[j],
                    ) is None)) ==> r@ is Unchanged
            },
        forall|sign: CommentSignView, name: Seq<char>|
            #![trigger notice_pattern(sign, name)]
            (regex_pattern(*re) == notice_pattern(sign, name) && is_year_range_chars(
                expected_years@,
            ) && copyright_line@ == rendered_notice(sign, name, expected_years@)
                && !copyright_line@.contains('\n')) ==> spec_apply(
                regex_pattern(*re),
                applied_content(r@, content@),
                expected_years@,
                copyright_line@,
            ) is Unchanged,
{
    let ghost p = regex_pattern(*re);
    let lines = split_lines(content);
    let ghost ls = lines@.map_values(|l: String| l@);
    let depth = if lines.len() < HEADER_SEARCH_DEPTH {
        lines.len()
    } else {
        HEADER_SEARCH_DEPTH
    };
    let expected_owned = expected_years.to_owned();

    let mut i: usize = 0;
    while i < depth
        invariant
            ls == spec_lines(content@),
            ls == lines@.map_values(|l: String| l@),
            ls.len() == lines@.len(),
            depth == scan_depth(ls),
            p == regex_pattern(*re),
            expected_owned@ == expected_years@,
            0 <= i <= depth,
            forall|j: int| 0 <= j < i ==> regex_year_capture(p, #[trigger] ls[j]) is None,
            forall|j: int, sign: CommentSignView, name: Seq<char>, y: Seq<char>|
                #![trigger ls[j], rendered_notice(sign, name, y)]
                (0 <= j < i && p == notice_pattern(sign, name) && is_year_range_chars(y)) ==> ls[j]
                    != rendered_notice(sign, name, y),
        decreases depth - i,
    {
        let cap = capture_year(re, lines[i].as_str());
        match cap {
            Some(y) => {
                if y == expected_owned {
                    proof {
                        lemma_scan_from_finds(p, ls, 0, i as int, y@);
                    }
                    return PatchOutcome::Unchanged;
                } else {
                    let mut patched: Vec<String> = Vec::new();
                    let mut j: usize = 0;
                    while j < lines.len()
                        invariant
                            i < lines@.len(),
                            0 <= j <= lines@.len(),
                            patched@.len() == j,
                            forall|k: int|
                                0 <= k < j ==> (#[trigger] patched@[k])@ == (if k == i as int {
                                    copyright_line@
                                } else {
                                    lines@[k]@
                                }),
                        decreases lines@.len() - j,
                    {
                        if j == i {
                            patched.push(copyright_line.to_owned());
                        } else {
                            patched.push(lines[j].clone());
                        }
                        j = j + 1;
                    }
                    proof {
                        assert(patched@.map_values(|l: String| l@) =~= ls.update(
                            i as int,
                            copyright_line@,
                        ));
                    }
                    let out = join_lines(&patched);
                    // Hold the fresh notice line against the pattern once:
                    // what it captures there underwrites the idempotence
                    // postcondition.
                    let _notice_capture = capture_year(re, copyright_line);
                    proof {
                        lemma_scan_from_finds(p, ls, 0, i as int, y@);
                        assert(y@ != expected_years@);
                        assert forall|sign: CommentSignView, name: Seq<char>|
                            (p == notice_pattern(sign, name) && is_year_range_chars(
                                expected_years@,
                            ) && copyright_line@ == rendered_notice(sign, name, expected_years@)
                                && !copyright_line@.contains('\n')) implies spec_apply(
                            p,
                            out@,
                            expected_years@,
                            copyright_line@,
                        ) is Unchanged by {
                            assert(regex_year_capture(p, copyright_line@) == Some(
                                expected_years@,
                            ));
                            lemma_apply_updated_line(
                                p,
                                content@,
                                expected_years@,
                                copyright_line@,
                                i as int,
                                regex_year_capture(p, copyright_line@),
                            );
                        }
                        assert forall|sign: CommentSignView, name: Seq<char>, i2: int|
                            #![trigger notice_pattern(sign, name), spec_lines(content@)[i2]]
                            !(p == notice_pattern(sign, name) && is_year_range_chars(
                                expected_years@,
                            ) && 0 <= i2 < scan_depth(ls) && ls[i2] == rendered_notice(
                                sign,
                                name,
                                expected_years@,
                            ) && (forall|j2: int|
                                0 <= j2 < i2 ==> regex_year_capture(
                                    p,
                                    #[trigger] ls[j2],
                                ) is None)) by {
                            if p == notice_pattern(sign, name) && is_year_range_chars(
                                expected_years@,
                            ) && 0 <= i2 < scan_depth(ls) && ls[i2] == rendered_notice(
                                sign,
                                name,
                                expected_years@,
                            ) && (forall|j2: int|
                                0 <= j2 < i2 ==> regex_year_capture(
                                    p,
                                    #[trigger] ls[j2],
                                ) is None) {
                                if i2 < i as int {
                                    assert(ls[i2] != rendered_notice(
                                        sign,
                                        name,
                                        expected_years@,
                                    ));
                                } else if i2 == i as int {
                                    assert(y@ == expected_years@);
                                } else {
                                    assert(regex_year_capture(p, ls[i as int]) is None);
                                }
                            }
                        }
                    }
                    return PatchOutcome::Updated(out);
                }
            },
            None => {
                proof {
                    assert forall|sign: CommentSignView, name: Seq<char>, y2: Seq<char>|
                        (p == notice_pattern(sign, name) && is_year_range_chars(y2)) implies ls[i as int]
                        != rendered_notice(sign, name, y2) by {
                        if ls[i as int] == rendered_notice(sign, name, y2) {
                            assert(regex_year_capture(p, ls[i as int]) is None);
                        }
                    }
                }
                i = i + 1;
            },
        }
    }

    let mut patched: Vec<String> = Vec::new();
    patched.push(copyright_line.to_owned());
    let mut j: usize = 0;
    while j < lines.len()
        invariant
            0 <= j <= lines@.len(),
            patched@.len() == j + 1,
            patched@[0]@ == copyright_line@,
            forall|k: int| 1 <= k < j + 1 ==> (#[trigger] patched@[k])@ == lines@[k - 1]@,
        decreases lines@.len() - j,
    {
        patched.push(lines[j].clone());
        j = j + 1;
    }
    proof {
        assert(patched@.map_values(|l: String| l@) =~= seq![copyright_line@] + ls);
        lemma_scan_from_none(p, ls, 0);
    }
    let out = join_lines(&patched);
    // As above: the capture on the fresh notice line underwrites the
    // idempotence postcondition.
    let _notice_capture = capture_year(re, copyright_line);
    proof {
        assert forall|sign: CommentSignView, name: Seq<char>|
            (p == notice_pattern(sign, name) && is_year_range_chars(expected_years@)
                && copyright_line@ == rendered_notice(sign, name, expected_years@)
                && !copyright_line@.contains('\n')) implies spec_apply(
            p,
            out@,
            expected_years@,
            copyright_line@,
        ) is Unchanged by {
            assert(regex_year_capture(p, copyright_line@) == Some(expected_years@));
            lemma_apply_prepended_line(
                p,
                content@,
                expected_years@,
                copyright_line@,
                regex_year_capture(p, copyright_line@),
            );
        }
        assert forall|sign: CommentSignView, name: Seq<char>, i2: int|
            #![trigger notice_pattern(sign, name), spec_lines(content@)[i2]]
            !(p == notice_pattern(sign, name) && is_year_range_chars(expected_years@) && 0 <= i2
                < scan_depth(ls) && ls[i2] == rendered_notice(sign, name, expected_years@) && (
            forall|j2: int|
                0 <= j2 < i2 ==> regex_year_capture(p, #[trigger] ls[j2]) is None)) by {
            if p == notice_pattern(sign, name) && is_year_range_chars(expected_years@) && 0 <= i2
                < scan_depth(ls) {
                assert(ls[i2] != rendered_notice(sign, name, expected_years@));
            }
        }
    }
    PatchOutcome::Updated(out)
}

/// After a stale header line is replaced by a notice the pattern captures
/// with the expected years, a second scan stops at that line and changes
/// nothing.
proof fn lemma_apply_updated_line(
    p: Seq<char>,
    content: Seq<char>,
    expected: Seq<char>,
    notice: Seq<char>,
    i: int,
    notice_cap: Option<Seq<char>>,
)
    requires
        notice_cap == regex_year_capture(p, notice),
        0 <= i < scan_depth(spec_lines(content)),
        forall|j: int|
            0 <= j < i ==> regex_year_capture(p, #[trigger] spec_lines(content)[j]) is None,
        !notice.contains('\n'),
        notice_cap == Some(expected),
    ensures
        spec_apply(
            p,
            spec_join_lines(spec_lines(content).update(i, notice)),
            expected,
            notice,
        ) is Unchanged,
{
    let ls = spec_lines(content);
    let updated = ls.update(i, notice);
    lemma_split_lines_no_newline(content);
    assert(forall|k: int| 0 <= k < updated.len() ==> !(#[trigger] updated[k]).contains('\n'));
    lemma_split_join(updated);
    assert(spec_lines(spec_join_lines(updated)) == updated);
    assert(scan_depth(updated) == scan_depth(ls));
    assert(forall|j: int|
        0 <= j < i ==> regex_year_capture(p, #[trigger] updated[j]) is None) by {
        assert(forall|j: int| 0 <= j < i ==> updated[j] == ls[j]);
    }
    lemma_scan_from_finds(p, updated, 0, i, expected);
}

/// After the notice is prepended to a header without one, a second scan
/// stops at the first line and changes nothing.
proof fn lemma_apply_prepended_line(
    p: Seq<char>,
    content: Seq<char>,
    expected: Seq<char>,
    notice: Seq<char>,
    notice_cap: Option<Seq<char>>,
)
    requires
        notice_cap == regex_year_capture(p, notice),
        forall|j: int|
            0 <= j < scan_depth(spec_lines(content)) ==> regex_year_capture(
                p,
                #[trigger] spec_lines(content)[j],
            ) is None,
        !notice.contains('\n'),
        notice_cap == Some(expected),
    ensures
        spec_apply(
            p,
            spec_join_lines(seq![notice] + spec_lines(content)),
            expected,
            notice,
        ) is Unchanged,
{
    let ls = spec_lines(content);
    let updated = seq![notice] + ls;
    lemma_split_lines_no_newline(content);
    assert(forall|k: int| 0 <= k < updated.len() ==> !(#[trigger] updated[k]).contains('\n')) by {
        assert(forall|k: int| 1 <= k < updated.len() ==> updated[k] == ls[k - 1]);
        assert(updated[0] == notice);
    }
    lemma_split_join(updated);
    assert(updated[0] == notice);
    assert(scan_depth(updated) >= 1);
    lemma_scan_from_finds(p, updated, 0, 0, expected);
}

} // verus!
