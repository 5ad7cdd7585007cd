//! The history resolver: derive, for every candidate file, the year it was
//! added and the year it was last modified, from a repository's commit list.
//!
//! The resolver walks the commits newest-first. Only single-parent commits
//! contribute changes: merges join histories but are no authorial change by
//! themselves. While walking, every candidate file is tracked under the name
//! it had at the time of the commit under inspection; a rename re-keys the
//! entry to the file's older name so that older commits keep updating the
//! same logical file. The newest commit touching a file fixes its
//! last-modified year; the commit that added it (under whatever name it then
//! had) fixes its added year and resolves it. Entries still unresolved when
//! the root commit is reached have existed since repository inception and
//! take the root commit's year. Obtaining the commit list from an actual
//! repository is the caller's business; the walk itself is pure.

use vstd::prelude::*;

use crate::error::CError;
use crate::file_ops::spec_lines;
use crate::regex_ops::is_ascii_digit;
use crate::file_ops::split_lines;
use crate::strutil::push_char;

verus! {

/// One changed path in a commit: `old_path` is the name on the parent's
/// side, `new_path` the name after the commit (they differ for a rename or a
/// copy), and `is_add` says that the path did not exist before this commit.
#[derive(Debug)]
pub struct FileChange {
    pub old_path: String,
    pub new_path: String,
    pub is_add: bool,
}

pub struct FileChangeView {
    pub old_path: Seq<char>,
    pub new_path: Seq<char>,
    pub is_add: bool,
}

impl View for FileChange {
    type V = FileChangeView;

    open spec fn view(&self) -> FileChangeView {
        FileChangeView { old_path: self.old_path@, new_path: self.new_path@, is_add: self.is_add }
    }
}

/// One commit, reduced to what the resolver reads: its calendar year, its
/// number of parents, and its change set against its single parent. The
/// caller hands commits newest-first, as the walk order demands.
#[derive(Debug)]
pub struct Commit {
    pub year: u32,
    pub parents: usize,
    pub changes: Vec<FileChange>,
}

pub struct CommitView {
    pub year: u32,
    pub parents: int,
    pub changes: Seq<FileChangeView>,
}

impl View for Commit {
    type V = CommitView;

    open spec fn view(&self) -> CommitView {
        CommitView {
            year: self.year,
            parents: self.parents as int,
            changes: self.changes@.map_values(|c: FileChange| c@),
        }
    }
}

/// A candidate file whose provenance is not yet fully known: `path` is the
/// name the walk currently tracks it under, `candidate` the name it has at
/// the reference (the key of the final result). While unresolved, only
/// `last_modified` may be set; the added year resolves the entry.
#[derive(Debug)]
pub struct TrackedFile {
    pub path: String,
    pub candidate: String,
    pub last_modified: Option<u32>,
}

pub struct TrackedFileView {
    pub path: Seq<char>,
    pub candidate: Seq<char>,
    pub last_modified: Option<u32>,
}

impl View for TrackedFile {
    type V = TrackedFileView;

    open spec fn view(&self) -> TrackedFileView {
        TrackedFileView {
            path: self.path@,
            candidate: self.candidate@,
            last_modified: self.last_modified,
        }
    }
}

/// A fully resolved candidate file, keyed by its name at the reference.
#[derive(Debug)]
pub struct ResolvedFile {
    pub path: String,
    pub added: u32,
    pub last_modified: u32,
}

pub struct ResolvedFileView {
    pub path: Seq<char>,
    pub added: u32,
    pub last_modified: u32,
}

impl View for ResolvedFile {
    type V = ResolvedFileView;

    open spec fn view(&self) -> ResolvedFileView {
        ResolvedFileView {
            path: self.path@,
            added: self.added,
            last_modified: self.last_modified,
        }
    }
}

/// The walk's state: the files still unresolved, and those already resolved.
pub struct WalkState {
    pub unresolved: Seq<TrackedFileView>,
    pub resolved: Seq<ResolvedFileView>,
}

/// First index in the unresolved set tracked under `p`, or -1.
pub open spec fn find_path(u: Seq<TrackedFileView>, p: Seq<char>) -> int
    decreases u.len(),
{
    if u.len() == 0 {
        -1
    } else if u[0].path == p {
        0
    } else {
        let r = find_path(u.skip(1), p);
        if r == -1 {
            -1
        } else {
            r + 1
        }
    }
}

pub proof fn lemma_find_path(u: Seq<TrackedFileView>, p: Seq<char>)
    ensures
        find_path(u, p) == -1 ==> forall|j: int| 0 <= j < u.len() ==> (#[trigger] u[j]).path != p,
        find_path(u, p) != -1 ==> {
            &&& 0 <= find_path(u, p) < u.len()
            &&& u[find_path(u, p)].path == p
            &&& forall|j: int| 0 <= j < find_path(u, p) ==> (#[trigger] u[j]).path != p
        },
    decreases u.len(),
{
    if u.len() > 0 && u[0].path != p {
        lemma_find_path(u.skip(1), p);
        let r = find_path(u.skip(1), p);
        if r == -1 {
            assert forall|j: int| 0 <= j < u.len() implies (#[trigger] u[j]).path != p by {
                if j > 0 {
                    assert(u.skip(1)[j - 1] == u[j]);
                }
            }
        } else {
            assert(u.skip(1)[r] == u[r + 1]);
            assert forall|j: int| 0 <= j < r + 1 implies (#[trigger] u[j]).path != p by {
                if j > 0 {
                    assert(u.skip(1)[j - 1] == u[j]);
                }
            }
        }
    }
}

/// The year an entry resolves to when its last-modified year was never set:
/// the resolving commit's own year.
pub open spec fn year_or(o: Option<u32>, y: u32) -> u32 {
    match o {
        Some(t) => t,
        None => y,
    }
}

/// Walk step (a): the newest commit touching a path fixes the last-modified
/// year of the entry tracked under the path's new name. Because the walk
/// runs newest-first, the first write wins; a later write happens only if it
/// carries a newer year than the one recorded.
pub open spec fn touch_last_modified(
    u: Seq<TrackedFileView>,
    year: u32,
    c: FileChangeView,
) -> Seq<TrackedFileView> {
    let i = find_path(u, c.new_path);
    if i >= 0 {
        match u[i].last_modified {
            None => u.update(
                i,
                TrackedFileView { last_modified: Some(year), ..u[i] },
            ),
            Some(t) => {
                if t < year {
                    u.update(i, TrackedFileView { last_modified: Some(year), ..u[i] })
                } else {
                    u
                }
            },
        }
    } else {
        u
    }
}

/// Walk step (b): a pure addition resolves the entry tracked under the added
/// path — that commit's year is its added year — and moves it, under its
/// candidate name, to the resolved set.
pub open spec fn detect_added(st: WalkState, year: u32, c: FileChangeView) -> WalkState {
    if c.is_add {
        let i = find_path(st.unresolved, c.old_path);
        if i >= 0 {
            WalkState {
                unresolved: st.unresolved.remove(i),
                resolved: st.resolved.push(
                    ResolvedFileView {
                        path: st.unresolved[i].candidate,
                        added: year,
                        last_modified: year_or(st.unresolved[i].last_modified, year),
                    },
                ),
            }
        } else {
            st
        }
    } else {
        st
    }
}

/// Walk step (c): a rename re-keys the entry from the new name to the old
/// one, so that older commits keep updating it. An unmatched rename is
/// skipped; so is one whose old name is already tracked, which keeps the
/// tracked names distinct.
pub open spec fn propagate_rename(
    u: Seq<TrackedFileView>,
    c: FileChangeView,
) -> Seq<TrackedFileView> {
    if !c.is_add && c.old_path != c.new_path {
        let i = find_path(u, c.new_path);
        if i >= 0 && find_path(u, c.old_path) == -1 {
            u.update(i, TrackedFileView { path: c.old_path, ..u[i] })
        } else {
            u
        }
    } else {
        u
    }
}

/// One changed path, fully processed: last-modified update, added detection,
/// rename propagation, in that order.
pub open spec fn step_change(st: WalkState, year: u32, c: FileChangeView) -> WalkState {
    let st1 = WalkState { unresolved: touch_last_modified(st.unresolved, year, c), resolved: st.resolved };
    let st2 = detect_added(st1, year, c);
    WalkState { unresolved: propagate_rename(st2.unresolved, c), resolved: st2.resolved }
}

pub open spec fn step_changes(st: WalkState, year: u32, cs: Seq<FileChangeView>) -> WalkState
    decreases cs.len(),
{
    if cs.len() == 0 {
        st
    } else {
        step_changes(step_change(st, year, cs[0]), year, cs.skip(1))
    }
}

/// One commit, processed: only a single-parent commit contributes changes.
pub open spec fn step_commit(st: WalkState, c: CommitView) -> WalkState {
    if c.parents == 1 {
        step_changes(st, c.year, c.changes)
    } else {
        st
    }
}

/// Root-commit fallback: everything still unresolved has existed since
/// repository inception and takes the root commit's year.
pub open spec fn finalize(u: Seq<TrackedFileView>, year: u32) -> Seq<ResolvedFileView> {
    u.map_values(
        |e: TrackedFileView|
            ResolvedFileView {
                path: e.candidate,
                added: year,
                last_modified: year_or(e.last_modified, year),
            },
    )
}

/// The whole walk: stop as soon as nothing is unresolved, finalize at a root
/// commit, report what is left unresolved when the commit list runs out
/// before a root is reached.
pub open spec fn spec_walk(st: WalkState, commits: Seq<CommitView>) -> (
    Seq<ResolvedFileView>,
    Seq<Seq<char>>,
)
    decreases commits.len(),
{
    if st.unresolved.len() == 0 {
        (st.resolved, Seq::empty())
    } else if commits.len() == 0 {
        (st.resolved, st.unresolved.map_values(|e: TrackedFileView| e.candidate))
    } else if commits[0].parents == 0 {
        (st.resolved + finalize(st.unresolved, commits[0].year), Seq::empty())
    } else {
        spec_walk(step_commit(st, commits[0]), commits.skip(1))
    }
}

/// Before the walk, every candidate is unresolved, tracked under its own
/// name, with nothing known about it.
pub open spec fn init_state(candidates: Seq<Seq<char>>) -> WalkState {
    WalkState {
        unresolved: candidates.map_values(
            |p: Seq<char>| TrackedFileView { path: p, candidate: p, last_modified: None },
        ),
        resolved: Seq::empty(),
    }
}

pub open spec fn digit_char(d: int) -> char {
    if d == 0 {
        '0'
    } else if d == 1 {
        '1'
    } else if d == 2 {
        '2'
    } else if d == 3 {
        '3'
    } else if d == 4 {
        '4'
    } else if d == 5 {
        '5'
    } else if d == 6 {
        '6'
    } else if d == 7 {
        '7'
    } else if d == 8 {
        '8'
    } else {
        '9'
    }
}

/// A year written as four decimal digits, most significant first.
pub open spec fn year_digits(y: int) -> Seq<char> {
    seq![
        digit_char(y / 1000 % 10),
        digit_char(y / 100 % 10),
        digit_char(y / 10 % 10),
        digit_char(y % 10),
    ]
}

/// The year text a resolved file gets: the single year when added and last
/// modified coincide, the inclusive range otherwise.
pub open spec fn spec_render_years(added: u32, last_modified: u32) -> Seq<char> {
    if added == last_modified {
        year_digits(added as int)
    } else {
        year_digits(added as int) + seq!['-'] + year_digits(last_modified as int)
    }
}

fn digit_exec(d: u32) -> (c: char)
    requires
        d < 10,
    ensures
        c == digit_char(d as int),
{
    match d {
        0 => '0',
        1 => '1',
        2 => '2',
        3 => '3',
        4 => '4',
        5 => '5',
        6 => '6',
        7 => '7',
        8 => '8',
        _ => '9',
    }
}

fn push_year(s: &mut String, y: u32)
    requires
        y <= 9999,
    ensures
        final(s)@ == old(s)@ + year_digits(y as int),
{
    push_char(s, digit_exec(y / 1000 % 10));
    push_char(s, digit_exec(y / 100 % 10));
    push_char(s, digit_exec(y / 10 % 10));
    push_char(s, digit_exec(y % 10));
    proof {
        assert(final(s)@ =~= old(s)@ + year_digits(y as int));
    }
}

/// Render a resolved file's year text: `"YYYY"`, or `"YYYY-YYYY"` for a
/// genuine range.
pub fn render_years(added: u32, last_modified: u32) -> (r: String)
    requires
        added <= 9999,
        last_modified <= 9999,
    ensures
        r@ == spec_render_years(added, last_modified),
{
    let mut r = String::new();
    push_year(&mut r, added);
    if added != last_modified {
        push_char(&mut r, '-');
        push_year(&mut r, last_modified);
        proof {
            assert(r@ =~= spec_render_years(added, last_modified));
        }
    }
    r
}

/// A rendered year text is a well-formed year token, as the detection
/// pattern captures them.
pub proof fn lemma_rendered_years_well_formed(added: u32, last_modified: u32)
    ensures
        crate::regex_ops::is_year_range_chars(spec_render_years(added, last_modified)),
{
    let y = spec_render_years(added, last_modified);
    if added == last_modified {
        assert(y.len() == 4);
        assert(forall|i: int|
            0 <= i < 4 ==> crate::regex_ops::is_ascii_digit(#[trigger] y[i]));
    } else {
        assert(y.len() == 9);
        assert(y[4] == '-');
        assert(forall|i: int|
            (0 <= i < 4 || 5 <= i < 9) ==> crate::regex_ops::is_ascii_digit(#[trigger] y[i]));
    }
}

pub open spec fn uviews(v: Vec<TrackedFile>) -> Seq<TrackedFileView> {
    v@.map_values(|t: TrackedFile| t@)
}

pub open spec fn rviews(v: Vec<ResolvedFile>) -> Seq<ResolvedFileView> {
    v@.map_values(|t: ResolvedFile| t@)
}

/// Find the entry tracked under `p`.
fn find_entry(u: &Vec<TrackedFile>, p: &String) -> (r: Option<usize>)
    ensures
        match r {
            Some(i) => i < u@.len() && find_path(uviews(*u), p@) == i as int,
            None => find_path(uviews(*u), p@) == -1,
        },
{
    proof {
        lemma_find_path(uviews(*u), p@);
    }
    let mut i: usize = 0;
    while i < u.len()
        invariant
            i <= u@.len(),
            forall|j: int| 0 <= j < i ==> (#[trigger] uviews(*u)[j]).path != p@,
        decreases u@.len() - i,
    {
        if u[i].path == *p {
            proof {
                lemma_find_path(uviews(*u), p@);
                assert(uviews(*u)[i as int].path == p@);
            }
            return Some(i);
        }
        i = i + 1;
    }
    None
}

/// Walk step (a), executable.
fn touch_entry(unresolved: &mut Vec<TrackedFile>, year: u32, change: &FileChange)
    ensures
        uviews(*final(unresolved)) == touch_last_modified(uviews(*old(unresolved)), year, change@),
{
    let found = find_entry(unresolved, &change.new_path);
    match found {
        Some(i) => {
            let needs_update = match unresolved[i].last_modified {
                None => true,
                Some(t) => t < year,
            };
            if needs_update {
                let mut e = unresolved.remove(i);
                e.last_modified = Some(year);
                unresolved.insert(i, e);
                proof {
                    assert(uviews(*unresolved) =~= touch_last_modified(
                        uviews(*old(unresolved)),
                        year,
                        change@,
                    ));
                }
            } else {
                proof {
                    assert(uviews(*unresolved) =~= touch_last_modified(
                        uviews(*old(unresolved)),
                        year,
                        change@,
                    ));
                }
            }
        },
        None => {
            proof {
                assert(uviews(*unresolved) =~= touch_last_modified(
                    uviews(*old(unresolved)),
                    year,
                    change@,
                ));
            }
        },
    }
}

/// Walk step (b), executable.
fn added_entry(
    unresolved: &mut Vec<TrackedFile>,
    resolved: &mut Vec<ResolvedFile>,
    year: u32,
    change: &FileChange,
)
    ensures
        ({
            let st = detect_added(
                WalkState {
                    unresolved: uviews(*old(unresolved)),
                    resolved: rviews(*old(resolved)),
                },
                year,
                change@,
            );
            uviews(*final(unresolved)) == st.unresolved && rviews(*final(resolved)) == st.resolved
        }),
{
    if !change.is_add {
        return ;
    }
    let found = find_entry(unresolved, &change.old_path);
    match found {
        Some(i) => {
            let e = unresolved.remove(i);
            let lm = match e.last_modified {
                Some(t) => t,
                None => year,
            };
            resolved.push(ResolvedFile { path: e.candidate, added: year, last_modified: lm });
            proof {
                assert(uviews(*unresolved) =~= uviews(*old(unresolved)).remove(i as int));
                assert(rviews(*resolved) =~= rviews(*old(resolved)).push(
                    ResolvedFileView {
                        path: uviews(*old(unresolved))[i as int].candidate,
                        added: year,
                        last_modified: year_or(
                            uviews(*old(unresolved))[i as int].last_modified,
                            year,
                        ),
                    },
                ));
            }
        },
        None => {},
    }
}

/// Walk step (c), executable.
fn rename_entry(unresolved: &mut Vec<TrackedFile>, change: &FileChange)
    ensures
        uviews(*final(unresolved)) == propagate_rename(uviews(*old(unresolved)), change@),
{
    if change.is_add {
        return ;
    }
    if change.old_path == change.new_path {
        return ;
    }
    let found_new = find_entry(unresolved, &change.new_path);
    match found_new {
        Some(i) => {
            let found_old = find_entry(unresolved, &change.old_path);
            match found_old {
                None => {
                    let mut e = unresolved.remove(i);
                    e.path = change.old_path.clone();
                    unresolved.insert(i, e);
                    proof {
                        assert(uviews(*unresolved) =~= propagate_rename(
                            uviews(*old(unresolved)),
                            change@,
                        ));
                    }
                },
                Some(_) => {},
            }
        },
        None => {},
    }
}

proof fn lemma_step_changes_snoc(st: WalkState, year: u32, cs: Seq<FileChangeView>, c: FileChangeView)
    ensures
        step_changes(st, year, cs.push(c)) == step_change(step_changes(st, year, cs), year, c),
    decreases cs.len(),
{
    if cs.len() == 0 {
        assert(cs.push(c)[0] == c);
        assert(cs.push(c).skip(1) =~= Seq::<FileChangeView>::empty());
        assert(step_changes(st, year, cs.push(c)) == step_changes(
            step_change(st, year, c),
            year,
            Seq::<FileChangeView>::empty(),
        ));
        assert(step_changes(step_change(st, year, c), year, Seq::<FileChangeView>::empty())
            == step_change(st, year, c));
        assert(step_changes(st, year, cs) == st);
    } else {
        assert(cs.push(c)[0] == cs[0]);
        assert(cs.push(c).skip(1) =~= cs.skip(1).push(c));
        lemma_step_changes_snoc(step_change(st, year, cs[0]), year, cs.skip(1), c);
        assert(step_changes(st, year, cs.push(c)) == step_changes(
            step_change(st, year, cs[0]),
            year,
            cs.skip(1).push(c),
        ));
        assert(step_changes(st, year, cs) == step_changes(
            step_change(st, year, cs[0]),
            year,
            cs.skip(1),
        ));
    }
}

/// A change concerns a path when the path stands on either of its sides.
pub open spec fn change_touches(c: FileChangeView, p: Seq<char>) -> bool {
    c.new_path == p || c.old_path == p
}

/// A commit concerns a path when it contributes changes (single parent) and
/// one of them touches the path.
pub open spec fn commit_touches(c: CommitView, p: Seq<char>) -> bool {
    c.parents == 1 && exists|q: int|
        0 <= q < c.changes.len() && change_touches(#[trigger] c.changes[q], p)
}

pub open spec fn contains_entry(u: Seq<TrackedFileView>, e: TrackedFileView) -> bool {
    exists|j: int| 0 <= j < u.len() && u[j] == e
}

/// No two unresolved files are tracked under the same name.
pub open spec fn distinct_paths(u: Seq<TrackedFileView>) -> bool {
    forall|j1: int, j2: int|
        0 <= j1 < j2 < u.len() ==> (#[trigger] u[j1]).path != (#[trigger] u[j2]).path
}

pub open spec fn no_entry_with_path(u: Seq<TrackedFileView>, q: Seq<char>) -> bool {
    forall|j: int| 0 <= j < u.len() ==> (#[trigger] u[j]).path != q
}

/// A change that does not touch an entry's tracked name leaves the entry in
/// place; the tracked names stay distinct; a name absent before, and not the
/// change's old side, stays absent.
proof fn lemma_step_change_preserves(
    st: WalkState,
    year: u32,
    c: FileChangeView,
    e: TrackedFileView,
    q: Seq<char>,
)
    requires
        distinct_paths(st.unresolved),
        !change_touches(c, e.path),
        contains_entry(st.unresolved, e),
    ensures
        distinct_paths(step_change(st, year, c).unresolved),
        contains_entry(step_change(st, year, c).unresolved, e),
        (c.old_path != q && no_entry_with_path(st.unresolved, q)) ==> no_entry_with_path(
            step_change(st, year, c).unresolved,
            q,
        ),
        step_change(st, year, c).resolved.len() >= st.resolved.len(),
        forall|r: int|
            0 <= r < st.resolved.len() ==> step_change(st, year, c).resolved[r]
                == #[trigger] st.resolved[r],
{
    let absent = c.old_path != q && no_entry_with_path(st.unresolved, q);
    let u0 = st.unresolved;
    lemma_find_path(u0, c.new_path);
    let u1 = touch_last_modified(u0, year, c);
    assert(u1.len() == u0.len());
    assert(forall|j: int| 0 <= j < u0.len() ==> (#[trigger] u1[j]).path == u0[j].path);
    assert(distinct_paths(u1));
    assert(contains_entry(u1, e)) by {
        let j0 = choose|j: int| 0 <= j < u0.len() && u0[j] == e;
        assert(u1[j0] == e);
    }
    assert(absent ==> no_entry_with_path(u1, q));
    let st1 = WalkState { unresolved: u1, resolved: st.resolved };
    lemma_find_path(u1, c.old_path);
    let st2 = detect_added(st1, year, c);
    let u2 = st2.unresolved;
    assert(distinct_paths(u2) && contains_entry(u2, e) && (absent ==> no_entry_with_path(
        u2,
        q,
    ))) by {
        if c.is_add && find_path(u1, c.old_path) >= 0 {
            let i = find_path(u1, c.old_path);
            assert(u1[i].path == c.old_path);
            assert(forall|j: int|
                0 <= j < u2.len() ==> #[trigger] u2[j] == (if j < i {
                    u1[j]
                } else {
                    u1[j + 1]
                }));
            let j0 = choose|j: int| 0 <= j < u1.len() && u1[j] == e;
            assert(u1[j0].path == e.path && e.path != c.old_path);
            assert(j0 != i);
            if j0 < i {
                assert(u2[j0] == e);
            } else {
                assert(u2[j0 - 1] == e);
            }
        }
    }
    lemma_find_path(u2, c.new_path);
    lemma_find_path(u2, c.old_path);
    let u3 = propagate_rename(u2, c);
    assert(distinct_paths(u3) && contains_entry(u3, e) && (absent ==> no_entry_with_path(
        u3,
        q,
    ))) by {
        if !c.is_add && c.old_path != c.new_path && find_path(u2, c.new_path) >= 0 && find_path(
            u2,
            c.old_path,
        ) == -1 {
            let i = find_path(u2, c.new_path);
            assert(u2[i].path == c.new_path);
            let j0 = choose|j: int| 0 <= j < u2.len() && u2[j] == e;
            assert(j0 != i);
            assert(u3[j0] == e);
            assert(forall|j: int|
                0 <= j < u2.len() ==> (#[trigger] u3[j]).path == (if j == i {
                    c.old_path
                } else {
                    u2[j].path
                }));
        }
    }
}

proof fn lemma_step_changes_preserves(
    st: WalkState,
    year: u32,
    cs: Seq<FileChangeView>,
    e: TrackedFileView,
    q: Seq<char>,
)
    requires
        distinct_paths(st.unresolved),
        forall|m: int| 0 <= m < cs.len() ==> !change_touches(#[trigger] cs[m], e.path),
        contains_entry(st.unresolved, e),
    ensures
        distinct_paths(step_changes(st, year, cs).unresolved),
        contains_entry(step_changes(st, year, cs).unresolved, e),
        ((forall|m: int| 0 <= m < cs.len() ==> (#[trigger] cs[m]).old_path != q)
            && no_entry_with_path(st.unresolved, q)) ==> no_entry_with_path(
            step_changes(st, year, cs).unresolved,
            q,
        ),
        forall|r: int|
            0 <= r < st.resolved.len() ==> step_changes(st, year, cs).resolved[r]
                == #[trigger] st.resolved[r],
        step_changes(st, year, cs).resolved.len() >= st.resolved.len(),
    decreases cs.len(),
{
    if cs.len() > 0 {
        lemma_step_change_preserves(st, year, cs[0], e, q);
        let st1 = step_change(st, year, cs[0]);
        assert(forall|m: int| 0 <= m < cs.skip(1).len() ==> cs.skip(1)[m] == cs[m + 1]);
        lemma_step_changes_preserves(st1, year, cs.skip(1), e, q);
    }
}

proof fn lemma_step_commit_preserves(st: WalkState, c: CommitView, e: TrackedFileView, q: Seq<char>)
    requires
        distinct_paths(st.unresolved),
        !commit_touches(c, e.path),
        contains_entry(st.unresolved, e),
    ensures
        distinct_paths(step_commit(st, c).unresolved),
        contains_entry(step_commit(st, c).unresolved, e),
        ((c.parents == 1 ==> forall|m: int|
            0 <= m < c.changes.len() ==> (#[trigger] c.changes[m]).old_path != q)
            && no_entry_with_path(st.unresolved, q)) ==> no_entry_with_path(
            step_commit(st, c).unresolved,
            q,
        ),
        forall|r: int|
            0 <= r < st.resolved.len() ==> step_commit(st, c).resolved[r] == #[trigger] st.resolved[r],
        step_commit(st, c).resolved.len() >= st.resolved.len(),
{
    if c.parents == 1 {
        assert(forall|m: int| 0 <= m < c.changes.len() ==> !change_touches(#[trigger] c.changes[m], e.path));
        lemma_step_changes_preserves(st, c.year, c.changes, e, q);
    }
}

/// Once resolved, always resolved: the walk only appends to the resolved
/// set.
proof fn lemma_walk_resolved_monotone(st: WalkState, commits: Seq<CommitView>)
    ensures
        spec_walk(st, commits).0.len() >= st.resolved.len(),
        forall|r: int|
            0 <= r < st.resolved.len() ==> spec_walk(st, commits).0[r] == #[trigger] st.resolved[r],
    decreases commits.len(),
{
    if st.unresolved.len() == 0 {
    } else if commits.len() == 0 {
    } else if commits[0].parents == 0 {
    } else {
        lemma_step_commit_monotone(st, commits[0]);
        lemma_walk_resolved_monotone(step_commit(st, commits[0]), commits.skip(1));
    }
}

proof fn lemma_step_change_monotone(st: WalkState, year: u32, c: FileChangeView)
    ensures
        step_change(st, year, c).resolved.len() >= st.resolved.len(),
        forall|r: int|
            0 <= r < st.resolved.len() ==> step_change(st, year, c).resolved[r]
                == #[trigger] st.resolved[r],
{
}

proof fn lemma_step_changes_monotone(st: WalkState, year: u32, cs: Seq<FileChangeView>)
    ensures
        step_changes(st, year, cs).resolved.len() >= st.resolved.len(),
        forall|r: int|
            0 <= r < st.resolved.len() ==> step_changes(st, year, cs).resolved[r]
                == #[trigger] st.resolved[r],
    decreases cs.len(),
{
    if cs.len() > 0 {
        lemma_step_change_monotone(st, year, cs[0]);
        lemma_step_changes_monotone(step_change(st, year, cs[0]), year, cs.skip(1));
    }
}

proof fn lemma_step_commit_monotone(st: WalkState, c: CommitView)
    ensures
        step_commit(st, c).resolved.len() >= st.resolved.len(),
        forall|r: int|
            0 <= r < st.resolved.len() ==> step_commit(st, c).resolved[r] == #[trigger] st.resolved[r],
{
    if c.parents == 1 {
        lemma_step_changes_monotone(st, c.year, c.changes);
    }
}

/// With distinct tracked names, the entry found under a name is the one
/// known to carry it.
proof fn lemma_find_unique(u: Seq<TrackedFileView>, e: TrackedFileView, p: Seq<char>)
    requires
        distinct_paths(u),
        contains_entry(u, e),
        e.path == p,
    ensures
        0 <= find_path(u, p) < u.len(),
        u[find_path(u, p)] == e,
{
    lemma_find_path(u, p);
    let j0 = choose|j: int| 0 <= j < u.len() && u[j] == e;
    if find_path(u, p) == -1 {
        assert(u[j0].path == p);
        assert(false);
    } else {
        let fp = find_path(u, p);
        if fp != j0 {
            assert(u[fp].path == u[j0].path);
            assert(false);
        }
    }
}

/// What one commit's change set does when it holds the rename and nothing
/// else that concerns the two names: the entry tracked under the new name
/// takes the commit's year as its last-modified year and is re-keyed to the
/// old name.
proof fn lemma_changes_with_rename(
    st: WalkState,
    year: u32,
    cs: Seq<FileChangeView>,
    m: int,
    old_name: Seq<char>,
    new_name: Seq<char>,
    cand: Seq<char>,
)
    requires
        distinct_paths(st.unresolved),
        contains_entry(
            st.unresolved,
            TrackedFileView { path: new_name, candidate: cand, last_modified: None },
        ),
        no_entry_with_path(st.unresolved, old_name),
        old_name != new_name,
        0 <= m < cs.len(),
        cs[m] == (FileChangeView { old_path: old_name, new_path: new_name, is_add: false }),
        forall|q: int|
            0 <= q < cs.len() && q != m ==> !change_touches(#[trigger] cs[q], old_name)
                && !change_touches(cs[q], new_name),
    ensures
        distinct_paths(step_changes(st, year, cs).unresolved),
        contains_entry(
            step_changes(st, year, cs).unresolved,
            TrackedFileView { path: old_name, candidate: cand, last_modified: Some(year) },
        ),
        forall|r: int|
            0 <= r < st.resolved.len() ==> step_changes(st, year, cs).resolved[r]
                == #[trigger] st.resolved[r],
        step_changes(st, year, cs).resolved.len() >= st.resolved.len(),
    decreases cs.len(),
{
    let e1 = TrackedFileView { path: new_name, candidate: cand, last_modified: None };
    let e2 = TrackedFileView { path: old_name, candidate: cand, last_modified: Some(year) };
    if m > 0 {
        lemma_step_change_preserves(st, year, cs[0], e1, old_name);
        assert(forall|q: int| 0 <= q < cs.skip(1).len() ==> cs.skip(1)[q] == cs[q + 1]);
        lemma_changes_with_rename(
            step_change(st, year, cs[0]),
            year,
            cs.skip(1),
            m - 1,
            old_name,
            new_name,
            cand,
        );
    } else {
        // The rename change itself.
        let c = cs[0];
        let u0 = st.unresolved;
        lemma_find_unique(u0, e1, new_name);
        let i = find_path(u0, new_name);
        let u1 = touch_last_modified(u0, year, c);
        assert(u1 == u0.update(i, TrackedFileView { last_modified: Some(year), ..u0[i] }));
        assert(u1[i] == TrackedFileView { path: new_name, candidate: cand, last_modified: Some(year) });
        assert(forall|q: int| 0 <= q < u1.len() && q != i ==> u1[q] == u0[q]);
        assert(distinct_paths(u1)) by {
            assert(forall|q: int| 0 <= q < u1.len() ==> (#[trigger] u1[q]).path == u0[q].path);
        }
        assert(no_entry_with_path(u1, old_name)) by {
            assert(forall|q: int| 0 <= q < u1.len() ==> (#[trigger] u1[q]).path == u0[q].path);
        }
        let st1 = WalkState { unresolved: u1, resolved: st.resolved };
        assert(detect_added(st1, year, c) == st1);
        lemma_find_unique(
            u1,
            TrackedFileView { path: new_name, candidate: cand, last_modified: Some(year) },
            new_name,
        );
        lemma_find_path(u1, old_name);
        assert(find_path(u1, old_name) == -1) by {
            if find_path(u1, old_name) != -1 {
                assert(u1[find_path(u1, old_name)].path == old_name);
            }
        }
        let u2 = propagate_rename(u1, c);
        assert(find_path(u1, new_name) == i);
        assert(u2 == u1.update(i, TrackedFileView { path: old_name, ..u1[i] }));
        assert(u2[i] == e2);
        assert(distinct_paths(u2)) by {
            assert(forall|q: int|
                0 <= q < u2.len() && q != i ==> (#[trigger] u2[q]).path == u1[q].path
                    && u1[q].path != old_name);
            assert(u2[i].path == old_name);
        }
        assert(step_change(st, year, c) == (WalkState { unresolved: u2, resolved: st.resolved }));
        assert(forall|q: int| 0 <= q < cs.skip(1).len() ==> cs.skip(1)[q] == cs[q + 1]);
        lemma_step_changes_preserves(
            WalkState { unresolved: u2, resolved: st.resolved },
            year,
            cs.skip(1),
            e2,
            new_name,
        );
    }
}

/// What one commit's change set does when it holds the pure addition of the
/// tracked old name: the entry resolves with that commit's year as its added
/// year and keeps its recorded last-modified year.
proof fn lemma_changes_with_add(
    st: WalkState,
    year: u32,
    cs: Seq<FileChangeView>,
    a: int,
    old_name: Seq<char>,
    cand: Seq<char>,
    yk: u32,
)
    requires
        distinct_paths(st.unresolved),
        contains_entry(
            st.unresolved,
            TrackedFileView { path: old_name, candidate: cand, last_modified: Some(yk) },
        ),
        0 <= a < cs.len(),
        cs[a] == (FileChangeView { old_path: old_name, new_path: old_name, is_add: true }),
        forall|q: int| 0 <= q < a ==> !change_touches(#[trigger] cs[q], old_name),
        year <= yk,
    ensures
        exists|r: int|
            0 <= r < step_changes(st, year, cs).resolved.len() && step_changes(
                st,
                year,
                cs,
            ).resolved[r] == (ResolvedFileView { path: cand, added: year, last_modified: yk }),
    decreases cs.len(),
{
    let e2 = TrackedFileView { path: old_name, candidate: cand, last_modified: Some(yk) };
    if a > 0 {
        lemma_step_change_preserves(st, year, cs[0], e2, cs[0].old_path);
        assert(forall|q: int| 0 <= q < cs.skip(1).len() ==> cs.skip(1)[q] == cs[q + 1]);
        let st1 = step_change(st, year, cs[0]);
        lemma_changes_with_add(st1, year, cs.skip(1), a - 1, old_name, cand, yk);
        assert(step_changes(st, year, cs) == step_changes(st1, year, cs.skip(1)));
        let target = ResolvedFileView { path: cand, added: year, last_modified: yk };
        let r0 = choose|r: int|
            0 <= r < step_changes(st1, year, cs.skip(1)).resolved.len() && step_changes(
                st1,
                year,
                cs.skip(1),
            ).resolved[r] == target;
        assert(step_changes(st, year, cs).resolved[r0] == target);
    } else {
        let c = cs[0];
        let u0 = st.unresolved;
        lemma_find_unique(u0, e2, old_name);
        let i = find_path(u0, old_name);
        let u1 = touch_last_modified(u0, year, c);
        assert(u1 == u0) by {
            assert(u0[i].last_modified == Some(yk));
            assert(!(yk < year));
        }
        let st1 = WalkState { unresolved: u1, resolved: st.resolved };
        let st2 = detect_added(st1, year, c);
        assert(st2.resolved == st.resolved.push(
            ResolvedFileView { path: cand, added: year, last_modified: yk },
        ));
        assert(st2.resolved[st.resolved.len() as int] == (ResolvedFileView {
            path: cand,
            added: year,
            last_modified: yk,
        }));
        assert(step_change(st, year, c).resolved == st2.resolved);
        lemma_step_changes_monotone(step_change(st, year, c), year, cs.skip(1));
        let target = ResolvedFileView { path: cand, added: year, last_modified: yk };
        let r0 = st.resolved.len() as int;
        assert(step_changes(st, year, cs) == step_changes(
            step_change(st, year, c),
            year,
            cs.skip(1),
        ));
        assert(step_changes(st, year, cs).resolved[r0] == target);
    }
}

/// The walk resolves an entry that no commit touches with the root commit's
/// year, for both of its years.
proof fn lemma_walk_untouched(st: WalkState, commits: Seq<CommitView>, e: TrackedFileView)
    requires
        distinct_paths(st.unresolved),
        contains_entry(st.unresolved, e),
        commits.len() > 0,
        commits.last().parents == 0,
        forall|i: int| 0 <= i < commits.len() - 1 ==> (#[trigger] commits[i]).parents != 0,
        forall|i: int| 0 <= i < commits.len() ==> !commit_touches(#[trigger] commits[i], e.path),
    ensures
        exists|r: int|
            0 <= r < spec_walk(st, commits).0.len() && spec_walk(st, commits).0[r]
                == (ResolvedFileView {
                path: e.candidate,
                added: commits.last().year,
                last_modified: year_or(e.last_modified, commits.last().year),
            }),
    decreases commits.len(),
{
    assert(st.unresolved.len() > 0);
    if commits.len() == 1 {
        let year = commits[0].year;
        assert(commits.last() == commits[0]);
        let j0 = choose|j: int| 0 <= j < st.unresolved.len() && st.unresolved[j] == e;
        assert(finalize(st.unresolved, year)[j0] == (ResolvedFileView {
            path: e.candidate,
            added: year,
            last_modified: year_or(e.last_modified, year),
        }));
        assert(spec_walk(st, commits).0 == st.resolved + finalize(st.unresolved, year));
        assert(spec_walk(st, commits).0.len() == st.resolved.len() + st.unresolved.len());
        assert(spec_walk(st, commits).0[st.resolved.len() + j0] == (ResolvedFileView {
            path: e.candidate,
            added: year,
            last_modified: year_or(e.last_modified, year),
        }));
    } else {
        assert(!commit_touches(commits[0], e.path));
        assert(commits[0].parents != 0);
        assert(commits[0].parents == 1 ==> forall|q: int|
            0 <= q < commits[0].changes.len() ==> !change_touches(
                #[trigger] commits[0].changes[q],
                e.path,
            ));
        lemma_step_commit_preserves(st, commits[0], e, e.path);
        assert(forall|i: int| 0 <= i < commits.skip(1).len() ==> commits.skip(1)[i] == commits[i
            + 1]);
        assert(commits.skip(1).last() == commits.last());
        let st1 = step_commit(st, commits[0]);
        lemma_walk_untouched(st1, commits.skip(1), e);
        lemma_walk_skip_commit(st, commits);
        let target = ResolvedFileView {
            path: e.candidate,
            added: commits.last().year,
            last_modified: year_or(e.last_modified, commits.last().year),
        };
        let r0 = choose|r: int|
            0 <= r < spec_walk(st1, commits.skip(1)).0.len() && spec_walk(
                st1,
                commits.skip(1),
            ).0[r] == target;
        assert(spec_walk(st, commits).0[r0] == target);
    }
}

/// Root-commit fallback: a candidate file that no commit in the walk touches
/// — present since the very first commit and never modified again — resolves
/// to added = last modified = the root commit's year.
pub proof fn lemma_root_commit_fallback(
    candidates: Seq<Seq<char>>,
    commits: Seq<CommitView>,
    p: Seq<char>,
)
    requires
        candidates.no_duplicates(),
        candidates.contains(p),
        commits.len() > 0,
        commits.last().parents == 0,
        forall|i: int| 0 <= i < commits.len() - 1 ==> (#[trigger] commits[i]).parents != 0,
        forall|i: int| 0 <= i < commits.len() ==> !commit_touches(#[trigger] commits[i], p),
    ensures
        ({
            let out = spec_walk(init_state(candidates), commits);
            exists|r: int|
                0 <= r < out.0.len() && out.0[r] == (ResolvedFileView {
                    path: p,
                    added: commits.last().year,
                    last_modified: commits.last().year,
                })
        }),
{
    let st = init_state(candidates);
    let e = TrackedFileView { path: p, candidate: p, last_modified: None };
    assert(distinct_paths(st.unresolved)) by {
        assert(forall|q: int|
            0 <= q < candidates.len() ==> (#[trigger] st.unresolved[q]).path == candidates[q]);
    }
    assert(contains_entry(st.unresolved, e)) by {
        let idx = choose|i: int| 0 <= i < candidates.len() && candidates[i] == p;
        assert(st.unresolved[idx] == e);
    }
    lemma_walk_untouched(st, commits, e);
}

/// Like `spec_walk`, but never stopping: fold the commits into the state one
/// by one. While nothing is resolved away completely and no root commit is
/// met, the walk and the fold agree.
proof fn lemma_walk_skip_commit(st: WalkState, commits: Seq<CommitView>)
    requires
        st.unresolved.len() > 0,
        commits.len() > 0,
        commits[0].parents != 0,
    ensures
        spec_walk(st, commits) == spec_walk(step_commit(st, commits[0]), commits.skip(1)),
{
}

/// Rename continuity: a candidate renamed from the old to the new name in
/// commit `k` and created, under the old name, in the older commit `j`
/// resolves under the new name, with commit `j`'s year as its added year and
/// commit `k`'s year as its last-modified year — provided no other commit
/// before `j` concerns either name and no root commit interrupts.
pub proof fn lemma_rename_continuity(
    candidates: Seq<Seq<char>>,
    commits: Seq<CommitView>,
    old_name: Seq<char>,
    new_name: Seq<char>,
    k: int,
    m: int,
    j: int,
    a: int,
)
    requires
        candidates.no_duplicates(),
        candidates.contains(new_name),
        !candidates.contains(old_name),
        old_name != new_name,
        0 <= k < j < commits.len(),
        forall|i: int| 0 <= i < j ==> (#[trigger] commits[i]).parents != 0,
        commits[k].parents == 1,
        commits[j].parents == 1,
        0 <= m < commits[k].changes.len(),
        commits[k].changes[m] == (FileChangeView {
            old_path: old_name,
            new_path: new_name,
            is_add: false,
        }),
        forall|q: int|
            0 <= q < commits[k].changes.len() && q != m ==> !change_touches(
                #[trigger] commits[k].changes[q],
                old_name,
            ) && !change_touches(commits[k].changes[q], new_name),
        0 <= a < commits[j].changes.len(),
        commits[j].changes[a] == (FileChangeView {
            old_path: old_name,
            new_path: old_name,
            is_add: true,
        }),
        forall|q: int| 0 <= q < a ==> !change_touches(#[trigger] commits[j].changes[q], old_name),
        forall|i: int|
            0 <= i < j && i != k ==> !commit_touches(#[trigger] commits[i], old_name)
                && !commit_touches(commits[i], new_name),
        commits[j].year <= commits[k].year,
    ensures
        ({
            let out = spec_walk(init_state(candidates), commits);
            exists|r: int|
                0 <= r < out.0.len() && out.0[r] == (ResolvedFileView {
                    path: new_name,
                    added: commits[j].year,
                    last_modified: commits[k].year,
                })
        }),
{
    let st = init_state(candidates);
    let e1 = TrackedFileView { path: new_name, candidate: new_name, last_modified: None };
    assert(distinct_paths(st.unresolved)) by {
        assert(forall|q: int|
            0 <= q < candidates.len() ==> (#[trigger] st.unresolved[q]).path == candidates[q]);
    }
    assert(contains_entry(st.unresolved, e1)) by {
        let idx = choose|i: int| 0 <= i < candidates.len() && candidates[i] == new_name;
        assert(st.unresolved[idx] == e1);
    }
    assert(no_entry_with_path(st.unresolved, old_name)) by {
        assert(forall|q: int|
            0 <= q < candidates.len() ==> (#[trigger] st.unresolved[q]).path == candidates[q]);
        assert(forall|q: int| 0 <= q < candidates.len() ==> candidates[q] != old_name) by {
            assert(!candidates.contains(old_name));
        }
    }
    lemma_rename_phase_one(st, commits, old_name, new_name, new_name, k, m, j, a);
}

/// The walk from a state that tracks the not-yet-renamed candidate, with the
/// rename commit `k` commits ahead.
proof fn lemma_rename_phase_one(
    st: WalkState,
    commits: Seq<CommitView>,
    old_name: Seq<char>,
    new_name: Seq<char>,
    cand: Seq<char>,
    k: int,
    m: int,
    j: int,
    a: int,
)
    requires
        distinct_paths(st.unresolved),
        contains_entry(
            st.unresolved,
            TrackedFileView { path: new_name, candidate: cand, last_modified: None },
        ),
        no_entry_with_path(st.unresolved, old_name),
        old_name != new_name,
        0 <= k < j < commits.len(),
        forall|i: int| 0 <= i < j ==> (#[trigger] commits[i]).parents != 0,
        commits[k].parents == 1,
        commits[j].parents == 1,
        0 <= m < commits[k].changes.len(),
        commits[k].changes[m] == (FileChangeView {
            old_path: old_name,
            new_path: new_name,
            is_add: false,
        }),
        forall|q: int|
            0 <= q < commits[k].changes.len() && q != m ==> !change_touches(
                #[trigger] commits[k].changes[q],
                old_name,
            ) && !change_touches(commits[k].changes[q], new_name),
        0 <= a < commits[j].changes.len(),
        commits[j].changes[a] == (FileChangeView {
            old_path: old_name,
            new_path: old_name,
            is_add: true,
        }),
        forall|q: int| 0 <= q < a ==> !change_touches(#[trigger] commits[j].changes[q], old_name),
        forall|i: int|
            0 <= i < j && i != k ==> !commit_touches(#[trigger] commits[i], old_name)
                && !commit_touches(commits[i], new_name),
        commits[j].year <= commits[k].year,
    ensures
        exists|r: int|
            0 <= r < spec_walk(st, commits).0.len() && spec_walk(st, commits).0[r]
                == (ResolvedFileView {
                path: cand,
                added: commits[j].year,
                last_modified: commits[k].year,
            }),
    decreases k,
{
    let e1 = TrackedFileView { path: new_name, candidate: cand, last_modified: None };
    assert(st.unresolved.len() > 0);
    assert(forall|i: int| 0 <= i < commits.skip(1).len() ==> commits.skip(1)[i] == commits[i + 1]);
    if k > 0 {
        assert(!commit_touches(commits[0], new_name) && !commit_touches(commits[0], old_name));
        assert(commits[0].parents == 1 ==> forall|q: int|
            0 <= q < commits[0].changes.len() ==> !change_touches(
                #[trigger] commits[0].changes[q],
                new_name,
            ) && commits[0].changes[q].old_path != old_name);
        lemma_step_commit_preserves(st, commits[0], e1, old_name);
        lemma_walk_skip_commit(st, commits);
        lemma_rename_phase_one(
            step_commit(st, commits[0]),
            commits.skip(1),
            old_name,
            new_name,
            cand,
            k - 1,
            m,
            j - 1,
            a,
        );
    } else {
        // This commit carries the rename.
        let yk = commits[0].year;
        lemma_changes_with_rename(st, yk, commits[0].changes, m, old_name, new_name, cand);
        let st1 = step_commit(st, commits[0]);
        lemma_walk_skip_commit(st, commits);
        lemma_rename_phase_two(st1, commits.skip(1), old_name, cand, yk, j - 1, a);
        assert(spec_walk(st, commits).0 == spec_walk(st1, commits.skip(1)).0);
    }
}

/// The walk from a state that tracks the candidate under its old name, with
/// the creating commit `j` commits ahead.
proof fn lemma_rename_phase_two(
    st: WalkState,
    commits: Seq<CommitView>,
    old_name: Seq<char>,
    cand: Seq<char>,
    yk: u32,
    j: int,
    a: int,
)
    requires
        distinct_paths(st.unresolved),
        contains_entry(
            st.unresolved,
            TrackedFileView { path: old_name, candidate: cand, last_modified: Some(yk) },
        ),
        0 <= j < commits.len(),
        forall|i: int| 0 <= i < j ==> (#[trigger] commits[i]).parents != 0,
        commits[j].parents == 1,
        0 <= a < commits[j].changes.len(),
        commits[j].changes[a] == (FileChangeView {
            old_path: old_name,
            new_path: old_name,
            is_add: true,
        }),
        forall|q: int| 0 <= q < a ==> !change_touches(#[trigger] commits[j].changes[q], old_name),
        forall|i: int| 0 <= i < j ==> !commit_touches(#[trigger] commits[i], old_name),
        commits[j].year <= yk,
    ensures
        exists|r: int|
            0 <= r < spec_walk(st, commits).0.len() && spec_walk(st, commits).0[r]
                == (ResolvedFileView { path: cand, added: commits[j].year, last_modified: yk }),
    decreases j,
{
    let e2 = TrackedFileView { path: old_name, candidate: cand, last_modified: Some(yk) };
    assert(st.unresolved.len() > 0);
    assert(forall|i: int| 0 <= i < commits.skip(1).len() ==> commits.skip(1)[i] == commits[i + 1]);
    if j > 0 {
        assert(!commit_touches(commits[0], old_name));
        assert(commits[0].parents == 1 ==> forall|q: int|
            0 <= q < commits[0].changes.len() ==> !change_touches(
                #[trigger] commits[0].changes[q],
                old_name,
            ));
        lemma_step_commit_preserves(st, commits[0], e2, old_name);
        lemma_walk_skip_commit(st, commits);
        lemma_rename_phase_two(
            step_commit(st, commits[0]),
            commits.skip(1),
            old_name,
            cand,
            yk,
            j - 1,
            a,
        );
    } else {
        let yj = commits[0].year;
        lemma_changes_with_add(st, yj, commits[0].changes, a, old_name, cand, yk);
        let st1 = step_commit(st, commits[0]);
        lemma_walk_skip_commit(st, commits);
        lemma_walk_resolved_monotone(st1, commits.skip(1));
        let r0 = choose|r: int|
            0 <= r < st1.resolved.len() && st1.resolved[r] == (ResolvedFileView {
                path: cand,
                added: yj,
                last_modified: yk,
            });
        assert(spec_walk(st1, commits.skip(1)).0[r0] == st1.resolved[r0]);
    }
}

/// The outcome of one resolution pass: the files whose years are known, and
/// those whose provenance the commit list did not determine (the list ran
/// out before a root commit was reached).
#[derive(Debug)]
pub struct Resolution {
    pub resolved: Vec<ResolvedFile>,
    pub undetermined: Vec<String>,
}

/// Walk the commit list, newest first, and resolve the added and
/// last-modified years of every candidate file.
pub fn resolve_history(candidates: &Vec<String>, commits: &Vec<Commit>) -> (r: Resolution)
    ensures
        ({
            let out = spec_walk(
                init_state(candidates@.map_values(|s: String| s@)),
                commits@.map_values(|c: Commit| c@),
            );
            &&& rviews(r.resolved) == out.0
            &&& r.undetermined@.map_values(|s: String| s@) == out.1
        }),
{
    let ghost cviews = commits@.map_values(|c: Commit| c@);
    let ghost full = spec_walk(init_state(candidates@.map_values(|s: String| s@)), cviews);

    let ghost cmap = candidates@.map_values(|s: String| s@);
    let mut unresolved: Vec<TrackedFile> = Vec::new();
    let mut i: usize = 0;
    while i < candidates.len()
        invariant
            i <= candidates@.len(),
            cmap == candidates@.map_values(|s: String| s@),
            uviews(unresolved) =~= init_state(cmap).unresolved.take(i as int),
        decreases candidates@.len() - i,
    {
        let ghost pre = uviews(unresolved);
        let entry = TrackedFile {
            path: candidates[i].clone(),
            candidate: candidates[i].clone(),
            last_modified: None,
        };
        proof {
            assert(entry@ == TrackedFileView {
                path: candidates@[i as int]@,
                candidate: candidates@[i as int]@,
                last_modified: None,
            });
        }
        unresolved.push(entry);
        proof {
            assert(cmap[i as int] == candidates@[i as int]@);
            assert(init_state(cmap).unresolved[i as int] == TrackedFileView {
                path: cmap[i as int],
                candidate: cmap[i as int],
                last_modified: None,
            });
            assert(uviews(unresolved) =~= pre.push(entry@));
            assert(init_state(cmap).unresolved.take(i + 1 as int) =~= init_state(
                cmap,
            ).unresolved.take(i as int).push(init_state(cmap).unresolved[i as int]));
            assert(uviews(unresolved) =~= init_state(cmap).unresolved.take(i + 1 as int));
        }
        i = i + 1;
    }
    let mut resolved: Vec<ResolvedFile> = Vec::new();
    proof {
        assert(uviews(unresolved) =~= init_state(cmap).unresolved);
        assert(rviews(resolved) =~= Seq::<ResolvedFileView>::empty());
    }

    proof {
        assert(cviews.skip(0) =~= cviews);
    }
    let mut k: usize = 0;
    while k < commits.len()
        invariant
            k <= commits@.len(),
            cviews == commits@.map_values(|c: Commit| c@),
            cmap == candidates@.map_values(|s: String| s@),
            cviews.len() == commits@.len(),
            full == spec_walk(init_state(cmap), cviews),
            full == spec_walk(
                WalkState { unresolved: uviews(unresolved), resolved: rviews(resolved) },
                cviews.skip(k as int),
            ),
        decreases commits@.len() - k,
    {
        if unresolved.len() == 0 {
            let empty_undetermined: Vec<String> = Vec::new();
            proof {
                assert(uviews(unresolved) =~= Seq::<TrackedFileView>::empty());
                assert(uviews(unresolved).len() == 0);
                assert(full == (rviews(resolved), Seq::<Seq<char>>::empty()));
                assert(empty_undetermined@.map_values(|s: String| s@) =~= Seq::<
                    Seq<char>,
                >::empty());
                assert(candidates@.map_values(|s2: String| s2@) =~= cmap);
                assert(commits@.map_values(|c2: Commit| c2@) =~= cviews);
                assert(spec_walk(init_state(candidates@.map_values(|s2: String| s2@)),
                    commits@.map_values(|c2: Commit| c2@)) == full);
            }
            return Resolution { resolved, undetermined: empty_undetermined };
        }
        let ghost st_k = WalkState { unresolved: uviews(unresolved), resolved: rviews(resolved) };
        let commit = &commits[k];
        proof {
            assert(cviews[k as int] == commits@[k as int]@);
        }
        if commit.parents == 0 {
            let year = commit.year;
            let ghost orig = uviews(unresolved);
            let ghost mut processed: int = 0;
            proof {
                assert(cviews.skip(k as int)[0] == cviews[k as int]);
                assert(cviews[k as int].parents == 0);
                assert(st_k.unresolved.len() > 0);
                assert(spec_walk(st_k, cviews.skip(k as int)) == (
                    st_k.resolved + finalize(st_k.unresolved, year),
                    Seq::<Seq<char>>::empty(),
                ));
                assert(orig.take(0) =~= Seq::<TrackedFileView>::empty());
                assert(finalize(orig.take(0), year) =~= Seq::<ResolvedFileView>::empty());
                assert(rviews(resolved) + finalize(orig.take(0), year) =~= rviews(resolved));
            }
            let ghost base = rviews(resolved);
            while unresolved.len() > 0
                invariant
                    0 <= processed <= orig.len(),
                    uviews(unresolved) =~= orig.skip(processed),
                    rviews(resolved) =~= base + finalize(orig.take(processed), year),
                decreases unresolved@.len(),
            {
                let ghost pre_u = uviews(unresolved);
                let ghost pre_r = rviews(resolved);
                let e = unresolved.remove(0);
                let lm = match e.last_modified {
                    Some(t) => t,
                    None => year,
                };
                resolved.push(ResolvedFile { path: e.candidate, added: year, last_modified: lm });
                proof {
                    assert(pre_u.len() > 0);
                    assert(pre_u =~= orig.skip(processed));
                    assert(orig.skip(processed)[0] == orig[processed]);
                    assert(e@ == pre_u[0]);
                    assert(uviews(unresolved) =~= pre_u.skip(1));
                    assert(orig.skip(processed).skip(1) =~= orig.skip(processed + 1));
                    assert(orig.take(processed + 1) =~= orig.take(processed).push(
                        orig[processed],
                    ));
                    let fin_elem = ResolvedFileView {
                        path: orig[processed].candidate,
                        added: year,
                        last_modified: year_or(orig[processed].last_modified, year),
                    };
                    assert(finalize(orig.take(processed + 1), year) =~= finalize(
                        orig.take(processed),
                        year,
                    ).push(fin_elem));
                    assert(rviews(resolved) =~= pre_r.push(fin_elem));
                    assert(rviews(resolved) =~= base + finalize(orig.take(processed + 1), year));
                    processed = processed + 1;
                }
            }
            let empty_undetermined: Vec<String> = Vec::new();
            proof {
                assert(orig.take(orig.len() as int) =~= orig);
                assert(rviews(resolved) =~= base + finalize(orig, year));
                assert(full == (st_k.resolved + finalize(st_k.unresolved, year), Seq::<
                    Seq<char>,
                >::empty()));
                assert(rviews(resolved) =~= full.0);
                assert(empty_undetermined@.map_values(|s: String| s@) =~= Seq::<
                    Seq<char>,
                >::empty());
                assert(candidates@.map_values(|s2: String| s2@) =~= cmap);
                assert(commits@.map_values(|c2: Commit| c2@) =~= cviews);
                assert(spec_walk(init_state(candidates@.map_values(|s2: String| s2@)),
                    commits@.map_values(|c2: Commit| c2@)) == full);
            }
            return Resolution { resolved, undetermined: empty_undetermined };
        }
        if commit.parents == 1 {
            let year = commit.year;
            let ghost st0 = st_k;
            let ghost chv = cviews[k as int].changes;
            let mut m: usize = 0;
            proof {
                assert(chv.take(0) =~= Seq::<FileChangeView>::empty());
                assert(step_changes(st0, year, chv.take(0)) == st0);
            }
            while m < commit.changes.len()
                invariant
                    m <= commit.changes@.len(),
                    chv == commit.changes@.map_values(|c: FileChange| c@),
                    chv.len() == commit.changes@.len(),
                    year == commit.year,
                    step_changes(st0, year, chv.take(m as int)) == (WalkState {
                        unresolved: uviews(unresolved),
                        resolved: rviews(resolved),
                    }),
                decreases commit.changes@.len() - m,
            {
                let change = &commit.changes[m];
                proof {
                    assert(chv[m as int] == commit.changes@[m as int]@);
                }
                touch_entry(&mut unresolved, year, change);
                added_entry(&mut unresolved, &mut resolved, year, change);
                rename_entry(&mut unresolved, change);
                proof {
                    lemma_step_changes_snoc(st0, year, chv.take(m as int), chv[m as int]);
                    assert(chv.take(m + 1 as int) =~= chv.take(m as int).push(chv[m as int]));
                }
                m = m + 1;
            }
            proof {
                assert(chv.take(chv.len() as int) =~= chv);
                assert(step_commit(st_k, cviews[k as int]) == (WalkState {
                    unresolved: uviews(unresolved),
                    resolved: rviews(resolved),
                }));
            }
        } else {
            proof {
                assert(step_commit(st_k, cviews[k as int]) == st_k);
            }
        }
        proof {
            assert(cviews.skip(k as int)[0] == cviews[k as int]);
            assert(cviews.skip(k as int).skip(1) =~= cviews.skip(k + 1 as int));
            assert(spec_walk(st_k, cviews.skip(k as int)) == spec_walk(
                step_commit(st_k, cviews[k as int]),
                cviews.skip(k + 1 as int),
            ));
        }
        k = k + 1;
    }
    proof {
        assert(cviews.skip(commits@.len() as int) =~= Seq::<CommitView>::empty());
    }
    let mut undetermined: Vec<String> = Vec::new();
    let ghost remaining = uviews(unresolved);
    let ghost mut n: int = 0;
    proof {
        assert(remaining.take(0).map_values(|e: TrackedFileView| e.candidate) =~= Seq::<
            Seq<char>,
        >::empty());
    }
    while unresolved.len() > 0
        invariant
            0 <= n <= remaining.len(),
            uviews(unresolved) =~= remaining.skip(n),
            undetermined@.map_values(|s: String| s@) =~= remaining.take(
                n,
            ).map_values(|e: TrackedFileView| e.candidate),
        decreases unresolved@.len(),
    {
        let ghost pre_u = uviews(unresolved);
        let ghost pre_d = undetermined@.map_values(|s: String| s@);
        let e = unresolved.remove(0);
        undetermined.push(e.candidate);
        proof {
            assert(pre_u.len() > 0);
            assert(pre_u =~= remaining.skip(n));
            assert(remaining.skip(n)[0] == remaining[n]);
            assert(e@ == pre_u[0]);
            assert(uviews(unresolved) =~= pre_u.skip(1));
            assert(remaining.skip(n).skip(1) =~= remaining.skip(n + 1));
            assert(remaining.take(n + 1) =~= remaining.take(n).push(remaining[n]));
            assert(undetermined@.map_values(|s: String| s@) =~= pre_d.push(e.candidate@));
            assert(remaining.take(n + 1).map_values(|e2: TrackedFileView| e2.candidate)
                =~= remaining.take(n).map_values(|e2: TrackedFileView| e2.candidate).push(
                remaining[n].candidate,
            ));
            n = n + 1;
        }
    }
    proof {
        assert(remaining.take(remaining.len() as int) =~= remaining);
        if remaining.len() == 0 {
            assert(remaining.map_values(|e: TrackedFileView| e.candidate) =~= Seq::<
                Seq<char>,
            >::empty());
        }
    }
    proof {
        assert(candidates@.map_values(|s2: String| s2@) =~= cmap);
        assert(commits@.map_values(|c2: Commit| c2@) =~= cviews);
        assert(spec_walk(init_state(candidates@.map_values(|s2: String| s2@)),
            commits@.map_values(|c2: Commit| c2@)) == full);
    }
    Resolution { resolved, undetermined }
}

/// Numeric value of an ASCII digit.
pub open spec fn digit_val(c: char) -> int {
    c as u32 - 48
}

/// A commit header line as the log format used here emits it: `#`, a
/// four-digit year, then the commit's parent hashes, space-separated.
pub open spec fn is_header_line(l: Seq<char>) -> bool {
    &&& l.len() >= 5
    &&& l[0] == '#'
    &&& is_ascii_digit(l[1])
    &&& is_ascii_digit(l[2])
    &&& is_ascii_digit(l[3])
    &&& is_ascii_digit(l[4])
}

pub open spec fn header_year(l: Seq<char>) -> int {
    digit_val(l[1]) * 1000 + digit_val(l[2]) * 100 + digit_val(l[3]) * 10 + digit_val(l[4])
}

/// Number of space-separated tokens among the first `n` characters of `s`:
/// one for each character that follows a space (or starts the text) without
/// being a space itself.
pub open spec fn count_tokens(s: Seq<char>, n: int) -> int
    decreases n,
{
    if n <= 0 {
        0
    } else {
        count_tokens(s, n - 1) + if s[n - 1] != ' ' && (n - 1 == 0 || s[n - 2] == ' ') {
            1int
        } else {
            0int
        }
    }
}

/// How many parents the header line names.
pub open spec fn header_parents(l: Seq<char>) -> int {
    count_tokens(l.skip(5), l.len() - 5)
}

/// Index of the first occurrence of `c`, or -1.
pub open spec fn first_index_of_char(s: Seq<char>, c: char) -> int
    decreases s.len(),
{
    if s.len() == 0 {
        -1
    } else if s[0] == c {
        0
    } else {
        let r = first_index_of_char(s.skip(1), c);
        if r == -1 {
            -1
        } else {
            r + 1
        }
    }
}

proof fn lemma_first_index(s: Seq<char>, c: char, i: int)
    requires
        0 <= i < s.len(),
        s[i] == c,
        forall|j: int| 0 <= j < i ==> s[j] != c,
    ensures
        first_index_of_char(s, c) == i,
    decreases i,
{
    if i > 0 {
        assert(forall|j: int| 0 <= j < s.skip(1).len() ==> s.skip(1)[j] == s[j + 1]);
        lemma_first_index(s.skip(1), c, i - 1);
    }
}

proof fn lemma_first_index_none(s: Seq<char>, c: char)
    requires
        forall|j: int| 0 <= j < s.len() ==> s[j] != c,
    ensures
        first_index_of_char(s, c) == -1,
    decreases s.len(),
{
    if s.len() > 0 {
        assert(forall|j: int| 0 <= j < s.skip(1).len() ==> s.skip(1)[j] == s[j + 1]);
        lemma_first_index_none(s.skip(1), c);
    }
}

/// What one `--name-status` line means: a change the resolver should see, a
/// deletion (nothing to track), or text the parser refuses.
pub enum ParsedChange {
    Take(FileChangeView),
    Ignore,
    Bad,
}

/// The grammar of one change line: a status letter, a tab, and one path —
/// or, for a rename or copy, the status with its score, a tab, the old path,
/// a tab, and the new path.
pub open spec fn spec_parse_change(l: Seq<char>) -> ParsedChange {
    if l.len() >= 2 && l[0] == 'A' && l[1] == '\t' {
        ParsedChange::Take(
            FileChangeView { old_path: l.skip(2), new_path: l.skip(2), is_add: true },
        )
    } else if l.len() >= 2 && (l[0] == 'M' || l[0] == 'T') && l[1] == '\t' {
        ParsedChange::Take(
            FileChangeView { old_path: l.skip(2), new_path: l.skip(2), is_add: false },
        )
    } else if l.len() >= 2 && l[0] == 'D' && l[1] == '\t' {
        ParsedChange::Ignore
    } else if l.len() >= 1 && (l[0] == 'R' || l[0] == 'C') {
        let t1 = first_index_of_char(l, '\t');
        if t1 >= 0 {
            let rest = l.skip(t1 + 1);
            let t2 = first_index_of_char(rest, '\t');
            if t2 >= 0 {
                ParsedChange::Take(
                    FileChangeView {
                        old_path: rest.take(t2),
                        new_path: rest.skip(t2 + 1),
                        is_add: false,
                    },
                )
            } else {
                ParsedChange::Bad
            }
        } else {
            ParsedChange::Bad
        }
    } else {
        ParsedChange::Bad
    }
}

/// The commits collected so far, and the one whose change lines are still
/// being read.
pub open spec fn log_flush(st: (Seq<CommitView>, Option<CommitView>)) -> Seq<CommitView> {
    match st.1 {
        Some(cur) => st.0.push(cur),
        None => st.0,
    }
}

/// One log line folded into the collection state; `None` refuses the line.
pub open spec fn log_step(st: (Seq<CommitView>, Option<CommitView>), l: Seq<char>) -> Option<
    (Seq<CommitView>, Option<CommitView>),
> {
    if l.len() == 0 {
        Some(st)
    } else if is_header_line(l) {
        Some(
            (
                log_flush(st),
                Some(
                    CommitView {
                        year: header_year(l) as u32,
                        parents: header_parents(l),
                        changes: Seq::empty(),
                    },
                ),
            ),
        )
    } else {
        match spec_parse_change(l) {
            ParsedChange::Take(c) => match st.1 {
                Some(cur) => Some(
                    (st.0, Some(CommitView { changes: cur.changes.push(c), ..cur })),
                ),
                None => None,
            },
            ParsedChange::Ignore => match st.1 {
                Some(_) => Some(st),
                None => None,
            },
            ParsedChange::Bad => None,
        }
    }
}

pub open spec fn log_fold(lines: Seq<Seq<char>>, n: int) -> Option<
    (Seq<CommitView>, Option<CommitView>),
>
    decreases n,
{
    if n <= 0 {
        Some((Seq::empty(), None))
    } else {
        match log_fold(lines, n - 1) {
            Some(st) => log_step(st, lines[n - 1]),
            None => None,
        }
    }
}

/// The commit list a whole log text denotes, if the parser accepts every
/// line.
pub open spec fn spec_parse_log(text: Seq<char>) -> Option<Seq<CommitView>> {
    let lines = spec_lines(text);
    match log_fold(lines, lines.len() as int) {
        Some(st) => Some(log_flush(st)),
        None => None,
    }
}

pub open spec fn opt_commit_view(c: Option<Commit>) -> Option<CommitView> {
    match c {
        Some(commit) => Some(commit@),
        None => None,
    }
}

/// The verdict of the post-run diff check: files left changed in the tree
/// are a failure exactly when the caller asked to fail on a diff.
pub fn changes_verdict(diff_files: &Vec<String>, fail_on_diff: bool) -> (r: Result<(), CError>)
    ensures
        match r {
            Ok(_) => !(fail_on_diff && diff_files@.len() > 0),
            Err(e) => fail_on_diff && diff_files@.len() > 0 && e is FilesChanged,
        },
{
    if fail_on_diff && diff_files.len() > 0 {
        Err(CError::FilesChanged)
    } else {
        Ok(())
    }
}

/// The non-empty lines of a command's output.
pub fn parse_cmd_output(output: &str) -> (r: Vec<String>)
    ensures
        r@.map_values(|l: String| l@) == spec_lines(output@).filter(|l: Seq<char>| l.len() != 0),
{
    let lines = split_lines(output);
    let ghost ls = lines@.map_values(|l: String| l@);
    let mut r: Vec<String> = Vec::new();
    let mut i: usize = 0;
    proof {
        assert(ls.take(0) =~= Seq::<Seq<char>>::empty());
        assert(ls.take(0).filter(|l: Seq<char>| l.len() != 0) =~= Seq::<Seq<char>>::empty()) by {
            reveal(Seq::filter);
        }
    }
    while i < lines.len()
        invariant
            i <= lines@.len(),
            ls == lines@.map_values(|l: String| l@),
            r@.map_values(|l: String| l@) == ls.take(i as int).filter(
                |l: Seq<char>| l.len() != 0,
            ),
        decreases lines@.len() - i,
    {
        proof {
            assert(ls.take(i + 1 as int).drop_last() =~= ls.take(i as int));
            assert(ls.take(i + 1 as int).last() == ls[i as int]);
            reveal(Seq::filter);
        }
        if !lines[i].as_str().is_empty() {
            r.push(lines[i].clone());
            proof {
                assert(r@.map_values(|l: String| l@) =~= ls.take(i + 1 as int).filter(
                    |l: Seq<char>| l.len() != 0,
                ));
            }
        } else {
            proof {
                assert(r@.map_values(|l: String| l@) =~= ls.take(i + 1 as int).filter(
                    |l: Seq<char>| l.len() != 0,
                ));
            }
        }
        i = i + 1;
    }
    proof {
        assert(ls.take(lines@.len() as int) =~= ls);
        assert(ls =~= spec_lines(output@));
    }
    r
}

/// Index of the first occurrence of `c` in `s`, executable.
fn first_char_index(s: &str, c: char) -> (r: Option<usize>)
    ensures
        match r {
            Some(d) => (d as int) < s@.len() && first_index_of_char(s@, c) == d as int,
            None => first_index_of_char(s@, c) == -1,
        },
{
    let n = s.unicode_len();
    let mut i: usize = 0;
    while i < n
        invariant
            n == s@.len(),
            i <= n,
            forall|j: int| 0 <= j < i ==> s@[j] != c,
        decreases n - i,
    {
        if s.get_char(i) == c {
            proof {
                lemma_first_index(s@, c, i as int);
            }
            return Some(i);
        }
        i = i + 1;
    }
    proof {
        lemma_first_index_none(s@, c);
    }
    None
}

/// The characters of `s` from position `from` up to `to`, as an owned
/// string.
fn char_range(s: &str, from: usize, to: usize) -> (r: String)
    requires
        from <= to <= s@.len(),
    ensures
        r@ == s@.subrange(from as int, to as int),
{
    s.substring_char(from, to).to_owned()
}

/// Read a commit header line: the year and the parent count it names.
fn try_parse_header(s: &str) -> (r: Option<(u32, usize)>)
    ensures
        match r {
            Some(yp) => is_header_line(s@) && yp.0 as int == header_year(s@) && yp.1 as int
                == header_parents(s@),
            None => !is_header_line(s@),
        },
{
    let n = s.unicode_len();
    if n < 5 {
        return None;
    }
    if s.get_char(0) != '#' {
        return None;
    }
    let c1 = s.get_char(1);
    let c2 = s.get_char(2);
    let c3 = s.get_char(3);
    let c4 = s.get_char(4);
    if !(('0' <= c1 && c1 <= '9') && ('0' <= c2 && c2 <= '9') && ('0' <= c3 && c3 <= '9') && ('0'
        <= c4 && c4 <= '9')) {
        return None;
    }
    let year: u32 = (c1 as u32 - 48) * 1000 + (c2 as u32 - 48) * 100 + (c3 as u32 - 48) * 10 + (
    c4 as u32 - 48);
    let mut cnt: usize = 0;
    let mut j: usize = 5;
    proof {
        assert(count_tokens(s@.skip(5), 0) == 0);
    }
    while j < n
        invariant
            5 <= j <= n,
            n == s@.len(),
            cnt <= j,
            cnt as int == count_tokens(s@.skip(5), j - 5),
        decreases n - j,
    {
        let cj = s.get_char(j);
        let prev = s.get_char(j - 1);
        proof {
            assert(s@.skip(5)[j - 5] == s@[j as int]);
            if j > 5 {
                assert(s@.skip(5)[j - 6] == s@[j - 1]);
            }
        }
        if cj != ' ' && (j == 5 || prev == ' ') {
            cnt = cnt + 1;
        }
        j = j + 1;
    }
    Some((year, cnt))
}

/// What the parser made of one change line.
enum LineChange {
    Take(FileChange),
    Ignore,
    Bad,
}

/// Read one name-status change line.
fn try_parse_change(s: &str) -> (r: LineChange)
    ensures
        match r {
            LineChange::Take(fc) => spec_parse_change(s@) == ParsedChange::Take(fc@),
            LineChange::Ignore => spec_parse_change(s@) is Ignore,
            LineChange::Bad => spec_parse_change(s@) is Bad,
        },
{
    let n = s.unicode_len();
    if n >= 2 {
        let c0 = s.get_char(0);
        let c1 = s.get_char(1);
        if c0 == 'A' && c1 == '\t' {
            let path = char_range(s, 2, n);
            proof {
                assert(path@ =~= s@.skip(2));
            }
            return LineChange::Take(
                FileChange { old_path: path.clone(), new_path: path, is_add: true },
            );
        }
        if (c0 == 'M' || c0 == 'T') && c1 == '\t' {
            let path = char_range(s, 2, n);
            proof {
                assert(path@ =~= s@.skip(2));
            }
            return LineChange::Take(
                FileChange { old_path: path.clone(), new_path: path, is_add: false },
            );
        }
        if c0 == 'D' && c1 == '\t' {
            return LineChange::Ignore;
        }
    }
    if n >= 1 {
        let c0 = s.get_char(0);
        if c0 == 'R' || c0 == 'C' {
            match first_char_index(s, '\t') {
                Some(t1) => {
                    let rest = char_range(s, t1 + 1, n);
                    proof {
                        assert(rest@ =~= s@.skip(t1 + 1));
                    }
                    match first_char_index(rest.as_str(), '\t') {
                        Some(t2) => {
                            let rn = rest.as_str().unicode_len();
                            let old_p = char_range(rest.as_str(), 0, t2);
                            let new_p = char_range(rest.as_str(), t2 + 1, rn);
                            proof {
                                assert(old_p@ =~= s@.skip(t1 + 1).take(t2 as int));
                                assert(new_p@ =~= s@.skip(t1 + 1).skip(t2 + 1));
                            }
                            return LineChange::Take(
                                FileChange { old_path: old_p, new_path: new_p, is_add: false },
                            );
                        },
                        None => {
                            return LineChange::Bad;
                        },
                    }
                },
                None => {
                    return LineChange::Bad;
                },
            }
        }
    }
    LineChange::Bad
}

proof fn lemma_log_fold_none(lines: Seq<Seq<char>>, n: int, n2: int)
    requires
        log_fold(lines, n) is None,
        n <= n2,
    ensures
        log_fold(lines, n2) is None,
    decreases n2 - n,
{
    if n < n2 {
        lemma_log_fold_none(lines, n + 1, n2);
    }
}

/// Parse a whole log text — one header line per commit, each followed by its
/// change lines — into the commit list the resolver walks.
pub fn parse_git_log(output: &str) -> (r: Result<Vec<Commit>, CError>)
    ensures
        match r {
            Ok(commits) => spec_parse_log(output@) == Some(commits@.map_values(|c: Commit| c@)),
            Err(e) => spec_parse_log(output@) is None && e is GitCmdError,
        },
{
    let lines = split_lines(output);
    let ghost ls = lines@.map_values(|l: String| l@);
    let mut done: Vec<Commit> = Vec::new();
    let mut cur: Option<Commit> = None;
    let mut i: usize = 0;
    proof {
        assert(done@.map_values(|c: Commit| c@) =~= Seq::<CommitView>::empty());
    }
    while i < lines.len()
        invariant
            i <= lines@.len(),
            ls == lines@.map_values(|l: String| l@),
            ls == spec_lines(output@),
            log_fold(ls, i as int) == Some(
                (done@.map_values(|c: Commit| c@), opt_commit_view(cur)),
            ),
        decreases lines@.len() - i,
    {
        let line = &lines[i];
        proof {
            assert(ls[i as int] == line@);
        }
        let ghost st_pre = (done@.map_values(|c: Commit| c@), opt_commit_view(cur));
        let n = line.as_str().unicode_len();
        match try_parse_header(line.as_str()) {
            Some((year, parents)) => {
                let prev = cur;
                match prev {
                    Some(c) => {
                        done.push(c);
                        proof {
                            assert(done@.map_values(|c2: Commit| c2@) =~= log_flush(st_pre));
                        }
                    },
                    None => {
                        proof {
                            assert(done@.map_values(|c2: Commit| c2@) =~= log_flush(st_pre));
                        }
                    },
                }
                let empty_changes: Vec<FileChange> = Vec::new();
                proof {
                    assert(empty_changes@.map_values(|c2: FileChange| c2@) =~= Seq::<
                        FileChangeView,
                    >::empty());
                }
                cur = Some(Commit { year, parents, changes: empty_changes });
                proof {
                    assert(opt_commit_view(cur) == Some(
                        CommitView {
                            year: header_year(line@) as u32,
                            parents: header_parents(line@),
                            changes: Seq::empty(),
                        },
                    ));
                }
            },
            None => {
                if n == 0 {
                } else {
                    match try_parse_change(line.as_str()) {
                        LineChange::Take(fc) => {
                            let ghost fcv = fc@;
                            match &mut cur {
                                Some(c) => {
                                    let ghost old_changes = c.changes@.map_values(
                                        |c2: FileChange| c2@,
                                    );
                                    c.changes.push(fc);
                                    proof {
                                        assert(c.changes@.map_values(|c2: FileChange| c2@)
                                            =~= old_changes.push(fcv));
                                    }
                                },
                                None => {
                                    proof {
                                        lemma_log_fold_none(ls, i + 1, ls.len() as int);
                                    }
                                    return Err(CError::GitCmdError(line.clone()));
                                },
                            }
                        },
                        LineChange::Ignore => {
                            if cur.is_none() {
                                proof {
                                    lemma_log_fold_none(ls, i + 1, ls.len() as int);
                                }
                                return Err(CError::GitCmdError(line.clone()));
                            }
                        },
                        LineChange::Bad => {
                            proof {
                                lemma_log_fold_none(ls, i + 1, ls.len() as int);
                            }
                            return Err(CError::GitCmdError(line.clone()));
                        },
                    }
                }
            },
        }
        i = i + 1;
    }
    let prev = cur;
    match prev {
        Some(c) => {
            done.push(c);
        },
        None => {},
    }
    Ok(done)
}

} // verus!
