//! Positional diff of the original path list against the edited lines.
//!
//! The i-th line of the edited buffer always refers to the i-th original
//! path; lines are never matched by content. A missing or emptied line marks
//! the original at that index for deletion; a line whose canonical form
//! differs from the original's marks a move; anything else is unchanged and
//! drops out.

use vstd::prelude::*;

use crate::paths::spec_canon;
use crate::paths::canon_path;

verus! {

/// The pending filesystem operations computed from one edit session: moves
/// pair each original path with its edited destination, deletions list the
/// originals whose line was removed or emptied. Both keep input order, and
/// neither is applied before the user confirms.
pub struct ChangeSet {
    pub moves: Vec<(String, String)>,
    pub deletes: Vec<String>,
}

/// The character sequences of a list of owned strings.
pub open spec fn line_views(v: Seq<String>) -> Seq<Seq<char>> {
    v.map_values(|s: String| s@)
}

/// Index `i` of the original list is a deletion: its edited line is missing
/// or empty.
pub open spec fn is_delete(ed: Seq<Seq<char>>, i: int) -> bool {
    i >= ed.len() || ed[i].len() == 0
}

/// Index `i` is a move: its edited line is present and nonempty, and its
/// canonical form differs from the original path's.
pub open spec fn is_move(cwd: Seq<char>, orig: Seq<Seq<char>>, ed: Seq<Seq<char>>, i: int) -> bool {
    &&& !is_delete(ed, i)
    &&& spec_canon(cwd, ed[i]) != spec_canon(cwd, orig[i])
}

/// The moves among the first `n` indices, in order.
pub open spec fn moves_upto(
    cwd: Seq<char>,
    orig: Seq<Seq<char>>,
    ed: Seq<Seq<char>>,
    n: int,
) -> Seq<(Seq<char>, Seq<char>)>
    decreases n,
{
    if n <= 0 {
        Seq::empty()
    } else {
        let r = moves_upto(cwd, orig, ed, n - 1);
        if is_move(cwd, orig, ed, n - 1) {
            r.push((orig[n - 1], ed[n - 1]))
        } else {
            r
        }
    }
}

/// The deletions among the first `n` indices, in order.
pub open spec fn deletes_upto(orig: Seq<Seq<char>>, ed: Seq<Seq<char>>, n: int) -> Seq<Seq<char>>
    decreases n,
{
    if n <= 0 {
        Seq::empty()
    } else {
        let r = deletes_upto(orig, ed, n - 1);
        if is_delete(ed, n - 1) {
            r.push(orig[n - 1])
        } else {
            r
        }
    }
}

impl ChangeSet {
    /// The pending moves as pairs of character sequences.
    pub open spec fn moves_view(&self) -> Seq<(Seq<char>, Seq<char>)> {
        self.moves@.map_values(|m: (String, String)| (m.0@, m.1@))
    }

    /// The pending deletions as character sequences.
    pub open spec fn deletes_view(&self) -> Seq<Seq<char>> {
        self.deletes@.map_values(|d: String| d@)
    }

    /// True when no operation is pending: the run has nothing to do.
    pub fn is_empty(&self) -> (r: bool)
        ensures
            r == (self.moves_view().len() == 0 && self.deletes_view().len() == 0),
    {
        self.moves.len() == 0 && self.deletes.len() == 0
    }
}

/// The positional diff of the original paths against the edited lines: for
/// each original index, a missing or empty edited line yields a deletion, a
/// line that canonicalizes differently from the original yields a move, and
/// a line that canonicalizes identically is dropped as unchanged. Extra
/// edited lines beyond the originals are ignored.
pub fn compare(originals: &Vec<String>, edited: &Vec<String>, cwd: &str) -> (r: ChangeSet)
    ensures
        r.moves_view() == moves_upto(
            cwd@,
            line_views(originals@),
            line_views(edited@),
            originals@.len() as int,
        ),
        r.deletes_view() == deletes_upto(
            line_views(originals@),
            line_views(edited@),
            originals@.len() as int,
        ),
{
    let ghost ov = line_views(originals@);
    let ghost ev = line_views(edited@);
    let mut moves: Vec<(String, String)> = Vec::new();
    let mut deletes: Vec<String> = Vec::new();
    let n = originals.len();
    let mut i: usize = 0;
    while i < n
        invariant
            i <= n,
            n == originals@.len(),
            ov == line_views(originals@),
            ev == line_views(edited@),
            moves@.map_values(|m: (String, String)| (m.0@, m.1@)) == moves_upto(
                cwd@,
                ov,
                ev,
                i as int,
            ),
            deletes@.map_values(|d: String| d@) == deletes_upto(ov, ev, i as int),
        decreases n - i,
    {
        let ghost old_moves = moves@;
        let ghost old_deletes = deletes@;
        if edited.len() <= i {
            deletes.push(originals[i].clone());
            proof {
                assert(is_delete(ev, i as int));
                assert(deletes@.map_values(|d: String| d@) =~= old_deletes.map_values(
                    |d: String| d@,
                ).push(ov[i as int]));
            }
        } else if edited[i].as_str().unicode_len() == 0 {
            deletes.push(originals[i].clone());
            proof {
                assert(ev[i as int].len() == 0);
                assert(is_delete(ev, i as int));
                assert(deletes@.map_values(|d: String| d@) =~= old_deletes.map_values(
                    |d: String| d@,
                ).push(ov[i as int]));
            }
        } else {
            let co = canon_path(cwd, originals[i].as_str());
            let cn = canon_path(cwd, edited[i].as_str());
            if !(co == cn) {
                moves.push((originals[i].clone(), edited[i].clone()));
                proof {
                    assert(is_move(cwd@, ov, ev, i as int));
                    assert(moves@.map_values(|m: (String, String)| (m.0@, m.1@)) =~= old_moves
                        .map_values(|m: (String, String)| (m.0@, m.1@)).push(
                        (ov[i as int], ev[i as int]),
                    ));
                }
            } else {
                proof {
                    assert(!is_delete(ev, i as int));
                    assert(!is_move(cwd@, ov, ev, i as int));
                }
            }
        }
        i = i + 1;
    }
    ChangeSet { moves, deletes }
}

/// The length mismatch that the strict comparison reports: the edited
/// buffer no longer holds one line per original path.
#[derive(Debug)]
pub struct LengthMismatch {
    pub originals: usize,
    pub edited: usize,
}

/// The strict variant of the positional diff: instead of degrading missing
/// trailing lines to deletions, it refuses an edited list whose length
/// differs from the original list's, and otherwise diffs exactly as
/// `compare` does.
pub fn compare_strict(originals: &Vec<String>, edited: &Vec<String>, cwd: &str) -> (r: Result<
    ChangeSet,
    LengthMismatch,
>)
    ensures
        r is Ok <==> originals@.len() == edited@.len(),
        r matches Ok(cs) ==> cs.moves_view() == moves_upto(
            cwd@,
            line_views(originals@),
            line_views(edited@),
            originals@.len() as int,
        ) && cs.deletes_view() == deletes_upto(
            line_views(originals@),
            line_views(edited@),
            originals@.len() as int,
        ),
        r matches Err(e) ==> e.originals == originals@.len() && e.edited == edited@.len(),
{
    if originals.len() != edited.len() {
        Err(LengthMismatch { originals: originals.len(), edited: edited.len() })
    } else {
        Ok(compare(originals, edited, cwd))
    }
}

/// The change set that survives the confirmation prompt: the whole set on an
/// affirmative answer, nothing otherwise. A declined confirmation thus
/// leaves no operation to perform, and the filesystem untouched.
pub fn apply_confirmation(changes: ChangeSet, confirmed: bool) -> (r: ChangeSet)
    ensures
        confirmed ==> r.moves_view() == changes.moves_view() && r.deletes_view()
            == changes.deletes_view(),
        !confirmed ==> r.moves_view().len() == 0 && r.deletes_view().len() == 0,
{
    if confirmed {
        changes
    } else {
        ChangeSet { moves: Vec::new(), deletes: Vec::new() }
    }
}

/// An edit that leaves every line in place, up to canonicalization, yields
/// an empty change set: no move and no deletion is pending, so confirming
/// or declining alike performs no operation.
pub proof fn lemma_identical_edit_empty(cwd: Seq<char>, orig: Seq<Seq<char>>, ed: Seq<Seq<char>>)
    requires
        ed.len() == orig.len(),
        forall|i: int| 0 <= i < ed.len() ==> (#[trigger] ed[i]).len() != 0,
        forall|i: int| 0 <= i < ed.len() ==> spec_canon(cwd, #[trigger] ed[i]) == spec_canon(
            cwd,
            orig[i],
        ),
    ensures
        moves_upto(cwd, orig, ed, orig.len() as int) == Seq::<(Seq<char>, Seq<char>)>::empty(),
        deletes_upto(orig, ed, orig.len() as int) == Seq::<Seq<char>>::empty(),
{
    lemma_unchanged_upto(cwd, orig, ed, orig.len() as int);
}

proof fn lemma_unchanged_upto(cwd: Seq<char>, orig: Seq<Seq<char>>, ed: Seq<Seq<char>>, n: int)
    requires
        n <= orig.len(),
        n <= ed.len(),
        forall|i: int| 0 <= i < n ==> (#[trigger] ed[i]).len() != 0,
        forall|i: int| 0 <= i < n ==> spec_canon(cwd, #[trigger] ed[i]) == spec_canon(
            cwd,
            orig[i],
        ),
    ensures
        moves_upto(cwd, orig, ed, n) == Seq::<(Seq<char>, Seq<char>)>::empty(),
        deletes_upto(orig, ed, n) == Seq::<Seq<char>>::empty(),
    decreases n,
{
    if n > 0 {
        lemma_unchanged_upto(cwd, orig, ed, n - 1);
        assert(!is_delete(ed, n - 1));
        assert(!is_move(cwd, orig, ed, n - 1));
    }
}

/// A missing or emptied line at index `i` marks the original path at `i`
/// for deletion, whatever kind of path the original named.
pub proof fn lemma_empty_line_deletes(orig: Seq<Seq<char>>, ed: Seq<Seq<char>>, i: int)
    requires
        0 <= i < orig.len(),
        is_delete(ed, i),
    ensures
        deletes_upto(orig, ed, orig.len() as int).contains(orig[i]),
{
    lemma_delete_upto_contains(orig, ed, i, orig.len() as int);
}

proof fn lemma_delete_upto_contains(orig: Seq<Seq<char>>, ed: Seq<Seq<char>>, i: int, n: int)
    requires
        0 <= i < n <= orig.len(),
        is_delete(ed, i),
    ensures
        deletes_upto(orig, ed, n).contains(orig[i]),
    decreases n,
{
    if n - 1 == i {
        let r = deletes_upto(orig, ed, n - 1);
        assert(deletes_upto(orig, ed, n) == r.push(orig[i]));
        assert(r.push(orig[i])[r.len() as int] == orig[i]);
    } else {
        lemma_delete_upto_contains(orig, ed, i, n - 1);
        let r = deletes_upto(orig, ed, n - 1);
        let k = choose|k: int| 0 <= k < r.len() && r[k] == orig[i];
        if is_delete(ed, n - 1) {
            assert(deletes_upto(orig, ed, n)[k] == orig[i]);
        }
    }
}

/// What removing a path calls for: a recursive removal for a directory, a
/// single-file removal for a regular file, or no removal at all.
#[derive(PartialEq, Eq, Structural, Debug, Clone, Copy)]
pub enum DeleteAction {
    RemoveTree,
    RemoveFile,
    Skip,
}

/// The removal a path calls for, from what the filesystem reports it to be:
/// a directory is removed with its entire contents, a regular file alone,
/// and anything else is skipped and reported as unrecognized rather than
/// removed.
pub fn delete_action(dir: bool, file: bool) -> (r: DeleteAction)
    ensures
        dir ==> r == DeleteAction::RemoveTree,
        !dir && file ==> r == DeleteAction::RemoveFile,
        !dir && !file ==> r == DeleteAction::Skip,
{
    if dir {
        DeleteAction::RemoveTree
    } else if file {
        DeleteAction::RemoveFile
    } else {
        DeleteAction::Skip
    }
}

} // verus!
