//! The edit session's text: rendering paths into the editable buffer and
//! splitting the reloaded buffer back into lines.
//!
//! One line is written per path, in input order, and the buffer is split
//! back with empty lines kept, so that the i-th line read back always
//! corresponds to the i-th path written.

use vstd::prelude::*;

use crate::diff::line_views;
use crate::paths::canon_path;
use crate::paths::spec_canon;
use crate::paths::split_on;

verus! {

/// Relies on std's String::push: it appends the one character to the end of
/// the string.
pub assume_specification[ String::push ](s: &mut String, c: char)
    ensures
        final(s)@ == old(s)@.push(c),
;

/// How a path is shown: in canonical absolute form when `absolute` is set,
/// as given otherwise, with a trailing separator appended to mark a
/// directory when one is not already there.
pub open spec fn spec_display(p: Seq<char>, absolute: bool, dir: bool, cwd: Seq<char>) -> Seq<
    char,
> {
    let base = if absolute {
        spec_canon(cwd, p)
    } else {
        p
    };
    if dir && !(base.len() > 0 && base.last() == '/') {
        base + seq!['/']
    } else {
        base
    }
}

/// The display form of `path`: its canonical absolute form under `cwd` when
/// `absolute` is set, the path as given otherwise. `dir` says whether the
/// path names a directory; a directory is shown with a trailing separator.
pub fn display_path(path: &String, absolute: bool, dir: bool, cwd: &str) -> (r: String)
    ensures
        r@ == spec_display(path@, absolute, dir, cwd@),
{
    let mut base = if absolute {
        canon_path(cwd, path.as_str())
    } else {
        path.clone()
    };
    let n = base.as_str().unicode_len();
    if dir && (n == 0 || !(base.as_str().get_char(n - 1) == '/')) {
        let ghost b0 = base@;
        base.push('/');
        proof {
            assert(base@ =~= b0 + seq!['/']);
        }
    }
    base
}

/// The text of the edit buffer for `paths`: the display form of each path,
/// one per line, each line ended by a newline, in input order.
pub open spec fn spec_buffer(
    paths: Seq<Seq<char>>,
    dirs: Seq<bool>,
    absolute: bool,
    cwd: Seq<char>,
) -> Seq<char>
    decreases paths.len(),
{
    if paths.len() == 0 {
        Seq::empty()
    } else {
        spec_buffer(paths.drop_last(), dirs.drop_last(), absolute, cwd) + spec_display(
            paths.last(),
            absolute,
            dirs.last(),
            cwd,
        ) + seq!['\n']
    }
}

/// Renders the edit buffer: one line per path, in input order. `dirs[i]`
/// says whether `paths[i]` names a directory.
pub fn render_buffer(paths: &Vec<String>, dirs: &Vec<bool>, absolute: bool, cwd: &str) -> (r:
    String)
    requires
        dirs@.len() == paths@.len(),
    ensures
        r@ == spec_buffer(line_views(paths@), dirs@, absolute, cwd@),
{
    let mut out = String::new();
    let mut i: usize = 0;
    proof {
        assert(line_views(paths@).take(0int) =~= Seq::<Seq<char>>::empty());
        assert(dirs@.take(0int) =~= Seq::<bool>::empty());
    }
    while i < paths.len()
        invariant
            i <= paths@.len(),
            dirs@.len() == paths@.len(),
            out@ == spec_buffer(
                line_views(paths@).take(i as int),
                dirs@.take(i as int),
                absolute,
                cwd@,
            ),
        decreases paths@.len() - i,
    {
        let line = display_path(&paths[i], absolute, dirs[i], cwd);
        out.append(line.as_str());
        out.push('\n');
        proof {
            let pv = line_views(paths@);
            assert(pv.take((i + 1) as int).drop_last() =~= pv.take(i as int));
            assert(dirs@.take((i + 1) as int).drop_last() =~= dirs@.take(i as int));
            assert(pv.take((i + 1) as int).last() == pv[i as int]);
            assert(dirs@.take((i + 1) as int).last() == dirs@[i as int]);
            assert(out@ =~= spec_buffer(
                pv.take((i + 1) as int),
                dirs@.take((i + 1) as int),
                absolute,
                cwd@,
            ));
        }
        i = i + 1;
    }
    proof {
        assert(line_views(paths@).take(paths@.len() as int) =~= line_views(paths@));
        assert(dirs@.take(dirs@.len() as int) =~= dirs@);
    }
    out
}

/// Splits the reloaded buffer into lines on newline characters, keeping
/// empty lines, so that positional correspondence with the rendered paths
/// is preserved and an emptied line keeps its index. The newline ending the
/// last rendered line thus yields one final empty entry beyond the paths,
/// which the diff ignores.
pub fn split_lines(content: &str) -> (r: Vec<String>)
    ensures
        line_views(r@) == split_on(content@, '\n'),
{
    let n = content.unicode_len();
    let mut out: Vec<String> = Vec::new();
    let mut cur = String::new();
    let mut i: usize = 0;
    proof {
        assert(content@.take(0int) =~= Seq::<char>::empty());
        assert(line_views(out@).push(cur@) =~= seq![Seq::<char>::empty()]);
    }
    while i < n
        invariant
            i <= n,
            n == content@.len(),
            line_views(out@).push(cur@) == split_on(content@.take(i as int), '\n'),
        decreases n - i,
    {
        let c = content.get_char(i);
        proof {
            assert(content@.take((i + 1) as int).drop_last() =~= content@.take(i as int));
            assert(content@.take((i + 1) as int).last() == content@[i as int]);
        }
        let ghost prev_out = out@;
        let ghost prev_cur = cur@;
        if c == '\n' {
            out.push(cur);
            cur = String::new();
            proof {
                assert(line_views(out@).push(cur@) =~= split_on(
                    content@.take((i + 1) as int),
                    '\n',
                ));
            }
        } else {
            cur.push(c);
            proof {
                let r = split_on(content@.take(i as int), '\n');
                assert(r.last() == prev_cur);
                assert(line_views(out@).push(cur@) =~= r.update(r.len() - 1, prev_cur.push(c)));
            }
        }
        i = i + 1;
    }
    out.push(cur);
    proof {
        assert(content@.take(n as int) =~= content@);
        assert(line_views(out@) =~= split_on(content@, '\n'));
    }
    out
}

} // verus!
