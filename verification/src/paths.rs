//! Path canonicalization for change detection.
//!
//! Two paths denote the same file when their canonical absolute forms agree:
//! the path joined onto the working directory and then lexically cleaned
//! (repeated separators collapsed, `.` segments dropped, `..` segments
//! resolved against the preceding plain segment), with no symlink
//! resolution.

use vstd::prelude::*;

verus! {

/// True when the path begins with a separator.
pub open spec fn is_abs(s: Seq<char>) -> bool {
    s.len() > 0 && s[0] == '/'
}

/// The pieces of `s` between occurrences of `sep`, empty pieces kept:
/// splitting `a//b` on `/` gives `a`, ``, `b`.
pub open spec fn split_on(s: Seq<char>, sep: char) -> Seq<Seq<char>>
    decreases s.len(),
{
    if s.len() == 0 {
        seq![Seq::<char>::empty()]
    } else if s.last() == sep {
        split_on(s.drop_last(), sep).push(Seq::<char>::empty())
    } else {
        let r = split_on(s.drop_last(), sep);
        r.update(r.len() - 1, r.last().push(s.last()))
    }
}

/// The segment naming the current directory.
pub open spec fn is_dot(seg: Seq<char>) -> bool {
    seg.len() == 1 && seg[0] == '.'
}

/// The segment naming the parent directory.
pub open spec fn is_dotdot(seg: Seq<char>) -> bool {
    seg.len() == 2 && seg[0] == '.' && seg[1] == '.'
}

/// A segment that cleaning keeps as it stands: nonempty and neither `.` nor
/// `..`.
pub open spec fn is_plain(seg: Seq<char>) -> bool {
    seg.len() > 0 && !is_dot(seg) && !is_dotdot(seg)
}

/// One step of lexical cleanup: `acc` holds the segments kept so far, `seg`
/// is the next raw segment. Empty segments and `.` are dropped; `..` removes
/// a preceding plain segment, is dropped at the root of an absolute path,
/// and is kept at the front of a relative one; anything else is kept.
pub open spec fn clean_step(abs: bool, acc: Seq<Seq<char>>, seg: Seq<char>) -> Seq<Seq<char>> {
    if seg.len() == 0 || is_dot(seg) {
        acc
    } else if is_dotdot(seg) {
        if acc.len() > 0 && is_plain(acc.last()) {
            acc.drop_last()
        } else if abs {
            acc
        } else {
            acc.push(seg)
        }
    } else {
        acc.push(seg)
    }
}

/// Lexical cleanup folded over a list of raw segments, front to back.
pub open spec fn clean_from(abs: bool, acc: Seq<Seq<char>>, segs: Seq<Seq<char>>) -> Seq<Seq<char>>
    decreases segs.len(),
{
    if segs.len() == 0 {
        acc
    } else {
        clean_from(abs, clean_step(abs, acc, segs[0]), segs.drop_first())
    }
}

/// Segments joined with a separator: `a`, `b` becomes `a/b`.
pub open spec fn join_segs(segs: Seq<Seq<char>>) -> Seq<char>
    decreases segs.len(),
{
    if segs.len() == 0 {
        Seq::<char>::empty()
    } else if segs.len() == 1 {
        segs[0]
    } else {
        join_segs(segs.drop_last()) + seq!['/'] + segs.last()
    }
}

/// The lexically cleaned form of a path: repeated separators collapsed, `.`
/// segments dropped, each `..` resolved against the plain segment before it,
/// `..` dropped at the root of an absolute path and kept at the front of a
/// relative one; an empty relative result is `.`, an empty absolute one `/`.
pub open spec fn spec_clean(s: Seq<char>) -> Seq<char> {
    let abs = is_abs(s);
    let cs = clean_from(abs, Seq::<Seq<char>>::empty(), split_on(s, '/'));
    if abs {
        seq!['/'] + join_segs(cs)
    } else if cs.len() == 0 {
        seq!['.']
    } else {
        join_segs(cs)
    }
}

/// The canonical absolute form of `p` under the working directory `cwd`: `p`
/// itself when absolute, else `cwd` with `p` appended, in either case
/// lexically cleaned.
pub open spec fn spec_canon(cwd: Seq<char>, p: Seq<char>) -> Seq<char> {
    if is_abs(p) {
        spec_clean(p)
    } else {
        spec_clean(cwd + seq!['/'] + p)
    }
}

/// No separator occurs inside the segment.
pub open spec fn sep_free(seg: Seq<char>) -> bool {
    forall|j: int| 0 <= j < seg.len() ==> seg[j] != '/'
}

/// Every segment is plain and free of separators: the shape of a cleaned
/// absolute path's segment list.
pub open spec fn all_good(segs: Seq<Seq<char>>) -> bool {
    forall|i: int| 0 <= i < segs.len() ==> is_plain(#[trigger] segs[i]) && sep_free(segs[i])
}

proof fn lemma_split_len(s: Seq<char>, sep: char)
    ensures
        split_on(s, sep).len() >= 1,
    decreases s.len(),
{
    if s.len() == 0 {
    } else {
        lemma_split_len(s.drop_last(), sep);
    }
}

proof fn lemma_split_shape(s: Seq<char>)
    ensures
        split_on(s, '/').len() >= 1,
        forall|i: int| 0 <= i < split_on(s, '/').len() ==> sep_free(#[trigger] split_on(s, '/')[i]),
    decreases s.len(),
{
    if s.len() == 0 {
        assert(split_on(s, '/') == seq![Seq::<char>::empty()]);
        assert(sep_free(Seq::<char>::empty()));
    } else if s.last() == '/' {
        lemma_split_shape(s.drop_last());
        assert(sep_free(Seq::<char>::empty()));
    } else {
        lemma_split_shape(s.drop_last());
        let r = split_on(s.drop_last(), '/');
        assert(sep_free(r.last().push(s.last())));
        assert forall|i: int| 0 <= i < split_on(s, '/').len() implies sep_free(
            #[trigger] split_on(s, '/')[i],
        ) by {
            if i < r.len() - 1 {
                assert(split_on(s, '/')[i] == r[i]);
            } else {
                assert(split_on(s, '/')[i] == r.last().push(s.last()));
            }
        }
    }
}

proof fn lemma_clean_good(acc: Seq<Seq<char>>, segs: Seq<Seq<char>>)
    requires
        all_good(acc),
        forall|i: int| 0 <= i < segs.len() ==> sep_free(#[trigger] segs[i]),
    ensures
        all_good(clean_from(true, acc, segs)),
    decreases segs.len(),
{
    if segs.len() == 0 {
    } else {
        let acc2 = clean_step(true, acc, segs[0]);
        assert(all_good(acc2)) by {
            if segs[0].len() == 0 || is_dot(segs[0]) {
            } else if is_dotdot(segs[0]) {
                assert forall|i: int| 0 <= i < acc2.len() implies is_plain(#[trigger] acc2[i])
                    && sep_free(acc2[i]) by {
                    assert(acc2[i] == acc[i]);
                }
            } else {
                assert(is_plain(segs[0]));
                assert forall|i: int| 0 <= i < acc2.len() implies is_plain(#[trigger] acc2[i])
                    && sep_free(acc2[i]) by {
                    if i < acc.len() {
                        assert(acc2[i] == acc[i]);
                    } else {
                        assert(acc2[i] == segs[0]);
                    }
                }
            }
        }
        assert(forall|i: int|
            0 <= i < segs.drop_first().len() ==> sep_free(#[trigger] segs.drop_first()[i]));
        lemma_clean_good(acc2, segs.drop_first());
    }
}

proof fn lemma_clean_plain_id(abs: bool, acc: Seq<Seq<char>>, segs: Seq<Seq<char>>)
    requires
        forall|i: int| 0 <= i < segs.len() ==> is_plain(#[trigger] segs[i]),
    ensures
        clean_from(abs, acc, segs) == acc + segs,
    decreases segs.len(),
{
    if segs.len() == 0 {
        assert(acc + segs =~= acc);
    } else {
        assert(is_plain(segs[0]));
        assert(clean_step(abs, acc, segs[0]) == acc.push(segs[0]));
        assert(forall|i: int|
            0 <= i < segs.drop_first().len() ==> is_plain(#[trigger] segs.drop_first()[i]));
        lemma_clean_plain_id(abs, acc.push(segs[0]), segs.drop_first());
        assert(acc.push(segs[0]) + segs.drop_first() =~= acc + segs);
    }
}

proof fn lemma_clean_from_concat(abs: bool, acc: Seq<Seq<char>>, a: Seq<Seq<char>>, b: Seq<Seq<char>>)
    ensures
        clean_from(abs, acc, a + b) == clean_from(abs, clean_from(abs, acc, a), b),
    decreases a.len(),
{
    if a.len() == 0 {
        assert(a + b =~= b);
    } else {
        assert((a + b)[0] == a[0]);
        assert((a + b).drop_first() =~= a.drop_first() + b);
        lemma_clean_from_concat(abs, clean_step(abs, acc, a[0]), a.drop_first(), b);
    }
}

proof fn lemma_split_concat(a: Seq<char>, b: Seq<char>, sep: char)
    ensures
        split_on(a + seq![sep] + b, sep) == split_on(a, sep) + split_on(b, sep),
    decreases b.len(),
{
    let s = a + seq![sep] + b;
    if b.len() == 0 {
        assert(s =~= a.push(sep));
        assert(a.push(sep).last() == sep);
        assert(a.push(sep).drop_last() =~= a);
        assert(split_on(s, sep) == split_on(a, sep).push(Seq::<char>::empty()));
        assert(split_on(b, sep) == seq![Seq::<char>::empty()]);
        assert(split_on(a, sep).push(Seq::<char>::empty()) =~= split_on(a, sep) + seq![
            Seq::<char>::empty(),
        ]);
    } else {
        assert(s.last() == b.last());
        assert(s.drop_last() =~= a + seq![sep] + b.drop_last());
        lemma_split_concat(a, b.drop_last(), sep);
        let bb = split_on(b.drop_last(), sep);
        lemma_split_len(b.drop_last(), sep);
        assert(split_on(s.drop_last(), sep) == split_on(a, sep) + bb);
        if b.last() == sep {
            assert(split_on(b, sep) == bb.push(Seq::<char>::empty()));
            assert((split_on(a, sep) + bb).push(Seq::<char>::empty()) =~= split_on(a, sep)
                + bb.push(Seq::<char>::empty()));
        } else {
            let r = split_on(a, sep) + bb;
            assert(r.last() == bb.last());
            assert(split_on(b, sep) == bb.update(bb.len() - 1, bb.last().push(b.last())));
            assert(r.update(r.len() - 1, r.last().push(s.last())) =~= split_on(a, sep)
                + bb.update(bb.len() - 1, bb.last().push(b.last())));
        }
    }
}

proof fn lemma_split_sep_free(s: Seq<char>, sep: char)
    requires
        forall|j: int| 0 <= j < s.len() ==> s[j] != sep,
    ensures
        split_on(s, sep) == seq![s],
    decreases s.len(),
{
    if s.len() == 0 {
        assert(seq![Seq::<char>::empty()] =~~= seq![s]);
    } else {
        assert(s.last() != sep);
        assert(forall|j: int| 0 <= j < s.drop_last().len() ==> s.drop_last()[j] != sep);
        lemma_split_sep_free(s.drop_last(), sep);
        assert(s.drop_last().push(s.last()) =~= s);
        assert(seq![s.drop_last()].update(0, s.drop_last().push(s.last())) =~~= seq![s]);
    }
}

proof fn lemma_split_join(cs: Seq<Seq<char>>)
    requires
        all_good(cs),
        cs.len() >= 1,
    ensures
        split_on(join_segs(cs), '/') == cs,
    decreases cs.len(),
{
    if cs.len() == 1 {
        assert(sep_free(cs[0]));
        lemma_split_sep_free(cs[0], '/');
        assert(seq![cs[0]] =~= cs);
    } else {
        let front = cs.drop_last();
        assert(all_good(front)) by {
            assert forall|i: int| 0 <= i < front.len() implies is_plain(#[trigger] front[i])
                && sep_free(front[i]) by {
                assert(front[i] == cs[i]);
            }
        }
        lemma_split_concat(join_segs(front), cs.last(), '/');
        lemma_split_join(front);
        assert(sep_free(cs.last()));
        lemma_split_sep_free(cs.last(), '/');
        assert(front + seq![cs.last()] =~= cs);
    }
}

proof fn lemma_clean_abs_idempotent(s: Seq<char>)
    requires
        is_abs(s),
    ensures
        is_abs(spec_clean(s)),
        spec_clean(spec_clean(s)) == spec_clean(s),
{
    lemma_split_shape(s);
    let empty_acc = Seq::<Seq<char>>::empty();
    let cs = clean_from(true, empty_acc, split_on(s, '/'));
    lemma_clean_good(empty_acc, split_on(s, '/'));
    let q = seq!['/'] + join_segs(cs);
    assert(spec_clean(s) == q);
    assert(q[0] == '/');
    assert(is_abs(q));
    assert(q =~= Seq::<char>::empty() + seq!['/'] + join_segs(cs));
    lemma_split_concat(Seq::<char>::empty(), join_segs(cs), '/');
    assert(split_on(Seq::<char>::empty(), '/') == seq![Seq::<char>::empty()]);
    let e = Seq::<char>::empty();
    if cs.len() == 0 {
        assert(join_segs(cs) == e);
        assert(split_on(q, '/') == seq![e] + seq![e]);
        let x = seq![e] + seq![e];
        assert(x[0] == e);
        assert(clean_step(true, empty_acc, e) == empty_acc);
        assert(clean_from(true, empty_acc, x) == clean_from(true, empty_acc, x.drop_first()));
        assert(x.drop_first() =~= seq![e]);
        assert(clean_from(true, empty_acc, seq![e]) == clean_from(
            true,
            empty_acc,
            seq![e].drop_first(),
        ));
        assert(seq![e].drop_first().len() == 0);
        assert(clean_from(true, empty_acc, seq![e].drop_first()) == empty_acc);
        assert(clean_from(true, empty_acc, split_on(q, '/')) == cs);
    } else {
        lemma_split_join(cs);
        assert(split_on(q, '/') == seq![e] + cs);
        let x = seq![e] + cs;
        assert(x[0] == e);
        assert(clean_step(true, empty_acc, e) == empty_acc);
        assert(clean_from(true, empty_acc, x) == clean_from(true, empty_acc, x.drop_first()));
        assert(x.drop_first() =~= cs);
        assert(forall|i: int| 0 <= i < cs.len() ==> is_plain(#[trigger] cs[i]));
        lemma_clean_plain_id(true, empty_acc, cs);
        assert(empty_acc + cs =~= cs);
        assert(clean_from(true, empty_acc, split_on(q, '/')) == cs);
    }
    assert(spec_clean(q) == q);
}

/// Canonicalization is idempotent: under an absolute working directory, the
/// canonical form of a path is its own canonical form again.
pub proof fn lemma_canon_idempotent(cwd: Seq<char>, p: Seq<char>)
    requires
        is_abs(cwd),
    ensures
        spec_canon(cwd, spec_canon(cwd, p)) == spec_canon(cwd, p),
{
    if is_abs(p) {
        lemma_clean_abs_idempotent(p);
    } else {
        let j = cwd + seq!['/'] + p;
        assert(j[0] == cwd[0]);
        assert(is_abs(j));
        lemma_clean_abs_idempotent(j);
    }
}

/// A leading `./` on a relative path does not change its canonical form:
/// `./a` and `a` denote the same file under any working directory.
pub proof fn lemma_canon_dot_prefix(cwd: Seq<char>, p: Seq<char>)
    requires
        !is_abs(p),
    ensures
        spec_canon(cwd, seq!['.', '/'] + p) == spec_canon(cwd, p),
{
    let dp = seq!['.', '/'] + p;
    assert(dp[0] == '.');
    assert(!is_abs(dp));
    let jl = cwd + seq!['/'] + dp;
    let jr = cwd + seq!['/'] + p;
    assert(is_abs(jl) == is_abs(jr)) by {
        if cwd.len() > 0 {
            assert(jl[0] == cwd[0]);
            assert(jr[0] == cwd[0]);
        } else {
            assert(jl[0] == '/');
            assert(jr[0] == '/');
        }
    }
    let abs = is_abs(jl);
    let dot = seq!['.'];
    assert(jl =~= cwd + seq!['/'] + (dot + seq!['/'] + p));
    lemma_split_concat(cwd, dot + seq!['/'] + p, '/');
    lemma_split_concat(dot, p, '/');
    assert(forall|j: int| 0 <= j < dot.len() ==> dot[j] != '/');
    lemma_split_sep_free(dot, '/');
    lemma_split_concat(cwd, p, '/');
    let aa = split_on(cwd, '/');
    let pp = split_on(p, '/');
    assert(split_on(jl, '/') =~= (aa + seq![dot]) + pp);
    assert(split_on(jr, '/') == aa + pp);
    let empty_acc = Seq::<Seq<char>>::empty();
    lemma_clean_from_concat(abs, empty_acc, aa + seq![dot], pp);
    lemma_clean_from_concat(abs, empty_acc, aa, seq![dot]);
    lemma_clean_from_concat(abs, empty_acc, aa, pp);
    let acc1 = clean_from(abs, empty_acc, aa);
    assert(is_dot(dot));
    assert(clean_step(abs, acc1, dot) == acc1);
    assert(clean_from(abs, acc1, seq![dot]) == clean_from(abs, acc1, seq![dot].drop_first()));
    assert(seq![dot].drop_first().len() == 0);
    assert(clean_from(abs, acc1, seq![dot]) == acc1);
    assert(clean_from(abs, empty_acc, split_on(jl, '/')) == clean_from(abs, acc1, pp));
    assert(clean_from(abs, empty_acc, split_on(jr, '/')) == clean_from(abs, acc1, pp));
}

/// Relies on path_clean::clean: a purely lexical cleanup of the path, with
/// no filesystem access. It collapses repeated separators, drops `.`
/// segments, resolves each `..` against the plain segment before it, drops
/// `..` at the root of an absolute path, keeps `..` at the front of a
/// relative one, and maps an empty result to `.`.
#[verifier::external_body]
fn clean_str(s: &str) -> (r: String)
    ensures
        r@ == spec_clean(s@),
{
    path_clean::clean(s).to_string_lossy().into_owned()
}

/// The canonical absolute form of `p` under the working directory `cwd`,
/// used for all change-detection equality between paths.
pub fn canon_path(cwd: &str, p: &str) -> (r: String)
    ensures
        r@ == spec_canon(cwd@, p@),
{
    if p.unicode_len() > 0 && p.get_char(0) == '/' {
        clean_str(p)
    } else {
        let mut joined = cwd.to_owned();
        joined.append("/");
        joined.append(p);
        proof {
            reveal_strlit("/");
            assert(joined@ =~= cwd@ + seq!['/'] + p@);
        }
        clean_str(joined.as_str())
    }
}

/// `s` with every trailing separator removed.
pub open spec fn strip_trailing(s: Seq<char>) -> Seq<char>
    decreases s.len(),
{
    if s.len() > 0 && s.last() == '/' {
        strip_trailing(s.drop_last())
    } else {
        s
    }
}

/// The index of the last separator in `s`, or -1 when there is none.
pub open spec fn last_sep(s: Seq<char>) -> int
    decreases s.len(),
{
    if s.len() == 0 {
        -1
    } else if s.last() == '/' {
        s.len() - 1
    } else {
        last_sep(s.drop_last())
    }
}

/// The view of an optional owned string.
pub open spec fn opt_view(o: Option<String>) -> Option<Seq<char>> {
    match o {
        Option::None => Option::None,
        Option::Some(s) => Option::Some(s@),
    }
}

/// The directory part of a destination path, after trailing separators are
/// dropped: everything before the last separator, the root alone when that
/// separator leads, and nothing for a bare file name. It is what must exist
/// as a directory before the destination itself can appear.
pub open spec fn spec_parent(s: Seq<char>) -> Option<Seq<char>> {
    let t = strip_trailing(s);
    let k = last_sep(t);
    if k < 0 {
        Option::None
    } else if k == 0 {
        Option::Some(seq!['/'])
    } else {
        Option::Some(t.take(k))
    }
}

/// The directory part of a destination path: the directories that must be
/// created before a move to `path` can succeed, or nothing when the
/// destination sits in the current directory.
pub fn parent_dir(path: &str) -> (r: Option<String>)
    ensures
        opt_view(r) == spec_parent(path@),
{
    let n = path.unicode_len();
    let mut end = n;
    proof {
        assert(path@.take(n as int) =~= path@);
    }
    while end > 0 && path.get_char(end - 1) == '/'
        invariant
            end <= n,
            n == path@.len(),
            strip_trailing(path@) == strip_trailing(path@.take(end as int)),
        decreases end,
    {
        proof {
            assert(path@.take(end as int).last() == '/');
            assert(path@.take(end as int).drop_last() =~= path@.take(end - 1));
        }
        end = end - 1;
    }
    proof {
        assert(path@.take(n as int) =~= path@);
        if end > 0 {
            assert(path@.take(end as int).last() != '/');
        }
        assert(strip_trailing(path@.take(end as int)) == path@.take(end as int));
    }
    let t_len = end;
    let mut j = t_len;
    while j > 0 && path.get_char(j - 1) != '/'
        invariant
            j <= t_len,
            t_len <= n,
            n == path@.len(),
            last_sep(path@.take(t_len as int)) == last_sep(path@.take(j as int)),
        decreases j,
    {
        proof {
            assert(path@.take(j as int).last() != '/');
            assert(path@.take(j as int).drop_last() =~= path@.take(j - 1));
        }
        j = j - 1;
    }
    if j == 0 {
        proof {
            assert(last_sep(path@.take(0int)) == -1);
        }
        None
    } else if j == 1 {
        proof {
            assert(path@.take(1int).last() == '/');
            assert(last_sep(path@.take(t_len as int)) == 0);
            reveal_strlit("/");
        }
        Some("/".to_owned())
    } else {
        proof {
            assert(path@.take(j as int).last() == '/');
            assert(last_sep(path@.take(t_len as int)) == j - 1);
        }
        let d = path.substring_char(0, j - 1);
        proof {
            assert(d@ =~= path@.take(t_len as int).take(j - 1));
        }
        Some(d.to_owned())
    }
}

} // verus!
