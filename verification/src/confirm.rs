//! Interactive decisions: reading the confirmation answer and choosing the
//! editor to launch. The prompting and the environment lookup themselves
//! happen outside the library; only their decisions are made here.

use vstd::prelude::*;

verus! {

/// The reading of one confirmation answer: an affirmative `y`, a negative
/// `n` or empty line, or an unrecognized token that asks again.
#[derive(PartialEq, Eq, Structural, Debug, Clone, Copy)]
pub enum Answer {
    Yes,
    No,
    Undecided,
}

/// Whitespace that is trimmed around the typed answer.
pub open spec fn is_space(c: char) -> bool {
    c == ' ' || c == '\t' || c == '\n' || c == '\r'
}

/// `s` without leading whitespace.
pub open spec fn trim_front(s: Seq<char>) -> Seq<char>
    decreases s.len(),
{
    if s.len() > 0 && is_space(s.first()) {
        trim_front(s.drop_first())
    } else {
        s
    }
}

/// `s` without trailing whitespace.
pub open spec fn trim_back(s: Seq<char>) -> Seq<char>
    decreases s.len(),
{
    if s.len() > 0 && is_space(s.last()) {
        trim_back(s.drop_last())
    } else {
        s
    }
}

/// `s` without surrounding whitespace.
pub open spec fn spec_trim(s: Seq<char>) -> Seq<char> {
    trim_back(trim_front(s))
}

/// The classification of an answer line: after trimming, `y` in either case
/// answers yes; `n` in either case, or nothing at all, answers no; any
/// other token decides nothing and the question is asked again.
pub open spec fn spec_classify(s: Seq<char>) -> Answer {
    let t = spec_trim(s);
    if t.len() == 1 && (t[0] == 'y' || t[0] == 'Y') {
        Answer::Yes
    } else if t.len() == 0 || (t.len() == 1 && (t[0] == 'n' || t[0] == 'N')) {
        Answer::No
    } else {
        Answer::Undecided
    }
}

fn space(c: char) -> (r: bool)
    ensures
        r == is_space(c),
{
    c == ' ' || c == '\t' || c == '\n' || c == '\r'
}

/// Classifies one line read from the confirmation prompt. Declining is the
/// default: an empty line answers no.
pub fn classify_answer(line: &str) -> (r: Answer)
    ensures
        r == spec_classify(line@),
{
    let n = line.unicode_len();
    let mut start: usize = 0;
    proof {
        assert(line@.skip(0int) =~= line@);
    }
    while start < n && space(line.get_char(start))
        invariant
            start <= n,
            n == line@.len(),
            trim_front(line@) == trim_front(line@.skip(start as int)),
        decreases n - start,
    {
        proof {
            assert(line@.skip(start as int).first() == line@[start as int]);
            assert(line@.skip(start as int).drop_first() =~= line@.skip((start + 1) as int));
        }
        start = start + 1;
    }
    proof {
        if start < n {
            assert(line@.skip(start as int).first() == line@[start as int]);
        }
        assert(trim_front(line@) == line@.skip(start as int));
    }
    let mut end = n;
    proof {
        assert(line@.skip(start as int) =~= line@.subrange(start as int, n as int));
    }
    while end > start && space(line.get_char(end - 1))
        invariant
            start <= end <= n,
            n == line@.len(),
            trim_front(line@) == line@.skip(start as int),
            trim_back(line@.skip(start as int)) == trim_back(
                line@.subrange(start as int, end as int),
            ),
        decreases end,
    {
        proof {
            assert(line@.subrange(start as int, end as int).last() == line@[end - 1]);
            assert(line@.subrange(start as int, end as int).drop_last() =~= line@.subrange(
                start as int,
                end - 1,
            ));
        }
        end = end - 1;
    }
    let ghost t = line@.subrange(start as int, end as int);
    proof {
        if end > start {
            assert(t.last() == line@[end - 1]);
        }
        assert(trim_back(t) == t);
        assert(spec_trim(line@) == t);
    }
    if end == start {
        Answer::No
    } else if end - start == 1 {
        let c = line.get_char(start);
        proof {
            assert(t[0] == line@[start as int]);
        }
        if c == 'y' || c == 'Y' {
            Answer::Yes
        } else if c == 'n' || c == 'N' {
            Answer::No
        } else {
            Answer::Undecided
        }
    } else {
        Answer::Undecided
    }
}

/// The editor to launch, by precedence: the explicit override first, else
/// the editor named by the environment, else the fixed fallback `nano`.
pub fn resolve_editor(flag: Option<String>, env_editor: Option<String>) -> (r: String)
    ensures
        flag matches Some(e) ==> r@ == e@,
        flag is None ==> (env_editor matches Some(e) ==> r@ == e@),
        flag is None && env_editor is None ==> r@ == "nano"@,
{
    match flag {
        Some(e) => e,
        None => match env_editor {
            Some(e) => e,
            None => "nano".to_owned(),
        },
    }
}

} // verus!
