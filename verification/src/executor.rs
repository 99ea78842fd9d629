//! The order of work in one segment of a pipeline (the tokens up to the
//! next pipe): which files are opened for redirections, which commands
//! run, and where the next segment starts.

use vstd::prelude::*;

use crate::commands::{ElementLine, ParseTypes};
use crate::expand::{expand, expand_chars};
use crate::shell::Shell;
use crate::text::{chars_of, str_eq, string_of, trim_by, trim_pred, trim_range};

verus! {

/// The kind of a redirection operator.
#[derive(Clone, Copy, PartialEq, Eq, Debug, Structural)]
pub enum Redirect {
    /// `>`: the file is created (or truncated) for the output.
    Write,
    /// `<`: the file is opened for the input.
    Read,
    /// `>>`: the file is opened for appending (created if missing).
    Append,
    /// `<<`: a here-document ending with the word.
    Heredoc,
    /// Any other text in a redirection token: nothing is done.
    Ignored,
}

/// The kind of the redirection written `v`.
pub open spec fn redirect_of(v: Seq<char>) -> Redirect {
    if v == ">"@ {
        Redirect::Write
    } else if v == "<"@ {
        Redirect::Read
    } else if v == ">>"@ {
        Redirect::Append
    } else if v == "<<"@ {
        Redirect::Heredoc
    } else {
        Redirect::Ignored
    }
}

/// Whether a redirection of this kind opens a file and so sets the error
/// flag of the segment.
pub open spec fn opens_file(k: Redirect) -> bool {
    k == Redirect::Write || k == Redirect::Read || k == Redirect::Append
}

/// The text of a file name after a redirection once white space, spaces
/// and double quotes are stripped from both ends.
pub open spec fn trimmed_name(raw: Seq<char>) -> Seq<char> {
    trim_by(trim_by(trim_by(raw, trim_pred(true, ' ')), trim_pred(false, ' ')), trim_pred(false, '"'))
}

/// Whether a file name is written in single quotes (and so is not
/// expanded).
pub open spec fn single_quoted(f: Seq<char>) -> bool {
    f.len() > 0 && f[0] == '\''
}

/// The file name written `raw` after a redirection: stripped (see
/// `trimmed_name`); unless it then starts with a single quote, its `$`
/// references are replaced.
pub open spec fn redirect_file(raw: Seq<char>, env: Map<Seq<char>, Seq<char>>, last_error: i32) -> Seq<char> {
    let f = trimmed_name(raw);
    if single_quoted(f) {
        f
    } else {
        expand(f, env, last_error)
    }
}

/// The plan of the segment starting at token `p`: the redirections in the
/// order their files are opened, the indices of the command words in the
/// order they run (the last one first), the index of the first
/// redirection and the index where the segment stops (a pipe or an end
/// token, or the end of the tokens). `None` where a redirection has no
/// following token (the shell panics there).
pub open spec fn plan_from(t: Seq<ElementLine>, p: nat, env: Map<Seq<char>, Seq<char>>, last_error: i32) -> Option<(Seq<(Redirect, Seq<char>)>, Seq<int>, Option<int>, int)>
    decreases t.len() - p,
{
    if p >= t.len() {
        Some((Seq::empty(), Seq::empty(), None, p as int))
    } else if t[p as int].parse_type == ParseTypes::Word {
        match plan_from(t, p + 1, env, last_error) {
            Some((r, w, f, b)) => Some((r, w.push(p as int), f, b)),
            None => None,
        }
    } else if t[p as int].parse_type == ParseTypes::Redirection {
        if p + 1 >= t.len() {
            None
        } else {
            let file = redirect_file(t[p + 1int].value@, env, last_error);
            match plan_from(t, p + 2, env, last_error) {
                Some((r, w, f, b)) => Some((
                    seq![(redirect_of(t[p as int].value@), file)] + r,
                    w,
                    Some(p as int),
                    b,
                )),
                None => None,
            }
        }
    } else {
        Some((Seq::empty(), Seq::empty(), None, p as int))
    }
}

/// The work of one segment of a pipeline.
#[derive(Debug)]
pub struct SegmentPlan {
    /// The redirections, in the order their files are opened.
    pub redirections: Vec<(Redirect, String)>,
    /// The indices of the command words, in the order they run.
    pub words: Vec<usize>,
    /// The index of the first redirection, if any.
    pub first_redirection: Option<usize>,
    /// The index of the token where the segment stops.
    pub stop: usize,
}

/// Whether `plan` is the plan `spec` describes.
pub open spec fn plan_is(plan: SegmentPlan, spec: (Seq<(Redirect, Seq<char>)>, Seq<int>, Option<int>, int)) -> bool {
    &&& plan.redirections@.len() == spec.0.len()
    &&& forall|k: int| 0 <= k < spec.0.len() ==> #[trigger] plan.redirections@[k].0 == spec.0[k].0
        && plan.redirections@[k].1@ == spec.0[k].1
    &&& plan.words@.len() == spec.1.len()
    &&& forall|k: int| 0 <= k < spec.1.len() ==> #[trigger] plan.words@[k] as int == spec.1[k]
    &&& match plan.first_redirection {
        Some(i) => spec.2 == Some(i as int),
        None => spec.2 is None,
    }
    &&& plan.stop as int == spec.3
}

/// The file name after a redirection (see `redirect_file`).
pub fn redirect_target(raw: &String, shell: &Shell) -> (r: String)
    ensures
        r@ == redirect_file(raw@, shell.env@, shell.last_error),
{
    let v = chars_of(raw.as_str());
    let a = trim_range(&v, true, ' ');
    let b = trim_range(&a, false, ' ');
    let f = trim_range(&b, false, '"');
    if f.len() > 0 && f[0] == '\'' {
        return string_of(&f);
    }
    string_of(&expand_chars(&f, shell))
}

/// The kind of the redirection token with text `v`.
pub fn redirect_kind(v: &String) -> (r: Redirect)
    ensures
        r == redirect_of(v@),
{
    let s = v.as_str();
    if str_eq(s, ">") {
        Redirect::Write
    } else if str_eq(s, "<") {
        Redirect::Read
    } else if str_eq(s, ">>") {
        Redirect::Append
    } else if str_eq(s, "<<") {
        Redirect::Heredoc
    } else {
        Redirect::Ignored
    }
}

/// The plan of the segment from token `p` on (see `plan_from`).
fn plan_at(t: &[ElementLine], p: usize, shell: &Shell) -> (r: Option<SegmentPlan>)
    requires
        p <= t@.len(),
    ensures
        match r {
            Some(plan) => plan_from(t@, p as nat, shell.env@, shell.last_error) matches Some(s)
                && plan_is(plan, s),
            None => plan_from(t@, p as nat, shell.env@, shell.last_error) is None,
        },
    decreases t@.len() - p,
{
    if p >= t.len() {
        return Some(SegmentPlan {
            redirections: Vec::new(),
            words: Vec::new(),
            first_redirection: None,
            stop: p,
        });
    }
    if t[p].parse_type == ParseTypes::Word {
        match plan_at(t, p + 1, shell) {
            Some(plan) => {
                let ghost s = plan_from(t@, (p + 1) as nat, shell.env@, shell.last_error)->0;
                let mut plan = plan;
                let ghost old_w = plan.words@;
                plan.words.push(p);
                proof {
                    let s2 = plan_from(t@, p as nat, shell.env@, shell.last_error)->0;
                    assert(s2.1 == s.1.push(p as int));
                    assert forall|k: int| 0 <= k < s2.1.len() implies #[trigger] plan.words@[k] as int == s2.1[k] by {
                        if k < old_w.len() {
                            assert(plan.words@[k] == old_w[k]);
                        }
                    }
                }
                Some(plan)
            },
            None => None,
        }
    } else if t[p].parse_type == ParseTypes::Redirection {
        if p + 1 >= t.len() {
            return None;
        }
        let file = redirect_target(&t[p + 1].value, shell);
        let kind = redirect_kind(&t[p].value);
        match plan_at(t, p + 2, shell) {
            Some(plan) => {
                let mut plan = plan;
                let ghost old_r = plan.redirections@;
                plan.redirections.insert(0, (kind, file));
                plan.first_redirection = Some(p);
                proof {
                    let s = plan_from(t@, (p + 2) as nat, shell.env@, shell.last_error)->0;
                    let s2 = plan_from(t@, p as nat, shell.env@, shell.last_error)->0;
                    let fs = redirect_file(t@[p + 1int].value@, shell.env@, shell.last_error);
                    assert(file@ == fs);
                    assert(plan.redirections@[0] == (kind, file));
                    assert(s2.0 == seq![(redirect_of(t@[p as int].value@), fs)] + s.0);
                    assert forall|k: int| 0 <= k < s2.0.len() implies #[trigger] plan.redirections@[k].0
                        == s2.0[k].0 && plan.redirections@[k].1@ == s2.0[k].1 by {
                        if k > 0 {
                            assert(plan.redirections@[k] == old_r[k - 1]);
                            assert(s2.0[k] == s.0[k - 1]);
                        }
                    }
                }
                Some(plan)
            },
            None => None,
        }
    } else {
        Some(SegmentPlan {
            redirections: Vec::new(),
            words: Vec::new(),
            first_redirection: None,
            stop: p,
        })
    }
}

/// The plan of the segment made of `tokens` (see `plan_from`): `None`
/// exactly where a redirection has no following token.
pub fn plan_execute_pipes(tokens: &[ElementLine], shell: &Shell) -> (r: Option<SegmentPlan>)
    ensures
        match r {
            Some(plan) => plan_from(tokens@, 0, shell.env@, shell.last_error) matches Some(s)
                && plan_is(plan, s),
            None => plan_from(tokens@, 0, shell.env@, shell.last_error) is None,
        },
{
    plan_at(tokens, 0, shell)
}


/// The error flag of a segment after its redirections: each file opened
/// sets it to whether the opening failed (`failed[k]` for the `k`-th
/// redirection); here-documents and ignored redirections leave it.
pub open spec fn error_after(kinds: Seq<Redirect>, failed: Seq<bool>) -> bool
    decreases kinds.len(),
{
    if kinds.len() == 0 {
        false
    } else if opens_file(kinds.last()) {
        failed[kinds.len() - 1]
    } else {
        error_after(kinds.drop_last(), failed)
    }
}

/// `error_after` is the flag of redirection `j` when it is the last one
/// that opens a file.
proof fn lemma_error_after_last(kinds: Seq<Redirect>, failed: Seq<bool>, j: int)
    requires
        0 <= j < kinds.len(),
        opens_file(kinds[j]),
        forall|l: int| j < l < kinds.len() ==> !opens_file(#[trigger] kinds[l]),
    ensures
        error_after(kinds, failed) == failed[j],
    decreases kinds.len(),
{
    let n = kinds.len() - 1;
    if j < n {
        let prev = kinds.drop_last();
        assert(!opens_file(kinds[n]));
        assert(prev[j] == kinds[j]);
        assert forall|l: int| j < l < prev.len() implies !opens_file(#[trigger] prev[l]) by {
            assert(prev[l] == kinds[l]);
        }
        lemma_error_after_last(prev, failed, j);
    }
}

/// Without a redirection that opens a file, `error_after` is `false`.
proof fn lemma_error_after_none(kinds: Seq<Redirect>, failed: Seq<bool>)
    requires
        forall|l: int| 0 <= l < kinds.len() ==> !opens_file(#[trigger] kinds[l]),
    ensures
        !error_after(kinds, failed),
    decreases kinds.len(),
{
    if kinds.len() > 0 {
        let prev = kinds.drop_last();
        assert(!opens_file(kinds[kinds.len() - 1]));
        assert forall|l: int| 0 <= l < prev.len() implies !opens_file(#[trigger] prev[l]) by {
            assert(prev[l] == kinds[l]);
        }
        lemma_error_after_none(prev, failed);
    }
}

/// The error flag of a segment is the failure of its last file opening:
/// `failed[j]` for the last redirection `j` that is a `<`, `>` or `>>`,
/// and `false` when there is none (here-documents open no file).
pub proof fn law_last_opening_decides(kinds: Seq<Redirect>, failed: Seq<bool>)
    ensures
        (forall|j: int| 0 <= j < kinds.len() ==> #[trigger] kinds[j] != Redirect::Write && kinds[j]
            != Redirect::Read && kinds[j] != Redirect::Append) ==> !error_after(kinds, failed),
        forall|j: int|
            0 <= j < kinds.len() && (#[trigger] kinds[j] == Redirect::Write || kinds[j] == Redirect::Read
                || kinds[j] == Redirect::Append) && (forall|l: int| j < l < kinds.len() ==> #[trigger] kinds[l]
                != Redirect::Write && kinds[l] != Redirect::Read && kinds[l] != Redirect::Append) ==> error_after(
                kinds,
                failed,
            ) == failed[j],
{
    assert forall|j: int|
        0 <= j < kinds.len() && (#[trigger] kinds[j] == Redirect::Write || kinds[j] == Redirect::Read
            || kinds[j] == Redirect::Append) && (forall|l: int| j < l < kinds.len() ==> #[trigger] kinds[l]
            != Redirect::Write && kinds[l] != Redirect::Read && kinds[l] != Redirect::Append) implies error_after(
            kinds,
            failed,
        ) == failed[j] by {
        assert forall|l: int| j < l < kinds.len() implies !opens_file(#[trigger] kinds[l]) by {
            assert(kinds[l] != Redirect::Write && kinds[l] != Redirect::Read && kinds[l] != Redirect::Append);
        }
        lemma_error_after_last(kinds, failed, j);
    }
    if forall|j: int| 0 <= j < kinds.len() ==> #[trigger] kinds[j] != Redirect::Write && kinds[j]
        != Redirect::Read && kinds[j] != Redirect::Append {
        assert forall|l: int| 0 <= l < kinds.len() implies !opens_file(#[trigger] kinds[l]) by {
            assert(kinds[l] != Redirect::Write && kinds[l] != Redirect::Read && kinds[l] != Redirect::Append);
        }
        lemma_error_after_none(kinds, failed);
    }
}

/// The kinds of the redirections of a plan.
pub open spec fn kinds_of(plan: SegmentPlan) -> Seq<Redirect> {
    plan.redirections@.map_values(|x: (Redirect, String)| x.0)
}

/// Whether the segment failed: the error flag left by its redirections,
/// `failed[k]` telling whether opening the file of the `k`-th one failed.
pub fn segment_failed(plan: &SegmentPlan, failed: &Vec<bool>) -> (r: bool)
    requires
        failed@.len() == plan.redirections@.len(),
    ensures
        r == error_after(kinds_of(*plan), failed@),
{
    let mut e = false;
    let mut k: usize = 0;
    while k < plan.redirections.len()
        invariant
            k <= plan.redirections@.len(),
            failed@.len() == plan.redirections@.len(),
            e == error_after(kinds_of(*plan).take(k as int), failed@),
        decreases plan.redirections.len() - k,
    {
        proof {
            assert(kinds_of(*plan).take(k + 1).drop_last() =~= kinds_of(*plan).take(k as int));
        }
        let kind = plan.redirections[k].0;
        if kind == Redirect::Write || kind == Redirect::Read || kind == Redirect::Append {
            e = failed[k];
        }
        k += 1;
    }
    proof {
        assert(kinds_of(*plan).take(k as int) =~= kinds_of(*plan));
    }
    e
}

/// The index (within the segment) that the segment reports as its end:
/// the first redirection when the segment failed and has one, else the
/// token where it stopped.
pub fn segment_end(plan: &SegmentPlan, failed: bool) -> (r: usize)
    ensures
        r == match (failed, plan.first_redirection) {
            (true, Some(i)) => i,
            _ => plan.stop,
        },
{
    match (failed, plan.first_redirection) {
        (true, Some(i)) => i,
        _ => plan.stop,
    }
}

/// What the loop over the segments of a pipeline does next.
#[derive(Clone, Copy, PartialEq, Eq, Debug, Structural)]
pub enum PipelineStep {
    /// Run the segment whose tokens start at index `start`; its output
    /// goes into a new pipe when `piped_out`, else to the shell's output.
    Run { start: usize, piped_out: bool },
    /// Every command of the pipeline has run.
    Stop,
}

/// The first step of a pipeline of `n_cmds` commands: the segment at the
/// first token, piped unless it is the only command.
pub fn pipeline_first(n_cmds: i32) -> (r: PipelineStep)
    ensures
        n_cmds > 0 ==> r == (PipelineStep::Run { start: 0, piped_out: 1 < n_cmds }),
        n_cmds <= 0 ==> r == PipelineStep::Stop,
{
    if n_cmds > 0 {
        PipelineStep::Run { start: 0, piped_out: 1 < n_cmds }
    } else {
        PipelineStep::Stop
    }
}

/// The step after segment number `done` (counted from 0) of a pipeline of
/// `n_cmds` commands, the segment having started at token `start` and
/// ended at index `seg_end` within its own tokens: the next segment starts
/// just after that end, and only the last one writes to the shell's
/// output.
pub fn pipeline_step(n_cmds: i32, done: i32, start: usize, seg_end: usize) -> (r: PipelineStep)
    requires
        0 <= done < n_cmds,
        done + 1 < n_cmds ==> start + seg_end + 1 <= usize::MAX,
    ensures
        done + 1 < n_cmds ==> r == (PipelineStep::Run {
            start: (start + seg_end + 1) as usize,
            piped_out: done + 2 < n_cmds,
        }),
        done + 1 >= n_cmds ==> r == PipelineStep::Stop,
{
    let next = done + 1;
    if next < n_cmds {
        PipelineStep::Run { start: start + seg_end + 1, piped_out: next + 1 < n_cmds }
    } else {
        PipelineStep::Stop
    }
}

} // verus!
