//! The builtin commands: `cd`, `env`, `exit`, `export` and `unset`. Each
//! updates the shell and tells the host what is left to do outside
//! (print a message, change directory, end the process).

use vstd::prelude::*;

use crate::shell::Shell;
use crate::text::{chars_of, find_char, find_char_from, lemma_find_char_from, parse_i32, parse_i32_spec, string_of, subvec};

verus! {

/// What the host has to do after a builtin has updated the shell.
#[derive(Debug, PartialEq)]
pub enum HostAction {
    /// Nothing more.
    Nothing,
    /// Print this line on standard error.
    Complain(String),
    /// Print this line on standard output.
    Say(String),
    /// Make this path the working directory, then report with
    /// `built_cd_finish`.
    ChangeDir(String),
    /// Print the working directory.
    PrintWorkingDir,
    /// Print `exit`, then end the process with this status; `None`: the
    /// argument of `exit` is not a number and the shell panics.
    Exit(Option<i32>),
}

/// The variables named by the arguments (`tokens` after the first).
pub open spec fn arg_names(tokens: Seq<String>) -> Set<Seq<char>> {
    Set::new(|k: Seq<char>| exists|j: int| 1 <= j < tokens.len() && #[trigger] tokens[j]@ == k)
}

/// `unset NAME...`: unsets every variable named; always succeeds.
pub fn built_unset(shell: &mut Shell, tokens: &mut [String]) -> (r: i32)
    ensures
        r == 0,
        final(shell).env@ == old(shell).env@.remove_keys(arg_names(old(tokens)@)),
        final(tokens)@ == old(tokens)@,
        final(shell).line == old(shell).line,
        final(shell).tokens == old(shell).tokens,
        final(shell).error == old(shell).error,
        final(shell).last_error == old(shell).last_error,
{
    let ghost toks = tokens@;
    let ghost env0 = shell.env@;
    let mut u: usize = 1;
    let ghost mut done: Set<Seq<char>> = Set::empty();
    assert(shell.env@ =~= env0.remove_keys(done));
    while u < tokens.len()
        invariant
            tokens@ == toks,
            tokens@ == old(tokens)@,
            1 <= u,
            u <= toks.len() || toks.len() == 0,
            toks.len() == 0 ==> u == 1,
            done == Set::new(|k: Seq<char>| exists|j: int| 1 <= j < u && #[trigger] toks[j]@ == k),
            shell.env@ == env0.remove_keys(done),
            shell.line == old(shell).line,
            shell.tokens == old(shell).tokens,
            shell.error == old(shell).error,
            shell.last_error == old(shell).last_error,
        decreases tokens.len() - u,
    {
        let key = tokens[u].clone();
        shell.env.remove_env(key);
        proof {
            let next = Set::new(|k: Seq<char>| exists|j: int| 1 <= j < u + 1 && #[trigger] toks[j]@ == k);
            assert(next =~= done.insert(toks[u as int]@)) by {
                assert forall|k: Seq<char>| next.contains(k) implies done.insert(toks[u as int]@).contains(k) by {
                    let j = choose|j: int| 1 <= j < u + 1 && #[trigger] toks[j]@ == k;
                    if j < u {
                        assert(done.contains(k));
                    }
                }
            }
            assert(env0.remove_keys(done).remove(toks[u as int]@) =~= env0.remove_keys(next));
            done = next;
        }
        u += 1;
    }
    proof {
        assert(u >= toks.len());
        assert forall|k: Seq<char>| #[trigger] done.contains(k) implies arg_names(toks).contains(k) by {
            let j = choose|j: int| 1 <= j < u && #[trigger] toks[j]@ == k;
            assert(j < toks.len());
        }
        assert forall|k: Seq<char>| #[trigger] arg_names(toks).contains(k) implies done.contains(k) by {
            let j = choose|j: int| 1 <= j < toks.len() && #[trigger] toks[j]@ == k;
            assert(j < u);
        }
        assert(done =~= arg_names(toks));
    }
    0
}

/// The outcome of `export` on `toks` from index `i` on, starting from the
/// environment `env`: each `NAME=VALUE` argument sets `NAME` (split at the
/// first `=`); the first argument without `=` stops the command. Gives
/// the environment reached and the index of that argument, if any.
pub open spec fn export_from(env: Map<Seq<char>, Seq<char>>, toks: Seq<Seq<char>>, i: nat) -> (Map<Seq<char>, Seq<char>>, Option<int>)
    decreases toks.len() - i,
{
    if i >= toks.len() {
        (env, None)
    } else {
        match find_char_from(toks[i as int], '=', 0) {
            None => (env, Some(i as int)),
            Some(e) => export_from(
                env.insert(toks[i as int].take(e), toks[i as int].skip(e + 1)),
                toks,
                i + 1,
            ),
        }
    }
}


/// After `export NAME=VALUE` the variable `NAME` (the text before the first
/// `=`) has the value `VALUE` (the text after it), and the command
/// succeeds.
pub proof fn law_export_then_get(env: Map<Seq<char>, Seq<char>>, cmd: Seq<char>, arg: Seq<char>, e: int)
    requires
        0 <= e < arg.len(),
        arg[e] == '=',
        forall|k: int| 0 <= k < e ==> arg[k] != '=',
    ensures
        export_from(env, seq![cmd, arg], 1).1 is None,
        export_from(env, seq![cmd, arg], 1).0.contains_key(arg.take(e)),
        export_from(env, seq![cmd, arg], 1).0[arg.take(e)] == arg.skip(e + 1),
{
    lemma_find_char_from(arg, '=', 0);
    let toks = seq![cmd, arg];
    assert(toks[1] == arg);
    assert(find_char_from(arg, '=', 0) == Some(e));
    assert(export_from(env.insert(arg.take(e), arg.skip(e + 1)), toks, 2) == (env.insert(arg.take(e), arg.skip(e + 1)), None::<int>));
}

/// After `unset`, none of the variables named is set; the others are as
/// before.
pub proof fn law_unset_then_get(env: Map<Seq<char>, Seq<char>>, tokens: Seq<String>, other: Seq<char>)
    ensures
        forall|j: int| 1 <= j < tokens.len() ==> !env.remove_keys(arg_names(tokens)).contains_key(
            #[trigger] tokens[j]@,
        ),
        !arg_names(tokens).contains(other) ==> env.remove_keys(arg_names(tokens)).contains_key(other)
            == env.contains_key(other),
        !arg_names(tokens).contains(other) && env.contains_key(other) ==> env.remove_keys(
            arg_names(tokens),
        )[other] == env[other],
{
    assert forall|j: int| 1 <= j < tokens.len() implies arg_names(tokens).contains(#[trigger] tokens[j]@) by {}
}

/// The views of a sequence of strings.
pub open spec fn views(s: Seq<String>) -> Seq<Seq<char>> {
    s.map_values(|t: String| t@)
}

/// The complaint of `export` about an argument without `=`.
pub open spec fn export_complaint(token: Seq<char>) -> Seq<char> {
    "minishell: export: "@ + token + ": not a valid identifier"@
}

/// `export NAME=VALUE...`: sets each variable in turn; the first argument
/// without `=` is reported and ends the command with status 1, the
/// variables set before it staying set.
pub fn built_export(shell: &mut Shell, tokens: &mut [String]) -> (r: (i32, HostAction))
    ensures
        final(shell).env@ == export_from(old(shell).env@, views(old(tokens)@), 1).0,
        match export_from(old(shell).env@, views(old(tokens)@), 1).1 {
            None => r.0 == 0 && r.1 is Nothing,
            Some(b) => r.0 == 1 && (r.1 matches HostAction::Complain(m) && m@ == export_complaint(
                old(tokens)@[b]@,
            )),
        },
        final(tokens)@ == old(tokens)@,
        final(shell).line == old(shell).line,
        final(shell).tokens == old(shell).tokens,
        final(shell).error == old(shell).error,
        final(shell).last_error == old(shell).last_error,
{
    let ghost toks = views(tokens@);
    let ghost target = export_from(shell.env@, toks, 1);
    let mut u: usize = 1;
    if tokens.len() == 0 {
        return (0, HostAction::Nothing);
    }
    while u < tokens.len()
        invariant
            tokens@ == old(tokens)@,
            toks == views(tokens@),
            1 <= u <= tokens@.len(),
            export_from(shell.env@, toks, u as nat) == target,
            target == export_from(old(shell).env@, views(old(tokens)@), 1),
            shell.line == old(shell).line,
            shell.tokens == old(shell).tokens,
            shell.error == old(shell).error,
            shell.last_error == old(shell).last_error,
        decreases tokens.len() - u,
    {
        let t = chars_of(tokens[u].as_str());
        proof {
            lemma_find_char_from(t@, '=', 0);
            assert(toks[u as int] == t@);
        }
        match find_char(&t, '=', 0) {
            Some(e) => {
                assert(e < t@.len());
                let key = string_of(&subvec(&t, 0, e));
                let value = string_of(&subvec(&t, e + 1, t.len()));
                shell.env.set_env(key, value);
            },
            None => {
                proof {
                    assert(toks.len() == tokens@.len());
                    assert(export_from(shell.env@, toks, u as nat) == (shell.env@, Some(u as int)));
                }
                let mut m = String::from_str("minishell: export: ");
                m.append(tokens[u].as_str());
                m.append(": not a valid identifier");
                return (1, HostAction::Complain(m));
            },
        }
        u += 1;
    }
    (0, HostAction::Nothing)
}

/// `env`: with arguments, complains that there are too many (status 1).
/// Without arguments the shell panics (it writes to the second and third
/// words of the command, which do not exist), so that case is excluded.
pub fn built_env(shell: &Shell, tokens: &mut Vec<String>) -> (r: (i32, HostAction))
    requires
        old(tokens)@.len() > 1,
    ensures
        r.0 == 1,
        r.1 matches HostAction::Complain(m) && m@ == "minishell: env: too many arguments"@,
        final(tokens)@ == old(tokens)@,
{
    (1, HostAction::Complain(String::from_str("minishell: env: too many arguments")))
}

/// `exit [N]`: with more than one argument, complains (status 1);
/// otherwise the process ends with the status `N`, or with the current
/// status when no argument is given.
pub fn built_exit(shell: &mut Shell, tokens: &mut Vec<String>) -> (r: (i32, HostAction))
    ensures
        *final(shell) == *old(shell),
        old(tokens)@.len() > 2 ==> r.0 == 1 && (r.1 matches HostAction::Complain(m) && m@
            == "minishell: exit: too many arguments"@),
        old(tokens)@.len() == 2 ==> r.0 == 0 && r.1 == HostAction::Exit(
            parse_i32_spec(old(tokens)@[1]@),
        ),
        old(tokens)@.len() < 2 ==> r.0 == 0 && r.1 == HostAction::Exit(Some(old(shell).error)),
        final(tokens)@ == old(tokens)@,
{
    if tokens.len() > 2 {
        return (1, HostAction::Complain(String::from_str("minishell: exit: too many arguments")));
    }
    if tokens.len() == 2 {
        return (0, HostAction::Exit(parse_i32(tokens[1].as_str())));
    }
    (0, HostAction::Exit(Some(shell.error)))
}


/// The directory `cd` goes to: its argument, or `~` when it has none.
pub open spec fn cd_target(args: Seq<String>) -> Seq<char> {
    if args.len() == 1 {
        "~"@
    } else {
        args[1]@
    }
}

/// `cd [DIR]`, up to the change of directory: with more than one argument,
/// complains (status 1). Otherwise `~` stands for a missing argument,
/// `OLDPWD` takes the value of `PWD`, and the host is asked to change to
/// the directory (status 0 until `built_cd_finish`). The shell panics when
/// `PWD` is unset or the command has no words at all, so those cases are
/// excluded.
pub fn built_cd(shell: &mut Shell, splitted: &mut Vec<String>) -> (r: (i32, HostAction))
    requires
        old(splitted)@.len() <= 2 ==> old(splitted)@.len() >= 1 && old(shell).env@.contains_key(
            "PWD"@,
        ),
    ensures
        old(splitted)@.len() > 2 ==> r.0 == 1 && (r.1 matches HostAction::Complain(m) && m@
            == "minishell: cd: too many arguments"@) && final(shell).env@ == old(shell).env@
            && final(splitted)@ == old(splitted)@,
        old(splitted)@.len() <= 2 ==> r.0 == 0 && (r.1 matches HostAction::ChangeDir(d) && d@
            == cd_target(old(splitted)@)) && final(shell).env@ == old(shell).env@.insert(
            "OLDPWD"@,
            old(shell).env@["PWD"@],
        ) && final(splitted)@ == (if old(splitted)@.len() == 1 {
            old(splitted)@.push(final(splitted)@[1])
        } else {
            old(splitted)@
        }) && (old(splitted)@.len() == 1 ==> final(splitted)@[1]@ == "~"@),
        final(shell).line == old(shell).line,
        final(shell).tokens == old(shell).tokens,
        final(shell).error == old(shell).error,
        final(shell).last_error == old(shell).last_error,
{
    if splitted.len() > 2 {
        return (1, HostAction::Complain(String::from_str("minishell: cd: too many arguments")));
    }
    if splitted.len() == 1 {
        splitted.push(String::from_str("~"));
    }
    let pwd = shell.env.get_env("PWD").unwrap().clone();
    shell.env.set_env(String::from_str("OLDPWD"), pwd);
    (0, HostAction::ChangeDir(splitted[1].clone()))
}

/// The complaint of `cd` about a directory it could not go to.
pub open spec fn cd_complaint(target: Seq<char>) -> Seq<char> {
    "minishell: cd: "@ + target + ": No such file or directory"@
}

/// `cd`, after the host tried to change to `target`: `new_dir` is the new
/// working directory, or `None` if the change failed. On success `PWD`
/// is set to it (status 0); otherwise the failure is reported on standard
/// output (status 1).
pub fn built_cd_finish(shell: &mut Shell, target: &String, new_dir: Option<String>) -> (r: (i32, HostAction))
    ensures
        match new_dir {
            Some(d) => r.0 == 0 && r.1 is Nothing && final(shell).env@ == old(shell).env@.insert(
                "PWD"@,
                d@,
            ),
            None => r.0 == 1 && (r.1 matches HostAction::Say(m) && m@ == cd_complaint(target@))
                && final(shell).env@ == old(shell).env@,
        },
        final(shell).line == old(shell).line,
        final(shell).tokens == old(shell).tokens,
        final(shell).error == old(shell).error,
        final(shell).last_error == old(shell).last_error,
{
    match new_dir {
        Some(d) => {
            shell.env.set_env(String::from_str("PWD"), d);
            (0, HostAction::Nothing)
        },
        None => {
            let mut m = String::from_str("minishell: cd: ");
            m.append(target.as_str());
            m.append(": No such file or directory");
            (1, HostAction::Say(m))
        },
    }
}

} // verus!
