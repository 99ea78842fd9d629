//! The pieces of the prompt: who is at the terminal and the name of the
//! working directory.

use vstd::prelude::*;

use crate::env::Env;
use crate::text::{chars_of, split_char, split_on, string_of, trim_by, trim_pred, trim_range};

verus! {

/// The user shown in the prompt: the value of `USER`, if it is set.
pub fn prompt_user(env: &Env) -> (r: Option<String>)
    ensures
        match r {
            Some(u) => env@.contains_key("USER"@) && u@ == env@["USER"@],
            None => !env@.contains_key("USER"@),
        },
{
    match env.get_env("USER") {
        Some(u) => Some(u.clone()),
        None => None,
    }
}

/// The host name shown when `USER` is unset: the contents of the host
/// name file without leading or trailing newlines.
pub fn host_label(contents: &String) -> (r: String)
    ensures
        r@ == trim_by(contents@, trim_pred(false, '\n')),
{
    string_of(&trim_range(&chars_of(contents.as_str()), false, '\n'))
}

/// The components of a path that name something: the parts between `/`
/// that are neither empty nor `.`.
pub open spec fn named_parts(path: Seq<char>) -> Seq<Seq<char>> {
    split_on(path, '/').filter(|part: Seq<char>| part.len() > 0 && part != seq!['.'])
}

/// `Path::file_name`: the last component of the path when it names
/// something (not the root, `.` or `..`).
pub open spec fn file_name(path: Seq<char>) -> Option<Seq<char>> {
    let parts = named_parts(path);
    if parts.len() == 0 || parts.last() == seq!['.', '.'] {
        None
    } else {
        Some(parts.last())
    }
}

/// The directory shown in the prompt: `None` when `PWD` is unset;
/// otherwise the file name of `PWD`, `None` inside when it has none (the
/// shell then panics).
pub fn prompt_dir(env: &Env) -> (r: Option<Option<String>>)
    ensures
        match r {
            None => !env@.contains_key("PWD"@),
            Some(d) => env@.contains_key("PWD"@) && match d {
                Some(name) => file_name(env@["PWD"@]) == Some(name@),
                None => file_name(env@["PWD"@]) is None,
            },
        },
{
    match env.get_env("PWD") {
        None => None,
        Some(pwd) => {
            let parts = split_char(pwd.as_str(), '/');
            let ghost all = split_on(pwd@, '/');
            let ghost keep = |part: Seq<char>| part.len() > 0 && part != seq!['.'];
            let mut last: Option<String> = None;
            let mut i: usize = 0;
            while i < parts.len()
                invariant
                    i <= parts@.len(),
                    parts@.len() == all.len(),
                    forall|j: int| 0 <= j < parts@.len() ==> #[trigger] parts@[j]@ == all[j],
                    keep == (|part: Seq<char>| part.len() > 0 && part != seq!['.']),
                    match last {
                        None => all.take(i as int).filter(keep).len() == 0,
                        Some(l) => all.take(i as int).filter(keep).len() > 0 && l@ == all.take(
                            i as int,
                        ).filter(keep).last(),
                    },
                decreases parts.len() - i,
            {
                proof {
                    assert(all.take(i + 1).drop_last() =~= all.take(i as int));
                    reveal_with_fuel(Seq::filter, 1);
                }
                let p = chars_of(parts[i].as_str());
                if p.len() > 0 && !(p.len() == 1 && p[0] == '.') {
                    proof {
                        assert(p@ != seq!['.']);
                    }
                    last = Some(parts[i].clone());
                } else {
                    proof {
                        assert(p@.len() == 1 ==> p@ =~= seq![p@[0]]);
                    }
                }
                i += 1;
            }
            proof {
                assert(all.take(parts@.len() as int) =~= all);
            }
            match last {
                None => Some(None),
                Some(l) => {
                    let lc = chars_of(l.as_str());
                    if lc.len() == 2 && lc[0] == '.' && lc[1] == '.' {
                        proof {
                            assert(lc@ =~= seq!['.', '.']);
                        }
                        Some(None)
                    } else {
                        proof {
                            assert(lc@ != seq!['.', '.']);
                        }
                        Some(Some(l))
                    }
                },
            }
        },
    }
}

} // verus!
