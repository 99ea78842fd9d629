//! The environment table of the shell: a map from variable names to values.

use vstd::prelude::*;

use crate::text::{push_char, split_char, split_on};

verus! {

/// Whether no name occurs twice among the entries.
pub open spec fn distinct_keys(s: Seq<(String, String)>) -> bool {
    forall|i: int, j: int|
        0 <= i < s.len() && 0 <= j < s.len() && i != j ==> #[trigger] s[i].0@ != #[trigger] s[j].0@
}

/// Whether some entry of `s` has the name `k`.
pub open spec fn has_key(s: Seq<(String, String)>, k: Seq<char>) -> bool {
    exists|i: int| 0 <= i < s.len() && #[trigger] s[i].0@ == k
}

/// The map that a list of entries with distinct names stands for.
pub open spec fn pairs_view(s: Seq<(String, String)>) -> Map<Seq<char>, Seq<char>> {
    Map::new(
        |k: Seq<char>| has_key(s, k),
        |k: Seq<char>| s[choose|i: int| 0 <= i < s.len() && #[trigger] s[i].0@ == k].1@,
    )
}

/// The map obtained from `m` by inserting the entries of `s` one after the
/// other, a later entry replacing an earlier one with the same name.
pub open spec fn insert_all(m: Map<Seq<char>, Seq<char>>, s: Seq<(String, String)>) -> Map<Seq<char>, Seq<char>>
    decreases s.len(),
{
    if s.len() == 0 {
        m
    } else {
        insert_all(m, s.drop_last()).insert(s.last().0@, s.last().1@)
    }
}

/// A lookup in `pairs_view` gives the value of the entry with that name.
proof fn lemma_pairs_view_at(s: Seq<(String, String)>, i: int)
    requires
        distinct_keys(s),
        0 <= i < s.len(),
    ensures
        pairs_view(s).contains_key(s[i].0@),
        pairs_view(s)[s[i].0@] == s[i].1@,
{
    let k = s[i].0@;
    assert(has_key(s, k));
    let j = choose|j: int| 0 <= j < s.len() && #[trigger] s[j].0@ == k;
    assert(s[j].0@ == k);
}

/// A list of entries with distinct names has one entry per name of its map.
proof fn lemma_pairs_view_len(s: Seq<(String, String)>)
    requires
        distinct_keys(s),
    ensures
        pairs_view(s).dom().finite(),
        pairs_view(s).dom().len() == s.len(),
{
    let keys = s.map_values(|p: (String, String)| p.0@);
    assert(keys.no_duplicates()) by {
        assert forall|i: int, j: int| 0 <= i < keys.len() && 0 <= j < keys.len() && i != j implies keys[i]
            != keys[j] by {
            assert(s[i].0@ != s[j].0@);
        }
    }
    keys.unique_seq_to_set();
    assert forall|k: Seq<char>| #[trigger] keys.to_set().contains(k) == pairs_view(s).dom().contains(k) by {
        if has_key(s, k) {
            let j = choose|j: int| 0 <= j < s.len() && #[trigger] s[j].0@ == k;
            assert(keys[j] == k);
        }
        if keys.contains(k) {
            let j = choose|j: int| 0 <= j < keys.len() && keys[j] == k;
            assert(s[j].0@ == k);
        }
    }
    assert(keys.to_set() =~= pairs_view(s).dom());
}

/// The environment: variable names and their values, kept as a list of
/// entries with distinct names (the specification of std's `HashMap` that
/// the proofs can use covers integer keys, not `String` ones).
pub struct Env {
    env: Vec<(String, String)>,
}

impl View for Env {
    type V = Map<Seq<char>, Seq<char>>;

    closed spec fn view(&self) -> Map<Seq<char>, Seq<char>> {
        pairs_view(self.env@)
    }
}

impl Env {
    #[verifier::type_invariant]
    spec fn inv(self) -> bool {
        distinct_keys(self.env@)
    }

    /// Index of the entry named `key`.
    fn find(&self, key: &String) -> (r: Option<usize>)
        ensures
            match r {
                Some(i) => i < self.env@.len() && self.env@[i as int].0@ == key@,
                None => !has_key(self.env@, key@),
            },
    {
        let mut i: usize = 0;
        while i < self.env.len()
            invariant
                i <= self.env@.len(),
                forall|j: int| 0 <= j < i ==> #[trigger] self.env@[j].0@ != key@,
            decreases self.env.len() - i,
        {
            if self.env[i].0 == *key {
                return Some(i);
            }
            i += 1;
        }
        None
    }

    /// A table holding the given variables, inserted in order: where a name
    /// occurs twice the later value is kept.
    pub fn new(vars: Vec<(String, String)>) -> (r: Env)
        ensures
            r@ == insert_all(Map::empty(), vars@),
    {
        let mut r = Env { env: Vec::new() };
        assert(r@ =~= Map::empty());
        let mut i: usize = 0;
        while i < vars.len()
            invariant
                i <= vars@.len(),
                r@ == insert_all(Map::empty(), vars@.take(i as int)),
            decreases vars.len() - i,
        {
            proof {
                assert(vars@.take(i + 1).drop_last() =~= vars@.take(i as int));
            }
            let k = vars[i].0.clone();
            let v = vars[i].1.clone();
            r.set_env(k, v);
            i += 1;
        }
        assert(vars@.take(vars@.len() as int) =~= vars@);
        r
    }

    /// The value of the variable `key`, if it is set.
    pub fn get_env(&self, key: &str) -> (r: Option<&String>)
        ensures
            match r {
                Some(v) => self@.contains_key(key@) && v@ == self@[key@],
                None => !self@.contains_key(key@),
            },
    {
        proof {
            use_type_invariant(self);
        }
        let k = String::from_str(key);
        match self.find(&k) {
            Some(i) => {
                proof {
                    lemma_pairs_view_at(self.env@, i as int);
                }
                Some(&self.env[i].1)
            },
            None => None,
        }
    }

    /// Sets the variable `key` to `value`, replacing any earlier value.
    pub fn set_env(&mut self, key: String, value: String)
        ensures
            final(self)@ == old(self)@.insert(key@, value@),
    {
        proof {
            use_type_invariant(&*self);
        }
        let ghost old_env = self.env@;
        match self.find(&key) {
            Some(i) => {
                let ghost k = key@;
                let ghost val = value@;
                let mut entries: Vec<(String, String)> = Vec::new();
                std::mem::swap(&mut entries, &mut self.env);
                entries.set(i, (key, value));
                proof {
                    let new_env = entries@;
                    assert forall|a: int, b: int|
                        0 <= a < new_env.len() && 0 <= b < new_env.len() && a != b implies
                        #[trigger] new_env[a].0@ != #[trigger] new_env[b].0@ by {
                        assert(old_env[a].0@ == new_env[a].0@);
                        assert(old_env[b].0@ == new_env[b].0@);
                    }
                    assert forall|kk: Seq<char>| #[trigger] pairs_view(new_env).contains_key(kk)
                        == pairs_view(old_env).insert(k, val).contains_key(kk) by {
                        if has_key(old_env, kk) {
                            let j = choose|j: int| 0 <= j < old_env.len() && #[trigger] old_env[j].0@ == kk;
                            assert(new_env[j].0@ == kk);
                        }
                        if has_key(new_env, kk) {
                            let j = choose|j: int| 0 <= j < new_env.len() && #[trigger] new_env[j].0@ == kk;
                            assert(old_env[j].0@ == kk);
                        }
                    }
                    assert forall|kk: Seq<char>| #[trigger] pairs_view(new_env).contains_key(kk) implies
                        pairs_view(new_env)[kk] == pairs_view(old_env).insert(k, val)[kk] by {
                        let j = choose|j: int| 0 <= j < new_env.len() && #[trigger] new_env[j].0@ == kk;
                        lemma_pairs_view_at(new_env, j);
                        if j != i {
                            lemma_pairs_view_at(old_env, j);
                        }
                    }
                    assert(pairs_view(new_env) =~= pairs_view(old_env).insert(k, val));
                }
                self.env = entries;
            },
            None => {
                let ghost k = key@;
                let ghost val = value@;
                let mut entries: Vec<(String, String)> = Vec::new();
                std::mem::swap(&mut entries, &mut self.env);
                entries.push((key, value));
                proof {
                    let new_env = entries@;
                    assert forall|a: int, b: int|
                        0 <= a < new_env.len() && 0 <= b < new_env.len() && a != b implies
                        #[trigger] new_env[a].0@ != #[trigger] new_env[b].0@ by {
                        if a < old_env.len() && b < old_env.len() {
                            assert(old_env[a].0@ == new_env[a].0@);
                            assert(old_env[b].0@ == new_env[b].0@);
                        } else if a < old_env.len() {
                            assert(old_env[a].0@ == new_env[a].0@);
                        } else {
                            assert(old_env[b].0@ == new_env[b].0@);
                        }
                    }
                    assert forall|kk: Seq<char>| #[trigger] pairs_view(new_env).contains_key(kk)
                        == pairs_view(old_env).insert(k, val).contains_key(kk) by {
                        if has_key(old_env, kk) {
                            let j = choose|j: int| 0 <= j < old_env.len() && #[trigger] old_env[j].0@ == kk;
                            assert(new_env[j].0@ == kk);
                        }
                        if kk == k {
                            assert(new_env[old_env.len() as int].0@ == kk);
                        }
                        if has_key(new_env, kk) {
                            let j = choose|j: int| 0 <= j < new_env.len() && #[trigger] new_env[j].0@ == kk;
                            if j < old_env.len() {
                                assert(old_env[j].0@ == kk);
                            }
                        }
                    }
                    assert forall|kk: Seq<char>| #[trigger] pairs_view(new_env).contains_key(kk) implies
                        pairs_view(new_env)[kk] == pairs_view(old_env).insert(k, val)[kk] by {
                        let j = choose|j: int| 0 <= j < new_env.len() && #[trigger] new_env[j].0@ == kk;
                        lemma_pairs_view_at(new_env, j);
                        if j < old_env.len() {
                            lemma_pairs_view_at(old_env, j);
                        }
                    }
                    assert(pairs_view(new_env) =~= pairs_view(old_env).insert(k, val));
                }
                self.env = entries;
            },
        }
    }

    /// Unsets the variable `key`; nothing changes where it is not set.
    pub fn remove_env(&mut self, key: String)
        ensures
            final(self)@ == old(self)@.remove(key@),
    {
        proof {
            use_type_invariant(&*self);
        }
        let ghost old_env = self.env@;
        let ghost k = key@;
        match self.find(&key) {
            Some(i) => {
                let mut entries: Vec<(String, String)> = Vec::new();
                std::mem::swap(&mut entries, &mut self.env);
                entries.remove(i);
                proof {
                    let new_env = entries@;
                    assert forall|a: int| 0 <= a < new_env.len() implies #[trigger] new_env[a] == (
                        if a < i { old_env[a] } else { old_env[a + 1] }) by {}
                    assert forall|a: int, b: int|
                        0 <= a < new_env.len() && 0 <= b < new_env.len() && a != b implies
                        #[trigger] new_env[a].0@ != #[trigger] new_env[b].0@ by {
                        let oa = if a < i { a } else { a + 1 };
                        let ob = if b < i { b } else { b + 1 };
                        assert(old_env[oa].0@ != old_env[ob].0@);
                    }
                    assert forall|kk: Seq<char>| #[trigger] pairs_view(new_env).contains_key(kk)
                        == pairs_view(old_env).remove(k).contains_key(kk) by {
                        if has_key(old_env, kk) && kk != k {
                            let j = choose|j: int| 0 <= j < old_env.len() && #[trigger] old_env[j].0@ == kk;
                            assert(j != i);
                            let nj = if j < i { j } else { j - 1 };
                            assert(new_env[nj].0@ == kk);
                        }
                        if has_key(new_env, kk) {
                            let j = choose|j: int| 0 <= j < new_env.len() && #[trigger] new_env[j].0@ == kk;
                            let oj = if j < i { j } else { j + 1 };
                            assert(old_env[oj].0@ == kk);
                            assert(oj != i);
                        }
                    }
                    assert forall|kk: Seq<char>| #[trigger] pairs_view(new_env).contains_key(kk) implies
                        pairs_view(new_env)[kk] == pairs_view(old_env).remove(k)[kk] by {
                        let j = choose|j: int| 0 <= j < new_env.len() && #[trigger] new_env[j].0@ == kk;
                        lemma_pairs_view_at(new_env, j);
                        let oj = if j < i { j } else { j + 1 };
                        lemma_pairs_view_at(old_env, oj);
                    }
                    assert(pairs_view(new_env) =~= pairs_view(old_env).remove(k));
                }
                self.env = entries;
            },
            None => {
                proof {
                    assert(pairs_view(old_env) =~= pairs_view(old_env).remove(k));
                }
            },
        }
    }

    /// All variables with their values, each name once: one entry per
    /// variable.
    pub fn get_all(&self) -> (r: Vec<(String, String)>)
        ensures
            distinct_keys(r@),
            pairs_view(r@) == self@,
            self@.dom().finite(),
            r@.len() == self@.dom().len(),
    {
        proof {
            use_type_invariant(self);
        }
        let mut r: Vec<(String, String)> = Vec::new();
        let mut i: usize = 0;
        while i < self.env.len()
            invariant
                i <= self.env@.len(),
                r@.len() == i,
                forall|j: int| 0 <= j < i ==> #[trigger] r@[j].0@ == self.env@[j].0@ && r@[j].1@ == self.env@[j].1@,
            decreases self.env.len() - i,
        {
            r.push((self.env[i].0.clone(), self.env[i].1.clone()));
            i += 1;
        }
        proof {
            let s = self.env@;
            assert forall|a: int, b: int| 0 <= a < r@.len() && 0 <= b < r@.len() && a != b implies
                #[trigger] r@[a].0@ != #[trigger] r@[b].0@ by {
                assert(s[a].0@ != s[b].0@);
            }
            assert forall|kk: Seq<char>| #[trigger] pairs_view(r@).contains_key(kk)
                == pairs_view(s).contains_key(kk) by {
                if has_key(s, kk) {
                    let j = choose|j: int| 0 <= j < s.len() && #[trigger] s[j].0@ == kk;
                    assert(r@[j].0@ == kk);
                }
                if has_key(r@, kk) {
                    let j = choose|j: int| 0 <= j < r@.len() && #[trigger] r@[j].0@ == kk;
                    assert(s[j].0@ == kk);
                }
            }
            assert forall|kk: Seq<char>| #[trigger] pairs_view(r@).contains_key(kk) implies
                pairs_view(r@)[kk] == pairs_view(s)[kk] by {
                let j = choose|j: int| 0 <= j < r@.len() && #[trigger] r@[j].0@ == kk;
                lemma_pairs_view_at(r@, j);
                lemma_pairs_view_at(s, j);
            }
            assert(pairs_view(r@) =~= pairs_view(s));
            lemma_pairs_view_len(r@);
        }
        r
    }

    /// Whether `cmd` is found in one of the directories listed in `PATH`
    /// (separated by `:`): each candidate path (see `candidate_paths`) is
    /// put to `probe` in order, until one answers `true`.
    ///
    /// The result is `true` exactly when some candidate was answered `true`;
    /// when it is `false`, every candidate was answered `false`.
    pub fn path_search<F: Fn(&str) -> bool>(&self, cmd: &str, probe: F) -> (r: bool)
        requires
            self@.contains_key("PATH"@),
            forall|s: &str| call_requires(probe, (s,)),
        ensures
            r ==> exists|i: int|
                0 <= i < candidate_paths(self@["PATH"@], cmd@).len() && #[trigger] probed(
                    probe,
                    candidate_paths(self@["PATH"@], cmd@)[i],
                    true,
                ),
            !r ==> forall|i: int|
                0 <= i < candidate_paths(self@["PATH"@], cmd@).len() ==> #[trigger] probed(
                    probe,
                    candidate_paths(self@["PATH"@], cmd@)[i],
                    false,
                ),
    {
        let path_var = self.get_env("PATH").unwrap();
        let candidates = path_candidates(path_var.as_str(), cmd);
        let ghost cands = candidate_paths(self@["PATH"@], cmd@);
        let n = candidates.len();
        let mut found: Vec<bool> = Vec::new();
        let mut hit = false;
        let mut i: usize = 0;
        while i < n && !hit
            invariant
                n == candidates@.len(),
                n == cands.len(),
                forall|j: int| 0 <= j < n ==> #[trigger] candidates@[j]@ == cands[j],
                forall|s: &str| call_requires(probe, (s,)),
                i <= n,
                found@.len() == i,
                forall|j: int| 0 <= j < i ==> #[trigger] probed(probe, cands[j], found@[j]),
                !hit ==> forall|j: int| 0 <= j < i ==> !#[trigger] found@[j],
                hit ==> found@.contains(true),
            decreases n - i,
        {
            let s = candidates[i].as_str();
            let here = probe(s);
            proof {
                assert(s@ == cands[i as int]);
                assert(probed(probe, cands[i as int], here));
            }
            found.push(here);
            proof {
                if here {
                    assert(found@[i as int] == true);
                }
            }
            hit = here;
            i += 1;
        }
        let r = any_found(&found);
        proof {
            if r {
                let j = choose|j: int| 0 <= j < found@.len() && found@[j] == true;
                assert(probed(probe, cands[j], found@[j]));
            } else {
                assert forall|j: int| 0 <= j < cands.len() implies #[trigger] probed(probe, cands[j], false) by {
                    assert(found@[j] == false) by {
                        if found@[j] {
                            assert(found@.contains(true));
                        }
                    }
                    assert(probed(probe, cands[j], found@[j]));
                }
            }
        }
        r
    }

    /// Whether `cmd` is found in one of the directories listed in `PATH`:
    /// `path_search` with the probe `path_exists`, which asks the file
    /// system. Which paths are asked about and how the answers combine is
    /// stated; the answers themselves rest on the file system.
    pub fn path_validation(&self, cmd: &str) -> (r: bool)
        requires
            self@.contains_key("PATH"@),
        ensures
            r ==> exists|i: int|
                0 <= i < candidate_paths(self@["PATH"@], cmd@).len() && #[trigger] disk_answered(
                    candidate_paths(self@["PATH"@], cmd@)[i],
                    true,
                ),
            !r ==> forall|i: int|
                0 <= i < candidate_paths(self@["PATH"@], cmd@).len() ==> #[trigger] disk_answered(
                    candidate_paths(self@["PATH"@], cmd@)[i],
                    false,
                ),
    {
        let r = self.path_search(cmd, path_exists);
        proof {
            let cands = candidate_paths(self@["PATH"@], cmd@);
            if r {
                let i = choose|i: int| 0 <= i < cands.len() && #[trigger] probed(path_exists, cands[i], true);
                assert(disk_answered(cands[i], true));
            }
        }
        r
    }
}

/// Whether the file system, asked through `path_exists` about the path
/// `p`, answered `b`.
pub closed spec fn disk_answered(p: Seq<char>, b: bool) -> bool {
    probed(path_exists, p, b)
}

/// Whether `probe` was asked about the path `p` and answered `b`.
pub open spec fn probed<F: Fn(&str) -> bool>(probe: F, p: Seq<char>, b: bool) -> bool {
    exists|s: &str| s@ == p && #[trigger] call_ensures(probe, (s,), b)
}

/// Whether one of the answers is `true`.
pub fn any_found(found: &Vec<bool>) -> (r: bool)
    ensures
        r == found@.contains(true),
{
    let mut i: usize = 0;
    while i < found.len()
        invariant
            i <= found@.len(),
            forall|j: int| 0 <= j < i ==> !#[trigger] found@[j],
        decreases found.len() - i,
    {
        if found[i] {
            proof {
                assert(found@[i as int] == true);
            }
            return true;
        }
        i += 1;
    }
    false
}

/// Reading a variable after `set_env` gives the value set; every other
/// variable reads as before.
pub proof fn law_get_after_set(before: Map<Seq<char>, Seq<char>>, key: Seq<char>, value: Seq<char>, other: Seq<char>)
    ensures
        before.insert(key, value).contains_key(key),
        before.insert(key, value)[key] == value,
        other != key ==> before.insert(key, value).contains_key(other) == before.contains_key(other),
        other != key && before.contains_key(other) ==> before.insert(key, value)[other] == before[other],
{
}

/// Reading a variable after `remove_env` finds nothing; every other
/// variable reads as before.
pub proof fn law_get_after_remove(before: Map<Seq<char>, Seq<char>>, key: Seq<char>, other: Seq<char>)
    ensures
        !before.remove(key).contains_key(key),
        other != key ==> before.remove(key).contains_key(other) == before.contains_key(other),
        other != key && before.contains_key(other) ==> before.remove(key)[other] == before[other],
{
}

/// Building the environment from a list of variables gives each name the
/// value of its last entry in the list.
pub proof fn law_new_keeps_last(vars: Seq<(String, String)>, i: int)
    requires
        0 <= i < vars.len(),
        forall|j: int| i < j < vars.len() ==> #[trigger] vars[j].0@ != vars[i].0@,
    ensures
        insert_all(Map::empty(), vars).contains_key(vars[i].0@),
        insert_all(Map::empty(), vars)[vars[i].0@] == vars[i].1@,
    decreases vars.len(),
{
    if i < vars.len() - 1 {
        law_new_keeps_last(vars.drop_last(), i);
    }
}

/// A change made to the environment: `set_env` of a name and a value, or
/// `remove_env` of a name.
pub enum EnvChange {
    Assign(Seq<char>, Seq<char>),
    Remove(Seq<char>),
}

/// The name that a change is about.
pub open spec fn changed_name(c: EnvChange) -> Seq<char> {
    match c {
        EnvChange::Assign(k, _) => k,
        EnvChange::Remove(k) => k,
    }
}

/// What a change leaves its name reading: the value set, or nothing.
pub open spec fn written(c: EnvChange) -> Option<Seq<char>> {
    match c {
        EnvChange::Assign(_, v) => Some(v),
        EnvChange::Remove(_) => None,
    }
}

/// What `get_env` reads for `key` in the map `m`.
pub open spec fn lookup(m: Map<Seq<char>, Seq<char>>, key: Seq<char>) -> Option<Seq<char>> {
    if m.contains_key(key) {
        Some(m[key])
    } else {
        None
    }
}

/// The environment after the changes `ops`, made in order from `m`, as
/// `set_env` and `remove_env` state them.
pub open spec fn apply_changes(m: Map<Seq<char>, Seq<char>>, ops: Seq<EnvChange>) -> Map<Seq<char>, Seq<char>>
    decreases ops.len(),
{
    if ops.len() == 0 {
        m
    } else {
        let before = apply_changes(m, ops.drop_last());
        match ops.last() {
            EnvChange::Assign(k, v) => before.insert(k, v),
            EnvChange::Remove(k) => before.remove(k),
        }
    }
}

/// After any sequence of `set_env` and `remove_env` calls, a variable reads
/// as the last of them that names it left it (its value, or nothing after a
/// removal); a variable that none of them names reads as before.
pub proof fn law_get_after_changes(m: Map<Seq<char>, Seq<char>>, ops: Seq<EnvChange>, key: Seq<char>)
    ensures
        (forall|j: int| 0 <= j < ops.len() ==> changed_name(#[trigger] ops[j]) != key) ==> lookup(
            apply_changes(m, ops),
            key,
        ) == lookup(m, key),
        forall|j: int|
            0 <= j < ops.len() && changed_name(#[trigger] ops[j]) == key && (forall|l: int|
                j < l < ops.len() ==> changed_name(#[trigger] ops[l]) != key) ==> lookup(
                apply_changes(m, ops),
                key,
            ) == written(ops[j]),
    decreases ops.len(),
{
    if ops.len() > 0 {
        let prev = ops.drop_last();
        law_get_after_changes(m, prev, key);
        let n = ops.len() - 1;
        assert forall|j: int| 0 <= j < prev.len() implies #[trigger] prev[j] == ops[j] by {}
        assert forall|j: int|
            0 <= j < ops.len() && changed_name(#[trigger] ops[j]) == key && (forall|l: int|
                j < l < ops.len() ==> changed_name(#[trigger] ops[l]) != key) implies lookup(
                apply_changes(m, ops),
                key,
            ) == written(ops[j]) by {
            if j < n {
                assert(changed_name(ops[n]) != key);
                assert(prev[j] == ops[j]);
                assert forall|l: int| j < l < prev.len() implies changed_name(#[trigger] prev[l]) != key by {
                    assert(prev[l] == ops[l]);
                    assert(changed_name(ops[l]) != key);
                }
            }
        }
        if forall|j: int| 0 <= j < ops.len() ==> changed_name(#[trigger] ops[j]) != key {
            assert(changed_name(ops[n]) != key);
            assert forall|j: int| 0 <= j < prev.len() implies changed_name(#[trigger] prev[j]) != key by {
                assert(prev[j] == ops[j]);
                assert(changed_name(ops[j]) != key);
            }
        }
    }
}

/// Whether something exists at the path `p` (`Path::exists` of std).
/// The answer depends on the file system at the time of the call; nothing
/// is stated of it.
#[verifier::external_body]
fn path_exists(p: &str) -> bool {
    std::path::Path::new(p).exists()
}

/// The paths tried for `cmd`: each directory of `path_var` (separated by
/// `:`) followed by `/` and `cmd`.
pub open spec fn candidate_paths(path_var: Seq<char>, cmd: Seq<char>) -> Seq<Seq<char>> {
    split_on(path_var, ':').map_values(|dir: Seq<char>| dir + seq!['/'] + cmd)
}

/// The paths tried for `cmd` in the directories of `path_var`, in order.
pub fn path_candidates(path_var: &str, cmd: &str) -> (r: Vec<String>)
    ensures
        r@.len() == candidate_paths(path_var@, cmd@).len(),
        forall|i: int| 0 <= i < r@.len() ==> #[trigger] r@[i]@ == candidate_paths(path_var@, cmd@)[i],
{
    let dirs = split_char(path_var, ':');
    let mut r: Vec<String> = Vec::new();
    let mut i: usize = 0;
    while i < dirs.len()
        invariant
            i <= dirs@.len(),
            dirs@.len() == split_on(path_var@, ':').len(),
            forall|j: int| 0 <= j < dirs@.len() ==> #[trigger] dirs@[j]@ == split_on(path_var@, ':')[j],
            r@.len() == i,
            forall|j: int| 0 <= j < i ==> #[trigger] r@[j]@ == candidate_paths(path_var@, cmd@)[j],
        decreases dirs.len() - i,
    {
        let mut p = dirs[i].clone();
        push_char(&mut p, '/');
        p.append(cmd);
        r.push(p);
        i += 1;
    }
    r
}

} // verus!
