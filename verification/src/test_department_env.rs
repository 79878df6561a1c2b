//! The environment of a department that is run in a test, and how it is put back.

use vstd::prelude::*;

verus! {

/// With what a department is run in a test.
pub struct DeptRunOptions {
    pub cwd: Option<String>,
    pub env: Vec<(String, String)>,
    pub path_prepend: Option<String>,
}

impl DeptRunOptions {
    /// Nothing is changed.
    pub fn default_env() -> (r: DeptRunOptions)
        ensures
            r.cwd is None,
            r.env@.len() == 0,
            r.path_prepend is None,
    {
        DeptRunOptions { cwd: None, env: Vec::new(), path_prepend: None }
    }
}

/// A variable as it was before it was changed.
pub struct SavedVar<T> {
    pub key: String,
    pub value: Option<T>,
}

/// The variables that were changed, as they were, in the order of the changes.
pub struct DeptRunEnvGuard<T> {
    pub saved: Vec<SavedVar<T>>,
}

/// A set of variables after one is set, or taken away.
pub open spec fn set_var<T>(env: Map<Seq<char>, T>, key: Seq<char>, value: Option<T>) -> Map<
    Seq<char>,
    T,
> {
    match value {
        Some(v) => env.insert(key, v),
        None => env.remove(key),
    }
}

pub open spec fn var<T>(env: Map<Seq<char>, T>, key: Seq<char>) -> Option<T> {
    if env.contains_key(key) {
        Some(env[key])
    } else {
        None
    }
}

/// What the variables are once everything that was saved is put back, the last change first.
pub open spec fn put_back<T>(env: Map<Seq<char>, T>, saved: Seq<SavedVar<T>>) -> Map<Seq<char>, T>
    decreases saved.len(),
{
    if saved.len() == 0 {
        env
    } else {
        put_back(set_var(env, saved.last().key@, saved.last().value), saved.drop_last())
    }
}

/// What the variables are after changes, each of a variable that was saved before it.
pub open spec fn changed<T>(
    env: Map<Seq<char>, T>,
    saved: Seq<SavedVar<T>>,
    values: Seq<T>,
) -> Map<Seq<char>, T>
    recommends
        saved.len() == values.len(),
    decreases saved.len(),
{
    if saved.len() == 0 {
        env
    } else {
        changed(env, saved.drop_last(), values.drop_last()).insert(
            saved.last().key@,
            values.last(),
        )
    }
}

/// Each variable was saved as it was just before its change.
pub open spec fn truly_saved<T>(
    env: Map<Seq<char>, T>,
    saved: Seq<SavedVar<T>>,
    values: Seq<T>,
) -> bool
    decreases saved.len(),
{
    saved.len() == values.len() && (saved.len() > 0 ==> {
        &&& truly_saved(env, saved.drop_last(), values.drop_last())
        &&& saved.last().value == var(
            changed(env, saved.drop_last(), values.drop_last()),
            saved.last().key@,
        )
    })
}

/// Once everything is put back, the environment is as it was before the run, also where a variable
/// was changed more than once.
pub proof fn law_environment_comes_back<T>(
    env: Map<Seq<char>, T>,
    saved: Seq<SavedVar<T>>,
    values: Seq<T>,
)
    requires
        truly_saved(env, saved, values),
    ensures
        put_back(changed(env, saved, values), saved) == env,
    decreases saved.len(),
{
    if saved.len() > 0 {
        let front = changed(env, saved.drop_last(), values.drop_last());
        let key = saved.last().key@;
        assert(set_var(front.insert(key, values.last()), key, var(front, key)) =~= front);
        law_environment_comes_back(env, saved.drop_last(), values.drop_last());
    }
}

impl<T> DeptRunEnvGuard<T> {
    pub fn new() -> (r: DeptRunEnvGuard<T>)
        ensures
            r.saved@.len() == 0,
    {
        DeptRunEnvGuard { saved: Vec::new() }
    }

    /// Saves a variable before it is changed.
    pub fn save(&mut self, key: String, value: Option<T>)
        ensures
            final(self).saved@ == old(self).saved@.push(SavedVar { key, value }),
    {
        self.saved.push(SavedVar { key, value });
    }

    /// What is to be put back next, if anything is left: the last change comes first.
    pub fn next_to_put_back(&mut self) -> (r: Option<SavedVar<T>>)
        ensures
            match r {
                Some(last) => old(self).saved@.len() > 0 && last == old(self).saved@.last()
                    && final(self).saved@ == old(self).saved@.drop_last() && forall|
                    env: Map<Seq<char>, T>,
                | #[trigger]
                    put_back(env, old(self).saved@) == put_back(
                        set_var(env, last.key@, last.value),
                        final(self).saved@,
                    ),
                None => old(self).saved@.len() == 0 && final(self).saved@.len() == 0,
            },
    {
        self.saved.pop()
    }
}

} // verus!
