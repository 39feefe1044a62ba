use vstd::prelude::*;

use crate::command::{groups, opt_envs, opt_str, strs, Command};
use crate::dir::{
    lemma_name_lt_total, lemma_name_lt_transitive, name_less, name_lt, opt_view, relative_to_file,
    resolve_path, resolved, Context,
};
use crate::error::ResolveError;
use crate::group::Group;

verus! {

/// A dotenv file, with variables laid over what it defines.
#[derive(Debug, Clone, PartialEq, Eq)]
pub struct DotenvConfig {
    /// The dotenv file, relative to the defining document.
    pub path: String,
    /// Variables that override those of the file.
    pub vars: Option<Vec<(String, String)>>,
}

/// A command prefix, with variables.
#[derive(Debug, Clone, PartialEq, Eq)]
pub struct EnvCommand {
    /// Prepended to the invocation, followed by a space.
    pub command: String,
    /// Variables to set.
    pub vars: Option<Vec<(String, String)>>,
}

/// Variables defined directly.
#[derive(Debug, Clone, PartialEq, Eq)]
pub struct EnvVars {
    pub vars: Vec<(String, String)>,
}

/// A named, selectable environment.
#[derive(Debug, Clone, PartialEq, Eq)]
pub enum Env {
    /// A dotenv file.
    Dotenv(String),
    /// A dotenv file with overriding variables.
    Config(DotenvConfig),
    /// A command prefix with variables.
    Command(EnvCommand),
    /// Variables.
    Vars(EnvVars),
}

/// What an environment contributes to a run, apart from the contents of a
/// dotenv file: the file to load, a command prefix, and variables laid over
/// the file's.
#[derive(Debug)]
pub struct RunnerEnv {
    pub command: Option<String>,
    pub dotenv: Option<String>,
    pub vars: Option<Vec<(String, String)>>,
}

/// The character sequences of a list of variable pairs.
pub open spec fn pairs_of(v: Seq<(String, String)>) -> Seq<(Seq<char>, Seq<char>)> {
    v.map_values(|p: (String, String)| (p.0@, p.1@))
}

/// The variables that a list of pairs sets when applied in order: a later
/// pair overrides an earlier one with the same name.
pub open spec fn vars_map(v: Seq<(Seq<char>, Seq<char>)>) -> Map<Seq<char>, Seq<char>>
    decreases v.len(),
{
    if v.len() == 0 {
        Map::empty()
    } else {
        vars_map(v.drop_last()).insert(v.last().0, v.last().1)
    }
}

/// Applying `a` then `b` sets the variables of `a` overridden by those of
/// `b`: explicitly given variables win over those loaded from a file.
pub proof fn lemma_vars_overlay(a: Seq<(Seq<char>, Seq<char>)>, b: Seq<(Seq<char>, Seq<char>)>)
    ensures
        vars_map(a + b) == vars_map(a).union_prefer_right(vars_map(b)),
    decreases b.len(),
{
    if b.len() == 0 {
        assert(a + b =~= a);
        assert(vars_map(a).union_prefer_right(vars_map(b)) =~= vars_map(a));
    } else {
        assert((a + b).drop_last() =~= a + b.drop_last());
        lemma_vars_overlay(a, b.drop_last());
        assert(vars_map(a + b) =~= vars_map(a).union_prefer_right(vars_map(b)));
    }
}

/// Copies of a list of variable pairs.
pub fn copy_pairs(v: &[(String, String)]) -> (r: Vec<(String, String)>)
    ensures
        pairs_of(r@) == pairs_of(v@),
{
    let mut r: Vec<(String, String)> = Vec::new();
    let mut i: usize = 0;
    while i < v.len()
        invariant
            i <= v@.len(),
            pairs_of(r@) == pairs_of(v@.subrange(0, i as int)),
        decreases v@.len() - i,
    {
        let ghost before = r@;
        r.push((v[i].0.clone(), v[i].1.clone()));
        assert(pairs_of(r@) =~= pairs_of(before).push((v@[i as int].0@, v@[i as int].1@)));
        assert(pairs_of(v@.subrange(0, i + 1)) =~= pairs_of(v@.subrange(0, i as int)).push(
            (v@[i as int].0@, v@[i as int].1@),
        ));
        i += 1;
    }
    assert(v@.subrange(0, v@.len() as int) =~= v@);
    r
}

/// The variables to set for a run: those loaded from a dotenv file, then the
/// explicit ones, so that the explicit ones win on a name collision.
pub fn overlay_vars(file_vars: Vec<(String, String)>, vars: &[(String, String)]) -> (r: Vec<
    (String, String),
>)
    ensures
        pairs_of(r@) == pairs_of(file_vars@) + pairs_of(vars@),
        vars_map(pairs_of(r@)) == vars_map(pairs_of(file_vars@)).union_prefer_right(
            vars_map(pairs_of(vars@)),
        ),
{
    let mut r = file_vars;
    let mut extra = copy_pairs(vars);
    let ghost a = r@;
    let ghost b = extra@;
    r.append(&mut extra);
    assert(pairs_of(r@) =~= pairs_of(a) + pairs_of(b));
    proof {
        lemma_vars_overlay(pairs_of(a), pairs_of(b));
    }
    r
}

/// The pairs of an optional list; none when absent.
pub open spec fn opt_pairs(v: Option<Vec<(String, String)>>) -> Seq<(Seq<char>, Seq<char>)> {
    match v {
        Some(v) => pairs_of(v@),
        None => Seq::empty(),
    }
}

impl Env {
    /// The dotenv file the environment loads, as configured.
    pub open spec fn spec_dotenv(self) -> Option<Seq<char>> {
        match self {
            Env::Dotenv(p) => Some(p@),
            Env::Config(c) => Some(c.path@),
            _ => None,
        }
    }

    /// The command prefix of the environment.
    pub open spec fn spec_command(self) -> Option<Seq<char>> {
        match self {
            Env::Command(c) => Some(c.command@),
            _ => None,
        }
    }

    /// The variables the environment sets explicitly, if it has a list.
    pub open spec fn spec_vars(self) -> Option<Seq<(Seq<char>, Seq<char>)>> {
        match self {
            Env::Dotenv(_) => None,
            Env::Config(c) => match c.vars {
                Some(v) => Some(pairs_of(v@)),
                None => None,
            },
            Env::Command(c) => match c.vars {
                Some(v) => Some(pairs_of(v@)),
                None => None,
            },
            Env::Vars(v) => Some(pairs_of(v.vars@)),
        }
    }

    /// What the environment contributes to a run, apart from the contents of
    /// its dotenv file.
    pub fn get_env_vars(&self) -> (r: RunnerEnv)
        ensures
            opt_str(r.command) == self.spec_command(),
            opt_str(r.dotenv) == self.spec_dotenv(),
            match r.vars {
                Some(v) => self.spec_vars() == Some(pairs_of(v@)),
                None => self.spec_vars() is None,
            },
    {
        match self {
            Env::Dotenv(path) => RunnerEnv { command: None, dotenv: Some(path.clone()), vars: None },
            Env::Config(config) => RunnerEnv {
                command: None,
                dotenv: Some(config.path.clone()),
                vars: match &config.vars {
                    Some(v) => Some(copy_pairs(v.as_slice())),
                    None => None,
                },
            },
            Env::Command(cmd) => RunnerEnv {
                command: Some(cmd.command.clone()),
                dotenv: None,
                vars: match &cmd.vars {
                    Some(v) => Some(copy_pairs(v.as_slice())),
                    None => None,
                },
            },
            Env::Vars(vars) => RunnerEnv {
                command: None,
                dotenv: None,
                vars: Some(copy_pairs(vars.vars.as_slice())),
            },
        }
    }
}

/// The views of a merged environment map.
pub open spec fn envs_of(v: Seq<(&String, &Env)>) -> Seq<(Seq<char>, Env)> {
    v.map_values(|p: (&String, &Env)| (p.0@, *p.1))
}

/// Whether a merged map holds a name.
pub open spec fn has_env(m: Seq<(Seq<char>, Env)>, k: Seq<char>) -> bool {
    exists|j: int| 0 <= j < m.len() && (#[trigger] m[j]).0 == k
}

/// `e` inserted into `m` before the first entry whose name comes after its
/// own.
pub open spec fn insert_by_name(m: Seq<(Seq<char>, Env)>, e: (Seq<char>, Env)) -> Seq<
    (Seq<char>, Env),
>
    decreases m.len(),
{
    if m.len() == 0 {
        seq![e]
    } else if name_lt(e.0, m[0].0) {
        seq![e] + m
    } else {
        seq![m[0]] + insert_by_name(m.drop_first(), e)
    }
}

/// Names strictly ascending.
pub open spec fn names_ascending(m: Seq<(Seq<char>, Env)>) -> bool {
    forall|i: int, j: int| 0 <= i < j < m.len() ==> name_lt(#[trigger] m[i].0, #[trigger] m[j].0)
}

/// Inserting a new name keeps the names ascending, and adds that entry only.
proof fn lemma_insert_by_name(m: Seq<(Seq<char>, Env)>, e: (Seq<char>, Env))
    requires
        names_ascending(m),
        !has_env(m, e.0),
    ensures
        names_ascending(insert_by_name(m, e)),
        insert_by_name(m, e).len() == m.len() + 1,
        forall|k: int|
            0 <= k < insert_by_name(m, e).len() ==> #[trigger] insert_by_name(m, e)[k] == e
                || exists|j: int| 0 <= j < m.len() && insert_by_name(m, e)[k] == m[j],
    decreases m.len(),
{
    let r = insert_by_name(m, e);
    if m.len() == 0 {
    } else if name_lt(e.0, m[0].0) {
        assert forall|i: int, j: int| 0 <= i < j < r.len() implies name_lt(#[trigger] r[i].0, #[trigger] r[j].0) by {
            if i == 0 {
                if j > 1 {
                    lemma_name_lt_transitive(e.0, m[0].0, m[j - 1].0);
                }
            } else {
                assert(r[i] == m[i - 1] && r[j] == m[j - 1]);
            }
        }
        assert forall|k: int| 0 <= k < r.len() implies #[trigger] r[k] == e || exists|j: int|
            0 <= j < m.len() && r[k] == m[j] by {
            if k > 0 {
                assert(r[k] == m[k - 1]);
            }
        }
    } else {
        let t = m.drop_first();
        assert(names_ascending(t)) by {
            assert forall|i: int, j: int| 0 <= i < j < t.len() implies name_lt(#[trigger] t[i].0, #[trigger] t[j].0) by {
                assert(t[i] == m[i + 1] && t[j] == m[j + 1]);
            }
        }
        assert(!has_env(t, e.0)) by {
            if has_env(t, e.0) {
                let j = choose|j: int| 0 <= j < t.len() && (#[trigger] t[j]).0 == e.0;
                assert(m[j + 1] == t[j]);
            }
        }
        lemma_insert_by_name(t, e);
        let rest = insert_by_name(t, e);
        assert(m[0].0 != e.0);
        lemma_name_lt_total(m[0].0, e.0);
        assert(name_lt(m[0].0, e.0));
        assert forall|k: int| 0 <= k < rest.len() implies name_lt(m[0].0, (#[trigger] rest[k]).0) by {
            if rest[k] != e {
                let j = choose|j: int| 0 <= j < t.len() && rest[k] == t[j];
                assert(t[j] == m[j + 1]);
            }
        }
        assert forall|i: int, j: int| 0 <= i < j < r.len() implies name_lt(#[trigger] r[i].0, #[trigger] r[j].0) by {
            assert(r[j] == rest[j - 1]);
            if i > 0 {
                assert(r[i] == rest[i - 1]);
            }
        }
        assert forall|k: int| 0 <= k < r.len() implies #[trigger] r[k] == e || exists|j: int|
            0 <= j < m.len() && r[k] == m[j] by {
            if k > 0 {
                assert(r[k] == rest[k - 1]);
                if rest[k - 1] != e {
                    let j = choose|j: int| 0 <= j < t.len() && rest[k - 1] == t[j];
                    assert(t[j] == m[j + 1]);
                }
            }
        }
    }
}

/// Merging keeps the names ascending.
pub proof fn lemma_merge_envs_ascending(acc: Seq<(Seq<char>, Env)>, entries: Seq<(String, Env)>)
    requires
        names_ascending(acc),
    ensures
        names_ascending(merge_envs(acc, entries)),
    decreases entries.len(),
{
    if entries.len() > 0 {
        lemma_merge_envs_ascending(acc, entries.drop_last());
        let m = merge_envs(acc, entries.drop_last());
        let e = entries.last();
        if !has_env(m, e.0@) {
            lemma_insert_by_name(m, (e.0@, e.1));
        }
    }
}

/// A merged environment map lists its names in ascending order.
pub proof fn lemma_merge_all_ascending(sources: Seq<Seq<(String, Env)>>)
    ensures
        names_ascending(merge_all(sources)),
    decreases sources.len(),
{
    if sources.len() > 0 {
        lemma_merge_all_ascending(sources.drop_last());
        lemma_merge_envs_ascending(merge_all(sources.drop_last()), sources.last());
    }
}

/// `entries` inserted into `acc` in order, each only where its name is not
/// there yet, keeping the names in ascending order.
pub open spec fn merge_envs(acc: Seq<(Seq<char>, Env)>, entries: Seq<(String, Env)>) -> Seq<
    (Seq<char>, Env),
>
    decreases entries.len(),
{
    if entries.len() == 0 {
        acc
    } else {
        let m = merge_envs(acc, entries.drop_last());
        let e = entries.last();
        if has_env(m, e.0@) {
            m
        } else {
            insert_by_name(m, (e.0@, e.1))
        }
    }
}

/// The environment maps consulted for a node: its ancestors nearest first,
/// then its own.
pub open spec fn env_sources(own: Seq<(String, Env)>, parents: Seq<Group>) -> Seq<
    Seq<(String, Env)>,
> {
    Seq::new(
        parents.len() + 1,
        |j: int|
            if j < parents.len() {
                opt_envs(parents[parents.len() - 1 - j].envs)
            } else {
                own
            },
    )
}

/// The sources merged in order, first definition of a name winning.
pub open spec fn merge_all(sources: Seq<Seq<(String, Env)>>) -> Seq<(Seq<char>, Env)>
    decreases sources.len(),
{
    if sources.len() == 0 {
        Seq::empty()
    } else {
        merge_envs(merge_all(sources.drop_last()), sources.last())
    }
}

/// The default environment of the nearest ancestor that names one.
pub open spec fn ancestors_default(parents: Seq<Group>) -> Option<Seq<char>>
    decreases parents.len(),
{
    if parents.len() == 0 {
        None
    } else {
        match opt_str(parents.last().default_env) {
            Some(d) => Some(d),
            None => ancestors_default(parents.drop_last()),
        }
    }
}

/// Index of the first entry of a merged map with name `k`, or -1.
pub open spec fn env_index(m: Seq<(Seq<char>, Env)>, k: Seq<char>) -> int
    decreases m.len(),
{
    if m.len() == 0 {
        -1
    } else if m[0].0 == k {
        0
    } else {
        let r = env_index(m.drop_first(), k);
        if r < 0 {
            -1
        } else {
            r + 1
        }
    }
}

/// The environment a merged map gives a name, if any.
pub open spec fn env_named(m: Seq<(Seq<char>, Env)>, k: Seq<char>) -> Option<Env> {
    let i = env_index(m, k);
    if 0 <= i < m.len() {
        Some(m[i].1)
    } else {
        None
    }
}

proof fn lemma_env_index(m: Seq<(Seq<char>, Env)>, k: Seq<char>, i: int)
    requires
        0 <= i <= m.len(),
        forall|j: int| 0 <= j < i ==> (#[trigger] m[j]).0 != k,
        i == m.len() || m[i].0 == k,
    ensures
        env_index(m, k) == (if i == m.len() {
            -1
        } else {
            i
        }),
    decreases m.len(),
{
    if m.len() > 0 && i > 0 {
        let rest = m.drop_first();
        assert forall|j: int| 0 <= j < i - 1 implies (#[trigger] rest[j]).0 != k by {
            assert(rest[j] == m[j + 1]);
        }
        assert(m[0].0 != k);
        lemma_env_index(rest, k, i - 1);
    }
}

/// The environment a merged map gives a name.
fn find_env<'a>(envs: &Vec<(&'a String, &'a Env)>, key: &str) -> (r: Option<&'a Env>)
    ensures
        match r {
            Some(e) => env_named(envs_of(envs@), key@) == Some(*e),
            None => env_named(envs_of(envs@), key@) is None,
        },
{
    let ghost m = envs_of(envs@);
    let mut i: usize = 0;
    while i < envs.len()
        invariant
            i <= envs@.len(),
            m == envs_of(envs@),
            forall|j: int| 0 <= j < i ==> (#[trigger] m[j]).0 != key@,
        decreases envs@.len() - i,
    {
        if crate::dir::same_str(envs[i].0.as_str(), key) {
            proof {
                lemma_env_index(m, key@, i as int);
            }
            return Some(envs[i].1);
        }
        i += 1;
    }
    proof {
        lemma_env_index(m, key@, i as int);
    }
    None
}

/// Insert `entries` into `merged` in order, each only where its name is not
/// there yet.
fn merge_into<'a>(merged: &mut Vec<(&'a String, &'a Env)>, entries: &'a Vec<(String, Env)>)
    ensures
        envs_of(final(merged)@) == merge_envs(envs_of(old(merged)@), entries@),
{
    let ghost acc = envs_of(merged@);
    let mut i: usize = 0;
    assert(entries@.subrange(0, 0) =~= Seq::<(String, Env)>::empty());
    while i < entries.len()
        invariant
            i <= entries@.len(),
            envs_of(merged@) == merge_envs(acc, entries@.subrange(0, i as int)),
        decreases entries@.len() - i,
    {
        let ghost sub = entries@.subrange(0, i + 1);
        assert(sub.drop_last() =~= entries@.subrange(0, i as int));
        let key = &entries[i].0;
        let found = find_env(merged, key.as_str());
        if found.is_none() {
            let ghost before = merged@;
            let ghost m = envs_of(before);
            let ghost e = (key@, entries@[i as int].1);
            let mut p: usize = 0;
            assert(m.subrange(0, 0) + insert_by_name(m.subrange(0, m.len() as int), e) =~= insert_by_name(m, e)) by {
                assert(m.subrange(0, m.len() as int) =~= m);
            }
            while p < merged.len() && !name_less(key.as_str(), merged[p].0.as_str())
                invariant
                    p <= merged@.len(),
                    merged@ == before,
                    m == envs_of(before),
                    e.0 == key@,
                    insert_by_name(m, e) == m.subrange(0, p as int) + insert_by_name(
                        m.subrange(p as int, m.len() as int),
                        e,
                    ),
                decreases merged@.len() - p,
            {
                let ghost sub = m.subrange(p as int, m.len() as int);
                assert(sub[0] == m[p as int]);
                assert(sub.drop_first() =~= m.subrange(p + 1, m.len() as int));
                assert(m.subrange(0, p + 1) =~= m.subrange(0, p as int) + seq![sub[0]]);
                assert(!name_lt(e.0, sub[0].0));
                assert(insert_by_name(sub, e) == seq![sub[0]] + insert_by_name(sub.drop_first(), e));
                assert(m.subrange(0, p as int) + (seq![sub[0]] + insert_by_name(sub.drop_first(), e))
                    =~= m.subrange(0, p + 1) + insert_by_name(sub.drop_first(), e));
                p += 1;
            }
            merged.insert(p, (key, &entries[i].1));
            proof {
                let sub = m.subrange(p as int, m.len() as int);
                if p < m.len() {
                    assert(insert_by_name(sub, e) == seq![e] + sub);
                }
                assert(envs_of(merged@) =~= m.subrange(0, p as int) + insert_by_name(sub, e));
            }
            assert(!has_env(envs_of(before), key@)) by {
                if has_env(envs_of(before), key@) {
                    let m = envs_of(before);
                    let j = choose|j: int| 0 <= j < m.len() && (#[trigger] m[j]).0 == key@;
                    lemma_first_env(m, key@, j);
                }
            }
        } else {
            proof {
                lemma_env_index_holds(envs_of(merged@), key@);
            }
        }
        i += 1;
    }
    assert(entries@.subrange(0, entries@.len() as int) =~= entries@);
}

/// The index found for a name holds that name.
proof fn lemma_env_index_holds(m: Seq<(Seq<char>, Env)>, k: Seq<char>)
    ensures
        env_index(m, k) < m.len(),
        0 <= env_index(m, k) ==> m[env_index(m, k)].0 == k && has_env(m, k),
    decreases m.len(),
{
    if m.len() > 0 && m[0].0 != k {
        let rest = m.drop_first();
        lemma_env_index_holds(rest, k);
        if 0 <= env_index(rest, k) {
            assert(m[env_index(rest, k) + 1] == rest[env_index(rest, k)]);
        }
    }
}

/// A name held by a merged map has an index.
proof fn lemma_first_env(m: Seq<(Seq<char>, Env)>, k: Seq<char>, j: int)
    requires
        0 <= j < m.len(),
        m[j].0 == k,
    ensures
        0 <= env_index(m, k) <= j,
    decreases m.len(),
{
    if j > 0 && m[0].0 != k {
        let rest = m.drop_first();
        assert(rest[j - 1] == m[j]);
        lemma_first_env(rest, k, j - 1);
    }
}

/// The character sequence of an optional string slice.
pub open spec fn opt_ref_view(o: Option<&str>) -> Option<Seq<char>> {
    match o {
        Some(s) => Some(s@),
        None => None,
    }
}

/// The environment selected from the remaining tokens `args`, with the
/// number of tokens consumed: `Some(None)` where there are no environments,
/// `None` where selection fails.
pub open spec fn selected_env(
    m: Seq<(Seq<char>, Env)>,
    default_env: Option<Seq<char>>,
    args: Seq<Seq<char>>,
) -> Option<Option<(Env, nat)>> {
    if m.len() == 0 {
        Some(None)
    } else if args.len() == 0 && default_env is None {
        None
    } else if args.len() > 0 && env_named(m, args[0]) is Some {
        Some(Some((env_named(m, args[0])->0, 1)))
    } else {
        match default_env {
            Some(d) => match env_named(m, d) {
                Some(de) => Some(Some((de, 0))),
                None => None,
            },
            None => None,
        }
    }
}

/// The error of a failed selection: no token and no default; a default
/// that names nothing; a token that names nothing and no default.
pub open spec fn env_failure(
    e: ResolveError,
    m: Seq<(Seq<char>, Env)>,
    default_env: Option<Seq<char>>,
    args: Seq<Seq<char>>,
) -> bool {
    if args.len() == 0 && default_env is None {
        e == ResolveError::NoEnvironmentSpecified
    } else {
        match default_env {
            Some(d) => e matches ResolveError::DefaultEnvironmentMissing { name } && name@ == d,
            None => e == ResolveError::UnknownEnvironment,
        }
    }
}

/// Select an environment for a run from the remaining tokens.
///
/// Without environments there is nothing to select. Otherwise a first token
/// that names one is consumed and selects it; failing that, the default
/// environment is selected without consuming anything. It is an error when no
/// token remains and there is no default, when the token names nothing and
/// there is no default, and when the default names nothing.
pub fn match_env<'a>(
    envs: &Vec<(&'a String, &'a Env)>,
    default_env: Option<&str>,
    args: &'a [String],
) -> (r: Result<Option<(&'a Env, &'a [String])>, ResolveError>)
    ensures
        match selected_env(envs_of(envs@), opt_ref_view(default_env), strs(args@)) {
            Some(None) => r matches Ok(None),
            Some(Some((se, n))) => r matches Ok(Some((e, rest))) && *e == se && rest@ == args@.skip(
                n as int,
            ),
            None => r matches Err(err) && env_failure(
                err,
                envs_of(envs@),
                opt_ref_view(default_env),
                strs(args@),
            ),
        },
{
    if envs.len() == 0 {
        return Ok(None);
    }
    if args.len() == 0 && default_env.is_none() {
        return Err(ResolveError::NoEnvironmentSpecified);
    }
    if args.len() > 0 {
        if let Some(env) = find_env(envs, args[0].as_str()) {
            let rest = &args[1..args.len()];
            assert(rest@ =~= args@.skip(1));
            return Ok(Some((env, rest)));
        }
    }
    match default_env {
        Some(d) => match find_env(envs, d) {
            Some(env) => {
                assert(args@.skip(0) =~= args@);
                Ok(Some((env, args)))
            },
            None => Err(ResolveError::DefaultEnvironmentMissing { name: String::from_str(d) }),
        },
        None => Err(ResolveError::UnknownEnvironment),
    }
}

/// The environment named `key`, else the default one, else none.
pub fn get_env_by_key<'a>(
    envs: &Vec<(&'a String, &'a Env)>,
    key: Option<String>,
    default_env: Option<&str>,
) -> (r: Option<&'a Env>)
    ensures
        ({
            let m = envs_of(envs@);
            let by_key = match key {
                Some(k) => env_named(m, k@),
                None => None,
            };
            match by_key {
                Some(e) => r == Some(&e),
                None => match default_env {
                    Some(d) => match env_named(m, d@) {
                        Some(e) => r == Some(&e),
                        None => r is None,
                    },
                    None => r is None,
                },
            }
        }),
{
    let mut env: Option<&'a Env> = None;
    if let Some(k) = &key {
        env = find_env(envs, k.as_str());
    }
    if env.is_none() {
        if let Some(d) = default_env {
            env = find_env(envs, d);
        }
    }
    env
}

impl Command {
    /// The merged environments of the node: the ancestors' nearest first,
    /// then its own, the first definition of each name winning; listed by
    /// ascending name.
    pub open spec fn merged_envs(self, parents: Seq<Group>) -> Seq<(Seq<char>, Env)> {
        merge_all(env_sources(self.spec_envs(), parents))
    }

    /// The default environment of the node: its own, else that of its
    /// nearest ancestor that names one.
    pub open spec fn nearest_default_env(self, parents: Seq<Group>) -> Option<Seq<char>> {
        match self.spec_default_env() {
            Some(d) => Some(d),
            None => ancestors_default(parents),
        }
    }

    fn own_envs(&self) -> (r: Option<&Vec<(String, Env)>>)
        ensures
            opt_envs(
                match r {
                    Some(v) => Some(*v),
                    None => None,
                },
            ) == self.spec_envs(),
    {
        match self {
            Command::Inline(_) => None,
            Command::Config(cmd) => cmd.envs.as_ref(),
            Command::Group(group) => group.envs.as_ref(),
        }
    }

    /// The environments available to the node, merged from its ancestors
    /// (`parents`, root first) and its own, with its default environment.
    pub fn resolve_envs<'a>(&'a self, parents: &[&'a Group]) -> (r: (
        Vec<(&'a String, &'a Env)>,
        Option<&'a String>,
    ))
        ensures
            envs_of(r.0@) == self.merged_envs(groups(parents@)),
            names_ascending(envs_of(r.0@)),
            match r.1 {
                Some(d) => self.nearest_default_env(groups(parents@)) == Some(d@),
                None => self.nearest_default_env(groups(parents@)) is None,
            },
    {
        let ghost ps = groups(parents@);
        let ghost sources = env_sources(self.spec_envs(), ps);
        let mut merged: Vec<(&'a String, &'a Env)> = Vec::new();
        let mut default_env: Option<&'a String> = None;
        let mut k: usize = parents.len();
        assert(sources.subrange(0, 0) =~= Seq::<Seq<(String, Env)>>::empty());
        assert(envs_of(merged@) =~= Seq::empty());
        assert(ps.subrange(0, k as int) =~= ps);
        while k > 0
            invariant
                k <= parents@.len(),
                ps == groups(parents@),
                sources == env_sources(self.spec_envs(), ps),
                envs_of(merged@) == merge_all(sources.subrange(0, parents@.len() - k)),
                ancestors_default(ps) == match default_env {
                    Some(d) => Some(d@),
                    None => ancestors_default(ps.subrange(0, k as int)),
                },
            decreases k,
        {
            let group = parents[k - 1];
            let n = parents.len() - k;
            let ghost sub = sources.subrange(0, n + 1);
            assert(sub.drop_last() =~= sources.subrange(0, n as int));
            assert(sub.last() == opt_envs(group.envs));
            if let Some(envs) = &group.envs {
                merge_into(&mut merged, envs);
            } else {
                assert(merge_envs(envs_of(merged@), Seq::empty()) == envs_of(merged@));
            }
            let ghost pre = ps.subrange(0, k as int);
            assert(pre.drop_last() =~= ps.subrange(0, k - 1));
            assert(pre.last() == *group);
            if default_env.is_none() {
                default_env = group.default_env.as_ref();
            }
            k -= 1;
        }
        let n = parents.len();
        let ghost sub = sources.subrange(0, n + 1);
        assert(sub.drop_last() =~= sources.subrange(0, n as int));
        assert(sub =~= sources);
        match self.own_envs() {
            Some(envs) => merge_into(&mut merged, envs),
            None => {
                assert(merge_envs(envs_of(merged@), Seq::empty()) == envs_of(merged@));
            },
        }
        assert(ps.subrange(0, 0) =~= Seq::<Group>::empty());
        proof {
            lemma_merge_all_ascending(sources);
        }
        match self.default_env() {
            Some(d) => (merged, Some(d)),
            None => (merged, default_env),
        }
    }
}

} // verus!
