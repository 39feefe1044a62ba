use vstd::prelude::*;

use crate::dir::{is_within, opt_view, resolve_path, resolved, same_str, within, Context};
use crate::env::Env;
use crate::error::ResolveError;
use crate::group::{default_path, defaulted, find_key, Group};

verus! {

/// Configures when a command or group is available to run.
#[derive(Debug, Clone, Copy, PartialEq, Eq, Structural)]
pub enum RootScope {
    /// The command is always in scope.
    Global,
    /// The current directory must be inside the discovered repository root,
    /// and that root must be the configured path.
    GitRoot,
    /// The current directory must be the configured path.
    Exact,
}

/// Where a command or group runs from, and when it is in scope.
#[derive(Debug, Clone)]
pub struct RootConfig {
    pub path: String,
    pub scope: RootScope,
}

/// Configuration for a single command. Its settings override those of the
/// enclosing groups.
#[derive(Debug)]
pub struct CommandConfig {
    /// Optional name, used in help output.
    pub name: Option<String>,
    /// Optional longer description, used in help output.
    pub description: Option<String>,
    /// The shell command to run.
    pub command: String,
    /// Environments selectable for this command.
    pub envs: Option<Vec<(String, Env)>>,
    /// Environment used when no token names one.
    pub default_env: Option<String>,
    /// Where the command runs from, and its scope.
    pub root: Option<RootConfig>,
    /// Alternate names for the command.
    pub aliases: Option<Vec<String>>,
}

/// An entry of a group's command map.
#[derive(Debug)]
pub enum Command {
    /// A plain shell string.
    Inline(String),
    /// A command with configuration.
    Config(CommandConfig),
    /// A nested group.
    Group(Group),
}

/// The character sequences of a sequence of strings.
pub open spec fn strs(v: Seq<String>) -> Seq<Seq<char>> {
    v.map_values(|s: String| s@)
}

/// The character sequences of each level of a list of levels.
pub open spec fn levels_of(v: Seq<Vec<String>>) -> Seq<Seq<Seq<char>>> {
    v.map_values(|l: Vec<String>| strs(l@))
}

/// The character sequences of an optional list of strings; none when absent.
pub open spec fn opt_strs(v: Option<Vec<String>>) -> Seq<Seq<char>> {
    match v {
        Some(v) => strs(v@),
        None => Seq::empty(),
    }
}

/// The entries of an optional environment map; none when absent.
pub open spec fn opt_envs(v: Option<Vec<(String, Env)>>) -> Seq<(String, Env)> {
    match v {
        Some(v) => v@,
        None => Seq::empty(),
    }
}

/// The character sequence of an optional string.
pub open spec fn opt_str(v: Option<String>) -> Option<Seq<char>> {
    match v {
        Some(s) => Some(s@),
        None => None,
    }
}

/// Visibility of a node whose own root resolved to `target`.
pub open spec fn scope_allows(
    scope: RootScope,
    target: Seq<char>,
    cwd: Seq<char>,
    git_root: Option<Seq<char>>,
) -> bool {
    match scope {
        RootScope::Global => true,
        RootScope::Exact => cwd == target,
        RootScope::GitRoot => git_root is Some && within(cwd, git_root->0) && git_root->0
            == target,
    }
}

/// The key of the last level of a path; empty for an empty path.
pub open spec fn last_key(keys: Seq<Seq<char>>) -> Seq<char> {
    if keys.len() > 0 {
        keys.last()
    } else {
        Seq::empty()
    }
}

/// The groups behind a sequence of references.
pub open spec fn groups(parents: Seq<&Group>) -> Seq<Group> {
    parents.map_values(|g: &Group| *g)
}

/// The levels contributed by `parents[1..n]`: each namespaced group gives its
/// key and aliases; a flattened group gives none; the root gives none.
pub open spec fn group_levels(keys: Seq<Seq<char>>, parents: Seq<Group>, n: int) -> Seq<
    Seq<Seq<char>>,
>
    decreases n,
{
    if n <= 1 {
        Seq::empty()
    } else {
        let prev = group_levels(keys, parents, n - 1);
        let g = parents[n - 1];
        if g.is_namespaced() {
            prev.push(seq![keys[n - 2]] + opt_strs(g.aliases))
        } else {
            prev
        }
    }
}

/// Copies of a list of strings.
pub fn copy_strs(v: &[String]) -> (r: Vec<String>)
    ensures
        strs(r@) == strs(v@),
{
    let mut r: Vec<String> = Vec::new();
    let mut i: usize = 0;
    while i < v.len()
        invariant
            i <= v@.len(),
            strs(r@) == strs(v@.subrange(0, i as int)),
        decreases v@.len() - i,
    {
        r.push(v[i].clone());
        assert(strs(v@.subrange(0, i + 1)) =~= strs(v@.subrange(0, i as int)).push(v@[i as int]@));
        assert(strs(r@) =~= strs(v@.subrange(0, i as int)).push(v@[i as int]@));
        i += 1;
    }
    assert(v@.subrange(0, v@.len() as int) =~= v@);
    r
}

/// A level: a key followed by optional aliases.
fn level_with(key: &String, aliases: &Option<Vec<String>>) -> (r: Vec<String>)
    ensures
        strs(r@) == seq![key@] + opt_strs(*aliases),
{
    let mut r: Vec<String> = Vec::new();
    r.push(key.clone());
    match aliases {
        Some(a) => {
            let mut i: usize = 0;
            while i < a.len()
                invariant
                    i <= a@.len(),
                    strs(r@) == seq![key@] + strs(a@.subrange(0, i as int)),
                decreases a@.len() - i,
            {
                let ghost old_r = r@;
                r.push(a[i].clone());
                assert(strs(r@) =~= strs(old_r).push(a@[i as int]@));
                assert(strs(a@.subrange(0, i + 1)) =~= strs(a@.subrange(0, i as int)).push(
                    a@[i as int]@,
                ));
                assert(strs(r@) =~= seq![key@] + strs(a@.subrange(0, i + 1)));
                i += 1;
            }
            assert(a@.subrange(0, a@.len() as int) =~= a@);
        },
        None => {
            assert(strs(r@) =~= seq![key@] + opt_strs(*aliases));
        },
    }
    r
}

impl Command {
    /// The aliases declared by the entry itself.
    pub open spec fn spec_aliases(self) -> Seq<Seq<char>> {
        match self {
            Command::Inline(_) => Seq::empty(),
            Command::Config(c) => opt_strs(c.aliases),
            Command::Group(g) => opt_strs(g.aliases),
        }
    }

    /// The root declared by the entry itself (not inherited).
    pub open spec fn spec_own_root(self) -> Option<RootConfig> {
        match self {
            Command::Inline(_) => None,
            Command::Config(c) => c.root,
            Command::Group(g) => g.root,
        }
    }

    /// The environments declared by the entry itself.
    pub open spec fn spec_envs(self) -> Seq<(String, Env)> {
        match self {
            Command::Inline(_) => Seq::empty(),
            Command::Config(c) => opt_envs(c.envs),
            Command::Group(g) => opt_envs(g.envs),
        }
    }

    /// The default environment declared by the entry itself.
    pub open spec fn spec_default_env(self) -> Option<Seq<char>> {
        match self {
            Command::Inline(_) => None,
            Command::Config(c) => opt_str(c.default_env),
            Command::Group(g) => opt_str(g.default_env),
        }
    }

    /// The accepted names of this entry at its own level: its key, then its
    /// aliases.
    pub open spec fn level(self, key: Seq<char>) -> Seq<Seq<char>> {
        seq![key] + self.spec_aliases()
    }

    /// The scope decision for this node, looking at its own root only:
    /// `None` where that root's path does not resolve.
    pub open spec fn in_scope(self, file: Seq<char>, ctx: Context) -> Option<bool> {
        match self.spec_own_root() {
            None => Some(true),
            Some(root) => match resolved(
                root.path@,
                file,
                ctx.current_dir@,
                opt_view(ctx.home),
            ) {
                None => None,
                Some(t) => Some(
                    scope_allows(root.scope, t, ctx.current_dir@, opt_view(ctx.git_root)),
                ),
            },
        }
    }

    /// The accepted names of each level of the path `keys` to this node, where
    /// `parents` are the groups from the root down to its parent.
    pub open spec fn alias_levels(self, keys: Seq<Seq<char>>, parents: Seq<Group>) -> Seq<
        Seq<Seq<char>>,
    > {
        group_levels(keys, parents, parents.len() as int).push(self.level(last_key(keys)))
    }

    fn own_root(&self) -> (r: Option<&RootConfig>)
        ensures
            match r {
                Some(root) => self.spec_own_root() == Some(*root),
                None => self.spec_own_root() is None,
            },
    {
        match self {
            Command::Inline(_) => None,
            Command::Config(cmd) => cmd.root.as_ref(),
            Command::Group(group) => group.root.as_ref(),
        }
    }

    fn own_aliases(&self) -> (r: Option<&Vec<String>>)
        ensures
            opt_strs(
                match r {
                    Some(v) => Some(*v),
                    None => None,
                },
            ) == self.spec_aliases(),
    {
        match self {
            Command::Inline(_) => None,
            Command::Config(cmd) => cmd.aliases.as_ref(),
            Command::Group(group) => group.aliases.as_ref(),
        }
    }

    /// Whether the node is visible from the context, looking at its own root
    /// only. A root whose path does not resolve is an error.
    pub fn is_in_scope(&self, file_path: &str, ctx: &Context) -> (r: Result<bool, ResolveError>)
        ensures
            match self.in_scope(file_path@, *ctx) {
                Some(b) => r == Ok::<bool, ResolveError>(b),
                None => r matches Err(ResolveError::Path { .. }),
            },
    {
        match self.own_root() {
            None => Ok(true),
            Some(root) => {
                let target = resolve_path(root.path.as_str(), file_path, ctx)?;
                let cwd = ctx.current_dir.as_str();
                match root.scope {
                    RootScope::Global => Ok(true),
                    RootScope::Exact => Ok(same_str(cwd, target.as_str())),
                    RootScope::GitRoot => match &ctx.git_root {
                        Some(g) => Ok(is_within(cwd, g.as_str()) && same_str(
                            g.as_str(),
                            target.as_str(),
                        )),
                        None => Ok(false),
                    },
                }
            },
        }
    }

    /// The accepted names of each level of the path `keys` to this node.
    ///
    /// `parents` are the groups from the root down to the node's parent; the
    /// root contributes no level, a flattened group none either, and every
    /// other group its key followed by its aliases. The last level is the
    /// node's own key followed by its aliases.
    pub fn resolve_aliases(&self, keys: &[String], parents: &[&Group]) -> (r: Vec<Vec<String>>)
        requires
            parents@.len() <= keys@.len() + 1,
        ensures
            levels_of(r@) == self.alias_levels(
                strs(keys@),
                groups(parents@),
            ),
    {
        let ghost ks = strs(keys@);
        let ghost ps = groups(parents@);
        let mut r: Vec<Vec<String>> = Vec::new();
        let mut i: usize = 1;
        assert(levels_of(r@) =~= group_levels(ks, ps, 1));
        while i < parents.len()
            invariant
                1 <= i,
                i <= parents@.len() || i == 1,
                parents@.len() <= keys@.len() + 1,
                ks == strs(keys@),
                ps == groups(parents@),
                levels_of(r@) == group_levels(ks, ps, i as int),
            decreases parents@.len() - i,
        {
            let group = parents[i];
            let ghost before = r@;
            if group.mode != Some(crate::group::GroupMode::Flattened) {
                let level = level_with(&keys[i - 1], &group.aliases);
                r.push(level);
                assert(levels_of(r@) =~= levels_of(before).push(strs(level@)));
            }
            i += 1;
        }
        if parents.len() == 0 {
            assert(group_levels(ks, ps, 0) == group_levels(ks, ps, 1));
        } else {
            assert(i == parents@.len());
        }
        let ghost before = r@;
        let last = if keys.len() > 0 {
            keys[keys.len() - 1].clone()
        } else {
            String::new()
        };
        assert(last@ == last_key(ks));
        let al = match self.own_aliases() {
            Some(a) => Some(copy_strs(a.as_slice())),
            None => None,
        };
        assert(opt_strs(al) == self.spec_aliases());
        let level = level_with(&last, &al);
        assert(strs(level@) == self.level(last_key(ks)));
        r.push(level);
        assert(levels_of(r@) =~= levels_of(before).push(strs(level@)));
        r
    }

    /// Follow group defaults down to the command they resolve to. Each group
    /// passed through is pushed onto `parents`; a group without a usable
    /// default resolves to itself.
    pub fn resolve_default<'a>(&'a self, parents: &mut Vec<&'a Group>) -> (r: &'a Command)
        ensures
            (*r, groups(final(parents)@)) == defaulted(*self, groups(old(parents)@)),
        decreases self,
    {
        if let Command::Group(group) = self {
            if let Some(d) = &group.default {
                if let Some(child) = group.get(d) {
                    proof {
                        let i = find_key(group.commands@, d@);
                        assert(decreases_to!(*self => *group));
                        assert(decreases_to!(*group => group.commands));
                        assert(decreases_to!(group.commands => group.commands@));
                        assert(decreases_to!(group.commands@ => group.commands@[i]));
                    }
                    let ghost gp = groups(parents@);
                    parents.push(group);
                    assert(groups(parents@) =~= gp.push(*group));
                    return child.resolve_default(parents);
                }
            }
        }
        self
    }

    /// Follow group defaults like `resolve_default`, also pushing onto `keys`
    /// the default key taken at each group.
    pub fn resolve_default_with_keys<'a>(
        &'a self,
        parents: &mut Vec<&'a Group>,
        keys: &mut Vec<String>,
    ) -> (r: &'a Command)
        ensures
            (*r, groups(final(parents)@)) == defaulted(*self, groups(old(parents)@)),
            strs(final(keys)@) == default_path(*self, strs(old(keys)@)),
        decreases self,
    {
        if let Command::Group(group) = self {
            if let Some(d) = &group.default {
                if let Some(child) = group.get(d) {
                    proof {
                        let i = find_key(group.commands@, d@);
                        assert(decreases_to!(*self => *group));
                        assert(decreases_to!(*group => group.commands));
                        assert(decreases_to!(group.commands => group.commands@));
                        assert(decreases_to!(group.commands@ => group.commands@[i]));
                    }
                    let ghost gp = groups(parents@);
                    let ghost kp = strs(keys@);
                    parents.push(group);
                    keys.push(d.clone());
                    assert(groups(parents@) =~= gp.push(*group));
                    assert(strs(keys@) =~= kp.push(d@));
                    return child.resolve_default_with_keys(parents, keys);
                }
            }
        }
        self
    }

    /// The command string the entry runs, defaults followed; none for a group
    /// without a usable default.
    pub open spec fn command_string(self) -> Option<Seq<char>> {
        match defaulted(self, Seq::empty()).0 {
            Command::Inline(s) => Some(s@),
            Command::Config(c) => Some(c.command@),
            Command::Group(_) => None,
        }
    }

    /// The command string the entry runs, defaults followed.
    pub fn command(&self) -> (r: Option<String>)
        ensures
            opt_view(r) == self.command_string(),
    {
        let mut scratch: Vec<&Group> = Vec::new();
        assert(groups(scratch@) =~= Seq::empty());
        match self.resolve_default(&mut scratch) {
            Command::Inline(cmd) => Some(cmd.clone()),
            Command::Config(cmd) => Some(cmd.command.clone()),
            Command::Group(_) => None,
        }
    }

    /// The default environment declared by the entry itself.
    pub fn default_env(&self) -> (r: Option<&String>)
        ensures
            match r {
                Some(s) => self.spec_default_env() == Some(s@),
                None => self.spec_default_env() is None,
            },
    {
        match self {
            Command::Inline(_) => None,
            Command::Config(cmd) => cmd.default_env.as_ref(),
            Command::Group(group) => group.default_env.as_ref(),
        }
    }
}

} // verus!
