use vstd::prelude::*;

use crate::command::{groups, strs, Command, RootConfig};
use crate::dir::{opt_view, resolve_path, resolved, Context};
use crate::env::{
    env_failure, envs_of, match_env, opt_pairs, opt_ref_view, pairs_of, selected_env, Env,
};
use crate::error::ResolveError;
use crate::group::Group;

verus! {

/// A character that the shell reads literally wherever it stands.
pub open spec fn plain_char(c: char) -> bool {
    ('a' <= c && c <= 'z') || ('A' <= c && c <= 'Z') || ('0' <= c && c <= '9') || c == '-' || c
        == '_' || c == '=' || c == '/' || c == ',' || c == '.' || c == '+'
}

/// The characters of `s` between single quotes, with each `'` and `!`
/// written outside the quotes, escaped.
pub open spec fn quoted_body(s: Seq<char>) -> Seq<char>
    decreases s.len(),
{
    if s.len() == 0 {
        Seq::empty()
    } else {
        let tail = if s.last() == '\'' || s.last() == '!' {
            seq!['\'', '\\', s.last(), '\'']
        } else {
            seq![s.last()]
        };
        quoted_body(s.drop_last()) + tail
    }
}

/// A token as one shell word: unchanged when it is non-empty and plain,
/// single-quoted otherwise.
pub open spec fn shell_quoted(s: Seq<char>) -> Seq<char> {
    if s.len() > 0 && (forall|i: int| 0 <= i < s.len() ==> plain_char(#[trigger] s[i])) {
        s
    } else {
        seq!['\''] + quoted_body(s) + seq!['\'']
    }
}

/// Relies on shell_escape::unix::escape: a non-empty token of letters, digits
/// and `-_=/,.+` is returned as it is; any other is put between single quotes,
/// with each `'` and `!` replaced by `'\` followed by the character and `'`.
#[verifier::external_body]
fn escape_arg(arg: &str) -> (r: String)
    ensures
        r@ == shell_quoted(arg@),
{
    shell_escape::unix::escape(std::borrow::Cow::Borrowed(arg)).into_owned()
}

/// Each token as a shell word, each preceded by a space.
pub open spec fn spaced(args: Seq<Seq<char>>) -> Seq<char>
    decreases args.len(),
{
    if args.len() == 0 {
        Seq::empty()
    } else {
        spaced(args.drop_last()) + seq![' '] + shell_quoted(args.last())
    }
}

/// The invocation string: an optional prefix and a space, the command, then
/// each extra token escaped, after a space.
pub open spec fn command_line(
    prefix: Option<Seq<char>>,
    command: Seq<char>,
    args: Seq<Seq<char>>,
) -> Seq<char> {
    let head = match prefix {
        Some(p) => p + seq![' '],
        None => Seq::empty(),
    };
    head + command + spaced(args)
}

/// The outcome of a resolution: a command to spawn, or help for a group.
#[derive(Debug)]
pub enum Runner {
    Command {
        /// The string handed to `sh -c`.
        command: String,
        /// The working directory; the caller's where absent.
        cwd: Option<String>,
        /// A dotenv file to load, resolved.
        dotenv: Option<String>,
        /// Variables laid over those of the dotenv file.
        vars: Vec<(String, String)>,
    },
    Help,
}

/// The view of a command runner: invocation, working directory, dotenv file,
/// variables.
pub type CommandView = (Seq<char>, Option<Seq<char>>, Option<Seq<char>>, Seq<(Seq<char>, Seq<char>)>);

impl View for Runner {
    /// `None` for help.
    type V = Option<CommandView>;

    open spec fn view(&self) -> Option<CommandView> {
        match self {
            Runner::Command { command, cwd, dotenv, vars } => Some(
                (command@, opt_view(*cwd), opt_view(*dotenv), pairs_of(vars@)),
            ),
            Runner::Help => None,
        }
    }
}

/// The invocation string for a command, extra tokens and optional prefix.
pub fn build_command_line(prefix: Option<&String>, command: &str, args: &[String]) -> (r: String)
    ensures
        r@ == command_line(
            match prefix {
                Some(p) => Some(p@),
                None => None,
            },
            command@,
            strs(args@),
        ),
{
    let mut s = match prefix {
        Some(p) => {
            let mut s = p.clone();
            s.append(" ");
            proof {
                reveal_strlit(" ");
            }
            assert(" "@ =~= seq![' ']);
            s
        },
        None => String::new(),
    };
    s.append(command);
    let ghost head = s@;
    let ghost ts = strs(args@);
    let mut i: usize = 0;
    assert(ts.subrange(0, 0) =~= Seq::<Seq<char>>::empty());
    assert(s@ =~= head + spaced(ts.subrange(0, 0)));
    while i < args.len()
        invariant
            i <= args@.len(),
            ts == strs(args@),
            s@ == head + spaced(ts.subrange(0, i as int)),
        decreases args@.len() - i,
    {
        let ghost sub = ts.subrange(0, i + 1);
        assert(sub.drop_last() =~= ts.subrange(0, i as int));
        assert(sub.last() == args@[i as int]@);
        proof {
            reveal_strlit(" ");
        }
        assert(" "@ =~= seq![' ']);
        s.append(" ");
        let e = escape_arg(args[i].as_str());
        s.append(e.as_str());
        assert(spaced(sub) == spaced(ts.subrange(0, i as int)) + seq![' '] + shell_quoted(
            args@[i as int]@,
        ));
        assert(s@ =~= head + spaced(sub));
        i += 1;
    }
    assert(ts.subrange(0, ts.len() as int) =~= ts);
    s
}

/// The runner of a leaf command: the invocation with the environment's
/// prefix and the escaped extra tokens; the environment's dotenv file
/// resolved relative to the document; its variables. Fails where that file's
/// path does not resolve.
pub open spec fn command_runner(
    command: Seq<char>,
    cwd: Option<Seq<char>>,
    args: Seq<Seq<char>>,
    env: Option<Env>,
    file: Seq<char>,
    ctx: Context,
) -> Option<CommandView> {
    match env {
        None => Some((command_line(None, command, args), cwd, None, Seq::empty())),
        Some(e) => {
            let line = command_line(e.spec_command(), command, args);
            let vars = match e.spec_vars() {
                Some(v) => v,
                None => Seq::empty(),
            };
            match e.spec_dotenv() {
                None => Some((line, cwd, None, vars)),
                Some(p) => match resolved(p, file, ctx.current_dir@, opt_view(ctx.home)) {
                    Some(rp) => Some((line, cwd, Some(rp), vars)),
                    None => None,
                },
            }
        },
    }
}

/// Build the runner of a leaf command.
pub fn create_command(
    command: &str,
    work_dir: Option<String>,
    args: &[String],
    env: Option<&Env>,
    file_path: &str,
    ctx: &Context,
) -> (r: Result<Runner, ResolveError>)
    ensures
        match command_runner(
            command@,
            opt_view(work_dir),
            strs(args@),
            match env {
                Some(e) => Some(*e),
                None => None,
            },
            file_path@,
            *ctx,
        ) {
            Some(v) => r matches Ok(run) && run@ == Some(v),
            None => r matches Err(ResolveError::Path { .. }),
        },
{
    match env {
        None => {
            let line = build_command_line(None, command, args);
            let vars: Vec<(String, String)> = Vec::new();
            assert(pairs_of(vars@) =~= Seq::empty());
            Ok(Runner::Command { command: line, cwd: work_dir, dotenv: None, vars })
        },
        Some(e) => {
            let renv = e.get_env_vars();
            let line = build_command_line(renv.command.as_ref(), command, args);
            let vars = match renv.vars {
                Some(v) => v,
                None => {
                    let v: Vec<(String, String)> = Vec::new();
                    assert(pairs_of(v@) =~= Seq::empty());
                    v
                },
            };
            let dotenv = match renv.dotenv {
                None => None,
                Some(p) => Some(resolve_path(p.as_str(), file_path, ctx)?),
            };
            Ok(Runner::Command { command: line, cwd: work_dir, dotenv, vars })
        },
    }
}

/// The root of the nearest ancestor that has one.
pub open spec fn ancestors_root(parents: Seq<Group>) -> Option<RootConfig>
    decreases parents.len(),
{
    if parents.len() == 0 {
        None
    } else {
        match parents.last().root {
            Some(r) => Some(r),
            None => ancestors_root(parents.drop_last()),
        }
    }
}

impl Command {
    /// The root a node runs from: its own, else its nearest ancestor's.
    pub open spec fn root_config(self, parents: Seq<Group>) -> Option<RootConfig> {
        match self.spec_own_root() {
            Some(r) => Some(r),
            None => ancestors_root(parents),
        }
    }

    /// The working directory of a node: the path of the root it runs from,
    /// resolved; `None` inside the outer result where there is no root.
    pub open spec fn working_dir(self, parents: Seq<Group>, file: Seq<char>, ctx: Context) -> Option<
        Option<Seq<char>>,
    > {
        match self.root_config(parents) {
            None => Some(None),
            Some(rc) => match resolved(rc.path@, file, ctx.current_dir@, opt_view(ctx.home)) {
                Some(p) => Some(Some(p)),
                None => None,
            },
        }
    }

    /// The command string of a leaf.
    pub open spec fn leaf_command(self) -> Option<Seq<char>> {
        match self {
            Command::Inline(s) => Some(s@),
            Command::Config(c) => Some(c.command@),
            Command::Group(_) => None,
        }
    }

    /// The runner of a node, given its ancestors, its extra tokens and the
    /// selected environment; `None` where a path does not resolve.
    pub open spec fn runner_for(
        self,
        parents: Seq<Group>,
        args: Seq<Seq<char>>,
        env: Option<Env>,
        file: Seq<char>,
        ctx: Context,
    ) -> Option<Option<CommandView>> {
        match self.working_dir(parents, file, ctx) {
            None => None,
            Some(cwd) => match self.leaf_command() {
                None => Some(None),
                Some(c) => match command_runner(c, cwd, args, env, file, ctx) {
                    Some(v) => Some(Some(v)),
                    None => None,
                },
            },
        }
    }

    /// The working directory of the node: the resolved path of its own root,
    /// else of its nearest ancestor's (`parents` root first).
    pub fn resolve_root(&self, parents: &[&Group], file_path: &str, ctx: &Context) -> (r: Result<
        Option<String>,
        ResolveError,
    >)
        ensures
            match self.working_dir(groups(parents@), file_path@, *ctx) {
                Some(d) => r matches Ok(p) && opt_view(p) == d,
                None => r matches Err(ResolveError::Path { .. }),
            },
    {
        let ghost ps = groups(parents@);
        let own = match self {
            Command::Inline(_) => None,
            Command::Config(cmd) => cmd.root.as_ref(),
            Command::Group(group) => group.root.as_ref(),
        };
        let mut root: Option<&RootConfig> = own;
        let mut k: usize = parents.len();
        assert(ps.subrange(0, k as int) =~= ps);
        while root.is_none() && k > 0
            invariant
                k <= parents@.len(),
                ps == groups(parents@),
                self.root_config(ps) == match root {
                    Some(r) => Some(*r),
                    None => ancestors_root(ps.subrange(0, k as int)),
                },
            decreases k,
        {
            let ghost pre = ps.subrange(0, k as int);
            assert(pre.drop_last() =~= ps.subrange(0, k - 1));
            root = parents[k - 1].root.as_ref();
            k -= 1;
        }
        match root {
            None => Ok(None),
            Some(rc) => Ok(Some(resolve_path(rc.path.as_str(), file_path, ctx)?)),
        }
    }

    /// The runner of the node for the extra tokens `args`, with an environment
    /// selected from them (see `match_env`): a command runner for a leaf, help
    /// for a group.
    pub fn runner(&self, parents: &[&Group], args: &[String], file_path: &str, ctx: &Context) -> (r:
        Result<Runner, ResolveError>)
        ensures
            ({
                let ps = groups(parents@);
                let m = self.merged_envs(ps);
                let d = self.nearest_default_env(ps);
                match selected_env(m, d, strs(args@)) {
                    None => r matches Err(e) && env_failure(e, m, d, strs(args@)),
                    Some(sel) => {
                        let (env, n) = match sel {
                            Some((e, n)) => (Some(e), n),
                            None => (None, 0),
                        };
                        match self.runner_for(ps, strs(args@).skip(n as int), env, file_path@, *ctx) {
                            Some(v) => r matches Ok(run) && run@ == v,
                            None => r matches Err(ResolveError::Path { .. }),
                        }
                    },
                }
            }),
    {
        let (envs, default_env) = self.resolve_envs(parents);
        let d = match default_env {
            Some(s) => Some(s.as_str()),
            None => None,
        };
        let selection = match_env(&envs, d, args)?;
        match selection {
            Some((env, rest)) => {
                assert(strs(rest@) =~= strs(args@).skip(args@.len() - rest@.len()));
                Runner::from_command(self, parents, rest, Some(env), file_path, ctx)
            },
            None => {
                assert(strs(args@).skip(0) =~= strs(args@));
                Runner::from_command(self, parents, args, None, file_path, ctx)
            },
        }
    }
}

impl Runner {
    /// The runner of a node: help for a group; for a leaf, its command with
    /// the extra tokens and environment, run from the root it inherits.
    pub fn from_command(
        command: &Command,
        parents: &[&Group],
        extra_args: &[String],
        env: Option<&Env>,
        file_path: &str,
        ctx: &Context,
    ) -> (r: Result<Runner, ResolveError>)
        ensures
            match command.runner_for(
                groups(parents@),
                strs(extra_args@),
                match env {
                    Some(e) => Some(*e),
                    None => None,
                },
                file_path@,
                *ctx,
            ) {
                Some(v) => r matches Ok(run) && run@ == v,
                None => r matches Err(ResolveError::Path { .. }),
            },
    {
        let path = command.resolve_root(parents, file_path, ctx)?;
        match command {
            Command::Inline(cmd) => create_command(cmd.as_str(), path, extra_args, env, file_path, ctx),
            Command::Config(c) => create_command(c.command.as_str(), path, extra_args, env, file_path, ctx),
            Command::Group(_) => Ok(Runner::Help),
        }
    }
}

} // verus!
