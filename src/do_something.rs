use vstd::prelude::*;

use crate::command::{copy_strs, groups, strs, Command};
use crate::config::{GlobalConfig, OnConflict};
use crate::dir::{same_str, Context};
use crate::ds_file::{
    all_from, lemma_matched_bound, lookup, matched, matches_of, Candidate, DsFile, Match,
};
use crate::env::{env_failure, selected_env};
use crate::help::{help_for_keys, help_outcome, rows_of, walk_rows, HelpGroup, HelpRow, RowView};
use crate::runner::{CommandView, Runner};
use crate::group::walked;
use crate::error::ResolveError;
use crate::group::{defaulted, Group};

verus! {

/// The matches of a list tagged with the document each comes from.
pub open spec fn tagged(v: Seq<Match>) -> Seq<(Seq<char>, Candidate)> {
    v.map_values(|m: Match| (m.file_path@, m@))
}

/// Candidates tagged with the document `file`.
pub open spec fn tag(file: Seq<char>, c: Seq<Candidate>) -> Seq<(Seq<char>, Candidate)> {
    c.map_values(|x: Candidate| (file, x))
}

/// The matches collected over the documents `files[i..]` after `acc`, in
/// priority order. Under `Override` the first document that brings the total
/// above zero ends the collection; under `Error` a total above one fails with
/// a conflict naming the key path of the latest match. A document's scope
/// failure fails the collection. The error is `(is_conflict, key path)`.
pub open spec fn collected(
    files: Seq<DsFile>,
    i: int,
    acc: Seq<(Seq<char>, Candidate)>,
    policy: OnConflict,
    target: Seq<Seq<char>>,
    ctx: Context,
) -> Result<Seq<(Seq<char>, Candidate)>, (bool, Seq<Seq<char>>)>
    decreases files.len() - i,
{
    if i < 0 || i >= files.len() {
        Ok(acc)
    } else {
        match matched(files[i].group, target, false, files[i].path@, ctx) {
            Err(ks) => Err((false, ks)),
            Ok(ms) => {
                let acc2 = acc + tag(files[i].path@, ms);
                if policy == OnConflict::Override && acc2.len() > 0 {
                    Ok(acc2)
                } else if policy == OnConflict::Error && acc2.len() > 1 {
                    Err((true, acc2.last().1.0))
                } else {
                    collected(files, i + 1, acc2, policy, target, ctx)
                }
            },
        }
    }
}

/// Collect the matches for `target` over the documents `files`, highest
/// priority first, under the conflict policy (see `collected`).
pub fn match_command(
    on_conflict: OnConflict,
    files: &[DsFile],
    target: &[String],
    ctx: &Context,
) -> (r: Result<Vec<Match>, ResolveError>)
    ensures
        match collected(files@, 0, Seq::empty(), on_conflict, strs(target@), *ctx) {
            Ok(acc) => r matches Ok(v) && tagged(v@) == acc,
            Err((false, ks)) => r matches Err(ResolveError::Scope { keys: k }) && strs(k@) == ks,
            Err((true, ks)) => r matches Err(ResolveError::Conflict { keys: k }) && strs(k@) == ks,
        },
{
    let ghost ts = strs(target@);
    let mut all: Vec<Match> = Vec::new();
    let mut i: usize = 0;
    assert(tagged(all@) =~= Seq::empty());
    while i < files.len()
        invariant
            i <= files@.len(),
            ts == strs(target@),
            collected(files@, 0, Seq::empty(), on_conflict, ts, *ctx) == collected(
                files@,
                i as int,
                tagged(all@),
                on_conflict,
                ts,
                *ctx,
            ),
            on_conflict == OnConflict::Override ==> all@.len() == 0,
            on_conflict == OnConflict::Error ==> all@.len() <= 1,
        decreases files@.len() - i,
    {
        let file = &files[i];
        let mut found = file.matches(target, ctx)?;
        let ghost before = all@;
        let ghost fm = found@;
        all.append(&mut found);
        assert(tagged(all@) =~= tagged(before) + tag(files@[i as int].path@, matches_of(fm))) by {
            assert forall|j: int| 0 <= j < fm.len() implies (#[trigger] fm[j]).file_path@
                == files@[i as int].path@ by {
                assert(all_from(fm, files@[i as int].path@));
            }
        }
        match on_conflict {
            OnConflict::Override => {
                if all.len() > 0 {
                    return Ok(all);
                }
            },
            OnConflict::Error => {
                if all.len() > 1 {
                    let last = all.len() - 1;
                    let keys = copy_strs(all[last].keys.as_slice());
                    return Err(ResolveError::Conflict { keys });
                }
            },
        }
        i += 1;
    }
    Ok(all)
}

/// Under `Error`, once a match has been collected (or a document before
/// `j` brings one), a match in document `j` fails the collection with a
/// conflict, whatever `Override` would have chosen.
proof fn lemma_error_trips(
    files: Seq<DsFile>,
    k: int,
    acc: Seq<(Seq<char>, Candidate)>,
    j: int,
    target: Seq<Seq<char>>,
    ctx: Context,
)
    requires
        0 <= k <= j < files.len(),
        forall|m: int|
            k <= m <= j ==> matched(
                (#[trigger] files[m]).group,
                target,
                false,
                files[m].path@,
                ctx,
            ) is Ok,
        matched(files[j].group, target, false, files[j].path@, ctx) matches Ok(ms) && ms.len() > 0,
        acc.len() >= 1 || exists|i: int|
            k <= i < j && (matched((#[trigger] files[i]).group, target, false, files[i].path@, ctx)
                matches Ok(ms) && ms.len() > 0),
    ensures
        collected(files, k, acc, OnConflict::Error, target, ctx) matches Err((true, _)),
    decreases j - k,
{
    let ms = matched(files[k].group, target, false, files[k].path@, ctx)->Ok_0;
    let acc2 = acc + tag(files[k].path@, ms);
    if acc2.len() <= 1 {
        if k == j {
            assert(false);
        }
        if acc.len() == 0 {
            let i = choose|i: int|
                k <= i < j && (matched((#[trigger] files[i]).group, target, false, files[i].path@, ctx)
                    matches Ok(ms) && ms.len() > 0);
            if i == k {
                assert(acc2.len() >= 1);
            } else {
                assert(k + 1 <= i < j);
            }
        }
        lemma_error_trips(files, k + 1, acc2, j, target, ctx);
    }
}

/// Documents before `i` without matches are passed over under `Override`.
proof fn lemma_override_skips(
    files: Seq<DsFile>,
    k: int,
    i: int,
    target: Seq<Seq<char>>,
    ctx: Context,
)
    requires
        0 <= k <= i < files.len(),
        forall|m: int|
            k <= m < i ==> (matched((#[trigger] files[m]).group, target, false, files[m].path@, ctx)
                matches Ok(ms) && ms.len() == 0),
    ensures
        collected(files, k, Seq::empty(), OnConflict::Override, target, ctx) == collected(
            files,
            i,
            Seq::empty(),
            OnConflict::Override,
            target,
            ctx,
        ),
    decreases i - k,
{
    if k < i {
        let ms = matched(files[k].group, target, false, files[k].path@, ctx)->Ok_0;
        assert(Seq::<(Seq<char>, Candidate)>::empty() + tag(files[k].path@, ms) =~= Seq::empty());
        lemma_override_skips(files, k + 1, i, target, ctx);
    }
}

/// Two documents that both match the target, the first of them at priority
/// `i` and the second at `j`, every document up to `j` resolving its scopes
/// and none before `i` matching. Under `Override` the matches of document `i`
/// are taken and the later one is never consulted; under `Error` the
/// collection fails with a conflict.
pub proof fn lemma_two_sources(
    files: Seq<DsFile>,
    i: int,
    j: int,
    target: Seq<Seq<char>>,
    ctx: Context,
)
    requires
        0 <= i < j < files.len(),
        forall|m: int|
            0 <= m <= j ==> matched(
                (#[trigger] files[m]).group,
                target,
                false,
                files[m].path@,
                ctx,
            ) is Ok,
        forall|m: int|
            0 <= m < i ==> (matched((#[trigger] files[m]).group, target, false, files[m].path@, ctx)
                matches Ok(ms) && ms.len() == 0),
        matched(files[i].group, target, false, files[i].path@, ctx) matches Ok(ms) && ms.len() > 0,
        matched(files[j].group, target, false, files[j].path@, ctx) matches Ok(ms) && ms.len() > 0,
    ensures
        collected(files, 0, Seq::empty(), OnConflict::Override, target, ctx) == Ok::<
            Seq<(Seq<char>, Candidate)>,
            (bool, Seq<Seq<char>>),
        >(tag(files[i].path@, matched(files[i].group, target, false, files[i].path@, ctx)->Ok_0)),
        collected(files, 0, Seq::empty(), OnConflict::Error, target, ctx) matches Err((true, _)),
{
    lemma_override_skips(files, 0, i, target, ctx);
    let ms = matched(files[i].group, target, false, files[i].path@, ctx)->Ok_0;
    assert(Seq::<(Seq<char>, Candidate)>::empty() + tag(files[i].path@, ms) =~= tag(
        files[i].path@,
        ms,
    ));
    assert(matched(files[i].group, target, false, files[i].path@, ctx) matches Ok(ms) && ms.len()
        > 0);
    lemma_error_trips(files, 0, Seq::empty(), j, target, ctx);
}

/// The help rows of a whole document.
pub open spec fn file_rows(f: DsFile, ctx: Context) -> Result<Seq<RowView>, Seq<Seq<char>>> {
    match walked(f.group.commands@, Seq::empty(), seq![f.group], f.path@, ctx) {
        Ok(vs) => Ok(walk_rows(vs, f.group, Seq::empty(), 0, f.path@)),
        Err(e) => Err(e),
    }
}

/// The documents that have help rows, by index, with their rows; a scope
/// failure in any document fails the listing.
pub open spec fn listing(files: Seq<DsFile>, ctx: Context) -> Result<
    Seq<(int, Seq<RowView>)>,
    Seq<Seq<char>>,
>
    decreases files.len(),
{
    if files.len() == 0 {
        Ok(Seq::empty())
    } else {
        match listing(files.drop_last(), ctx) {
            Err(e) => Err(e),
            Ok(l) => match file_rows(files.last(), ctx) {
                Err(e) => Err(e),
                Ok(rows) => Ok(
                    if rows.len() > 0 {
                        l.push((files.len() - 1, rows))
                    } else {
                        l
                    },
                ),
            },
        }
    }
}

/// A listing that fails within the first `n` documents fails, the same way,
/// for all of them.
proof fn lemma_listing_abort(files: Seq<DsFile>, n: int, ctx: Context)
    requires
        0 <= n <= files.len(),
        listing(files.subrange(0, n), ctx) is Err,
    ensures
        listing(files, ctx) == listing(files.subrange(0, n), ctx),
    decreases files.len() - n,
{
    if n == files.len() {
        assert(files.subrange(0, n) =~= files);
    } else {
        let shorter = files.drop_last();
        assert(shorter.subrange(0, n) =~= files.subrange(0, n));
        lemma_listing_abort(shorter, n, ctx);
    }
}

/// The width of a row, saturating at `usize::MAX`.
pub open spec fn row_width(r: HelpRow) -> nat {
    if r.spec_len() <= usize::MAX {
        r.spec_len()
    } else {
        usize::MAX as nat
    }
}

/// The width of the widest of some rows; zero for none.
pub open spec fn widest_row(rows: Seq<HelpRow>) -> nat
    decreases rows.len(),
{
    if rows.len() == 0 {
        0
    } else {
        let w = widest_row(rows.drop_last());
        if row_width(rows.last()) > w {
            row_width(rows.last())
        } else {
            w
        }
    }
}

/// The width of the widest row of some groups; zero for none.
pub open spec fn widest(gs: Seq<HelpGroup>) -> nat
    decreases gs.len(),
{
    if gs.len() == 0 {
        0
    } else {
        let w = widest(gs.drop_last());
        let last = widest_row(gs.last().rows@);
        if last > w {
            last
        } else {
            w
        }
    }
}

/// The heading name of a document: its group's name, else its file name.
pub open spec fn heading_name(f: DsFile) -> Seq<char> {
    match f.group.name {
        Some(n) => n@,
        None => f.file_name@,
    }
}

/// The heading description of a document: its group's, else its displayed
/// path.
pub open spec fn heading_description(f: DsFile) -> Seq<char> {
    match f.group.description {
        Some(d) => d@,
        None => f.path_string@,
    }
}

/// The loaded documents, highest priority first.
#[derive(Debug)]
pub struct DsFiles {
    pub files: Vec<DsFile>,
}

/// Index of the first document with path `path`, or -1.
pub open spec fn file_index(files: Seq<DsFile>, path: Seq<char>) -> int
    decreases files.len(),
{
    if files.len() == 0 {
        -1
    } else if files[0].path@ == path {
        0
    } else {
        let r = file_index(files.drop_first(), path);
        if r < 0 {
            -1
        } else {
            r + 1
        }
    }
}

proof fn lemma_file_index(files: Seq<DsFile>, path: Seq<char>, i: int)
    requires
        0 <= i <= files.len(),
        forall|j: int| 0 <= j < i ==> (#[trigger] files[j]).path@ != path,
        i == files.len() || files[i].path@ == path,
    ensures
        file_index(files, path) == (if i == files.len() {
            -1
        } else {
            i
        }),
    decreases files.len(),
{
    if files.len() > 0 && i > 0 {
        let rest = files.drop_first();
        assert forall|j: int| 0 <= j < i - 1 implies (#[trigger] rest[j]).path@ != path by {
            assert(rest[j] == files[j + 1]);
        }
        lemma_file_index(rest, path, i - 1);
    }
}

impl DsFiles {
    /// The document with path `path`.
    pub fn load_file(&self, path: &String) -> (r: Result<&DsFile, ResolveError>)
        ensures
            ({
                let i = file_index(self.files@, path@);
                if 0 <= i < self.files@.len() {
                    r matches Ok(f) && *f == self.files@[i]
                } else {
                    r matches Err(ResolveError::FileNotLoaded { path: p }) && p@ == path@
                }
            }),
    {
        let mut i: usize = 0;
        while i < self.files.len()
            invariant
                i <= self.files@.len(),
                forall|j: int| 0 <= j < i ==> (#[trigger] self.files@[j]).path@ != path@,
            decreases self.files@.len() - i,
        {
            if same_str(self.files[i].path.as_str(), path.as_str()) {
                proof {
                    lemma_file_index(self.files@, path@, i as int);
                }
                return Ok(&self.files[i]);
            }
            i += 1;
        }
        proof {
            lemma_file_index(self.files@, path@, i as int);
        }
        Err(ResolveError::FileNotLoaded { path: path.clone() })
    }
}

/// The resolver: loaded documents, settings and the ambient state.
#[derive(Debug)]
pub struct DoSomething {
    pub ds_files: DsFiles,
    pub config: GlobalConfig,
    pub context: Context,
}

/// The match chosen from what was collected: the latest one.
pub open spec fn chosen(
    files: Seq<DsFile>,
    policy: OnConflict,
    target: Seq<Seq<char>>,
    ctx: Context,
) -> Result<(Seq<char>, Candidate), (u8, Seq<Seq<char>>)> {
    match collected(files, 0, Seq::empty(), policy, target, ctx) {
        Ok(acc) => if acc.len() == 0 {
            Err((2u8, Seq::empty()))
        } else {
            Ok(acc.last())
        },
        Err((c, ks)) => Err((
            if c {
                1u8
            } else {
                0u8
            },
            ks,
        )),
    }
}

/// Every collected match consumes at most the tokens there are.
proof fn lemma_collected_bound(
    files: Seq<DsFile>,
    i: int,
    acc: Seq<(Seq<char>, Candidate)>,
    policy: OnConflict,
    target: Seq<Seq<char>>,
    ctx: Context,
)
    requires
        forall|k: int| 0 <= k < acc.len() ==> (#[trigger] acc[k]).1.1 <= target.len(),
    ensures
        collected(files, i, acc, policy, target, ctx) matches Ok(r) ==> forall|k: int|
            0 <= k < r.len() ==> (#[trigger] r[k]).1.1 <= target.len(),
    decreases files.len() - i,
{
    if 0 <= i < files.len() {
        lemma_matched_bound(files[i].group, target, false, files[i].path@, ctx);
        if let Ok(ms) = matched(files[i].group, target, false, files[i].path@, ctx) {
            let acc2 = acc + tag(files[i].path@, ms);
            assert forall|k: int| 0 <= k < acc2.len() implies (#[trigger] acc2[k]).1.1
                <= target.len() by {
                if k >= acc.len() {
                    assert(acc2[k] == (files[i].path@, ms[k - acc.len()]));
                }
            }
            lemma_collected_bound(files, i + 1, acc2, policy, target, ctx);
        }
    }
}

/// The node a chosen match leads to (defaults followed), with its ancestors
/// and its document.
pub open spec fn chosen_command(files: Seq<DsFile>, m: (Seq<char>, Candidate)) -> Option<
    (Command, Seq<Group>),
> {
    let i = file_index(files, m.0);
    if 0 <= i < files.len() {
        match lookup(files[i].group, m.1.0) {
            Some((c, anc)) => Some(defaulted(c, anc)),
            None => None,
        }
    } else {
        None
    }
}

/// The outcome of a resolution where it succeeds: the chosen match, and the
/// runner of its command for the tokens after the matched ones, with an
/// environment selected from them. `None` where any step fails.
pub open spec fn resolution(ds: DoSomething, target: Seq<Seq<char>>) -> Option<
    ((Seq<char>, Candidate), Option<CommandView>),
> {
    match chosen(ds.ds_files.files@, ds.config.on_conflict, target, ds.context) {
        Err(_) => None,
        Ok(m) => match chosen_command(ds.ds_files.files@, m) {
            None => None,
            Some((c, ps)) => {
                let rest = target.skip(m.1.1 as int);
                let envs = c.merged_envs(ps);
                let d = c.nearest_default_env(ps);
                match selected_env(envs, d, rest) {
                    None => None,
                    Some(sel) => {
                        let (env, n) = match sel {
                            Some((e, n)) => (Some(e), n),
                            None => (None, 0),
                        };
                        match c.runner_for(ps, rest.skip(n as int), env, m.0, ds.context) {
                            Some(v) => Some((m, v)),
                            None => None,
                        }
                    },
                }
            },
        },
    }
}

/// What `resolve` returns for `target`: the outcome of `resolution` where
/// it succeeds, an error where it fails.
pub open spec fn resolves_to(
    ds: DoSomething,
    target: Seq<Seq<char>>,
    r: Result<(Match, Runner), ResolveError>,
) -> bool {
    match resolution(ds, target) {
        Some((mv, rv)) => r matches Ok((m, run)) && (m.file_path@, m@) == mv && run@ == rv,
        None => r is Err,
    }
}

/// Resolving the same tokens against the same documents, settings and
/// ambient state twice chooses the same command and builds the same runner,
/// environment included; or fails both times.
pub proof fn lemma_resolution_deterministic(
    ds: DoSomething,
    target: Seq<Seq<char>>,
    r1: Result<(Match, Runner), ResolveError>,
    r2: Result<(Match, Runner), ResolveError>,
)
    requires
        resolves_to(ds, target, r1),
        resolves_to(ds, target, r2),
    ensures
        r1 is Ok <==> r2 is Ok,
        r1 matches Ok((m1, run1)) ==> r2 matches Ok((m2, run2)) && m1.file_path@ == m2.file_path@
            && m1@ == m2@ && run1@ == run2@,
{
}

impl DoSomething {
    /// Resolve a token vector: choose a match over the documents, follow it
    /// to its command (defaults followed), select an environment from the
    /// tokens after the matched ones, and build the runner.
    pub fn resolve(&self, args: &[String]) -> (r: Result<(Match, Runner), ResolveError>)
        ensures
            resolves_to(*self, strs(args@), r),
    {
        let m = self.match_command(args)?;
        proof {
            lemma_collected_bound(
                self.ds_files.files@,
                0,
                Seq::empty(),
                self.config.on_conflict,
                strs(args@),
                self.context,
            );
        }
        let (command, parents) = self.command_from_match(&m)?;
        let rest = &args[m.score..args.len()];
        assert(strs(rest@) =~= strs(args@).skip(m.score as int));
        let runner = command.runner(parents.as_slice(), rest, m.file_path.as_str(), &self.context)?;
        Ok((m, runner))
    }

    /// The resolver over loaded documents, each a well-formed map.
    pub fn new(files: Vec<DsFile>, config: GlobalConfig, context: Context) -> (r: Self)
        requires
            forall|i: int| 0 <= i < files@.len() ==> (#[trigger] files@[i]).group.wf(),
        ensures
            r.ds_files.files@ == files@,
            r.config == config,
            r.context == context,
    {
        DoSomething { ds_files: DsFiles { files }, config, context }
    }

    /// The match for `target` over all documents, under the conflict policy:
    /// under `Override` the last-discovered match of the first document
    /// that has one; under `Error` the only match. Fails with `NoMatch` where
    /// there is none.
    pub fn match_command(&self, target: &[String]) -> (r: Result<Match, ResolveError>)
        ensures
            match chosen(
                self.ds_files.files@,
                self.config.on_conflict,
                strs(target@),
                self.context,
            ) {
                Ok((f, c)) => r matches Ok(m) && m.file_path@ == f && m@ == c,
                Err((0u8, ks)) => r matches Err(ResolveError::Scope { keys: k }) && strs(k@) == ks,
                Err((1u8, ks)) => r matches Err(ResolveError::Conflict { keys: k }) && strs(k@)
                    == ks,
                Err(_) => r matches Err(ResolveError::NoMatch),
            },
    {
        let mut all = match_command(
            self.config.on_conflict,
            self.ds_files.files.as_slice(),
            target,
            &self.context,
        )?;
        match all.pop() {
            None => Err(ResolveError::NoMatch),
            Some(m) => Ok(m),
        }
    }

    /// The command of a match (defaults followed) with its ancestors.
    pub fn command_from_match(&self, m: &Match) -> (r: Result<
        (&Command, Vec<&Group>),
        ResolveError,
    >)
        ensures
            ({
                let i = file_index(self.ds_files.files@, m.file_path@);
                if 0 <= i < self.ds_files.files@.len() {
                    match lookup(self.ds_files.files@[i].group, strs(m.keys@)) {
                        Some((c, anc)) => r matches Ok((rc, ps)) && (*rc, groups(ps@))
                            == defaulted(c, anc),
                        None => r matches Err(ResolveError::NoCommand { .. }),
                    }
                } else {
                    r matches Err(ResolveError::FileNotLoaded { .. })
                }
            }),
    {
        let file = self.ds_files.load_file(&m.file_path)?;
        file.command_from_keys(m.keys.as_slice())
    }

    /// The help rows below the group a match names, defaults followed.
    pub fn help_rows_for_match(&self, m: &Match) -> (r: Result<Vec<HelpRow>, ResolveError>)
        ensures
            ({
                let i = file_index(self.ds_files.files@, m.file_path@);
                if 0 <= i < self.ds_files.files@.len() {
                    help_outcome(
                        r,
                        help_for_keys(self.ds_files.files@[i], strs(m.keys@), self.context),
                    )
                } else {
                    r matches Err(ResolveError::FileNotLoaded { .. })
                }
            }),
    {
        let file = self.ds_files.load_file(&m.file_path)?;
        file.help_rows_for_match(m, &self.context)
    }

    /// The command of a help row (defaults followed) with its ancestors.
    pub fn command_from_help_row(&self, row: &HelpRow) -> (r: Result<
        (&Command, Vec<&Group>),
        ResolveError,
    >)
        ensures
            ({
                let i = file_index(self.ds_files.files@, row.file_path@);
                if 0 <= i < self.ds_files.files@.len() {
                    match lookup(self.ds_files.files@[i].group, strs(row.key@)) {
                        Some((c, anc)) => r matches Ok((rc, ps)) && (*rc, groups(ps@))
                            == defaulted(c, anc),
                        None => r matches Err(ResolveError::NoCommand { .. }),
                    }
                } else {
                    r matches Err(ResolveError::FileNotLoaded { .. })
                }
            }),
    {
        let file = self.ds_files.load_file(&row.file_path)?;
        file.command_from_keys(row.key.as_slice())
    }

    /// The runner for a row chosen from the help listing: its command, with
    /// the row's environment offered as the only token (a default shown in
    /// parentheses falls back to the default environment).
    pub fn run_help_row(&self, row: &HelpRow) -> (r: Result<Runner, ResolveError>)
        ensures
            ({
                let i = file_index(self.ds_files.files@, row.file_path@);
                let args: Seq<Seq<char>> = match row.env {
                    Some(e) => seq![e@],
                    None => Seq::empty(),
                };
                if 0 <= i < self.ds_files.files@.len() {
                    match lookup(self.ds_files.files@[i].group, strs(row.key@)) {
                        Some((c0, anc0)) => {
                            let (c, ps) = defaulted(c0, anc0);
                            let m = c.merged_envs(ps);
                            let d = c.nearest_default_env(ps);
                            match selected_env(m, d, args) {
                                None => r matches Err(e) && env_failure(e, m, d, args),
                                Some(sel) => {
                                    let (env, n) = match sel {
                                        Some((e, n)) => (Some(e), n),
                                        None => (None, 0),
                                    };
                                    match c.runner_for(
                                        ps,
                                        args.skip(n as int),
                                        env,
                                        row.file_path@,
                                        self.context,
                                    ) {
                                        Some(v) => r matches Ok(run) && run@ == v,
                                        None => r matches Err(ResolveError::Path { .. }),
                                    }
                                },
                            }
                        },
                        None => r matches Err(ResolveError::NoCommand { .. }),
                    }
                } else {
                    r matches Err(ResolveError::FileNotLoaded { .. })
                }
            }),
    {
        let file = self.ds_files.load_file(&row.file_path)?;
        let (command, parents) = file.command_from_keys(row.key.as_slice())?;
        let mut args: Vec<String> = Vec::new();
        if let Some(env) = &row.env {
            args.push(env.clone());
        }
        assert(strs(args@) =~= match row.env {
            Some(e) => seq![e@],
            None => Seq::<Seq<char>>::empty(),
        });
        command.runner(parents.as_slice(), args.as_slice(), row.file_path.as_str(), &self.context)
    }

    /// The help listing of all documents: for each document with rows, in
    /// priority order, its heading and rows; with the width of the widest
    /// row. A scope failure in any document fails the listing.
    pub fn help_groups(&self) -> (r: Result<(Vec<HelpGroup>, usize), ResolveError>)
        ensures
            match listing(self.ds_files.files@, self.context) {
                Ok(l) => r matches Ok((gs, width)) && gs@.len() == l.len() && (forall|k: int|
                    0 <= k < l.len() ==> 0 <= #[trigger] l[k].0 < self.ds_files.files@.len()) && (
                forall|k: int|
                    0 <= k < l.len() ==> {
                        let f = self.ds_files.files@[l[k].0];
                        &&& rows_of((#[trigger] gs@[k]).rows@) == l[k].1
                        &&& gs@[k].name@ == heading_name(f)
                        &&& gs@[k].description@ == heading_description(f)
                        &&& gs@[k].search@ == f.path_string@
                    }) && widest(gs@) == width,
                Err(ks) => r matches Err(ResolveError::Scope { keys: k }) && strs(k@) == ks,
            },
    {
        let ghost files = self.ds_files.files@;
        let mut gs: Vec<HelpGroup> = Vec::new();
        let mut width: usize = 0;
        let mut i: usize = 0;
        assert(files.subrange(0, 0) =~= Seq::<DsFile>::empty());
        while i < self.ds_files.files.len()
            invariant
                i <= files.len(),
                files == self.ds_files.files@,
                listing(files.subrange(0, i as int), self.context) matches Ok(l) && gs@.len()
                    == l.len() && (forall|k: int| 0 <= k < l.len() ==> 0 <= #[trigger] l[k].0 < i)
                    && (forall|k: int|
                    0 <= k < l.len() ==> {
                        let f = files[l[k].0];
                        &&& rows_of((#[trigger] gs@[k]).rows@) == l[k].1
                        &&& gs@[k].name@ == heading_name(f)
                        &&& gs@[k].description@ == heading_description(f)
                        &&& gs@[k].search@ == f.path_string@
                    }),
                widest(gs@) == width,
            decreases files.len() - i,
        {
            let ghost pre = files.subrange(0, i + 1);
            assert(pre.drop_last() =~= files.subrange(0, i as int));
            let file = &self.ds_files.files[i];
            assert(pre.last() == *file);
            let rows = match file.help_rows(&self.context) {
                Ok(rows) => rows,
                Err(e) => {
                    proof {
                        if let Err(ks) = file_rows(*file, self.context) {
                            assert(listing(pre, self.context) == Err::<
                                Seq<(int, Seq<RowView>)>,
                                Seq<Seq<char>>,
                            >(ks));
                        }
                    }
                    proof {
                        lemma_listing_abort(files, i + 1, self.context);
                    }
                    return Err(e);
                },
            };
            assert(file_rows(*file, self.context) == Ok::<Seq<RowView>, Seq<Seq<char>>>(
                rows_of(rows@),
            ));
            if rows.len() == 0 {
                assert(listing(pre, self.context) == listing(
                    files.subrange(0, i as int),
                    self.context,
                ));
            }
            if rows.len() > 0 {
                let ghost l = listing(files.subrange(0, i as int), self.context)->Ok_0;
                let ghost before = gs@;
                let mut j: usize = 0;
                let mut w: usize = 0;
                while j < rows.len()
                    invariant
                        j <= rows@.len(),
                        w == widest_row(rows@.subrange(0, j as int)),
                    decreases rows@.len() - j,
                {
                    assert(rows@.subrange(0, j + 1).drop_last() =~= rows@.subrange(0, j as int));
                    let len = rows[j].len();
                    if len > w {
                        w = len;
                    }
                    j += 1;
                }
                assert(rows@.subrange(0, rows@.len() as int) =~= rows@);
                let g = file.help_group(rows);
                gs.push(g);
                assert(gs@.drop_last() =~= before);
                if w > width {
                    width = w;
                }
                let ghost l2 = l.push((i as int, rows_of(gs@[gs@.len() - 1].rows@)));
                assert(listing(pre, self.context) == Ok::<
                    Seq<(int, Seq<RowView>)>,
                    Seq<Seq<char>>,
                >(l2));
                assert forall|k: int| 0 <= k < l2.len() implies 0 <= #[trigger] l2[k].0 < i + 1 by {
                    if k < l.len() {
                        assert(l2[k] == l[k]);
                    }
                }
                assert forall|k: int| 0 <= k < l2.len() implies {
                    let f = files[l2[k].0];
                    &&& rows_of((#[trigger] gs@[k]).rows@) == l2[k].1
                    &&& gs@[k].name@ == heading_name(f)
                    &&& gs@[k].description@ == heading_description(f)
                    &&& gs@[k].search@ == f.path_string@
                } by {
                    if k < before.len() {
                        assert(gs@[k] == before[k]);
                        assert(l2[k] == l[k]);
                    }
                }
            }
            i += 1;
        }
        assert(files.subrange(0, files.len() as int) =~= files);
        Ok((gs, width))
    }

    /// The document of a match.
    pub fn file_from_match(&self, m: &Match) -> (r: Result<&DsFile, ResolveError>)
        ensures
            ({
                let i = file_index(self.ds_files.files@, m.file_path@);
                if 0 <= i < self.ds_files.files@.len() {
                    r matches Ok(f) && *f == self.ds_files.files@[i]
                } else {
                    r matches Err(ResolveError::FileNotLoaded { .. })
                }
            }),
    {
        self.ds_files.load_file(&m.file_path)
    }
}

} // verus!
