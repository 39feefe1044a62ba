use vstd::prelude::*;

use crate::command::{copy_strs, groups, levels_of, strs, Command};
use crate::dir::{opt_view, Context};
use crate::ds_file::{lookup, lookup_in, DsFile, Match};
use crate::env::{envs_of, env_sources, lemma_merge_all_ascending, names_ascending, Env};
use crate::error::ResolveError;
use crate::group::{
    default_path, defaulted, find_key, lemma_default_path_len, visits_of, walked, Group,
};

verus! {

/// The first name of each level, skipping levels without names.
pub open spec fn firsts(levels: Seq<Seq<Seq<char>>>) -> Seq<Seq<char>>
    decreases levels.len(),
{
    if levels.len() == 0 {
        Seq::empty()
    } else {
        let prev = firsts(levels.drop_last());
        if levels.last().len() > 0 {
            prev.push(levels.last()[0])
        } else {
            prev
        }
    }
}

/// Words joined with the separator `sep`.
pub open spec fn joined_with(words: Seq<Seq<char>>, sep: char) -> Seq<char>
    decreases words.len(),
{
    if words.len() == 0 {
        Seq::empty()
    } else if words.len() == 1 {
        words[0]
    } else {
        joined_with(words.drop_last(), sep) + seq![sep] + words.last()
    }
}

/// The text of one level in the alias line: its only name, or all of its
/// names between parentheses, separated by `|`.
pub open spec fn level_text(level: Seq<Seq<char>>) -> Seq<char> {
    if level.len() == 1 {
        level[0]
    } else {
        seq!['('] + joined_with(level, '|') + seq![')']
    }
}

/// The texts of each level.
pub open spec fn level_texts(levels: Seq<Seq<Seq<char>>>) -> Seq<Seq<char>> {
    levels.map_values(|l: Seq<Seq<char>>| level_text(l))
}

/// A row of help output: one command, possibly with one environment.
#[derive(Debug, Clone)]
pub struct HelpRow {
    /// The document the command comes from.
    pub file_path: String,
    /// The key path of the command.
    pub key: Vec<String>,
    /// The accepted names of each level of the path.
    pub alias_keys: Vec<Vec<String>>,
    /// The program name printed in front.
    pub prefix: String,
    /// The command string.
    pub command: String,
    /// The environment of the row, in parentheses when it is the default.
    pub env: Option<String>,
}

/// Words joined with a separator.
pub fn join_words(words: &Vec<String>, sep: &str) -> (r: String)
    requires
        sep@.len() == 1,
    ensures
        r@ == joined_with(strs(words@), sep@[0]),
{
    let ghost ws = strs(words@);
    let mut r = String::new();
    let mut i: usize = 0;
    assert(ws.subrange(0, 0) =~= Seq::<Seq<char>>::empty());
    while i < words.len()
        invariant
            i <= words@.len(),
            sep@.len() == 1,
            ws == strs(words@),
            r@ == joined_with(ws.subrange(0, i as int), sep@[0]),
        decreases words@.len() - i,
    {
        let ghost sub = ws.subrange(0, i + 1);
        assert(sub.drop_last() =~= ws.subrange(0, i as int));
        if i > 0 {
            r.append(sep);
            assert(sep@ =~= seq![sep@[0]]);
        }
        r.append(words[i].as_str());
        assert(r@ =~= joined_with(sub, sep@[0]));
        i += 1;
    }
    assert(ws.subrange(0, ws.len() as int) =~= ws);
    r
}

impl HelpRow {
    /// The key path of the groups above the command: the first name of each
    /// level but the last, separated by spaces.
    pub open spec fn spec_group_keys(self) -> Seq<char> {
        let ls = levels_of(self.alias_keys@);
        if ls.len() == 0 {
            Seq::empty()
        } else {
            joined_with(firsts(ls.drop_last()), ' ')
        }
    }

    /// The command's own name: the first name of the last level.
    pub open spec fn spec_key(self) -> Seq<char> {
        let ls = levels_of(self.alias_keys@);
        if ls.len() > 0 && ls.last().len() > 0 {
            ls.last()[0]
        } else {
            Seq::empty()
        }
    }

    /// Width of the row before its padding: prefix, space, group keys and a
    /// space where there are any, key, and a space and the environment where
    /// there is one.
    pub open spec fn spec_len(self) -> nat {
        let gk = self.spec_group_keys();
        self.prefix@.len() + 1 + self.spec_key().len() + (match self.env {
            Some(e) => e@.len() + 1,
            None => 0,
        }) + (if gk.len() > 0 {
            gk.len() + 1
        } else {
            0
        })
    }

    /// A row for the command with the given key path and levels.
    pub fn new(
        file_path: String,
        key: Vec<String>,
        alias_keys: Vec<Vec<String>>,
        command: String,
        env: Option<String>,
    ) -> (r: Self)
        ensures
            r.file_path == file_path,
            r.key == key,
            r.alias_keys == alias_keys,
            r.prefix@ == "ds"@,
            r.command == command,
            r.env == env,
    {
        HelpRow { file_path, key, prefix: String::from_str("ds"), alias_keys, command, env }
    }

    /// The key path of the groups above the command.
    pub fn group_keys(&self) -> (r: String)
        ensures
            r@ == self.spec_group_keys(),
    {
        let ghost ls = levels_of(self.alias_keys@);
        let n = self.alias_keys.len();
        let mut words: Vec<String> = Vec::new();
        if n == 0 {
            return String::new();
        }
        let mut i: usize = 0;
        assert(ls.drop_last().subrange(0, 0) =~= Seq::<Seq<Seq<char>>>::empty());
        while i < n - 1
            invariant
                n == self.alias_keys@.len(),
                n > 0,
                i <= n - 1,
                ls == levels_of(self.alias_keys@),
                strs(words@) == firsts(ls.drop_last().subrange(0, i as int)),
            decreases n - 1 - i,
        {
            let ghost sub = ls.drop_last().subrange(0, i + 1);
            assert(sub.drop_last() =~= ls.drop_last().subrange(0, i as int));
            assert(sub.last() == strs(self.alias_keys@[i as int]@));
            let level = &self.alias_keys[i];
            if level.len() > 0 {
                let ghost before = words@;
                words.push(level[0].clone());
                assert(strs(words@) =~= strs(before).push(level@[0]@));
            }
            i += 1;
        }
        assert(ls.drop_last().subrange(0, (n - 1) as int) =~= ls.drop_last());
        proof {
            reveal_strlit(" ");
        }
        join_words(&words, " ")
    }

    /// The command's own name.
    pub fn key(&self) -> (r: String)
        ensures
            r@ == self.spec_key(),
    {
        let n = self.alias_keys.len();
        if n > 0 && self.alias_keys[n - 1].len() > 0 {
            self.alias_keys[n - 1][0].clone()
        } else {
            String::new()
        }
    }

    /// Width of the row before its padding, saturating at `usize::MAX`.
    pub fn len(&self) -> (r: usize)
        ensures
            r == if self.spec_len() <= usize::MAX {
                self.spec_len()
            } else {
                usize::MAX as nat
            },
    {
        let env_size: usize = match &self.env {
            Some(env) => env.as_str().unicode_len().saturating_add(1),
            None => 0,
        };
        let mut len = self.prefix.as_str().unicode_len().saturating_add(1);
        len = len.saturating_add(self.key().as_str().unicode_len());
        len = len.saturating_add(env_size);
        let group_keys = self.group_keys();
        let gl = group_keys.as_str().unicode_len();
        if gl > 0 {
            len = len.saturating_add(gl.saturating_add(1));
        }
        len
    }

    /// The names of each level, where some level has more than one: single
    /// names as they are, several between parentheses separated by `|`, all
    /// separated by spaces.
    pub fn aliases(&self) -> (r: Option<String>)
        ensures
            ({
                let ls = levels_of(self.alias_keys@);
                if exists|i: int| 0 <= i < ls.len() && (#[trigger] ls[i]).len() > 1 {
                    r matches Some(s) && s@ == joined_with(level_texts(ls), ' ')
                } else {
                    r is None
                }
            }),
    {
        let ghost ls = levels_of(self.alias_keys@);
        let mut any = false;
        let mut texts: Vec<String> = Vec::new();
        let mut i: usize = 0;
        assert(level_texts(ls).subrange(0, 0) =~= Seq::<Seq<char>>::empty());
        while i < self.alias_keys.len()
            invariant
                i <= self.alias_keys@.len(),
                ls == levels_of(self.alias_keys@),
                any == exists|j: int| 0 <= j < i && (#[trigger] ls[j]).len() > 1,
                strs(texts@) == level_texts(ls).subrange(0, i as int),
            decreases self.alias_keys@.len() - i,
        {
            let level = &self.alias_keys[i];
            assert(ls[i as int] == strs(level@));
            let ghost before = texts@;
            if level.len() > 1 {
                any = true;
            }
            if level.len() == 1 {
                texts.push(level[0].clone());
                assert(strs(texts@) =~= strs(before).push(level_text(ls[i as int])));
            } else {
                proof {
                    reveal_strlit("(");
                    reveal_strlit("|");
                    reveal_strlit(")");
                }
                let mut t = String::from_str("(");
                let inner = join_words(level, "|");
                t.append(inner.as_str());
                t.append(")");
                assert(t@ =~= seq!['('] + joined_with(strs(level@), '|') + seq![')']);
                texts.push(t);
                assert(strs(texts@) =~= strs(before).push(level_text(ls[i as int])));
            }
            assert(strs(texts@) =~= level_texts(ls).subrange(0, i + 1));
            i += 1;
        }
        assert(level_texts(ls).subrange(0, ls.len() as int) =~= level_texts(ls));
        if !any {
            return None;
        }
        proof {
            reveal_strlit(" ");
        }
        Some(join_words(&texts, " "))
    }

    /// The row as one line padded to `max_size`: prefix, group keys, key,
    /// environment, padding, command.
    pub fn to_string(&self, max_size: usize) -> (r: String)
        requires
            self.spec_len() <= max_size,
        ensures
            r@ == self.prefix@ + seq![' '] + (if self.spec_group_keys().len() > 0 {
                self.spec_group_keys() + seq![' ']
            } else {
                Seq::empty()
            }) + self.spec_key() + (match self.env {
                Some(e) => seq![' '] + e@,
                None => Seq::empty(),
            }) + seq![' '] + Seq::new((max_size - self.spec_len()) as nat, |i: int| ' ')
                + self.command@,
    {
        proof {
            reveal_strlit(" ");
        }
        let group_keys = self.group_keys();
        let mut s = self.prefix.clone();
        s.append(" ");
        if group_keys.as_str().unicode_len() > 0 {
            s.append(group_keys.as_str());
            s.append(" ");
        }
        let key = self.key();
        s.append(key.as_str());
        if let Some(env) = &self.env {
            s.append(" ");
            s.append(env.as_str());
        }
        s.append(" ");
        let ghost head = s@;
        let pad = max_size - self.len();
        let mut k: usize = 0;
        while k < pad
            invariant
                k <= pad,
                s@ == head + Seq::new(k as nat, |i: int| ' '),
            decreases pad - k,
        {
            proof {
                reveal_strlit(" ");
            }
            s.append(" ");
            assert(s@ =~= head + Seq::new((k + 1) as nat, |i: int| ' '));
            k += 1;
        }
        s.append(self.command.as_str());
        proof {
            assert(s@ =~= self.prefix@ + seq![' '] + (if self.spec_group_keys().len() > 0 {
                self.spec_group_keys() + seq![' ']
            } else {
                Seq::empty()
            }) + self.spec_key() + (match self.env {
                Some(e) => seq![' '] + e@,
                None => Seq::empty(),
            }) + seq![' '] + Seq::new((max_size - self.spec_len()) as nat, |i: int| ' ')
                + self.command@);
        }
        s
    }
}

/// The view of a row: prefix, document, key path, levels, command,
/// environment.
pub type RowView = (
    Seq<char>,
    Seq<char>,
    Seq<Seq<char>>,
    Seq<Seq<Seq<char>>>,
    Seq<char>,
    Option<Seq<char>>,
);

impl View for HelpRow {
    type V = RowView;

    open spec fn view(&self) -> RowView {
        (
            self.prefix@,
            self.file_path@,
            strs(self.key@),
            levels_of(self.alias_keys@),
            self.command@,
            opt_view(self.env),
        )
    }
}

/// The views of a sequence of rows.
pub open spec fn rows_of(v: Seq<HelpRow>) -> Seq<RowView> {
    v.map_values(|r: HelpRow| r@)
}

/// The environment column of a command's rows: each merged environment by
/// name, the default one in parentheses; a single empty column where there
/// are none.
pub open spec fn env_labels(m: Seq<(Seq<char>, Env)>, d: Option<Seq<char>>) -> Seq<
    Option<Seq<char>>,
> {
    if m.len() == 0 {
        seq![None]
    } else {
        m.map_values(
            |e: (Seq<char>, Env)|
                Some(
                    if d == Some(e.0) {
                        seq!['('] + e.0 + seq![')']
                    } else {
                        e.0
                    },
                ),
        )
    }
}

/// The rows of the node `c`, reached by the visit `v` with ancestors `anc`:
/// one per environment label, none where it runs no command.
pub open spec fn node_rows(
    c: Command,
    anc: Seq<Group>,
    file: Seq<char>,
    v: (Seq<Seq<char>>, Seq<Seq<Seq<char>>>),
) -> Seq<RowView> {
    match c.command_string() {
        None => Seq::empty(),
        Some(cmd) => env_labels(c.merged_envs(anc), c.nearest_default_env(anc)).map_values(
            |e: Option<Seq<char>>| ("ds"@, file, v.0, v.1, cmd, e),
        ),
    }
}

/// The help rows below the group that the key path `keys` leads to in the
/// document `f`, defaults followed: `Err((0, ks))` for a scope failure at
/// `ks`, `Err((1, _))` where the path resolves to something other than a
/// group, `Err((2, _))` where it leads nowhere.
pub open spec fn help_for_keys(f: DsFile, keys: Seq<Seq<char>>, ctx: Context) -> Result<
    Seq<RowView>,
    (u8, Seq<Seq<char>>),
> {
    match lookup(f.group, keys) {
        None => Err((2u8, keys)),
        Some((c, anc)) => {
            let (d, ps) = defaulted(c, anc);
            let dk = default_path(c, keys);
            match d {
                Command::Group(g) => match walked(g.commands@, dk, ps.push(g), f.path@, ctx) {
                    Ok(vs) => Ok(walk_rows(vs, g, ps, dk.len() as int, f.path@)),
                    Err(ks) => Err((0u8, ks)),
                },
                _ => Err((1u8, keys)),
            }
        },
    }
}

/// A result of help rows agrees with an expected outcome.
pub open spec fn help_outcome(
    r: Result<Vec<HelpRow>, ResolveError>,
    o: Result<Seq<RowView>, (u8, Seq<Seq<char>>)>,
) -> bool {
    match o {
        Ok(rows) => r matches Ok(v) && rows_of(v@) == rows,
        Err((0u8, ks)) => r matches Err(ResolveError::Scope { keys: k }) && strs(k@) == ks,
        Err((1u8, _)) => r matches Err(ResolveError::NotAGroup),
        Err(_) => r matches Err(ResolveError::NoCommand { .. }),
    }
}

/// A node reached by a key path has one ancestor per segment.
pub proof fn lemma_lookup_depth(g: Group, keys: Seq<Seq<char>>)
    ensures
        lookup(g, keys) matches Some((c, anc)) ==> anc.len() == keys.len(),
    decreases keys.len(),
{
    lemma_lookup_in_depth(g.commands@, keys);
}

proof fn lemma_lookup_in_depth(entries: Seq<(String, Command)>, keys: Seq<Seq<char>>)
    ensures
        lookup_in(entries, keys) matches Some((c, anc)) ==> anc.len() + 1 == keys.len(),
    decreases keys.len(),
{
    if keys.len() > 1 {
        let i = find_key(entries, keys[0]);
        if 0 <= i < entries.len() {
            if let Command::Group(sub) = entries[i].1 {
                lemma_lookup_in_depth(sub.commands@, keys.drop_first());
            }
        }
    }
}

/// The key path `k` without its first `n` segments.
pub open spec fn rel_keys(k: Seq<Seq<char>>, n: int) -> Seq<Seq<char>> {
    if 0 <= n <= k.len() {
        k.skip(n)
    } else {
        Seq::empty()
    }
}

/// A node's rows come one per merged environment, by ascending environment
/// name.
pub proof fn lemma_rows_by_env_name(
    c: Command,
    anc: Seq<Group>,
    file: Seq<char>,
    v: (Seq<Seq<char>>, Seq<Seq<Seq<char>>>),
)
    ensures
        names_ascending(c.merged_envs(anc)),
        c.command_string() is Some && c.merged_envs(anc).len() > 0 ==> node_rows(c, anc, file, v).len()
            == c.merged_envs(anc).len() && forall|k: int|
            0 <= k < c.merged_envs(anc).len() ==> (#[trigger] node_rows(c, anc, file, v)[k]).5
                == env_labels(c.merged_envs(anc), c.nearest_default_env(anc))[k],
{
    lemma_merge_all_ascending(env_sources(c.spec_envs(), anc));
}

/// The rows of a walk below the group `g`, reached by a key path of length
/// `n` with ancestors `parents`: each visited node is looked up from `g` by
/// the rest of its key path.
pub open spec fn walk_rows(
    visits: Seq<(Seq<Seq<char>>, Seq<Seq<Seq<char>>>)>,
    g: Group,
    parents: Seq<Group>,
    n: int,
    file: Seq<char>,
) -> Seq<RowView>
    decreases visits.len(),
{
    if visits.len() == 0 {
        Seq::empty()
    } else {
        let v = visits.last();
        walk_rows(visits.drop_last(), g, parents, n, file) + match lookup(g, rel_keys(v.0, n)) {
            Some((c, anc)) => node_rows(c, parents + anc, file, v),
            None => Seq::empty(),
        }
    }
}

/// Copies of a list of levels.
fn copy_levels(v: &Vec<Vec<String>>) -> (r: Vec<Vec<String>>)
    ensures
        levels_of(r@) == levels_of(v@),
{
    let mut r: Vec<Vec<String>> = Vec::new();
    let mut i: usize = 0;
    while i < v.len()
        invariant
            i <= v@.len(),
            levels_of(r@) == levels_of(v@.subrange(0, i as int)),
        decreases v@.len() - i,
    {
        let ghost before = r@;
        let l = copy_strs(v[i].as_slice());
        r.push(l);
        assert(levels_of(r@) =~= levels_of(before).push(strs(v@[i as int]@)));
        assert(levels_of(v@.subrange(0, i + 1)) =~= levels_of(v@.subrange(0, i as int)).push(
            strs(v@[i as int]@),
        ));
        i += 1;
    }
    assert(v@.subrange(0, v@.len() as int) =~= v@);
    r
}

/// The rows of one node.
fn rows_for_node(
    c: &Command,
    full: &Vec<&Group>,
    file_path: &str,
    keys: &Vec<String>,
    alias_keys: &Vec<Vec<String>>,
    rows: &mut Vec<HelpRow>,
)
    ensures
        rows_of(final(rows)@) == rows_of(old(rows)@) + node_rows(
            *c,
            groups(full@),
            file_path@,
            (strs(keys@), levels_of(alias_keys@)),
        ),
{
    let ghost v = (strs(keys@), levels_of(alias_keys@));
    let ghost start = rows_of(rows@);
    match c.command() {
        None => {
            assert(rows_of(rows@) =~= start + Seq::<RowView>::empty());
        },
        Some(command) => {
            let (envs, default_env) = c.resolve_envs(full.as_slice());
            let ghost m = envs_of(envs@);
            let ghost d = c.nearest_default_env(groups(full@));
            let ghost labels = env_labels(m, d);
            if envs.len() == 0 {
                rows.push(
                    HelpRow::new(
                        String::from_str(file_path),
                        copy_strs(keys.as_slice()),
                        copy_levels(alias_keys),
                        command,
                        None,
                    ),
                );
                assert(rows_of(rows@) =~= start + node_rows(*c, groups(full@), file_path@, v));
            } else {
                let mut i: usize = 0;
                assert(rows_of(rows@) =~= start + labels.subrange(0, 0).map_values(
                    |e: Option<Seq<char>>| ("ds"@, file_path@, v.0, v.1, command@, e),
                ));
                while i < envs.len()
                    invariant
                        i <= envs@.len(),
                        m == envs_of(envs@),
                        m.len() > 0,
                        v == (strs(keys@), levels_of(alias_keys@)),
                        labels == env_labels(m, d),
                        match default_env {
                            Some(s) => d == Some(s@),
                            None => d is None,
                        },
                        rows_of(rows@) == start + labels.subrange(0, i as int).map_values(
                            |e: Option<Seq<char>>| ("ds"@, file_path@, v.0, v.1, command@, e),
                        ),
                    decreases envs@.len() - i,
                {
                    let name = envs[i].0;
                    let is_default = match default_env {
                        Some(dn) => crate::dir::same_str(dn.as_str(), name.as_str()),
                        None => false,
                    };
                    let label = if is_default {
                        proof {
                            reveal_strlit("(");
                            reveal_strlit(")");
                        }
                        let mut t = String::from_str("(");
                        t.append(name.as_str());
                        t.append(")");
                        assert(t@ =~= seq!['('] + name@ + seq![')']);
                        t
                    } else {
                        name.clone()
                    };
                    assert(m[i as int].0 == name@);
                    assert(labels[i as int] == Some(label@));
                    let ghost before = rows_of(rows@);
                    let ghost lv = label@;
                    let row = HelpRow::new(
                        String::from_str(file_path),
                        copy_strs(keys.as_slice()),
                        copy_levels(alias_keys),
                        command.clone(),
                        Some(label),
                    );
                    assert(row@ == ("ds"@, file_path@, v.0, v.1, command@, Some(lv)));
                    rows.push(row);
                    assert(rows_of(rows@) =~= before.push(
                        ("ds"@, file_path@, v.0, v.1, command@, Some(lv)),
                    ));
                    assert(labels.subrange(0, i + 1) =~= labels.subrange(0, i as int).push(Some(lv)));
                    assert(rows_of(rows@) =~= start + labels.subrange(0, i + 1).map_values(
                        |e: Option<Seq<char>>| ("ds"@, file_path@, v.0, v.1, command@, e),
                    ));
                    i += 1;
                }
                assert(labels.subrange(0, envs@.len() as int) =~= labels);
            }
        },
    }
}

/// `a` followed by `b`.
fn concat_groups<'a>(a: &[&'a Group], b: Vec<&'a Group>) -> (r: Vec<&'a Group>)
    ensures
        groups(r@) == groups(a@) + groups(b@),
{
    let mut r: Vec<&'a Group> = Vec::new();
    let mut i: usize = 0;
    while i < a.len()
        invariant
            i <= a@.len(),
            r@ == a@.subrange(0, i as int),
        decreases a@.len() - i,
    {
        r.push(a[i]);
        assert(r@ =~= a@.subrange(0, i + 1));
        i += 1;
    }
    assert(a@.subrange(0, a@.len() as int) =~= a@);
    let ghost ra = r@;
    let mut b = b;
    let ghost bb = b@;
    r.append(&mut b);
    assert(groups(r@) =~= groups(ra) + groups(bb));
    r
}

impl Group {
    /// The help rows of the group's tree below the key path `keys` and the
    /// ancestors `parents`: for each node visited by the walk that runs a
    /// command, one row per environment available to it by ascending name
    /// (the default one in parentheses; see `lemma_rows_by_env_name`), or a
    /// single row where there are none.
    pub fn get_help_rows<'a>(
        &'a self,
        keys: &mut Vec<String>,
        parents: &mut Vec<&'a Group>,
        file_path: &str,
        ctx: &Context,
    ) -> (r: Result<Vec<HelpRow>, ResolveError>)
        requires
            old(parents)@.len() == old(keys)@.len(),
        ensures
            final(keys)@ == old(keys)@,
            final(parents)@ == old(parents)@,
            match walked(
                self.commands@,
                strs(old(keys)@),
                groups(old(parents)@).push(*self),
                file_path@,
                *ctx,
            ) {
                Ok(vs) => r matches Ok(rows) && rows_of(rows@) == walk_rows(
                    vs,
                    *self,
                    groups(old(parents)@),
                    old(keys)@.len() as int,
                    file_path@,
                ),
                Err(ks) => r matches Err(ResolveError::Scope { keys: k }) && strs(k@) == ks,
            },
    {
        let n = keys.len();
        let visits = self.walk_tree(keys, parents, file_path, ctx)?;
        let ghost vs = visits_of(visits@);
        let ghost ps = groups(parents@);
        let mut rows: Vec<HelpRow> = Vec::new();
        let mut i: usize = 0;
        assert(rows_of(rows@) =~= walk_rows(vs.subrange(0, 0), *self, ps, n as int, file_path@));
        while i < visits.len()
            invariant
                i <= visits@.len(),
                vs == visits_of(visits@),
                ps == groups(parents@),
                n == keys@.len(),
                rows_of(rows@) == walk_rows(vs.subrange(0, i as int), *self, ps, n as int, file_path@),
            decreases visits@.len() - i,
        {
            let v = &visits[i];
            let ghost sub = vs.subrange(0, i + 1);
            assert(sub.drop_last() =~= vs.subrange(0, i as int));
            assert(sub.last() == v@);
            let rel = if n <= v.keys.len() {
                &v.keys.as_slice()[n..v.keys.len()]
            } else {
                &v.keys.as_slice()[0..0]
            };
            assert(strs(rel@) =~= rel_keys(strs(v.keys@), n as int));
            match self.find_path(rel) {
                None => {
                    assert(rows_of(rows@) =~= walk_rows(sub, *self, ps, n as int, file_path@));
                },
                Some((c, anc)) => {
                    let full = concat_groups(parents.as_slice(), anc);
                    rows_for_node(c, &full, file_path, &v.keys, &v.alias_keys, &mut rows);
                },
            }
            i += 1;
        }
        assert(vs.subrange(0, vs.len() as int) =~= vs);
        Ok(rows)
    }
}

/// A document's rows, with the heading they are shown under.
#[derive(Debug)]
pub struct HelpGroup {
    pub name: String,
    pub description: String,
    /// Text the picker searches for the document.
    pub search: String,
    pub rows: Vec<HelpRow>,
}

impl DsFile {
    /// The help rows below the group a match names, defaults followed.
    /// Fails where the match names no node, or a node that does not resolve
    /// to a group.
    pub fn help_rows_for_match(&self, m: &Match, ctx: &Context) -> (r: Result<
        Vec<HelpRow>,
        ResolveError,
    >)
        ensures
            help_outcome(r, help_for_keys(*self, strs(m.keys@), *ctx)),
    {
        match self.group.find_path(m.keys.as_slice()) {
            None => Err(ResolveError::NoCommand { keys: copy_strs(m.keys.as_slice()) }),
            Some((c, mut parents)) => {
                let mut keys = copy_strs(m.keys.as_slice());
                proof {
                    lemma_lookup_depth(self.group, strs(m.keys@));
                    lemma_default_path_len(*c, strs(keys@), groups(parents@));
                }
                let target = c.resolve_default_with_keys(&mut parents, &mut keys);
                match target {
                    Command::Group(g) => g.get_help_rows(&mut keys, &mut parents, self.path.as_str(), ctx),
                    _ => Err(ResolveError::NotAGroup),
                }
            },
        }
    }

    /// The help rows of the whole document.
    pub fn help_rows(&self, ctx: &Context) -> (r: Result<Vec<HelpRow>, ResolveError>)
        ensures
            match walked(self.group.commands@, Seq::empty(), seq![self.group], self.path@, *ctx) {
                Ok(vs) => r matches Ok(rows) && rows_of(rows@) == walk_rows(
                    vs,
                    self.group,
                    Seq::empty(),
                    0,
                    self.path@,
                ),
                Err(ks) => r matches Err(ResolveError::Scope { keys: k }) && strs(k@) == ks,
            },
    {
        let mut keys: Vec<String> = Vec::new();
        let mut parents: Vec<&Group> = Vec::new();
        assert(strs(keys@) =~= Seq::<Seq<char>>::empty());
        assert(groups(parents@) =~= Seq::<Group>::empty());
        assert(groups(parents@).push(self.group) =~= seq![self.group]);
        self.group.get_help_rows(&mut keys, &mut parents, self.path.as_str(), ctx)
    }

    /// The heading of the document's rows: its name, else its file name; its
    /// description, else its displayed path.
    pub fn help_group(&self, rows: Vec<HelpRow>) -> (r: HelpGroup)
        ensures
            r.name@ == match self.group.name {
                Some(n) => n@,
                None => self.file_name@,
            },
            r.description@ == match self.group.description {
                Some(d) => d@,
                None => self.path_string@,
            },
            r.search@ == self.path_string@,
            r.rows == rows,
    {
        let name = match &self.group.name {
            Some(n) => n.clone(),
            None => self.file_name.clone(),
        };
        let description = match &self.group.description {
            Some(d) => d.clone(),
            None => self.path_string.clone(),
        };
        HelpGroup { name, description, search: self.path_string.clone(), rows }
    }
}

} // verus!
