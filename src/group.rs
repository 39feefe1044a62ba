use vstd::prelude::*;

use crate::command::{copy_strs, groups, levels_of, strs, Command, RootConfig};
use crate::dir::{name_less, name_lt, Context};
use crate::env::Env;
use crate::error::ResolveError;

verus! {

/// Controls a tree walk after a node has been visited.
#[derive(Debug, Clone, Copy, PartialEq, Eq, Structural)]
pub enum Walk {
    /// Go on, and descend into the node if it is a group.
    Continue,
    /// Do not descend into the node; go on with its siblings.
    Skip,
    /// Abort the whole walk.
    Stop,
}

/// Whether a group's own name is a level of the paths below it.
///
/// A flattened group lets its commands be reached without naming the group.
#[derive(Debug, Clone, Copy, PartialEq, Eq, Structural)]
pub enum GroupMode {
    Namespaced,
    Flattened,
}

/// A group of commands that share configuration. A document holds one.
#[derive(Debug)]
pub struct Group {
    /// Optional name, used in help output.
    pub name: Option<String>,
    /// Optional longer description, used in help output.
    pub description: Option<String>,
    /// Key of the command run when the group is the target; without one the
    /// group shows help.
    pub default: Option<String>,
    /// The commands and sub-groups, by unique key.
    pub commands: Vec<(String, Command)>,
    /// Environments selectable for the commands of the group.
    pub envs: Option<Vec<(String, Env)>>,
    /// Environment used when no token names one.
    pub default_env: Option<String>,
    /// Where the group's commands run from, and its scope.
    pub root: Option<RootConfig>,
    /// Namespaced (the default) or flattened.
    pub mode: Option<GroupMode>,
    /// Alternate names of the group at its parent's level.
    pub aliases: Option<Vec<String>>,
}

/// A node reached by a walk: its key path and the accepted names of each
/// level of that path.
#[derive(Debug)]
pub struct Visit {
    pub keys: Vec<String>,
    pub alias_keys: Vec<Vec<String>>,
}

impl View for Visit {
    type V = (Seq<Seq<char>>, Seq<Seq<Seq<char>>>);

    open spec fn view(&self) -> Self::V {
        (strs(self.keys@), levels_of(self.alias_keys@))
    }
}

/// The views of a sequence of visits.
pub open spec fn visits_of(v: Seq<Visit>) -> Seq<(Seq<Seq<char>>, Seq<Seq<Seq<char>>>)> {
    v.map_values(|x: Visit| x@)
}

/// The pre-order walk of `entries`, the commands of the last group of
/// `parents`, reached by the key path `keys`. A node out of scope is left out
/// with everything below it; a node whose scope cannot be decided aborts the
/// walk with its key path.
pub open spec fn walked(
    entries: Seq<(String, Command)>,
    keys: Seq<Seq<char>>,
    parents: Seq<Group>,
    file: Seq<char>,
    ctx: Context,
) -> Result<Seq<(Seq<Seq<char>>, Seq<Seq<Seq<char>>>)>, Seq<Seq<char>>>
    decreases entries,
{
    if entries.len() == 0 {
        Ok(Seq::empty())
    } else {
        match walked(entries.drop_last(), keys, parents, file, ctx) {
            Err(e) => Err(e),
            Ok(prev) => {
                let entry = entries[entries.len() - 1];
                let ks = keys.push(entry.0@);
                match entry.1.in_scope(file, ctx) {
                    None => Err(ks),
                    Some(false) => Ok(prev),
                    Some(true) => {
                        let v = (ks, entry.1.alias_levels(ks, parents));
                        match entry.1 {
                            Command::Group(g) => {
                                proof {
                                    assert(decreases_to!(entries => entry));
                                    assert(decreases_to!(g => g.commands@));
                                }
                                match walked(g.commands@, ks, parents.push(g), file, ctx) {
                                    Err(e) => Err(e),
                                    Ok(sub) => Ok(prev.push(v) + sub),
                                }
                            },
                            _ => Ok(prev.push(v)),
                        }
                    },
                }
            },
        }
    }
}

/// A command with its default followed: a group whose default names an entry
/// resolves to that entry (itself resolved), with the group pushed onto the
/// ancestors; anything else resolves to itself.
pub open spec fn defaulted(c: Command, anc: Seq<Group>) -> (Command, Seq<Group>)
    decreases c,
{
    match c {
        Command::Group(g) => match g.default {
            Some(d) => {
                let i = find_key(g.commands@, d@);
                if 0 <= i < g.commands@.len() {
                    proof {
                        assert(decreases_to!(g => g.commands));
                        assert(decreases_to!(g.commands => g.commands@));
                        assert(decreases_to!(g.commands@ => g.commands@[i]));
                    }
                    defaulted(g.commands@[i].1, anc.push(g))
                } else {
                    (c, anc)
                }
            },
            None => (c, anc),
        },
        _ => (c, anc),
    }
}

/// The key path of `c`'s default target: `keys` followed by the default key
/// of each group that `defaulted` passes through.
pub open spec fn default_path(c: Command, keys: Seq<Seq<char>>) -> Seq<Seq<char>>
    decreases c,
{
    match c {
        Command::Group(g) => match g.default {
            Some(d) => {
                let i = find_key(g.commands@, d@);
                if 0 <= i < g.commands@.len() {
                    proof {
                        assert(decreases_to!(g => g.commands));
                        assert(decreases_to!(g.commands => g.commands@));
                        assert(decreases_to!(g.commands@ => g.commands@[i]));
                    }
                    default_path(g.commands@[i].1, keys.push(d@))
                } else {
                    keys
                }
            },
            None => keys,
        },
        _ => keys,
    }
}

/// Following defaults adds as many segments to the key path as groups to
/// the ancestors.
pub proof fn lemma_default_path_len(c: Command, keys: Seq<Seq<char>>, anc: Seq<Group>)
    ensures
        default_path(c, keys).len() - keys.len() == defaulted(c, anc).1.len() - anc.len(),
    decreases c,
{
    if let Command::Group(g) = c {
        if let Some(d) = g.default {
            let i = find_key(g.commands@, d@);
            if 0 <= i < g.commands@.len() {
                assert(decreases_to!(g => g.commands));
                assert(decreases_to!(g.commands => g.commands@));
                assert(decreases_to!(g.commands@ => g.commands@[i]));
                lemma_default_path_len(g.commands@[i].1, keys.push(d@), anc.push(g));
            }
        }
    }
}

/// Following defaults does not look at the ancestors already there: they
/// stay in front of those it adds.
pub proof fn lemma_defaulted_prefix(c: Command, p: Seq<Group>, q: Seq<Group>)
    ensures
        defaulted(c, p + q) == (defaulted(c, q).0, p + defaulted(c, q).1),
    decreases c,
{
    if let Command::Group(g) = c {
        if let Some(d) = g.default {
            let i = find_key(g.commands@, d@);
            if 0 <= i < g.commands@.len() {
                assert(decreases_to!(g => g.commands));
                assert(decreases_to!(g.commands => g.commands@));
                assert(decreases_to!(g.commands@ => g.commands@[i]));
                lemma_defaulted_prefix(g.commands@[i].1, p, q.push(g));
                assert((p + q).push(g) =~= p + q.push(g));
            }
        }
    }
}

/// A walk aborted within the first `n` entries is aborted, with the same key
/// path, for all of them.
proof fn lemma_walked_abort_extends(
    entries: Seq<(String, Command)>,
    n: int,
    keys: Seq<Seq<char>>,
    parents: Seq<Group>,
    file: Seq<char>,
    ctx: Context,
)
    requires
        0 <= n <= entries.len(),
        walked(entries.subrange(0, n), keys, parents, file, ctx) is Err,
    ensures
        walked(entries, keys, parents, file, ctx) == walked(
            entries.subrange(0, n),
            keys,
            parents,
            file,
            ctx,
        ),
    decreases entries.len() - n,
{
    if n == entries.len() {
        assert(entries.subrange(0, n) =~= entries);
    } else {
        let shorter = entries.drop_last();
        assert(shorter.subrange(0, n) =~= entries.subrange(0, n));
        lemma_walked_abort_extends(shorter, n, keys, parents, file, ctx);
    }
}

/// Index of the first entry with key `key`, or -1.
pub open spec fn find_key(entries: Seq<(String, Command)>, key: Seq<char>) -> int
    decreases entries.len(),
{
    if entries.len() == 0 {
        -1
    } else if entries[0].0@ == key {
        0
    } else {
        let r = find_key(entries.drop_first(), key);
        if r < 0 {
            -1
        } else {
            r + 1
        }
    }
}

/// `find_key` is the first index holding the key.
pub proof fn lemma_find_key(entries: Seq<(String, Command)>, key: Seq<char>, i: int)
    requires
        0 <= i <= entries.len(),
        forall|j: int| 0 <= j < i ==> (#[trigger] entries[j]).0@ != key,
        i == entries.len() || entries[i].0@ == key,
    ensures
        find_key(entries, key) == (if i == entries.len() {
            -1
        } else {
            i
        }),
    decreases entries.len(),
{
    if entries.len() > 0 && i > 0 {
        let rest = entries.drop_first();
        assert forall|j: int| 0 <= j < i - 1 implies (#[trigger] rest[j]).0@ != key by {
            assert(rest[j] == entries[j + 1]);
        }
        assert(entries[0].0@ != key);
        lemma_find_key(rest, key, i - 1);
    }
}

/// Well-formedness of a command map, as a map keyed by name: at every level
/// of the tree the keys are in strictly ascending order (so unique).
pub open spec fn wf_entries(entries: Seq<(String, Command)>) -> bool
    decreases entries,
{
    if entries.len() == 0 {
        true
    } else {
        let e = entries[entries.len() - 1];
        &&& wf_entries(entries.drop_last())
        &&& forall|j: int| 0 <= j < entries.len() - 1 ==> name_lt((#[trigger] entries[j]).0@, e.0@)
        &&& match e.1 {
            Command::Group(g) => {
                proof {
                    assert(decreases_to!(entries => e));
                    assert(decreases_to!(g => g.commands@));
                }
                wf_entries(g.commands@)
            },
            _ => true,
        }
    }
}

/// Every prefix of a well-formed map is well-formed.
pub proof fn lemma_wf_prefix(entries: Seq<(String, Command)>, n: int)
    requires
        0 <= n <= entries.len(),
        wf_entries(entries),
    ensures
        wf_entries(entries.subrange(0, n)),
    decreases entries.len() - n,
{
    if n == entries.len() {
        assert(entries.subrange(0, n) =~= entries);
    } else {
        let shorter = entries.drop_last();
        assert(shorter.subrange(0, n) =~= entries.subrange(0, n));
        lemma_wf_prefix(shorter, n);
    }
}

impl Group {
    /// Keys are unique and ascending within every group of the tree.
    pub open spec fn wf(self) -> bool {
        wf_entries(self.commands@)
    }

    /// Whether the keys are unique and ascending within every group of the
    /// tree.
    pub fn is_well_formed(&self) -> (r: bool)
        ensures
            r == self.wf(),
        decreases self,
    {
        let mut i: usize = 0;
        assert(self.commands@.subrange(0, 0) =~= Seq::<(String, Command)>::empty());
        while i < self.commands.len()
            invariant
                i <= self.commands@.len(),
                wf_entries(self.commands@.subrange(0, i as int)),
            decreases self.commands@.len() - i,
        {
            let ghost pre = self.commands@.subrange(0, i + 1);
            assert(pre.drop_last() =~= self.commands@.subrange(0, i as int));
            let key = &self.commands[i].0;
            let mut j: usize = 0;
            while j < i
                invariant
                    j <= i,
                    i < self.commands@.len(),
                    pre == self.commands@.subrange(0, i + 1),
                    *key == self.commands@[i as int].0,
                    forall|l: int| 0 <= l < j ==> name_lt((#[trigger] self.commands@[l]).0@, key@),
                decreases i - j,
            {
                if !name_less(self.commands[j].0.as_str(), key.as_str()) {
                    assert(pre[j as int] == self.commands@[j as int]);
                    assert(!name_lt(pre[j as int].0@, pre[pre.len() - 1].0@));
                    proof {
                        if wf_entries(self.commands@) {
                            lemma_wf_prefix(self.commands@, i + 1);
                        }
                    }
                    return false;
                }
                j += 1;
            }
            assert(forall|l: int| 0 <= l < pre.len() - 1 ==> name_lt((#[trigger] pre[l]).0@, pre[pre.len() - 1].0@)) by {
                assert forall|l: int| 0 <= l < pre.len() - 1 implies name_lt((#[trigger] pre[l]).0@, pre[pre.len() - 1].0@) by {
                    assert(pre[l] == self.commands@[l]);
                }
            }
            if let Command::Group(sub) = &self.commands[i].1 {
                proof {
                    assert(decreases_to!(*self => self.commands));
                    assert(decreases_to!(self.commands => self.commands@));
                    assert(decreases_to!(self.commands@ => self.commands@[i as int]));
                }
                if !sub.is_well_formed() {
                    proof {
                        if wf_entries(self.commands@) {
                            lemma_wf_prefix(self.commands@, i + 1);
                        }
                    }
                    return false;
                }
            }
            i += 1;
        }
        assert(self.commands@.subrange(0, self.commands@.len() as int) =~= self.commands@);
        true
    }
}

/// Appending an entry keeps the index of a key found before it.
pub proof fn lemma_find_key_push(entries: Seq<(String, Command)>, e: (String, Command), key: Seq<char>)
    requires
        0 <= find_key(entries, key),
    ensures
        find_key(entries.push(e), key) == find_key(entries, key),
        find_key(entries, key) < entries.len(),
    decreases entries.len(),
{
    if entries.len() > 0 && entries[0].0@ != key {
        assert(entries.push(e).drop_first() =~= entries.drop_first().push(e));
        lemma_find_key_push(entries.drop_first(), e, key);
    }
}

/// The walk signal for a node's scope decision.
pub fn scope_signal(in_scope: &Result<bool, ResolveError>) -> (r: Walk)
    ensures
        r == match in_scope {
            Err(_) => Walk::Stop,
            Ok(false) => Walk::Skip,
            Ok(true) => Walk::Continue,
        },
{
    match in_scope {
        Err(_) => Walk::Stop,
        Ok(false) => Walk::Skip,
        Ok(true) => Walk::Continue,
    }
}

impl Group {
    /// Whether the group's name is a level of the paths below it.
    pub open spec fn is_namespaced(self) -> bool {
        !(self.mode == Some(GroupMode::Flattened))
    }

    /// The entry with key `key`, if any.
    pub fn get(&self, key: &String) -> (r: Option<&Command>)
        ensures
            match r {
                Some(c) => {
                    let i = find_key(self.commands@, key@);
                    0 <= i < self.commands@.len() && *c == self.commands@[i].1
                },
                None => find_key(self.commands@, key@) == -1,
            },
    {
        let mut i: usize = 0;
        while i < self.commands.len()
            invariant
                i <= self.commands@.len(),
                forall|j: int| 0 <= j < i ==> (#[trigger] self.commands@[j]).0@ != key@,
            decreases self.commands@.len() - i,
        {
            if self.commands[i].0 == *key {
                proof {
                    lemma_find_key(self.commands@, key@, i as int);
                }
                return Some(&self.commands[i].1);
            }
            i += 1;
        }
        proof {
            lemma_find_key(self.commands@, key@, i as int);
        }
        None
    }

    /// Follow the group's default down to the command it runs: `None`,
    /// with `parents` unchanged, where the group has no default, a default
    /// key names no entry, or the chain ends at a group; otherwise that
    /// command, with this group and every group passed through pushed onto
    /// `parents`.
    pub fn get_default_command<'a>(&'a self, parents: &mut Vec<&'a Group>) -> (r: Option<
        &'a Command,
    >)
        ensures
            match defaulted(Command::Group(*self), groups(old(parents)@)) {
                (Command::Group(_), _) => r is None && final(parents)@ == old(parents)@,
                (c, ps) => r matches Some(rc) && *rc == c && groups(final(parents)@) == ps,
            },
    {
        let ghost old_ps = groups(parents@);
        match &self.default {
            None => None,
            Some(d) => match self.get(d) {
                None => None,
                Some(cmd) => {
                    let mut trail: Vec<&'a Group> = Vec::new();
                    trail.push(self);
                    assert(groups(trail@) =~= seq![*self]);
                    let r = cmd.resolve_default(&mut trail);
                    proof {
                        let i = find_key(self.commands@, d@);
                        lemma_defaulted_prefix(self.commands@[i].1, old_ps, seq![*self]);
                        assert(old_ps + seq![*self] =~= old_ps.push(*self));
                    }
                    if let Command::Group(_) = r {
                        return None;
                    }
                    let ghost before = parents@;
                    let ghost tr = trail@;
                    parents.append(&mut trail);
                    assert(groups(parents@) =~= groups(before) + groups(tr));
                    Some(r)
                },
            },
        }
    }

    /// Walk the group's commands in pre-order, below the key path `keys` and
    /// the ancestor groups `parents`; siblings are taken in the order of the
    /// map, ascending by key for a well-formed group. Each node's own root decides whether it
    /// is visited (and descended into), skipped with its subtree, or aborts
    /// the walk with a scope error naming its key path.
    pub fn walk_tree<'a>(
        &'a self,
        keys: &mut Vec<String>,
        parents: &mut Vec<&'a Group>,
        file_path: &str,
        ctx: &Context,
    ) -> (r: Result<Vec<Visit>, ResolveError>)
        requires
            old(parents)@.len() == old(keys)@.len(),
        ensures
            final(keys)@ == old(keys)@,
            final(parents)@ == old(parents)@,
            match walked(
                self.commands@,
                strs(old(keys)@),
                groups(old(parents)@).push(*self),
                file_path@,
                *ctx,
            ) {
                Ok(v) => r matches Ok(w) && visits_of(w@) == v,
                Err(ks) => r matches Err(ResolveError::Scope { keys: k }) && strs(k@) == ks,
            },
        decreases self,
    {
        let ghost ks0 = strs(keys@);
        let ghost ps = groups(parents@).push(*self);
        parents.push(self);
        assert(groups(parents@) =~= ps);
        let mut acc: Vec<Visit> = Vec::new();
        let mut i: usize = 0;
        assert(self.commands@.subrange(0, 0) =~= Seq::<(String, Command)>::empty());
        assert(visits_of(acc@) =~= Seq::empty());
        while i < self.commands.len()
            invariant
                i <= self.commands@.len(),
                strs(keys@) == ks0,
                groups(parents@) == ps,
                parents@.len() == keys@.len() + 1,
                parents@ == old(parents)@.push(self),
                keys@ == old(keys)@,
                walked(self.commands@.subrange(0, i as int), ks0, ps, file_path@, *ctx) == Ok::<
                    Seq<(Seq<Seq<char>>, Seq<Seq<Seq<char>>>)>,
                    Seq<Seq<char>>,
                >(visits_of(acc@)),
            decreases self.commands@.len() - i,
        {
            let ghost prefix = self.commands@.subrange(0, i + 1);
            assert(prefix.drop_last() =~= self.commands@.subrange(0, i as int));
            assert(prefix[prefix.len() - 1] == self.commands@[i as int]);
            let entry = &self.commands[i];
            let key = &entry.0;
            let cmd = &entry.1;
            keys.push(key.clone());
            let ghost ks = ks0.push(key@);
            assert(strs(keys@) =~= ks);
            let in_scope = cmd.is_in_scope(file_path, ctx);
            match scope_signal(&in_scope) {
                Walk::Stop => {
                    assert(cmd.in_scope(file_path@, *ctx) is None);
                    assert(walked(prefix, ks0, ps, file_path@, *ctx) == Err::<
                        Seq<(Seq<Seq<char>>, Seq<Seq<Seq<char>>>)>,
                        Seq<Seq<char>>,
                    >(ks));
                    let failed = copy_strs(keys.as_slice());
                    keys.pop();
                    parents.pop();
                    proof {
                        lemma_walked_abort_extends(
                            self.commands@,
                            i + 1,
                            ks0,
                            ps,
                            file_path@,
                            *ctx,
                        );
                    }
                    assert(keys@ =~= old(keys)@);
                    assert(parents@ =~= old(parents)@);
                    assert(ks0 == strs(old(keys)@));
                    assert(ps == groups(old(parents)@).push(*self));
                    assert(strs(failed@) == ks);
                    assert(walked(self.commands@, ks0, ps, file_path@, *ctx) == Err::<
                        Seq<(Seq<Seq<char>>, Seq<Seq<Seq<char>>>)>,
                        Seq<Seq<char>>,
                    >(ks));
                    return Err(ResolveError::Scope { keys: failed });
                },
                Walk::Skip => {
                    keys.pop();
                    assert(keys@ =~= old(keys)@);
                },
                Walk::Continue => {
                    let levels = cmd.resolve_aliases(keys.as_slice(), parents.as_slice());
                    let ghost before = acc@;
                    acc.push(Visit { keys: copy_strs(keys.as_slice()), alias_keys: levels });
                    assert(visits_of(acc@) =~= visits_of(before).push(acc@.last()@));
                    if let Command::Group(sub) = cmd {
                        proof {
                            assert(decreases_to!(*self => self.commands));
                            assert(decreases_to!(self.commands => self.commands@));
                            assert(decreases_to!(self.commands@ => self.commands@[i as int]));
                        }
                        let ghost mid = acc@;
                        assert(groups(parents@).push(*sub) == ps.push(*sub));
                        assert(strs(keys@) == ks);
                        let res = sub.walk_tree(keys, parents, file_path, ctx);
                        proof {
                            match walked(sub.commands@, ks, ps.push(*sub), file_path@, *ctx) {
                                Err(e) => {
                                    assert(walked(prefix, ks0, ps, file_path@, *ctx) == Err::<
                                        Seq<(Seq<Seq<char>>, Seq<Seq<Seq<char>>>)>,
                                        Seq<Seq<char>>,
                                    >(e));
                                },
                                Ok(_) => {},
                            }
                        }
                        match res {
                            Err(e) => {
                                keys.pop();
                                parents.pop();
                                proof {
                                    lemma_walked_abort_extends(
                                        self.commands@,
                                        i + 1,
                                        ks0,
                                        ps,
                                        file_path@,
                                        *ctx,
                                    );
                                }
                                assert(keys@ =~= old(keys)@);
                                assert(parents@ =~= old(parents)@);
                                assert(ks0 == strs(old(keys)@));
                                assert(ps == groups(old(parents)@).push(*self));
                                assert(walked(self.commands@, ks0, ps, file_path@, *ctx) is Err);
                                return Err(e);
                            },
                            Ok(mut v) => {
                                let ghost vv = v@;
                                acc.append(&mut v);
                                assert(visits_of(acc@) =~= visits_of(mid) + visits_of(vv));
                            },
                        }
                    }
                    keys.pop();
                    assert(keys@ =~= old(keys)@);
                },
            }
            i += 1;
        }
        assert(self.commands@.subrange(0, self.commands@.len() as int) =~= self.commands@);
        parents.pop();
        assert(parents@ =~= old(parents)@);
        Ok(acc)
    }

    /// Walk all commands of the group (the root of a document) in pre-order.
    pub fn walk_commands(&self, file_path: &str, ctx: &Context) -> (r: Result<
        Vec<Visit>,
        ResolveError,
    >)
        ensures
            match walked(self.commands@, Seq::empty(), seq![*self], file_path@, *ctx) {
                Ok(v) => r matches Ok(w) && visits_of(w@) == v,
                Err(ks) => r matches Err(ResolveError::Scope { keys: k }) && strs(k@) == ks,
            },
    {
        let mut keys: Vec<String> = Vec::new();
        let mut parents: Vec<&Group> = Vec::new();
        assert(strs(keys@) =~= Seq::<Seq<char>>::empty());
        assert(groups(parents@).push(*self) =~= seq![*self]);
        self.walk_tree(&mut keys, &mut parents, file_path, ctx)
    }
}

} // verus!
