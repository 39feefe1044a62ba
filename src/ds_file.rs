use vstd::prelude::*;

use crate::command::{copy_strs, groups, levels_of, strs, Command};
use crate::dir::{lemma_name_lt_irreflexive, name_lt, collapse_to_tilde, file_name, file_name_of, opt_view, tilde_collapsed, Context};
use crate::error::ResolveError;
use crate::group::{
    defaulted, find_key, lemma_find_key, lemma_find_key_push, visits_of, walked, wf_entries, Group,
    Visit,
};

verus! {

/// Number of leading tokens of `target` that are accepted by the level at
/// the same position, stopping at the first that is not.
pub open spec fn score(levels: Seq<Seq<Seq<char>>>, target: Seq<Seq<char>>) -> nat
    decreases target.len(),
{
    if target.len() == 0 || levels.len() == 0 || !levels[0].contains(target[0]) {
        0
    } else {
        1 + score(levels.drop_first(), target.drop_first())
    }
}

/// Whether a node with these levels is a candidate for `target`. In exact
/// mode every level of the node must be consumed; in nested mode a prefix is
/// enough. A score of zero is never a match.
pub open spec fn qualifies(
    levels: Seq<Seq<Seq<char>>>,
    target: Seq<Seq<char>>,
    include_nested: bool,
) -> bool {
    score(levels, target) > 0 && (include_nested || score(levels, target) == levels.len())
}

/// A candidate: the key path of a node and its score.
pub type Candidate = (Seq<Seq<char>>, nat);

/// The nodes of a walk that qualify for `target`, with their scores, in walk
/// order.
pub open spec fn candidates(
    visits: Seq<(Seq<Seq<char>>, Seq<Seq<Seq<char>>>)>,
    target: Seq<Seq<char>>,
    include_nested: bool,
) -> Seq<Candidate>
    decreases visits.len(),
{
    if visits.len() == 0 {
        Seq::empty()
    } else {
        let prev = candidates(visits.drop_last(), target, include_nested);
        let v = visits.last();
        if qualifies(v.1, target, include_nested) {
            prev.push((v.0, score(v.1, target)))
        } else {
            prev
        }
    }
}

/// The highest score among candidates; zero when there are none.
pub open spec fn max_score(c: Seq<Candidate>) -> nat
    decreases c.len(),
{
    if c.len() == 0 {
        0
    } else {
        let m = max_score(c.drop_last());
        if c.last().1 > m {
            c.last().1
        } else {
            m
        }
    }
}

/// The candidates with score `m`, in order.
pub open spec fn with_score(c: Seq<Candidate>, m: nat) -> Seq<Candidate>
    decreases c.len(),
{
    if c.len() == 0 {
        Seq::empty()
    } else {
        let prev = with_score(c.drop_last(), m);
        if c.last().1 == m {
            prev.push(c.last())
        } else {
            prev
        }
    }
}

/// The matches of a document's tree for `target`: of the qualifying nodes
/// that the walk reaches, those of maximum score, in walk order. A scope
/// failure aborts with the key path of its node.
pub open spec fn matched(
    g: Group,
    target: Seq<Seq<char>>,
    include_nested: bool,
    file: Seq<char>,
    ctx: Context,
) -> Result<Seq<Candidate>, Seq<Seq<char>>> {
    match walked(g.commands@, Seq::empty(), seq![g], file, ctx) {
        Err(e) => Err(e),
        Ok(vs) => {
            let c = candidates(vs, target, include_nested);
            Ok(with_score(c, max_score(c)))
        },
    }
}

/// The node reached from `entries` (the commands of some group) by the key
/// path `keys`, one segment at a time, with the groups passed through below
/// that group.
pub open spec fn lookup_in(entries: Seq<(String, Command)>, keys: Seq<Seq<char>>) -> Option<
    (Command, Seq<Group>),
>
    decreases keys.len(),
{
    if keys.len() == 0 {
        None
    } else {
        let i = find_key(entries, keys[0]);
        if i < 0 || i >= entries.len() {
            None
        } else if keys.len() == 1 {
            Some((entries[i].1, Seq::empty()))
        } else {
            match entries[i].1 {
                Command::Group(sub) => match lookup_in(sub.commands@, keys.drop_first()) {
                    Some((c, a)) => Some((c, seq![sub] + a)),
                    None => None,
                },
                _ => None,
            }
        }
    }
}

/// The node reached from the group `g` by the key path `keys`, with its
/// ancestors from `g` down to its parent.
pub open spec fn lookup(g: Group, keys: Seq<Seq<char>>) -> Option<(Command, Seq<Group>)> {
    match lookup_in(g.commands@, keys) {
        Some((c, a)) => Some((c, seq![g] + a)),
        None => None,
    }
}

/// `o` with `p` put in front of its ancestors.
pub open spec fn prepend(p: Seq<Group>, o: Option<(Command, Seq<Group>)>) -> Option<
    (Command, Seq<Group>),
> {
    match o {
        Some((c, a)) => Some((c, p + a)),
        None => None,
    }
}

/// A loaded document: its root group, with where it came from.
#[derive(Debug)]
pub struct DsFile {
    pub group: Group,
    /// The last component of the document's path.
    pub file_name: String,
    /// The document's path.
    pub path: String,
    /// The document's path for display, with the home directory shortened.
    pub path_string: String,
}

impl DsFile {
    /// A document loaded from `path`, whose group is a well-formed map (keys
    /// unique and ascending at every level; see `Group::is_well_formed`).
    /// A group without a name is named after
    /// the file; one without a description is described by the displayed
    /// path, the home directory written `~`.
    pub fn from_group(group: Group, path: String, home: Option<&str>) -> (r: DsFile)
        requires
            group.wf(),
        ensures
            r.group.wf(),
            r.path == path,
            r.file_name@ == file_name_of(path@),
            r.path_string@ == tilde_collapsed(
                path@,
                match home {
                    Some(h) => Some(h@),
                    None => None,
                },
            ),
            r.group.commands == group.commands,
            r.group.default == group.default,
            r.group.envs == group.envs,
            r.group.default_env == group.default_env,
            r.group.root == group.root,
            r.group.mode == group.mode,
            r.group.aliases == group.aliases,
            opt_view(r.group.name) == Some(
                match group.name {
                    Some(n) => n@,
                    None => file_name_of(path@),
                },
            ),
            opt_view(r.group.description) == Some(
                match group.description {
                    Some(d) => d@,
                    None => r.path_string@,
                },
            ),
    {
        let file_name = file_name(path.as_str());
        let path_string = collapse_to_tilde(path.as_str(), home);
        let mut group = group;
        if group.name.is_none() {
            group.name = Some(file_name.clone());
        }
        if group.description.is_none() {
            group.description = Some(path_string.clone());
        }
        DsFile { group, file_name, path, path_string }
    }

    /// The command at the key path `keys` (defaults followed) with its
    /// ancestors from the document root down. Fails where a segment names no
    /// entry, or names a command that is not a group while segments remain.
    pub fn command_from_keys(&self, keys: &[String]) -> (r: Result<
        (&Command, Vec<&Group>),
        ResolveError,
    >)
        ensures
            match lookup(self.group, strs(keys@)) {
                Some((c, anc)) => r matches Ok((rc, ps)) && (*rc, groups(ps@)) == defaulted(
                    c,
                    anc,
                ),
                None => r matches Err(ResolveError::NoCommand { keys: k }) && strs(k@) == strs(
                    keys@,
                ),
            },
    {
        match self.group.find_path(keys) {
            None => Err(ResolveError::NoCommand { keys: copy_strs(keys) }),
            Some((c, mut parents)) => {
                let r = c.resolve_default(&mut parents);
                Ok((r, parents))
            },
        }
    }

    /// The matches of the document for `target` in exact mode: the nodes of
    /// maximum score whose every level is consumed, in walk order.
    pub fn matches(&self, target: &[String], ctx: &Context) -> (r: Result<Vec<Match>, ResolveError>)
        ensures
            match matched(self.group, strs(target@), false, self.path@, *ctx) {
                Ok(ms) => r matches Ok(v) && matches_of(v@) == ms && all_from(v@, self.path@),
                Err(ks) => r matches Err(ResolveError::Scope { keys: k }) && strs(k@) == ks,
            },
    {
        self.group.get_matches(target, false, self.path.as_str(), ctx)
    }
}

/// A score never exceeds the number of tokens.
pub proof fn lemma_score_bound(levels: Seq<Seq<Seq<char>>>, target: Seq<Seq<char>>)
    ensures
        score(levels, target) <= target.len(),
        score(levels, target) <= levels.len(),
    decreases target.len(),
{
    if target.len() > 0 && levels.len() > 0 && levels[0].contains(target[0]) {
        lemma_score_bound(levels.drop_first(), target.drop_first());
    }
}

/// Every candidate consumes at most the tokens there are.
pub proof fn lemma_candidates_bound(
    visits: Seq<(Seq<Seq<char>>, Seq<Seq<Seq<char>>>)>,
    target: Seq<Seq<char>>,
    include_nested: bool,
)
    ensures
        forall|k: int|
            0 <= k < candidates(visits, target, include_nested).len() ==> (#[trigger] candidates(
                visits,
                target,
                include_nested,
            )[k]).1 <= target.len(),
    decreases visits.len(),
{
    if visits.len() > 0 {
        lemma_candidates_bound(visits.drop_last(), target, include_nested);
        lemma_score_bound(visits.last().1, target);
        let c = candidates(visits, target, include_nested);
        let p = candidates(visits.drop_last(), target, include_nested);
        assert forall|k: int| 0 <= k < c.len() implies (#[trigger] c[k]).1 <= target.len() by {
            if k < p.len() {
                assert(c[k] == p[k]);
            }
        }
    }
}

/// Keeping the candidates of one score keeps a subset of them.
pub proof fn lemma_with_score_subset(c: Seq<Candidate>, m: nat)
    ensures
        forall|k: int|
            0 <= k < with_score(c, m).len() ==> exists|j: int|
                0 <= j < c.len() && #[trigger] with_score(c, m)[k] == c[j],
    decreases c.len(),
{
    if c.len() > 0 {
        lemma_with_score_subset(c.drop_last(), m);
        let w = with_score(c, m);
        let p = with_score(c.drop_last(), m);
        assert forall|k: int| 0 <= k < w.len() implies exists|j: int|
            0 <= j < c.len() && #[trigger] w[k] == c[j] by {
            if k < p.len() {
                let j = choose|j: int| 0 <= j < c.drop_last().len() && p[k] == c.drop_last()[j];
                assert(w[k] == c[j]);
            } else {
                assert(w[k] == c[c.len() - 1]);
            }
        }
    }
}

/// Every match of a document consumes at most the tokens there are.
pub proof fn lemma_matched_bound(
    g: Group,
    target: Seq<Seq<char>>,
    include_nested: bool,
    file: Seq<char>,
    ctx: Context,
)
    ensures
        matched(g, target, include_nested, file, ctx) matches Ok(ms) ==> forall|k: int|
            0 <= k < ms.len() ==> (#[trigger] ms[k]).1 <= target.len(),
{
    if let Ok(vs) = walked(g.commands@, Seq::empty(), seq![g], file, ctx) {
        let c = candidates(vs, target, include_nested);
        lemma_candidates_bound(vs, target, include_nested);
        lemma_with_score_subset(c, max_score(c));
    }
}

/// Tokens accepted alike by a node's levels: at each position within the
/// levels the two tokens are equal, or the level there accepts both or
/// neither (as a key and its alias, or two aliases, are).
pub open spec fn alike(
    levels: Seq<Seq<Seq<char>>>,
    t1: Seq<Seq<char>>,
    t2: Seq<Seq<char>>,
) -> bool {
    &&& t1.len() == t2.len()
    &&& forall|i: int|
        0 <= i < t1.len() ==> i >= levels.len() || t1[i] == t2[i] || (levels[i].contains(t1[i])
            <==> levels[i].contains(#[trigger] t2[i]))
}

/// Naming a level by its key or by any of its aliases makes no difference:
/// the score, whether the node qualifies, and so the match (whose key path
/// is the node's literal path) are the same.
pub proof fn lemma_alias_equivalent(
    levels: Seq<Seq<Seq<char>>>,
    t1: Seq<Seq<char>>,
    t2: Seq<Seq<char>>,
    include_nested: bool,
)
    requires
        alike(levels, t1, t2),
    ensures
        score(levels, t1) == score(levels, t2),
        qualifies(levels, t1, include_nested) == qualifies(levels, t2, include_nested),
    decreases t1.len(),
{
    if t1.len() > 0 && levels.len() > 0 {
        assert(t1[0] == t2[0] || (levels[0].contains(t1[0]) <==> levels[0].contains(t2[0])));
        assert(alike(levels.drop_first(), t1.drop_first(), t2.drop_first())) by {
            assert forall|i: int| 0 <= i < t1.drop_first().len() implies i >= levels.drop_first().len()
                || t1.drop_first()[i] == t2.drop_first()[i] || (levels.drop_first()[i].contains(
                t1.drop_first()[i],
            ) <==> levels.drop_first()[i].contains(#[trigger] t2.drop_first()[i])) by {
                assert(t1.drop_first()[i] == t1[i + 1]);
                assert(t2.drop_first()[i] == t2[i + 1]);
            }
        }
        lemma_alias_equivalent(levels.drop_first(), t1.drop_first(), t2.drop_first(), include_nested);
    }
}

/// Candidates agree for targets that every visited node accepts alike.
proof fn lemma_candidates_alike(
    visits: Seq<(Seq<Seq<char>>, Seq<Seq<Seq<char>>>)>,
    t1: Seq<Seq<char>>,
    t2: Seq<Seq<char>>,
    include_nested: bool,
)
    requires
        forall|k: int| 0 <= k < visits.len() ==> alike((#[trigger] visits[k]).1, t1, t2),
    ensures
        candidates(visits, t1, include_nested) == candidates(visits, t2, include_nested),
    decreases visits.len(),
{
    if visits.len() > 0 {
        assert forall|k: int| 0 <= k < visits.drop_last().len() implies alike(
            (#[trigger] visits.drop_last()[k]).1,
            t1,
            t2,
        ) by {
            assert(visits.drop_last()[k] == visits[k]);
        }
        lemma_candidates_alike(visits.drop_last(), t1, t2, include_nested);
        assert(alike(visits[visits.len() - 1].1, t1, t2));
        lemma_alias_equivalent(visits.last().1, t1, t2, include_nested);
    }
}

/// Across a whole document: two targets that every node reached by the walk
/// accepts alike (say, one naming a command by its key and the other by an
/// alias that no other node at that level accepts) give the same matches,
/// with the same canonical key paths and scores.
pub proof fn lemma_alias_equivalent_document(
    g: Group,
    t1: Seq<Seq<char>>,
    t2: Seq<Seq<char>>,
    include_nested: bool,
    file: Seq<char>,
    ctx: Context,
)
    requires
        walked(g.commands@, Seq::empty(), seq![g], file, ctx) matches Ok(vs) ==> forall|k: int|
            0 <= k < vs.len() ==> alike((#[trigger] vs[k]).1, t1, t2),
    ensures
        matched(g, t1, include_nested, file, ctx) == matched(g, t2, include_nested, file, ctx),
{
    if let Ok(vs) = walked(g.commands@, Seq::empty(), seq![g], file, ctx) {
        lemma_candidates_alike(vs, t1, t2, include_nested);
    }
}

/// A qualifying visit gives a candidate.
proof fn lemma_candidate_of_visit(
    visits: Seq<(Seq<Seq<char>>, Seq<Seq<Seq<char>>>)>,
    target: Seq<Seq<char>>,
    include_nested: bool,
    l: int,
)
    requires
        0 <= l < visits.len(),
        qualifies(visits[l].1, target, include_nested),
    ensures
        exists|k: int|
            0 <= k < candidates(visits, target, include_nested).len() && #[trigger] candidates(
                visits,
                target,
                include_nested,
            )[k] == (visits[l].0, score(visits[l].1, target)),
    decreases visits.len(),
{
    let c = candidates(visits, target, include_nested);
    if l == visits.len() - 1 {
        assert(visits.last() == visits[l]);
        assert(c[c.len() - 1] == (visits[l].0, score(visits[l].1, target)));
    } else {
        let p = candidates(visits.drop_last(), target, include_nested);
        assert(visits.drop_last()[l] == visits[l]);
        lemma_candidate_of_visit(visits.drop_last(), target, include_nested, l);
        let k = choose|k: int| 0 <= k < p.len() && #[trigger] p[k] == (visits[l].0, score(visits[l].1, target));
        assert(c[k] == p[k]);
    }
}

/// The highest score is at least every score, and at most any common bound.
proof fn lemma_max_score(c: Seq<Candidate>, b: nat)
    ensures
        forall|k: int| 0 <= k < c.len() ==> (#[trigger] c[k]).1 <= max_score(c),
        (forall|k: int| 0 <= k < c.len() ==> (#[trigger] c[k]).1 <= b) ==> max_score(c) <= b,
    decreases c.len(),
{
    if c.len() > 0 {
        lemma_max_score(c.drop_last(), b);
        assert forall|k: int| 0 <= k < c.len() implies (#[trigger] c[k]).1 <= max_score(c) by {
            if k < c.len() - 1 {
                assert(c[k] == c.drop_last()[k]);
            }
        }
        if forall|k: int| 0 <= k < c.len() ==> (#[trigger] c[k]).1 <= b {
            assert forall|k: int| 0 <= k < c.drop_last().len() implies (#[trigger] c.drop_last()[k]).1
                <= b by {
                assert(c.drop_last()[k] == c[k]);
            }
            assert(c[c.len() - 1].1 <= b);
        }
    }
}

/// Keeping the candidates of one score keeps each of them that has it.
proof fn lemma_with_score_keeps(c: Seq<Candidate>, m: nat, k: int)
    requires
        0 <= k < c.len(),
        c[k].1 == m,
    ensures
        exists|j: int| 0 <= j < with_score(c, m).len() && #[trigger] with_score(c, m)[j] == c[k],
    decreases c.len(),
{
    let w = with_score(c, m);
    if k == c.len() - 1 {
        assert(w[w.len() - 1] == c[k]);
    } else {
        let p = with_score(c.drop_last(), m);
        assert(c.drop_last()[k] == c[k]);
        lemma_with_score_keeps(c.drop_last(), m, k);
        let j = choose|j: int| 0 <= j < p.len() && #[trigger] p[j] == c[k];
        assert(w[j] == p[j]);
    }
}

/// A node whose levels take every token of the target is among the
/// document's matches, under its canonical key path: a command named by its
/// full path, with keys or aliases, is found.
pub proof fn lemma_full_match_found(
    g: Group,
    target: Seq<Seq<char>>,
    include_nested: bool,
    file: Seq<char>,
    ctx: Context,
    l: int,
)
    requires
        walked(g.commands@, Seq::empty(), seq![g], file, ctx) matches Ok(vs) && 0 <= l < vs.len()
            && qualifies(vs[l].1, target, include_nested) && score(vs[l].1, target)
            == target.len(),
    ensures
        matched(g, target, include_nested, file, ctx) is Ok,
        exists|k: int|
            0 <= k < matched(g, target, include_nested, file, ctx)->Ok_0.len()
                && #[trigger] matched(g, target, include_nested, file, ctx)->Ok_0[k] == (
                walked(g.commands@, Seq::empty(), seq![g], file, ctx)->Ok_0[l].0,
                target.len(),
            ),
{
    let vs = walked(g.commands@, Seq::empty(), seq![g], file, ctx)->Ok_0;
    let c = candidates(vs, target, include_nested);
    lemma_candidate_of_visit(vs, target, include_nested, l);
    let k = choose|k: int| 0 <= k < c.len() && #[trigger] c[k] == (vs[l].0, score(vs[l].1, target));
    lemma_candidates_bound(vs, target, include_nested);
    lemma_max_score(c, target.len());
    assert(max_score(c) == target.len());
    lemma_with_score_keeps(c, max_score(c), k);
    let w = with_score(c, max_score(c));
    let j = choose|j: int| 0 <= j < w.len() && #[trigger] w[j] == c[k];
    assert(matched(g, target, include_nested, file, ctx) == Ok::<
        Seq<Candidate>,
        Seq<Seq<char>>,
    >(w));
    assert(w[j] == (vs[l].0, target.len()));
    assert(matched(g, target, include_nested, file, ctx)->Ok_0 == w);
    assert(0 <= j < matched(g, target, include_nested, file, ctx)->Ok_0.len()
        && matched(g, target, include_nested, file, ctx)->Ok_0[j] == (
        walked(g.commands@, Seq::empty(), seq![g], file, ctx)->Ok_0[l].0,
        target.len(),
    ));
}

/// What a walk below `entries` reached by `keys` with ancestors `parents`
/// guarantees of a visit: its key path extends `keys`, and the rest of it
/// leads from `entries`, one segment at a time, to a node whose levels are
/// the visit's.
pub open spec fn visit_found(
    entries: Seq<(String, Command)>,
    keys: Seq<Seq<char>>,
    parents: Seq<Group>,
    v: (Seq<Seq<char>>, Seq<Seq<Seq<char>>>),
) -> bool {
    &&& keys.len() < v.0.len()
    &&& v.0.subrange(0, keys.len() as int) == keys
    &&& lookup_in(entries, v.0.skip(keys.len() as int)) matches Some((c, anc)) && c.alias_levels(
        v.0,
        parents + anc,
    ) == v.1
}

/// Appending an entry with a new key keeps every lookup that succeeded.
proof fn lemma_lookup_in_push(
    entries: Seq<(String, Command)>,
    e: (String, Command),
    keys: Seq<Seq<char>>,
)
    requires
        lookup_in(entries, keys) is Some,
    ensures
        lookup_in(entries.push(e), keys) == lookup_in(entries, keys),
{
    lemma_find_key_push(entries, e, keys[0]);
    assert(entries.push(e)[find_key(entries, keys[0])] == entries[find_key(entries, keys[0])]);
}

/// Every node a walk visits is found again, step-wise, by its key path.
proof fn lemma_walked_found(
    entries: Seq<(String, Command)>,
    keys: Seq<Seq<char>>,
    parents: Seq<Group>,
    file: Seq<char>,
    ctx: Context,
)
    requires
        wf_entries(entries),
    ensures
        walked(entries, keys, parents, file, ctx) matches Ok(vs) ==> forall|k: int|
            0 <= k < vs.len() ==> visit_found(entries, keys, parents, #[trigger] vs[k]),
    decreases entries,
{
    if entries.len() > 0 {
        let pre = entries.drop_last();
        let e = entries[entries.len() - 1];
        assert(pre.push(e) =~= entries);
        lemma_walked_found(pre, keys, parents, file, ctx);
        if let Ok(prev) = walked(pre, keys, parents, file, ctx) {
            let ks = keys.push(e.0@);
            assert(ks.subrange(0, keys.len() as int) =~= keys);
            assert(ks.skip(keys.len() as int) =~= seq![e.0@]);
            assert forall|j: int| 0 <= j < entries.len() - 1 implies (#[trigger] entries[j]).0@
                != e.0@ by {
                assert(name_lt(entries[j].0@, e.0@));
                if entries[j].0@ == e.0@ {
                    lemma_name_lt_irreflexive(e.0@);
                }
            }
            lemma_find_key(entries, e.0@, entries.len() - 1);
            assert forall|k: int| 0 <= k < prev.len() implies visit_found(
                entries,
                keys,
                parents,
                #[trigger] prev[k],
            ) by {
                let v = prev[k];
                assert(visit_found(pre, keys, parents, v));
                lemma_lookup_in_push(pre, e, v.0.skip(keys.len() as int));
            }
            if let Some(true) = e.1.in_scope(file, ctx) {
                let v = (ks, e.1.alias_levels(ks, parents));
                assert(parents + Seq::<Group>::empty() =~= parents);
                assert(visit_found(entries, keys, parents, v));
                if let Command::Group(g) = e.1 {
                    assert(decreases_to!(entries => e));
                    lemma_walked_found(g.commands@, ks, parents.push(g), file, ctx);
                    if let Ok(sub) = walked(g.commands@, ks, parents.push(g), file, ctx) {
                        assert forall|k: int| 0 <= k < sub.len() implies visit_found(
                            entries,
                            keys,
                            parents,
                            #[trigger] sub[k],
                        ) by {
                            let w = sub[k];
                            assert(visit_found(g.commands@, ks, parents.push(g), w));
                            let rest = w.0.skip(ks.len() as int);
                            let full = w.0.skip(keys.len() as int);
                            assert(w.0.subrange(0, keys.len() as int) =~= keys) by {
                                assert(w.0.subrange(0, ks.len() as int) == ks);
                                assert(w.0.subrange(0, keys.len() as int) =~= w.0.subrange(
                                    0,
                                    ks.len() as int,
                                ).subrange(0, keys.len() as int));
                            }
                            assert(full[0] == e.0@) by {
                                assert(w.0[keys.len() as int] == ks[keys.len() as int]);
                            }
                            assert(full.drop_first() =~= rest);
                            let (c, anc) = lookup_in(g.commands@, rest)->0;
                            assert(lookup_in(entries, full) == Some((c, seq![g] + anc)));
                            assert(parents + (seq![g] + anc) =~= parents.push(g) + anc);
                        }
                        let all = prev.push(v) + sub;
                        assert forall|k: int| 0 <= k < all.len() implies visit_found(
                            entries,
                            keys,
                            parents,
                            #[trigger] all[k],
                        ) by {
                            if k < prev.len() {
                                assert(all[k] == prev[k]);
                            } else if k == prev.len() {
                                assert(all[k] == v);
                            } else {
                                assert(all[k] == sub[k - prev.len() - 1]);
                            }
                        }
                    }
                } else {
                    let all = prev.push(v);
                    assert forall|k: int| 0 <= k < all.len() implies visit_found(
                        entries,
                        keys,
                        parents,
                        #[trigger] all[k],
                    ) by {
                        if k < prev.len() {
                            assert(all[k] == prev[k]);
                        }
                    }
                }
            }
        }
    }
}

/// The index of the visit each candidate comes from.
pub open spec fn candidate_sources(
    visits: Seq<(Seq<Seq<char>>, Seq<Seq<Seq<char>>>)>,
    target: Seq<Seq<char>>,
    include_nested: bool,
) -> Seq<int>
    decreases visits.len(),
{
    if visits.len() == 0 {
        Seq::empty()
    } else {
        let prev = candidate_sources(visits.drop_last(), target, include_nested);
        if qualifies(visits.last().1, target, include_nested) {
            prev.push(visits.len() - 1)
        } else {
            prev
        }
    }
}

/// Every candidate comes from a qualifying visit.
proof fn lemma_candidates_from(
    visits: Seq<(Seq<Seq<char>>, Seq<Seq<Seq<char>>>)>,
    target: Seq<Seq<char>>,
    include_nested: bool,
)
    ensures
        candidate_sources(visits, target, include_nested).len() == candidates(
            visits,
            target,
            include_nested,
        ).len(),
        forall|k: int|
            #![trigger candidate_sources(visits, target, include_nested)[k]]
            0 <= k < candidates(visits, target, include_nested).len() ==> {
                let j = candidate_sources(visits, target, include_nested)[k];
                &&& 0 <= j < visits.len()
                &&& candidates(visits, target, include_nested)[k] == (
                    visits[j].0,
                    score(visits[j].1, target),
                )
                &&& qualifies(visits[j].1, target, include_nested)
            },
    decreases visits.len(),
{
    if visits.len() > 0 {
        lemma_candidates_from(visits.drop_last(), target, include_nested);
        let c = candidates(visits, target, include_nested);
        let p = candidates(visits.drop_last(), target, include_nested);
        let src = candidate_sources(visits, target, include_nested);
        let ps = candidate_sources(visits.drop_last(), target, include_nested);
        assert forall|k: int| #![trigger src[k]] 0 <= k < c.len() implies {
            let j = src[k];
            &&& 0 <= j < visits.len()
            &&& c[k] == (visits[j].0, score(visits[j].1, target))
            &&& qualifies(visits[j].1, target, include_nested)
        } by {
            if k < p.len() {
                assert(c[k] == p[k]);
                assert(src[k] == ps[k]);
                assert(0 <= ps[k] < visits.drop_last().len());
                assert(visits.drop_last()[ps[k]] == visits[ps[k]]);
            } else {
                assert(src[k] == visits.len() - 1);
            }
        }
    } else {
        assert(candidates(visits, target, include_nested).len() == 0);
    }
}

/// Step-wise resolution agrees with bulk matching: in a well-formed
/// document, the key path of every match, resolved one segment at a time from
/// the root, reaches a node whose levels score exactly that match's score for
/// the target, so the node reached is the node that was matched. The score
/// never exceeds the number of tokens, and in exact mode it is the number of
/// levels of that node: no node deeper than the tokens given matches.
pub proof fn lemma_match_resolves_stepwise(
    g: Group,
    target: Seq<Seq<char>>,
    include_nested: bool,
    file: Seq<char>,
    ctx: Context,
)
    requires
        g.wf(),
    ensures
        matched(g, target, include_nested, file, ctx) matches Ok(ms) ==> forall|k: int|
            0 <= k < ms.len() ==> (lookup(g, (#[trigger] ms[k]).0) matches Some((c, anc)) && score(
                c.alias_levels(ms[k].0, anc),
                target,
            ) == ms[k].1 && ms[k].1 <= target.len() && (!include_nested ==> ms[k].1
                == c.alias_levels(ms[k].0, anc).len())),
{
    lemma_walked_found(g.commands@, Seq::empty(), seq![g], file, ctx);
    if let Ok(vs) = walked(g.commands@, Seq::empty(), seq![g], file, ctx) {
        let c = candidates(vs, target, include_nested);
        lemma_candidates_from(vs, target, include_nested);
        lemma_with_score_subset(c, max_score(c));
        let ms = with_score(c, max_score(c));
        assert forall|k: int| 0 <= k < ms.len() implies (lookup(g, (#[trigger] ms[k]).0) matches Some(
            (cm, anc),
        ) && score(cm.alias_levels(ms[k].0, anc), target) == ms[k].1 && ms[k].1 <= target.len() && (
        !include_nested ==> ms[k].1 == cm.alias_levels(ms[k].0, anc).len())) by {
            let j = choose|j: int| 0 <= j < c.len() && ms[k] == c[j];
            let l = candidate_sources(vs, target, include_nested)[j];
            assert(c[j] == (vs[l].0, score(vs[l].1, target)));
            let v = vs[l];
            lemma_score_bound(v.1, target);
            assert(visit_found(g.commands@, Seq::empty(), seq![g], v));
            assert(v.0.skip(0) =~= v.0);
        }
    }
}

/// A match of a node against a target.
#[derive(Debug)]
pub struct Match {
    /// The document the node was found in.
    pub file_path: String,
    /// Number of target tokens consumed.
    pub score: usize,
    /// The literal key path from the root to the node.
    pub keys: Vec<String>,
}

/// Whether a level accepts a token.
fn level_accepts(level: &Vec<String>, token: &String) -> (r: bool)
    ensures
        r == strs(level@).contains(token@),
{
    let mut i: usize = 0;
    while i < level.len()
        invariant
            i <= level@.len(),
            forall|j: int| 0 <= j < i ==> level@[j]@ != token@,
        decreases level@.len() - i,
    {
        if level[i] == *token {
            assert(strs(level@)[i as int] == token@);
            return true;
        }
        i += 1;
    }
    assert(forall|j: int| 0 <= j < strs(level@).len() ==> strs(level@)[j] != token@);
    false
}

/// Score of a node's levels against a target, in exact or nested mode: the
/// number of tokens consumed where the node qualifies, else zero.
pub fn get_match_score(command_keys: &[Vec<String>], matches: &[String], include_nested: bool) -> (r:
    usize)
    ensures
        r == (if qualifies(levels_of(command_keys@), strs(matches@), include_nested) {
            score(levels_of(command_keys@), strs(matches@))
        } else {
            0
        }),
        r <= matches@.len(),
        r <= command_keys@.len(),
{
    let ghost ls = levels_of(command_keys@);
    let ghost ts = strs(matches@);
    let mut i: usize = 0;
    assert(ls.skip(0) =~= ls);
    assert(ts.skip(0) =~= ts);
    while i < matches.len() && i < command_keys.len() && level_accepts(&command_keys[i], &matches[i])
        invariant
            i <= matches@.len(),
            i <= command_keys@.len(),
            ls == levels_of(command_keys@),
            ts == strs(matches@),
            score(ls, ts) == i + score(ls.skip(i as int), ts.skip(i as int)),
        decreases matches@.len() - i,
    {
        assert(ls.skip(i as int).drop_first() =~= ls.skip(i + 1));
        assert(ts.skip(i as int).drop_first() =~= ts.skip(i + 1));
        i += 1;
    }
    assert(score(ls.skip(i as int), ts.skip(i as int)) == 0);
    if !include_nested && i < command_keys.len() {
        0
    } else {
        i
    }
}

impl View for Match {
    type V = Candidate;

    open spec fn view(&self) -> Candidate {
        (strs(self.keys@), self.score as nat)
    }
}

/// The views of a sequence of matches.
pub open spec fn matches_of(v: Seq<Match>) -> Seq<Candidate> {
    v.map_values(|m: Match| m@)
}

/// Whether every match of `v` names the document `file`.
pub open spec fn all_from(v: Seq<Match>, file: Seq<char>) -> bool {
    forall|i: int| 0 <= i < v.len() ==> (#[trigger] v[i]).file_path@ == file
}

/// Keep the matches of maximum score, in order.
fn keep_best(found: Vec<Match>) -> (r: Vec<Match>)
    ensures
        matches_of(r@) == with_score(matches_of(found@), max_score(matches_of(found@))),
        forall|f: Seq<char>| all_from(found@, f) ==> all_from(r@, f),
{
    let ghost c = matches_of(found@);
    let mut best: usize = 0;
    let mut i: usize = 0;
    while i < found.len()
        invariant
            i <= found@.len(),
            c == matches_of(found@),
            best as nat == max_score(c.subrange(0, i as int)),
        decreases found@.len() - i,
    {
        assert(c.subrange(0, i + 1).drop_last() =~= c.subrange(0, i as int));
        if found[i].score > best {
            best = found[i].score;
        }
        i += 1;
    }
    assert(c.subrange(0, c.len() as int) =~= c);
    let mut kept: Vec<Match> = Vec::new();
    let mut j: usize = 0;
    assert(matches_of(kept@) =~= with_score(c.subrange(0, 0), best as nat));
    while j < found.len()
        invariant
            j <= found@.len(),
            c == matches_of(found@),
            matches_of(kept@) == with_score(c.subrange(0, j as int), best as nat),
            forall|f: Seq<char>| all_from(found@, f) ==> all_from(kept@, f),
        decreases found@.len() - j,
    {
        let m = &found[j];
        assert(c.subrange(0, j + 1).drop_last() =~= c.subrange(0, j as int));
        if m.score == best {
            let ghost before = kept@;
            kept.push(Match { file_path: m.file_path.clone(), score: m.score, keys: copy_strs(m.keys.as_slice()) });
            assert(matches_of(kept@) =~= matches_of(before).push(c[j as int]));
            assert forall|f: Seq<char>| all_from(found@, f) implies all_from(kept@, f) by {
                if all_from(found@, f) {
                    assert(found@[j as int].file_path@ == f);
                    assert(all_from(before, f));
                }
            }
        }
        j += 1;
    }
    assert(c.subrange(0, c.len() as int) =~= c);
    kept
}

impl Group {
    /// The node at the key path `keys`, one segment at a time, with its
    /// ancestors from this group down to its parent.
    pub fn find_path(&self, keys: &[String]) -> (r: Option<(&Command, Vec<&Group>)>)
        ensures
            match lookup(*self, strs(keys@)) {
                Some((c, anc)) => r matches Some((rc, ps)) && *rc == c && groups(ps@) == anc,
                None => r is None,
            },
    {
        let ghost ks = strs(keys@);
        if keys.len() == 0 {
            return None;
        }
        let mut cur: &Group = self;
        let mut parents: Vec<&Group> = Vec::new();
        let mut i: usize = 0;
        assert(ks.skip(0) =~= ks);
        assert(groups(parents@) + seq![*self] =~= seq![*self]);
        loop
            invariant
                i < keys@.len(),
                ks == strs(keys@),
                lookup(*self, ks) == prepend(groups(parents@), lookup(*cur, ks.skip(i as int))),
            decreases keys@.len() - i,
        {
            let ghost rest = ks.skip(i as int);
            match cur.get(&keys[i]) {
                None => {
                    return None;
                },
                Some(c) => {
                    let ghost before = groups(parents@);
                    parents.push(cur);
                    assert(groups(parents@) =~= before.push(*cur));
                    if i + 1 == keys.len() {
                        assert(groups(parents@) =~= before + seq![*cur]);
                        return Some((c, parents));
                    }
                    match c {
                        Command::Group(sub) => {
                            assert(rest.drop_first() =~= ks.skip(i + 1));
                            assert(before + (seq![*cur] + seq![*sub]) =~= groups(parents@) + seq![
                                *sub,
                            ]);
                            assert(lookup(*self, ks) == prepend(
                                groups(parents@),
                                lookup(*sub, ks.skip(i + 1)),
                            )) by {
                                match lookup_in(sub.commands@, rest.drop_first()) {
                                    Some((c2, a)) => {
                                        assert(before + (seq![*cur] + (seq![*sub] + a))
                                            =~= groups(parents@) + (seq![*sub] + a));
                                    },
                                    None => {},
                                }
                            }
                            cur = sub;
                            i += 1;
                        },
                        _ => {
                            return None;
                        },
                    }
                },
            }
        }
    }

    /// The matches of the group's tree (as a document root) for `target`, in
    /// exact or nested mode: the qualifying nodes of maximum score, in walk
    /// order. A scope failure aborts with a scope error.
    pub fn get_matches(
        &self,
        target: &[String],
        include_nested: bool,
        file_path: &str,
        ctx: &Context,
    ) -> (r: Result<Vec<Match>, ResolveError>)
        ensures
            match matched(*self, strs(target@), include_nested, file_path@, *ctx) {
                Ok(ms) => r matches Ok(v) && matches_of(v@) == ms && all_from(v@, file_path@),
                Err(ks) => r matches Err(ResolveError::Scope { keys: k }) && strs(k@) == ks,
            },
    {
        let visits = match self.walk_commands(file_path, ctx) {
            Ok(v) => v,
            Err(e) => return Err(e),
        };
        let ghost vs = visits_of(visits@);
        let ghost ts = strs(target@);
        let mut found: Vec<Match> = Vec::new();
        let mut i: usize = 0;
        assert(matches_of(found@) =~= candidates(vs.subrange(0, 0), ts, include_nested));
        while i < visits.len()
            invariant
                i <= visits@.len(),
                vs == visits_of(visits@),
                ts == strs(target@),
                matches_of(found@) == candidates(vs.subrange(0, i as int), ts, include_nested),
                all_from(found@, file_path@),
            decreases visits@.len() - i,
        {
            let v = &visits[i];
            assert(vs.subrange(0, i + 1).drop_last() =~= vs.subrange(0, i as int));
            assert(vs[i as int] == v@);
            let s = get_match_score(v.alias_keys.as_slice(), target, include_nested);
            if s > 0 {
                let ghost before = found@;
                found.push(Match { file_path: String::from_str(file_path), score: s, keys: copy_strs(v.keys.as_slice()) });
                assert(matches_of(found@) =~= matches_of(before).push(found@.last()@));
            }
            i += 1;
        }
        assert(vs.subrange(0, vs.len() as int) =~= vs);
        Ok(keep_best(found))
    }
}

impl Match {
    /// Match a node, given its key path and the accepted names of each level,
    /// against a target in exact mode: `None` unless every level is consumed
    /// by the leading tokens and at least one token is.
    pub fn from_command(
        file_path: String,
        keys: &[String],
        alias_keys: &[Vec<String>],
        target: &[String],
    ) -> (r: Option<Match>)
        ensures
            match r {
                Some(m) => {
                    &&& qualifies(levels_of(alias_keys@), strs(target@), false)
                    &&& m.score == score(levels_of(alias_keys@), strs(target@))
                    &&& m.score == alias_keys@.len()
                    &&& m.score <= target@.len()
                    &&& strs(m.keys@) == strs(keys@)
                    &&& m.file_path == file_path
                },
                None => !qualifies(levels_of(alias_keys@), strs(target@), false),
            },
    {
        let score = get_match_score(alias_keys, target, false);
        if score == 0 {
            return None;
        }
        let mut copied: Vec<String> = Vec::new();
        let mut i: usize = 0;
        while i < keys.len()
            invariant
                i <= keys@.len(),
                strs(copied@) == strs(keys@.subrange(0, i as int)),
            decreases keys@.len() - i,
        {
            let ghost before = copied@;
            copied.push(keys[i].clone());
            assert(strs(copied@) =~= strs(before).push(keys@[i as int]@));
            assert(strs(keys@.subrange(0, i + 1)) =~= strs(keys@.subrange(0, i as int)).push(
                keys@[i as int]@,
            ));
            i += 1;
        }
        assert(keys@.subrange(0, keys@.len() as int) =~= keys@);
        Some(Match { file_path, score, keys: copied })
    }
}

} // verus!
