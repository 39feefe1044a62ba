use vstd::prelude::*;

use crate::command::strs;
use crate::error::ResolveError;
use crate::help::{join_words, joined_with};

verus! {

/// The ambient state that resolution depends on, supplied by the caller.
#[derive(Debug, Clone)]
pub struct Context {
    /// The directory the resolution runs from; absolute.
    pub current_dir: String,
    /// The discovered repository root, if any.
    pub git_root: Option<String>,
    /// The home directory, if known.
    pub home: Option<String>,
}

/// The character sequence of an optional string.
pub open spec fn opt_view(o: Option<String>) -> Option<Seq<char>> {
    match o {
        Some(s) => Some(s@),
        None => None,
    }
}

/// Home-shorthand expansion: a leading `~` alone or followed by `/` becomes
/// the home directory, when it is known; anything else is left as it is.
pub open spec fn tilde_expanded(input: Seq<char>, home: Option<Seq<char>>) -> Seq<char> {
    if input.len() > 0 && input[0] == '~' && (input.len() == 1 || input[1] == '/')
        && home is Some {
        home->0 + input.drop_first()
    } else {
        input
    }
}

/// A `~` followed by a backslash, which some platforms read as a separator.
pub open spec fn tilde_backslash(input: Seq<char>) -> bool {
    input.len() >= 2 && input[0] == '~' && input[1] == '\\'
}

/// Relies on shellexpand::tilde_with_context: with the home directory given,
/// it replaces a leading `~` that stands alone or before `/` by that
/// directory, and returns the input unchanged otherwise.
#[verifier::external_body]
fn expand_tilde(input: &str, home: Option<&str>) -> (r: String)
    requires
        !tilde_backslash(input@),
    ensures
        r@ == tilde_expanded(
            input@,
            match home {
                Some(h) => Some(h@),
                None => None,
            },
        ),
{
    shellexpand::tilde_with_context(input, || home).into_owned()
}

/// Index of the last `/` of `s`, or -1.
pub open spec fn last_slash_index(s: Seq<char>) -> int
    decreases s.len(),
{
    if s.len() == 0 {
        -1
    } else if s.last() == '/' {
        s.len() - 1
    } else {
        last_slash_index(s.drop_last())
    }
}

/// The directory part of a file path: empty for a bare name, `/` for a file
/// at the root.
pub open spec fn parent_of(f: Seq<char>) -> Seq<char> {
    let i = last_slash_index(f);
    if i < 0 {
        Seq::empty()
    } else if i == 0 {
        seq!['/']
    } else {
        f.subrange(0, i)
    }
}

pub open spec fn is_absolute(p: Seq<char>) -> bool {
    p.len() > 0 && p[0] == '/'
}

/// `b` appended to the directory `a`, with one separator between them.
pub open spec fn joined(a: Seq<char>, b: Seq<char>) -> Seq<char> {
    if a.len() == 0 {
        b
    } else if a.last() == '/' {
        a + b
    } else {
        a + seq!['/'] + b
    }
}

/// `p` read relative to the directory of the file `f`; an absolute `p`
/// stands as it is.
pub open spec fn relative_to_file(f: Seq<char>, p: Seq<char>) -> Seq<char> {
    if is_absolute(p) {
        p
    } else {
        joined(parent_of(f), p)
    }
}

/// A configured path resolved to an absolute one: home shorthand expanded,
/// then read relative to the defining document, then to the current
/// directory, then normalised to its components. An empty path does not
/// resolve.
pub open spec fn resolved(
    input: Seq<char>,
    file: Seq<char>,
    cwd: Seq<char>,
    home: Option<Seq<char>>,
) -> Option<Seq<char>> {
    let e = if tilde_backslash(input) {
        input
    } else {
        tilde_expanded(input, home)
    };
    if e.len() == 0 {
        None
    } else {
        let p = relative_to_file(file, e);
        Some(
            normalized(
                if is_absolute(p) {
                    p
                } else {
                    joined(cwd, p)
                },
            ),
        )
    }
}

/// Whether a part between separators is a path component: not empty, and
/// not `.`.
pub open spec fn keep_part(part: Seq<char>) -> bool {
    part.len() > 0 && part != seq!['.']
}

/// Reading `p` left to right: the components completed so far, and the part
/// after the last separator.
pub open spec fn scan_parts(p: Seq<char>) -> (Seq<Seq<char>>, Seq<char>)
    decreases p.len(),
{
    if p.len() == 0 {
        (Seq::empty(), Seq::empty())
    } else {
        let (done, cur) = scan_parts(p.drop_last());
        if p.last() == '/' {
            (
                if keep_part(cur) {
                    done.push(cur)
                } else {
                    done
                },
                Seq::empty(),
            )
        } else {
            (done, cur.push(p.last()))
        }
    }
}

/// The components of a path: the parts between separators, without empty
/// ones and `.`; `..` is kept.
pub open spec fn components(p: Seq<char>) -> Seq<Seq<char>> {
    let (done, cur) = scan_parts(p);
    if keep_part(cur) {
        done.push(cur)
    } else {
        done
    }
}

/// A path as an absolute one made of its components: repeated and trailing
/// separators and `.` components are dropped.
pub open spec fn normalized(p: Seq<char>) -> Seq<char> {
    seq!['/'] + joined_with(components(p), '/')
}

fn is_component(p: &str, start: usize, end: usize) -> (r: bool)
    requires
        start <= end <= p@.len(),
    ensures
        r == keep_part(p@.subrange(start as int, end as int)),
{
    let ghost part = p@.subrange(start as int, end as int);
    if end == start {
        return false;
    }
    if end - start == 1 && p.get_char(start) == '.' {
        assert(part =~= seq!['.']);
        return false;
    }
    assert(part != seq!['.']) by {
        if part == seq!['.'] {
            assert(part.len() == 1 && part[0] == p@[start as int]);
        }
    }
    true
}

/// A path normalised to its components, as an absolute path.
pub fn normalize_path(p: &str) -> (r: String)
    ensures
        r@ == normalized(p@),
{
    let n = p.unicode_len();
    let mut done: Vec<String> = Vec::new();
    let mut start: usize = 0;
    let mut i: usize = 0;
    assert(p@.subrange(0, 0) =~= Seq::<char>::empty());
    assert(strs(done@) =~= Seq::<Seq<char>>::empty());
    while i < n
        invariant
            i <= n,
            n == p@.len(),
            start <= i,
            scan_parts(p@.subrange(0, i as int)) == (strs(done@), p@.subrange(start as int, i as int)),
        decreases n - i,
    {
        let ghost pre = p@.subrange(0, i + 1);
        assert(pre.drop_last() =~= p@.subrange(0, i as int));
        assert(pre.last() == p@[i as int]);
        if p.get_char(i) == '/' {
            if is_component(p, start, i) {
                let ghost before = done@;
                done.push(String::from_str(p.substring_char(start, i)));
                assert(strs(done@) =~= strs(before).push(p@.subrange(start as int, i as int)));
            }
            start = i + 1;
            assert(p@.subrange(start as int, i + 1) =~= Seq::<char>::empty());
        } else {
            assert(p@.subrange(start as int, i + 1) =~= p@.subrange(start as int, i as int).push(
                p@[i as int],
            ));
        }
        i += 1;
    }
    assert(p@.subrange(0, n as int) =~= p@);
    if is_component(p, start, n) {
        let ghost before = done@;
        done.push(String::from_str(p.substring_char(start, n)));
        assert(strs(done@) =~= strs(before).push(p@.subrange(start as int, n as int)));
    }
    proof {
        reveal_strlit("/");
    }
    let mut r = String::from_str("/");
    let rest = join_words(&done, "/");
    r.append(rest.as_str());
    assert(r@ =~= normalized(p@));
    r
}

fn last_slash(s: &str) -> (r: Option<usize>)
    ensures
        match r {
            Some(i) => i as int == last_slash_index(s@) && i < s@.len(),
            None => last_slash_index(s@) == -1,
        },
{
    let n = s.unicode_len();
    let mut i: usize = n;
    assert(s@.subrange(0, n as int) =~= s@);
    while i > 0
        invariant
            i <= n,
            n == s@.len(),
            last_slash_index(s@) == last_slash_index(s@.subrange(0, i as int)),
        decreases i,
    {
        let ghost sub = s@.subrange(0, i as int);
        assert(sub.drop_last() =~= s@.subrange(0, i - 1));
        if s.get_char(i - 1) == '/' {
            return Some(i - 1);
        }
        i -= 1;
    }
    None
}

/// Whether `s` begins with `p`.
pub fn has_prefix(s: &str, p: &str) -> (r: bool)
    ensures
        r == (p@.len() <= s@.len() && s@.subrange(0, p@.len() as int) == p@),
{
    let n = p.unicode_len();
    if n > s.unicode_len() {
        return false;
    }
    let mut i: usize = 0;
    while i < n
        invariant
            i <= n,
            n == p@.len(),
            n <= s@.len(),
            s@.subrange(0, i as int) == p@.subrange(0, i as int),
        decreases n - i,
    {
        if s.get_char(i) != p.get_char(i) {
            assert(s@.subrange(0, n as int)[i as int] != p@[i as int]);
            return false;
        }
        assert(s@.subrange(0, i + 1) =~= s@.subrange(0, i as int).push(s@[i as int]));
        assert(p@.subrange(0, i + 1) =~= p@.subrange(0, i as int).push(p@[i as int]));
        i += 1;
    }
    assert(p@.subrange(0, n as int) =~= p@);
    true
}

/// Whether the directory `dir` lies at or below `root`, component-wise.
pub open spec fn within(dir: Seq<char>, root: Seq<char>) -> bool {
    dir == root || (root.len() < dir.len() && dir.subrange(0, root.len() as int) == root && ((
    root.len() > 0 && root.last() == '/') || dir[root.len() as int] == '/'))
}

/// Whether `dir` lies at or below `root`.
pub fn is_within(dir: &str, root: &str) -> (r: bool)
    ensures
        r == within(dir@, root@),
{
    if same_str(dir, root) {
        return true;
    }
    let n = root.unicode_len();
    if n >= dir.unicode_len() || !has_prefix(dir, root) {
        return false;
    }
    (n > 0 && root.get_char(n - 1) == '/') || dir.get_char(n) == '/'
}

/// The rest of `path` below `root`, without a leading separator.
pub open spec fn below(path: Seq<char>, root: Seq<char>) -> Seq<char> {
    let after = path.skip(root.len() as int);
    if after.len() > 0 && after[0] == '/' {
        after.drop_first()
    } else {
        after
    }
}

/// A path for display: below the home directory it is written `~/` and the
/// rest; elsewhere it is left as it is.
pub open spec fn tilde_collapsed(path: Seq<char>, home: Option<Seq<char>>) -> Seq<char> {
    match home {
        Some(h) if within(path, h) => seq!['~', '/'] + below(path, h),
        _ => path,
    }
}

/// A path for display, with the home directory written `~`.
pub fn collapse_to_tilde(path: &str, home: Option<&str>) -> (r: String)
    ensures
        r@ == tilde_collapsed(
            path@,
            match home {
                Some(h) => Some(h@),
                None => None,
            },
        ),
{
    match home {
        Some(h) => {
            if is_within(path, h) {
                let n = h.unicode_len();
                let len = path.unicode_len();
                let start = if n < len && path.get_char(n) == '/' {
                    n + 1
                } else {
                    n
                };
                proof {
                    reveal_strlit("~/");
                    if path@ == h@ {
                        assert(path@.skip(n as int) =~= Seq::<char>::empty());
                    }
                }
                let mut r = String::from_str("~/");
                r.append(path.substring_char(start, len));
                assert(r@ =~= seq!['~', '/'] + below(path@, h@));
                r
            } else {
                String::from_str(path)
            }
        },
        None => String::from_str(path),
    }
}

/// The last component of a path.
pub open spec fn file_name_of(p: Seq<char>) -> Seq<char> {
    p.skip(last_slash_index(p) + 1)
}

/// The last component of a path.
pub fn file_name(path: &str) -> (r: String)
    ensures
        r@ == file_name_of(path@),
{
    let len = path.unicode_len();
    match last_slash(path) {
        Some(i) => String::from_str(path.substring_char(i + 1, len)),
        None => {
            assert(path@.skip(0) =~= path@);
            String::from_str(path)
        },
    }
}

/// The order of names: lexicographic by character code, a proper prefix
/// first. This is the order of `str`, since UTF-8 keeps code point order.
pub open spec fn name_lt(a: Seq<char>, b: Seq<char>) -> bool
    decreases a.len(),
{
    if a.len() == 0 {
        b.len() > 0
    } else if b.len() == 0 {
        false
    } else if a[0] != b[0] {
        a[0] < b[0]
    } else {
        name_lt(a.drop_first(), b.drop_first())
    }
}

/// No name comes before itself.
pub proof fn lemma_name_lt_irreflexive(a: Seq<char>)
    ensures
        !name_lt(a, a),
    decreases a.len(),
{
    if a.len() > 0 {
        lemma_name_lt_irreflexive(a.drop_first());
    }
}

/// The order of names is transitive.
pub proof fn lemma_name_lt_transitive(a: Seq<char>, b: Seq<char>, c: Seq<char>)
    requires
        name_lt(a, b),
        name_lt(b, c),
    ensures
        name_lt(a, c),
    decreases a.len(),
{
    if a.len() > 0 && b.len() > 0 && c.len() > 0 && a[0] == b[0] && b[0] == c[0] {
        lemma_name_lt_transitive(a.drop_first(), b.drop_first(), c.drop_first());
    }
}

/// Two different names are ordered one way or the other, and not both.
pub proof fn lemma_name_lt_total(a: Seq<char>, b: Seq<char>)
    ensures
        a != b ==> name_lt(a, b) || name_lt(b, a),
        !(name_lt(a, b) && name_lt(b, a)),
    decreases a.len(),
{
    if a.len() > 0 && b.len() > 0 && a[0] == b[0] {
        lemma_name_lt_total(a.drop_first(), b.drop_first());
        if a != b {
            assert(a =~= seq![a[0]] + a.drop_first());
            assert(b =~= seq![b[0]] + b.drop_first());
        }
    } else if a.len() == 0 && b.len() == 0 {
        assert(a =~= b);
    }
}

/// Whether `a` comes before `b` in the order of names.
pub fn name_less(a: &str, b: &str) -> (r: bool)
    ensures
        r == name_lt(a@, b@),
{
    let n = a.unicode_len();
    let m = b.unicode_len();
    let mut i: usize = 0;
    assert(a@.skip(0) =~= a@);
    assert(b@.skip(0) =~= b@);
    while i < n && i < m
        invariant
            i <= n,
            i <= m,
            n == a@.len(),
            m == b@.len(),
            name_lt(a@, b@) == name_lt(a@.skip(i as int), b@.skip(i as int)),
        decreases n - i,
    {
        let ca = a.get_char(i);
        let cb = b.get_char(i);
        if ca != cb {
            return ca < cb;
        }
        assert(a@.skip(i as int).drop_first() =~= a@.skip(i + 1));
        assert(b@.skip(i as int).drop_first() =~= b@.skip(i + 1));
        i += 1;
    }
    i < m
}

/// Whether two strings hold the same characters.
pub fn same_str(a: &str, b: &str) -> (r: bool)
    ensures
        r == (a@ == b@),
{
    if a.unicode_len() != b.unicode_len() {
        return false;
    }
    let r = has_prefix(a, b);
    assert(a@.subrange(0, b@.len() as int) =~= a@);
    r
}

fn is_absolute_path(p: &str) -> (r: bool)
    ensures
        r == is_absolute(p@),
{
    p.unicode_len() > 0 && p.get_char(0) == '/'
}

/// `b` appended to the directory `a`, with one separator between them.
pub fn join_path(a: &str, b: &str) -> (r: String)
    ensures
        r@ == joined(a@, b@),
{
    let n = a.unicode_len();
    if n == 0 {
        return String::from_str(b);
    }
    let mut r = String::from_str(a);
    if a.get_char(n - 1) != '/' {
        r.append("/");
        proof {
            reveal_strlit("/");
        }
    }
    r.append(b);
    r
}

/// The directory part of a file path.
pub fn parent_dir(file_path: &str) -> (r: String)
    ensures
        r@ == parent_of(file_path@),
{
    match last_slash(file_path) {
        None => String::new(),
        Some(0) => {
            proof {
                reveal_strlit("/");
            }
            String::from_str("/")
        },
        Some(i) => String::from_str(file_path.substring_char(0, i)),
    }
}

/// A path read relative to the directory of the document `file_path`.
pub fn get_file_relative_path(file_path: &str, env_path: &str) -> (r: String)
    ensures
        r@ == relative_to_file(file_path@, env_path@),
{
    if is_absolute_path(env_path) {
        String::from_str(env_path)
    } else {
        let dir = parent_dir(file_path);
        join_path(dir.as_str(), env_path)
    }
}

/// Resolve a configured path: home shorthand, then the defining document's
/// directory, then the current directory. Fails exactly on a path that
/// expands to nothing.
pub fn resolve_path(input: &str, file_path: &str, ctx: &Context) -> (r: Result<
    String,
    ResolveError,
>)
    ensures
        match resolved(input@, file_path@, ctx.current_dir@, opt_view(ctx.home)) {
            Some(p) => r matches Ok(s) && s@ == p,
            None => r matches Err(ResolveError::Path { input: i }) && i@ == input@,
        },
{
    let tb = input.unicode_len() >= 2 && input.get_char(0) == '~' && input.get_char(1) == '\\';
    let expanded = if tb {
        String::from_str(input)
    } else {
        let home = match &ctx.home {
            Some(h) => Some(h.as_str()),
            None => None,
        };
        expand_tilde(input, home)
    };
    if expanded.as_str().unicode_len() == 0 {
        return Err(ResolveError::Path { input: String::from_str(input) });
    }
    let p = get_file_relative_path(file_path, expanded.as_str());
    if is_absolute_path(p.as_str()) {
        Ok(normalize_path(p.as_str()))
    } else {
        let full = join_path(ctx.current_dir.as_str(), p.as_str());
        Ok(normalize_path(full.as_str()))
    }
}

} // verus!
