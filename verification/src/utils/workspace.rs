use crate::config::Config;
use crate::resolution::path::{
    extension_chars, is_abs, join_path, parent_chars, path_eq, path_segments, same_path, segments,
    spec_extension, spec_join, spec_parent,
};
use crate::resolution::prefix::strings_view;
use crate::utils::strs::{chars_lt, chars_of, lex_lt, str_eq, string_of};
use crate::utils::text::Text;
use vstd::prelude::*;

verus! {

#[derive(Clone, Copy, Debug, PartialEq, Eq, Structural)]
pub enum WorkspaceMode {
    SingleFile,
    MultiFile,
}

#[derive(Clone, Copy, Debug, PartialEq, Eq, Structural)]
pub enum DocumentSource {
    Disk,
    Stdin,
}

#[derive(Clone, Debug)]
pub struct WorkspaceDocument {
    pub path: String,
    pub rel_path: String,
    pub text: Text,
    pub source: DocumentSource,
}

#[derive(Clone, Debug)]
pub struct DiscoveredFolder {
    pub root: String,
    pub config_path: Option<String>,
    pub documents: Vec<WorkspaceDocument>,
    pub extra_folders: Vec<String>,
}

#[derive(Clone, Debug)]
pub struct Workspace {
    pub folder: DiscoveredFolder,
    pub mode: WorkspaceMode,
    pub config: Config,
}

#[derive(Clone, Debug)]
pub enum WorkspaceInput {
    Path(String),
    Stdin { text: String, display_name: String },
}

/// `std::path::Path::is_dir`: whether a directory exists at `path`. Nothing is claimed
/// of the answer, which depends on the file system.
#[verifier::external_body]
pub(crate) fn is_directory(path: &str) -> bool {
    std::path::Path::new(path).is_dir()
}

/// `std::path::Path::exists`: whether anything exists at `path`. Nothing is claimed of
/// the answer, which depends on the file system.
#[verifier::external_body]
pub(crate) fn exists_at(path: &str) -> bool {
    std::path::Path::new(path).exists()
}

/// `std::path::Path::canonicalize`, converted to text: `Some` of the canonical form of
/// `path`, or `None` when the file system gives none (the path does not exist, for
/// one). The standard library documents the canonical form as absolute; on the Unix
/// systems this library is built for, an absolute path begins with `/`. Which of the two
/// comes back, and which path, depends on the file system and is not stated.
#[verifier::external_body]
fn canonicalize_path(path: &str) -> (r: Option<String>)
    ensures
        r matches Some(p) ==> is_abs(p@),
{
    match std::path::Path::new(path).canonicalize() {
        Ok(p) => Some(p.to_string_lossy().into_owned()),
        Err(_) => None,
    }
}

pub open spec fn marker_path(dir: Seq<char>) -> Seq<char> {
    spec_join(dir, ".downlint.toml"@)
}

pub open spec fn git_path(dir: Seq<char>) -> Seq<char> {
    spec_join(dir, ".git"@)
}

/// What the file system answered while a root was inferred: the path asked whether it
/// is a directory and the answer; for each directory of the walk visited, the marker
/// path and the `.git` path asked about and whether each exists; the step at which one
/// existed; the directory whose canonical form was asked for, and whether one came back.
pub struct RootAnswer {
    pub dir_probe: Seq<char>,
    pub target_is_dir: bool,
    pub marker_probes: Seq<(Seq<char>, bool)>,
    pub git_probes: Seq<(Seq<char>, bool)>,
    pub found: Option<int>,
    pub dir: Seq<char>,
    pub canonical: bool,
}

/// The probes of a walk agree with the step found: each visited directory's marker and
/// `.git` paths were asked about in order; the walk stopped at the first directory where
/// either exists, or went through every directory when none did.
pub open spec fn root_probes_ok(walk: Seq<Seq<char>>, ans: RootAnswer) -> bool {
    let n = match ans.found {
        Some(k) => k + 1,
        None => walk.len() as int,
    };
    &&& ans.found matches Some(k) ==> 0 <= k < walk.len()
    &&& ans.marker_probes.len() == n
    &&& ans.git_probes.len() == n
    &&& forall|j: int|
        0 <= j < n ==> {
            &&& (#[trigger] ans.marker_probes[j]).0 == marker_path(walk[j])
            &&& ans.git_probes[j].0 == git_path(walk[j])
            &&& (ans.marker_probes[j].1 || ans.git_probes[j].1) == (ans.found == Some(j))
        }
}

/// The parent of `p`, or `.` when it has none.
pub open spec fn spec_parent_or_dot(p: Seq<char>) -> Seq<char> {
    match spec_parent(p) {
        Some(q) => q,
        None => seq!['.'],
    }
}

/// Where the walk for a root starts: the target itself when it is a directory, else its
/// parent.
pub open spec fn root_base(target: Seq<char>, target_is_dir: bool) -> Seq<char> {
    if target_is_dir {
        target
    } else {
        spec_parent_or_dot(target)
    }
}

/// `cur`, then its parents one by one, for at most `fuel` directories; the walk stops at
/// a path without parent or whose parent is the same path.
pub open spec fn walk_from(cur: Seq<char>, fuel: nat) -> Seq<Seq<char>>
    decreases fuel,
{
    if fuel == 0 {
        Seq::empty()
    } else {
        seq![cur] + match spec_parent(cur) {
            Some(p) => if path_eq(p, cur) {
                Seq::<Seq<char>>::empty()
            } else {
                walk_from(p, (fuel - 1) as nat)
            },
            None => Seq::<Seq<char>>::empty(),
        }
    }
}

/// The most directories a walk from a path of `n` characters visits: each step drops
/// one component, so one more than the characters.
pub open spec fn walk_limit(n: nat) -> nat {
    if n < usize::MAX {
        n + 1
    } else {
        n
    }
}

/// The directories searched for a root marker, from `base` upwards.
pub open spec fn spec_root_walk(base: Seq<char>) -> Seq<Seq<char>> {
    walk_from(base, walk_limit(base.len()))
}

/// The directories searched for a root marker, from `base` upwards.
pub fn root_walk(base: &str) -> (r: Vec<String>)
    ensures
        strings_view(r@) == spec_root_walk(base@),
{
    let mut out: Vec<String> = Vec::new();
    let mut current = string_of(&chars_of(base));
    let n = chars_of(base).len();
    let mut fuel: usize = if n < usize::MAX {
        n + 1
    } else {
        n
    };
    let mut done = false;
    assert(strings_view(out@) =~= Seq::<Seq<char>>::empty());
    assert(Seq::<Seq<char>>::empty() + walk_from(current@, fuel as nat) =~= walk_from(current@, fuel as nat));
    while fuel > 0 && !done
        invariant
            done ==> strings_view(out@) == spec_root_walk(base@),
            !done ==> strings_view(out@) + walk_from(current@, fuel as nat) == spec_root_walk(base@),
        decreases fuel,
    {
        let ghost before = strings_view(out@);
        let ghost cur = current@;
        let ghost f = fuel as nat;
        fuel -= 1;
        out.push(string_of(&chars_of(current.as_str())));
        assert(strings_view(out@) =~= before.push(cur));
        match parent_chars(&chars_of(current.as_str())) {
            Some(p) => {
                let parent = string_of(&p);
                if same_path(parent.as_str(), current.as_str()) {
                    assert(walk_from(cur, f) =~= seq![cur]);
                    assert(before + seq![cur] =~= before.push(cur));
                    done = true;
                } else {
                    assert(walk_from(cur, f) == seq![cur] + walk_from(parent@, fuel as nat));
                    assert(before + (seq![cur] + walk_from(parent@, fuel as nat)) =~= before.push(cur)
                        + walk_from(parent@, fuel as nat));
                    current = parent;
                }
            },
            None => {
                assert(walk_from(cur, f) =~= seq![cur]);
                assert(before + seq![cur] =~= before.push(cur));
                done = true;
            },
        }
    }
    if !done {
        assert(walk_from(current@, 0) =~= Seq::<Seq<char>>::empty());
        assert(strings_view(out@) + Seq::<Seq<char>>::empty() =~= strings_view(out@));
    }
    out
}

/// The workspace root for a target: the nearest directory of the walk from the target's
/// own directory upwards that holds `.downlint.toml` or `.git`, else the target's
/// directory (`r.1@.dir`); the file system's canonical form of it when it has one (then
/// absolute), else the directory itself. The ghost answer records what the file system
/// was asked and what it said.
pub fn infer_root(target: &str) -> (r: (String, Ghost<RootAnswer>))
    ensures
        ({
            let ans = r.1@;
            let base = root_base(target@, ans.target_is_dir);
            let walk = spec_root_walk(base);
            &&& ans.dir_probe == target@
            &&& root_probes_ok(walk, ans)
            &&& ans.dir == match ans.found {
                Some(k) => walk[k],
                None => base,
            }
            &&& ans.canonical ==> is_abs(r.0@)
            &&& !ans.canonical ==> r.0@ == ans.dir
        }),
{
    let is_dir = is_directory(target);
    let base = if is_dir {
        string_of(&chars_of(target))
    } else {
        match parent_chars(&chars_of(target)) {
            Some(p) => string_of(&p),
            None => {
                let dot = String::from_str(".");
                proof {
                    reveal_strlit(".");
                }
                dot
            },
        }
    };
    assert(base@ == root_base(target@, is_dir));
    let walk = root_walk(base.as_str());
    let ghost wv = strings_view(walk@);
    let ghost mut mp: Seq<(Seq<char>, bool)> = Seq::empty();
    let ghost mut gp: Seq<(Seq<char>, bool)> = Seq::empty();
    proof {
        reveal_strlit(".downlint.toml");
        reveal_strlit(".git");
    }
    let mut i: usize = 0;
    while i < walk.len()
        invariant
            i <= walk@.len(),
            wv == strings_view(walk@),
            wv == spec_root_walk(root_base(target@, is_dir)),
            base@ == root_base(target@, is_dir),
            mp.len() == i,
            gp.len() == i,
            forall|j: int|
                0 <= j < i ==> {
                    &&& (#[trigger] mp[j]).0 == marker_path(wv[j])
                    &&& gp[j].0 == git_path(wv[j])
                    &&& !mp[j].1 && !gp[j].1
                },
        decreases walk@.len() - i,
    {
        let marker = join_path(walk[i].as_str(), ".downlint.toml");
        let git = join_path(walk[i].as_str(), ".git");
        let has_marker = exists_at(marker.as_str());
        let has_git = exists_at(git.as_str());
        proof {
            assert(wv[i as int] == walk@[i as int]@);
            mp = mp.push((marker@, has_marker));
            gp = gp.push((git@, has_git));
        }
        if has_marker || has_git {
            let canon = canonicalize_path(walk[i].as_str());
            let ghost ans = RootAnswer {
                dir_probe: target@,
                target_is_dir: is_dir,
                marker_probes: mp,
                git_probes: gp,
                found: Some(i as int),
                dir: walk@[i as int]@,
                canonical: canon is Some,
            };
            proof {
                assert forall|j: int| 0 <= j < i + 1 implies {
                    &&& (#[trigger] ans.marker_probes[j]).0 == marker_path(wv[j])
                    &&& ans.git_probes[j].0 == git_path(wv[j])
                    &&& (ans.marker_probes[j].1 || ans.git_probes[j].1) == (ans.found == Some(j))
                } by {}
                assert(root_probes_ok(wv, ans));
            }
            let root = match canon {
                Some(p) => p,
                None => string_of(&chars_of(walk[i].as_str())),
            };
            return (root, Ghost(ans));
        }
        i += 1;
    }
    let canon = canonicalize_path(base.as_str());
    let ghost ans = RootAnswer {
        dir_probe: target@,
        target_is_dir: is_dir,
        marker_probes: mp,
        git_probes: gp,
        found: None,
        dir: base@,
        canonical: canon is Some,
    };
    proof {
        assert(wv.len() == walk@.len());
        assert forall|j: int| 0 <= j < wv.len() implies {
            &&& (#[trigger] ans.marker_probes[j]).0 == marker_path(wv[j])
            &&& ans.git_probes[j].0 == git_path(wv[j])
            &&& (ans.marker_probes[j].1 || ans.git_probes[j].1) == (ans.found == Some(j))
        } by {}
        assert(root_probes_ok(wv, ans));
    }
    let root = match canon {
        Some(p) => p,
        None => base,
    };
    (root, Ghost(ans))
}

/// The project configuration file of a root, when one exists there.
pub fn find_project_config(root: &str) -> (r: Option<String>)
    ensures
        r matches Some(p) ==> p@ == marker_path(root@),
{
    let path = crate::config::project_config_path(root);
    proof {
        reveal_strlit(".downlint.toml");
    }
    if exists_at(path.as_str()) {
        Some(path)
    } else {
        None
    }
}

/// Whether glob `pattern` matches `path`, or `None` when the pattern is no valid glob,
/// as the `globset` crate decides.
pub uninterp spec fn spec_glob_match(pattern: Seq<char>, path: Seq<char>) -> Option<bool>;

/// Trusted: `globset::Glob::new` on the pattern, then a one-pattern `globset::GlobSet`
/// from `GlobSetBuilder::build` and its `is_match` on the path; a pattern that either step
/// refuses gives `None`. The contract only names the result as a function of the two texts.
#[verifier::external_body]
fn glob_match(pattern: &str, path: &str) -> (r: Option<bool>)
    ensures
        r == spec_glob_match(pattern@, path@),
{
    match globset::Glob::new(pattern) {
        Ok(g) => match globset::GlobSetBuilder::new().add(g).build() {
            Ok(set) => Some(set.is_match(path)),
            Err(_) => None,
        },
        Err(_) => None,
    }
}

/// Whether an ignore pattern re-includes what it names (it starts with `!`).
pub open spec fn is_negation(p: Seq<char>) -> bool {
    p.len() > 0 && p[0] == '!'
}

/// Whether some excluding (non-`!`) pattern is a valid glob that matches `rel`.
pub open spec fn excluded(rel: Seq<char>, patterns: Seq<String>) -> bool {
    exists|i: int|
        0 <= i < patterns.len() && !is_negation(patterns[i]@) && #[trigger] spec_glob_match(patterns[i]@, rel)
            == Some(true)
}

/// Whether some `!` pattern, read without its `!`, is a valid glob that matches `rel`.
pub open spec fn reincluded(rel: Seq<char>, patterns: Seq<String>) -> bool {
    exists|i: int|
        0 <= i < patterns.len() && is_negation(patterns[i]@) && #[trigger] spec_glob_match(
            patterns[i]@.drop_first(),
            rel,
        ) == Some(true)
}

/// Whether the ignore patterns leave `rel` out: an excluding pattern matches it and no
/// negated pattern re-includes it.
pub open spec fn ignored(rel: Seq<char>, patterns: Seq<String>) -> bool {
    excluded(rel, patterns) && !reincluded(rel, patterns)
}

/// Whether the extension of `path` is one of `exts`.
pub open spec fn has_extension(path: Seq<char>, exts: Seq<String>) -> bool {
    match spec_extension(path) {
        Some(e) => exists|i: int| 0 <= i < exts.len() && #[trigger] exts[i]@ == e,
        None => false,
    }
}

/// Whether a file found at `path`, at `rel_path` within the root, is a document of the
/// workspace: the ignore patterns do not leave its relative path out, and its extension
/// is a document extension.
pub open spec fn spec_keep_document(path: Seq<char>, rel_path: Seq<char>, config: Config) -> bool {
    !ignored(rel_path, config.core.ignore@) && has_extension(path, config.core.file_extensions@)
}

pub fn keep_document(path: &str, rel_path: &str, config: &Config) -> (r: bool)
    ensures
        r == spec_keep_document(path@, rel_path@, *config),
{
    let pats = &config.core.ignore;
    let mut ex = false;
    let mut re = false;
    let mut i: usize = 0;
    while i < pats.len()
        invariant
            i <= pats@.len(),
            pats@ == config.core.ignore@,
            ex <==> exists|j: int|
                0 <= j < i && !is_negation(pats@[j]@) && #[trigger] spec_glob_match(pats@[j]@, rel_path@)
                    == Some(true),
            re <==> exists|j: int|
                0 <= j < i && is_negation(pats@[j]@) && #[trigger] spec_glob_match(
                    pats@[j]@.drop_first(),
                    rel_path@,
                ) == Some(true),
        decreases pats@.len() - i,
    {
        let p = &pats[i];
        if is_negation_str(p.as_str()) {
            let c = chars_of(p.as_str());
            let body = crate::utils::strs::string_of_range(&c, 1, c.len());
            assert(body@ =~= pats@[i as int]@.drop_first());
            if glob_match(body.as_str(), rel_path) == Some(true) {
                re = true;
            }
        } else {
            if glob_match(p.as_str(), rel_path) == Some(true) {
                ex = true;
            }
        }
        i += 1;
    }
    if ex && !re {
        return false;
    }
    has_document_extension(path, config)
}

/// Whether the extension of `path` is one of the configured document extensions.
pub fn has_document_extension(path: &str, config: &Config) -> (r: bool)
    ensures
        r == has_extension(path@, config.core.file_extensions@),
{
    let exts = &config.core.file_extensions;
    match extension_chars(&chars_of(path)) {
        Some(e) => {
            let es = string_of(&e);
            let mut k: usize = 0;
            while k < exts.len()
                invariant
                    k <= exts@.len(),
                    es@ == e@,
                    exts@ == config.core.file_extensions@,
                    spec_extension(path@) == Some(e@),
                    forall|j: int| 0 <= j < k ==> #[trigger] exts@[j]@ != e@,
                decreases exts@.len() - k,
            {
                if str_eq(exts[k].as_str(), es.as_str()) {
                    assert(exts@[k as int]@ == e@);
                    return true;
                }
                k += 1;
            }
            false
        },
        None => false,
    }
}

fn is_negation_str(p: &str) -> (b: bool)
    ensures
        b == is_negation(p@),
{
    let c = chars_of(p);
    c.len() > 0 && c[0] == '!'
}

/// Lexicographic order of component lists.
pub open spec fn segs_lt(a: Seq<Seq<char>>, b: Seq<Seq<char>>) -> bool
    decreases a.len(),
{
    if a.len() == 0 {
        b.len() > 0
    } else if b.len() == 0 {
        false
    } else if a[0] != b[0] {
        lex_lt(a[0], b[0])
    } else {
        segs_lt(a.drop_first(), b.drop_first())
    }
}

/// The order of paths component by component, an absolute path before a relative one.
pub open spec fn path_lt(a: Seq<char>, b: Seq<char>) -> bool {
    if is_abs(a) != is_abs(b) {
        is_abs(a)
    } else {
        segs_lt(segments(a), segments(b))
    }
}

fn path_less(a: &str, b: &str) -> (r: bool)
    ensures
        r == path_lt(a@, b@),
{
    let (aa, sa) = path_segments(&chars_of(a));
    let (ab, sb) = path_segments(&chars_of(b));
    if aa != ab {
        return aa;
    }
    let ghost va = sa@.map_values(|v: Vec<char>| v@);
    let ghost vb = sb@.map_values(|v: Vec<char>| v@);
    assert(segs_lt(va, vb) == path_lt(a@, b@));
    let mut i: usize = 0;
    assert(va.skip(0) =~= va && vb.skip(0) =~= vb);
    while i < sa.len() && i < sb.len()
        invariant
            i <= sa@.len(),
            i <= sb@.len(),
            va == sa@.map_values(|v: Vec<char>| v@),
            vb == sb@.map_values(|v: Vec<char>| v@),
            segs_lt(va, vb) == segs_lt(va.skip(i as int), vb.skip(i as int)),
            segs_lt(va, vb) == path_lt(a@, b@),
        decreases sa@.len() - i,
    {
        assert(va[i as int] == sa@[i as int]@ && vb[i as int] == sb@[i as int]@);
        if crate::utils::strs::chars_eq(&sa[i], &sb[i]) {
            assert(va.skip(i as int).drop_first() =~= va.skip(i + 1));
            assert(vb.skip(i as int).drop_first() =~= vb.skip(i + 1));
            i += 1;
        } else {
            assert(va.skip(i as int)[0] == va[i as int]);
            assert(vb.skip(i as int)[0] == vb[i as int]);
            return chars_lt(&sa[i], &sb[i]);
        }
    }
    i == sa.len() && i < sb.len()
}

/// Inserts index `x` into `s` after every index whose path does not sort after its own.
pub open spec fn insert_by_path(s: Seq<usize>, x: usize, keys: Seq<Seq<char>>) -> Seq<usize>
    decreases s.len(),
{
    if s.len() == 0 {
        seq![x]
    } else if path_lt(keys[x as int], keys[s.last() as int]) {
        insert_by_path(s.drop_last(), x, keys).push(s.last())
    } else {
        s.push(x)
    }
}

/// The indices of the first `n` keys, sorted by path; equal paths keep their order.
pub open spec fn path_order(keys: Seq<Seq<char>>, n: nat) -> Seq<usize>
    decreases n,
{
    if n == 0 {
        Seq::empty()
    } else {
        insert_by_path(path_order(keys, (n - 1) as nat), (n - 1) as usize, keys)
    }
}

pub open spec fn rel_keys(docs: Seq<WorkspaceDocument>) -> Seq<Seq<char>> {
    docs.map_values(|d: WorkspaceDocument| d.rel_path@)
}

/// The order of the documents by relative path: the positions of the documents, sorted.
pub fn document_order(docs: &Vec<WorkspaceDocument>) -> (r: Vec<usize>)
    ensures
        r@ == path_order(rel_keys(docs@), docs@.len()),
{
    let ghost keys = rel_keys(docs@);
    let mut out: Vec<usize> = Vec::new();
    let mut i: usize = 0;
    while i < docs.len()
        invariant
            i <= docs@.len(),
            keys == rel_keys(docs@),
            out@ == path_order(keys, i as nat),
            forall|q: int| 0 <= q < out@.len() ==> #[trigger] out@[q] < i,
        decreases docs@.len() - i,
    {
        let ghost os = out@;
        let mut j: usize = out.len();
        assert(os.take(j as int) =~= os && os.skip(j as int) =~= Seq::<usize>::empty());
        while j > 0 && path_less(docs[i].rel_path.as_str(), docs[out[j - 1]].rel_path.as_str())
            invariant
                j <= out@.len(),
                os == out@,
                i < docs@.len(),
                keys == rel_keys(docs@),
                forall|q: int| 0 <= q < out@.len() ==> #[trigger] out@[q] < i,
                insert_by_path(os, i, keys) == insert_by_path(os.take(j as int), i, keys) + os.skip(j as int),
            decreases j,
        {
            proof {
                let tj = os.take(j as int);
                assert(tj.drop_last() =~= os.take(j - 1));
                assert(tj.last() == os[j - 1]);
                assert(keys[i as int] == docs@[i as int].rel_path@);
                assert(keys[os[j - 1] as int] == docs@[os[j - 1] as int].rel_path@);
                assert(insert_by_path(tj, i, keys) == insert_by_path(os.take(j - 1), i, keys).push(os[j - 1]));
                assert(insert_by_path(os.take(j - 1), i, keys).push(os[j - 1]) + os.skip(j as int)
                    =~= insert_by_path(os.take(j - 1), i, keys) + os.skip(j - 1));
            }
            j -= 1;
        }
        proof {
            if j > 0 {
                let tj = os.take(j as int);
                assert(tj.last() == os[j - 1]);
                assert(keys[i as int] == docs@[i as int].rel_path@);
                assert(keys[os[j - 1] as int] == docs@[os[j - 1] as int].rel_path@);
                assert(insert_by_path(tj, i, keys) == tj.push(i));
            } else {
                assert(insert_by_path(os.take(0), i, keys) == seq![i]);
            }
        }
        out.insert(j, i);
        assert(out@ =~= os.take(j as int).push(i) + os.skip(j as int));
        assert(path_order(keys, (i + 1) as nat) == insert_by_path(path_order(keys, i as nat), i, keys));
        i += 1;
    }
    out
}

/// The directory that an `extra_folders` entry names before canonicalisation: below
/// `home` (or `/` without one) when it starts with `~/`, else below the root.
pub open spec fn spec_extra_folder(root: Seq<char>, value: Seq<char>, home: Option<Seq<char>>) -> Seq<char> {
    if value.len() >= 2 && value[0] == '~' && value[1] == '/' {
        spec_join(
            match home {
                Some(h) => h,
                None => seq!['/'],
            },
            value.skip(2),
        )
    } else {
        spec_join(root, value)
    }
}

pub fn extra_folder_path(root: &str, value: &str, home: Option<&str>) -> (r: String)
    ensures
        r@ == spec_extra_folder(root@, value@, match home {
            Some(h) => Some(h@),
            None => None,
        }),
{
    let v = chars_of(value);
    if v.len() >= 2 && v[0] == '~' && v[1] == '/' {
        let stripped = crate::utils::strs::string_of_range(&v, 2, v.len());
        assert(stripped@ =~= value@.skip(2));
        match home {
            Some(h) => join_path(h, stripped.as_str()),
            None => {
                let slash = String::from_str("/");
                proof {
                    reveal_strlit("/");
                }
                join_path(slash.as_str(), stripped.as_str())
            },
        }
    } else {
        join_path(root, value)
    }
}

/// A workspace read from standard input or from one explicit file holds that one
/// document; any other is a folder of documents.
pub fn mode_for(stdin_mode: bool, target_is_file: bool) -> (r: WorkspaceMode)
    ensures
        r == (if stdin_mode || target_is_file { WorkspaceMode::SingleFile } else { WorkspaceMode::MultiFile }),
{
    if stdin_mode || target_is_file {
        WorkspaceMode::SingleFile
    } else {
        WorkspaceMode::MultiFile
    }
}

} // verus!
