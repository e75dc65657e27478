use vstd::prelude::*;

use crate::bump::VersionBump;
use crate::graph::{
    lemma_targets_push, lemma_targets_push_seq, targets_of, Direction, Edges, Graph, Node, NodeIndex,
};
use crate::ledger::{chars_of, holds_at, text_at, ChangelogEntry};
use crate::propagate::{
    direct_bumps, direct_for, is_propagated, name_view, on_cycle, propagate, records_view,
    CycleError,
};
use crate::version::{bumped, Version};

verus! {

#[verifier::external_type_specification]
#[verifier::external_body]
pub struct ExVersionReq(semver::VersionReq);

/// Whether semver's requirement parser accepts a text.
pub uninterp spec fn semver_req_accepts(text: Seq<char>) -> bool;

/// Relies on `semver::VersionReq::parse`: it reads a version requirement such
/// as `^1.2`, or refuses the text.
#[verifier::external_body]
fn parse_version_req(text: &str) -> (r: Option<semver::VersionReq>)
    ensures
        r is Some <==> semver_req_accepts(text@),
{
    semver::VersionReq::parse(text).ok()
}

/// What a package asks of one of its dependencies.
#[derive(Debug)]
pub enum DependencyVersion {
    /// A range of versions.
    VersionReq(semver::VersionReq),
    /// The sibling workspace's own version (the protocol word `workspace`),
    /// within a range.
    WorkspaceVersionReq(String, semver::VersionReq),
}

pub open spec fn workspace_protocol() -> Seq<char> {
    seq!['w', 'o', 'r', 'k', 's', 'p', 'a', 'c', 'e']
}

/// A constraint that follows the sibling workspace: `workspace:` then a range.
pub open spec fn is_workspace_constraint(c: Seq<char>) -> bool {
    c.len() >= 10 && c.subrange(0, 9) == workspace_protocol() && c[9] == ':'
}

/// Whether a dependency constraint can be read.
pub open spec fn accepted_constraint(c: Seq<char>) -> bool {
    if is_workspace_constraint(c) {
        semver_req_accepts(c.subrange(10, c.len() as int))
    } else {
        semver_req_accepts(c)
    }
}

impl DependencyVersion {
    /// Reads a dependency constraint: `workspace:` followed by a range, or a
    /// range alone. `None` where the range cannot be read.
    pub fn from_str(version: &str) -> (r: Option<DependencyVersion>)
        ensures
            r is Some <==> accepted_constraint(version@),
            r matches Some(d) ==> (d is WorkspaceVersionReq <==> is_workspace_constraint(
                version@,
            )),
            r matches Some(DependencyVersion::WorkspaceVersionReq(p, _)) ==> p@
                == workspace_protocol(),
    {
        let t = chars_of(version);
        let protocol = vec!['w', 'o', 'r', 'k', 's', 'p', 'a', 'c', 'e'];
        assert(protocol@ =~= workspace_protocol());
        if t.len() >= 10 && holds_at(&t, 0, 9, &protocol) && t[9] == ':' {
            let rest = version.substring_char(10, t.len());
            match parse_version_req(rest) {
                Some(req) => Some(
                    DependencyVersion::WorkspaceVersionReq(text_at(version, &t, 0, 9), req),
                ),
                None => None,
            }
        } else {
            match parse_version_req(version) {
                Some(req) => Some(DependencyVersion::VersionReq(req)),
                None => None,
            }
        }
    }
}

/// What a package manifest declares, as far as versioning is concerned.
/// Dependencies are (package name, constraint) pairs in declaration order.
/// A name may repeat, within a list or across the three; every repeat is
/// kept, and each names the same sibling.
pub struct PackageJson {
    pub name: Option<String>,
    pub version: Option<Version>,
    pub workspaces: Vec<String>,
    pub dependencies: Vec<(String, String)>,
    pub dev_dependencies: Vec<(String, String)>,
    pub peer_dependencies: Vec<(String, String)>,
}

impl Default for PackageJson {
    fn default() -> (r: Self)
        ensures
            r.name is None,
            r.version is None,
            r.workspaces@.len() == 0,
            r.dependencies@.len() == 0,
            r.dev_dependencies@.len() == 0,
            r.peer_dependencies@.len() == 0,
    {
        PackageJson {
            name: None,
            version: None,
            workspaces: Vec::new(),
            dependencies: Vec::new(),
            dev_dependencies: Vec::new(),
            peer_dependencies: Vec::new(),
        }
    }
}

/// The names of the declared dependencies whose constraint can be read, in
/// order.
pub open spec fn accepted_names(list: Seq<(String, String)>) -> Seq<Seq<char>>
    decreases list.len(),
{
    if list.len() == 0 {
        Seq::empty()
    } else {
        let rest = accepted_names(list.drop_last());
        if accepted_constraint(list.last().1@) {
            rest.push(list.last().0@)
        } else {
            rest
        }
    }
}

/// For each declared dependency whose constraint can be read, in order,
/// whether that constraint follows the sibling workspace.
pub open spec fn accepted_kinds(list: Seq<(String, String)>) -> Seq<bool>
    decreases list.len(),
{
    if list.len() == 0 {
        Seq::empty()
    } else {
        let rest = accepted_kinds(list.drop_last());
        if accepted_constraint(list.last().1@) {
            rest.push(is_workspace_constraint(list.last().1@))
        } else {
            rest
        }
    }
}

/// Whether each kept dependency follows its sibling workspace, in the order
/// of `manifest_dependencies`.
pub open spec fn manifest_kinds(pj: PackageJson) -> Seq<bool> {
    accepted_kinds(pj.dependencies@) + accepted_kinds(pj.dev_dependencies@) + accepted_kinds(
        pj.peer_dependencies@,
    )
}

/// Whether each dependency follows its sibling workspace.
pub open spec fn dependency_kinds(deps: Seq<(String, DependencyVersion)>) -> Seq<bool> {
    deps.map_values(|d: (String, DependencyVersion)| d.1 is WorkspaceVersionReq)
}

/// The dependencies a workspace keeps from its manifest: production, then
/// development, then peer dependencies, duplicates kept.
pub open spec fn manifest_dependencies(pj: PackageJson) -> Seq<Seq<char>> {
    accepted_names(pj.dependencies@) + accepted_names(pj.dev_dependencies@) + accepted_names(
        pj.peer_dependencies@,
    )
}

pub open spec fn dependency_names(deps: Seq<(String, DependencyVersion)>) -> Seq<Seq<char>> {
    deps.map_values(|d: (String, DependencyVersion)| d.0@)
}

pub open spec fn version_view(v: Option<Version>) -> Option<(u64, u64, u64, Seq<char>, Seq<char>)> {
    match v {
        Some(v) => Some(v@),
        None => None,
    }
}

/// One versionable package: where it lives, what it is called, its version
/// and what it depends on.
#[derive(Debug)]
pub struct Workspace {
    pub directory: String,
    pub name: Option<String>,
    pub version: Option<Version>,
    pub dependencies: Vec<(String, DependencyVersion)>,
}

/// `w` is the workspace that the manifest `pj` in `directory` describes.
pub open spec fn describes(w: Workspace, directory: Seq<char>, pj: PackageJson) -> bool {
    &&& w.directory@ == directory
    &&& name_view(w.name) == name_view(pj.name)
    &&& version_view(w.version) == version_view(pj.version)
    &&& dependency_names(w.dependencies@) == manifest_dependencies(pj)
    &&& dependency_kinds(w.dependencies@) == manifest_kinds(pj)
}

fn copy_name(name: &Option<String>) -> (r: Option<String>)
    ensures
        name_view(r) == name_view(*name),
{
    match name {
        Some(n) => Some(n.clone()),
        None => None,
    }
}

fn copy_version(version: &Option<Version>) -> (r: Option<Version>)
    ensures
        version_view(r) == version_view(*version),
{
    match version {
        Some(v) => Some(v.copy()),
        None => None,
    }
}

/// Appends the dependencies of `list` whose constraint can be read.
fn add_dependencies(deps: &mut Vec<(String, DependencyVersion)>, list: &Vec<(String, String)>)
    ensures
        dependency_names(final(deps)@) == dependency_names(old(deps)@) + accepted_names(list@),
        dependency_kinds(final(deps)@) == dependency_kinds(old(deps)@) + accepted_kinds(list@),
{
    let ghost start = dependency_names(deps@);
    let ghost start_kinds = dependency_kinds(deps@);
    let mut k: usize = 0;
    assert(list@.subrange(0, 0) =~= Seq::<(String, String)>::empty());
    assert(start + accepted_names(list@.subrange(0, 0)) =~= start);
    assert(start_kinds + accepted_kinds(list@.subrange(0, 0)) =~= start_kinds);
    while k < list.len()
        invariant
            k <= list@.len(),
            start == dependency_names(old(deps)@),
            start_kinds == dependency_kinds(old(deps)@),
            dependency_names(deps@) == start + accepted_names(list@.subrange(0, k as int)),
            dependency_kinds(deps@) == start_kinds + accepted_kinds(list@.subrange(0, k as int)),
        decreases list@.len() - k,
    {
        let (name, constraint) = &list[k];
        let ghost before = dependency_names(deps@);
        let ghost before_kinds = dependency_kinds(deps@);
        proof {
            let next = list@.subrange(0, k + 1);
            assert(next.drop_last() =~= list@.subrange(0, k as int));
            assert(next.last() == (*name, *constraint));
        }
        match DependencyVersion::from_str(constraint.as_str()) {
            Some(version) => {
                let ghost kind = version is WorkspaceVersionReq;
                deps.push((name.clone(), version));
                assert(dependency_names(deps@) =~= before.push(name@));
                assert(dependency_kinds(deps@) =~= before_kinds.push(kind));
            },
            None => {},
        }
        k += 1;
    }
    assert(list@.subrange(0, k as int) =~= list@);
}

impl Workspace {
    /// The workspace that the manifest `package_json` in `directory`
    /// describes. Dependencies whose constraint cannot be read are left out.
    pub fn new(directory: &str, package_json: &PackageJson) -> (r: Workspace)
        ensures
            describes(r, directory@, *package_json),
    {
        let mut dependencies: Vec<(String, DependencyVersion)> = Vec::new();
        assert(dependency_names(dependencies@) =~= Seq::<Seq<char>>::empty());
        assert(dependency_kinds(dependencies@) =~= Seq::<bool>::empty());
        add_dependencies(&mut dependencies, &package_json.dependencies);
        add_dependencies(&mut dependencies, &package_json.dev_dependencies);
        add_dependencies(&mut dependencies, &package_json.peer_dependencies);
        assert(dependency_names(dependencies@) =~= manifest_dependencies(*package_json));
        assert(dependency_kinds(dependencies@) =~= manifest_kinds(*package_json));
        Workspace {
            directory: String::from_str(directory),
            name: copy_name(&package_json.name),
            version: copy_version(&package_json.version),
            dependencies,
        }
    }

    /// The constraint on the first dependency called `name`, if any.
    pub fn dependency_version(&self, name: &str) -> (r: Option<&DependencyVersion>)
        ensures
            r is Some <==> dependency_names(self.dependencies@).contains(name@),
            r matches Some(v) ==> exists|k: int|
                0 <= k < self.dependencies@.len() && self.dependencies@[k].0@ == name@ && *v
                    == self.dependencies@[k].1 && forall|m: int|
                    0 <= m < k ==> #[trigger] self.dependencies@[m].0@ != name@,
    {
        let wanted = String::from_str(name);
        let mut k: usize = 0;
        while k < self.dependencies.len()
            invariant
                wanted@ == name@,
                k <= self.dependencies@.len(),
                forall|m: int| 0 <= m < k ==> self.dependencies@[m].0@ != name@,
            decreases self.dependencies@.len() - k,
        {
            if self.dependencies[k].0 == wanted {
                assert(dependency_names(self.dependencies@)[k as int] == name@);
                return Some(&self.dependencies[k].1);
            }
            k += 1;
        }
        proof {
            if dependency_names(self.dependencies@).contains(name@) {
                let m = choose|m: int|
                    0 <= m < dependency_names(self.dependencies@).len() && dependency_names(
                        self.dependencies@,
                    )[m] == name@;
                assert(self.dependencies@[m].0@ == name@);
            }
        }
        None
    }
}

/// What globset makes of a pattern and a path: whether the path matches, or
/// `None` where the pattern cannot be parsed or compiled. Paths are matched
/// with globset's defaults for the platform the crate is built for (on
/// Windows a backslash separates, elsewhere it escapes).
pub uninterp spec fn glob_match(pattern: Seq<char>, path: Seq<char>) -> Option<bool>;

/// The most `{` a workspace pattern may hold. globset turns each brace group
/// into a nested one as it compiles, recursing once per level, and refuses
/// nesting deeper than this.
pub const MAX_BRACES: usize = 250;

/// How many `{` the text holds.
pub open spec fn brace_count(s: Seq<char>) -> nat
    decreases s.len(),
{
    if s.len() == 0 {
        0
    } else {
        brace_count(s.drop_last()) + if s.last() == '{' {
            1nat
        } else {
            0nat
        }
    }
}

/// What a workspace pattern makes of a path: whether it matches, or `None`
/// where the pattern holds too many braces or cannot be compiled.
pub open spec fn pattern_match(pattern: Seq<char>, path: Seq<char>) -> Option<bool> {
    if brace_count(pattern) <= MAX_BRACES {
        glob_match(pattern, path)
    } else {
        None
    }
}

/// Relies on globset: `Glob::new` parses the pattern or refuses it, and
/// `GlobSetBuilder::build` compiles it, returning an error where its regex
/// cannot be built; the built set's `is_match` tests the whole path. Both
/// recurse once per level of brace nesting, which the bound on braces keeps
/// shallow.
#[verifier::external_body]
fn glob_is_match(pattern: &str, path: &str) -> (r: Option<bool>)
    requires
        brace_count(pattern@) <= MAX_BRACES,
    ensures
        r == glob_match(pattern@, path@),
{
    let glob = match globset::Glob::new(pattern) {
        Ok(glob) => glob,
        Err(_) => return None,
    };
    let mut builder = globset::GlobSetBuilder::new();
    builder.add(glob);
    match builder.build() {
        Ok(set) => Some(set.is_match(path)),
        Err(_) => None,
    }
}

/// How many `{` the pattern holds, up to one more than the bound.
fn count_braces(pattern: &String) -> (r: usize)
    ensures
        r == if brace_count(pattern@) <= MAX_BRACES {
            brace_count(pattern@)
        } else {
            (MAX_BRACES + 1) as nat
        },
{
    let t = chars_of(pattern.as_str());
    let mut count: usize = 0;
    let mut k: usize = 0;
    while k < t.len()
        invariant
            t@ == pattern@,
            k <= t@.len(),
            count <= MAX_BRACES,
            count == brace_count(t@.subrange(0, k as int)),
        decreases t@.len() - k,
    {
        assert(t@.subrange(0, k + 1).drop_last() =~= t@.subrange(0, k as int));
        if t[k] == '{' {
            if count == MAX_BRACES {
                proof {
                    lemma_brace_count_prefix(t@, k + 1);
                }
                return MAX_BRACES + 1;
            }
            count += 1;
        }
        k += 1;
    }
    assert(t@.subrange(0, k as int) =~= t@);
    count
}

/// A text holds at least as many `{` as any of its prefixes.
proof fn lemma_brace_count_prefix(s: Seq<char>, k: int)
    requires
        0 <= k <= s.len(),
    ensures
        brace_count(s.subrange(0, k)) <= brace_count(s),
    decreases s.len() - k,
{
    if k < s.len() {
        lemma_brace_count_prefix(s, k + 1);
        assert(s.subrange(0, k + 1).drop_last() =~= s.subrange(0, k));
    } else {
        assert(s.subrange(0, k) =~= s);
    }
}

/// A manifest found in the tree: the directory that holds it and what it
/// declares.
pub struct Manifest {
    pub directory: String,
    pub package_json: PackageJson,
}

/// The path of `child` below `parent`, where `child` lies strictly inside it.
pub open spec fn relative_path(child: Seq<char>, parent: Seq<char>) -> Option<Seq<char>> {
    if child.len() > parent.len() + 1 && child.subrange(0, parent.len() as int) == parent
        && child[parent.len() as int] == '/' {
        Some(child.subrange(parent.len() as int + 1, child.len() as int))
    } else {
        None
    }
}

/// Some workspace pattern of the manifest `p` matches the path of the
/// manifest `c` below it.
pub open spec fn member_of(ms: Seq<Manifest>, c: int, p: int) -> bool {
    &&& c != p
    &&& relative_path(ms[c].directory@, ms[p].directory@) is Some
    &&& exists|k: int|
        0 <= k < ms[p].package_json.workspaces@.len() && #[trigger] pattern_match(
            ms[p].package_json.workspaces@[k]@,
            relative_path(ms[c].directory@, ms[p].directory@)->0,
        ) == Some(true)
}

/// Every workspace pattern can be tested on the paths of the manifests below
/// its own.
pub open spec fn patterns_valid(ms: Seq<Manifest>) -> bool {
    forall|p: int, c: int, k: int|
        0 <= p < ms.len() && 0 <= c < ms.len() && c != p && relative_path(
            ms[c].directory@,
            ms[p].directory@,
        ) is Some && 0 <= k < ms[p].package_json.workspaces@.len() ==> #[trigger] pattern_match(
            ms[p].package_json.workspaces@[k]@,
            relative_path(ms[c].directory@, ms[p].directory@)->0,
        ) is Some
}

/// The workspace `w` declares a dependency on the name of the workspace `d`.
pub open spec fn declares(ws: Seq<Workspace>, w: int, d: int) -> bool {
    &&& w != d
    &&& ws[d].name is Some
    &&& dependency_names(ws[w].dependencies@).contains(ws[d].name->0@)
}

/// The pair `(x, y)` comes before `(p, c)`, row by row.
pub open spec fn before(x: int, y: int, p: int, c: int) -> bool {
    x < p || (x == p && y < c)
}

/// Why a project could not be built.
#[derive(Debug, PartialEq, Eq)]
pub enum ProjectError {
    /// A workspace pattern of the manifest at this position that cannot be
    /// used: it cannot be compiled, or holds too many braces.
    InvalidPattern { manifest: usize, pattern: String },
}

/// The directory tree of a monorepo: one node per workspace, and an edge pair
/// for each dependency (outgoing from the dependent, incoming to the
/// dependency). A workspace listed by another's patterns depends on it, and
/// every declared dependency on a sibling's name carries that sibling's
/// bumps, whatever its constraint.
pub struct Project {
    directory: String,
    graph: Graph<Workspace>,
}

/// Each node's targets in each direction are nodes of `0..n`, each listed
/// once.
pub open spec fn tidy(log: Seq<(NodeIndex, NodeIndex, Direction)>, n: nat) -> bool {
    &&& forall|a: NodeIndex, d: Direction|
        a < n ==> (#[trigger] targets_of(log, a, d)).no_duplicates()
    &&& forall|a: NodeIndex, d: Direction, k: int|
        a < n && 0 <= k < targets_of(log, a, d).len() ==> #[trigger] targets_of(log, a, d)[k] < n
}

proof fn lemma_prepend_fresh(y: NodeIndex, s: Seq<NodeIndex>, n: nat)
    requires
        s.no_duplicates(),
        !s.contains(y),
        y < n,
        forall|k: int| 0 <= k < s.len() ==> s[k] < n,
    ensures
        (seq![y].add(s)).no_duplicates(),
        forall|k: int| 0 <= k < s.len() + 1 ==> (#[trigger] seq![y].add(s)[k]) < n,
{
    let t = seq![y].add(s);
    assert forall|i: int, j: int| 0 <= i < t.len() && 0 <= j < t.len() && i != j implies t[i]
        != t[j] by {
        if i == 0 {
            assert(t[j] == s[j - 1]);
        } else if j == 0 {
            assert(t[i] == s[i - 1]);
        } else {
            assert(t[i] == s[i - 1] && t[j] == s[j - 1]);
        }
    }
    assert forall|k: int| 0 <= k < s.len() + 1 implies (#[trigger] t[k]) < n by {
        if k > 0 {
            assert(t[k] == s[k - 1]);
        }
    }
}

/// Records that `a` depends on `b`: an outgoing edge from `a` and an
/// incoming edge from `b`, where neither is recorded yet.
fn link<T>(graph: &mut Graph<T>, a: NodeIndex, b: NodeIndex)
    requires
        old(graph).wf(),
        a < old(graph).node_data().len(),
        b < old(graph).node_data().len(),
        tidy(old(graph).edge_log(), old(graph).node_data().len()),
        !targets_of(old(graph).edge_log(), a, Direction::Outgoing).contains(b),
        !targets_of(old(graph).edge_log(), b, Direction::Incoming).contains(a),
    ensures
        final(graph).wf(),
        final(graph).node_data() == old(graph).node_data(),
        tidy(final(graph).edge_log(), final(graph).node_data().len()),
        forall|x: NodeIndex, y: NodeIndex| #[trigger]
            targets_of(final(graph).edge_log(), x, Direction::Outgoing).contains(y) <==> (
            targets_of(old(graph).edge_log(), x, Direction::Outgoing).contains(y) || (x == a && y
                == b)),
        forall|x: NodeIndex, y: NodeIndex| #[trigger]
            targets_of(final(graph).edge_log(), x, Direction::Incoming).contains(y) <==> (
            targets_of(old(graph).edge_log(), x, Direction::Incoming).contains(y) || (x == b && y
                == a)),
{
    let ghost n = graph.node_data().len();
    let ghost log0 = graph.edge_log();
    graph.add_edge(b, a, Direction::Incoming);
    let ghost log1 = graph.edge_log();
    graph.add_edge(a, b, Direction::Outgoing);
    let ghost e1 = (b, a, Direction::Incoming);
    let ghost e2 = (a, b, Direction::Outgoing);
    assert forall|x: NodeIndex, y: NodeIndex, d: Direction|
        #[trigger] targets_of(graph.edge_log(), x, d).contains(y) <==> (targets_of(
            log0,
            x,
            d,
        ).contains(y) || e1 == (x, y, d) || e2 == (x, y, d)) by {
        lemma_targets_push(log0, e1, x, d, y);
        lemma_targets_push(log1, e2, x, d, y);
    }
    assert forall|x: NodeIndex, d: Direction| x < n implies (#[trigger] targets_of(
        graph.edge_log(),
        x,
        d,
    )).no_duplicates() && forall|k: int|
        0 <= k < targets_of(graph.edge_log(), x, d).len() ==> targets_of(graph.edge_log(), x, d)[k]
            < n by {
        lemma_targets_push_seq(log0, e1, x, d);
        lemma_targets_push_seq(log1, e2, x, d);
        let s = targets_of(log0, x, d);
        assert(forall|k: int| 0 <= k < s.len() ==> #[trigger] s[k] < n);
        if x == b && d == Direction::Incoming {
            lemma_prepend_fresh(a, s, n);
        } else if x == a && d == Direction::Outgoing {
            lemma_prepend_fresh(b, s, n);
        }
    }
}

/// Whether `x` is among `v`.
fn holds_target(v: &Vec<NodeIndex>, x: NodeIndex) -> (r: bool)
    ensures
        r == v@.contains(x),
{
    let mut k: usize = 0;
    while k < v.len()
        invariant
            k <= v@.len(),
            forall|m: int| 0 <= m < k ==> v@[m] != x,
        decreases v@.len() - k,
    {
        if v[k] == x {
            assert(v@[k as int] == x);
            return true;
        }
        k += 1;
    }
    false
}

/// The path of `child` below `parent`, as a string.
fn relative_path_of(child: &String, parent: &String) -> (r: Option<String>)
    ensures
        r is None <==> relative_path(child@, parent@) is None,
        r matches Some(s) ==> relative_path(child@, parent@) == Some(s@),
{
    let c = chars_of(child.as_str());
    let p = chars_of(parent.as_str());
    let cl = c.len();
    let pl = p.len();
    if pl < cl && cl - pl > 1 && holds_at(&c, 0, pl, &p) && c[pl] == '/' {
        Some(text_at(child.as_str(), &c, pl + 1, cl))
    } else {
        None
    }
}

/// Tests `path` against every pattern: whether one matches, or the position
/// of the first pattern that cannot be compiled.
fn match_patterns(patterns: &Vec<String>, path: &String) -> (r: Result<bool, usize>)
    ensures
        r matches Ok(m) ==> (forall|k: int|
            0 <= k < patterns@.len() ==> #[trigger] pattern_match(patterns@[k]@, path@) is Some) && (m
            <==> exists|k: int|
            0 <= k < patterns@.len() && #[trigger] pattern_match(patterns@[k]@, path@) == Some(
                true,
            )),
        r matches Err(k) ==> k < patterns@.len() && pattern_match(patterns@[k as int]@, path@) is None,
{
    let mut matched = false;
    let mut k: usize = 0;
    while k < patterns.len()
        invariant
            k <= patterns@.len(),
            forall|m: int| 0 <= m < k ==> #[trigger] pattern_match(patterns@[m]@, path@) is Some,
            matched <==> exists|m: int|
                0 <= m < k && #[trigger] pattern_match(patterns@[m]@, path@) == Some(true),
        decreases patterns@.len() - k,
    {
        if count_braces(&patterns[k]) > MAX_BRACES {
            return Err(k);
        }
        match glob_is_match(patterns[k].as_str(), path.as_str()) {
            None => {
                return Err(k);
            },
            Some(hit) => {
                assert(pattern_match(patterns@[k as int]@, path@) == Some(hit));
                if hit {
                    matched = true;
                }
            },
        }
        k += 1;
    }
    Ok(matched)
}

impl Project {
    /// The dependency graph of the project.
    pub closed spec fn graph(&self) -> Graph<Workspace> {
        self.graph
    }

    pub closed spec fn directory(&self) -> Seq<char> {
        self.directory@
    }

    /// The project is the one that the manifests `ms`, found below
    /// `directory`, describe: one workspace per manifest, in order; an edge
    /// pair, recorded once, for each member of a workspace's patterns and each
    /// declared dependency on a sibling's name.
    pub open spec fn built_from(&self, directory: Seq<char>, ms: Seq<Manifest>) -> bool {
        let g = self.graph();
        let ws = g.node_data();
        &&& g.wf()
        &&& self.wf()
        &&& tidy(g.edge_log(), ms.len())
        &&& forall|a: NodeIndex, b: NodeIndex|
            a < ms.len() && b < ms.len() ==> (#[trigger] targets_of(
                g.edge_log(),
                a,
                Direction::Outgoing,
            ).contains(b) <==> targets_of(g.edge_log(), b, Direction::Incoming).contains(a))
        &&& self.directory() == directory
        &&& ws.len() == ms.len()
        &&& forall|i: int|
            0 <= i < ms.len() ==> describes(
                #[trigger] ws[i],
                ms[i].directory@,
                ms[i].package_json,
            )
        &&& forall|a: NodeIndex, b: NodeIndex|
            a < ms.len() && b < ms.len() ==> (#[trigger] targets_of(
                g.edge_log(),
                a,
                Direction::Outgoing,
            ).contains(b) <==> (member_of(ms, a as int, b as int) || declares(
                ws,
                a as int,
                b as int,
            )))
        &&& forall|a: NodeIndex, b: NodeIndex|
            a < ms.len() && b < ms.len() ==> (#[trigger] targets_of(
                g.edge_log(),
                a,
                Direction::Incoming,
            ).contains(b) <==> (member_of(ms, b as int, a as int) || declares(
                ws,
                b as int,
                a as int,
            )))
    }

    /// Builds the project from the manifests, passing over each manifest with
    /// a workspace pattern that cannot be used: the project is built from the
    /// manifests kept, returned in order, and one error is returned for each
    /// manifest passed over.
    pub fn discover(directory: &str, manifests: Vec<Manifest>) -> (r: (
        Project,
        Vec<Manifest>,
        Vec<ProjectError>,
    ))
        ensures
            r.0.built_from(directory@, r.1@),
            patterns_valid(r.1@),
            r.1@.len() + r.2@.len() == manifests@.len(),
            forall|k: int| 0 <= k < r.1@.len() ==> manifests@.contains(#[trigger] r.1@[k]),
    {
        let mut kept = manifests;
        let mut errors: Vec<ProjectError> = Vec::new();
        loop
            invariant
                kept@.len() + errors@.len() == manifests@.len(),
                forall|k: int| 0 <= k < kept@.len() ==> manifests@.contains(#[trigger] kept@[k]),
            decreases kept@.len(),
        {
            match Project::new(directory, &kept) {
                Ok(project) => {
                    return (project, kept, errors);
                },
                Err(error) => {
                    let ProjectError::InvalidPattern { manifest, .. } = error;
                    let ghost before = kept@;
                    kept.remove(manifest);
                    errors.push(error);
                    assert forall|k: int| 0 <= k < kept@.len() implies manifests@.contains(
                        #[trigger] kept@[k],
                    ) by {
                        if k < manifest {
                            assert(kept@[k] == before[k]);
                        } else {
                            assert(kept@[k] == before[k + 1]);
                        }
                    }
                },
            }
        }
    }

    /// Builds the project rooted at `directory` from the manifests found in
    /// it: one workspace per manifest, in order. A manifest whose workspace
    /// patterns match the path of another below it gets that one as a
    /// member; a workspace that declares a dependency on the name of another
    /// depends on it. Each such pair is recorded once in each direction, even
    /// where both hold. Refused where a pattern cannot be compiled.
    pub fn new(directory: &str, manifests: &Vec<Manifest>) -> (r: Result<Project, ProjectError>)
        ensures
            r is Ok <==> patterns_valid(manifests@),
            r matches Ok(project) ==> project.built_from(directory@, manifests@),
            r matches Err(ProjectError::InvalidPattern { manifest, pattern }) ==> exists|
                c: int,
                k: int,
            |
                0 <= manifest < manifests@.len() && 0 <= c < manifests@.len() && c != manifest
                    && relative_path(
                    manifests@[c].directory@,
                    manifests@[manifest as int].directory@,
                ) is Some && 0 <= k < manifests@[manifest as int].package_json.workspaces@.len()
                    && manifests@[manifest as int].package_json.workspaces@[k]@ == pattern@
                    && pattern_match(
                    pattern@,
                    relative_path(
                        manifests@[c].directory@,
                        manifests@[manifest as int].directory@,
                    )->0,
                ) is None,
    {
        let ghost ms = manifests@;
        let n = manifests.len();
        let mut graph: Graph<Workspace> = Graph::new();
        let mut i: usize = 0;
        while i < n
            invariant
                n == ms.len(),
                ms == manifests@,
                i <= n,
                graph.wf(),
                graph.node_data().len() == i,
                graph.edge_log().len() == 0,
                forall|x: int|
                    0 <= x < i ==> describes(
                        #[trigger] graph.node_data()[x],
                        ms[x].directory@,
                        ms[x].package_json,
                    ),
            decreases n - i,
        {
            let m = &manifests[i];
            let w = Workspace::new(m.directory.as_str(), &m.package_json);
            graph.add_node(w);
            i += 1;
        }
        let ghost ws = graph.node_data();
        assert forall|a: NodeIndex, d: Direction| true implies #[trigger] targets_of(
            graph.edge_log(),
            a,
            d,
        ) == Seq::<NodeIndex>::empty() by {
            assert(graph.edge_log() =~= Seq::<(NodeIndex, NodeIndex, Direction)>::empty());
        }
        assert(tidy(graph.edge_log(), n as nat));
        let mut p: usize = 0;
        while p < n
            invariant
                n == ms.len(),
                ms == manifests@,
                p <= n,
                graph.wf(),
                graph.node_data() == ws,
                ws.len() == n,
                tidy(graph.edge_log(), n as nat),
                forall|a: NodeIndex, b: NodeIndex|
                    a < n && b < n ==> (#[trigger] targets_of(
                        graph.edge_log(),
                        a,
                        Direction::Outgoing,
                    ).contains(b) <==> (member_of(ms, a as int, b as int) && before(
                        b as int,
                        a as int,
                        p as int,
                        0,
                    ))),
                forall|a: NodeIndex, b: NodeIndex|
                    a < n && b < n ==> (#[trigger] targets_of(
                        graph.edge_log(),
                        a,
                        Direction::Incoming,
                    ).contains(b) <==> (member_of(ms, b as int, a as int) && before(
                        a as int,
                        b as int,
                        p as int,
                        0,
                    ))),
                forall|x: int, y: int, k: int|
                    0 <= x < n && 0 <= y < n && x != y && before(x, y, p as int, 0) && relative_path(
                        ms[y].directory@,
                        ms[x].directory@,
                    ) is Some && 0 <= k < ms[x].package_json.workspaces@.len() ==> #[trigger] pattern_match(
                        ms[x].package_json.workspaces@[k]@,
                        relative_path(ms[y].directory@, ms[x].directory@)->0,
                    ) is Some,
            decreases n - p,
        {
            let mut c: usize = 0;
            while c < n
                invariant
                    n == ms.len(),
                    ms == manifests@,
                    p < n,
                    c <= n,
                    graph.wf(),
                    graph.node_data() == ws,
                    ws.len() == n,
                    tidy(graph.edge_log(), n as nat),
                    forall|a: NodeIndex, b: NodeIndex|
                        a < n && b < n ==> (#[trigger] targets_of(
                            graph.edge_log(),
                            a,
                            Direction::Outgoing,
                        ).contains(b) <==> (member_of(ms, a as int, b as int) && before(
                            b as int,
                            a as int,
                            p as int,
                            c as int,
                        ))),
                    forall|a: NodeIndex, b: NodeIndex|
                        a < n && b < n ==> (#[trigger] targets_of(
                            graph.edge_log(),
                            a,
                            Direction::Incoming,
                        ).contains(b) <==> (member_of(ms, b as int, a as int) && before(
                            a as int,
                            b as int,
                            p as int,
                            c as int,
                        ))),
                    forall|x: int, y: int, k: int|
                        0 <= x < n && 0 <= y < n && x != y && before(x, y, p as int, c as int)
                            && relative_path(ms[y].directory@, ms[x].directory@) is Some && 0 <= k
                            < ms[x].package_json.workspaces@.len() ==> #[trigger] pattern_match(
                            ms[x].package_json.workspaces@[k]@,
                            relative_path(ms[y].directory@, ms[x].directory@)->0,
                        ) is Some,
                decreases n - c,
            {
                if c != p {
                    let parent = &manifests[p];
                    match relative_path_of(&manifests[c].directory, &parent.directory) {
                        None => {},
                        Some(rel) => {
                            match match_patterns(&parent.package_json.workspaces, &rel) {
                                Err(k) => {
                                    proof {
                                        let rp = relative_path(
                                            ms[c as int].directory@,
                                            ms[p as int].directory@,
                                        );
                                        assert(rp->0 == rel@);
                                        assert(pattern_match(
                                            ms[p as int].package_json.workspaces@[k as int]@,
                                            rp->0,
                                        ) is None);
                                        assert(!patterns_valid(ms));
                                    }
                                    let pattern = parent.package_json.workspaces[k].clone();
                                    return Err(ProjectError::InvalidPattern { manifest: p, pattern });
                                },
                                Ok(matched) => {
                                    if matched {
                                        link(&mut graph, c, p);
                                    }
                                },
                            }
                        },
                    }
                }
                c += 1;
            }
            p += 1;
        }
        let mut w: usize = 0;
        while w < n
            invariant
                n == ms.len(),
                ms == manifests@,
                w <= n,
                graph.wf(),
                graph.node_data() == ws,
                ws.len() == n,
                tidy(graph.edge_log(), n as nat),
                patterns_valid(ms),
                forall|a: NodeIndex, b: NodeIndex|
                    a < n && b < n ==> (#[trigger] targets_of(
                        graph.edge_log(),
                        a,
                        Direction::Outgoing,
                    ).contains(b) <==> (member_of(ms, a as int, b as int) || (declares(
                        ws,
                        a as int,
                        b as int,
                    ) && before(a as int, b as int, w as int, 0)))),
                forall|a: NodeIndex, b: NodeIndex|
                    a < n && b < n ==> (#[trigger] targets_of(
                        graph.edge_log(),
                        a,
                        Direction::Incoming,
                    ).contains(b) <==> (member_of(ms, b as int, a as int) || (declares(
                        ws,
                        b as int,
                        a as int,
                    ) && before(b as int, a as int, w as int, 0)))),
            decreases n - w,
        {
            let mut d: usize = 0;
            while d < n
                invariant
                    n == ms.len(),
                    ms == manifests@,
                    w < n,
                    d <= n,
                    graph.wf(),
                    graph.node_data() == ws,
                    ws.len() == n,
                    tidy(graph.edge_log(), n as nat),
                    forall|a: NodeIndex, b: NodeIndex|
                        a < n && b < n ==> (#[trigger] targets_of(
                            graph.edge_log(),
                            a,
                            Direction::Outgoing,
                        ).contains(b) <==> (member_of(ms, a as int, b as int) || (declares(
                            ws,
                            a as int,
                            b as int,
                        ) && before(a as int, b as int, w as int, d as int)))),
                    forall|a: NodeIndex, b: NodeIndex|
                        a < n && b < n ==> (#[trigger] targets_of(
                            graph.edge_log(),
                            a,
                            Direction::Incoming,
                        ).contains(b) <==> (member_of(ms, b as int, a as int) || (declares(
                            ws,
                            b as int,
                            a as int,
                        ) && before(b as int, a as int, w as int, d as int)))),
                decreases n - d,
            {
                let mut wanted = false;
                if d != w {
                    match (graph.get_node(w), graph.get_node(d)) {
                        (Some(dependent), Some(dependency)) => {
                            match &dependency.data().name {
                                Some(name) => {
                                    wanted = dependent.data().dependency_version(
                                        name.as_str(),
                                    ).is_some();
                                },
                                None => {},
                            }
                        },
                        _ => {},
                    }
                }
                assert(wanted == declares(ws, w as int, d as int));
                let already = holds_target(
                    &graph.edges(w, Direction::Outgoing).into_vec(),
                    d,
                );
                if wanted && !already {
                    link(&mut graph, w, d);
                }
                d += 1;
            }
            w += 1;
        }
        Ok(Project { directory: String::from_str(directory), graph })
    }
}

/// The bumps the records ask for each workspace of `ws`, by position.
pub open spec fn requested_bumps(
    ws: Seq<Workspace>,
    records: Seq<(Seq<(Seq<char>, VersionBump)>, Seq<char>)>,
) -> Seq<Option<VersionBump>> {
    Seq::new(ws.len(), |i: int| direct_for(name_view(ws[i].name), records))
}

/// The version a workspace moves to under `bump`: none where it gets no bump
/// or has no version.
pub open spec fn next_version(w: Workspace, bump: Option<VersionBump>) -> Option<
    (u64, u64, u64, Seq<char>, Seq<char>),
> {
    match (bump, w.version) {
        (Some(b), Some(v)) => bumped(v@, b),
        _ => None,
    }
}

/// The bump would raise a counter past its largest value.
pub open spec fn overflows(w: Workspace, bump: Option<VersionBump>) -> bool {
    match (bump, w.version) {
        (Some(b), Some(v)) => bumped(v@, b) is None,
        _ => false,
    }
}

/// Why new versions could not be computed.
#[derive(Clone, Copy, Debug, PartialEq, Eq, Structural)]
pub enum VersionError {
    /// The bump of this workspace would raise a counter past its largest value.
    Overflow { node: NodeIndex },
}

impl Project {
    pub closed spec fn wf(&self) -> bool {
        self.graph.wf()
    }

    /// The workspaces, by node index.
    pub open spec fn workspaces(&self) -> Seq<Workspace> {
        self.graph().node_data()
    }

    /// Every workspace; a workspace's position is its node index.
    pub fn get_workspaces(&self) -> (r: &[Node<Workspace>])
        ensures
            r@.map_values(|n: Node<Workspace>| n.value()) == self.workspaces(),
    {
        self.graph.get_nodes()
    }

    /// The first workspace called `name`, with its index.
    pub fn get_workspace(&self, name: &str) -> (r: Option<(NodeIndex, &Node<Workspace>)>)
        requires
            self.wf(),
        ensures
            r matches Some((i, node)) ==> i < self.workspaces().len() && node.value()
                == self.workspaces()[i as int] && name_view(node.value().name) == Some(name@)
                && forall|j: int|
                0 <= j < i ==> name_view(#[trigger] self.workspaces()[j].name) != Some(name@),
            r is None ==> forall|j: int|
                0 <= j < self.workspaces().len() ==> name_view(#[trigger] self.workspaces()[j].name)
                    != Some(name@),
    {
        let wanted = String::from_str(name);
        let n = self.graph.node_count();
        let mut i: usize = 0;
        while i < n
            invariant
                n == self.workspaces().len(),
                i <= n,
                wanted@ == name@,
                forall|j: int|
                    0 <= j < i ==> name_view(#[trigger] self.workspaces()[j].name) != Some(name@),
            decreases n - i,
        {
            match self.graph.get_node(i) {
                Some(node) => {
                    let hit = match &node.data().name {
                        Some(nm) => *nm == wanted,
                        None => false,
                    };
                    if hit {
                        return Some((i, node));
                    }
                },
                None => {},
            }
            i += 1;
        }
        None
    }

    /// The workspace behind `workspace`, or `None` for an unknown index.
    pub fn workspace(&self, workspace: NodeIndex) -> (r: Option<&Node<Workspace>>)
        ensures
            r is Some <==> workspace < self.workspaces().len(),
            r matches Some(node) ==> node.value() == self.workspaces()[workspace as int],
    {
        self.graph.get_node(workspace)
    }

    /// The workspaces that depend on `workspace`, the latest recorded first.
    pub fn dependents(&self, workspace: NodeIndex) -> (r: Edges<'_, Workspace>)
        requires
            self.wf(),
            workspace < self.workspaces().len(),
        ensures
            r.wf(),
            r.remaining() == targets_of(self.graph().edge_log(), workspace, Direction::Incoming),
    {
        self.graph.edges(workspace, Direction::Incoming)
    }

    /// The workspaces that `workspace` depends on, the latest recorded first.
    pub fn dependencies(&self, workspace: NodeIndex) -> (r: Edges<'_, Workspace>)
        requires
            self.wf(),
            workspace < self.workspaces().len(),
        ensures
            r.wf(),
            r.remaining() == targets_of(self.graph().edge_log(), workspace, Direction::Outgoing),
    {
        self.graph.edges(workspace, Direction::Outgoing)
    }

    /// The bump each workspace must receive, by node index: the greatest of
    /// the bumps the records ask for it and for everything it depends on,
    /// directly or not. Records that name no workspace are passed over.
    /// Refused, with the workspaces involved, where dependencies form a cycle.
    pub fn compute_bumps(&self, records: &Vec<ChangelogEntry>) -> (r: Result<
        Vec<Option<VersionBump>>,
        CycleError,
    >)
        requires
            self.wf(),
        ensures
            r is Err <==> exists|s: NodeIndex|
                s < self.workspaces().len() && #[trigger] on_cycle(&self.graph(), s),
            r matches Ok(v) ==> is_propagated(
                &self.graph(),
                requested_bumps(self.workspaces(), records_view(records@)),
                v@,
            ),
            r matches Err(e) ==> (forall|k: int|
                0 <= k < e.nodes@.len() ==> on_cycle(&self.graph(), #[trigger] e.nodes@[k])) && (
            forall|s: NodeIndex|
                s < self.workspaces().len() && on_cycle(&self.graph(), s) ==> e.nodes@.contains(
                    s,
                )),
    {
        let n = self.graph.node_count();
        let mut names: Vec<Option<String>> = Vec::new();
        let mut i: usize = 0;
        while i < n
            invariant
                n == self.workspaces().len(),
                i <= n,
                names@.len() == i,
                forall|x: int|
                    0 <= x < i ==> name_view(#[trigger] names@[x]) == name_view(
                        self.workspaces()[x].name,
                    ),
            decreases n - i,
        {
            match self.graph.get_node(i) {
                Some(node) => names.push(copy_name(&node.data().name)),
                None => names.push(None),
            }
            i += 1;
        }
        let direct = direct_bumps(&names, records);
        assert(direct@ =~= requested_bumps(self.workspaces(), records_view(records@)));
        propagate(&self.graph, &direct)
    }

    /// The version each workspace moves to under `bumps`, by node index; none
    /// for a workspace without a bump or without a version. Refused where a
    /// counter would overflow.
    pub fn new_versions(&self, bumps: &Vec<Option<VersionBump>>) -> (r: Result<
        Vec<Option<Version>>,
        VersionError,
    >)
        requires
            bumps@.len() == self.workspaces().len(),
        ensures
            r is Err <==> exists|i: int|
                0 <= i < bumps@.len() && overflows(#[trigger] self.workspaces()[i], bumps@[i]),
            r matches Ok(vs) ==> vs@.len() == bumps@.len() && forall|i: int|
                0 <= i < vs@.len() ==> version_view(#[trigger] vs@[i]) == next_version(
                    self.workspaces()[i],
                    bumps@[i],
                ),
            r matches Err(VersionError::Overflow { node }) ==> node < bumps@.len() && overflows(
                self.workspaces()[node as int],
                bumps@[node as int],
            ),
    {
        let n = bumps.len();
        let mut vs: Vec<Option<Version>> = Vec::new();
        let mut i: usize = 0;
        while i < n
            invariant
                n == bumps@.len(),
                n == self.workspaces().len(),
                i <= n,
                vs@.len() == i,
                forall|x: int|
                    0 <= x < i ==> version_view(#[trigger] vs@[x]) == next_version(
                        self.workspaces()[x],
                        bumps@[x],
                    ),
                forall|x: int| 0 <= x < i ==> !overflows(#[trigger] self.workspaces()[x], bumps@[x]),
            decreases n - i,
        {
            let mut next: Option<Version> = None;
            match (bumps[i], self.graph.get_node(i)) {
                (Some(b), Some(node)) => {
                    match &node.data().version {
                        Some(v) => {
                            match v.bumped(b) {
                                Some(nv) => {
                                    next = Some(nv);
                                },
                                None => {
                                    return Err(VersionError::Overflow { node: i });
                                },
                            }
                        },
                        None => {},
                    }
                },
                _ => {},
            }
            vs.push(next);
            i += 1;
        }
        Ok(vs)
    }

    /// Sets the stored version of one workspace.
    pub fn set_version(&mut self, workspace: NodeIndex, version: Version)
        requires
            old(self).wf(),
            workspace < old(self).workspaces().len(),
        ensures
            final(self).wf(),
            final(self).workspaces().len() == old(self).workspaces().len(),
            final(self).graph().edge_log() == old(self).graph().edge_log(),
            forall|i: int|
                0 <= i < old(self).workspaces().len() && i != workspace ==> #[trigger] final(self).workspaces()[i]
                    == old(self).workspaces()[i],
            version_view(final(self).workspaces()[workspace as int].version) == Some(version@),
            final(self).workspaces()[workspace as int].name == old(self).workspaces()[
                workspace as int
            ].name,
            final(self).workspaces()[workspace as int].directory == old(self).workspaces()[
                workspace as int
            ].directory,
            final(self).workspaces()[workspace as int].dependencies == old(self).workspaces()[
                workspace as int
            ].dependencies,
    {
        let w = self.graph.data_mut(workspace);
        w.version = Some(version);
    }
}

} // verus!
