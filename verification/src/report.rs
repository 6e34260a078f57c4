//! The report of a dependency analysis: the declared dependency tree with the
//! issues found at each workspace, the files that several workspaces hold,
//! and the errors and warnings with their suggestions.
use vstd::prelude::*;
use crate::paths::{path_identity, path_key};
use crate::text::strings_of;
use crate::workspace::Workspace;
use crate::workspace_tree::{
    all_named, calculated_spec, count_unvisited, dedup_paths, deps_along, dep_keys_of, display_text,
    dview, dviews, find_key, keys_of, lemma_count_le, lemma_count_push, path_in, paths_contain_key,
    walk_from, ws_key, ws_name, WorkspaceContent, WorkspaceDependency, WorkspaceDependencyTree,
};

verus! {

/// A workspace in the declared dependency tree: its name, the workspaces it
/// declares (each shown in full only the first time it is reached), and the
/// dependencies its `Use` statements imply that are ambiguous, conflicting,
/// reverse or not declared.
#[derive(Debug)]
pub struct DependencyNode {
    pub name: String,
    pub dependencies: Vec<DependencyNode>,
    pub ambiguous_use: Vec<String>,
    pub conflicting_use: Vec<String>,
    pub reverse_use: Vec<String>,
    pub missing_dependencies: Vec<String>,
}

/// The abstract form of a node of the dependency tree.
#[verifier::ext_equal]
pub struct NodeView {
    pub name: Seq<char>,
    pub children: Seq<NodeView>,
    pub ambiguous_use: Seq<Seq<char>>,
    pub conflicting_use: Seq<Seq<char>>,
    pub reverse_use: Seq<Seq<char>>,
    pub missing_dependencies: Seq<Seq<char>>,
}

/// The abstract form of a node.
pub open spec fn node_view(n: DependencyNode) -> NodeView
    decreases n,
{
    NodeView {
        name: n.name@,
        children: Seq::new(
            n.dependencies@.len(),
            |i: int|
                if 0 <= i < n.dependencies@.len() {
                    node_view(n.dependencies@[i])
                } else {
                    leaf_view(Seq::empty())
                },
        ),
        ambiguous_use: strings_of(n.ambiguous_use@),
        conflicting_use: strings_of(n.conflicting_use@),
        reverse_use: strings_of(n.reverse_use@),
        missing_dependencies: strings_of(n.missing_dependencies@),
    }
}

/// A node that shows only a name.
pub open spec fn leaf_view(name: Seq<char>) -> NodeView {
    NodeView {
        name,
        children: Seq::empty(),
        ambiguous_use: Seq::empty(),
        conflicting_use: Seq::empty(),
        reverse_use: Seq::empty(),
        missing_dependencies: Seq::empty(),
    }
}

/// The texts of the dependencies of one kind, in order.
pub open spec fn texts_of_kind(vs: Seq<(int, Seq<Workspace>)>, kind: int) -> Seq<Seq<char>>
    decreases vs.len(),
{
    if vs.len() == 0 {
        Seq::empty()
    } else {
        let r = texts_of_kind(vs.drop_last(), kind);
        if vs.last().0 == kind {
            r.push(display_text(vs.last(), false))
        } else {
            r
        }
    }
}

/// The names of the workspaces of plain dependencies whose paths are not
/// among `defined`, in order.
pub open spec fn missing_names(vs: Seq<(int, Seq<Workspace>)>, defined: Seq<Seq<char>>) -> Seq<Seq<char>>
    decreases vs.len(),
{
    if vs.len() == 0 {
        Seq::empty()
    } else {
        let r = missing_names(vs.drop_last(), defined);
        let v = vs.last();
        if v.0 == 5 && !path_in(defined, v.1[0].sws_path@) {
            r.push(ws_name(v.1[0]))
        } else {
            r
        }
    }
}

/// The paths that a workspace and every workspace reachable from it declare,
/// each once.
pub open spec fn defined_paths(m: Seq<WorkspaceContent>, w: Workspace) -> Seq<Seq<char>> {
    dedup_paths(w.deps() + deps_along(m, walk_from(m, true, w)))
}

/// The node of the workspace at index `i`, reached with the paths `seen`
/// already shown, and the paths shown after it. A workspace already shown is
/// a bare name; otherwise its declared dependencies that the tree holds follow
/// in order, each reached after those before it.
pub open spec fn node_spec(m: Seq<WorkspaceContent>, i: int, seen: Seq<Seq<char>>, fuel: nat) -> (NodeView, Seq<Seq<char>>)
    decreases fuel, 0int,
{
    let w = m[i].workspace;
    if seen.contains(ws_key(w)) || fuel == 0 {
        (leaf_view(ws_name(w)), seen)
    } else {
        let (children, after) = children_spec(m, dep_keys_of(w), seen.push(ws_key(w)), (fuel - 1) as nat);
        let calc = calculated_spec(m, w);
        (
            NodeView {
                name: ws_name(w),
                children,
                ambiguous_use: texts_of_kind(calc, 1),
                conflicting_use: texts_of_kind(calc, 2),
                reverse_use: texts_of_kind(calc, 3),
                missing_dependencies: missing_names(calc, defined_paths(m, w)),
            },
            after,
        )
    }
}

/// The nodes of the workspaces that the paths `keys` (component forms) name,
/// in order, skipping those the tree lacks, and the paths shown after them.
pub open spec fn children_spec(m: Seq<WorkspaceContent>, keys: Seq<Seq<char>>, seen: Seq<Seq<char>>, fuel: nat) -> (Seq<NodeView>, Seq<Seq<char>>)
    decreases fuel, keys.len() + 1,
{
    if keys.len() == 0 {
        (Seq::empty(), seen)
    } else {
        let i = find_key(m, keys[0]);
        if i < 0 {
            children_spec(m, keys.drop_first(), seen, fuel)
        } else {
            let (n, s1) = node_spec(m, i, seen, fuel);
            let (rest, s2) = children_spec(m, keys.drop_first(), s1, fuel);
            (seq![n] + rest, s2)
        }
    }
}

/// The declared dependency tree, from the root.
pub open spec fn tree_spec(m: Seq<WorkspaceContent>) -> NodeView {
    node_spec(m, 0, Seq::empty(), (m.len() + 1) as nat).0
}

/// Seeing more paths leaves no more workspaces unseen.
proof fn lemma_count_superset(m: Seq<WorkspaceContent>, v1: Seq<Seq<char>>, v2: Seq<Seq<char>>)
    requires
        forall|x: Seq<char>| v1.contains(x) ==> #[trigger] v2.contains(x),
    ensures
        count_unvisited(m, v2) <= count_unvisited(m, v1),
    decreases m.len(),
{
    if m.len() > 0 {
        lemma_count_superset(m.drop_last(), v1, v2);
    }
}

/// The texts of the dependencies of kind `kind`.
fn kind_texts(calc: &Vec<WorkspaceDependency>, kind: usize) -> (r: Vec<String>)
    requires
        forall|k: int| 0 <= k < calc@.len() ==> all_named(#[trigger] dview(calc@[k]).1),
    ensures
        strings_of(r@) == texts_of_kind(dviews(calc@), kind as int),
{
    let ghost vs = dviews(calc@);
    let mut r: Vec<String> = Vec::new();
    let mut i: usize = 0;
    proof {
        assert(strings_of(r@) =~= texts_of_kind(vs.take(0), kind as int));
    }
    while i < calc.len()
        invariant
            0 <= i <= calc@.len(),
            vs == dviews(calc@),
            forall|k: int| 0 <= k < calc@.len() ==> all_named(#[trigger] dview(calc@[k]).1),
            strings_of(r@) == texts_of_kind(vs.take(i as int), kind as int),
        decreases calc.len() - i,
    {
        proof {
            assert(vs.take(i + 1).drop_last() =~= vs.take(i as int));
            assert(vs.take(i + 1).last() == dview(calc@[i as int]));
            assert(all_named(dview(calc@[i as int]).1));
        }
        if calc[i].sort_order() == kind {
            let t = calc[i].to_string();
            let ghost before = r@;
            r.push(t);
            proof {
                crate::text::lemma_strings_push(before, t);
            }
        }
        i += 1;
    }
    assert(vs.take(calc@.len() as int) =~= vs);
    r
}

/// The names of the plain dependencies whose paths `defined` lacks.
fn missing_texts(calc: &Vec<WorkspaceDependency>, defined: &Vec<String>) -> (r: Vec<String>)
    requires
        forall|k: int| 0 <= k < calc@.len() ==> all_named(#[trigger] dview(calc@[k]).1),
    ensures
        strings_of(r@) == missing_names(dviews(calc@), strings_of(defined@)),
{
    let ghost vs = dviews(calc@);
    let mut r: Vec<String> = Vec::new();
    let mut i: usize = 0;
    proof {
        assert(strings_of(r@) =~= missing_names(vs.take(0), strings_of(defined@)));
    }
    while i < calc.len()
        invariant
            0 <= i <= calc@.len(),
            vs == dviews(calc@),
            forall|k: int| 0 <= k < calc@.len() ==> all_named(#[trigger] dview(calc@[k]).1),
            strings_of(r@) == missing_names(vs.take(i as int), strings_of(defined@)),
        decreases calc.len() - i,
    {
        proof {
            assert(vs.take(i + 1).drop_last() =~= vs.take(i as int));
            assert(vs.take(i + 1).last() == dview(calc@[i as int]));
            assert(all_named(dview(calc@[i as int]).1));
        }
        match &calc[i] {
            WorkspaceDependency::Dependency(w) => {
                assert(dview(calc@[i as int]).1[0] == **w);
                let k = path_key(w.sws_path.as_str());
                if !paths_contain_key(defined, &k) {
                    let t = w.name();
                    let ghost before = r@;
                    r.push(t);
                    proof {
                        crate::text::lemma_strings_push(before, t);
                    }
                }
            },
            _ => {},
        }
        i += 1;
    }
    assert(vs.take(calc@.len() as int) =~= vs);
    r
}

/// The node of the workspace at index `i`, given the paths already shown.
fn dependency_node(tree: &WorkspaceDependencyTree, i: usize, seen: &mut Vec<String>, Ghost(fuel): Ghost<nat>) -> (r: DependencyNode)
    requires
        i < tree.model().len(),
        count_unvisited(tree.model(), strings_of(old(seen)@)) < fuel,
    ensures
        (node_view(r), strings_of(final(seen)@)) == node_spec(tree.model(), i as int, strings_of(old(seen)@), fuel),
        forall|x: Seq<char>| strings_of(old(seen)@).contains(x) ==> #[trigger] strings_of(final(seen)@).contains(x),
    decreases fuel,
{
    let ghost m = tree.model();
    let w = tree.workspace_at(i);
    let key = path_key(w.sws_path.as_str());
    if crate::text::contains_string(seen, &key) {
        let name = w.name();
        let r = DependencyNode {
            name,
            dependencies: Vec::new(),
            ambiguous_use: Vec::new(),
            conflicting_use: Vec::new(),
            reverse_use: Vec::new(),
            missing_dependencies: Vec::new(),
        };
        proof {
            assert(node_view(r).children =~= Seq::<NodeView>::empty());
            assert(strings_of(r.ambiguous_use@) =~= Seq::<Seq<char>>::empty());
            assert(strings_of(r.conflicting_use@) =~= Seq::<Seq<char>>::empty());
            assert(strings_of(r.reverse_use@) =~= Seq::<Seq<char>>::empty());
            assert(strings_of(r.missing_dependencies@) =~= Seq::<Seq<char>>::empty());
            assert(node_view(r) =~= leaf_view(ws_name(*w)));
        }
        return r;
    }
    let ghost s0 = strings_of(seen@);
    proof {
        assert(m[i as int].workspace == *w);
        assert(exists|t: int| 0 <= t < m.len() && ws_key(#[trigger] m[t].workspace) == key@) by {
            assert(ws_key(m[i as int].workspace) == key@);
        }
        lemma_count_push(m, s0, key@);
    }
    let ghost before_seen = seen@;
    seen.push(key);
    proof {
        crate::text::lemma_strings_push(before_seen, key);
    }
    let ghost s1 = strings_of(seen@);
    proof {
        assert forall|x: Seq<char>| s0.contains(x) implies #[trigger] s1.contains(x) by {
            crate::workspace_tree::lemma_seq_push_contains(s0, key@, x);
        }
    }
    let ghost f = (fuel - 1) as nat;
    let ghost keys = dep_keys_of(*w);
    let ghost target = children_spec(m, keys, s1, f);
    let mut children: Vec<DependencyNode> = Vec::new();
    let mut j: usize = 0;
    proof {
        assert(keys.skip(0) =~= keys);
    }
    while j < w.dependencies.len()
        invariant
            0 <= j <= w.dependencies@.len(),
            m == tree.model(),
            keys == dep_keys_of(*w),
            f == fuel - 1,
            count_unvisited(m, s1) < f,
            forall|x: Seq<char>| s0.contains(x) ==> #[trigger] s1.contains(x),
            forall|x: Seq<char>| s1.contains(x) ==> #[trigger] strings_of(seen@).contains(x),
            target == children_spec(m, keys, s1, f),
            target.0 == children@.map_values(|c: DependencyNode| node_view(c)) + children_spec(
                m,
                keys.skip(j as int),
                strings_of(seen@),
                f,
            ).0,
            target.1 == children_spec(m, keys.skip(j as int), strings_of(seen@), f).1,
        decreases w.dependencies.len() - j,
    {
        let ghost rest = keys.skip(j as int);
        let ghost cur = strings_of(seen@);
        proof {
            assert(rest[0] == path_identity(w.dependencies@[j as int]@));
            assert(rest.drop_first() =~= keys.skip(j + 1));
        }
        match tree.index_of(w.dependencies[j].as_str()) {
            None => {},
            Some(c) => {
                proof {
                    lemma_count_superset(m, s1, cur);
                }
                let ghost before_children = children@;
                let child = dependency_node(tree, c, seen, Ghost(f));
                children.push(child);
                proof {
                    assert(children@.map_values(|c: DependencyNode| node_view(c)) =~= before_children.map_values(
                        |c: DependencyNode| node_view(c),
                    ).push(node_view(child)));
                    assert(forall|x: Seq<char>| s1.contains(x) ==> #[trigger] strings_of(seen@).contains(x));
                }
            },
        }
        j += 1;
    }
    proof {
        assert(keys.skip(j as int) =~= Seq::<Seq<char>>::empty());
        assert(target.0 =~= children@.map_values(|c: DependencyNode| node_view(c)));
    }
    let defined = tree.defined_transitive_workspace_dependencies(w);
    let calc = tree.calculated_workspace_dependencies(w);
    let name = w.name();
    let ambiguous_use = kind_texts(&calc, 1);
    let conflicting_use = kind_texts(&calc, 2);
    let reverse_use = kind_texts(&calc, 3);
    let missing_dependencies = missing_texts(&calc, &defined);
    let r = DependencyNode { name, dependencies: children, ambiguous_use, conflicting_use, reverse_use, missing_dependencies };
    proof {
        assert(node_view(r).children =~= target.0);
    }
    r
}

/// The declared dependency tree from the root workspace: each workspace
/// with the workspaces it declares, a workspace reached a second time shown
/// by name only, and at each workspace the ambiguous, conflicting and
/// reverse dependencies and the undeclared dependencies its `Use` statements imply.
pub fn workspace_dependency_tree(tree: &WorkspaceDependencyTree) -> (r: DependencyNode)
    ensures
        node_view(r) == tree_spec(tree.model()),
{
    let ghost m = tree.model();
    let n = tree.len();
    let mut seen: Vec<String> = Vec::new();
    proof {
        assert(strings_of(seen@) =~= Seq::<Seq<char>>::empty());
        lemma_count_le(m, Seq::empty());
    }
    dependency_node(tree, 0, &mut seen, Ghost((m.len() + 1) as nat))
}

} // verus!

verus! {

/// A problem found with a workspace's library dependencies: what it is, the
/// workspace, the workspaces involved, how DataFlex 26 and 25 resolve it, the
/// source files it affects, the files they use, and what to do about it.
#[derive(Debug)]
pub struct DependencyIssue {
    pub description: String,
    pub workspace: String,
    pub related_workspaces: Vec<String>,
    pub df26: Option<String>,
    pub df25: Option<String>,
    pub impacted_files: Vec<String>,
    pub referenced_files: Vec<String>,
    pub suggestions: Vec<String>,
}

/// The abstract form of an issue.
#[verifier::ext_equal]
pub struct IssueView {
    pub description: Seq<char>,
    pub workspace: Seq<char>,
    pub related_workspaces: Seq<Seq<char>>,
    pub df26: Option<Seq<char>>,
    pub df25: Option<Seq<char>>,
    pub impacted_files: Seq<Seq<char>>,
    pub referenced_files: Seq<Seq<char>>,
    pub suggestions: Seq<Seq<char>>,
}

/// The abstract form of an issue.
pub open spec fn issue_view(i: DependencyIssue) -> IssueView {
    IssueView {
        description: i.description@,
        workspace: i.workspace@,
        related_workspaces: strings_of(i.related_workspaces@),
        df26: crate::ini_doc::opt_view(i.df26),
        df25: crate::ini_doc::opt_view(i.df25),
        impacted_files: strings_of(i.impacted_files@),
        referenced_files: strings_of(i.referenced_files@),
        suggestions: strings_of(i.suggestions@),
    }
}

/// The names of a list of workspaces.
pub open spec fn names_of_workspaces(ws: Seq<Workspace>) -> Seq<Seq<char>> {
    ws.map_values(|w: Workspace| ws_name(w))
}

/// The file names that a list of affected files uses, file by file.
pub open spec fn uses_of(fs: Seq<(Seq<char>, Seq<Seq<char>>)>) -> Seq<Seq<char>>
    decreases fs.len(),
{
    if fs.len() == 0 {
        Seq::empty()
    } else {
        uses_of(fs.drop_last()) + fs.last().1
    }
}

/// The names of `ns`, each once: a later spelling of a name already listed
/// (up to ASCII case) is left out.
pub open spec fn dedup_names(ns: Seq<Seq<char>>) -> Seq<Seq<char>>
    decreases ns.len(),
{
    if ns.len() == 0 {
        Seq::empty()
    } else {
        let r = dedup_names(ns.drop_last());
        if r.map_values(|x: Seq<char>| crate::text::lower_seq(x)).contains(crate::text::lower_seq(ns.last())) {
            r
        } else {
            r.push(ns.last())
        }
    }
}

/// The paths of the files named `name` in each of the workspaces `cs` that has one, in order.
pub open spec fn refs_for(m: Seq<WorkspaceContent>, name: Seq<char>, cs: Seq<Workspace>) -> Seq<Seq<char>>
    decreases cs.len(),
{
    if cs.len() == 0 {
        Seq::empty()
    } else {
        let r = refs_for(m, name, cs.drop_last());
        match crate::workspace_tree::file_in_workspace(m, cs.last().sws_path@, name) {
            Some(p) => r.push(p),
            None => r,
        }
    }
}

/// For each name of `names` in order, the paths of the files of that name in
/// the workspaces `cs`.
pub open spec fn refs_in(m: Seq<WorkspaceContent>, names: Seq<Seq<char>>, cs: Seq<Workspace>) -> Seq<Seq<char>>
    decreases names.len(),
{
    if names.len() == 0 {
        Seq::empty()
    } else {
        refs_in(m, names.drop_last(), cs) + refs_for(m, names.last(), cs)
    }
}

/// What the analysis of a dependency's source files gives.
pub open spec fn analysis_of(m: Seq<WorkspaceContent>, w: Workspace, d: (int, Seq<Workspace>)) -> Option<Seq<(Seq<char>, Seq<Seq<char>>)>> {
    crate::workspace_tree::source_analysis(m, w.sws_path@, d.1.map_values(|x: Workspace| ws_key(x)))
}

/// The paths of the files that an analysis finds affected.
pub open spec fn impacted_of(a: Option<Seq<(Seq<char>, Seq<Seq<char>>)>>) -> Seq<Seq<char>> {
    match a {
        Some(fs) => fs.map_values(|f: (Seq<char>, Seq<Seq<char>>)| f.0),
        None => Seq::empty(),
    }
}

/// The file names that the affected files use, each once.
pub open spec fn used_names_of(a: Option<Seq<(Seq<char>, Seq<Seq<char>>)>>) -> Seq<Seq<char>> {
    match a {
        Some(fs) => dedup_names(uses_of(fs)),
        None => Seq::empty(),
    }
}

/// The suggestion for an ambiguous dependency: `other` are the candidates
/// that DataFlex 25 does not pick (by name). When the indirect dependencies
/// of the workspace already include all of them, removing them is suggested;
/// otherwise pushing them down the tree.
pub open spec fn ambiguous_suggestion(m: Seq<WorkspaceContent>, w: Workspace, other: Seq<Workspace>) -> Seq<char> {
    let indirect = dedup_paths(deps_along(m, walk_from(m, true, w)));
    let text = display_text((1, other), false);
    if forall|k: int| 0 <= k < other.len() ==> path_in(indirect, #[trigger] other[k].sws_path@) {
        if other.len() > 1 {
            "Consider removing "@ + text + " as library dependencies to "@ + ws_name(w)
                + ". They're already included via indirect dependencies."@
        } else {
            "Consider removing "@ + text + " as a library dependency to "@ + ws_name(w)
                + ". It's already included via indirect dependencies."@
        }
    } else {
        "Consider pushing down "@ + text + " in the dependency tree"@
    }
}

/// The candidates whose names differ from that of `pick` (all of them when there is none).
pub open spec fn other_candidates(cands: Seq<Workspace>, pick: Option<Workspace>) -> Seq<Workspace>
    decreases cands.len(),
{
    if cands.len() == 0 {
        Seq::empty()
    } else {
        let r = other_candidates(cands.drop_last(), pick);
        if pick matches Some(p) && ws_name(cands.last()) == ws_name(p) {
            r
        } else {
            r.push(cands.last())
        }
    }
}

/// Whether a candidate `c` is one that the pick `pick` does not name.
pub open spec fn not_picked(c: Workspace, pick: Option<Workspace>) -> bool {
    match pick {
        Some(p) => ws_name(c) != ws_name(p),
        None => true,
    }
}

/// The candidates kept aside from the pick are exactly the candidates the pick does not name.
proof fn lemma_other_candidates(cands: Seq<Workspace>, pick: Option<Workspace>)
    ensures
        forall|k: int|
            0 <= k < other_candidates(cands, pick).len() ==> cands.contains(#[trigger] other_candidates(cands, pick)[k])
                && not_picked(other_candidates(cands, pick)[k], pick),
        forall|j: int|
            0 <= j < cands.len() && not_picked(#[trigger] cands[j], pick) ==> other_candidates(cands, pick).contains(
                cands[j],
            ),
    decreases cands.len(),
{
    if cands.len() > 0 {
        let init = cands.drop_last();
        lemma_other_candidates(init, pick);
        let r = other_candidates(init, pick);
        let o = other_candidates(cands, pick);
        assert forall|k: int| 0 <= k < o.len() implies cands.contains(#[trigger] o[k]) && not_picked(o[k], pick) by {
            if k < r.len() {
                assert(o[k] == r[k]);
                let j = choose|j: int| 0 <= j < init.len() && init[j] == r[k];
                assert(cands[j] == init[j]);
            } else {
                assert(o[k] == cands.last());
                assert(cands[cands.len() - 1] == cands.last());
            }
        }
        assert forall|j: int| 0 <= j < cands.len() && not_picked(#[trigger] cands[j], pick) implies o.contains(cands[j]) by {
            if j < cands.len() - 1 {
                assert(init[j] == cands[j]);
                let i = choose|i: int| 0 <= i < r.len() && r[i] == init[j];
                assert(o[i] == r[i]);
            } else {
                assert(o[r.len() as int] == cands[j]);
            }
        }
    }
}

/// For an ambiguous use, removing the candidates that DataFlex 25 does not
/// pick is suggested exactly when every one of them is already declared by a
/// workspace that the using workspace reaches; when any one of them is not,
/// pushing them down the tree is suggested instead.
pub proof fn lemma_ambiguous_suggestion(m: Seq<WorkspaceContent>, w: Workspace, cands: Seq<Workspace>)
    ensures
        ({
            let s = issue_spec(m, w, (1, cands)).unwrap().suggestions[0];
            let pick = df25_pick(m, cands);
            let reached = deps_along(m, walk_from(m, true, w));
            let uncovered = exists|k: int|
                0 <= k < cands.len() && not_picked(#[trigger] cands[k], pick) && !path_in(reached, cands[k].sws_path@);
            &&& uncovered ==> "Consider pushing down "@.is_prefix_of(s)
            &&& !uncovered ==> "Consider removing "@.is_prefix_of(s)
        }),
{
    let pick = df25_pick(m, cands);
    let reached = deps_along(m, walk_from(m, true, w));
    let indirect = dedup_paths(reached);
    let other = other_candidates(cands, pick);
    let text = display_text((1, other), false);
    let s = issue_spec(m, w, (1, cands)).unwrap().suggestions[0];
    assert(s == ambiguous_suggestion(m, w, other));
    lemma_other_candidates(cands, pick);
    let all_in = forall|k: int| 0 <= k < other.len() ==> path_in(indirect, #[trigger] other[k].sws_path@);
    if exists|k: int| 0 <= k < cands.len() && not_picked(#[trigger] cands[k], pick) && !path_in(reached, cands[k].sws_path@) {
        let k = choose|k: int| 0 <= k < cands.len() && not_picked(#[trigger] cands[k], pick) && !path_in(reached, cands[k].sws_path@);
        let i = choose|i: int| 0 <= i < other.len() && other[i] == cands[k];
        crate::workspace_tree::lemma_dedup_paths(reached, cands[k].sws_path@);
        assert(!path_in(indirect, other[i].sws_path@));
        assert(!all_in);
        let a = "Consider pushing down "@;
        assert(s == a + text + " in the dependency tree"@);
        assert((a + text + " in the dependency tree"@).subrange(0, a.len() as int) =~= a);
    } else {
        assert forall|k: int| 0 <= k < other.len() implies path_in(indirect, #[trigger] other[k].sws_path@) by {
            let j = choose|j: int| 0 <= j < cands.len() && cands[j] == other[k];
            assert(not_picked(cands[j], pick));
            crate::workspace_tree::lemma_dedup_paths(reached, other[k].sws_path@);
        }
        assert(all_in);
        let a = "Consider removing "@;
        if other.len() > 1 {
            let b = " as library dependencies to "@ + ws_name(w) + ". They're already included via indirect dependencies."@;
            assert(s == a + text + b);
            assert((a + text + b).subrange(0, a.len() as int) =~= a);
        } else {
            let b = " as a library dependency to "@ + ws_name(w) + ". It's already included via indirect dependencies."@;
            assert(s == a + text + b);
            assert((a + text + b).subrange(0, a.len() as int) =~= a);
        }
    }
}

/// What DataFlex 25 picks for an ambiguous set of candidates, if it picks one.
pub open spec fn df25_pick(m: Seq<WorkspaceContent>, cands: Seq<Workspace>) -> Option<Workspace> {
    let v = crate::workspace_tree::resolve_view(m, cands, false, true);
    if v.0 == 5 {
        Some(v.1[0])
    } else {
        None
    }
}

/// The issue that a dependency `d` (kind and workspaces) of workspace `w`
/// raises: none for a plain dependency; for a missing, reverse, ambiguous or
/// conflicting one, a description, the workspaces involved, the affected
/// files and the files they use in those workspaces, and suggestions.
pub open spec fn issue_spec(m: Seq<WorkspaceContent>, w: Workspace, d: (int, Seq<Workspace>)) -> Option<IssueView> {
    let a = analysis_of(m, w, d);
    let impacted = impacted_of(a);
    let names = used_names_of(a);
    if d.0 == 4 {
        Some(IssueView {
            description: "Missing library dependency."@,
            workspace: ws_name(w),
            related_workspaces: seq![ws_name(d.1[0])],
            df26: None,
            df25: None,
            impacted_files: impacted,
            referenced_files: refs_in(m, names, seq![d.1[0]]),
            suggestions: seq![
                "Consider adding "@ + ws_name(d.1[0]) + " as a library dependency to "@ + ws_name(w),
            ],
        })
    } else if d.0 == 3 {
        Some(IssueView {
            description: "Reverse Use references."@,
            workspace: ws_name(w),
            related_workspaces: seq![ws_name(d.1[0])],
            df26: None,
            df25: None,
            impacted_files: impacted,
            referenced_files: refs_in(m, names, seq![d.1[0]]),
            suggestions: seq![
                "Consider moving impacted files from "@ + ws_name(w) + " up the tree to "@ + ws_name(d.1[0]),
            ],
        })
    } else if d.0 == 1 {
        let pick = df25_pick(m, d.1);
        Some(IssueView {
            description: "Ambiguous Use references."@,
            workspace: ws_name(w),
            related_workspaces: names_of_workspaces(d.1),
            df26: Some("(Unresolved)"@),
            df25: match pick {
                Some(p) => Some(ws_name(p)),
                None => None,
            },
            impacted_files: impacted,
            referenced_files: refs_in(m, names, d.1),
            suggestions: seq![ambiguous_suggestion(m, w, other_candidates(d.1, pick))],
        })
    } else if d.0 == 2 {
        Some(IssueView {
            description: "Conflicting File Resolution."@,
            workspace: ws_name(w),
            related_workspaces: seq![ws_name(d.1[0]), ws_name(d.1[1])],
            df26: Some(ws_name(d.1[0])),
            df25: Some(ws_name(d.1[1])),
            impacted_files: impacted,
            referenced_files: refs_in(m, names, seq![d.1[0], d.1[1]]),
            suggestions: seq![
                "Consider whether it's possible to push "@ + ws_name(d.1[0]) + " down in the dependency tree"@,
                "Manually merge and resolve the source file conflicts with the same name."@,
            ],
        })
    } else {
        None
    }
}

} // verus!

verus! {

/// The paths of the affected files.
fn impacted_paths(fs: &Vec<crate::source_scan::SourceFile>) -> (r: Vec<String>)
    ensures
        strings_of(r@) == impacted_of(Some(crate::workspace_tree::files_view(fs@))),
{
    let ghost fv = crate::workspace_tree::files_view(fs@);
    let mut r: Vec<String> = Vec::new();
    let mut i: usize = 0;
    while i < fs.len()
        invariant
            0 <= i <= fs@.len(),
            fv == crate::workspace_tree::files_view(fs@),
            strings_of(r@) == fv.take(i as int).map_values(|f: (Seq<char>, Seq<Seq<char>>)| f.0),
        decreases fs.len() - i,
    {
        let ghost before = r@;
        let p = fs[i].path.clone();
        r.push(p);
        proof {
            crate::text::lemma_strings_push(before, p);
            assert(fv.take(i + 1).map_values(|f: (Seq<char>, Seq<Seq<char>>)| f.0) =~= fv.take(i as int).map_values(
                |f: (Seq<char>, Seq<Seq<char>>)| f.0,
            ).push(fv[i as int].0));
        }
        i += 1;
    }
    assert(fv.take(fs@.len() as int) =~= fv);
    r
}

/// Whether a name of `kept` is `x`, up to ASCII case.
fn has_name(kept: &Vec<crate::source_scan::FileName>, x: &crate::source_scan::FileName) -> (r: bool)
    ensures
        r == crate::source_scan::names_of(kept@).map_values(|n: Seq<char>| crate::text::lower_seq(n)).contains(
            crate::text::lower_seq(x.0@),
        ),
{
    let ghost ls = crate::source_scan::names_of(kept@).map_values(|n: Seq<char>| crate::text::lower_seq(n));
    let mut i: usize = 0;
    while i < kept.len()
        invariant
            0 <= i <= kept@.len(),
            ls == crate::source_scan::names_of(kept@).map_values(|n: Seq<char>| crate::text::lower_seq(n)),
            forall|t: int| 0 <= t < i ==> ls[t] != crate::text::lower_seq(x.0@),
        decreases kept.len() - i,
    {
        assert(ls[i as int] == crate::text::lower_seq(kept@[i as int].0@));
        if kept[i].same_as(x) {
            return true;
        }
        i += 1;
    }
    false
}

/// The file names that the affected files use, each once, first spelling kept.
fn used_names(fs: &Vec<crate::source_scan::SourceFile>) -> (r: Vec<crate::source_scan::FileName>)
    ensures
        crate::source_scan::names_of(r@) == dedup_names(uses_of(crate::workspace_tree::files_view(fs@))),
{
    let ghost fv = crate::workspace_tree::files_view(fs@);
    let mut r: Vec<crate::source_scan::FileName> = Vec::new();
    let mut i: usize = 0;
    proof {
        assert(crate::source_scan::names_of(r@) =~= dedup_names(uses_of(fv.take(0))));
    }
    while i < fs.len()
        invariant
            0 <= i <= fs@.len(),
            fv == crate::workspace_tree::files_view(fs@),
            crate::source_scan::names_of(r@) == dedup_names(uses_of(fv.take(i as int))),
        decreases fs.len() - i,
    {
        let deps = &fs[i].dependencies;
        let ghost base = uses_of(fv.take(i as int));
        let ghost dn = crate::source_scan::names_of(deps@);
        proof {
            assert(fv.take(i + 1).drop_last() =~= fv.take(i as int));
            assert(fv.take(i + 1).last() == fv[i as int]);
            assert(fv[i as int].1 == dn);
            assert(base + dn.take(0) =~= base);
        }
        let mut j: usize = 0;
        while j < deps.len()
            invariant
                0 <= j <= deps@.len(),
                dn == crate::source_scan::names_of(deps@),
                crate::source_scan::names_of(r@) == dedup_names(base + dn.take(j as int)),
            decreases deps.len() - j,
        {
            proof {
                assert((base + dn.take(j + 1)).drop_last() =~= base + dn.take(j as int));
                assert((base + dn.take(j + 1)).last() == deps@[j as int].0@);
            }
            if !has_name(&r, &deps[j]) {
                let ghost before = crate::source_scan::names_of(r@);
                let c = deps[j].copy();
                r.push(c);
                assert(crate::source_scan::names_of(r@) =~= before.push(deps@[j as int].0@));
            }
            j += 1;
        }
        assert(dn.take(deps@.len() as int) =~= dn);
        i += 1;
    }
    assert(fv.take(fs@.len() as int) =~= fv);
    r
}

/// For each name in order, the paths of the files of that name in the workspaces `cs`.
fn referenced_paths(
    tree: &WorkspaceDependencyTree,
    names: &Vec<crate::source_scan::FileName>,
    cs: &Vec<&Workspace>,
) -> (r: Vec<String>)
    ensures
        strings_of(r@) == refs_in(tree.model(), crate::source_scan::names_of(names@), crate::workspace_tree::vals(cs@)),
{
    let ghost m = tree.model();
    let ghost nm = crate::source_scan::names_of(names@);
    let ghost cv = crate::workspace_tree::vals(cs@);
    let mut r: Vec<String> = Vec::new();
    let mut i: usize = 0;
    proof {
        assert(strings_of(r@) =~= refs_in(m, nm.take(0), cv));
    }
    while i < names.len()
        invariant
            0 <= i <= names@.len(),
            m == tree.model(),
            nm == crate::source_scan::names_of(names@),
            cv == crate::workspace_tree::vals(cs@),
            strings_of(r@) == refs_in(m, nm.take(i as int), cv),
        decreases names.len() - i,
    {
        let ghost base = strings_of(r@);
        let ghost name = names@[i as int].0@;
        proof {
            assert(nm.take(i + 1).drop_last() =~= nm.take(i as int));
            assert(nm.take(i + 1).last() == name);
            assert(base + refs_for(m, name, cv.take(0)) =~= base);
        }
        let mut j: usize = 0;
        while j < cs.len()
            invariant
                0 <= j <= cs@.len(),
                m == tree.model(),
                cv == crate::workspace_tree::vals(cs@),
                i < names@.len(),
                name == names@[i as int].0@,
                strings_of(r@) == base + refs_for(m, name, cv.take(j as int)),
            decreases cs.len() - j,
        {
            proof {
                assert(cv.take(j + 1).drop_last() =~= cv.take(j as int));
                assert(cv.take(j + 1).last() == *cs@[j as int]);
            }
            match tree.source_file_in_workspace(&names[i], cs[j]) {
                Some(p) => {
                    let ghost before = r@;
                    let pc = p.clone();
                    r.push(pc);
                    proof {
                        crate::text::lemma_strings_push(before, pc);
                    }
                },
                None => {},
            }
            j += 1;
        }
        assert(cv.take(cs@.len() as int) =~= cv);
        i += 1;
    }
    assert(nm.take(names@.len() as int) =~= nm);
    r
}

/// The names of a list of workspaces.
fn workspace_names(cs: &Vec<&Workspace>) -> (r: Vec<String>)
    requires
        all_named(crate::workspace_tree::vals(cs@)),
    ensures
        strings_of(r@) == names_of_workspaces(crate::workspace_tree::vals(cs@)),
{
    let ghost cv = crate::workspace_tree::vals(cs@);
    let mut r: Vec<String> = Vec::new();
    let mut i: usize = 0;
    while i < cs.len()
        invariant
            0 <= i <= cs@.len(),
            cv == crate::workspace_tree::vals(cs@),
            all_named(cv),
            strings_of(r@) == names_of_workspaces(cv.take(i as int)),
        decreases cs.len() - i,
    {
        assert(cv[i as int].has_name_spec());
        let ghost before = r@;
        let n = cs[i].name();
        r.push(n);
        proof {
            crate::text::lemma_strings_push(before, n);
            assert(names_of_workspaces(cv.take(i + 1)) =~= names_of_workspaces(cv.take(i as int)).push(
                ws_name(cv[i as int]),
            ));
        }
        i += 1;
    }
    assert(cv.take(cs@.len() as int) =~= cv);
    r
}

/// A list of one string.
fn one(s: String) -> (r: Vec<String>)
    ensures
        strings_of(r@) == seq![s@],
{
    let mut r: Vec<String> = Vec::new();
    r.push(s);
    assert(strings_of(r@) =~= seq![s@]);
    r
}

/// A list of two strings.
fn two(a: String, b: String) -> (r: Vec<String>)
    ensures
        strings_of(r@) == seq![a@, b@],
{
    let mut r: Vec<String> = Vec::new();
    r.push(a);
    r.push(b);
    assert(strings_of(r@) =~= seq![a@, b@]);
    r
}

} // verus!

verus! {

/// `a`, `b` and `c` joined.
fn join3(a: &str, b: &str, c: &str) -> (r: String)
    ensures
        r@ == a@ + b@ + c@,
{
    let t = crate::text::concat(a, b);
    crate::text::concat(t.as_str(), c)
}

/// `a`, `b`, `c` and `d` joined.
fn join4(a: &str, b: &str, c: &str, d: &str) -> (r: String)
    ensures
        r@ == a@ + b@ + c@ + d@,
{
    let t = join3(a, b, c);
    crate::text::concat(t.as_str(), d)
}

/// The candidates whose names differ from that of `pick`.
fn other_candidates_exec<'a>(cands: &Vec<&'a Workspace>, pick: Option<&'a Workspace>) -> (r: Vec<&'a Workspace>)
    requires
        all_named(crate::workspace_tree::vals(cands@)),
        pick matches Some(p) ==> p.has_name_spec(),
    ensures
        crate::workspace_tree::vals(r@) == other_candidates(
            crate::workspace_tree::vals(cands@),
            match pick {
                Some(p) => Some(*p),
                None => None,
            },
        ),
        all_named(crate::workspace_tree::vals(r@)),
{
    let ghost cv = crate::workspace_tree::vals(cands@);
    let ghost pv = match pick {
        Some(p) => Some(*p),
        None => None::<Workspace>,
    };
    let pick_name = match pick {
        Some(p) => Some(p.name()),
        None => None,
    };
    let mut r: Vec<&'a Workspace> = Vec::new();
    let mut i: usize = 0;
    proof {
        assert(crate::workspace_tree::vals(r@) =~= other_candidates(cv.take(0), pv));
    }
    while i < cands.len()
        invariant
            0 <= i <= cands@.len(),
            cv == crate::workspace_tree::vals(cands@),
            all_named(cv),
            pv == match pick {
                Some(p) => Some(*p),
                None => None::<Workspace>,
            },
            pick_name matches Some(n) ==> pv matches Some(p) && n@ == ws_name(p),
            pick_name is None ==> pv is None,
            crate::workspace_tree::vals(r@) == other_candidates(cv.take(i as int), pv),
            all_named(crate::workspace_tree::vals(r@)),
        decreases cands.len() - i,
    {
        proof {
            assert(cv.take(i + 1).drop_last() =~= cv.take(i as int));
            assert(cv.take(i + 1).last() == *cands@[i as int]);
            assert(cv[i as int].has_name_spec());
        }
        let keep = match &pick_name {
            Some(n) => cands[i].name() != *n,
            None => true,
        };
        if keep {
            let ghost before = r@;
            r.push(cands[i]);
            assert(crate::workspace_tree::vals(r@) =~= crate::workspace_tree::vals(before).push(*cands@[i as int]));
        }
        i += 1;
    }
    assert(cv.take(cands@.len() as int) =~= cv);
    r
}

/// Whether the paths `indirect` name every workspace of `ws`.
fn all_in_paths(ws: &Vec<&Workspace>, indirect: &Vec<String>) -> (r: bool)
    ensures
        r == forall|k: int|
            0 <= k < ws@.len() ==> path_in(strings_of(indirect@), #[trigger] crate::workspace_tree::vals(ws@)[k].sws_path@),
{
    let mut i: usize = 0;
    while i < ws.len()
        invariant
            0 <= i <= ws@.len(),
            forall|k: int| 0 <= k < i ==> path_in(strings_of(indirect@), #[trigger] crate::workspace_tree::vals(ws@)[k].sws_path@),
        decreases ws.len() - i,
    {
        let k = path_key(ws[i].sws_path.as_str());
        if !paths_contain_key(indirect, &k) {
            assert(!path_in(strings_of(indirect@), crate::workspace_tree::vals(ws@)[i as int].sws_path@));
            return false;
        }
        i += 1;
    }
    true
}

/// The issue that a dependency `dep` of `workspace` raises, as `issue_spec`
/// describes: none for a plain dependency.
pub fn dependency_issue(workspace: &Workspace, dep: &WorkspaceDependency, tree: &WorkspaceDependencyTree) -> (r: Option<DependencyIssue>)
    requires
        dview(*dep).0 != 5 ==> workspace.has_name_spec() && all_named(dview(*dep).1),
    ensures
        match r {
            Some(i) => issue_spec(tree.model(), *workspace, dview(*dep)) == Some(issue_view(i)),
            None => issue_spec(tree.model(), *workspace, dview(*dep)) is None,
        },
{
    let ghost m = tree.model();
    let ghost d = dview(*dep);
    let analysis = tree.analyze_source_dependency(workspace, dep);
    let ghost a = analysis_of(m, *workspace, d);
    proof {
        assert(d.1.map_values(|x: Workspace| ws_key(x)) =~= crate::workspace_tree::dep_keys(*dep));
    }
    let (impacted, names) = match &analysis {
        Some(fs) => (impacted_paths(fs), used_names(fs)),
        None => {
            let i: Vec<String> = Vec::new();
            let n: Vec<crate::source_scan::FileName> = Vec::new();
            assert(strings_of(i@) =~= Seq::<Seq<char>>::empty());
            assert(crate::source_scan::names_of(n@) =~= Seq::<Seq<char>>::empty());
            (i, n)
        },
    };
    assert(strings_of(impacted@) == impacted_of(a));
    assert(crate::source_scan::names_of(names@) == used_names_of(a));
    match dep {
        WorkspaceDependency::Dependency(_) => None,
        WorkspaceDependency::Missing(x) => {
            assert(d.1[0] == **x);
            let xs: Vec<&Workspace> = vec![*x];
            assert(crate::workspace_tree::vals(xs@) =~= seq![**x]);
            let issue = DependencyIssue {
                description: "Missing library dependency.".to_string(),
                workspace: workspace.name(),
                related_workspaces: one(x.name()),
                df26: None,
                df25: None,
                impacted_files: impacted,
                referenced_files: referenced_paths(tree, &names, &xs),
                suggestions: one(
                    join4(
                        "Consider adding ",
                        x.name().as_str(),
                        " as a library dependency to ",
                        workspace.name().as_str(),
                    ),
                ),
            };
            assert(issue_view(issue) =~= issue_spec(m, *workspace, d).unwrap());
            Some(issue)
        },
        WorkspaceDependency::Reverse(x) => {
            assert(d.1[0] == **x);
            let xs: Vec<&Workspace> = vec![*x];
            assert(crate::workspace_tree::vals(xs@) =~= seq![**x]);
            let issue = DependencyIssue {
                description: "Reverse Use references.".to_string(),
                workspace: workspace.name(),
                related_workspaces: one(x.name()),
                df26: None,
                df25: None,
                impacted_files: impacted,
                referenced_files: referenced_paths(tree, &names, &xs),
                suggestions: one(
                    join4(
                        "Consider moving impacted files from ",
                        workspace.name().as_str(),
                        " up the tree to ",
                        x.name().as_str(),
                    ),
                ),
            };
            assert(issue_view(issue) =~= issue_spec(m, *workspace, d).unwrap());
            Some(issue)
        },
        WorkspaceDependency::Conflicting(a26, b25) => {
            assert(d.1[0] == **a26);
            assert(d.1[1] == **b25);
            let xs: Vec<&Workspace> = vec![*a26, *b25];
            assert(crate::workspace_tree::vals(xs@) =~= seq![**a26, **b25]);
            let issue = DependencyIssue {
                description: "Conflicting File Resolution.".to_string(),
                workspace: workspace.name(),
                related_workspaces: two(a26.name(), b25.name()),
                df26: Some(a26.name()),
                df25: Some(b25.name()),
                impacted_files: impacted,
                referenced_files: referenced_paths(tree, &names, &xs),
                suggestions: two(
                    join3(
                        "Consider whether it's possible to push ",
                        a26.name().as_str(),
                        " down in the dependency tree",
                    ),
                    "Manually merge and resolve the source file conflicts with the same name.".to_string(),
                ),
            };
            assert(issue_view(issue) =~= issue_spec(m, *workspace, d).unwrap());
            Some(issue)
        },
        WorkspaceDependency::Ambiguous(cands) => {
            let ghost cv = crate::workspace_tree::vals(cands@);
            assert(d == (1int, cv));
            let indirect = tree.defined_indirect_workspace_dependencies(workspace);
            proof {
                crate::workspace_tree::lemma_resolve_named(m, cv, false, true);
            }
            let r25 = tree.resolve_workspace_dependency_df25(dep.copy());
            let pick: Option<&Workspace> = match r25 {
                WorkspaceDependency::Dependency(x) => Some(x),
                _ => None,
            };
            let ghost pv = match pick {
                Some(p) => Some(*p),
                None => None::<Workspace>,
            };
            assert(pv == df25_pick(m, cv));
            let other = other_candidates_exec(cands, pick);
            let ghost ov = crate::workspace_tree::vals(other@);
            let covered = all_in_paths(&other, &indirect);
            let many = other.len() > 1;
            let other_text = WorkspaceDependency::Ambiguous(other).to_string();
            assert(other_text@ == display_text((1, ov), false));
            let suggestion = if covered {
                if many {
                    join4(
                        "Consider removing ",
                        other_text.as_str(),
                        " as library dependencies to ",
                        workspace.name().as_str(),
                    )
                } else {
                    join4(
                        "Consider removing ",
                        other_text.as_str(),
                        " as a library dependency to ",
                        workspace.name().as_str(),
                    )
                }
            } else {
                join3("Consider pushing down ", other_text.as_str(), " in the dependency tree")
            };
            let suggestion = if covered {
                if many {
                    crate::text::concat(suggestion.as_str(), ". They're already included via indirect dependencies.")
                } else {
                    crate::text::concat(suggestion.as_str(), ". It's already included via indirect dependencies.")
                }
            } else {
                suggestion
            };
            assert(suggestion@ == ambiguous_suggestion(m, *workspace, ov));
            let issue = DependencyIssue {
                description: "Ambiguous Use references.".to_string(),
                workspace: workspace.name(),
                related_workspaces: workspace_names(cands),
                df26: Some("(Unresolved)".to_string()),
                df25: match pick {
                    Some(p) => Some(p.name()),
                    None => None,
                },
                impacted_files: impacted,
                referenced_files: referenced_paths(tree, &names, cands),
                suggestions: one(suggestion),
            };
            assert(issue_view(issue) =~= issue_spec(m, *workspace, d).unwrap());
            Some(issue)
        },
    }
}

} // verus!

verus! {

/// The abstract forms of a list of issues.
pub open spec fn issues_view(s: Seq<DependencyIssue>) -> Seq<IssueView> {
    s.map_values(|i: DependencyIssue| issue_view(i))
}

/// `s` with the issue `o`, if there is one, added.
pub open spec fn push_issue(s: Seq<IssueView>, o: Option<IssueView>) -> Seq<IssueView> {
    match o {
        Some(i) => s.push(i),
        None => s,
    }
}

/// The errors and the warnings that the implied dependencies `vs` of `w`
/// raise, in order: an undeclared plain dependency (its path not among
/// `defined`) is a missing one of `w`, a warning that suggests declaring it
/// in `w`; ambiguous and conflicting ones are errors; missing and reverse
/// ones are warnings.
pub open spec fn workspace_issues(
    m: Seq<WorkspaceContent>,
    w: Workspace,
    defined: Seq<Seq<char>>,
    vs: Seq<(int, Seq<Workspace>)>,
) -> (Seq<IssueView>, Seq<IssueView>)
    decreases vs.len(),
{
    if vs.len() == 0 {
        (Seq::empty(), Seq::empty())
    } else {
        let (e, wn) = workspace_issues(m, w, defined, vs.drop_last());
        let v = vs.last();
        if v.0 == 5 {
            if path_in(defined, v.1[0].sws_path@) {
                (e, wn)
            } else {
                (e, push_issue(wn, issue_spec(m, w, (4, v.1))))
            }
        } else if v.0 == 1 || v.0 == 2 {
            (push_issue(e, issue_spec(m, w, v)), wn)
        } else {
            (e, push_issue(wn, issue_spec(m, w, v)))
        }
    }
}

/// The errors and warnings of the workspaces `ws`, workspace by workspace.
pub open spec fn issues_along(m: Seq<WorkspaceContent>, ws: Seq<Workspace>) -> (Seq<IssueView>, Seq<IssueView>)
    decreases ws.len(),
{
    if ws.len() == 0 {
        (Seq::empty(), Seq::empty())
    } else {
        let (e, wn) = issues_along(m, ws.drop_last());
        let w = ws.last();
        let (e2, w2) = workspace_issues(m, w, defined_paths(m, w), calculated_spec(m, w));
        (e + e2, wn + w2)
    }
}

/// The errors and warnings of all workspaces of the tree, in breadth-first
/// order from the root.
pub open spec fn issues_spec(m: Seq<WorkspaceContent>) -> (Seq<IssueView>, Seq<IssueView>) {
    issues_along(m, crate::workspace_tree::ws_at(m, crate::workspace_tree::search_order(m, true)))
}

/// `v` with the issue `o`, if there is one, added.
fn push_some(v: &mut Vec<DependencyIssue>, o: Option<DependencyIssue>)
    ensures
        issues_view(final(v)@) == push_issue(
            issues_view(old(v)@),
            match o {
                Some(i) => Some(issue_view(i)),
                None => None,
            },
        ),
{
    match o {
        Some(i) => {
            let ghost before = v@;
            v.push(i);
            assert(issues_view(v@) =~= issues_view(before).push(issue_view(i)));
        },
        None => {},
    }
}

/// The errors and the warnings of every workspace of the tree, in
/// breadth-first order from the root, as `issues_spec` describes.
pub fn dependency_issues(tree: &WorkspaceDependencyTree) -> (r: (Vec<DependencyIssue>, Vec<DependencyIssue>))
    ensures
        (issues_view(r.0@), issues_view(r.1@)) == issues_spec(tree.model()),
{
    let ghost m = tree.model();
    let all = tree.all_workspaces();
    let ghost wv = crate::workspace_tree::vals(all@);
    let mut errors: Vec<DependencyIssue> = Vec::new();
    let mut warnings: Vec<DependencyIssue> = Vec::new();
    let mut i: usize = 0;
    proof {
        assert(issues_view(errors@) =~= Seq::<IssueView>::empty());
        assert(issues_view(warnings@) =~= Seq::<IssueView>::empty());
        assert(wv.take(0) =~= Seq::<Workspace>::empty());
    }
    while i < all.len()
        invariant
            0 <= i <= all@.len(),
            m == tree.model(),
            wv == crate::workspace_tree::vals(all@),
            all_named(wv),
            (issues_view(errors@), issues_view(warnings@)) == issues_along(m, wv.take(i as int)),
        decreases all.len() - i,
    {
        let w = all[i];
        proof {
            assert(wv[i as int] == *w);
            assert(w.has_name_spec());
        }
        let defined = tree.defined_transitive_workspace_dependencies(w);
        let calc = tree.calculated_workspace_dependencies(w);
        let ghost vs = dviews(calc@);
        let ghost e0 = issues_view(errors@);
        let ghost w0 = issues_view(warnings@);
        let mut k: usize = 0;
        proof {
            assert(vs.take(0) =~= Seq::<(int, Seq<Workspace>)>::empty());
            assert(e0 + Seq::<IssueView>::empty() =~= e0);
            assert(w0 + Seq::<IssueView>::empty() =~= w0);
        }
        while k < calc.len()
            invariant
                0 <= k <= calc@.len(),
                m == tree.model(),
                vs == dviews(calc@),
                w.has_name_spec(),
                forall|t: int| 0 <= t < calc@.len() ==> all_named(#[trigger] dview(calc@[t]).1),
                issues_view(errors@) == e0 + workspace_issues(m, *w, strings_of(defined@), vs.take(k as int)).0,
                issues_view(warnings@) == w0 + workspace_issues(m, *w, strings_of(defined@), vs.take(k as int)).1,
            decreases calc.len() - k,
        {
            proof {
                assert(vs.take(k + 1).drop_last() =~= vs.take(k as int));
                assert(vs.take(k + 1).last() == dview(calc@[k as int]));
                assert(all_named(dview(calc@[k as int]).1));
            }
            let ghost eb = issues_view(errors@);
            let ghost wb = issues_view(warnings@);
            let ghost wi = workspace_issues(m, *w, strings_of(defined@), vs.take(k as int));
            match &calc[k] {
                WorkspaceDependency::Dependency(x) => {
                    assert(dview(calc@[k as int]).1[0] == **x);
                    let key = path_key(x.sws_path.as_str());
                    if !paths_contain_key(&defined, &key) {
                        let miss = WorkspaceDependency::Missing(*x);
                        assert(dview(miss) == (4int, dview(calc@[k as int]).1)) by {
                            assert(dview(miss).1 =~= dview(calc@[k as int]).1);
                        }
                        let o = dependency_issue(w, &miss, tree);
                        push_some(&mut warnings, o);
                        assert(issues_view(warnings@) =~= w0 + push_issue(wi.1, issue_spec(m, *w, (4, dview(calc@[k as int]).1))));
                    }
                },
                WorkspaceDependency::Ambiguous(_) | WorkspaceDependency::Conflicting(_, _) => {
                    let o = dependency_issue(w, &calc[k], tree);
                    push_some(&mut errors, o);
                    assert(issues_view(errors@) =~= e0 + push_issue(wi.0, issue_spec(m, *w, dview(calc@[k as int]))));
                },
                _ => {
                    let o = dependency_issue(w, &calc[k], tree);
                    push_some(&mut warnings, o);
                    assert(issues_view(warnings@) =~= w0 + push_issue(wi.1, issue_spec(m, *w, dview(calc@[k as int]))));
                },
            }
            k += 1;
        }
        proof {
            assert(vs.take(calc@.len() as int) =~= vs);
            assert(wv.take(i + 1).drop_last() =~= wv.take(i as int));
            assert(wv.take(i + 1).last() == *w);
        }
        i += 1;
    }
    proof {
        assert(wv.take(all@.len() as int) =~= wv);
    }
    (errors, warnings)
}

} // verus!

verus! {

/// A workspace that holds a file of a name that other workspaces hold too:
/// the workspace's name, the file's path, and the group of identical files it
/// belongs to.
#[derive(Debug)]
pub struct ConflictingFileCandidate {
    pub workspace: String,
    pub path: String,
    pub group: usize,
}

/// A file name that several workspaces hold: the workspaces' files, and the
/// workspaces that DataFlex 26 and DataFlex 25 take it from.
#[derive(Debug)]
pub struct ConflictingFile {
    pub name: String,
    pub candidates: Vec<ConflictingFileCandidate>,
    pub df26: String,
    pub df25: String,
}

/// The abstract form of a candidate.
pub open spec fn candidate_view(c: ConflictingFileCandidate) -> (Seq<char>, Seq<char>, nat) {
    (c.workspace@, c.path@, c.group as nat)
}

/// The abstract form of a conflicting file.
pub open spec fn conflict_view(c: ConflictingFile) -> (Seq<char>, Seq<(Seq<char>, Seq<char>, nat)>, Seq<char>, Seq<char>) {
    (c.name@, c.candidates@.map_values(|x: ConflictingFileCandidate| candidate_view(x)), c.df26@, c.df25@)
}

/// For each workspace of `ws` that holds a file named `name`, its name and
/// the path of that file, in order.
pub open spec fn candidate_files(m: Seq<WorkspaceContent>, name: Seq<char>, ws: Seq<Workspace>) -> Seq<(Seq<char>, Seq<char>)>
    decreases ws.len(),
{
    if ws.len() == 0 {
        Seq::empty()
    } else {
        let r = candidate_files(m, name, ws.drop_last());
        match crate::workspace_tree::file_in_workspace(m, ws.last().sws_path@, name) {
            Some(p) => r.push((ws_name(ws.last()), p)),
            None => r,
        }
    }
}

/// The name of the workspace a resolution picks, or `(Unresolved)`.
pub open spec fn resolution_name(v: (int, Seq<Workspace>)) -> Seq<char> {
    if v.0 == 5 {
        ws_name(v.1[0])
    } else {
        "(Unresolved)"@
    }
}

/// The content read for the file at `p`: that of the first entry of `read`
/// with that path, or `None` when there is none or it could not be read.
pub open spec fn content_of(read: Seq<(Seq<char>, Option<Seq<u8>>)>, p: Seq<char>) -> Option<Seq<u8>> {
    let i = crate::lookup::first_match(read.map_values(|e: (Seq<char>, Option<Seq<u8>>)| e.0 == p));
    if i < 0 {
        None
    } else {
        read[i].1
    }
}

/// The report on a duplicate file (`e`: its name and the workspaces that hold
/// it) given the contents `read` of the files: each workspace's file, grouped
/// by identical content, and the names of the workspaces that DataFlex 26
/// and 25 resolve it to.
pub open spec fn conflict_spec(
    m: Seq<WorkspaceContent>,
    e: (Seq<char>, (int, Seq<Workspace>)),
    read: Seq<(Seq<char>, Option<Seq<u8>>)>,
) -> (Seq<char>, Seq<(Seq<char>, Seq<char>, nat)>, Seq<char>, Seq<char>) {
    let cands = candidate_files(m, e.0, e.1.1);
    let keys = cands.map_values(|c: (Seq<char>, Seq<char>)| path_identity(c.1));
    let contents = cands.map_values(|c: (Seq<char>, Seq<char>)| content_of(read, c.1));
    (
        e.0,
        Seq::new(
            cands.len(),
            |k: int| (cands[k].0, cands[k].1, crate::grouping::file_group(keys, contents, k)),
        ),
        resolution_name(crate::workspace_tree::resolve_view(m, e.1.1, true, false)),
        resolution_name(crate::workspace_tree::resolve_view(m, e.1.1, false, true)),
    )
}

/// The files that several workspaces hold, in the order of
/// `all_duplicate_filenames`.
pub open spec fn duplicates_sorted(m: Seq<WorkspaceContent>) -> Seq<(Seq<char>, (int, Seq<Workspace>))> {
    crate::workspace_tree::sort_named(crate::workspace_tree::duplicates_spec(m))
}

/// The paths read, with their contents, as text and bytes.
pub open spec fn read_view(read: Seq<(String, Option<Vec<u8>>)>) -> Seq<(Seq<char>, Option<Seq<u8>>)> {
    read.map_values(|e: (String, Option<Vec<u8>>)|
        (
            e.0@,
            match e.1 {
                Some(b) => Some(b@),
                None => None,
            },
        ))
}

/// The workspace names and file paths of a duplicate file's candidates.
fn candidate_list(tree: &WorkspaceDependencyTree, name: &crate::source_scan::FileName, ws: &Vec<&Workspace>) -> (r: Vec<(String, String)>)
    requires
        all_named(crate::workspace_tree::vals(ws@)),
    ensures
        r@.map_values(|c: (String, String)| (c.0@, c.1@)) == candidate_files(tree.model(), name.0@, crate::workspace_tree::vals(ws@)),
{
    let ghost m = tree.model();
    let ghost wv = crate::workspace_tree::vals(ws@);
    let mut r: Vec<(String, String)> = Vec::new();
    let mut i: usize = 0;
    proof {
        assert(r@.map_values(|c: (String, String)| (c.0@, c.1@)) =~= candidate_files(m, name.0@, wv.take(0)));
    }
    while i < ws.len()
        invariant
            0 <= i <= ws@.len(),
            m == tree.model(),
            wv == crate::workspace_tree::vals(ws@),
            all_named(wv),
            r@.map_values(|c: (String, String)| (c.0@, c.1@)) == candidate_files(m, name.0@, wv.take(i as int)),
        decreases ws.len() - i,
    {
        proof {
            assert(wv.take(i + 1).drop_last() =~= wv.take(i as int));
            assert(wv.take(i + 1).last() == *ws@[i as int]);
            assert(wv[i as int].has_name_spec());
        }
        match tree.source_file_in_workspace(name, ws[i]) {
            Some(p) => {
                let ghost before = r@.map_values(|c: (String, String)| (c.0@, c.1@));
                let entry = (ws[i].name(), p.clone());
                r.push(entry);
                assert(r@.map_values(|c: (String, String)| (c.0@, c.1@)) =~= before.push((entry.0@, entry.1@)));
            },
            None => {},
        }
        i += 1;
    }
    assert(wv.take(ws@.len() as int) =~= wv);
    r
}

/// The content read for the file at `p`.
fn lookup_content(read: &Vec<(String, Option<Vec<u8>>)>, p: &String) -> (r: Option<Vec<u8>>)
    ensures
        match r {
            Some(b) => content_of(read_view(read@), p@) == Some(b@),
            None => content_of(read_view(read@), p@) is None,
        },
{
    let ghost rv = read_view(read@);
    let ghost flags = rv.map_values(|e: (Seq<char>, Option<Seq<u8>>)| e.0 == p@);
    let mut i: usize = 0;
    while i < read.len()
        invariant
            0 <= i <= read@.len(),
            rv == read_view(read@),
            flags == rv.map_values(|e: (Seq<char>, Option<Seq<u8>>)| e.0 == p@),
            forall|t: int| 0 <= t < i ==> !flags[t],
        decreases read.len() - i,
    {
        assert(flags[i as int] == (read@[i as int].0@ == p@));
        if read[i].0 == *p {
            proof {
                crate::lookup::lemma_first_match_at(flags, i as int);
            }
            return match &read[i].1 {
                Some(b) => Some(b.clone()),
                None => None,
            };
        }
        i += 1;
    }
    proof {
        crate::lookup::lemma_first_match_none(flags);
    }
    None
}

/// The name of the workspace a resolution picks, or `(Unresolved)`.
fn resolution_text(d: &WorkspaceDependency) -> (r: String)
    requires
        all_named(dview(*d).1),
    ensures
        dview(*d).0 == 5 ==> r@ == ws_name(dview(*d).1[0]),
        dview(*d).0 != 5 ==> r@ == "(Unresolved)"@,
{
    match d {
        WorkspaceDependency::Dependency(w) => {
            assert(dview(*d).1[0] == **w);
            w.name()
        },
        _ => "(Unresolved)".to_string(),
    }
}

/// For each file name that several workspaces hold, in the order of
/// `all_duplicate_filenames`, the paths of the files of that name in those
/// workspaces: the files whose contents `conflicting_files` compares.
pub fn conflict_candidate_paths(tree: &WorkspaceDependencyTree) -> (r: Vec<Vec<String>>)
    ensures
        r@.len() == duplicates_sorted(tree.model()).len(),
        forall|k: int|
            0 <= k < r@.len() ==> strings_of(#[trigger] r@[k]@) == candidate_files(
                tree.model(),
                duplicates_sorted(tree.model())[k].0,
                duplicates_sorted(tree.model())[k].1.1,
            ).map_values(|c: (Seq<char>, Seq<char>)| c.1),
{
    let ghost m = tree.model();
    let dups = tree.all_duplicate_filenames();
    let ghost dv = crate::workspace_tree::named_view(dups@);
    let mut r: Vec<Vec<String>> = Vec::new();
    let mut i: usize = 0;
    while i < dups.len()
        invariant
            0 <= i <= dups@.len(),
            m == tree.model(),
            dv == crate::workspace_tree::named_view(dups@),
            dv == duplicates_sorted(m),
            forall|k: int| 0 <= k < dups@.len() ==> crate::workspace_tree::ambiguous_named(#[trigger] crate::workspace_tree::named_view(dups@)[k]),
            r@.len() == i,
            forall|k: int|
                0 <= k < i ==> strings_of(#[trigger] r@[k]@) == candidate_files(m, dv[k].0, dv[k].1.1).map_values(
                    |c: (Seq<char>, Seq<char>)| c.1,
                ),
        decreases dups.len() - i,
    {
        let ws = dups[i].1.all();
        proof {
            assert(crate::workspace_tree::ambiguous_named(dv[i as int]));
            assert(crate::workspace_tree::vals(ws@) == dv[i as int].1.1);
        }
        let cands = candidate_list(tree, &dups[i].0, &ws);
        let mut paths: Vec<String> = Vec::new();
        let mut j: usize = 0;
        let ghost cv = cands@.map_values(|c: (String, String)| (c.0@, c.1@));
        while j < cands.len()
            invariant
                0 <= j <= cands@.len(),
                cv == cands@.map_values(|c: (String, String)| (c.0@, c.1@)),
                strings_of(paths@) == cv.take(j as int).map_values(|c: (Seq<char>, Seq<char>)| c.1),
            decreases cands.len() - j,
        {
            let ghost before = paths@;
            let p = cands[j].1.clone();
            paths.push(p);
            proof {
                crate::text::lemma_strings_push(before, p);
                assert(cv.take(j + 1).map_values(|c: (Seq<char>, Seq<char>)| c.1) =~= cv.take(j as int).map_values(
                    |c: (Seq<char>, Seq<char>)| c.1,
                ).push(cv[j as int].1));
            }
            j += 1;
        }
        assert(cv.take(cands@.len() as int) =~= cv);
        r.push(paths);
        i += 1;
    }
    r
}

} // verus!

verus! {

/// The report on each file name that several workspaces hold, in the order
/// of `all_duplicate_filenames`: `read` holds the contents of the candidate
/// files (those of `conflict_candidate_paths`) by path, `None` for a file
/// that could not be read. A file missing from `read` counts as unread.
pub fn conflicting_files(tree: &WorkspaceDependencyTree, read: &Vec<(String, Option<Vec<u8>>)>) -> (r: Vec<ConflictingFile>)
    ensures
        r@.len() == duplicates_sorted(tree.model()).len(),
        forall|k: int|
            0 <= k < r@.len() ==> conflict_view(#[trigger] r@[k]) == conflict_spec(
                tree.model(),
                duplicates_sorted(tree.model())[k],
                read_view(read@),
            ),
{
    let ghost m = tree.model();
    let ghost rv = read_view(read@);
    let dups = tree.all_duplicate_filenames();
    let ghost dv = crate::workspace_tree::named_view(dups@);
    let mut r: Vec<ConflictingFile> = Vec::new();
    let mut i: usize = 0;
    while i < dups.len()
        invariant
            0 <= i <= dups@.len(),
            m == tree.model(),
            rv == read_view(read@),
            dv == crate::workspace_tree::named_view(dups@),
            dv == duplicates_sorted(m),
            forall|k: int| 0 <= k < dups@.len() ==> crate::workspace_tree::ambiguous_named(#[trigger] crate::workspace_tree::named_view(dups@)[k]),
            r@.len() == i,
            forall|k: int| 0 <= k < i ==> conflict_view(#[trigger] r@[k]) == conflict_spec(m, dv[k], rv),
        decreases dups.len() - i,
    {
        let ghost e = dv[i as int];
        let ws = dups[i].1.all();
        proof {
            assert(crate::workspace_tree::ambiguous_named(e));
            assert(crate::workspace_tree::vals(ws@) == e.1.1);
        }
        let cands = candidate_list(tree, &dups[i].0, &ws);
        let ghost cv = cands@.map_values(|c: (String, String)| (c.0@, c.1@));
        assert(cv == candidate_files(m, e.0, e.1.1));
        let mut paths: Vec<String> = Vec::new();
        let mut contents: Vec<Option<Vec<u8>>> = Vec::new();
        let mut j: usize = 0;
        while j < cands.len()
            invariant
                0 <= j <= cands@.len(),
                rv == read_view(read@),
                cv == cands@.map_values(|c: (String, String)| (c.0@, c.1@)),
                paths@.len() == j,
                contents@.len() == j,
                strings_of(paths@) == cv.take(j as int).map_values(|c: (Seq<char>, Seq<char>)| path_of(c)),
                crate::grouping::contents_view(contents@) == cv.take(j as int).map_values(
                    |c: (Seq<char>, Seq<char>)| content_of(rv, c.1),
                ),
            decreases cands.len() - j,
        {
            let ghost pb = paths@;
            let ghost cb = contents@;
            let p = cands[j].1.clone();
            let c = lookup_content(read, &p);
            paths.push(p);
            contents.push(c);
            proof {
                crate::text::lemma_strings_push(pb, p);
                assert(cv.take(j + 1).map_values(|c: (Seq<char>, Seq<char>)| path_of(c)) =~= cv.take(j as int).map_values(
                    |c: (Seq<char>, Seq<char>)| path_of(c),
                ).push(cv[j as int].1));
                assert(crate::grouping::contents_view(contents@) =~= crate::grouping::contents_view(cb).push(
                    content_of(rv, cv[j as int].1),
                ));
                assert(cv.take(j + 1).map_values(|c: (Seq<char>, Seq<char>)| content_of(rv, c.1)) =~= cv.take(
                    j as int,
                ).map_values(|c: (Seq<char>, Seq<char>)| content_of(rv, c.1)).push(content_of(rv, cv[j as int].1)));
            }
            j += 1;
        }
        proof {
            assert(cv.take(cands@.len() as int) =~= cv);
        }
        let groups = crate::grouping::group_identical_files(&paths, &contents);
        let ghost keys = cv.map_values(|c: (Seq<char>, Seq<char>)| path_identity(c.1));
        proof {
            assert(strings_of(paths@).map_values(|p: Seq<char>| path_identity(p)) =~= keys);
        }
        let mut candidates: Vec<ConflictingFileCandidate> = Vec::new();
        let mut t: usize = 0;
        while t < cands.len()
            invariant
                0 <= t <= cands@.len(),
                cv == cands@.map_values(|c: (String, String)| (c.0@, c.1@)),
                groups@.len() == cands@.len(),
                forall|k: int|
                    0 <= k < groups@.len() ==> #[trigger] groups@[k] == crate::grouping::file_group(
                        keys,
                        crate::grouping::contents_view(contents@),
                        k,
                    ),
                candidates@.len() == t,
                forall|k: int|
                    0 <= k < t ==> candidate_view(#[trigger] candidates@[k]) == (
                        cv[k].0,
                        cv[k].1,
                        crate::grouping::file_group(keys, crate::grouping::contents_view(contents@), k),
                    ),
            decreases cands.len() - t,
        {
            let c = ConflictingFileCandidate { workspace: cands[t].0.clone(), path: cands[t].1.clone(), group: groups[t] };
            candidates.push(c);
            t += 1;
        }
        let r26 = tree.resolve_workspace_dependency_df26(dups[i].1.copy());
        let r25 = tree.resolve_workspace_dependency_df25(dups[i].1.copy());
        proof {
            crate::workspace_tree::lemma_resolve_named(m, e.1.1, true, false);
            crate::workspace_tree::lemma_resolve_named(m, e.1.1, false, true);
        }
        let df26 = resolution_text(&r26);
        let df25 = resolution_text(&r25);
        let file = ConflictingFile { name: dups[i].0.to_string(), candidates, df26, df25 };
        proof {
            let spec = conflict_spec(m, e, rv);
            assert(crate::grouping::contents_view(contents@) =~= cv.map_values(
                |c: (Seq<char>, Seq<char>)| content_of(rv, c.1),
            ));
            assert(conflict_view(file).1 =~= spec.1);
            assert(conflict_view(file) == spec);
        }
        r.push(file);
        i += 1;
    }
    r
}

/// The path of a candidate.
pub open spec fn path_of(c: (Seq<char>, Seq<char>)) -> Seq<char> {
    c.1
}

} // verus!

verus! {

/// An issue that is an error: an ambiguous or a conflicting use.
pub open spec fn is_error_issue(i: IssueView) -> bool {
    i.description == "Ambiguous Use references."@ || i.description == "Conflicting File Resolution."@
}

/// An issue that is a warning: a missing dependency or a reverse use.
pub open spec fn is_warning_issue(i: IssueView) -> bool {
    i.description == "Missing library dependency."@ || i.description == "Reverse Use references."@
}

proof fn lemma_workspace_issue_kinds(
    m: Seq<WorkspaceContent>,
    w: Workspace,
    defined: Seq<Seq<char>>,
    vs: Seq<(int, Seq<Workspace>)>,
)
    ensures
        forall|k: int|
            0 <= k < workspace_issues(m, w, defined, vs).0.len() ==> is_error_issue(
                #[trigger] workspace_issues(m, w, defined, vs).0[k],
            ),
        forall|k: int|
            0 <= k < workspace_issues(m, w, defined, vs).1.len() ==> is_warning_issue(
                #[trigger] workspace_issues(m, w, defined, vs).1[k],
            ),
    decreases vs.len(),
{
    if vs.len() > 0 {
        lemma_workspace_issue_kinds(m, w, defined, vs.drop_last());
        let (e, wn) = workspace_issues(m, w, defined, vs.drop_last());
        let v = vs.last();
        let (e2, w2) = workspace_issues(m, w, defined, vs);
        assert forall|k: int| 0 <= k < e2.len() implies is_error_issue(#[trigger] e2[k]) by {
            if k < e.len() {
                assert(e2[k] == e[k]);
            }
        }
        assert forall|k: int| 0 <= k < w2.len() implies is_warning_issue(#[trigger] w2[k]) by {
            if k < wn.len() {
                assert(w2[k] == wn[k]);
            }
        }
    }
}

proof fn lemma_issues_along_kinds(m: Seq<WorkspaceContent>, ws: Seq<Workspace>)
    ensures
        forall|k: int| 0 <= k < issues_along(m, ws).0.len() ==> is_error_issue(#[trigger] issues_along(m, ws).0[k]),
        forall|k: int| 0 <= k < issues_along(m, ws).1.len() ==> is_warning_issue(#[trigger] issues_along(m, ws).1[k]),
    decreases ws.len(),
{
    if ws.len() > 0 {
        lemma_issues_along_kinds(m, ws.drop_last());
        let w = ws.last();
        lemma_workspace_issue_kinds(m, w, defined_paths(m, w), calculated_spec(m, w));
        let (e, wn) = issues_along(m, ws.drop_last());
        let (e2, w2) = workspace_issues(m, w, defined_paths(m, w), calculated_spec(m, w));
        assert forall|k: int| 0 <= k < (e + e2).len() implies is_error_issue(#[trigger] (e + e2)[k]) by {
            if k < e.len() {
                assert((e + e2)[k] == e[k]);
            } else {
                assert((e + e2)[k] == e2[k - e.len()]);
            }
        }
        assert forall|k: int| 0 <= k < (wn + w2).len() implies is_warning_issue(#[trigger] (wn + w2)[k]) by {
            if k < wn.len() {
                assert((wn + w2)[k] == wn[k]);
            } else {
                assert((wn + w2)[k] == w2[k - wn.len()]);
            }
        }
    }
}

/// The errors are the ambiguous and conflicting uses; the warnings are the
/// missing dependencies and reverse uses.
pub proof fn lemma_issue_kinds(m: Seq<WorkspaceContent>)
    ensures
        forall|k: int| 0 <= k < issues_spec(m).0.len() ==> is_error_issue(#[trigger] issues_spec(m).0[k]),
        forall|k: int| 0 <= k < issues_spec(m).1.len() ==> is_warning_issue(#[trigger] issues_spec(m).1[k]),
{
    lemma_issues_along_kinds(m, crate::workspace_tree::ws_at(m, crate::workspace_tree::search_order(m, true)));
}

/// The warning that an undeclared plain dependency `v` of `w` raises.
pub open spec fn missing_warning(m: Seq<WorkspaceContent>, w: Workspace, v: (int, Seq<Workspace>)) -> IssueView {
    issue_spec(m, w, (4, v.1)).unwrap()
}

proof fn lemma_workspace_missing_warned(
    m: Seq<WorkspaceContent>,
    w: Workspace,
    defined: Seq<Seq<char>>,
    vs: Seq<(int, Seq<Workspace>)>,
    j: int,
)
    requires
        0 <= j < vs.len(),
        vs[j].0 == 5,
        !path_in(defined, vs[j].1[0].sws_path@),
    ensures
        workspace_issues(m, w, defined, vs).1.contains(missing_warning(m, w, vs[j])),
    decreases vs.len(),
{
    let (e, wn) = workspace_issues(m, w, defined, vs.drop_last());
    let (e2, w2) = workspace_issues(m, w, defined, vs);
    if j == vs.len() - 1 {
        assert(w2 == wn.push(missing_warning(m, w, vs[j])));
        assert(w2[wn.len() as int] == missing_warning(m, w, vs[j]));
    } else {
        assert(vs.drop_last()[j] == vs[j]);
        lemma_workspace_missing_warned(m, w, defined, vs.drop_last(), j);
        let k = choose|k: int| 0 <= k < wn.len() && wn[k] == missing_warning(m, w, vs[j]);
        assert(w2.len() >= wn.len() && w2[k] == wn[k]);
    }
}

proof fn lemma_issues_along_missing(m: Seq<WorkspaceContent>, ws: Seq<Workspace>, t: int, j: int)
    requires
        0 <= t < ws.len(),
        0 <= j < calculated_spec(m, ws[t]).len(),
        calculated_spec(m, ws[t])[j].0 == 5,
        !path_in(defined_paths(m, ws[t]), calculated_spec(m, ws[t])[j].1[0].sws_path@),
    ensures
        issues_along(m, ws).1.contains(missing_warning(m, ws[t], calculated_spec(m, ws[t])[j])),
    decreases ws.len(),
{
    let target = missing_warning(m, ws[t], calculated_spec(m, ws[t])[j]);
    let (e, wn) = issues_along(m, ws.drop_last());
    let w = ws.last();
    let (e2, w2) = workspace_issues(m, w, defined_paths(m, w), calculated_spec(m, w));
    if t == ws.len() - 1 {
        lemma_workspace_missing_warned(m, w, defined_paths(m, w), calculated_spec(m, w), j);
        let k = choose|k: int| 0 <= k < w2.len() && w2[k] == target;
        assert((wn + w2)[wn.len() + k] == target);
    } else {
        assert(ws.drop_last()[t] == ws[t]);
        lemma_issues_along_missing(m, ws.drop_last(), t, j);
        let k = choose|k: int| 0 <= k < wn.len() && wn[k] == target;
        assert((wn + w2)[k] == target);
    }
}

/// Every plain dependency that a workspace of the tree implies through its
/// `Use` statements, and that neither it nor any workspace it reaches
/// declares, is reported as a warning: a missing library dependency of that
/// workspace, naming the library and suggesting to declare it.
pub proof fn lemma_missing_dependency_warned(m: Seq<WorkspaceContent>, t: int, j: int)
    requires
        0 <= t < crate::workspace_tree::search_order(m, true).len(),
        0 <= j < calculated_spec(m, crate::workspace_tree::ws_at(m, crate::workspace_tree::search_order(m, true))[t]).len(),
        calculated_spec(m, crate::workspace_tree::ws_at(m, crate::workspace_tree::search_order(m, true))[t])[j].0 == 5,
        !path_in(
            defined_paths(m, crate::workspace_tree::ws_at(m, crate::workspace_tree::search_order(m, true))[t]),
            calculated_spec(m, crate::workspace_tree::ws_at(m, crate::workspace_tree::search_order(m, true))[t])[j].1[0].sws_path@,
        ),
    ensures
        ({
            let w = crate::workspace_tree::ws_at(m, crate::workspace_tree::search_order(m, true))[t];
            let x = calculated_spec(m, w)[j].1[0];
            exists|k: int|
                0 <= k < issues_spec(m).1.len() && {
                    let i = #[trigger] issues_spec(m).1[k];
                    &&& i.description == "Missing library dependency."@
                    &&& i.workspace == ws_name(w)
                    &&& i.related_workspaces == seq![ws_name(x)]
                    &&& i.suggestions == seq![
                        "Consider adding "@ + ws_name(x) + " as a library dependency to "@ + ws_name(w),
                    ]
                }
        }),
{
    let ws = crate::workspace_tree::ws_at(m, crate::workspace_tree::search_order(m, true));
    lemma_issues_along_missing(m, ws, t, j);
    let target = missing_warning(m, ws[t], calculated_spec(m, ws[t])[j]);
    let k = choose|k: int| 0 <= k < issues_spec(m).1.len() && issues_spec(m).1[k] == target;
    assert(issues_spec(m).1[k] == target);
}

} // verus!

verus! {

/// At a workspace shown in full, the node lists, in the order of the implied
/// dependencies, the texts of the ambiguous, conflicting and reverse ones,
/// and the names of the plain ones that its declarations do not reach.
pub proof fn lemma_expanded_node(m: Seq<WorkspaceContent>, i: int, seen: Seq<Seq<char>>, fuel: nat)
    requires
        !seen.contains(ws_key(m[i].workspace)),
        fuel > 0,
    ensures
        ({
            let w = m[i].workspace;
            let calc = calculated_spec(m, w);
            let n = node_spec(m, i, seen, fuel).0;
            &&& n.name == ws_name(w)
            &&& n.ambiguous_use == texts_of_kind(calc, 1)
            &&& n.conflicting_use == texts_of_kind(calc, 2)
            &&& n.reverse_use == texts_of_kind(calc, 3)
            &&& n.missing_dependencies == missing_names(calc, defined_paths(m, w))
        }),
{
}

/// In the report on a duplicate file, two candidates share a group exactly
/// when their paths are the same path, or when the contents read for the
/// last candidates with their paths are both there and identical.
pub proof fn lemma_conflict_groups(
    m: Seq<WorkspaceContent>,
    e: (Seq<char>, (int, Seq<Workspace>)),
    read: Seq<(Seq<char>, Option<Seq<u8>>)>,
    j: int,
    k: int,
)
    requires
        0 <= j < conflict_spec(m, e, read).1.len(),
        0 <= k < conflict_spec(m, e, read).1.len(),
    ensures
        ({
            let cands = candidate_files(m, e.0, e.1.1);
            let keys = cands.map_values(|c: (Seq<char>, Seq<char>)| path_identity(c.1));
            let contents = cands.map_values(|c: (Seq<char>, Seq<char>)| content_of(read, c.1));
            let lj = crate::grouping::last_index(keys, keys[j], j);
            let lk = crate::grouping::last_index(keys, keys[k], k);
            conflict_spec(m, e, read).1[j].2 == conflict_spec(m, e, read).1[k].2 <==> (path_identity(
                conflict_spec(m, e, read).1[j].1,
            ) == path_identity(conflict_spec(m, e, read).1[k].1) || (contents[lj] is Some && contents[lk] is Some
                && contents[lj] == contents[lk]))
        }),
{
    let cands = candidate_files(m, e.0, e.1.1);
    let keys = cands.map_values(|c: (Seq<char>, Seq<char>)| path_identity(c.1));
    let contents = cands.map_values(|c: (Seq<char>, Seq<char>)| content_of(read, c.1));
    crate::grouping::lemma_file_groups(keys, contents, j, k);
}

/// Every referenced file is the file of one of the used names in one of the
/// workspaces involved.
pub proof fn lemma_refs_origin(m: Seq<WorkspaceContent>, names: Seq<Seq<char>>, cs: Seq<Workspace>)
    ensures
        forall|t: int|
            0 <= t < refs_in(m, names, cs).len() ==> exists|a: int, b: int|
                0 <= a < names.len() && 0 <= b < cs.len() && #[trigger] crate::workspace_tree::file_in_workspace(
                    m,
                    cs[b].sws_path@,
                    names[a],
                ) == Some(#[trigger] refs_in(m, names, cs)[t]),
    decreases names.len(),
{
    if names.len() > 0 {
        let init = names.drop_last();
        lemma_refs_origin(m, init, cs);
        lemma_refs_for_origin(m, names.last(), cs);
        let r0 = refs_in(m, init, cs);
        let r1 = refs_for(m, names.last(), cs);
        let r = refs_in(m, names, cs);
        assert(r == r0 + r1);
        assert forall|t: int| 0 <= t < r.len() implies exists|a: int, b: int|
            0 <= a < names.len() && 0 <= b < cs.len() && #[trigger] crate::workspace_tree::file_in_workspace(
                m,
                cs[b].sws_path@,
                names[a],
            ) == Some(#[trigger] r[t]) by {
            if t < r0.len() {
                assert(r[t] == r0[t]);
                let (a, b) = choose|a: int, b: int|
                    0 <= a < init.len() && 0 <= b < cs.len() && #[trigger] crate::workspace_tree::file_in_workspace(
                        m,
                        cs[b].sws_path@,
                        init[a],
                    ) == Some(#[trigger] r0[t]);
                assert(names[a] == init[a]);
            } else {
                assert(r[t] == r1[t - r0.len()]);
                let b = choose|b: int| 0 <= b < cs.len() && #[trigger] crate::workspace_tree::file_in_workspace(
                    m,
                    cs[b].sws_path@,
                    names.last(),
                ) == Some(r1[t - r0.len()]);
                assert(names[names.len() - 1] == names.last());
            }
        }
    }
}

proof fn lemma_refs_for_origin(m: Seq<WorkspaceContent>, name: Seq<char>, cs: Seq<Workspace>)
    ensures
        forall|t: int|
            0 <= t < refs_for(m, name, cs).len() ==> exists|b: int|
                0 <= b < cs.len() && #[trigger] crate::workspace_tree::file_in_workspace(m, cs[b].sws_path@, name) == Some(
                    #[trigger] refs_for(m, name, cs)[t],
                ),
    decreases cs.len(),
{
    if cs.len() > 0 {
        let init = cs.drop_last();
        lemma_refs_for_origin(m, name, init);
        let r0 = refs_for(m, name, init);
        let r = refs_for(m, name, cs);
        assert forall|t: int| 0 <= t < r.len() implies exists|b: int|
            0 <= b < cs.len() && #[trigger] crate::workspace_tree::file_in_workspace(m, cs[b].sws_path@, name) == Some(#[trigger] r[t]) by {
            if t < r0.len() {
                assert(r[t] == r0[t]);
                let b = choose|b: int| 0 <= b < init.len() && #[trigger] crate::workspace_tree::file_in_workspace(
                    m,
                    init[b].sws_path@,
                    name,
                ) == Some(r0[t]);
                assert(cs[b] == init[b]);
            } else {
                assert(cs[cs.len() - 1] == cs.last());
            }
        }
    }
}

} // verus!
