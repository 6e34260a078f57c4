//! The dependency tree of a root workspace and its library workspaces: which
//! workspace holds which source file, the order in which workspaces are
//! searched, and the workspace dependencies that the `Use` statements imply.
use vstd::prelude::*;
use crate::ini_doc::opt_view;
use crate::lookup::{first_match, lemma_first_match, lemma_first_match_at, lemma_first_match_none};
use crate::paths::{file_name_of, path_file_name, path_identity, path_key};
use crate::source_scan::{FileName, SourceFile};
use crate::text::{lemma_lex_total, lemma_lex_transitive, lex_le, lex_lt, lower_seq, strings_of};
use crate::terminal::{terminal_color, to_terminal_color, ShownColor};
use crate::workspace::Workspace;

verus! {

/// A workspace and its source files.
#[derive(Debug)]
pub struct WorkspaceContent {
    pub workspace: Workspace,
    pub source_files: Vec<SourceFile>,
}

/// A workspace of the tree, with the component forms of its path and its
/// dependencies and the file names of its source files.
#[derive(Debug)]
struct TreeNode {
    content: WorkspaceContent,
    key: String,
    dep_keys: Vec<String>,
    file_names: Vec<Option<String>>,
}

/// The dependency tree: every workspace read, keyed by its path, and, for each
/// source file name, the workspaces that hold a file of that name.
#[derive(Debug)]
pub struct WorkspaceDependencyTree {
    nodes: Vec<TreeNode>,
    file_names: Vec<FileName>,
    file_nodes: Vec<Vec<usize>>,
}

/// The component form of a workspace's path, which identifies it in the tree.
pub open spec fn ws_key(w: Workspace) -> Seq<char> {
    path_identity(w.sws_path@)
}

/// The component forms of a workspace's declared dependencies.
pub open spec fn dep_keys_of(w: Workspace) -> Seq<Seq<char>> {
    w.deps().map_values(|p: Seq<char>| path_identity(p))
}

/// The index of the workspace whose path has component form `k`, or `-1`.
pub open spec fn find_key(m: Seq<WorkspaceContent>, k: Seq<char>) -> int {
    first_match(m.map_values(|c: WorkspaceContent| ws_key(c.workspace) == k))
}

/// No two workspaces of `m` have the same path.
pub open spec fn keys_unique(m: Seq<WorkspaceContent>) -> bool {
    forall|i: int, j: int|
        0 <= i < m.len() && 0 <= j < m.len() && i != j ==> ws_key(#[trigger] m[i].workspace) != ws_key(
            #[trigger] m[j].workspace,
        )
}

/// `m` with `c` added: a workspace with the same path is replaced in place,
/// otherwise `c` goes at the end (as inserting into a map keyed by path).
pub open spec fn insert_content(m: Seq<WorkspaceContent>, c: WorkspaceContent) -> Seq<WorkspaceContent> {
    let i = find_key(m, ws_key(c.workspace));
    if i >= 0 {
        m.update(i, c)
    } else {
        m.push(c)
    }
}

/// The workspaces of `cs`, inserted in order.
pub open spec fn build_model(cs: Seq<WorkspaceContent>) -> Seq<WorkspaceContent>
    decreases cs.len(),
{
    if cs.len() == 0 {
        Seq::empty()
    } else {
        insert_content(build_model(cs.drop_last()), cs.last())
    }
}

/// The named source files of one workspace, at index `i` of the tree: each
/// file name with the index, in order.
pub open spec fn file_entries(files: Seq<SourceFile>, i: int) -> Seq<(Seq<char>, int)>
    decreases files.len(),
{
    if files.len() == 0 {
        Seq::empty()
    } else {
        let init = file_entries(files.drop_last(), i);
        match file_name_of(files.last().path@) {
            Some(n) => init.push((n, i)),
            None => init,
        }
    }
}

/// The named source files of all workspaces, workspace by workspace.
pub open spec fn flat_files(m: Seq<WorkspaceContent>) -> Seq<(Seq<char>, int)>
    decreases m.len(),
{
    if m.len() == 0 {
        Seq::empty()
    } else {
        flat_files(m.drop_last()) + file_entries(m.last().source_files@, m.len() - 1)
    }
}

/// The index of the entry for file name `n` (compared up to ASCII case), or `-1`.
pub open spec fn find_name(g: Seq<(Seq<char>, Seq<int>)>, n: Seq<char>) -> int {
    first_match(g.map_values(|e: (Seq<char>, Seq<int>)| lower_seq(e.0) == lower_seq(n)))
}

/// The file map with one more file: a name already present keeps its first
/// spelling and gains the workspace, unless it lists that workspace already;
/// a new name gets an entry of its own.
pub open spec fn insert_file(g: Seq<(Seq<char>, Seq<int>)>, e: (Seq<char>, int)) -> Seq<(Seq<char>, Seq<int>)> {
    let p = find_name(g, e.0);
    if p >= 0 {
        if g[p].1.contains(e.1) {
            g
        } else {
            g.update(p, (g[p].0, g[p].1.push(e.1)))
        }
    } else {
        g.push((e.0, seq![e.1]))
    }
}

/// The file map built from a list of named files.
pub open spec fn grouped(f: Seq<(Seq<char>, int)>) -> Seq<(Seq<char>, Seq<int>)>
    decreases f.len(),
{
    if f.len() == 0 {
        Seq::empty()
    } else {
        insert_file(grouped(f.drop_last()), f.last())
    }
}

/// The map from each source file name to the workspaces (by index) that hold
/// a file of that name, each workspace once, in order of first appearance,
/// names in order of first appearance.
pub open spec fn source_map(m: Seq<WorkspaceContent>) -> Seq<(Seq<char>, Seq<int>)> {
    grouped(flat_files(m))
}

impl TreeNode {
    spec fn ok(&self) -> bool {
        &&& self.key@ == ws_key(self.content.workspace)
        &&& strings_of(self.dep_keys@) == dep_keys_of(self.content.workspace)
        &&& self.file_names@.len() == self.content.source_files@.len()
        &&& forall|j: int|
            0 <= j < self.file_names@.len() ==> opt_view(#[trigger] self.file_names@[j]) == file_name_of(
                self.content.source_files@[j].path@,
            )
    }

    /// Builds the node of a workspace and its source files.
    fn new(content: WorkspaceContent) -> (r: TreeNode)
        ensures
            r.ok(),
            r.content == content,
    {
        let key = path_key(content.workspace.sws_path.as_str());
        let mut dep_keys: Vec<String> = Vec::new();
        let mut i: usize = 0;
        while i < content.workspace.dependencies.len()
            invariant
                0 <= i <= content.workspace.dependencies.len(),
                strings_of(dep_keys@) == dep_keys_of(content.workspace).take(i as int),
            decreases content.workspace.dependencies.len() - i,
        {
            let k = path_key(content.workspace.dependencies[i].as_str());
            let ghost prev = dep_keys@;
            dep_keys.push(k);
            proof {
                crate::text::lemma_strings_push(prev, k);
            }
            i += 1;
            assert(strings_of(dep_keys@) =~= dep_keys_of(content.workspace).take(i as int));
        }
        assert(dep_keys_of(content.workspace).take(i as int) =~= dep_keys_of(content.workspace));
        let mut file_names: Vec<Option<String>> = Vec::new();
        let mut j: usize = 0;
        while j < content.source_files.len()
            invariant
                0 <= j <= content.source_files.len(),
                file_names@.len() == j,
                forall|t: int| 0 <= t < j ==> opt_view(#[trigger] file_names@[t]) == file_name_of(
                    content.source_files@[t].path@,
                ),
            decreases content.source_files.len() - j,
        {
            file_names.push(path_file_name(content.source_files[j].path.as_str()));
            j += 1;
        }
        TreeNode { content, key, dep_keys, file_names }
    }
}

/// A file map kept as a list of names and a list of workspace index lists.
spec fn files_view_of(names: Seq<FileName>, lists: Seq<Vec<usize>>) -> Seq<(Seq<char>, Seq<int>)> {
    Seq::new(names.len(), |i: int| (names[i].0@, lists[i]@.map_values(|x: usize| x as int)))
}

/// The contents of a list of nodes.
spec fn contents_of(nodes: Seq<TreeNode>) -> Seq<WorkspaceContent> {
    nodes.map_values(|n: TreeNode| n.content)
}

impl WorkspaceDependencyTree {
    /// The workspaces of the tree and their source files, in the order they were added.
    pub closed spec fn model(&self) -> Seq<WorkspaceContent> {
        contents_of(self.nodes@)
    }

    /// The file map of the tree, as kept.
    closed spec fn files_view(&self) -> Seq<(Seq<char>, Seq<int>)> {
        files_view_of(self.file_names@, self.file_nodes@)
    }

    #[verifier::type_invariant]
    closed spec fn inv(&self) -> bool {
        &&& self.nodes@.len() >= 1
        &&& forall|i: int| 0 <= i < self.nodes@.len() ==> (#[trigger] self.nodes@[i]).ok()
        &&& forall|i: int| 0 <= i < self.nodes@.len() ==> (#[trigger] self.nodes@[i]).content.workspace.has_name_spec()
        &&& keys_unique(self.model())
        &&& self.file_names@.len() == self.file_nodes@.len()
        &&& self.files_view() == source_map(self.model())
        &&& forall|i: int, k: int|
            0 <= i < self.file_nodes@.len() && 0 <= k < self.file_nodes@[i]@.len() ==> #[trigger] self.file_nodes@[i]@[k]
                < self.nodes@.len()
    }
}

} // verus!

verus! {

/// Adds a node to a list of nodes keyed by path, as `insert_content` describes.
fn insert_node(nodes: &mut Vec<TreeNode>, node: TreeNode)
    requires
        forall|i: int| 0 <= i < old(nodes)@.len() ==> (#[trigger] old(nodes)@[i]).ok(),
        forall|i: int| 0 <= i < old(nodes)@.len() ==> (#[trigger] old(nodes)@[i]).content.workspace.has_name_spec(),
        keys_unique(contents_of(old(nodes)@)),
        node.ok(),
        node.content.workspace.has_name_spec(),
    ensures
        forall|i: int| 0 <= i < final(nodes)@.len() ==> (#[trigger] final(nodes)@[i]).ok(),
        forall|i: int| 0 <= i < final(nodes)@.len() ==> (#[trigger] final(nodes)@[i]).content.workspace.has_name_spec(),
        keys_unique(contents_of(final(nodes)@)),
        contents_of(final(nodes)@) == insert_content(contents_of(old(nodes)@), node.content),
        final(nodes)@.len() >= old(nodes)@.len(),
{
    let ghost m = contents_of(nodes@);
    let ghost k = ws_key(node.content.workspace);
    let ghost flags = m.map_values(|c: WorkspaceContent| ws_key(c.workspace) == k);
    let mut i: usize = 0;
    while i < nodes.len()
        invariant
            0 <= i <= nodes@.len(),
            nodes@ == old(nodes)@,
            m == contents_of(nodes@),
            flags == m.map_values(|c: WorkspaceContent| ws_key(c.workspace) == k),
            node.ok(),
            k == ws_key(node.content.workspace),
            forall|t: int| 0 <= t < nodes@.len() ==> (#[trigger] nodes@[t]).ok(),
            forall|t: int| 0 <= t < nodes@.len() ==> (#[trigger] nodes@[t]).content.workspace.has_name_spec(),
            node.content.workspace.has_name_spec(),
            keys_unique(m),
            forall|t: int| 0 <= t < i ==> !flags[t],
        decreases nodes.len() - i,
    {
        assert(nodes@[i as int].ok());
        if nodes[i].key == node.key {
            proof {
                assert(flags[i as int]);
                lemma_first_match_at(flags, i as int);
                assert(find_key(m, k) == i);
            }
            nodes.set(i, node);
            proof {
                assert(contents_of(nodes@) =~= m.update(i as int, node.content));
                assert forall|a: int, b: int|
                    0 <= a < contents_of(nodes@).len() && 0 <= b < contents_of(nodes@).len() && a != b
                    implies ws_key(#[trigger] contents_of(nodes@)[a].workspace) != ws_key(
                        #[trigger] contents_of(nodes@)[b].workspace,
                    ) by {
                    assert(ws_key(m[i as int].workspace) == k);
                    if a != i && b != i {
                        assert(ws_key(m[a].workspace) != ws_key(m[b].workspace));
                    } else if a == i {
                        assert(ws_key(m[b].workspace) != ws_key(m[i as int].workspace));
                    } else {
                        assert(ws_key(m[a].workspace) != ws_key(m[i as int].workspace));
                    }
                }
            }
            return;
        }
        assert(!flags[i as int]);
        i += 1;
    }
    proof {
        lemma_first_match_none(flags);
    }
    nodes.push(node);
    proof {
        assert(contents_of(nodes@) =~= m.push(node.content));
        assert forall|a: int, b: int|
            0 <= a < contents_of(nodes@).len() && 0 <= b < contents_of(nodes@).len() && a != b
            implies ws_key(#[trigger] contents_of(nodes@)[a].workspace) != ws_key(
                #[trigger] contents_of(nodes@)[b].workspace,
            ) by {
            if a < m.len() && b < m.len() {
                assert(ws_key(m[a].workspace) != ws_key(m[b].workspace));
            } else if a == m.len() {
                assert(!flags[b]);
            } else {
                assert(!flags[a]);
            }
        }
    }
}

/// Whether `i` is among the indices `v`.
fn contains_index(v: &Vec<usize>, i: usize) -> (r: bool)
    ensures
        r == ints(v@).contains(i as int),
{
    let mut k: usize = 0;
    while k < v.len()
        invariant
            0 <= k <= v@.len(),
            forall|t: int| 0 <= t < k ==> ints(v@)[t] != i as int,
        decreases v.len() - k,
    {
        if v[k] == i {
            assert(ints(v@)[k as int] == i as int);
            return true;
        }
        k += 1;
    }
    false
}

/// A copy of a list of indices.
fn copy_indices(v: &Vec<usize>) -> (r: Vec<usize>)
    ensures
        r@ == v@,
{
    let mut r: Vec<usize> = Vec::new();
    let mut i: usize = 0;
    while i < v.len()
        invariant
            0 <= i <= v.len(),
            r@ == v@.take(i as int),
        decreases v.len() - i,
    {
        r.push(v[i]);
        i += 1;
        assert(r@ =~= v@.take(i as int));
    }
    assert(v@.take(v.len() as int) =~= v@);
    r
}

/// Unfolding `flat_files` one workspace further.
proof fn lemma_flat_take(m: Seq<WorkspaceContent>, i: int)
    requires
        0 <= i < m.len(),
    ensures
        flat_files(m.take(i + 1)) == flat_files(m.take(i)) + file_entries(m[i].source_files@, i),
{
    assert(m.take(i + 1).drop_last() =~= m.take(i));
}

/// Unfolding `file_entries` one file further.
proof fn lemma_file_entries_take(files: Seq<SourceFile>, j: int, i: int)
    requires
        0 <= j < files.len(),
    ensures
        file_entries(files.take(j + 1), i) == match file_name_of(files[j].path@) {
            Some(n) => file_entries(files.take(j), i).push((n, i)),
            None => file_entries(files.take(j), i),
        },
{
    assert(files.take(j + 1).drop_last() =~= files.take(j));
}

/// Unfolding `grouped` one file further.
proof fn lemma_grouped_push(f: Seq<(Seq<char>, int)>, e: (Seq<char>, int))
    ensures
        grouped(f.push(e)) == insert_file(grouped(f), e),
{
    assert(f.push(e).drop_last() =~= f);
}

/// Adds one named file, held by workspace `i`, to a file map.
fn add_file(names: &mut Vec<FileName>, lists: &mut Vec<Vec<usize>>, name: String, i: usize)
    requires
        old(names)@.len() == old(lists)@.len(),
    ensures
        final(names)@.len() == final(lists)@.len(),
        files_view_of(final(names)@, final(lists)@) == insert_file(files_view_of(old(names)@, old(lists)@), (name@, i as int)),
        forall|a: int, k: int|
            0 <= a < final(lists)@.len() && 0 <= k < final(lists)@[a]@.len() ==> {
                ||| #[trigger] final(lists)@[a]@[k] == i
                ||| (a < old(lists)@.len() && k < old(lists)@[a]@.len() && final(lists)@[a]@[k] == old(
                    lists,
                )@[a]@[k])
            },
{
    let fname = FileName(name);
    let ghost g = files_view_of(names@, lists@);
    let ghost flags = g.map_values(|e: (Seq<char>, Seq<int>)| lower_seq(e.0) == lower_seq(fname.0@));
    let mut p: usize = 0;
    while p < names.len()
        invariant
            0 <= p <= names@.len(),
            names@.len() == lists@.len(),
            names@ == old(names)@,
            lists@ == old(lists)@,
            fname.0@ == name@,
            g == files_view_of(names@, lists@),
            flags == g.map_values(|e: (Seq<char>, Seq<int>)| lower_seq(e.0) == lower_seq(fname.0@)),
            forall|t: int| 0 <= t < p ==> !flags[t],
        decreases names.len() - p,
    {
        if names[p].same_as(&fname) {
            proof {
                assert(flags[p as int]);
                lemma_first_match_at(flags, p as int);
                assert(flags =~= g.map_values(|e: (Seq<char>, Seq<int>)| lower_seq(e.0) == lower_seq(name@)));
                assert(find_name(g, name@) == p as int);
            }
            if contains_index(&lists[p], i) {
                assert(g[p as int].1 == ints(lists@[p as int]@));
                return;
            }
            let mut v = copy_indices(&lists[p]);
            let ghost before = v@;
            v.push(i);
            assert(v@.map_values(|x: usize| x as int) =~= before.map_values(|x: usize| x as int).push(i as int));
            assert(g[p as int].1 == before.map_values(|x: usize| x as int));
            let ghost old_lists = lists@;
            lists.set(p, v);
            proof {
                assert(files_view_of(names@, lists@) =~= g.update(
                    p as int,
                    (g[p as int].0, g[p as int].1.push(i as int)),
                ));
                assert forall|a: int, k: int|
                    0 <= a < lists@.len() && 0 <= k < lists@[a]@.len() implies {
                        ||| #[trigger] lists@[a]@[k] == i
                        ||| (a < old_lists.len() && k < old_lists[a]@.len() && lists@[a]@[k] == old_lists[a]@[k])
                    } by {
                    if a != p {
                    } else if k < old_lists[a]@.len() {
                    }
                }
            }
            return;
        }
        assert(!flags[p as int]);
        p += 1;
    }
    proof {
        lemma_first_match_none(flags);
        assert(flags =~= g.map_values(|e: (Seq<char>, Seq<int>)| lower_seq(e.0) == lower_seq(name@)));
        assert(find_name(g, name@) == -1);
    }
    let ghost fv = fname.0@;
    names.push(fname);
    let mut v: Vec<usize> = Vec::new();
    v.push(i);
    let ghost vv = v@;
    lists.push(v);
    proof {
        assert(vv.map_values(|x: usize| x as int) =~= seq![i as int]);
        assert(files_view_of(names@, lists@) =~= g.push((fv, seq![i as int])));
    }
}

} // verus!

verus! {

/// `build_model` one workspace further.
proof fn lemma_build_take(cs: Seq<WorkspaceContent>, k: int)
    requires
        0 <= k < cs.len(),
    ensures
        build_model(cs.take(k + 1)) == insert_content(build_model(cs.take(k)), cs[k]),
{
    assert(cs.take(k + 1).drop_last() =~= cs.take(k));
}

/// Adding files to a file map: the map of a list followed by one more file.
proof fn lemma_grouped_concat_push(a: Seq<(Seq<char>, int)>, b: Seq<(Seq<char>, int)>, e: (Seq<char>, int))
    ensures
        grouped(a + b.push(e)) == insert_file(grouped(a + b), e),
{
    assert(a + b.push(e) =~= (a + b).push(e));
    lemma_grouped_push(a + b, e);
}

/// Builds the file map of a list of nodes.
fn build_file_map(nodes: &Vec<TreeNode>) -> (r: (Vec<FileName>, Vec<Vec<usize>>))
    requires
        forall|i: int| 0 <= i < nodes@.len() ==> (#[trigger] nodes@[i]).ok(),
    ensures
        r.0@.len() == r.1@.len(),
        files_view_of(r.0@, r.1@) == source_map(contents_of(nodes@)),
        forall|a: int, k: int| 0 <= a < r.1@.len() && 0 <= k < r.1@[a]@.len() ==> #[trigger] r.1@[a]@[k] < nodes@.len(),
{
    let ghost m = contents_of(nodes@);
    let mut names: Vec<FileName> = Vec::new();
    let mut lists: Vec<Vec<usize>> = Vec::new();
    let mut i: usize = 0;
    proof {
        assert(m.take(0) =~= Seq::<WorkspaceContent>::empty());
        assert(files_view_of(names@, lists@) =~= Seq::<(Seq<char>, Seq<int>)>::empty());
    }
    while i < nodes.len()
        invariant
            0 <= i <= nodes@.len(),
            m == contents_of(nodes@),
            forall|t: int| 0 <= t < nodes@.len() ==> (#[trigger] nodes@[t]).ok(),
            names@.len() == lists@.len(),
            files_view_of(names@, lists@) == grouped(flat_files(m.take(i as int))),
            forall|a: int, k: int| 0 <= a < lists@.len() && 0 <= k < lists@[a]@.len() ==> #[trigger] lists@[a]@[k] < nodes@.len(),
        decreases nodes.len() - i,
    {
        let node = &nodes[i];
        assert(node.ok());
        let ghost files = node.content.source_files@;
        let ghost base = flat_files(m.take(i as int));
        let mut j: usize = 0;
        proof {
            assert(files.take(0) =~= Seq::<SourceFile>::empty());
            assert(base + file_entries(files.take(0), i as int) =~= base);
        }
        while j < node.file_names.len()
            invariant
                0 <= j <= node.file_names@.len(),
                node.ok(),
                node == nodes@[i as int],
                i < nodes@.len(),
                files == node.content.source_files@,
                names@.len() == lists@.len(),
                files_view_of(names@, lists@) == grouped(base + file_entries(files.take(j as int), i as int)),
                forall|a: int, k: int| 0 <= a < lists@.len() && 0 <= k < lists@[a]@.len() ==> #[trigger] lists@[a]@[k] < nodes@.len(),
            decreases node.file_names.len() - j,
        {
            proof {
                lemma_file_entries_take(files, j as int, i as int);
            }
            assert(opt_view(node.file_names@[j as int]) == file_name_of(files[j as int].path@));
            match &node.file_names[j] {
                Some(n) => {
                    proof {
                        lemma_grouped_concat_push(base, file_entries(files.take(j as int), i as int), (n@, i as int));
                    }
                    add_file(&mut names, &mut lists, n.clone(), i);
                },
                None => {},
            }
            j += 1;
        }
        proof {
            assert(files.take(files.len() as int) =~= files);
            lemma_flat_take(m, i as int);
            assert(m[i as int] == node.content);
        }
        i += 1;
    }
    proof {
        assert(m.take(m.len() as int) =~= m);
    }
    (names, lists)
}

impl WorkspaceDependencyTree {
    /// `WorkspaceDependencyTree::new`, when every workspace's path has a file
    /// name; `None` otherwise.
    pub fn new_checked(root: WorkspaceContent, libraries: Vec<WorkspaceContent>) -> (r: Option<WorkspaceDependencyTree>)
        ensures
            r is Some <==> (root.workspace.has_name_spec() && forall|i: int|
                0 <= i < libraries@.len() ==> (#[trigger] libraries@[i]).workspace.has_name_spec()),
            r matches Some(t) ==> t.model() == build_model(seq![root] + libraries@),
    {
        if !root.workspace.has_name() {
            return None;
        }
        let mut i: usize = 0;
        while i < libraries.len()
            invariant
                0 <= i <= libraries@.len(),
                forall|k: int| 0 <= k < i ==> (#[trigger] libraries@[k]).workspace.has_name_spec(),
            decreases libraries.len() - i,
        {
            if !libraries[i].workspace.has_name() {
                return None;
            }
            i += 1;
        }
        Some(Self::new(root, libraries))
    }

    /// The tree of a root workspace and the library workspaces read for it,
    /// each with its source files. Workspaces are keyed by path: a later one
    /// with the same path as an earlier one takes its place.
    pub fn new(root: WorkspaceContent, libraries: Vec<WorkspaceContent>) -> (r: WorkspaceDependencyTree)
        requires
            root.workspace.has_name_spec(),
            forall|i: int| 0 <= i < libraries@.len() ==> (#[trigger] libraries@[i]).workspace.has_name_spec(),
        ensures
            r.model() == build_model(seq![root] + libraries@),
    {
        let ghost cs = seq![root] + libraries@;
        let ghost libs = libraries@;
        let mut nodes: Vec<TreeNode> = Vec::new();
        let first = TreeNode::new(root);
        nodes.push(first);
        proof {
            assert(cs.take(1).drop_last() =~= Seq::<WorkspaceContent>::empty());
            assert(cs.take(1).last() == cs[0]);
            let e = Seq::<WorkspaceContent>::empty();
            let fl = e.map_values(|c: WorkspaceContent| ws_key(c.workspace) == ws_key(cs[0].workspace));
            lemma_first_match_none(fl);
            assert(find_key(e, ws_key(cs[0].workspace)) == -1);
            assert(build_model(cs.take(1)) == insert_content(build_model(cs.take(1).drop_last()), cs[0]));
            assert(contents_of(nodes@) =~= build_model(cs.take(1)));
        }
        let n_libs = libraries.len();
        let mut rest = libraries;
        let mut k: usize = 0;
        while rest.len() > 0
            invariant
                0 <= k <= libs.len(),
                libs.len() == n_libs,
                rest@ == libs.skip(k as int),
                cs == seq![root] + libs,
                forall|i: int| 0 <= i < libs.len() ==> (#[trigger] libs[i]).workspace.has_name_spec(),
                contents_of(nodes@) == build_model(cs.take(k + 1)),
                nodes@.len() >= 1,
                forall|i: int| 0 <= i < nodes@.len() ==> (#[trigger] nodes@[i]).ok(),
                forall|i: int| 0 <= i < nodes@.len() ==> (#[trigger] nodes@[i]).content.workspace.has_name_spec(),
                keys_unique(contents_of(nodes@)),
            decreases rest.len(),
        {
            let c = rest.remove(0);
            assert(c == libs[k as int]);
            assert(rest@ =~= libs.skip(k + 1));
            let node = TreeNode::new(c);
            insert_node(&mut nodes, node);
            proof {
                lemma_build_take(cs, k + 1);
                assert(cs[k + 1] == libs[k as int]);
            }
            k += 1;
        }
        proof {
            assert(k == libs.len());
            assert(cs.take(k + 1) =~= cs);
        }
        let (file_names, file_nodes) = build_file_map(&nodes);
        WorkspaceDependencyTree { nodes, file_names, file_nodes }
    }
}

} // verus!

verus! {

/// Indices as integers.
pub open spec fn ints(s: Seq<usize>) -> Seq<int> {
    s.map_values(|x: usize| x as int)
}

/// The state of a walk over the tree: the workspaces (by index) still to
/// visit, the paths (component forms) seen so far, and the workspaces visited.
pub struct WalkState {
    pub queue: Seq<int>,
    pub visited: Seq<Seq<char>>,
    pub out: Seq<int>,
}

/// Processing the dependencies of a visited workspace, in order: a path not
/// seen before is marked seen and, when the tree holds a workspace with that
/// path, that workspace is found. The result is the workspaces found (by
/// index), in the order of the dependencies, and the paths seen after.
pub open spec fn new_deps(m: Seq<WorkspaceContent>, visited: Seq<Seq<char>>, deps: Seq<Seq<char>>) -> (Seq<int>, Seq<Seq<char>>)
    decreases deps.len(),
{
    if deps.len() == 0 {
        (Seq::empty(), visited)
    } else {
        let d = deps[0];
        if visited.contains(d) {
            new_deps(m, visited, deps.drop_first())
        } else {
            let i = find_key(m, d);
            let (rest, v) = new_deps(m, visited.push(d), deps.drop_first());
            (if i < 0 { rest } else { seq![i] + rest }, v)
        }
    }
}

/// The queue after the dependencies of a visited workspace are processed: the
/// workspaces found go to the back of the queue (breadth-first) or to its
/// front (depth-first), in the order the workspace declares them.
pub open spec fn push_deps(
    m: Seq<WorkspaceContent>,
    bfs: bool,
    queue: Seq<int>,
    visited: Seq<Seq<char>>,
    deps: Seq<Seq<char>>,
) -> (Seq<int>, Seq<Seq<char>>) {
    let (found, v) = new_deps(m, visited, deps);
    (if bfs { queue + found } else { found + queue }, v)
}

/// One step of a walk: the workspace at the front of the queue is visited.
pub open spec fn walk_step(m: Seq<WorkspaceContent>, bfs: bool, s: WalkState) -> WalkState {
    if s.queue.len() == 0 {
        s
    } else {
        let w = s.queue[0];
        let (q, v) = push_deps(m, bfs, s.queue.drop_first(), s.visited, dep_keys_of(m[w].workspace));
        WalkState { queue: q, visited: v, out: s.out.push(w) }
    }
}

/// At most `fuel` steps of a walk, stopping when the queue is empty.
pub open spec fn walk_steps(m: Seq<WorkspaceContent>, bfs: bool, s: WalkState, fuel: nat) -> WalkState
    decreases fuel,
{
    if fuel == 0 || s.queue.len() == 0 {
        s
    } else {
        walk_steps(m, bfs, walk_step(m, bfs, s), (fuel - 1) as nat)
    }
}

/// The state after the start workspace (path `start_key`, dependencies
/// `start_deps`) has been visited.
pub open spec fn walk_start(m: Seq<WorkspaceContent>, bfs: bool, start_key: Seq<char>, start_deps: Seq<Seq<char>>) -> WalkState {
    let (q, v) = push_deps(m, bfs, Seq::empty(), seq![start_key], start_deps);
    WalkState { queue: q, visited: v, out: Seq::empty() }
}

/// The workspaces (by index) that a walk from the start workspace visits after
/// it, in order. Every walk ends within `2 * m.len() + 1` steps.
pub open spec fn walk_order(m: Seq<WorkspaceContent>, bfs: bool, start_key: Seq<char>, start_deps: Seq<Seq<char>>) -> Seq<int> {
    walk_steps(m, bfs, walk_start(m, bfs, start_key, start_deps), (2 * m.len() + 1) as nat).out
}

/// The number of workspaces whose paths have not been seen.
pub open spec fn count_unvisited(m: Seq<WorkspaceContent>, visited: Seq<Seq<char>>) -> nat
    decreases m.len(),
{
    if m.len() == 0 {
        0
    } else {
        count_unvisited(m.drop_last(), visited) + if visited.contains(ws_key(m.last().workspace)) {
            0nat
        } else {
            1nat
        }
    }
}

/// What is left of a walk: queued entries and, twice, unseen workspaces.
pub open spec fn walk_measure(m: Seq<WorkspaceContent>, s: WalkState) -> nat {
    s.queue.len() + 2 * count_unvisited(m, s.visited)
}

/// All queued entries are workspaces of the tree.
pub open spec fn queue_ok(m: Seq<WorkspaceContent>, q: Seq<int>) -> bool {
    forall|k: int| 0 <= k < q.len() ==> 0 <= #[trigger] q[k] < m.len()
}

/// No more workspaces are unseen than there are workspaces.
pub proof fn lemma_count_le(m: Seq<WorkspaceContent>, v: Seq<Seq<char>>)
    ensures
        count_unvisited(m, v) <= m.len(),
    decreases m.len(),
{
    if m.len() > 0 {
        lemma_count_le(m.drop_last(), v);
    }
}

/// Seeing one more path leaves no more workspaces unseen, and one fewer when
/// it is the unseen path of a workspace of the tree.
pub proof fn lemma_count_push(m: Seq<WorkspaceContent>, v: Seq<Seq<char>>, d: Seq<char>)
    ensures
        count_unvisited(m, v.push(d)) <= count_unvisited(m, v),
        !v.contains(d) && (exists|i: int| 0 <= i < m.len() && ws_key(#[trigger] m[i].workspace) == d)
            ==> count_unvisited(m, v.push(d)) + 1 <= count_unvisited(m, v),
    decreases m.len(),
{
    if m.len() > 0 {
        lemma_count_push(m.drop_last(), v, d);
        let k = ws_key(m.last().workspace);
        assert(v.contains(k) ==> v.push(d).contains(k)) by {
            if v.contains(k) {
                let t = choose|t: int| 0 <= t < v.len() && v[t] == k;
                assert(v.push(d)[t] == k);
            }
        }
        assert(v.push(d)[v.len() as int] == d);
        if !v.contains(d) && (exists|i: int| 0 <= i < m.len() && ws_key(#[trigger] m[i].workspace) == d) {
            let i = choose|i: int| 0 <= i < m.len() && ws_key(#[trigger] m[i].workspace) == d;
            if i < m.len() - 1 {
                assert(m.drop_last()[i] == m[i]);
            } else {
                assert(v.push(d).contains(k));
            }
        }
    }
}

/// Processing dependencies finds only workspaces of the tree, and each one
/// found leaves one workspace fewer unseen.
proof fn lemma_new_deps(m: Seq<WorkspaceContent>, v: Seq<Seq<char>>, deps: Seq<Seq<char>>)
    ensures
        ({
            let (f, v2) = new_deps(m, v, deps);
            &&& queue_ok(m, f)
            &&& f.len() + 2 * count_unvisited(m, v2) <= 2 * count_unvisited(m, v)
        }),
    decreases deps.len(),
{
    if deps.len() > 0 {
        let d = deps[0];
        if v.contains(d) {
            lemma_new_deps(m, v, deps.drop_first());
        } else {
            let i = find_key(m, d);
            lemma_first_match(m.map_values(|c: WorkspaceContent| ws_key(c.workspace) == d));
            lemma_count_push(m, v, d);
            lemma_new_deps(m, v.push(d), deps.drop_first());
            let (rest, v2) = new_deps(m, v.push(d), deps.drop_first());
            if i >= 0 {
                assert(ws_key(m[i].workspace) == d);
                let f = seq![i] + rest;
                assert forall|k: int| 0 <= k < f.len() implies 0 <= #[trigger] f[k] < m.len() by {
                    if k > 0 {
                        assert(f[k] == rest[k - 1]);
                    }
                }
            }
        }
    }
}

/// Processing dependencies queues only workspaces of the tree and never
/// increases what is left of a walk.
proof fn lemma_push_deps(m: Seq<WorkspaceContent>, bfs: bool, q: Seq<int>, v: Seq<Seq<char>>, deps: Seq<Seq<char>>)
    requires
        queue_ok(m, q),
    ensures
        ({
            let (q2, v2) = push_deps(m, bfs, q, v, deps);
            &&& queue_ok(m, q2)
            &&& q2.len() + 2 * count_unvisited(m, v2) <= q.len() + 2 * count_unvisited(m, v)
        }),
{
    lemma_new_deps(m, v, deps);
    let (f, v2) = new_deps(m, v, deps);
    let q2 = if bfs { q + f } else { f + q };
    assert forall|k: int| 0 <= k < q2.len() implies 0 <= #[trigger] q2[k] < m.len() by {
        if bfs {
            if k < q.len() {
                assert(q2[k] == q[k]);
            } else {
                assert(q2[k] == f[k - q.len()]);
            }
        } else {
            if k < f.len() {
                assert(q2[k] == f[k]);
            } else {
                assert(q2[k] == q[k - f.len()]);
            }
        }
    }
}

/// A step of a non-finished walk reduces what is left of it.
proof fn lemma_walk_step(m: Seq<WorkspaceContent>, bfs: bool, s: WalkState)
    requires
        queue_ok(m, s.queue),
        s.queue.len() > 0,
    ensures
        queue_ok(m, walk_step(m, bfs, s).queue),
        walk_measure(m, walk_step(m, bfs, s)) + 1 <= walk_measure(m, s),
{
    let rest = s.queue.drop_first();
    assert(queue_ok(m, rest)) by {
        assert forall|k: int| 0 <= k < rest.len() implies 0 <= #[trigger] rest[k] < m.len() by {
            assert(rest[k] == s.queue[k + 1]);
        }
    }
    lemma_push_deps(m, bfs, rest, s.visited, dep_keys_of(m[s.queue[0]].workspace));
}

/// A finished walk stays as it is.
proof fn lemma_walk_steps_done(m: Seq<WorkspaceContent>, bfs: bool, s: WalkState, fuel: nat)
    requires
        s.queue.len() == 0,
    ensures
        walk_steps(m, bfs, s, fuel) == s,
    decreases fuel,
{
}

} // verus!

verus! {

/// The state of a walk kept in exec form.
pub open spec fn state_of(q: Seq<usize>, v: Seq<String>, out: Seq<usize>) -> WalkState {
    WalkState { queue: ints(q), visited: strings_of(v), out: ints(out) }
}

impl WorkspaceDependencyTree {
    /// The index of the workspace whose path has component form `key`.
    fn find_node(&self, key: &String) -> (r: Option<usize>)
        ensures
            match r {
                Some(i) => find_key(self.model(), key@) == i as int && i < self.model().len(),
                None => find_key(self.model(), key@) == -1,
            },
    {
        proof {
            use_type_invariant(self);
        }
        let ghost m = self.model();
        let ghost flags = m.map_values(|c: WorkspaceContent| ws_key(c.workspace) == key@);
        let mut i: usize = 0;
        while i < self.nodes.len()
            invariant
                0 <= i <= self.nodes@.len(),
                m == self.model(),
                m == contents_of(self.nodes@),
                flags == m.map_values(|c: WorkspaceContent| ws_key(c.workspace) == key@),
                forall|t: int| 0 <= t < self.nodes@.len() ==> (#[trigger] self.nodes@[t]).ok(),
                forall|t: int| 0 <= t < i ==> !flags[t],
            decreases self.nodes.len() - i,
        {
            assert(self.nodes@[i as int].ok());
            if self.nodes[i].key == *key {
                proof {
                    lemma_first_match_at(flags, i as int);
                }
                return Some(i);
            }
            i += 1;
        }
        proof {
            lemma_first_match_none(flags);
        }
        None
    }

    /// The number of workspaces in the tree.
    pub fn len(&self) -> (r: usize)
        ensures
            r == self.model().len(),
            r >= 1,
    {
        proof {
            use_type_invariant(self);
        }
        self.nodes.len()
    }

    /// The workspace at index `i` of the tree.
    pub fn workspace_at(&self, i: usize) -> (r: &Workspace)
        requires
            i < self.model().len(),
        ensures
            *r == self.model()[i as int].workspace,
            r.has_name_spec(),
    {
        proof {
            use_type_invariant(self);
        }
        &self.nodes[i].content.workspace
    }

    /// The index of the workspace of the tree at `workspace_path`, if any.
    pub fn index_of(&self, workspace_path: &str) -> (r: Option<usize>)
        ensures
            match r {
                Some(i) => find_key(self.model(), path_identity(workspace_path@)) == i as int && i < self.model().len(),
                None => find_key(self.model(), path_identity(workspace_path@)) == -1,
            },
    {
        let k = path_key(workspace_path);
        self.find_node(&k)
    }

    /// Processes `deps` for a walk, as `push_deps` describes.
    fn push_deps_exec(&self, queue: &mut std::collections::VecDeque<usize>, visited: &mut Vec<String>, deps: &Vec<String>, bfs: bool)
        requires
            queue_ok(self.model(), ints(old(queue)@)),
        ensures
            queue_ok(self.model(), ints(final(queue)@)),
            (ints(final(queue)@), strings_of(final(visited)@)) == push_deps(
                self.model(),
                bfs,
                ints(old(queue)@),
                strings_of(old(visited)@),
                strings_of(deps@),
            ),
    {
        let ghost m = self.model();
        let ghost q0 = ints(queue@);
        let ghost v0 = strings_of(visited@);
        let ghost target = new_deps(m, v0, strings_of(deps@));
        let mut found: Vec<usize> = Vec::new();
        let mut j: usize = 0;
        proof {
            assert(strings_of(deps@).skip(0) =~= strings_of(deps@));
            assert(ints(found@) + target.0 =~= target.0);
        }
        while j < deps.len()
            invariant
                0 <= j <= deps@.len(),
                m == self.model(),
                target.0 == ints(found@) + new_deps(m, strings_of(visited@), strings_of(deps@).skip(j as int)).0,
                target.1 == new_deps(m, strings_of(visited@), strings_of(deps@).skip(j as int)).1,
                forall|k: int| 0 <= k < found@.len() ==> #[trigger] found@[k] < m.len(),
            decreases deps.len() - j,
        {
            let ghost rest = strings_of(deps@).skip(j as int);
            proof {
                assert(rest[0] == deps@[j as int]@);
                assert(rest.drop_first() =~= strings_of(deps@).skip(j + 1));
            }
            let d = &deps[j];
            if !crate::text::contains_string(visited, d) {
                let ghost vprev = visited@;
                let dc = d.clone();
                visited.push(dc);
                proof {
                    crate::text::lemma_strings_push(vprev, dc);
                }
                match self.find_node(d) {
                    Some(i) => {
                        let ghost fprev = found@;
                        found.push(i);
                        proof {
                            let tail = new_deps(m, strings_of(visited@), strings_of(deps@).skip(j + 1)).0;
                            assert(ints(found@) =~= ints(fprev).push(i as int));
                            assert(ints(fprev) + (seq![i as int] + tail) =~= ints(found@) + tail);
                        }
                    },
                    None => {},
                }
            }
            j += 1;
        }
        proof {
            assert(strings_of(deps@).skip(deps@.len() as int) =~= Seq::<Seq<char>>::empty());
            assert(ints(found@) + Seq::<int>::empty() =~= ints(found@));
            lemma_push_deps(m, bfs, q0, v0, strings_of(deps@));
        }
        if bfs {
            let mut k: usize = 0;
            assert(q0 + ints(found@).take(0) =~= q0);
            while k < found.len()
                invariant
                    0 <= k <= found@.len(),
                    ints(queue@) == q0 + ints(found@).take(k as int),
                decreases found.len() - k,
            {
                let ghost qprev = queue@;
                queue.push_back(found[k]);
                assert(ints(queue@) =~= ints(qprev).push(found@[k as int] as int));
                assert(q0 + ints(found@).take(k + 1) =~= (q0 + ints(found@).take(k as int)).push(found@[k as int] as int));
                k += 1;
            }
            assert(ints(found@).take(found@.len() as int) =~= ints(found@));
        } else {
            let mut k: usize = found.len();
            assert(ints(found@).skip(found@.len() as int) + q0 =~= q0);
            while k > 0
                invariant
                    0 <= k <= found@.len(),
                    ints(queue@) == ints(found@).skip(k as int) + q0,
                decreases k,
            {
                let ghost qprev = queue@;
                queue.push_front(found[k - 1]);
                assert(ints(queue@) =~= seq![found@[k - 1] as int] + ints(qprev));
                assert(ints(found@).skip(k - 1) + q0 =~= seq![found@[k - 1] as int] + (ints(found@).skip(k as int) + q0));
                k -= 1;
            }
            assert(ints(found@).skip(0) =~= ints(found@));
        }
    }

    /// The workspaces (by index) that a walk from a workspace with path
    /// `start_key` and dependencies `start_deps` visits after it, in order;
    /// breadth-first when `bfs`, depth-first otherwise.
    fn walk(&self, start_key: &String, start_deps: &Vec<String>, bfs: bool) -> (order: Vec<usize>)
        ensures
            ints(order@) == walk_order(self.model(), bfs, start_key@, strings_of(start_deps@)),
            forall|k: int| 0 <= k < order@.len() ==> #[trigger] order@[k] < self.model().len(),
    {
        proof {
            use_type_invariant(self);
        }
        let ghost m = self.model();
        let mut queue: std::collections::VecDeque<usize> = std::collections::VecDeque::new();
        let mut visited: Vec<String> = Vec::new();
        visited.push(start_key.clone());
        proof {
            assert(strings_of(visited@) =~= seq![start_key@]);
            assert(ints(queue@) =~= Seq::<int>::empty());
        }
        self.push_deps_exec(&mut queue, &mut visited, start_deps, bfs);
        let mut out: Vec<usize> = Vec::new();
        let ghost start = walk_start(m, bfs, start_key@, strings_of(start_deps@));
        let ghost fin = walk_steps(m, bfs, start, (2 * m.len() + 1) as nat);
        let ghost mut fuel: nat = (2 * m.len() + 1) as nat;
        proof {
            assert(ints(out@) =~= Seq::<int>::empty());
            assert(state_of(queue@, visited@, out@) == start);
            lemma_count_le(m, Seq::<Seq<char>>::empty().push(start_key@));
            lemma_push_deps(m, bfs, Seq::empty(), seq![start_key@], strings_of(start_deps@));
            lemma_count_le(m, seq![start_key@]);
        }
        while queue.len() > 0
            invariant
                m == self.model(),
                m == contents_of(self.nodes@),
                queue_ok(m, ints(queue@)),
                walk_steps(m, bfs, state_of(queue@, visited@, out@), fuel) == fin,
                walk_measure(m, state_of(queue@, visited@, out@)) < fuel,
                forall|k: int| 0 <= k < out@.len() ==> #[trigger] out@[k] < m.len(),
            decreases walk_measure(m, state_of(queue@, visited@, out@)),
        {
            let ghost cur = state_of(queue@, visited@, out@);
            proof {
                lemma_walk_step(m, bfs, cur);
            }
            let w = match queue.pop_front() {
                Some(w) => w,
                None => {
                    proof { assert(false); }
                    0
                },
            };
            assert(ints(queue@) =~= cur.queue.drop_first());
            assert(cur.queue[0] == w as int);
            assert(w < m.len());
            proof {
                use_type_invariant(self);
            }
            assert(self.nodes@[w as int].ok());
            self.push_deps_exec(&mut queue, &mut visited, &self.nodes[w].dep_keys, bfs);
            let ghost oprev = out@;
            out.push(w);
            proof {
                assert(ints(out@) =~= ints(oprev).push(w as int));
                assert(state_of(queue@, visited@, out@) == walk_step(m, bfs, cur));
                fuel = (fuel - 1) as nat;
            }
        }
        proof {
            lemma_walk_steps_done(m, bfs, state_of(queue@, visited@, out@), fuel);
        }
        out
    }
}

} // verus!

verus! {

/// The component forms of a list of paths.
pub open spec fn keys_of(ps: Seq<Seq<char>>) -> Seq<Seq<char>> {
    ps.map_values(|p: Seq<char>| path_identity(p))
}

/// Whether `p` names one of the paths of `ps`.
pub open spec fn path_in(ps: Seq<Seq<char>>, p: Seq<char>) -> bool {
    keys_of(ps).contains(path_identity(p))
}

/// The paths of `ps` with later spellings of an already listed path left out
/// (collecting into a set of paths).
pub open spec fn dedup_paths(ps: Seq<Seq<char>>) -> Seq<Seq<char>>
    decreases ps.len(),
{
    if ps.len() == 0 {
        Seq::empty()
    } else {
        let r = dedup_paths(ps.drop_last());
        if path_in(r, ps.last()) {
            r
        } else {
            r.push(ps.last())
        }
    }
}

/// The declared dependencies of the workspaces `order` (by index), in order.
pub open spec fn deps_along(m: Seq<WorkspaceContent>, order: Seq<int>) -> Seq<Seq<char>>
    decreases order.len(),
{
    if order.len() == 0 {
        Seq::empty()
    } else {
        deps_along(m, order.drop_last()) + m[order.last()].workspace.deps()
    }
}

/// The workspaces (by index) that a walk from `w` visits after `w`.
pub open spec fn walk_from(m: Seq<WorkspaceContent>, bfs: bool, w: Workspace) -> Seq<int> {
    walk_order(m, bfs, ws_key(w), dep_keys_of(w))
}

/// Collecting paths into a set keeps the same paths.
pub proof fn lemma_dedup_paths(ps: Seq<Seq<char>>, p: Seq<char>)
    ensures
        path_in(dedup_paths(ps), p) <==> path_in(ps, p),
        keys_of(dedup_paths(ps)).no_duplicates(),
    decreases ps.len(),
{
    if ps.len() > 0 {
        let init = ps.drop_last();
        lemma_dedup_paths(init, p);
        lemma_dedup_paths(init, ps.last());
        let r = dedup_paths(init);
        let kl = path_identity(ps.last());
        let kp = path_identity(p);
        assert(keys_of(ps) =~= keys_of(init).push(kl));
        lemma_seq_push_contains(keys_of(init), kl, kp);
        if !path_in(r, ps.last()) {
            assert(keys_of(r.push(ps.last())) =~= keys_of(r).push(kl));
            lemma_seq_push_contains(keys_of(r), kl, kp);
        } else if kp == kl {
            assert(path_in(r, p));
        }
    }
}

/// An element is in a sequence with one more element pushed exactly when it
/// is that element or was in the sequence.
pub proof fn lemma_seq_push_contains<A>(s: Seq<A>, x: A, y: A)
    ensures
        s.push(x).contains(y) <==> (s.contains(y) || y == x),
{
    if s.contains(y) {
        let i = choose|i: int| 0 <= i < s.len() && s[i] == y;
        assert(s.push(x)[i] == y);
    }
    if y == x {
        assert(s.push(x)[s.len() as int] == y);
    }
    if s.push(x).contains(y) {
        let i = choose|i: int| 0 <= i < s.push(x).len() && s.push(x)[i] == y;
        if i < s.len() {
            assert(s[i] == y);
        }
    }
}

/// The component forms of a workspace's path and dependencies.
fn workspace_keys(w: &Workspace) -> (r: (String, Vec<String>))
    ensures
        r.0@ == ws_key(*w),
        strings_of(r.1@) == dep_keys_of(*w),
{
    let key = path_key(w.sws_path.as_str());
    let mut keys: Vec<String> = Vec::new();
    let mut i: usize = 0;
    while i < w.dependencies.len()
        invariant
            0 <= i <= w.dependencies.len(),
            strings_of(keys@) == dep_keys_of(*w).take(i as int),
        decreases w.dependencies.len() - i,
    {
        let k = path_key(w.dependencies[i].as_str());
        let ghost prev = keys@;
        keys.push(k);
        proof {
            crate::text::lemma_strings_push(prev, k);
        }
        i += 1;
        assert(strings_of(keys@) =~= dep_keys_of(*w).take(i as int));
    }
    assert(dep_keys_of(*w).take(i as int) =~= dep_keys_of(*w));
    (key, keys)
}

/// Adds each path of `ps` to a set of paths (`out`, with their component
/// forms in `keys`).
fn add_paths(out: &mut Vec<String>, keys: &mut Vec<String>, ps: &Vec<String>, Ghost(pre): Ghost<Seq<Seq<char>>>)
    requires
        strings_of(old(keys)@) == keys_of(strings_of(old(out)@)),
        dedup_paths(pre) == strings_of(old(out)@),
    ensures
        strings_of(final(keys)@) == keys_of(strings_of(final(out)@)),
        dedup_paths(pre + strings_of(ps@)) == strings_of(final(out)@),
{
    proof {
        assert(pre + strings_of(ps@).take(0) =~= pre);
    }
    let mut i: usize = 0;
    while i < ps.len()
        invariant
            0 <= i <= ps.len(),
            strings_of(keys@) == keys_of(strings_of(out@)),
            dedup_paths(pre + strings_of(ps@).take(i as int)) == strings_of(out@),
        decreases ps.len() - i,
    {
        let k = path_key(ps[i].as_str());
        let ghost oprev = out@;
        let ghost kprev = keys@;
        if !crate::text::contains_string(keys, &k) {
            let p = ps[i].clone();
            out.push(p);
            keys.push(k);
            proof {
                crate::text::lemma_strings_push(oprev, p);
                crate::text::lemma_strings_push(kprev, k);
                assert(keys_of(strings_of(out@)) =~= keys_of(strings_of(oprev)).push(path_identity(p@)));
            }
        }
        proof {
            let a = pre + strings_of(ps@).take(i as int);
            let b = pre + strings_of(ps@).take(i + 1);
            assert(b.drop_last() =~= a);
            assert(b.last() == ps@[i as int]@);
        }
        i += 1;
    }
    proof {
        assert(strings_of(ps@).take(ps@.len() as int) =~= strings_of(ps@));
    }
}

impl WorkspaceDependencyTree {
    /// The root workspace: the workspace with the root's path.
    pub fn root_workspace(&self) -> (r: &Workspace)
        ensures
            *r == self.model()[0].workspace,
    {
        proof {
            use_type_invariant(self);
        }
        &self.nodes[0].content.workspace
    }

    /// The workspace of the tree at `workspace_path`, if any.
    pub fn workspace(&self, workspace_path: &str) -> (r: Option<&Workspace>)
        ensures
            find_key(self.model(), path_identity(workspace_path@)) >= 0 ==> r == Some(
                &self.model()[find_key(self.model(), path_identity(workspace_path@))].workspace,
            ),
            find_key(self.model(), path_identity(workspace_path@)) < 0 ==> r is None,
    {
        let k = path_key(workspace_path);
        match self.find_node(&k) {
            Some(i) => Some(&self.nodes[i].content.workspace),
            None => None,
        }
    }

    /// The workspaces of the tree in breadth-first order from the root:
    /// the root first, then each workspace it reaches, once.
    pub fn all_workspaces(&self) -> (r: Vec<&Workspace>)
        ensures
            vals(r@) == ws_at(self.model(), search_order(self.model(), true)),
            all_named(vals(r@)),
            forall|k: int| 0 <= k < search_order(self.model(), true).len() ==> 0 <= #[trigger] search_order(self.model(), true)[k] < self.model().len(),
            forall|a: int, b: int| 0 <= a < b < r@.len() ==> ws_key(*r@[a]) != ws_key(*r@[b]),
    {
        proof {
            use_type_invariant(self);
        }
        let ghost m = self.model();
        let root = &self.nodes[0];
        assert(root.ok());
        let order = self.walk(&root.key, &root.dep_keys, true);
        let ghost so = search_order(m, true);
        assert(so =~= seq![0int] + ints(order@));
        let mut r: Vec<&Workspace> = Vec::new();
        r.push(&root.content.workspace);
        let mut i: usize = 0;
        while i < order.len()
            invariant
                0 <= i <= order@.len(),
                r@.len() == 1 + i,
                m == self.model(),
                so == seq![0int] + ints(order@),
                forall|k: int| 0 <= k < order@.len() ==> #[trigger] order@[k] < m.len(),
                m == contents_of(self.nodes@),
                forall|q: int| 0 <= q < self.nodes@.len() ==> (#[trigger] self.nodes@[q]).content.workspace.has_name_spec(),
                vals(r@) == ws_at(m, so.take(i + 1)),
                all_named(vals(r@)),
            decreases order.len() - i,
        {
            let ghost before = r@;
            let w = &self.nodes[order[i]].content.workspace;
            assert(w.has_name_spec());
            r.push(w);
            assert(so.take(i + 2) =~= so.take(i + 1).push(order@[i as int] as int));
            assert(vals(r@) =~= vals(before).push(*w));
            assert(vals(r@) =~= ws_at(m, so.take(i + 2)));
            i += 1;
        }
        assert(so.take(order@.len() + 1int) =~= so);
        proof {
            lemma_search_order_once(m, true);
            assert forall|a: int, b: int| 0 <= a < b < r@.len() implies ws_key(*r@[a]) != ws_key(*r@[b]) by {
                assert(*r@[a] == vals(r@)[a] && *r@[b] == vals(r@)[b]);
                assert(vals(r@)[a] == m[so[a]].workspace);
                assert(vals(r@)[b] == m[so[b]].workspace);
                assert(so[a] != so[b]);
                assert(keys_unique(m));
            }
        }
        r
    }

    /// The paths that a workspace and every workspace reachable from it declare
    /// as dependencies, each path once.
    pub fn defined_transitive_workspace_dependencies(&self, workspace: &Workspace) -> (r: Vec<String>)
        ensures
            strings_of(r@) == dedup_paths(workspace.deps() + deps_along(self.model(), walk_from(self.model(), true, *workspace))),
    {
        self.collect_dependencies(workspace, true)
    }

    /// The paths that the workspaces reachable from a workspace declare as
    /// dependencies, each path once; the workspace's own declarations are left out.
    pub fn defined_indirect_workspace_dependencies(&self, workspace: &Workspace) -> (r: Vec<String>)
        ensures
            strings_of(r@) == dedup_paths(deps_along(self.model(), walk_from(self.model(), true, *workspace))),
    {
        self.collect_dependencies(workspace, false)
    }

    /// The dependencies along a breadth-first walk from `workspace`, with or
    /// without its own.
    fn collect_dependencies(&self, workspace: &Workspace, own: bool) -> (r: Vec<String>)
        ensures
            own ==> strings_of(r@) == dedup_paths(workspace.deps() + deps_along(self.model(), walk_from(self.model(), true, *workspace))),
            !own ==> strings_of(r@) == dedup_paths(deps_along(self.model(), walk_from(self.model(), true, *workspace))),
    {
        proof {
            use_type_invariant(self);
        }
        let ghost m = self.model();
        let (key, dep_keys) = workspace_keys(workspace);
        let order = self.walk(&key, &dep_keys, true);
        let ghost ord = ints(order@);
        let ghost head: Seq<Seq<char>> = if own { workspace.deps() } else { Seq::empty() };
        let mut out: Vec<String> = Vec::new();
        let mut keys: Vec<String> = Vec::new();
        proof {
            assert(strings_of(keys@) =~= keys_of(strings_of(out@)));
            assert(dedup_paths(Seq::<Seq<char>>::empty()) == strings_of(out@)) by {
                assert(strings_of(out@) =~= Seq::<Seq<char>>::empty());
            }
        }
        if own {
            add_paths(&mut out, &mut keys, &workspace.dependencies, Ghost(Seq::empty()));
            assert(Seq::<Seq<char>>::empty() + workspace.deps() =~= workspace.deps());
        }
        assert(dedup_paths(head) == strings_of(out@));
        let mut i: usize = 0;
        while i < order.len()
            invariant
                0 <= i <= order@.len(),
                m == self.model(),
                m == contents_of(self.nodes@),
                ord == ints(order@),
                forall|k: int| 0 <= k < order@.len() ==> #[trigger] order@[k] < m.len(),
                strings_of(keys@) == keys_of(strings_of(out@)),
                dedup_paths(head + deps_along(m, ord.take(i as int))) == strings_of(out@),
            decreases order.len() - i,
        {
            let ghost pre = head + deps_along(m, ord.take(i as int));
            add_paths(&mut out, &mut keys, &self.nodes[order[i]].content.workspace.dependencies, Ghost(pre));
            proof {
                assert(ord.take(i + 1).drop_last() =~= ord.take(i as int));
                assert(ord.take(i + 1).last() == order@[i as int] as int);
                assert(head + deps_along(m, ord.take(i + 1)) =~= pre + m[order@[i as int] as int].workspace.deps());
            }
            i += 1;
        }
        proof {
            assert(ord.take(ord.len() as int) =~= ord);
            if !own {
                assert(head + deps_along(m, ord) =~= deps_along(m, ord));
            }
        }
        out
    }
}

} // verus!

verus! {

/// A workspace dependency implied by `Use` statements: a workspace that is
/// depended on, one that is depended on but not declared, one that depends
/// back on the using workspace, several workspaces that hold the same file, or
/// two workspaces that the DataFlex 26 and 25 search orders choose between.
#[derive(Debug)]
pub enum WorkspaceDependency<'a> {
    Dependency(&'a Workspace),
    Missing(&'a Workspace),
    Reverse(&'a Workspace),
    Ambiguous(Vec<&'a Workspace>),
    Conflicting(&'a Workspace, &'a Workspace),
}

/// The workspaces a dependency names, in order.
pub open spec fn dep_all<'a>(d: WorkspaceDependency<'a>) -> Seq<&'a Workspace> {
    match d {
        WorkspaceDependency::Dependency(w) => seq![w],
        WorkspaceDependency::Missing(w) => seq![w],
        WorkspaceDependency::Reverse(w) => seq![w],
        WorkspaceDependency::Ambiguous(ws) => ws@,
        WorkspaceDependency::Conflicting(a, b) => seq![a, b],
    }
}

/// The workspaces behind a list of references.
pub open spec fn vals<'a>(ws: Seq<&'a Workspace>) -> Seq<Workspace> {
    ws.map_values(|w: &'a Workspace| *w)
}

/// The kind of a dependency, as its rank in the order of issues.
pub open spec fn dep_kind<'a>(d: WorkspaceDependency<'a>) -> int {
    match d {
        WorkspaceDependency::Dependency(_) => 5,
        WorkspaceDependency::Missing(_) => 4,
        WorkspaceDependency::Reverse(_) => 3,
        WorkspaceDependency::Conflicting(_, _) => 2,
        WorkspaceDependency::Ambiguous(_) => 1,
    }
}

/// The color of a kind of dependency: green for a dependency, yellow for a
/// missing or reverse one, red for a conflicting or ambiguous one.
pub open spec fn shown_color(kind: int) -> ShownColor {
    if kind == 5 {
        ShownColor::Green
    } else if kind == 4 || kind == 3 {
        ShownColor::Yellow
    } else {
        ShownColor::Red
    }
}

/// A copy of a list of workspace references.
fn copy_refs<'a>(v: &Vec<&'a Workspace>) -> (r: Vec<&'a Workspace>)
    ensures
        r@ == v@,
{
    let mut r: Vec<&'a Workspace> = Vec::new();
    let mut i: usize = 0;
    while i < v.len()
        invariant
            0 <= i <= v.len(),
            r@ == v@.take(i as int),
        decreases v.len() - i,
    {
        r.push(v[i]);
        i += 1;
        assert(r@ =~= v@.take(i as int));
    }
    assert(v@.take(v.len() as int) =~= v@);
    r
}

impl<'a> WorkspaceDependency<'a> {
    /// The workspaces this dependency names, in order.
    pub fn all(&self) -> (r: Vec<&'a Workspace>)
        ensures
            r@ == dep_all(*self),
    {
        match self {
            WorkspaceDependency::Dependency(w) => {
                let mut r: Vec<&'a Workspace> = Vec::new();
                r.push(*w);
                assert(r@ =~= seq![*w]);
                r
            },
            WorkspaceDependency::Missing(w) => {
                let mut r: Vec<&'a Workspace> = Vec::new();
                r.push(*w);
                assert(r@ =~= seq![*w]);
                r
            },
            WorkspaceDependency::Reverse(w) => {
                let mut r: Vec<&'a Workspace> = Vec::new();
                r.push(*w);
                assert(r@ =~= seq![*w]);
                r
            },
            WorkspaceDependency::Ambiguous(ws) => copy_refs(ws),
            WorkspaceDependency::Conflicting(a, b) => {
                let mut r: Vec<&'a Workspace> = Vec::new();
                r.push(*a);
                r.push(*b);
                assert(r@ =~= seq![*a, *b]);
                r
            },
        }
    }

    /// A copy of this dependency.
    pub fn copy(&self) -> (r: WorkspaceDependency<'a>)
        ensures
            dep_kind(r) == dep_kind(*self),
            dep_all(r) == dep_all(*self),
    {
        match self {
            WorkspaceDependency::Dependency(w) => WorkspaceDependency::Dependency(*w),
            WorkspaceDependency::Missing(w) => WorkspaceDependency::Missing(*w),
            WorkspaceDependency::Reverse(w) => WorkspaceDependency::Reverse(*w),
            WorkspaceDependency::Ambiguous(ws) => {
                WorkspaceDependency::Ambiguous(copy_refs(ws))
            },
            WorkspaceDependency::Conflicting(a, b) => WorkspaceDependency::Conflicting(*a, *b),
        }
    }

    /// The color in which this kind of dependency is shown: green for a
    /// dependency, yellow for a missing or reverse one, red for an ambiguous
    /// or conflicting one.
    pub fn color_kind(&self) -> (r: ShownColor)
        ensures
            r == shown_color(dep_kind(*self)),
    {
        match self {
            WorkspaceDependency::Dependency(_) => ShownColor::Green,
            WorkspaceDependency::Missing(_) => ShownColor::Yellow,
            WorkspaceDependency::Reverse(_) => ShownColor::Yellow,
            WorkspaceDependency::Ambiguous(_) => ShownColor::Red,
            WorkspaceDependency::Conflicting(_, _) => ShownColor::Red,
        }
    }

    /// The terminal color in which this dependency is shown.
    pub fn color(&self) -> (r: colored::Color)
        ensures
            r == terminal_color(shown_color(dep_kind(*self)).index()),
    {
        to_terminal_color(self.color_kind())
    }

    /// The rank of this kind of dependency when issues are ordered: plain
    /// dependencies first, then missing, reverse, conflicting and ambiguous ones.
    pub fn sort_order(&self) -> (r: usize)
        ensures
            r == dep_kind(*self),
    {
        match self {
            WorkspaceDependency::Dependency(_) => 5,
            WorkspaceDependency::Missing(_) => 4,
            WorkspaceDependency::Reverse(_) => 3,
            WorkspaceDependency::Conflicting(_, _) => 2,
            WorkspaceDependency::Ambiguous(_) => 1,
        }
    }
}

} // verus!

verus! {

/// The index of the first candidate whose path has component form `k`, or `-1`.
pub open spec fn first_cand(cands: Seq<Workspace>, k: Seq<char>) -> int {
    first_match(cands.map_values(|c: Workspace| ws_key(c) == k))
}

/// The candidates in the order that a list of declared dependencies (as
/// component forms) names them: for each dependency, the first candidate with
/// that path.
pub open spec fn order_candidates(dep_keys: Seq<Seq<char>>, cands: Seq<Workspace>) -> Seq<Workspace>
    decreases dep_keys.len(),
{
    if dep_keys.len() == 0 {
        Seq::empty()
    } else {
        let r = order_candidates(dep_keys.drop_last(), cands);
        let i = first_cand(cands, dep_keys.last());
        if i >= 0 {
            r.push(cands[i])
        } else {
            r
        }
    }
}

/// The workspaces (by index) in the order a search starts from the root:
/// the root, then the walk from it.
pub open spec fn search_order(m: Seq<WorkspaceContent>, bfs: bool) -> Seq<int> {
    seq![0int] + walk_from(m, bfs, m[0].workspace)
}

/// The position, in the search order, of the first workspace that declares a
/// dependency on one of the candidates, or `-1`.
pub open spec fn sibling_pos(m: Seq<WorkspaceContent>, bfs: bool, cands: Seq<Workspace>) -> int {
    first_match(
        search_order(m, bfs).map_values(
            |i: int| order_candidates(dep_keys_of(m[i].workspace), cands).len() > 0,
        ),
    )
}

/// The paths that a list of workspaces, and all workspaces reachable from
/// them, declare as dependencies.
pub open spec fn all_transitive(m: Seq<WorkspaceContent>, ws: Seq<Workspace>) -> Seq<Seq<char>>
    decreases ws.len(),
{
    if ws.len() == 0 {
        Seq::empty()
    } else {
        all_transitive(m, ws.drop_last()) + (ws.last().deps() + deps_along(m, walk_from(m, true, ws.last())))
    }
}

/// The workspaces of `ws` whose paths are (`inside`) or are not (`!inside`) among `paths`.
pub open spec fn filter_by_paths(ws: Seq<Workspace>, paths: Seq<Seq<char>>, inside: bool) -> Seq<Workspace>
    decreases ws.len(),
{
    if ws.len() == 0 {
        Seq::empty()
    } else {
        let r = filter_by_paths(ws.drop_last(), paths, inside);
        if path_in(paths, ws.last().sws_path@) == inside {
            r.push(ws.last())
        } else {
            r
        }
    }
}

/// How an ambiguous dependency is resolved with a search order (`bfs` for
/// DataFlex 26, depth-first for DataFlex 25). The first workspace in the search
/// order that declares one of the candidates decides: its declarations order
/// the candidates. With `take_first`, or a single candidate, the first one is
/// chosen. Otherwise the candidates that another candidate already reaches are
/// set aside: one left is chosen, several left stay ambiguous, and when none is
/// left, those set aside stay ambiguous. When no workspace declares a
/// candidate, the dependency stays as it is; other kinds are left as they are.
pub open spec fn resolve_view(
    m: Seq<WorkspaceContent>,
    cands: Seq<Workspace>,
    bfs: bool,
    take_first: bool,
) -> (int, Seq<Workspace>) {
    let pos = sibling_pos(m, bfs, cands);
    if pos < 0 {
        (1, cands)
    } else {
        let sib = m[search_order(m, bfs)[pos]].workspace;
        let ordered = order_candidates(dep_keys_of(sib), cands);
        if ordered.len() == 1 || take_first {
            (5, seq![ordered[0]])
        } else {
            let trans = all_transitive(m, ordered);
            let remaining = filter_by_paths(ordered, trans, false);
            let transitive = filter_by_paths(ordered, trans, true);
            if remaining.len() == 1 {
                (5, seq![remaining[0]])
            } else if remaining.len() > 0 {
                (1, remaining)
            } else {
                (1, transitive)
            }
        }
    }
}

/// A dependency as its kind and the workspaces it names.
pub open spec fn dview<'a>(d: WorkspaceDependency<'a>) -> (int, Seq<Workspace>) {
    (dep_kind(d), vals(dep_all(d)))
}

/// `r` is what resolving `d` gives: an ambiguous dependency is resolved as
/// `resolve_view` describes; any other is returned as it is.
pub open spec fn resolves_to<'a>(
    m: Seq<WorkspaceContent>,
    d: WorkspaceDependency<'a>,
    bfs: bool,
    take_first: bool,
    r: WorkspaceDependency<'a>,
) -> bool {
    match d {
        WorkspaceDependency::Ambiguous(cands) => dview(r) == resolve_view(m, vals(cands@), bfs, take_first),
        _ => r == d,
    }
}

} // verus!

verus! {

/// A path is among the paths of two lists joined exactly when it is among those of either.
pub proof fn lemma_path_in_concat(a: Seq<Seq<char>>, b: Seq<Seq<char>>, p: Seq<char>)
    ensures
        path_in(a + b, p) <==> (path_in(a, p) || path_in(b, p)),
{
    let k = path_identity(p);
    assert(keys_of(a + b) =~= keys_of(a) + keys_of(b));
    if keys_of(a).contains(k) {
        let i = choose|i: int| 0 <= i < keys_of(a).len() && keys_of(a)[i] == k;
        assert((keys_of(a) + keys_of(b))[i] == k);
    }
    if keys_of(b).contains(k) {
        let i = choose|i: int| 0 <= i < keys_of(b).len() && keys_of(b)[i] == k;
        assert((keys_of(a) + keys_of(b))[keys_of(a).len() + i] == k);
    }
    if (keys_of(a) + keys_of(b)).contains(k) {
        let i = choose|i: int| 0 <= i < (keys_of(a) + keys_of(b)).len() && (keys_of(a) + keys_of(b))[i] == k;
        if i < keys_of(a).len() {
            assert(keys_of(a)[i] == k);
        } else {
            assert(keys_of(b)[i - keys_of(a).len()] == k);
        }
    }
}

impl WorkspaceDependencyTree {
    /// The index of the first candidate whose key is `k`.
    fn first_cand_exec<'a>(cands: &Vec<&'a Workspace>, ckeys: &Vec<String>, k: &String) -> (r: Option<usize>)
        requires
            strings_of(ckeys@) == vals(cands@).map_values(|c: Workspace| ws_key(c)),
        ensures
            match r {
                Some(i) => first_cand(vals(cands@), k@) == i as int && i < cands@.len(),
                None => first_cand(vals(cands@), k@) == -1,
            },
    {
        let ghost flags = vals(cands@).map_values(|c: Workspace| ws_key(c) == k@);
        assert(strings_of(ckeys@).len() == ckeys@.len());
        let mut i: usize = 0;
        while i < ckeys.len()
            invariant
                0 <= i <= ckeys@.len(),
                ckeys@.len() == cands@.len(),
                strings_of(ckeys@) == vals(cands@).map_values(|c: Workspace| ws_key(c)),
                flags == vals(cands@).map_values(|c: Workspace| ws_key(c) == k@),
                forall|t: int| 0 <= t < i ==> !flags[t],
            decreases ckeys.len() - i,
        {
            assert(strings_of(ckeys@)[i as int] == ckeys@[i as int]@);
            assert(flags[i as int] == (ws_key(*cands@[i as int]) == k@));
            if ckeys[i] == *k {
                proof {
                    lemma_first_match_at(flags, i as int);
                }
                return Some(i);
            }
            i += 1;
        }
        proof {
            lemma_first_match_none(flags);
        }
        None
    }

    /// The candidates in the order `dep_keys` names them.
    fn order_cands<'a>(dep_keys: &Vec<String>, cands: &Vec<&'a Workspace>, ckeys: &Vec<String>) -> (r: Vec<&'a Workspace>)
        requires
            strings_of(ckeys@) == vals(cands@).map_values(|c: Workspace| ws_key(c)),
        ensures
            vals(r@) == order_candidates(strings_of(dep_keys@), vals(cands@)),
    {
        let mut r: Vec<&'a Workspace> = Vec::new();
        let mut i: usize = 0;
        while i < dep_keys.len()
            invariant
                0 <= i <= dep_keys@.len(),
                strings_of(ckeys@) == vals(cands@).map_values(|c: Workspace| ws_key(c)),
                vals(r@) == order_candidates(strings_of(dep_keys@).take(i as int), vals(cands@)),
            decreases dep_keys.len() - i,
        {
            proof {
                assert(strings_of(dep_keys@).take(i + 1).drop_last() =~= strings_of(dep_keys@).take(i as int));
                assert(strings_of(dep_keys@).take(i + 1).last() == dep_keys@[i as int]@);
            }
            match Self::first_cand_exec(cands, ckeys, &dep_keys[i]) {
                Some(c) => {
                    let ghost before = r@;
                    r.push(cands[c]);
                    assert(vals(r@) =~= vals(before).push(vals(cands@)[c as int]));
                },
                None => {},
            }
            i += 1;
        }
        proof {
            assert(strings_of(dep_keys@).take(dep_keys@.len() as int) =~= strings_of(dep_keys@));
        }
        r
    }

    /// The component forms of the candidates' paths.
    fn cand_keys<'a>(cands: &Vec<&'a Workspace>) -> (r: Vec<String>)
        ensures
            strings_of(r@) == vals(cands@).map_values(|c: Workspace| ws_key(c)),
    {
        let mut r: Vec<String> = Vec::new();
        let mut i: usize = 0;
        while i < cands.len()
            invariant
                0 <= i <= cands@.len(),
                strings_of(r@) == vals(cands@).take(i as int).map_values(|c: Workspace| ws_key(c)),
            decreases cands.len() - i,
        {
            let k = path_key(cands[i].sws_path.as_str());
            let ghost prev = r@;
            r.push(k);
            proof {
                crate::text::lemma_strings_push(prev, k);
                assert(vals(cands@).take(i + 1).map_values(|c: Workspace| ws_key(c)) =~= vals(cands@).take(
                    i as int,
                ).map_values(|c: Workspace| ws_key(c)).push(ws_key(*cands@[i as int])));
            }
            i += 1;
        }
        proof {
            assert(vals(cands@).take(cands@.len() as int) =~= vals(cands@));
        }
        r
    }

    /// The component forms of all paths that `ordered`, and everything
    /// reachable from it, declares.
    fn transitive_keys<'a>(&self, ordered: &Vec<&'a Workspace>) -> (r: Vec<String>)
        ensures
            forall|p: Seq<char>| #[trigger] strings_of(r@).contains(path_identity(p)) <==> path_in(all_transitive(self.model(), vals(ordered@)), p),
    {
        let ghost m = self.model();
        let mut r: Vec<String> = Vec::new();
        let mut i: usize = 0;
        while i < ordered.len()
            invariant
                0 <= i <= ordered@.len(),
                m == self.model(),
                forall|p: Seq<char>| #[trigger] strings_of(r@).contains(path_identity(p)) <==> path_in(all_transitive(m, vals(ordered@).take(i as int)), p),
            decreases ordered.len() - i,
        {
            let paths = self.defined_transitive_workspace_dependencies(ordered[i]);
            let ghost piece = ordered@[i as int].deps() + deps_along(m, walk_from(m, true, *ordered@[i as int]));
            let ghost prev = strings_of(r@);
            let ghost before = all_transitive(m, vals(ordered@).take(i as int));
            let ghost pk = keys_of(strings_of(paths@));
            let mut j: usize = 0;
            while j < paths.len()
                invariant
                    0 <= j <= paths@.len(),
                    pk == keys_of(strings_of(paths@)),
                    forall|p: Seq<char>| #[trigger] strings_of(r@).contains(path_identity(p)) <==> (prev.contains(path_identity(p)) || pk.take(j as int).contains(path_identity(p))),
                decreases paths.len() - j,
            {
                let k = path_key(paths[j].as_str());
                let ghost rp = r@;
                r.push(k);
                proof {
                    assert(pk[j as int] == k@);
                    crate::text::lemma_strings_push(rp, k);
                    assert(pk.take(j + 1) =~= pk.take(j as int).push(k@));
                    assert forall|p: Seq<char>| #[trigger] strings_of(r@).contains(path_identity(p)) <==> (prev.contains(path_identity(p)) || pk.take(j + 1).contains(path_identity(p))) by {
                        lemma_seq_push_contains(strings_of(rp), k@, path_identity(p));
                        lemma_seq_push_contains(pk.take(j as int), k@, path_identity(p));
                    }
                }
                j += 1;
            }
            proof {
                assert(pk.take(paths@.len() as int) =~= pk);
                assert(vals(ordered@).take(i + 1).drop_last() =~= vals(ordered@).take(i as int));
                assert(vals(ordered@).take(i + 1).last() == *ordered@[i as int]);
                assert(all_transitive(m, vals(ordered@).take(i + 1)) == before + piece);
                assert forall|p: Seq<char>| #[trigger] strings_of(r@).contains(path_identity(p)) <==> path_in(all_transitive(m, vals(ordered@).take(i + 1)), p) by {
                    lemma_dedup_paths(piece, p);
                    lemma_path_in_concat(before, piece, p);
                }
            }
            i += 1;
        }
        proof {
            assert(vals(ordered@).take(ordered@.len() as int) =~= vals(ordered@));
        }
        r
    }
}

} // verus!

verus! {

impl WorkspaceDependencyTree {
    /// The workspaces of `ordered` whose paths are, and those whose paths are
    /// not, among the paths with component forms `tk`.
    fn split_by_keys<'a>(ordered: &Vec<&'a Workspace>, tk: &Vec<String>, Ghost(paths): Ghost<Seq<Seq<char>>>) -> (r: (Vec<&'a Workspace>, Vec<&'a Workspace>))
        requires
            forall|p: Seq<char>| #[trigger] strings_of(tk@).contains(path_identity(p)) <==> path_in(paths, p),
        ensures
            vals(r.0@) == filter_by_paths(vals(ordered@), paths, false),
            vals(r.1@) == filter_by_paths(vals(ordered@), paths, true),
    {
        let mut out: Vec<&'a Workspace> = Vec::new();
        let mut ins: Vec<&'a Workspace> = Vec::new();
        let mut i: usize = 0;
        while i < ordered.len()
            invariant
                0 <= i <= ordered@.len(),
                forall|p: Seq<char>| #[trigger] strings_of(tk@).contains(path_identity(p)) <==> path_in(paths, p),
                vals(out@) == filter_by_paths(vals(ordered@).take(i as int), paths, false),
                vals(ins@) == filter_by_paths(vals(ordered@).take(i as int), paths, true),
            decreases ordered.len() - i,
        {
            proof {
                assert(vals(ordered@).take(i + 1).drop_last() =~= vals(ordered@).take(i as int));
                assert(vals(ordered@).take(i + 1).last() == *ordered@[i as int]);
            }
            let k = path_key(ordered[i].sws_path.as_str());
            let ghost ob = out@;
            let ghost ib = ins@;
            let inside = crate::text::contains_string(tk, &k);
            assert(inside == path_in(paths, ordered@[i as int].sws_path@));
            if inside {
                ins.push(ordered[i]);
                assert(vals(ins@) =~= vals(ib).push(*ordered@[i as int]));
            } else {
                out.push(ordered[i]);
                assert(vals(out@) =~= vals(ob).push(*ordered@[i as int]));
            }
            i += 1;
        }
        proof {
            assert(vals(ordered@).take(ordered@.len() as int) =~= vals(ordered@));
        }
        (out, ins)
    }

    /// Resolves an ambiguous dependency as `resolves_to` describes.
    fn resolve_workspace_dependency<'a>(&self, dependency: WorkspaceDependency<'a>, bfs: bool, take_first: bool) -> (r: WorkspaceDependency<'a>)
        ensures
            resolves_to(self.model(), dependency, bfs, take_first, r),
    {
        proof {
            use_type_invariant(self);
        }
        let ghost m = self.model();
        let ghost d = dependency;
        let candidates = match dependency {
            WorkspaceDependency::Ambiguous(c) => c,
            other => {
                return other;
            },
        };
        assert(d == WorkspaceDependency::Ambiguous(candidates));
        let ckeys = Self::cand_keys(&candidates);
        let root = &self.nodes[0];
        assert(root.ok());
        let order = self.walk(&root.key, &root.dep_keys, bfs);
        let ghost so = search_order(m, bfs);
        let ghost flags = so.map_values(|i: int| order_candidates(dep_keys_of(m[i].workspace), vals(candidates@)).len() > 0);
        proof {
            assert(so == seq![0int] + ints(order@));
        }
        let first = Self::order_cands(&root.dep_keys, &candidates, &ckeys);
        assert(so[0] == 0);
        assert(flags[0] == (vals(first@).len() > 0));
        let mut pos: usize = 0;
        let mut found: Option<Vec<&'a Workspace>> = None;
        if first.len() > 0 {
            found = Some(first);
        } else {
            let mut t: usize = 0;
            while t < order.len()
                invariant_except_break
                    found is None,
                    forall|q: int| 0 <= q <= t ==> !flags[q],
                invariant
                    0 <= t <= order@.len(),
                    m == self.model(),
                    m == contents_of(self.nodes@),
                    forall|q: int| 0 <= q < self.nodes@.len() ==> (#[trigger] self.nodes@[q]).ok(),
                    forall|k: int| 0 <= k < order@.len() ==> #[trigger] order@[k] < m.len(),
                    so == seq![0int] + ints(order@),
                    flags == so.map_values(|i: int| order_candidates(dep_keys_of(m[i].workspace), vals(candidates@)).len() > 0),
                    strings_of(ckeys@) == vals(candidates@).map_values(|c: Workspace| ws_key(c)),
                ensures
                    found is None ==> forall|q: int| 0 <= q < so.len() ==> !flags[q],
                    found matches Some(o) ==> {
                        &&& 1 <= pos < so.len()
                        &&& flags[pos as int]
                        &&& forall|q: int| 0 <= q < pos ==> !flags[q]
                        &&& vals(o@) == order_candidates(dep_keys_of(m[so[pos as int]].workspace), vals(candidates@))
                    },
                decreases order@.len() - t,
            {
                let idx = order[t];
                assert(so[t + 1] == idx as int);
                assert(self.nodes@[idx as int].ok());
                let o = Self::order_cands(&self.nodes[idx].dep_keys, &candidates, &ckeys);
                if o.len() > 0 {
                    found = Some(o);
                    pos = t + 1;
                    break;
                }
                t += 1;
            }
        }
        let ordered = match found {
            None => {
                proof {
                    lemma_first_match_none(flags);
                }
                return WorkspaceDependency::Ambiguous(candidates);
            },
            Some(o) => o,
        };
        assert(flags[pos as int]);
        assert(vals(ordered@) == order_candidates(dep_keys_of(m[so[pos as int]].workspace), vals(candidates@)));
        proof {
            lemma_first_match_at(flags, pos as int);
            assert(sibling_pos(m, bfs, vals(candidates@)) == pos as int);
        }
        if ordered.len() == 1 || take_first {
            let r = WorkspaceDependency::Dependency(ordered[0]);
            assert(dview(r).1 =~= seq![vals(ordered@)[0]]);
            return r;
        }
        let tk = self.transitive_keys(&ordered);
        let (remaining, transitive) = Self::split_by_keys(&ordered, &tk, Ghost(all_transitive(m, vals(ordered@))));
        if remaining.len() == 1 {
            let r = WorkspaceDependency::Dependency(remaining[0]);
            assert(dview(r).1 =~= seq![vals(remaining@)[0]]);
            r
        } else if remaining.len() > 0 {
            WorkspaceDependency::Ambiguous(remaining)
        } else {
            WorkspaceDependency::Ambiguous(transitive)
        }
    }

    /// Resolves an ambiguous dependency as DataFlex 26 does: breadth-first.
    pub fn resolve_workspace_dependency_df26<'a>(&self, dependency: WorkspaceDependency<'a>) -> (r: WorkspaceDependency<'a>)
        ensures
            resolves_to(self.model(), dependency, true, false, r),
    {
        self.resolve_workspace_dependency(dependency, true, false)
    }

    /// Resolves an ambiguous dependency as DataFlex 25 does: depth-first,
    /// taking the first candidate.
    pub fn resolve_workspace_dependency_df25<'a>(&self, dependency: WorkspaceDependency<'a>) -> (r: WorkspaceDependency<'a>)
        ensures
            resolves_to(self.model(), dependency, false, true, r),
    {
        self.resolve_workspace_dependency(dependency, false, true)
    }
}

} // verus!

verus! {

/// A workspace's name: the file name of its description.
pub open spec fn ws_name(w: Workspace) -> Seq<char> {
    file_name_of(w.sws_path@).unwrap()
}

/// The names of a list of workspaces joined with `sep`.
pub open spec fn join_names(ws: Seq<Workspace>, sep: Seq<char>) -> Seq<char>
    decreases ws.len(),
{
    if ws.len() == 0 {
        Seq::empty()
    } else if ws.len() == 1 {
        ws_name(ws[0])
    } else {
        join_names(ws.drop_last(), sep) + sep + ws_name(ws.last())
    }
}

/// The text of a dependency: the workspace's name; for an ambiguous one the
/// names joined with `, ` (one per line in the alternate form); for a
/// conflicting one the two names around ` / `.
pub open spec fn display_text(v: (int, Seq<Workspace>), alternate: bool) -> Seq<char> {
    if v.0 == 1 {
        join_names(v.1, if alternate { seq!['\n'] } else { seq![',', ' '] })
    } else if v.0 == 2 {
        ws_name(v.1[0]) + seq![' ', '/', ' '] + ws_name(v.1[1])
    } else {
        ws_name(v.1[0])
    }
}

/// Every workspace a dependency names has a name.
pub open spec fn all_named(ws: Seq<Workspace>) -> bool {
    forall|k: int| 0 <= k < ws.len() ==> (#[trigger] ws[k]).has_name_spec()
}

impl<'a> WorkspaceDependency<'a> {
    /// The text of this dependency (its `Display` form).
    pub fn to_string(&self) -> (r: String)
        requires
            all_named(vals(dep_all(*self))),
        ensures
            r@ == display_text(dview(*self), false),
    {
        self.text(false)
    }

    /// The alternate text of this dependency (its `{:#}` form).
    pub fn to_string_alternate(&self) -> (r: String)
        requires
            all_named(vals(dep_all(*self))),
        ensures
            r@ == display_text(dview(*self), true),
    {
        self.text(true)
    }

    fn text(&self, alternate: bool) -> (r: String)
        requires
            all_named(vals(dep_all(*self))),
        ensures
            r@ == display_text(dview(*self), alternate),
    {
        match self {
            WorkspaceDependency::Dependency(w) => {
                assert(vals(dep_all(*self))[0] == **w);
                w.name()
            },
            WorkspaceDependency::Missing(w) => {
                assert(vals(dep_all(*self))[0] == **w);
                w.name()
            },
            WorkspaceDependency::Reverse(w) => {
                assert(vals(dep_all(*self))[0] == **w);
                w.name()
            },
            WorkspaceDependency::Conflicting(a, b) => {
                assert(vals(dep_all(*self))[0] == **a);
                assert(vals(dep_all(*self))[1] == **b);
                let na = a.name();
                let nb = b.name();
                let t = crate::text::concat(na.as_str(), " / ");
                let r = crate::text::concat(t.as_str(), nb.as_str());
                proof {
                    reveal_strlit(" / ");
                    assert(" / "@ =~= seq![' ', '/', ' ']);
                }
                r
            },
            WorkspaceDependency::Ambiguous(ws) => {
                let sep: &str = if alternate { "\n" } else { ", " };
                proof {
                    reveal_strlit("\n");
                    reveal_strlit(", ");
                    assert("\n"@ =~= seq!['\n']);
                    assert(", "@ =~= seq![',', ' ']);
                }
                let mut r = String::new();
                let mut i: usize = 0;
                assert(r@ =~= join_names(vals(ws@).take(0), sep@));
                while i < ws.len()
                    invariant
                        0 <= i <= ws@.len(),
                        all_named(vals(ws@)),
                        r@ == join_names(vals(ws@).take(i as int), sep@),
                    decreases ws.len() - i,
                {
                    assert(vals(ws@)[i as int].has_name_spec());
                    let n = ws[i].name();
                    proof {
                        assert(vals(ws@).take(i + 1).drop_last() =~= vals(ws@).take(i as int));
                        assert(vals(ws@).take(i + 1).last() == *ws@[i as int]);
                    }
                    if i == 0 {
                        r = n;
                        assert(vals(ws@).take(1)[0] == *ws@[0]);
                    } else {
                        let t = crate::text::concat(r.as_str(), sep);
                        r = crate::text::concat(t.as_str(), n.as_str());
                    }
                    i += 1;
                }
                assert(vals(ws@).take(ws@.len() as int) =~= vals(ws@));
                r
            },
        }
    }
}

} // verus!

verus! {

proof fn lemma_order_candidates_named(dk: Seq<Seq<char>>, cands: Seq<Workspace>)
    requires
        all_named(cands),
    ensures
        all_named(order_candidates(dk, cands)),
    decreases dk.len(),
{
    if dk.len() > 0 {
        lemma_order_candidates_named(dk.drop_last(), cands);
        lemma_first_match(cands.map_values(|c: Workspace| ws_key(c) == dk.last()));
    }
}

proof fn lemma_filter_named(ws: Seq<Workspace>, paths: Seq<Seq<char>>, inside: bool)
    requires
        all_named(ws),
    ensures
        all_named(filter_by_paths(ws, paths, inside)),
    decreases ws.len(),
{
    if ws.len() > 0 {
        lemma_filter_named(ws.drop_last(), paths, inside);
    }
}

/// The workspaces that a resolution names all come from the candidates, so
/// they have names when the candidates do.
pub proof fn lemma_resolve_named(m: Seq<WorkspaceContent>, cands: Seq<Workspace>, bfs: bool, take_first: bool)
    requires
        all_named(cands),
    ensures
        all_named(resolve_view(m, cands, bfs, take_first).1),
        resolve_view(m, cands, bfs, take_first).0 == 1 || (resolve_view(m, cands, bfs, take_first).0 == 5
            && resolve_view(m, cands, bfs, take_first).1.len() == 1),
{
    let pos = sibling_pos(m, bfs, cands);
    lemma_first_match(search_order(m, bfs).map_values(
        |i: int| order_candidates(dep_keys_of(m[i].workspace), cands).len() > 0,
    ));
    if pos >= 0 {
        let sib = m[search_order(m, bfs)[pos]].workspace;
        let ordered = order_candidates(dep_keys_of(sib), cands);
        lemma_order_candidates_named(dep_keys_of(sib), cands);
        let trans = all_transitive(m, ordered);
        lemma_filter_named(ordered, trans, false);
        lemma_filter_named(ordered, trans, true);
    }
}

/// Whether `p` is declared by one of the workspaces `ws`, or by a workspace
/// that one of them reaches through its declared dependencies.
pub open spec fn reached_from_any(m: Seq<WorkspaceContent>, ws: Seq<Workspace>, p: Seq<char>) -> bool {
    exists|j: int| 0 <= j < ws.len() && path_in(#[trigger] ws[j].deps() + deps_along(m, walk_from(m, true, ws[j])), p)
}

proof fn lemma_all_transitive_reached(m: Seq<WorkspaceContent>, ws: Seq<Workspace>, p: Seq<char>)
    ensures
        path_in(all_transitive(m, ws), p) <==> reached_from_any(m, ws, p),
    decreases ws.len(),
{
    if ws.len() == 0 {
        assert(keys_of(Seq::<Seq<char>>::empty()) =~= Seq::<Seq<char>>::empty());
    } else {
        let init = ws.drop_last();
        let last = ws.last();
        let piece = last.deps() + deps_along(m, walk_from(m, true, last));
        lemma_all_transitive_reached(m, init, p);
        lemma_path_in_concat(all_transitive(m, init), piece, p);
        if reached_from_any(m, init, p) {
            let j = choose|j: int| 0 <= j < init.len() && path_in(#[trigger] init[j].deps() + deps_along(m, walk_from(m, true, init[j])), p);
            assert(ws[j] == init[j]);
        }
        if path_in(piece, p) {
            assert(ws[ws.len() - 1] == last);
        }
        if reached_from_any(m, ws, p) {
            let j = choose|j: int| 0 <= j < ws.len() && path_in(#[trigger] ws[j].deps() + deps_along(m, walk_from(m, true, ws[j])), p);
            if j < ws.len() - 1 {
                assert(init[j] == ws[j]);
            }
        }
    }
}

proof fn lemma_filter_exact(ws: Seq<Workspace>, paths: Seq<Seq<char>>, inside: bool)
    ensures
        forall|k: int|
            0 <= k < filter_by_paths(ws, paths, inside).len() ==> ws.contains(#[trigger] filter_by_paths(ws, paths, inside)[k])
                && path_in(paths, filter_by_paths(ws, paths, inside)[k].sws_path@) == inside,
        forall|i: int|
            0 <= i < ws.len() && path_in(paths, (#[trigger] ws[i]).sws_path@) == inside ==> filter_by_paths(
                ws,
                paths,
                inside,
            ).contains(ws[i]),
        (forall|i: int| 0 <= i < ws.len() ==> path_in(paths, (#[trigger] ws[i]).sws_path@) == inside) ==> filter_by_paths(
            ws,
            paths,
            inside,
        ) == ws,
    decreases ws.len(),
{
    if ws.len() > 0 {
        let init = ws.drop_last();
        lemma_filter_exact(init, paths, inside);
        let r = filter_by_paths(init, paths, inside);
        let f = filter_by_paths(ws, paths, inside);
        assert forall|k: int| 0 <= k < f.len() implies ws.contains(#[trigger] f[k]) && path_in(paths, f[k].sws_path@) == inside by {
            if k < r.len() {
                assert(f[k] == r[k]);
                let j = choose|j: int| 0 <= j < init.len() && init[j] == r[k];
                assert(ws[j] == init[j]);
            } else {
                assert(f[k] == ws.last());
                assert(ws[ws.len() - 1] == ws.last());
            }
        }
        assert forall|i: int| 0 <= i < ws.len() && path_in(paths, (#[trigger] ws[i]).sws_path@) == inside implies f.contains(ws[i]) by {
            if i < ws.len() - 1 {
                assert(init[i] == ws[i]);
                let t = choose|t: int| 0 <= t < r.len() && r[t] == init[i];
                assert(f[t] == r[t]);
            } else {
                assert(f[r.len() as int] == ws[i]);
            }
        }
        if forall|i: int| 0 <= i < ws.len() ==> path_in(paths, (#[trigger] ws[i]).sws_path@) == inside {
            assert forall|i: int| 0 <= i < init.len() implies path_in(paths, (#[trigger] init[i]).sws_path@) == inside by {
                assert(init[i] == ws[i]);
            }
            assert(path_in(paths, ws[ws.len() - 1].sws_path@) == inside);
            assert(f =~= ws);
        }
    }
}

/// DataFlex 26 resolution of an ambiguous dependency, once a workspace that
/// declares several candidates orders them: a candidate declared by another
/// ordered candidate, or by any workspace that one reaches through declared
/// dependencies, is set aside. When some candidate is not set aside, the
/// result names exactly those that are not, and no other; when every one is
/// set aside, they all stay ambiguous.
pub proof fn lemma_df26_sets_aside_reached(m: Seq<WorkspaceContent>, cands: Seq<Workspace>)
    ensures
        ({
            let pos = sibling_pos(m, true, cands);
            let v = resolve_view(m, cands, true, false);
            let ordered = order_candidates(dep_keys_of(m[search_order(m, true)[pos]].workspace), cands);
            pos >= 0 && ordered.len() > 1 ==> {
                &&& (exists|i: int| 0 <= i < ordered.len() && !reached_from_any(m, ordered, (#[trigger] ordered[i]).sws_path@)) ==> {
                    &&& forall|k: int|
                        0 <= k < v.1.len() ==> ordered.contains(#[trigger] v.1[k]) && !reached_from_any(m, ordered, v.1[k].sws_path@)
                    &&& forall|i: int|
                        0 <= i < ordered.len() && !reached_from_any(m, ordered, (#[trigger] ordered[i]).sws_path@) ==> v.1.contains(
                            ordered[i],
                        )
                }
                &&& (forall|i: int| 0 <= i < ordered.len() ==> reached_from_any(m, ordered, (#[trigger] ordered[i]).sws_path@))
                    ==> v == (1int, ordered)
            }
        }),
{
    let pos = sibling_pos(m, true, cands);
    let v = resolve_view(m, cands, true, false);
    let ordered = order_candidates(dep_keys_of(m[search_order(m, true)[pos]].workspace), cands);
    if pos >= 0 && ordered.len() > 1 {
        let trans = all_transitive(m, ordered);
        let remaining = filter_by_paths(ordered, trans, false);
        let transitive = filter_by_paths(ordered, trans, true);
        lemma_filter_exact(ordered, trans, false);
        lemma_filter_exact(ordered, trans, true);
        assert forall|p: Seq<char>| #[trigger] path_in(trans, p) <==> reached_from_any(m, ordered, p) by {
            lemma_all_transitive_reached(m, ordered, p);
        }
        if exists|i: int| 0 <= i < ordered.len() && !reached_from_any(m, ordered, (#[trigger] ordered[i]).sws_path@) {
            let i = choose|i: int| 0 <= i < ordered.len() && !reached_from_any(m, ordered, (#[trigger] ordered[i]).sws_path@);
            assert(!path_in(trans, ordered[i].sws_path@));
            assert(remaining.contains(ordered[i]));
            assert(remaining.len() > 0);
            if remaining.len() == 1 {
                assert(v.1 =~= remaining);
            }
            assert(v.1 == remaining);
            assert forall|k: int| 0 <= k < v.1.len() implies ordered.contains(#[trigger] v.1[k]) && !reached_from_any(
                m,
                ordered,
                v.1[k].sws_path@,
            ) by {
                assert(v.1[k] == remaining[k]);
                assert(!path_in(trans, remaining[k].sws_path@));
            }
            assert forall|t: int| 0 <= t < ordered.len() && !reached_from_any(m, ordered, (#[trigger] ordered[t]).sws_path@) implies v.1.contains(
                ordered[t],
            ) by {
                assert(!path_in(trans, ordered[t].sws_path@));
            }
        }
        if forall|i: int| 0 <= i < ordered.len() ==> reached_from_any(m, ordered, (#[trigger] ordered[i]).sws_path@) {
            assert forall|i: int| 0 <= i < ordered.len() implies path_in(trans, (#[trigger] ordered[i]).sws_path@) == true by {
                assert(reached_from_any(m, ordered, ordered[i].sws_path@));
            }
            assert(transitive == ordered);
            if remaining.len() > 0 {
                assert(remaining[0] == remaining[0]);
                assert(path_in(trans, remaining[0].sws_path@) == false);
                let j = choose|j: int| 0 <= j < ordered.len() && ordered[j] == remaining[0];
                assert(reached_from_any(m, ordered, ordered[j].sws_path@));
                assert(false);
            }
            assert(v == (1int, ordered));
        }
    }
}

/// The `Use` targets of a list of source files, file by file, in order.
pub open spec fn use_names(files: Seq<SourceFile>) -> Seq<Seq<char>>
    decreases files.len(),
{
    if files.len() == 0 {
        Seq::empty()
    } else {
        use_names(files.drop_last()) + crate::source_scan::names_of(files.last().dependencies@)
    }
}

/// The workspaces (by index) that hold a source file named `name`, each
/// listed once, in the order they were added, or `None` when no workspace holds one.
pub open spec fn holders(m: Seq<WorkspaceContent>, name: Seq<char>) -> Option<Seq<int>> {
    let sm = source_map(m);
    let p = find_name(sm, name);
    if p < 0 {
        None
    } else {
        Some(sm[p].1)
    }
}

/// The workspaces at the given indices.
pub open spec fn ws_at(m: Seq<WorkspaceContent>, idx: Seq<int>) -> Seq<Workspace> {
    idx.map_values(|i: int| m[i].workspace)
}

/// What a `Use` of the file `name`, in the workspace at `wpath`, implies: no
/// dependency when no workspace holds the file; for a file held once, a
/// dependency on its workspace, or a reverse one when that workspace already
/// reaches `wpath`; for a file held several times, the DataFlex 26
/// resolution, unless it picks one workspace: then nothing when DataFlex 25
/// picks the same, a conflict when it picks another, and the ambiguity when
/// it picks none.
pub open spec fn cand_view(m: Seq<WorkspaceContent>, wpath: Seq<char>, name: Seq<char>) -> Option<(int, Seq<Workspace>)> {
    match holders(m, name) {
        None => None,
        Some(list) => {
            if list.len() > 1 {
                multi_view(m, ws_at(m, list))
            } else {
                Some(single_view(m, m[list[0]].workspace, wpath))
            }
        },
    }
}

/// What a `Use` of a file held by several workspaces `wds` implies.
pub open spec fn multi_view(m: Seq<WorkspaceContent>, wds: Seq<Workspace>) -> Option<(int, Seq<Workspace>)> {
    let v26 = resolve_view(m, wds, true, false);
    if v26.0 == 5 {
        let v25 = resolve_view(m, wds, false, true);
        if v25.0 == 5 {
            if ws_key(v25.1[0]) == ws_key(v26.1[0]) {
                None
            } else {
                Some((2, seq![v26.1[0], v25.1[0]]))
            }
        } else {
            Some((1, wds))
        }
    } else {
        Some(v26)
    }
}

/// What a `Use` of a file held only by `w` implies for the workspace at `wpath`.
pub open spec fn single_view(m: Seq<WorkspaceContent>, w: Workspace, wpath: Seq<char>) -> (int, Seq<Workspace>) {
    if path_in(w.deps() + deps_along(m, walk_from(m, true, w)), wpath) {
        (3, seq![w])
    } else {
        (5, seq![w])
    }
}

/// The implied dependencies of a list of `Use` targets, in order, each kept
/// only when its text differs from those kept before and from `seen0`.
pub open spec fn collect_views(
    m: Seq<WorkspaceContent>,
    wpath: Seq<char>,
    names: Seq<Seq<char>>,
    seen0: Seq<Seq<char>>,
) -> (Seq<(int, Seq<Workspace>)>, Seq<Seq<char>>)
    decreases names.len(),
{
    if names.len() == 0 {
        (Seq::empty(), seen0)
    } else {
        let (vs, seen) = collect_views(m, wpath, names.drop_last(), seen0);
        match cand_view(m, wpath, names.last()) {
            None => (vs, seen),
            Some(v) => {
                let t = display_text(v, false);
                if seen.contains(t) {
                    (vs, seen)
                } else {
                    (vs.push(v), seen.push(t))
                }
            },
        }
    }
}

/// The workspace dependencies that the `Use` statements of a workspace's
/// source files imply, each text once and never the workspace's own name.
pub open spec fn calculated_spec(m: Seq<WorkspaceContent>, w: Workspace) -> Seq<(int, Seq<Workspace>)> {
    let i = find_key(m, ws_key(w));
    if i < 0 {
        Seq::empty()
    } else {
        collect_views(m, w.sws_path@, use_names(m[i].source_files@), seq![ws_name(m[i].workspace)]).0
    }
}

} // verus!

verus! {

/// Every entry of a file map lists at least one workspace.
proof fn lemma_grouped_nonempty(f: Seq<(Seq<char>, int)>)
    ensures
        forall|k: int| 0 <= k < grouped(f).len() ==> (#[trigger] grouped(f)[k]).1.len() > 0,
    decreases f.len(),
{
    if f.len() > 0 {
        lemma_grouped_nonempty(f.drop_last());
        let g = grouped(f.drop_last());
        lemma_first_match(g.map_values(|e: (Seq<char>, Seq<int>)| lower_seq(e.0) == lower_seq(f.last().0)));
    }
}

/// The views of a list of dependencies.
pub open spec fn dviews<'a>(ds: Seq<WorkspaceDependency<'a>>) -> Seq<(int, Seq<Workspace>)> {
    ds.map_values(|d: WorkspaceDependency<'a>| dview(d))
}

/// The component forms of a list of paths include `key`.
pub fn paths_contain_key(paths: &Vec<String>, key: &String) -> (r: bool)
    ensures
        r == keys_of(strings_of(paths@)).contains(key@),
{
    let mut i: usize = 0;
    while i < paths.len()
        invariant
            0 <= i <= paths@.len(),
            forall|t: int| 0 <= t < i ==> keys_of(strings_of(paths@))[t] != key@,
        decreases paths.len() - i,
    {
        let k = path_key(paths[i].as_str());
        if k == *key {
            assert(keys_of(strings_of(paths@))[i as int] == key@);
            return true;
        }
        i += 1;
    }
    false
}

impl WorkspaceDependencyTree {
    /// The entry of the file map for `name`, if any.
    fn find_file_entry(&self, name: &FileName) -> (r: Option<usize>)
        ensures
            match r {
                Some(p) => find_name(source_map(self.model()), name.0@) == p as int && p < self.file_names@.len(),
                None => find_name(source_map(self.model()), name.0@) == -1,
            },
    {
        proof {
            use_type_invariant(self);
        }
        let ghost g = source_map(self.model());
        let ghost flags = g.map_values(|e: (Seq<char>, Seq<int>)| lower_seq(e.0) == lower_seq(name.0@));
        let mut p: usize = 0;
        while p < self.file_names.len()
            invariant
                0 <= p <= self.file_names@.len(),
                self.file_names@.len() == self.file_nodes@.len(),
                g == files_view_of(self.file_names@, self.file_nodes@),
                g == source_map(self.model()),
                flags == g.map_values(|e: (Seq<char>, Seq<int>)| lower_seq(e.0) == lower_seq(name.0@)),
                forall|t: int| 0 <= t < p ==> !flags[t],
            decreases self.file_names.len() - p,
        {
            assert(g[p as int].0 == self.file_names@[p as int].0@);
            assert(flags[p as int] == (lower_seq(self.file_names@[p as int].0@) == lower_seq(name.0@)));
            if self.file_names[p].same_as(name) {
                proof {
                    lemma_first_match_at(flags, p as int);
                }
                return Some(p);
            }
            p += 1;
        }
        proof {
            lemma_first_match_none(flags);
        }
        None
    }

    /// The dependency implied by one `Use` of `name` in the workspace at `wpath`.
    fn candidate_for(&self, wpath: &String, name: &FileName) -> (r: Option<WorkspaceDependency<'_>>)
        ensures
            match cand_view(self.model(), wpath@, name.0@) {
                None => r is None,
                Some(v) => r matches Some(d) && dview(d) == v && all_named(vals(dep_all(d))),
            },
    {
        proof {
            use_type_invariant(self);
        }
        let ghost m = self.model();
        let p = match self.find_file_entry(name) {
            None => {
                return None;
            },
            Some(p) => p,
        };
        let list = &self.file_nodes[p];
        let ghost sm = source_map(m);
        proof {
            lemma_grouped_nonempty(flat_files(m));
            assert(sm[p as int].1 == ints(list@));
            assert(holders(m, name.0@) == Some(ints(list@)));
        }
        if list.len() > 1 {
            proof {
                assert forall|k: int| 0 <= k < list@.len() implies #[trigger] list@[k] < m.len() by {
                    assert(self.file_nodes@[p as int]@[k] < self.nodes@.len());
                }
            }
            let wds = self.workspaces_at(list);
            self.multi_candidate(wds)
        } else {
            let idx = list[0];
            let w = &self.nodes[idx].content.workspace;
            assert(*w == m[ints(list@)[0]].workspace);
            assert(w.has_name_spec());
            let trans = self.defined_transitive_workspace_dependencies(w);
            let wkey = path_key(wpath.as_str());
            proof {
                lemma_dedup_paths(w.deps() + deps_along(m, walk_from(m, true, *w)), wpath@);
            }
            let r = if paths_contain_key(&trans, &wkey) {
                WorkspaceDependency::Reverse(w)
            } else {
                WorkspaceDependency::Dependency(w)
            };
            assert(dview(r).1 =~= seq![*w]);
            Some(r)
        }
    }

    /// The dependency implied by a `Use` of a file held by the workspaces `wds`.
    fn multi_candidate<'a>(&self, wds: Vec<&'a Workspace>) -> (r: Option<WorkspaceDependency<'a>>)
        requires
            all_named(vals(wds@)),
        ensures
            match multi_view(self.model(), vals(wds@)) {
                None => r is None,
                Some(v) => r matches Some(d) && dview(d) == v && all_named(vals(dep_all(d))),
            },
    {
        let ghost m = self.model();
        let ghost wv = vals(wds@);
        proof {
            lemma_resolve_named(m, wv, true, false);
            lemma_resolve_named(m, wv, false, true);
        }
        let r26 = self.resolve_workspace_dependency_df26(WorkspaceDependency::Ambiguous(copy_refs(&wds)));
        match r26 {
            WorkspaceDependency::Dependency(a) => {
                let r25 = self.resolve_workspace_dependency_df25(WorkspaceDependency::Ambiguous(copy_refs(&wds)));
                match r25 {
                    WorkspaceDependency::Dependency(b) => {
                        let kb = path_key(b.sws_path.as_str());
                        let ka = path_key(a.sws_path.as_str());
                        if kb == ka {
                            None
                        } else {
                            let r = WorkspaceDependency::Conflicting(a, b);
                            assert(dview(r).1 =~= seq![*a, *b]);
                            Some(r)
                        }
                    },
                    _ => Some(WorkspaceDependency::Ambiguous(wds)),
                }
            },
            other => Some(other),
        }
    }
}


/// A `Use` list one name longer gives the implied dependencies of the shorter
/// list followed by what the last name implies.
proof fn lemma_use_names_take(files: Seq<SourceFile>, i: int)
    requires
        0 <= i < files.len(),
    ensures
        use_names(files.take(i + 1)) == use_names(files.take(i)) + crate::source_scan::names_of(files[i].dependencies@),
{
    assert(files.take(i + 1).drop_last() =~= files.take(i));
    assert(files.take(i + 1).last() == files[i]);
}

impl WorkspaceDependencyTree {
    /// The workspace dependencies that the `Use` statements in the source
    /// files of `workspace` imply, in the order the statements come, each with
    /// a text of its own and none with the workspace's own name. A workspace
    /// that is not in the tree implies none.
    pub fn calculated_workspace_dependencies(&self, workspace: &Workspace) -> (r: Vec<WorkspaceDependency<'_>>)
        ensures
            dviews(r@) == calculated_spec(self.model(), *workspace),
            forall|k: int| 0 <= k < r@.len() ==> all_named(#[trigger] dview(r@[k]).1),
    {
        proof {
            use_type_invariant(self);
        }
        let ghost m = self.model();
        let key = path_key(workspace.sws_path.as_str());
        let idx = match self.find_node(&key) {
            None => {
                assert(dviews(Seq::<WorkspaceDependency<'_>>::empty()) =~= Seq::<(int, Seq<Workspace>)>::empty());
                return Vec::new();
            },
            Some(i) => i,
        };
        let content = &self.nodes[idx].content;
        assert(content.workspace.has_name_spec());
        let own = WorkspaceDependency::Dependency(&content.workspace);
        let mut seen: Vec<String> = Vec::new();
        seen.push(own.to_string());
        let ghost seed = strings_of(seen@);
        proof {
            assert(seed =~= seq![ws_name(m[idx as int].workspace)]);
        }
        let mut out: Vec<WorkspaceDependency<'_>> = Vec::new();
        let ghost files = content.source_files@;
        let mut i: usize = 0;
        proof {
            assert(files.take(0) =~= Seq::<SourceFile>::empty());
            assert(dviews(out@) =~= Seq::<(int, Seq<Workspace>)>::empty());
        }
        while i < content.source_files.len()
            invariant
                0 <= i <= files.len(),
                files == content.source_files@,
                m == self.model(),
                (dviews(out@), strings_of(seen@)) == collect_views(m, workspace.sws_path@, use_names(files.take(i as int)), seed),
                forall|k: int| 0 <= k < out@.len() ==> all_named(#[trigger] dview(out@[k]).1),
            decreases files.len() - i,
        {
            let deps = &content.source_files[i].dependencies;
            let ghost base = use_names(files.take(i as int));
            let mut j: usize = 0;
            assert(base + crate::source_scan::names_of(deps@).take(0) =~= base);
            while j < deps.len()
                invariant
                    0 <= j <= deps@.len(),
                    m == self.model(),
                    (dviews(out@), strings_of(seen@)) == collect_views(
                        m,
                        workspace.sws_path@,
                        base + crate::source_scan::names_of(deps@).take(j as int),
                        seed,
                    ),
                    forall|k: int| 0 <= k < out@.len() ==> all_named(#[trigger] dview(out@[k]).1),
                decreases deps.len() - j,
            {
                let ghost names = base + crate::source_scan::names_of(deps@).take(j as int);
                let ghost next = base + crate::source_scan::names_of(deps@).take(j + 1);
                proof {
                    assert(next.drop_last() =~= names);
                    assert(next.last() == deps@[j as int].0@);
                }
                match self.candidate_for(&workspace.sws_path, &deps[j]) {
                    None => {},
                    Some(d) => {
                        let t = d.to_string();
                        if !crate::text::contains_string(&seen, &t) {
                            let ghost sprev = seen@;
                            let ghost oprev = out@;
                            seen.push(t);
                            out.push(d);
                            proof {
                                crate::text::lemma_strings_push(sprev, t);
                                assert(dviews(out@) =~= dviews(oprev).push(dview(d)));
                            }
                        }
                    },
                }
                j += 1;
            }
            proof {
                assert(crate::source_scan::names_of(deps@).take(deps@.len() as int) =~= crate::source_scan::names_of(deps@));
                lemma_use_names_take(files, i as int);
            }
            i += 1;
        }
        proof {
            assert(files.take(files.len() as int) =~= files);
        }
        out
    }
}


/// Whether a source file's file name is `name`, up to ASCII case.
pub open spec fn file_named(f: SourceFile, name: Seq<char>) -> bool {
    file_name_of(f.path@) matches Some(n) && lower_seq(n) == lower_seq(name)
}

/// The index of the first source file named `name`, or `-1`.
pub open spec fn file_index(files: Seq<SourceFile>, name: Seq<char>) -> int {
    first_match(files.map_values(|f: SourceFile| file_named(f, name)))
}

/// The path of the first source file named `name` in the workspace of the
/// tree at `wpath`, if the tree has that workspace and it has such a file.
pub open spec fn file_in_workspace(m: Seq<WorkspaceContent>, wpath: Seq<char>, name: Seq<char>) -> Option<Seq<char>> {
    let i = find_key(m, path_identity(wpath));
    if i < 0 {
        None
    } else {
        let j = file_index(m[i].source_files@, name);
        if j < 0 {
            None
        } else {
            Some(m[i].source_files@[j].path@)
        }
    }
}

impl WorkspaceDependencyTree {
    /// The path of the source file named `file` (up to ASCII case) in
    /// `workspace`: the first such file, if the tree has the workspace and the
    /// workspace has one.
    pub fn source_file_in_workspace(&self, file: &FileName, workspace: &Workspace) -> (r: Option<&String>)
        ensures
            match r {
                Some(p) => file_in_workspace(self.model(), workspace.sws_path@, file.0@) == Some(p@),
                None => file_in_workspace(self.model(), workspace.sws_path@, file.0@) is None,
            },
    {
        proof {
            use_type_invariant(self);
        }
        let ghost m = self.model();
        let key = path_key(workspace.sws_path.as_str());
        let i = match self.find_node(&key) {
            None => {
                return None;
            },
            Some(i) => i,
        };
        let node = &self.nodes[i];
        assert(node.ok());
        let ghost files = node.content.source_files@;
        let ghost flags = files.map_values(|f: SourceFile| file_named(f, file.0@));
        assert(files == m[i as int].source_files@);
        let mut j: usize = 0;
        while j < node.file_names.len()
            invariant
                0 <= j <= node.file_names@.len(),
                node.ok(),
                files == node.content.source_files@,
                m == self.model(),
                files == m[i as int].source_files@,
                i < m.len(),
                find_key(m, path_identity(workspace.sws_path@)) == i as int,
                flags == files.map_values(|f: SourceFile| file_named(f, file.0@)),
                forall|t: int| 0 <= t < j ==> !flags[t],
            decreases node.file_names.len() - j,
        {
            assert(opt_view(node.file_names@[j as int]) == file_name_of(files[j as int].path@));
            match &node.file_names[j] {
                Some(n) => {
                    if crate::text::str_eq_ignore_ascii_case(n.as_str(), file.0.as_str()) {
                        proof {
                            assert(flags[j as int]);
                            lemma_first_match_at(flags, j as int);
                        }
                        return Some(&node.content.source_files[j].path);
                    }
                },
                None => {},
            }
            assert(!flags[j as int]);
            j += 1;
        }
        proof {
            lemma_first_match_none(flags);
        }
        None
    }
}


/// The component forms of the paths of the workspaces at the given indices.
pub open spec fn keys_at(m: Seq<WorkspaceContent>, idx: Seq<int>) -> Seq<Seq<char>> {
    ws_at(m, idx).map_values(|w: Workspace| ws_key(w))
}

/// Whether a file named `name` is held by every workspace whose path has one
/// of the component forms `ks` (and by at least one workspace at all).
pub open spec fn held_by_all(m: Seq<WorkspaceContent>, name: Seq<char>, ks: Seq<Seq<char>>) -> bool {
    holders(m, name) matches Some(list) && forall|k: int| 0 <= k < ks.len() ==> keys_at(m, list).contains(#[trigger] ks[k])
}

/// The `Use` targets of `uses` that every workspace of `ks` holds, in order.
pub open spec fn relevant_uses(m: Seq<WorkspaceContent>, uses: Seq<Seq<char>>, ks: Seq<Seq<char>>) -> Seq<Seq<char>>
    decreases uses.len(),
{
    if uses.len() == 0 {
        Seq::empty()
    } else {
        let r = relevant_uses(m, uses.drop_last(), ks);
        if held_by_all(m, uses.last(), ks) {
            r.push(uses.last())
        } else {
            r
        }
    }
}

/// The source files of `files` that use a file held by every workspace of
/// `ks`, each with the path and those uses, in order.
pub open spec fn affected_files(m: Seq<WorkspaceContent>, files: Seq<SourceFile>, ks: Seq<Seq<char>>) -> Seq<(Seq<char>, Seq<Seq<char>>)>
    decreases files.len(),
{
    if files.len() == 0 {
        Seq::empty()
    } else {
        let r = affected_files(m, files.drop_last(), ks);
        let u = relevant_uses(m, crate::source_scan::names_of(files.last().dependencies@), ks);
        if u.len() > 0 {
            r.push((files.last().path@, u))
        } else {
            r
        }
    }
}

/// The files of the workspace at `wpath` whose uses point into every
/// workspace of `ks`: `None` when the tree lacks the workspace or no file does.
pub open spec fn source_analysis(m: Seq<WorkspaceContent>, wpath: Seq<char>, ks: Seq<Seq<char>>) -> Option<Seq<(Seq<char>, Seq<Seq<char>>)>> {
    let i = find_key(m, path_identity(wpath));
    if i < 0 {
        None
    } else {
        let a = affected_files(m, m[i].source_files@, ks);
        if a.len() > 0 {
            Some(a)
        } else {
            None
        }
    }
}

/// A list of source files as paths and used names.
pub open spec fn files_view(fs: Seq<SourceFile>) -> Seq<(Seq<char>, Seq<Seq<char>>)> {
    fs.map_values(|f: SourceFile| (f.path@, crate::source_scan::names_of(f.dependencies@)))
}

/// The component forms of the paths of the workspaces a dependency names.
pub open spec fn dep_keys<'a>(d: WorkspaceDependency<'a>) -> Seq<Seq<char>> {
    vals(dep_all(d)).map_values(|w: Workspace| ws_key(w))
}

impl WorkspaceDependencyTree {
    /// Whether one of the workspaces at `list` has a path with component form `key`.
    fn list_holds(&self, list: &Vec<usize>, key: &String) -> (r: bool)
        requires
            forall|k: int| 0 <= k < list@.len() ==> #[trigger] list@[k] < self.model().len(),
        ensures
            r == keys_at(self.model(), ints(list@)).contains(key@),
    {
        proof {
            use_type_invariant(self);
        }
        let ghost ks = keys_at(self.model(), ints(list@));
        let mut t: usize = 0;
        while t < list.len()
            invariant
                0 <= t <= list@.len(),
                ks == keys_at(self.model(), ints(list@)),
                self.model() == contents_of(self.nodes@),
                forall|k: int| 0 <= k < list@.len() ==> #[trigger] list@[k] < self.model().len(),
                forall|q: int| 0 <= q < self.nodes@.len() ==> (#[trigger] self.nodes@[q]).ok(),
                forall|q: int| 0 <= q < t ==> ks[q] != key@,
            decreases list.len() - t,
        {
            assert(self.nodes@[list@[t as int] as int].ok());
            assert(ks[t as int] == ws_key(self.model()[list@[t as int] as int].workspace));
            if self.nodes[list[t]].key == *key {
                return true;
            }
            t += 1;
        }
        false
    }

    /// Whether a file named `name` is held by every workspace whose path has
    /// one of the component forms `keys`.
    fn held_by_all_exec(&self, name: &FileName, keys: &Vec<String>) -> (r: bool)
        ensures
            r == held_by_all(self.model(), name.0@, strings_of(keys@)),
    {
        proof {
            use_type_invariant(self);
        }
        let ghost m = self.model();
        let p = match self.find_file_entry(name) {
            None => {
                return false;
            },
            Some(p) => p,
        };
        let list = &self.file_nodes[p];
        proof {
            assert(source_map(m)[p as int].1 == ints(list@));
            assert(holders(m, name.0@) == Some(ints(list@)));
            assert forall|k: int| 0 <= k < list@.len() implies #[trigger] list@[k] < m.len() by {
                assert(self.file_nodes@[p as int]@[k] < self.nodes@.len());
            }
        }
        let mut k: usize = 0;
        while k < keys.len()
            invariant
                0 <= k <= keys@.len(),
                m == self.model(),
                holders(m, name.0@) == Some(ints(list@)),
                forall|q: int| 0 <= q < list@.len() ==> #[trigger] list@[q] < m.len(),
                forall|q: int| 0 <= q < k ==> keys_at(m, ints(list@)).contains(#[trigger] strings_of(keys@)[q]),
            decreases keys.len() - k,
        {
            assert(strings_of(keys@)[k as int] == keys@[k as int]@);
            if !self.list_holds(list, &keys[k]) {
                return false;
            }
            k += 1;
        }
        true
    }

    /// The names of `uses` that every workspace of `keys` holds.
    fn relevant_uses_exec(&self, uses: &Vec<FileName>, keys: &Vec<String>) -> (r: Vec<FileName>)
        ensures
            crate::source_scan::names_of(r@) == relevant_uses(
                self.model(),
                crate::source_scan::names_of(uses@),
                strings_of(keys@),
            ),
    {
        let ghost m = self.model();
        let ghost nm = crate::source_scan::names_of(uses@);
        let mut out: Vec<FileName> = Vec::new();
        let mut j: usize = 0;
        proof {
            assert(crate::source_scan::names_of(out@) =~= relevant_uses(m, nm.take(0), strings_of(keys@)));
        }
        while j < uses.len()
            invariant
                0 <= j <= uses@.len(),
                m == self.model(),
                nm == crate::source_scan::names_of(uses@),
                crate::source_scan::names_of(out@) == relevant_uses(m, nm.take(j as int), strings_of(keys@)),
            decreases uses.len() - j,
        {
            proof {
                assert(nm.take(j + 1).drop_last() =~= nm.take(j as int));
                assert(nm.take(j + 1).last() == uses@[j as int].0@);
            }
            if self.held_by_all_exec(&uses[j], keys) {
                let ghost before = crate::source_scan::names_of(out@);
                let c = uses[j].copy();
                out.push(c);
                assert(crate::source_scan::names_of(out@) =~= before.push(uses@[j as int].0@));
            }
            j += 1;
        }
        proof {
            assert(nm.take(uses@.len() as int) =~= nm);
        }
        out
    }

    /// The source files of `workspace` whose `Use` statements name a file that
    /// every workspace of `dependency` holds, each with those uses; `None`
    /// when there are none, or when the tree lacks the workspace.
    pub fn analyze_source_dependency(&self, workspace: &Workspace, dependency: &WorkspaceDependency) -> (r: Option<Vec<SourceFile>>)
        ensures
            match r {
                Some(fs) => source_analysis(self.model(), workspace.sws_path@, dep_keys(*dependency)) == Some(files_view(fs@)),
                None => source_analysis(self.model(), workspace.sws_path@, dep_keys(*dependency)) is None,
            },
    {
        proof {
            use_type_invariant(self);
        }
        let ghost m = self.model();
        let key = path_key(workspace.sws_path.as_str());
        let i = match self.find_node(&key) {
            None => {
                return None;
            },
            Some(i) => i,
        };
        let all = dependency.all();
        let dkeys = Self::cand_keys(&all);
        proof {
            assert(strings_of(dkeys@) == dep_keys(*dependency));
        }
        let content = &self.nodes[i].content;
        let ghost files = content.source_files@;
        assert(files == m[i as int].source_files@);
        let mut out: Vec<SourceFile> = Vec::new();
        let mut j: usize = 0;
        proof {
            assert(files_view(out@) =~= affected_files(m, files.take(0), strings_of(dkeys@)));
        }
        while j < content.source_files.len()
            invariant
                0 <= j <= files.len(),
                files == content.source_files@,
                m == self.model(),
                files_view(out@) == affected_files(m, files.take(j as int), strings_of(dkeys@)),
            decreases files.len() - j,
        {
            proof {
                assert(files.take(j + 1).drop_last() =~= files.take(j as int));
                assert(files.take(j + 1).last() == files[j as int]);
            }
            let f = &content.source_files[j];
            let uses = self.relevant_uses_exec(&f.dependencies, &dkeys);
            if uses.len() > 0 {
                let ghost before = files_view(out@);
                let sf = SourceFile { path: f.path.clone(), dependencies: uses };
                out.push(sf);
                assert(files_view(out@) =~= before.push((f.path@, crate::source_scan::names_of(sf.dependencies@))));
            } else {
                assert(crate::source_scan::names_of(uses@).len() == 0);
            }
            j += 1;
        }
        proof {
            assert(files.take(files.len() as int) =~= files);
        }
        if out.len() > 0 {
            Some(out)
        } else {
            None
        }
    }
}


/// The entries of a file map whose file more than one workspace holds, in order.
pub open spec fn dup_entries(g: Seq<(Seq<char>, Seq<int>)>) -> Seq<(Seq<char>, Seq<int>)>
    decreases g.len(),
{
    if g.len() == 0 {
        Seq::empty()
    } else {
        let r = dup_entries(g.drop_last());
        if g.last().1.len() > 1 {
            r.push(g.last())
        } else {
            r
        }
    }
}

/// Each file name that several workspaces hold, with those workspaces as an
/// ambiguous dependency, in the order of the file map.
pub open spec fn duplicates_spec(m: Seq<WorkspaceContent>) -> Seq<(Seq<char>, (int, Seq<Workspace>))> {
    dup_views(m, dup_entries(source_map(m)))
}

/// File map entries as file names with their workspaces as an ambiguous dependency.
pub open spec fn dup_views(m: Seq<WorkspaceContent>, d: Seq<(Seq<char>, Seq<int>)>) -> Seq<(Seq<char>, (int, Seq<Workspace>))> {
    d.map_values(|e: (Seq<char>, Seq<int>)| (e.0, (1int, ws_at(m, e.1))))
}

/// A list of named dependencies as text and dependency views.
pub open spec fn named_view<'a>(s: Seq<(FileName, WorkspaceDependency<'a>)>) -> Seq<(Seq<char>, (int, Seq<Workspace>))> {
    s.map_values(|e: (FileName, WorkspaceDependency<'a>)| (e.0.0@, dview(e.1)))
}

/// The entries come in the order of their names, compared in ASCII lower case.
pub open spec fn sorted_by_name(s: Seq<(Seq<char>, (int, Seq<Workspace>))>) -> bool {
    forall|a: int, b: int| 0 <= a < b < s.len() ==> lex_le(lower_seq(s[a].0), lower_seq(s[b].0))
}

/// Inserting an entry before the first entry whose key comes after it keeps
/// keys in order.
proof fn lemma_insert_sorted(ks: Seq<Seq<char>>, x: Seq<char>, p: int)
    requires
        0 <= p <= ks.len(),
        forall|a: int, b: int| 0 <= a < b < ks.len() ==> lex_le(#[trigger] ks[a], #[trigger] ks[b]),
        forall|k: int| 0 <= k < p ==> !lex_lt(x, #[trigger] ks[k]),
        p < ks.len() ==> lex_lt(x, ks[p]),
    ensures
        forall|a: int, b: int|
            0 <= a < b < ks.insert(p, x).len() ==> lex_le(#[trigger] ks.insert(p, x)[a], #[trigger] ks.insert(p, x)[b]),
{
    let n = ks.insert(p, x);
    assert forall|a: int, b: int| 0 <= a < b < n.len() implies lex_le(#[trigger] n[a], #[trigger] n[b]) by {
        if b < p {
            assert(lex_le(ks[a], ks[b]));
        } else if b == p {
            lemma_lex_total(ks[a], x);
        } else if a < p {
            assert(lex_le(ks[a], ks[b - 1]));
        } else if a == p {
            assert(lex_le(ks[p], ks[b - 1]) || p == b - 1);
            if p != b - 1 && ks[p] != ks[b - 1] {
                lemma_lex_transitive(x, ks[p], ks[b - 1]);
            }
        } else {
            assert(lex_le(ks[a - 1], ks[b - 1]));
        }
    }
}

/// An entry names an ambiguous dependency on workspaces that have names.
pub open spec fn ambiguous_named(e: (Seq<char>, (int, Seq<Workspace>))) -> bool {
    e.1.0 == 1 && all_named(e.1.1)
}

/// The key under which an entry is sorted: its name in ASCII lower case.
pub open spec fn name_key(e: (Seq<char>, (int, Seq<Workspace>))) -> Seq<char> {
    lower_seq(e.0)
}

/// Where an entry with key `x` goes among entries with keys `ks`: before the
/// first key that comes after it, or at the end.
pub open spec fn insert_pos(ks: Seq<Seq<char>>, x: Seq<char>) -> int {
    let p = first_match(ks.map_values(|k: Seq<char>| lex_lt(x, k)));
    if p < 0 {
        ks.len() as int
    } else {
        p
    }
}

/// The entries sorted by name, compared in ASCII lower case, by inserting
/// each in turn; entries with equal names keep their order.
pub open spec fn sort_named(s: Seq<(Seq<char>, (int, Seq<Workspace>))>) -> Seq<(Seq<char>, (int, Seq<Workspace>))>
    decreases s.len(),
{
    if s.len() == 0 {
        Seq::empty()
    } else {
        let r = sort_named(s.drop_last());
        r.insert(insert_pos(r.map_values(|e: (Seq<char>, (int, Seq<Workspace>))| name_key(e)), name_key(s.last())), s.last())
    }
}

/// Sorting by name gives the same entries, in the order of their names.
pub proof fn lemma_sort_named(s: Seq<(Seq<char>, (int, Seq<Workspace>))>)
    ensures
        sort_named(s).to_multiset() == s.to_multiset(),
        sorted_by_name(sort_named(s)),
    decreases s.len(),
{
    if s.len() > 0 {
        let init = s.drop_last();
        lemma_sort_named(init);
        let r = sort_named(init);
        let ks = r.map_values(|e: (Seq<char>, (int, Seq<Workspace>))| name_key(e));
        let x = name_key(s.last());
        let p = insert_pos(ks, x);
        let flags = ks.map_values(|k: Seq<char>| lex_lt(x, k));
        lemma_first_match(flags);
        assert forall|a: int, b: int| 0 <= a < b < ks.len() implies lex_le(#[trigger] ks[a], #[trigger] ks[b]) by {
            assert(ks[a] == lower_seq(r[a].0));
            assert(ks[b] == lower_seq(r[b].0));
        }
        assert forall|k: int| 0 <= k < p implies !lex_lt(x, #[trigger] ks[k]) by {
            assert(flags[k] == lex_lt(x, ks[k]));
        }
        if p < ks.len() {
            assert(flags[p] == lex_lt(x, ks[p]));
        }
        lemma_insert_sorted(ks, x, p);
        let n = r.insert(p, s.last());
        assert(n.map_values(|e: (Seq<char>, (int, Seq<Workspace>))| name_key(e)) =~= ks.insert(p, x));
        assert forall|a: int, b: int| 0 <= a < b < n.len() implies lex_le(lower_seq(n[a].0), lower_seq(n[b].0)) by {
            assert(ks.insert(p, x)[a] == lower_seq(n[a].0));
            assert(ks.insert(p, x)[b] == lower_seq(n[b].0));
        }
        vstd::seq_lib::to_multiset_insert(r, p, s.last());
        vstd::seq_lib::to_multiset_build(init, s.last());
        assert(init.push(s.last()) =~= s);
        assert(sort_named(s) == n);
    } else {
        assert(s =~= Seq::<(Seq<char>, (int, Seq<Workspace>))>::empty());
    }
}

/// The entries sorted by name, compared in ASCII lower case; entries with
/// equal names keep their order.
fn sort_by_name<'a>(entries: &Vec<(FileName, WorkspaceDependency<'a>)>) -> (r: Vec<(FileName, WorkspaceDependency<'a>)>)
    requires
        forall|k: int| 0 <= k < entries@.len() ==> ambiguous_named(#[trigger] named_view(entries@)[k]),
    ensures
        named_view(r@) == sort_named(named_view(entries@)),
        forall|k: int| 0 <= k < r@.len() ==> ambiguous_named(#[trigger] named_view(r@)[k]),
{
    let mut r: Vec<(FileName, WorkspaceDependency<'a>)> = Vec::new();
    let mut keys: Vec<Vec<char>> = Vec::new();
    let mut i: usize = 0;
    proof {
        assert(named_view(entries@).take(0) =~= Seq::<(Seq<char>, (int, Seq<Workspace>))>::empty());
        assert(named_view(r@) =~= Seq::<(Seq<char>, (int, Seq<Workspace>))>::empty());
    }
    while i < entries.len()
        invariant
            0 <= i <= entries@.len(),
            keys@.len() == r@.len(),
            forall|k: int| 0 <= k < keys@.len() ==> (#[trigger] keys@[k])@ == lower_seq(named_view(r@)[k].0),
            named_view(r@) == sort_named(named_view(entries@).take(i as int)),
            forall|k: int| 0 <= k < entries@.len() ==> ambiguous_named(#[trigger] named_view(entries@)[k]),
            forall|k: int| 0 <= k < r@.len() ==> ambiguous_named(#[trigger] named_view(r@)[k]),
        decreases entries.len() - i,
    {
        let name = entries[i].0.copy();
        let dep = entries[i].1.copy();
        let xk = crate::text::lower_chars(name.0.as_str());
        let ghost ks = keys@.map_values(|v: Vec<char>| v@);
        let ghost before = named_view(r@);
        proof {
            assert(ks =~= before.map_values(|e: (Seq<char>, (int, Seq<Workspace>))| name_key(e)));
        }
        let mut p: usize = 0;
        while p < keys.len()
            invariant
                0 <= p <= keys@.len(),
                ks == keys@.map_values(|v: Vec<char>| v@),
                forall|k: int| 0 <= k < p ==> !lex_lt(xk@, #[trigger] ks[k]),
            ensures
                0 <= p <= keys@.len(),
                forall|k: int| 0 <= k < p ==> !lex_lt(xk@, #[trigger] ks[k]),
                p < keys@.len() ==> lex_lt(xk@, ks[p as int]),
            decreases keys.len() - p,
        {
            assert(ks[p as int] == keys@[p as int]@);
            if crate::text::chars_lex_lt(&xk, &keys[p]) {
                break;
            }
            p += 1;
        }
        let ghost e = (name.0@, dview(dep));
        proof {
            let flags = ks.map_values(|k: Seq<char>| lex_lt(xk@, k));
            if p < keys@.len() {
                lemma_first_match_at(flags, p as int);
            } else {
                lemma_first_match_none(flags);
            }
            assert(insert_pos(ks, xk@) == p as int);
            assert(e == named_view(entries@)[i as int]);
            assert(named_view(entries@).take(i + 1).drop_last() =~= named_view(entries@).take(i as int));
            assert(named_view(entries@).take(i + 1).last() == e);
        }
        r.insert(p, (name, dep));
        keys.insert(p, xk);
        proof {
            assert(named_view(r@) =~= before.insert(p as int, e));
            assert(ambiguous_named(named_view(entries@)[i as int]));
            assert forall|k: int| 0 <= k < r@.len() implies ambiguous_named(#[trigger] named_view(r@)[k]) by {
                if k < p {
                    assert(named_view(r@)[k] == before[k]);
                } else if k > p {
                    assert(named_view(r@)[k] == before[k - 1]);
                }
            }
            assert(keys@.map_values(|v: Vec<char>| v@) =~= ks.insert(p as int, xk@));
            assert forall|k: int| 0 <= k < keys@.len() implies (#[trigger] keys@[k])@ == lower_seq(named_view(r@)[k].0) by {
                assert(keys@.map_values(|v: Vec<char>| v@)[k] == keys@[k]@);
            }
        }
        i += 1;
    }
    proof {
        assert(named_view(entries@).take(entries@.len() as int) =~= named_view(entries@));
    }
    r
}


impl WorkspaceDependencyTree {
    /// The workspaces at the given indices of the tree.
    fn workspaces_at(&self, list: &Vec<usize>) -> (r: Vec<&Workspace>)
        requires
            forall|k: int| 0 <= k < list@.len() ==> #[trigger] list@[k] < self.model().len(),
        ensures
            vals(r@) == ws_at(self.model(), ints(list@)),
            all_named(vals(r@)),
    {
        proof {
            use_type_invariant(self);
        }
        let ghost m = self.model();
        let mut wds: Vec<&Workspace> = Vec::new();
        let mut i: usize = 0;
        while i < list.len()
            invariant
                0 <= i <= list@.len(),
                m == self.model(),
                m == contents_of(self.nodes@),
                forall|q: int| 0 <= q < self.nodes@.len() ==> (#[trigger] self.nodes@[q]).content.workspace.has_name_spec(),
                forall|k: int| 0 <= k < list@.len() ==> #[trigger] list@[k] < m.len(),
                vals(wds@) == ws_at(m, ints(list@).take(i as int)),
                all_named(vals(wds@)),
            decreases list.len() - i,
        {
            let ghost before = wds@;
            let w = &self.nodes[list[i]].content.workspace;
            assert(*w == m[list@[i as int] as int].workspace);
            assert(w.has_name_spec());
            wds.push(w);
            assert(ints(list@).take(i + 1) =~= ints(list@).take(i as int).push(list@[i as int] as int));
            assert(vals(wds@) =~= vals(before).push(*w));
            assert(ws_at(m, ints(list@).take(i + 1)) =~= ws_at(m, ints(list@).take(i as int)).push(
                m[list@[i as int] as int].workspace,
            ));
            i += 1;
        }
        assert(ints(list@).take(list@.len() as int) =~= ints(list@));
        wds
    }

    /// Every file name that more than one workspace holds, with those
    /// workspaces as an ambiguous dependency, sorted by name compared in ASCII
    /// lower case.
    pub fn all_duplicate_filenames(&self) -> (r: Vec<(FileName, WorkspaceDependency<'_>)>)
        ensures
            named_view(r@) == sort_named(duplicates_spec(self.model())),
            forall|k: int| 0 <= k < r@.len() ==> ambiguous_named(#[trigger] named_view(r@)[k]),
    {
        proof {
            use_type_invariant(self);
        }
        let ghost m = self.model();
        let ghost g = source_map(m);
        let mut entries: Vec<(FileName, WorkspaceDependency<'_>)> = Vec::new();
        let mut p: usize = 0;
        proof {
            assert(g.take(0) =~= Seq::<(Seq<char>, Seq<int>)>::empty());
            assert(named_view(entries@) =~= dup_views(m, dup_entries(g.take(0))));
        }
        while p < self.file_names.len()
            invariant
                0 <= p <= self.file_names@.len(),
                m == self.model(),
                g == source_map(m),
                self.file_names@.len() == self.file_nodes@.len(),
                g == files_view_of(self.file_names@, self.file_nodes@),
                forall|i: int, k: int|
                    0 <= i < self.file_nodes@.len() && 0 <= k < self.file_nodes@[i]@.len() ==> #[trigger] self.file_nodes@[i]@[k]
                        < self.nodes@.len(),
                self.nodes@.len() == m.len(),
                named_view(entries@) == dup_views(m, dup_entries(g.take(p as int))),
                forall|k: int| 0 <= k < entries@.len() ==> ambiguous_named(#[trigger] named_view(entries@)[k]),
            decreases self.file_names.len() - p,
        {
            proof {
                assert(g.take(p + 1).drop_last() =~= g.take(p as int));
                assert(g.take(p + 1).last() == g[p as int]);
                assert(g[p as int] == (self.file_names@[p as int].0@, ints(self.file_nodes@[p as int]@)));
            }
            let list = &self.file_nodes[p];
            if list.len() > 1 {
                proof {
                    assert forall|k: int| 0 <= k < list@.len() implies #[trigger] list@[k] < m.len() by {
                        assert(self.file_nodes@[p as int]@[k] < self.nodes@.len());
                    }
                }
                let wds = self.workspaces_at(list);
                let ghost before = named_view(entries@);
                let e = (self.file_names[p].copy(), WorkspaceDependency::Ambiguous(wds));
                entries.push(e);
                assert(named_view(entries@) =~= before.push((g[p as int].0, (1int, ws_at(m, g[p as int].1)))));
                assert(dup_views(m, dup_entries(g.take(p + 1))) =~= dup_views(m, dup_entries(g.take(p as int))).push(
                    (g[p as int].0, (1int, ws_at(m, g[p as int].1))),
                ));
            }
            p += 1;
        }
        proof {
            assert(g.take(g.len() as int) =~= g);
        }
        sort_by_name(&entries)
    }
}


impl WorkspaceDependencyTree {
    /// Takes the tree apart: the root workspace, and the library workspaces
    /// in the order they were added.
    pub fn to_root_workspace_and_dependencies(self) -> (r: (Workspace, Vec<Workspace>))
        ensures
            r.0 == self.model()[0].workspace,
            r.1@ == self.model().skip(1).map_values(|c: WorkspaceContent| c.workspace),
    {
        proof {
            use_type_invariant(&self);
        }
        let ghost m = self.model();
        let WorkspaceDependencyTree { nodes, file_names: _, file_nodes: _ } = self;
        let mut rest = nodes;
        let first = rest.remove(0);
        let root = first.content.workspace;
        let mut libraries: Vec<Workspace> = Vec::new();
        let ghost n = m.len();
        let ghost mut k: int = 1;
        assert(contents_of(rest@) =~= m.skip(1));
        assert(m.skip(1).take(0) =~= Seq::<WorkspaceContent>::empty());
        assert(libraries@ =~= m.skip(1).take(0).map_values(|c: WorkspaceContent| c.workspace));
        while rest.len() > 0
            invariant
                1 <= k <= n,
                n == m.len(),
                contents_of(rest@) == m.skip(k as int),
                libraries@ == m.skip(1).take(k - 1).map_values(|c: WorkspaceContent| c.workspace),
                rest@.len() == n - k,
            decreases rest.len(),
        {
            let ghost before = libraries@;
            let ghost rb = rest@;
            assert(contents_of(rb).len() == rb.len());
            assert(contents_of(rb)[0] == rb[0].content);
            assert(m.skip(k as int)[0] == m[k as int]);
            let node = rest.remove(0);
            assert(rest@ =~= rb.drop_first());
            assert(node.content == m[k as int]);
            libraries.push(node.content.workspace);
            proof {
                assert forall|t: int| 0 <= t < contents_of(rest@).len() implies contents_of(rest@)[t] == m.skip(k + 1)[t] by {
                    assert(contents_of(rest@)[t] == rb[t + 1].content);
                    assert(contents_of(rb)[t + 1] == m.skip(k as int)[t + 1]);
                }
                assert(contents_of(rest@) =~= m.skip(k + 1));
                assert(m.skip(1).take(k as int) =~= m.skip(1).take(k - 1).push(m[k as int]));
                assert(libraries@ =~= m.skip(1).take(k as int).map_values(|c: WorkspaceContent| c.workspace));
                k = k + 1;
            }
        }
        proof {
            assert(m.skip(k as int).len() == 0);
            assert(m.skip(1).take(k - 1) =~= m.skip(1));
        }
        (root, libraries)
    }
}

} // verus!

verus! {

/// The texts of a list of dependency views.
pub open spec fn view_texts(vs: Seq<(int, Seq<Workspace>)>) -> Seq<Seq<char>> {
    vs.map_values(|v: (int, Seq<Workspace>)| display_text(v, false))
}

/// Collecting implied dependencies keeps, beside the starting texts, exactly
/// the texts of the dependencies kept, and never a text twice.
proof fn lemma_collect_views(m: Seq<WorkspaceContent>, wpath: Seq<char>, names: Seq<Seq<char>>, seen0: Seq<Seq<char>>)
    requires
        seen0.no_duplicates(),
    ensures
        collect_views(m, wpath, names, seen0).1 == seen0 + view_texts(collect_views(m, wpath, names, seen0).0),
        collect_views(m, wpath, names, seen0).1.no_duplicates(),
    decreases names.len(),
{
    if names.len() > 0 {
        lemma_collect_views(m, wpath, names.drop_last(), seen0);
        let (vs, seen) = collect_views(m, wpath, names.drop_last(), seen0);
        match cand_view(m, wpath, names.last()) {
            None => {},
            Some(v) => {
                let t = display_text(v, false);
                if !seen.contains(t) {
                    assert(view_texts(vs.push(v)) =~= view_texts(vs).push(t));
                    assert(seen0 + view_texts(vs).push(t) =~= (seen0 + view_texts(vs)).push(t));
                    assert forall|a: int, b: int| 0 <= a < b < seen.push(t).len() implies seen.push(t)[a] != seen.push(t)[b] by {
                        if b == seen.len() {
                            assert(seen.push(t)[a] == seen[a]);
                        }
                    }
                }
            },
        }
    }
}

/// The dependencies that a workspace's `Use` statements imply have texts of
/// their own: no two have the same text, and none has the text of the
/// workspace's own name.
pub proof fn lemma_calculated_distinct(m: Seq<WorkspaceContent>, w: Workspace)
    ensures
        forall|a: int, b: int|
            0 <= a < b < calculated_spec(m, w).len() ==> display_text(#[trigger] calculated_spec(m, w)[a], false)
                != display_text(#[trigger] calculated_spec(m, w)[b], false),
        find_key(m, ws_key(w)) >= 0 ==> forall|a: int|
            0 <= a < calculated_spec(m, w).len() ==> display_text(#[trigger] calculated_spec(m, w)[a], false)
                != ws_name(m[find_key(m, ws_key(w))].workspace),
{
    let i = find_key(m, ws_key(w));
    if i >= 0 {
        let seed = seq![ws_name(m[i].workspace)];
        let names = use_names(m[i].source_files@);
        lemma_collect_views(m, w.sws_path@, names, seed);
        let vs = calculated_spec(m, w);
        let all = seed + view_texts(vs);
        assert forall|a: int, b: int| 0 <= a < b < vs.len() implies display_text(#[trigger] vs[a], false)
            != display_text(#[trigger] vs[b], false) by {
            assert(all[a + 1] == display_text(vs[a], false));
            assert(all[b + 1] == display_text(vs[b], false));
        }
        assert forall|a: int| 0 <= a < vs.len() implies display_text(#[trigger] vs[a], false) != ws_name(m[i].workspace) by {
            assert(all[a + 1] == display_text(vs[a], false));
            assert(all[0] == ws_name(m[i].workspace));
        }
    }
}

/// A path is among the dependencies a workspace declares, directly or through
/// the workspaces it reaches, exactly when it is among its own declarations
/// or among the indirect ones.
pub proof fn lemma_transitive_is_own_and_indirect(m: Seq<WorkspaceContent>, w: Workspace, p: Seq<char>)
    ensures
        path_in(dedup_paths(w.deps() + deps_along(m, walk_from(m, true, w))), p) <==> (path_in(w.deps(), p)
            || path_in(dedup_paths(deps_along(m, walk_from(m, true, w))), p)),
{
    let along = deps_along(m, walk_from(m, true, w));
    lemma_dedup_paths(w.deps() + along, p);
    lemma_dedup_paths(along, p);
    lemma_path_in_concat(w.deps(), along, p);
}

} // verus!

verus! {

/// The candidates put in order are candidates.
proof fn lemma_order_candidates_among(dk: Seq<Seq<char>>, cands: Seq<Workspace>)
    ensures
        forall|k: int| 0 <= k < order_candidates(dk, cands).len() ==> cands.contains(#[trigger] order_candidates(dk, cands)[k]),
    decreases dk.len(),
{
    if dk.len() > 0 {
        lemma_order_candidates_among(dk.drop_last(), cands);
        let i = first_cand(cands, dk.last());
        lemma_first_match(cands.map_values(|c: Workspace| ws_key(c) == dk.last()));
        let r = order_candidates(dk.drop_last(), cands);
        if i >= 0 {
            assert(order_candidates(dk, cands) == r.push(cands[i]));
            assert forall|k: int| 0 <= k < r.push(cands[i]).len() implies cands.contains(#[trigger] r.push(cands[i])[k]) by {
                if k < r.len() {
                    assert(r.push(cands[i])[k] == r[k]);
                    assert(cands.contains(r[k]));
                } else {
                    assert(r.push(cands[i])[k] == cands[i]);
                    assert(0 <= i < cands.len());
                }
            }
        } else {
            assert(order_candidates(dk, cands) == r);
            assert forall|k: int| 0 <= k < r.len() implies cands.contains(#[trigger] r[k]) by {
                assert(cands.contains(r[k]));
            }
        }
    }
}

/// The workspaces kept by a filter are among those filtered.
proof fn lemma_filter_among(ws: Seq<Workspace>, paths: Seq<Seq<char>>, inside: bool)
    ensures
        forall|k: int| 0 <= k < filter_by_paths(ws, paths, inside).len() ==> ws.contains(#[trigger] filter_by_paths(ws, paths, inside)[k]),
    decreases ws.len(),
{
    if ws.len() > 0 {
        lemma_filter_among(ws.drop_last(), paths, inside);
        let r = filter_by_paths(ws.drop_last(), paths, inside);
        assert forall|k: int| 0 <= k < filter_by_paths(ws, paths, inside).len() implies ws.contains(#[trigger] filter_by_paths(ws, paths, inside)[k]) by {
            if k < r.len() {
                let x = r[k];
                let j = choose|j: int| 0 <= j < ws.drop_last().len() && ws.drop_last()[j] == x;
                assert(ws[j] == x);
            } else {
                assert(ws[ws.len() - 1] == ws.last());
            }
        }
    }
}

/// Resolving an ambiguous dependency never names a workspace that was not a
/// candidate; when it picks one, it picks exactly one.
pub proof fn lemma_resolve_among_candidates(m: Seq<WorkspaceContent>, cands: Seq<Workspace>, bfs: bool, take_first: bool)
    ensures
        forall|k: int|
            0 <= k < resolve_view(m, cands, bfs, take_first).1.len() ==> cands.contains(
                #[trigger] resolve_view(m, cands, bfs, take_first).1[k],
            ),
        resolve_view(m, cands, bfs, take_first).0 == 5 ==> resolve_view(m, cands, bfs, take_first).1.len() == 1,
        resolve_view(m, cands, bfs, take_first).0 == 1 || resolve_view(m, cands, bfs, take_first).0 == 5,
{
    let pos = sibling_pos(m, bfs, cands);
    let flags = search_order(m, bfs).map_values(
        |i: int| order_candidates(dep_keys_of(m[i].workspace), cands).len() > 0,
    );
    lemma_first_match(flags);
    let v = resolve_view(m, cands, bfs, take_first);
    if pos < 0 {
        assert forall|k: int| 0 <= k < v.1.len() implies cands.contains(#[trigger] v.1[k]) by {
            assert(cands[k] == v.1[k]);
        }
    } else {
        let sib = m[search_order(m, bfs)[pos]].workspace;
        let ordered = order_candidates(dep_keys_of(sib), cands);
        assert(flags[pos]);
        lemma_order_candidates_among(dep_keys_of(sib), cands);
        let trans = all_transitive(m, ordered);
        lemma_filter_among(ordered, trans, false);
        lemma_filter_among(ordered, trans, true);
        assert forall|k: int| 0 <= k < v.1.len() implies cands.contains(#[trigger] v.1[k]) by {
            if ordered.len() == 1 || take_first {
                assert(v.1[k] == ordered[0]);
                assert(ordered.contains(ordered[0]));
            } else {
                let remaining = filter_by_paths(ordered, trans, false);
                let transitive = filter_by_paths(ordered, trans, true);
                let x = v.1[k];
                if remaining.len() == 1 {
                    assert(x == remaining[0]);
                    assert(ordered.contains(x));
                } else if remaining.len() > 0 {
                    assert(x == remaining[k]);
                    assert(ordered.contains(x));
                } else {
                    assert(x == transitive[k]);
                    assert(ordered.contains(x));
                }
                let j = choose|j: int| 0 <= j < ordered.len() && ordered[j] == x;
                assert(cands.contains(ordered[j]));
            }
        }
    }
}

} // verus!

verus! {

/// What holds throughout a walk from a workspace with path `start_key`: the
/// queued and the visited workspaces are in the tree, each listed once, never
/// both queued and visited, never the start, and their paths have been seen.
pub open spec fn walk_inv(m: Seq<WorkspaceContent>, start_key: Seq<char>, q: Seq<int>, v: Seq<Seq<char>>, out: Seq<int>) -> bool {
    &&& q.no_duplicates()
    &&& out.no_duplicates()
    &&& forall|j: int| #[trigger] q.contains(j) ==> !out.contains(j)
    &&& v.contains(start_key)
    &&& forall|j: int| #[trigger] q.contains(j) ==> seen_member(m, start_key, v, j)
    &&& forall|j: int| #[trigger] out.contains(j) ==> seen_member(m, start_key, v, j)
}

/// Workspace `j` is in the tree, is not the start, and its path has been seen.
pub open spec fn seen_member(m: Seq<WorkspaceContent>, start_key: Seq<char>, v: Seq<Seq<char>>, j: int) -> bool {
    0 <= j < m.len() && v.contains(ws_key(m[j].workspace)) && ws_key(m[j].workspace) != start_key
}

/// Processing dependencies keeps what holds of a walk, with the workspaces
/// found queued after the others.
proof fn lemma_new_deps_inv(
    m: Seq<WorkspaceContent>,
    start_key: Seq<char>,
    q: Seq<int>,
    v: Seq<Seq<char>>,
    out: Seq<int>,
    deps: Seq<Seq<char>>,
)
    requires
        walk_inv(m, start_key, q, v, out),
    ensures
        walk_inv(m, start_key, q + new_deps(m, v, deps).0, new_deps(m, v, deps).1, out),
    decreases deps.len(),
{
    if deps.len() == 0 {
        assert(q + Seq::<int>::empty() =~= q);
    } else {
        let d = deps[0];
        if v.contains(d) {
            lemma_new_deps_inv(m, start_key, q, v, out, deps.drop_first());
        } else {
            let i = find_key(m, d);
            lemma_first_match(m.map_values(|c: WorkspaceContent| ws_key(c.workspace) == d));
            let v1 = v.push(d);
            assert forall|x: Seq<char>| v.contains(x) implies v1.contains(x) by {
                lemma_seq_push_contains(v, d, x);
            }
            let q1 = if i < 0 { q } else { q.push(i) };
            if i >= 0 {
                assert(ws_key(m[i].workspace) == d);
                assert(!q.contains(i) && !out.contains(i));
                assert forall|j: int| q1.contains(j) <==> (q.contains(j) || j == i) by {
                    lemma_seq_push_contains(q, i, j);
                }
                assert(q1.no_duplicates()) by {
                    assert forall|a: int, b: int| 0 <= a < q1.len() && 0 <= b < q1.len() && a != b implies q1[a] != q1[b] by {
                        if a < q.len() && b < q.len() {
                        } else if a == q.len() {
                            assert(q.contains(q1[b]));
                        } else {
                            assert(q.contains(q1[a]));
                        }
                    }
                }
                assert forall|j: int| #[trigger] q1.contains(j) implies !out.contains(j) by {
                    if j != i {
                        assert(q.contains(j));
                    }
                }
            }
            assert forall|j: int| #[trigger] out.contains(j) implies seen_member(m, start_key, v1, j) by {
                assert(v.contains(ws_key(m[j].workspace)));
            }
            assert forall|j: int| #[trigger] q1.contains(j) implies seen_member(m, start_key, v1, j) by {
                if i < 0 || j != i {
                    if i >= 0 {
                        assert(q.contains(j));
                    }
                    assert(v.contains(ws_key(m[j].workspace)));
                } else {
                    assert(v1[v.len() as int] == d);
                }
            }
            assert(v1.contains(start_key));
            assert(walk_inv(m, start_key, q1, v1, out));
            lemma_new_deps_inv(m, start_key, q1, v1, out, deps.drop_first());
            let rest = new_deps(m, v1, deps.drop_first()).0;
            if i >= 0 {
                assert(q + (seq![i] + rest) =~= q1 + rest);
            }
        }
    }
}

/// What holds of a walk does not depend on the order of the queue.
proof fn lemma_inv_swap(m: Seq<WorkspaceContent>, start_key: Seq<char>, a: Seq<int>, b: Seq<int>, v: Seq<Seq<char>>, out: Seq<int>)
    requires
        walk_inv(m, start_key, a + b, v, out),
    ensures
        walk_inv(m, start_key, b + a, v, out),
{
    let x = a + b;
    let y = b + a;
    assert forall|j: int| y.contains(j) <==> x.contains(j) by {
        if y.contains(j) {
            let t = choose|t: int| 0 <= t < y.len() && y[t] == j;
            if t < b.len() {
                assert(x[a.len() + t] == j);
            } else {
                assert(x[t - b.len()] == j);
            }
        }
        if x.contains(j) {
            let t = choose|t: int| 0 <= t < x.len() && x[t] == j;
            if t < a.len() {
                assert(y[b.len() + t] == j);
            } else {
                assert(y[t - a.len()] == j);
            }
        }
    }
    assert(y.no_duplicates()) by {
        assert forall|s: int, t: int| 0 <= s < y.len() && 0 <= t < y.len() && s != t implies y[s] != y[t] by {
            let fs = if s < b.len() { a.len() + s } else { s - b.len() };
            let ft = if t < b.len() { a.len() + t } else { t - b.len() };
            assert(y[s] == x[fs]);
            assert(y[t] == x[ft]);
        }
    }
    assert forall|j: int| #[trigger] y.contains(j) implies !out.contains(j) && seen_member(m, start_key, v, j) by {
        assert(x.contains(j));
    }
}

/// Processing dependencies keeps what holds of a walk.
proof fn lemma_push_deps_inv(
    m: Seq<WorkspaceContent>,
    bfs: bool,
    start_key: Seq<char>,
    q: Seq<int>,
    v: Seq<Seq<char>>,
    out: Seq<int>,
    deps: Seq<Seq<char>>,
)
    requires
        walk_inv(m, start_key, q, v, out),
    ensures
        walk_inv(m, start_key, push_deps(m, bfs, q, v, deps).0, push_deps(m, bfs, q, v, deps).1, out),
{
    lemma_new_deps_inv(m, start_key, q, v, out, deps);
    if !bfs {
        lemma_inv_swap(m, start_key, q, new_deps(m, v, deps).0, new_deps(m, v, deps).1, out);
    }
}

proof fn lemma_walk_step_inv(m: Seq<WorkspaceContent>, bfs: bool, start_key: Seq<char>, s: WalkState)
    requires
        walk_inv(m, start_key, s.queue, s.visited, s.out),
        s.queue.len() > 0,
    ensures
        walk_inv(m, start_key, walk_step(m, bfs, s).queue, walk_step(m, bfs, s).visited, walk_step(m, bfs, s).out),
{
    let w = s.queue[0];
    let rest = s.queue.drop_first();
    let out1 = s.out.push(w);
    assert(s.queue.contains(w));
    assert forall|j: int| rest.contains(j) implies s.queue.contains(j) && j != w by {
        let t = choose|t: int| 0 <= t < rest.len() && rest[t] == j;
        assert(s.queue[t + 1] == j);
    }
    assert forall|j: int| out1.contains(j) <==> (s.out.contains(j) || j == w) by {
        lemma_seq_push_contains(s.out, w, j);
    }
    assert(rest.no_duplicates()) by {
        assert forall|a: int, b: int| 0 <= a < rest.len() && 0 <= b < rest.len() && a != b implies rest[a] != rest[b] by {
            assert(rest[a] == s.queue[a + 1] && rest[b] == s.queue[b + 1]);
        }
    }
    assert(out1.no_duplicates()) by {
        assert forall|a: int, b: int| 0 <= a < out1.len() && 0 <= b < out1.len() && a != b implies out1[a] != out1[b] by {
            if a < s.out.len() && b < s.out.len() {
            } else if a == s.out.len() {
                assert(s.out.contains(out1[b]));
            } else {
                assert(s.out.contains(out1[a]));
            }
        }
    }
    assert forall|j: int| #[trigger] rest.contains(j) implies !out1.contains(j) && seen_member(m, start_key, s.visited, j) by {
        assert(s.queue.contains(j));
        assert(!s.out.contains(j));
    }
    assert forall|j: int| #[trigger] out1.contains(j) implies seen_member(m, start_key, s.visited, j) by {
        if j != w {
            assert(s.out.contains(j));
        }
    }
    assert(walk_inv(m, start_key, rest, s.visited, out1));
    lemma_push_deps_inv(m, bfs, start_key, rest, s.visited, out1, dep_keys_of(m[w].workspace));
}

proof fn lemma_walk_steps_inv(m: Seq<WorkspaceContent>, bfs: bool, start_key: Seq<char>, s: WalkState, fuel: nat)
    requires
        walk_inv(m, start_key, s.queue, s.visited, s.out),
    ensures
        walk_inv(
            m,
            start_key,
            walk_steps(m, bfs, s, fuel).queue,
            walk_steps(m, bfs, s, fuel).visited,
            walk_steps(m, bfs, s, fuel).out,
        ),
    decreases fuel,
{
    if fuel > 0 && s.queue.len() > 0 {
        lemma_walk_step_inv(m, bfs, start_key, s);
        lemma_walk_steps_inv(m, bfs, start_key, walk_step(m, bfs, s), (fuel - 1) as nat);
    }
}

/// A walk from a workspace visits workspaces of the tree only, each at most
/// once, and never the workspace it starts from.
pub proof fn lemma_walk_once(m: Seq<WorkspaceContent>, bfs: bool, start_key: Seq<char>, start_deps: Seq<Seq<char>>)
    ensures
        walk_order(m, bfs, start_key, start_deps).no_duplicates(),
        forall|k: int|
            0 <= k < walk_order(m, bfs, start_key, start_deps).len() ==> 0 <= #[trigger] walk_order(
                m,
                bfs,
                start_key,
                start_deps,
            )[k] < m.len() && ws_key(m[walk_order(m, bfs, start_key, start_deps)[k]].workspace) != start_key,
{
    let v0 = seq![start_key];
    assert(v0[0] == start_key);
    assert(walk_inv(m, start_key, Seq::empty(), v0, Seq::empty()));
    lemma_push_deps_inv(m, bfs, start_key, Seq::empty(), v0, Seq::empty(), start_deps);
    let s = walk_start(m, bfs, start_key, start_deps);
    lemma_walk_steps_inv(m, bfs, start_key, s, (2 * m.len() + 1) as nat);
    let o = walk_order(m, bfs, start_key, start_deps);
    assert forall|k: int| 0 <= k < o.len() implies 0 <= #[trigger] o[k] < m.len() && ws_key(m[o[k]].workspace) != start_key by {
        assert(o.contains(o[k]));
        assert(seen_member(m, start_key, walk_steps(m, bfs, s, (2 * m.len() + 1) as nat).visited, o[k]));
    }
}

/// The search order from the root lists each workspace of the tree at most
/// once, the root first.
pub proof fn lemma_search_order_once(m: Seq<WorkspaceContent>, bfs: bool)
    requires
        m.len() > 0,
    ensures
        search_order(m, bfs).no_duplicates(),
        search_order(m, bfs)[0] == 0,
        forall|k: int| 0 <= k < search_order(m, bfs).len() ==> 0 <= #[trigger] search_order(m, bfs)[k] < m.len(),
{
    let w = m[0].workspace;
    lemma_walk_once(m, bfs, ws_key(w), dep_keys_of(w));
    let o = walk_from(m, bfs, w);
    let so = search_order(m, bfs);
    assert forall|a: int, b: int| 0 <= a < so.len() && 0 <= b < so.len() && a != b implies so[a] != so[b] by {
        if a > 0 && b > 0 {
            assert(so[a] == o[a - 1] && so[b] == o[b - 1]);
        } else if a == 0 {
            assert(so[b] == o[b - 1]);
            assert(ws_key(m[o[b - 1]].workspace) != ws_key(w));
        } else {
            assert(so[a] == o[a - 1]);
            assert(ws_key(m[o[a - 1]].workspace) != ws_key(w));
        }
    }
    assert forall|k: int| 0 <= k < so.len() implies 0 <= #[trigger] so[k] < m.len() by {
        if k > 0 {
            assert(so[k] == o[k - 1]);
        }
    }
}

} // verus!

verus! {

/// The names of a file map are different, even ignoring ASCII case.
pub open spec fn names_distinct(g: Seq<(Seq<char>, Seq<int>)>) -> bool {
    forall|a: int, b: int| 0 <= a < g.len() && 0 <= b < g.len() && a != b ==> lower_seq(#[trigger] g[a].0) != lower_seq(#[trigger] g[b].0)
}

proof fn lemma_grouped_distinct(f: Seq<(Seq<char>, int)>)
    ensures
        names_distinct(grouped(f)),
    decreases f.len(),
{
    if f.len() > 0 {
        lemma_grouped_distinct(f.drop_last());
        let g = grouped(f.drop_last());
        let e = f.last();
        let flags = g.map_values(|x: (Seq<char>, Seq<int>)| lower_seq(x.0) == lower_seq(e.0));
        lemma_first_match(flags);
        let p = find_name(g, e.0);
        let n = grouped(f);
        if p >= 0 {
            assert forall|a: int, b: int| 0 <= a < n.len() && 0 <= b < n.len() && a != b implies lower_seq(#[trigger] n[a].0) != lower_seq(#[trigger] n[b].0) by {
                assert(n[a].0 == g[a].0);
                assert(n[b].0 == g[b].0);
            }
        } else {
            assert forall|a: int, b: int| 0 <= a < n.len() && 0 <= b < n.len() && a != b implies lower_seq(#[trigger] n[a].0) != lower_seq(#[trigger] n[b].0) by {
                if a < g.len() && b < g.len() {
                    assert(n[a] == g[a] && n[b] == g[b]);
                } else if a == g.len() {
                    assert(!flags[b]);
                } else {
                    assert(!flags[a]);
                }
            }
        }
    }
}

/// Each source file name appears once in the file map of a tree, whatever
/// the ASCII case it is written in.
pub proof fn lemma_source_map_names_distinct(m: Seq<WorkspaceContent>)
    ensures
        names_distinct(source_map(m)),
{
    lemma_grouped_distinct(flat_files(m));
}

} // verus!

verus! {

/// A conflict that a `Use` implies names the workspace that the DataFlex 26
/// order picks and then the one that the DataFlex 25 order picks, and these
/// have different paths; when both orders pick the same workspace, no
/// dependency is implied.
pub proof fn lemma_conflict_picks(m: Seq<WorkspaceContent>, wpath: Seq<char>, name: Seq<char>)
    ensures
        cand_view(m, wpath, name) is Some && cand_view(m, wpath, name).unwrap().0 == 2 ==> {
            let v = cand_view(m, wpath, name).unwrap();
            let wds = ws_at(m, holders(m, name).unwrap());
            &&& resolve_view(m, wds, true, false) == (5int, seq![v.1[0]])
            &&& resolve_view(m, wds, false, true) == (5int, seq![v.1[1]])
            &&& ws_key(v.1[0]) != ws_key(v.1[1])
        },
{
    if let Some(list) = holders(m, name) {
        let wds = ws_at(m, list);
        lemma_resolve_among_candidates(m, wds, true, false);
        lemma_resolve_among_candidates(m, wds, false, true);
        let v26 = resolve_view(m, wds, true, false);
        let v25 = resolve_view(m, wds, false, true);
        if v26.0 == 5 {
            assert(v26.1 =~= seq![v26.1[0]]);
        }
        if v25.0 == 5 {
            assert(v25.1 =~= seq![v25.1[0]]);
        }
    }
}

} // verus!

verus! {

/// Every dependency kept while collecting is what one of the names implies.
proof fn lemma_collect_views_origin(m: Seq<WorkspaceContent>, wpath: Seq<char>, names: Seq<Seq<char>>, seen0: Seq<Seq<char>>)
    ensures
        forall|k: int|
            0 <= k < collect_views(m, wpath, names, seen0).0.len() ==> exists|j: int|
                0 <= j < names.len() && cand_view(m, wpath, #[trigger] names[j]) == Some(
                    #[trigger] collect_views(m, wpath, names, seen0).0[k],
                ),
    decreases names.len(),
{
    if names.len() > 0 {
        let init = names.drop_last();
        lemma_collect_views_origin(m, wpath, init, seen0);
        let (vs, seen) = collect_views(m, wpath, init, seen0);
        let r = collect_views(m, wpath, names, seen0).0;
        assert forall|k: int| 0 <= k < r.len() implies exists|j: int|
            0 <= j < names.len() && cand_view(m, wpath, #[trigger] names[j]) == Some(#[trigger] r[k]) by {
            if k < vs.len() {
                assert(r[k] == vs[k]);
                let j = choose|j: int| 0 <= j < init.len() && cand_view(m, wpath, #[trigger] init[j]) == Some(vs[k]);
                assert(names[j] == init[j]);
            } else {
                assert(names[names.len() - 1] == names.last());
            }
        }
    }
}

/// The workspaces an implied dependency names all hold a file of the used name.
proof fn lemma_cand_view_held(m: Seq<WorkspaceContent>, wpath: Seq<char>, name: Seq<char>)
    ensures
        cand_view(m, wpath, name) matches Some(v) ==> held_by_all(m, name, v.1.map_values(|x: Workspace| ws_key(x))),
{
    if let Some(v) = cand_view(m, wpath, name) {
        let list = holders(m, name).unwrap();
        let wds = ws_at(m, list);
        let ks = v.1.map_values(|x: Workspace| ws_key(x));
        let sm = source_map(m);
        lemma_grouped_nonempty(flat_files(m));
        lemma_first_match(sm.map_values(|e: (Seq<char>, Seq<int>)| lower_seq(e.0) == lower_seq(name)));
        assert(list.len() > 0);
        assert forall|x: Workspace| wds.contains(x) implies keys_at(m, list).contains(ws_key(x)) by {
            let t = choose|t: int| 0 <= t < wds.len() && wds[t] == x;
            assert(keys_at(m, list)[t] == ws_key(x));
        }
        lemma_resolve_among_candidates(m, wds, true, false);
        lemma_resolve_among_candidates(m, wds, false, true);
        assert forall|k: int| 0 <= k < ks.len() implies keys_at(m, list).contains(#[trigger] ks[k]) by {
            assert(ks[k] == ws_key(v.1[k]));
            if list.len() > 1 {
                let v26 = resolve_view(m, wds, true, false);
                let v25 = resolve_view(m, wds, false, true);
                if v26.0 == 5 && v25.0 == 5 {
                    assert(v.1 == seq![v26.1[0], v25.1[0]]);
                    if k == 0 {
                        assert(wds.contains(v26.1[0]));
                    } else {
                        assert(wds.contains(v25.1[0]));
                    }
                } else if v26.0 == 5 {
                    assert(v.1 == wds);
                    assert(wds.contains(wds[k]));
                } else {
                    assert(v.1 == v26.1);
                    assert(wds.contains(v26.1[k]));
                }
            } else {
                assert(v.1 == seq![m[list[0]].workspace]);
                assert(keys_at(m, list)[0] == ws_key(m[list[0]].workspace));
            }
        }
    }
}

/// A used name that every workspace of `ks` holds makes the relevant uses non-empty.
proof fn lemma_relevant_nonempty(m: Seq<WorkspaceContent>, uses: Seq<Seq<char>>, ks: Seq<Seq<char>>, name: Seq<char>)
    requires
        uses.contains(name),
        held_by_all(m, name, ks),
    ensures
        relevant_uses(m, uses, ks).len() > 0,
    decreases uses.len(),
{
    if uses.last() != name {
        let j = choose|j: int| 0 <= j < uses.len() && uses[j] == name;
        assert(uses.drop_last()[j] == name);
        lemma_relevant_nonempty(m, uses.drop_last(), ks, name);
    }
}

/// A source file that uses a name every workspace of `ks` holds is affected.
proof fn lemma_affected_nonempty(m: Seq<WorkspaceContent>, files: Seq<SourceFile>, ks: Seq<Seq<char>>, name: Seq<char>)
    requires
        use_names(files).contains(name),
        held_by_all(m, name, ks),
    ensures
        affected_files(m, files, ks).len() > 0,
    decreases files.len(),
{
    let init = files.drop_last();
    let own = crate::source_scan::names_of(files.last().dependencies@);
    let j = choose|j: int| 0 <= j < use_names(files).len() && use_names(files)[j] == name;
    if j < use_names(init).len() {
        assert(use_names(init)[j] == name);
        lemma_affected_nonempty(m, init, ks, name);
    } else {
        assert(own[j - use_names(init).len()] == name);
        lemma_relevant_nonempty(m, own, ks, name);
    }
}

/// Every dependency that a workspace's `Use` statements imply is backed by
/// its source files: some source file of the workspace uses a file that all
/// the workspaces of the dependency hold.
pub proof fn lemma_calculated_backed(m: Seq<WorkspaceContent>, w: Workspace)
    ensures
        forall|k: int|
            0 <= k < calculated_spec(m, w).len() ==> source_analysis(
                m,
                w.sws_path@,
                (#[trigger] calculated_spec(m, w)[k]).1.map_values(|x: Workspace| ws_key(x)),
            ) is Some,
{
    let i = find_key(m, ws_key(w));
    if i >= 0 {
        let files = m[i].source_files@;
        let names = use_names(files);
        let seed = seq![ws_name(m[i].workspace)];
        lemma_collect_views_origin(m, w.sws_path@, names, seed);
        let vs = calculated_spec(m, w);
        assert forall|k: int| 0 <= k < vs.len() implies source_analysis(
            m,
            w.sws_path@,
            (#[trigger] vs[k]).1.map_values(|x: Workspace| ws_key(x)),
        ) is Some by {
            let j = choose|j: int| 0 <= j < names.len() && cand_view(m, w.sws_path@, #[trigger] names[j]) == Some(vs[k]);
            lemma_cand_view_held(m, w.sws_path@, names[j]);
            assert(names.contains(names[j]));
            lemma_affected_nonempty(m, files, vs[k].1.map_values(|x: Workspace| ws_key(x)), names[j]);
        }
    }
}

} // verus!

verus! {

/// The names of a list of entries are different, even ignoring ASCII case.
pub open spec fn entry_names_distinct(s: Seq<(Seq<char>, (int, Seq<Workspace>))>) -> bool {
    forall|a: int, b: int| 0 <= a < s.len() && 0 <= b < s.len() && a != b ==> name_key(#[trigger] s[a]) != name_key(#[trigger] s[b])
}

/// Sorting keeps only entries that were there.
proof fn lemma_sort_named_members(s: Seq<(Seq<char>, (int, Seq<Workspace>))>)
    ensures
        forall|k: int| 0 <= k < sort_named(s).len() ==> s.contains(#[trigger] sort_named(s)[k]),
        sort_named(s).len() == s.len(),
    decreases s.len(),
{
    if s.len() > 0 {
        let init = s.drop_last();
        lemma_sort_named_members(init);
        let r = sort_named(init);
        let p = insert_pos(r.map_values(|e: (Seq<char>, (int, Seq<Workspace>))| name_key(e)), name_key(s.last()));
        lemma_first_match(r.map_values(|e: (Seq<char>, (int, Seq<Workspace>))| name_key(e)).map_values(
            |k: Seq<char>| lex_lt(name_key(s.last()), k),
        ));
        let n = r.insert(p, s.last());
        assert forall|k: int| 0 <= k < n.len() implies s.contains(#[trigger] n[k]) by {
            if k == p {
                assert(s[s.len() - 1] == s.last());
            } else {
                let x = if k < p { r[k] } else { r[k - 1] };
                assert(n[k] == x);
                assert(init.contains(x));
                let j = choose|j: int| 0 <= j < init.len() && init[j] == x;
                assert(s[j] == x);
            }
        }
    }
}

/// Sorting entries with different names gives entries with different names.
proof fn lemma_sort_named_distinct(s: Seq<(Seq<char>, (int, Seq<Workspace>))>)
    requires
        entry_names_distinct(s),
    ensures
        entry_names_distinct(sort_named(s)),
    decreases s.len(),
{
    if s.len() > 0 {
        let init = s.drop_last();
        assert(entry_names_distinct(init)) by {
            assert forall|a: int, b: int| 0 <= a < init.len() && 0 <= b < init.len() && a != b implies name_key(#[trigger] init[a]) != name_key(#[trigger] init[b]) by {
                assert(init[a] == s[a] && init[b] == s[b]);
            }
        }
        lemma_sort_named_distinct(init);
        lemma_sort_named_members(init);
        let r = sort_named(init);
        let x = s.last();
        let p = insert_pos(r.map_values(|e: (Seq<char>, (int, Seq<Workspace>))| name_key(e)), name_key(x));
        lemma_first_match(r.map_values(|e: (Seq<char>, (int, Seq<Workspace>))| name_key(e)).map_values(
            |k: Seq<char>| lex_lt(name_key(x), k),
        ));
        assert forall|k: int| 0 <= k < r.len() implies name_key(#[trigger] r[k]) != name_key(x) by {
            assert(init.contains(r[k]));
            let j = choose|j: int| 0 <= j < init.len() && init[j] == r[k];
            assert(s[j] == r[k]);
            assert(s[s.len() - 1] == x);
        }
        let n = r.insert(p, x);
        assert forall|a: int, b: int| 0 <= a < n.len() && 0 <= b < n.len() && a != b implies name_key(#[trigger] n[a]) != name_key(#[trigger] n[b]) by {
            if a != p && b != p {
                let ra = if a < p { a } else { a - 1 };
                let rb = if b < p { b } else { b - 1 };
                assert(n[a] == r[ra] && n[b] == r[rb]);
            } else if a == p {
                let rb = if b < p { b } else { b - 1 };
                assert(n[b] == r[rb]);
            } else {
                let ra = if a < p { a } else { a - 1 };
                assert(n[a] == r[ra]);
            }
        }
    }
}

/// Keeping only the entries held more than once keeps names different.
proof fn lemma_dup_entries_distinct(g: Seq<(Seq<char>, Seq<int>)>)
    requires
        names_distinct(g),
    ensures
        names_distinct(dup_entries(g)),
        forall|k: int| 0 <= k < dup_entries(g).len() ==> g.contains(#[trigger] dup_entries(g)[k]),
    decreases g.len(),
{
    if g.len() > 0 {
        let init = g.drop_last();
        assert(names_distinct(init)) by {
            assert forall|a: int, b: int| 0 <= a < init.len() && 0 <= b < init.len() && a != b implies lower_seq(#[trigger] init[a].0) != lower_seq(#[trigger] init[b].0) by {
                assert(init[a] == g[a] && init[b] == g[b]);
            }
        }
        lemma_dup_entries_distinct(init);
        let r = dup_entries(init);
        assert forall|k: int| 0 <= k < r.len() implies g.contains(#[trigger] r[k]) by {
            assert(init.contains(r[k]));
            let j = choose|j: int| 0 <= j < init.len() && init[j] == r[k];
            assert(g[j] == r[k]);
        }
        if g.last().1.len() > 1 {
            let n = r.push(g.last());
            assert forall|k: int| 0 <= k < r.len() implies lower_seq(#[trigger] r[k].0) != lower_seq(g.last().0) by {
                let j = choose|j: int| 0 <= j < init.len() && init[j] == r[k];
                assert(g[j] == r[k]);
                assert(g[g.len() - 1] == g.last());
            }
            assert forall|a: int, b: int| 0 <= a < n.len() && 0 <= b < n.len() && a != b implies lower_seq(#[trigger] n[a].0) != lower_seq(#[trigger] n[b].0) by {
                if a < r.len() && b < r.len() {
                    assert(n[a] == r[a] && n[b] == r[b]);
                }
            }
            assert forall|k: int| 0 <= k < n.len() implies g.contains(#[trigger] n[k]) by {
                if k < r.len() {
                    assert(n[k] == r[k]);
                } else {
                    assert(g[g.len() - 1] == g.last());
                }
            }
        }
    }
}

/// Each file name that several workspaces hold is reported once, and the
/// names come in strictly increasing order, compared in ASCII lower case.
pub proof fn lemma_duplicates_once(m: Seq<WorkspaceContent>)
    ensures
        forall|a: int, b: int|
            0 <= a < b < sort_named(duplicates_spec(m)).len() ==> lex_lt(
                lower_seq((#[trigger] sort_named(duplicates_spec(m))[a]).0),
                lower_seq((#[trigger] sort_named(duplicates_spec(m))[b]).0),
            ),
{
    let g = source_map(m);
    lemma_source_map_names_distinct(m);
    lemma_dup_entries_distinct(g);
    let d = dup_entries(g);
    let s = duplicates_spec(m);
    assert(entry_names_distinct(s)) by {
        assert forall|a: int, b: int| 0 <= a < s.len() && 0 <= b < s.len() && a != b implies name_key(#[trigger] s[a]) != name_key(#[trigger] s[b]) by {
            assert(s[a].0 == d[a].0 && s[b].0 == d[b].0);
        }
    }
    lemma_sort_named_distinct(s);
    lemma_sort_named(s);
    let t = sort_named(s);
    assert forall|a: int, b: int| 0 <= a < b < t.len() implies lex_lt(lower_seq((#[trigger] t[a]).0), lower_seq((#[trigger] t[b]).0)) by {
        assert(lex_le(lower_seq(t[a].0), lower_seq(t[b].0)));
        assert(name_key(t[a]) != name_key(t[b]));
    }
}

} // verus!

verus! {

/// Inserting a workspace keeps every path that was there, at the same place,
/// adds the new one, and adds nothing else.
proof fn lemma_insert_content(m: Seq<WorkspaceContent>, c: WorkspaceContent)
    ensures
        forall|t: int| 0 <= t < m.len() ==> ws_key(#[trigger] insert_content(m, c)[t].workspace) == ws_key(m[t].workspace),
        forall|t: int| 0 <= t < insert_content(m, c).len() ==> (m.contains(#[trigger] insert_content(m, c)[t]) || insert_content(m, c)[t] == c),
        find_key(insert_content(m, c), ws_key(c.workspace)) >= 0,
        insert_content(m, c).len() >= m.len(),
{
    let k = ws_key(c.workspace);
    let i = find_key(m, k);
    lemma_first_match(m.map_values(|x: WorkspaceContent| ws_key(x.workspace) == k));
    let n = insert_content(m, c);
    let t0: int = if i >= 0 { i } else { m.len() as int };
    assert(ws_key(n[t0].workspace) == k);
    lemma_first_match(n.map_values(|x: WorkspaceContent| ws_key(x.workspace) == k));
    if find_key(n, k) < 0 {
        assert(n.map_values(|x: WorkspaceContent| ws_key(x.workspace) == k)[t0]);
    }
    assert forall|t: int| 0 <= t < n.len() implies (m.contains(#[trigger] n[t]) || n[t] == c) by {
        if n[t] != c {
            assert(n[t] == m[t]);
        }
    }
}

/// Every path that a tree was built from is found in it.
proof fn lemma_build_model(cs: Seq<WorkspaceContent>)
    ensures
        forall|t: int| 0 <= t < build_model(cs).len() ==> cs.contains(#[trigger] build_model(cs)[t]),
        forall|j: int| 0 <= j < cs.len() ==> find_key(build_model(cs), ws_key(#[trigger] cs[j].workspace)) >= 0,
        cs.len() > 0 ==> build_model(cs).len() > 0 && ws_key(build_model(cs)[0].workspace) == ws_key(cs[0].workspace),
    decreases cs.len(),
{
    if cs.len() > 0 {
        let init = cs.drop_last();
        lemma_build_model(init);
        let bm = build_model(init);
        let c = cs.last();
        lemma_insert_content(bm, c);
        let n = build_model(cs);
        assert(n == insert_content(bm, c));
        assert forall|t: int| 0 <= t < n.len() implies cs.contains(#[trigger] n[t]) by {
            if n[t] == c {
                assert(cs[cs.len() - 1] == c);
            } else {
                let j = choose|j: int| 0 <= j < init.len() && init[j] == n[t];
                assert(cs[j] == n[t]);
            }
        }
        assert forall|j: int| 0 <= j < cs.len() implies find_key(n, ws_key(#[trigger] cs[j].workspace)) >= 0 by {
            if j < init.len() {
                assert(cs[j] == init[j]);
                let kj = ws_key(init[j].workspace);
                lemma_first_match(bm.map_values(|x: WorkspaceContent| ws_key(x.workspace) == kj));
                let t = find_key(bm, kj);
                assert(ws_key(n[t].workspace) == kj);
                lemma_first_match(n.map_values(|x: WorkspaceContent| ws_key(x.workspace) == kj));
                if find_key(n, kj) < 0 {
                    assert(n.map_values(|x: WorkspaceContent| ws_key(x.workspace) == kj)[t]);
                }
            }
        }
        if init.len() == 0 {
            assert(bm.len() == 0);
            assert(n.len() > 0);
            let i = find_key(bm, ws_key(c.workspace));
            lemma_first_match(bm.map_values(|x: WorkspaceContent| ws_key(x.workspace) == ws_key(c.workspace)));
            assert(n == bm.push(c));
            assert(cs[0] == c);
        } else {
            assert(cs[0] == init[0]);
        }
    }
}

/// The tree holds exactly the root and the library workspaces it was built
/// from (a later one with the same path in place of an earlier one), and its
/// first workspace, the root, has the root's path.
pub proof fn lemma_tree_members(root: WorkspaceContent, libraries: Seq<WorkspaceContent>)
    ensures
        ({
            let cs = seq![root] + libraries;
            let m = build_model(cs);
            &&& m.len() >= 1
            &&& ws_key(m[0].workspace) == ws_key(root.workspace)
            &&& forall|t: int| 0 <= t < m.len() ==> cs.contains(#[trigger] m[t])
            &&& forall|j: int| 0 <= j < cs.len() ==> find_key(m, ws_key(#[trigger] cs[j].workspace)) >= 0
        }),
{
    let cs = seq![root] + libraries;
    lemma_build_model(cs);
    assert(cs[0] == root);
}

/// When none of the paths processed names a workspace of the tree, no
/// workspace is found.
proof fn lemma_new_deps_none(m: Seq<WorkspaceContent>, v: Seq<Seq<char>>, deps: Seq<Seq<char>>)
    requires
        forall|k: int| 0 <= k < deps.len() ==> find_key(m, #[trigger] deps[k]) < 0,
    ensures
        new_deps(m, v, deps).0.len() == 0,
    decreases deps.len(),
{
    if deps.len() > 0 {
        assert(find_key(m, deps[0]) < 0);
        assert forall|k: int| 0 <= k < deps.drop_first().len() implies find_key(m, #[trigger] deps.drop_first()[k]) < 0 by {
            assert(deps.drop_first()[k] == deps[k + 1]);
        }
        if v.contains(deps[0]) {
            lemma_new_deps_none(m, v, deps.drop_first());
        } else {
            lemma_new_deps_none(m, v.push(deps[0]), deps.drop_first());
        }
    }
}

/// A workspace none of whose declared dependencies is in the tree reaches
/// no workspace, so it has no indirect dependencies.
pub proof fn lemma_indirect_empty(m: Seq<WorkspaceContent>, w: Workspace)
    requires
        forall|k: int| 0 <= k < dep_keys_of(w).len() ==> find_key(m, #[trigger] dep_keys_of(w)[k]) < 0,
    ensures
        walk_from(m, true, w).len() == 0,
        dedup_paths(deps_along(m, walk_from(m, true, w))).len() == 0,
{
    lemma_new_deps_none(m, seq![ws_key(w)], dep_keys_of(w));
    let s = walk_start(m, true, ws_key(w), dep_keys_of(w));
    assert(s.queue =~= Seq::<int>::empty() + new_deps(m, seq![ws_key(w)], dep_keys_of(w)).0);
    lemma_walk_steps_done(m, true, s, (2 * m.len() + 1) as nat);
}

} // verus!

verus! {

proof fn lemma_grouped_lists_distinct(f: Seq<(Seq<char>, int)>)
    ensures
        forall|k: int| 0 <= k < grouped(f).len() ==> (#[trigger] grouped(f)[k]).1.no_duplicates(),
    decreases f.len(),
{
    if f.len() > 0 {
        lemma_grouped_lists_distinct(f.drop_last());
        let g = grouped(f.drop_last());
        let e = f.last();
        lemma_first_match(g.map_values(|x: (Seq<char>, Seq<int>)| lower_seq(x.0) == lower_seq(e.0)));
        let p = find_name(g, e.0);
        if p >= 0 && !g[p].1.contains(e.1) {
            let l = g[p].1;
            let l2 = l.push(e.1);
            assert(l.no_duplicates());
            assert forall|a: int, b: int| 0 <= a < l2.len() && 0 <= b < l2.len() && a != b implies l2[a] != l2[b] by {
                if a == l.len() {
                    assert(l2[b] == l[b]);
                    assert(l.contains(l[b]));
                } else if b == l.len() {
                    assert(l2[a] == l[a]);
                    assert(l.contains(l[a]));
                } else {
                    assert(l2[a] == l[a] && l2[b] == l[b]);
                }
            }
        }
    }
}

/// What a `Use` of the file `name` in the workspace at `wpath` implies, name
/// by name. No workspace holds the file: nothing. The holders are listed
/// once each. One workspace holds it: a dependency on that workspace, or a
/// reverse one when that workspace's declarations reach `wpath`. Several do:
/// the DataFlex 26 resolution if it picks none; otherwise nothing when the
/// DataFlex 25 resolution picks a workspace with the same path, a conflict
/// when it picks one with another path, and the plain ambiguity when it picks none.
pub proof fn lemma_implied_rules(m: Seq<WorkspaceContent>, wpath: Seq<char>, name: Seq<char>)
    ensures
        holders(m, name) is None ==> cand_view(m, wpath, name) is None,
        holders(m, name) matches Some(list) ==> {
            &&& list.len() >= 1
            &&& list.no_duplicates()
            &&& list.len() == 1 ==> {
                let w = m[list[0]].workspace;
                cand_view(m, wpath, name) == Some(
                    if path_in(w.deps() + deps_along(m, walk_from(m, true, w)), wpath) {
                        (3int, seq![w])
                    } else {
                        (5int, seq![w])
                    },
                )
            }
            &&& list.len() > 1 ==> {
                let wds = ws_at(m, list);
                let v26 = resolve_view(m, wds, true, false);
                let v25 = resolve_view(m, wds, false, true);
                &&& v26.0 != 5 ==> cand_view(m, wpath, name) == Some(v26)
                &&& v26.0 == 5 && v25.0 == 5 && ws_key(v25.1[0]) == ws_key(v26.1[0]) ==> cand_view(m, wpath, name) is None
                &&& v26.0 == 5 && v25.0 == 5 && ws_key(v25.1[0]) != ws_key(v26.1[0]) ==> cand_view(m, wpath, name) == Some(
                    (2int, seq![v26.1[0], v25.1[0]]),
                )
                &&& v26.0 == 5 && v25.0 != 5 ==> cand_view(m, wpath, name) == Some((1int, wds))
            }
        },
{
    let sm = source_map(m);
    lemma_grouped_nonempty(flat_files(m));
    lemma_grouped_lists_distinct(flat_files(m));
    lemma_first_match(sm.map_values(|e: (Seq<char>, Seq<int>)| lower_seq(e.0) == lower_seq(name)));
}

} // verus!
