use dflibanalyzer::source_scan::{FileName, SourceFile};
use dflibanalyzer::workspace::Workspace;
use dflibanalyzer::workspace_tree::{WorkspaceContent, WorkspaceDependency, WorkspaceDependencyTree};

fn ws(path: &str, deps: &[&str]) -> Workspace {
    Workspace {
        sws_path: path.to_string(),
        _df_version: None,
        appsrc_path: Vec::new(),
        ddsrc_path: Vec::new(),
        dependencies: deps.iter().map(|d| d.to_string()).collect(),
    }
}

fn src(path: &str, uses: &[&str]) -> SourceFile {
    SourceFile { path: path.to_string(), dependencies: uses.iter().map(|u| FileName::from_str(u)).collect() }
}

fn content(w: Workspace, files: Vec<SourceFile>) -> WorkspaceContent {
    WorkspaceContent { workspace: w, source_files: files }
}

/// App declares LibA and LibB; both declare LibC. App uses files of each,
/// and a file that LibA and LibB both hold.
fn diamond() -> WorkspaceDependencyTree {
    let app = content(
        ws("/w/app/App.sws", &["/w/liba/LibA.sws", "/w/libb/LibB.sws"]),
        vec![src("/w/app/AppSrc/main.src", &["a.pkg", "C.PKG", "dup.pkg", "b.inc", "nowhere.pkg"])],
    );
    let liba = content(
        ws("/w/liba/LibA.sws", &["/w/libc/LibC.sws"]),
        vec![src("/w/liba/AppSrc/a.pkg", &["c.pkg"]), src("/w/liba/AppSrc/dup.pkg", &[])],
    );
    let libb = content(
        ws("/w/libb/LibB.sws", &["/w/libc/LibC.sws"]),
        vec![src("/w/libb/AppSrc/b.inc", &["a.pkg"]), src("/w/libb/AppSrc/DUP.pkg", &[])],
    );
    let libc = content(ws("/w/libc/LibC.sws", &[]), vec![src("/w/libc/AppSrc/c.pkg", &["main.src"])]);
    WorkspaceDependencyTree::new(app, vec![liba, libb, libc])
}

fn names_of(v: &[&Workspace]) -> Vec<String> {
    v.iter().map(|w| w.name()).collect()
}

fn texts(v: &[WorkspaceDependency]) -> Vec<String> {
    v.iter().map(|d| d.to_string()).collect()
}

fn kinds(v: &[WorkspaceDependency]) -> Vec<usize> {
    v.iter().map(|d| d.sort_order()).collect()
}

#[test]
fn root_and_lookup() {
    let t = diamond();
    assert_eq!(t.len(), 4);
    assert_eq!(t.root_workspace().name(), "App.sws");
    assert_eq!(t.workspace("/w/libb/LibB.sws").unwrap().name(), "LibB.sws");
    assert_eq!(t.workspace("/w//libb/./LibB.sws").unwrap().name(), "LibB.sws");
    assert!(t.workspace("/w/libd/LibD.sws").is_none());
    assert!(t.workspace("/w/libb/libb.sws").is_none());
    assert_eq!(t.index_of("/w/libc/LibC.sws"), Some(3));
}

#[test]
fn all_workspaces_breadth_first_each_once() {
    let t = diamond();
    assert_eq!(names_of(&t.all_workspaces()), vec!["App.sws", "LibA.sws", "LibB.sws", "LibC.sws"]);
}

#[test]
fn transitive_and_indirect_dependencies() {
    let t = diamond();
    let app = t.root_workspace();
    assert_eq!(
        t.defined_transitive_workspace_dependencies(app),
        vec!["/w/liba/LibA.sws", "/w/libb/LibB.sws", "/w/libc/LibC.sws"]
    );
    assert_eq!(t.defined_indirect_workspace_dependencies(app), vec!["/w/libc/LibC.sws"]);
    let libc = t.workspace("/w/libc/LibC.sws").unwrap();
    assert!(t.defined_transitive_workspace_dependencies(libc).is_empty());
}

#[test]
fn calculated_dependencies_of_the_root() {
    let t = diamond();
    let calc = t.calculated_workspace_dependencies(t.root_workspace());
    assert_eq!(texts(&calc), vec!["LibA.sws", "LibC.sws", "LibA.sws, LibB.sws", "LibB.sws"]);
    assert_eq!(kinds(&calc), vec![5, 5, 1, 5]);
    assert_eq!(calc[2].to_string_alternate(), "LibA.sws\nLibB.sws");
}

#[test]
fn calculated_dependencies_show_reverse_and_undeclared_uses() {
    let t = diamond();
    let libb = t.workspace("/w/libb/LibB.sws").unwrap();
    let calc = t.calculated_workspace_dependencies(libb);
    assert_eq!(texts(&calc), vec!["LibA.sws"]);
    assert_eq!(kinds(&calc), vec![5]);
    let libc = t.workspace("/w/libc/LibC.sws").unwrap();
    let calc = t.calculated_workspace_dependencies(libc);
    assert_eq!(texts(&calc), vec!["App.sws"]);
    assert_eq!(kinds(&calc), vec![3]);
}

#[test]
fn calculated_dependencies_of_an_unknown_workspace_are_empty() {
    let t = diamond();
    let other = ws("/w/other/Other.sws", &[]);
    assert!(t.calculated_workspace_dependencies(&other).is_empty());
}

#[test]
fn ambiguous_resolution_df26_and_df25() {
    let t = diamond();
    let a = t.workspace("/w/liba/LibA.sws").unwrap();
    let b = t.workspace("/w/libb/LibB.sws").unwrap();
    let r26 = t.resolve_workspace_dependency_df26(WorkspaceDependency::Ambiguous(vec![b, a]));
    assert_eq!(r26.sort_order(), 1);
    assert_eq!(r26.to_string(), "LibA.sws, LibB.sws");
    let r25 = t.resolve_workspace_dependency_df25(WorkspaceDependency::Ambiguous(vec![b, a]));
    assert_eq!(r25.sort_order(), 5);
    assert_eq!(r25.to_string(), "LibA.sws");
}

#[test]
fn resolution_leaves_other_kinds_alone() {
    let t = diamond();
    let c = t.workspace("/w/libc/LibC.sws").unwrap();
    let r = t.resolve_workspace_dependency_df26(WorkspaceDependency::Reverse(c));
    assert_eq!(r.sort_order(), 3);
    assert_eq!(r.to_string(), "LibC.sws");
}

#[test]
fn resolution_follows_the_first_declaring_workspace() {
    let t = diamond();
    let a = t.workspace("/w/liba/LibA.sws").unwrap();
    let c = t.workspace("/w/libc/LibC.sws").unwrap();
    let r = t.resolve_workspace_dependency_df26(WorkspaceDependency::Ambiguous(vec![c, a]));
    assert_eq!(r.sort_order(), 5);
    assert_eq!(r.to_string(), "LibA.sws");
}

#[test]
fn resolution_sets_aside_candidates_reached_through_another() {
    let app = content(ws("/w/app/App.sws", &["/w/a/A.sws", "/w/c/C.sws", "/w/d/D.sws"]), vec![]);
    let a = content(ws("/w/a/A.sws", &["/w/c/C.sws"]), vec![]);
    let c = content(ws("/w/c/C.sws", &[]), vec![]);
    let d = content(ws("/w/d/D.sws", &[]), vec![]);
    let t = WorkspaceDependencyTree::new(app, vec![a, c, d]);
    let aw = t.workspace("/w/a/A.sws").unwrap();
    let cw = t.workspace("/w/c/C.sws").unwrap();
    let dw = t.workspace("/w/d/D.sws").unwrap();
    let r = t.resolve_workspace_dependency_df26(WorkspaceDependency::Ambiguous(vec![cw, aw]));
    assert_eq!(r.sort_order(), 5);
    assert_eq!(r.to_string(), "A.sws");
    let r = t.resolve_workspace_dependency_df26(WorkspaceDependency::Ambiguous(vec![dw, cw, aw]));
    assert_eq!(r.sort_order(), 1);
    assert_eq!(r.to_string(), "A.sws, D.sws");
    let r = t.resolve_workspace_dependency_df25(WorkspaceDependency::Ambiguous(vec![dw, cw, aw]));
    assert_eq!(r.sort_order(), 5);
    assert_eq!(r.to_string(), "A.sws");
}

#[test]
fn undeclared_candidates_stay_ambiguous() {
    let app = content(ws("/w/app/App.sws", &[]), vec![]);
    let x = content(ws("/w/x/X.sws", &[]), vec![]);
    let y = content(ws("/w/y/Y.sws", &[]), vec![]);
    let t = WorkspaceDependencyTree::new(app, vec![x, y]);
    let xw = t.workspace("/w/x/X.sws").unwrap();
    let yw = t.workspace("/w/y/Y.sws").unwrap();
    let r = t.resolve_workspace_dependency_df25(WorkspaceDependency::Ambiguous(vec![yw, xw]));
    assert_eq!(r.sort_order(), 1);
    assert_eq!(r.to_string(), "Y.sws, X.sws");
}

/// App declares A and B; A declares C, which declares X1, and B declares X2;
/// X1 and X2 both hold f.pkg. Breadth-first, B is searched before C; depth-first, C before B.
fn conflict() -> WorkspaceDependencyTree {
    let app = content(
        ws("/w/app/App.sws", &["/w/a/A.sws", "/w/b/B.sws"]),
        vec![src("/w/app/AppSrc/main.src", &["f.pkg"])],
    );
    let a = content(ws("/w/a/A.sws", &["/w/c/C.sws"]), vec![]);
    let b = content(ws("/w/b/B.sws", &["/w/x2/X2.sws"]), vec![]);
    let c = content(ws("/w/c/C.sws", &["/w/x1/X1.sws"]), vec![]);
    let x1 = content(ws("/w/x1/X1.sws", &[]), vec![src("/w/x1/AppSrc/f.pkg", &[])]);
    let x2 = content(ws("/w/x2/X2.sws", &[]), vec![src("/w/x2/AppSrc/f.pkg", &[])]);
    WorkspaceDependencyTree::new(app, vec![a, b, c, x1, x2])
}

#[test]
fn breadth_first_and_depth_first_orders_conflict() {
    let t = conflict();
    let calc = t.calculated_workspace_dependencies(t.root_workspace());
    assert_eq!(texts(&calc), vec!["X2.sws / X1.sws"]);
    assert_eq!(kinds(&calc), vec![2]);
    assert_eq!(names_of(&calc[0].all()), vec!["X2.sws", "X1.sws"]);
}

#[test]
fn duplicate_file_names_sorted_ignoring_case() {
    let app = content(
        ws("/w/app/App.sws", &["/w/x/X.sws"]),
        vec![src("/w/app/AppSrc/b.pkg", &[]), src("/w/app/AppSrc/A.pkg", &[]), src("/w/app/AppSrc/only.pkg", &[])],
    );
    let x = content(ws("/w/x/X.sws", &[]), vec![src("/w/x/AppSrc/B.PKG", &[]), src("/w/x/AppSrc/a.pkg", &[])]);
    let t = WorkspaceDependencyTree::new(app, vec![x]);
    let dups = t.all_duplicate_filenames();
    let shown: Vec<(String, String)> = dups.iter().map(|(f, d)| (f.to_string(), d.to_string())).collect();
    assert_eq!(
        shown,
        vec![
            ("A.pkg".to_string(), "App.sws, X.sws".to_string()),
            ("b.pkg".to_string(), "App.sws, X.sws".to_string()),
        ]
    );
}

#[test]
fn source_file_lookup_ignores_case() {
    let t = diamond();
    let b = t.workspace("/w/libb/LibB.sws").unwrap();
    let f = t.source_file_in_workspace(&FileName::from_str("dup.PKG"), b);
    assert_eq!(f, Some(&"/w/libb/AppSrc/DUP.pkg".to_string()));
    assert!(t.source_file_in_workspace(&FileName::from_str("a.pkg"), b).is_none());
}

#[test]
fn source_analysis_lists_files_using_the_dependency() {
    let t = diamond();
    let app = t.root_workspace();
    let a = t.workspace("/w/liba/LibA.sws").unwrap();
    let b = t.workspace("/w/libb/LibB.sws").unwrap();
    let files = t.analyze_source_dependency(app, &WorkspaceDependency::Ambiguous(vec![a, b])).unwrap();
    assert_eq!(files.len(), 1);
    assert_eq!(files[0].path, "/w/app/AppSrc/main.src");
    assert_eq!(files[0].dependencies.iter().map(|n| n.to_string()).collect::<Vec<_>>(), vec!["dup.pkg"]);
    let c = t.workspace("/w/libc/LibC.sws").unwrap();
    assert!(t.analyze_source_dependency(c, &WorkspaceDependency::Dependency(a)).is_none());
}

#[test]
fn tree_later_workspace_with_same_path_replaces_earlier() {
    let app = content(ws("/w/app/App.sws", &["/w/x/X.sws"]), vec![]);
    let x1 = content(ws("/w/x/X.sws", &["/w/old.sws"]), vec![]);
    let x2 = content(ws("/w//x/X.sws", &["/w/new.sws"]), vec![]);
    let t = WorkspaceDependencyTree::new(app, vec![x1, x2]);
    assert_eq!(t.len(), 2);
    assert_eq!(t.workspace("/w/x/X.sws").unwrap().dependencies, vec!["/w/new.sws"]);
    let (root, deps) = t.to_root_workspace_and_dependencies();
    assert_eq!(root.sws_path, "/w/app/App.sws");
    assert_eq!(deps.len(), 1);
    assert_eq!(deps[0].sws_path, "/w//x/X.sws");
}

#[test]
fn checked_tree_needs_named_workspaces() {
    let app = content(ws("/w/app/App.sws", &[]), vec![]);
    let bad = content(ws("/", &[]), vec![]);
    assert!(WorkspaceDependencyTree::new_checked(app, vec![bad]).is_none());
    let app = content(ws("/w/app/App.sws", &[]), vec![]);
    assert!(WorkspaceDependencyTree::new_checked(app, vec![]).is_some());
}

#[test]
fn dependency_kinds_rank_and_color() {
    let w = ws("/w/x/X.sws", &[]);
    let d = WorkspaceDependency::Dependency(&w);
    let m = WorkspaceDependency::Missing(&w);
    let r = WorkspaceDependency::Reverse(&w);
    let c = WorkspaceDependency::Conflicting(&w, &w);
    let a = WorkspaceDependency::Ambiguous(vec![&w]);
    assert_eq!(
        vec![d.sort_order(), m.sort_order(), r.sort_order(), c.sort_order(), a.sort_order()],
        vec![5, 4, 3, 2, 1]
    );
    assert_eq!(d.color(), colored::Color::Green);
    assert_eq!(m.color(), colored::Color::Yellow);
    assert_eq!(r.color(), colored::Color::Yellow);
    assert_eq!(c.color(), colored::Color::Red);
    assert_eq!(a.color(), colored::Color::Red);
    assert_eq!(c.to_string(), "X.sws / X.sws");
    assert_eq!(a.all().len(), 1);
}

#[test]
fn every_implied_dependency_is_backed_by_a_source_file() {
    let t = diamond();
    for w in t.all_workspaces() {
        for d in t.calculated_workspace_dependencies(w) {
            assert!(t.analyze_source_dependency(w, &d).is_some());
        }
    }
    let t = conflict();
    let calc = t.calculated_workspace_dependencies(t.root_workspace());
    let files = t.analyze_source_dependency(t.root_workspace(), &calc[0]).unwrap();
    assert_eq!(files[0].path, "/w/app/AppSrc/main.src");
}

#[test]
fn depth_first_search_follows_declaration_order() {
    let a = content(ws("/w/A.sws", &["/w/B.sws", "/w/C.sws"]), vec![]);
    let b = content(ws("/w/B.sws", &["/w/X1.sws"]), vec![]);
    let c = content(ws("/w/C.sws", &["/w/X2.sws"]), vec![]);
    let t = WorkspaceDependencyTree::new(a, vec![b, c]);
    let x1 = ws("/w/X1.sws", &[]);
    let x2 = ws("/w/X2.sws", &[]);
    let r = t.resolve_workspace_dependency_df25(WorkspaceDependency::Ambiguous(vec![&x1, &x2]));
    match r {
        WorkspaceDependency::Dependency(w) => assert!(std::ptr::eq(w, &x1)),
        _ => panic!("expected a pick"),
    }
    let r = t.resolve_workspace_dependency_df25(WorkspaceDependency::Ambiguous(vec![&x2, &x1]));
    assert_eq!(r.to_string(), "X1.sws");
}

#[test]
fn two_files_of_one_workspace_are_not_ambiguous() {
    let app = content(ws("/w/app/App.sws", &["/w/w/W.sws"]), vec![src("/w/app/AppSrc/main.src", &["x.pkg"])]);
    let w = content(
        ws("/w/w/W.sws", &[]),
        vec![src("/w/w/AppSrc/x.pkg", &[]), src("/w/w/DdSrc/X.PKG", &[])],
    );
    let t = WorkspaceDependencyTree::new(app, vec![w]);
    let calc = t.calculated_workspace_dependencies(t.root_workspace());
    assert_eq!(texts(&calc), vec!["W.sws"]);
    assert_eq!(kinds(&calc), vec![5]);
    assert!(t.all_duplicate_filenames().is_empty());
}
