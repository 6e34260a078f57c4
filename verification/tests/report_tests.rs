use dflibanalyzer::report::{
    conflict_candidate_paths, conflicting_files, dependency_issue, dependency_issues, workspace_dependency_tree,
    DependencyIssue, DependencyNode,
};
use dflibanalyzer::source_scan::{FileName, SourceFile};
use dflibanalyzer::workspace::Workspace;
use dflibanalyzer::workspace_tree::{WorkspaceContent, WorkspaceDependency, WorkspaceDependencyTree};

fn ws(path: &str, deps: &[&str]) -> Workspace {
    Workspace {
        sws_path: path.to_string(),
        _df_version: None,
        appsrc_path: Vec::new(),
        ddsrc_path: Vec::new(),
        dependencies: deps.iter().map(|d| d.to_string()).collect(),
    }
}

fn src(path: &str, uses: &[&str]) -> SourceFile {
    SourceFile { path: path.to_string(), dependencies: uses.iter().map(|u| FileName::from_str(u)).collect() }
}

fn content(w: Workspace, files: Vec<SourceFile>) -> WorkspaceContent {
    WorkspaceContent { workspace: w, source_files: files }
}

fn diamond() -> WorkspaceDependencyTree {
    let app = content(
        ws("/w/app/App.sws", &["/w/liba/LibA.sws", "/w/libb/LibB.sws"]),
        vec![src("/w/app/AppSrc/main.src", &["a.pkg", "C.PKG", "dup.pkg", "b.inc", "nowhere.pkg"])],
    );
    let liba = content(
        ws("/w/liba/LibA.sws", &["/w/libc/LibC.sws"]),
        vec![src("/w/liba/AppSrc/a.pkg", &["c.pkg"]), src("/w/liba/AppSrc/dup.pkg", &[])],
    );
    let libb = content(
        ws("/w/libb/LibB.sws", &["/w/libc/LibC.sws"]),
        vec![src("/w/libb/AppSrc/b.inc", &["a.pkg"]), src("/w/libb/AppSrc/DUP.pkg", &[])],
    );
    let libc = content(ws("/w/libc/LibC.sws", &[]), vec![src("/w/libc/AppSrc/c.pkg", &["main.src"])]);
    WorkspaceDependencyTree::new(app, vec![liba, libb, libc])
}

fn conflict() -> WorkspaceDependencyTree {
    let app = content(
        ws("/w/app/App.sws", &["/w/a/A.sws", "/w/b/B.sws"]),
        vec![src("/w/app/AppSrc/main.src", &["f.pkg"])],
    );
    let a = content(ws("/w/a/A.sws", &["/w/c/C.sws"]), vec![]);
    let b = content(ws("/w/b/B.sws", &["/w/x2/X2.sws"]), vec![]);
    let c = content(ws("/w/c/C.sws", &["/w/x1/X1.sws"]), vec![]);
    let x1 = content(ws("/w/x1/X1.sws", &[]), vec![src("/w/x1/AppSrc/f.pkg", &[])]);
    let x2 = content(ws("/w/x2/X2.sws", &[]), vec![src("/w/x2/AppSrc/f.pkg", &[])]);
    WorkspaceDependencyTree::new(app, vec![a, b, c, x1, x2])
}

/// App declares A and the libraries L1..Ln; A declares the libraries too; every library holds f.pkg.
fn redundant(n: usize) -> WorkspaceDependencyTree {
    let libs: Vec<String> = (1..=n).map(|i| format!("/w/l{i}/L{i}.sws")).collect();
    let lib_refs: Vec<&str> = libs.iter().map(|s| s.as_str()).collect();
    let mut app_deps = vec!["/w/a/A.sws"];
    app_deps.extend(lib_refs.iter().copied());
    let app = content(ws("/w/app/App.sws", &app_deps), vec![src("/w/app/AppSrc/main.src", &["f.pkg"])]);
    let a = content(ws("/w/a/A.sws", &lib_refs), vec![]);
    let mut rest = vec![a];
    for (i, l) in libs.iter().enumerate() {
        rest.push(content(ws(l, &[]), vec![src(&format!("/w/l{}/AppSrc/f.pkg", i + 1), &[])]));
    }
    WorkspaceDependencyTree::new(app, rest)
}

fn strs(v: &[&str]) -> Vec<String> {
    v.iter().map(|s| s.to_string()).collect()
}

fn shape(n: &DependencyNode) -> String {
    let children: Vec<String> = n.dependencies.iter().map(shape).collect();
    format!(
        "{}[{}]a{:?}c{:?}r{:?}m{:?}",
        n.name,
        children.join(","),
        n.ambiguous_use,
        n.conflicting_use,
        n.reverse_use,
        n.missing_dependencies
    )
}

fn describe(i: &DependencyIssue) -> (String, String, Vec<String>) {
    (i.description.clone(), i.workspace.clone(), i.related_workspaces.clone())
}

#[test]
fn dependency_tree_shows_each_workspace_once() {
    let t = diamond();
    let node = workspace_dependency_tree(&t);
    assert_eq!(
        shape(&node),
        "App.sws[LibA.sws[LibC.sws[]a[]c[]r[\"App.sws\"]m[]]a[]c[]r[]m[],LibB.sws[LibC.sws[]a[]c[]r[]m[]]a[]c[]r[]m[\"LibA.sws\"]]a[\"LibA.sws, LibB.sws\"]c[]r[]m[]"
    );
}

#[test]
fn dependency_tree_shows_conflicts() {
    let t = conflict();
    let node = workspace_dependency_tree(&t);
    assert_eq!(node.conflicting_use, strs(&["X2.sws / X1.sws"]));
    assert_eq!(node.dependencies.len(), 2);
    assert_eq!(node.dependencies[0].dependencies[0].name, "C.sws");
    assert_eq!(node.dependencies[0].dependencies[0].dependencies[0].name, "X1.sws");
}

#[test]
fn issues_of_the_diamond() {
    let t = diamond();
    let (errors, warnings) = dependency_issues(&t);
    assert_eq!(errors.len(), 1);
    let e = &errors[0];
    assert_eq!(describe(e), ("Ambiguous Use references.".to_string(), "App.sws".to_string(), strs(&["LibA.sws", "LibB.sws"])));
    assert_eq!(e.df26, Some("(Unresolved)".to_string()));
    assert_eq!(e.df25, Some("LibA.sws".to_string()));
    assert_eq!(e.impacted_files, strs(&["/w/app/AppSrc/main.src"]));
    assert_eq!(e.referenced_files, strs(&["/w/liba/AppSrc/dup.pkg", "/w/libb/AppSrc/DUP.pkg"]));
    assert_eq!(e.suggestions, strs(&["Consider pushing down LibB.sws in the dependency tree"]));
    assert_eq!(warnings.len(), 2);
    let m = &warnings[0];
    assert_eq!(describe(m), ("Missing library dependency.".to_string(), "LibB.sws".to_string(), strs(&["LibA.sws"])));
    assert_eq!(m.df26, None);
    assert_eq!(m.impacted_files, strs(&["/w/libb/AppSrc/b.inc"]));
    assert_eq!(m.referenced_files, strs(&["/w/liba/AppSrc/a.pkg"]));
    assert_eq!(m.suggestions, strs(&["Consider adding LibA.sws as a library dependency to LibB.sws"]));
    let r = &warnings[1];
    assert_eq!(describe(r), ("Reverse Use references.".to_string(), "LibC.sws".to_string(), strs(&["App.sws"])));
    assert_eq!(r.impacted_files, strs(&["/w/libc/AppSrc/c.pkg"]));
    assert_eq!(r.referenced_files, strs(&["/w/app/AppSrc/main.src"]));
    assert_eq!(r.suggestions, strs(&["Consider moving impacted files from LibC.sws up the tree to App.sws"]));
}

#[test]
fn missing_dependency_issue_for_a_workspace() {
    let t = diamond();
    let b = t.workspace("/w/libb/LibB.sws").unwrap();
    let a = t.workspace("/w/liba/LibA.sws").unwrap();
    let i = dependency_issue(b, &WorkspaceDependency::Missing(a), &t).unwrap();
    assert_eq!(i.impacted_files, strs(&["/w/libb/AppSrc/b.inc"]));
    assert_eq!(i.referenced_files, strs(&["/w/liba/AppSrc/a.pkg"]));
    assert_eq!(i.suggestions, strs(&["Consider adding LibA.sws as a library dependency to LibB.sws"]));
    assert!(dependency_issue(b, &WorkspaceDependency::Dependency(a), &t).is_none());
}

#[test]
fn conflicting_resolution_issue() {
    let t = conflict();
    let (errors, warnings) = dependency_issues(&t);
    assert!(warnings.is_empty());
    assert_eq!(errors.len(), 1);
    let e = &errors[0];
    assert_eq!(describe(e), ("Conflicting File Resolution.".to_string(), "App.sws".to_string(), strs(&["X2.sws", "X1.sws"])));
    assert_eq!(e.df26, Some("X2.sws".to_string()));
    assert_eq!(e.df25, Some("X1.sws".to_string()));
    assert_eq!(e.impacted_files, strs(&["/w/app/AppSrc/main.src"]));
    assert_eq!(e.referenced_files, strs(&["/w/x2/AppSrc/f.pkg", "/w/x1/AppSrc/f.pkg"]));
    assert_eq!(
        e.suggestions,
        strs(&[
            "Consider whether it's possible to push X2.sws down in the dependency tree",
            "Manually merge and resolve the source file conflicts with the same name.",
        ])
    );
}

#[test]
fn redundant_declaration_suggests_removal() {
    let t = redundant(2);
    let (errors, _) = dependency_issues(&t);
    assert_eq!(errors.len(), 1);
    assert_eq!(errors[0].df25, Some("L1.sws".to_string()));
    assert_eq!(
        errors[0].suggestions,
        strs(&["Consider removing L2.sws as a library dependency to App.sws. It's already included via indirect dependencies."])
    );
    let t = redundant(3);
    let (errors, _) = dependency_issues(&t);
    assert_eq!(
        errors[0].suggestions,
        strs(&["Consider removing L2.sws, L3.sws as library dependencies to App.sws. They're already included via indirect dependencies."])
    );
}

#[test]
fn conflicting_files_group_identical_contents() {
    let t = diamond();
    let paths = conflict_candidate_paths(&t);
    assert_eq!(paths, vec![strs(&["/w/liba/AppSrc/dup.pkg", "/w/libb/AppSrc/DUP.pkg"])]);
    let read = vec![
        ("/w/liba/AppSrc/dup.pkg".to_string(), Some(b"same".to_vec())),
        ("/w/libb/AppSrc/DUP.pkg".to_string(), Some(b"same".to_vec())),
    ];
    let files = conflicting_files(&t, &read);
    assert_eq!(files.len(), 1);
    let f = &files[0];
    assert_eq!(f.name, "dup.pkg");
    assert_eq!(f.df26, "(Unresolved)");
    assert_eq!(f.df25, "LibA.sws");
    let c: Vec<(String, String, usize)> =
        f.candidates.iter().map(|c| (c.workspace.clone(), c.path.clone(), c.group)).collect();
    assert_eq!(
        c,
        vec![
            ("LibA.sws".to_string(), "/w/liba/AppSrc/dup.pkg".to_string(), 0),
            ("LibB.sws".to_string(), "/w/libb/AppSrc/DUP.pkg".to_string(), 0),
        ]
    );
}

#[test]
fn conflicting_files_with_different_or_unread_contents() {
    let t = diamond();
    let read = vec![
        ("/w/liba/AppSrc/dup.pkg".to_string(), Some(b"b".to_vec())),
        ("/w/libb/AppSrc/DUP.pkg".to_string(), Some(b"a".to_vec())),
    ];
    let groups: Vec<usize> = conflicting_files(&t, &read)[0].candidates.iter().map(|c| c.group).collect();
    assert_eq!(groups, vec![1, 0]);
    let read = vec![("/w/liba/AppSrc/dup.pkg".to_string(), None)];
    let groups: Vec<usize> = conflicting_files(&t, &read)[0].candidates.iter().map(|c| c.group).collect();
    assert_eq!(groups, vec![0, 1]);
}

#[test]
fn conflicting_file_resolved_by_both_orders() {
    let t = conflict();
    let files = conflicting_files(&t, &Vec::new());
    assert_eq!(files.len(), 1);
    assert_eq!(files[0].name, "f.pkg");
    assert_eq!(files[0].df26, "X2.sws");
    assert_eq!(files[0].df25, "X1.sws");
}
