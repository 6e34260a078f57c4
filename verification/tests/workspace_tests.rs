use dflibanalyzer::ini_doc::IniDoc;
use dflibanalyzer::options::Options;
use dflibanalyzer::workspace::{
    DependencyCrawler, JsonValue, JsonWorkspaceFile, JsonWorkspacePaths, PendingIniWorkspace, Workspace, WorkspaceLoad,
};

fn ready(l: Result<WorkspaceLoad, String>) -> Workspace {
    match l {
        Ok(WorkspaceLoad::Ready(w)) => w,
        _ => panic!("expected a workspace"),
    }
}

fn pending(l: Result<WorkspaceLoad, String>) -> PendingIniWorkspace {
    match l {
        Ok(WorkspaceLoad::NeedsConfig(p)) => p,
        _ => panic!("expected a configuration step"),
    }
}

fn ws(path: &str, deps: &[&str]) -> Workspace {
    Workspace {
        sws_path: path.to_string(),
        _df_version: None,
        appsrc_path: Vec::new(),
        ddsrc_path: Vec::new(),
        dependencies: deps.iter().map(|d| d.to_string()).collect(),
    }
}

#[test]
fn unreadable_description_gives_open_error() {
    let r = Workspace::new(&"/w/App.sws".to_string(), Err("No such file".to_string()), None);
    match r {
        Err(m) => assert_eq!(m, "Couldn't open workspace file '/w/App.sws': No such file"),
        _ => panic!("expected an error"),
    }
}

#[test]
fn neither_json_nor_ini_gives_unrecognized_error() {
    let r = Workspace::new(&"/w/App.sws".to_string(), Ok("[unclosed\n".to_string()), None);
    match r {
        Err(m) => assert_eq!(m, "Couldn't read workspace file '/w/App.sws': Unrecognized format"),
        _ => panic!("expected an error"),
    }
}

#[test]
fn json_description_with_paths_and_dependencies() {
    let j = JsonWorkspaceFile {
        dependencies: Some(vec![
            JsonValue::Str("../lib/Lib.sws".to_string()),
            JsonValue::Str("SomePackage".to_string()),
            JsonValue::Str("/abs/Other.sws".to_string()),
            JsonValue::Other,
        ]),
        paths: Some(JsonWorkspacePaths {
            app_src: Some(JsonValue::Array(vec![JsonValue::Str("Src".to_string()), JsonValue::Other])),
            dd_src: None,
        }),
    };
    let w = ready(Workspace::new(&"/w/app/App.sws".to_string(), Ok("{}".to_string()), Some(j)));
    assert_eq!(w.sws_path, "/w/app/App.sws");
    assert_eq!(w._df_version, None);
    assert_eq!(w.appsrc_path, vec!["/w/app/Src"]);
    assert_eq!(w.ddsrc_path, vec!["/w/app/DdSrc"]);
    assert_eq!(w.dependencies, vec!["/w/app/../lib/Lib.sws", "/abs/Other.sws"]);
    assert_eq!(w.name(), "App.sws");
}

#[test]
fn json_description_without_paths_uses_default_folders() {
    let j = JsonWorkspaceFile { dependencies: None, paths: None };
    let w = ready(Workspace::new(&"/w/app/App.sws".to_string(), Ok("{}".to_string()), Some(j)));
    assert_eq!(w.appsrc_path, vec!["/w/app/AppSrc"]);
    assert_eq!(w.ddsrc_path, vec!["/w/app/DdSrc"]);
    assert!(w.dependencies.is_empty());
}

#[test]
fn json_single_string_path() {
    let j = JsonWorkspaceFile {
        dependencies: None,
        paths: Some(JsonWorkspacePaths { app_src: None, dd_src: Some(JsonValue::Str("/data/dd".to_string())) }),
    };
    let w = ready(Workspace::new(&"/w/app/App.sws".to_string(), Ok("{}".to_string()), Some(j)));
    assert_eq!(w.ddsrc_path, vec!["/data/dd"]);
}

#[test]
fn ini_description_without_configuration() {
    let text = "[Properties]\nVersion=25.0\n[Libraries]\nLib1=../lib/Lib.sws\nLib2=/abs/Other.sws\n";
    let w = ready(Workspace::new(&"/w/app/App.sws".to_string(), Ok(text.to_string()), None));
    assert_eq!(w._df_version, Some("25.0".to_string()));
    assert_eq!(w.dependencies, vec!["/w/app/../lib/Lib.sws", "/abs/Other.sws"]);
    assert_eq!(w.appsrc_path, vec!["/w/app/AppSrc"]);
    assert_eq!(w.ddsrc_path, vec!["/w/app/DdSrc"]);
}

#[test]
fn ini_description_with_configuration() {
    let text = "[WorkspacePaths]\nConfigFile=Programs/Config.ws\n[Libraries]\nLib1=/abs/Lib.sws\n";
    let p = pending(Workspace::new(&"/w/app/App.sws".to_string(), Ok(text.to_string()), None));
    assert_eq!(p.config_path, "/w/app/Programs/Config.ws");
    assert_eq!(p.config_dir, "/w/app/Programs");
    let config = IniDoc::from_file_bytes(b"[Workspace]\nHome=..\nAppSrcPath=AppSrc;/shared/src\nDDSrcPath=DdSrc\n");
    let w = p.finish(config);
    assert_eq!(w.sws_path, "/w/app/App.sws");
    assert_eq!(w.dependencies, vec!["/abs/Lib.sws"]);
    assert_eq!(w.appsrc_path, vec!["/w/app/Programs/../AppSrc", "/shared/src"]);
    assert_eq!(w.ddsrc_path, vec!["/w/app/Programs/../DdSrc"]);
}

#[test]
fn configuration_without_workspace_section_uses_default_folders() {
    let text = "[WorkspacePaths]\nConfigFile=/cfg/Config.ws\n";
    let p = pending(Workspace::new(&"/w/app/App.sws".to_string(), Ok(text.to_string()), None));
    let w = p.finish(IniDoc::from_file_bytes(b"[Other]\nx=1\n"));
    assert_eq!(w.appsrc_path, vec!["/w/app/AppSrc"]);
    let text = "[WorkspacePaths]\nConfigFile=/cfg/Config.ws\n";
    let p = pending(Workspace::new(&"/w/app/App.sws".to_string(), Ok(text.to_string()), None));
    let w = p.finish(None);
    assert_eq!(w.ddsrc_path, vec!["/w/app/DdSrc"]);
}

#[test]
fn configuration_without_home_resolves_against_the_workspace_folder() {
    let text = "[WorkspacePaths]\nConfigFile=/cfg/Config.ws\n";
    let p = pending(Workspace::new(&"/w/app/App.sws".to_string(), Ok(text.to_string()), None));
    let w = p.finish(IniDoc::from_file_bytes(b"[Workspace]\nAppSrcPath=Src\n"));
    assert_eq!(w.appsrc_path, vec!["/w/app/Src"]);
    assert!(w.ddsrc_path.is_empty());
}

#[test]
fn checked_reading_needs_a_folder() {
    let no_entries = JsonWorkspaceFile { dependencies: None, paths: None };
    assert!(Workspace::new_checked(&"".to_string(), Ok("{}".to_string()), Some(no_entries)).is_none());
    assert!(Workspace::new_checked(&"".to_string(), Ok("[Properties]\nVersion=1".to_string()), None).is_none());
    match Workspace::new_checked(&"".to_string(), Ok("{}".to_string()), None) {
        Some(Err(m)) => assert_eq!(m, "Couldn't read workspace file '': Unrecognized format"),
        _ => panic!("text that is neither JSON nor INI is refused, folder or not"),
    }
    assert!(Workspace::new_checked(&"".to_string(), Err("gone".to_string()), None).is_some());
    assert!(Workspace::has_root_folder(&"/w/App.sws".to_string()));
    assert!(!Workspace::has_root_folder(&"/".to_string()));
}

#[test]
fn workspace_name_is_the_file_name() {
    let w = ws("/w/app/App.sws", &[]);
    assert!(w.has_name());
    assert_eq!(w.name(), "App.sws");
    assert!(!ws("/", &[]).has_name());
}

#[test]
fn source_dirs_are_app_then_dd() {
    let mut w = ws("/w/app/App.sws", &[]);
    w.appsrc_path = vec!["/a1".to_string(), "/a2".to_string()];
    w.ddsrc_path = vec!["/d1".to_string()];
    assert_eq!(w.source_dirs(), vec!["/a1", "/a2", "/d1"]);
}

#[test]
fn crawler_visits_each_path_once_and_stops_at_a_revisit() {
    let root = ws("/w/app/App.sws", &["/w/a/A.sws", "/w/b/B.sws"]);
    let mut c = DependencyCrawler::new(&root);
    assert_eq!(c.next(), Some("/w/a/A.sws".to_string()));
    c.loaded(&ws("/w/a/A.sws", &["/w/c/C.sws"]));
    assert_eq!(c.next(), Some("/w/b/B.sws".to_string()));
    c.loaded(&ws("/w/b/B.sws", &["/w//a/A.sws", "/w/d/D.sws"]));
    assert_eq!(c.next(), Some("/w/c/C.sws".to_string()));
    assert_eq!(c.next(), None);
}

#[test]
fn crawler_ends_when_the_queue_is_empty() {
    let root = ws("/w/app/App.sws", &[]);
    let mut c = DependencyCrawler::new(&root);
    assert_eq!(c.next(), None);
}

#[test]
fn ini_parser_reads_sections_in_order() {
    let doc = IniDoc::from_file_bytes(b"top=1\n[S]\na=x\n").unwrap();
    assert_eq!(doc.sections.len(), 2);
    assert_eq!(doc.sections[0].name, None);
    assert_eq!(doc.sections[1].name, Some("S".to_string()));
    assert_eq!(doc.sections[1].properties, vec![("a".to_string(), "x".to_string())]);
}

#[test]
fn options_are_kept_once() {
    let mut kept: Option<Options> = None;
    let first = Options { sws_file: "/w/App.sws".to_string(), verbose: true, json: false, recursive_scan: false };
    let second = Options { sws_file: "/w/Other.sws".to_string(), verbose: false, json: true, recursive_scan: true };
    let r = Options::init_current(&mut kept, first);
    assert_eq!(r.sws_file, "/w/App.sws");
    let r = Options::init_current(&mut kept, second);
    assert_eq!(r.sws_file, "/w/App.sws");
    assert!(r.verbose);
    assert_eq!(Options::current(&kept).sws_file, "/w/App.sws");
}

#[test]
fn ini_description_with_relative_configuration_and_home() {
    let text = "[WorkspacePaths]\nConfigFile=Config.ws\n";
    let p = pending(Workspace::new(&"/w/App.sws".to_string(), Ok(text.to_string()), None));
    assert_eq!(p.config_path, "/w/Config.ws");
    let w = p.finish(IniDoc::from_file_bytes(b"[Workspace]\nHome=/h\nAppSrcPath=AppSrc;/abs/Src2\nDDSrcPath=DdSrc\n"));
    assert_eq!(w.appsrc_path, vec!["/h/AppSrc", "/abs/Src2"]);
    assert_eq!(w.ddsrc_path, vec!["/h/DdSrc"]);
    assert!(w.dependencies.is_empty());
}
