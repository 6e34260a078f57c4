//! Workspaces: what a `.sws` workspace description says, read from its JSON
//! or INI form, and the walk that finds the library workspaces it depends on.
use vstd::prelude::*;
use crate::ini_doc::{ini_get, ini_load, ini_parse, ini_values, IniDoc};
use crate::paths::{
    file_name_of, is_absolute_path, joined, parent_of, path_file_name, path_is_absolute,
    path_join, path_key, path_parent, path_identity, resolve_path, resolved_against,
};
use crate::text::{chars_of, chars_start_with, concat, contains_string, split_on, split_str, strings_of};

verus! {

/// A workspace: the path of its `.sws` description, the DataFlex version it
/// names, the folders that hold its sources, and the `.sws` paths of the
/// library workspaces it declares as dependencies.
#[derive(Debug)]
pub struct Workspace {
    pub sws_path: String,
    pub _df_version: Option<String>,
    pub appsrc_path: Vec<String>,
    pub ddsrc_path: Vec<String>,
    pub dependencies: Vec<String>,
}

/// A JSON value, as far as a workspace description is read: a string, an
/// array, or something else.
#[derive(Debug)]
pub enum JsonValue {
    Str(String),
    Array(Vec<JsonValue>),
    Other,
}

/// The `paths` object of a JSON workspace description.
#[derive(Debug)]
pub struct JsonWorkspacePaths {
    pub app_src: Option<JsonValue>,
    pub dd_src: Option<JsonValue>,
}

/// A JSON workspace description.
#[derive(Debug)]
pub struct JsonWorkspaceFile {
    pub dependencies: Option<Vec<JsonValue>>,
    pub paths: Option<JsonWorkspacePaths>,
}

/// The outcome of the first step of reading a workspace description: the
/// workspace, or, for an INI description that names a configuration file, what
/// is known before that file is read.
#[derive(Debug)]
pub enum WorkspaceLoad {
    Ready(Workspace),
    NeedsConfig(PendingIniWorkspace),
}

/// An INI workspace whose configuration file is still to be read.
#[derive(Debug)]
pub struct PendingIniWorkspace {
    pub sws_path: String,
    pub df_version: Option<String>,
    pub libraries: Vec<String>,
    pub root_folder: String,
    /// The configuration file to read.
    pub config_path: String,
    /// The folder that holds the configuration file.
    pub config_dir: String,
}

/// `JsonValue::as_str`.
pub open spec fn json_str(v: JsonValue) -> Option<Seq<char>> {
    match v {
        JsonValue::Str(s) => Some(s@),
        _ => None,
    }
}

/// The strings among a list of JSON values, in order.
pub open spec fn json_strs(vs: Seq<JsonValue>) -> Seq<Seq<char>>
    decreases vs.len(),
{
    if vs.len() == 0 {
        Seq::empty()
    } else {
        let init = json_strs(vs.drop_last());
        match json_str(vs.last()) {
            Some(s) => init.push(s),
            None => init,
        }
    }
}

/// The paths a `paths.appSrc` or `paths.ddSrc` value lists: one string, or
/// the strings of an array.
pub open spec fn json_path_list(v: Option<JsonValue>) -> Seq<Seq<char>> {
    match v {
        Some(JsonValue::Str(s)) => seq![s@],
        Some(JsonValue::Array(items)) => json_strs(items@),
        _ => Seq::empty(),
    }
}

/// Whether a JSON dependency entry is a path: it starts with `..` or `/`.
pub open spec fn is_dependency_path(s: Seq<char>) -> bool {
    (s.len() >= 2 && s[0] == '.' && s[1] == '.') || (s.len() >= 1 && s[0] == '/')
}

/// The entries of a string list that are dependency paths, in order.
pub open spec fn dependency_paths(ss: Seq<Seq<char>>) -> Seq<Seq<char>>
    decreases ss.len(),
{
    if ss.len() == 0 {
        Seq::empty()
    } else {
        let init = dependency_paths(ss.drop_last());
        if is_dependency_path(ss.last()) {
            init.push(ss.last())
        } else {
            init
        }
    }
}

/// The dependency paths that a JSON description lists.
pub open spec fn json_dependency_inputs(j: JsonWorkspaceFile) -> Seq<Seq<char>> {
    match j.dependencies {
        Some(vs) => dependency_paths(json_strs(vs@)),
        None => Seq::empty(),
    }
}

/// `outs` is what resolving each of `ins` against `base`, as
/// `resolved_against` describes, gives, in order, with the paths that could
/// not be resolved dropped.
pub open spec fn resolved_list(base: Seq<char>, ins: Seq<Seq<char>>, outs: Seq<Seq<char>>) -> bool
    decreases ins.len(),
{
    if ins.len() == 0 {
        outs.len() == 0
    } else {
        let p = ins.last();
        ||| (resolved_against(base, p, None) && resolved_list(base, ins.drop_last(), outs))
        ||| (outs.len() > 0 && resolved_against(base, p, Some(outs.last())) && resolved_list(
            base,
            ins.drop_last(),
            outs.drop_last(),
        ))
    }
}

/// `dirs` is the resolved list of `ins`, or, when that is empty, the single
/// default folder `default`.
pub open spec fn resolved_or_default(base: Seq<char>, ins: Seq<Seq<char>>, dirs: Seq<Seq<char>>, default: Seq<char>) -> bool {
    (dirs.len() > 0 && resolved_list(base, ins, dirs)) || (resolved_list(base, ins, Seq::empty()) && dirs
        == seq![default])
}

/// The name of the default source folder.
pub open spec fn app_src_name() -> Seq<char> {
    seq!['A', 'p', 'p', 'S', 'r', 'c']
}

/// The name of the default data dictionary folder.
pub open spec fn dd_src_name() -> Seq<char> {
    seq!['D', 'd', 'S', 'r', 'c']
}

impl Workspace {
    /// The source folders, as text.
    pub open spec fn appsrc(&self) -> Seq<Seq<char>> {
        strings_of(self.appsrc_path@)
    }

    /// The data dictionary folders, as text.
    pub open spec fn ddsrc(&self) -> Seq<Seq<char>> {
        strings_of(self.ddsrc_path@)
    }

    /// The declared dependencies, as text.
    pub open spec fn deps(&self) -> Seq<Seq<char>> {
        strings_of(self.dependencies@)
    }

    /// The workspace that a JSON description at `sws` in folder `root` describes.
    pub open spec fn is_json_workspace(&self, sws: Seq<char>, root: Seq<char>, j: JsonWorkspaceFile) -> bool {
        let (app, dd) = match j.paths {
            Some(p) => (json_path_list(p.app_src), json_path_list(p.dd_src)),
            None => (Seq::empty(), Seq::empty()),
        };
        &&& self.sws_path@ == sws
        &&& self._df_version is None
        &&& resolved_or_default(root, app, self.appsrc(), joined(root, app_src_name()))
        &&& resolved_or_default(root, dd, self.ddsrc(), joined(root, dd_src_name()))
        &&& resolved_list(root, json_dependency_inputs(j), self.deps())
    }

    /// The workspace that an INI description without a usable configuration
    /// file describes.
    pub open spec fn is_plain_ini_workspace(
        &self,
        sws: Seq<char>,
        root: Seq<char>,
        version: Option<Seq<char>>,
        libraries: Seq<Seq<char>>,
    ) -> bool {
        &&& self.sws_path@ == sws
        &&& crate::ini_doc::opt_view(self._df_version) == version
        &&& self.appsrc() == seq![joined(root, app_src_name())]
        &&& self.ddsrc() == seq![joined(root, dd_src_name())]
        &&& self.deps() == libraries
    }

    /// The path of this workspace's description has a file name, which is
    /// the workspace's name.
    pub open spec fn has_name_spec(&self) -> bool {
        file_name_of(self.sws_path@) is Some
    }

    /// Whether this workspace has a name.
    pub fn has_name(&self) -> (r: bool)
        ensures
            r == self.has_name_spec(),
    {
        path_file_name(self.sws_path.as_str()).is_some()
    }

    /// The workspace's name: the file name of its description.
    pub fn name(&self) -> (r: String)
        requires
            self.has_name_spec(),
        ensures
            r@ == file_name_of(self.sws_path@).unwrap(),
    {
        match path_file_name(self.sws_path.as_str()) {
            Some(n) => n,
            None => {
                proof { assert(false); }
                String::new()
            },
        }
    }

    /// The folders whose source files belong to this workspace: the source
    /// folders, then the data dictionary folders.
    pub fn source_dirs(&self) -> (r: Vec<String>)
        ensures
            strings_of(r@) == self.appsrc() + self.ddsrc(),
    {
        let mut r = crate::text::copy_strings(&self.appsrc_path);
        let mut d = crate::text::copy_strings(&self.ddsrc_path);
        r.append(&mut d);
        assert(strings_of(r@) =~= self.appsrc() + self.ddsrc());
        r
    }
}

} // verus!

verus! {

/// Resolves every path of `ins` against `base`, dropping those that fail.
pub fn resolve_all(base: &String, ins: &Vec<String>) -> (r: Vec<String>)
    ensures
        resolved_list(base@, strings_of(ins@), strings_of(r@)),
{
    let mut out: Vec<String> = Vec::new();
    let mut i: usize = 0;
    while i < ins.len()
        invariant
            0 <= i <= ins.len(),
            resolved_list(base@, strings_of(ins@).take(i as int), strings_of(out@)),
        decreases ins.len() - i,
    {
        let ghost prev = strings_of(out@);
        proof {
            assert(strings_of(ins@).take(i + 1).drop_last() =~= strings_of(ins@).take(i as int));
            assert(strings_of(ins@).take(i + 1).last() == ins@[i as int]@);
        }
        match resolve_path(base.as_str(), ins[i].as_str()) {
            Some(a) => {
                out.push(a);
                assert(strings_of(out@) =~= prev.push(a@));
                assert(strings_of(out@).drop_last() =~= prev);
            },
            None => {},
        }
        i += 1;
    }
    assert(strings_of(ins@).take(ins.len() as int) =~= strings_of(ins@));
    out
}

/// The strings among a list of JSON values, in order.
pub fn json_strings(vs: &Vec<JsonValue>) -> (r: Vec<String>)
    ensures
        strings_of(r@) == json_strs(vs@),
{
    let mut out: Vec<String> = Vec::new();
    let mut i: usize = 0;
    while i < vs.len()
        invariant
            0 <= i <= vs.len(),
            strings_of(out@) == json_strs(vs@.take(i as int)),
        decreases vs.len() - i,
    {
        let ghost prev = strings_of(out@);
        proof {
            assert(vs@.take(i + 1).drop_last() =~= vs@.take(i as int));
            assert(vs@.take(i + 1).last() == vs@[i as int]);
        }
        match &vs[i] {
            JsonValue::Str(s) => {
                out.push(s.clone());
                assert(strings_of(out@) =~= prev.push(s@));
            },
            _ => {},
        }
        i += 1;
    }
    assert(vs@.take(vs.len() as int) =~= vs@);
    out
}

/// The strings that a list of JSON values holds, in order.
pub open spec fn string_items(vs: Seq<JsonValue>) -> Seq<Seq<char>> {
    vs.filter_map(|x: JsonValue| json_str(x))
}

/// The strings among a list of JSON values are those the values hold, in order.
proof fn lemma_json_strs_are_the_strings(vs: Seq<JsonValue>)
    ensures
        json_strs(vs) == string_items(vs),
    decreases vs.len(),
{
    if vs.len() > 0 {
        lemma_json_strs_are_the_strings(vs.drop_last());
        let rest = string_items(vs.drop_last());
        match json_str(vs.last()) {
            Some(t) => assert(rest.push(t) =~= rest + seq![t]),
            None => {},
        }
    }
}

/// Every string held by a list of JSON values is among its strings.
proof fn lemma_json_strs_contain(vs: Seq<JsonValue>, k: int)
    requires
        0 <= k < vs.len(),
        vs[k] is Str,
    ensures
        json_strs(vs).contains(json_str(vs[k]).unwrap()),
    decreases vs.len(),
{
    let init = json_strs(vs.drop_last());
    if k == vs.len() - 1 {
        assert(json_strs(vs) == init.push(json_str(vs[k]).unwrap()));
        assert(json_strs(vs)[init.len() as int] == json_str(vs[k]).unwrap());
    } else {
        assert(vs.drop_last()[k] == vs[k]);
        lemma_json_strs_contain(vs.drop_last(), k);
        let i = choose|i: int| 0 <= i < init.len() && init[i] == json_str(vs[k]).unwrap();
        assert(json_strs(vs)[i] == init[i]);
    }
}

/// An `appSrc` or `ddSrc` array lists every string it holds, in order, and
/// nothing else: one folder per string element.
pub proof fn lemma_json_array_paths(items: Vec<JsonValue>)
    ensures
        json_path_list(Some(JsonValue::Array(items))) == string_items(items@),
        forall|k: int|
            0 <= k < items@.len() && #[trigger] items@[k] is Str ==> json_path_list(
                Some(JsonValue::Array(items)),
            ).contains(json_str(items@[k]).unwrap()),
{
    lemma_json_strs_are_the_strings(items@);
    assert forall|k: int| 0 <= k < items@.len() && #[trigger] items@[k] is Str implies json_path_list(
        Some(JsonValue::Array(items)),
    ).contains(json_str(items@[k]).unwrap()) by {
        lemma_json_strs_contain(items@, k);
    }
}

/// The source and data dictionary folders of a JSON workspace whose
/// `appSrc` or `ddSrc` is an array are those that every string of the array
/// resolves to, in order (or the default folder when none resolves).
pub proof fn lemma_json_workspace_folders(w: Workspace, sws: Seq<char>, root: Seq<char>, j: JsonWorkspaceFile)
    requires
        w.is_json_workspace(sws, root, j),
    ensures
        match j.paths {
            Some(p) => match p.app_src {
                Some(JsonValue::Array(items)) => resolved_or_default(
                    root,
                    string_items(items@),
                    w.appsrc(),
                    joined(root, app_src_name()),
                ),
                _ => true,
            },
            None => true,
        },
        match j.paths {
            Some(p) => match p.dd_src {
                Some(JsonValue::Array(items)) => resolved_or_default(
                    root,
                    string_items(items@),
                    w.ddsrc(),
                    joined(root, dd_src_name()),
                ),
                _ => true,
            },
            None => true,
        },
{
    if let Some(p) = j.paths {
        let app = json_path_list(p.app_src);
        let dd = json_path_list(p.dd_src);
        assert(resolved_or_default(root, app, w.appsrc(), joined(root, app_src_name())));
        assert(resolved_or_default(root, dd, w.ddsrc(), joined(root, dd_src_name())));
        if let Some(JsonValue::Array(items)) = p.app_src {
            lemma_json_array_paths(items);
            assert(app == string_items(items@));
        }
        if let Some(JsonValue::Array(items)) = p.dd_src {
            lemma_json_array_paths(items);
            assert(dd == string_items(items@));
        }
    }
}

/// The paths that an optional `appSrc` or `ddSrc` value lists.
pub fn json_paths(v: &Option<JsonValue>) -> (r: Vec<String>)
    ensures
        strings_of(r@) == json_path_list(*v),
{
    match v {
        Some(JsonValue::Str(s)) => {
            let mut r: Vec<String> = Vec::new();
            r.push(s.clone());
            assert(strings_of(r@) =~= seq![s@]);
            r
        },
        Some(JsonValue::Array(items)) => json_strings(items),
        _ => {
            let r: Vec<String> = Vec::new();
            assert(strings_of(r@) =~= Seq::<Seq<char>>::empty());
            r
        },
    }
}

/// The dependency paths that a JSON description lists.
pub fn json_dependencies(j: &JsonWorkspaceFile) -> (r: Vec<String>)
    ensures
        strings_of(r@) == json_dependency_inputs(*j),
{
    let mut out: Vec<String> = Vec::new();
    match &j.dependencies {
        Some(vs) => {
            let ss = json_strings(vs);
            let dots: Vec<char> = vec!['.', '.'];
            let slash: Vec<char> = vec!['/'];
            let mut i: usize = 0;
            while i < ss.len()
                invariant
                    0 <= i <= ss.len(),
                    dots@ == seq!['.', '.'],
                    slash@ == seq!['/'],
                    strings_of(out@) == dependency_paths(strings_of(ss@).take(i as int)),
                decreases ss.len() - i,
            {
                let ghost prev = strings_of(out@);
                let ghost cur = ss@[i as int]@;
                proof {
                    assert(strings_of(ss@).take(i + 1).drop_last() =~= strings_of(ss@).take(i as int));
                    assert(strings_of(ss@).take(i + 1).last() == cur);
                }
                let cs = chars_of(ss[i].as_str());
                let a = chars_start_with(&cs, &dots);
                let b = chars_start_with(&cs, &slash);
                proof {
                    if cs@.len() >= 2 {
                        assert(cs@.take(2)[0] == cs@[0] && cs@.take(2)[1] == cs@[1]);
                        if cs@[0] == '.' && cs@[1] == '.' {
                            assert(cs@.take(2) =~= dots@);
                        }
                    }
                    if cs@.len() >= 1 {
                        assert(cs@.take(1)[0] == cs@[0]);
                        if cs@[0] == '/' {
                            assert(cs@.take(1) =~= slash@);
                        }
                    }
                    assert(a || b <==> is_dependency_path(cur));
                }
                if a || b {
                    out.push(ss[i].clone());
                    assert(strings_of(out@) =~= prev.push(cur));
                }
                i += 1;
            }
            assert(strings_of(ss@).take(ss.len() as int) =~= strings_of(ss@));
        },
        None => {
            assert(strings_of(out@) =~= Seq::<Seq<char>>::empty());
        },
    }
    out
}

/// A single-element list.
fn one_string(s: String) -> (r: Vec<String>)
    ensures
        strings_of(r@) == seq![s@],
{
    let mut r: Vec<String> = Vec::new();
    r.push(s);
    assert(strings_of(r@) =~= seq![s@]);
    r
}

/// The resolved list of `ins`, or the default folder `name` in `root` when that is empty.
fn resolve_or_default(root: &String, ins: &Vec<String>, name: &str) -> (r: Vec<String>)
    ensures
        resolved_or_default(root@, strings_of(ins@), strings_of(r@), joined(root@, name@)),
{
    let r = resolve_all(root, ins);
    if r.len() > 0 {
        r
    } else {
        assert(strings_of(r@) =~= Seq::<Seq<char>>::empty());
        one_string(path_join(root.as_str(), name))
    }
}

impl Workspace {
    /// The workspace that a JSON description at `sws_file`, in folder
    /// `root_folder`, describes.
    pub fn from_json(sws_file: &String, root_folder: &String, file: &JsonWorkspaceFile) -> (r: Workspace)
        ensures
            r.is_json_workspace(sws_file@, root_folder@, *file),
    {
        let (app_in, dd_in) = match &file.paths {
            Some(p) => (json_paths(&p.app_src), json_paths(&p.dd_src)),
            None => (Vec::new(), Vec::new()),
        };
        proof {
            if file.paths is None {
                assert(strings_of(app_in@) =~= Seq::<Seq<char>>::empty());
                assert(strings_of(dd_in@) =~= Seq::<Seq<char>>::empty());
            }
        }
        let appsrc_path = resolve_or_default(root_folder, &app_in, "AppSrc");
        let ddsrc_path = resolve_or_default(root_folder, &dd_in, "DdSrc");
        let deps_in = json_dependencies(file);
        let dependencies = resolve_all(root_folder, &deps_in);
        proof {
            reveal_strlit("AppSrc");
            reveal_strlit("DdSrc");
            assert("AppSrc"@ =~= app_src_name());
            assert("DdSrc"@ =~= dd_src_name());
        }
        Workspace { sws_path: sws_file.clone(), _df_version: None, appsrc_path, ddsrc_path, dependencies }
    }
}

} // verus!

verus! {

/// The message for a workspace description that cannot be read.
pub open spec fn open_error_text(sws: Seq<char>, err: Seq<char>) -> Seq<char> {
    "Couldn't open workspace file '"@ + sws + "': "@ + err
}

/// The message for a workspace description in neither JSON nor INI form.
pub open spec fn unrecognized_text(sws: Seq<char>) -> Seq<char> {
    "Couldn't read workspace file '"@ + sws + "': Unrecognized format"@
}

/// What the first step of reading an INI description gives.
pub open spec fn ini_step(sws: Seq<char>, root: Seq<char>, doc: Seq<crate::ini_doc::IniSectionView>, r: WorkspaceLoad) -> bool {
    let version = ini_get(doc, "Properties"@, "Version"@);
    let lib_in = ini_values(doc, "Libraries"@);
    let cfg_in = ini_get(doc, "WorkspacePaths"@, "ConfigFile"@);
    match r {
        WorkspaceLoad::Ready(w) => {
            &&& resolved_list(root, lib_in, w.deps())
            &&& w.is_plain_ini_workspace(sws, root, version, w.deps())
            &&& match cfg_in {
                None => true,
                Some(c) => resolved_against(root, c, None) || exists|cp: Seq<char>|
                    resolved_against(root, c, Some(cp)) && parent_of(cp) is None,
            }
        },
        WorkspaceLoad::NeedsConfig(p) => {
            &&& p.sws_path@ == sws
            &&& crate::ini_doc::opt_view(p.df_version) == version
            &&& resolved_list(root, lib_in, strings_of(p.libraries@))
            &&& p.root_folder@ == root
            &&& cfg_in matches Some(c) && resolved_against(root, c, Some(p.config_path@))
            &&& parent_of(p.config_path@) == Some(p.config_dir@)
        },
    }
}

impl Workspace {
    /// The message for a workspace description that cannot be read.
    pub fn open_error(sws_file: &String, err: &String) -> (r: String)
        ensures
            r@ == open_error_text(sws_file@, err@),
    {
        let a = concat("Couldn't open workspace file '", sws_file.as_str());
        let b = concat(a.as_str(), "': ");
        concat(b.as_str(), err.as_str())
    }

    /// The message for a workspace description in neither JSON nor INI form.
    pub fn unrecognized_error(sws_file: &String) -> (r: String)
        ensures
            r@ == unrecognized_text(sws_file@),
    {
        let a = concat("Couldn't read workspace file '", sws_file.as_str());
        concat(a.as_str(), "': Unrecognized format")
    }

    /// Whether the workspace description at `sws_file` has a folder to
    /// resolve relative paths against.
    pub fn has_root_folder(sws_file: &String) -> (r: bool)
        ensures
            r == (parent_of(sws_file@) is Some),
    {
        path_parent(sws_file.as_str()).is_some()
    }

    /// A workspace built from an INI description without a usable configuration file.
    fn plain_ini(sws_file: &String, root_folder: &String, df_version: Option<String>, libraries: Vec<String>) -> (r: Workspace)
        ensures
            r.is_plain_ini_workspace(sws_file@, root_folder@, crate::ini_doc::opt_view(df_version), strings_of(libraries@)),
    {
        let appsrc_path = one_string(path_join(root_folder.as_str(), "AppSrc"));
        let ddsrc_path = one_string(path_join(root_folder.as_str(), "DdSrc"));
        proof {
            reveal_strlit("AppSrc");
            reveal_strlit("DdSrc");
            assert("AppSrc"@ =~= app_src_name());
            assert("DdSrc"@ =~= dd_src_name());
        }
        Workspace { sws_path: sws_file.clone(), _df_version: df_version, appsrc_path, ddsrc_path, dependencies: libraries }
    }

    /// The first step of reading an INI description at `sws_file`, in folder
    /// `root_folder`: the version, the library paths and the configuration
    /// file it names.
    pub fn from_ini(sws_file: &String, root_folder: &String, ini: &IniDoc) -> (r: WorkspaceLoad)
        ensures
            ini_step(sws_file@, root_folder@, ini.view_doc(), r),
    {
        let df_version = ini.get_from("Properties", "Version");
        let lib_in = ini.values_of("Libraries");
        let libraries = resolve_all(root_folder, &lib_in);
        match ini.get_from("WorkspacePaths", "ConfigFile") {
            Some(c) => match resolve_path(root_folder.as_str(), c.as_str()) {
                Some(cp) => match path_parent(cp.as_str()) {
                    Some(dir) => WorkspaceLoad::NeedsConfig(
                        PendingIniWorkspace {
                            sws_path: sws_file.clone(),
                            df_version,
                            libraries,
                            root_folder: root_folder.clone(),
                            config_path: cp,
                            config_dir: dir,
                        },
                    ),
                    None => WorkspaceLoad::Ready(Self::plain_ini(sws_file, root_folder, df_version, libraries)),
                },
                None => WorkspaceLoad::Ready(Self::plain_ini(sws_file, root_folder, df_version, libraries)),
            },
            None => WorkspaceLoad::Ready(Self::plain_ini(sws_file, root_folder, df_version, libraries)),
        }
    }

    /// The folder of the description at `sws_file`.
    fn root_folder(sws_file: &String) -> (r: String)
        requires
            parent_of(sws_file@) is Some,
        ensures
            r@ == parent_of(sws_file@).unwrap(),
    {
        match path_parent(sws_file.as_str()) {
            Some(p) => p,
            None => {
                proof {
                    assert(false);
                }
                String::new()
            },
        }
    }

    /// `Workspace::new`, unless the description was read as JSON or INI but
    /// its path has no folder to resolve relative paths against: then `None`.
    pub fn new_checked(sws_file: &String, content: Result<String, String>, json: Option<JsonWorkspaceFile>) -> (r: Option<Result<WorkspaceLoad, String>>)
        ensures
            r is None <==> (content matches Ok(text) && (json is Some || ini_parse(text@) is Some) && parent_of(
                sws_file@,
            ) is None),
            r matches Some(l) ==> match content {
                Err(e) => l matches Err(m) && m@ == open_error_text(sws_file@, e@),
                Ok(text) => match json {
                    Some(j) => l matches Ok(WorkspaceLoad::Ready(w)) && w.is_json_workspace(sws_file@, parent_of(sws_file@).unwrap(), j),
                    None => match ini_parse(text@) {
                        None => l matches Err(m) && m@ == unrecognized_text(sws_file@),
                        Some(doc) => l matches Ok(ld) && ini_step(sws_file@, parent_of(sws_file@).unwrap(), doc, ld),
                    },
                },
            },
    {
        if !Self::has_root_folder(sws_file) {
            match &content {
                Ok(text) => {
                    if json.is_some() {
                        return None;
                    }
                    if ini_load(text.as_str()).is_some() {
                        return None;
                    }
                },
                Err(_) => {},
            }
        }
        Some(Self::new(sws_file, content, json))
    }

    /// Reads a workspace description at `sws_file` from its text `content`
    /// (or the error that reading it gave), and `json`, the description parsed
    /// as JSON when that succeeded. A JSON description is used first; then the
    /// text is read as INI.
    pub fn new(sws_file: &String, content: Result<String, String>, json: Option<JsonWorkspaceFile>) -> (r: Result<WorkspaceLoad, String>)
        requires
            content matches Ok(text) && (json is Some || ini_parse(text@) is Some) ==> parent_of(sws_file@) is Some,
        ensures
            match content {
                Err(e) => r matches Err(m) && m@ == open_error_text(sws_file@, e@),
                Ok(text) => match json {
                    Some(j) => r matches Ok(WorkspaceLoad::Ready(w)) && w.is_json_workspace(sws_file@, parent_of(sws_file@).unwrap(), j),
                    None => match ini_parse(text@) {
                        None => r matches Err(m) && m@ == unrecognized_text(sws_file@),
                        Some(doc) => r matches Ok(l) && ini_step(sws_file@, parent_of(sws_file@).unwrap(), doc, l),
                    },
                },
            },
    {
        match content {
            Err(e) => Err(Self::open_error(sws_file, &e)),
            Ok(text) => match json {
                Some(j) => {
                    let root = Self::root_folder(sws_file);
                    Ok(WorkspaceLoad::Ready(Self::from_json(sws_file, &root, &j)))
                },
                None => match ini_load(text.as_str()) {
                    Some(doc) => {
                        let root = Self::root_folder(sws_file);
                        Ok(Self::from_ini(sws_file, &root, &doc))
                    },
                    None => Err(Self::unrecognized_error(sws_file)),
                },
            },
        }
    }
}

} // verus!

verus! {

/// The paths of a `;`-separated list value, or none when the key is absent.
pub open spec fn list_inputs(v: Option<Seq<char>>) -> Seq<Seq<char>> {
    match v {
        Some(s) => split_on(s, ';'),
        None => Seq::empty(),
    }
}

/// The folder that relative source folders are resolved against: the `Home`
/// value of the configuration, resolved against the configuration's folder,
/// or the workspace's own folder when that is absent or fails.
pub open spec fn home_of(root: Seq<char>, config_dir: Seq<char>, home_in: Option<Seq<char>>, home: Seq<char>) -> bool {
    match home_in {
        None => home == root,
        Some(h) => resolved_against(config_dir, h, Some(home)) || (home == root && resolved_against(
            config_dir,
            h,
            None,
        )),
    }
}

impl PendingIniWorkspace {
    /// Whether the configuration file was read and has a `[Workspace]` section.
    pub open spec fn uses_config(&self, config: Option<IniDoc>) -> bool {
        config matches Some(doc) && crate::ini_doc::find_section(doc.view_doc(), "Workspace"@) is Some
    }

    /// The workspace, once its configuration file has been read: `config` is
    /// the file's content, or `None` when it could not be read or parsed.
    pub fn finish(self, config: Option<IniDoc>) -> (r: Workspace)
        ensures
            r.sws_path@ == self.sws_path@,
            crate::ini_doc::opt_view(r._df_version) == crate::ini_doc::opt_view(self.df_version),
            r.deps() == strings_of(self.libraries@),
            self.uses_config(config) ==> exists|home: Seq<char>| #[trigger] r.configured_from(self, config.unwrap(), home),
            !self.uses_config(config) ==> r.appsrc() == seq![joined(self.root_folder@, app_src_name())] && r.ddsrc() == seq![
                joined(self.root_folder@, dd_src_name()),
            ],
    {
        let has_section = match &config {
            Some(doc) => doc.has_section("Workspace"),
            None => false,
        };
        if has_section {
            let doc = match config {
                Some(d) => d,
                None => {
                    proof { assert(false); }
                    IniDoc { sections: Vec::new() }
                },
            };
            let home = match doc.get_from("Workspace", "Home") {
                Some(h) => match resolve_path(self.config_dir.as_str(), h.as_str()) {
                    Some(a) => a,
                    None => self.root_folder.clone(),
                },
                None => self.root_folder.clone(),
            };
            let appsrc_path = resolve_list_value(&home, doc.get_from("Workspace", "AppSrcPath"));
            let ddsrc_path = resolve_list_value(&home, doc.get_from("Workspace", "DDSrcPath"));
            assert(home_of(self.root_folder@, self.config_dir@, ini_get(doc.view_doc(), "Workspace"@, "Home"@), home@));
            let ghost old_self = self;
            let r = Workspace {
                sws_path: self.sws_path,
                _df_version: self.df_version,
                appsrc_path,
                ddsrc_path,
                dependencies: self.libraries,
            };
            assert(r.configured_from(old_self, doc, home@));
            r
        } else {
            let w = Workspace::plain_ini(&self.sws_path, &self.root_folder, self.df_version, self.libraries);
            w
        }
    }
}

impl Workspace {
    /// The source folders of this workspace are those that the configuration
    /// `doc` lists, resolved against `home`, the folder that its `Home` value names.
    pub open spec fn configured_from(&self, p: PendingIniWorkspace, doc: IniDoc, home: Seq<char>) -> bool {
        &&& home_of(p.root_folder@, p.config_dir@, ini_get(doc.view_doc(), "Workspace"@, "Home"@), home)
        &&& resolved_list(home, list_inputs(ini_get(doc.view_doc(), "Workspace"@, "AppSrcPath"@)), self.appsrc())
        &&& resolved_list(home, list_inputs(ini_get(doc.view_doc(), "Workspace"@, "DDSrcPath"@)), self.ddsrc())
    }
}

/// The paths of an optional `;`-separated list, resolved against `home`.
fn resolve_list_value(home: &String, v: Option<String>) -> (r: Vec<String>)
    ensures
        resolved_list(home@, list_inputs(crate::ini_doc::opt_view(v)), strings_of(r@)),
{
    match v {
        Some(s) => {
            let parts = split_str(s.as_str(), ';');
            resolve_all(home, &parts)
        },
        None => {
            let r: Vec<String> = Vec::new();
            assert(strings_of(r@) =~= Seq::<Seq<char>>::empty());
            r
        },
    }
}

} // verus!

verus! {

/// The walk over declared library dependencies that finds every library
/// workspace a workspace depends on, directly or not. The caller reads each
/// workspace that `next` names and hands its dependencies back through
/// `loaded`. Each path is named at most once; the walk ends when the queue is
/// empty or when the next path in it was named before.
pub struct DependencyCrawler {
    queue: std::collections::VecDeque<String>,
    visited: Vec<String>,
}

impl DependencyCrawler {
    /// The paths still to visit, in order.
    pub closed spec fn queue_view(&self) -> Seq<Seq<char>> {
        strings_of(self.queue@)
    }

    /// The component forms of the paths named so far.
    pub closed spec fn visited_keys(&self) -> Seq<Seq<char>> {
        strings_of(self.visited@)
    }

    /// A walk that starts from the dependencies that `root` declares.
    pub fn new(root: &Workspace) -> (r: DependencyCrawler)
        ensures
            r.queue_view() == root.deps(),
            r.visited_keys() == Seq::<Seq<char>>::empty(),
    {
        let mut queue: std::collections::VecDeque<String> = std::collections::VecDeque::new();
        let mut i: usize = 0;
        while i < root.dependencies.len()
            invariant
                0 <= i <= root.dependencies.len(),
                strings_of(queue@) == root.deps().take(i as int),
            decreases root.dependencies.len() - i,
        {
            let ghost prev = queue@;
            let d = root.dependencies[i].clone();
            queue.push_back(d);
            proof {
                crate::text::lemma_strings_push(prev, d);
                crate::text::lemma_strings_take_succ(root.dependencies@, i as int);
            }
            i += 1;
        }
        assert(root.deps().take(root.dependencies.len() as int) =~= root.deps());
        let r = DependencyCrawler { queue, visited: Vec::new() };
        assert(r.visited_keys() =~= Seq::<Seq<char>>::empty());
        r
    }

    /// The next library workspace to read, if the walk goes on.
    pub fn next(&mut self) -> (r: Option<String>)
        ensures
            old(self).queue_view().len() == 0 ==> r is None && final(self).queue_view() == old(self).queue_view()
                && final(self).visited_keys() == old(self).visited_keys(),
            old(self).queue_view().len() > 0 ==> {
                let p = old(self).queue_view()[0];
                &&& final(self).queue_view() == old(self).queue_view().drop_first()
                &&& if old(self).visited_keys().contains(path_identity(p)) {
                    r is None && final(self).visited_keys() == old(self).visited_keys()
                } else {
                    r matches Some(q) && q@ == p && final(self).visited_keys() == old(self).visited_keys().push(
                        path_identity(p),
                    )
                }
            },
    {
        match self.queue.pop_front() {
            None => None,
            Some(p) => {
                proof {
                    assert(strings_of(self.queue@) =~= strings_of(old(self).queue@).drop_first());
                }
                let k = path_key(p.as_str());
                if contains_string(&self.visited, &k) {
                    None
                } else {
                    let ghost prev = strings_of(self.visited@);
                    self.visited.push(k);
                    assert(strings_of(self.visited@) =~= prev.push(path_identity(p@)));
                    Some(p)
                }
            },
        }
    }

    /// Hands back a library workspace that was read: its declared dependencies
    /// join the end of the queue.
    pub fn loaded(&mut self, workspace: &Workspace)
        ensures
            final(self).queue_view() == old(self).queue_view() + workspace.deps(),
            final(self).visited_keys() == old(self).visited_keys(),
    {
        let mut i: usize = 0;
        while i < workspace.dependencies.len()
            invariant
                0 <= i <= workspace.dependencies.len(),
                self.queue_view() == old(self).queue_view() + workspace.deps().take(i as int),
                self.visited_keys() == old(self).visited_keys(),
            decreases workspace.dependencies.len() - i,
        {
            let ghost prev = self.queue@;
            let d = workspace.dependencies[i].clone();
            self.queue.push_back(d);
            proof {
                crate::text::lemma_strings_push(prev, d);
                crate::text::lemma_strings_take_succ(workspace.dependencies@, i as int);
            }
            i += 1;
            assert(self.queue_view() =~= old(self).queue_view() + workspace.deps().take(i as int));
        }
        assert(workspace.deps().take(workspace.dependencies.len() as int) =~= workspace.deps());
    }
}

} // verus!
