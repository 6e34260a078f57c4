//! Source files: file names compared without regard to ASCII case, and the
//! `Use` statements that make one source file depend on another.
use vstd::prelude::*;
use crate::text::{
    chars_eq_ignore_ascii_case, chars_of, eq_ignore_ascii_case, lower_seq, seqs_of, split_chars,
    split_on, split_words, str_eq_ignore_ascii_case, string_from_chars, words,
};
use crate::paths::{extension_of, path_extension};

verus! {

/// The name of a source file, as written in a `Use` statement or on disk.
/// Two names are the same file when they are equal up to ASCII case.
#[derive(Debug)]
pub struct FileName(pub String);

impl FileName {
    /// The lower-case form under which names are compared.
    pub open spec fn key(&self) -> Seq<char> {
        lower_seq(self.0@)
    }

    /// A name taken from a string.
    pub fn from_str(value: &str) -> (r: FileName)
        ensures
            r.0@ == value@,
    {
        FileName(value.to_string())
    }

    /// A copy of this name.
    pub fn copy(&self) -> (r: FileName)
        ensures
            r == *self,
    {
        FileName(self.0.clone())
    }

    /// Whether two names are the same file name.
    pub fn same_as(&self, other: &FileName) -> (r: bool)
        ensures
            r == (self.key() == other.key()),
    {
        str_eq_ignore_ascii_case(self.0.as_str(), other.0.as_str())
    }

    /// The name as written.
    pub fn to_string(&self) -> (r: String)
        ensures
            r@ == self.0@,
    {
        self.0.clone()
    }
}

impl PartialEq for FileName {
    fn eq(&self, other: &Self) -> (r: bool) {
        str_eq_ignore_ascii_case(self.0.as_str(), other.0.as_str())
    }
}

impl vstd::std_specs::cmp::PartialEqSpecImpl for FileName {
    open spec fn obeys_eq_spec() -> bool {
        true
    }

    open spec fn eq_spec(&self, other: &FileName) -> bool {
        eq_ignore_ascii_case(self.0@, other.0@)
    }
}

impl Eq for FileName {}

/// The same-name relation on file names is reflexive, symmetric and transitive,
/// so a name can stand for all of its spellings.
pub proof fn lemma_file_name_equivalence(a: FileName, b: FileName, c: FileName)
    ensures
        eq_ignore_ascii_case(a.0@, a.0@),
        eq_ignore_ascii_case(a.0@, b.0@) ==> eq_ignore_ascii_case(b.0@, a.0@),
        eq_ignore_ascii_case(a.0@, b.0@) && eq_ignore_ascii_case(b.0@, c.0@) ==> eq_ignore_ascii_case(a.0@, c.0@),
{
}

/// A source file of a workspace and the file names that its `Use` statements name.
#[derive(Debug)]
pub struct SourceFile {
    pub path: String,
    pub dependencies: Vec<FileName>,
}

/// The word `use`, in lower case.
pub open spec fn use_keyword() -> Seq<char> {
    seq!['u', 's', 'e']
}

/// The file that a line names: its second word, when its first word is `Use`
/// in any ASCII case.
pub open spec fn use_target(line: Seq<char>) -> Option<Seq<char>> {
    let w = words(line);
    if w.len() >= 2 && lower_seq(w[0]) == use_keyword() {
        Some(w[1])
    } else {
        None
    }
}

/// The files that a list of lines names, in order.
pub open spec fn use_targets(lines: Seq<Seq<char>>) -> Seq<Seq<char>>
    decreases lines.len(),
{
    if lines.len() == 0 {
        Seq::empty()
    } else {
        let init = use_targets(lines.drop_last());
        match use_target(lines.last()) {
            Some(t) => init.push(t),
            None => init,
        }
    }
}

/// The files that a source text names in its `Use` statements, one per line
/// that starts with `Use` and has a second word, in order.
pub open spec fn source_dependencies(text: Seq<char>) -> Seq<Seq<char>> {
    use_targets(split_on(text, '\n'))
}

/// The text of a file's bytes, with each invalid UTF-8 sequence replaced by U+FFFD.
pub uninterp spec fn utf8_lossy(bytes: Seq<u8>) -> Seq<char>;

/// `String::from_utf8_lossy`: the bytes as text, invalid sequences replaced by
/// U+FFFD. The contract names the result.
#[verifier::external_body]
pub(crate) fn decode_lossy(bytes: &[u8]) -> (r: String)
    ensures
        r@ == utf8_lossy(bytes@),
{
    String::from_utf8_lossy(bytes).into_owned()
}

/// The file names of a list of names, as text.
pub open spec fn names_of(v: Seq<FileName>) -> Seq<Seq<char>> {
    v.map_values(|n: FileName| n.0@)
}

/// The `Use` targets of one line of characters.
fn line_use_target(line: &Vec<char>) -> (r: Option<Vec<char>>)
    ensures
        match r {
            Some(t) => use_target(line@) == Some(t@),
            None => use_target(line@) is None,
        },
{
    let ws = split_words(line);
    if ws.len() >= 2 {
        let kw: Vec<char> = vec!['u', 's', 'e'];
        assert(seqs_of(ws@)[0] == ws@[0]@);
        if chars_eq_ignore_ascii_case(&ws[0], &kw) {
            assert(lower_seq(kw@) =~= use_keyword()) by {
                assert(kw@ =~= seq!['u', 's', 'e']);
            }
            assert(seqs_of(ws@)[1] == ws@[1]@);
            return Some(ws[1].clone());
        } else {
            assert(lower_seq(kw@) =~= use_keyword());
        }
    }
    None
}

/// The file names that a source text names in its `Use` statements.
pub fn text_dependencies(text: &str) -> (r: Vec<FileName>)
    ensures
        names_of(r@) == source_dependencies(text@),
{
    let cs = chars_of(text);
    let lines = split_chars(&cs, '\n');
    let mut out: Vec<FileName> = Vec::new();
    let mut i: usize = 0;
    while i < lines.len()
        invariant
            0 <= i <= lines.len(),
            seqs_of(lines@) == split_on(text@, '\n'),
            names_of(out@) == use_targets(seqs_of(lines@).take(i as int)),
        decreases lines.len() - i,
    {
        let ghost before = names_of(out@);
        proof {
            assert(seqs_of(lines@).take(i + 1).drop_last() =~= seqs_of(lines@).take(i as int));
            assert(seqs_of(lines@).take(i + 1).last() == lines@[i as int]@);
        }
        match line_use_target(&lines[i]) {
            Some(t) => {
                let name = FileName(string_from_chars(t.as_slice()));
                out.push(name);
                assert(names_of(out@) =~= before.push(t@));
            },
            None => {},
        }
        i += 1;
    }
    assert(seqs_of(lines@).take(lines.len() as int) =~= seqs_of(lines@));
    out
}

/// The file names that the `Use` statements of a source file's bytes name.
pub fn source_file_dependencies(bytes: &[u8]) -> (r: Vec<FileName>)
    ensures
        names_of(r@) == source_dependencies(utf8_lossy(bytes@)),
{
    let text = decode_lossy(bytes);
    text_dependencies(text.as_str())
}

/// The message for a source file that cannot be read.
pub open spec fn read_error_text(path: Seq<char>, err: Seq<char>) -> Seq<char> {
    "Couldn't read source file, skipping '"@ + path + "': "@ + err
}

impl SourceFile {
    /// The message for a source file at `path` that cannot be read, with the
    /// error `err`; the file is left out.
    pub fn read_error(path: &str, err: &str) -> (r: String)
        ensures
            r@ == read_error_text(path@, err@),
    {
        let a = crate::text::concat("Couldn't read source file, skipping '", path);
        let b = crate::text::concat(a.as_str(), "': ");
        crate::text::concat(b.as_str(), err)
    }

    /// A source file at `path` whose content is `bytes`.
    pub fn from_contents(path: String, bytes: &[u8]) -> (r: SourceFile)
        ensures
            r.path == path,
            names_of(r.dependencies@) == source_dependencies(utf8_lossy(bytes@)),
    {
        SourceFile { path, dependencies: source_file_dependencies(bytes) }
    }
}

/// The extensions of DataFlex source files.
pub open spec fn is_source_extension(e: Seq<char>) -> bool {
    e == seq!['p', 'k', 'g'] || e == seq!['v', 'w'] || e == seq!['w', 'o'] || e == seq!['s', 'l']
        || e == seq!['d', 'd'] || e == seq!['s', 'r', 'c'] || e == seq!['d', 'g'] || e == seq!['b', 'p']
        || e == seq!['r', 'v'] || e == seq!['f', 'd'] || e == seq!['i', 'n', 'c']
}

/// Whether a file at `path` is a DataFlex source file, judged by its extension
/// (compared exactly, in lower case).
pub fn is_source_file(path: &str) -> (r: bool)
    ensures
        r == (extension_of(path@) matches Some(e) && is_source_extension(e)),
{
    match path_extension(path) {
        Some(e) => {
            let cs = chars_of(e.as_str());
            let r = chars_equal(&cs, &vec!['p', 'k', 'g']) || chars_equal(&cs, &vec!['v', 'w'])
                || chars_equal(&cs, &vec!['w', 'o']) || chars_equal(&cs, &vec!['s', 'l'])
                || chars_equal(&cs, &vec!['d', 'd']) || chars_equal(&cs, &vec!['s', 'r', 'c'])
                || chars_equal(&cs, &vec!['d', 'g']) || chars_equal(&cs, &vec!['b', 'p'])
                || chars_equal(&cs, &vec!['r', 'v']) || chars_equal(&cs, &vec!['f', 'd'])
                || chars_equal(&cs, &vec!['i', 'n', 'c']);
            r
        },
        None => false,
    }
}

/// A path is taken for a DataFlex source file exactly when it has an
/// extension and that extension is, letter for letter, one of `pkg`, `vw`,
/// `wo`, `sl`, `dd`, `src`, `dg`, `bp`, `rv`, `fd` and `inc`.
pub proof fn lemma_source_file_extensions(p: Seq<char>)
    ensures
        (extension_of(p) matches Some(e) && is_source_extension(e)) <==> (extension_of(p) matches Some(e) && set![
            "pkg"@,
            "vw"@,
            "wo"@,
            "sl"@,
            "dd"@,
            "src"@,
            "dg"@,
            "bp"@,
            "rv"@,
            "fd"@,
            "inc"@,
        ].contains(e)),
{
    reveal_strlit("pkg");
    reveal_strlit("vw");
    reveal_strlit("wo");
    reveal_strlit("sl");
    reveal_strlit("dd");
    reveal_strlit("src");
    reveal_strlit("dg");
    reveal_strlit("bp");
    reveal_strlit("rv");
    reveal_strlit("fd");
    reveal_strlit("inc");
    assert("pkg"@ =~= seq!['p', 'k', 'g']);
    assert("vw"@ =~= seq!['v', 'w']);
    assert("wo"@ =~= seq!['w', 'o']);
    assert("sl"@ =~= seq!['s', 'l']);
    assert("dd"@ =~= seq!['d', 'd']);
    assert("src"@ =~= seq!['s', 'r', 'c']);
    assert("dg"@ =~= seq!['d', 'g']);
    assert("bp"@ =~= seq!['b', 'p']);
    assert("rv"@ =~= seq!['r', 'v']);
    assert("fd"@ =~= seq!['f', 'd']);
    assert("inc"@ =~= seq!['i', 'n', 'c']);
}

/// Exact equality of two character vectors.
pub fn chars_equal(a: &Vec<char>, b: &Vec<char>) -> (r: bool)
    ensures
        r == (a@ == b@),
{
    if a.len() != b.len() {
        return false;
    }
    let mut i: usize = 0;
    while i < a.len()
        invariant
            a.len() == b.len(),
            0 <= i <= a.len(),
            forall|j: int| 0 <= j < i ==> a@[j] == b@[j],
        decreases a.len() - i,
    {
        if a[i] != b[i] {
            return false;
        }
        i += 1;
    }
    assert(a@ =~= b@);
    true
}

} // verus!
