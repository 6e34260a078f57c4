//! INI workspace descriptions, read with the `ini` crate.
use vstd::prelude::*;

verus! {

/// One `[section]` of an INI document: its name (`None` for the general
/// section) and its `key=value` properties in the order they were read.
pub struct IniSection {
    pub name: Option<String>,
    pub properties: Vec<(String, String)>,
}

/// An INI document: its sections in the order they were read. A name that
/// occurs twice gives two sections.
pub struct IniDoc {
    pub sections: Vec<IniSection>,
}

/// The abstract form of a section: its name and its properties as text.
pub type IniSectionView = (Option<Seq<char>>, Seq<(Seq<char>, Seq<char>)>);

/// The result of `Ini::load_from_str_noescape` on `content`, as text: `None`
/// when the parser refuses the input.
pub uninterp spec fn ini_parse(content: Seq<char>) -> Option<Seq<IniSectionView>>;

/// The text of an optional string.
pub open spec fn opt_view(o: Option<String>) -> Option<Seq<char>> {
    match o {
        Some(s) => Some(s@),
        None => None,
    }
}

impl IniSection {
    /// The abstract form of this section.
    pub open spec fn view_section(&self) -> IniSectionView {
        (opt_view(self.name), self.properties@.map_values(|kv: (String, String)| (kv.0@, kv.1@)))
    }
}

/// `Ini::section(Some(name))`: the properties of the first section named `name`.
pub open spec fn find_section(secs: Seq<IniSectionView>, name: Seq<char>) -> Option<Seq<(Seq<char>, Seq<char>)>>
    decreases secs.len(),
{
    if secs.len() == 0 {
        None
    } else if secs[0].0 == Some(name) {
        Some(secs[0].1)
    } else {
        find_section(secs.drop_first(), name)
    }
}

/// `Properties::get(key)`: the value of the first property whose key is `key`.
pub open spec fn find_prop(props: Seq<(Seq<char>, Seq<char>)>, key: Seq<char>) -> Option<Seq<char>>
    decreases props.len(),
{
    if props.len() == 0 {
        None
    } else if props[0].0 == key {
        Some(props[0].1)
    } else {
        find_prop(props.drop_first(), key)
    }
}

/// The value of `key` in the first section named `section`.
pub open spec fn ini_get(secs: Seq<IniSectionView>, section: Seq<char>, key: Seq<char>) -> Option<Seq<char>> {
    match find_section(secs, section) {
        Some(props) => find_prop(props, key),
        None => None,
    }
}

/// The values of all properties of the first section named `section`, in order
/// (empty when there is no such section).
pub open spec fn ini_values(secs: Seq<IniSectionView>, section: Seq<char>) -> Seq<Seq<char>> {
    match find_section(secs, section) {
        Some(props) => props.map_values(|kv: (Seq<char>, Seq<char>)| kv.1),
        None => Seq::empty(),
    }
}

impl IniDoc {
    /// The abstract form of this document.
    pub open spec fn view_doc(&self) -> Seq<IniSectionView> {
        self.sections@.map_values(|s: IniSection| s.view_section())
    }

    /// The index of the first section named `name`.
    fn section_index(&self, name: &str) -> (r: Option<usize>)
        ensures
            match r {
                Some(i) => i < self.sections@.len() && find_section(self.view_doc(), name@) == Some(
                    self.view_doc()[i as int].1,
                ),
                None => find_section(self.view_doc(), name@) is None,
            },
    {
        let k = name.to_string();
        let mut i: usize = 0;
        assert(self.view_doc().skip(0) =~= self.view_doc());
        while i < self.sections.len()
            invariant
                0 <= i <= self.sections.len(),
                k@ == name@,
                find_section(self.view_doc(), name@) == find_section(self.view_doc().skip(i as int), name@),
            decreases self.sections.len() - i,
        {
            let ghost rest = self.view_doc().skip(i as int);
            assert(rest[0] == self.view_doc()[i as int]);
            assert(rest.drop_first() =~= self.view_doc().skip(i + 1));
            match &self.sections[i].name {
                Some(n) => {
                    if *n == k {
                        return Some(i);
                    }
                },
                None => {},
            }
            i += 1;
        }
        None
    }

    /// Whether the document has a section named `name`.
    pub fn has_section(&self, name: &str) -> (r: bool)
        ensures
            r == (find_section(self.view_doc(), name@) is Some),
    {
        self.section_index(name).is_some()
    }

    /// `Ini::section(Some(section))` followed by `Properties::get(key)`.
    pub fn get_from(&self, section: &str, key: &str) -> (r: Option<String>)
        ensures
            opt_view(r) == ini_get(self.view_doc(), section@, key@),
    {
        match self.section_index(section) {
            Some(si) => {
                let props = &self.sections[si].properties;
                let ghost pv = self.view_doc()[si as int].1;
                assert(pv == props@.map_values(|kv: (String, String)| (kv.0@, kv.1@)));
                let k = key.to_string();
                let mut i: usize = 0;
                assert(pv.skip(0) =~= pv);
                while i < props.len()
                    invariant
                        0 <= i <= props.len(),
                        k@ == key@,
                        find_section(self.view_doc(), section@) == Some(pv),
                        pv == props@.map_values(|kv: (String, String)| (kv.0@, kv.1@)),
                        find_prop(pv, key@) == find_prop(pv.skip(i as int), key@),
                    decreases props.len() - i,
                {
                    let ghost rest = pv.skip(i as int);
                    assert(rest[0] == pv[i as int]);
                    assert(rest.drop_first() =~= pv.skip(i + 1));
                    assert(pv[i as int] == (props@[i as int].0@, props@[i as int].1@));
                    if props[i].0 == k {
                        let v = props[i].1.clone();
                        assert(find_prop(rest, key@) == Some(rest[0].1));
                        assert(v@ == props@[i as int].1@);
                        assert(find_section(self.view_doc(), section@) == Some(pv));
                        assert(ini_get(self.view_doc(), section@, key@) == Some(v@));
                        return Some(v);
                    }
                    i += 1;
                }
                None
            },
            None => None,
        }
    }

    /// The values of all properties of the first section named `section`.
    pub fn values_of(&self, section: &str) -> (r: Vec<String>)
        ensures
            r@.map_values(|v: String| v@) == ini_values(self.view_doc(), section@),
    {
        let mut out: Vec<String> = Vec::new();
        match self.section_index(section) {
            Some(si) => {
                let props = &self.sections[si].properties;
                let ghost pv = self.view_doc()[si as int].1;
                assert(pv == props@.map_values(|kv: (String, String)| (kv.0@, kv.1@)));
                let mut i: usize = 0;
                while i < props.len()
                    invariant
                        0 <= i <= props.len(),
                        pv == props@.map_values(|kv: (String, String)| (kv.0@, kv.1@)),
                        out@.map_values(|v: String| v@) == pv.take(i as int).map_values(
                            |kv: (Seq<char>, Seq<char>)| kv.1,
                        ),
                    decreases props.len() - i,
                {
                    let ghost before = out@.map_values(|v: String| v@);
                    out.push(props[i].1.clone());
                    assert(out@.map_values(|v: String| v@) =~= before.push(props@[i as int].1@));
                    assert(pv.take(i + 1).map_values(|kv: (Seq<char>, Seq<char>)| kv.1) =~= pv.take(
                        i as int,
                    ).map_values(|kv: (Seq<char>, Seq<char>)| kv.1).push(pv[i as int].1));
                    i += 1;
                    assert(out@.map_values(|v: String| v@) =~= pv.take(i as int).map_values(
                        |kv: (Seq<char>, Seq<char>)| kv.1,
                    ));
                }
                assert(pv.take(props.len() as int) =~= pv);
            },
            None => {
                assert(out@.map_values(|v: String| v@) =~= Seq::<Seq<char>>::empty());
            },
        }
        out
    }
}

/// `Ini::load_from_str_noescape`: parses `content` as INI text, with `\` taken
/// literally. The contract names the parser's result: the sections in the
/// order the crate's `Ini::iter` yields them, each with its properties in the
/// order `Properties::iter` yields them.
#[verifier::external_body]
pub(crate) fn ini_load(content: &str) -> (r: Option<IniDoc>)
    ensures
        r is Some == ini_parse(content@) is Some,
        r matches Some(d) ==> d.view_doc() == ini_parse(content@).unwrap(),
{
    ini::Ini::load_from_str_noescape(content).ok().map(|ini| IniDoc {
        sections: ini.iter().map(|(name, props)| IniSection {
            name: name.map(String::from),
            properties: props.iter().map(|(k, v)| (k.to_string(), v.to_string())).collect(),
        }).collect(),
    })
}


/// The text of `bytes` when they are valid UTF-8, as `std::str::from_utf8` decides.
pub uninterp spec fn utf8_text(bytes: Seq<u8>) -> Option<Seq<char>>;

/// `std::str::from_utf8`: the bytes as text, or `None` when they are not valid
/// UTF-8. The contract names the result.
#[verifier::external_body]
fn decode_utf8(bytes: &[u8]) -> (r: Option<String>)
    ensures
        r is Some == utf8_text(bytes@) is Some,
        r matches Some(t) ==> t@ == utf8_text(bytes@).unwrap(),
{
    std::str::from_utf8(bytes).ok().map(|t| t.to_string())
}

/// The UTF-8 byte order mark.
pub open spec fn utf8_bom() -> Seq<u8> {
    seq![0xEFu8, 0xBBu8, 0xBFu8]
}

/// The bytes of a file without its leading byte order mark, if it has one.
pub open spec fn without_bom(bytes: Seq<u8>) -> Seq<u8> {
    if bytes.len() >= 3 && bytes.take(3) == utf8_bom() {
        bytes.skip(3)
    } else {
        bytes
    }
}

/// What reading an INI file with `Ini::load_from_file_noescape` gives for its
/// bytes: a leading byte order mark is skipped, the rest must be UTF-8 text,
/// and that text is parsed.
pub open spec fn ini_file_parse(bytes: Seq<u8>) -> Option<Seq<IniSectionView>> {
    match utf8_text(without_bom(bytes)) {
        Some(t) => ini_parse(t),
        None => None,
    }
}

impl IniDoc {
    /// The INI document in a file's bytes, as `Ini::load_from_file_noescape`
    /// reads it: `None` when the bytes are not UTF-8 text or not INI.
    pub fn from_file_bytes(bytes: &[u8]) -> (r: Option<IniDoc>)
        ensures
            r is Some == ini_file_parse(bytes@) is Some,
            r matches Some(d) ==> d.view_doc() == ini_file_parse(bytes@).unwrap(),
    {
        let has_bom = bytes.len() >= 3 && bytes[0] == 0xEFu8 && bytes[1] == 0xBBu8 && bytes[2] == 0xBFu8;
        let mut body: Vec<u8> = Vec::new();
        let start: usize = if has_bom { 3 } else { 0 };
        proof {
            if bytes@.len() >= 3 {
                if has_bom {
                    assert(bytes@.take(3) =~= utf8_bom());
                } else {
                    assert(bytes@.take(3) != utf8_bom()) by {
                        if bytes@.take(3) == utf8_bom() {
                            assert(bytes@.take(3)[0] == bytes@[0]);
                            assert(bytes@.take(3)[1] == bytes@[1]);
                            assert(bytes@.take(3)[2] == bytes@[2]);
                        }
                    }
                }
            }
        }
        let mut i: usize = start;
        while i < bytes.len()
            invariant
                start <= i <= bytes@.len(),
                body@ == bytes@.subrange(start as int, i as int),
            decreases bytes.len() - i,
        {
            body.push(bytes[i]);
            i += 1;
            assert(body@ =~= bytes@.subrange(start as int, i as int));
        }
        assert(body@ =~= without_bom(bytes@));
        match decode_utf8(body.as_slice()) {
            Some(text) => ini_load(text.as_str()),
            None => None,
        }
    }
}

} // verus!
