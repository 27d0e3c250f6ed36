//! The table from lower-case extensions to fence tags.
use vstd::prelude::*;
use crate::bytes::{eq_bytes, push_range};
use crate::path::{lower_ext, lower_extension};

verus! {

/// The map that a list of entries describes; a later entry for the same
/// extension wins.
pub open spec fn table_map(s: Seq<(Seq<u8>, Seq<u8>)>) -> Map<Seq<u8>, Seq<u8>>
    decreases s.len(),
{
    if s.len() == 0 {
        Map::empty()
    } else {
        table_map(s.drop_last()).insert(s.last().0, s.last().1)
    }
}

proof fn lemma_table_tail(s: Seq<(Seq<u8>, Seq<u8>)>, j: int, k: Seq<u8>)
    requires
        0 <= j <= s.len(),
        forall|m: int| j <= m < s.len() ==> (#[trigger] s[m]).0 != k,
    ensures
        table_map(s).contains_key(k) == table_map(s.take(j)).contains_key(k),
        table_map(s).contains_key(k) ==> table_map(s)[k] == table_map(s.take(j))[k],
    decreases s.len() - j,
{
    if j < s.len() {
        let d = s.drop_last();
        assert forall|m: int| j <= m < d.len() implies (#[trigger] d[m]).0 != k by {
            assert(d[m] == s[m]);
        }
        lemma_table_tail(d, j, k);
        assert(d.take(j) =~= s.take(j));
        assert(s.last() == s[s.len() - 1]);
    } else {
        assert(s.take(j) =~= s);
    }
}

/// Fence tags by extension.
///
/// Held as a `Vec` of entries rather than a `HashMap`: vstd specifies
/// `HashMap` only for keys whose hashing it knows, not for byte-string keys.
/// Entries are only appended and looked up from the end, so the view is the
/// map in which a later entry for the same extension wins, as an insert
/// into a map does.
pub struct LabelTable {
    entries: Vec<(Vec<u8>, Vec<u8>)>,
}

impl View for LabelTable {
    type V = Map<Seq<u8>, Seq<u8>>;

    closed spec fn view(&self) -> Map<Seq<u8>, Seq<u8>> {
        table_map(self.entries@.map_values(|e: (Vec<u8>, Vec<u8>)| (e.0@, e.1@)))
    }
}

/// The fence tag of a path: the label of its lower-case extension, or none.
pub open spec fn label_of(table: Map<Seq<u8>, Seq<u8>>, p: Seq<u8>) -> Seq<u8> {
    if table.contains_key(lower_ext(p)) {
        table[lower_ext(p)]
    } else {
        Seq::empty()
    }
}

impl LabelTable {
    pub fn new() -> (r: LabelTable)
        ensures
            r@ == Map::<Seq<u8>, Seq<u8>>::empty(),
    {
        let r = LabelTable { entries: Vec::new() };
        assert(r.entries@.map_values(|e: (Vec<u8>, Vec<u8>)| (e.0@, e.1@)) =~= Seq::<(Seq<u8>, Seq<u8>)>::empty());
        r
    }

    /// Sets the label of `ext`.
    pub fn insert(&mut self, ext: Vec<u8>, label: Vec<u8>)
        ensures
            final(self)@ == old(self)@.insert(ext@, label@),
    {
        let ghost before = self.entries@.map_values(|e: (Vec<u8>, Vec<u8>)| (e.0@, e.1@));
        self.entries.push((ext, label));
        let ghost after = self.entries@.map_values(|e: (Vec<u8>, Vec<u8>)| (e.0@, e.1@));
        assert(after.drop_last() =~= before);
    }

    /// The label of `ext`, if the table has one.
    pub fn get(&self, ext: &[u8]) -> (r: Option<Vec<u8>>)
        ensures
            r is Some == self@.contains_key(ext@),
            r is Some ==> r->Some_0@ == self@[ext@],
    {
        let ghost s = self.entries@.map_values(|e: (Vec<u8>, Vec<u8>)| (e.0@, e.1@));
        let mut j: usize = self.entries.len();
        while j > 0
            invariant
                j <= s.len(),
                s == self.entries@.map_values(|e: (Vec<u8>, Vec<u8>)| (e.0@, e.1@)),
                forall|m: int| j <= m < s.len() ==> (#[trigger] s[m]).0 != ext@,
            decreases j,
        {
            let e = &self.entries[j - 1];
            if eq_bytes(&e.0, ext) {
                proof {
                    lemma_table_tail(s, j as int, ext@);
                    let t = s.take(j as int);
                    assert(t.drop_last() =~= s.take(j - 1));
                    assert(t.last() == s[j - 1]);
                }
                let mut out: Vec<u8> = Vec::new();
                push_range(&mut out, &e.1, 0, e.1.len());
                assert(e.1@.subrange(0, e.1@.len() as int) =~= e.1@);
                return Some(out);
            }
            j = j - 1;
        }
        proof {
            lemma_table_tail(s, 0, ext@);
            assert(s.take(0) =~= Seq::<(Seq<u8>, Seq<u8>)>::empty());
        }
        None
    }

    /// The fence tag for a file at `path`; empty where its extension has none.
    pub fn label_for(&self, path: &[u8]) -> (r: Vec<u8>)
        ensures
            r@ == label_of(self@, path@),
    {
        let e = lower_extension(path);
        match self.get(&e) {
            Some(l) => l,
            None => Vec::new(),
        }
    }
}

/// Where `text` is a JSON object whose values are strings, its entries in
/// key order, each key and value as UTF-8 bytes; `None` for any other text.
pub uninterp spec fn json_labels(text: Seq<char>) -> Option<Seq<(Seq<u8>, Seq<u8>)>>;

#[verifier::external_type_specification]
#[verifier::external_body]
pub struct ExJsonError(serde_json::Error);

/// Relies on serde_json::from_str into a `BTreeMap<String, String>`: whether
/// it succeeds, and the entries in key order when it does, depend on the
/// text alone.
#[verifier::external_body]
fn parse_label_json(text: &str) -> (r: Result<Vec<(Vec<u8>, Vec<u8>)>, serde_json::Error>)
    ensures
        r is Ok <==> json_labels(text@) is Some,
        r is Ok ==> r->Ok_0@.map_values(|e: (Vec<u8>, Vec<u8>)| (e.0@, e.1@)) == json_labels(
            text@,
        )->Some_0,
{
    serde_json::from_str::<std::collections::BTreeMap<String, String>>(text).map(
        |m| m.into_iter().map(|(k, v)| (k.into_bytes(), v.into_bytes())).collect(),
    )
}

/// The fence tags that packing uses, by extension.
pub const LABEL_JSON: &'static str = r#"{
        "rs": "rust",
        "json": "json",
        "js": "javascript",
        "ts": "typescript",
        "py": "python",
        "java": "java",
        "cpp": "cpp",
        "c": "c",
        "go": "go",
        "rb": "ruby",
        "php": "php",
        "html": "html",
        "css": "css",
        "md": "markdown",
        "yaml": "yaml",
        "yml": "yaml",
        "toml": "toml",
        "sh": "bash",
        "bash": "bash",
        "sql": "sql",
        "vue": "vue",
        "jsx": "jsx",
        "tsx": "tsx",
        "lua": "lua",
        ".h": "c/c++ header",
        ".conf": "conf",
        ".ini": "ini",
        ".txt": "text",
        ".bat": "batch file",
        ".ps1": "powershell",
        ".env": "env",
        ".gitignore": "gitignore",
        "wxss": "css",
        "wxml": "xml",
        "ux": "html"
    }"#;

/// The label table was not a JSON object of strings.
#[derive(Debug, PartialEq, Eq)]
pub enum LabelError {
    BadTable,
}

/// A table with the entries of `pairs`; a later entry for the same
/// extension wins.
pub fn table_from_pairs(pairs: &Vec<(Vec<u8>, Vec<u8>)>) -> (r: LabelTable)
    ensures
        r@ == table_map(pairs@.map_values(|e: (Vec<u8>, Vec<u8>)| (e.0@, e.1@))),
{
    let ghost s = pairs@.map_values(|e: (Vec<u8>, Vec<u8>)| (e.0@, e.1@));
    let mut t = LabelTable::new();
    let mut i: usize = 0;
    assert(s.take(0) =~= Seq::<(Seq<u8>, Seq<u8>)>::empty());
    while i < pairs.len()
        invariant
            i <= pairs@.len(),
            s == pairs@.map_values(|e: (Vec<u8>, Vec<u8>)| (e.0@, e.1@)),
            t@ == table_map(s.take(i as int)),
        decreases pairs@.len() - i,
    {
        let mut k: Vec<u8> = Vec::new();
        let mut v: Vec<u8> = Vec::new();
        push_range(&mut k, &pairs[i].0, 0, pairs[i].0.len());
        push_range(&mut v, &pairs[i].1, 0, pairs[i].1.len());
        assert(pairs@[i as int].0@.subrange(0, pairs@[i as int].0@.len() as int) =~= pairs@[i as int].0@);
        assert(pairs@[i as int].1@.subrange(0, pairs@[i as int].1@.len() as int) =~= pairs@[i as int].1@);
        t.insert(k, v);
        assert(s.take(i + 1).drop_last() =~= s.take(i as int));
        assert(s.take(i + 1).last() == s[i as int]);
        i = i + 1;
    }
    assert(s.take(pairs@.len() as int) =~= s);
    t
}

/// The table of fence tags in `LABEL_JSON`.
pub fn load_extension_map() -> (r: Result<LabelTable, LabelError>)
    ensures
        r is Ok <==> json_labels(LABEL_JSON@) is Some,
        r is Ok ==> r->Ok_0@ == table_map(json_labels(LABEL_JSON@)->Some_0),
{
    match parse_label_json(LABEL_JSON) {
        Ok(pairs) => Ok(table_from_pairs(&pairs)),
        Err(_) => Err(LabelError::BadTable),
    }
}

} // verus!
