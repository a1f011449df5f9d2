//! The registry: every resource of a schema directory with its documents.

use vstd::prelude::*;
use crate::filename::{dot_count, get_schema_name, get_schema_version, is_schema, schema_name_of, schema_version_of};
use crate::model::{LookupError, Model, ModelVersion, default_index, descending, latest_or_default, named_versions, version_index};
use crate::version::{Version, parse_spec, version_text};

verus! {

/// A file found in the schema directory: its name and the path to read it by.
pub struct SchemaFile {
    pub file_name: String,
    pub path: String,
}

/// Why a directory could not be indexed.
#[derive(Debug)]
pub enum IndexError {
    /// A versioned file name whose version token does not parse.
    InvalidVersionToken(String),
}

/// Every resource of one schema directory, in order of first appearance.
pub struct Registry {
    pub models: Vec<Model>,
}

/// The version an index entry of `name` gets: none for a default document,
/// else its parsed version token.
pub open spec fn entry_version(name: Seq<char>) -> Option<Version> {
    if dot_count(name) < 2 { None } else { parse_spec(schema_version_of(name)) }
}

/// Whether `name` is a versioned file name whose token does not parse.
pub open spec fn is_bad_name(name: Seq<char>) -> bool {
    dot_count(name) >= 2 && parse_spec(schema_version_of(name)) is None
}

/// The resource names of `files`, each once, in order of first appearance.
pub open spec fn resources_of(files: Seq<SchemaFile>) -> Seq<Seq<char>>
    decreases files.len(),
{
    if files.len() == 0 {
        Seq::empty()
    } else {
        let prev = resources_of(files.drop_last());
        let n = schema_name_of(files.last().file_name@);
        if prev.contains(n) { prev } else { prev.push(n) }
    }
}

/// The entries (version, path) that the files of resource `res` give, in
/// file order.
pub open spec fn entries_for(files: Seq<SchemaFile>, res: Seq<char>) -> Seq<(Option<Version>, Seq<char>)>
    decreases files.len(),
{
    if files.len() == 0 {
        Seq::empty()
    } else {
        let prev = entries_for(files.drop_last(), res);
        let f = files.last();
        if schema_name_of(f.file_name@) == res {
            prev.push((entry_version(f.file_name@), f.path@))
        } else {
            prev
        }
    }
}

pub open spec fn entries_view(vs: Seq<ModelVersion>) -> Seq<(Option<Version>, Seq<char>)> {
    vs.map_values(|mv: ModelVersion| (mv.name, mv.path@))
}

pub open spec fn resource_names(ms: Seq<Model>) -> Seq<Seq<char>> {
    ms.map_values(|m: Model| m.resource@)
}

pub open spec fn version_texts(ds: Seq<Version>) -> Seq<Seq<char>> {
    ds.map_values(|x: Version| version_text(x))
}

pub open spec fn texts(v: Seq<String>) -> Seq<Seq<char>> {
    v.map_values(|s: String| s@)
}

/// Lexicographic order on texts, character by character.
pub open spec fn text_le(a: Seq<char>, b: Seq<char>) -> bool
    decreases a.len(),
{
    if a.len() == 0 {
        true
    } else if b.len() == 0 {
        false
    } else if a[0] != b[0] {
        (a[0] as u32) < (b[0] as u32)
    } else {
        text_le(a.drop_first(), b.drop_first())
    }
}

pub open spec fn sorted_texts(s: Seq<Seq<char>>) -> bool {
    forall|i: int, j: int| 0 <= i < j < s.len() ==> text_le(#[trigger] s[i], #[trigger] s[j])
}

/// Index of the first model of resource `name`, or -1.
pub open spec fn model_index(ms: Seq<Model>, name: Seq<char>) -> int
    decreases ms.len(),
{
    if ms.len() == 0 {
        -1
    } else {
        let p = model_index(ms.drop_last(), name);
        if p >= 0 {
            p
        } else if ms.last().resource@ == name {
            ms.len() - 1
        } else {
            -1
        }
    }
}

/// The document `get_schema_content` reads for `version` of a model: that
/// version where it exists, else the default document; -1 for none.
pub open spec fn content_index(vs: Seq<ModelVersion>, version: Seq<char>) -> int {
    if version_index(vs, version) >= 0 { version_index(vs, version) } else { default_index(vs) }
}

proof fn lemma_resources_distinct(files: Seq<SchemaFile>)
    ensures
        forall|a: int, b: int| 0 <= a < b < resources_of(files).len() ==>
            #[trigger] resources_of(files)[a] != #[trigger] resources_of(files)[b],
    decreases files.len(),
{
    if files.len() > 0 {
        lemma_resources_distinct(files.drop_last());
        let prev = resources_of(files.drop_last());
        let n = schema_name_of(files.last().file_name@);
        if !prev.contains(n) {
            let cur = resources_of(files);
            assert forall|a: int, b: int| 0 <= a < b < cur.len() implies #[trigger] cur[a] != #[trigger] cur[b] by {
                assert(cur[a] == prev[a]);
                if b < prev.len() {
                    assert(cur[b] == prev[b]);
                } else if cur[a] == cur[b] {
                    assert(prev.contains(n));
                }
            }
        }
    }
}

proof fn lemma_resource_has_entries(files: Seq<SchemaFile>, res: Seq<char>)
    requires
        resources_of(files).contains(res),
    ensures
        entries_for(files, res).len() > 0,
    decreases files.len(),
{
    if files.len() > 0 {
        let prev = resources_of(files.drop_last());
        if schema_name_of(files.last().file_name@) != res {
            assert(prev.contains(res)) by {
                if !prev.contains(schema_name_of(files.last().file_name@)) {
                    let i = choose|i: int| 0 <= i < resources_of(files).len() && resources_of(files)[i] == res;
                    assert(i < prev.len());
                    assert(prev[i] == res);
                }
            }
            lemma_resource_has_entries(files.drop_last(), res);
        }
    }
}

/// Relies on `slice::sort` of std: afterwards the strings are the same ones,
/// in ascending order, and `String`'s order compares the characters one by
/// one.
#[verifier::external_body]
fn sort_strings(v: &mut Vec<String>)
    ensures
        texts(final(v)@).to_multiset() == texts(old(v)@).to_multiset(),
        sorted_texts(texts(final(v)@)),
{
    v.sort();
}

fn same_text(a: &String, b: &String) -> (r: bool)
    ensures
        r == (a@ == b@),
{
    a.eq(b)
}

/// Indexes the files of a schema directory. Fails on the first versioned
/// file name whose version token does not parse.
pub fn setup_models(files: &Vec<SchemaFile>) -> (r: Result<Registry, IndexError>)
    ensures
        r is Err <==> exists|i: int| 0 <= i < files@.len() && is_bad_name(#[trigger] files@[i].file_name@),
        r matches Err(IndexError::InvalidVersionToken(n)) ==> exists|i: int|
            0 <= i < files@.len() && is_bad_name(#[trigger] files@[i].file_name@) && n@ == files@[i].file_name@
                && forall|j: int| 0 <= j < i ==> !is_bad_name(files@[j].file_name@),
        r matches Ok(reg) ==> forall|a: int, b: int| 0 <= a < b < reg.models@.len() ==>
            (#[trigger] reg.models@[a]).resource@ != (#[trigger] reg.models@[b]).resource@,
        r matches Ok(reg) ==> forall|k: int| 0 <= k < reg.models@.len() ==> (#[trigger] reg.models@[k]).versions@.len() > 0,
        r matches Ok(reg) ==> reg.models@.len() == resources_of(files@).len() && forall|k: int|
            0 <= k < reg.models@.len() ==> (#[trigger] reg.models@[k]).resource@ == resources_of(files@)[k]
                && entries_view(reg.models@[k].versions@) == entries_for(files@, resources_of(files@)[k]),
{
    // Names and entries of all files; fails on the first bad one.
    let mut names: Vec<String> = Vec::new();
    let mut kinds: Vec<Option<Version>> = Vec::new();
    let mut i: usize = 0;
    while i < files.len()
        invariant
            i <= files@.len(),
            names@.len() == i,
            kinds@.len() == i,
            forall|j: int| 0 <= j < i ==> !is_bad_name(#[trigger] files@[j].file_name@),
            forall|j: int| 0 <= j < i ==> (#[trigger] names@[j])@ == schema_name_of(files@[j].file_name@),
            forall|j: int| 0 <= j < i ==> #[trigger] kinds@[j] == entry_version(files@[j].file_name@),
        decreases files@.len() - i,
    {
        let f = &files[i];
        let fname = f.file_name.as_str();
        let kind = if is_schema(fname) {
            None
        } else {
            let token = get_schema_version(fname);
            match Version::from_str(token.as_str()) {
                Ok(v) => Some(v),
                Err(_) => {
                    return Err(IndexError::InvalidVersionToken(f.file_name.clone()));
                },
            }
        };
        names.push(get_schema_name(fname));
        kinds.push(kind);
        i = i + 1;
    }
    // Distinct resource names in order of first appearance.
    let mut resources: Vec<String> = Vec::new();
    let mut i: usize = 0;
    while i < files.len()
        invariant
            i <= files@.len(),
            names@.len() == files@.len(),
            forall|j: int| 0 <= j < files@.len() ==> (#[trigger] names@[j])@ == schema_name_of(files@[j].file_name@),
            texts(resources@) == resources_of(files@.take(i as int)),
        decreases files@.len() - i,
    {
        let ghost pre = files@.take(i as int);
        assert(files@.take(i + 1).drop_last() =~= pre);
        let mut k: usize = 0;
        let mut seen = false;
        while k < resources.len() && !seen
            invariant
                k <= resources@.len(),
                i < names@.len(),
                seen ==> k < resources@.len() && resources@[k as int]@ == names@[i as int]@,
                forall|m: int| 0 <= m < k ==> resources@[m]@ != names@[i as int]@,
            decreases resources@.len() - k + (if seen { 0int } else { 1int }),
        {
            if same_text(&resources[k], &names[i]) {
                seen = true;
            } else {
                k = k + 1;
            }
        }
        proof {
            let n = names@[i as int]@;
            let t = texts(resources@);
            if seen {
                assert(t[k as int] == n);
                assert(t.contains(n));
            } else {
                assert(!t.contains(n)) by {
                    if t.contains(n) {
                        let m = choose|m: int| 0 <= m < t.len() && t[m] == n;
                        assert(t[m] == resources@[m]@);
                    }
                }
            }
        }
        if !seen {
            resources.push(names[i].clone());
            assert(texts(resources@) =~= resources_of(pre).push(names@[i as int]@));
        }
        i = i + 1;
    }
    assert(files@.take(files@.len() as int) =~= files@);
    // One model per resource, with the entries of its files in file order.
    let mut models: Vec<Model> = Vec::new();
    let mut k: usize = 0;
    while k < resources.len()
        invariant
            k <= resources@.len(),
            names@.len() == files@.len(),
            kinds@.len() == files@.len(),
            texts(resources@) == resources_of(files@),
            forall|j: int| 0 <= j < files@.len() ==> (#[trigger] names@[j])@ == schema_name_of(files@[j].file_name@),
            forall|j: int| 0 <= j < files@.len() ==> #[trigger] kinds@[j] == entry_version(files@[j].file_name@),
            models@.len() == k,
            forall|m: int| 0 <= m < k ==> (#[trigger] models@[m]).versions@.len() > 0,
            forall|m: int| 0 <= m < k ==> (#[trigger] models@[m]).resource@ == resources_of(files@)[m]
                && entries_view(models@[m].versions@) == entries_for(files@, resources_of(files@)[m]),
        decreases resources@.len() - k,
    {
        let ghost res = resources@[k as int]@;
        assert(res == texts(resources@)[k as int]);
        let mut versions: Vec<ModelVersion> = Vec::new();
        let mut j: usize = 0;
        while j < files.len()
            invariant
                j <= files@.len(),
                names@.len() == files@.len(),
                kinds@.len() == files@.len(),
                k < resources@.len(),
                res == resources@[k as int]@,
                forall|j: int| 0 <= j < files@.len() ==> (#[trigger] names@[j])@ == schema_name_of(files@[j].file_name@),
                forall|j: int| 0 <= j < files@.len() ==> #[trigger] kinds@[j] == entry_version(files@[j].file_name@),
                entries_view(versions@) == entries_for(files@.take(j as int), res),
            decreases files@.len() - j,
        {
            assert(files@.take(j + 1).drop_last() =~= files@.take(j as int));
            if same_text(&names[j], &resources[k]) {
                let ghost before = versions@;
                versions.push(ModelVersion { name: kinds[j], path: files[j].path.clone() });
                assert(entries_view(versions@) =~= entries_view(before).push((kinds@[j as int], files@[j as int].path@)));
            }
            j = j + 1;
        }
        assert(files@.take(files@.len() as int) =~= files@);
        proof {
            lemma_resource_has_entries(files@, res);
            assert(texts(resources@)[k as int] == res);
        }
        models.push(Model { resource: resources[k].clone(), versions });
        k = k + 1;
    }
    proof {
        lemma_resources_distinct(files@);
        assert forall|a: int, b: int| 0 <= a < b < models@.len() implies
            (#[trigger] models@[a]).resource@ != (#[trigger] models@[b]).resource@ by {
            assert(resources_of(files@)[a] != resources_of(files@)[b]);
        }
    }
    Ok(Registry { models })
}


/// The document that a search reads for one resource.
pub struct LatestDocument {
    pub resource: String,
    pub path: String,
}

impl Registry {
    /// A registry with no resources.
    pub fn new() -> (r: Registry)
        ensures
            r.models@.len() == 0,
    {
        Registry { models: Vec::new() }
    }

    fn find_model(&self, name: &str) -> (r: Option<usize>)
        ensures
            r matches Some(i) ==> i as int == model_index(self.models@, name@) && i < self.models@.len(),
            r is None <==> model_index(self.models@, name@) < 0,
    {
        let wanted = String::from_str(name);
        let mut i: usize = 0;
        while i < self.models.len()
            invariant
                i <= self.models@.len(),
                wanted@ == name@,
                model_index(self.models@.take(i as int), name@) < 0,
            decreases self.models@.len() - i,
        {
            assert(self.models@.take(i + 1).drop_last() =~= self.models@.take(i as int));
            if same_text(&self.models[i].resource, &wanted) {
                proof { lemma_model_index_prefix(self.models@, name@, i + 1); }
                return Some(i);
            }
            i = i + 1;
        }
        assert(self.models@.take(i as int) =~= self.models@);
        None
    }

    /// The resource names, sorted.
    pub fn get_schemas(&self) -> (r: Vec<String>)
        ensures
            texts(r@).to_multiset() == resource_names(self.models@).to_multiset(),
            sorted_texts(texts(r@)),
    {
        let mut out: Vec<String> = Vec::new();
        let mut i: usize = 0;
        while i < self.models.len()
            invariant
                i <= self.models@.len(),
                out@.len() == i,
                texts(out@) == resource_names(self.models@.take(i as int)),
            decreases self.models@.len() - i,
        {
            let ghost before = out@;
            out.push(self.models[i].resource.clone());
            assert(texts(out@) =~= resource_names(self.models@.take(i + 1))) by {
                assert forall|k: int| 0 <= k < i implies texts(out@)[k] == resource_names(self.models@.take(i + 1))[k] by {
                    assert(out@[k] == before[k]);
                    assert(self.models@.take(i + 1)[k] == self.models@.take(i as int)[k]);
                    assert(texts(before)[k] == resource_names(self.models@.take(i as int))[k]);
                }
                assert(texts(out@)[i as int] == out@[i as int]@);
            }
            i = i + 1;
        }
        assert(self.models@.take(i as int) =~= self.models@);
        sort_strings(&mut out);
        out
    }

    /// The canonical texts of a resource's versions, greatest first.
    pub fn get_schema_versions(&self, schema: &str) -> (r: Result<Vec<String>, LookupError>)
        ensures
            r is Err <==> model_index(self.models@, schema@) < 0,
            r matches Err(e) ==> e == LookupError::UnknownResource,
            r matches Ok(v) ==> exists|ds: Seq<Version>|
                descending(ds) && ds.to_multiset() == named_versions(
                    self.models@[model_index(self.models@, schema@)].versions@,
                ).to_multiset() && #[trigger] texts(v@) == version_texts(ds),
    {
        match self.find_model(schema) {
            None => Err(LookupError::UnknownResource),
            Some(k) => {
                let ds = self.models[k].versions_descending();
                let mut out: Vec<String> = Vec::new();
                let mut i: usize = 0;
                while i < ds.len()
                    invariant
                        i <= ds@.len(),
                        out@.len() == i,
                        texts(out@) == version_texts(ds@.take(i as int)),
                    decreases ds@.len() - i,
                {
                    let ghost before = out@;
                    out.push(ds[i].to_string());
                    assert(texts(out@) =~= version_texts(ds@.take(i + 1))) by {
                        assert forall|k: int| 0 <= k < i implies texts(out@)[k] == version_texts(ds@.take(i + 1))[k] by {
                            assert(out@[k] == before[k]);
                            assert(ds@.take(i + 1)[k] == ds@.take(i as int)[k]);
                            assert(texts(before)[k] == version_texts(ds@.take(i as int))[k]);
                        }
                        assert(texts(out@)[i as int] == out@[i as int]@);
                    }
                    i = i + 1;
                }
                assert(ds@.take(i as int) =~= ds@);
                Ok(out)
            },
        }
    }

    /// The canonical text of a resource's greatest version, empty where it
    /// has no versioned document.
    pub fn latest_version_text(&self, schema: &str) -> (r: Result<String, LookupError>)
        ensures
            r is Err <==> model_index(self.models@, schema@) < 0,
            r matches Err(e) ==> e == LookupError::UnknownResource,
            r matches Ok(s) ==> s@ == latest_text(self.models@[model_index(self.models@, schema@)].versions@),
    {
        match self.find_model(schema) {
            None => Err(LookupError::UnknownResource),
            Some(k) => match self.models[k].find_latest() {
                Ok(mv) => match mv.name {
                    Some(v) => Ok(v.to_string()),
                    None => {
                        proof { crate::model::lemma_latest_is_greatest(self.models@[k as int].versions@); }
                        Ok(String::new())
                    },
                },
                Err(_) => {
                    proof { crate::model::lemma_latest_is_greatest(self.models@[k as int].versions@); }
                    Ok(String::new())
                },
            },
        }
    }

    /// Where the document for `version` of `schema` is: that version where it
    /// exists, else the default document.
    pub fn content_path(&self, schema: &str, version: &str) -> (r: Result<String, LookupError>)
        ensures
            model_index(self.models@, schema@) < 0 ==> r == Err::<String, LookupError>(LookupError::UnknownResource),
            model_index(self.models@, schema@) >= 0 ==> {
                let vs = self.models@[model_index(self.models@, schema@)].versions@;
                &&& content_index(vs, version@) < 0 ==> r == Err::<String, LookupError>(LookupError::NoDefaultVersion)
                &&& content_index(vs, version@) >= 0 ==> (r matches Ok(p) && p@ == vs[content_index(vs, version@)].path@)
            },
    {
        match self.find_model(schema) {
            None => Err(LookupError::UnknownResource),
            Some(k) => {
                let m = &self.models[k];
                match m.find_version(version) {
                    Some(mv) => Ok(mv.path.clone()),
                    None => match m.find_default_version() {
                        Ok(mv) => Ok(mv.path.clone()),
                        Err(e) => Err(e),
                    },
                }
            },
        }
    }

    /// For every resource, the document a search reads: its latest version,
    /// else its default document.
    pub fn latest_documents(&self) -> (r: Result<Vec<LatestDocument>, LookupError>)
        ensures
            r is Err <==> exists|k: int| 0 <= k < self.models@.len() && latest_or_default((#[trigger] self.models@[k]).versions@) < 0,
            r matches Err(e) ==> e == LookupError::NoDefaultVersion,
            r matches Ok(docs) ==> docs@.len() == self.models@.len() && forall|k: int| 0 <= k < docs@.len() ==>
                (#[trigger] docs@[k]).resource@ == self.models@[k].resource@
                && docs@[k].path@ == self.models@[k].versions@[latest_or_default(self.models@[k].versions@)].path@,
    {
        let mut out: Vec<LatestDocument> = Vec::new();
        let mut i: usize = 0;
        while i < self.models.len()
            invariant
                i <= self.models@.len(),
                out@.len() == i,
                forall|k: int| 0 <= k < i ==> latest_or_default((#[trigger] self.models@[k]).versions@) >= 0,
                forall|k: int| 0 <= k < i ==> (#[trigger] out@[k]).resource@ == self.models@[k].resource@
                    && out@[k].path@ == self.models@[k].versions@[latest_or_default(self.models@[k].versions@)].path@,
            decreases self.models@.len() - i,
        {
            let m = &self.models[i];
            match m.find_latest() {
                Ok(mv) => {
                    out.push(LatestDocument { resource: m.resource.clone(), path: mv.path.clone() });
                },
                Err(e) => {
                    return Err(e);
                },
            }
            i = i + 1;
        }
        Ok(out)
    }
}

/// The canonical text of the greatest version, empty where there is none.
pub open spec fn latest_text(vs: Seq<ModelVersion>) -> Seq<char> {
    if crate::model::latest_index(vs) >= 0 {
        version_text(vs[crate::model::latest_index(vs)].name.unwrap())
    } else {
        Seq::empty()
    }
}

proof fn lemma_model_index_prefix(ms: Seq<Model>, name: Seq<char>, n: int)
    requires
        0 < n <= ms.len(),
        model_index(ms.take(n), name) == n - 1,
    ensures
        model_index(ms, name) == n - 1,
    decreases ms.len(),
{
    if n < ms.len() {
        assert(ms.drop_last().take(n) =~= ms.take(n));
        lemma_model_index_prefix(ms.drop_last(), name, n);
    } else {
        assert(ms.take(n) =~= ms);
    }
}

} // verus!
