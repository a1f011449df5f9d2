//! Keyword search over the property names and descriptions of the
//! definitions in schema documents.

use vstd::prelude::*;

verus! {

#[verifier::external_type_specification]
#[verifier::external_body]
pub struct ExRegex(regex::Regex);

#[verifier::external_type_specification]
#[verifier::external_body]
pub struct ExRegexError(regex::Error);

/// Whether `regex` accepts `pattern` (it parses and fits the size limit).
pub uninterp spec fn regex_accepts(pattern: Seq<char>) -> bool;

/// Whether the regex compiled from `pattern` matches somewhere in `text`.
pub uninterp spec fn regex_finds(pattern: Seq<char>, text: Seq<char>) -> bool;

/// Relies on `regex::Regex::new`: whether it compiles depends on the
/// pattern alone.
#[verifier::external_body]
fn compile_regex(pattern: &str) -> (r: Result<regex::Regex, regex::Error>)
    ensures
        r is Ok <==> regex_accepts(pattern@),
{
    regex::Regex::new(pattern)
}

/// Relies on `regex::Regex::is_match`, on a regex that `KeywordMatcher::new`
/// compiled from `m.pattern`: whether it matches anywhere in `text`.
#[verifier::external_body]
fn regex_is_match(m: &KeywordMatcher, text: &str) -> (r: bool)
    ensures
        r == regex_finds(m.pattern@, text@),
{
    m.regex.is_match(text)
}

/// A document as a tree of JSON values. An object keeps its members in
/// order; a lookup finds the first member of a name.
pub enum JsonValue {
    Null,
    Bool(bool),
    Number(String),
    String(String),
    Array(Vec<JsonValue>),
    Object(Vec<(String, JsonValue)>),
}

/// The text that matched in a property's description.
pub struct SearchValueResult {
    pub name: String,
    pub content: String,
}

/// A hit in a property: on its name (`value` is `None`) or on its
/// description.
pub struct SearchPropertyResult {
    pub name: String,
    pub value: Option<SearchValueResult>,
}

/// The hits in one definition of one resource.
pub struct SearchResourceResult {
    pub name: String,
    pub model: String,
    pub properties: Vec<SearchPropertyResult>,
}

/// A resource with its parsed document.
pub struct ParsedDocument {
    pub resource: String,
    pub content: JsonValue,
}

/// Why a search could not run.
#[derive(Debug)]
pub enum SearchError {
    InvalidPattern(regex::Error),
}

/// A keyword compiled as a case-insensitive regex.
pub struct KeywordMatcher {
    regex: regex::Regex,
    pattern: String,
}

pub type HitView = (Seq<char>, Option<(Seq<char>, Seq<char>)>);

pub type ResultView = (Seq<char>, Seq<char>, Seq<HitView>);

pub open spec fn case_insensitive(keyword: Seq<char>) -> Seq<char> {
    seq!['(', '?', 'i', ')'] + keyword
}

pub open spec fn long_description_key() -> Seq<char> {
    seq!['l', 'o', 'n', 'g', 'D', 'e', 's', 'c', 'r', 'i', 'p', 't', 'i', 'o', 'n']
}

pub open spec fn description_key() -> Seq<char> {
    seq!['d', 'e', 's', 'c', 'r', 'i', 'p', 't', 'i', 'o', 'n']
}

pub open spec fn properties_key() -> Seq<char> {
    seq!['p', 'r', 'o', 'p', 'e', 'r', 't', 'i', 'e', 's']
}

pub open spec fn definitions_key() -> Seq<char> {
    seq!['d', 'e', 'f', 'i', 'n', 'i', 't', 'i', 'o', 'n', 's']
}

/// Index of the first member named `key`, or -1.
pub open spec fn member_index(ms: Seq<(String, JsonValue)>, key: Seq<char>) -> int
    decreases ms.len(),
{
    if ms.len() == 0 {
        -1
    } else {
        let p = member_index(ms.drop_last(), key);
        if p >= 0 {
            p
        } else if ms.last().0@ == key {
            ms.len() - 1
        } else {
            -1
        }
    }
}

/// The text of member `key`, where it is a string.
pub open spec fn string_member(ms: Seq<(String, JsonValue)>, key: Seq<char>) -> Option<Seq<char>> {
    let i = member_index(ms, key);
    if i >= 0 {
        match ms[i].1 {
            JsonValue::String(s) => Some(s@),
            _ => None,
        }
    } else {
        None
    }
}

/// The members of member `key`, where it is an object.
pub open spec fn object_member(ms: Seq<(String, JsonValue)>, key: Seq<char>) -> Option<Seq<(String, JsonValue)>> {
    let i = member_index(ms, key);
    if i >= 0 {
        match ms[i].1 {
            JsonValue::Object(o) => Some(o@),
            _ => None,
        }
    } else {
        None
    }
}

/// The description hit of a property: its `longDescription` where that
/// matches, else its `description` where that matches.
pub open spec fn value_hit(p: Seq<char>, property: JsonValue) -> Option<(Seq<char>, Seq<char>)> {
    match property {
        JsonValue::Object(ms) => {
            let ld = string_member(ms@, long_description_key());
            let d = string_member(ms@, description_key());
            if ld is Some && regex_finds(p, ld.unwrap()) {
                Some((long_description_key(), ld.unwrap()))
            } else if d is Some && regex_finds(p, d.unwrap()) {
                Some((description_key(), d.unwrap()))
            } else {
                None
            }
        },
        _ => None,
    }
}

/// The hits of one property: a name hit, then a description hit.
pub open spec fn one_property_hits(p: Seq<char>, name: Seq<char>, property: JsonValue) -> Seq<HitView> {
    let by_name: Seq<HitView> = if regex_finds(p, name) { seq![(name, None)] } else { Seq::empty() };
    let by_value: Seq<HitView> = match value_hit(p, property) {
        Some(h) => seq![(name, Some(h))],
        None => Seq::empty(),
    };
    by_name + by_value
}

/// The hits of properties, in member order.
pub open spec fn property_hits(p: Seq<char>, props: Seq<(String, JsonValue)>) -> Seq<HitView>
    decreases props.len(),
{
    if props.len() == 0 {
        Seq::empty()
    } else {
        property_hits(p, props.drop_last()) + one_property_hits(p, props.last().0@, props.last().1)
    }
}

/// The hits of a definition: of the members of its `properties` object.
pub open spec fn definition_hits(p: Seq<char>, definition: JsonValue) -> Seq<HitView> {
    match definition {
        JsonValue::Object(ms) => match object_member(ms@, properties_key()) {
            Some(props) => property_hits(p, props),
            None => Seq::empty(),
        },
        _ => Seq::empty(),
    }
}

/// One result per definition with hits, in member order.
pub open spec fn definitions_results(p: Seq<char>, resource: Seq<char>, defs: Seq<(String, JsonValue)>) -> Seq<ResultView>
    decreases defs.len(),
{
    if defs.len() == 0 {
        Seq::empty()
    } else {
        let prev = definitions_results(p, resource, defs.drop_last());
        let hits = definition_hits(p, defs.last().1);
        if hits.len() > 0 { prev.push((resource, defs.last().0@, hits)) } else { prev }
    }
}

/// The results of one document: of the members of its `definitions` object.
pub open spec fn document_results(p: Seq<char>, resource: Seq<char>, doc: JsonValue) -> Seq<ResultView> {
    match doc {
        JsonValue::Object(ms) => match object_member(ms@, definitions_key()) {
            Some(defs) => definitions_results(p, resource, defs),
            None => Seq::empty(),
        },
        _ => Seq::empty(),
    }
}

/// The results of all documents, in document order.
pub open spec fn all_results(p: Seq<char>, docs: Seq<ParsedDocument>) -> Seq<ResultView>
    decreases docs.len(),
{
    if docs.len() == 0 {
        Seq::empty()
    } else {
        all_results(p, docs.drop_last()) + document_results(p, docs.last().resource@, docs.last().content)
    }
}

pub open spec fn hit_view(h: SearchPropertyResult) -> HitView {
    (h.name@, match h.value {
        Some(v) => Some((v.name@, v.content@)),
        None => None,
    })
}

pub open spec fn hits_view(hs: Seq<SearchPropertyResult>) -> Seq<HitView> {
    hs.map_values(|h: SearchPropertyResult| hit_view(h))
}

pub open spec fn result_view(r: SearchResourceResult) -> ResultView {
    (r.name@, r.model@, hits_view(r.properties@))
}

pub open spec fn results_view(rs: Seq<SearchResourceResult>) -> Seq<ResultView> {
    rs.map_values(|r: SearchResourceResult| result_view(r))
}

impl KeywordMatcher {
    /// The regex source: the keyword behind a case-insensitive flag.
    pub closed spec fn pattern(&self) -> Seq<char> {
        self.pattern@
    }

    /// Compiles `keyword` as a case-insensitive regex.
    pub fn new(keyword: &str) -> (r: Result<KeywordMatcher, SearchError>)
        ensures
            r is Ok <==> regex_accepts(case_insensitive(keyword@)),
            r matches Ok(m) ==> m.pattern() == case_insensitive(keyword@),
    {
        proof { reveal_strlit("(?i)"); }
        let mut pattern = String::from_str("(?i)");
        pattern.append(keyword);
        assert(pattern@ =~= case_insensitive(keyword@));
        match compile_regex(pattern.as_str()) {
            Ok(regex) => Ok(KeywordMatcher { regex, pattern }),
            Err(e) => Err(SearchError::InvalidPattern(e)),
        }
    }

    /// Whether the keyword occurs in `text`.
    pub fn is_match(&self, text: &str) -> (r: bool)
        ensures
            r == regex_finds(self.pattern(), text@),
    {
        regex_is_match(self, text)
    }
}


proof fn lemma_member_index_prefix(ms: Seq<(String, JsonValue)>, key: Seq<char>, n: int)
    requires
        0 < n <= ms.len(),
        member_index(ms.take(n), key) == n - 1,
    ensures
        member_index(ms, key) == n - 1,
    decreases ms.len(),
{
    if n < ms.len() {
        assert(ms.drop_last().take(n) =~= ms.take(n));
        lemma_member_index_prefix(ms.drop_last(), key, n);
    } else {
        assert(ms.take(n) =~= ms);
    }
}

fn member_position(ms: &Vec<(String, JsonValue)>, key: &str) -> (r: Option<usize>)
    ensures
        r matches Some(i) ==> i as int == member_index(ms@, key@) && i < ms@.len(),
        r is None <==> member_index(ms@, key@) < 0,
{
    let wanted = String::from_str(key);
    let mut i: usize = 0;
    while i < ms.len()
        invariant
            i <= ms@.len(),
            wanted@ == key@,
            member_index(ms@.take(i as int), key@) < 0,
        decreases ms@.len() - i,
    {
        assert(ms@.take(i + 1).drop_last() =~= ms@.take(i as int));
        if ms[i].0.eq(&wanted) {
            proof { lemma_member_index_prefix(ms@, key@, i + 1); }
            return Some(i);
        }
        i = i + 1;
    }
    assert(ms@.take(i as int) =~= ms@);
    None
}

fn string_member_exec<'a>(ms: &'a Vec<(String, JsonValue)>, key: &str) -> (r: Option<&'a String>)
    ensures
        r is Some <==> string_member(ms@, key@) is Some,
        r matches Some(s) ==> s@ == string_member(ms@, key@).unwrap(),
{
    match member_position(ms, key) {
        Some(i) => match &ms[i].1 {
            JsonValue::String(s) => Some(s),
            _ => None,
        },
        None => None,
    }
}

fn object_member_exec<'a>(ms: &'a Vec<(String, JsonValue)>, key: &str) -> (r: Option<&'a Vec<(String, JsonValue)>>)
    ensures
        r is Some <==> object_member(ms@, key@) is Some,
        r matches Some(o) ==> o@ == object_member(ms@, key@).unwrap(),
{
    match member_position(ms, key) {
        Some(i) => match &ms[i].1 {
            JsonValue::Object(o) => Some(o),
            _ => None,
        },
        None => None,
    }
}

/// The description hit of one property: its `longDescription` where the
/// keyword occurs in it, else its `description` where it occurs there.
pub fn match_property(property: &JsonValue, keyword: &KeywordMatcher) -> (r: Option<SearchValueResult>)
    ensures
        r is Some <==> value_hit(keyword.pattern(), *property) is Some,
        r matches Some(v) ==> (v.name@, v.content@) == value_hit(keyword.pattern(), *property).unwrap(),
{
    proof {
        reveal_strlit("longDescription");
        reveal_strlit("description");
    }
    if let JsonValue::Object(ms) = property {
        assert("longDescription"@ =~= long_description_key());
        assert("description"@ =~= description_key());
        if let Some(long_desc) = string_member_exec(ms, "longDescription") {
            if keyword.is_match(long_desc.as_str()) {
                return Some(SearchValueResult {
                    name: String::from_str("longDescription"),
                    content: long_desc.clone(),
                });
            }
        }
        if let Some(desc) = string_member_exec(ms, "description") {
            if keyword.is_match(desc.as_str()) {
                return Some(SearchValueResult {
                    name: String::from_str("description"),
                    content: desc.clone(),
                });
            }
        }
    }
    None
}

/// The hits in the properties of one definition: for each property, in
/// order, a name hit and then a description hit.
pub fn match_definition(definition: &JsonValue, keyword: &KeywordMatcher) -> (r: Vec<SearchPropertyResult>)
    ensures
        hits_view(r@) == definition_hits(keyword.pattern(), *definition),
{
    proof { reveal_strlit("properties"); }
    let mut matches: Vec<SearchPropertyResult> = Vec::new();
    if let JsonValue::Object(ms) = definition {
        assert("properties"@ =~= properties_key());
        if let Some(props) = object_member_exec(ms, "properties") {
            let mut i: usize = 0;
            while i < props.len()
                invariant
                    i <= props@.len(),
                    hits_view(matches@) == property_hits(keyword.pattern(), props@.take(i as int)),
                decreases props@.len() - i,
            {
                assert(props@.take(i + 1).drop_last() =~= props@.take(i as int));
                let ghost before = matches@;
                let name = &props[i].0;
                let property = &props[i].1;
                if keyword.is_match(name.as_str()) {
                    matches.push(SearchPropertyResult { name: name.clone(), value: None });
                }
                let ghost middle = matches@;
                let value = match_property(property, keyword);
                if value.is_some() {
                    matches.push(SearchPropertyResult { name: name.clone(), value });
                }
                proof {
                    let p = keyword.pattern();
                    let one = one_property_hits(p, name@, *property);
                    assert(hits_view(matches@) =~= hits_view(before) + one) by {
                        assert forall|k: int| 0 <= k < before.len() implies matches@[k] == before[k] by {
                            assert(middle[k] == before[k]);
                        }
                    }
                }
                i = i + 1;
            }
            assert(props@.take(i as int) =~= props@);
        }
    }
    matches
}

/// The results of one document: one per definition with hits.
fn search_document(doc: &ParsedDocument, keyword: &KeywordMatcher, out: &mut Vec<SearchResourceResult>)
    ensures
        results_view(final(out)@) == results_view(old(out)@) + document_results(keyword.pattern(), doc.resource@, doc.content),
{
    proof { reveal_strlit("definitions"); }
    let ghost start = out@;
    if let JsonValue::Object(ms) = &doc.content {
        assert("definitions"@ =~= definitions_key());
        if let Some(defs) = object_member_exec(ms, "definitions") {
            let mut i: usize = 0;
            while i < defs.len()
                invariant
                    i <= defs@.len(),
                    results_view(out@) == results_view(start) + definitions_results(keyword.pattern(), doc.resource@, defs@.take(i as int)),
                decreases defs@.len() - i,
            {
                assert(defs@.take(i + 1).drop_last() =~= defs@.take(i as int));
                let ghost before = out@;
                let m = match_definition(&defs[i].1, keyword);
                if m.len() > 0 {
                    out.push(SearchResourceResult {
                        name: doc.resource.clone(),
                        model: defs[i].0.clone(),
                        properties: m,
                    });
                    assert(results_view(out@) =~= results_view(before).push(result_view(out@.last())));
                }
                i = i + 1;
            }
            assert(defs@.take(i as int) =~= defs@);
            return;
        }
    }
    assert(results_view(out@) =~= results_view(start) + document_results(keyword.pattern(), doc.resource@, doc.content));
}

/// The results of all documents, in document order, then definition order.
pub fn search_by_keyword(keyword: &KeywordMatcher, docs: &Vec<ParsedDocument>) -> (r: Vec<SearchResourceResult>)
    ensures
        results_view(r@) == all_results(keyword.pattern(), docs@),
{
    let mut matches: Vec<SearchResourceResult> = Vec::new();
    let mut i: usize = 0;
    while i < docs.len()
        invariant
            i <= docs@.len(),
            results_view(matches@) == all_results(keyword.pattern(), docs@.take(i as int)),
        decreases docs@.len() - i,
    {
        assert(docs@.take(i + 1).drop_last() =~= docs@.take(i as int));
        search_document(&docs[i], keyword, &mut matches);
        i = i + 1;
    }
    assert(docs@.take(i as int) =~= docs@);
    matches
}

/// Searches `docs` for `keyword`, compared without regard to case.
pub fn search(keyword: &str, docs: &Vec<ParsedDocument>) -> (r: Result<Vec<SearchResourceResult>, SearchError>)
    ensures
        r is Ok <==> regex_accepts(case_insensitive(keyword@)),
        r matches Ok(v) ==> results_view(v@) == all_results(case_insensitive(keyword@), docs@),
{
    let m = KeywordMatcher::new(keyword)?;
    Ok(search_by_keyword(&m, docs))
}

} // verus!
