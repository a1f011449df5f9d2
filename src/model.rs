//! The documents of one resource and the rules that pick one of them.

use vstd::prelude::*;
use crate::version::{Version, version_lt, version_text};

verus! {

broadcast use vstd::seq_lib::to_multiset_build, vstd::seq_lib::to_multiset_insert;

/// One document of a resource: `name` is its version, `None` for the
/// unversioned default document.
pub struct ModelVersion {
    pub name: Option<Version>,
    pub path: String,
}

/// All documents of one resource.
pub struct Model {
    pub resource: String,
    pub versions: Vec<ModelVersion>,
}

/// Why a lookup found nothing.
#[derive(Clone, Copy, Debug, PartialEq, Eq, Structural)]
pub enum LookupError {
    UnknownResource,
    NoDefaultVersion,
}

/// Index of the last unversioned entry, or -1.
pub open spec fn default_index(vs: Seq<ModelVersion>) -> int
    decreases vs.len(),
{
    if vs.len() == 0 {
        -1
    } else if vs.last().name is None {
        vs.len() - 1
    } else {
        default_index(vs.drop_last())
    }
}

/// Index of the first entry whose version is the greatest, or -1 when no
/// entry has a version.
pub open spec fn latest_index(vs: Seq<ModelVersion>) -> int
    decreases vs.len(),
{
    if vs.len() == 0 {
        -1
    } else {
        let p = latest_index(vs.drop_last());
        match vs.last().name {
            Some(v) => if p < 0 || version_lt(vs[p].name.unwrap(), v) {
                vs.len() - 1
            } else {
                p
            },
            None => p,
        }
    }
}

/// Index of the first entry whose canonical version text is `text`, or -1.
pub open spec fn version_index(vs: Seq<ModelVersion>, text: Seq<char>) -> int
    decreases vs.len(),
{
    if vs.len() == 0 {
        -1
    } else {
        let p = version_index(vs.drop_last(), text);
        if p >= 0 {
            p
        } else if vs.last().name is Some && version_text(vs.last().name.unwrap()) == text {
            vs.len() - 1
        } else {
            -1
        }
    }
}

/// The versions of the versioned entries, in entry order.
pub open spec fn named_versions(vs: Seq<ModelVersion>) -> Seq<Version>
    decreases vs.len(),
{
    if vs.len() == 0 {
        Seq::empty()
    } else {
        match vs.last().name {
            Some(v) => named_versions(vs.drop_last()).push(v),
            None => named_versions(vs.drop_last()),
        }
    }
}

/// Greatest first: no version is smaller than one after it.
pub open spec fn descending(s: Seq<Version>) -> bool {
    forall|i: int, j: int| 0 <= i < j < s.len() ==> !version_lt(#[trigger] s[i], #[trigger] s[j])
}

/// The document `find_latest` picks: the latest version, else the default.
pub open spec fn latest_or_default(vs: Seq<ModelVersion>) -> int {
    if latest_index(vs) >= 0 { latest_index(vs) } else { default_index(vs) }
}

impl Model {
    fn default_position(&self) -> (r: Option<usize>)
        ensures
            r matches Some(i) ==> i as int == default_index(self.versions@) && i < self.versions@.len(),
            r is None <==> default_index(self.versions@) < 0,
    {
        let mut found: Option<usize> = None;
        let mut i: usize = 0;
        while i < self.versions.len()
            invariant
                i <= self.versions@.len(),
                found matches Some(k) ==> k as int == default_index(self.versions@.take(i as int)) && k < i,
                found is None <==> default_index(self.versions@.take(i as int)) < 0,
            decreases self.versions@.len() - i,
        {
            assert(self.versions@.take(i + 1).drop_last() =~= self.versions@.take(i as int));
            if self.versions[i].name.is_none() {
                found = Some(i);
            }
            i = i + 1;
        }
        assert(self.versions@.take(i as int) =~= self.versions@);
        found
    }

    /// The unversioned document; the last one where there are several.
    pub fn find_default_version(&self) -> (r: Result<&ModelVersion, LookupError>)
        ensures
            r is Ok <==> default_index(self.versions@) >= 0,
            r matches Ok(mv) ==> *mv == self.versions@[default_index(self.versions@)],
            r matches Err(e) ==> e == LookupError::NoDefaultVersion,
    {
        match self.default_position() {
            Some(i) => Ok(&self.versions[i]),
            None => Err(LookupError::NoDefaultVersion),
        }
    }

    fn latest_position(&self) -> (r: Option<usize>)
        ensures
            r matches Some(i) ==> i as int == latest_index(self.versions@) && i < self.versions@.len(),
            r is None <==> latest_index(self.versions@) < 0,
    {
        let mut found: Option<usize> = None;
        let mut i: usize = 0;
        while i < self.versions.len()
            invariant
                i <= self.versions@.len(),
                found matches Some(k) ==> k as int == latest_index(self.versions@.take(i as int)) && k < i,
                found is None <==> latest_index(self.versions@.take(i as int)) < 0,
                forall|k: int| 0 <= k < i ==> self.versions@.take(i as int)[k] == self.versions@[k],
                latest_index(self.versions@.take(i as int)) < i,
            decreases self.versions@.len() - i,
        {
            let ghost pre = self.versions@.take(i as int);
            let ghost cur = self.versions@.take(i + 1);
            assert(cur.drop_last() =~= pre);
            proof { lemma_latest_index_named(pre); }
            match self.versions[i].name {
                Some(v) => match found {
                    None => {
                        found = Some(i);
                    },
                    Some(k) => {
                        let best = self.versions[k].name.unwrap();
                        if matches!(best.cmp(&v), std::cmp::Ordering::Less) {
                            found = Some(i);
                        }
                    },
                },
                None => {},
            }
            i = i + 1;
        }
        assert(self.versions@.take(i as int) =~= self.versions@);
        found
    }

    /// The document with the greatest version (the first of equal ones), or
    /// the default document where no document has a version.
    pub fn find_latest(&self) -> (r: Result<&ModelVersion, LookupError>)
        ensures
            r is Ok <==> latest_or_default(self.versions@) >= 0,
            r matches Ok(mv) ==> *mv == self.versions@[latest_or_default(self.versions@)],
            r matches Err(e) ==> e == LookupError::NoDefaultVersion,
    {
        match self.latest_position() {
            Some(i) => Ok(&self.versions[i]),
            None => self.find_default_version(),
        }
    }

    /// The first versioned document whose canonical version text is `version`.
    pub fn find_version(&self, version: &str) -> (r: Option<&ModelVersion>)
        ensures
            r is Some <==> version_index(self.versions@, version@) >= 0,
            r matches Some(mv) ==> *mv == self.versions@[version_index(self.versions@, version@)],
    {
        let wanted = String::from_str(version);
        let mut i: usize = 0;
        while i < self.versions.len()
            invariant
                i <= self.versions@.len(),
                wanted@ == version@,
                version_index(self.versions@.take(i as int), version@) < 0,
            decreases self.versions@.len() - i,
        {
            assert(self.versions@.take(i + 1).drop_last() =~= self.versions@.take(i as int));
            if let Some(v) = self.versions[i].name {
                if v.to_string() == wanted {
                    proof { lemma_version_index_prefix(self.versions@, version@, i + 1); }
                    return Some(&self.versions[i]);
                }
            }
            i = i + 1;
        }
        assert(self.versions@.take(i as int) =~= self.versions@);
        None
    }

    /// The versions of the versioned documents, greatest first.
    pub fn versions_descending(&self) -> (r: Vec<Version>)
        ensures
            descending(r@),
            r@.to_multiset() == named_versions(self.versions@).to_multiset(),
    {
        let mut out: Vec<Version> = Vec::new();
        let mut i: usize = 0;
        while i < self.versions.len()
            invariant
                i <= self.versions@.len(),
                descending(out@),
                out@.to_multiset() == named_versions(self.versions@.take(i as int)).to_multiset(),
            decreases self.versions@.len() - i,
        {
            assert(self.versions@.take(i + 1).drop_last() =~= self.versions@.take(i as int));
            if let Some(v) = self.versions[i].name {
                let mut p: usize = 0;
                while p < out.len() && !matches!(out[p].cmp(&v), std::cmp::Ordering::Less)
                    invariant
                        p <= out@.len(),
                        forall|k: int| 0 <= k < p ==> !version_lt(#[trigger] out@[k], v),
                    decreases out@.len() - p,
                {
                    p = p + 1;
                }
                let ghost before = out@;
                out.insert(p, v);
                assert(descending(out@)) by {
                    assert forall|a: int, b: int| 0 <= a < b < out@.len() implies !version_lt(#[trigger] out@[a], #[trigger] out@[b]) by {
                        if a < p && b > p {
                            assert(out@[b] == before[b - 1]);
                        }
                        if a > p {
                            assert(out@[a] == before[a - 1]);
                        }
                        if a == p && b > p {
                            assert(version_lt(before[p as int], v));
                            assert(out@[b] == before[b - 1]);
                        }
                    }
                }
            }
            i = i + 1;
        }
        assert(self.versions@.take(i as int) =~= self.versions@);
        out
    }
}

proof fn lemma_version_index_prefix(vs: Seq<ModelVersion>, text: Seq<char>, n: int)
    requires
        0 < n <= vs.len(),
        version_index(vs.take(n), text) == n - 1,
    ensures
        version_index(vs, text) == n - 1,
    decreases vs.len(),
{
    if n < vs.len() {
        assert(vs.drop_last().take(n) =~= vs.take(n));
        lemma_version_index_prefix(vs.drop_last(), text, n);
    } else {
        assert(vs.take(n) =~= vs);
    }
}

proof fn lemma_latest_index_named(vs: Seq<ModelVersion>)
    ensures
        -1 <= latest_index(vs) < vs.len(),
        latest_index(vs) >= 0 ==> vs[latest_index(vs)].name is Some,
    decreases vs.len(),
{
    if vs.len() > 0 {
        lemma_latest_index_named(vs.drop_last());
    }
}

/// The latest document carries a version that no other versioned document
/// exceeds; where no document has a version, `find_latest` resolves to the
/// default document.
pub proof fn lemma_latest_is_greatest(vs: Seq<ModelVersion>)
    ensures
        latest_index(vs) >= 0 <==> exists|j: int| 0 <= j < vs.len() && (#[trigger] vs[j]).name is Some,
        latest_index(vs) >= 0 ==> vs[latest_index(vs)].name is Some && forall|j: int|
            0 <= j < vs.len() && (#[trigger] vs[j]).name is Some ==> !version_lt(
                vs[latest_index(vs)].name.unwrap(),
                vs[j].name.unwrap(),
            ),
        latest_index(vs) < 0 ==> latest_or_default(vs) == default_index(vs),
    decreases vs.len(),
{
    lemma_latest_index_named(vs);
    if vs.len() > 0 {
        let d = vs.drop_last();
        lemma_latest_is_greatest(d);
        lemma_latest_index_named(d);
        assert(forall|j: int| 0 <= j < d.len() ==> d[j] == vs[j]);
        if latest_index(d) < 0 && vs.last().name is None {
            assert forall|j: int| 0 <= j < vs.len() implies (#[trigger] vs[j]).name is None by {
                if j < d.len() {
                    assert(d[j] == vs[j]);
                }
            }
        }
    }
}

} // verus!
