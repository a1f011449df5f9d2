//! The navigation history through cross-referenced resources.

use vstd::prelude::*;
use crate::registry::{Registry, latest_text, model_index};

verus! {

#[verifier::external_type_specification]
#[verifier::external_body]
pub struct ExUrlParseError(url::ParseError);

/// Whether `url` parses `link` as an absolute URL.
pub uninterp spec fn url_accepts(link: Seq<char>) -> bool;

/// The path of the URL that `url` parses from `link`.
pub uninterp spec fn url_path(link: Seq<char>) -> Seq<char>;

/// The fragment (after `#`) of the URL that `url` parses from `link`.
pub uninterp spec fn url_fragment(link: Seq<char>) -> Option<Seq<char>>;

/// Relies on `url::Url::parse`, `url::Url::path` and `url::Url::fragment`:
/// whether `link` parses, and the path and fragment of the result, depend
/// on `link` alone.
#[verifier::external_body]
fn link_parts(link: &str) -> (r: Result<(String, Option<String>), url::ParseError>)
    ensures
        r is Ok <==> url_accepts(link@),
        r matches Ok((p, _)) ==> p@ == url_path(link@),
        r matches Ok((_, f)) ==> (f is Some <==> url_fragment(link@) is Some),
        r matches Ok((_, Some(f))) ==> f@ == url_fragment(link@).unwrap(),
{
    url::Url::parse(link).map(|u| (u.path().to_string(), u.fragment().map(|f| f.to_string())))
}

/// A place in the schemas: a resource, its displayed version, and a fragment
/// inside its document.
pub struct RedfishModel {
    pub link: String,
    pub resource: String,
    pub version: String,
    pub fragment: String,
}

/// Why a link could not be followed.
#[derive(Debug)]
pub enum LinkError {
    /// The link is not a URL.
    InvalidUrl(url::ParseError),
    /// The path is not `/schemas/v1/<resource>.json`.
    LinkNotRecognized,
    /// No document of the resource is indexed.
    UnknownResource,
}

/// link, resource, version, fragment
pub type RefView = (Seq<char>, Seq<char>, Seq<char>, Seq<char>);

pub open spec fn ref_view(m: RedfishModel) -> RefView {
    (m.link@, m.resource@, m.version@, m.fragment@)
}

pub open spec fn refs_view(ms: Seq<RedfishModel>) -> Seq<RefView> {
    ms.map_values(|m: RedfishModel| ref_view(m))
}

/// The link of a resource's document.
pub open spec fn link_of(resource: Seq<char>) -> Seq<char> {
    "http://redfish.dmtf.org/schemas/v1/"@ + resource + ".json"@
}

/// The reference at which navigation starts for `resource`.
pub open spec fn root_ref(resource: Seq<char>) -> RefView {
    (link_of(resource), resource, Seq::empty(), Seq::empty())
}

pub open spec fn schemas_prefix() -> Seq<char> {
    seq!['/', 's', 'c', 'h', 'e', 'm', 'a', 's', '/', 'v', '1', '/']
}

pub open spec fn json_suffix() -> Seq<char> {
    seq!['.', 'j', 's', 'o', 'n']
}

/// The resource that a path `/schemas/v1/<resource>.json` names.
pub open spec fn resource_of_path(path: Seq<char>) -> Option<Seq<char>> {
    let n = path.len() as int;
    if n >= 17 && path.take(12) == schemas_prefix() && path.subrange(n - 5, n) == json_suffix() {
        Some(path.subrange(12, n - 5))
    } else {
        None
    }
}

/// Index of the entry of `resource` in a stack, or -1.
pub open spec fn resource_index(s: Seq<RefView>, resource: Seq<char>) -> int
    decreases s.len(),
{
    if s.len() == 0 {
        -1
    } else {
        let p = resource_index(s.drop_last(), resource);
        if p >= 0 {
            p
        } else if s.last().1 == resource {
            s.len() - 1
        } else {
            -1
        }
    }
}

/// The stack after navigating to `r`: where its resource is already in the
/// stack, everything from that entry on is replaced by `r`; else `r` is
/// added at the end.
pub open spec fn navigated(s: Seq<RefView>, r: RefView) -> Seq<RefView> {
    let i = resource_index(s, r.1);
    if i >= 0 { s.take(i).push(r) } else { s.push(r) }
}

/// Not empty, and no resource twice.
pub open spec fn stack_ok(s: Seq<RefView>) -> bool {
    &&& s.len() >= 1
    &&& forall|i: int, j: int| 0 <= i < j < s.len() ==> (#[trigger] s[i]).1 != (#[trigger] s[j]).1
}

/// The history of visited resources, oldest first.
pub struct CurrentPosition {
    models: Vec<RedfishModel>,
}

impl RedfishModel {
    /// The reference to the document of `resource`, with no version and no
    /// fragment.
    pub fn from_resource(resource: &str) -> (r: RedfishModel)
        ensures
            ref_view(r) == root_ref(resource@),
    {
        let mut link = String::from_str("http://redfish.dmtf.org/schemas/v1/");
        link.append(resource);
        link.append(".json");
        RedfishModel {
            link,
            resource: String::from_str(resource),
            version: String::new(),
            fragment: String::new(),
        }
    }

    /// A second reference with the same fields.
    pub fn duplicate(&self) -> (r: RedfishModel)
        ensures
            ref_view(r) == ref_view(*self),
    {
        RedfishModel {
            link: self.link.clone(),
            resource: self.resource.clone(),
            version: self.version.clone(),
            fragment: self.fragment.clone(),
        }
    }
}

proof fn lemma_resource_index(s: Seq<RefView>, resource: Seq<char>)
    ensures
        -1 <= resource_index(s, resource) < s.len(),
        resource_index(s, resource) >= 0 ==> s[resource_index(s, resource)].1 == resource,
        resource_index(s, resource) >= 0 ==> forall|k: int| 0 <= k < resource_index(s, resource) ==> (#[trigger] s[k]).1 != resource,
        resource_index(s, resource) < 0 ==> forall|k: int| 0 <= k < s.len() ==> (#[trigger] s[k]).1 != resource,
    decreases s.len(),
{
    if s.len() > 0 {
        lemma_resource_index(s.drop_last(), resource);
        assert(forall|k: int| 0 <= k < s.len() - 1 ==> s.drop_last()[k] == s[k]);
    }
}

/// Navigating keeps the history non-empty and free of repeated resources;
/// where the target's resource is already in the history, every entry after
/// it is dropped and that entry is replaced by the target.
pub proof fn lemma_navigated_stack(s: Seq<RefView>, r: RefView)
    requires
        stack_ok(s),
    ensures
        stack_ok(navigated(s, r)),
        navigated(s, r).last() == r,
        forall|k: int| 0 <= k < s.len() && (#[trigger] s[k]).1 == r.1 ==> navigated(s, r) == s.take(k).push(r),
        (forall|k: int| 0 <= k < s.len() ==> (#[trigger] s[k]).1 != r.1) ==> navigated(s, r) == s.push(r),
{
    lemma_resource_index(s, r.1);
    let t = navigated(s, r);
    assert forall|i: int, j: int| 0 <= i < j < t.len() implies (#[trigger] t[i]).1 != (#[trigger] t[j]).1 by {
        if j < t.len() - 1 {
            assert(t[i] == s[i] && t[j] == s[j]);
        } else {
            assert(t[i] == s[i]);
        }
    }
    assert forall|k: int| 0 <= k < s.len() && (#[trigger] s[k]).1 == r.1 implies navigated(s, r) == s.take(k).push(r) by {
        let i = resource_index(s, r.1);
        if i != k {
            assert(s[i].1 == s[k].1);
        }
    }
}

/// Going back to a resource visited before drops what was visited after
/// it: from `[a]`, visiting `b`, then `c`, then `b` again leaves `[a, b]`.
pub proof fn lemma_revisit_truncates(a: RefView, b: RefView, c: RefView, b_again: RefView)
    requires
        a.1 != b.1,
        a.1 != c.1,
        b.1 != c.1,
        b_again.1 == b.1,
    ensures
        navigated(navigated(navigated(seq![a], b), c), b_again) == seq![a, b_again],
{
    let s1 = navigated(seq![a], b);
    lemma_navigated_stack(seq![a], b);
    assert(seq![a][0].1 != b.1);
    assert(s1 =~= seq![a, b]);
    lemma_navigated_stack(s1, c);
    assert(s1[0].1 != c.1 && s1[1].1 != c.1);
    let s2 = navigated(s1, c);
    assert(s2 =~= seq![a, b, c]);
    lemma_navigated_stack(s2, b_again);
    assert(s2[1].1 == b_again.1);
    assert(s2.take(1).push(b_again) =~= seq![a, b_again]);
}

proof fn lemma_resource_index_prefix(s: Seq<RefView>, resource: Seq<char>, n: int)
    requires
        0 < n <= s.len(),
        resource_index(s.take(n), resource) == n - 1,
    ensures
        resource_index(s, resource) == n - 1,
    decreases s.len(),
{
    if n < s.len() {
        assert(s.drop_last().take(n) =~= s.take(n));
        lemma_resource_index_prefix(s.drop_last(), resource, n);
    } else {
        assert(s.take(n) =~= s);
    }
}

fn resource_from_path(path: &str) -> (r: Option<String>)
    ensures
        r is Some <==> resource_of_path(path@) is Some,
        r matches Some(s) ==> s@ == resource_of_path(path@).unwrap(),
{
    proof {
        reveal_strlit("/schemas/v1/");
        reveal_strlit(".json");
    }
    let prefix = "/schemas/v1/";
    let suffix = ".json";
    assert(prefix@ =~= schemas_prefix());
    assert(suffix@ =~= json_suffix());
    let n = path.unicode_len();
    if n < 17 {
        return None;
    }
    let mut k: usize = 0;
    while k < 12
        invariant
            k <= 12 <= n == path@.len(),
            prefix@ == schemas_prefix(),
            forall|j: int| 0 <= j < k ==> path@[j] == schemas_prefix()[j],
        decreases 12 - k,
    {
        if path.get_char(k) != prefix.get_char(k) {
            assert(path@.take(12)[k as int] != schemas_prefix()[k as int]);
            return None;
        }
        k = k + 1;
    }
    assert(path@.take(12) =~= schemas_prefix());
    let mut k: usize = 0;
    while k < 5
        invariant
            k <= 5,
            17 <= n == path@.len(),
            suffix@ == json_suffix(),
            forall|j: int| 0 <= j < k ==> path@[n - 5 + j] == json_suffix()[j],
        decreases 5 - k,
    {
        if path.get_char(n - 5 + k) != suffix.get_char(k) {
            assert(path@.subrange(n - 5, n as int)[k as int] != json_suffix()[k as int]);
            return None;
        }
        k = k + 1;
    }
    assert(path@.subrange(n - 5, n as int) =~= json_suffix());
    Some(String::from_str(path.substring_char(12, n - 5)))
}

impl CurrentPosition {
    pub closed spec fn view(&self) -> Seq<RefView> {
        refs_view(self.models@)
    }

    /// A history that holds the service root only.
    pub fn new() -> (r: CurrentPosition)
        ensures
            r.view() == seq![root_ref("ServiceRoot"@)],
            stack_ok(r.view()),
    {
        let root = RedfishModel::from_resource("ServiceRoot");
        let models = vec![root];
        assert(refs_view(models@) =~= seq![root_ref("ServiceRoot"@)]);
        CurrentPosition { models }
    }

    /// A copy of the whole history.
    pub fn current(&self) -> (r: Vec<RedfishModel>)
        ensures
            refs_view(r@) == self.view(),
    {
        let mut out: Vec<RedfishModel> = Vec::new();
        let mut i: usize = 0;
        while i < self.models.len()
            invariant
                i <= self.models@.len(),
                out@.len() == i,
                refs_view(out@) == refs_view(self.models@.take(i as int)),
            decreases self.models@.len() - i,
        {
            let ghost before = out@;
            out.push(self.models[i].duplicate());
            assert(refs_view(out@) =~= refs_view(self.models@.take(i + 1))) by {
                assert forall|k: int| 0 <= k < i implies refs_view(out@)[k] == refs_view(self.models@.take(i + 1))[k] by {
                    assert(out@[k] == before[k]);
                    assert(self.models@.take(i + 1)[k] == self.models@.take(i as int)[k]);
                    assert(refs_view(before)[k] == refs_view(self.models@.take(i as int))[k]);
                }
            }
            i = i + 1;
        }
        assert(self.models@.take(i as int) =~= self.models@);
        out
    }

    fn position_of(&self, resource: &String) -> (r: Option<usize>)
        ensures
            r matches Some(i) ==> i as int == resource_index(self.view(), resource@) && i < self.models@.len(),
            r is None <==> resource_index(self.view(), resource@) < 0,
    {
        let mut i: usize = 0;
        while i < self.models.len()
            invariant
                i <= self.models@.len(),
                resource_index(refs_view(self.models@.take(i as int)), resource@) < 0,
            decreases self.models@.len() - i,
        {
            assert(refs_view(self.models@.take(i + 1)).drop_last() =~= refs_view(self.models@.take(i as int)));
            if self.models[i].resource.eq(resource) {
                proof {
                    assert(refs_view(self.models@).take(i + 1) =~= refs_view(self.models@.take(i + 1)));
                    assert(refs_view(self.models@.take(i + 1)).last().1 == resource@);
                    lemma_resource_index_prefix(refs_view(self.models@), resource@, i + 1);
                }
                return Some(i);
            }
            i = i + 1;
        }
        assert(self.models@.take(i as int) =~= self.models@);
        None
    }

    /// Follows `link`, which must be `.../schemas/v1/<resource>.json[#fragment]`
    /// for an indexed resource, and records the visit: a resource visited
    /// before becomes the last entry again, with the entries after it
    /// dropped. Returns the new current reference, which shows the latest
    /// version of the resource (empty where it has none).
    pub fn get_schema_by_url(&mut self, registry: &Registry, link: &str) -> (r: Result<RedfishModel, LinkError>)
        ensures
            !url_accepts(link@) ==> r matches Err(LinkError::InvalidUrl(_)),
            url_accepts(link@) && resource_of_path(url_path(link@)) is None ==> r matches Err(LinkError::LinkNotRecognized),
            url_accepts(link@) && resource_of_path(url_path(link@)) is Some
                && model_index(registry.models@, resource_of_path(url_path(link@)).unwrap()) < 0
                ==> r matches Err(LinkError::UnknownResource),
            r is Err ==> final(self).view() == old(self).view(),
            stack_ok(old(self).view()) ==> stack_ok(final(self).view()),
            r is Ok <==> url_accepts(link@) && resource_of_path(url_path(link@)) is Some
                && model_index(registry.models@, resource_of_path(url_path(link@)).unwrap()) >= 0,
            r matches Ok(m) ==> {
                let res = resource_of_path(url_path(link@)).unwrap();
                &&& ref_view(m) == (link@, res,
                    latest_text(registry.models@[model_index(registry.models@, res)].versions@),
                    match url_fragment(link@) { Some(f) => f, None => Seq::<char>::empty() })
                &&& final(self).view() == navigated(old(self).view(), ref_view(m))
            },
    {
        let (path, frag) = match link_parts(link) {
            Ok(parts) => parts,
            Err(e) => {
                return Err(LinkError::InvalidUrl(e));
            },
        };
        let resource = match resource_from_path(path.as_str()) {
            Some(res) => res,
            None => {
                return Err(LinkError::LinkNotRecognized);
            },
        };
        let version = match registry.latest_version_text(resource.as_str()) {
            Ok(v) => v,
            Err(_) => {
                return Err(LinkError::UnknownResource);
            },
        };
        let fragment = match frag {
            Some(f) => f,
            None => String::new(),
        };
        let model = RedfishModel { link: String::from_str(link), resource, version, fragment };
        let ghost old_view = self.view();
        match self.position_of(&model.resource) {
            Some(i) => {
                self.models.truncate(i);
                assert(refs_view(self.models@) =~= old_view.take(i as int));
                self.models.push(model.duplicate());
            },
            None => {
                self.models.push(model.duplicate());
            },
        }
        assert(self.view() =~= navigated(old_view, ref_view(model)));
        proof {
            if stack_ok(old_view) {
                lemma_navigated_stack(old_view, ref_view(model));
            }
        }
        Ok(model)
    }

    /// Drops the history and starts again at `resource`.
    pub fn reset(&mut self, resource: &str)
        ensures
            final(self).view() == seq![root_ref(resource@)],
            stack_ok(final(self).view()),
    {
        self.models.clear();
        self.models.push(RedfishModel::from_resource(resource));
        assert(refs_view(self.models@) =~= seq![root_ref(resource@)]);
    }
}

} // verus!
