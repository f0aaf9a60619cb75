//! The data the lifecycle engine works on: artifact descriptors and
//! references, the structured input (invocation) and output (result) of
//! a workload, the artifact-repository configuration, and the string map
//! of a fetched configuration record. All text is carried as UTF-8
//! bytes; the I/O layer converts at the edges.

use vstd::prelude::*;

verus! {

/// A byte that may stand unescaped inside a JSON string: not a quote,
/// not a backslash, not a control character.
pub open spec fn ok_byte(b: u8) -> bool {
    b != 34 && b != 92 && b >= 32
}

/// A byte string that may stand verbatim inside a JSON string.
pub open spec fn ok_str(s: Seq<u8>) -> bool {
    forall|i: int| 0 <= i < s.len() ==> ok_byte(s[i])
}

/// Names an artifact to fetch into, or an output to upload out of, the
/// working directory, together with its path inside that directory.
pub struct ArtifactDescriptor {
    pub name: Vec<u8>,
    pub path: Vec<u8>,
}

/// Spec-level image of an `ArtifactDescriptor`.
pub ghost struct DescView {
    pub name: Seq<u8>,
    pub path: Seq<u8>,
}

impl View for ArtifactDescriptor {
    type V = DescView;

    open spec fn view(&self) -> DescView {
        DescView { name: self.name@, path: self.path@ }
    }
}

pub open spec fn wf_desc(d: DescView) -> bool {
    ok_str(d.name) && ok_str(d.path)
}

/// The remote locator an upload returns for an artifact.
pub struct ArtifactRef {
    pub name: Vec<u8>,
    pub url: Vec<u8>,
}

/// Spec-level image of an `ArtifactRef`.
pub ghost struct RefView {
    pub name: Seq<u8>,
    pub url: Seq<u8>,
}

impl View for ArtifactRef {
    type V = RefView;

    open spec fn view(&self) -> RefView {
        RefView { name: self.name@, url: self.url@ }
    }
}

pub open spec fn wf_ref(r: RefView) -> bool {
    ok_str(r.name) && ok_str(r.url)
}

/// One entry of a result's artifact list: a local descriptor before
/// upload, a remote reference after.
pub enum ArtifactItem {
    Local(ArtifactDescriptor),
    Remote(ArtifactRef),
}

/// Spec-level image of an `ArtifactItem`.
pub ghost enum ItemView {
    Local(DescView),
    Remote(RefView),
}

impl View for ArtifactItem {
    type V = ItemView;

    open spec fn view(&self) -> ItemView {
        match self {
            ArtifactItem::Local(d) => ItemView::Local(d@),
            ArtifactItem::Remote(r) => ItemView::Remote(r@),
        }
    }
}

pub open spec fn wf_item(v: ItemView) -> bool {
    match v {
        ItemView::Local(d) => wf_desc(d),
        ItemView::Remote(r) => wf_ref(r),
    }
}

/// The structured input of a workload: the workflow it belongs to, the
/// artifacts it asks for, and an opaque parameter payload.
pub struct Invocation {
    pub workflow_name: Vec<u8>,
    pub artifacts: Vec<ArtifactDescriptor>,
    pub parameters: Vec<u8>,
}

/// Spec-level image of an `Invocation`.
pub ghost struct InvView {
    pub workflow_name: Seq<u8>,
    pub artifacts: Seq<DescView>,
    pub parameters: Seq<u8>,
}

/// The spec-level image of a vector of descriptors.
pub open spec fn descs_view(v: Vec<ArtifactDescriptor>) -> Seq<DescView> {
    v@.map_values(|d: ArtifactDescriptor| d@)
}

impl View for Invocation {
    type V = InvView;

    open spec fn view(&self) -> InvView {
        InvView {
            workflow_name: self.workflow_name@,
            artifacts: descs_view(self.artifacts),
            parameters: self.parameters@,
        }
    }
}

pub open spec fn wf_inv(v: InvView) -> bool {
    ok_str(v.workflow_name)
    && ok_str(v.parameters)
    && forall|i: int| 0 <= i < v.artifacts.len() ==> wf_desc(#[trigger] v.artifacts[i])
}

/// The structured output of a workload: the artifacts it produced and
/// an opaque payload. The artifact list holds local descriptors as read
/// from the working directory; uploads replace them with remote
/// references in place.
pub struct WorkloadResult {
    pub artifacts: Vec<ArtifactItem>,
    pub payload: Vec<u8>,
}

/// Spec-level image of a `WorkloadResult`.
pub ghost struct ResView {
    pub artifacts: Seq<ItemView>,
    pub payload: Seq<u8>,
}

impl View for WorkloadResult {
    type V = ResView;

    open spec fn view(&self) -> ResView {
        ResView { artifacts: items_view(self.artifacts), payload: self.payload@ }
    }
}

pub open spec fn wf_res(v: ResView) -> bool {
    ok_str(v.payload)
    && forall|i: int| 0 <= i < v.artifacts.len() ==> wf_item(#[trigger] v.artifacts[i])
}

/// The spec-level image of a vector of artifact items.
pub open spec fn items_view(v: Vec<ArtifactItem>) -> Seq<ItemView> {
    v@.map_values(|a: ArtifactItem| a@)
}

/// An item list holding only local descriptors, as the working
/// directory delivers it before any upload.
pub open spec fn all_local_items(its: Seq<ItemView>) -> bool {
    forall|i: int| 0 <= i < its.len() ==> (#[trigger] its[i]) is Local
}

/// A result whose artifact list holds only local descriptors.
pub open spec fn all_local(v: ResView) -> bool {
    all_local_items(v.artifacts)
}

/// The descriptor a local item holds; a placeholder image for remote
/// items, which only stands where a list is known to be all local.
pub open spec fn local_desc(it: ItemView) -> DescView {
    match it {
        ItemView::Local(d) => d,
        ItemView::Remote(r) => DescView { name: r.name, path: r.url },
    }
}

/// The descriptors of an all-local item list.
pub open spec fn locals_of(its: Seq<ItemView>) -> Seq<DescView> {
    its.map_values(|it: ItemView| local_desc(it))
}

/// The artifact-repository configuration declared in the record.
pub struct RepoConfig {
    pub endpoint: Vec<u8>,
    pub bucket: Vec<u8>,
}

/// Spec-level image of a `RepoConfig`.
pub ghost struct RepoView {
    pub endpoint: Seq<u8>,
    pub bucket: Seq<u8>,
}

impl View for RepoConfig {
    type V = RepoView;

    open spec fn view(&self) -> RepoView {
        RepoView { endpoint: self.endpoint@, bucket: self.bucket@ }
    }
}

pub open spec fn wf_repo(v: RepoView) -> bool {
    ok_str(v.endpoint) && ok_str(v.bucket)
}

/// One key/value entry of a configuration record's data section.
pub struct ConfigEntry {
    pub key: Vec<u8>,
    pub value: Vec<u8>,
}

/// Spec-level image of a `ConfigEntry`.
pub ghost struct EntryView {
    pub key: Seq<u8>,
    pub value: Seq<u8>,
}

impl View for ConfigEntry {
    type V = EntryView;

    open spec fn view(&self) -> EntryView {
        EntryView { key: self.key@, value: self.value@ }
    }
}

/// The spec-level image of an entry list.
pub open spec fn entries_view(v: Vec<ConfigEntry>) -> Seq<EntryView> {
    v@.map_values(|e: ConfigEntry| e@)
}

/// The data section of a fetched configuration record, as a list of
/// key/value entries in record order.
pub struct ConfigData {
    pub entries: Vec<ConfigEntry>,
}

/// The value of the first entry carrying `key`, if any.
pub open spec fn spec_lookup(entries: Seq<EntryView>, key: Seq<u8>) -> Option<Seq<u8>>
    decreases entries.len(),
{
    if entries.len() == 0 {
        None
    } else if entries[0].key == key {
        Some(entries[0].value)
    } else {
        spec_lookup(entries.drop_first(), key)
    }
}

/// True when the two byte slices hold the same bytes.
pub fn bytes_eq(a: &[u8], b: &[u8]) -> (r: bool)
    ensures
        r == (a@ == b@),
{
    if a.len() != b.len() {
        assert(a@ != b@) by {
            assert(a@.len() != b@.len());
        }
        return false;
    }
    let n = a.len();
    let mut i: usize = 0;
    while i < n
        invariant
            n == a@.len() == b@.len(),
            0 <= i <= n,
            forall|k: int| 0 <= k < i ==> a@[k] == b@[k],
        decreases n - i,
    {
        if a[i] != b[i] {
            return false;
        }
        i += 1;
    }
    proof {
        assert(a@ =~= b@);
    }
    true
}

impl ConfigData {
    /// Look a key up in the data section; the first matching entry wins.
    pub fn get(&self, key: &[u8]) -> (r: Option<&Vec<u8>>)
        ensures
            match r {
                Some(v) => spec_lookup(entries_view(self.entries), key@) == Some(v@),
                None => spec_lookup(entries_view(self.entries), key@) is None,
            },
    {
        let ghost ev = entries_view(self.entries);
        let n = self.entries.len();
        let mut i: usize = 0;
        proof {
            assert(ev.skip(0) =~= ev);
        }
        while i < n
            invariant
                ev == entries_view(self.entries),
                n == ev.len(),
                0 <= i <= n,
                spec_lookup(ev, key@) == spec_lookup(ev.skip(i as int), key@),
                forall|k: int| 0 <= k < i ==> (#[trigger] ev[k]).key != key@,
        decreases n - i,
        {
            if bytes_eq(self.entries[i].key.as_slice(), key) {
                assert(ev.skip(i as int)[0] == ev[i as int]);
                return Some(&self.entries[i].value);
            }
            proof {
                assert(ev.skip(i as int).drop_first() =~= ev.skip(i + 1));
            }
            i += 1;
        }
        proof {
            assert(ev.skip(i as int).len() == 0);
        }
        None
    }
}

} // verus!
