//! Project records and the per-record merge algorithm.

use vstd::prelude::*;

verus! {

use crate::error::StoreError;
use crate::strset::StringSet;
use crate::text::str_eq;
use vstd::string::StringExecFns;

/// The mathematical value of a project record.
#[verifier::ext_equal]
pub struct ProjectModel {
    pub id: Seq<char>,
    pub vcs_url: Seq<char>,
    pub name: Seq<char>,
    pub description: Option<Seq<char>>,
    pub web_urls: Set<Seq<char>>,
    pub vcs_urls: Set<Seq<char>>,
    pub siblings: Option<Set<Seq<char>>>,
    pub flatpak_app_manifests: Set<Seq<char>>,
    pub flatpak_module_manifests: Set<Seq<char>>,
    pub flatpak_sources_manifests: Set<Seq<char>>,
    pub tags: Set<Seq<char>>,
    pub build_systems: Set<Seq<char>>,
    pub main_branch: Option<Seq<char>>,
    pub last_known_commit: Option<Seq<char>>,
    pub last_updated: Option<Seq<char>>,
    pub root_hashes: Seq<Seq<char>>,
}

/// One software codebase tracked by the registry.
pub struct SoftwareProject {
    /// Stable identifier in reverse-DNS notation; the primary key.
    /// Assigned once and never recomputed.
    pub id: String,
    /// The main version-control URL, the one the id was derived from.
    /// Like the id, it is part of the record's identity.
    pub vcs_url: String,
    /// Common name of the software project.
    pub name: String,
    /// Description of the software project; most recent value wins on merge.
    pub description: Option<String>,
    /// Known homepage locations; grows monotonically under merge.
    pub web_urls: StringSet,
    /// Known version-control locations; grows monotonically under merge.
    pub vcs_urls: StringSet,
    /// IDs of the known siblings: projects with the same root-hash
    /// fingerprint. Populated only by sibling detection, and adopted by
    /// merge only when unset.
    pub siblings: Option<StringSet>,
    /// Paths of known flatpak app manifests in the repository.
    pub flatpak_app_manifests: StringSet,
    /// Paths of known flatpak module definition manifests.
    pub flatpak_module_manifests: StringSet,
    /// Paths of known flatpak sources definition manifests.
    pub flatpak_sources_manifests: StringSet,
    /// Provenance markers, such as the discovery source; grows under merge.
    pub tags: StringSet,
    /// Names of build systems known to be supported by the project.
    pub build_systems: StringSet,
    /// Name of the main branch; most recent value wins on merge.
    pub main_branch: Option<String>,
    /// Hash of the latest commit seen on the main branch.
    pub last_known_commit: Option<String>,
    /// When the main branch was last updated, as an ISO datetime string.
    pub last_updated: Option<String>,
    /// The root commit hashes of the project's ancestry, in order. Kept as
    /// a sequence, not a set: two ancestors may share a hash value. Set
    /// once at discovery; merge never replaces a non-empty value.
    pub root_hashes: Vec<String>,
}

/// The value of an optional string.
pub open spec fn opt_str_view(o: Option<String>) -> Option<Seq<char>> {
    match o {
        Some(s) => Some(s@),
        None => None,
    }
}

/// The value of an optional string set.
pub open spec fn opt_set_view(o: Option<StringSet>) -> Option<Set<Seq<char>>> {
    match o {
        Some(s) => Some(s@),
        None => None,
    }
}

impl View for SoftwareProject {
    type V = ProjectModel;

    open spec fn view(&self) -> ProjectModel {
        ProjectModel {
            id: self.id@,
            vcs_url: self.vcs_url@,
            name: self.name@,
            description: opt_str_view(self.description),
            web_urls: self.web_urls@,
            vcs_urls: self.vcs_urls@,
            siblings: opt_set_view(self.siblings),
            flatpak_app_manifests: self.flatpak_app_manifests@,
            flatpak_module_manifests: self.flatpak_module_manifests@,
            flatpak_sources_manifests: self.flatpak_sources_manifests@,
            tags: self.tags@,
            build_systems: self.build_systems@,
            main_branch: opt_str_view(self.main_branch),
            last_known_commit: opt_str_view(self.last_known_commit),
            last_updated: opt_str_view(self.last_updated),
            root_hashes: self.root_hashes.deep_view(),
        }
    }
}

impl DeepView for SoftwareProject {
    type V = ProjectModel;

    open spec fn deep_view(&self) -> ProjectModel {
        self.view()
    }
}

/// The field-by-field merge of newly observed data into a base record:
/// set-valued fields are unioned; optional scalars present on `other`
/// overwrite the base ("last writer wins"); root hashes and siblings are
/// adopted only when the base has none; identity fields and the name are
/// never touched.
pub open spec fn spec_merge(base: ProjectModel, other: ProjectModel) -> ProjectModel {
    ProjectModel {
        id: base.id,
        vcs_url: base.vcs_url,
        name: base.name,
        description: if other.description is Some {
            other.description
        } else {
            base.description
        },
        web_urls: base.web_urls + other.web_urls,
        vcs_urls: base.vcs_urls + other.vcs_urls,
        siblings: if base.siblings is None {
            other.siblings
        } else {
            base.siblings
        },
        flatpak_app_manifests: base.flatpak_app_manifests + other.flatpak_app_manifests,
        flatpak_module_manifests: base.flatpak_module_manifests + other.flatpak_module_manifests,
        flatpak_sources_manifests: base.flatpak_sources_manifests + other.flatpak_sources_manifests,
        tags: base.tags + other.tags,
        build_systems: base.build_systems + other.build_systems,
        main_branch: if other.main_branch is Some {
            other.main_branch
        } else {
            base.main_branch
        },
        last_known_commit: if other.last_known_commit is Some {
            other.last_known_commit
        } else {
            base.last_known_commit
        },
        last_updated: if other.last_updated is Some {
            other.last_updated
        } else {
            base.last_updated
        },
        root_hashes: if base.root_hashes.len() == 0 {
            other.root_hashes
        } else {
            base.root_hashes
        },
    }
}

/// The ordered concatenation of a sequence of strings.
pub open spec fn concat_all(parts: Seq<Seq<char>>) -> Seq<char>
    decreases parts.len(),
{
    if parts.len() == 0 {
        Seq::empty()
    } else {
        concat_all(parts.drop_last()) + parts.last()
    }
}

/// The root signature of a project: its root hashes run together into one
/// string. Order matters, so this is concatenation, not a set.
pub open spec fn spec_root_signature(p: ProjectModel) -> Seq<char> {
    concat_all(p.root_hashes)
}

/// The model of a record with no observations: everything empty or unset.
pub open spec fn empty_project_model() -> ProjectModel {
    ProjectModel {
        id: Seq::empty(),
        vcs_url: Seq::empty(),
        name: Seq::empty(),
        description: None,
        web_urls: Set::empty(),
        vcs_urls: Set::empty(),
        siblings: None,
        flatpak_app_manifests: Set::empty(),
        flatpak_module_manifests: Set::empty(),
        flatpak_sources_manifests: Set::empty(),
        tags: Set::empty(),
        build_systems: Set::empty(),
        main_branch: None,
        last_known_commit: None,
        last_updated: None,
        root_hashes: Seq::empty(),
    }
}

/// Copies an optional string.
fn clone_opt_string(o: &Option<String>) -> (r: Option<String>)
    ensures
        opt_str_view(r) == opt_str_view(*o),
{
    match o {
        Some(s) => Some(s.clone()),
        None => None,
    }
}

/// Copies an optional string set.
fn clone_opt_set(o: &Option<StringSet>) -> (r: Option<StringSet>)
    ensures
        opt_set_view(r) == opt_set_view(*o),
{
    match o {
        Some(s) => Some(s.clone()),
        None => None,
    }
}

/// Copies a vector of strings.
pub fn clone_string_vec(v: &Vec<String>) -> (r: Vec<String>)
    ensures
        r.deep_view() == v.deep_view(),
{
    let mut out: Vec<String> = Vec::new();
    let mut i: usize = 0;
    while i < v.len()
        invariant
            i <= v@.len(),
            out@.len() == i,
            forall|k: int| 0 <= k < i ==> out.deep_view()[k] == v.deep_view()[k],
        decreases v@.len() - i,
    {
        let c = v[i].clone();
        let ghost prev = out@;
        let ghost prev_dv = out.deep_view();
        out.push(c);
        proof {
            assert forall|k: int| 0 <= k <= i implies out.deep_view()[k] == v.deep_view()[k] by {
                if k < i {
                    assert(out@[k] == prev[k]);
                    assert(prev_dv[k] == prev[k].deep_view());
                } else {
                    assert(out@[k] == c);
                }
            }
        }
        i += 1;
    }
    proof {
        assert(out.deep_view() =~= v.deep_view());
    }
    out
}

impl SoftwareProject {
    /// Merges newly observed data from `other` into this record. Every
    /// set-valued field grows by union; optional scalar fields present on
    /// `other` overwrite the old value; root hashes and siblings are
    /// adopted only when currently absent. A merge of two records whose
    /// identity differs fails with an identity mismatch and changes
    /// neither record.
    pub fn merge(&mut self, other: &SoftwareProject) -> (r: Result<(), StoreError>)
        ensures
            r is Ok <==> (old(self)@.id == other@.id && old(self)@.vcs_url == other@.vcs_url),
            r is Ok ==> final(self)@ == spec_merge(old(self)@, other@),
            r is Err ==> final(self)@ == old(self)@ && r == Err::<(), StoreError>(
                StoreError::IdentityMismatch,
            ),
    {
        if !str_eq(self.id.as_str(), other.id.as_str()) {
            return Err(StoreError::IdentityMismatch);
        }
        if !str_eq(self.vcs_url.as_str(), other.vcs_url.as_str()) {
            return Err(StoreError::IdentityMismatch);
        }
        self.web_urls.union_with(&other.web_urls);
        self.vcs_urls.union_with(&other.vcs_urls);
        self.build_systems.union_with(&other.build_systems);
        self.flatpak_app_manifests.union_with(&other.flatpak_app_manifests);
        self.flatpak_module_manifests.union_with(&other.flatpak_module_manifests);
        self.flatpak_sources_manifests.union_with(&other.flatpak_sources_manifests);
        self.tags.union_with(&other.tags);
        if self.root_hashes.len() == 0 {
            self.root_hashes = clone_string_vec(&other.root_hashes);
        }
        if self.siblings.is_none() {
            self.siblings = clone_opt_set(&other.siblings);
        }
        if other.description.is_some() {
            self.description = clone_opt_string(&other.description);
        }
        if other.last_known_commit.is_some() {
            self.last_known_commit = clone_opt_string(&other.last_known_commit);
        }
        if other.main_branch.is_some() {
            self.main_branch = clone_opt_string(&other.main_branch);
        }
        // The most recent timestamp is not preserved on purpose: the last
        // written value wins, like every other optional scalar field.
        if other.last_updated.is_some() {
            self.last_updated = clone_opt_string(&other.last_updated);
        }
        proof {
            assert(self@ =~= spec_merge(old(self)@, other@));
        }
        Ok(())
    }

    /// Whether any flatpak manifest of any kind is known for this project.
    pub fn supports_flatpak(&self) -> (r: bool)
        ensures
            r == (self@.flatpak_app_manifests.len() > 0 || self@.flatpak_module_manifests.len() > 0
                || self@.flatpak_sources_manifests.len() > 0),
    {
        if !self.flatpak_app_manifests.is_empty() {
            return true;
        }
        if !self.flatpak_module_manifests.is_empty() {
            return true;
        }
        if !self.flatpak_sources_manifests.is_empty() {
            return true;
        }
        false
    }

    /// The main version-control URL of the project.
    pub fn get_main_vcs_url(&self) -> (r: String)
        ensures
            r@ == self@.vcs_url,
    {
        self.vcs_url.clone()
    }

    /// The root signature: all root hashes concatenated in order. An empty
    /// result means the project has not been fingerprinted yet.
    pub fn get_root_signature(&self) -> (r: String)
        ensures
            r@ == spec_root_signature(self@),
    {
        let ghost hashes = self.root_hashes.deep_view();
        let mut signature = String::new();
        let mut i: usize = 0;
        while i < self.root_hashes.len()
            invariant
                i <= self.root_hashes@.len(),
                hashes == self.root_hashes.deep_view(),
                signature@ == concat_all(hashes.take(i as int)),
            decreases self.root_hashes@.len() - i,
        {
            signature.append(self.root_hashes[i].as_str());
            proof {
                assert(hashes.take(i + 1).drop_last() =~= hashes.take(i as int));
                assert(hashes.take(i + 1).last() == hashes[i as int]);
            }
            i += 1;
        }
        proof {
            assert(hashes.take(hashes.len() as int) =~= hashes);
        }
        signature
    }
}

impl Clone for SoftwareProject {
    /// The copy denotes the same record value.
    fn clone(&self) -> (r: Self)
        ensures
            r@ == self@,
    {
        let r = SoftwareProject {
            id: self.id.clone(),
            vcs_url: self.vcs_url.clone(),
            name: self.name.clone(),
            description: clone_opt_string(&self.description),
            web_urls: self.web_urls.clone(),
            vcs_urls: self.vcs_urls.clone(),
            siblings: clone_opt_set(&self.siblings),
            flatpak_app_manifests: self.flatpak_app_manifests.clone(),
            flatpak_module_manifests: self.flatpak_module_manifests.clone(),
            flatpak_sources_manifests: self.flatpak_sources_manifests.clone(),
            tags: self.tags.clone(),
            build_systems: self.build_systems.clone(),
            main_branch: clone_opt_string(&self.main_branch),
            last_known_commit: clone_opt_string(&self.last_known_commit),
            last_updated: clone_opt_string(&self.last_updated),
            root_hashes: clone_string_vec(&self.root_hashes),
        };
        proof {
            assert(r@ =~= self@);
        }
        r
    }
}

impl Default for SoftwareProject {
    /// A record with no observations: every field empty or unset.
    fn default() -> (r: Self)
        ensures
            r@ == empty_project_model(),
    {
        let r = SoftwareProject {
            id: String::new(),
            vcs_url: String::new(),
            name: String::new(),
            description: None,
            web_urls: StringSet::new(),
            vcs_urls: StringSet::new(),
            siblings: None,
            flatpak_app_manifests: StringSet::new(),
            flatpak_module_manifests: StringSet::new(),
            flatpak_sources_manifests: StringSet::new(),
            tags: StringSet::new(),
            build_systems: StringSet::new(),
            main_branch: None,
            last_known_commit: None,
            last_updated: None,
            root_hashes: Vec::new(),
        };
        proof {
            assert(r.root_hashes.deep_view() =~= Seq::<Seq<char>>::empty());
            assert(r@ =~= empty_project_model());
        }
        r
    }
}

/// A project record in document form: the same fields with every set
/// spelled out as a list without duplicates. This is the shape records
/// take on their way to and from storage; the distinction between an
/// absent optional and an empty list is kept exactly.
pub struct ProjectDoc {
    pub id: String,
    pub vcs_url: String,
    pub name: String,
    pub description: Option<String>,
    pub web_urls: Vec<String>,
    pub vcs_urls: Vec<String>,
    pub siblings: Option<Vec<String>>,
    pub flatpak_app_manifests: Vec<String>,
    pub flatpak_module_manifests: Vec<String>,
    pub flatpak_sources_manifests: Vec<String>,
    pub tags: Vec<String>,
    pub build_systems: Vec<String>,
    pub main_branch: Option<String>,
    pub last_known_commit: Option<String>,
    pub last_updated: Option<String>,
    pub root_hashes: Vec<String>,
}

/// The record value a document denotes.
pub open spec fn doc_model(d: ProjectDoc) -> ProjectModel {
    ProjectModel {
        id: d.id@,
        vcs_url: d.vcs_url@,
        name: d.name@,
        description: opt_str_view(d.description),
        web_urls: d.web_urls.deep_view().to_set(),
        vcs_urls: d.vcs_urls.deep_view().to_set(),
        siblings: match d.siblings {
            Some(v) => Some(v.deep_view().to_set()),
            None => None,
        },
        flatpak_app_manifests: d.flatpak_app_manifests.deep_view().to_set(),
        flatpak_module_manifests: d.flatpak_module_manifests.deep_view().to_set(),
        flatpak_sources_manifests: d.flatpak_sources_manifests.deep_view().to_set(),
        tags: d.tags.deep_view().to_set(),
        build_systems: d.build_systems.deep_view().to_set(),
        main_branch: opt_str_view(d.main_branch),
        last_known_commit: opt_str_view(d.last_known_commit),
        last_updated: opt_str_view(d.last_updated),
        root_hashes: d.root_hashes.deep_view(),
    }
}

/// Copies an optional list of strings.
fn clone_opt_vec(o: Option<&StringSet>) -> (r: Option<Vec<String>>)
    ensures
        match (o, r) {
            (Some(s), Some(v)) => v.deep_view().to_set() == s@,
            (None, None) => true,
            _ => false,
        },
{
    match o {
        Some(s) => Some(clone_string_vec(s.as_vec())),
        None => None,
    }
}

/// Spells a record out as a document. Together with `doc_to_project`
/// this is an exact round trip: the document denotes the record's value,
/// field for field, absent optionals and empty sets kept apart.
pub fn project_to_doc(p: &SoftwareProject) -> (d: ProjectDoc)
    ensures
        doc_model(d) == p@,
{
    let d = ProjectDoc {
        id: p.id.clone(),
        vcs_url: p.vcs_url.clone(),
        name: p.name.clone(),
        description: clone_opt_string(&p.description),
        web_urls: clone_string_vec(p.web_urls.as_vec()),
        vcs_urls: clone_string_vec(p.vcs_urls.as_vec()),
        siblings: clone_opt_vec(p.siblings.as_ref()),
        flatpak_app_manifests: clone_string_vec(p.flatpak_app_manifests.as_vec()),
        flatpak_module_manifests: clone_string_vec(p.flatpak_module_manifests.as_vec()),
        flatpak_sources_manifests: clone_string_vec(p.flatpak_sources_manifests.as_vec()),
        tags: clone_string_vec(p.tags.as_vec()),
        build_systems: clone_string_vec(p.build_systems.as_vec()),
        main_branch: clone_opt_string(&p.main_branch),
        last_known_commit: clone_opt_string(&p.last_known_commit),
        last_updated: clone_opt_string(&p.last_updated),
        root_hashes: clone_string_vec(&p.root_hashes),
    };
    proof {
        assert(doc_model(d) =~= p@);
    }
    d
}

/// Reads a record back out of a document; the exact inverse of
/// `project_to_doc` on the record's value.
pub fn doc_to_project(d: ProjectDoc) -> (p: SoftwareProject)
    ensures
        p@ == doc_model(d),
{
    let ghost dm = doc_model(d);
    let ProjectDoc {
        id,
        vcs_url,
        name,
        description,
        web_urls,
        vcs_urls,
        siblings,
        flatpak_app_manifests,
        flatpak_module_manifests,
        flatpak_sources_manifests,
        tags,
        build_systems,
        main_branch,
        last_known_commit,
        last_updated,
        root_hashes,
    } = d;
    let sibling_set: Option<StringSet> = match siblings {
        Some(v) => Some(StringSet::from_items(v)),
        None => None,
    };
    let p = SoftwareProject {
        id,
        vcs_url,
        name,
        description,
        web_urls: StringSet::from_items(web_urls),
        vcs_urls: StringSet::from_items(vcs_urls),
        siblings: sibling_set,
        flatpak_app_manifests: StringSet::from_items(flatpak_app_manifests),
        flatpak_module_manifests: StringSet::from_items(flatpak_module_manifests),
        flatpak_sources_manifests: StringSet::from_items(flatpak_sources_manifests),
        tags: StringSet::from_items(tags),
        build_systems: StringSet::from_items(build_systems),
        main_branch,
        last_known_commit,
        last_updated,
        root_hashes,
    };
    proof {
        assert(p@ =~= dm);
    }
    p
}

/// Merge idempotence: merging a record into itself changes nothing.
pub proof fn lemma_merge_idempotent(p: ProjectModel)
    ensures
        spec_merge(p, p) == p,
{
    assert(spec_merge(p, p) =~= p);
}

/// Merge associativity on the monotone set-valued fields: merging `o1`
/// and then `o2` into `p` yields the same set-valued fields as one merge
/// of a combined record whose set fields are the unions of the two.
pub proof fn lemma_merge_sets_associative(
    p: ProjectModel,
    o1: ProjectModel,
    o2: ProjectModel,
    combined: ProjectModel,
)
    requires
        combined.web_urls == o1.web_urls + o2.web_urls,
        combined.vcs_urls == o1.vcs_urls + o2.vcs_urls,
        combined.flatpak_app_manifests == o1.flatpak_app_manifests + o2.flatpak_app_manifests,
        combined.flatpak_module_manifests == o1.flatpak_module_manifests
            + o2.flatpak_module_manifests,
        combined.flatpak_sources_manifests == o1.flatpak_sources_manifests
            + o2.flatpak_sources_manifests,
        combined.tags == o1.tags + o2.tags,
        combined.build_systems == o1.build_systems + o2.build_systems,
    ensures
        spec_merge(spec_merge(p, o1), o2).web_urls == spec_merge(p, combined).web_urls,
        spec_merge(spec_merge(p, o1), o2).vcs_urls == spec_merge(p, combined).vcs_urls,
        spec_merge(spec_merge(p, o1), o2).flatpak_app_manifests == spec_merge(
            p,
            combined,
        ).flatpak_app_manifests,
        spec_merge(spec_merge(p, o1), o2).flatpak_module_manifests == spec_merge(
            p,
            combined,
        ).flatpak_module_manifests,
        spec_merge(spec_merge(p, o1), o2).flatpak_sources_manifests == spec_merge(
            p,
            combined,
        ).flatpak_sources_manifests,
        spec_merge(spec_merge(p, o1), o2).tags == spec_merge(p, combined).tags,
        spec_merge(spec_merge(p, o1), o2).build_systems == spec_merge(p, combined).build_systems,
{
    assert((p.web_urls + o1.web_urls) + o2.web_urls =~= p.web_urls + (o1.web_urls + o2.web_urls));
    assert((p.vcs_urls + o1.vcs_urls) + o2.vcs_urls =~= p.vcs_urls + (o1.vcs_urls + o2.vcs_urls));
    assert((p.flatpak_app_manifests + o1.flatpak_app_manifests) + o2.flatpak_app_manifests
        =~= p.flatpak_app_manifests + (o1.flatpak_app_manifests + o2.flatpak_app_manifests));
    assert((p.flatpak_module_manifests + o1.flatpak_module_manifests) + o2.flatpak_module_manifests
        =~= p.flatpak_module_manifests + (o1.flatpak_module_manifests
            + o2.flatpak_module_manifests));
    assert((p.flatpak_sources_manifests + o1.flatpak_sources_manifests)
        + o2.flatpak_sources_manifests =~= p.flatpak_sources_manifests
        + (o1.flatpak_sources_manifests + o2.flatpak_sources_manifests));
    assert((p.tags + o1.tags) + o2.tags =~= p.tags + (o1.tags + o2.tags));
    assert((p.build_systems + o1.build_systems) + o2.build_systems =~= p.build_systems
        + (o1.build_systems + o2.build_systems));
}

} // verus!
