//! The record store: the in-memory index of project and module records,
//! its invariants, and every mutation that records pass through.
//!
//! The store is a rebuildable cache over one record file per project and
//! per module; the files are the source of truth. The store itself holds
//! no file handles: each mutating operation reports the write it requires
//! as an explicit value, and the surrounding program performs it.

use vstd::prelude::*;

verus! {

use crate::error::DecodeFailure;
use crate::error::StoreError;
use crate::module::ModuleModel;
use crate::module::SoftwareModule;
use crate::project::ProjectModel;
use crate::project::SoftwareProject;
use crate::project::spec_merge;
use crate::strset::StringSet;
use crate::text::contains_bytes;
use crate::text::lex_lt;
use crate::text::lemma_encode_utf8_injective;
use crate::text::lemma_lex_lt_irrefl;
use crate::text::lemma_lex_lt_total;
use crate::text::lemma_lex_lt_trans;
use crate::text::lower_of;
use crate::text::str_contains;
use crate::text::str_eq;
use crate::text::str_lt;
use crate::text::to_lowercase;
use crate::utils::get_module_hash;
use crate::utils::spec_module_hash;
use vstd::string::StringSliceAdditionalSpecFns;
use vstd::utf8::encode_utf8;

/// The mathematical state of the record store.
#[verifier::ext_equal]
pub struct StoreModel {
    /// The indexed project records, in ascending id order.
    pub projects: Seq<ProjectModel>,
    /// The module records, in insertion order.
    pub modules: Seq<ModuleModel>,
    /// The names (stems) of the project record files present on disk.
    pub project_files: Set<Seq<char>>,
    /// The names (stems) of the module record files present on disk.
    pub module_files: Set<Seq<char>>,
}

/// The record store.
pub struct Database {
    /// The project index, kept sorted by the byte encoding of the id.
    pub projects: Vec<SoftwareProject>,
    /// The module pool, in insertion order.
    pub modules: Vec<SoftwareModule>,
    /// Which project record files exist, named by project id.
    pub project_files: StringSet,
    /// Which module record files exist, named by content fingerprint.
    pub module_files: StringSet,
}

impl View for Database {
    type V = StoreModel;

    open spec fn view(&self) -> StoreModel {
        StoreModel {
            projects: self.projects.deep_view(),
            modules: self.modules.deep_view(),
            project_files: self.project_files@,
            module_files: self.module_files@,
        }
    }
}

/// One pending persistence action: overwrite the project record file
/// named by `id` with `record`.
pub struct ProjectWrite {
    pub id: String,
    pub record: SoftwareProject,
}

/// One pending persistence action: write `module` to the module record
/// file named by `fingerprint`.
pub struct ModuleWrite {
    pub fingerprint: String,
    pub module: SoftwareModule,
}

/// The byte encoding of a project's id, the index's sort key.
pub open spec fn id_bytes(p: ProjectModel) -> Seq<u8> {
    encode_utf8(p.id)
}

/// Whether the ids are strictly ascending in byte order; strictness also
/// makes them unique.
pub open spec fn index_sorted(s: Seq<ProjectModel>) -> bool {
    forall|i: int, j: int|
        0 <= i < j < s.len() ==> lex_lt(#[trigger] id_bytes(s[i]), #[trigger] id_bytes(s[j]))
}

/// Whether no indexed project has an empty id.
pub open spec fn ids_nonempty(s: Seq<ProjectModel>) -> bool {
    forall|i: int| 0 <= i < s.len() ==> (#[trigger] s[i].id).len() > 0
}

/// Whether some indexed project has the id.
pub open spec fn has_project_id(s: Seq<ProjectModel>, id: Seq<char>) -> bool {
    exists|i: int| 0 <= i < s.len() && (#[trigger] s[i].id) == id
}

/// The position of the project with the id, when one exists.
pub open spec fn project_index(s: Seq<ProjectModel>, id: Seq<char>) -> int {
    choose|i: int| 0 <= i < s.len() && (#[trigger] s[i].id) == id
}

/// The indexed project with the id, when one exists.
pub open spec fn project_by_id(s: Seq<ProjectModel>, id: Seq<char>) -> ProjectModel {
    s[project_index(s, id)]
}

/// In a sorted index ids occur at most once.
pub proof fn lemma_index_unique(s: Seq<ProjectModel>, i: int, j: int)
    requires
        index_sorted(s),
        0 <= i < s.len(),
        0 <= j < s.len(),
        s[i].id == s[j].id,
    ensures
        i == j,
{
    if i < j {
        assert(lex_lt(id_bytes(s[i]), id_bytes(s[j])));
        assert(id_bytes(s[i]) == id_bytes(s[j]));
        lemma_lex_lt_irrefl(id_bytes(s[i]));
    }
    if j < i {
        assert(lex_lt(id_bytes(s[j]), id_bytes(s[i])));
        assert(id_bytes(s[i]) == id_bytes(s[j]));
        lemma_lex_lt_irrefl(id_bytes(s[i]));
    }
}

/// Every element of a filtered sequence comes from the original and
/// satisfies the predicate.
pub proof fn lemma_filter_elems<A>(s: Seq<A>, pred: spec_fn(A) -> bool)
    ensures
        forall|x: A| #[trigger] s.filter(pred).contains(x) ==> s.contains(x) && pred(x),
    decreases s.len(),
{
    reveal_with_fuel(Seq::filter, 2);
    if s.len() > 0 {
        lemma_filter_elems(s.drop_last(), pred);
        assert forall|x: A| #[trigger] s.filter(pred).contains(x) implies s.contains(x) && pred(
            x,
        ) by {
            if s.drop_last().filter(pred).contains(x) {
                assert(s.drop_last().contains(x));
                let k = choose|k: int|
                    0 <= k < s.drop_last().len() && s.drop_last()[k] == x;
                assert(s[k] == x);
            } else {
                assert(x == s.last());
                assert(s[s.len() - 1] == x);
            }
        }
    }
}

/// Pushing a value onto a sequence of models and filtering distributes.
pub proof fn lemma_filter_push<A>(s: Seq<A>, x: A, pred: spec_fn(A) -> bool)
    ensures
        pred(x) ==> s.push(x).filter(pred) == s.filter(pred).push(x),
        !pred(x) ==> s.push(x).filter(pred) == s.filter(pred),
{
    reveal_with_fuel(Seq::filter, 2);
    assert(s.push(x).drop_last() =~= s);
    assert(s.push(x).last() == x);
    if pred(x) {
        assert(s.push(x).filter(pred) =~= s.filter(pred).push(x));
    } else {
        assert(s.push(x).filter(pred) =~= s.filter(pred));
    }
}

impl Database {
    /// Well-formedness of the index: ids strictly sorted (hence unique)
    /// and never empty.
    pub open spec fn inv(&self) -> bool {
        index_sorted(self@.projects) && ids_nonempty(self@.projects)
    }

    /// An empty store.
    pub fn new() -> (r: Database)
        ensures
            r@.projects == Seq::<ProjectModel>::empty(),
            r@.modules == Seq::<ModuleModel>::empty(),
            r@.project_files == Set::<Seq<char>>::empty(),
            r@.module_files == Set::<Seq<char>>::empty(),
            r.inv(),
    {
        let r = Database {
            projects: Vec::new(),
            modules: Vec::new(),
            project_files: StringSet::new(),
            module_files: StringSet::new(),
        };
        proof {
            assert(r@.projects =~= Seq::<ProjectModel>::empty());
            assert(r@.modules =~= Seq::<ModuleModel>::empty());
        }
        r
    }

    /// Where the project with this id sits in the index, if anywhere.
    fn find_project(&self, id: &str) -> (r: Option<usize>)
        ensures
            match r {
                Some(i) => i < self.projects@.len() && self@.projects[i as int].id == id@,
                None => !has_project_id(self@.projects, id@),
            },
    {
        let mut i: usize = 0;
        while i < self.projects.len()
            invariant
                i <= self.projects@.len(),
                forall|k: int| 0 <= k < i ==> (#[trigger] self@.projects[k].id) != id@,
            decreases self.projects@.len() - i,
        {
            if str_eq(self.projects[i].id.as_str(), id) {
                return Some(i);
            }
            i += 1;
        }
        None
    }

    /// Whether a project with this id is indexed.
    pub fn has_project(&self, id: &str) -> (r: bool)
        ensures
            r == has_project_id(self@.projects, id@),
    {
        match self.find_project(id) {
            Some(_) => true,
            None => false,
        }
    }

    /// Exact-key lookup. The result is a deep copy: changing it does not
    /// reach the store; mutation goes through `update_project` alone.
    pub fn get_project(&self, id: &str) -> (r: Option<SoftwareProject>)
        requires
            self.inv(),
        ensures
            match r {
                Some(p) => has_project_id(self@.projects, id@) && p@ == project_by_id(
                    self@.projects,
                    id@,
                ),
                None => !has_project_id(self@.projects, id@),
            },
    {
        match self.find_project(id) {
            Some(i) => {
                let p = self.projects[i].clone();
                proof {
                    lemma_index_unique(
                        self@.projects,
                        i as int,
                        project_index(self@.projects, id@),
                    );
                }
                Some(p)
            },
            None => None,
        }
    }

    /// The first index whose id is not below `id` in byte order; every
    /// earlier id is below it.
    fn lower_bound(&self, id: &str) -> (r: usize)
        requires
            self.inv(),
        ensures
            r <= self.projects@.len(),
            forall|k: int|
                0 <= k < r ==> lex_lt(#[trigger] id_bytes(self@.projects[k]), encode_utf8(id@)),
            forall|k: int|
                r <= k < self.projects@.len() ==> !lex_lt(
                    #[trigger] id_bytes(self@.projects[k]),
                    encode_utf8(id@),
                ),
    {
        let n = self.projects.len();
        let mut i: usize = 0;
        while i < n
            invariant_except_break
                n == self.projects@.len(),
                i <= n,
                self.inv(),
                forall|k: int|
                    0 <= k < i ==> lex_lt(#[trigger] id_bytes(self@.projects[k]), encode_utf8(id@)),
            ensures
                n == self.projects@.len(),
                i <= n,
                self.inv(),
                forall|k: int|
                    0 <= k < i ==> lex_lt(#[trigger] id_bytes(self@.projects[k]), encode_utf8(id@)),
                i < n ==> !lex_lt(id_bytes(self@.projects[i as int]), encode_utf8(id@)),
            decreases n - i,
        {
            if !str_lt(self.projects[i].id.as_str(), id) {
                break ;
            }
            i += 1;
        }
        proof {
            if i < self.projects@.len() {
                assert forall|k: int|
                    i <= k < self.projects@.len() implies !lex_lt(
                    #[trigger] id_bytes(self@.projects[k]),
                    encode_utf8(id@),
                ) by {
                    if k > i && lex_lt(id_bytes(self@.projects[k]), encode_utf8(id@)) {
                        lemma_lex_lt_trans(
                            id_bytes(self@.projects[i as int]),
                            id_bytes(self@.projects[k]),
                            encode_utf8(id@),
                        );
                    }
                }
            }
        }
        i
    }

    /// Updates an existing project: the incoming record is merged into
    /// the indexed one under the merge rules, and the merged record is
    /// re-persisted, fully overwriting its file. The project must already
    /// be present both in the index and on disk; any divergence between
    /// the two is corruption, not a recoverable case. On any error the
    /// store is unchanged and nothing is written.
    pub fn update_project(&mut self, project: SoftwareProject) -> (r: Result<
        ProjectWrite,
        StoreError,
    >)
        requires
            old(self).inv(),
        ensures
            final(self).inv(),
            final(self)@.modules == old(self)@.modules,
            final(self)@.project_files == old(self)@.project_files,
            final(self)@.module_files == old(self)@.module_files,
            match spec_update_outcome(old(self)@, project@) {
                Err(e) => r matches Err(e2) && e2 == e && final(self)@ == old(self)@,
                Ok(ps) => {
                    &&& r matches Ok(w) && w.id@ == project@.id && w.record@ == spec_merge(
                        project_by_id(old(self)@.projects, project@.id),
                        project@,
                    )
                    &&& final(self)@.projects == ps
                },
            },
    {
        if project.id.as_str().is_empty() {
            return Err(StoreError::EmptyProjectId);
        }
        let i = match self.find_project(project.id.as_str()) {
            None => {
                return Err(StoreError::ProjectNotFound);
            },
            Some(i) => i,
        };
        if !self.project_files.contains(project.id.as_str()) {
            return Err(StoreError::ProjectFileMissing);
        }
        proof {
            lemma_index_unique(
                self@.projects,
                i as int,
                project_index(self@.projects, project@.id),
            );
        }
        let mut merged = self.projects[i].clone();
        match merged.merge(&project) {
            Err(e) => {
                return Err(e);
            },
            Ok(_) => {},
        }
        let record = merged.clone();
        let ghost before = self.projects.deep_view();
        self.projects[i] = merged;
        proof {
            assert(self.projects.deep_view() =~= before.update(
                i as int,
                spec_merge(project_by_id(old(self)@.projects, project@.id), project@),
            ));
            assert(final_index_ok(before, self.projects.deep_view(), i as int));
            lemma_sorted_update(before, self.projects.deep_view(), i as int);
        }
        Ok(ProjectWrite { id: project.id, record })
    }

    /// Puts one record into the index under its id: the record with that
    /// id is replaced, as a map insert would, or the record joins the
    /// index at its sorted position.
    fn index_put(&mut self, project: SoftwareProject)
        requires
            old(self).inv(),
            project@.id.len() > 0,
        ensures
            final(self).inv(),
            final(self)@.modules == old(self)@.modules,
            final(self)@.project_files == old(self)@.project_files,
            final(self)@.module_files == old(self)@.module_files,
            final(self)@.projects == spec_index_put(old(self)@.projects, project@),
    {
        let pos = self.lower_bound(project.id.as_str());
        let ghost s = self@.projects;
        let ghost idb = encode_utf8(project@.id);
        let ghost pm = project@;
        proof {
            assert forall|k: int| 0 <= k < s.len() && k != pos implies (#[trigger] s[k].id)
                != project@.id by {
                if s[k].id == project@.id {
                    assert(id_bytes(s[k]) == idb);
                    if k < pos {
                        lemma_lex_lt_irrefl(idb);
                    } else {
                        assert(lex_lt(id_bytes(s[pos as int]), id_bytes(s[k])));
                        assert(!lex_lt(id_bytes(s[pos as int]), idb));
                        assert(false);
                    }
                }
            }
        }
        if pos < self.projects.len() && str_eq(
            self.projects[pos].id.as_str(),
            project.id.as_str(),
        ) {
            let ghost before = self.projects.deep_view();
            self.projects[pos] = project;
            proof {
                assert(self.projects.deep_view() =~= before.update(pos as int, pm));
                assert(s[pos as int].id == pm.id);
                assert(has_project_id(s, pm.id));
                lemma_index_unique(s, pos as int, project_index(s, pm.id));
                assert(final_index_ok(before, self.projects.deep_view(), pos as int));
                lemma_sorted_update(before, self.projects.deep_view(), pos as int);
            }
        } else {
            proof {
                assert(!has_project_id(s, pm.id));
            }
            let ghost before = self.projects.deep_view();
            self.projects.insert(pos, project);
            proof {
                assert(self.projects.deep_view() =~= before.insert(pos as int, pm));
                lemma_sorted_pos_char(before, pm.id, pos as int);
                lemma_sorted_insert(before, pm, pos as int);
            }
        }
    }

    /// Adds a project to the store. An empty id is an error. When a
    /// record file for the id already exists, the call degrades to
    /// `update_project` and merges instead of overwriting blindly.
    /// Otherwise the record joins the index under its id and a new file
    /// is written, named by the id.
    pub fn add_project(&mut self, project: SoftwareProject) -> (r: Result<
        ProjectWrite,
        StoreError,
    >)
        requires
            old(self).inv(),
        ensures
            final(self).inv(),
            final(self)@.modules == old(self)@.modules,
            final(self)@.module_files == old(self)@.module_files,
            match spec_add_outcome(old(self)@, project@) {
                Err(e) => r matches Err(e2) && e2 == e && final(self)@ == old(self)@,
                Ok((ps, fs, rec)) => {
                    &&& r matches Ok(w) && w.id@ == project@.id && w.record@ == rec
                    &&& final(self)@.projects == ps
                    &&& final(self)@.project_files == fs
                },
            },
    {
        if project.id.as_str().is_empty() {
            return Err(StoreError::EmptyProjectId);
        }
        if self.project_files.contains(project.id.as_str()) {
            return self.update_project(project);
        }
        let record = project.clone();
        let id_copy = project.id.clone();
        self.index_put(project);
        self.project_files.insert(id_copy.clone());
        Ok(ProjectWrite { id: id_copy, record })
    }

    /// Adds a module to the content-addressed pool. When a record file
    /// for the module's fingerprint already exists the call is a silent
    /// no-op: the file name is the hash of the content, so the existing
    /// file already holds this module. Otherwise the module joins the
    /// in-memory pool and one new file is written.
    pub fn add_module(&mut self, new_module: SoftwareModule) -> (r: Option<ModuleWrite>)
        ensures
            final(self)@ == spec_add_module(old(self)@, new_module@).0,
            r is Some <==> spec_add_module(old(self)@, new_module@).1 is Some,
            match r {
                Some(w) => w.fingerprint@ == spec_module_hash(new_module@.manifest) && w.module@
                    == new_module@,
                None => true,
            },
    {
        let fingerprint = get_module_hash(&new_module);
        if self.module_files.contains(fingerprint.as_str()) {
            proof {
                assert(self@ =~= spec_add_module(old(self)@, new_module@).0);
            }
            return None;
        }
        let module_copy = new_module.clone();
        let ghost before = self.modules.deep_view();
        self.module_files.insert(fingerprint.clone());
        self.modules.push(module_copy);
        proof {
            assert(self.modules.deep_view() =~= before.push(new_module@));
            assert(self@ =~= spec_add_module(old(self)@, new_module@).0);
        }
        Some(ModuleWrite { fingerprint, module: new_module })
    }

    /// Deletion is not part of this store: no removal semantics are
    /// defined, and records are never deleted by it.
    pub fn remove_module() {
    }

    /// Linear substring search over projects: a project matches when its
    /// name or any of its VCS URLs contains the term as a literal,
    /// case-sensitive substring. Results are deep copies in index order.
    pub fn search_projects(&self, search_term: &str) -> (r: Vec<SoftwareProject>)
        ensures
            r.deep_view() == self@.projects.filter(project_match_pred(search_term.spec_bytes())),
    {
        let ghost pred = project_match_pred(search_term.spec_bytes());
        let mut out: Vec<SoftwareProject> = Vec::new();
        let mut i: usize = 0;
        while i < self.projects.len()
            invariant
                i <= self.projects@.len(),
                pred == project_match_pred(search_term.spec_bytes()),
                out.deep_view() == self@.projects.take(i as int).filter(pred),
            decreases self.projects@.len() - i,
        {
            let ghost prefix = self@.projects.take(i as int);
            let ghost prev = out.deep_view();
            if matches_project(&self.projects[i], search_term) {
                out.push(self.projects[i].clone());
                proof {
                    assert(out.deep_view() =~= prev.push(self@.projects[i as int]));
                }
            }
            proof {
                lemma_filter_push(prefix, self@.projects[i as int], pred);
                assert(prefix.push(self@.projects[i as int]) =~= self@.projects.take(i + 1));
            }
            i += 1;
        }
        proof {
            assert(self@.projects.take(self@.projects.len() as int) =~= self@.projects);
        }
        out
    }

    /// Linear substring search over modules: a module matches when its
    /// lowercased name contains the lowercased term. Results are deep
    /// copies in insertion order.
    pub fn search_modules(&self, search_term: &str) -> (r: Vec<SoftwareModule>)
        ensures
            r.deep_view() == self@.modules.filter(module_match_pred(lower_of(search_term@))),
    {
        let ghost pred = module_match_pred(lower_of(search_term@));
        let term_low = to_lowercase(search_term);
        let mut out: Vec<SoftwareModule> = Vec::new();
        let mut i: usize = 0;
        while i < self.modules.len()
            invariant
                i <= self.modules@.len(),
                term_low@ == lower_of(search_term@),
                pred == module_match_pred(lower_of(search_term@)),
                out.deep_view() == self@.modules.take(i as int).filter(pred),
            decreases self.modules@.len() - i,
        {
            let ghost prefix = self@.modules.take(i as int);
            let ghost prev = out.deep_view();
            let name_low = to_lowercase(self.modules[i].name.as_str());
            if str_contains(name_low.as_str(), term_low.as_str()) {
                out.push(self.modules[i].clone());
                proof {
                    assert(out.deep_view() =~= prev.push(self@.modules[i as int]));
                }
            }
            proof {
                lemma_filter_push(prefix, self@.modules[i as int], pred);
                assert(prefix.push(self@.modules[i as int]) =~= self@.modules.take(i + 1));
            }
            i += 1;
        }
        proof {
            assert(self@.modules.take(self@.modules.len() as int) =~= self@.modules);
        }
        out
    }
}

/// The project search predicate for one term, as a function value.
pub open spec fn project_match_pred(term: Seq<u8>) -> spec_fn(ProjectModel) -> bool {
    |p: ProjectModel| project_matches(p, term)
}

/// The module search predicate for one lowercased term, as a function
/// value.
pub open spec fn module_match_pred(term_low: Seq<char>) -> spec_fn(ModuleModel) -> bool {
    |m: ModuleModel| module_matches(m, term_low)
}

/// Whether a project matches a search term: its name or any VCS URL
/// contains the term's bytes.
pub open spec fn project_matches(p: ProjectModel, term: Seq<u8>) -> bool {
    contains_bytes(encode_utf8(p.name), term) || exists|u: Seq<char>|
        #[trigger] p.vcs_urls.contains(u) && contains_bytes(encode_utf8(u), term)
}

/// Whether a module matches an already-lowercased search term: its
/// lowercased name contains it.
pub open spec fn module_matches(m: ModuleModel, term_low: Seq<char>) -> bool {
    contains_bytes(encode_utf8(lower_of(m.name)), encode_utf8(term_low))
}

/// The outcome `update_project` is bound to: which error, or the new
/// index contents.
pub open spec fn spec_update_outcome(s: StoreModel, p: ProjectModel) -> Result<
    Seq<ProjectModel>,
    StoreError,
> {
    if p.id.len() == 0 {
        Err(StoreError::EmptyProjectId)
    } else if !has_project_id(s.projects, p.id) {
        Err(StoreError::ProjectNotFound)
    } else if !s.project_files.contains(p.id) {
        Err(StoreError::ProjectFileMissing)
    } else if project_by_id(s.projects, p.id).vcs_url != p.vcs_url {
        Err(StoreError::IdentityMismatch)
    } else {
        Ok(
            s.projects.update(
                project_index(s.projects, p.id),
                spec_merge(project_by_id(s.projects, p.id), p),
            ),
        )
    }
}

/// The outcome `add_project` is bound to: which error, or the new index,
/// the new set of record files, and the record written.
pub open spec fn spec_add_outcome(s: StoreModel, p: ProjectModel) -> Result<
    (Seq<ProjectModel>, Set<Seq<char>>, ProjectModel),
    StoreError,
> {
    if p.id.len() == 0 {
        Err(StoreError::EmptyProjectId)
    } else if s.project_files.contains(p.id) {
        match spec_update_outcome(s, p) {
            Err(e) => Err(e),
            Ok(ps) => Ok(
                (
                    ps,
                    s.project_files,
                    spec_merge(project_by_id(s.projects, p.id), p),
                ),
            ),
        }
    } else {
        Ok((spec_index_put(s.projects, p), s.project_files.insert(p.id), p))
    }
}

/// A sorted index after an insert-or-replace of one record under its id.
pub open spec fn spec_index_put(s: Seq<ProjectModel>, p: ProjectModel) -> Seq<ProjectModel> {
    if has_project_id(s, p.id) {
        s.update(project_index(s, p.id), p)
    } else {
        s.insert(sorted_pos(s, p.id), p)
    }
}

/// How the store changes under `add_module`, and the fingerprint written,
/// if any.
pub open spec fn spec_add_module(s: StoreModel, m: ModuleModel) -> (StoreModel, Option<Seq<char>>) {
    let fp = spec_module_hash(m.manifest);
    if s.module_files.contains(fp) {
        (s, None)
    } else {
        (
            StoreModel {
                modules: s.modules.push(m),
                module_files: s.module_files.insert(fp),
                ..s
            },
            Some(fp),
        )
    }
}

/// Content-addressed idempotence: adding a module twice with identical
/// content gives exactly the state after the first add — one stored file,
/// one in-memory entry — and the second add writes nothing.
pub proof fn lemma_add_module_idempotent(s: StoreModel, m: ModuleModel)
    ensures
        spec_add_module(spec_add_module(s, m).0, m).0 == spec_add_module(s, m).0,
        spec_add_module(spec_add_module(s, m).0, m).1 is None,
{
    let fp = spec_module_hash(m.manifest);
    let s1 = spec_add_module(s, m).0;
    assert(s1.module_files.contains(fp));
}

/// The number of ids in the sorted index below `id` in byte order: where
/// an absent id belongs.
pub open spec fn sorted_pos(s: Seq<ProjectModel>, id: Seq<char>) -> int
    decreases s.len(),
{
    if s.len() == 0 {
        0
    } else if lex_lt(id_bytes(s[0]), encode_utf8(id)) {
        1 + sorted_pos(s.drop_first(), id)
    } else {
        0
    }
}

/// A position with everything below it before and nothing below it after
/// is the sorted position.
proof fn lemma_sorted_pos_char(s: Seq<ProjectModel>, id: Seq<char>, p: int)
    requires
        0 <= p <= s.len(),
        forall|k: int| 0 <= k < p ==> lex_lt(#[trigger] id_bytes(s[k]), encode_utf8(id)),
        p < s.len() ==> !lex_lt(id_bytes(s[p]), encode_utf8(id)),
    ensures
        sorted_pos(s, id) == p,
    decreases s.len(),
{
    if s.len() > 0 {
        if p == 0 {
        } else {
            assert(lex_lt(id_bytes(s[0]), encode_utf8(id)));
            let s1 = s.drop_first();
            assert(forall|k: int| 0 <= k < p - 1 ==> s1[k] == s[k + 1]);
            lemma_sorted_pos_char(s1, id, p - 1);
        }
    }
}

/// Inserting a fresh id at its sorted position keeps the index sorted
/// and its ids non-empty.
proof fn lemma_sorted_insert(s: Seq<ProjectModel>, p: ProjectModel, pos: int)
    requires
        index_sorted(s),
        ids_nonempty(s),
        p.id.len() > 0,
        0 <= pos <= s.len(),
        forall|k: int| 0 <= k < pos ==> lex_lt(#[trigger] id_bytes(s[k]), encode_utf8(p.id)),
        forall|k: int| pos <= k < s.len() ==> !lex_lt(#[trigger] id_bytes(s[k]), encode_utf8(p.id)),
        !has_project_id(s, p.id),
    ensures
        index_sorted(s.insert(pos, p)),
        ids_nonempty(s.insert(pos, p)),
{
    let t = s.insert(pos, p);
    assert forall|k: int| pos <= k < s.len() implies lex_lt(encode_utf8(p.id), id_bytes(s[k])) by {
        lemma_lex_lt_total(id_bytes(s[k]), encode_utf8(p.id));
        if !lex_lt(encode_utf8(p.id), id_bytes(s[k])) {
            assert(id_bytes(s[k]) =~= encode_utf8(p.id));
            lemma_encode_utf8_injective(s[k].id, p.id);
            assert(s[k].id == p.id);
        }
    }
    assert forall|i: int, j: int| 0 <= i < j < t.len() implies lex_lt(
        #[trigger] id_bytes(t[i]),
        #[trigger] id_bytes(t[j]),
    ) by {
        if i < pos {
            assert(t[i] == s[i]);
        } else if i == pos {
            assert(t[i] == p);
        } else {
            assert(t[i] == s[i - 1]);
        }
        if j < pos {
            assert(t[j] == s[j]);
        } else if j == pos {
            assert(t[j] == p);
        } else {
            assert(t[j] == s[j - 1]);
        }
    }
    assert forall|i: int| 0 <= i < t.len() implies (#[trigger] t[i].id).len() > 0 by {
        if i < pos {
            assert(t[i] == s[i]);
        } else if i == pos {
        } else {
            assert(t[i] == s[i - 1]);
        }
    }
}

/// Replacing one record with another of the same id keeps the index
/// sorted and its ids non-empty.
pub open spec fn final_index_ok(
    before: Seq<ProjectModel>,
    after: Seq<ProjectModel>,
    at: int,
) -> bool {
    after.len() == before.len() && 0 <= at < before.len() && after[at].id == before[at].id
        && (forall|k: int| 0 <= k < before.len() && k != at ==> after[k] == before[k])
}

/// A same-id replacement preserves the index invariants.
proof fn lemma_sorted_update(before: Seq<ProjectModel>, after: Seq<ProjectModel>, at: int)
    requires
        index_sorted(before),
        ids_nonempty(before),
        final_index_ok(before, after, at),
    ensures
        index_sorted(after),
        ids_nonempty(after),
{
    assert forall|i: int, j: int| 0 <= i < j < after.len() implies lex_lt(
        #[trigger] id_bytes(after[i]),
        #[trigger] id_bytes(after[j]),
    ) by {
        assert(id_bytes(after[i]) == id_bytes(before[i]));
        assert(id_bytes(after[j]) == id_bytes(before[j]));
    }
    assert forall|i: int| 0 <= i < after.len() implies (#[trigger] after[i].id).len() > 0 by {
        assert(after[i].id == before[i].id);
    }
}

/// The updateable-module predicate, as a function value.
pub open spec fn updateable_pred() -> spec_fn(ModuleModel) -> bool {
    |m: ModuleModel| m.uses_external_data_checker
}

/// The predicate for modules declaring one build system, as a function
/// value.
pub open spec fn bs_pred(bs: Seq<char>) -> spec_fn(ModuleModel) -> bool {
    |m: ModuleModel| m.buildsystem == Some(bs)
}

/// How many of the modules declare the build system.
pub open spec fn bs_count(ms: Seq<ModuleModel>, bs: Seq<char>) -> int {
    ms.filter(bs_pred(bs)).len() as int
}

/// The summed shallow size of a sequence of module records.
pub open spec fn sum_module_sizes(ms: Seq<SoftwareModule>) -> nat
    decreases ms.len(),
{
    if ms.len() == 0 {
        0
    } else {
        sum_module_sizes(ms.drop_last()) + vstd::layout::spec_size_of_val(&ms.last())
    }
}

/// A prefix never sums to more than the whole.
proof fn lemma_sum_prefix(ms: Seq<SoftwareModule>, i: int)
    requires
        0 <= i <= ms.len(),
    ensures
        sum_module_sizes(ms.take(i)) <= sum_module_sizes(ms),
    decreases ms.len() - i,
{
    if i < ms.len() {
        assert(ms.take(i + 1).drop_last() =~= ms.take(i));
        assert(ms.take(i + 1).last() == ms[i]);
        lemma_sum_prefix(ms, i + 1);
    } else {
        assert(ms.take(i) =~= ms);
    }
}

/// Where a tally already lists the key, if anywhere.
fn find_key(r: &Vec<(String, usize)>, key: &str) -> (o: Option<usize>)
    ensures
        match o {
            Some(t) => t < r@.len() && r@[t as int].0@ == key@,
            None => forall|t: int| 0 <= t < r@.len() ==> (#[trigger] r@[t].0@) != key@,
        },
{
    let mut t: usize = 0;
    while t < r.len()
        invariant
            t <= r@.len(),
            forall|l: int| 0 <= l < t ==> (#[trigger] r@[l].0@) != key@,
        decreases r@.len() - t,
    {
        if str_eq(r[t].0.as_str(), key) {
            return Some(t);
        }
        t += 1;
    }
    None
}

impl Database {
    /// How many modules carry external-data-checker metadata and so
    /// support automated update checks.
    pub fn count_updateable_modules(&self) -> (n: usize)
        ensures
            n == self@.modules.filter(updateable_pred()).len(),
    {
        let mut n: usize = 0;
        let mut i: usize = 0;
        while i < self.modules.len()
            invariant
                i <= self.modules@.len(),
                n <= i,
                n == self@.modules.take(i as int).filter(updateable_pred()).len(),
            decreases self.modules@.len() - i,
        {
            let ghost prefix = self@.modules.take(i as int);
            proof {
                lemma_filter_push(prefix, self@.modules[i as int], updateable_pred());
                assert(prefix.push(self@.modules[i as int]) =~= self@.modules.take(i + 1));
                prefix.lemma_filter_len(updateable_pred());
                assert(self@.modules[i as int].uses_external_data_checker
                    == self.modules@[i as int].uses_external_data_checker);
            }
            if self.modules[i].uses_external_data_checker {
                n += 1;
            }
            i += 1;
        }
        proof {
            assert(self@.modules.take(self@.modules.len() as int) =~= self@.modules);
        }
        n
    }

    /// Tallies the modules by declared build system: each declared name
    /// appears exactly once, in order of first appearance, with the
    /// number of modules declaring it.
    pub fn build_system_counts(&self) -> (r: Vec<(String, usize)>)
        ensures
            forall|a: int, b: int|
                0 <= a < b < r@.len() ==> (#[trigger] r@[a].0@) != (#[trigger] r@[b].0@),
            forall|t: int|
                0 <= t < r@.len() ==> (#[trigger] r@[t].1) as int == bs_count(
                    self@.modules,
                    r@[t].0@,
                ),
            forall|i: int|
                0 <= i < self@.modules.len() ==> (match (#[trigger] self@.modules[i]).buildsystem {
                    Some(bs) => exists|t: int| 0 <= t < r@.len() && (#[trigger] r@[t].0@) == bs,
                    None => true,
                }),
    {
        let mut r: Vec<(String, usize)> = Vec::new();
        let mut i: usize = 0;
        while i < self.modules.len()
            invariant
                i <= self.modules@.len(),
                forall|a: int, b: int|
                    0 <= a < b < r@.len() ==> (#[trigger] r@[a].0@) != (#[trigger] r@[b].0@),
                forall|t: int|
                    0 <= t < r@.len() ==> (#[trigger] r@[t].1) as int == bs_count(
                        self@.modules.take(i as int),
                        r@[t].0@,
                    ) && r@[t].1 <= i,
                forall|l: int|
                    0 <= l < i ==> (match (#[trigger] self@.modules[l]).buildsystem {
                        Some(bs) => exists|t: int| 0 <= t < r@.len() && (#[trigger] r@[t].0@) == bs,
                        None => true,
                    }),
            decreases self.modules@.len() - i,
        {
            let ghost prefix = self@.modules.take(i as int);
            let ghost mm = self@.modules[i as int];
            proof {
                assert(prefix.push(mm) =~= self@.modules.take(i + 1));
                assert(mm == self.modules@[i as int]@);
            }
            match &self.modules[i].buildsystem {
                None => {
                    proof {
                        assert forall|t: int| 0 <= t < r@.len() implies (#[trigger] r@[t].1) as int
                            == bs_count(self@.modules.take(i + 1), r@[t].0@) by {
                            lemma_filter_push(prefix, mm, bs_pred(r@[t].0@));
                        }
                    }
                },
                Some(bs) => {
                    proof {
                        assert(mm.buildsystem == Some(bs@));
                    }
                    let ghost prev = r@;
                    match find_key(&r, bs.as_str()) {
                        Some(t) => {
                            let k2 = r[t].0.clone();
                            let c = r[t].1;
                            r[t] = (k2, c + 1);
                            proof {
                                assert(r@ =~= prev.update(t as int, (r@[t as int].0, (c
                                    + 1) as usize)));
                                assert forall|t2: int|
                                    0 <= t2 < r@.len() implies (#[trigger] r@[t2].1) as int
                                    == bs_count(self@.modules.take(i + 1), r@[t2].0@) && r@[t2].1
                                    <= i + 1 by {
                                    lemma_filter_push(prefix, mm, bs_pred(prev[t2].0@));
                                    assert(r@[t2].0@ == prev[t2].0@);
                                    if t2 != t {
                                        assert(r@[t2] == prev[t2]);
                                        assert(prev[t2].0@ != prev[t as int].0@);
                                    }
                                }
                                assert forall|a: int, b: int|
                                    0 <= a < b < r@.len() implies (#[trigger] r@[a].0@) != (
                                #[trigger] r@[b].0@) by {
                                    assert(r@[a].0@ == prev[a].0@);
                                    assert(r@[b].0@ == prev[b].0@);
                                }
                                assert(r@[t as int].0@ == bs@);
                                assert forall|l: int|
                                    0 <= l <= i implies (match (
                                #[trigger] self@.modules[l]).buildsystem {
                                    Some(bsx) => exists|t3: int|
                                        0 <= t3 < r@.len() && (#[trigger] r@[t3].0@) == bsx,
                                    None => true,
                                }) by {
                                    if l < i {
                                        if self@.modules[l].buildsystem is Some {
                                            let t3 = choose|t3: int|
                                                0 <= t3 < prev.len() && (#[trigger] prev[t3].0@)
                                                    == self@.modules[l].buildsystem.unwrap();
                                            assert(r@[t3].0@ == prev[t3].0@);
                                        }
                                    } else {
                                        assert(r@[t as int].0@ == bs@);
                                    }
                                }
                            }
                        },
                        None => {
                            // no earlier module declared this name either,
                            // else it would already be listed
                            proof {
                                lemma_filter_elems(prefix, bs_pred(bs@));
                                if prefix.filter(bs_pred(bs@)).len() > 0 {
                                    let e = prefix.filter(bs_pred(bs@))[0];
                                    assert(prefix.filter(bs_pred(bs@)).contains(e));
                                    assert(prefix.contains(e));
                                    let l = choose|l: int|
                                        0 <= l < prefix.len() && prefix[l] == e;
                                    assert(self@.modules[l] == e);
                                    assert(false);
                                }
                            }
                            r.push((bs.clone(), 1));
                            proof {
                                assert(r@ =~= prev.push((r@[prev.len() as int].0, 1usize)));
                                assert(r@[prev.len() as int].0@ == bs@);
                                assert forall|t2: int|
                                    0 <= t2 < r@.len() implies (#[trigger] r@[t2].1) as int
                                    == bs_count(self@.modules.take(i + 1), r@[t2].0@) && r@[t2].1
                                    <= i + 1 by {
                                    lemma_filter_push(prefix, mm, bs_pred(r@[t2].0@));
                                    if t2 < prev.len() {
                                        assert(r@[t2] == prev[t2]);
                                        assert(prev[t2].0@ != bs@);
                                    } else {
                                        assert(bs_count(prefix, bs@) == 0);
                                    }
                                }
                                assert forall|a: int, b: int|
                                    0 <= a < b < r@.len() implies (#[trigger] r@[a].0@) != (
                                #[trigger] r@[b].0@) by {
                                    if b < prev.len() {
                                        assert(r@[a] == prev[a]);
                                        assert(r@[b] == prev[b]);
                                    } else {
                                        assert(r@[a] == prev[a]);
                                        assert(r@[b].0@ == bs@);
                                    }
                                }
                                assert forall|l: int|
                                    0 <= l <= i implies (match (
                                #[trigger] self@.modules[l]).buildsystem {
                                    Some(bsx) => exists|t3: int|
                                        0 <= t3 < r@.len() && (#[trigger] r@[t3].0@) == bsx,
                                    None => true,
                                }) by {
                                    if l < i {
                                        if self@.modules[l].buildsystem is Some {
                                            let t3 = choose|t3: int|
                                                0 <= t3 < prev.len() && (#[trigger] prev[t3].0@)
                                                    == self@.modules[l].buildsystem.unwrap();
                                            assert(r@[t3] == prev[t3]);
                                        }
                                    } else {
                                        assert(r@[prev.len() as int].0@ == bs@);
                                    }
                                }
                            }
                        },
                    }
                },
            }
            i += 1;
        }
        proof {
            assert(self@.modules.take(self@.modules.len() as int) =~= self@.modules);
        }
        r
    }

    /// The summed in-memory size of the module records, as
    /// the language reports each record's shallow size.
    pub fn get_database_memory_size(&self) -> (r: usize)
        requires
            sum_module_sizes(self.modules@) <= usize::MAX,
        ensures
            r == sum_module_sizes(self.modules@),
    {
        let mut db_size: usize = 0;
        let mut i: usize = 0;
        while i < self.modules.len()
            invariant
                i <= self.modules@.len(),
                sum_module_sizes(self.modules@) <= usize::MAX,
                db_size == sum_module_sizes(self.modules@.take(i as int)),
            decreases self.modules@.len() - i,
        {
            let sz = core::mem::size_of_val(&self.modules[i]);
            proof {
                assert(self.modules@.take(i + 1).drop_last() =~= self.modules@.take(i as int));
                assert(self.modules@.take(i + 1).last() == self.modules@[i as int]);
                lemma_sum_prefix(self.modules@, i + 1);
            }
            db_size += sz;
            i += 1;
        }
        proof {
            assert(self.modules@.take(self.modules@.len() as int) =~= self.modules@);
        }
        db_size
    }
}

/// The model of one decoded project record; a record that failed to
/// decode has no model of its own.
pub open spec fn rec_model(x: Result<SoftwareProject, DecodeFailure>) -> ProjectModel {
    match x {
        Ok(p) => p@,
        Err(_) => crate::project::empty_project_model(),
    }
}

/// Whether one stored project record is acceptable: it decoded, and its
/// id is not empty.
pub open spec fn rec_ok(x: Result<SoftwareProject, DecodeFailure>) -> bool {
    match x {
        Ok(p) => p@.id.len() > 0,
        Err(_) => false,
    }
}

/// Whether every stored project record is acceptable.
pub open spec fn all_projects_good(s: Seq<Result<SoftwareProject, DecodeFailure>>) -> bool {
    forall|i: int| 0 <= i < s.len() ==> rec_ok(#[trigger] s[i])
}

/// The position of the first unacceptable project record.
pub open spec fn first_bad_project(s: Seq<Result<SoftwareProject, DecodeFailure>>) -> int
    decreases s.len(),
{
    if s.len() == 0 {
        0
    } else if !rec_ok(s[0]) {
        0
    } else {
        1 + first_bad_project(s.drop_first())
    }
}

/// The error a load reports: decode failures carry their path and
/// message, an empty id is its own fatal fault.
pub open spec fn spec_load_error(s: Seq<Result<SoftwareProject, DecodeFailure>>) -> StoreError {
    match s[first_bad_project(s)] {
        Err(f) => StoreError::ProjectDecodeFailure { path: f.path, message: f.message },
        Ok(_) => StoreError::EmptyProjectId,
    }
}

/// A prefix of acceptable records puts the first fault right after it.
proof fn lemma_first_bad_char(s: Seq<Result<SoftwareProject, DecodeFailure>>, i: int)
    requires
        0 <= i < s.len(),
        forall|l: int| 0 <= l < i ==> rec_ok(#[trigger] s[l]),
        !rec_ok(s[i]),
    ensures
        first_bad_project(s) == i,
    decreases i,
{
    if i > 0 {
        assert(rec_ok(s[0]));
        let s1 = s.drop_first();
        assert(forall|l: int| 0 <= l < i - 1 ==> rec_ok(#[trigger] s1[l]));
        assert(s1[i - 1] == s[i]);
        lemma_first_bad_char(s1, i - 1);
    }
}

/// The index that loading a sequence of project records builds: each
/// record put in turn under its id, later records replacing earlier ones
/// with the same id.
pub open spec fn load_index(s: Seq<Result<SoftwareProject, DecodeFailure>>) -> Seq<ProjectModel>
    decreases s.len(),
{
    if s.len() == 0 {
        Seq::empty()
    } else {
        spec_index_put(load_index(s.drop_last()), rec_model(s.last()))
    }
}

/// The models of the module records that decoded, in order.
pub open spec fn decoded_modules(s: Seq<Result<SoftwareModule, DecodeFailure>>) -> Seq<ModuleModel>
    decreases s.len(),
{
    if s.len() == 0 {
        Seq::empty()
    } else {
        let rest = decoded_modules(s.drop_last());
        match s.last() {
            Ok(m) => rest.push(m@),
            Err(_) => rest,
        }
    }
}

/// The decode faults among the module records, in order.
pub open spec fn module_failures(s: Seq<Result<SoftwareModule, DecodeFailure>>) -> Seq<
    DecodeFailure,
>
    decreases s.len(),
{
    if s.len() == 0 {
        Seq::empty()
    } else {
        let rest = module_failures(s.drop_last());
        match s.last() {
            Ok(_) => rest,
            Err(f) => rest.push(f),
        }
    }
}

/// Reverses a vector, so that popping yields the original order.
fn reversed<T>(v: Vec<T>) -> (r: Vec<T>)
    ensures
        r@.len() == v@.len(),
        forall|l: int| 0 <= l < v@.len() ==> r@[l] == v@[v@.len() - 1 - l],
{
    let mut input = v;
    let ghost orig = input@;
    let mut out: Vec<T> = Vec::new();
    while input.len() > 0
        invariant
            input@.len() + out@.len() == orig.len(),
            input@ == orig.subrange(0, input@.len() as int),
            forall|l: int| 0 <= l < out@.len() ==> out@[l] == orig[orig.len() - 1 - l],
        decreases input@.len(),
    {
        let ghost k = input@.len();
        match input.pop() {
            Some(x) => {
                proof {
                    assert(x == orig.subrange(0, k as int)[k - 1]);
                    assert(input@ =~= orig.subrange(0, (k - 1) as int));
                }
                out.push(x);
            },
            None => {},
        }
    }
    out
}

/// Appends one module to a vector, tracked at the level of values.
fn push_module(v: &mut Vec<SoftwareModule>, m: SoftwareModule)
    ensures
        final(v).deep_view() == old(v).deep_view().push(m@),
{
    let ghost pseq = v@;
    let ghost pdv = v.deep_view();
    let ghost mv = m@;
    v.push(m);
    proof {
        assert forall|l: int| 0 <= l < v@.len() implies v.deep_view()[l] == pdv.push(mv)[l] by {
            if l < pseq.len() {
                assert(v@[l] == pseq[l]);
                assert(pdv[l] == pseq[l].deep_view());
            }
        }
        assert(v.deep_view() =~= pdv.push(mv));
    }
}

impl Database {
    /// Loads the store from the decoded contents of the record files.
    /// Project decoding is all-or-nothing: the first project record that
    /// failed to decode, or decoded with an empty id, stops the load — a
    /// silently dropped project could later be re-added as a duplicate.
    /// Module records that failed to decode are skipped and handed back
    /// as warnings; the load still returns a best-effort module pool.
    /// The two stem lists name the record files found on disk, without
    /// their extension: project files are named by id, module files by
    /// content fingerprint.
    pub fn load_from_records(
        project_records: Vec<Result<SoftwareProject, DecodeFailure>>,
        module_records: Vec<Result<SoftwareModule, DecodeFailure>>,
        project_file_stems: Vec<String>,
        module_file_stems: Vec<String>,
    ) -> (r: Result<(Database, Vec<DecodeFailure>), StoreError>)
        ensures
            r is Ok <==> all_projects_good(project_records@),
            match r {
                Ok((db, warnings)) => {
                    &&& db.inv()
                    &&& db@.projects == load_index(project_records@)
                    &&& db@.modules == decoded_modules(module_records@)
                    &&& warnings@ == module_failures(module_records@)
                    &&& db@.project_files == project_file_stems.deep_view().to_set()
                    &&& db@.module_files == module_file_stems.deep_view().to_set()
                },
                Err(e) => e == spec_load_error(project_records@),
            },
    {
        let ghost precs = project_records@;
        let ghost mrecs = module_records@;
        let mut db = Database::new();

        let mut prs = reversed(project_records);
        let total_p = prs.len();
        let mut i: usize = 0;
        while i < total_p
            invariant
                precs == project_records@,
                total_p == precs.len(),
                i <= total_p,
                prs@.len() == total_p - i,
                forall|l: int| 0 <= l < prs@.len() ==> prs@[l] == precs[precs.len() - 1 - l],
                forall|l: int| 0 <= l < i ==> rec_ok(#[trigger] precs[l]),
                db.inv(),
                db@.projects == load_index(precs.take(i as int)),
                db@.modules == Seq::<ModuleModel>::empty(),
                db@.project_files == Set::<Seq<char>>::empty(),
                db@.module_files == Set::<Seq<char>>::empty(),
            decreases total_p - i,
        {
            let rec = match prs.pop() {
                Some(x) => x,
                None => {
                    proof {
                        assert(false);
                    }
                    return Err(StoreError::EmptyProjectId);
                },
            };
            proof {
                assert(rec == precs[i as int]);
                assert(precs.take(i + 1).drop_last() =~= precs.take(i as int));
                assert(precs.take(i + 1).last() == precs[i as int]);
            }
            match rec {
                Err(f) => {
                    proof {
                        assert(precs[i as int] == Err::<SoftwareProject, DecodeFailure>(f));
                        assert(!rec_ok(precs[i as int]));
                        lemma_first_bad_char(precs, i as int);
                        assert(spec_load_error(precs) == StoreError::ProjectDecodeFailure {
                            path: f.path,
                            message: f.message,
                        });
                    }
                    return Err(StoreError::ProjectDecodeFailure { path: f.path, message: f.message });
                },
                Ok(p) => {
                    if p.id.as_str().is_empty() {
                        proof {
                            assert(precs[i as int] == Ok::<SoftwareProject, DecodeFailure>(p));
                            assert(!rec_ok(precs[i as int]));
                            lemma_first_bad_char(precs, i as int);
                            assert(spec_load_error(precs) == StoreError::EmptyProjectId);
                        }
                        return Err(StoreError::EmptyProjectId);
                    }
                    db.index_put(p);
                },
            }
            i += 1;
        }
        proof {
            assert(precs.take(precs.len() as int) =~= precs);
        }

        let mut warnings: Vec<DecodeFailure> = Vec::new();
        let mut mods: Vec<SoftwareModule> = Vec::new();
        let mut mrs = reversed(module_records);
        let total_m = mrs.len();
        let mut j: usize = 0;
        while j < total_m
            invariant
                mrecs == module_records@,
                total_m == mrecs.len(),
                j <= total_m,
                mrs@.len() == total_m - j,
                forall|l: int| 0 <= l < mrs@.len() ==> mrs@[l] == mrecs[mrecs.len() - 1 - l],
                mods.deep_view() == decoded_modules(mrecs.take(j as int)),
                warnings@ == module_failures(mrecs.take(j as int)),
            decreases total_m - j,
        {
            let rec = match mrs.pop() {
                Some(x) => x,
                None => {
                    proof {
                        assert(false);
                    }
                    return Err(StoreError::EmptyProjectId);
                },
            };
            proof {
                assert(rec == mrecs[j as int]);
                assert(mrecs.take(j + 1).drop_last() =~= mrecs.take(j as int));
                assert(mrecs.take(j + 1).last() == mrecs[j as int]);
            }
            match rec {
                Ok(m) => {
                    push_module(&mut mods, m);
                },
                Err(f) => {
                    warnings.push(f);
                },
            }
            j += 1;
        }
        proof {
            assert(mrecs.take(mrecs.len() as int) =~= mrecs);
        }
        db.modules = mods;
        db.project_files = StringSet::from_items(project_file_stems);
        db.module_files = StringSet::from_items(module_file_stems);
        Ok((db, warnings))
    }
}

/// Whether one project matches a search term, over the executable record.
fn matches_project(p: &SoftwareProject, term: &str) -> (r: bool)
    ensures
        r == project_matches(p@, term.spec_bytes()),
{
    if str_contains(p.name.as_str(), term) {
        return true;
    }
    let urls = p.vcs_urls.as_vec();
    let ghost uv = urls.deep_view();
    let mut i: usize = 0;
    while i < urls.len()
        invariant
            i <= urls@.len(),
            uv == urls.deep_view(),
            uv.to_set() == p@.vcs_urls,
            forall|k: int|
                0 <= k < i ==> !contains_bytes(encode_utf8(#[trigger] uv[k]), term.spec_bytes()),
        decreases urls@.len() - i,
    {
        if str_contains(urls[i].as_str(), term) {
            proof {
                assert(uv[i as int] == urls@[i as int]@);
                assert(uv.contains(uv[i as int]));
                assert(p@.vcs_urls.contains(uv[i as int]));
            }
            return true;
        }
        i += 1;
    }
    proof {
        if exists|u: Seq<char>|
            #[trigger] p@.vcs_urls.contains(u) && contains_bytes(encode_utf8(u), term.spec_bytes()) {
            let u = choose|u: Seq<char>|
                #[trigger] p@.vcs_urls.contains(u) && contains_bytes(
                    encode_utf8(u),
                    term.spec_bytes(),
                );
            assert(uv.contains(u));
            let k = choose|k: int| 0 <= k < uv.len() && uv[k] == u;
            assert(false);
        }
    }
    false
}

} // verus!
