//! The sibling detector: groups projects by their root ancestry
//! fingerprint and records the relationship symmetrically on every member
//! of a group, writing through the store's normal update path.

use vstd::prelude::*;

verus! {

use crate::db::Database;
use crate::db::ProjectWrite;
use crate::db::has_project_id;
use crate::db::lemma_filter_push;
use crate::db::lemma_index_unique;
use crate::db::project_by_id;
use crate::db::project_index;
use crate::error::StoreError;
use crate::project::ProjectModel;
use crate::project::SoftwareProject;
use crate::project::clone_string_vec;
use crate::project::spec_merge;
use crate::project::spec_root_signature;
use crate::strset::StringSet;
use crate::text::str_eq;

/// The grouping predicate for one signature, as a function value.
pub open spec fn sig_pred(sig: Seq<char>) -> spec_fn(ProjectModel) -> bool {
    |p: ProjectModel| spec_root_signature(p) == sig
}

/// The id of a project, as a function value.
pub open spec fn id_of() -> spec_fn(ProjectModel) -> Seq<char> {
    |p: ProjectModel| p.id
}

/// The ids, in index order, of the projects whose root signature is `sig`.
pub open spec fn group_ids(s: Seq<ProjectModel>, sig: Seq<char>) -> Seq<Seq<char>> {
    s.filter(sig_pred(sig)).map_values(id_of())
}

/// The set a member's `siblings` field receives: every member id of its
/// group, the member's own id included.
pub open spec fn group_id_set(s: Seq<ProjectModel>, sig: Seq<char>) -> Set<Seq<char>> {
    group_ids(s, sig).to_set()
}

/// What one full detection pass makes of the project at index `j`:
/// members of a genuine sibling group — two or more projects sharing one
/// non-empty root signature — receive the full member id set as
/// `siblings` when they had none; every other project, and every member
/// that already had siblings, is left as it was.
pub open spec fn sibling_pass_target(old_s: Seq<ProjectModel>, j: int) -> ProjectModel
    recommends
        0 <= j < old_s.len(),
{
    let p = old_s[j];
    let sig = spec_root_signature(p);
    if sig.len() > 0 && group_ids(old_s, sig).len() > 1 {
        ProjectModel { siblings: if p.siblings is None {
            Some(group_id_set(old_s, sig))
        } else {
            p.siblings
        }, ..p }
    } else {
        p
    }
}

/// Whether `new_s` is exactly the outcome of one full detection pass
/// over `old_s`.
pub open spec fn sibling_pass_post(old_s: Seq<ProjectModel>, new_s: Seq<ProjectModel>) -> bool {
    new_s.len() == old_s.len() && forall|j: int|
        0 <= j < old_s.len() ==> new_s[j] == sibling_pass_target(old_s, j)
}

/// Whether every member of every genuine sibling group has its record
/// file on disk — the condition for a pass to run to completion.
pub open spec fn all_group_files_present(s: Seq<ProjectModel>, files: Set<Seq<char>>) -> bool {
    forall|j: int|
        0 <= j < s.len() ==> ((spec_root_signature(#[trigger] s[j]).len() > 0 && group_ids(
            s,
            spec_root_signature(s[j]),
        ).len() > 1) ==> files.contains(s[j].id))
}

/// How one more project changes a group: its id joins its own group and
/// no other.
proof fn lemma_group_push(s: Seq<ProjectModel>, p: ProjectModel, sig: Seq<char>)
    ensures
        spec_root_signature(p) == sig ==> group_ids(s.push(p), sig) == group_ids(s, sig).push(p.id),
        spec_root_signature(p) != sig ==> group_ids(s.push(p), sig) == group_ids(s, sig),
{
    lemma_filter_push(s, p, sig_pred(sig));
    if spec_root_signature(p) == sig {
        assert(s.push(p).filter(sig_pred(sig)) == s.filter(sig_pred(sig)).push(p));
        assert(s.filter(sig_pred(sig)).push(p).map_values(id_of()) =~= s.filter(
            sig_pred(sig),
        ).map_values(id_of()).push(p.id));
    }
}

/// Group membership: an id is in a group exactly when some project holds
/// it and has the signature; in a sorted index the member ids are also
/// pairwise distinct.
proof fn lemma_group_members(s: Seq<ProjectModel>, sig: Seq<char>)
    requires
        forall|i: int, j: int| 0 <= i < j < s.len() ==> (#[trigger] s[i].id) != (#[trigger] s[j].id),
    ensures
        forall|x: Seq<char>|
            #[trigger] group_ids(s, sig).contains(x) <==> (exists|j: int|
                0 <= j < s.len() && (#[trigger] s[j].id) == x && spec_root_signature(s[j]) == sig),
        group_ids(s, sig).no_duplicates(),
    decreases s.len(),
{
    if s.len() == 0 {
        reveal_with_fuel(Seq::filter, 1);
        assert(group_ids(s, sig) =~= Seq::<Seq<char>>::empty());
    } else {
        let s0 = s.drop_last();
        let p = s.last();
        assert(s0.push(p) =~= s);
        lemma_group_members(s0, sig);
        lemma_group_push(s0, p, sig);
        let g0 = group_ids(s0, sig);
        let g = group_ids(s, sig);
        if spec_root_signature(p) == sig {
            assert(g == g0.push(p.id));
            assert forall|x: Seq<char>| #[trigger] g.contains(x) implies (exists|j: int|
                0 <= j < s.len() && (#[trigger] s[j].id) == x && spec_root_signature(s[j])
                    == sig) by {
                let k = choose|k: int| 0 <= k < g.len() && g[k] == x;
                if k < g0.len() {
                    assert(g0.contains(x));
                    let j = choose|j: int|
                        0 <= j < s0.len() && (#[trigger] s0[j].id) == x && spec_root_signature(
                            s0[j],
                        ) == sig;
                    assert(s[j].id == x && spec_root_signature(s[j]) == sig);
                } else {
                    assert(x == p.id);
                    assert(s[s.len() - 1].id == x);
                }
            }
            assert forall|x: Seq<char>|
                (exists|j: int|
                    0 <= j < s.len() && (#[trigger] s[j].id) == x && spec_root_signature(s[j])
                        == sig) implies #[trigger] g.contains(x) by {
                let j = choose|j: int|
                    0 <= j < s.len() && (#[trigger] s[j].id) == x && spec_root_signature(s[j])
                        == sig;
                if j < s0.len() {
                    assert(s0[j].id == x && spec_root_signature(s0[j]) == sig);
                    assert(g0.contains(x));
                    let k = choose|k: int| 0 <= k < g0.len() && g0[k] == x;
                    assert(g[k] == x);
                } else {
                    assert(g[g.len() - 1] == x);
                }
            }
            // distinctness: the new id is not among the earlier member ids
            assert forall|a: int, b: int| 0 <= a < b < g.len() implies g[a] != g[b] by {
                if b == g.len() - 1 {
                    assert(g[b] == p.id);
                    assert(g0.contains(g[a]));
                    let j = choose|j: int|
                        0 <= j < s0.len() && (#[trigger] s0[j].id) == g[a] && spec_root_signature(
                            s0[j],
                        ) == sig;
                    assert(s[j].id == g[a]);
                    assert(s[s.len() - 1].id == p.id);
                }
            }
        } else {
            assert(g == g0);
            assert forall|x: Seq<char>| #[trigger] g.contains(x) implies (exists|j: int|
                0 <= j < s.len() && (#[trigger] s[j].id) == x && spec_root_signature(s[j])
                    == sig) by {
                let j = choose|j: int|
                    0 <= j < s0.len() && (#[trigger] s0[j].id) == x && spec_root_signature(s0[j])
                        == sig;
                assert(s[j].id == x && spec_root_signature(s[j]) == sig);
            }
            assert forall|x: Seq<char>|
                (exists|j: int|
                    0 <= j < s.len() && (#[trigger] s[j].id) == x && spec_root_signature(s[j])
                        == sig) implies #[trigger] g.contains(x) by {
                let j = choose|j: int|
                    0 <= j < s.len() && (#[trigger] s[j].id) == x && spec_root_signature(s[j])
                        == sig;
                assert(j < s0.len());
                assert(s0[j].id == x && spec_root_signature(s0[j]) == sig);
            }
        }
    }
}

/// A non-empty signature means the project has root hashes.
proof fn lemma_sig_nonempty_hashes(p: ProjectModel)
    requires
        spec_root_signature(p).len() > 0,
    ensures
        p.root_hashes.len() > 0,
{
}

/// Whether the pass has already handled the project at `j`: its
/// signature's whole group is done, or the group in progress has reached
/// its id.
pub open spec fn handled(
    old_s: Seq<ProjectModel>,
    done_sigs: Seq<Seq<char>>,
    pids: Seq<Seq<char>>,
    psig: Seq<char>,
    j: int,
) -> bool {
    done_sigs.contains(spec_root_signature(old_s[j])) || (spec_root_signature(old_s[j]) == psig
        && pids.contains(old_s[j].id))
}

/// The mid-pass relation: every handled project already shows its target
/// value, every other project is untouched, the record files never
/// change, every handled member of a genuine group had its file, and the
/// collected writes mirror the handled projects.
pub open spec fn pass_state(
    old_s: Seq<ProjectModel>,
    old_files: Set<Seq<char>>,
    cur: Seq<ProjectModel>,
    done_sigs: Seq<Seq<char>>,
    pids: Seq<Seq<char>>,
    psig: Seq<char>,
    writes: Seq<ProjectWrite>,
) -> bool {
    &&& cur.len() == old_s.len()
    &&& forall|j: int|
        0 <= j < old_s.len() ==> #[trigger] cur[j] == (if handled(old_s, done_sigs, pids, psig, j) {
            sibling_pass_target(old_s, j)
        } else {
            old_s[j]
        })
    &&& forall|j: int|
        0 <= j < old_s.len() ==> ((handled(old_s, done_sigs, pids, psig, j)
            && group_ids(old_s, spec_root_signature(#[trigger] old_s[j])).len() > 1)
            ==> old_files.contains(old_s[j].id))
    &&& forall|w: int|
        0 <= w < writes.len() ==> exists|j: int|
            0 <= j < old_s.len() && handled(old_s, done_sigs, pids, psig, j) && (
            #[trigger] writes[w]).id@ == old_s[j].id && writes[w].record@ == cur[j]
    &&& forall|j: int|
        0 <= j < old_s.len() && #[trigger] cur[j] != old_s[j] ==> exists|w: int|
            0 <= w < writes.len() && (#[trigger] writes[w].id@) == old_s[j].id
}

/// Appends one string to a vector, tracked at the level of values.
fn push_string(v: &mut Vec<String>, s: String)
    ensures
        final(v).deep_view() == old(v).deep_view().push(s@),
{
    let ghost pseq = v@;
    let ghost pdv = v.deep_view();
    let ghost sv = s@;
    v.push(s);
    proof {
        assert forall|l: int| 0 <= l < v@.len() implies v.deep_view()[l] == pdv.push(sv)[l] by {
            if l < pseq.len() {
                assert(v@[l] == pseq[l]);
                assert(pdv[l] == pseq[l].deep_view());
            }
        }
        assert(v.deep_view() =~= pdv.push(sv));
    }
}

/// Whether a vector of strings holds this value.
fn vec_contains_str(v: &Vec<String>, s: &str) -> (r: bool)
    ensures
        r == v.deep_view().contains(s@),
{
    let mut i: usize = 0;
    while i < v.len()
        invariant
            i <= v@.len(),
            forall|k: int| 0 <= k < i ==> v.deep_view()[k] != s@,
        decreases v@.len() - i,
    {
        if str_eq(v[i].as_str(), s) {
            proof {
                assert(v.deep_view()[i as int] == s@);
            }
            return true;
        }
        i += 1;
    }
    proof {
        if v.deep_view().contains(s@) {
            let k = choose|k: int| 0 <= k < v.deep_view().len() && v.deep_view()[k] == s@;
            assert(false);
        }
    }
    false
}

/// Runs one detection pass: computes every project's root signature,
/// groups the projects by identical non-empty signature, and gives every
/// member of each group of two or more the full member id set as its
/// siblings, one `update_project` call per member. Singleton groups and
/// unfingerprinted projects are left untouched. When a member's record
/// file is missing the pass aborts: earlier members keep their new
/// siblings, the failing member and the rest are unprocessed; re-running
/// the pass after repair completes it.
pub fn detect_siblings(db: &mut Database) -> (r: Result<Vec<ProjectWrite>, StoreError>)
    requires
        old(db).inv(),
    ensures
        final(db).inv(),
        final(db)@.modules == old(db)@.modules,
        final(db)@.project_files == old(db)@.project_files,
        final(db)@.module_files == old(db)@.module_files,
        r is Ok <==> all_group_files_present(old(db)@.projects, old(db)@.project_files),
        r is Ok ==> sibling_pass_post(old(db)@.projects, final(db)@.projects),
        r matches Ok(ws) ==> (forall|w: int|
            0 <= w < ws@.len() ==> has_project_id(final(db)@.projects, (#[trigger] ws@[w]).id@)
                && ws@[w].record@ == project_by_id(final(db)@.projects, ws@[w].id@)),
        r matches Ok(ws) ==> (forall|j: int|
            0 <= j < old(db)@.projects.len() && #[trigger] final(db)@.projects[j] != old(
                db,
            )@.projects[j] ==> exists|w: int|
                0 <= w < ws@.len() && (#[trigger] ws@[w].id@) == old(db)@.projects[j].id),
        r is Err ==> r == Err::<Vec<ProjectWrite>, StoreError>(StoreError::ProjectFileMissing)
            && final(db)@.projects.len() == old(db)@.projects.len() && (forall|j: int|
            0 <= j < old(db)@.projects.len() ==> final(db)@.projects[j] == old(db)@.projects[j]
                || #[trigger] final(db)@.projects[j] == sibling_pass_target(old(db)@.projects, j)),
{
    let ghost old_s = db@.projects;
    let ghost old_files = db@.project_files;
    proof {
        assert forall|a: int, b: int|
            0 <= a < b < old_s.len() implies (#[trigger] old_s[a].id) != (#[trigger] old_s[b].id) by {
            if old_s[a].id == old_s[b].id {
                lemma_index_unique(old_s, a, b);
            }
        }
    }

    // First pass: the distinct non-empty root signatures.
    let mut sigs: Vec<String> = Vec::new();
    let mut i: usize = 0;
    while i < db.projects.len()
        invariant
            old(db).inv(),
            old_s == old(db)@.projects,
            db@ == old(db)@,
            i <= old_s.len(),
            forall|a: int, b: int|
                0 <= a < b < sigs.deep_view().len() ==> sigs.deep_view()[a] != sigs.deep_view()[b],
            forall|t: int| 0 <= t < sigs.deep_view().len() ==> sigs.deep_view()[t].len() > 0,
            forall|j: int|
                0 <= j < i && spec_root_signature(#[trigger] old_s[j]).len() > 0
                    ==> sigs.deep_view().contains(spec_root_signature(old_s[j])),
        decreases old_s.len() - i,
    {
        let sig = db.projects[i].get_root_signature();
        if !sig.as_str().is_empty() {
            if !vec_contains_str(&sigs, sig.as_str()) {
                let ghost prev = sigs.deep_view();
                push_string(&mut sigs, sig);
                proof {
                    assert forall|x: Seq<char>| prev.contains(x) implies sigs.deep_view().contains(
                        x,
                    ) by {
                        let t = choose|t: int| 0 <= t < prev.len() && prev[t] == x;
                        assert(sigs.deep_view()[t] == x);
                    }
                    assert(sigs.deep_view()[prev.len() as int] == spec_root_signature(
                        old_s[i as int],
                    ));
                }
            } else {
                proof {
                    assert(sigs.deep_view().contains(spec_root_signature(old_s[i as int])));
                }
            }
        }
        i += 1;
    }
    let ghost sv = sigs.deep_view();

    // Second pass: per signature, collect the member ids and, for groups
    // of two or more, write the sibling set into every member.
    let mut writes: Vec<ProjectWrite> = Vec::new();
    let mut k: usize = 0;
    while k < sigs.len()
        invariant
            old(db).inv(),
            old_s == old(db)@.projects,
            old_files == old(db)@.project_files,
            forall|a: int, b: int|
                0 <= a < b < old_s.len() ==> (#[trigger] old_s[a].id) != (#[trigger] old_s[b].id),
            sv == sigs.deep_view(),
            k <= sv.len(),
            forall|a: int, b: int| 0 <= a < b < sv.len() ==> sv[a] != sv[b],
            forall|t: int| 0 <= t < sv.len() ==> sv[t].len() > 0,
            forall|j: int|
                0 <= j < old_s.len() && spec_root_signature(#[trigger] old_s[j]).len() > 0
                    ==> sv.contains(spec_root_signature(old_s[j])),
            db.inv(),
            db@.project_files == old_files,
            db@.modules == old(db)@.modules,
            db@.module_files == old(db)@.module_files,
            pass_state(
                old_s,
                old_files,
                db@.projects,
                sv.take(k as int),
                Seq::empty(),
                Seq::empty(),
                writes@,
            ),
        decreases sv.len() - k,
    {
        let ghost done_sigs = sv.take(k as int);
        // Collect the ids of the projects carrying this signature.
        let mut members: Vec<String> = Vec::new();
        let mut j: usize = 0;
        while j < db.projects.len()
            invariant
                old_s == old(db)@.projects,
                sv == sigs.deep_view(),
                k < sv.len(),
                j <= old_s.len(),
                db@.projects.len() == old_s.len(),
                forall|t: int|
                    0 <= t < old_s.len() ==> (#[trigger] db@.projects[t]).id == old_s[t].id
                        && spec_root_signature(db@.projects[t]) == spec_root_signature(old_s[t]),
                members.deep_view() == group_ids(old_s.take(j as int), sv[k as int]),
            decreases old_s.len() - j,
        {
            let sj = db.projects[j].get_root_signature();
            let ghost taken = old_s.take(j as int);
            let is_member = str_eq(sj.as_str(), sigs[k].as_str());
            proof {
                let ghost pj = db@.projects[j as int];
                assert(pj.id == old_s[j as int].id && spec_root_signature(pj)
                    == spec_root_signature(old_s[j as int]));
                assert(pj == db.projects@[j as int]@);
                assert(db.projects@[j as int].id@ == old_s[j as int].id);
                assert(sj@ == spec_root_signature(old_s[j as int]));
                assert(sigs@[k as int]@ == sv[k as int]);
                assert(is_member == (spec_root_signature(old_s[j as int]) == sv[k as int]));
                lemma_group_push(taken, old_s[j as int], sv[k as int]);
                assert(taken.push(old_s[j as int]) =~= old_s.take(j + 1));
                assert(group_ids(old_s.take(j + 1), sv[k as int]) == group_ids(
                    taken.push(old_s[j as int]),
                    sv[k as int],
                ));
            }
            if is_member {
                push_string(&mut members, db.projects[j].id.clone());
                proof {
                    assert(members.deep_view() == group_ids(old_s.take(j + 1), sv[k as int]));
                }
            } else {
                proof {
                    assert(members.deep_view() == group_ids(old_s.take(j + 1), sv[k as int]));
                }
            }
            j += 1;
        }
        proof {
            assert(old_s.take(old_s.len() as int) =~= old_s);
        }
        let ghost gids = members.deep_view();
        // gids == group_ids(old_s, sv[k])
        if members.len() > 1 {
            let mut m: usize = 0;
            while m < members.len()
                invariant
                    old(db).inv(),
                    old_s == old(db)@.projects,
                    old_files == old(db)@.project_files,
                    forall|a: int, b: int|
                        0 <= a < b < old_s.len() ==> (#[trigger] old_s[a].id) != (
                        #[trigger] old_s[b].id),
                    sv == sigs.deep_view(),
                    k < sv.len(),
                    forall|a: int, b: int| 0 <= a < b < sv.len() ==> sv[a] != sv[b],
                    forall|t: int| 0 <= t < sv.len() ==> sv[t].len() > 0,
                    forall|j2: int|
                        0 <= j2 < old_s.len() && spec_root_signature(#[trigger] old_s[j2]).len() > 0
                            ==> sv.contains(spec_root_signature(old_s[j2])),
                    gids == members.deep_view(),
                    gids == group_ids(old_s, sv[k as int]),
                    gids.len() > 1,
                    m <= gids.len(),
                    db.inv(),
                    db@.project_files == old_files,
                    db@.modules == old(db)@.modules,
                    db@.module_files == old(db)@.module_files,
                    pass_state(
                        old_s,
                        old_files,
                        db@.projects,
                        sv.take(k as int),
                        gids.take(m as int),
                        sv[k as int],
                        writes@,
                    ),
                decreases gids.len() - m,
            {
                let ghost done_sigs = sv.take(k as int);
                let ghost pids = gids.take(m as int);
                let ghost sig = sv[k as int];
                let ghost cur = db@.projects;
                proof {
                    lemma_group_members(old_s, sig);
                    assert(gids.contains(gids[m as int]));
                    assert(exists|jj: int|
                        0 <= jj < old_s.len() && (#[trigger] old_s[jj].id) == gids[m as int]
                            && spec_root_signature(old_s[jj]) == sig);
                }
                let ghost jm = choose|jj: int|
                    0 <= jj < old_s.len() && (#[trigger] old_s[jj].id) == gids[m as int]
                        && spec_root_signature(old_s[jj]) == sig;
                proof {
                    // this member is not yet handled
                    assert(!done_sigs.contains(sig)) by {
                        if done_sigs.contains(sig) {
                            let t = choose|t: int| 0 <= t < done_sigs.len() && done_sigs[t] == sig;
                            assert(sv[t] == sv[k as int]);
                        }
                    }
                    assert(!pids.contains(old_s[jm].id)) by {
                        if pids.contains(old_s[jm].id) {
                            let l = choose|l: int| 0 <= l < pids.len() && pids[l] == old_s[jm].id;
                            assert(gids[l] == gids[m as int]);
                            assert(gids.no_duplicates());
                        }
                    }
                    assert(!handled(old_s, done_sigs, pids, sig, jm));
                    assert(cur[jm] == old_s[jm]);
                }
                let existing = match db.get_project(members[m].as_str()) {
                    Some(p) => p,
                    None => {
                        proof {
                            assert(cur[jm].id == gids[m as int]);
                            assert(has_project_id(cur, gids[m as int]));
                            assert(false);
                        }
                        return Err(StoreError::ProjectNotFound);
                    },
                };
                proof {
                    lemma_index_unique(cur, jm, project_index(cur, gids[m as int]));
                    assert(existing@ == old_s[jm]);
                }
                let mut rec = SoftwareProject::default();
                rec.id = members[m].clone();
                rec.vcs_url = existing.vcs_url;
                rec.siblings = Some(StringSet::from_items(clone_string_vec(&members)));
                proof {
                    assert(rec@.id == old_s[jm].id);
                    assert(rec@.vcs_url == old_s[jm].vcs_url);
                    assert(rec@.siblings == Some(gids.to_set()));
                }
                let ghost expected = sibling_pass_target(old_s, jm);
                proof {
                    lemma_sig_nonempty_hashes(old_s[jm]);
                    assert(spec_merge(old_s[jm], rec@) =~= expected);
                }
                match db.update_project(rec) {
                    Ok(w) => {
                        proof {
                            assert(project_index(cur, old_s[jm].id) == jm) by {
                                lemma_index_unique(cur, jm, project_index(cur, old_s[jm].id));
                            }
                            assert(db@.projects =~= cur.update(jm, expected));
                            assert(w.id@ == old_s[jm].id);
                            assert(w.record@ == expected);
                        }
                        let ghost prev_writes = writes@;
                        writes.push(w);
                        proof {
                            assert(writes@.drop_last() =~= prev_writes);
                            reestablish_pass_state(
                                old_s,
                                old_files,
                                cur,
                                db@.projects,
                                done_sigs,
                                pids,
                                sig,
                                jm,
                                writes@,
                                m as int,
                                gids,
                            );
                        }
                        m += 1;
                    },
                    Err(e) => {
                        proof {
                            // the only reachable failure is a missing file
                            assert(rec@.id.len() > 0);
                            assert(has_project_id(cur, rec@.id));
                            assert(project_by_id(cur, rec@.id).vcs_url == rec@.vcs_url) by {
                                lemma_index_unique(cur, jm, project_index(cur, rec@.id));
                            }
                            assert(!old_files.contains(old_s[jm].id));
                            assert(e == StoreError::ProjectFileMissing);
                            // the pass cannot complete: one genuine member
                            // has no record file
                            assert(!all_group_files_present(old_s, old_files)) by {
                                assert(spec_root_signature(old_s[jm]).len() > 0);
                                assert(group_ids(old_s, spec_root_signature(old_s[jm])).len() > 1);
                            }
                            assert forall|j2: int| 0 <= j2 < old_s.len() implies db@.projects[j2]
                                == old_s[j2] || #[trigger] db@.projects[j2] == sibling_pass_target(
                                old_s,
                                j2,
                            ) by {
                                assert(cur[j2] == (if handled(old_s, done_sigs, pids, sig, j2) {
                                    sibling_pass_target(old_s, j2)
                                } else {
                                    old_s[j2]
                                }));
                            }
                        }
                        return Err(e);
                    },
                }
            }
            proof {
                close_group(old_s, old_files, db@.projects, sv, k as int, gids, writes@);
            }
        } else {
            proof {
                close_small_group(old_s, old_files, db@.projects, sv, k as int, gids, writes@);
            }
        }
        k += 1;
    }
    proof {
        assert(sv.take(sv.len() as int) =~= sv);
        // every group is done, so the pass reached its target everywhere
        assert forall|j: int| 0 <= j < old_s.len() implies #[trigger] db@.projects[j]
            == sibling_pass_target(old_s, j) by {
            let sig = spec_root_signature(old_s[j]);
            if sig.len() > 0 {
                assert(sv.contains(sig));
                assert(handled(old_s, sv, Seq::empty(), Seq::empty(), j));
            } else {
                assert(!handled(old_s, sv, Seq::empty(), Seq::empty(), j));
                reveal_with_fuel(Seq::filter, 1);
            }
        }
        assert(all_group_files_present(old_s, old_files)) by {
            assert forall|j: int|
                0 <= j < old_s.len() && (spec_root_signature(#[trigger] old_s[j]).len() > 0
                    && group_ids(old_s, spec_root_signature(old_s[j])).len()
                    > 1) implies old_files.contains(old_s[j].id) by {
                assert(sv.contains(spec_root_signature(old_s[j])));
                assert(handled(old_s, sv, Seq::empty(), Seq::empty(), j));
            }
        }
        assert forall|w: int| 0 <= w < writes@.len() implies has_project_id(
            db@.projects,
            (#[trigger] writes@[w]).id@,
        ) && writes@[w].record@ == project_by_id(db@.projects, writes@[w].id@) by {
            let j = choose|j: int|
                0 <= j < old_s.len() && handled(old_s, sv, Seq::empty(), Seq::empty(), j) && (
                #[trigger] writes@[w]).id@ == old_s[j].id && writes@[w].record@ == db@.projects[j];
            assert(db@.projects[j].id == old_s[j].id);
            assert(has_project_id(db@.projects, writes@[w].id@));
            lemma_index_unique(db@.projects, j, project_index(db@.projects, writes@[w].id@));
        }
    }
    Ok(writes)
}

/// The sibling set a project carries, the empty set when unset.
pub open spec fn siblings_of(p: ProjectModel) -> Set<Seq<char>> {
    match p.siblings {
        Some(s) => s,
        None => Set::empty(),
    }
}

/// Sibling symmetry. After one full detection pass over a store whose
/// projects carried no siblings yet: a project that ends with a sibling
/// set lists its own id in it, and every id in the set names a project
/// whose own siblings set is the very same set — so membership is mutual
/// and the set is identical across all members of the group.
pub proof fn lemma_sibling_symmetry(
    old_s: Seq<ProjectModel>,
    new_s: Seq<ProjectModel>,
    i: int,
    id: Seq<char>,
)
    requires
        forall|a: int, b: int|
            0 <= a < b < old_s.len() ==> (#[trigger] old_s[a].id) != (#[trigger] old_s[b].id),
        sibling_pass_post(old_s, new_s),
        forall|j: int| 0 <= j < old_s.len() ==> (#[trigger] old_s[j]).siblings is None,
        0 <= i < new_s.len(),
        new_s[i].siblings is Some,
        siblings_of(new_s[i]).contains(id),
    ensures
        siblings_of(new_s[i]).contains(new_s[i].id),
        exists|j: int|
            0 <= j < new_s.len() && (#[trigger] new_s[j].id) == id && new_s[j].siblings
                == new_s[i].siblings,
{
    let p = old_s[i];
    let sig = spec_root_signature(p);
    assert(new_s[i] == sibling_pass_target(old_s, i));
    assert(sig.len() > 0 && group_ids(old_s, sig).len() > 1);
    assert(new_s[i].siblings == Some(group_id_set(old_s, sig)));
    lemma_group_members(old_s, sig);
    // the project's own id is one of the member ids
    assert(group_ids(old_s, sig).contains(p.id));
    assert(siblings_of(new_s[i]).contains(p.id));
    assert(new_s[i].id == p.id);
    // the listed id names a member of the same group
    assert(group_ids(old_s, sig).contains(id));
    let j = choose|j: int|
        0 <= j < old_s.len() && (#[trigger] old_s[j].id) == id && spec_root_signature(old_s[j])
            == sig;
    assert(new_s[j] == sibling_pass_target(old_s, j));
    assert(group_ids(old_s, spec_root_signature(old_s[j])) == group_ids(old_s, sig));
    assert(new_s[j].siblings == Some(group_id_set(old_s, sig)));
    assert(new_s[j].id == id);
}

/// Singleton exclusion: a project with no root signature, or whose root
/// signature is unique among all projects, comes out of the detection
/// pass exactly as it went in — its siblings field keeps whatever value
/// it had.
pub proof fn lemma_singleton_exclusion(old_s: Seq<ProjectModel>, new_s: Seq<ProjectModel>, j: int)
    requires
        sibling_pass_post(old_s, new_s),
        0 <= j < old_s.len(),
        spec_root_signature(old_s[j]).len() == 0 || group_ids(
            old_s,
            spec_root_signature(old_s[j]),
        ).len() <= 1,
    ensures
        new_s[j] == old_s[j],
{
}

/// After a member's update, the mid-pass relation holds with that member
/// counted as handled.
proof fn reestablish_pass_state(
    old_s: Seq<ProjectModel>,
    old_files: Set<Seq<char>>,
    cur: Seq<ProjectModel>,
    cur2: Seq<ProjectModel>,
    done_sigs: Seq<Seq<char>>,
    pids: Seq<Seq<char>>,
    sig: Seq<char>,
    jm: int,
    writes2: Seq<ProjectWrite>,
    m: int,
    gids: Seq<Seq<char>>,
)
    requires
        forall|a: int, b: int|
            0 <= a < b < old_s.len() ==> (#[trigger] old_s[a].id) != (#[trigger] old_s[b].id),
        pass_state(old_s, old_files, cur, done_sigs, pids, sig, writes2.drop_last()),
        !handled(old_s, done_sigs, pids, sig, jm),
        0 <= jm < old_s.len(),
        0 <= m < gids.len(),
        gids == group_ids(old_s, sig),
        gids.len() > 1,
        pids == gids.take(m),
        old_s[jm].id == gids[m],
        spec_root_signature(old_s[jm]) == sig,
        cur2 == cur.update(jm, sibling_pass_target(old_s, jm)),
        old_files.contains(old_s[jm].id),
        writes2.len() > 0,
        writes2.last().id@ == old_s[jm].id,
        writes2.last().record@ == sibling_pass_target(old_s, jm),
    ensures
        pass_state(old_s, old_files, cur2, done_sigs, gids.take(m + 1), sig, writes2),
{
    let pids2 = gids.take(m + 1);
    assert(pids.push(gids[m]) =~= pids2);
    assert forall|x: Seq<char>| pids2.contains(x) implies (pids.contains(x) || x == gids[m]) by {
        let l = choose|l: int| 0 <= l < pids2.len() && pids2[l] == x;
        if l < m {
            assert(pids[l] == x);
        }
    }
    assert forall|x: Seq<char>| pids.contains(x) implies pids2.contains(x) by {
        let l = choose|l: int| 0 <= l < pids.len() && pids[l] == x;
        assert(pids2[l] == x);
    }
    assert(pids2.contains(gids[m])) by {
        assert(pids2[m] == gids[m]);
    }
    // which projects count as handled changes only at jm
    assert forall|j: int| 0 <= j < old_s.len() && j != jm implies (handled(
        old_s,
        done_sigs,
        pids2,
        sig,
        j,
    ) == handled(old_s, done_sigs, pids, sig, j)) by {
        if spec_root_signature(old_s[j]) == sig && pids2.contains(old_s[j].id) && !pids.contains(
            old_s[j].id,
        ) {
            assert(old_s[j].id == gids[m]);
            assert(old_s[j].id == old_s[jm].id);
        }
    }
    assert(handled(old_s, done_sigs, pids2, sig, jm));
    assert forall|j: int| 0 <= j < old_s.len() implies #[trigger] cur2[j] == (if handled(
        old_s,
        done_sigs,
        pids2,
        sig,
        j,
    ) {
        sibling_pass_target(old_s, j)
    } else {
        old_s[j]
    }) by {
        if j != jm {
            assert(cur2[j] == cur[j]);
        }
    }
    assert forall|w: int| 0 <= w < writes2.len() implies exists|j: int|
        0 <= j < old_s.len() && handled(old_s, done_sigs, pids2, sig, j) && (
        #[trigger] writes2[w]).id@ == old_s[j].id && writes2[w].record@ == cur2[j] by {
        if w < writes2.len() - 1 {
            assert(writes2.drop_last()[w] == writes2[w]);
            let j = choose|j: int|
                0 <= j < old_s.len() && handled(old_s, done_sigs, pids, sig, j) && (
                #[trigger] writes2.drop_last()[w]).id@ == old_s[j].id
                    && writes2.drop_last()[w].record@ == cur[j];
            assert(j != jm);
            assert(cur2[j] == cur[j]);
            assert(handled(old_s, done_sigs, pids2, sig, j));
        } else {
            assert(writes2[w] == writes2.last());
            assert(cur2[jm] == sibling_pass_target(old_s, jm));
        }
    }
    assert forall|j: int|
        0 <= j < old_s.len() && #[trigger] cur2[j] != old_s[j] implies exists|w: int|
        0 <= w < writes2.len() && (#[trigger] writes2[w].id@) == old_s[j].id by {
        if j == jm {
            assert(writes2[writes2.len() - 1].id@ == old_s[jm].id);
        } else {
            assert(cur[j] == cur2[j]);
            let w = choose|w: int|
                0 <= w < writes2.drop_last().len() && (#[trigger] writes2.drop_last()[w].id@)
                    == old_s[j].id;
            assert(writes2[w].id@ == old_s[j].id);
        }
    }
}

/// Once every member id of the group in progress has been handled, the
/// whole signature counts as done.
proof fn close_group(
    old_s: Seq<ProjectModel>,
    old_files: Set<Seq<char>>,
    cur: Seq<ProjectModel>,
    sv: Seq<Seq<char>>,
    k: int,
    gids: Seq<Seq<char>>,
    writes: Seq<ProjectWrite>,
)
    requires
        0 <= k < sv.len(),
        gids == group_ids(old_s, sv[k]),
        pass_state(old_s, old_files, cur, sv.take(k), gids.take(gids.len() as int), sv[k], writes),
        forall|a: int, b: int|
            0 <= a < b < old_s.len() ==> (#[trigger] old_s[a].id) != (#[trigger] old_s[b].id),
    ensures
        pass_state(old_s, old_files, cur, sv.take(k + 1), Seq::empty(), Seq::empty(), writes),
{
    let d1 = sv.take(k);
    let d2 = sv.take(k + 1);
    assert(d1.push(sv[k]) =~= d2);
    assert(d2.contains(sv[k])) by {
        assert(d2[k] == sv[k]);
    }
    assert forall|x: Seq<char>| d1.contains(x) implies d2.contains(x) by {
        let t = choose|t: int| 0 <= t < d1.len() && d1[t] == x;
        assert(d2[t] == x);
    }
    assert forall|x: Seq<char>| d2.contains(x) implies (d1.contains(x) || x == sv[k]) by {
        let t = choose|t: int| 0 <= t < d2.len() && d2[t] == x;
        if t < k {
            assert(d1[t] == x);
        }
    }
    lemma_group_members(old_s, sv[k]);
    let pids = gids.take(gids.len() as int);
    assert(pids =~= gids);
    assert forall|j: int| 0 <= j < old_s.len() implies (handled(old_s, d2, Seq::empty(), Seq::empty(), j)
        == handled(old_s, d1, pids, sv[k], j)) by {
        if spec_root_signature(old_s[j]) == sv[k] {
            assert(gids.contains(old_s[j].id));
        }
    }
    assert forall|j: int| 0 <= j < old_s.len() implies #[trigger] cur[j] == (if handled(
        old_s,
        d2,
        Seq::empty(),
        Seq::empty(),
        j,
    ) {
        sibling_pass_target(old_s, j)
    } else {
        old_s[j]
    }) by {
        assert(cur[j] == (if handled(old_s, d1, pids, sv[k], j) {
            sibling_pass_target(old_s, j)
        } else {
            old_s[j]
        }));
    }
    assert forall|j: int|
        0 <= j < old_s.len() && (handled(old_s, d2, Seq::empty(), Seq::empty(), j) && group_ids(
            old_s,
            spec_root_signature(#[trigger] old_s[j]),
        ).len() > 1) implies old_files.contains(old_s[j].id) by {
        assert(handled(old_s, d1, pids, sv[k], j));
    }
    assert forall|w: int| 0 <= w < writes.len() implies exists|j: int|
        0 <= j < old_s.len() && handled(old_s, d2, Seq::empty(), Seq::empty(), j) && (
        #[trigger] writes[w]).id@ == old_s[j].id && writes[w].record@ == cur[j] by {
        let j = choose|j: int|
            0 <= j < old_s.len() && handled(old_s, d1, pids, sv[k], j) && (#[trigger] writes[w]).id@
                == old_s[j].id && writes[w].record@ == cur[j];
        assert(handled(old_s, d2, Seq::empty(), Seq::empty(), j));
    }
}

/// A signature whose group has at most one member is done with nothing
/// to write: singleton groups carry no information.
proof fn close_small_group(
    old_s: Seq<ProjectModel>,
    old_files: Set<Seq<char>>,
    cur: Seq<ProjectModel>,
    sv: Seq<Seq<char>>,
    k: int,
    gids: Seq<Seq<char>>,
    writes: Seq<ProjectWrite>,
)
    requires
        0 <= k < sv.len(),
        gids == group_ids(old_s, sv[k]),
        gids.len() <= 1,
        pass_state(old_s, old_files, cur, sv.take(k), Seq::empty(), Seq::empty(), writes),
        forall|a: int, b: int|
            0 <= a < b < old_s.len() ==> (#[trigger] old_s[a].id) != (#[trigger] old_s[b].id),
    ensures
        pass_state(old_s, old_files, cur, sv.take(k + 1), Seq::empty(), Seq::empty(), writes),
{
    let d1 = sv.take(k);
    let d2 = sv.take(k + 1);
    assert(d1.push(sv[k]) =~= d2);
    assert(d2.contains(sv[k])) by {
        assert(d2[k] == sv[k]);
    }
    assert forall|x: Seq<char>| d1.contains(x) implies d2.contains(x) by {
        let t = choose|t: int| 0 <= t < d1.len() && d1[t] == x;
        assert(d2[t] == x);
    }
    assert forall|x: Seq<char>| d2.contains(x) implies (d1.contains(x) || x == sv[k]) by {
        let t = choose|t: int| 0 <= t < d2.len() && d2[t] == x;
        if t < k {
            assert(d1[t] == x);
        }
    }
    // the one member, if any, already shows its target: for a group of
    // at most one, the target is the old value
    assert forall|j: int| 0 <= j < old_s.len() implies #[trigger] cur[j] == (if handled(
        old_s,
        d2,
        Seq::empty(),
        Seq::empty(),
        j,
    ) {
        sibling_pass_target(old_s, j)
    } else {
        old_s[j]
    }) by {
        if spec_root_signature(old_s[j]) == sv[k] {
            assert(sibling_pass_target(old_s, j) == old_s[j]);
        }
    }
    assert forall|j: int|
        0 <= j < old_s.len() && (handled(old_s, d2, Seq::empty(), Seq::empty(), j) && group_ids(
            old_s,
            spec_root_signature(#[trigger] old_s[j]),
        ).len() > 1) implies old_files.contains(old_s[j].id) by {
        if spec_root_signature(old_s[j]) != sv[k] {
            assert(handled(old_s, d1, Seq::empty(), Seq::empty(), j));
        }
    }
    assert forall|w: int| 0 <= w < writes.len() implies exists|j: int|
        0 <= j < old_s.len() && handled(old_s, d2, Seq::empty(), Seq::empty(), j) && (
        #[trigger] writes[w]).id@ == old_s[j].id && writes[w].record@ == cur[j] by {
        let j = choose|j: int|
            0 <= j < old_s.len() && handled(old_s, d1, Seq::empty(), Seq::empty(), j) && (
            #[trigger] writes[w]).id@ == old_s[j].id && writes[w].record@ == cur[j];
        assert(handled(old_s, d2, Seq::empty(), Seq::empty(), j));
    }
}

} // verus!
