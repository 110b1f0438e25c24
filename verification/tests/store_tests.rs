use fpm_core::db::Database;
use fpm_core::error::DecodeFailure;
use fpm_core::error::StoreError;
use fpm_core::module::SoftwareModule;
use fpm_core::project::SoftwareProject;
use fpm_core::siblings::detect_siblings;
use fpm_core::strset::StringSet;

fn project(id: &str, vcs: &str) -> SoftwareProject {
    let mut p = SoftwareProject::default();
    p.id = id.to_string();
    p.vcs_url = vcs.to_string();
    p
}

fn module(name: &str, manifest: &str) -> SoftwareModule {
    let mut m = SoftwareModule::default();
    m.name = name.to_string();
    m.manifest = manifest.to_string();
    m
}

#[test]
fn add_and_get_project() {
    let mut db = Database::new();
    let mut p = project("org.example.app", "https://one");
    p.name = "Example".to_string();
    let w = db.add_project(p).unwrap();
    assert_eq!(w.id, "org.example.app");
    assert!(db.has_project("org.example.app"));
    assert!(!db.has_project("org.example.other"));
    let got = db.get_project("org.example.app").unwrap();
    assert_eq!(got.name, "Example");
    assert!(db.get_project("org.example.other").is_none());
}

#[test]
fn get_project_returns_a_copy() {
    let mut db = Database::new();
    db.add_project(project("org.example.app", "https://one")).unwrap();
    let mut got = db.get_project("org.example.app").unwrap();
    got.name = "changed".to_string();
    let again = db.get_project("org.example.app").unwrap();
    assert_eq!(again.name, "");
}

#[test]
fn add_project_empty_id_fails() {
    let mut db = Database::new();
    let r = db.add_project(project("", "https://one"));
    assert!(matches!(r, Err(StoreError::EmptyProjectId)));
    assert!(db.projects.is_empty());
}

#[test]
fn update_project_absent_fails_and_writes_nothing() {
    let mut db = Database::new();
    let r = db.update_project(project("org.example.ghost", "https://one"));
    assert!(matches!(r, Err(StoreError::ProjectNotFound)));
    assert!(db.projects.is_empty());
}

#[test]
fn update_project_missing_file_fails() {
    let db_projects = vec![project("org.example.app", "https://one")];
    let mut db = Database {
        projects: db_projects,
        modules: Vec::new(),
        project_files: StringSet::new(),
        module_files: StringSet::new(),
    };
    let r = db.update_project(project("org.example.app", "https://one"));
    assert!(matches!(r, Err(StoreError::ProjectFileMissing)));
}

#[test]
fn update_project_merges_and_persists() {
    let mut db = Database::new();
    let mut p = project("org.example.app", "https://one");
    p.web_urls = StringSet::from_items(vec!["https://a".to_string()]);
    db.add_project(p).unwrap();
    let mut upd = project("org.example.app", "https://one");
    upd.web_urls = StringSet::from_items(vec!["https://b".to_string()]);
    let w = db.update_project(upd).unwrap();
    assert_eq!(w.id, "org.example.app");
    assert!(w.record.web_urls.contains("https://a"));
    assert!(w.record.web_urls.contains("https://b"));
    let got = db.get_project("org.example.app").unwrap();
    assert_eq!(got.web_urls.len(), 2);
}

#[test]
fn update_project_identity_mismatch() {
    let mut db = Database::new();
    db.add_project(project("org.example.app", "https://one")).unwrap();
    let r = db.update_project(project("org.example.app", "https://two"));
    assert!(matches!(r, Err(StoreError::IdentityMismatch)));
}

#[test]
fn add_project_existing_id_merges_instead() {
    let mut db = Database::new();
    let mut p = project("org.example.app", "https://one");
    p.name = "Example".to_string();
    p.tags = StringSet::from_items(vec!["gitlab".to_string()]);
    db.add_project(p).unwrap();
    let mut again = project("org.example.app", "https://one");
    again.tags = StringSet::from_items(vec!["github".to_string()]);
    db.add_project(again).unwrap();
    let got = db.get_project("org.example.app").unwrap();
    assert_eq!(got.name, "Example");
    assert_eq!(got.tags.len(), 2);
    assert_eq!(db.projects.len(), 1);
}

#[test]
fn add_module_writes_once_for_same_content() {
    let mut db = Database::new();
    let w1 = db.add_module(module("foo", "manifest text"));
    assert!(w1.is_some());
    assert_eq!(db.modules.len(), 1);
    let w2 = db.add_module(module("foo", "manifest text"));
    assert!(w2.is_none());
    assert_eq!(db.modules.len(), 1);
    let w3 = db.add_module(module("foo", "other manifest text"));
    assert!(w3.is_some());
    assert_eq!(db.modules.len(), 2);
}

#[test]
fn module_fingerprint_is_deterministic() {
    let a = fpm_core::utils::get_module_hash(&module("foo", "manifest text"));
    let b = fpm_core::utils::get_module_hash(&module("bar", "manifest text"));
    let c = fpm_core::utils::get_module_hash(&module("foo", "different"));
    assert_eq!(a, b);
    assert_ne!(a, c);
}

#[test]
fn search_modules_is_case_insensitive() {
    let mut db = Database::new();
    db.add_module(module("FooBar", "m1"));
    db.add_module(module("other", "m2"));
    let found = db.search_modules("foobar");
    assert_eq!(found.len(), 1);
    assert_eq!(found[0].name, "FooBar");
    let upper = db.search_modules("OTHER");
    assert_eq!(upper.len(), 1);
    assert_eq!(upper[0].name, "other");
    assert_eq!(db.search_modules("missing").len(), 0);
}

#[test]
fn search_projects_by_name_and_vcs_url() {
    let mut db = Database::new();
    let mut p1 = project("org.example.alpha", "https://one");
    p1.name = "Alpha Editor".to_string();
    p1.vcs_urls = StringSet::from_items(vec!["https://git.example/alpha".to_string()]);
    db.add_project(p1).unwrap();
    let mut p2 = project("org.example.beta", "https://two");
    p2.name = "Beta".to_string();
    p2.vcs_urls = StringSet::from_items(vec!["https://git.example/beta".to_string()]);
    db.add_project(p2).unwrap();

    let by_name = db.search_projects("Editor");
    assert_eq!(by_name.len(), 1);
    assert_eq!(by_name[0].id, "org.example.alpha");

    let by_url = db.search_projects("example/beta");
    assert_eq!(by_url.len(), 1);
    assert_eq!(by_url[0].id, "org.example.beta");

    // the project search is case-sensitive
    assert_eq!(db.search_projects("editor").len(), 0);

    let both = db.search_projects("git.example");
    assert_eq!(both.len(), 2);
    // results follow the index's id order
    assert_eq!(both[0].id, "org.example.alpha");
    assert_eq!(both[1].id, "org.example.beta");
}

#[test]
fn index_keeps_id_order_regardless_of_insertion_order() {
    let mut db = Database::new();
    for id in ["org.example.zeta", "org.example.alpha", "org.example.mid"] {
        let mut p = project(id, "https://host");
        p.name = format!("registry entry {}", id);
        db.add_project(p).unwrap();
    }
    let all = db.search_projects("registry entry");
    assert_eq!(all.len(), 3);
    assert_eq!(all[0].id, "org.example.alpha");
    assert_eq!(all[1].id, "org.example.mid");
    assert_eq!(all[2].id, "org.example.zeta");
}

fn fingerprinted(id: &str, vcs: &str, hashes: &[&str]) -> SoftwareProject {
    let mut p = project(id, vcs);
    p.root_hashes = hashes.iter().map(|h| h.to_string()).collect();
    p
}

#[test]
fn sibling_detection_groups_by_signature() {
    let mut db = Database::new();
    db.add_project(fingerprinted("a", "https://a", &["h1", "h2"])).unwrap();
    db.add_project(fingerprinted("b", "https://b", &["h1", "h2"])).unwrap();
    db.add_project(fingerprinted("c", "https://c", &["h3"])).unwrap();
    let writes = detect_siblings(&mut db).unwrap();
    assert_eq!(writes.len(), 2);

    let a = db.get_project("a").unwrap();
    let sa = a.siblings.as_ref().unwrap();
    assert_eq!(sa.len(), 2);
    assert!(sa.contains("a"));
    assert!(sa.contains("b"));

    let b = db.get_project("b").unwrap();
    let sb = b.siblings.as_ref().unwrap();
    assert_eq!(sb.len(), 2);
    assert!(sb.contains("a"));
    assert!(sb.contains("b"));

    let c = db.get_project("c").unwrap();
    assert!(c.siblings.is_none());
}

#[test]
fn sibling_detection_respects_hash_order() {
    let mut db = Database::new();
    db.add_project(fingerprinted("a", "https://a", &["h1", "h2"])).unwrap();
    db.add_project(fingerprinted("b", "https://b", &["h2", "h1"])).unwrap();
    detect_siblings(&mut db).unwrap();
    assert!(db.get_project("a").unwrap().siblings.is_none());
    assert!(db.get_project("b").unwrap().siblings.is_none());
}

#[test]
fn sibling_detection_keys_on_concatenation() {
    // the signature is a plain concatenation, so differently split hash
    // lists with the same run of characters land in one group
    let mut db = Database::new();
    db.add_project(fingerprinted("a", "https://a", &["h1h2"])).unwrap();
    db.add_project(fingerprinted("b", "https://b", &["h1", "h2"])).unwrap();
    detect_siblings(&mut db).unwrap();
    assert!(db.get_project("a").unwrap().siblings.is_some());
    assert!(db.get_project("b").unwrap().siblings.is_some());
}

#[test]
fn sibling_detection_skips_unfingerprinted() {
    let mut db = Database::new();
    db.add_project(project("a", "https://a")).unwrap();
    db.add_project(project("b", "https://b")).unwrap();
    let writes = detect_siblings(&mut db).unwrap();
    assert_eq!(writes.len(), 0);
    assert!(db.get_project("a").unwrap().siblings.is_none());
}

#[test]
fn sibling_detection_aborts_on_missing_file() {
    let mut db = Database::new();
    db.add_project(fingerprinted("a", "https://a", &["h1"])).unwrap();
    db.add_project(fingerprinted("b", "https://b", &["h1"])).unwrap();
    // drop b's record file from the model of the storage directory
    db.project_files = StringSet::from_items(vec!["a".to_string()]);
    let r = detect_siblings(&mut db);
    assert!(matches!(r, Err(StoreError::ProjectFileMissing)));
    // the member processed before the failure keeps its new siblings
    assert!(db.get_project("a").unwrap().siblings.is_some());
    assert!(db.get_project("b").unwrap().siblings.is_none());
}

#[test]
fn load_builds_store_from_records() {
    let mut p = project("org.example.app", "https://one");
    p.name = "Example".to_string();
    let r = Database::load_from_records(
        vec![Ok(p)],
        vec![
            Ok(module("foo", "m1")),
            Err(DecodeFailure { path: "modules/bad.yaml".to_string(), message: "bad".to_string() }),
            Ok(module("bar", "m2")),
        ],
        vec!["org.example.app".to_string()],
        vec!["123".to_string()],
    );
    let (db, warnings) = r.unwrap();
    assert_eq!(warnings.len(), 1);
    assert_eq!(warnings[0].path, "modules/bad.yaml");
    assert_eq!(db.modules.len(), 2);
    assert_eq!(db.modules[0].name, "foo");
    assert_eq!(db.modules[1].name, "bar");
    assert!(db.has_project("org.example.app"));
    assert!(db.project_files.contains("org.example.app"));
    assert!(db.module_files.contains("123"));
}

#[test]
fn load_fails_on_bad_project_record() {
    let r = Database::load_from_records(
        vec![
            Ok(project("org.example.app", "https://one")),
            Err(DecodeFailure { path: "projects/x.yaml".to_string(), message: "truncated".to_string() }),
        ],
        vec![],
        vec![],
        vec![],
    );
    match r {
        Err(StoreError::ProjectDecodeFailure { path, message }) => {
            assert_eq!(path, "projects/x.yaml");
            assert_eq!(message, "truncated");
        },
        _ => panic!("expected a fatal project decode failure"),
    }
}

#[test]
fn load_fails_on_empty_project_id() {
    let r = Database::load_from_records(vec![Ok(project("", "https://one"))], vec![], vec![], vec![]);
    assert!(matches!(r, Err(StoreError::EmptyProjectId)));
}

#[test]
fn load_keeps_last_record_per_id() {
    let mut first = project("org.example.app", "https://one");
    first.name = "First".to_string();
    let mut second = project("org.example.app", "https://one");
    second.name = "Second".to_string();
    let (db, _) =
        Database::load_from_records(vec![Ok(first), Ok(second)], vec![], vec![], vec![]).unwrap();
    assert_eq!(db.projects.len(), 1);
    assert_eq!(db.get_project("org.example.app").unwrap().name, "Second");
}

#[test]
fn stats_counters() {
    let mut db = Database::new();
    let mut m1 = module("foo", "m1");
    m1.buildsystem = Some("cargo".to_string());
    m1.uses_external_data_checker = true;
    let mut m2 = module("bar", "m2");
    m2.buildsystem = Some("meson".to_string());
    let mut m3 = module("baz", "m3");
    m3.buildsystem = Some("cargo".to_string());
    db.add_module(m1);
    db.add_module(m2);
    db.add_module(m3);
    assert_eq!(db.count_updateable_modules(), 1);
    let counts = db.build_system_counts();
    assert_eq!(counts.len(), 2);
    assert_eq!(counts[0], ("cargo".to_string(), 2));
    assert_eq!(counts[1], ("meson".to_string(), 1));
}

#[test]
fn memory_size_scales_with_module_count() {
    let mut db = Database::new();
    assert_eq!(db.get_database_memory_size(), 0);
    db.add_module(module("foo", "m1"));
    let one = db.get_database_memory_size();
    db.add_module(module("bar", "m2"));
    assert_eq!(db.get_database_memory_size(), 2 * one);
}
