use fpm_core::project::SoftwareProject;
use fpm_core::strset::StringSet;

fn project(id: &str, vcs: &str) -> SoftwareProject {
    let mut p = SoftwareProject::default();
    p.id = id.to_string();
    p.vcs_url = vcs.to_string();
    p
}

fn set_of(items: &[&str]) -> StringSet {
    StringSet::from_items(items.iter().map(|s| s.to_string()).collect())
}

#[test]
fn merge_unions_set_fields() {
    let mut p = project("org.example.app", "https://one");
    p.web_urls = set_of(&["https://a"]);
    p.tags = set_of(&["gitlab"]);
    let mut other = project("org.example.app", "https://one");
    other.web_urls = set_of(&["https://b", "https://a"]);
    other.tags = set_of(&["github"]);
    other.build_systems = set_of(&["cargo"]);
    assert!(p.merge(&other).is_ok());
    assert_eq!(p.web_urls.len(), 2);
    assert!(p.web_urls.contains("https://a"));
    assert!(p.web_urls.contains("https://b"));
    assert_eq!(p.tags.len(), 2);
    assert!(p.build_systems.contains("cargo"));
}

#[test]
fn merge_identity_mismatch_changes_nothing() {
    let mut p = project("org.example.app", "https://one");
    p.web_urls = set_of(&["https://a"]);
    let mut other = project("org.example.other", "https://one");
    other.web_urls = set_of(&["https://b"]);
    let r = p.merge(&other);
    assert!(matches!(r, Err(fpm_core::error::StoreError::IdentityMismatch)));
    assert_eq!(p.web_urls.len(), 1);
    assert!(!p.web_urls.contains("https://b"));
    assert_eq!(p.id, "org.example.app");
}

#[test]
fn merge_vcs_mismatch_is_identity_mismatch() {
    let mut p = project("org.example.app", "https://one");
    let other = project("org.example.app", "https://two");
    let r = p.merge(&other);
    assert!(matches!(r, Err(fpm_core::error::StoreError::IdentityMismatch)));
}

#[test]
fn merge_with_self_copy_changes_nothing() {
    let mut p = project("org.example.app", "https://one");
    p.web_urls = set_of(&["https://a", "https://b"]);
    p.description = Some("desc".to_string());
    p.root_hashes = vec!["h1".to_string(), "h2".to_string()];
    let copy = p.clone();
    assert!(p.merge(&copy).is_ok());
    assert_eq!(p.web_urls.len(), 2);
    assert_eq!(p.description.as_deref(), Some("desc"));
    assert_eq!(p.root_hashes, vec!["h1".to_string(), "h2".to_string()]);
    assert_eq!(p.name, copy.name);
    assert!(p.siblings.is_none());
}

#[test]
fn merge_overwrites_scalars_when_present() {
    let mut p = project("org.example.app", "https://one");
    p.description = Some("old".to_string());
    p.main_branch = Some("main".to_string());
    let mut other = project("org.example.app", "https://one");
    other.description = Some("new".to_string());
    other.last_updated = Some("2021-01-01T00:00:00".to_string());
    assert!(p.merge(&other).is_ok());
    assert_eq!(p.description.as_deref(), Some("new"));
    assert_eq!(p.main_branch.as_deref(), Some("main"));
    assert_eq!(p.last_updated.as_deref(), Some("2021-01-01T00:00:00"));
}

#[test]
fn merge_keeps_existing_root_hashes() {
    let mut p = project("org.example.app", "https://one");
    p.root_hashes = vec!["h1".to_string()];
    let mut other = project("org.example.app", "https://one");
    other.root_hashes = vec!["h2".to_string()];
    assert!(p.merge(&other).is_ok());
    assert_eq!(p.root_hashes, vec!["h1".to_string()]);
}

#[test]
fn merge_adopts_root_hashes_when_empty() {
    let mut p = project("org.example.app", "https://one");
    let mut other = project("org.example.app", "https://one");
    other.root_hashes = vec!["h2".to_string(), "h3".to_string()];
    assert!(p.merge(&other).is_ok());
    assert_eq!(p.root_hashes, vec!["h2".to_string(), "h3".to_string()]);
}

#[test]
fn merge_adopts_siblings_only_when_unset() {
    let mut p = project("org.example.app", "https://one");
    let mut other = project("org.example.app", "https://one");
    other.siblings = Some(set_of(&["org.example.twin"]));
    assert!(p.merge(&other).is_ok());
    assert!(p.siblings.as_ref().unwrap().contains("org.example.twin"));

    let mut third = project("org.example.app", "https://one");
    third.siblings = Some(set_of(&["org.example.stranger"]));
    assert!(p.merge(&third).is_ok());
    assert!(p.siblings.as_ref().unwrap().contains("org.example.twin"));
    assert!(!p.siblings.as_ref().unwrap().contains("org.example.stranger"));
}

#[test]
fn merge_two_steps_equals_combined_on_sets() {
    let mut p1 = project("org.example.app", "https://one");
    p1.web_urls = set_of(&["https://a"]);
    let mut o1 = project("org.example.app", "https://one");
    o1.web_urls = set_of(&["https://b"]);
    o1.tags = set_of(&["t1"]);
    let mut o2 = project("org.example.app", "https://one");
    o2.web_urls = set_of(&["https://c"]);
    o2.tags = set_of(&["t2"]);
    assert!(p1.merge(&o1).is_ok());
    assert!(p1.merge(&o2).is_ok());

    let mut p2 = project("org.example.app", "https://one");
    p2.web_urls = set_of(&["https://a"]);
    let mut combined = project("org.example.app", "https://one");
    combined.web_urls = set_of(&["https://b", "https://c"]);
    combined.tags = set_of(&["t1", "t2"]);
    assert!(p2.merge(&combined).is_ok());

    assert_eq!(p1.web_urls.len(), p2.web_urls.len());
    for u in ["https://a", "https://b", "https://c"] {
        assert!(p1.web_urls.contains(u));
        assert!(p2.web_urls.contains(u));
    }
    assert_eq!(p1.tags.len(), 2);
    assert_eq!(p2.tags.len(), 2);
}

#[test]
fn supports_flatpak_on_any_manifest_kind() {
    let mut p = project("org.example.app", "https://one");
    assert!(!p.supports_flatpak());
    p.flatpak_module_manifests = set_of(&["modules/foo.yaml"]);
    assert!(p.supports_flatpak());
    let mut q = project("org.example.app", "https://one");
    q.flatpak_app_manifests = set_of(&["org.example.app.yaml"]);
    assert!(q.supports_flatpak());
    let mut r = project("org.example.app", "https://one");
    r.flatpak_sources_manifests = set_of(&["sources.yaml"]);
    assert!(r.supports_flatpak());
}

#[test]
fn root_signature_concatenates_in_order() {
    let mut p = project("org.example.app", "https://one");
    p.root_hashes = vec!["h1".to_string(), "h2".to_string()];
    assert_eq!(p.get_root_signature(), "h1h2");
    let q = project("org.example.app", "https://one");
    assert_eq!(q.get_root_signature(), "");
}

#[test]
fn main_vcs_url_is_returned() {
    let p = project("org.example.app", "https://one");
    assert_eq!(p.get_main_vcs_url(), "https://one");
}

#[test]
fn document_round_trip_reproduces_the_record() {
    let mut p = project("org.example.app", "https://one");
    p.name = "Example".to_string();
    p.description = Some("text".to_string());
    p.web_urls = set_of(&["https://a", "https://b"]);
    p.tags = set_of(&["gitlab"]);
    p.root_hashes = vec!["h1".to_string(), "h2".to_string()];
    p.siblings = Some(set_of(&["org.example.twin"]));
    let back = fpm_core::project::doc_to_project(fpm_core::project::project_to_doc(&p));
    assert_eq!(back.id, p.id);
    assert_eq!(back.vcs_url, p.vcs_url);
    assert_eq!(back.name, p.name);
    assert_eq!(back.description, p.description);
    assert_eq!(back.web_urls.len(), 2);
    assert!(back.web_urls.contains("https://a"));
    assert!(back.web_urls.contains("https://b"));
    assert!(back.tags.contains("gitlab"));
    assert_eq!(back.root_hashes, p.root_hashes);
    assert!(back.siblings.as_ref().unwrap().contains("org.example.twin"));
}

#[test]
fn document_round_trip_keeps_empty_set_and_unset_apart() {
    let mut with_empty = project("org.example.app", "https://one");
    with_empty.siblings = Some(StringSet::new());
    let back = fpm_core::project::doc_to_project(fpm_core::project::project_to_doc(&with_empty));
    assert!(back.siblings.is_some());
    assert!(back.siblings.as_ref().unwrap().is_empty());
    assert!(back.description.is_none());

    let without = project("org.example.app", "https://one");
    let back2 = fpm_core::project::doc_to_project(fpm_core::project::project_to_doc(&without));
    assert!(back2.siblings.is_none());
    assert!(back2.web_urls.is_empty());
}

#[test]
fn string_set_deduplicates() {
    let mut s = set_of(&["a", "b", "a"]);
    assert_eq!(s.len(), 2);
    s.insert("b".to_string());
    assert_eq!(s.len(), 2);
    s.insert("c".to_string());
    assert_eq!(s.len(), 3);
    assert!(s.contains("c"));
    assert!(!s.contains("d"));
    assert!(!s.is_empty());
    assert!(StringSet::new().is_empty());
}
