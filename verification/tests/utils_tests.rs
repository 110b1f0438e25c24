use fpm_core::utils::format_bytes;
use fpm_core::utils::get_build_system;
use fpm_core::utils::is_cache_path;
use fpm_core::utils::is_record_path;
use fpm_core::utils::parse_yes_no;

#[test]
fn format_bytes_reference_values() {
    assert_eq!(format_bytes(100), "100.00 B");
    assert_eq!(format_bytes(23746178), "22.65 MB");
    assert_eq!(format_bytes(9823453784599), "8.93 TB");
    assert_eq!(format_bytes(7124362542), "6.64 GB");
    assert_eq!(format_bytes(0), "0.00 B");
}

#[test]
fn format_bytes_unit_boundaries() {
    assert_eq!(format_bytes(1023), "1023.00 B");
    assert_eq!(format_bytes(1024), "1.00 KB");
    assert_eq!(format_bytes(1536), "1.50 KB");
    assert_eq!(format_bytes(1048576), "1.00 MB");
}

#[test]
fn format_bytes_rounds_ties_to_even() {
    // 1152 / 1024 = 1.125 exactly: the second decimal rounds down to even
    assert_eq!(format_bytes(1152), "1.12 KB");
    // 1408 / 1024 = 1.375 exactly: the second decimal rounds up to even
    assert_eq!(format_bytes(1408), "1.38 KB");
}

#[test]
fn build_system_detection() {
    assert_eq!(get_build_system("src/CMakeLists.txt".to_string()).as_deref(), Some("cmake"));
    assert_eq!(get_build_system("Cargo.toml".to_string()).as_deref(), Some("cargo"));
    assert_eq!(get_build_system("proj/Cargo.lock".to_string()).as_deref(), Some("cargo"));
    assert_eq!(get_build_system("meson.build".to_string()).as_deref(), Some("meson"));
    assert_eq!(get_build_system("app/autogen.sh".to_string()).as_deref(), Some("autotools"));
    assert_eq!(get_build_system("bootstrap".to_string()).as_deref(), Some("autotools"));
    assert_eq!(get_build_system("app.pro".to_string()).as_deref(), Some("qmake"));
    assert_eq!(get_build_system("pom.xml".to_string()).as_deref(), Some("maven"));
    assert_eq!(get_build_system("debian/control".to_string()).as_deref(), Some("debian"));
    assert_eq!(get_build_system("snap/snapcraft.yaml".to_string()).as_deref(), Some("snap"));
    assert_eq!(get_build_system("go.mod".to_string()).as_deref(), Some("go"));
    assert_eq!(get_build_system("package-lock.json".to_string()).as_deref(), Some("npm"));
    assert_eq!(get_build_system("pyproject.toml".to_string()).as_deref(), Some("pip"));
    assert_eq!(get_build_system("vcpkg.json".to_string()).as_deref(), Some("vcpkg"));
    assert_eq!(get_build_system("README.md".to_string()), None);
    // the file name decides; a mere mention elsewhere in the path does not
    assert_eq!(get_build_system("CMakeLists.txt.bak".to_string()), None);
}

#[test]
fn cache_paths_are_recognized() {
    assert!(is_cache_path("repo/.git/objects/ab"));
    assert!(is_cache_path("repo/.flatpak-builder/cache"));
    assert!(is_cache_path("repo/.flatpak-builder-out/files"));
    assert!(!is_cache_path("repo/src/main.rs"));
    assert!(!is_cache_path("repo/.github/workflows/ci.yml"));
}

#[test]
fn record_paths_are_recognized() {
    assert!(is_record_path("modules/123.yaml"));
    assert!(is_record_path("modules/123.yml"));
    assert!(!is_record_path("modules/123.json"));
    assert!(!is_record_path("modules/123.yaml.bak"));
}

#[test]
fn yes_answers() {
    assert!(parse_yes_no("Y\n"));
    assert!(parse_yes_no("y\r\n"));
    assert!(parse_yes_no("y"));
    assert!(!parse_yes_no("n\n"));
    assert!(!parse_yes_no("yes\n"));
    assert!(!parse_yes_no(""));
    assert!(!parse_yes_no("\n"));
}
