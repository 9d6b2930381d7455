//! Component-level behavior: manifests, the archive layout, version
//! resolution, the change cache, state paths and logging levels.
use std::io::Read;

use lpm::Effect;
use lpm::LpmError;
use lpm::cache::_Cache;
use lpm::manifest::PackageJson;
use lpm::package::Bundle;
use lpm::package::Package;
use lpm::package::Typescript;
use lpm::package::build_archive;
use lpm::package::update_package;
use lpm::package_manager::Npm;
use lpm::package_manager::PackageManager;
use lpm::graph::DependencyGraph;
use lpm::graph::OrderedDependencyGraph;
use lpm::state::State;
use lpm::util::setup_env_logger_cli;

#[test]
fn manifest_reads_and_rewrites_string_entries_only() {
    let mut m = PackageJson::new(
        "/c/package.json".to_string(),
        "{\"name\":\"core\",\"dependencies\":{\"utils\":\"^1.0.0\",\"odd\":7}}",
    )
    .unwrap();
    assert_eq!(m.get_name().as_str(), "core");
    assert_eq!(m.get("utils").unwrap().as_str(), "^1.0.0");
    assert!(m.get("odd").is_none());
    assert!(m.get("absent").is_none());
    assert!(m.update("utils", "file:/u"));
    assert_eq!(m.get("utils").unwrap().as_str(), "file:/u");
    assert!(!m.update("odd", "x"));
    assert!(!m.update("absent", "x"));
    match m.write() {
        Effect::WriteManifest { path, text } => {
            assert_eq!(path, "/c/package.json");
            let v: serde_json::Value = serde_json::from_str(&text).unwrap();
            assert_eq!(v["dependencies"]["utils"], serde_json::Value::String("file:/u".into()));
            assert_eq!(v["dependencies"]["odd"], serde_json::Value::from(7u64));
        }
        other => panic!("unexpected effect {:?}", other),
    }
}

#[test]
fn manifest_construction_failures_are_configuration_errors() {
    let bad_json = PackageJson::new("/p".to_string(), "{not json").unwrap_err();
    assert!(matches!(bad_json, LpmError::Configuration(_)));
    let no_name = PackageJson::new("/p".to_string(), "{\"version\":\"1.0.0\"}").unwrap_err();
    assert!(matches!(no_name, LpmError::Configuration(_)));
    let non_string_name = PackageJson::new("/p".to_string(), "{\"name\":3}").unwrap_err();
    assert!(matches!(non_string_name, LpmError::Configuration(_)));
    let non_object = PackageJson::new("/p".to_string(), "[1,2]").unwrap_err();
    assert!(matches!(non_object, LpmError::Configuration(_)));
}

#[test]
fn package_descriptors_and_bundle_paths() {
    let t = Typescript::new("/u".to_string(), "{\"name\":\"utils\"}").unwrap();
    assert_eq!(t.get_name(), "utils");
    assert_eq!(t.get_path(), "/u");
    assert_eq!(t.get_version_value(), "file:/u");
    assert!(matches!(t.prepare(), Effect::Build { path } if path == "/u"));
    let b = Bundle::new(t.duplicate());
    assert_eq!(b.get_name(), "utils");
    assert_eq!(b.get_tarball_file(), "/tmp/lpm/utils/build.tar.gz");
    assert_eq!(b.get_local_bundle_file(), ".lpm/utils/build.tar.gz");
    assert_eq!(b.get_tarball_dir(), "/tmp/lpm/utils");
    assert_eq!(b.get_version_value(), "file:.lpm/utils/build.tar.gz");
    assert!(matches!(
        b.prepare(),
        Effect::MakeArchive { package_path, tarball_file }
            if package_path == "/u" && tarball_file == "/tmp/lpm/utils/build.tar.gz"
    ));
    let mut c = Typescript::new(
        "/c".to_string(),
        "{\"name\":\"core\",\"dependencies\":{\"utils\":\"^1.0.0\"}}",
    )
    .unwrap();
    assert!(c.depends_on("utils"));
    assert!(!c.depends_on("elsewhere"));
    let (changed, eff) = c.update("utils", "file:/u");
    assert!(changed);
    assert!(matches!(eff, Some(Effect::WriteManifest { .. })));
    let (unchanged, none_eff) = c.update("absent", "x");
    assert!(!unchanged);
    assert!(none_eff.is_none());
    // package-to-package form: rewrite to the dependency's own descriptor
    let mut fresh = Typescript::new(
        "/c".to_string(),
        "{\"name\":\"core\",\"dependencies\":{\"utils\":\"^1.0.0\"}}",
    )
    .unwrap();
    let (hit, write) = update_package(&mut fresh, &t);
    assert!(hit);
    match write.unwrap() {
        Effect::WriteManifest { text, .. } => {
            let v: serde_json::Value = serde_json::from_str(&text).unwrap();
            assert_eq!(
                v["dependencies"]["utils"],
                serde_json::Value::String("file:/u".into())
            );
        }
        other => panic!("unexpected effect {:?}", other),
    }
}

/// A produced archive, extracted, reproduces the staged build output,
/// manifest and README byte for byte under the fixed entry layout.
#[test]
fn archive_round_trips_byte_for_byte() {
    let dist = vec![
        ("index.js".to_string(), b"console.log(1);\n".to_vec(), 0o644u32),
        ("lib/util.js".to_string(), b"exports.x = 2;\n".to_vec(), 0o644u32),
    ];
    let package_json = b"{\"name\":\"utils\"}\n".to_vec();
    let readme = b"# utils\n".to_vec();
    let bytes = build_archive(&dist, &package_json, 0o644, &readme, 0o644).unwrap();

    let decoder = flate2::read::GzDecoder::new(bytes.as_slice());
    let mut archive = tar::Archive::new(decoder);
    let mut seen: Vec<(String, Vec<u8>)> = Vec::new();
    for entry in archive.entries().unwrap() {
        let mut entry = entry.unwrap();
        let name = entry.path().unwrap().to_string_lossy().to_string();
        let mut content = Vec::new();
        entry.read_to_end(&mut content).unwrap();
        seen.push((name, content));
    }
    let expected = vec![
        ("package/dist/index.js".to_string(), b"console.log(1);\n".to_vec()),
        ("package/dist/lib/util.js".to_string(), b"exports.x = 2;\n".to_vec()),
        ("package/package.json".to_string(), b"{\"name\":\"utils\"}\n".to_vec()),
        ("package/README.md".to_string(), b"# utils\n".to_vec()),
    ];
    assert_eq!(seen, expected);
}

#[test]
fn version_resolution_prefers_the_newer_tag() {
    let newer_rc = Npm::get_latest_version_value(
        "{\"dist-tags\":{\"latest\":\"1.2.3\",\"rc\":\"1.3.0-rc.1\"}}",
    )
    .unwrap();
    assert_eq!(newer_rc, "1.3.0-rc.1");
    let newer_latest = Npm::get_latest_version_value(
        "{\"dist-tags\":{\"latest\":\"2.0.0\",\"rc\":\"2.0.0-rc.9\"}}",
    )
    .unwrap();
    assert_eq!(newer_latest, "2.0.0");
    let tie_prefers_rc = Npm::get_latest_version_value(
        "{\"dist-tags\":{\"latest\":\"1.2.3\",\"rc\":\"1.2.3\"}}",
    )
    .unwrap();
    assert_eq!(tie_prefers_rc, "1.2.3");
    let only_latest =
        Npm::get_latest_version_value("{\"dist-tags\":{\"latest\":\"0.9.1\"}}").unwrap();
    assert_eq!(only_latest, "0.9.1");
    let nothing_parses =
        Npm::get_latest_version_value("{\"dist-tags\":{\"latest\":\"not-a-version\"}}").unwrap();
    assert_eq!(nothing_parses, "0.0.0");
    let no_tags = Npm::get_latest_version_value("{\"versions\":{}}").unwrap_err();
    assert!(matches!(no_tags, LpmError::Network(_)));
    let not_json = Npm::get_latest_version_value("<html>").unwrap_err();
    assert!(matches!(not_json, LpmError::Network(_)));
    let tag_not_a_string =
        Npm::get_latest_version_value("{\"dist-tags\":{\"latest\":7}}").unwrap_err();
    assert!(matches!(tag_not_a_string, LpmError::Network(_)));
}

#[test]
fn change_cache_reports_unchanged_only_on_a_matching_digest() {
    let mut cache = _Cache::_new();
    let digest_one = "ab12".to_string();
    let digest_two = "cd34".to_string();
    // nothing recorded: nothing counts as unchanged
    assert!(!cache._has_changed("/u", Some(&digest_one)));
    cache._update("/u", digest_one.clone());
    // the polarity is inverted by design: true means "no change"
    assert!(cache._has_changed("/u", Some(&digest_one)));
    assert!(!cache._has_changed("/u", Some(&digest_two)));
    assert!(!cache._has_changed("/u", None));
    assert!(!cache._has_changed("/other", Some(&digest_one)));
    cache._update("/u", digest_two.clone());
    assert!(cache._has_changed("/u", Some(&digest_two)));
    assert!(!cache._has_changed("/u", Some(&digest_one)));
}

#[test]
fn state_paths_and_logging_levels() {
    let state = State::new("/home/me/.lpm".to_string());
    assert!(state.package_paths.is_empty());
    assert_eq!(state.get_path().as_str(), "/home/me/.lpm/serialized.json");
    assert_eq!(
        State::get_state_file("/tmp/dir".to_string()),
        "/tmp/dir/serialized.json"
    );
    assert_eq!(setup_env_logger_cli(0), "info");
    assert_eq!(setup_env_logger_cli(1), "debug");
    assert_eq!(setup_env_logger_cli(2), "trace");
    assert_eq!(setup_env_logger_cli(9), "trace");
}

#[test]
fn graph_orders_a_diamond_dependency_first() {
    // 0 depends on 1 and 2; both depend on 3
    let mut g = OrderedDependencyGraph::new();
    let a = g.add_node();
    let b = g.add_node();
    let c = g.add_node();
    let d = g.add_node();
    assert_eq!(g.node_count(), 4);
    g.register_dependency(a, b);
    g.register_dependency(a, c);
    g.register_dependency(b, d);
    g.register_dependency(c, d);
    let order = g.dependencies_of(a).unwrap();
    // exactly the closure without the start, the shared leaf first
    assert_eq!(order.len(), 3);
    assert_eq!(order[0], d);
    assert!(order.contains(&b) && order.contains(&c));
    let pos = |x: usize| order.iter().position(|&y| y == x).unwrap();
    assert!(pos(d) < pos(b));
    assert!(pos(d) < pos(c));
    // an unrelated start has an empty closure
    assert!(g.dependencies_of(d).unwrap().is_empty());
}

#[test]
fn graph_reports_a_cycle() {
    let mut g = OrderedDependencyGraph::new();
    let a = g.add_node();
    let b = g.add_node();
    let c = g.add_node();
    g.register_dependency(a, b);
    g.register_dependency(b, c);
    g.register_dependency(c, a);
    assert!(matches!(g.dependencies_of(a).unwrap_err(), LpmError::Graph(_)));
}
