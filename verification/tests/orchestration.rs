//! End-to-end flows of the registry: registration, dependency updates,
//! bundling, resets, and their failure modes.
use lpm::Effect;
use lpm::LpmError;
use lpm::package::Typescript;
use lpm::registry::Registry;

fn pretty(text: &str) -> String {
    let v: serde_json::Value = serde_json::from_str(text).unwrap();
    serde_json::to_string_pretty(&v).unwrap()
}

fn ts(path: &str, manifest: &str) -> Typescript {
    Typescript::new(path.to_string(), manifest).unwrap()
}

#[test]
fn update_rewrites_and_builds_in_order() {
    // registry holds utils (path /u) and core (path /c, depending on utils)
    let mut reg = Registry::new();
    reg.add(ts("/u", "{\"name\":\"utils\",\"version\":\"1.0.0\"}"));
    reg.add(ts("/c", "{\"name\":\"core\",\"dependencies\":{\"utils\":\"^1.0.0\"}}"));
    let effects = reg.update_dependencies("/c").unwrap();
    let expected = vec![
        Effect::Build { path: "/u".to_string() },
        Effect::WriteManifest {
            path: "/c/package.json".to_string(),
            text: pretty("{\"name\":\"core\",\"dependencies\":{\"utils\":\"file:/u\"}}"),
        },
        Effect::Build { path: "/c".to_string() },
    ];
    assert_eq!(effects, expected);
}

#[test]
fn update_is_independent_of_registration_order() {
    let mut reg = Registry::new();
    reg.add(ts("/c", "{\"name\":\"core\",\"dependencies\":{\"utils\":\"^1.0.0\"}}"));
    reg.add(ts("/u", "{\"name\":\"utils\",\"version\":\"1.0.0\"}"));
    let effects = reg.update_dependencies("/c").unwrap();
    let expected = vec![
        Effect::Build { path: "/u".to_string() },
        Effect::WriteManifest {
            path: "/c/package.json".to_string(),
            text: pretty("{\"name\":\"core\",\"dependencies\":{\"utils\":\"file:/u\"}}"),
        },
        Effect::Build { path: "/c".to_string() },
    ];
    assert_eq!(effects, expected);
}

#[test]
fn update_twice_is_idempotent() {
    let mut reg = Registry::new();
    reg.add(ts("/u", "{\"name\":\"utils\",\"version\":\"1.0.0\"}"));
    reg.add(ts("/c", "{\"name\":\"core\",\"dependencies\":{\"utils\":\"^1.0.0\"}}"));
    let first = reg.update_dependencies("/c").unwrap();
    let second = reg.update_dependencies("/c").unwrap();
    // the second run rewrites the same entries to the same bytes
    assert_eq!(first, second);
}

#[test]
fn chain_is_processed_leaves_first() {
    let mut reg = Registry::new();
    reg.add(ts("/p", "{\"name\":\"p\",\"dependencies\":{\"d1\":\"^1.0.0\"}}"));
    reg.add(ts("/d1", "{\"name\":\"d1\",\"dependencies\":{\"d2\":\"^1.0.0\"}}"));
    reg.add(ts("/d2", "{\"name\":\"d2\"}"));
    let effects = reg.update_dependencies("/p").unwrap();
    let build_pos = |p: &str| {
        effects
            .iter()
            .position(|e| matches!(e, Effect::Build { path } if path == p))
            .unwrap()
    };
    // d2 strictly before d1, and d1 strictly before the target itself
    assert!(build_pos("/d2") < build_pos("/d1"));
    assert!(build_pos("/d1") < build_pos("/p"));
    assert!(matches!(effects.last().unwrap(), Effect::Build { path } if path == "/p"));
    // d1 receives the replay of d2's rewrite before being built
    let d1_write = effects
        .iter()
        .position(|e| matches!(e, Effect::WriteManifest { path, .. } if path == "/d1/package.json"))
        .unwrap();
    assert!(d1_write < build_pos("/d1"));
    match &effects[d1_write] {
        Effect::WriteManifest { text, .. } => {
            assert_eq!(
                text,
                &pretty("{\"name\":\"d1\",\"dependencies\":{\"d2\":\"file:/d2\"}}")
            );
        }
        _ => unreachable!(),
    }
}

#[test]
fn re_registration_replaces_the_package() {
    let mut reg = Registry::new();
    reg.add(ts("/u", "{\"name\":\"utils\",\"version\":\"1.0.0\"}"));
    reg.add(ts("/c", "{\"name\":\"core\"}"));
    // the same root is registered again with a changed manifest: the
    // entry is replaced and its edges recomputed
    reg.add(ts("/c", "{\"name\":\"core\",\"dependencies\":{\"utils\":\"^1.0.0\"}}"));
    let effects = reg.update_dependencies("/c").unwrap();
    let expected = vec![
        Effect::Build { path: "/u".to_string() },
        Effect::WriteManifest {
            path: "/c/package.json".to_string(),
            text: pretty("{\"name\":\"core\",\"dependencies\":{\"utils\":\"file:/u\"}}"),
        },
        Effect::Build { path: "/c".to_string() },
    ];
    assert_eq!(effects, expected);
    // replacing back with a dependency-free manifest drops the old edges
    reg.add(ts("/c", "{\"name\":\"core\"}"));
    let effects = reg.update_dependencies("/c").unwrap();
    assert_eq!(effects, vec![Effect::Build { path: "/c".to_string() }]);
}

#[test]
fn cycle_is_reported_not_looped() {
    let mut reg = Registry::new();
    reg.add(ts("/a", "{\"name\":\"a\",\"dependencies\":{\"b\":\"*\"}}"));
    reg.add(ts("/b", "{\"name\":\"b\",\"dependencies\":{\"a\":\"*\"}}"));
    let err = reg.update_dependencies("/a").unwrap_err();
    assert!(matches!(err, LpmError::Graph(_)));
}

#[test]
fn unregistered_path_is_a_graph_error() {
    let mut reg = Registry::new();
    reg.add(ts("/u", "{\"name\":\"utils\"}"));
    let err = reg.update_dependencies("/nowhere").unwrap_err();
    assert!(matches!(err, LpmError::Graph(_)));
}

#[test]
fn non_string_dependency_entries_are_ignored() {
    let mut reg = Registry::new();
    reg.add(ts("/u", "{\"name\":\"utils\"}"));
    reg.add(ts("/c", "{\"name\":\"core\",\"dependencies\":{\"utils\":5}}"));
    let effects = reg.update_dependencies("/c").unwrap();
    // no edge and no rewrite: only the target's own build remains
    assert_eq!(effects, vec![Effect::Build { path: "/c".to_string() }]);
}

#[test]
fn bundle_produces_copies_and_rewrites_to_local_archive() {
    let mut reg = Registry::new();
    reg.add(ts("/u", "{\"name\":\"utils\",\"version\":\"1.0.0\"}"));
    reg.add(ts("/c", "{\"name\":\"core\",\"dependencies\":{\"utils\":\"^1.0.0\"}}"));
    let effects = reg.bundle_dependencies("/c").unwrap();
    let expected = vec![
        Effect::MakeArchive {
            package_path: "/u".to_string(),
            tarball_file: "/tmp/lpm/utils/build.tar.gz".to_string(),
        },
        Effect::CopyArchive {
            from: "/tmp/lpm/utils/build.tar.gz".to_string(),
            to: "/c/.lpm/utils/build.tar.gz".to_string(),
        },
        Effect::WriteManifest {
            path: "/c/package.json".to_string(),
            text: pretty(
                "{\"name\":\"core\",\"dependencies\":{\"utils\":\"file:.lpm/utils/build.tar.gz\"}}",
            ),
        },
        Effect::Build { path: "/c".to_string() },
    ];
    assert_eq!(effects, expected);
}

#[test]
fn reset_rewrites_direct_dependents_only() {
    // a third package depending on core is two hops from utils: untouched
    let mut reg = Registry::new();
    reg.add(ts("/u", "{\"name\":\"utils\",\"version\":\"1.0.0\"}"));
    reg.add(ts("/c", "{\"name\":\"core\",\"dependencies\":{\"utils\":\"^1.0.0\"}}"));
    reg.add(ts("/x", "{\"name\":\"shell\",\"dependencies\":{\"core\":\"^1.0.0\"}}"));
    let effects = reg
        .reset_dependency("/u", Some("2.0.0".to_string()), None)
        .unwrap();
    let expected = vec![
        Effect::WriteManifest {
            path: "/c/package.json".to_string(),
            text: pretty("{\"name\":\"core\",\"dependencies\":{\"utils\":\"2.0.0\"}}"),
        },
        Effect::Build { path: "/c".to_string() },
    ];
    assert_eq!(effects, expected);
    assert!(!effects
        .iter()
        .any(|e| matches!(e, Effect::WriteManifest { path, .. } if path.starts_with("/x"))));
}

#[test]
fn reset_without_version_uses_registry_response() {
    let mut reg = Registry::new();
    reg.add(ts("/u", "{\"name\":\"utils\",\"version\":\"1.0.0\"}"));
    reg.add(ts("/c", "{\"name\":\"core\",\"dependencies\":{\"utils\":\"^1.0.0\"}}"));
    let body = "{\"dist-tags\":{\"latest\":\"1.4.0\",\"rc\":\"1.4.1-rc.2\"}}";
    let effects = reg.reset_dependency("/u", None, Some(body)).unwrap();
    match &effects[0] {
        Effect::WriteManifest { text, .. } => {
            assert_eq!(
                text,
                &pretty("{\"name\":\"core\",\"dependencies\":{\"utils\":\"1.4.1-rc.2\"}}")
            );
        }
        other => panic!("unexpected effect {:?}", other),
    }
}

#[test]
fn reset_without_version_and_without_response_is_a_network_error() {
    let mut reg = Registry::new();
    reg.add(ts("/u", "{\"name\":\"utils\"}"));
    let err = reg.reset_dependency("/u", None, None).unwrap_err();
    assert!(matches!(err, LpmError::Network(_)));
}

#[test]
fn untouched_manifest_fields_survive_a_rewrite() {
    let mut reg = Registry::new();
    reg.add(ts("/u", "{\"name\":\"utils\"}"));
    reg.add(ts(
        "/c",
        "{\"name\":\"core\",\"version\":\"0.3.1\",\"scripts\":{\"build\":\"tsc\"},\
         \"keywords\":[\"a\",\"b\"],\"count\":42,\"flag\":true,\"nothing\":null,\
         \"dependencies\":{\"utils\":\"^1.0.0\",\"left\":\"~2.0.0\"}}",
    ));
    let effects = reg.update_dependencies("/c").unwrap();
    let written = effects
        .iter()
        .find_map(|e| match e {
            Effect::WriteManifest { path, text } if path == "/c/package.json" => Some(text),
            _ => None,
        })
        .unwrap();
    let doc: serde_json::Value = serde_json::from_str(written).unwrap();
    assert_eq!(doc["name"], serde_json::Value::String("core".to_string()));
    assert_eq!(doc["version"], serde_json::Value::String("0.3.1".to_string()));
    assert_eq!(doc["scripts"]["build"], serde_json::Value::String("tsc".to_string()));
    assert_eq!(doc["keywords"][1], serde_json::Value::String("b".to_string()));
    assert_eq!(doc["count"], serde_json::Value::from(42u64));
    assert_eq!(doc["flag"], serde_json::Value::Bool(true));
    assert_eq!(doc["nothing"], serde_json::Value::Null);
    assert_eq!(
        doc["dependencies"]["utils"],
        serde_json::Value::String("file:/u".to_string())
    );
    assert_eq!(
        doc["dependencies"]["left"],
        serde_json::Value::String("~2.0.0".to_string())
    );
}
