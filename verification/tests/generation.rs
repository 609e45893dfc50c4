use cargo_cfg::config::CargoConfig;
use cargo_cfg::config::CargoTarget;
use cargo_cfg::config::Error;

fn ov(ar: Option<&str>, linker: Option<&str>, flags: &[&str]) -> CargoTarget {
    CargoTarget {
        ar: ar.map(|s| s.to_string()),
        linker: linker.map(|s| s.to_string()),
        rustflags: flags.iter().map(|s| s.to_string()).collect(),
    }
}

fn expect_ok(r: Result<CargoConfig, Error>) -> CargoConfig {
    match r {
        Ok(c) => c,
        Err(_) => panic!("generation failed"),
    }
}

fn expect_text(c: &CargoConfig) -> String {
    match c.serialize() {
        Ok(t) => t,
        Err(_) => panic!("serialization failed"),
    }
}

const DESKTOP_ENTRY: &str = "[target.\"x86_64-apple-darwin\"]\nrustflags = [\"-C\", \"target-cpu=native\", \"-C\", \"link-arg=-headerpad_max_install_names\"]\n\n";

#[test]
fn android_linker_only_scenario() {
    let android = vec![("aarch64-linux-android".to_string(), ov(None, Some("ld.lld"), &[]))];
    let c = expect_ok(CargoConfig::generate(Ok(android), vec![]));
    assert_eq!(c.target_count(), 2);
    assert_eq!(c.triple_at(0), "aarch64-linux-android");
    assert_eq!(c.triple_at(1), "x86_64-apple-darwin");
    let expected = format!(
        "[target.\"aarch64-linux-android\"]\nlinker = \"ld.lld\"\nrustflags = []\n\n{}",
        DESKTOP_ENTRY
    );
    assert_eq!(expect_text(&c), expected);
}

#[test]
fn all_empty_overrides_leave_only_desktop() {
    let android = vec![
        ("aarch64-linux-android".to_string(), ov(None, None, &[])),
        ("armv7-linux-androideabi".to_string(), ov(None, None, &[])),
    ];
    let ios = vec![
        ("aarch64-apple-ios".to_string(), ov(None, None, &[])),
        ("x86_64-apple-ios".to_string(), ov(None, None, &[])),
    ];
    let c = expect_ok(CargoConfig::generate(Ok(android), ios));
    assert_eq!(c.target_count(), 1);
    assert_eq!(c.triple_at(0), "x86_64-apple-darwin");
    assert_eq!(expect_text(&c), DESKTOP_ENTRY);
}

#[test]
fn android_environment_failure_aborts() {
    let r = CargoConfig::generate(Err("SDK/NDK location not found".to_string()), vec![]);
    match r {
        Err(Error::EnvironmentInit(m)) => assert_eq!(m, "SDK/NDK location not found"),
        _ => panic!("expected the environment-initialization error"),
    }
}

#[test]
fn generation_is_deterministic_and_idempotent() {
    let build = || {
        let android = vec![
            ("aarch64-linux-android".to_string(), ov(Some("llvm-ar"), Some("ld.lld"), &["-C", "link-arg=-fuse-ld=lld"])),
            ("i686-linux-android".to_string(), ov(None, Some("i686-linker"), &[])),
        ];
        let ios = vec![("aarch64-apple-ios".to_string(), ov(None, None, &["-mios-version-min=9.0"]))];
        expect_text(&expect_ok(CargoConfig::generate(Ok(android), ios)))
    };
    let first = build();
    let second = build();
    assert_eq!(first, second);
}

#[test]
fn output_order_ignores_registry_order() {
    let forward = vec![
        ("aarch64-linux-android".to_string(), ov(None, Some("a-linker"), &[])),
        ("i686-linux-android".to_string(), ov(None, Some("b-linker"), &[])),
        ("x86_64-linux-android".to_string(), ov(None, Some("c-linker"), &[])),
    ];
    let backward = vec![
        ("x86_64-linux-android".to_string(), ov(None, Some("c-linker"), &[])),
        ("i686-linux-android".to_string(), ov(None, Some("b-linker"), &[])),
        ("aarch64-linux-android".to_string(), ov(None, Some("a-linker"), &[])),
    ];
    let c1 = expect_ok(CargoConfig::generate(Ok(forward), vec![]));
    let c2 = expect_ok(CargoConfig::generate(Ok(backward), vec![]));
    assert_eq!(expect_text(&c1), expect_text(&c2));
    let mut triples = Vec::new();
    for j in 0..c2.target_count() {
        triples.push(c2.triple_at(j).clone());
    }
    let mut sorted = triples.clone();
    sorted.sort();
    assert_eq!(triples, sorted);
}

#[test]
fn prefix_triples_sort_before_their_extensions() {
    let android = vec![
        ("arm-linux-androideabi-extended".to_string(), ov(None, Some("l2"), &[])),
        ("arm-linux-androideabi".to_string(), ov(None, Some("l1"), &[])),
    ];
    let c = expect_ok(CargoConfig::generate(Ok(android), vec![]));
    assert_eq!(c.target_count(), 3);
    assert_eq!(c.triple_at(0), "arm-linux-androideabi");
    assert_eq!(c.triple_at(1), "arm-linux-androideabi-extended");
    assert_eq!(c.triple_at(2), "x86_64-apple-darwin");
}

#[test]
fn empty_override_is_filtered() {
    let android = vec![
        ("aarch64-linux-android".to_string(), ov(None, None, &[])),
        ("armv7-linux-androideabi".to_string(), ov(None, Some("arm-linker"), &[])),
    ];
    let c = expect_ok(CargoConfig::generate(Ok(android), vec![]));
    assert_eq!(c.target_count(), 2);
    assert_eq!(c.triple_at(0), "armv7-linux-androideabi");
    assert_eq!(c.triple_at(1), "x86_64-apple-darwin");
    assert!(!expect_text(&c).contains("aarch64-linux-android"));
}

#[test]
fn desktop_entry_present_with_empty_registries() {
    let c = expect_ok(CargoConfig::generate(Ok(vec![]), vec![]));
    assert_eq!(c.target_count(), 1);
    assert_eq!(c.triple_at(0), "x86_64-apple-darwin");
    let t = c.override_at(0);
    assert!(t.ar.is_none());
    assert!(t.linker.is_none());
    assert_eq!(
        t.rustflags,
        vec!["-C", "target-cpu=native", "-C", "link-arg=-headerpad_max_install_names"]
    );
    assert!(!t.is_empty());
}

#[test]
fn desktop_entry_present_alongside_collaborators() {
    let android = vec![("aarch64-linux-android".to_string(), ov(None, Some("ld.lld"), &[]))];
    let ios = vec![("aarch64-apple-ios".to_string(), ov(Some("ios-ar"), None, &[]))];
    let c = expect_ok(CargoConfig::generate(Ok(android), ios));
    let mut found = false;
    for j in 0..c.target_count() {
        if c.triple_at(j) == "x86_64-apple-darwin" {
            found = true;
        }
    }
    assert!(found);
}

#[test]
fn later_insertion_wins_on_triple_collision() {
    let android = vec![("shared-triple".to_string(), ov(None, Some("android-linker"), &[]))];
    let ios = vec![("shared-triple".to_string(), ov(None, Some("ios-linker"), &[]))];
    let c = expect_ok(CargoConfig::generate(Ok(android), ios));
    assert_eq!(c.target_count(), 2);
    assert_eq!(c.triple_at(0), "shared-triple");
    assert_eq!(c.override_at(0).linker.as_deref(), Some("ios-linker"));
}

#[test]
fn desktop_entry_wins_over_collaborator_collision() {
    let android = vec![("x86_64-apple-darwin".to_string(), ov(Some("stray-ar"), None, &[]))];
    let c = expect_ok(CargoConfig::generate(Ok(android), vec![]));
    assert_eq!(c.target_count(), 1);
    let t = c.override_at(0);
    assert!(t.ar.is_none());
    assert_eq!(
        t.rustflags,
        vec!["-C", "target-cpu=native", "-C", "link-arg=-headerpad_max_install_names"]
    );
}

#[test]
fn default_override_is_empty() {
    let t = CargoTarget::default();
    assert!(t.is_empty());
    assert!(t.ar.is_none() && t.linker.is_none() && t.rustflags.is_empty());
}

#[test]
fn is_empty_requires_all_three_fields_absent() {
    assert!(ov(None, None, &[]).is_empty());
    assert!(!ov(Some("ar"), None, &[]).is_empty());
    assert!(!ov(None, Some("ld"), &[]).is_empty());
    assert!(!ov(None, None, &["-O"]).is_empty());
}
