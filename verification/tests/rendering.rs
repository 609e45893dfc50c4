use cargo_cfg::config::CargoConfig;
use cargo_cfg::config::CargoTarget;
use cargo_cfg::config::Error;

fn ov(ar: Option<&str>, linker: Option<&str>, flags: &[&str]) -> CargoTarget {
    CargoTarget {
        ar: ar.map(|s| s.to_string()),
        linker: linker.map(|s| s.to_string()),
        rustflags: flags.iter().map(|s| s.to_string()).collect(),
    }
}

fn expect_ok(r: Result<CargoConfig, Error>) -> CargoConfig {
    match r {
        Ok(c) => c,
        Err(_) => panic!("generation failed"),
    }
}

fn expect_text(c: &CargoConfig) -> String {
    match c.serialize() {
        Ok(t) => t,
        Err(_) => panic!("serialization failed"),
    }
}

#[test]
fn all_fields_render_in_fixed_order() {
    let android = vec![(
        "aarch64-linux-android".to_string(),
        ov(Some("llvm-ar"), Some("ld.lld"), &["-C", "link-arg=-fuse-ld=lld"]),
    )];
    let c = expect_ok(CargoConfig::generate(Ok(android), vec![]));
    let text = expect_text(&c);
    let entry = "[target.\"aarch64-linux-android\"]\nar = \"llvm-ar\"\nlinker = \"ld.lld\"\nrustflags = [\"-C\", \"link-arg=-fuse-ld=lld\"]\n\n";
    assert!(text.starts_with(entry));
}

#[test]
fn quotes_and_backslashes_are_escaped() {
    let android = vec![(
        "aarch64-linux-android".to_string(),
        ov(Some("a\"b\\c"), None, &[]),
    )];
    let c = expect_ok(CargoConfig::generate(Ok(android), vec![]));
    let text = expect_text(&c);
    assert!(text.contains("ar = \"a\\\"b\\\\c\"\n"));
}

#[test]
fn control_characters_use_named_escapes() {
    let android = vec![(
        "aarch64-linux-android".to_string(),
        ov(None, None, &["line1\nline2\tend\r"]),
    )];
    let c = expect_ok(CargoConfig::generate(Ok(android), vec![]));
    let text = expect_text(&c);
    assert!(text.contains("rustflags = [\"line1\\nline2\\tend\\r\"]\n"));
}

#[test]
fn unrepresentable_control_character_is_reported() {
    let android = vec![(
        "aarch64-linux-android".to_string(),
        ov(None, None, &["bad\u{0007}flag"]),
    )];
    let c = expect_ok(CargoConfig::generate(Ok(android), vec![]));
    match c.serialize() {
        Err(Error::Serialization(triple)) => assert_eq!(triple, "aarch64-linux-android"),
        _ => panic!("expected the serialization error"),
    }
}

#[test]
fn rendered_text_is_valid_toml_with_expected_structure() {
    let android = vec![(
        "aarch64-linux-android".to_string(),
        ov(Some("llvm-ar"), Some("ld.lld"), &["-C", "link-arg=-fuse-ld=lld"]),
    )];
    let ios = vec![("aarch64-apple-ios".to_string(), ov(None, None, &["-mios-version-min=9.0"]))];
    let c = expect_ok(CargoConfig::generate(Ok(android), ios));
    let text = expect_text(&c);
    let value: toml::Value = toml::from_str(&text).expect("generated text must parse as TOML");
    let target = value.get("target").and_then(|v| v.as_table()).expect("top-level target table");
    assert_eq!(target.len(), 3);
    let android_entry = target.get("aarch64-linux-android").expect("android entry");
    assert_eq!(android_entry.get("ar").and_then(|v| v.as_str()), Some("llvm-ar"));
    assert_eq!(android_entry.get("linker").and_then(|v| v.as_str()), Some("ld.lld"));
    let flags = android_entry.get("rustflags").and_then(|v| v.as_array()).expect("flags array");
    let flags: Vec<&str> = flags.iter().filter_map(|v| v.as_str()).collect();
    assert_eq!(flags, vec!["-C", "link-arg=-fuse-ld=lld"]);
    let ios_entry = target.get("aarch64-apple-ios").expect("ios entry");
    assert!(ios_entry.get("ar").is_none());
    assert!(ios_entry.get("linker").is_none());
    let desktop = target.get("x86_64-apple-darwin").expect("desktop entry");
    let flags = desktop.get("rustflags").and_then(|v| v.as_array()).expect("desktop flags");
    let flags: Vec<&str> = flags.iter().filter_map(|v| v.as_str()).collect();
    assert_eq!(flags, vec!["-C", "target-cpu=native", "-C", "link-arg=-headerpad_max_install_names"]);
}

#[test]
fn escaped_strings_round_trip_through_toml() {
    let android = vec![(
        "aarch64-linux-android".to_string(),
        ov(Some("a\"b\\c"), None, &["line1\nline2\tend"]),
    )];
    let c = expect_ok(CargoConfig::generate(Ok(android), vec![]));
    let text = expect_text(&c);
    let value: toml::Value = toml::from_str(&text).expect("generated text must parse as TOML");
    let entry = value
        .get("target")
        .and_then(|v| v.get("aarch64-linux-android"))
        .expect("android entry");
    assert_eq!(entry.get("ar").and_then(|v| v.as_str()), Some("a\"b\\c"));
    let flags = entry.get("rustflags").and_then(|v| v.as_array()).expect("flags array");
    let flags: Vec<&str> = flags.iter().filter_map(|v| v.as_str()).collect();
    assert_eq!(flags, vec!["line1\nline2\tend"]);
}
