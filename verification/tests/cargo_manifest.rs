use kobo_driver::cargo_manifest::{
    generated_cargo_toml, DependencyEntry, DependencyValue, GeneratedManifest, TargetDependencies,
};

fn version(name: &str, v: &str) -> DependencyEntry {
    DependencyEntry { name: name.to_string(), value: DependencyValue::Version(v.to_string()) }
}

fn other(name: &str, text: &str) -> DependencyEntry {
    DependencyEntry { name: name.to_string(), value: DependencyValue::Other(text.to_string()) }
}

fn manifest(name: &str, version_text: &str) -> GeneratedManifest {
    GeneratedManifest {
        package_name: name.to_string(),
        package_version: version_text.to_string(),
        build_script: None,
        workspace_dependencies: vec![],
        dependencies: vec![],
        build_dependencies: vec![],
        dev_dependencies: vec![],
        target_dependencies: vec![],
    }
}

#[test]
fn generate_cargo_toml_includes_dependencies() {
    let mut config = manifest("test_pkg", "1.0.0");
    config.dependencies.push(version("log", "0.4"));
    let content = generated_cargo_toml(&config);
    assert!(content.contains("name = \"test_pkg\""));
    assert!(content.contains("version = \"1.0.0\""));
    assert!(content.contains("log = \"0.4\""));
}

#[test]
fn empty_package_fields_get_defaults_and_empty_sections_are_left_out() {
    let content = generated_cargo_toml(&manifest("", ""));
    assert_eq!(
        content,
        "[package]\nname = \"kobo_project\"\nversion = \"0.1.0\"\nedition = \"2021\"\n\n[workspace]\n"
    );
}

#[test]
fn sections_list_their_entries_sorted_by_name() {
    let mut config = manifest("pkg", "2.0.0");
    config.build_script = Some("build.rs".to_string());
    config.workspace_dependencies.push(version("serde", "1"));
    config.dependencies = vec![version("tokio", "1"), other("local", "{ path = \"../../local\" }"), version("anyhow", "1")];
    config.dev_dependencies.push(version("proptest", "1"));
    config.target_dependencies.push(TargetDependencies {
        target: "cfg(target_os = \"linux\")".to_string(),
        dependencies: vec![version("libc", "0.2")],
        build_dependencies: vec![],
        dev_dependencies: vec![other("helper", "{ path = \"h\" }")],
    });
    let content = generated_cargo_toml(&config);
    assert_eq!(
        content,
        "[package]\nname = \"pkg\"\nversion = \"2.0.0\"\nedition = \"2021\"\nbuild = \"build.rs\"\n\n[workspace]\n\
         \n[workspace.dependencies]\nserde = \"1\"\n\
         \n[dependencies]\nanyhow = \"1\"\nlocal = { path = \"../../local\" }\ntokio = \"1\"\n\
         \n[dev-dependencies]\nproptest = \"1\"\n\
         \n[target.\"cfg(target_os = \\\"linux\\\")\".dependencies]\nlibc = \"0.2\"\n\
         \n[target.\"cfg(target_os = \\\"linux\\\")\".dev-dependencies]\nhelper = { path = \"h\" }\n"
    );
}
