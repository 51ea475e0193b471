use fish::marketplace::{check_plugin_files, PluginMarketplace, PluginMetadata, PluginSignature, RegistryConfig, SearchQuery};

fn plugin(name: &str, downloads: u64) -> PluginMetadata {
    PluginMetadata {
        name: name.to_string(),
        version: "1.0.0".to_string(),
        description: "A test plugin".to_string(),
        author: "test-author".to_string(),
        license: "MIT".to_string(),
        homepage: None,
        repository: None,
        keywords: vec!["test".to_string()],
        toolchain: "rust".to_string(),
        entrypoint: "plugin.wasm".to_string(),
        capabilities: vec!["build".to_string()],
        signature: None,
        download_url: None,
        checksum: Some("a".repeat(64)),
        downloads,
        verified: false,
        created_at: "2024-01-01T00:00:00+00:00".to_string(),
        updated_at: "2024-01-01T00:00:00+00:00".to_string(),
    }
}

fn config(verify: bool, keys: Vec<&str>) -> RegistryConfig {
    RegistryConfig {
        registry_url: "https://test.registry.fish.build".to_string(),
        cache_dir: "/tmp/cache".to_string(),
        enable_signature_verification: verify,
        trusted_keys: keys.into_iter().map(|k| k.to_string()).collect(),
    }
}

#[test]
fn test_marketplace_registry() {
    let mut marketplace = PluginMarketplace::new(config(false, vec![]));
    marketplace.register_plugin(plugin("test-plugin", 100)).unwrap();

    let search_results = marketplace
        .search(SearchQuery { keyword: Some("test".to_string()), ..Default::default() })
        .unwrap();
    assert_eq!(search_results.len(), 1);

    let plan = marketplace.plan_install("test-plugin", None).unwrap();
    assert_eq!(plan.install_path, "/tmp/cache/test-plugin/1.0.0");
    assert_eq!(plan.manifest_path, "/tmp/cache/test-plugin/1.0.0/plugin.json");
    assert_eq!(plan.wasm_path, "/tmp/cache/test-plugin/1.0.0/plugin.wasm");
    marketplace.record_install(plan.plugin.name.clone(), plan.install_path.clone());

    let installed = marketplace.list_installed().unwrap();
    assert_eq!(installed.len(), 1);

    assert_eq!(marketplace.installed_path("test-plugin").unwrap(), "/tmp/cache/test-plugin/1.0.0");
    marketplace.forget_install("test-plugin");
    let installed_after = marketplace.list_installed().unwrap();
    assert_eq!(installed_after.len(), 0);
}

#[test]
fn test_plugin_signature_verification() {
    let mut marketplace = PluginMarketplace::new(config(true, vec!["trusted_public_key_123"]));

    let mut p = plugin("verified-plugin", 1000);
    p.verified = true;
    p.checksum = Some("b".repeat(64));
    p.signature = Some(PluginSignature {
        public_key: "trusted_public_key_123".to_string(),
        signature: "valid_signature_".repeat(5),
        signed_by: "trusted".to_string(),
        signed_at: "2024-01-01T00:00:00+00:00".to_string(),
    });
    marketplace.register_plugin(p.clone()).unwrap();
    assert!(marketplace.plan_install("verified-plugin", None).is_ok());

    p.name = "untrusted-plugin".to_string();
    p.signature = Some(PluginSignature {
        public_key: "untrusted_key".to_string(),
        signature: "valid_signature_".repeat(5),
        signed_by: "untrusted".to_string(),
        signed_at: "2024-01-01T00:00:00+00:00".to_string(),
    });
    marketplace.register_plugin(p).unwrap();
    assert!(marketplace.plan_install("untrusted-plugin", None).is_err());
}

#[test]
fn install_errors_come_in_order() {
    let mut m = PluginMarketplace::new(config(true, vec![]));
    assert_eq!(m.plan_install("nope", None).unwrap_err(), "plugin 'nope' not found in registry");
    let mut p = plugin("p", 1);
    p.verified = true;
    m.register_plugin(p.clone()).unwrap();
    assert_eq!(m.plan_install("p", Some("2.0.0")).unwrap_err(), "version mismatch: requested 2.0.0, available 1.0.0");
    assert_eq!(m.plan_install("p", None).unwrap_err(), "plugin 'p' claims verified but has no signature");
    p.verified = false;
    p.checksum = Some("abc".to_string());
    m.register_plugin(p.clone()).unwrap();
    assert_eq!(m.plan_install("p", Some("1.0.0")).unwrap_err(), "invalid checksum format");
    p.signature = Some(PluginSignature {
        public_key: "k".to_string(),
        signature: "short".to_string(),
        signed_by: "x".to_string(),
        signed_at: "t".to_string(),
    });
    m.register_plugin(p.clone()).unwrap();
    assert_eq!(m.plan_install("p", None).unwrap_err(), "signature too short");
    p.signature = Some(PluginSignature { public_key: String::new(), signature: "s".to_string(), signed_by: "x".to_string(), signed_at: "t".to_string() });
    m.register_plugin(p).unwrap();
    assert_eq!(m.plan_install("p", None).unwrap_err(), "invalid signature: empty");
    assert_eq!(m.installed_path("p").unwrap_err(), "plugin 'p' not installed");
}

#[test]
fn search_filters_sorts_and_limits() {
    let mut m = PluginMarketplace::with_default_config();
    let mut a = plugin("Alpha-Tool", 5);
    a.keywords = vec![];
    a.description = "nothing".to_string();
    let mut b = plugin("beta", 50);
    b.keywords = vec!["TOOLS".to_string()];
    let mut c = plugin("gamma", 20);
    c.toolchain = "go".to_string();
    c.description = "a tool".to_string();
    m.register_plugin(a).unwrap();
    m.register_plugin(b).unwrap();
    m.register_plugin(c).unwrap();
    let all = m.search(SearchQuery { keyword: Some("tool".to_string()), ..Default::default() }).unwrap();
    let names: Vec<String> = all.iter().map(|p| p.name.clone()).collect();
    assert_eq!(names, vec!["beta", "gamma", "Alpha-Tool"]);
    let rust = m
        .search(SearchQuery { keyword: Some("TOOL".to_string()), toolchain: Some("rust".to_string()), limit: 1, ..Default::default() })
        .unwrap();
    assert_eq!(rust.len(), 1);
    assert_eq!(rust[0].name, "beta");
    let verified = m.search(SearchQuery { verified_only: true, ..Default::default() }).unwrap();
    assert!(verified.is_empty());
    assert_eq!(m.discover_plugins().unwrap().len(), 3);
}

#[test]
fn updates_are_reported_for_installed_plugins() {
    let mut m = PluginMarketplace::with_default_config();
    m.register_plugin(plugin("p", 1)).unwrap();
    let mut q = plugin("q", 1);
    q.version = "0.1.0".to_string();
    m.register_plugin(q).unwrap();
    m.record_install("p".to_string(), "/x/p".to_string());
    m.record_install("q".to_string(), "/x/q".to_string());
    let updates = m.check_updates().unwrap();
    assert_eq!(updates, vec![("p".to_string(), "0.1.0".to_string(), "1.0.0".to_string())]);
}

#[test]
fn publishing_signs_with_the_first_trusted_key() {
    let mut m = PluginMarketplace::new(config(true, vec!["key-1", "key-2"]));
    let listed = m.publish_plugin(plugin("tool", 0)).unwrap();
    assert!(listed.verified);
    let sig = listed.signature.unwrap();
    assert_eq!(sig.public_key, "key-1");
    assert_eq!(sig.signature, "sig_tool_1.0.0");
    assert_eq!(sig.signed_by, "fish-registry");
    assert!(m.get_plugin("tool").unwrap().unwrap().verified);
    let mut open = PluginMarketplace::new(config(false, vec![]));
    let plain = open.publish_plugin(plugin("tool", 0)).unwrap();
    assert!(!plain.verified);
    assert!(plain.signature.is_none());
}

#[test]
fn plugin_files_need_a_manifest_or_a_module() {
    assert_eq!(check_plugin_files(false, None).unwrap_err(), "plugin must have plugin.json or plugin.wasm");
    assert!(check_plugin_files(true, None).is_ok());
    assert_eq!(check_plugin_files(true, Some(&[0, 1, 2])).unwrap_err(), "invalid WASM file");
    assert!(check_plugin_files(false, Some(&[0, 0x61, 0x73, 0x6d, 9, 9, 9, 9])).is_ok());
}

#[test]
fn published_plugin_installs_when_its_signature_is_long_enough() {
    let mut m = PluginMarketplace::new(config(true, vec!["key-1"]));
    let mut long = plugin("a-plugin-with-a-long-name", 0);
    long.version = "1.0.0".to_string();
    m.publish_plugin(long).unwrap();
    let plan = m.plan_install("a-plugin-with-a-long-name", None).unwrap();
    assert!(plan.plugin.verified);
    m.publish_plugin(plugin("tool", 0)).unwrap();
    assert_eq!(m.plan_install("tool", None).unwrap_err(), "signature too short");
    m.record_install("tool".to_string(), "/x/tool".to_string());
    m.record_install("other".to_string(), "/x/other".to_string());
    m.forget_install("tool");
    assert!(m.installed_path("tool").is_err());
    assert_eq!(m.installed_path("other").unwrap(), "/x/other");
}

#[test]
fn signatures_carry_the_given_time() {
    let mut m = PluginMarketplace::new(config(true, vec!["key-1"]));
    let listed = m.publish_plugin_at(plugin("tool", 0), "2024-02-02T00:00:00+00:00".to_string()).unwrap();
    assert_eq!(listed.signature.unwrap().signed_at, "2024-02-02T00:00:00+00:00");
}
