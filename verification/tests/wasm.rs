use fish::wasm::{
    ExtismConfig, WasmCapabilities, WasmErrorKind, WasmPluginEngine, WasmPluginManifest, WasmPluginRegistry,
    WasmSandboxConfig,
};

const MODULE: [u8; 8] = [0x00, 0x61, 0x73, 0x6d, 0x01, 0x00, 0x00, 0x00];

fn caps(write: Vec<&str>, env: Vec<&str>, pages: u32, ms: u64, extism: bool) -> WasmCapabilities {
    WasmCapabilities {
        allow_read_paths: vec![],
        allow_write_paths: write.into_iter().map(|s| s.to_string()).collect(),
        allow_env_vars: env.into_iter().map(|s| s.to_string()).collect(),
        max_memory_pages: pages,
        max_execution_time_ms: ms,
        allow_network: false,
        allow_wasi: true,
        enable_extism: extism,
    }
}

fn manifest(name: &str, version: &str, hooks: Vec<&str>, capabilities: WasmCapabilities) -> WasmPluginManifest {
    WasmPluginManifest {
        name: name.to_string(),
        version: version.to_string(),
        entrypoint: "plugin.wasm".to_string(),
        description: None,
        hooks: hooks.into_iter().map(|s| s.to_string()).collect(),
        capabilities,
        wasi_config: None,
        extism_config: None,
    }
}

#[test]
fn test_wasm_plugin_engine_lifecycle_and_execution() {
    let mut m = manifest(
        "codegen_wasm",
        "0.2.0",
        vec!["pre_build", "build"],
        caps(vec!["gen_api.rs"], vec!["PROTOC_PATH"], 128, 5000, true),
    );
    m.extism_config = Some(ExtismConfig::default());
    let mut engine = WasmPluginEngine::load_from_bytes(m, MODULE.to_vec(), "/plugins/codegen_wasm").unwrap();
    assert_eq!(engine.manifest().name, "codegen_wasm");
    assert_eq!(engine.manifest().capabilities.max_memory_pages, 128);
    assert!(engine.manifest().capabilities.allow_wasi);
    assert!(engine.manifest().capabilities.enable_extism);

    let plan = engine.plan_hook("build", "/ws", &["--target=rust".to_string()]).unwrap();
    assert_eq!(plan.out_dir, "/ws/target/wasm_out/codegen_wasm");
    assert_eq!(plan.artifacts.len(), 1);
    assert_eq!(plan.artifacts[0].path, "/ws/target/wasm_out/codegen_wasm/gen_api.rs");
    assert!(plan.artifacts[0].content.contains("FISH_WASM_PLUGIN_OUTPUT"));
    assert!(plan.artifacts[0].content.contains("wasi=true"));

    let res = engine.finish_hook(plan, 0, 1_500_000).unwrap();
    assert_eq!(res.exit_code, 0);
    assert!(res.stdout.contains("codegen_wasm"));
    assert!(res.stdout.contains("Extism/WASI"));
    assert_eq!(res.generated_artifacts.len(), 1);
    assert_eq!(engine.execution_count(), 1);
}

#[test]
fn test_wasm_plugin_registry_discovery() {
    let mut registry = WasmPluginRegistry::new();
    let a = manifest("proto_gen", "0.1.0", vec!["build"], WasmCapabilities::default());
    let b = manifest("linter", "1.0.0", vec!["build"], WasmCapabilities::default());
    registry.register(WasmPluginEngine::load_from_bytes(a, MODULE.to_vec(), "/p/proto_gen").unwrap());
    registry.register(WasmPluginEngine::load_from_bytes(b, MODULE.to_vec(), "/p").unwrap());
    assert_eq!(registry.count(), 2);
    let names = registry.plugin_names();
    assert!(names.contains(&"proto_gen".to_string()));
    assert!(names.contains(&"linter".to_string()));
}

#[test]
fn test_wasm_toolchain_adapter() {
    let m = manifest(
        "zig_adapter",
        "1.0.0",
        vec!["toolchain_zig"],
        caps(vec!["zig_out"], vec!["PATH"], 64, 3000, true),
    );
    let mut engine = WasmPluginEngine::load_from_bytes(m, MODULE.to_vec(), "/p/zig_adapter").unwrap();
    let plan = engine.execute_toolchain_adapter("zig", "build-exe", &["main.zig".to_string()], "/ws").unwrap();
    assert!(plan.artifacts[0].content.contains("args=build-exe main.zig"));
    let result = engine.finish_hook(plan, 0, 0).unwrap();
    assert_eq!(result.exit_code, 0);
    assert!(result.stdout.contains("zig"));
}

#[test]
fn test_wasm_sandbox_limits() {
    let m = manifest(
        "limited_plugin",
        "1.0.0",
        vec!["build"],
        caps(vec!["out1", "out2", "out3", "out4", "out5"], vec![], 2, 10000, false),
    );
    let mut engine = WasmPluginEngine::load_from_bytes(m, MODULE.to_vec(), "/p").unwrap();
    let plan = engine.plan_hook("build", "/ws", &[]).unwrap();
    let result = engine.finish_hook(plan, 0, 0);
    assert!(result.is_err());
    assert!(result.unwrap_err().message().contains("memory limit exceeded"));
}

#[test]
fn bytecode_checks_length_magic_and_version() {
    let short = WasmPluginEngine::validate_wasm_bytecode(&[0, 0x61]).unwrap_err();
    assert_eq!(short.kind, WasmErrorKind::InvalidData);
    assert_eq!(short.message, "WASM binary is smaller than 8 bytes");
    let magic = WasmPluginEngine::validate_wasm_bytecode(&[1, 2, 3, 4, 1, 0, 0, 0]).unwrap_err();
    assert_eq!(magic.message, "Invalid WASM binary magic header");
    let version = WasmPluginEngine::validate_wasm_bytecode(&[0, 0x61, 0x73, 0x6d, 2, 1, 0, 0]).unwrap_err();
    assert_eq!(version.message, "Unsupported WASM version: 258");
    assert!(WasmPluginEngine::validate_wasm_bytecode(&MODULE).is_ok());
}

#[test]
fn unknown_hook_is_refused_but_counted() {
    let m = manifest("p", "1.0.0", vec!["build"], WasmCapabilities::default());
    let mut engine = WasmPluginEngine::load_from_bytes(m, MODULE.to_vec(), "/p").unwrap();
    let err = engine.plan_hook("deploy", "/ws", &[]).unwrap_err();
    assert_eq!(err.kind, WasmErrorKind::InvalidInput);
    assert_eq!(err.message, "hook 'deploy' not defined in manifest");
    assert_eq!(engine.execution_count(), 1);
}

#[test]
fn plugins_without_hooks_run_any_hook() {
    let m = manifest("p", "1.0.0", vec![], caps(vec!["/abs/dir/out.txt", "rel/x"], vec![], 10, 1000, false));
    let mut engine = WasmPluginEngine::load_from_bytes(m, MODULE.to_vec(), "/p").unwrap();
    let plan = engine.plan_hook("anything", "ws", &["a".to_string(), "b".to_string()]).unwrap();
    assert_eq!(plan.artifacts[0].path, "ws/target/wasm_out/p/out.txt");
    assert_eq!(plan.artifacts[1].path, "ws/target/wasm_out/p/rel/x");
    assert_eq!(plan.memory_pages_used, 3);
    assert_eq!(
        plan.artifacts[0].content,
        "FISH_WASM_PLUGIN_OUTPUT (WASI)\nname=p\nversion=1.0.0\nhook=anything\nargs=a b\nwasi=true\nmemory_pages=10\n"
    );
}

#[test]
fn slow_runs_time_out_before_memory_is_checked() {
    let m = manifest("p", "1.0.0", vec![], caps(vec!["a", "b", "c"], vec![], 1, 1000, false));
    let mut engine = WasmPluginEngine::load_from_bytes(m, MODULE.to_vec(), "/p").unwrap();
    let plan = engine.plan_hook("h", "/ws", &[]).unwrap();
    let err = engine.finish_hook(plan, 2, 5_000_000).unwrap_err();
    assert_eq!(err.kind, WasmErrorKind::TimedOut);
    assert_eq!(err.message, "WASM execution timed out after 2005ms (limit 1000ms)");
}

#[test]
fn report_lists_fuel_limit_and_pages() {
    let m = manifest("p", "1.0.0", vec![], caps(vec![], vec![], 10, 1000, true));
    let engine0 = WasmPluginEngine::load_from_bytes(m, MODULE.to_vec(), "/p").unwrap();
    let mut engine = engine0.with_sandbox_config(WasmSandboxConfig { fuel_limit: None, ..WasmSandboxConfig::default() });
    let plan = engine.plan_hook("h", "/ws", &[]).unwrap();
    let res = engine.finish_hook(plan, 0, 3000).unwrap();
    assert!(res.stdout.starts_with("WASM Plugin `p` [1.0.0] executed hook `h` via Extism/WASI (memory: 1 pages, fuel: None, duration: "));
    assert!(res.stdout.ends_with("duration: 3.00µs)"));
    assert_eq!(res.fuel_consumed, Some(3));
    assert_eq!(res.memory_used_pages, 1);
}

#[test]
fn registry_replaces_by_name_and_sorts_names() {
    let mut registry = WasmPluginRegistry::new();
    for name in ["zeta", "alpha", "mid"] {
        let m = manifest(name, "1.0.0", vec![], WasmCapabilities::default());
        registry.register(WasmPluginEngine::load_from_bytes(m, MODULE.to_vec(), "/p").unwrap());
    }
    let again = manifest("alpha", "2.0.0", vec!["build"], WasmCapabilities::default());
    registry.register(WasmPluginEngine::load_from_bytes(again, MODULE.to_vec(), "/p").unwrap());
    assert_eq!(registry.count(), 3);
    assert_eq!(registry.plugin_names(), vec!["alpha", "mid", "zeta"]);
    assert_eq!(registry.get("alpha").unwrap().manifest().version, "2.0.0");
    assert!(registry.get("nope").is_none());
    assert_eq!(registry.cache_size(), 3);
    let runs = registry.execute_all_hooks("lint", "/ws", &["a".to_string()]);
    assert_eq!(runs.len(), 2);
    assert!(runs.iter().all(|(name, _)| name != "alpha"));
    assert!(runs.iter().all(|(name, plan)| {
        let plan = plan.as_ref().unwrap();
        plan.hook_name == "lint" && plan.out_dir == format!("/ws/target/wasm_out/{name}")
    }));
    assert_eq!(registry.get("mid").unwrap().execution_count(), 1);
    assert_eq!(registry.get("alpha").unwrap().execution_count(), 0);
    registry.get_mut("mid").unwrap().plan_hook("x", "/ws", &[]).unwrap();
    assert_eq!(registry.get("mid").unwrap().execution_count(), 2);
    registry.clear_cache();
    assert_eq!(registry.cache_size(), 0);
    assert_eq!(registry.count(), 3);
}

#[test]
fn write_paths_escaping_the_workspace_are_refused() {
    let m = manifest("p", "1.0.0", vec!["build"], caps(vec!["../../../../escape"], vec![], 64, 10000, true));
    let mut engine = WasmPluginEngine::load_from_bytes(m, MODULE.to_vec(), "/tmp/p").unwrap();
    let err = engine.plan_hook("build", "/tmp/a/ws", &[]).unwrap_err();
    assert_eq!(err.kind, WasmErrorKind::PermissionDenied);
    assert_eq!(err.message, "path \"/tmp/a/ws/target/wasm_out/p/../../../../escape\" escapes workspace");
    assert_eq!(engine.execution_count(), 1);
    let inside = manifest("q", "1.0.0", vec!["build"], caps(vec!["../../keep", "./a/../b"], vec![], 64, 10000, false));
    let mut engine = WasmPluginEngine::load_from_bytes(inside, MODULE.to_vec(), "/tmp/q").unwrap();
    let plan = engine.plan_hook("build", "/tmp/a/ws", &[]).unwrap();
    assert_eq!(plan.artifacts[0].path, "/tmp/a/ws/target/wasm_out/q/../../keep");
    let mut plain = caps(vec!["/etc/out"], vec![], 64, 10000, false);
    plain.allow_wasi = false;
    let absolute = manifest("r", "1.0.0", vec!["build"], plain);
    let mut engine = WasmPluginEngine::load_from_bytes(absolute, MODULE.to_vec(), "/tmp/r").unwrap();
    assert_eq!(engine.plan_hook("build", "/tmp/a/ws", &[]).unwrap_err().kind, WasmErrorKind::PermissionDenied);
}
