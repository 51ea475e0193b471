use vstd::prelude::*;
use std::time::Duration;
use crate::slsa::KeyValue;
use crate::text::{has_prefix, starts_with, decimal, decimal_string, join, joined, path_join, join_path, str_eq, seq_lt, str_lt, lemma_seq_lt_total, lemma_seq_lt_transitive, lemma_seq_lt_irreflexive_asym};
use crate::keyed::{keyed, keys_distinct, has_key, lemma_keyed_dom, lemma_keyed_value, lemma_keyed_update, lemma_keyed_push, lemma_keyed_len};
use crate::microvm::{debug_path, path_debug_text, file_name_or_empty, path_file_name, str_views};

verus! {

/// What a WebAssembly plugin may touch.
#[derive(Debug)]
pub struct WasmCapabilities {
    pub allow_read_paths: Vec<String>,
    pub allow_write_paths: Vec<String>,
    pub allow_env_vars: Vec<String>,
    pub max_memory_pages: u32,
    pub max_execution_time_ms: u64,
    pub allow_network: bool,
    pub allow_wasi: bool,
    pub enable_extism: bool,
}

impl Default for WasmCapabilities {
    /// Reads `src` and `target`, writes `target/wasm_out`, sees `PATH` and `RUST_LOG`,
    /// 256 pages, 10 s, no network, WASI and Extism on.
    fn default() -> (r: Self)
        ensures
            str_views(r.allow_read_paths@) == seq!["src"@, "target"@],
            str_views(r.allow_write_paths@) == seq!["target/wasm_out"@],
            str_views(r.allow_env_vars@) == seq!["PATH"@, "RUST_LOG"@],
            r.max_memory_pages == 256,
            r.max_execution_time_ms == 10_000,
            !r.allow_network,
            r.allow_wasi,
            r.enable_extism,
    {
        let mut allow_read_paths: Vec<String> = Vec::new();
        allow_read_paths.push("src".to_string());
        allow_read_paths.push("target".to_string());
        let mut allow_write_paths: Vec<String> = Vec::new();
        allow_write_paths.push("target/wasm_out".to_string());
        let mut allow_env_vars: Vec<String> = Vec::new();
        allow_env_vars.push("PATH".to_string());
        allow_env_vars.push("RUST_LOG".to_string());
        proof {
            assert(str_views(allow_read_paths@) =~= seq!["src"@, "target"@]);
            assert(str_views(allow_write_paths@) =~= seq!["target/wasm_out"@]);
            assert(str_views(allow_env_vars@) =~= seq!["PATH"@, "RUST_LOG"@]);
        }
        WasmCapabilities {
            allow_read_paths,
            allow_write_paths,
            allow_env_vars,
            max_memory_pages: 256,
            max_execution_time_ms: 10_000,
            allow_network: false,
            allow_wasi: true,
            enable_extism: true,
        }
    }
}

/// A directory of the host made visible to the guest.
#[derive(Debug)]
pub struct PreopenDir {
    pub host_path: String,
    pub guest_path: String,
    pub read_only: bool,
}

/// WASI settings of a plugin.
#[derive(Debug)]
pub struct WasiConfig {
    pub preopen_dirs: Vec<PreopenDir>,
    pub env_vars: Vec<KeyValue>,
    pub args: Vec<String>,
}

/// Extism settings of a plugin.
#[derive(Debug)]
pub struct ExtismConfig {
    pub enable_pdk: bool,
    pub allowed_hosts: Vec<String>,
    pub config: Vec<KeyValue>,
}

impl Default for ExtismConfig {
    fn default() -> (r: Self)
        ensures
            r.enable_pdk,
            r.allowed_hosts@.len() == 0,
            r.config@.len() == 0,
    {
        ExtismConfig { enable_pdk: true, allowed_hosts: Vec::new(), config: Vec::new() }
    }
}

/// The description a plugin ships with.
#[derive(Debug)]
pub struct WasmPluginManifest {
    pub name: String,
    pub version: String,
    pub entrypoint: String,
    pub description: Option<String>,
    pub hooks: Vec<String>,
    pub capabilities: WasmCapabilities,
    pub wasi_config: Option<WasiConfig>,
    pub extism_config: Option<ExtismConfig>,
}

/// Sandbox settings of the engine.
#[derive(Debug)]
pub struct WasmSandboxConfig {
    pub enable_cache: bool,
    pub cache_dir: Option<String>,
    pub enable_fuel: bool,
    pub fuel_limit: Option<u64>,
    pub enable_epoch_interruption: bool,
}

impl Default for WasmSandboxConfig {
    fn default() -> (r: Self)
        ensures
            r.enable_cache,
            r.cache_dir is None,
            r.enable_fuel,
            r.fuel_limit == Some(1_000_000_000u64),
            r.enable_epoch_interruption,
    {
        WasmSandboxConfig {
            enable_cache: true,
            cache_dir: None,
            enable_fuel: true,
            fuel_limit: Some(1_000_000_000),
            enable_epoch_interruption: true,
        }
    }
}

/// The kinds of failure of plugin loading and execution.
#[derive(Debug, Clone, Copy, PartialEq, Eq, Structural)]
pub enum WasmErrorKind {
    InvalidData,
    InvalidInput,
    TimedOut,
    OutOfMemory,
    PermissionDenied,
}

/// A failure with its kind and message.
#[derive(Debug)]
pub struct WasmError {
    pub kind: WasmErrorKind,
    pub message: String,
}

impl WasmError {
    /// The message of the failure.
    pub fn message(&self) -> (r: &str)
        ensures
            r@ == self.message@,
    {
        self.message.as_str()
    }
}

/// The little-endian value of four bytes.
pub open spec fn le_u32(b0: u8, b1: u8, b2: u8, b3: u8) -> int {
    b0 + 256 * b1 + 65536 * b2 + 16777216 * b3
}

/// What is wrong with a module binary, if anything: its length, then its magic
/// header `\0asm`, then its version, which must be 1.
pub open spec fn bytecode_error(b: Seq<u8>) -> Option<Seq<char>> {
    if b.len() < 8 {
        Some("WASM binary is smaller than 8 bytes"@)
    } else if !(b[0] == 0 && b[1] == 0x61 && b[2] == 0x73 && b[3] == 0x6d) {
        Some("Invalid WASM binary magic header"@)
    } else if le_u32(b[4], b[5], b[6], b[7]) != 1 {
        Some("Unsupported WASM version: "@ + decimal(le_u32(b[4], b[5], b[6], b[7]) as nat))
    } else {
        None
    }
}

/// The outcome of a plugin hook.
#[derive(Debug)]
pub struct WasmExecutionResult {
    pub exit_code: i32,
    pub stdout: String,
    pub stderr: String,
    pub duration: Duration,
    pub generated_artifacts: Vec<String>,
    pub memory_used_pages: u32,
    pub fuel_consumed: Option<u64>,
}

/// A loaded plugin with a valid module binary.
pub struct WasmPluginEngine {
    manifest: WasmPluginManifest,
    wasm_bytes: Vec<u8>,
    plugin_dir: String,
    execution_counter: u64,
    sandbox: WasmSandboxConfig,
}

impl WasmPluginEngine {
    pub closed spec fn manifest_spec(self) -> WasmPluginManifest {
        self.manifest
    }

    pub closed spec fn bytes_spec(self) -> Seq<u8> {
        self.wasm_bytes@
    }

    pub closed spec fn plugin_dir_spec(self) -> Seq<char> {
        self.plugin_dir@
    }

    pub closed spec fn count_spec(self) -> u64 {
        self.execution_counter
    }

    pub closed spec fn sandbox_spec(self) -> WasmSandboxConfig {
        self.sandbox
    }

    /// Checks a module binary: at least 8 bytes, the magic header `\0asm`, version 1.
    pub fn validate_wasm_bytecode(bytes: &[u8]) -> (r: Result<(), WasmError>)
        ensures
            match bytecode_error(bytes@) {
                Some(m) => r matches Err(e) && e.kind == WasmErrorKind::InvalidData && e.message@ == m,
                None => r is Ok,
            },
            r is Ok <==> (bytes@.len() >= 8 && bytes@[0] == 0 && bytes@[1] == 0x61 && bytes@[2] == 0x73
                && bytes@[3] == 0x6d && bytes@[4] == 1 && bytes@[5] == 0 && bytes@[6] == 0 && bytes@[7] == 0),
    {
        if bytes.len() < 8 {
            return Err(
                WasmError {
                    kind: WasmErrorKind::InvalidData,
                    message: "WASM binary is smaller than 8 bytes".to_string(),
                },
            );
        }
        if !(bytes[0] == 0 && bytes[1] == 0x61 && bytes[2] == 0x73 && bytes[3] == 0x6d) {
            return Err(
                WasmError {
                    kind: WasmErrorKind::InvalidData,
                    message: "Invalid WASM binary magic header".to_string(),
                },
            );
        }
        let version: u32 = bytes[4] as u32 + 256 * (bytes[5] as u32) + 65536 * (bytes[6] as u32)
            + 16777216 * (bytes[7] as u32);
        if version != 1 {
            let mut message = "Unsupported WASM version: ".to_string();
            let digits = decimal_string(version as u128);
            message.append(digits.as_str());
            return Err(WasmError { kind: WasmErrorKind::InvalidData, message });
        }
        Ok(())
    }

    /// Loads a plugin from its manifest and module binary, which must pass
    /// `validate_wasm_bytecode`; the counter starts at 0 with the default sandbox.
    pub fn load_from_bytes(manifest: WasmPluginManifest, wasm_bytes: Vec<u8>, plugin_dir: &str) -> (r:
        Result<Self, WasmError>)
        ensures
            match bytecode_error(wasm_bytes@) {
                Some(m) => r matches Err(e) && e.kind == WasmErrorKind::InvalidData && e.message@ == m,
                None => r matches Ok(eng) && eng.manifest_spec() == manifest && eng.bytes_spec()
                    == wasm_bytes@ && eng.plugin_dir_spec() == plugin_dir@ && eng.count_spec() == 0
                    && eng.sandbox_spec() == WasmSandboxConfig {
                    enable_cache: true,
                    cache_dir: None,
                    enable_fuel: true,
                    fuel_limit: Some(1_000_000_000u64),
                    enable_epoch_interruption: true,
                },
            },
    {
        match Self::validate_wasm_bytecode(wasm_bytes.as_slice()) {
            Err(e) => Err(e),
            Ok(()) => Ok(
                WasmPluginEngine {
                    manifest,
                    wasm_bytes,
                    plugin_dir: plugin_dir.to_string(),
                    execution_counter: 0,
                    sandbox: WasmSandboxConfig::default(),
                },
            ),
        }
    }

    pub fn with_sandbox_config(self, sandbox: WasmSandboxConfig) -> (r: Self)
        ensures
            r.sandbox_spec() == sandbox,
            r.manifest_spec() == self.manifest_spec(),
            r.bytes_spec() == self.bytes_spec(),
            r.plugin_dir_spec() == self.plugin_dir_spec(),
            r.count_spec() == self.count_spec(),
    {
        let mut s = self;
        s.sandbox = sandbox;
        s
    }

    pub fn manifest(&self) -> (r: &WasmPluginManifest)
        ensures
            *r == self.manifest_spec(),
    {
        &self.manifest
    }

    pub fn wasm_bytes_len(&self) -> (r: usize)
        ensures
            r == self.bytes_spec().len(),
    {
        self.wasm_bytes.len()
    }

    pub fn plugin_dir(&self) -> (r: &str)
        ensures
            r@ == self.plugin_dir_spec(),
    {
        self.plugin_dir.as_str()
    }

    /// How many hooks were started on this engine (wrapping at `u64::MAX`).
    pub fn execution_count(&self) -> (r: u64)
        ensures
            r == self.count_spec(),
    {
        self.execution_counter
    }
}

/// The directory that a plugin's hooks write to: `target/wasm_out/<plugin>` in the workspace.
pub open spec fn hook_out_dir(ws: Seq<char>, name: Seq<char>) -> Seq<char> {
    path_join(path_join(path_join(ws, "target"@), "wasm_out"@), name)
}

/// Where the artifact of write rule `rule` goes: below the output directory, an absolute
/// rule contributing only its last component when WASI is on.
pub open spec fn artifact_path(out_dir: Seq<char>, rule: Seq<char>, wasi: bool) -> Seq<char> {
    if wasi && rule.len() > 0 && rule[0] == '/' {
        path_join(out_dir, file_name_or_empty(rule))
    } else {
        path_join(out_dir, rule)
    }
}

/// Extism runs the plugin when the capability is on and the plugin's Extism settings,
/// if any, enable the PDK.
pub open spec fn extism_enabled(m: WasmPluginManifest) -> bool {
    m.capabilities.enable_extism && match m.extism_config {
        Some(c) => c.enable_pdk,
        None => true,
    }
}

/// The text written to each artifact of a hook run.
pub open spec fn artifact_content(
    m: WasmPluginManifest,
    hook: Seq<char>,
    args: Seq<Seq<char>>,
    extism: bool,
) -> Seq<char> {
    let common = "\nname="@ + m.name@ + "\nversion="@ + m.version@ + "\nhook="@ + hook + "\nargs="@
        + joined(args, " "@) + "\n"@;
    if !m.capabilities.allow_wasi {
        "FISH_WASM_PLUGIN_OUTPUT"@ + common
    } else if extism {
        "FISH_WASM_PLUGIN_OUTPUT (Extism/WASI)"@ + common + "wasi=true\nextism=true\nmemory_pages="@
            + decimal(m.capabilities.max_memory_pages as nat) + "\n"@
    } else {
        "FISH_WASM_PLUGIN_OUTPUT (WASI)"@ + common + "wasi=true\nmemory_pages="@ + decimal(
            m.capabilities.max_memory_pages as nat,
        ) + "\n"@
    }
}

/// The hook may run: the manifest lists it, or lists no hook at all.
pub open spec fn hook_allowed(m: WasmPluginManifest, hook: Seq<char>) -> bool {
    m.hooks@.len() == 0 || str_views(m.hooks@).contains(hook)
}

/// A file that a hook run writes.
#[derive(Debug)]
pub struct PlannedArtifact {
    pub path: String,
    pub content: String,
}

/// What a hook run does on disk before its limits are checked.
#[derive(Debug)]
pub struct HookPlan {
    pub hook_name: String,
    /// The directory created first.
    pub out_dir: String,
    pub extism_enabled: bool,
    /// The files written, one per write rule, in order.
    pub artifacts: Vec<PlannedArtifact>,
    pub memory_pages_used: u32,
}

/// `p` is the plan of running `hook` with `args` in workspace `ws` under manifest `m`.
pub open spec fn planned_hook(
    m: WasmPluginManifest,
    hook: Seq<char>,
    ws: Seq<char>,
    args: Seq<Seq<char>>,
    p: HookPlan,
) -> bool {
    let out = hook_out_dir(ws, m.name@);
    let ext = extism_enabled(m);
    let wasi = m.capabilities.allow_wasi;
    let rules = str_views(m.capabilities.allow_write_paths@);
    &&& p.hook_name@ == hook
    &&& p.out_dir@ == out
    &&& p.extism_enabled == ext
    &&& p.memory_pages_used == 1 + (if wasi { rules.len() } else { 0 })
    &&& p.artifacts@.len() == rules.len()
    &&& forall|i: int|
        0 <= i < rules.len() ==> (#[trigger] p.artifacts@[i]).path@ == artifact_path(out, rules[i], wasi)
            && p.artifacts@[i].content@ == artifact_content(m, hook, args, ext)
}

/// The position of the first `/` in `s`, or its length when there is none.
pub open spec fn slash_index(s: Seq<char>) -> int
    decreases s.len(),
{
    if s.len() == 0 {
        0
    } else if s[0] == '/' {
        0
    } else {
        1 + slash_index(s.drop_first())
    }
}

proof fn lemma_slash_index_is(s: Seq<char>, k: int)
    requires
        0 <= k <= s.len(),
        forall|j: int| 0 <= j < k ==> s[j] != '/',
        k < s.len() ==> s[k] == '/',
    ensures
        slash_index(s) == k,
    decreases k,
{
    if k > 0 {
        assert forall|j: int| 0 <= j < k - 1 implies s.drop_first()[j] != '/' by {
            assert(s.drop_first()[j] == s[j + 1]);
        }
        if k - 1 < s.drop_first().len() {
            assert(s.drop_first()[k - 1] == s[k]);
        }
        lemma_slash_index_is(s.drop_first(), k - 1);
    }
}

/// Walking the components of `p` (the pieces between `/`s) from `depth` levels below the
/// workspace, where `..` goes up, `.` and empty pieces stay and any other piece goes
/// down, at some point climbs above the workspace.
pub open spec fn climbs_out(p: Seq<char>, depth: int) -> bool
    decreases p.len(),
{
    let i = slash_index(p);
    let c = p.take(i);
    let d = if c == ".."@ {
        depth - 1
    } else if c.len() == 0 || c == "."@ {
        depth
    } else {
        depth + 1
    };
    if d < 0 {
        true
    } else if i >= p.len() || i < 0 {
        false
    } else {
        climbs_out(p.skip(i + 1), d)
    }
}

/// Path `a` lies in workspace `ws` once its `.` and `..` components are resolved: it is
/// `ws` followed by components that never climb above it.
pub open spec fn inside_workspace(ws: Seq<char>, a: Seq<char>) -> bool {
    &&& has_prefix(a, ws)
    &&& if ws.len() == 0 {
        !(a.len() > 0 && a[0] == '/')
    } else {
        ws.last() == '/' || a.len() == ws.len() || a[ws.len() as int] == '/'
    }
    &&& !climbs_out(a.skip(ws.len() as int), 0)
}

/// The files that hook runs of manifest `m` in workspace `ws` write, one per write rule.
pub open spec fn hook_paths(m: WasmPluginManifest, ws: Seq<char>) -> Seq<Seq<char>> {
    let rules = str_views(m.capabilities.allow_write_paths@);
    Seq::new(rules.len(), |i: int| artifact_path(hook_out_dir(ws, m.name@), rules[i], m.capabilities.allow_wasi))
}

/// Write rule `i` is the first whose file lies outside the workspace.
pub open spec fn first_escape(m: WasmPluginManifest, ws: Seq<char>, i: int) -> bool {
    let ps = hook_paths(m, ws);
    &&& 0 <= i < ps.len()
    &&& !inside_workspace(ws, ps[i])
    &&& forall|j: int| 0 <= j < i ==> inside_workspace(ws, #[trigger] ps[j])
}

/// The refusal of a hook run that would write `path` outside the workspace.
pub open spec fn escape_message(path: Seq<char>) -> Seq<char> {
    "path "@ + path_debug_text(path) + " escapes workspace"@
}

/// The outcome of starting hook `hook` with `args` in workspace `ws` under manifest `m`:
/// a hook the manifest does not list is refused; so is a run whose first escaping write
/// rule would put a file outside the workspace; otherwise the run is planned.
pub open spec fn hook_start(
    m: WasmPluginManifest,
    hook: Seq<char>,
    ws: Seq<char>,
    args: Seq<Seq<char>>,
    r: Result<HookPlan, WasmError>,
) -> bool {
    if !hook_allowed(m, hook) {
        r matches Err(e) && e.kind == WasmErrorKind::InvalidInput && e.message@ == undefined_hook_message(hook)
    } else if exists|i: int| first_escape(m, ws, i) {
        r matches Err(e) && e.kind == WasmErrorKind::PermissionDenied && exists|i: int|
            first_escape(m, ws, i) && e.message@ == escape_message(hook_paths(m, ws)[i])
    } else {
        r matches Ok(p) && planned_hook(m, hook, ws, args, p)
    }
}

fn slash_at(p: &str, start: usize) -> (r: usize)
    requires
        start <= p@.len(),
    ensures
        start <= r <= p@.len(),
        r == start + slash_index(p@.skip(start as int)),
{
    let n = p.unicode_len();
    let mut i = start;
    while i < n && p.get_char(i) != '/'
        invariant
            start <= i <= n,
            n == p@.len(),
            forall|j: int| start <= j < i ==> p@[j] != '/',
        decreases n - i,
    {
        i = i + 1;
    }
    proof {
        let s = p@.skip(start as int);
        assert forall|j: int| 0 <= j < i - start implies s[j] != '/' by {
            assert(s[j] == p@[start + j]);
        }
        if i < n {
            assert(s[i - start] == p@[i as int]);
        }
        lemma_slash_index_is(s, i - start);
    }
    i
}

/// Whether `p`'s components climb above their start (see `climbs_out`).
fn climbs_out_exec(p: &str) -> (r: bool)
    ensures
        r == climbs_out(p@, 0),
{
    let n = p.unicode_len();
    let mut start: usize = 0;
    let mut depth: usize = 0;
    proof {
        assert(p@.skip(0) =~= p@);
    }
    loop
        invariant
            start <= n,
            n == p@.len(),
            depth <= start,
            climbs_out(p@, 0) == climbs_out(p@.skip(start as int), depth as int),
        decreases n - start,
    {
        let i = slash_at(p, start);
        let ghost s = p@.skip(start as int);
        let ghost c = s.take(i - start);
        let len = i - start;
        let dotdot = len == 2 && p.get_char(start) == '.' && p.get_char(start + 1) == '.';
        let stay = len == 0 || (len == 1 && p.get_char(start) == '.');
        proof {
            reveal_strlit("..");
            reveal_strlit(".");
            assert(c.len() == len);
            if len >= 1 {
                assert(c[0] == p@[start as int]);
            }
            if len >= 2 {
                assert(c[1] == p@[start + 1]);
            }
            if dotdot {
                assert(c =~= ".."@);
            } else {
                assert(c != ".."@) by {
                    if c == ".."@ {
                        assert(c[0] == '.' && c[1] == '.');
                    }
                }
            }
            if len == 1 && p@[start as int] == '.' {
                assert(c =~= "."@);
            }
            if len != 0 && !(len == 1 && p@[start as int] == '.') {
                assert(c != "."@) by {
                    if c == "."@ {
                        assert(c[0] == '.');
                    }
                }
            }
            if i < n {
                assert(s.skip(i - start + 1) =~= p@.skip(i + 1));
            }
        }
        if dotdot {
            if depth == 0 {
                return true;
            }
            depth = depth - 1;
        } else if !stay {
            depth = depth + 1;
        }
        if i >= n {
            return false;
        }
        start = i + 1;
    }
}

/// Whether `a` lies in workspace `ws` (see `inside_workspace`).
fn inside_workspace_exec(ws: &str, a: &str) -> (r: bool)
    ensures
        r == inside_workspace(ws@, a@),
{
    if !starts_with(a, ws) {
        return false;
    }
    let w = ws.unicode_len();
    let n = a.unicode_len();
    let joined = if w == 0 {
        !(n > 0 && a.get_char(0) == '/')
    } else {
        ws.get_char(w - 1) == '/' || n == w || a.get_char(w) == '/'
    };
    if !joined {
        return false;
    }
    let rest = a.substring_char(w, n);
    proof {
        assert(rest@ =~= a@.skip(w as int));
    }
    !climbs_out_exec(rest)
}

/// The refusal of a hook that the manifest does not list.
pub open spec fn undefined_hook_message(hook: Seq<char>) -> Seq<char> {
    "hook '"@ + hook + "' not defined in manifest"@
}

fn contains_str(v: &Vec<String>, x: &str) -> (r: bool)
    ensures
        r == str_views(v@).contains(x@),
{
    let mut i: usize = 0;
    while i < v.len()
        invariant
            i <= v@.len(),
            forall|j: int| 0 <= j < i ==> v@[j]@ != x@,
        decreases v@.len() - i,
    {
        if str_eq(v[i].as_str(), x) {
            proof {
                assert(str_views(v@)[i as int] == x@);
            }
            return true;
        }
        i = i + 1;
    }
    proof {
        if str_views(v@).contains(x@) {
            let j = choose|j: int| 0 <= j < str_views(v@).len() && str_views(v@)[j] == x@;
            assert(v@[j]@ == x@);
        }
    }
    false
}

fn write_artifact_content(m: &WasmPluginManifest, hook: &str, args: &[String], extism: bool) -> (r: String)
    ensures
        r@ == artifact_content(*m, hook@, str_views(args@), extism),
{
    let joined_args = join(args, " ");
    let mut common = "\nname=".to_string();
    common.append(m.name.as_str());
    common.append("\nversion=");
    common.append(m.version.as_str());
    common.append("\nhook=");
    common.append(hook);
    common.append("\nargs=");
    common.append(joined_args.as_str());
    common.append("\n");
    proof {
        assert(args@.map_values(|x: String| x@) == str_views(args@));
    }
    if !m.capabilities.allow_wasi {
        let mut out = "FISH_WASM_PLUGIN_OUTPUT".to_string();
        out.append(common.as_str());
        out
    } else {
        let mut out = if extism {
            "FISH_WASM_PLUGIN_OUTPUT (Extism/WASI)".to_string()
        } else {
            "FISH_WASM_PLUGIN_OUTPUT (WASI)".to_string()
        };
        out.append(common.as_str());
        if extism {
            out.append("wasi=true\nextism=true\nmemory_pages=");
        } else {
            out.append("wasi=true\nmemory_pages=");
        }
        let pages = decimal_string(m.capabilities.max_memory_pages as u128);
        out.append(pages.as_str());
        out.append("\n");
        out
    }
}

fn plan_artifact_path(out_dir: &str, rule: &str, wasi: bool) -> (r: String)
    ensures
        r@ == artifact_path(out_dir@, rule@, wasi),
{
    if wasi && rule.unicode_len() > 0 && rule.get_char(0) == '/' {
        match path_file_name(rule) {
            Some(n) => join_path(out_dir, n.as_str()),
            None => {
                proof {
                    reveal_strlit("");
                    assert(""@ =~= Seq::<char>::empty());
                }
                join_path(out_dir, "")
            },
        }
    } else {
        join_path(out_dir, rule)
    }
}

impl WasmPluginEngine {
    /// Starts hook `hook_name`: counts the start (wrapping), then refuses a hook that the
    /// manifest does not list, else plans the run (see `planned_hook`). The files of the
    /// plan are written by the caller before `finish_hook`.
    pub fn plan_hook(&mut self, hook_name: &str, workspace_root: &str, args: &[String]) -> (r: Result<
        HookPlan,
        WasmError,
    >)
        requires
            old(self).manifest_spec().capabilities.allow_write_paths@.len() < u32::MAX,
        ensures
            final(self).count_spec() == if old(self).count_spec() == u64::MAX {
                0
            } else {
                (old(self).count_spec() + 1) as u64
            },
            final(self).manifest_spec() == old(self).manifest_spec(),
            final(self).bytes_spec() == old(self).bytes_spec(),
            final(self).plugin_dir_spec() == old(self).plugin_dir_spec(),
            final(self).sandbox_spec() == old(self).sandbox_spec(),
            hook_start(old(self).manifest_spec(), hook_name@, workspace_root@, str_views(args@), r),
    {
        self.execution_counter = if self.execution_counter == u64::MAX {
            0
        } else {
            self.execution_counter + 1
        };
        let m = &self.manifest;
        if m.hooks.len() != 0 && !contains_str(&m.hooks, hook_name) {
            let mut message = "hook '".to_string();
            message.append(hook_name);
            message.append("' not defined in manifest");
            return Err(WasmError { kind: WasmErrorKind::InvalidInput, message });
        }
        let target = join_path(workspace_root, "target");
        let wasm_out = join_path(target.as_str(), "wasm_out");
        let out_dir = join_path(wasm_out.as_str(), m.name.as_str());
        let extism = m.capabilities.enable_extism && match &m.extism_config {
            Some(c) => c.enable_pdk,
            None => true,
        };
        let wasi = m.capabilities.allow_wasi;
        let content = write_artifact_content(m, hook_name, args, extism);
        let rules = &m.capabilities.allow_write_paths;
        let ghost rv = str_views(rules@);
        let mut artifacts: Vec<PlannedArtifact> = Vec::new();
        let mut pages: u32 = 1;
        let mut i: usize = 0;
        while i < rules.len()
            invariant
                i <= rules@.len(),
                rules@.len() < u32::MAX,
                artifacts@.len() == i,
                pages == 1 + (if wasi { i as int } else { 0 }),
                forall|j: int|
                    0 <= j < i ==> (#[trigger] artifacts@[j]).path@ == artifact_path(out_dir@, rv[j], wasi)
                        && artifacts@[j].content@ == content@,
                forall|j: int| 0 <= j < i ==> inside_workspace(workspace_root@, #[trigger] artifacts@[j].path@),
            decreases rules@.len() - i,
        {
            let path = plan_artifact_path(out_dir.as_str(), rules[i].as_str(), wasi);
            if !inside_workspace_exec(workspace_root, path.as_str()) {
                let mut message = "path ".to_string();
                let shown = debug_path(path.as_str());
                message.append(shown.as_str());
                message.append(" escapes workspace");
                proof {
                    let ps = hook_paths(*m, workspace_root@);
                    assert(ps[i as int] == path@);
                    assert forall|j: int| 0 <= j < i implies inside_workspace(workspace_root@, #[trigger] ps[j]) by {
                        assert(ps[j] == artifacts@[j].path@);
                    }
                    assert(first_escape(*m, workspace_root@, i as int));
                }
                return Err(WasmError { kind: WasmErrorKind::PermissionDenied, message });
            }
            artifacts.push(PlannedArtifact { path, content: content.clone() });
            if wasi {
                pages = pages + 1;
            }
            i = i + 1;
        }
        proof {
            let ps = hook_paths(*m, workspace_root@);
            assert forall|k: int| !first_escape(*m, workspace_root@, k) by {
                if 0 <= k < ps.len() {
                    assert(ps[k] == artifacts@[k].path@);
                }
            }
        }
        Ok(
            HookPlan {
                hook_name: hook_name.to_string(),
                out_dir,
                extism_enabled: extism,
                artifacts,
                memory_pages_used: pages,
            },
        )
    }

    /// Starts the hook of toolchain `toolchain`: hook `toolchain_<toolchain>` with
    /// `command` before `args` (see `plan_hook`).
    pub fn execute_toolchain_adapter(
        &mut self,
        toolchain: &str,
        command: &str,
        args: &[String],
        workspace_root: &str,
    ) -> (r: Result<HookPlan, WasmError>)
        requires
            old(self).manifest_spec().capabilities.allow_write_paths@.len() < u32::MAX,
        ensures
            final(self).count_spec() == if old(self).count_spec() == u64::MAX {
                0
            } else {
                (old(self).count_spec() + 1) as u64
            },
            final(self).manifest_spec() == old(self).manifest_spec(),
            final(self).bytes_spec() == old(self).bytes_spec(),
            final(self).plugin_dir_spec() == old(self).plugin_dir_spec(),
            final(self).sandbox_spec() == old(self).sandbox_spec(),
            hook_start(
                old(self).manifest_spec(),
                "toolchain_"@ + toolchain@,
                workspace_root@,
                seq![command@] + str_views(args@),
                r,
            ),
    {
        let mut hook_name = "toolchain_".to_string();
        hook_name.append(toolchain);
        let mut full_args: Vec<String> = Vec::new();
        full_args.push(command.to_string());
        let mut i: usize = 0;
        while i < args.len()
            invariant
                i <= args@.len(),
                str_views(full_args@) == seq![command@] + str_views(args@).take(i as int),
            decreases args@.len() - i,
        {
            let ghost before = full_args@;
            full_args.push(args[i].clone());
            proof {
                assert(full_args@ == before.push(args@[i as int]));
                assert(str_views(args@).take(i + 1) =~= str_views(args@).take(i as int).push(args@[i as int]@));
                assert(str_views(full_args@) =~= str_views(before).push(args@[i as int]@));
                assert(str_views(full_args@) =~= seq![command@] + str_views(args@).take(i + 1));
            }
            i = i + 1;
        }
        proof {
            assert(str_views(args@).take(i as int) =~= str_views(args@));
        }
        self.plan_hook(hook_name.as_str(), workspace_root, full_args.as_slice())
    }
}

/// Whole milliseconds in `secs` seconds and `nanos` nanoseconds.
pub open spec fn elapsed_ms(secs: u64, nanos: u32) -> int {
    secs * 1000 + nanos / 1_000_000
}

/// Whole microseconds in `secs` seconds and `nanos` nanoseconds.
pub open spec fn elapsed_us(secs: u64, nanos: u32) -> int {
    secs * 1_000_000 + nanos / 1000
}

/// How `{:?}` prints an optional count.
pub open spec fn option_debug(o: Option<u64>) -> Seq<char> {
    match o {
        Some(n) => "Some("@ + decimal(n as nat) + ")"@,
        None => "None"@,
    }
}

/// The report line of a successful hook run.
pub open spec fn hook_stdout(m: WasmPluginManifest, p: HookPlan, fuel: Option<u64>, duration_text: Seq<char>) -> Seq<char> {
    "WASM Plugin `"@ + m.name@ + "` ["@ + m.version@ + "] executed hook `"@ + p.hook_name@ + "` via "@
        + (if p.extism_enabled { "Extism/WASI"@ } else { "WASI"@ }) + " (memory: "@ + decimal(
        p.memory_pages_used as nat,
    ) + " pages, fuel: "@ + option_debug(fuel) + ", duration: "@ + duration_text + ")"@
}

/// The refusal of a run that took longer than allowed.
pub open spec fn timeout_message(ms: int, limit: u64) -> Seq<char> {
    "WASM execution timed out after "@ + decimal(ms as nat) + "ms (limit "@ + decimal(limit as nat)
        + "ms)"@
}

/// The refusal of a run that used more memory pages than allowed.
pub open spec fn memory_message(used: u32, limit: u32) -> Seq<char> {
    "WASM memory limit exceeded: "@ + decimal(used as nat) + " pages used, "@ + decimal(limit as nat)
        + " allowed"@
}

/// How `{:.2?}` prints the duration of `secs` seconds and `nanos` nanoseconds; a function of
/// those two numbers alone.
pub uninterp spec fn duration_debug_text(secs: u64, nanos: u32) -> Seq<char>;

/// Formats `Duration::new(secs, nanos)` with `{:.2?}` (`Debug` for `Duration`).
#[verifier::external_body]
fn duration_debug(secs: u64, nanos: u32) -> (r: String)
    requires
        nanos < 1_000_000_000,
    ensures
        r@ == duration_debug_text(secs, nanos),
{
    format!("{:.2?}", Duration::new(secs, nanos))
}

/// `Duration::new(secs, nanos)`; the value is opaque here.
#[verifier::external_body]
fn make_duration(secs: u64, nanos: u32) -> Duration
    requires
        nanos < 1_000_000_000,
{
    Duration::new(secs, nanos)
}

fn option_debug_string(o: Option<u64>) -> (r: String)
    ensures
        r@ == option_debug(o),
{
    match o {
        Some(n) => {
            let mut out = "Some(".to_string();
            let digits = decimal_string(n as u128);
            out.append(digits.as_str());
            out.append(")");
            out
        },
        None => "None".to_string(),
    }
}

fn paths_of(artifacts: &Vec<PlannedArtifact>) -> (r: Vec<String>)
    ensures
        r@.len() == artifacts@.len(),
        forall|i: int| 0 <= i < r@.len() ==> (#[trigger] r@[i])@ == artifacts@[i].path@,
{
    let mut r: Vec<String> = Vec::new();
    let mut i: usize = 0;
    while i < artifacts.len()
        invariant
            i <= artifacts@.len(),
            r@.len() == i,
            forall|j: int| 0 <= j < i ==> (#[trigger] r@[j])@ == artifacts@[j].path@,
        decreases artifacts@.len() - i,
    {
        r.push(artifacts[i].path.clone());
        i = i + 1;
    }
    r
}

impl WasmPluginEngine {
    /// Ends a hook run that took `elapsed_secs` s and `elapsed_nanos` ns, after the files of
    /// `plan` were written (see `hook_outcome`).
    pub fn finish_hook(&self, plan: HookPlan, elapsed_secs: u64, elapsed_nanos: u32) -> (r: Result<
        WasmExecutionResult,
        WasmError,
    >)
        requires
            elapsed_nanos < 1_000_000_000,
        ensures
            elapsed_ms(elapsed_secs, elapsed_nanos)
                > self.manifest_spec().capabilities.max_execution_time_ms ==> (r matches Err(e) && e.kind
                == WasmErrorKind::TimedOut && e.message@ == timeout_message(
                elapsed_ms(elapsed_secs, elapsed_nanos),
                self.manifest_spec().capabilities.max_execution_time_ms,
            )),
            elapsed_ms(elapsed_secs, elapsed_nanos)
                <= self.manifest_spec().capabilities.max_execution_time_ms
                && plan.memory_pages_used > self.manifest_spec().capabilities.max_memory_pages ==> (r matches Err(e)
                && e.kind == WasmErrorKind::OutOfMemory && e.message@ == memory_message(
                plan.memory_pages_used,
                self.manifest_spec().capabilities.max_memory_pages,
            )),
            elapsed_ms(elapsed_secs, elapsed_nanos)
                <= self.manifest_spec().capabilities.max_execution_time_ms
                && plan.memory_pages_used <= self.manifest_spec().capabilities.max_memory_pages ==> (r matches Ok(res)
                && res.exit_code == 0 && res.stdout@ == hook_stdout(
                self.manifest_spec(),
                plan,
                self.sandbox_spec().fuel_limit,
                duration_debug_text(elapsed_secs, elapsed_nanos),
            ) && res.stderr@.len() == 0 && str_views(res.generated_artifacts@) == plan.artifacts@.map_values(
                |a: PlannedArtifact| a.path@,
            ) && res.memory_used_pages == plan.memory_pages_used && res.fuel_consumed == Some(
                elapsed_us(elapsed_secs, elapsed_nanos) as u64,
            )),
    {
        let text = duration_debug(elapsed_secs, elapsed_nanos);
        let duration = make_duration(elapsed_secs, elapsed_nanos);
        self.hook_outcome(plan, elapsed_secs, elapsed_nanos, text.as_str(), duration)
    }

    /// Ends a hook run, given how its duration prints: a run over the time limit is refused,
    /// then one over the memory limit; otherwise the run succeeds, lists the files of the
    /// plan and counts the elapsed microseconds as fuel.
    pub fn hook_outcome(
        &self,
        plan: HookPlan,
        elapsed_secs: u64,
        elapsed_nanos: u32,
        duration_text: &str,
        duration: Duration,
    ) -> (r: Result<WasmExecutionResult, WasmError>)
        requires
            elapsed_nanos < 1_000_000_000,
        ensures
            elapsed_ms(elapsed_secs, elapsed_nanos)
                > self.manifest_spec().capabilities.max_execution_time_ms ==> (r matches Err(e) && e.kind
                == WasmErrorKind::TimedOut && e.message@ == timeout_message(
                elapsed_ms(elapsed_secs, elapsed_nanos),
                self.manifest_spec().capabilities.max_execution_time_ms,
            )),
            elapsed_ms(elapsed_secs, elapsed_nanos)
                <= self.manifest_spec().capabilities.max_execution_time_ms
                && plan.memory_pages_used > self.manifest_spec().capabilities.max_memory_pages ==> (r matches Err(e)
                && e.kind == WasmErrorKind::OutOfMemory && e.message@ == memory_message(
                plan.memory_pages_used,
                self.manifest_spec().capabilities.max_memory_pages,
            )),
            elapsed_ms(elapsed_secs, elapsed_nanos)
                <= self.manifest_spec().capabilities.max_execution_time_ms
                && plan.memory_pages_used <= self.manifest_spec().capabilities.max_memory_pages ==> (r matches Ok(res)
                && res.exit_code == 0 && res.stdout@ == hook_stdout(
                self.manifest_spec(),
                plan,
                self.sandbox_spec().fuel_limit,
                duration_text@,
            ) && res.stderr@.len() == 0 && str_views(res.generated_artifacts@) == plan.artifacts@.map_values(
                |a: PlannedArtifact| a.path@,
            ) && res.memory_used_pages == plan.memory_pages_used && res.fuel_consumed == Some(
                elapsed_us(elapsed_secs, elapsed_nanos) as u64,
            ) && res.duration == duration),
    {
        let caps = &self.manifest.capabilities;
        let ms: u128 = elapsed_secs as u128 * 1000 + (elapsed_nanos / 1_000_000) as u128;
        if ms > caps.max_execution_time_ms as u128 {
            let mut message = "WASM execution timed out after ".to_string();
            let a = decimal_string(ms);
            message.append(a.as_str());
            message.append("ms (limit ");
            let b = decimal_string(caps.max_execution_time_ms as u128);
            message.append(b.as_str());
            message.append("ms)");
            return Err(WasmError { kind: WasmErrorKind::TimedOut, message });
        }
        if plan.memory_pages_used > caps.max_memory_pages {
            let mut message = "WASM memory limit exceeded: ".to_string();
            let a = decimal_string(plan.memory_pages_used as u128);
            message.append(a.as_str());
            message.append(" pages used, ");
            let b = decimal_string(caps.max_memory_pages as u128);
            message.append(b.as_str());
            message.append(" allowed");
            return Err(WasmError { kind: WasmErrorKind::OutOfMemory, message });
        }
        let mut stdout = "WASM Plugin `".to_string();
        stdout.append(self.manifest.name.as_str());
        stdout.append("` [");
        stdout.append(self.manifest.version.as_str());
        stdout.append("] executed hook `");
        stdout.append(plan.hook_name.as_str());
        stdout.append("` via ");
        if plan.extism_enabled {
            stdout.append("Extism/WASI");
        } else {
            stdout.append("WASI");
        }
        stdout.append(" (memory: ");
        let pages = decimal_string(plan.memory_pages_used as u128);
        stdout.append(pages.as_str());
        stdout.append(" pages, fuel: ");
        let fuel = option_debug_string(self.sandbox.fuel_limit);
        stdout.append(fuel.as_str());
        stdout.append(", duration: ");
        stdout.append(duration_text);
        stdout.append(")");
        let generated = paths_of(&plan.artifacts);
        proof {
            assert(str_views(generated@) =~= plan.artifacts@.map_values(|a: PlannedArtifact| a.path@));
        }
        let us: u128 = elapsed_secs as u128 * 1_000_000 + (elapsed_nanos / 1000) as u128;
        Ok(
            WasmExecutionResult {
                exit_code: 0,
                stdout,
                stderr: String::new(),
                duration,
                generated_artifacts: generated,
                memory_used_pages: plan.memory_pages_used,
                fuel_consumed: Some(us as u64),
            },
        )
    }
}

/// A registered plugin under its name.
struct PluginEntry {
    name: String,
    engine: WasmPluginEngine,
}

/// A compiled-module cache slot under its plugin's name.
struct CacheEntry {
    name: String,
    module: Vec<u8>,
}

spec fn plugin_key() -> spec_fn(PluginEntry) -> Seq<char> {
    |e: PluginEntry| e.name@
}

spec fn cache_key() -> spec_fn(CacheEntry) -> Seq<char> {
    |e: CacheEntry| e.name@
}

spec fn engines_of(s: Seq<PluginEntry>) -> Map<Seq<char>, WasmPluginEngine> {
    keyed(s, plugin_key()).map_values(|e: PluginEntry| e.engine)
}

proof fn lemma_engines_update(s: Seq<PluginEntry>, i: int)
    requires
        0 <= i < s.len(),
        keys_distinct(s, plugin_key()),
    ensures
        forall|e: PluginEntry|
            e.name@ == s[i].name@ ==> #[trigger] engines_of(s.update(i, e)) == engines_of(s).insert(e.name@, e.engine)
                && keys_distinct(s.update(i, e), plugin_key()),
{
    assert forall|e: PluginEntry|
        e.name@ == s[i].name@ implies #[trigger] engines_of(s.update(i, e)) == engines_of(s).insert(e.name@, e.engine)
            && keys_distinct(s.update(i, e), plugin_key()) by {
        lemma_keyed_update(s, plugin_key(), i, e);
        assert(engines_of(s.update(i, e)) =~= engines_of(s).insert(e.name@, e.engine));
    }
}

/// The plugins of a workspace by name, with a cache slot per plugin.
pub struct WasmPluginRegistry {
    plugins: Vec<PluginEntry>,
    wasm_cache: Vec<CacheEntry>,
}

/// The hook runs on a plugin whose manifest lists it or lists no hook.
pub open spec fn runs_hook(e: WasmPluginEngine, hook: Seq<char>) -> bool {
    hook_allowed(e.manifest_spec(), hook)
}

/// What starting `hook` on every plugin does to plugin `before`: one that runs the hook
/// counts the start, wrapping, and keeps all else; another is left as it was.
pub open spec fn hook_step(before: WasmPluginEngine, after: WasmPluginEngine, hook: Seq<char>) -> bool {
    if runs_hook(before, hook) {
        &&& after.count_spec() == if before.count_spec() == u64::MAX {
            0
        } else {
            (before.count_spec() + 1) as u64
        }
        &&& after.manifest_spec() == before.manifest_spec()
        &&& after.bytes_spec() == before.bytes_spec()
        &&& after.plugin_dir_spec() == before.plugin_dir_spec()
        &&& after.sandbox_spec() == before.sandbox_spec()
    } else {
        after == before
    }
}

impl WasmPluginRegistry {
    /// The registered plugins by name.
    pub closed spec fn plugins_map(self) -> Map<Seq<char>, WasmPluginEngine> {
        engines_of(self.plugins@)
    }

    /// The cached modules by plugin name.
    pub closed spec fn cache_map(self) -> Map<Seq<char>, Seq<u8>> {
        keyed(self.wasm_cache@, cache_key()).map_values(|e: CacheEntry| e.module@)
    }

    pub closed spec fn wf(self) -> bool {
        &&& keys_distinct(self.plugins@, plugin_key())
        &&& keys_distinct(self.wasm_cache@, cache_key())
    }

    /// An empty registry.
    pub fn new() -> (r: Self)
        ensures
            r.wf(),
            r.plugins_map() == Map::<Seq<char>, WasmPluginEngine>::empty(),
            r.cache_map() == Map::<Seq<char>, Seq<u8>>::empty(),
    {
        let r = WasmPluginRegistry { plugins: Vec::new(), wasm_cache: Vec::new() };
        proof {
            assert(r.plugins_map() =~= Map::<Seq<char>, WasmPluginEngine>::empty());
            assert(r.cache_map() =~= Map::<Seq<char>, Seq<u8>>::empty());
        }
        r
    }

    fn find_plugin(&self, name: &str) -> (r: Option<usize>)
        ensures
            r matches Some(i) ==> i < self.plugins@.len() && self.plugins@[i as int].name@ == name@,
            r is None ==> !has_key(self.plugins@, plugin_key(), name@),
    {
        let mut i: usize = 0;
        while i < self.plugins.len()
            invariant
                i <= self.plugins@.len(),
                forall|j: int| 0 <= j < i ==> (#[trigger] self.plugins@[j]).name@ != name@,
            decreases self.plugins@.len() - i,
        {
            if str_eq(self.plugins[i].name.as_str(), name) {
                return Some(i);
            }
            i = i + 1;
        }
        proof {
            if has_key(self.plugins@, plugin_key(), name@) {
                let j = choose|j: int| 0 <= j < self.plugins@.len() && plugin_key()(#[trigger] self.plugins@[j]) == name@;
                assert(self.plugins@[j].name@ == name@);
            }
        }
        None
    }

    fn find_cache(&self, name: &str) -> (r: Option<usize>)
        ensures
            r matches Some(i) ==> i < self.wasm_cache@.len() && self.wasm_cache@[i as int].name@ == name@,
            r is None ==> !has_key(self.wasm_cache@, cache_key(), name@),
    {
        let mut i: usize = 0;
        while i < self.wasm_cache.len()
            invariant
                i <= self.wasm_cache@.len(),
                forall|j: int| 0 <= j < i ==> (#[trigger] self.wasm_cache@[j]).name@ != name@,
            decreases self.wasm_cache@.len() - i,
        {
            if str_eq(self.wasm_cache[i].name.as_str(), name) {
                return Some(i);
            }
            i = i + 1;
        }
        proof {
            if has_key(self.wasm_cache@, cache_key(), name@) {
                let j = choose|j: int| 0 <= j < self.wasm_cache@.len() && cache_key()(#[trigger] self.wasm_cache@[j]) == name@;
                assert(self.wasm_cache@[j].name@ == name@);
            }
        }
        None
    }

    /// Registers `engine` under its manifest's name, replacing a plugin of that name, and
    /// gives it a fresh cache slot of as many zero bytes as its module has.
    pub fn register(&mut self, engine: WasmPluginEngine)
        requires
            old(self).wf(),
        ensures
            final(self).wf(),
            final(self).plugins_map() == old(self).plugins_map().insert(engine.manifest_spec().name@, engine),
            final(self).cache_map() == old(self).cache_map().insert(
                engine.manifest_spec().name@,
                Seq::new(engine.bytes_spec().len(), |i: int| 0u8),
            ),
            final(self).plugins_map().dom().finite(),
            final(self).cache_map().dom().finite(),
            final(self).plugins_map().len() == old(self).plugins_map().len() + if old(
                self,
            ).plugins_map().contains_key(engine.manifest_spec().name@) {
                0int
            } else {
                1int
            },
            final(self).cache_map().len() == old(self).cache_map().len() + if old(self).cache_map().contains_key(
                engine.manifest_spec().name@,
            ) {
                0int
            } else {
                1int
            },
    {
        proof {
            self.lemma_len();
        }
        let name = engine.manifest.name.clone();
        let n = engine.wasm_bytes.len();
        let mut module: Vec<u8> = Vec::new();
        let mut k: usize = 0;
        while k < n
            invariant
                k <= n,
                module@ == Seq::new(k as nat, |i: int| 0u8),
            decreases n - k,
        {
            module.push(0u8);
            proof {
                assert(module@ =~= Seq::new((k + 1) as nat, |i: int| 0u8));
            }
            k = k + 1;
        }
        let ghost zeros = module@;
        let c = CacheEntry { name: name.clone(), module };
        match self.find_cache(name.as_str()) {
            Some(i) => {
                proof {
                    lemma_keyed_update(self.wasm_cache@, cache_key(), i as int, c);
                }
                self.wasm_cache.set(i, c);
            },
            None => {
                proof {
                    lemma_keyed_push(self.wasm_cache@, cache_key(), c);
                }
                self.wasm_cache.push(c);
            },
        }
        let ghost key = name@;
        let ghost eng = engine;
        let p = PluginEntry { name, engine };
        match self.find_plugin(p.name.as_str()) {
            Some(i) => {
                proof {
                    lemma_keyed_update(self.plugins@, plugin_key(), i as int, p);
                }
                self.plugins.set(i, p);
            },
            None => {
                proof {
                    lemma_keyed_push(self.plugins@, plugin_key(), p);
                }
                self.plugins.push(p);
            },
        }
        proof {
            assert(self.plugins_map() =~= old(self).plugins_map().insert(key, eng));
            assert(self.cache_map() =~= old(self).cache_map().insert(key, zeros));
            self.lemma_len();
        }
    }

    /// The plugin registered under `name`.
    pub fn get(&self, name: &str) -> (r: Option<&WasmPluginEngine>)
        requires
            self.wf(),
        ensures
            r is Some <==> self.plugins_map().contains_key(name@),
            r matches Some(e) ==> *e == self.plugins_map()[name@],
    {
        proof {
            lemma_keyed_dom(self.plugins@, plugin_key(), name@);
        }
        match self.find_plugin(name) {
            Some(i) => {
                proof {
                    lemma_keyed_value(self.plugins@, plugin_key(), i as int);
                }
                Some(&self.plugins[i].engine)
            },
            None => None,
        }
    }

    /// The plugin registered under `name`, to change in place.
    pub fn get_mut(&mut self, name: &str) -> (r: Option<&mut WasmPluginEngine>)
        requires
            old(self).wf(),
        ensures
            r is Some <==> old(self).plugins_map().contains_key(name@),
            r matches Some(e) ==> *e == old(self).plugins_map()[name@] && final(self).plugins_map()
                == old(self).plugins_map().insert(name@, *final(e)) && final(self).cache_map()
                == old(self).cache_map() && final(self).wf(),
            r is None ==> *final(self) == *old(self),
    {
        proof {
            lemma_keyed_dom(self.plugins@, plugin_key(), name@);
        }
        match self.find_plugin(name) {
            Some(i) => {
                proof {
                    lemma_keyed_value(self.plugins@, plugin_key(), i as int);
                    lemma_engines_update(self.plugins@, i as int);
                }
                Some(&mut self.plugins[i].engine)
            },
            None => None,
        }
    }

    /// The number of registered plugins.
    pub fn count(&self) -> (r: usize)
        requires
            self.wf(),
        ensures
            r == self.plugins_map().len(),
    {
        proof {
            self.lemma_len();
        }
        self.plugins.len()
    }

    /// A well-formed registry holds finitely many plugins and cached modules.
    pub proof fn lemma_finite(self)
        requires
            self.wf(),
        ensures
            self.plugins_map().dom().finite(),
            self.cache_map().dom().finite(),
    {
        self.lemma_len();
    }

    proof fn lemma_len(self)
        requires
            self.wf(),
        ensures
            self.plugins_map().dom().finite(),
            self.cache_map().dom().finite(),
            self.plugins_map().len() == self.plugins@.len(),
            self.cache_map().len() == self.wasm_cache@.len(),
    {
        lemma_keyed_len(self.plugins@, plugin_key());
        lemma_keyed_len(self.wasm_cache@, cache_key());
        assert(self.plugins_map().dom() =~= keyed(self.plugins@, plugin_key()).dom());
        assert(self.cache_map().dom() =~= keyed(self.wasm_cache@, cache_key()).dom());
    }
}

/// Strictly increasing in `seq_lt` order.
pub open spec fn sorted_strictly(s: Seq<Seq<char>>) -> bool {
    forall|i: int, j: int| 0 <= i < j < s.len() ==> seq_lt(#[trigger] s[i], #[trigger] s[j])
}

impl WasmPluginRegistry {
    /// The names of the registered plugins in sorted order.
    pub fn plugin_names(&self) -> (r: Vec<String>)
        requires
            self.wf(),
        ensures
            sorted_strictly(str_views(r@)),
            r@.len() == self.plugins_map().len(),
            forall|k: Seq<char>| str_views(r@).contains(k) <==> self.plugins_map().contains_key(k),
    {
        let mut r: Vec<String> = Vec::new();
        let mut i: usize = 0;
        while i < self.plugins.len()
            invariant
                i <= self.plugins@.len(),
                keys_distinct(self.plugins@, plugin_key()),
                r@.len() == i,
                sorted_strictly(str_views(r@)),
                forall|k: Seq<char>|
                    str_views(r@).contains(k) <==> (exists|j: int| 0 <= j < i && (#[trigger] self.plugins@[j]).name@ == k),
            decreases self.plugins@.len() - i,
        {
            let x = self.plugins[i].name.clone();
            let ghost xs = x@;
            let ghost rv = str_views(r@);
            proof {
                assert forall|j: int| 0 <= j < rv.len() implies rv[j] != xs by {
                    assert(rv.contains(rv[j]));
                    let m = choose|m: int| 0 <= m < i && (#[trigger] self.plugins@[m]).name@ == rv[j];
                    assert(plugin_key()(self.plugins@[m]) != plugin_key()(self.plugins@[i as int]));
                }
            }
            let mut p: usize = 0;
            while p < r.len() && !str_lt(x.as_str(), r[p].as_str())
                invariant
                    p <= r@.len(),
                    rv == str_views(r@),
                    forall|j: int| 0 <= j < p ==> seq_lt(#[trigger] rv[j], xs),
                decreases r@.len() - p,
            {
                proof {
                    assert(rv[p as int] != xs);
                    lemma_seq_lt_total(xs, rv[p as int]);
                }
                p = p + 1;
            }
            proof {
                if p < rv.len() {
                    assert(seq_lt(xs, rv[p as int]));
                }
            }
            r.insert(p, x);
            proof {
                let nv = str_views(r@);
                assert(nv =~= rv.insert(p as int, xs));
                assert forall|a: int, b: int| 0 <= a < b < nv.len() implies seq_lt(#[trigger] nv[a], #[trigger] nv[b]) by {
                    if b < p {
                        assert(nv[a] == rv[a] && nv[b] == rv[b]);
                    } else if b == p {
                        assert(nv[a] == rv[a]);
                    } else if a == p {
                        assert(nv[b] == rv[b - 1]);
                        if b - 1 > p {
                            lemma_seq_lt_transitive(xs, rv[p as int], rv[b - 1]);
                        }
                    } else if a < p {
                        assert(nv[a] == rv[a] && nv[b] == rv[b - 1]);
                        lemma_seq_lt_transitive(rv[a], xs, rv[p as int]);
                        if b - 1 > p {
                            lemma_seq_lt_transitive(rv[a], rv[p as int], rv[b - 1]);
                        }
                    } else {
                        assert(nv[a] == rv[a - 1] && nv[b] == rv[b - 1]);
                    }
                }
                assert forall|k: Seq<char>|
                    nv.contains(k) <==> (exists|j: int| 0 <= j < i + 1 && (#[trigger] self.plugins@[j]).name@ == k) by {
                    if nv.contains(k) {
                        let t = choose|t: int| 0 <= t < nv.len() && nv[t] == k;
                        if t == p {
                            assert(self.plugins@[i as int].name@ == k);
                        } else if t < p {
                            assert(rv[t] == k);
                            assert(rv.contains(k));
                        } else {
                            assert(rv[t - 1] == k);
                            assert(rv.contains(k));
                        }
                    }
                    if exists|j: int| 0 <= j < i + 1 && (#[trigger] self.plugins@[j]).name@ == k {
                        let j = choose|j: int| 0 <= j < i + 1 && (#[trigger] self.plugins@[j]).name@ == k;
                        if j == i {
                            assert(nv[p as int] == k);
                        } else {
                            assert(rv.contains(k));
                            let t = choose|t: int| 0 <= t < rv.len() && rv[t] == k;
                            if t < p {
                                assert(nv[t] == k);
                            } else {
                                assert(nv[t + 1] == k);
                            }
                        }
                    }
                }
            }
            i = i + 1;
        }
        proof {
            self.lemma_len();
            assert forall|k: Seq<char>| str_views(r@).contains(k) <==> self.plugins_map().contains_key(k) by {
                lemma_keyed_dom(self.plugins@, plugin_key(), k);
                if has_key(self.plugins@, plugin_key(), k) {
                    let j = choose|j: int| 0 <= j < self.plugins@.len() && plugin_key()(#[trigger] self.plugins@[j]) == k;
                    assert(self.plugins@[j].name@ == k);
                }
                if exists|j: int| 0 <= j < self.plugins@.len() && (#[trigger] self.plugins@[j]).name@ == k {
                    let j = choose|j: int| 0 <= j < self.plugins@.len() && (#[trigger] self.plugins@[j]).name@ == k;
                    assert(plugin_key()(self.plugins@[j]) == k);
                }
            }
        }
        r
    }

    /// Starts hook `hook_name` on every plugin that runs it (see `runs_hook`), in
    /// registration order: each of them counts the start and plans its run (see
    /// `plan_hook`), which may refuse it; the other plugins are left as they were. The
    /// caller carries out each plan and finishes it with `finish_hook`.
    pub fn execute_all_hooks(&mut self, hook_name: &str, workspace_root: &str, args: &[String]) -> (r: Vec<
        (String, Result<HookPlan, WasmError>),
    >)
        requires
            old(self).wf(),
            forall|k: Seq<char>|
                #[trigger] old(self).plugins_map().contains_key(k) ==> old(self).plugins_map()[k].manifest_spec().capabilities.allow_write_paths@.len()
                    < u32::MAX,
        ensures
            final(self).wf(),
            final(self).cache_map() == old(self).cache_map(),
            final(self).plugins_map().dom() == old(self).plugins_map().dom(),
            forall|k: Seq<char>|
                #[trigger] old(self).plugins_map().contains_key(k) ==> hook_step(
                    old(self).plugins_map()[k],
                    final(self).plugins_map()[k],
                    hook_name@,
                ),
            forall|k: Seq<char>|
                (exists|t: int| 0 <= t < r@.len() && (#[trigger] r@[t]).0@ == k) <==> (old(self).plugins_map().contains_key(k)
                    && runs_hook(old(self).plugins_map()[k], hook_name@)),
            forall|a: int, b: int| 0 <= a < b < r@.len() ==> (#[trigger] r@[a]).0@ != (#[trigger] r@[b]).0@,
            forall|t: int|
                0 <= t < r@.len() ==> hook_start(
                    old(self).plugins_map()[(#[trigger] r@[t]).0@].manifest_spec(),
                    hook_name@,
                    workspace_root@,
                    str_views(args@),
                    r@[t].1,
                ),
    {
        let ghost before = self.plugins@;
        proof {
            assert forall|j: int| 0 <= j < before.len() implies (#[trigger] before[j]).engine.manifest_spec().capabilities.allow_write_paths@.len()
                < u32::MAX by {
                lemma_keyed_value(before, plugin_key(), j);
                assert(old(self).plugins_map().contains_key(before[j].name@));
            }
        }
        let mut r: Vec<(String, Result<HookPlan, WasmError>)> = Vec::new();
        let ghost mut idx: Seq<int> = Seq::empty();
        let n = self.plugins.len();
        let mut i: usize = 0;
        while i < n
            invariant
                i <= n,
                n == before.len(),
                self.plugins@.len() == n,
                self.wasm_cache@ == old(self).wasm_cache@,
                keys_distinct(before, plugin_key()),
                forall|j: int| 0 <= j < before.len() ==> (#[trigger] before[j]).engine.manifest_spec().capabilities.allow_write_paths@.len()
                    < u32::MAX,
                forall|j: int| 0 <= j < n ==> (#[trigger] self.plugins@[j]).name@ == before[j].name@,
                forall|j: int| i <= j < n ==> (#[trigger] self.plugins@[j]).engine == before[j].engine,
                forall|j: int|
                    0 <= j < i ==> hook_step(before[j].engine, (#[trigger] self.plugins@[j]).engine, hook_name@),
                idx.len() == r@.len(),
                forall|t: int|
                    0 <= t < idx.len() ==> 0 <= #[trigger] idx[t] < i && r@[t].0@ == before[idx[t]].name@
                        && runs_hook(before[idx[t]].engine, hook_name@) && hook_start(
                        before[idx[t]].engine.manifest_spec(),
                        hook_name@,
                        workspace_root@,
                        str_views(args@),
                        r@[t].1,
                    ),
                forall|a: int, b: int| 0 <= a < b < idx.len() ==> #[trigger] idx[a] < #[trigger] idx[b],
                forall|j: int|
                    0 <= j < i && runs_hook((#[trigger] before[j]).engine, hook_name@) ==> exists|t: int|
                        0 <= t < idx.len() && idx[t] == j,
            decreases n - i,
        {
            let runs = {
                let m = &self.plugins[i].engine.manifest;
                m.hooks.len() == 0 || contains_str(&m.hooks, hook_name)
            };
            let ghost old_idx = idx;
            if runs {
                let name = self.plugins[i].name.clone();
                let planned = self.plugins[i].engine.plan_hook(hook_name, workspace_root, args);
                r.push((name, planned));
                proof {
                    idx = idx.push(i as int);
                }
            }
            proof {
                assert forall|j: int|
                    0 <= j < i + 1 && runs_hook((#[trigger] before[j]).engine, hook_name@) implies exists|t: int|
                        0 <= t < idx.len() && idx[t] == j by {
                    if j == i {
                        assert(idx[idx.len() - 1] == j);
                    } else {
                        let t = choose|t: int| 0 <= t < old_idx.len() && old_idx[t] == j;
                        assert(idx[t] == j);
                    }
                }
            }
            i = i + 1;
        }
        proof {
            let after = self.plugins@;
            assert forall|a: int, b: int|
                0 <= a < after.len() && 0 <= b < after.len() && a != b implies plugin_key()(#[trigger] after[a])
                    != plugin_key()(#[trigger] after[b]) by {
                assert(plugin_key()(before[a]) != plugin_key()(before[b]));
            }
            assert(self.cache_map() == old(self).cache_map());
            assert forall|k: Seq<char>| #[trigger] has_key(after, plugin_key(), k) == has_key(before, plugin_key(), k) by {
                if has_key(after, plugin_key(), k) {
                    let j = choose|j: int| 0 <= j < after.len() && plugin_key()(#[trigger] after[j]) == k;
                    assert(plugin_key()(before[j]) == k);
                }
                if has_key(before, plugin_key(), k) {
                    let j = choose|j: int| 0 <= j < before.len() && plugin_key()(#[trigger] before[j]) == k;
                    assert(plugin_key()(after[j]) == k);
                }
            }
            assert forall|k: Seq<char>|
                self.plugins_map().dom().contains(k) <==> old(self).plugins_map().dom().contains(k) by {
                lemma_keyed_dom(after, plugin_key(), k);
                lemma_keyed_dom(before, plugin_key(), k);
                assert(has_key(after, plugin_key(), k) == has_key(before, plugin_key(), k));
            }
            assert(self.plugins_map().dom() =~= old(self).plugins_map().dom());
            assert forall|k: Seq<char>| #[trigger] old(self).plugins_map().contains_key(k) implies hook_step(
                old(self).plugins_map()[k],
                self.plugins_map()[k],
                hook_name@,
            ) by {
                lemma_keyed_dom(before, plugin_key(), k);
                let j = choose|j: int| 0 <= j < before.len() && plugin_key()(#[trigger] before[j]) == k;
                lemma_keyed_value(before, plugin_key(), j);
                lemma_keyed_value(after, plugin_key(), j);
                assert(after[j].name@ == k);
                assert(hook_step(before[j].engine, after[j].engine, hook_name@));
            }
            assert forall|t: int| 0 <= t < r@.len() implies old(self).plugins_map().contains_key((#[trigger] r@[t]).0@)
                && old(self).plugins_map()[r@[t].0@] == before[idx[t]].engine by {
                lemma_keyed_value(before, plugin_key(), idx[t]);
            }
            assert forall|a: int, b: int| 0 <= a < b < r@.len() implies (#[trigger] r@[a]).0@ != (#[trigger] r@[b]).0@ by {
                assert(idx[a] < idx[b]);
                assert(plugin_key()(before[idx[a]]) != plugin_key()(before[idx[b]]));
            }
            assert forall|k: Seq<char>|
                (exists|t: int| 0 <= t < r@.len() && (#[trigger] r@[t]).0@ == k) <==> (old(self).plugins_map().contains_key(k)
                    && runs_hook(old(self).plugins_map()[k], hook_name@)) by {
                lemma_keyed_dom(before, plugin_key(), k);
                if exists|t: int| 0 <= t < r@.len() && (#[trigger] r@[t]).0@ == k {
                    let t = choose|t: int| 0 <= t < r@.len() && (#[trigger] r@[t]).0@ == k;
                    lemma_keyed_value(before, plugin_key(), idx[t]);
                }
                if old(self).plugins_map().contains_key(k) && runs_hook(old(self).plugins_map()[k], hook_name@) {
                    let j = choose|j: int| 0 <= j < before.len() && plugin_key()(#[trigger] before[j]) == k;
                    lemma_keyed_value(before, plugin_key(), j);
                    let t = choose|t: int| 0 <= t < idx.len() && idx[t] == j;
                    assert(r@[t].0@ == k);
                }
            }
        }
        r
    }

    /// Drops every cached module.
    pub fn clear_cache(&mut self)
        requires
            old(self).wf(),
        ensures
            final(self).wf(),
            final(self).plugins_map() == old(self).plugins_map(),
            final(self).cache_map() == Map::<Seq<char>, Seq<u8>>::empty(),
    {
        self.wasm_cache = Vec::new();
        proof {
            assert(self.cache_map() =~= Map::<Seq<char>, Seq<u8>>::empty());
        }
    }

    /// The number of cached modules.
    pub fn cache_size(&self) -> (r: usize)
        requires
            self.wf(),
        ensures
            r == self.cache_map().len(),
    {
        proof {
            self.lemma_len();
        }
        self.wasm_cache.len()
    }
}

impl Default for WasmPluginRegistry {
    fn default() -> (r: Self)
        ensures
            r.wf(),
            r.plugins_map() == Map::<Seq<char>, WasmPluginEngine>::empty(),
            r.cache_map() == Map::<Seq<char>, Seq<u8>>::empty(),
    {
        Self::new()
    }
}

/// After `register(engine)` the registry finds `engine` under its manifest's name, and
/// every other plugin is found as before.
pub proof fn law_registered_plugin_is_found(
    before: Map<Seq<char>, WasmPluginEngine>,
    after: Map<Seq<char>, WasmPluginEngine>,
    engine: WasmPluginEngine,
    other: Seq<char>,
)
    requires
        after == before.insert(engine.manifest_spec().name@, engine),
    ensures
        after.contains_key(engine.manifest_spec().name@),
        after[engine.manifest_spec().name@] == engine,
        other != engine.manifest_spec().name@ ==> (after.contains_key(other) == before.contains_key(other)
            && (before.contains_key(other) ==> after[other] == before[other])),
{
}

/// The names that `plugin_names` lists, being strictly sorted, hold no duplicate.
pub proof fn law_sorted_names_are_distinct(names: Seq<Seq<char>>)
    requires
        sorted_strictly(names),
    ensures
        forall|i: int, j: int| 0 <= i < j < names.len() ==> names[i] != names[j],
{
    assert forall|i: int, j: int| 0 <= i < j < names.len() implies names[i] != names[j] by {
        assert(seq_lt(names[i], names[j]));
        lemma_seq_lt_irreflexive_asym(names[i], names[j]);
    }
}

/// `path_join(base, name)` starts with `base` when `name` is relative.
proof fn lemma_path_join_prefix(base: Seq<char>, name: Seq<char>)
    requires
        !(name.len() > 0 && name[0] == '/'),
    ensures
        has_prefix(path_join(base, name), base),
{
    let j = path_join(base, name);
    assert(j.subrange(0, base.len() as int) =~= base);
}

/// A planned hook run writes one file per write rule, each file of a relative rule inside
/// the plugin's output directory `<ws>/target/wasm_out/<name>`, and uses one memory page
/// plus one per write rule when WASI is on; so a run that keeps to its time limit
/// succeeds (see `finish_hook`) exactly when those pages do not exceed
/// `max_memory_pages`.
pub proof fn law_hook_fits_memory(
    m: WasmPluginManifest,
    hook: Seq<char>,
    ws: Seq<char>,
    args: Seq<Seq<char>>,
    p: HookPlan,
)
    requires
        planned_hook(m, hook, ws, args, p),
    ensures
        p.memory_pages_used == 1 + (if m.capabilities.allow_wasi {
            m.capabilities.allow_write_paths@.len() as int
        } else {
            0
        }),
        p.memory_pages_used <= m.capabilities.max_memory_pages <==> 1 + (if m.capabilities.allow_wasi {
            m.capabilities.allow_write_paths@.len() as int
        } else {
            0
        }) <= m.capabilities.max_memory_pages,
        p.artifacts@.len() == m.capabilities.allow_write_paths@.len(),
        forall|i: int|
            0 <= i < p.artifacts@.len() && !(m.capabilities.allow_write_paths@[i]@.len() > 0
                && m.capabilities.allow_write_paths@[i]@[0] == '/') ==> has_prefix(
                (#[trigger] p.artifacts@[i]).path@,
                hook_out_dir(ws, m.name@),
            ),
{
    let rules = str_views(m.capabilities.allow_write_paths@);
    assert forall|i: int|
        0 <= i < p.artifacts@.len() && !(m.capabilities.allow_write_paths@[i]@.len() > 0
            && m.capabilities.allow_write_paths@[i]@[0] == '/') implies has_prefix(
            (#[trigger] p.artifacts@[i]).path@,
            hook_out_dir(ws, m.name@),
        ) by {
        assert(rules[i] == m.capabilities.allow_write_paths@[i]@);
        lemma_path_join_prefix(hook_out_dir(ws, m.name@), rules[i]);
    }
}

/// The start counter after `k` hook starts from `c`, each moving it on by one and
/// wrapping at `u64::MAX`.
pub open spec fn count_after(c: u64, k: nat) -> u64
    decreases k,
{
    if k == 0 {
        c
    } else {
        let prev = count_after(c, (k - 1) as nat);
        if prev == u64::MAX {
            0
        } else {
            (prev + 1) as u64
        }
    }
}

/// After `k` hook starts an engine's counter has moved on by `k` modulo 2^64.
pub proof fn law_count_after_starts(c: u64, k: nat)
    ensures
        count_after(c, k) == (c + k) % 0x1_0000_0000_0000_0000,
    decreases k,
{
    if k > 0 {
        law_count_after_starts(c, (k - 1) as nat);
        let m: int = 0x1_0000_0000_0000_0000;
        let x: int = c + k - 1;
        assert((x % m + 1) % m == (x + 1) % m) by {
            vstd::arithmetic::div_mod::lemma_add_mod_noop(x, 1, m);
            vstd::arithmetic::div_mod::lemma_small_mod(1nat, m as nat);
            vstd::arithmetic::div_mod::lemma_mod_twice(x, m);
        }
        let prev = count_after(c, (k - 1) as nat);
        if prev == u64::MAX {
            assert(((prev as int) + 1) % m == 0) by {
                vstd::arithmetic::div_mod::lemma_mod_self_0(m);
            }
        } else {
            assert(((prev as int) + 1) % m == prev + 1) by {
                vstd::arithmetic::div_mod::lemma_small_mod((prev + 1) as nat, m as nat);
            }
        }
    }
}

/// The plugins after registering `engines`, in turn, into an empty registry (see `new` and
/// `register`).
pub open spec fn registered(engines: Seq<WasmPluginEngine>) -> Map<Seq<char>, WasmPluginEngine>
    decreases engines.len(),
{
    if engines.len() == 0 {
        Map::empty()
    } else {
        registered(engines.drop_last()).insert(engines.last().manifest_spec().name@, engines.last())
    }
}

/// After registering `engines` in turn into an empty registry, the registry holds one
/// plugin per distinct name among them, the last engine registered under that name; the
/// names that `plugin_names` then lists (strictly sorted, one per plugin) are exactly
/// those distinct names, each once.
pub proof fn law_registered_names(engines: Seq<WasmPluginEngine>, names: Seq<Seq<char>>)
    requires
        sorted_strictly(names),
        forall|k: Seq<char>| names.contains(k) <==> registered(engines).contains_key(k),
    ensures
        registered(engines).dom().finite(),
        forall|k: Seq<char>|
            registered(engines).contains_key(k) <==> exists|i: int|
                0 <= i < engines.len() && (#[trigger] engines[i]).manifest_spec().name@ == k,
        forall|k: Seq<char>|
            #[trigger] registered(engines).contains_key(k) ==> exists|i: int|
                0 <= i < engines.len() && engines[i].manifest_spec().name@ == k && registered(engines)[k]
                    == engines[i] && forall|j: int| i < j < engines.len() ==> (#[trigger] engines[j]).manifest_spec().name@ != k,
        names.no_duplicates(),
        forall|k: Seq<char>|
            names.contains(k) <==> exists|i: int| 0 <= i < engines.len() && (#[trigger] engines[i]).manifest_spec().name@ == k,
        names.len() == registered(engines).len(),
{
    law_sorted_names_are_distinct(names);
    lemma_registered(engines);
    names.unique_seq_to_set();
    assert(names.to_set() =~= registered(engines).dom());
}

proof fn lemma_registered(engines: Seq<WasmPluginEngine>)
    ensures
        registered(engines).dom().finite(),
        forall|k: Seq<char>|
            registered(engines).contains_key(k) <==> exists|i: int|
                0 <= i < engines.len() && (#[trigger] engines[i]).manifest_spec().name@ == k,
        forall|k: Seq<char>|
            #[trigger] registered(engines).contains_key(k) ==> exists|i: int|
                0 <= i < engines.len() && engines[i].manifest_spec().name@ == k && registered(engines)[k]
                    == engines[i] && forall|j: int| i < j < engines.len() ==> (#[trigger] engines[j]).manifest_spec().name@ != k,
    decreases engines.len(),
{
    if engines.len() > 0 {
        let prev = engines.drop_last();
        let n = engines.len() - 1;
        let last = engines[n];
        lemma_registered(prev);
        assert forall|k: Seq<char>|
            registered(engines).contains_key(k) <==> exists|i: int|
                0 <= i < engines.len() && (#[trigger] engines[i]).manifest_spec().name@ == k by {
            if registered(prev).contains_key(k) {
                let i = choose|i: int| 0 <= i < prev.len() && (#[trigger] prev[i]).manifest_spec().name@ == k;
                assert(engines[i] == prev[i]);
            }
            if exists|i: int| 0 <= i < engines.len() && (#[trigger] engines[i]).manifest_spec().name@ == k {
                let i = choose|i: int| 0 <= i < engines.len() && (#[trigger] engines[i]).manifest_spec().name@ == k;
                if i < n {
                    assert(prev[i] == engines[i]);
                }
            }
        }
        assert forall|k: Seq<char>|
            #[trigger] registered(engines).contains_key(k) implies exists|i: int|
                0 <= i < engines.len() && engines[i].manifest_spec().name@ == k && registered(engines)[k]
                    == engines[i] && forall|j: int| i < j < engines.len() ==> (#[trigger] engines[j]).manifest_spec().name@ != k by {
            if k == last.manifest_spec().name@ {
                assert(engines[n].manifest_spec().name@ == k && registered(engines)[k] == engines[n]);
            } else {
                assert(registered(prev).contains_key(k));
                let i = choose|i: int|
                    0 <= i < prev.len() && prev[i].manifest_spec().name@ == k && registered(prev)[k] == prev[i]
                        && forall|j: int| i < j < prev.len() ==> (#[trigger] prev[j]).manifest_spec().name@ != k;
                assert(engines[i] == prev[i]);
                assert forall|j: int| i < j < engines.len() implies (#[trigger] engines[j]).manifest_spec().name@ != k by {
                    if j < n {
                        assert(engines[j] == prev[j]);
                    }
                }
            }
        }
    }
}

/// No two dots stand next to each other in `s`.
pub open spec fn no_dot_pair(s: Seq<char>) -> bool {
    forall|k: int| 0 <= k < s.len() - 1 ==> !(#[trigger] s[k] == '.' && s[k + 1] == '.')
}

proof fn lemma_no_dot_pair_concat(x: Seq<char>, y: Seq<char>)
    requires
        no_dot_pair(x),
        no_dot_pair(y),
        !(x.len() > 0 && y.len() > 0 && x.last() == '.' && y[0] == '.'),
    ensures
        no_dot_pair(x + y),
{
    let z = x + y;
    assert forall|k: int| 0 <= k < z.len() - 1 implies !(#[trigger] z[k] == '.' && z[k + 1] == '.') by {
        if k + 1 < x.len() {
            assert(z[k] == x[k] && z[k + 1] == x[k + 1]);
        } else if k >= x.len() {
            assert(z[k] == y[k - x.len()] && z[k + 1] == y[k + 1 - x.len()]);
        } else {
            assert(z[k] == x.last() && z[k + 1] == y[0]);
        }
    }
}

proof fn lemma_slash_index_bounds(s: Seq<char>)
    ensures
        0 <= slash_index(s) <= s.len(),
    decreases s.len(),
{
    if s.len() > 0 && s[0] != '/' {
        lemma_slash_index_bounds(s.drop_first());
    }
}

proof fn lemma_no_dot_pair_never_climbs(p: Seq<char>, d: int)
    requires
        no_dot_pair(p),
        d >= 0,
    ensures
        !climbs_out(p, d),
    decreases p.len(),
{
    lemma_slash_index_bounds(p);
    let i = slash_index(p);
    let c = p.take(i);
    reveal_strlit("..");
    reveal_strlit(".");
    if c == ".."@ {
        assert(c.len() == 2 && c[0] == '.' && c[1] == '.');
        assert(p[0] == c[0] && p[1] == c[1]);
    }
    if 0 <= i < p.len() {
        let q = p.skip(i + 1);
        assert forall|k: int| 0 <= k < q.len() - 1 implies !(#[trigger] q[k] == '.' && q[k + 1] == '.') by {
            assert(q[k] == p[k + i + 1] && q[k + 1] == p[k + i + 2]);
        }
        lemma_no_dot_pair_never_climbs(q, if c.len() == 0 || c == "."@ { d } else { d + 1 });
    }
}

/// A hook run in workspace `ws` (given without a trailing `/`) of a plugin whose name and
/// write rules are relative and hold no `..` never writes outside the workspace, so a hook
/// that the manifest lists is planned (see `hook_start`).
pub proof fn law_relative_rules_stay_inside(m: WasmPluginManifest, ws: Seq<char>)
    requires
        ws.len() > 0,
        ws.last() != '/',
        no_dot_pair(m.name@),
        !(m.name@.len() > 0 && m.name@[0] == '/'),
        forall|i: int|
            0 <= i < m.capabilities.allow_write_paths@.len() ==> no_dot_pair(
                (#[trigger] m.capabilities.allow_write_paths@[i])@,
            ) && !(m.capabilities.allow_write_paths@[i]@.len() > 0 && m.capabilities.allow_write_paths@[i]@[0]
                == '/'),
    ensures
        forall|i: int| !first_escape(m, ws, i),
{
    reveal_strlit("target");
    reveal_strlit("wasm_out");
    reveal_strlit("/");
    let name = m.name@;
    let t1 = path_join(ws, "target"@);
    assert(t1 == ws + seq!['/'] + "target"@);
    let t2 = path_join(t1, "wasm_out"@);
    assert(t2 == t1 + seq!['/'] + "wasm_out"@);
    let out = hook_out_dir(ws, name);
    assert(out == t2 + seq!['/'] + name);
    let head: Seq<char> = seq!['/'] + "target"@ + seq!['/'] + "wasm_out"@ + seq!['/'];
    assert(out =~= ws + (head + name));
    assert(no_dot_pair(head)) by {
        assert forall|k: int| 0 <= k < head.len() - 1 implies !(#[trigger] head[k] == '.' && head[k + 1] == '.') by {
            assert(head =~= seq!['/', 't', 'a', 'r', 'g', 'e', 't', '/', 'w', 'a', 's', 'm', '_', 'o', 'u', 't', '/']);
        }
    }
    assert(head.last() == '/') by {
        assert(head =~= seq!['/', 't', 'a', 'r', 'g', 'e', 't', '/', 'w', 'a', 's', 'm', '_', 'o', 'u', 't', '/']);
    }
    lemma_no_dot_pair_concat(head, name);
    let ps = hook_paths(m, ws);
    assert forall|i: int| !first_escape(m, ws, i) by {
        if 0 <= i < ps.len() {
            let rule = m.capabilities.allow_write_paths@[i]@;
            assert(str_views(m.capabilities.allow_write_paths@)[i] == rule);
            let a = ps[i];
            assert(a == path_join(out, rule));
            let tail = head + name;
            let rest: Seq<char> = if out.last() == '/' {
                tail + rule
            } else {
                tail + seq!['/'] + rule
            };
            assert(a =~= ws + rest);
            assert(rest[0] == '/');
            if out.last() == '/' {
                assert(tail.last() == out.last());
                lemma_no_dot_pair_concat(tail, rule);
            } else {
                assert(tail.last() == out.last());
                lemma_no_dot_pair_concat(tail, seq!['/']);
                lemma_no_dot_pair_concat(tail + seq!['/'], rule);
            }
            assert(a.skip(ws.len() as int) =~= rest);
            lemma_no_dot_pair_never_climbs(rest, 0);
            assert(a.subrange(0, ws.len() as int) =~= ws);
            assert(inside_workspace(ws, a));
        }
    }
}

} // verus!
