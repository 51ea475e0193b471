use vstd::prelude::*;
use crate::clock::now_rfc3339;
use crate::keyed::{keyed, keys_distinct, has_key, lemma_keyed_dom, lemma_keyed_value, lemma_keyed_update, lemma_keyed_push, lemma_keyed_remove};
use crate::microvm::str_views;
use crate::text::{byte_len, has_substring, lowercase_of, path_join, join_path, str_byte_len, str_contains, str_eq, to_lowercase};

verus! {

/// The signature of a published plugin; `signed_at` is an RFC 3339 instant.
#[derive(Debug)]
pub struct PluginSignature {
    pub public_key: String,
    pub signature: String,
    pub signed_by: String,
    pub signed_at: String,
}

impl Clone for PluginSignature {
    fn clone(&self) -> (r: Self)
        ensures
            r == *self,
    {
        PluginSignature {
            public_key: self.public_key.clone(),
            signature: self.signature.clone(),
            signed_by: self.signed_by.clone(),
            signed_at: self.signed_at.clone(),
        }
    }
}

/// A plugin as the registry lists it; the instants are RFC 3339 text.
#[derive(Debug)]
pub struct PluginMetadata {
    pub name: String,
    pub version: String,
    pub description: String,
    pub author: String,
    pub license: String,
    pub homepage: Option<String>,
    pub repository: Option<String>,
    pub keywords: Vec<String>,
    pub toolchain: String,
    pub entrypoint: String,
    pub capabilities: Vec<String>,
    pub signature: Option<PluginSignature>,
    pub download_url: Option<String>,
    pub checksum: Option<String>,
    pub downloads: u64,
    pub verified: bool,
    pub created_at: String,
    pub updated_at: String,
}

impl PluginMetadata {
    /// Two records hold the same values (lists compared by their elements).
    pub open spec fn same_as(self, o: PluginMetadata) -> bool {
        &&& self.name == o.name
        &&& self.version == o.version
        &&& self.description == o.description
        &&& self.author == o.author
        &&& self.license == o.license
        &&& self.homepage == o.homepage
        &&& self.repository == o.repository
        &&& self.keywords@ == o.keywords@
        &&& self.toolchain == o.toolchain
        &&& self.entrypoint == o.entrypoint
        &&& self.capabilities@ == o.capabilities@
        &&& self.signature == o.signature
        &&& self.download_url == o.download_url
        &&& self.checksum == o.checksum
        &&& self.downloads == o.downloads
        &&& self.verified == o.verified
        &&& self.created_at == o.created_at
        &&& self.updated_at == o.updated_at
    }
}

fn clone_opt(o: &Option<String>) -> (r: Option<String>)
    ensures
        r == *o,
{
    match o {
        Some(s) => Some(s.clone()),
        None => None,
    }
}

impl Clone for PluginMetadata {
    fn clone(&self) -> (r: Self)
        ensures
            r.same_as(*self),
    {
        let keywords = self.keywords.clone();
        let capabilities = self.capabilities.clone();
        proof {
            assert(keywords@ =~= self.keywords@);
            assert(capabilities@ =~= self.capabilities@);
        }
        let signature = match &self.signature {
            Some(s) => Some(s.clone()),
            None => None,
        };
        PluginMetadata {
            name: self.name.clone(),
            version: self.version.clone(),
            description: self.description.clone(),
            author: self.author.clone(),
            license: self.license.clone(),
            homepage: clone_opt(&self.homepage),
            repository: clone_opt(&self.repository),
            keywords,
            toolchain: self.toolchain.clone(),
            entrypoint: self.entrypoint.clone(),
            capabilities,
            signature,
            download_url: clone_opt(&self.download_url),
            checksum: clone_opt(&self.checksum),
            downloads: self.downloads,
            verified: self.verified,
            created_at: self.created_at.clone(),
            updated_at: self.updated_at.clone(),
        }
    }
}

/// Where the registry lives and which signing keys it trusts.
#[derive(Debug)]
pub struct RegistryConfig {
    pub registry_url: String,
    pub cache_dir: String,
    pub enable_signature_verification: bool,
    pub trusted_keys: Vec<String>,
}

impl Default for RegistryConfig {
    fn default() -> (r: Self)
        ensures
            r.registry_url@ == "https://registry.fish.build"@,
            r.cache_dir@ == ".fish/plugins/cache"@,
            r.enable_signature_verification,
            r.trusted_keys@.len() == 0,
    {
        RegistryConfig {
            registry_url: "https://registry.fish.build".to_string(),
            cache_dir: ".fish/plugins/cache".to_string(),
            enable_signature_verification: true,
            trusted_keys: Vec::new(),
        }
    }
}

/// A registry search: an optional keyword (matched without regard to case), an optional
/// toolchain, whether only verified plugins count, and at most how many results.
#[derive(Debug)]
pub struct SearchQuery {
    pub keyword: Option<String>,
    pub toolchain: Option<String>,
    pub verified_only: bool,
    pub limit: usize,
}

impl Default for SearchQuery {
    fn default() -> (r: Self)
        ensures
            r.keyword is None,
            r.toolchain is None,
            !r.verified_only,
            r.limit == 50,
    {
        SearchQuery { keyword: None, toolchain: None, verified_only: false, limit: 50 }
    }
}

/// An installed plugin and its directory.
struct InstalledPlugin {
    name: String,
    path: String,
}

spec fn meta_key() -> spec_fn(PluginMetadata) -> Seq<char> {
    |p: PluginMetadata| p.name@
}

spec fn installed_key() -> spec_fn(InstalledPlugin) -> Seq<char> {
    |p: InstalledPlugin| p.name@
}

/// The plugin registry of a workspace and the plugins installed from it.
pub struct PluginMarketplace {
    config: RegistryConfig,
    plugins: Vec<PluginMetadata>,
    installed: Vec<InstalledPlugin>,
}

/// What is wrong with a signature, if anything: an empty signature or key, a key outside
/// a non-empty trusted list, then a signature shorter than 32 bytes.
pub open spec fn signature_error(sig: PluginSignature, trusted: Seq<Seq<char>>) -> Option<Seq<char>> {
    if sig.signature@.len() == 0 || sig.public_key@.len() == 0 {
        Some("invalid signature: empty"@)
    } else if trusted.len() > 0 && !trusted.contains(sig.public_key@) {
        Some("untrusted signing key: "@ + sig.public_key@)
    } else if byte_len(sig.signature@) < 32 {
        Some("signature too short"@)
    } else {
        None
    }
}

/// Why plugin `p`, asked for as `name` (and `version`, if given), cannot be installed,
/// if it can't.
pub open spec fn install_error(
    p: PluginMetadata,
    name: Seq<char>,
    version: Option<Seq<char>>,
    c: RegistryConfig,
) -> Option<Seq<char>> {
    if version is Some && version->0 != p.version@ {
        Some("version mismatch: requested "@ + version->0 + ", available "@ + p.version@)
    } else if c.enable_signature_verification && p.signature is Some && signature_error(
        p.signature->0,
        str_views(c.trusted_keys@),
    ) is Some {
        signature_error(p.signature->0, str_views(c.trusted_keys@))
    } else if c.enable_signature_verification && p.signature is None && p.verified {
        Some("plugin '"@ + name + "' claims verified but has no signature"@)
    } else if p.checksum is Some && byte_len(p.checksum->0@) != 64 {
        Some("invalid checksum format"@)
    } else {
        None
    }
}

/// Where an installation goes and which files it writes.
#[derive(Debug)]
pub struct InstallPlan {
    pub plugin: PluginMetadata,
    /// `<cache dir>/<name>/<version>`.
    pub install_path: String,
    /// `plugin.json` in the installation directory, holding the plugin's record.
    pub manifest_path: String,
    /// The entry point in the installation directory, holding a minimal module.
    pub wasm_path: String,
}

impl PluginMarketplace {
    /// The registered plugins by name.
    pub closed spec fn registry(self) -> Map<Seq<char>, PluginMetadata> {
        keyed(self.plugins@, meta_key())
    }

    /// The installed plugins by name, with their directories.
    pub closed spec fn installs(self) -> Map<Seq<char>, Seq<char>> {
        keyed(self.installed@, installed_key()).map_values(|p: InstalledPlugin| p.path@)
    }

    pub closed spec fn config_spec(self) -> RegistryConfig {
        self.config
    }

    pub closed spec fn wf(self) -> bool {
        &&& keys_distinct(self.plugins@, meta_key())
        &&& keys_distinct(self.installed@, installed_key())
    }

    pub fn new(config: RegistryConfig) -> (r: Self)
        ensures
            r.wf(),
            r.config_spec() == config,
            r.registry() == Map::<Seq<char>, PluginMetadata>::empty(),
            r.installs() == Map::<Seq<char>, Seq<char>>::empty(),
    {
        let r = PluginMarketplace { config, plugins: Vec::new(), installed: Vec::new() };
        proof {
            assert(r.registry() =~= Map::<Seq<char>, PluginMetadata>::empty());
            assert(r.installs() =~= Map::<Seq<char>, Seq<char>>::empty());
        }
        r
    }

    /// The registry configuration.
    pub fn config(&self) -> (r: &RegistryConfig)
        ensures
            *r == self.config_spec(),
    {
        &self.config
    }

    /// A marketplace with the default configuration.
    pub fn with_default_config() -> (r: Self)
        ensures
            r.wf(),
            r.config_spec().registry_url@ == "https://registry.fish.build"@,
            r.config_spec().cache_dir@ == ".fish/plugins/cache"@,
            r.config_spec().enable_signature_verification,
            r.config_spec().trusted_keys@.len() == 0,
            r.registry() == Map::<Seq<char>, PluginMetadata>::empty(),
            r.installs() == Map::<Seq<char>, Seq<char>>::empty(),
    {
        Self::new(RegistryConfig::default())
    }

    fn find_plugin(&self, name: &str) -> (r: Option<usize>)
        ensures
            r matches Some(i) ==> i < self.plugins@.len() && self.plugins@[i as int].name@ == name@,
            r is None ==> !has_key(self.plugins@, meta_key(), name@),
    {
        let mut i: usize = 0;
        while i < self.plugins.len()
            invariant
                i <= self.plugins@.len(),
                forall|j: int| 0 <= j < i ==> (#[trigger] self.plugins@[j]).name@ != name@,
            decreases self.plugins@.len() - i,
        {
            if str_eq(self.plugins[i].name.as_str(), name) {
                return Some(i);
            }
            i = i + 1;
        }
        proof {
            if has_key(self.plugins@, meta_key(), name@) {
                let j = choose|j: int| 0 <= j < self.plugins@.len() && meta_key()(#[trigger] self.plugins@[j]) == name@;
                assert(self.plugins@[j].name@ == name@);
            }
        }
        None
    }

    fn find_installed(&self, name: &str) -> (r: Option<usize>)
        ensures
            r matches Some(i) ==> i < self.installed@.len() && self.installed@[i as int].name@ == name@,
            r is None ==> !has_key(self.installed@, installed_key(), name@),
    {
        let mut i: usize = 0;
        while i < self.installed.len()
            invariant
                i <= self.installed@.len(),
                forall|j: int| 0 <= j < i ==> (#[trigger] self.installed@[j]).name@ != name@,
            decreases self.installed@.len() - i,
        {
            if str_eq(self.installed[i].name.as_str(), name) {
                return Some(i);
            }
            i = i + 1;
        }
        proof {
            if has_key(self.installed@, installed_key(), name@) {
                let j = choose|j: int| 0 <= j < self.installed@.len() && installed_key()(#[trigger] self.installed@[j]) == name@;
                assert(self.installed@[j].name@ == name@);
            }
        }
        None
    }

    /// Lists `metadata` under its name, replacing an earlier plugin of that name.
    pub fn register_plugin(&mut self, metadata: PluginMetadata) -> (r: Result<(), String>)
        requires
            old(self).wf(),
        ensures
            r is Ok,
            final(self).wf(),
            final(self).registry() == old(self).registry().insert(metadata.name@, metadata),
            final(self).installs() == old(self).installs(),
            final(self).config_spec() == old(self).config_spec(),
    {
        let ghost m = metadata;
        match self.find_plugin(metadata.name.as_str()) {
            Some(i) => {
                proof {
                    lemma_keyed_update(self.plugins@, meta_key(), i as int, metadata);
                }
                self.plugins.set(i, metadata);
            },
            None => {
                proof {
                    lemma_keyed_push(self.plugins@, meta_key(), metadata);
                }
                self.plugins.push(metadata);
            },
        }
        Ok(())
    }

    /// The record of plugin `name`, if it is listed.
    pub fn get_plugin(&self, name: &str) -> (r: Result<Option<PluginMetadata>, String>)
        requires
            self.wf(),
        ensures
            r matches Ok(o) && (o is Some <==> self.registry().contains_key(name@)) && (o matches Some(p)
                ==> p.same_as(self.registry()[name@])),
    {
        proof {
            lemma_keyed_dom(self.plugins@, meta_key(), name@);
        }
        match self.find_plugin(name) {
            Some(i) => {
                proof {
                    lemma_keyed_value(self.plugins@, meta_key(), i as int);
                }
                Ok(Some(self.plugins[i].clone()))
            },
            None => Ok(None),
        }
    }

    /// Every listed plugin, each once.
    pub fn discover_plugins(&self) -> (r: Result<Vec<PluginMetadata>, String>)
        requires
            self.wf(),
        ensures
            r matches Ok(v) && v@.len() == self.registry().len() && (forall|i: int|
                0 <= i < v@.len() ==> self.registry().contains_key((#[trigger] v@[i]).name@) && v@[i].same_as(
                    self.registry()[v@[i].name@],
                )) && (forall|k: Seq<char>|
                self.registry().contains_key(k) ==> exists|i: int| 0 <= i < v@.len() && (#[trigger] v@[i]).name@ == k),
    {
        let mut v: Vec<PluginMetadata> = Vec::new();
        let mut i: usize = 0;
        while i < self.plugins.len()
            invariant
                i <= self.plugins@.len(),
                keys_distinct(self.plugins@, meta_key()),
                v@.len() == i,
                forall|j: int| 0 <= j < i ==> (#[trigger] v@[j]).same_as(self.plugins@[j]),
            decreases self.plugins@.len() - i,
        {
            v.push(self.plugins[i].clone());
            i = i + 1;
        }
        proof {
            crate::keyed::lemma_keyed_len(self.plugins@, meta_key());
            assert forall|j: int|
                0 <= j < v@.len() implies self.registry().contains_key((#[trigger] v@[j]).name@) && v@[j].same_as(
                    self.registry()[v@[j].name@],
                ) by {
                lemma_keyed_value(self.plugins@, meta_key(), j);
            }
            assert forall|k: Seq<char>| self.registry().contains_key(k) implies exists|j: int|
                0 <= j < v@.len() && (#[trigger] v@[j]).name@ == k by {
                lemma_keyed_dom(self.plugins@, meta_key(), k);
                let j = choose|j: int| 0 <= j < self.plugins@.len() && meta_key()(#[trigger] self.plugins@[j]) == k;
                assert(v@[j].name@ == k);
            }
        }
        Ok(v)
    }
}

fn contains_string(v: &Vec<String>, x: &str) -> (r: bool)
    ensures
        r == str_views(v@).contains(x@),
{
    let mut i: usize = 0;
    while i < v.len()
        invariant
            i <= v@.len(),
            forall|j: int| 0 <= j < i ==> v@[j]@ != x@,
        decreases v@.len() - i,
    {
        if str_eq(v[i].as_str(), x) {
            proof {
                assert(str_views(v@)[i as int] == x@);
            }
            return true;
        }
        i = i + 1;
    }
    proof {
        if str_views(v@).contains(x@) {
            let j = choose|j: int| 0 <= j < str_views(v@).len() && str_views(v@)[j] == x@;
            assert(v@[j]@ == x@);
        }
    }
    false
}

/// Checks a signature against the trusted keys (see `signature_error`).
fn verify_signature(sig: &PluginSignature, trusted: &Vec<String>) -> (r: Result<(), String>)
    ensures
        match signature_error(*sig, str_views(trusted@)) {
            Some(e) => r matches Err(m) && m@ == e,
            None => r is Ok,
        },
{
    if sig.signature.unicode_len() == 0 || sig.public_key.unicode_len() == 0 {
        return Err("invalid signature: empty".to_string());
    }
    if trusted.len() != 0 && !contains_string(trusted, sig.public_key.as_str()) {
        let mut m = "untrusted signing key: ".to_string();
        m.append(sig.public_key.as_str());
        return Err(m);
    }
    if str_byte_len(sig.signature.as_str()) < 32 {
        return Err("signature too short".to_string());
    }
    Ok(())
}

/// The WASM file check of a plugin directory: it needs `plugin.json` or `plugin.wasm`,
/// and a `plugin.wasm` must be at least 8 bytes and start with `\0asm`.
pub fn check_plugin_files(has_manifest: bool, wasm: Option<&[u8]>) -> (r: Result<(), String>)
    ensures
        !has_manifest && wasm is None ==> (r matches Err(m) && m@
            == "plugin must have plugin.json or plugin.wasm"@),
        (has_manifest || wasm is Some) ==> match wasm {
            Some(b) => if b@.len() < 8 || !(b@[0] == 0 && b@[1] == 0x61 && b@[2] == 0x73 && b@[3] == 0x6d) {
                r matches Err(m) && m@ == "invalid WASM file"@
            } else {
                r is Ok
            },
            None => r is Ok,
        },
{
    if !has_manifest && wasm.is_none() {
        return Err("plugin must have plugin.json or plugin.wasm".to_string());
    }
    match wasm {
        Some(b) => {
            if b.len() < 8 || !(b[0] == 0 && b[1] == 0x61 && b[2] == 0x73 && b[3] == 0x6d) {
                return Err("invalid WASM file".to_string());
            }
            Ok(())
        },
        None => Ok(()),
    }
}

/// The record that publishing `m` lists: signed with the first trusted key as
/// `sig_<name>_<version>` by `fish-registry` and marked verified when a key is trusted.
pub open spec fn signed_for_publish(m: PluginMetadata, trusted: Seq<Seq<char>>, r: PluginMetadata) -> bool {
    if trusted.len() == 0 {
        r.same_as(m)
    } else {
        &&& r.same_as(PluginMetadata { signature: r.signature, verified: true, ..m })
        &&& r.signature matches Some(sig) && sig.public_key@ == trusted[0] && sig.signature@ == "sig_"@
            + m.name@ + "_"@ + m.version@ && sig.signed_by@ == "fish-registry"@
    }
}

impl PluginMarketplace {
    /// Decides the installation of plugin `name` (at `version`, when given): a plugin that
    /// is not listed, has another version, fails the signature check (when enabled) or
    /// has a malformed checksum is refused; otherwise the plan places it in
    /// `<cache dir>/<name>/<version>`.
    pub fn plan_install(&self, name: &str, version: Option<&str>) -> (r: Result<InstallPlan, String>)
        requires
            self.wf(),
        ensures
            !self.registry().contains_key(name@) ==> (r matches Err(m) && m@ == "plugin '"@ + name@
                + "' not found in registry"@),
            self.registry().contains_key(name@) ==> ({
                let p = self.registry()[name@];
                let v = match version {
                    Some(x) => Some(x@),
                    None => None,
                };
                match install_error(p, name@, v, self.config_spec()) {
                    Some(e) => r matches Err(m) && m@ == e,
                    None => r matches Ok(plan) && plan.plugin.same_as(p) && plan.install_path@ == path_join(
                        path_join(self.config_spec().cache_dir@, p.name@),
                        p.version@,
                    ) && plan.manifest_path@ == path_join(plan.install_path@, "plugin.json"@)
                        && plan.wasm_path@ == path_join(plan.install_path@, p.entrypoint@),
                }
            }),
            r is Ok ==> {
                let p = self.registry()[name@];
                &&& self.registry().contains_key(name@)
                &&& (version matches Some(x) ==> x@ == p.version@)
                &&& (p.checksum matches Some(c) ==> byte_len(c@) == 64)
                &&& (self.config_spec().enable_signature_verification ==> match p.signature {
                    Some(sig) => {
                        &&& sig.signature@.len() > 0
                        &&& sig.public_key@.len() > 0
                        &&& byte_len(sig.signature@) >= 32
                        &&& (self.config_spec().trusted_keys@.len() > 0 ==> str_views(
                            self.config_spec().trusted_keys@,
                        ).contains(sig.public_key@))
                    },
                    None => !p.verified,
                })
            },
    {
        proof {
            lemma_keyed_dom(self.plugins@, meta_key(), name@);
        }
        let i = match self.find_plugin(name) {
            Some(i) => i,
            None => {
                let mut m = "plugin '".to_string();
                m.append(name);
                m.append("' not found in registry");
                return Err(m);
            },
        };
        proof {
            lemma_keyed_value(self.plugins@, meta_key(), i as int);
        }
        let p = &self.plugins[i];
        match version {
            Some(v) => {
                if !str_eq(v, p.version.as_str()) {
                    let mut m = "version mismatch: requested ".to_string();
                    m.append(v);
                    m.append(", available ");
                    m.append(p.version.as_str());
                    return Err(m);
                }
            },
            None => {},
        }
        if self.config.enable_signature_verification {
            match &p.signature {
                Some(sig) => {
                    match verify_signature(sig, &self.config.trusted_keys) {
                        Err(e) => {
                            return Err(e);
                        },
                        Ok(()) => {},
                    }
                },
                None => {
                    if p.verified {
                        let mut m = "plugin '".to_string();
                        m.append(name);
                        m.append("' claims verified but has no signature");
                        return Err(m);
                    }
                },
            }
        }
        match &p.checksum {
            Some(c) => {
                if str_byte_len(c.as_str()) != 64 {
                    return Err("invalid checksum format".to_string());
                }
            },
            None => {},
        }
        let dir = join_path(self.config.cache_dir.as_str(), p.name.as_str());
        let install_path = join_path(dir.as_str(), p.version.as_str());
        let manifest_path = join_path(install_path.as_str(), "plugin.json");
        let wasm_path = join_path(install_path.as_str(), p.entrypoint.as_str());
        Ok(InstallPlan { plugin: p.clone(), install_path, manifest_path, wasm_path })
    }

    /// Records plugin `name` as installed in `path`, replacing an earlier record.
    pub fn record_install(&mut self, name: String, path: String)
        requires
            old(self).wf(),
        ensures
            final(self).wf(),
            final(self).installs() == old(self).installs().insert(name@, path@),
            final(self).registry() == old(self).registry(),
            final(self).config_spec() == old(self).config_spec(),
    {
        let ghost key = name@;
        let ghost val = path@;
        let e = InstalledPlugin { name, path };
        match self.find_installed(e.name.as_str()) {
            Some(i) => {
                proof {
                    lemma_keyed_update(self.installed@, installed_key(), i as int, e);
                }
                self.installed.set(i, e);
            },
            None => {
                proof {
                    lemma_keyed_push(self.installed@, installed_key(), e);
                }
                self.installed.push(e);
            },
        }
        proof {
            assert(self.installs() =~= old(self).installs().insert(key, val));
        }
    }

    /// The directory of installed plugin `name`, or `plugin '<name>' not installed`.
    pub fn installed_path(&self, name: &str) -> (r: Result<String, String>)
        requires
            self.wf(),
        ensures
            self.installs().contains_key(name@) ==> (r matches Ok(p) && p@ == self.installs()[name@]),
            !self.installs().contains_key(name@) ==> (r matches Err(m) && m@ == "plugin '"@ + name@
                + "' not installed"@),
    {
        proof {
            lemma_keyed_dom(self.installed@, installed_key(), name@);
        }
        match self.find_installed(name) {
            Some(i) => {
                proof {
                    lemma_keyed_value(self.installed@, installed_key(), i as int);
                }
                Ok(self.installed[i].path.clone())
            },
            None => {
                let mut m = "plugin '".to_string();
                m.append(name);
                m.append("' not installed");
                Err(m)
            },
        }
    }

    /// Forgets the installation of plugin `name`.
    pub fn forget_install(&mut self, name: &str)
        requires
            old(self).wf(),
        ensures
            final(self).wf(),
            final(self).installs() == old(self).installs().remove(name@),
            final(self).registry() == old(self).registry(),
            final(self).config_spec() == old(self).config_spec(),
    {
        proof {
            lemma_keyed_dom(self.installed@, installed_key(), name@);
        }
        match self.find_installed(name) {
            Some(i) => {
                let ghost before = self.installed@;
                proof {
                    lemma_keyed_remove(before, installed_key(), i as int);
                }
                self.installed.remove(i);
                proof {
                    assert(self.installed@ =~= before.remove(i as int));
                    assert(self.installs() =~= old(self).installs().remove(name@));
                }
            },
            None => {
                proof {
                    assert(self.installs() =~= old(self).installs().remove(name@));
                }
            },
        }
    }

    /// The installed plugins with their directories, each once.
    pub fn list_installed(&self) -> (r: Result<Vec<(String, String)>, String>)
        requires
            self.wf(),
        ensures
            r matches Ok(v) && v@.len() == self.installs().len() && (forall|i: int|
                0 <= i < v@.len() ==> self.installs().contains_key((#[trigger] v@[i]).0@)
                    && self.installs()[v@[i].0@] == v@[i].1@) && (forall|a: int, b: int|
                0 <= a < b < v@.len() ==> (#[trigger] v@[a]).0@ != (#[trigger] v@[b]).0@),
    {
        let mut v: Vec<(String, String)> = Vec::new();
        let mut i: usize = 0;
        while i < self.installed.len()
            invariant
                i <= self.installed@.len(),
                keys_distinct(self.installed@, installed_key()),
                v@.len() == i,
                forall|j: int| 0 <= j < i ==> (#[trigger] v@[j]).0@ == self.installed@[j].name@ && v@[j].1@
                    == self.installed@[j].path@,
            decreases self.installed@.len() - i,
        {
            v.push((self.installed[i].name.clone(), self.installed[i].path.clone()));
            i = i + 1;
        }
        proof {
            crate::keyed::lemma_keyed_len(self.installed@, installed_key());
            assert(self.installs().dom() =~= keyed(self.installed@, installed_key()).dom());
            assert forall|j: int|
                0 <= j < v@.len() implies self.installs().contains_key((#[trigger] v@[j]).0@)
                    && self.installs()[v@[j].0@] == v@[j].1@ by {
                lemma_keyed_value(self.installed@, installed_key(), j);
            }
            assert forall|a: int, b: int| 0 <= a < b < v@.len() implies (#[trigger] v@[a]).0@ != (#[trigger] v@[b]).0@ by {
                assert(installed_key()(self.installed@[a]) != installed_key()(self.installed@[b]));
            }
        }
        Ok(v)
    }

    /// For each installed plugin whose listed version differs from `0.1.0`, the triple
    /// (name, `0.1.0`, listed version), in installation order.
    pub fn check_updates(&self) -> (r: Result<Vec<(String, String, String)>, String>)
        requires
            self.wf(),
        ensures
            r matches Ok(v) && (forall|i: int|
                0 <= i < v@.len() ==> self.installs().contains_key((#[trigger] v@[i]).0@)
                    && self.registry().contains_key(v@[i].0@) && v@[i].1@ == "0.1.0"@ && v@[i].2@
                    == self.registry()[v@[i].0@].version@ && v@[i].2@ != "0.1.0"@) && (forall|k: Seq<char>|
                self.installs().contains_key(k) && self.registry().contains_key(k) && self.registry()[k].version@
                    != "0.1.0"@ ==> exists|i: int| 0 <= i < v@.len() && (#[trigger] v@[i]).0@ == k),
    {
        let mut v: Vec<(String, String, String)> = Vec::new();
        let mut i: usize = 0;
        while i < self.installed.len()
            invariant
                i <= self.installed@.len(),
                self.wf(),
                forall|t: int|
                    0 <= t < v@.len() ==> self.installs().contains_key((#[trigger] v@[t]).0@)
                        && self.registry().contains_key(v@[t].0@) && v@[t].1@ == "0.1.0"@ && v@[t].2@
                        == self.registry()[v@[t].0@].version@ && v@[t].2@ != "0.1.0"@,
                forall|j: int|
                    0 <= j < i && self.registry().contains_key((#[trigger] self.installed@[j]).name@)
                        && self.registry()[self.installed@[j].name@].version@ != "0.1.0"@ ==> exists|t: int|
                        0 <= t < v@.len() && (#[trigger] v@[t]).0@ == self.installed@[j].name@,
            decreases self.installed@.len() - i,
        {
            let name = &self.installed[i].name;
            proof {
                lemma_keyed_value(self.installed@, installed_key(), i as int);
                lemma_keyed_dom(self.plugins@, meta_key(), name@);
            }
            let ghost old_v = v@;
            match self.find_plugin(name.as_str()) {
                Some(k) => {
                    proof {
                        lemma_keyed_value(self.plugins@, meta_key(), k as int);
                    }
                    let latest = &self.plugins[k].version;
                    if !str_eq(latest.as_str(), "0.1.0") {
                        v.push((name.clone(), "0.1.0".to_string(), latest.clone()));
                        proof {
                            assert(v@[v@.len() - 1].0@ == self.installed@[i as int].name@);
                        }
                    }
                },
                None => {},
            }
            proof {
                assert forall|j: int|
                    0 <= j < i + 1 && self.registry().contains_key((#[trigger] self.installed@[j]).name@)
                        && self.registry()[self.installed@[j].name@].version@ != "0.1.0"@ implies exists|t: int|
                        0 <= t < v@.len() && (#[trigger] v@[t]).0@ == self.installed@[j].name@ by {
                    if j < i {
                        let t = choose|t: int| 0 <= t < old_v.len() && (#[trigger] old_v[t]).0@ == self.installed@[j].name@;
                        assert(v@[t] == old_v[t]);
                    } else {
                        assert(v@[v@.len() - 1].0@ == self.installed@[j].name@);
                    }
                }
            }
            i = i + 1;
        }
        proof {
            assert forall|k: Seq<char>|
                self.installs().contains_key(k) && self.registry().contains_key(k) && self.registry()[k].version@
                    != "0.1.0"@ implies exists|t: int| 0 <= t < v@.len() && (#[trigger] v@[t]).0@ == k by {
                lemma_keyed_dom(self.installed@, installed_key(), k);
                let j = choose|j: int| 0 <= j < self.installed@.len() && installed_key()(#[trigger] self.installed@[j]) == k;
                assert(self.installed@[j].name@ == k);
            }
        }
        Ok(v)
    }

    /// Lists a plugin whose files passed `check_plugin_files`: signed and marked verified
    /// when a key is trusted (see `signed_for_publish`), the signature stamped with the
    /// clock's time (see `publish_plugin_at`); returns the listed record.
    pub fn publish_plugin(&mut self, metadata: PluginMetadata) -> (r: Result<PluginMetadata, String>)
        requires
            old(self).wf(),
        ensures
            r matches Ok(p) && signed_for_publish(metadata, str_views(old(self).config_spec().trusted_keys@), p)
                && final(self).registry() == old(self).registry().insert(
                metadata.name@,
                final(self).registry()[metadata.name@],
            ) && final(self).registry()[metadata.name@].same_as(p),
            final(self).wf(),
            final(self).installs() == old(self).installs(),
            final(self).config_spec() == old(self).config_spec(),
    {
        let now = now_rfc3339();
        self.publish_plugin_at(metadata, now)
    }

    /// Lists a plugin whose files passed `check_plugin_files`: signed and marked verified
    /// when a key is trusted (see `signed_for_publish`), the signature stamped `signed_at`;
    /// returns the listed record.
    pub fn publish_plugin_at(&mut self, metadata: PluginMetadata, signed_at: String) -> (r: Result<PluginMetadata, String>)
        requires
            old(self).wf(),
        ensures
            r matches Ok(p) && signed_for_publish(metadata, str_views(old(self).config_spec().trusted_keys@), p)
                && final(self).registry() == old(self).registry().insert(
                metadata.name@,
                final(self).registry()[metadata.name@],
            ) && final(self).registry()[metadata.name@].same_as(p),
            final(self).wf(),
            final(self).installs() == old(self).installs(),
            final(self).config_spec() == old(self).config_spec(),
            old(self).config_spec().trusted_keys@.len() > 0 ==> (r matches Ok(p) && p.signature matches Some(sig)
                && sig.signed_at@ == signed_at@),
    {
        let mut signed = metadata.clone();
        if self.config.trusted_keys.len() != 0 {
            let mut sig_text = "sig_".to_string();
            sig_text.append(metadata.name.as_str());
            sig_text.append("_");
            sig_text.append(metadata.version.as_str());
            signed.signature = Some(
                PluginSignature {
                    public_key: self.config.trusted_keys[0].clone(),
                    signature: sig_text,
                    signed_by: "fish-registry".to_string(),
                    signed_at,
                },
            );
            signed.verified = true;
        }
        let returned = signed.clone();
        let _ = self.register_plugin(signed);
        Ok(returned)
    }
}

/// The keyword, already lower-cased, occurs in the lower-cased `text`.
pub open spec fn keyword_hit(text: Seq<char>, kw_lower: Seq<char>) -> bool {
    has_substring(lowercase_of(text), kw_lower)
}

/// Plugin `p` satisfies every filter of query `q`.
pub open spec fn matches_query(p: PluginMetadata, q: SearchQuery) -> bool {
    &&& !(q.verified_only && !p.verified)
    &&& (q.toolchain is Some ==> p.toolchain@ == q.toolchain->0@)
    &&& (q.keyword is Some ==> {
        let k = lowercase_of(q.keyword->0@);
        ||| keyword_hit(p.name@, k)
        ||| keyword_hit(p.description@, k)
        ||| exists|i: int| 0 <= i < p.keywords@.len() && keyword_hit(#[trigger] p.keywords@[i]@, k)
    })
}

fn hits(text: &str, kw_lower: &str) -> (r: bool)
    ensures
        r == keyword_hit(text@, kw_lower@),
{
    let t = to_lowercase(text);
    str_contains(t.as_str(), kw_lower)
}

fn query_matches(p: &PluginMetadata, q: &SearchQuery) -> (r: bool)
    ensures
        r == matches_query(*p, *q),
{
    if q.verified_only && !p.verified {
        return false;
    }
    match &q.toolchain {
        Some(t) => {
            if !str_eq(p.toolchain.as_str(), t.as_str()) {
                return false;
            }
        },
        None => {},
    }
    match &q.keyword {
        Some(k) => {
            let kl = to_lowercase(k.as_str());
            if hits(p.name.as_str(), kl.as_str()) || hits(p.description.as_str(), kl.as_str()) {
                return true;
            }
            let mut i: usize = 0;
            while i < p.keywords.len()
                invariant
                    i <= p.keywords@.len(),
                    kl@ == lowercase_of(k@),
                    forall|j: int| 0 <= j < i ==> !keyword_hit(#[trigger] p.keywords@[j]@, kl@),
                decreases p.keywords@.len() - i,
            {
                if hits(p.keywords[i].as_str(), kl.as_str()) {
                    return true;
                }
                i = i + 1;
            }
            false
        },
        None => true,
    }
}

/// `o` lists positions of `ps` most downloaded first, ties in position order.
pub open spec fn download_order(ps: Seq<PluginMetadata>, o: Seq<usize>) -> bool {
    forall|a: int, b: int|
        0 <= a < b < o.len() ==> ps[#[trigger] o[a] as int].downloads > ps[#[trigger] o[b] as int].downloads || (
        ps[o[a] as int].downloads == ps[o[b] as int].downloads && o[a] < o[b])
}

fn insert_by_downloads(order: &mut Vec<usize>, ps: &Vec<PluginMetadata>, i: usize)
    requires
        i < ps@.len(),
        forall|t: int| 0 <= t < old(order)@.len() ==> #[trigger] old(order)@[t] < i,
        download_order(ps@, old(order)@),
    ensures
        download_order(ps@, final(order)@),
        exists|p: int| 0 <= p <= old(order)@.len() && final(order)@ == old(order)@.insert(p, i),
{
    let d = ps[i].downloads;
    let mut p: usize = 0;
    while p < order.len() && ps[order[p]].downloads >= d
        invariant
            p <= order@.len(),
            forall|t: int| 0 <= t < order@.len() ==> #[trigger] order@[t] < i,
            forall|t: int| 0 <= t < p ==> ps@[#[trigger] order@[t] as int].downloads >= d,
        decreases order@.len() - p,
    {
        p = p + 1;
    }
    let ghost old_o = order@;
    order.insert(p, i);
    proof {
        assert(order@ =~= old_o.insert(p as int, i));
        assert forall|a: int, b: int|
            0 <= a < b < order@.len() implies ps@[#[trigger] order@[a] as int].downloads > ps@[#[trigger] order@[b] as int].downloads
                || (ps@[order@[a] as int].downloads == ps@[order@[b] as int].downloads && order@[a] < order@[b]) by {
            if b < p {
                assert(order@[a] == old_o[a] && order@[b] == old_o[b]);
            } else if b == p {
                assert(order@[a] == old_o[a]);
            } else if a == p {
                assert(order@[b] == old_o[b - 1]);
                assert(ps@[old_o[p as int] as int].downloads < d);
            } else if a < p {
                assert(order@[a] == old_o[a] && order@[b] == old_o[b - 1]);
            } else {
                assert(order@[a] == old_o[a - 1] && order@[b] == old_o[b - 1]);
            }
        }
    }
}

fn matching_order(ps: &Vec<PluginMetadata>, query: &SearchQuery) -> (order: Vec<usize>)
    ensures
        forall|t: int| 0 <= t < order@.len() ==> #[trigger] order@[t] < ps@.len() && matches_query(ps@[order@[t] as int], *query),
        download_order(ps@, order@),
        forall|j: int| 0 <= j < ps@.len() && matches_query(#[trigger] ps@[j], *query) ==> order@.contains(j as usize),
{
    let mut order: Vec<usize> = Vec::new();
    let mut i: usize = 0;
    while i < ps.len()
        invariant
            i <= ps@.len(),
            forall|t: int| 0 <= t < order@.len() ==> #[trigger] order@[t] < i && matches_query(ps@[order@[t] as int], *query),
            download_order(ps@, order@),
            forall|j: int| 0 <= j < i && matches_query(#[trigger] ps@[j], *query) ==> order@.contains(j as usize),
        decreases ps@.len() - i,
    {
        if query_matches(&ps[i], query) {
            let ghost old_o = order@;
            insert_by_downloads(&mut order, ps, i);
            proof {
                let p = choose|p: int| 0 <= p <= old_o.len() && order@ == old_o.insert(p, i);
                assert forall|t: int| 0 <= t < order@.len() implies #[trigger] order@[t] < i + 1 && matches_query(ps@[order@[t] as int], *query) by {
                    if t < p {
                        assert(order@[t] == old_o[t]);
                    } else if t > p {
                        assert(order@[t] == old_o[t - 1]);
                    }
                }
                assert forall|j: int| 0 <= j < i + 1 && matches_query(#[trigger] ps@[j], *query) implies order@.contains(j as usize) by {
                    if j == i {
                        assert(order@[p] == i);
                    } else {
                        assert(old_o.contains(j as usize));
                        let t = choose|t: int| 0 <= t < old_o.len() && old_o[t] == j as usize;
                        if t < p {
                            assert(order@[t] == j as usize);
                        } else {
                            assert(order@[t + 1] == j as usize);
                        }
                    }
                }
            }
        }
        i = i + 1;
    }
    order
}

impl PluginMarketplace {
    /// The listed plugins that satisfy `query`, most downloaded first, at most
    /// `query.limit` of them; a matching plugin is left out only when the limit is reached
    /// by plugins downloaded at least as often.
    pub fn search(&self, query: SearchQuery) -> (r: Result<Vec<PluginMetadata>, String>)
        requires
            self.wf(),
        ensures
            r matches Ok(v) && v@.len() <= query.limit && (forall|i: int|
                0 <= i < v@.len() ==> self.registry().contains_key((#[trigger] v@[i]).name@)
                    && v@[i].same_as(self.registry()[v@[i].name@]) && matches_query(v@[i], query)) && (forall|
                a: int,
                b: int,
            | 0 <= a < b < v@.len() ==> (#[trigger] v@[a]).name@ != (#[trigger] v@[b]).name@ && v@[a].downloads
                >= v@[b].downloads) && (forall|k: Seq<char>|
                self.registry().contains_key(k) && matches_query(self.registry()[k], query) && !(exists|i: int|
                    0 <= i < v@.len() && (#[trigger] v@[i]).name@ == k) ==> v@.len() == query.limit && forall|i: int|
                    0 <= i < v@.len() ==> (#[trigger] v@[i]).downloads >= self.registry()[k].downloads),
            r matches Ok(v) && forall|i: int|
                0 <= i < v@.len() ==> {
                    &&& (query.toolchain matches Some(t) ==> (#[trigger] v@[i]).toolchain@ == t@)
                    &&& (query.verified_only ==> v@[i].verified)
                    &&& (query.keyword matches Some(k) ==> {
                        let kl = lowercase_of(k@);
                        ||| has_substring(lowercase_of(v@[i].name@), kl)
                        ||| has_substring(lowercase_of(v@[i].description@), kl)
                        ||| exists|j: int|
                            0 <= j < v@[i].keywords@.len() && has_substring(
                                lowercase_of((#[trigger] v@[i].keywords@[j])@),
                                kl,
                            )
                    })
                },
    {
        let ps = &self.plugins;
        let n = ps.len();
        let mut order = matching_order(ps, &query);
        let ghost full = order@;
        order.truncate(query.limit);
        proof {
            assert(order@ =~= full.take(order@.len() as int));
        }
        let mut v: Vec<PluginMetadata> = Vec::new();
        let mut k: usize = 0;
        while k < order.len()
            invariant
                k <= order@.len(),
                order@ == full.take(order@.len() as int),
                order@.len() <= full.len(),
                forall|t: int| 0 <= t < full.len() ==> #[trigger] full[t] < ps@.len(),
                v@.len() == k,
                forall|t: int| 0 <= t < k ==> (#[trigger] v@[t]).same_as(ps@[order@[t] as int]),
            decreases order@.len() - k,
        {
            proof {
                assert(full[k as int] == order@[k as int]);
            }
            v.push(ps[order[k]].clone());
            k = k + 1;
        }
        proof {
            self.lemma_search_result(query, full, order@, v@);
        }
        Ok(v)
    }

    proof fn lemma_search_result(
        self,
        query: SearchQuery,
        full: Seq<usize>,
        order: Seq<usize>,
        v: Seq<PluginMetadata>,
    )
        requires
            self.wf(),
            self.plugins@.len() <= usize::MAX,
            forall|t: int| 0 <= t < full.len() ==> #[trigger] full[t] < self.plugins@.len() && matches_query(
                self.plugins@[full[t] as int],
                query,
            ),
            download_order(self.plugins@, full),
            forall|j: int|
                0 <= j < self.plugins@.len() && matches_query(#[trigger] self.plugins@[j], query) ==> full.contains(
                    j as usize,
                ),
            order == full.take(order.len() as int),
            order.len() <= full.len(),
            order.len() <= query.limit,
            order.len() < full.len() ==> order.len() == query.limit,
            v.len() == order.len(),
            forall|t: int| 0 <= t < v.len() ==> (#[trigger] v[t]).same_as(self.plugins@[order[t] as int]),
        ensures
            forall|i: int|
                0 <= i < v.len() ==> self.registry().contains_key((#[trigger] v[i]).name@) && v[i].same_as(
                    self.registry()[v[i].name@],
                ) && matches_query(v[i], query),
            forall|a: int, b: int|
                0 <= a < b < v.len() ==> (#[trigger] v[a]).name@ != (#[trigger] v[b]).name@ && v[a].downloads
                    >= v[b].downloads,
            forall|k: Seq<char>|
                self.registry().contains_key(k) && matches_query(self.registry()[k], query) && !(exists|i: int|
                    0 <= i < v.len() && (#[trigger] v[i]).name@ == k) ==> v.len() == query.limit && forall|i: int|
                    0 <= i < v.len() ==> (#[trigger] v[i]).downloads >= self.registry()[k].downloads,
    {
        let ps = self.plugins@;
        assert forall|t: int|
            0 <= t < v.len() implies self.registry().contains_key((#[trigger] v[t]).name@) && v[t].same_as(
                self.registry()[v[t].name@],
            ) && matches_query(v[t], query) by {
            assert(full[t] == order[t]);
            lemma_keyed_value(ps, meta_key(), order[t] as int);
        }
        assert forall|a: int, b: int| 0 <= a < b < v.len() implies (#[trigger] v[a]).name@ != (
            #[trigger] v[b]).name@ && v[a].downloads >= v[b].downloads by {
            assert(full[a] == order[a] && full[b] == order[b]);
            assert(order[a] != order[b]);
            assert(meta_key()(ps[order[a] as int]) != meta_key()(ps[order[b] as int]));
        }
        assert forall|key: Seq<char>|
            self.registry().contains_key(key) && matches_query(self.registry()[key], query) && !(exists|t: int|
                0 <= t < v.len() && (#[trigger] v[t]).name@ == key) implies v.len() == query.limit && forall|t: int|
                0 <= t < v.len() ==> (#[trigger] v[t]).downloads >= self.registry()[key].downloads by {
            lemma_keyed_dom(ps, meta_key(), key);
            let j = choose|j: int| 0 <= j < ps.len() && meta_key()(#[trigger] ps[j]) == key;
            lemma_keyed_value(ps, meta_key(), j);
            assert(matches_query(ps[j], query));
            assert(full.contains(j as usize));
            let tj = choose|tj: int| 0 <= tj < full.len() && full[tj] == j as usize;
            assert(ps[j].name@ == key);
            if tj < order.len() {
                assert(full[tj] == order[tj]);
                assert(order[tj] as int == j);
                assert(v[tj].same_as(ps[j]));
                assert(v[tj].name@ == key);
            }
            assert(tj >= order.len());
            assert forall|t: int| 0 <= t < v.len() implies (#[trigger] v[t]).downloads >= self.registry()[key].downloads by {
                assert(full[t] == order[t]);
                assert(t < tj);
                assert(ps[full[t] as int].downloads >= ps[full[tj] as int].downloads);
                assert(v[t].downloads == ps[order[t] as int].downloads);
            }
        }
    }
}

/// A plugin published while keys are trusted installs, under the same registry settings
/// and with no version asked for, unless its checksum is malformed: its signature comes
/// from the first trusted key and passes the check, provided that key is not empty and
/// the signature text reaches the 32 bytes that the check asks for.
pub proof fn law_published_plugin_installs(m: PluginMetadata, c: RegistryConfig, p: PluginMetadata)
    requires
        signed_for_publish(m, str_views(c.trusted_keys@), p),
        c.trusted_keys@.len() > 0,
        c.trusted_keys@[0]@.len() > 0,
        byte_len("sig_"@ + m.name@ + "_"@ + m.version@) >= 32,
    ensures
        p.verified,
        p.signature is Some,
        signature_error(p.signature->0, str_views(c.trusted_keys@)) is None,
        install_error(p, m.name@, None, c) == if m.checksum is Some && byte_len(m.checksum->0@) != 64 {
            Some("invalid checksum format"@)
        } else {
            None::<Seq<char>>
        },
{
    let t = str_views(c.trusted_keys@);
    let sig = p.signature->0;
    reveal_strlit("sig_");
    reveal_strlit("_");
    assert(("sig_"@ + m.name@ + "_"@ + m.version@)[0] == 's');
    assert(t[0] == c.trusted_keys@[0]@);
    assert(t.contains(sig.public_key@));
}

/// Recording an installation makes it the one listed under its name, and forgetting it
/// removes that name; other names keep their installations either way.
pub proof fn law_install_then_forget(installs: Map<Seq<char>, Seq<char>>, name: Seq<char>, path: Seq<char>, other: Seq<char>)
    ensures
        installs.insert(name, path).contains_key(name),
        installs.insert(name, path)[name] == path,
        !installs.insert(name, path).remove(name).contains_key(name),
        other != name ==> (installs.insert(name, path).contains_key(other) == installs.contains_key(other)
            && installs.insert(name, path).remove(name).contains_key(other) == installs.contains_key(other)),
        other != name && installs.contains_key(other) ==> installs.insert(name, path)[other] == installs[other]
            && installs.insert(name, path).remove(name)[other] == installs[other],
{
}

/// A search returns as many plugins as the limit allows: `min(limit, |M|)`, where `M` is
/// the set of names of the listed plugins that match the query. `names` are the names
/// that `search` returns, which its contract shows to be distinct matches, at most
/// `limit`, and all of `M` unless the limit was reached.
pub proof fn law_search_length(names: Seq<Seq<char>>, matching: Set<Seq<char>>, limit: nat)
    requires
        matching.finite(),
        names.no_duplicates(),
        forall|i: int| 0 <= i < names.len() ==> matching.contains(#[trigger] names[i]),
        names.len() <= limit,
        forall|k: Seq<char>| matching.contains(k) && !names.contains(k) ==> names.len() == limit,
    ensures
        names.len() == if limit <= matching.len() {
            limit
        } else {
            matching.len()
        },
{
    names.unique_seq_to_set();
    assert(names.to_set().subset_of(matching));
    vstd::set_lib::lemma_len_subset(names.to_set(), matching);
    if names.len() < limit {
        assert(matching.subset_of(names.to_set()));
        vstd::set_lib::lemma_len_subset(matching, names.to_set());
    }
}

/// A plugin that passes a query's filters has the query's toolchain when one is given,
/// whether or not a keyword is given too, is verified when only verified plugins are asked
/// for, and contains the keyword, case aside, in its name, description or a keyword.
pub proof fn law_query_filters(p: PluginMetadata, q: SearchQuery)
    requires
        matches_query(p, q),
    ensures
        q.toolchain matches Some(t) ==> p.toolchain@ == t@,
        q.verified_only ==> p.verified,
        q.keyword matches Some(k) ==> {
            let kl = lowercase_of(k@);
            ||| has_substring(lowercase_of(p.name@), kl)
            ||| has_substring(lowercase_of(p.description@), kl)
            ||| exists|j: int| 0 <= j < p.keywords@.len() && has_substring(lowercase_of((#[trigger] p.keywords@[j])@), kl)
        },
{
}

} // verus!
