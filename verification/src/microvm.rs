use vstd::prelude::*;
use crate::text::{decimal, decimal_string, join, join_path, joined, path_join};
use std::time::{Duration, Instant};

verus! {

/// The virtual machine monitor that runs a build.
#[derive(Debug, Clone, Copy, PartialEq, Eq, Structural)]
pub enum HypervisorType {
    Firecracker,
    CloudHypervisor,
    Qemu,
}

impl Default for HypervisorType {
    fn default() -> (r: Self)
        ensures
            r == HypervisorType::Firecracker,
    {
        HypervisorType::Firecracker
    }
}

/// The name under which a hypervisor is printed (its variant name).
pub open spec fn hypervisor_name(h: HypervisorType) -> Seq<char> {
    match h {
        HypervisorType::Firecracker => "Firecracker"@,
        HypervisorType::CloudHypervisor => "CloudHypervisor"@,
        HypervisorType::Qemu => "Qemu"@,
    }
}

impl HypervisorType {
    /// The variant name, as `{:?}` prints it.
    pub fn debug_name(&self) -> (r: &'static str)
        ensures
            r@ == hypervisor_name(*self),
    {
        match self {
            HypervisorType::Firecracker => "Firecracker",
            HypervisorType::CloudHypervisor => "CloudHypervisor",
            HypervisorType::Qemu => "Qemu",
        }
    }
}

/// An additional block device handed to the guest.
#[derive(Debug)]
pub struct DriveConfig {
    pub drive_id: String,
    pub path_on_host: String,
    pub is_read_only: bool,
    pub is_root_device: bool,
}

impl Clone for DriveConfig {
    fn clone(&self) -> (r: Self)
        ensures
            r == *self,
    {
        DriveConfig {
            drive_id: self.drive_id.clone(),
            path_on_host: self.path_on_host.clone(),
            is_read_only: self.is_read_only,
            is_root_device: self.is_root_device,
        }
    }
}

/// A guest network interface backed by a host tap device.
#[derive(Debug)]
pub struct NetworkConfig {
    pub iface_id: String,
    pub host_dev_name: String,
    pub guest_mac: Option<String>,
    pub allow_mmds: bool,
}

impl Clone for NetworkConfig {
    fn clone(&self) -> (r: Self)
        ensures
            r == *self,
    {
        let guest_mac = match &self.guest_mac {
            Some(m) => Some(m.clone()),
            None => None,
        };
        NetworkConfig {
            iface_id: self.iface_id.clone(),
            host_dev_name: self.host_dev_name.clone(),
            guest_mac,
            allow_mmds: self.allow_mmds,
        }
    }
}

/// Configuration of a MicroVM; paths are kept as text.
#[derive(Debug)]
pub struct MicroVmConfig {
    pub vcpu_count: u8,
    pub memory_size_mib: u32,
    pub kernel_image_path: String,
    pub rootfs_path: String,
    pub enable_network: bool,
    pub read_only_rootfs: bool,
    pub hypervisor: HypervisorType,
    pub enable_seccomp: bool,
    pub enable_jailer: bool,
    pub vsock_enabled: bool,
    pub extra_drives: Vec<DriveConfig>,
    pub network_config: Option<NetworkConfig>,
}

impl MicroVmConfig {
    /// Two configurations hold the same values (the drive list compared by its elements).
    pub open spec fn same_as(self, o: MicroVmConfig) -> bool {
        &&& self.vcpu_count == o.vcpu_count
        &&& self.memory_size_mib == o.memory_size_mib
        &&& self.kernel_image_path == o.kernel_image_path
        &&& self.rootfs_path == o.rootfs_path
        &&& self.enable_network == o.enable_network
        &&& self.read_only_rootfs == o.read_only_rootfs
        &&& self.hypervisor == o.hypervisor
        &&& self.enable_seccomp == o.enable_seccomp
        &&& self.enable_jailer == o.enable_jailer
        &&& self.vsock_enabled == o.vsock_enabled
        &&& self.extra_drives@ == o.extra_drives@
        &&& self.network_config == o.network_config
    }
}

impl Clone for MicroVmConfig {
    fn clone(&self) -> (r: Self)
        ensures
            r.same_as(*self),
    {
        let extra_drives = self.extra_drives.clone();
        proof {
            assert(extra_drives@ =~= self.extra_drives@);
        }
        let network_config = match &self.network_config {
            Some(n) => Some(n.clone()),
            None => None,
        };
        MicroVmConfig {
            vcpu_count: self.vcpu_count,
            memory_size_mib: self.memory_size_mib,
            kernel_image_path: self.kernel_image_path.clone(),
            rootfs_path: self.rootfs_path.clone(),
            enable_network: self.enable_network,
            read_only_rootfs: self.read_only_rootfs,
            hypervisor: self.hypervisor,
            enable_seccomp: self.enable_seccomp,
            enable_jailer: self.enable_jailer,
            vsock_enabled: self.vsock_enabled,
            extra_drives,
            network_config,
        }
    }
}

impl Default for MicroVmConfig {
    /// Two vCPUs, 1024 MiB, the stock kernel and read-only root file system, Firecracker,
    /// seccomp and the jailer on, no network, no vsock, no extra drives.
    fn default() -> (r: Self)
        ensures
            r.vcpu_count == 2,
            r.memory_size_mib == 1024,
            r.kernel_image_path@ == "/var/lib/fish/vmlinux"@,
            r.rootfs_path@ == "/var/lib/fish/rootfs.ext4"@,
            !r.enable_network,
            r.read_only_rootfs,
            r.hypervisor == HypervisorType::Firecracker,
            r.enable_seccomp,
            r.enable_jailer,
            !r.vsock_enabled,
            r.extra_drives@.len() == 0,
            r.network_config is None,
    {
        MicroVmConfig {
            vcpu_count: 2,
            memory_size_mib: 1024,
            kernel_image_path: "/var/lib/fish/vmlinux".to_string(),
            rootfs_path: "/var/lib/fish/rootfs.ext4".to_string(),
            enable_network: false,
            read_only_rootfs: true,
            hypervisor: HypervisorType::Firecracker,
            enable_seccomp: true,
            enable_jailer: true,
            vsock_enabled: false,
            extra_drives: Vec::new(),
            network_config: None,
        }
    }
}

/// What is wrong with a configuration, if anything: too few vCPUs first, then too
/// little memory.
pub open spec fn config_error(c: MicroVmConfig) -> Option<Seq<char>> {
    if c.vcpu_count == 0 {
        Some("vcpu_count must be at least 1"@)
    } else if c.memory_size_mib < 128 {
        Some("memory must be at least 128 MiB"@)
    } else {
        None
    }
}

impl MicroVmConfig {
    pub fn with_hypervisor(self, hypervisor: HypervisorType) -> (r: Self)
        ensures
            r == (MicroVmConfig { hypervisor, ..self }),
    {
        let mut s = self;
        s.hypervisor = hypervisor;
        s
    }

    /// Attaches a network interface and turns networking on.
    pub fn with_network(self, network: NetworkConfig) -> (r: Self)
        ensures
            r == (MicroVmConfig { enable_network: true, network_config: Some(network), ..self }),
    {
        let mut s = self;
        s.enable_network = true;
        s.network_config = Some(network);
        s
    }

    pub fn with_extra_drive(self, drive: DriveConfig) -> (r: Self)
        ensures
            r.extra_drives@ == self.extra_drives@.push(drive),
            r == (MicroVmConfig { extra_drives: r.extra_drives, ..self }),
    {
        let mut s = self;
        s.extra_drives.push(drive);
        s
    }

    pub fn with_seccomp(self, enabled: bool) -> (r: Self)
        ensures
            r == (MicroVmConfig { enable_seccomp: enabled, ..self }),
    {
        let mut s = self;
        s.enable_seccomp = enabled;
        s
    }

    /// The guest memory in bytes (MiB times 1024 * 1024), without overflow.
    pub fn memory_size_bytes(&self) -> (r: u64)
        ensures
            r == self.memory_size_mib * 1048576,
    {
        self.memory_size_mib as u64 * 1048576
    }

    /// Checks that the guest has at least one vCPU and at least 128 MiB of memory.
    pub fn validate(&self) -> (r: Result<(), String>)
        ensures
            match config_error(*self) {
                Some(e) => r matches Err(m) && m@ == e,
                None => r is Ok,
            },
            r is Ok <==> (self.vcpu_count >= 1 && self.memory_size_mib >= 128),
    {
        if self.vcpu_count == 0 {
            return Err("vcpu_count must be at least 1".to_string());
        }
        if self.memory_size_mib < 128 {
            return Err("memory must be at least 128 MiB".to_string());
        }
        Ok(())
    }
}

/// Position just after the last `/` of `p`, or 0 when there is none.
pub open spec fn segment_start(p: Seq<char>) -> int
    decreases p.len(),
{
    if p.len() == 0 {
        0
    } else if p.last() == '/' {
        p.len() as int
    } else {
        segment_start(p.drop_last())
    }
}

pub proof fn lemma_segment_start(p: Seq<char>)
    ensures
        0 <= segment_start(p) <= p.len(),
        p.len() > 0 && p.last() != '/' ==> segment_start(p) < p.len(),
        forall|i: int| segment_start(p) <= i < p.len() ==> p[i] != '/',
        segment_start(p) > 0 ==> p[segment_start(p) - 1] == '/',
    decreases p.len(),
{
    if p.len() > 0 && p.last() != '/' {
        let q = p.drop_last();
        lemma_segment_start(q);
        assert forall|i: int| segment_start(p) <= i < p.len() implies p[i] != '/' by {
            if i < p.len() - 1 {
                assert(q[i] == p[i]);
            }
        }
        if segment_start(p) > 0 {
            assert(q[segment_start(p) - 1] == p[segment_start(p) - 1]);
        }
    }
}

/// The last component of a Unix path, as `Path::file_name` finds it: trailing `/` and
/// `.` components are skipped; a path that ends in `..`, or has no component, has none.
pub open spec fn file_name(p: Seq<char>) -> Option<Seq<char>>
    decreases p.len(),
{
    if p.len() == 0 {
        None
    } else if p.last() == '/' {
        file_name(p.drop_last())
    } else {
        let k = segment_start(p);
        let seg = p.subrange(k, p.len() as int);
        if seg == seq!['.'] {
            proof {
                lemma_segment_start(p);
            }
            file_name(p.subrange(0, k))
        } else if seg == seq!['.', '.'] {
            None
        } else {
            Some(seg)
        }
    }
}

/// The last component of `p` (see `file_name`).
pub fn path_file_name(p: &str) -> (r: Option<String>)
    ensures
        r is None <==> file_name(p@) is None,
        r matches Some(s) ==> file_name(p@) == Some(s@),
{
    let mut end: usize = p.unicode_len();
    proof {
        assert(p@.subrange(0, end as int) =~= p@);
    }
    loop
        invariant
            end <= p@.len(),
            file_name(p@) == file_name(p@.subrange(0, end as int)),
        decreases end,
    {
        let ghost q = p@.subrange(0, end as int);
        if end == 0 {
            return None;
        }
        if p.get_char(end - 1) == '/' {
            proof {
                assert(q.drop_last() =~= p@.subrange(0, end - 1));
            }
            end = end - 1;
        } else {
            let mut k: usize = end - 1;
            proof {
                assert(q.subrange(0, k + 1) =~= q);
            }
            while k > 0 && p.get_char(k - 1) != '/'
                invariant
                    k < end,
                    segment_start(q) == segment_start(q.subrange(0, k + 1)),
                    forall|i: int| k <= i < end ==> p@[i] != '/',
                decreases k,
            {
                proof {
                    assert(q.subrange(0, k as int + 1).drop_last() =~= q.subrange(0, k as int));
                }
                k = k - 1;
            }
            proof {
                let qk = q.subrange(0, k + 1);
                assert(p@[k as int] != '/');
                assert(qk.last() == p@[k as int]);
                assert(segment_start(qk) == segment_start(qk.drop_last()));
                if k == 0 {
                    assert(qk.drop_last() =~= Seq::<char>::empty());
                } else {
                    assert(p@[k - 1] == '/');
                    assert(q.subrange(0, k as int).last() == p@[k - 1]);
                    assert(qk.drop_last() =~= q.subrange(0, k as int));
                    assert(segment_start(q.subrange(0, k as int)) == k);
                }
                assert(segment_start(q) == k);
            }
            let seg = p.substring_char(k, end);
            proof {
                assert(seg@ =~= q.subrange(k as int, q.len() as int));
                reveal_strlit(".");
                reveal_strlit("..");
                assert("."@ =~= seq!['.']);
                assert(".."@ =~= seq!['.', '.']);
            }
            if str_is(seg, ".") {
                proof {
                    assert(seg@ =~= seq!['.']);
                    assert(q.subrange(0, k as int) =~= p@.subrange(0, k as int));
                }
                end = k;
            } else if str_is(seg, "..") {
                proof {
                    assert(seg@ =~= seq!['.', '.']);
                }
                return None;
            } else {
                proof {
                    assert(seg@ != seq!['.']);
                    assert(seg@ != seq!['.', '.']);
                }
                return Some(seg.to_string());
            }
        }
    }
}

fn str_is(a: &str, b: &str) -> (r: bool)
    ensures
        r == (a@ == b@),
{
    crate::text::str_eq(a, b)
}

/// The jailer that prepares and launches one MicroVM; `env_vars` keys are unique.
pub struct MicroVmJailer {
    config: MicroVmConfig,
    jail_dir: String,
    env_vars: Vec<crate::slsa::KeyValue>,
}

/// The map that a list of unique-keyed entries describes.
pub open spec fn kv_map(s: Seq<crate::slsa::KeyValue>) -> Map<Seq<char>, Seq<char>>
    decreases s.len(),
{
    if s.len() == 0 {
        Map::empty()
    } else {
        kv_map(s.drop_last()).insert(s.last().key@, s.last().value@)
    }
}

/// No two entries share a key.
pub open spec fn kv_keys_unique(s: Seq<crate::slsa::KeyValue>) -> bool {
    forall|i: int, j: int| 0 <= i < s.len() && 0 <= j < s.len() && i != j ==> (#[trigger] s[i]).key@ != (#[trigger] s[j]).key@
}

proof fn lemma_kv_map_dom(s: Seq<crate::slsa::KeyValue>, k: Seq<char>)
    ensures
        kv_map(s).contains_key(k) <==> exists|i: int| 0 <= i < s.len() && (#[trigger] s[i]).key@ == k,
    decreases s.len(),
{
    if s.len() > 0 {
        lemma_kv_map_dom(s.drop_last(), k);
        if kv_map(s.drop_last()).contains_key(k) {
            let i = choose|i: int| 0 <= i < s.drop_last().len() && (#[trigger] s.drop_last()[i]).key@ == k;
            assert(s[i].key@ == k);
        }
        if exists|i: int| 0 <= i < s.len() && (#[trigger] s[i]).key@ == k {
            let i = choose|i: int| 0 <= i < s.len() && (#[trigger] s[i]).key@ == k;
            if i < s.len() - 1 {
                assert(s.drop_last()[i].key@ == k);
            }
        }
    }
}

proof fn lemma_kv_map_update(s: Seq<crate::slsa::KeyValue>, i: int, e: crate::slsa::KeyValue)
    requires
        0 <= i < s.len(),
        s[i].key@ == e.key@,
        kv_keys_unique(s),
    ensures
        kv_map(s.update(i, e)) == kv_map(s).insert(e.key@, e.value@),
    decreases s.len(),
{
    let t = s.update(i, e);
    if i == s.len() - 1 {
        assert(t.drop_last() =~= s.drop_last());
        assert(kv_map(t) =~= kv_map(s).insert(e.key@, e.value@));
    } else {
        assert(t.drop_last() =~= s.drop_last().update(i, e));
        lemma_kv_map_update(s.drop_last(), i, e);
        assert(s.last().key@ != e.key@);
        assert(kv_map(t) =~= kv_map(s).insert(e.key@, e.value@));
    }
}

impl MicroVmJailer {
    /// The environment variables handed to the VM.
    pub closed spec fn env(self) -> Map<Seq<char>, Seq<char>> {
        kv_map(self.env_vars@)
    }

    pub closed spec fn wf(self) -> bool {
        kv_keys_unique(self.env_vars@)
    }

    pub closed spec fn config_spec(self) -> MicroVmConfig {
        self.config
    }

    pub closed spec fn jail_dir_spec(self) -> Seq<char> {
        self.jail_dir@
    }

    /// A jailer for `config` rooted at `jail_dir`, with no environment variables.
    pub fn new(config: MicroVmConfig, jail_dir: &str) -> (r: Self)
        ensures
            r.wf(),
            r.config_spec() == config,
            r.jail_dir_spec() == jail_dir@,
            r.env() == Map::<Seq<char>, Seq<char>>::empty(),
    {
        MicroVmJailer { config, jail_dir: jail_dir.to_string(), env_vars: Vec::new() }
    }

    /// Sets `key` to `value` in the environment, replacing an earlier value of `key`.
    pub fn with_env(self, key: String, value: String) -> (r: Self)
        requires
            self.wf(),
        ensures
            r.wf(),
            r.env() == self.env().insert(key@, value@),
            r.config_spec() == self.config_spec(),
            r.jail_dir_spec() == self.jail_dir_spec(),
    {
        let mut s = self;
        let ghost old_env = s.env_vars@;
        let mut i: usize = 0;
        while i < s.env_vars.len()
            invariant
                i <= s.env_vars@.len(),
                s.env_vars@ == old_env,
                s.config == self.config,
                s.jail_dir == self.jail_dir,
                forall|j: int| 0 <= j < i ==> (#[trigger] old_env[j]).key@ != key@,
            decreases s.env_vars@.len() - i,
        {
            if crate::text::str_eq(s.env_vars[i].key.as_str(), key.as_str()) {
                let e = crate::slsa::KeyValue { key, value };
                proof {
                    lemma_kv_map_update(old_env, i as int, e);
                }
                s.env_vars.set(i, e);
                proof {
                    assert(s.env_vars@ =~= old_env.update(i as int, e));
                    assert forall|a: int, b: int|
                        0 <= a < s.env_vars@.len() && 0 <= b < s.env_vars@.len() && a != b implies
                        (#[trigger] s.env_vars@[a]).key@ != (#[trigger] s.env_vars@[b]).key@ by {
                        assert(old_env[a].key@ != old_env[b].key@);
                    }
                }
                return s;
            }
            i = i + 1;
        }
        let e = crate::slsa::KeyValue { key, value };
        s.env_vars.push(e);
        proof {
            assert(s.env_vars@.drop_last() =~= old_env);
        }
        s
    }

    /// The configuration the VM is started with.
    pub fn config(&self) -> (r: &MicroVmConfig)
        ensures
            *r == self.config_spec(),
    {
        &self.config
    }

    /// The jail directory.
    pub fn jail_dir(&self) -> (r: &str)
        ensures
            r@ == self.jail_dir_spec(),
    {
        self.jail_dir.as_str()
    }

    /// The environment entries, each key once.
    pub fn env_vars(&self) -> (r: &[crate::slsa::KeyValue])
        requires
            self.wf(),
        ensures
            kv_keys_unique(r@),
            kv_map(r@) == self.env(),
    {
        self.env_vars.as_slice()
    }
}

/// The views of a list of strings.
pub open spec fn str_views(v: Seq<String>) -> Seq<Seq<char>> {
    v.map_values(|x: String| x@)
}

/// The command line that starts the hypervisor itself.
pub open spec fn jailer_command(c: MicroVmConfig, jail_dir: Seq<char>) -> Seq<Seq<char>> {
    match c.hypervisor {
        HypervisorType::Firecracker => seq![
            "firecracker"@,
            "--config-file"@,
            path_join(jail_dir, "vm_config.json"@),
        ],
        HypervisorType::CloudHypervisor => seq![
            "cloud-hypervisor"@,
            "--config-file"@,
            path_join(jail_dir, "ch_config.json"@),
        ],
        HypervisorType::Qemu => seq![
            "qemu-system-x86_64"@,
            "-kernel"@,
            c.kernel_image_path@,
            "-m"@,
            decimal(c.memory_size_mib as nat),
        ],
    }
}

/// The last component of a path, or nothing when it has none.
pub open spec fn file_name_or_empty(p: Seq<char>) -> Seq<char> {
    match file_name(p) {
        Some(n) => n,
        None => Seq::empty(),
    }
}

/// The command line that starts the VM: through the jailer for Firecracker when the
/// jailer is enabled, else the hypervisor's own command.
pub open spec fn jailer_wrapper_command(c: MicroVmConfig, jail_dir: Seq<char>) -> Seq<Seq<char>> {
    if c.enable_jailer && c.hypervisor == HypervisorType::Firecracker {
        seq![
            "jailer"@,
            "--id"@,
            "fish-vm-"@ + file_name_or_empty(jail_dir),
            "--exec-file"@,
            "/usr/bin/firecracker"@,
            "--uid"@,
            "123"@,
            "--gid"@,
            "100"@,
            "--chroot-base-dir"@,
            jail_dir,
            "--daemonize"@,
        ]
    } else {
        jailer_command(c, jail_dir)
    }
}

impl MicroVmJailer {
    /// The hypervisor's command line (see `jailer_command`).
    pub fn build_jailer_command(&self) -> (r: Vec<String>)
        ensures
            str_views(r@) == jailer_command(self.config_spec(), self.jail_dir_spec()),
    {
        let mut v: Vec<String> = Vec::new();
        match self.config.hypervisor {
            HypervisorType::Firecracker => {
                v.push("firecracker".to_string());
                v.push("--config-file".to_string());
                v.push(join_path(self.jail_dir.as_str(), "vm_config.json"));
            },
            HypervisorType::CloudHypervisor => {
                v.push("cloud-hypervisor".to_string());
                v.push("--config-file".to_string());
                v.push(join_path(self.jail_dir.as_str(), "ch_config.json"));
            },
            HypervisorType::Qemu => {
                v.push("qemu-system-x86_64".to_string());
                v.push("-kernel".to_string());
                v.push(self.config.kernel_image_path.clone());
                v.push("-m".to_string());
                v.push(decimal_string(self.config.memory_size_mib as u128));
            },
        }
        proof {
            assert(str_views(v@) =~= jailer_command(self.config_spec(), self.jail_dir_spec()));
        }
        v
    }

    /// The command line that launches the VM (see `jailer_wrapper_command`).
    pub fn build_jailer_wrapper_command(&self) -> (r: Vec<String>)
        ensures
            str_views(r@) == jailer_wrapper_command(self.config_spec(), self.jail_dir_spec()),
    {
        if !self.config.enable_jailer {
            return self.build_jailer_command();
        }
        match self.config.hypervisor {
            HypervisorType::Firecracker => {
                let mut id = "fish-vm-".to_string();
                match path_file_name(self.jail_dir.as_str()) {
                    Some(n) => id.append(n.as_str()),
                    None => {},
                }
                let mut v: Vec<String> = Vec::new();
                v.push("jailer".to_string());
                v.push("--id".to_string());
                v.push(id);
                v.push("--exec-file".to_string());
                v.push("/usr/bin/firecracker".to_string());
                v.push("--uid".to_string());
                v.push("123".to_string());
                v.push("--gid".to_string());
                v.push("100".to_string());
                v.push("--chroot-base-dir".to_string());
                v.push(self.jail_dir.clone());
                v.push("--daemonize".to_string());
                proof {
                    assert(str_views(v@) =~= jailer_wrapper_command(
                        self.config_spec(),
                        self.jail_dir_spec(),
                    ));
                }
                v
            },
            _ => self.build_jailer_command(),
        }
    }
}

/// The text that a simulated run reports, given how the jail directory prints.
pub open spec fn run_report(c: MicroVmConfig, command: Seq<Seq<char>>, jail_text: Seq<char>) -> Seq<char> {
    "MicroVM ("@ + hypervisor_name(c.hypervisor) + ") executed: "@ + joined(command, " "@)
        + " in jail "@ + jail_text + " with "@ + decimal(c.vcpu_count as nat) + " vCPUs, "@
        + decimal(c.memory_size_mib as nat) + " MiB"@
}

/// The report of a simulated run of `command` under `config`; `jail_text` is the jail
/// directory as `{:?}` prints it.
pub fn run_report_text(config: &MicroVmConfig, command: &[String], jail_text: &str) -> (r: String)
    ensures
        r@ == run_report(*config, str_views(command@), jail_text@),
{
    let mut out = "MicroVM (".to_string();
    out.append(config.hypervisor.debug_name());
    out.append(") executed: ");
    let cmd = join(command, " ");
    out.append(cmd.as_str());
    out.append(" in jail ");
    out.append(jail_text);
    out.append(" with ");
    let cpus = decimal_string(config.vcpu_count as u128);
    out.append(cpus.as_str());
    out.append(" vCPUs, ");
    let mem = decimal_string(config.memory_size_mib as u128);
    out.append(mem.as_str());
    out.append(" MiB");
    proof {
        assert(command@.map_values(|x: String| x@) == str_views(command@));
    }
    out
}

/// How `{:?}` prints a path with the given text; a function of the text alone.
pub uninterp spec fn path_debug_text(p: Seq<char>) -> Seq<char>;

/// Formats the path `p` with `{:?}` (`Debug` for `std::path::Path`).
#[verifier::external_body]
pub(crate) fn debug_path(p: &str) -> (r: String)
    ensures
        r@ == path_debug_text(p@),
{
    format!("{:?}", std::path::Path::new(p))
}

#[verifier::external_type_specification]
#[verifier::external_body]
pub struct ExInstant(Instant);

/// Reads the monotonic clock (`Instant::now`); nothing is promised of the value.
#[verifier::external_body]
fn instant_now() -> Instant {
    Instant::now()
}

/// The time elapsed since `start` (`Instant::elapsed`); nothing is promised of the value.
#[verifier::external_body]
fn elapsed_since(start: &Instant) -> Duration {
    start.elapsed()
}

/// The outcome of a command run inside a MicroVM.
#[derive(Debug)]
pub struct VmExecutionResult {
    pub exit_code: i32,
    pub stdout: String,
    pub stderr: String,
    pub duration: Duration,
    pub vm_config: MicroVmConfig,
}

impl VmExecutionResult {
    /// The command exited with status 0.
    pub fn success(&self) -> (r: bool)
        ensures
            r == (self.exit_code == 0),
    {
        self.exit_code == 0
    }
}

impl MicroVmJailer {
    /// Runs `command` in the VM (simulated): a configuration that `validate` refuses is
    /// refused with its message; otherwise the run exits with 0, reports what ran where
    /// on stdout, leaves stderr empty and records the configuration.
    pub fn execute_in_vm(&self, command: &[String]) -> (r: Result<VmExecutionResult, String>)
        ensures
            match config_error(self.config_spec()) {
                Some(e) => r matches Err(m) && m@ == e,
                None => r matches Ok(res) && res.exit_code == 0 && res.stdout@ == run_report(
                    self.config_spec(),
                    str_views(command@),
                    path_debug_text(self.jail_dir_spec()),
                ) && res.stderr@ == Seq::<char>::empty() && res.vm_config.same_as(self.config_spec()),
            },
    {
        match self.config.validate() {
            Err(e) => {
                return Err(e);
            },
            Ok(()) => {},
        }
        let start = instant_now();
        let jail_text = debug_path(self.jail_dir.as_str());
        let stdout = run_report_text(&self.config, command, jail_text.as_str());
        let duration = elapsed_since(&start);
        Ok(
            VmExecutionResult {
                exit_code: 0,
                stdout,
                stderr: String::new(),
                duration,
                vm_config: self.config.clone(),
            },
        )
    }
}

/// Runs builds hermetically, each in a fresh jail below `jail_base`.
pub struct HermeticMicroVmExecutor {
    base_config: MicroVmConfig,
    jail_base: String,
}

impl HermeticMicroVmExecutor {
    pub closed spec fn base_config_spec(self) -> MicroVmConfig {
        self.base_config
    }

    pub closed spec fn jail_base_spec(self) -> Seq<char> {
        self.jail_base@
    }

    pub fn new(base_config: MicroVmConfig, jail_base: &str) -> (r: Self)
        ensures
            r.base_config_spec() == base_config,
            r.jail_base_spec() == jail_base@,
    {
        HermeticMicroVmExecutor { base_config, jail_base: jail_base.to_string() }
    }

    /// The jailer for build `build_id`: its jail is `build_id` below the jail base, and its
    /// VM boots a read-only copy of the root file system kept in that jail, with seccomp
    /// on; everything else is the base configuration.
    pub fn hermetic_jailer(&self, build_id: &str) -> (r: MicroVmJailer)
        ensures
            r.wf(),
            r.env() == Map::<Seq<char>, Seq<char>>::empty(),
            r.jail_dir_spec() == path_join(self.jail_base_spec(), build_id@),
            r.config_spec().rootfs_path@ == path_join(r.jail_dir_spec(), "rootfs.ext4"@),
            r.config_spec().same_as(
                MicroVmConfig {
                    rootfs_path: r.config_spec().rootfs_path,
                    read_only_rootfs: true,
                    enable_seccomp: true,
                    ..self.base_config_spec()
                },
            ),
    {
        let jail_dir = join_path(self.jail_base.as_str(), build_id);
        let rootfs = join_path(jail_dir.as_str(), "rootfs.ext4");
        let mut config = self.base_config.clone();
        config.rootfs_path = rootfs;
        config.read_only_rootfs = true;
        config.enable_seccomp = true;
        MicroVmJailer::new(config, jail_dir.as_str())
    }
}

/// The network interface section of a Firecracker configuration.
#[derive(Debug)]
pub enum NetworkPlan {
    /// No interface.
    Disabled,
    /// The configured interface.
    Configured(NetworkConfig),
    /// Networking is on with no interface configured: `eth0` on `tap0`, MMDS off.
    Fallback,
}

/// What a Firecracker configuration file describes.
#[derive(Debug)]
pub struct VmDocument {
    pub kernel_image_path: String,
    /// The root drive first, then the extra drives in order.
    pub drives: Vec<DriveConfig>,
    pub vcpu_count: u8,
    pub mem_size_mib: u32,
    pub network: NetworkPlan,
    /// The vsock socket path, when vsock is enabled.
    pub vsock_uds_path: Option<String>,
    /// Whether the seccomp section is present.
    pub seccomp: bool,
}

/// The root drive of a configuration.
pub open spec fn root_drive(c: MicroVmConfig, d: DriveConfig) -> bool {
    &&& d.drive_id@ == "rootfs"@
    &&& d.path_on_host == c.rootfs_path
    &&& d.is_root_device
    &&& d.is_read_only == c.read_only_rootfs
}

impl MicroVmJailer {
    /// The contents of the Firecracker configuration file: the root drive followed by the
    /// extra drives, the network section (the configured interface, or `eth0` on `tap0`
    /// when networking is on without one), the vsock socket `vsock.sock` in the jail when
    /// vsock is on, and the seccomp section when seccomp is on.
    pub fn vm_document(&self) -> (r: VmDocument)
        ensures
            r.kernel_image_path == self.config_spec().kernel_image_path,
            r.drives@.len() == self.config_spec().extra_drives@.len() + 1,
            root_drive(self.config_spec(), r.drives@[0]),
            r.drives@.subrange(1, r.drives@.len() as int) == self.config_spec().extra_drives@,
            r.vcpu_count == self.config_spec().vcpu_count,
            r.mem_size_mib == self.config_spec().memory_size_mib,
            !self.config_spec().enable_network ==> r.network is Disabled,
            self.config_spec().enable_network ==> match self.config_spec().network_config {
                Some(n) => r.network == NetworkPlan::Configured(n),
                None => r.network is Fallback,
            },
            self.config_spec().vsock_enabled ==> (r.vsock_uds_path matches Some(p) && p@ == path_join(
                self.jail_dir_spec(),
                "vsock.sock"@,
            )),
            !self.config_spec().vsock_enabled ==> r.vsock_uds_path is None,
            r.seccomp == self.config_spec().enable_seccomp,
    {
        let c = &self.config;
        let mut drives: Vec<DriveConfig> = Vec::new();
        drives.push(
            DriveConfig {
                drive_id: "rootfs".to_string(),
                path_on_host: c.rootfs_path.clone(),
                is_read_only: c.read_only_rootfs,
                is_root_device: true,
            },
        );
        let mut i: usize = 0;
        while i < c.extra_drives.len()
            invariant
                i <= c.extra_drives@.len(),
                drives@.len() == i + 1,
                root_drive(*c, drives@[0]),
                drives@.subrange(1, i + 1) == c.extra_drives@.subrange(0, i as int),
            decreases c.extra_drives@.len() - i,
        {
            drives.push(c.extra_drives[i].clone());
            proof {
                assert(drives@.subrange(1, i + 2) =~= c.extra_drives@.subrange(0, i + 1));
            }
            i = i + 1;
        }
        proof {
            assert(c.extra_drives@.subrange(0, i as int) =~= c.extra_drives@);
        }
        let network = if !c.enable_network {
            NetworkPlan::Disabled
        } else {
            match &c.network_config {
                Some(n) => NetworkPlan::Configured(n.clone()),
                None => NetworkPlan::Fallback,
            }
        };
        let vsock_uds_path = if c.vsock_enabled {
            Some(join_path(self.jail_dir.as_str(), "vsock.sock"))
        } else {
            None
        };
        VmDocument {
            kernel_image_path: c.kernel_image_path.clone(),
            drives,
            vcpu_count: c.vcpu_count,
            mem_size_mib: c.memory_size_mib,
            network,
            vsock_uds_path,
            seccomp: c.enable_seccomp,
        }
    }
}

/// A hermetic build's configuration differs from the base only in its root file system,
/// which is read-only, and in seccomp, which is on; such a build passes `validate`, and so
/// runs, exactly when the base configuration does.
pub proof fn law_hermetic_build_validates_like_base(base: MicroVmConfig, hermetic: MicroVmConfig)
    requires
        hermetic.same_as(
            MicroVmConfig {
                rootfs_path: hermetic.rootfs_path,
                read_only_rootfs: true,
                enable_seccomp: true,
                ..base
            },
        ),
    ensures
        config_error(hermetic) == config_error(base),
{
}

} // verus!
