use fish::microvm::{
    path_file_name, DriveConfig, HermeticMicroVmExecutor, HypervisorType, MicroVmConfig, MicroVmJailer,
    NetworkConfig, NetworkPlan,
};

#[test]
fn test_microvm_config_generation() {
    let jailer = MicroVmJailer::new(MicroVmConfig::default(), "/tmp/jail");
    let doc = jailer.vm_document();
    assert!(doc.drives.iter().any(|d| d.drive_id == "rootfs"));
    assert_eq!(doc.kernel_image_path, "/var/lib/fish/vmlinux");
}

#[test]
fn test_microvm_with_extra_drives_and_network() {
    let config = MicroVmConfig {
        vcpu_count: 4,
        memory_size_mib: 2048,
        enable_network: true,
        network_config: Some(NetworkConfig {
            iface_id: "eth0".to_string(),
            host_dev_name: "tap0".to_string(),
            guest_mac: Some("AA:FC:00:00:00:01".to_string()),
            allow_mmds: false,
        }),
        extra_drives: vec![DriveConfig {
            drive_id: "workspace".to_string(),
            path_on_host: "/tmp/workspace.ext4".to_string(),
            is_read_only: true,
            is_root_device: false,
        }],
        ..Default::default()
    };

    let jailer = MicroVmJailer::new(config, "/tmp/jail-advanced");
    let doc = jailer.vm_document();
    assert!(doc.drives.iter().any(|d| d.drive_id == "workspace"));
    match &doc.network {
        NetworkPlan::Configured(n) => assert_eq!(n.iface_id, "eth0"),
        other => panic!("unexpected network section {:?}", other),
    }
}

#[test]
fn test_microvm_hypervisor_types() {
    let firecracker = MicroVmConfig::default().with_hypervisor(HypervisorType::Firecracker);
    let jailer = MicroVmJailer::new(firecracker, "/tmp/jail-fc");
    let cmd = jailer.build_jailer_command();
    assert!(cmd[0].contains("firecracker"));

    let ch = MicroVmConfig::default().with_hypervisor(HypervisorType::CloudHypervisor);
    let jailer_ch = MicroVmJailer::new(ch, "/tmp/jail-ch");
    let cmd_ch = jailer_ch.build_jailer_command();
    assert!(cmd_ch[0].contains("cloud-hypervisor"));
}

#[test]
fn test_hermetic_execution() {
    let config = MicroVmConfig::default();
    let executor = HermeticMicroVmExecutor::new(config, "/tmp/fish-vms");

    let jailer = executor.hermetic_jailer("test-build-123");
    let result = jailer.execute_in_vm(&["cargo".to_string(), "build".to_string()]).unwrap();

    assert!(result.success());
    assert!(result.stdout.contains("cargo build"));
}

#[test]
fn test_vm_config_validation() {
    let mut config = MicroVmConfig::default();
    config.vcpu_count = 0;
    assert!(config.validate().is_err());

    config.vcpu_count = 2;
    config.memory_size_mib = 64;
    assert!(config.validate().is_err());

    config.memory_size_mib = 1024;
    assert!(config.validate().is_ok());
}

#[test]
fn validation_messages_name_the_problem() {
    let mut config = MicroVmConfig::default();
    config.vcpu_count = 0;
    config.memory_size_mib = 1;
    assert_eq!(config.validate().unwrap_err(), "vcpu_count must be at least 1");
    config.vcpu_count = 1;
    assert_eq!(config.validate().unwrap_err(), "memory must be at least 128 MiB");
    config.memory_size_mib = 128;
    assert!(config.validate().is_ok());
}

#[test]
fn commands_name_the_config_files() {
    let fc = MicroVmJailer::new(MicroVmConfig::default(), "/tmp/jail-fc");
    assert_eq!(fc.build_jailer_command(), vec!["firecracker", "--config-file", "/tmp/jail-fc/vm_config.json"]);
    let q = MicroVmJailer::new(MicroVmConfig::default().with_hypervisor(HypervisorType::Qemu), "/j/");
    assert_eq!(
        q.build_jailer_command(),
        vec!["qemu-system-x86_64", "-kernel", "/var/lib/fish/vmlinux", "-m", "1024"]
    );
}

#[test]
fn jailer_wraps_firecracker_only() {
    let fc = MicroVmJailer::new(MicroVmConfig::default(), "/tmp/jail-fc/");
    let cmd = fc.build_jailer_wrapper_command();
    assert_eq!(cmd[0], "jailer");
    assert_eq!(cmd[2], "fish-vm-jail-fc");
    assert_eq!(cmd[10], "/tmp/jail-fc/");
    assert_eq!(cmd.len(), 12);
    let ch = MicroVmJailer::new(MicroVmConfig::default().with_hypervisor(HypervisorType::CloudHypervisor), "/x");
    assert_eq!(ch.build_jailer_wrapper_command(), ch.build_jailer_command());
    let mut no_jail = MicroVmConfig::default();
    no_jail.enable_jailer = false;
    let plain = MicroVmJailer::new(no_jail, "/x");
    assert_eq!(plain.build_jailer_wrapper_command()[0], "firecracker");
}

#[test]
fn file_names_follow_path_rules() {
    assert_eq!(path_file_name("/tmp/jail-fc"), Some("jail-fc".to_string()));
    assert_eq!(path_file_name("/tmp/a/./"), Some("a".to_string()));
    assert_eq!(path_file_name("/tmp/.."), None);
    assert_eq!(path_file_name("/"), None);
    assert_eq!(path_file_name(""), None);
    assert_eq!(path_file_name("name"), Some("name".to_string()));
}

#[test]
fn hermetic_jailer_isolates_the_root_file_system() {
    let mut base = MicroVmConfig::default();
    base.read_only_rootfs = false;
    base.enable_seccomp = false;
    let executor = HermeticMicroVmExecutor::new(base, "/var/vms");
    let jailer = executor.hermetic_jailer("b1");
    assert_eq!(jailer.jail_dir(), "/var/vms/b1");
    assert_eq!(jailer.config().rootfs_path, "/var/vms/b1/rootfs.ext4");
    assert!(jailer.config().read_only_rootfs);
    assert!(jailer.config().enable_seccomp);
}

#[test]
fn run_report_names_the_hypervisor_and_jail() {
    let jailer = MicroVmJailer::new(MicroVmConfig::default(), "/tmp/j");
    let r = jailer.execute_in_vm(&["make".to_string(), "all".to_string()]).unwrap();
    assert_eq!(r.stdout, "MicroVM (Firecracker) executed: make all in jail \"/tmp/j\" with 2 vCPUs, 1024 MiB");
    assert_eq!(r.stderr, "");
    assert_eq!(r.exit_code, 0);
}

#[test]
fn invalid_config_is_not_run() {
    let mut c = MicroVmConfig::default();
    c.memory_size_mib = 64;
    let jailer = MicroVmJailer::new(c, "/tmp/j");
    assert_eq!(jailer.execute_in_vm(&[]).unwrap_err(), "memory must be at least 128 MiB");
}

#[test]
fn environment_keeps_the_last_value_per_key() {
    let jailer = MicroVmJailer::new(MicroVmConfig::default(), "/tmp/j")
        .with_env("A".to_string(), "1".to_string())
        .with_env("B".to_string(), "2".to_string())
        .with_env("A".to_string(), "3".to_string());
    let env = jailer.env_vars();
    assert_eq!(env.len(), 2);
    assert_eq!(env[0].key, "A");
    assert_eq!(env[0].value, "3");
}

#[test]
fn vm_document_reflects_network_vsock_and_seccomp() {
    let mut c = MicroVmConfig::default();
    c.enable_network = true;
    c.vsock_enabled = true;
    c.enable_seccomp = false;
    let jailer = MicroVmJailer::new(c, "/tmp/j");
    let doc = jailer.vm_document();
    assert!(matches!(doc.network, NetworkPlan::Fallback));
    assert_eq!(doc.vsock_uds_path, Some("/tmp/j/vsock.sock".to_string()));
    assert!(!doc.seccomp);
    assert_eq!(doc.drives.len(), 1);
    assert!(doc.drives[0].is_root_device);
}

#[test]
fn memory_in_bytes_does_not_overflow() {
    let mut c = MicroVmConfig::default();
    c.memory_size_mib = 8192;
    assert_eq!(c.memory_size_bytes(), 8192u64 * 1024 * 1024);
}
