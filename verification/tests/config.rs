use zts_installer::device::{ConfigError, Device, device_name, parse_device, validate_config};
use zts_installer::manifest::{FileMap, HashInfo, HashInfoMap, ReleaseManifest};
use zts_installer::notify::{Notification, NotificationChannel, poll_notification,
    send_notification};

#[test]
fn device_parses_case_insensitively() {
    assert_eq!(parse_device("CPU").unwrap(), Device::Cpu);
    assert_eq!(parse_device("cpu").unwrap(), Device::Cpu);
    assert_eq!(parse_device("CUDA").unwrap(), Device::Cuda);
    assert_eq!(parse_device("CuDa").unwrap(), Device::Cuda);
}

#[test]
fn device_rejects_unknown_names() {
    assert!(matches!(
        parse_device("gpu"),
        Err(ConfigError::DeviceInvalid { value }) if value == "gpu"
    ));
    assert!(matches!(parse_device(""), Err(ConfigError::DeviceInvalid { .. })));
}

#[test]
fn device_names_match_release_assets() {
    assert_eq!(device_name(Device::Cpu), "CPU");
    assert_eq!(device_name(Device::Cuda), "CUDA");
}

#[test]
fn config_requires_device_and_version() {
    assert!(matches!(validate_config(None, Some("1.0.0")), Err(ConfigError::DeviceNotSet)));
    assert!(matches!(validate_config(Some("cpu"), None), Err(ConfigError::VersionNotSet)));
    let (device, version) = validate_config(Some("cuda"), Some("1.2.3")).unwrap();
    assert_eq!(device, Device::Cuda);
    assert_eq!(version, "1.2.3");
}

#[test]
fn notifications_are_polled_in_order() {
    let mut channel = NotificationChannel::new();
    assert_eq!(poll_notification(&mut channel), None);
    send_notification(&mut channel, Notification::ServerExit { code: 1 });
    send_notification(&mut channel, Notification::ServerExit { code: 2 });
    assert_eq!(channel.len(), 2);
    assert_eq!(poll_notification(&mut channel), Some(Notification::ServerExit { code: 1 }));
    assert_eq!(poll_notification(&mut channel), Some(Notification::ServerExit { code: 2 }));
    assert_eq!(poll_notification(&mut channel), None);
}

#[test]
fn file_map_lookup() {
    let mut m = FileMap::new();
    m.push("a".to_string(), "h1".to_string());
    m.push("b".to_string(), "h2".to_string());
    assert_eq!(m.len(), 2);
    assert!(m.contains(&"a".to_string()));
    assert!(!m.contains(&"z".to_string()));
    assert_eq!(m.get(&"b".to_string()), Some(&"h2".to_string()));
    assert_eq!(m.get(&"z".to_string()), None);
}

#[test]
fn release_consistency_check() {
    let mut infos = HashInfoMap::new();
    infos.push(
        "h1".to_string(),
        HashInfo { position: 0, compressed_size: 1, decompressed_size: 2 },
    );
    let consistent = ReleaseManifest {
        version: "1.0.0".to_string(),
        device: Device::Cpu,
        files: {
            let mut m = FileMap::new();
            m.push("a".to_string(), "h1".to_string());
            m
        },
        hash_info: infos,
    };
    assert!(consistent.check_consistent());
    let broken = ReleaseManifest {
        version: "1.0.0".to_string(),
        device: Device::Cpu,
        files: {
            let mut m = FileMap::new();
            m.push("a".to_string(), "h9".to_string());
            m
        },
        hash_info: HashInfoMap::new(),
    };
    assert!(!broken.check_consistent());
}
