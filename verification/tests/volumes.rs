use diskscan::{collect_drives, make_drive_info, RawVolume};

#[test]
fn used_space_is_total_minus_available() {
    let d = make_drive_info(
        String::from("disk0"),
        String::from("/"),
        100,
        30,
        String::from("ext4"),
    );
    assert_eq!(d.name, "disk0");
    assert_eq!(d.mount_point, "/");
    assert_eq!(d.total_space, 100);
    assert_eq!(d.available_space, 30);
    assert_eq!(d.used_space, 70);
    assert_eq!(d.file_system, "ext4");
}

#[test]
fn used_space_saturates_when_os_reports_more_available_than_total() {
    let d = make_drive_info(
        String::from("remote"),
        String::from("/mnt/r"),
        100,
        130,
        String::from("nfs"),
    );
    assert_eq!(d.used_space, 0);
    assert!(d.used_space <= d.total_space);
}

#[test]
fn volumes_overview_keeps_order_and_derives_usage() {
    let raw = vec![
        RawVolume {
            name: String::from("disk0"),
            mount_point: String::from("/"),
            total_space: 1000,
            available_space: 250,
            file_system: String::from("ext4"),
        },
        RawVolume {
            name: String::from("net"),
            mount_point: String::from("/mnt/net"),
            total_space: 50,
            available_space: 80,
            file_system: String::from("nfs"),
        },
    ];
    let out = collect_drives(&raw);
    assert_eq!(out.len(), 2);
    assert_eq!(out[0].name, "disk0");
    assert_eq!(out[0].used_space, 750);
    assert_eq!(out[1].name, "net");
    assert_eq!(out[1].used_space, 0);
    for d in &out {
        assert!(d.used_space <= d.total_space);
    }
}

#[test]
fn used_space_never_exceeds_total() {
    for (total, avail) in [(0u64, 0u64), (1, 0), (0, 1), (u64::MAX, 1), (5, u64::MAX)] {
        let d = make_drive_info(
            String::from("v"),
            String::from("/v"),
            total,
            avail,
            String::from("fs"),
        );
        assert!(d.used_space <= d.total_space);
    }
}
