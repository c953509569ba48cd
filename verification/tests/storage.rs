use mkv_subscale::storage::{
    extract_base_block_device, is_rotational_flag, parse_best_mount, parse_mount_table,
    rotational_flag_path, select_best_mount, MountEntry,
};

#[test]
fn test_extract_base_block_device() {
    // Standard SATA / IDE / VirtIO drives
    assert_eq!(extract_base_block_device("sda1"), "sda");
    assert_eq!(extract_base_block_device("sdb12"), "sdb");
    assert_eq!(extract_base_block_device("hda"), "hda");
    assert_eq!(extract_base_block_device("vda2"), "vda");

    // NVMe & SD cards
    assert_eq!(extract_base_block_device("nvme0n1p1"), "nvme0n1");
    assert_eq!(extract_base_block_device("nvme1n1p2"), "nvme1n1");
    assert_eq!(extract_base_block_device("mmcblk0p1"), "mmcblk0");

    // Device Mapper (LVM/LUKS), Software RAID, Loop devices
    assert_eq!(extract_base_block_device("dm-0"), "dm-0");
    assert_eq!(extract_base_block_device("md0"), "md0");
    assert_eq!(extract_base_block_device("loop0"), "loop0");
}

#[test]
fn test_parse_best_mount() {
    let mock_mounts = "\
sysfs /sys sysfs rw,nosuid,nodev,noexec,relatime 0 0
proc /proc proc rw,nosuid,nodev,noexec,relatime 0 0
/dev/sda2 / ext4 rw,relatime 0 0
/dev/nvme0n1p1 /boot/efi vfat rw,relatime 0 0
/dev/sdb1 /media/storage ext4 rw,relatime 0 0
/dev/mapper/vg-home /home ext4 rw,relatime 0 0
";

    assert_eq!(parse_best_mount(mock_mounts, "/usr/bin/ls"), Some("/dev/sda2"));

    assert_eq!(
        parse_best_mount(mock_mounts, "/media/storage/Movies/video.mkv"),
        Some("/dev/sdb1")
    );

    assert_eq!(
        parse_best_mount(mock_mounts, "/home/user/file.txt"),
        Some("/dev/mapper/vg-home")
    );
    // test
    assert_eq!(parse_best_mount("", "/path"), None);
}

#[test]
fn partition_stripping_is_idempotent_on_examples() {
    for name in ["sda1", "nvme0n1p1", "mmcblk0p1", "vda", "dm-0", "sd", "nvme", "xyz9"] {
        let once = extract_base_block_device(name);
        assert_eq!(extract_base_block_device(once), once);
    }
    assert_eq!(extract_base_block_device("sd12"), "sd");
    assert_eq!(extract_base_block_device("nvme0n1"), "nvme0n1");
}

#[test]
fn mount_points_match_whole_components_only() {
    let mounts = "/dev/sda1 / ext4 rw 0 0\n/dev/sdb1 /home ext4 rw 0 0\n";
    assert_eq!(parse_best_mount(mounts, "/homework/a"), Some("/dev/sda1"));
    assert_eq!(parse_best_mount(mounts, "/home"), Some("/dev/sdb1"));
}

#[test]
fn first_of_equally_long_mount_points_wins() {
    let mounts = "/dev/sda1 /data ext4 rw 0 0\n/dev/sdb1 /data ext4 rw 0 0\n";
    assert_eq!(parse_best_mount(mounts, "/data/x"), Some("/dev/sda1"));
}

#[test]
fn short_and_crlf_mount_lines() {
    let mounts = "lonely\r\n\t/dev/vdb3\t/srv  xfs\r\n";
    let entries = parse_mount_table(mounts);
    assert_eq!(entries.len(), 1);
    assert_eq!(&mounts[entries[0].device_start..entries[0].device_end], "/dev/vdb3");
    assert_eq!(entries[0].mount_point, "/srv");
    assert_eq!(parse_best_mount(mounts, "/srv/media"), Some("/dev/vdb3"));
    assert_eq!(parse_best_mount(mounts, "/other"), None);
}

#[test]
fn best_mount_selection_prefers_longest_then_first() {
    let entry = |m: &str| MountEntry {
        device_start: 0,
        device_end: 0,
        mount_point: m.to_string(),
    };
    let entries = vec![entry("/"), entry("/ab"), entry("/cd"), entry("/abcd")];
    assert_eq!(select_best_mount(&entries, &vec![true, true, true, false]), Some(1));
    assert_eq!(select_best_mount(&entries, &vec![true, false, false, true]), Some(3));
    assert_eq!(select_best_mount(&entries, &vec![false, false]), None);
    assert_eq!(select_best_mount(&entries, &vec![true]), Some(0));
}

#[test]
fn rotational_flag_file_for_devices() {
    assert_eq!(rotational_flag_path("/dev/sda2"), "/sys/block/sda/queue/rotational");
    assert_eq!(rotational_flag_path("dm-0"), "/sys/block/dm-0/queue/rotational");
    assert_eq!(
        rotational_flag_path("/dev/nvme0n1p3"),
        "/sys/block/nvme0n1/queue/rotational"
    );
    assert_eq!(
        rotational_flag_path("/dev//dev/mapper/vg-home"),
        "/sys/block/mapper/vg-home/queue/rotational"
    );
    assert_eq!(
        rotational_flag_path("/dev//dev/vdb1"),
        "/sys/block/vdb/queue/rotational"
    );
}

#[test]
fn rotational_flag_text() {
    assert!(is_rotational_flag("1\n"));
    assert!(is_rotational_flag(" 1 "));
    assert!(!is_rotational_flag("0\n"));
    assert!(!is_rotational_flag(""));
    assert!(!is_rotational_flag("11"));
}
