use revenant_core::platform::{
    data_dir_for, drive_letter, macos_raw_device, parse_diskutil_list, parse_windows_disks, physical_drive_number_of,
    reported_disk_number, same_disk_name, whole_disk, windows_raw_device,
};

#[test]
fn windows_disk_listing_is_read() {
    let text = "0|Samsung SSD 970|500107862016\r\n1|USB Disk|oops\r\nbroken line\r\n2|Empty\r\n";
    let disks = parse_windows_disks(text);
    assert_eq!(
        disks,
        vec![
            ("0".to_string(), "Samsung SSD 970".to_string(), 500107862016),
            ("1".to_string(), "USB Disk".to_string(), 0),
        ]
    );
    let d = windows_raw_device("1", "USB Disk", 0, Some("Access is denied.".to_string()));
    assert_eq!(d.id, "PhysicalDrive1");
    assert_eq!(d.path, r"\\.\PhysicalDrive1");
    assert_eq!(d.platform, "windows");
    assert!(!d.scan_capable);
    assert_eq!(d.reason.as_deref(), Some("Access is denied."));
}

#[test]
fn diskutil_listing_names_each_disk_once() {
    let text = "/dev/disk0 (internal, physical):\n   #: TYPE NAME\n   0: GUID_partition_scheme *500.3 GB disk0\n/dev/disk2 (external, physical):\nsee /dev/disk0 again\n";
    assert_eq!(parse_diskutil_list(text), vec!["/dev/disk0".to_string(), "/dev/disk2".to_string()]);
    let d = macos_raw_device("/dev/disk2", None);
    assert_eq!(d.path, "/dev/rdisk2");
    assert!(d.scan_capable);
    assert_eq!(d.size_bytes, 0);
}

#[test]
fn windows_disk_numbers() {
    assert_eq!(physical_drive_number_of(r"\\.\PhysicalDrive12"), Some("12".to_string()));
    assert_eq!(physical_drive_number_of(r"\\.\PhysicalDriveX"), None);
    assert_eq!(physical_drive_number_of("C:\\data"), None);
    assert_eq!(drive_letter("C:\\data"), Some('C'));
    assert_eq!(drive_letter("1:\\data"), None);
    assert_eq!(drive_letter("C"), None);
    assert_eq!(reported_disk_number("  3\r\n"), Some("3".to_string()));
    assert_eq!(reported_disk_number(" \r\n"), None);
}

#[test]
fn macos_whole_disk_from_diskutil_info() {
    let info = "   Device Identifier:        disk3s1\n   Device Node:              /dev/disk3s1\n   Part of Whole:            disk3\n";
    assert_eq!(whole_disk(info, "/Volumes/X"), Some("disk3".to_string()));
    let info = "   Device Identifier:        disk5s2\n";
    assert_eq!(whole_disk(info, "/Volumes/X"), Some("disk5".to_string()));
    assert_eq!(whole_disk("", "/dev/disk7s1"), Some("disk7".to_string()));
    assert_eq!(whole_disk("", "/Volumes/X"), None);
}

#[test]
fn disk_names_match_only_when_equal_and_present() {
    assert!(same_disk_name(b"sda\n", b"sda\n"));
    assert!(!same_disk_name(b"", b""));
    assert!(!same_disk_name(b"sda\n", b"sdb\n"));
}

#[test]
fn data_dir_prefers_the_override_then_the_platform_default() {
    assert_eq!(data_dir_for(Some("/srv/rev"), "linux", None, Some("/home/u")), "/srv/rev");
    assert_eq!(data_dir_for(None, "linux", None, Some("/home/u")), "/home/u/.local/share/revenant");
    assert_eq!(data_dir_for(None, "macos", None, Some("/Users/u")), "/Users/u/Library/Application Support/Revenant");
    assert_eq!(data_dir_for(None, "windows", Some("C:\\Users\\u\\AppData\\Local"), Some("x")), "C:\\Users\\u\\AppData\\Local\\Revenant");
    assert_eq!(data_dir_for(None, "windows", None, Some("/home/u")), "./revenant-data");
    assert_eq!(data_dir_for(None, "freebsd", None, None), "./revenant-data");
}
