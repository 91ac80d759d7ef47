use cloudyy_system_monitor::command::CommandOutput;
use cloudyy_system_monitor::disk::{is_real_mount, parse_df, read_disks, DiskInfo};

const TABLE: &str = "Filesystem Type 1-blocks Used Available Capacity Mounted on\n\
    /dev/sdb1 ext4 1000 400 600 40% /mnt/data\n\
    tmpfs tmpfs 1000 400 600 40% /home/ram\n\
    /dev/sda2 ext4 1000 500 500 50% /\n\
    udev devtmpfs 10 0 10 0% /dev\n\
    /dev/sda3 btrfs 1000 1000 0 100% /home\n\
    /dev/sda1 vfat 512 5 507 1% /boot/efi\n\
    /dev/sdc1 ext4 1000 1 2 3% /srv\n";

fn tuples(disks: &[DiskInfo]) -> Vec<(&str, u8, u64, u64)> {
    disks.iter().map(|d| (d.mount.as_str(), d.percent, d.used, d.total)).collect()
}

#[test]
fn real_mounts_are_shown_in_order() {
    assert_eq!(
        tuples(&parse_df(TABLE)),
        vec![
            ("/", 50, 500, 1000),
            ("/boot/efi", 1, 5, 500),
            ("/home", 100, 1000, 1000),
            ("/mnt/data", 40, 400, 1000),
        ]
    );
}

#[test]
fn equal_mounts_keep_their_order() {
    let table = "heading\na ext4 1 9 1 9% /mnt\nb ext4 1 1 1 1% /\nc ext4 1 8 1 8% /mnt\nd ext4 1 7 1 7% /mnt\n";
    assert_eq!(
        tuples(&parse_df(table)),
        vec![("/", 1, 1, 100), ("/mnt", 9, 9, 100), ("/mnt", 8, 8, 100), ("/mnt", 7, 7, 100)]
    );
}

#[test]
fn order_of_the_rows_has_no_influence() {
    let rows = ["a ext4 1 1 1 1% /mnt", "b tmpfs 1 2 1 2% /", "c ext4 1 3 1 3% /", "d ext4 1 4 1 4% /home"];
    let forth = format!("h\n{}\n{}\n{}\n{}\n", rows[0], rows[1], rows[2], rows[3]);
    let back = format!("heading\n{}\n{}\n{}\n{}\n", rows[3], rows[2], rows[1], rows[0]);
    assert_eq!(tuples(&parse_df(&forth)), tuples(&parse_df(&back)));
    assert_eq!(parse_df(&forth).len(), 3);
}

#[test]
fn mounts_are_ordered_as_strings_are() {
    let names = ["/mnt/b", "/mnt/\u{e9}", "/mnt", "/mnt/a", "/mnt/\u{1f600}", "/mnt/\u{ffff}", "/home"];
    let mut table = String::from("heading\n");
    for n in names {
        table.push_str(&format!("d ext4 1 1 1 1% {n}\n"));
    }
    let mut want: Vec<String> = names.iter().map(|n| n.to_string()).collect();
    want.sort();
    let got: Vec<String> = parse_df(&table).into_iter().map(|d| d.mount).collect();
    assert_eq!(got, want);
}

#[test]
fn unreadable_numbers_count_as_zero() {
    let table = "h\nd ext4 1 many 1 - /\nd ext4 1 7 1 %%% /home\nd ext4 1 7 1 256% /mnt\nshort row\n\n";
    assert_eq!(
        tuples(&parse_df(table)),
        vec![("/", 0, 0, 0), ("/home", 0, 7, 700), ("/mnt", 0, 7, 700)]
    );
}

#[test]
fn total_saturates() {
    let max = u64::MAX;
    let table = format!("h\nd ext4 1 {max} 1 50% /\nd ext4 1 {} 1 0% /home\n", max / 100);
    assert_eq!(
        tuples(&parse_df(&table)),
        vec![("/", 50, max, max / 50), ("/home", 0, max / 100, max / 100 * 100)]
    );
}

#[test]
fn heading_is_skipped() {
    assert!(parse_df("d ext4 1 1 1 1% /\n").is_empty());
    assert!(parse_df("").is_empty());
}

#[test]
fn mounts_that_are_real() {
    for mount in ["/", "/home", "/home/u", "/homework", "/boot", "/boot/efi", "/mnt", "/mnt/x"] {
        assert!(is_real_mount("ext4", mount));
    }
    for mount in ["", "/srv", "/dev", "/dev/shm", "/run/user/1000", "/proc", "/sys/fs", "home", "/device"] {
        assert!(!is_real_mount("ext4", mount));
    }
    for fs in [
        "tmpfs", "devtmpfs", "devfs", "squashfs", "overlay", "efivarfs", "autofs", "proc", "sysfs",
    ] {
        assert!(!is_real_mount(fs, "/"));
    }
    assert!(is_real_mount("", "/"));
    assert!(is_real_mount("tmpfs2", "/"));
}

#[test]
fn failed_commands_show_no_disks() {
    assert!(read_disks(&None).is_empty());
    let failed = CommandOutput { success: false, stdout: TABLE.as_bytes().to_vec() };
    assert!(read_disks(&Some(failed)).is_empty());
    let fine = CommandOutput { success: true, stdout: TABLE.as_bytes().to_vec() };
    assert_eq!(tuples(&read_disks(&Some(fine))), tuples(&parse_df(TABLE)));
}

#[test]
fn invalid_bytes_are_replaced() {
    let mut stdout = b"h\nd ext4 1 2 1 2% /mnt/a".to_vec();
    stdout.push(0xff);
    stdout.extend_from_slice(b"b\n");
    let disks = read_disks(&Some(CommandOutput { success: true, stdout }));
    assert_eq!(tuples(&disks), vec![("/mnt/a\u{fffd}b", 2, 2, 100)]);
}
