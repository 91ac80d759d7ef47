//! Disk usage, from the table that `df -PT -B1` prints.

use crate::command::CommandOutput;
use crate::number;
use crate::outside;
use crate::text;
use vstd::prelude::*;

verus! {

/// A mounted file system that is worth showing.
pub struct DiskInfo {
    /// Where it is mounted.
    pub mount: String,
    /// How full it is, as `df` rounds it.
    pub percent: u8,
    /// Bytes in use.
    pub used: u64,
    /// Bytes in all, recovered from `used` and `percent`.
    pub total: u64,
}

/// The mathematical content of a [`DiskInfo`].
pub struct Disk {
    pub mount: Seq<char>,
    pub percent: u8,
    pub used: u64,
    pub total: u64,
}

impl View for DiskInfo {
    type V = Disk;

    open spec fn view(&self) -> Disk {
        Disk { mount: self.mount@, percent: self.percent, used: self.used, total: self.total }
    }
}

/// The contents of disks, one by one.
pub open spec fn disks(v: Seq<DiskInfo>) -> Seq<Disk> {
    v.map_values(|d: DiskInfo| d@)
}

/// File systems that hold no data of a disk.
pub open spec fn pseudo_fs(fstype: Seq<char>) -> bool {
    ||| fstype == "tmpfs"@
    ||| fstype == "devtmpfs"@
    ||| fstype == "devfs"@
    ||| fstype == "squashfs"@
    ||| fstype == "overlay"@
    ||| fstype == "efivarfs"@
    ||| fstype == "autofs"@
    ||| fstype == "proc"@
    ||| fstype == "sysfs"@
}

/// Places that the system keeps to itself.
pub open spec fn system_place(mount: Seq<char>) -> bool {
    ||| "/dev/"@.is_prefix_of(mount)
    ||| mount == "/dev"@
    ||| "/run/user"@.is_prefix_of(mount)
    ||| "/proc"@.is_prefix_of(mount)
    ||| "/sys"@.is_prefix_of(mount)
}

/// Places that a user keeps data in.
pub open spec fn user_place(mount: Seq<char>) -> bool {
    ||| mount == "/"@
    ||| "/home"@.is_prefix_of(mount)
    ||| "/boot"@.is_prefix_of(mount)
    ||| "/mnt"@.is_prefix_of(mount)
}

/// The mounts that are shown.
pub open spec fn real_mount(fstype: Seq<char>, mount: Seq<char>) -> bool {
    !pseudo_fs(fstype) && !system_place(mount) && user_place(mount)
}

/// The size that `used` bytes make up `percent` percent of, as far as 64 bits hold it; a
/// `percent` of zero counts as one.
pub open spec fn total_of(used: u64, percent: u8) -> u64 {
    let hundredfold = if used * 100 > u64::MAX {
        u64::MAX as int
    } else {
        used * 100
    };
    let share = if percent == 0 {
        1
    } else {
        percent as int
    };
    (hundredfold / share) as u64
}

/// What one row of the table says, where its mount is shown.
pub open spec fn disk_row(line: Seq<char>) -> Option<Disk> {
    let columns = text::words(line);
    let fstype = text::nth_or_empty(columns, 1);
    let mount = text::nth_or_empty(columns, 6);
    if mount.len() == 0 || !real_mount(fstype, mount) {
        None
    } else {
        let used = number::as_u64(columns[3]).unwrap_or(0);
        let percent = number::as_u8(text::without_trailing(columns[5], '%')).unwrap_or(0);
        Some(Disk { mount, percent, used, total: total_of(used, percent) })
    }
}

/// The disks of the rows `rows`, in their order.
pub open spec fn disk_rows(rows: Seq<Seq<char>>) -> Seq<Disk>
    decreases rows.len(),
{
    if rows.len() == 0 {
        Seq::empty()
    } else {
        match disk_row(rows.last()) {
            Some(d) => disk_rows(rows.drop_last()).push(d),
            None => disk_rows(rows.drop_last()),
        }
    }
}

/// Whether `a` comes before `b` in the order of their characters' code points.
pub open spec fn less(a: Seq<char>, b: Seq<char>) -> bool
    decreases a.len(),
{
    if b.len() == 0 {
        false
    } else if a.len() == 0 {
        true
    } else if a[0] == b[0] {
        less(a.skip(1), b.skip(1))
    } else {
        a[0] < b[0]
    }
}

/// `s` with `d` put before the first disk whose mount does not come before that of `d`.
pub open spec fn with_disk(d: Disk, s: Seq<Disk>) -> Seq<Disk>
    decreases s.len(),
{
    if s.len() == 0 || !less(s[0].mount, d.mount) {
        seq![d] + s
    } else {
        seq![s[0]] + with_disk(d, s.skip(1))
    }
}

/// `s` in the order of the mounts; disks of one mount keep their order.
pub open spec fn by_mount(s: Seq<Disk>) -> Seq<Disk>
    decreases s.len(),
{
    if s.len() == 0 {
        s
    } else {
        with_disk(s[0], by_mount(s.skip(1)))
    }
}

/// The disks of a table, by mount. Its first line is the heading.
pub open spec fn disk_table(table: Seq<char>) -> Seq<Disk> {
    by_mount(disk_rows(text::after_first(text::lines(table))))
}

/// The disks of what `df` left behind; none where it could not be run or failed.
pub open spec fn disks_of(output: Option<CommandOutput>) -> Seq<Disk> {
    match output {
        Some(out) if out.success => disk_table(outside::decoded(out.stdout@)),
        _ => Seq::empty(),
    }
}

/// Whether a mount is shown.
pub fn is_real_mount(fstype: &str, mount: &str) -> (r: bool)
    ensures
        r == real_mount(fstype@, mount@),
{
    let f: Vec<char> = text::chars_of(fstype);
    let m: Vec<char> = text::chars_of(mount);
    if text::same_text(&f, "tmpfs") || text::same_text(&f, "devtmpfs") || text::same_text(
        &f,
        "devfs",
    ) || text::same_text(&f, "squashfs") || text::same_text(&f, "overlay") || text::same_text(
        &f,
        "efivarfs",
    ) || text::same_text(&f, "autofs") || text::same_text(&f, "proc") || text::same_text(
        &f,
        "sysfs",
    ) {
        return false;
    }
    if text::has_prefix(&m, "/dev/") || text::same_text(&m, "/dev") {
        return false;
    }
    if text::has_prefix(&m, "/run/user") || text::has_prefix(&m, "/proc") || text::has_prefix(
        &m,
        "/sys",
    ) {
        return false;
    }
    text::same_text(&m, "/") || text::has_prefix(&m, "/home") || text::has_prefix(&m, "/boot")
        || text::has_prefix(&m, "/mnt")
}

/// The size that `used` bytes make up `percent` percent of.
fn total_bytes(used: u64, percent: u8) -> (r: u64)
    ensures
        r == total_of(used, percent),
{
    let hundredfold: u64 = match used.checked_mul(100) {
        Some(n) => n,
        None => u64::MAX,
    };
    let share: u64 = if percent == 0 {
        1
    } else {
        percent as u64
    };
    hundredfold / share
}

/// Reads one row of the table.
fn read_row(line: &[char]) -> (r: Option<DiskInfo>)
    ensures
        match r {
            Some(d) => disk_row(line@) == Some(d@),
            None => disk_row(line@) is None,
        },
{
    let columns = text::split_words(line);
    let fstype = text::column(&columns, 1);
    let mount = text::column(&columns, 6);
    let used_text = text::column(&columns, 3);
    let percent_text = text::trim_trailing(text::column(&columns, 5), '%');
    let mount_name: String = text::text_of(mount);
    if mount.len() == 0 || !is_real_mount(text::text_of(fstype).as_str(), mount_name.as_str()) {
        return None;
    }
    let used: u64 = number::parse_u64(used_text).unwrap_or(0);
    let percent: u8 = number::parse_u8(percent_text).unwrap_or(0);
    Some(DiskInfo { mount: mount_name, percent, used, total: total_bytes(used, percent) })
}

/// Whether `a` comes before `b`.
fn is_less(a: &[char], b: &[char]) -> (r: bool)
    ensures
        r == less(a@, b@),
{
    let mut i: usize = 0;
    assert(a@.skip(0) =~= a@ && b@.skip(0) =~= b@);
    while i < a.len() && i < b.len() && a[i] == b[i]
        invariant
            i <= a@.len(),
            i <= b@.len(),
            less(a@, b@) == less(a@.skip(i as int), b@.skip(i as int)),
        decreases a@.len() - i,
    {
        assert(a@.skip(i as int).skip(1) =~= a@.skip(i + 1));
        assert(b@.skip(i as int).skip(1) =~= b@.skip(i + 1));
        i = i + 1;
    }
    if i == b.len() {
        false
    } else if i == a.len() {
        true
    } else {
        a[i] < b[i]
    }
}

/// `with_disk` puts the disk at the first place where it may stand.
proof fn lemma_with_disk(d: Disk, s: Seq<Disk>, k: int)
    requires
        0 <= k <= s.len(),
        forall|j: int| 0 <= j < k ==> less(#[trigger] s[j].mount, d.mount),
        k < s.len() ==> !less(s[k].mount, d.mount),
    ensures
        with_disk(d, s) == s.insert(k, d),
    decreases s.len(),
{
    if k == 0 {
        assert(seq![d] + s =~= s.insert(0, d));
    } else {
        assert(less(s[0].mount, d.mount));
        assert forall|j: int| 0 <= j < k - 1 implies less(
            #[trigger] s.skip(1)[j].mount,
            d.mount,
        ) by {
            assert(s.skip(1)[j] == s[j + 1]);
        }
        lemma_with_disk(d, s.skip(1), k - 1);
        assert(seq![s[0]] + s.skip(1).insert(k - 1, d) =~= s.insert(k, d));
    }
}

/// Orders disks by their mounts, keeping the order of equal ones.
fn sort_by_mount(rows: Vec<DiskInfo>) -> (out: Vec<DiskInfo>)
    ensures
        disks(out@) == by_mount(disks(rows@)),
{
    let ghost all = disks(rows@);
    let mut rest: Vec<DiskInfo> = rows;
    let mut out: Vec<DiskInfo> = Vec::new();
    assert(disks(out@) =~= all.skip(all.len() as int));
    while rest.len() > 0
        invariant
            rest@.len() <= all.len(),
            disks(rest@) == all.take(rest@.len() as int),
            disks(out@) == by_mount(all.skip(rest@.len() as int)),
        decreases rest@.len(),
    {
        let ghost was = rest@;
        let d: DiskInfo = rest.pop().unwrap();
        let ghost n = rest@.len() as int;
        proof {
            assert(disks(was)[n] == d@);
            assert(d@ == all[n]);
            assert(all.skip(n).skip(1) =~= all.skip(n + 1));
            assert(disks(rest@) =~= all.take(n));
        }
        let name: Vec<char> = text::chars_of(d.mount.as_str());
        let mut k: usize = 0;
        while k < out.len() && is_less(&text::chars_of(out[k].mount.as_str()), &name)
            invariant
                name@ == d@.mount,
                k <= out@.len(),
                forall|j: int| 0 <= j < k ==> less(#[trigger] disks(out@)[j].mount, d@.mount),
            decreases out@.len() - k,
        {
            k = k + 1;
        }
        proof {
            lemma_with_disk(d@, disks(out@), k as int);
        }
        let ghost before = out@;
        out.insert(k, d);
        assert(disks(out@) =~= disks(before).insert(k as int, d@));
    }
    assert(all.skip(0) =~= all);
    out
}

/// Reads the table that `df` prints.
pub fn parse_df(table: &str) -> (r: Vec<DiskInfo>)
    ensures
        disks(r@) == disk_table(table@),
{
    let all: Vec<char> = text::chars_of(table);
    let rows = text::split_lines(&all);
    let ghost below = text::after_first(text::lines(table@));
    let mut found: Vec<DiskInfo> = Vec::new();
    let mut i: usize = 1;
    assert(below.take(0) =~= Seq::empty());
    assert(disks(found@) =~= Seq::empty());
    while i < rows.len()
        invariant
            text::contents(rows@) == text::lines(table@),
            below == text::after_first(text::lines(table@)),
            1 <= i,
            i <= rows@.len() || (i == 1 && rows@.len() == 0),
            disks(found@) == disk_rows(below.take(i - 1)),
        decreases rows@.len() - i,
    {
        let ghost before = found@;
        proof {
            assert(below.take(i as int).drop_last() =~= below.take(i - 1));
            assert(below.take(i as int).last() == rows@[i as int]@);
        }
        match read_row(rows[i]) {
            Some(d) => {
                found.push(d);
                assert(disks(found@) =~= disks(before).push(d@));
            },
            None => {},
        }
        i = i + 1;
    }
    assert(below.take(i - 1) =~= below);
    sort_by_mount(found)
}

/// The disks that `df` reports; none where it could not be run or failed.
pub fn read_disks(output: &Option<CommandOutput>) -> (r: Vec<DiskInfo>)
    ensures
        disks(r@) == disks_of(*output),
{
    let none: Vec<DiskInfo> = Vec::new();
    assert(disks(none@) =~= Seq::empty());
    match output {
        Some(out) => if out.success {
            parse_df(outside::utf8_lossy(&out.stdout).as_str())
        } else {
            none
        },
        None => none,
    }
}

/// The disks of `s` that are mounted at `mount`, in their order.
pub open spec fn at_mount(s: Seq<Disk>, mount: Seq<char>) -> Seq<Disk>
    decreases s.len(),
{
    if s.len() == 0 {
        s
    } else if s[0].mount == mount {
        seq![s[0]] + at_mount(s.skip(1), mount)
    } else {
        at_mount(s.skip(1), mount)
    }
}

/// No mount comes before one that stands to its left.
pub open spec fn ordered(s: Seq<Disk>) -> bool {
    forall|i: int, j: int|
        0 <= i < j < s.len() ==> !less(#[trigger] s[j].mount, #[trigger] s[i].mount)
}

/// `less` never holds both ways.
proof fn lemma_less_one_way(a: Seq<char>, b: Seq<char>)
    ensures
        less(a, b) ==> !less(b, a),
    decreases a.len(),
{
    if a.len() > 0 && b.len() > 0 && a[0] == b[0] {
        lemma_less_one_way(a.skip(1), b.skip(1));
    }
}

/// What lies before `c` lies before every `b`, or that `b` lies before `c`.
proof fn lemma_less_between(a: Seq<char>, b: Seq<char>, c: Seq<char>)
    ensures
        less(a, c) ==> less(a, b) || less(b, c),
    decreases a.len(),
{
    if a.len() > 0 && b.len() > 0 && c.len() > 0 && a[0] == b[0] && b[0] == c[0] {
        lemma_less_between(a.skip(1), b.skip(1), c.skip(1));
    }
}

/// Putting a disk into its place keeps the order.
proof fn lemma_with_disk_ordered(d: Disk, s: Seq<Disk>)
    requires
        ordered(s),
    ensures
        ordered(with_disk(d, s)),
        with_disk(d, s).len() == s.len() + 1,
        forall|e: Disk| with_disk(d, s).contains(e) ==> e == d || s.contains(e),
    decreases s.len(),
{
    let r = with_disk(d, s);
    if s.len() == 0 || !less(s[0].mount, d.mount) {
        assert forall|i: int, j: int| 0 <= i < j < r.len() implies !less(
            #[trigger] r[j].mount,
            #[trigger] r[i].mount,
        ) by {
            if i == 0 {
                assert(r[j] == s[j - 1]);
                if j > 1 {
                    assert(!less(s[j - 1].mount, s[0].mount));
                    lemma_less_between(s[j - 1].mount, s[0].mount, d.mount);
                }
            } else {
                assert(r[i] == s[i - 1] && r[j] == s[j - 1]);
            }
        }
        assert forall|e: Disk| r.contains(e) implies e == d || s.contains(e) by {
            let k = choose|k: int| 0 <= k < r.len() && r[k] == e;
            if k > 0 {
                assert(s[k - 1] == e);
            }
        }
    } else {
        let t = s.skip(1);
        let u = with_disk(d, t);
        assert forall|i: int, j: int| 0 <= i < j < t.len() implies !less(
            #[trigger] t[j].mount,
            #[trigger] t[i].mount,
        ) by {
            assert(t[i] == s[i + 1] && t[j] == s[j + 1]);
        }
        lemma_with_disk_ordered(d, t);
        assert forall|i: int, j: int| 0 <= i < j < r.len() implies !less(
            #[trigger] r[j].mount,
            #[trigger] r[i].mount,
        ) by {
            assert(r[j] == u[j - 1]);
            if i == 0 {
                assert(u.contains(u[j - 1]));
                if u[j - 1] == d {
                    lemma_less_one_way(s[0].mount, d.mount);
                } else {
                    assert(t.contains(u[j - 1]));
                    let k = choose|k: int| 0 <= k < t.len() && t[k] == u[j - 1];
                    assert(s[k + 1] == u[j - 1]);
                    assert(!less(s[k + 1].mount, s[0].mount));
                }
            } else {
                assert(r[i] == u[i - 1]);
            }
        }
        assert forall|e: Disk| r.contains(e) implies e == d || s.contains(e) by {
            let k = choose|k: int| 0 <= k < r.len() && r[k] == e;
            if k == 0 {
                assert(s[0] == e);
            } else {
                assert(u[k - 1] == e);
                if e != d {
                    assert(u.contains(e));
                    assert(t.contains(e));
                    let m = choose|m: int| 0 <= m < t.len() && t[m] == e;
                    assert(s[m + 1] == e);
                }
            }
        }
    }
}

/// Putting a disk into its place is, for each mount, like putting it in front.
proof fn lemma_with_disk_at_mount(d: Disk, s: Seq<Disk>, mount: Seq<char>)
    ensures
        at_mount(with_disk(d, s), mount) == at_mount(seq![d] + s, mount),
    decreases s.len(),
{
    if s.len() > 0 && less(s[0].mount, d.mount) {
        let t = s.skip(1);
        let u = with_disk(d, t);
        lemma_with_disk_at_mount(d, t, mount);
        lemma_less_one_way(s[0].mount, d.mount);
        let front = seq![s[0]] + u;
        assert(front.skip(1) =~= u);
        assert((seq![d] + s).skip(1) =~= s);
        assert((seq![d] + t).skip(1) =~= t);
        assert(with_disk(d, s) == front);
        assert(s[0].mount != d.mount);
        assert(front[0] == s[0]);
        reveal_with_fuel(at_mount, 3);
    }
}

/// Disks are shown in the order of their mounts.
pub proof fn disks_are_ordered(s: Seq<Disk>)
    ensures
        ordered(by_mount(s)),
    decreases s.len(),
{
    if s.len() > 0 {
        disks_are_ordered(s.skip(1));
        lemma_with_disk_ordered(s[0], by_mount(s.skip(1)));
    }
}

/// Ordering loses and adds no disk, and keeps the order of those that share a mount.
pub proof fn ordering_keeps_disks(s: Seq<Disk>, mount: Seq<char>)
    ensures
        by_mount(s).len() == s.len(),
        at_mount(by_mount(s), mount) == at_mount(s, mount),
    decreases s.len(),
{
    if s.len() > 0 {
        let t = s.skip(1);
        ordering_keeps_disks(t, mount);
        disks_are_ordered(t);
        lemma_with_disk_ordered(s[0], by_mount(t));
        lemma_with_disk_at_mount(s[0], by_mount(t), mount);
        assert((seq![s[0]] + by_mount(t)).skip(1) =~= by_mount(t));
    }
}

/// Ordering shows only disks that were there.
proof fn lemma_by_mount_contains(s: Seq<Disk>, d: Disk)
    requires
        by_mount(s).contains(d),
    ensures
        s.contains(d),
    decreases s.len(),
{
    if s.len() > 0 {
        let t = s.skip(1);
        disks_are_ordered(t);
        lemma_with_disk_ordered(s[0], by_mount(t));
        if d == s[0] {
        } else {
            lemma_by_mount_contains(t, d);
            let k = choose|k: int| 0 <= k < t.len() && t[k] == d;
            assert(s[k + 1] == d);
        }
    }
}

/// Every disk comes from a row.
proof fn lemma_row_of(rows: Seq<Seq<char>>, d: Disk)
    requires
        disk_rows(rows).contains(d),
    ensures
        exists|i: int| 0 <= i < rows.len() && disk_row(#[trigger] rows[i]) == Some(d),
    decreases rows.len(),
{
    let k = choose|k: int| 0 <= k < disk_rows(rows).len() && disk_rows(rows)[k] == d;
    let less_rows = rows.drop_last();
    if disk_row(rows.last()) == Some(d) {
        assert(rows[rows.len() - 1] == rows.last());
    } else {
        assert(disk_rows(less_rows)[k] == d);
        lemma_row_of(less_rows, d);
        let i = choose|i: int|
            0 <= i < less_rows.len() && disk_row(#[trigger] less_rows[i]) == Some(d);
        assert(rows[i] == less_rows[i]);
    }
}

/// Every disk that is shown is a row below the heading, with a mount in a user's place and
/// none in the system's.
pub proof fn shown_disks_are_real(table: Seq<char>, d: Disk)
    requires
        disk_table(table).contains(d),
    ensures
        exists|i: int|
            0 <= i < text::after_first(text::lines(table)).len() && disk_row(
                #[trigger] text::after_first(text::lines(table))[i],
            ) == Some(d),
        user_place(d.mount),
        !system_place(d.mount),
{
    let rows = text::after_first(text::lines(table));
    lemma_by_mount_contains(disk_rows(rows), d);
    lemma_row_of(rows, d);
}

/// Putting a disk into its place keeps the others.
proof fn lemma_with_disk_keeps(d: Disk, s: Seq<Disk>, e: Disk)
    requires
        e == d || s.contains(e),
    ensures
        with_disk(d, s).contains(e),
    decreases s.len(),
{
    let r = with_disk(d, s);
    if s.len() == 0 || !less(s[0].mount, d.mount) {
        if e == d {
            assert(r[0] == e);
        } else {
            let k = choose|k: int| 0 <= k < s.len() && s[k] == e;
            assert(r[k + 1] == e);
        }
    } else {
        let t = s.skip(1);
        if e != d && s[0] == e {
            assert(r[0] == e);
        } else {
            if e != d {
                let k = choose|k: int| 0 <= k < s.len() && s[k] == e;
                assert(t[k - 1] == e);
            }
            lemma_with_disk_keeps(d, t, e);
            let k = choose|k: int| 0 <= k < with_disk(d, t).len() && with_disk(d, t)[k] == e;
            assert(r[k + 1] == e);
        }
    }
}

/// Ordering keeps every disk.
proof fn lemma_by_mount_keeps(s: Seq<Disk>, d: Disk)
    requires
        s.contains(d),
    ensures
        by_mount(s).contains(d),
    decreases s.len(),
{
    let t = s.skip(1);
    if d != s[0] {
        let k = choose|k: int| 0 <= k < s.len() && s[k] == d;
        assert(t[k - 1] == d);
        lemma_by_mount_keeps(t, d);
    }
    lemma_with_disk_keeps(s[0], by_mount(t), d);
}

/// Every row with a disk gives it.
proof fn lemma_row_gives(rows: Seq<Seq<char>>, i: int, d: Disk)
    requires
        0 <= i < rows.len(),
        disk_row(rows[i]) == Some(d),
    ensures
        disk_rows(rows).contains(d),
    decreases rows.len(),
{
    let all = disk_rows(rows);
    if i == rows.len() - 1 {
        assert(all[all.len() - 1] == d);
    } else {
        lemma_row_gives(rows.drop_last(), i, d);
        let before = disk_rows(rows.drop_last());
        let k = choose|k: int| 0 <= k < before.len() && before[k] == d;
        assert(all[k] == d);
    }
}

/// Every row below the heading whose mount is real is shown.
pub proof fn real_rows_are_shown(table: Seq<char>, i: int)
    requires
        0 <= i < text::after_first(text::lines(table)).len(),
    ensures
        disk_row(text::after_first(text::lines(table))[i]) matches Some(d) ==> disk_table(
            table,
        ).contains(d),
{
    let rows = text::after_first(text::lines(table));
    if let Some(d) = disk_row(rows[i]) {
        lemma_row_gives(rows, i, d);
        lemma_by_mount_keeps(disk_rows(rows), d);
    }
}

/// Disks of `s` that share a mount are the same, as they are where no two share one.
pub open spec fn one_disk_per_mount(s: Seq<Disk>) -> bool {
    forall|i: int, j: int|
        0 <= i < s.len() && 0 <= j < s.len() && #[trigger] s[i].mount == #[trigger] s[j].mount
            ==> s[i] == s[j]
}

/// Of two different mounts one comes first.
proof fn lemma_less_total(a: Seq<char>, b: Seq<char>)
    requires
        a != b,
    ensures
        less(a, b) || less(b, a),
    decreases a.len(),
{
    if a.len() == 0 {
        if b.len() == 0 {
            assert(a =~= b);
        }
    } else if b.len() > 0 && a[0] == b[0] {
        if a.skip(1) == b.skip(1) {
            assert(a =~= seq![a[0]] + a.skip(1));
            assert(b =~= seq![b[0]] + b.skip(1));
        }
        lemma_less_total(a.skip(1), b.skip(1));
    }
}

/// Putting two disks into their places gives the same in either order, the first mount first.
proof fn lemma_with_two(d: Disk, e: Disk, s: Seq<Disk>)
    requires
        less(d.mount, e.mount),
    ensures
        with_disk(d, with_disk(e, s)) == with_disk(e, with_disk(d, s)),
    decreases s.len(),
{
    lemma_less_one_way(d.mount, e.mount);
    let de = with_disk(d, with_disk(e, s));
    let ed = with_disk(e, with_disk(d, s));
    if s.len() == 0 {
        assert((seq![d] + s).skip(1) =~= s);
        assert((seq![e] + s)[0] == e && (seq![d] + s)[0] == d);
        assert(de =~= seq![d] + (seq![e] + s));
        assert(ed =~= seq![d] + (seq![e] + s));
    } else {
        let h = s[0];
        let t = s.skip(1);
        assert((seq![d] + s).skip(1) =~= s);
        assert((seq![d] + s)[0] == d && (seq![e] + s)[0] == e);
        assert((seq![h] + with_disk(e, t))[0] == h && (seq![h] + with_disk(d, t))[0] == h);
        assert((seq![h] + with_disk(e, t)).skip(1) =~= with_disk(e, t));
        assert((seq![h] + with_disk(d, t)).skip(1) =~= with_disk(d, t));
        if less(h.mount, d.mount) {
            lemma_less_between(h.mount, e.mount, d.mount);
            assert(less(h.mount, e.mount));
            lemma_with_two(d, e, t);
            assert(de == seq![h] + with_disk(d, with_disk(e, t)));
            assert(ed == seq![h] + with_disk(e, with_disk(d, t)));
        } else {
            assert(with_disk(d, s) == seq![d] + s);
            assert(ed == seq![d] + with_disk(e, s));
            assert(de == seq![d] + with_disk(e, s));
        }
    }
}

/// Putting two disks into their places gives the same in either order, unless they are
/// different disks of one mount.
proof fn lemma_with_any_two(d: Disk, e: Disk, s: Seq<Disk>)
    requires
        d.mount == e.mount ==> d == e,
    ensures
        with_disk(d, with_disk(e, s)) == with_disk(e, with_disk(d, s)),
{
    if d.mount != e.mount {
        lemma_less_total(d.mount, e.mount);
        if less(d.mount, e.mount) {
            lemma_with_two(d, e, s);
        } else {
            lemma_with_two(e, d, s);
        }
    }
}

/// Any disk may be put into its place last.
proof fn lemma_last_disk(s: Seq<Disk>, i: int)
    requires
        0 <= i < s.len(),
        one_disk_per_mount(s),
    ensures
        by_mount(s) == with_disk(s[i], by_mount(s.remove(i))),
    decreases s.len(),
{
    if i == 0 {
        assert(s.remove(0) =~= s.skip(1));
    } else {
        let t = s.skip(1);
        assert forall|j: int, k: int|
            0 <= j < t.len() && 0 <= k < t.len() && #[trigger] t[j].mount == #[trigger] t[k].mount
            implies t[j] == t[k] by {
            assert(t[j] == s[j + 1] && t[k] == s[k + 1]);
        }
        lemma_last_disk(t, i - 1);
        assert(t[i - 1] == s[i]);
        let rest = s.remove(i);
        assert(rest[0] == s[0]);
        assert(rest.skip(1) =~= t.remove(i - 1));
        assert(s[0].mount == s[i].mount ==> s[0] == s[i]);
        lemma_with_any_two(s[0], s[i], by_mount(t.remove(i - 1)));
    }
}

/// Permuted disks are ordered alike.
proof fn lemma_permuted_disks(a: Seq<Disk>, b: Seq<Disk>)
    requires
        a.to_multiset() == b.to_multiset(),
        one_disk_per_mount(a),
    ensures
        by_mount(a) == by_mount(b),
    decreases a.len(),
{
    a.to_multiset_ensures();
    b.to_multiset_ensures();
    if a.len() == 0 {
        assert(a =~= b);
    } else {
        assert forall|j: int, k: int|
            0 <= j < b.len() && 0 <= k < b.len() && #[trigger] b[j].mount == #[trigger] b[k].mount
            implies b[j] == b[k] by {
            assert(b.contains(b[j]) && b.contains(b[k]));
            text::lemma_permuted_contains(b, a, b[j]);
            text::lemma_permuted_contains(b, a, b[k]);
            let m = choose|m: int| 0 <= m < a.len() && a[m] == b[j];
            let n = choose|n: int| 0 <= n < a.len() && a[n] == b[k];
            assert(a[m].mount == a[n].mount);
        }
        assert(a.contains(a[0]));
        text::lemma_permuted_contains(a, b, a[0]);
        let i = choose|i: int| 0 <= i < b.len() && b[i] == a[0];
        let t = a.remove(0);
        let u = b.remove(i);
        assert(t =~= a.skip(1));
        assert(t.to_multiset() =~= u.to_multiset());
        assert forall|j: int, k: int|
            0 <= j < t.len() && 0 <= k < t.len() && #[trigger] t[j].mount == #[trigger] t[k].mount
            implies t[j] == t[k] by {
            assert(t[j] == a[j + 1] && t[k] == a[k + 1]);
        }
        lemma_permuted_disks(t, u);
        lemma_last_disk(b, i);
    }
}

/// The disks of rows are those of the rows without one, and what that one gives.
proof fn lemma_rows_without(rows: Seq<Seq<char>>, i: int)
    requires
        0 <= i < rows.len(),
    ensures
        disk_rows(rows).to_multiset() == (match disk_row(rows[i]) {
            Some(d) => disk_rows(rows.remove(i)).to_multiset().insert(d),
            None => disk_rows(rows.remove(i)).to_multiset(),
        }),
    decreases rows.len(),
{
    let n = rows.len() - 1;
    let t = rows.drop_last();
    disk_rows(t).to_multiset_ensures();
    if i == n {
        assert(rows.remove(i) =~= t);
    } else {
        lemma_rows_without(t, i);
        let rest = rows.remove(i);
        assert(rest.drop_last() =~= t.remove(i));
        assert(rest.last() == rows.last());
        assert(t[i] == rows[i]);
        disk_rows(t.remove(i)).to_multiset_ensures();
        match (disk_row(rows[i]), disk_row(rows.last())) {
            (Some(d), Some(e)) => {
                let m = disk_rows(t.remove(i)).to_multiset();
                assert(m.insert(d).insert(e) =~= m.insert(e).insert(d));
            },
            _ => {},
        }
    }
}

/// Permuted rows give the same disks.
proof fn lemma_permuted_rows(a: Seq<Seq<char>>, b: Seq<Seq<char>>)
    requires
        a.to_multiset() == b.to_multiset(),
    ensures
        disk_rows(a).to_multiset() == disk_rows(b).to_multiset(),
    decreases a.len(),
{
    a.to_multiset_ensures();
    b.to_multiset_ensures();
    if a.len() == 0 {
        assert(a =~= b);
    } else {
        assert(a.contains(a[0]));
        text::lemma_permuted_contains(a, b, a[0]);
        let i = choose|i: int| 0 <= i < b.len() && b[i] == a[0];
        assert(a.remove(0).to_multiset() =~= b.remove(i).to_multiset());
        lemma_permuted_rows(a.remove(0), b.remove(i));
        lemma_rows_without(a, 0);
        lemma_rows_without(b, i);
    }
}

/// The order of the rows has no influence, nor has the heading, where no two shown rows are
/// different disks of one mount.
pub proof fn row_order_is_irrelevant(a: Seq<char>, b: Seq<char>)
    requires
        text::after_first(text::lines(a)).to_multiset() == text::after_first(
            text::lines(b),
        ).to_multiset(),
        one_disk_per_mount(disk_rows(text::after_first(text::lines(a)))),
    ensures
        disk_table(a) == disk_table(b),
{
    let rows = text::after_first(text::lines(a));
    let permuted = text::after_first(text::lines(b));
    lemma_permuted_rows(rows, permuted);
    lemma_permuted_disks(disk_rows(rows), disk_rows(permuted));
}

/// Mounts of nine kinds of file system, and mounts in the system's places, are not shown; of
/// the others those are that stand at the root or under the three places of a user.
pub proof fn real_mounts_are_listed(fstype: Seq<char>, mount: Seq<char>)
    ensures
        real_mount(fstype, mount) <==> !seq![
            "tmpfs"@,
            "devtmpfs"@,
            "devfs"@,
            "squashfs"@,
            "overlay"@,
            "efivarfs"@,
            "autofs"@,
            "proc"@,
            "sysfs"@,
        ].contains(fstype) && mount != "/dev"@ && !"/dev/"@.is_prefix_of(mount)
            && !"/run/user"@.is_prefix_of(mount) && !"/proc"@.is_prefix_of(mount)
            && !"/sys"@.is_prefix_of(mount) && (mount == "/"@ || "/home"@.is_prefix_of(mount)
            || "/boot"@.is_prefix_of(mount) || "/mnt"@.is_prefix_of(mount)),
{
    let kinds = seq![
        "tmpfs"@,
        "devtmpfs"@,
        "devfs"@,
        "squashfs"@,
        "overlay"@,
        "efivarfs"@,
        "autofs"@,
        "proc"@,
        "sysfs"@,
    ];
    assert(kinds[0] == "tmpfs"@ && kinds[1] == "devtmpfs"@ && kinds[2] == "devfs"@);
    assert(kinds[3] == "squashfs"@ && kinds[4] == "overlay"@ && kinds[5] == "efivarfs"@);
    assert(kinds[6] == "autofs"@ && kinds[7] == "proc"@ && kinds[8] == "sysfs"@);
    assert(kinds.contains(fstype) ==> pseudo_fs(fstype));
    assert(pseudo_fs(fstype) ==> kinds.contains(fstype));
}

/// The total is what a hundred times the used bytes come to, percent by percent, rounded
/// down; so it exceeds them unless the disk is full.
pub proof fn total_fits_percent(used: u64, percent: u8)
    ensures
        used <= 184467440737095516 && percent >= 1 ==> total_of(used, percent) * percent <= 100
            * used < (total_of(used, percent) + 1) * percent,
        used > 184467440737095516 && percent >= 1 ==> total_of(used, percent) * percent
            <= 0xffff_ffff_ffff_ffff < (total_of(used, percent) + 1) * percent,
        0 < percent < 100 && 100 <= used <= 184467440737095516 ==> used < total_of(used, percent),
        percent == 0 ==> total_of(used, percent) == total_of(used, 1),
{
    let whole = if used * 100 > u64::MAX {
        u64::MAX as int
    } else {
        used * 100
    };
    let p = percent as int;
    let t = total_of(used, percent) as int;
    if percent >= 1 {
        assert(0 <= whole / p <= whole && (whole / p) * p <= whole < (whole / p + 1) * p)
            by (nonlinear_arith)
            requires
                p >= 1,
                whole >= 0,
        ;
        assert(t == whole / p);
        if percent < 100 && 100 <= used <= 184467440737095516 {
            let u = used as int;
            assert(u < t) by (nonlinear_arith)
                requires
                    0 < p < 100,
                    100 <= u,
                    100 * u < (t + 1) * p,
            ;
        }
    }
}

/// Every disk that is shown has a total that fits its used bytes and its percentage.
pub proof fn shown_totals_fit(table: Seq<char>, d: Disk)
    requires
        disk_table(table).contains(d),
    ensures
        d.used <= 184467440737095516 && d.percent >= 1 ==> d.total * d.percent <= 100 * d.used < (
        d.total + 1) * d.percent,
        0 < d.percent < 100 && 100 <= d.used <= 184467440737095516 ==> d.used < d.total,
{
    shown_disks_are_real(table, d);
    let rows = text::after_first(text::lines(table));
    let i = choose|i: int| 0 <= i < rows.len() && disk_row(#[trigger] rows[i]) == Some(d);
    assert(disk_row(rows[i]) == Some(d));
    total_fits_percent(d.used, d.percent);
}

/// A row is shown where it has seven columns and a real mount, and only there: the second is
/// the file system, the fourth the used bytes, the sixth the percentage and the seventh the
/// mount.
pub proof fn row_columns_are_read(line: Seq<char>, used: nat, percent: nat)
    ensures
        disk_row(line) is Some <==> text::words(line).len() >= 7 && real_mount(
            text::words(line)[1],
            text::words(line)[6],
        ),
        disk_row(line) matches Some(d) ==> {
            &&& d.mount == text::words(line)[6]
            &&& text::words(line)[3] == number::decimal(used) && used <= 0xffff_ffff_ffff_ffff
                ==> d.used == used
            &&& number::as_u64(text::words(line)[3]) matches Some(n) ==> d.used == n
            &&& number::as_u64(text::words(line)[3]) is None ==> d.used == 0
            &&& (text::words(line)[5] == number::decimal(percent) || text::words(line)[5]
                == number::decimal(percent).push('%')) && percent <= 255 ==> d.percent == percent
            &&& number::as_u8(text::without_trailing(text::words(line)[5], '%')) matches Some(n)
                ==> d.percent == n
            &&& number::as_u8(text::without_trailing(text::words(line)[5], '%')) is None
                ==> d.percent == 0
            &&& d.total == total_of(d.used, d.percent)
        },
{
    let columns = text::words(line);
    text::lemma_words(line);
    number::decimal_is_read(used);
    number::decimal_is_read(percent);
    number::decimal_is_the_numeral(percent, Seq::empty());
    let p = number::decimal(percent);
    assert('0' <= p[p.len() - 1] <= '9');
    text::trailing_run_is_dropped(p, '%', seq!['%']);
    text::trailing_run_is_dropped(p, '%', Seq::empty());
    assert(p + seq!['%'] =~= p.push('%'));
    assert(p + Seq::empty() =~= p);
    if columns.len() >= 7 {
        assert(columns[6].len() > 0);
    }
}

/// Rows are read one by one, in their order.
pub proof fn rows_are_read_in_turn(a: Seq<Seq<char>>, row: Seq<char>, b: Seq<Seq<char>>)
    ensures
        disk_rows(Seq::empty()) == Seq::<Disk>::empty(),
        disk_rows(seq![row]) == (match disk_row(row) {
            Some(d) => seq![d],
            None => Seq::empty(),
        }),
        disk_rows(a + b) == disk_rows(a) + disk_rows(b),
    decreases b.len(),
{
    reveal_with_fuel(disk_rows, 2);
    assert(seq![row].drop_last() =~= Seq::empty());
    if b.len() == 0 {
        assert(a + b =~= a);
        assert(disk_rows(a) + disk_rows(b) =~= disk_rows(a));
    } else {
        rows_are_read_in_turn(a, row, b.drop_last());
        assert((a + b).drop_last() =~= a + b.drop_last());
        assert((a + b).last() == b.last());
        if let Some(d) = disk_row(b.last()) {
            assert((disk_rows(a) + disk_rows(b.drop_last())).push(d) =~= disk_rows(a) + disk_rows(
                b.drop_last(),
            ).push(d));
        }
    }
}

/// Text comes after what it starts with, and otherwise the first characters that differ
/// decide.
pub proof fn order_is_alphabetical(
    p: Seq<char>,
    c: char,
    d: char,
    x: Seq<char>,
    y: Seq<char>,
)
    ensures
        less(p, p + y) <==> y.len() > 0,
        !less(p + y, p),
        c < d ==> less(p + seq![c] + x, p + seq![d] + y),
        c < d ==> !less(p + seq![d] + y, p + seq![c] + x),
    decreases p.len(),
{
    let l = p + seq![c] + x;
    let r = p + seq![d] + y;
    if p.len() == 0 {
        assert(p + y =~= y);
        assert(l[0] == c && r[0] == d);
    } else {
        order_is_alphabetical(p.skip(1), c, d, x, y);
        assert((p + y).skip(1) =~= p.skip(1) + y);
        assert(l.skip(1) =~= p.skip(1) + seq![c] + x);
        assert(r.skip(1) =~= p.skip(1) + seq![d] + y);
        assert(l[0] == p[0] && r[0] == p[0] && (p + y)[0] == p[0]);
    }
}

/// A place for `d` in `s` that keeps what stands before it smaller.
proof fn lemma_place(d: Disk, s: Seq<Disk>) -> (k: int)
    ensures
        0 <= k <= s.len(),
        forall|j: int| 0 <= j < k ==> less(#[trigger] s[j].mount, d.mount),
        k < s.len() ==> !less(s[k].mount, d.mount),
    decreases s.len(),
{
    if s.len() == 0 || !less(s[0].mount, d.mount) {
        0
    } else {
        let k = lemma_place(d, s.skip(1));
        assert forall|j: int| 0 <= j < k + 1 implies less(#[trigger] s[j].mount, d.mount) by {
            if j > 0 {
                assert(s.skip(1)[j - 1] == s[j]);
            }
        }
        if k + 1 < s.len() {
            assert(s.skip(1)[k] == s[k + 1]);
        }
        k + 1
    }
}

/// Ordering shows each disk as often as it was there.
proof fn lemma_by_mount_counts(s: Seq<Disk>)
    ensures
        by_mount(s).to_multiset() == s.to_multiset(),
    decreases s.len(),
{
    if s.len() > 0 {
        let t = s.skip(1);
        lemma_by_mount_counts(t);
        let k = lemma_place(s[0], by_mount(t));
        lemma_with_disk(s[0], by_mount(t), k);
        vstd::seq_lib::to_multiset_insert(by_mount(t), k, s[0]);
        vstd::seq_lib::to_multiset_insert(t, 0, s[0]);
        assert(t.insert(0, s[0]) =~= s);
    }
}

/// Below its first line, whatever that says, a table is its rows: each shows its disk once,
/// in the order of the mounts.
pub proof fn table_shows_its_rows(heading: Seq<char>, rows: Seq<char>)
    requires
        !heading.contains('\n'),
    ensures
        disk_table(heading + seq!['\n'] + rows).to_multiset() == disk_rows(
            text::lines(rows),
        ).to_multiset(),
        forall|i: int, j: int|
            0 <= i < j < disk_table(heading + seq!['\n'] + rows).len() ==> !less(
                #[trigger] disk_table(heading + seq!['\n'] + rows)[j].mount,
                #[trigger] disk_table(heading + seq!['\n'] + rows)[i].mount,
            ),
        disk_table(heading) == Seq::<Disk>::empty(),
{
    text::lines_part_at_feed(heading, rows);
    text::text_without_feed_is_a_line(heading);
    let all = text::lines(heading + seq!['\n'] + rows);
    text::parts_of_tables(all[0], text::lines(rows), 0);
    assert(all =~= seq![all[0]] + text::lines(rows));
    lemma_by_mount_counts(disk_rows(text::lines(rows)));
    disks_are_ordered(disk_rows(text::lines(rows)));
    assert(text::after_first(text::lines(heading)) =~= Seq::empty());
}

/// What `df` printed is read where it succeeded and printed text; where it could not be run
/// or failed no disk is shown.
pub proof fn only_success_is_read(out: CommandOutput)
    ensures
        disks_of(None) == Seq::<Disk>::empty(),
        !out.success ==> disks_of(Some(out)) == Seq::<Disk>::empty(),
        out.success && vstd::utf8::valid_utf8(out.stdout@) ==> disks_of(Some(out)) == disk_table(
            vstd::utf8::decode_utf8(out.stdout@),
        ),
        out.success && !vstd::utf8::valid_utf8(out.stdout@) ==> disks_of(Some(out)) == disk_table(
            outside::lossy(out.stdout@),
        ),
{
}

/// The contents of disks are what their fields hold, each at its place.
pub proof fn contents_are_fields(v: Seq<DiskInfo>, i: int)
    ensures
        disks(v).len() == v.len(),
        0 <= i < v.len() ==> {
            let d = disks(v)[i];
            d.mount == v[i].mount@ && d.percent == v[i].percent && d.used == v[i].used && d.total
                == v[i].total
        },
{
}

} // verus!
