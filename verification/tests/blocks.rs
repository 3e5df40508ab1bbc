use hitome::blockdev::{BlockDeviceSource, BlockDeviceStats};
use hitome::common::{Bytes, Settings, StatBlock};
use hitome::cpu::{CpuSource, CpuStats};
use hitome::fs::{read_mountstats, FilesystemSource, FilesystemStats, Mount, Statvfs};
use hitome::mem::{MemorySource, MemoryStats};
use hitome::network::{NetworkSource, NetworkStats};
use hitome::ordered::{entries, keys_of, mark_all, sweep, take_sample, Sampled};
use hitome::pressure::{PressureSource, PressureStats};
use std::collections::BTreeMap;

fn text(v: Vec<u8>) -> String {
    String::from_utf8(v).unwrap()
}

fn plain() -> Settings {
    Settings::default()
}

fn smart() -> Settings {
    Settings { smart: true, ..Settings::default() }
}

fn some(s: &str) -> Option<Vec<u8>> {
    Some(s.as_bytes().to_vec())
}

#[test]
fn cpu_idle_shows_blanks_without_colour() {
    let mut cpu = CpuStats::new();
    assert!(cpu.update(&CpuSource {
        stat: some("cpu  100 0 100 1000 0 0 0 0 0 0\ncpu0 100 0 100 1000 0 0 0 0 0 0\nintr 1 2 3\n"),
    }));
    assert!(cpu.update(&CpuSource {
        stat: some("cpu  100 0 100 1200 0 0 0 0 0 0\ncpu0 100 0 100 1200 0 0 0 0 0 0\nintr 1 2 3\n"),
    }));
    assert_eq!(cpu.count(), 1);
    assert_eq!(
        text(cpu.render(&plain())),
        "    IOWAIT  \n    SYSTEM  \n      USER  \n      NICE  \n\n"
    );
    assert_eq!(
        text(cpu.render(&smart())),
        "\x1B[1m    IOWAIT\x1B[0m  \x1B[0K\n\x1B[1m    SYSTEM\x1B[0m  \x1B[0K\n\
         \x1B[1m      USER\x1B[0m  \x1B[0K\n\x1B[1m      NICE\x1B[0m  \x1B[0K\n\x1B[0K\n"
    );
    assert_eq!(cpu.rows(&plain()), 5);
    assert_eq!(cpu.columns(&plain()), 12);
}

#[test]
fn cpu_glyphs_follow_the_share() {
    let mut cpu = CpuStats::new();
    let first = "cpu 0 0 0 0 0\ncpu0 0 0 0 0 0\ncpu1 0 0 0 0 0\ncpu2 0 0 0 0 0\ncpu3 0 0 0 0 0\ncpu10 0 0 0 0 0\n";
    // user nice system idle iowait
    let second = "cpu 0 0 0 0 0\n\
                  cpu0 60 0 0 40 0\n\
                  cpu1 20 0 5 75 0\n\
                  cpu2 10 1 0 89 0\n\
                  cpu3 0 0 0 100 0\n\
                  cpu10 0 0 100 0 0\n";
    assert!(cpu.update(&CpuSource { stat: some(first) }));
    assert!(cpu.update(&CpuSource { stat: some(second) }));
    assert_eq!(cpu.count(), 5);
    assert_eq!(
        text(cpu.render(&plain())),
        "    IOWAIT      \n    SYSTEM  .  X\n      USER XOo  \n      NICE   .  \n\n"
    );
    assert_eq!(cpu.columns(&plain()), 16);
}

#[test]
fn cpu_colours_follow_the_idle_share() {
    let mut cpu = CpuStats::new();
    assert!(cpu.update(&CpuSource { stat: some("cpu 0\ncpu0 0 0 0 0 0\ncpu1 0 0 0 0 0\n") }));
    // cpu0: 10 % idle, any load is critical; cpu1: 50 % idle, any load is medium
    assert!(cpu.update(&CpuSource { stat: some("cpu 0\ncpu0 90 0 0 10 0\ncpu1 50 0 0 50 0\n") }));
    let out = text(cpu.render(&smart()));
    let user = out.lines().nth(2).unwrap();
    assert_eq!(
        user,
        "\x1B[1m      USER\x1B[0m \x1B[1;95mX\x1B[0m\x1B[1;93mO\x1B[0m\x1B[0K"
    );
}

#[test]
fn cpu_without_statistics_is_empty() {
    let mut cpu = CpuStats::new();
    assert!(cpu.update(&CpuSource { stat: None }));
    assert_eq!(cpu.count(), 0);
    assert_eq!(cpu.render(&plain()), b"");
    assert_eq!(cpu.rows(&plain()), 0);
    assert_eq!(cpu.columns(&plain()), 0);
}

#[test]
fn cpu_statistics_that_cannot_be_read_change_nothing() {
    let mut cpu = CpuStats::new();
    assert!(cpu.update(&CpuSource { stat: some("cpu 1\ncpu0 1 2 3 4 5\ncpu1 1 1 1 1 1\n") }));
    assert!(cpu.update(&CpuSource { stat: some("cpu 1\ncpu0 2 2 3 4 5\ncpu1 1 1 1 1 2\n") }));
    let before = text(cpu.render(&plain()));
    assert!(cpu.update(&CpuSource { stat: None }));
    assert_eq!(cpu.count(), 2);
    for i in 0..2 {
        assert_eq!(cpu.cpu(i).key, i as u64);
        assert!(!cpu.cpu(i).stale.0);
    }
    assert_eq!(cpu.cpu(0).value.prev.user, 1);
    assert_eq!(cpu.cpu(0).value.cur.user, 2);
    assert_eq!(cpu.cpu(1).value.prev.total, 5);
    assert_eq!(cpu.cpu(1).value.cur.total, 6);
    assert_eq!(text(cpu.render(&plain())), before);
    assert_eq!(cpu.rows(&plain()), 5);
}

#[test]
fn cpu_that_goes_away_is_swept() {
    let mut cpu = CpuStats::new();
    assert!(cpu.update(&CpuSource { stat: some("cpu 1\ncpu0 1 2 3 4 5\ncpu1 1 2 3 4 5\n") }));
    assert_eq!(cpu.count(), 2);
    assert!(cpu.update(&CpuSource { stat: some("cpu 1\ncpu1 2 2 3 4 5\n") }));
    assert_eq!(cpu.count(), 1);
    assert_eq!(cpu.cpu(0).key, 1);
    assert!(!cpu.cpu(0).stale.0);
    assert_eq!(cpu.cpu(0).value.prev.user, 1);
    assert_eq!(cpu.cpu(0).value.cur.user, 2);
    assert_eq!(cpu.cpu(0).value.cur.total, 16);
}

#[test]
fn cpu_statistics_that_make_no_sense_change_nothing() {
    let mut cpu = CpuStats::new();
    assert!(cpu.update(&CpuSource { stat: some("cpu 1\ncpu0 1 2 3 4 5\n") }));
    assert!(!cpu.update(&CpuSource { stat: some("cpu 1\ncpu0 1 2 x 4 5\n") }));
    assert!(!cpu.update(&CpuSource { stat: some("cpu 1\ncpu0 1 2 3\n") }));
    assert!(!cpu.update(&CpuSource { stat: some("cpu 1\ncpuX 1 2 3 4 5\n") }));
    assert!(!cpu.update(&CpuSource {
        stat: some("cpu 1\ncpu0 18446744073709551615 1 0 0 0\n"),
    }));
    assert_eq!(cpu.count(), 1);
    assert_eq!(cpu.cpu(0).value.cur.total, 15);
}

fn net_table(rx: &str, tx: &str) -> Option<Vec<u8>> {
    some(&format!(
        "Inter-|   Receive                                                |  Transmit\n \
         face |bytes    packets errs drop fifo frame compressed multicast|bytes    packets errs drop fifo colls carrier compressed\n    \
         lo: 10 1 0 0 0 0 0 0 10 1 0 0 0 0 0 0\n  \
         eth0: {} 5 0 0 0 0 0 0 {} 7 0 0 0 0 0 0\n   \
         br0: 1 1 0 0 0 0 0 0 1 1 0 0 0 0 0 0\n",
        rx, tx
    ))
}

#[test]
fn network_counter_that_wraps() {
    let mut net = NetworkStats::new();
    assert!(net.update(&NetworkSource { now: 5000, dev: net_table("18446744073709550616", "0") }));
    assert!(net.update(&NetworkSource { now: 6000, dev: net_table("500", "2048") }));
    assert_eq!(net.count(), 2);
    assert_eq!(
        text(net.render(&plain())),
        "     IFACE       RX/s       TX/s\n      \
         eth0      1.46K      2.00K\n        \
         lo          .          .\n\n"
    );
    assert_eq!(net.rows(&plain()), 4);
    assert_eq!(net.columns(&plain()), 32);
}

#[test]
fn network_interface_without_two_samples_has_no_line() {
    let mut net = NetworkStats::new();
    assert!(net.update(&NetworkSource { now: 5000, dev: net_table("0", "0") }));
    assert_eq!(text(net.render(&plain())), "     IFACE       RX/s       TX/s\n\n");
    // the clock has not moved: still no line, and no division by zero
    assert!(net.update(&NetworkSource { now: 5000, dev: net_table("100", "100") }));
    assert_eq!(text(net.render(&plain())), "     IFACE       RX/s       TX/s\n\n");
}

#[test]
fn network_table_that_cannot_be_read_changes_nothing() {
    let mut net = NetworkStats::new();
    assert!(net.update(&NetworkSource { now: 0, dev: net_table("0", "0") }));
    assert!(net.update(&NetworkSource { now: 1000, dev: None }));
    assert_eq!(net.count(), 2);
    assert!(!net.update(&NetworkSource { now: 1000, dev: some("a\nb\n eth0 1 2 3\n") }));
    assert_eq!(net.count(), 2);
    assert!(net.update(&NetworkSource { now: 2000, dev: some("a\nb\n") }));
    assert_eq!(net.count(), 0);
    assert_eq!(net.render(&plain()), b"");
    assert_eq!(net.columns(&plain()), 0);
}

fn disk_line(name: &str, read: u64, written: u64, wrt: u64) -> String {
    format!("   8       0 {} 100 0 {} 0 50 0 {} 0 0 0 {} 0 0 0 0\n", name, read, written, wrt)
}

#[test]
fn disk_rates_and_pressure() {
    let mut bdev = BlockDeviceStats::new();
    let first = disk_line("sda", 2000, 1000, 300) + &disk_line("loop0", 1, 1, 1) + &disk_line("dm-0", 1, 1, 1);
    let second = disk_line("sda", 4000, 1000, 800);
    assert!(bdev.update(&BlockDeviceSource { now: 0, diskstats: some(&first) }));
    assert_eq!(bdev.count(), 1);
    assert!(bdev.update(&BlockDeviceSource { now: 1000, diskstats: some(&second) }));
    assert_eq!(
        text(bdev.render(&plain())),
        "    DEVICE     READ/s    WRITE/s   PRESSURE\n       \
         sda   1000.00K          .     50.00%\n\n"
    );
    assert_eq!(
        text(bdev.render(&smart())),
        "\x1B[1m    DEVICE\x1B[0m \x1B[1m    READ/s\x1B[0m \x1B[1m   WRITE/s\x1B[0m \x1B[1m  PRESSURE\x1B[0m\x1B[0K\n       \
         sda   1000.00K          . \x1B[1;93m    50.00%\x1B[0m\x1B[0K\n\x1B[0K\n"
    );
    assert_eq!(bdev.rows(&plain()), 3);
    assert_eq!(bdev.columns(&plain()), 43);
}

#[test]
fn partitions_of_a_tracked_disk_are_passed_over() {
    let mut bdev = BlockDeviceStats::new();
    let both = disk_line("sda", 0, 0, 0) + &disk_line("sda1", 0, 0, 0) + &disk_line("sda9", 0, 0, 0);
    let part = disk_line("sda1", 2048, 0, 0);
    assert!(bdev.update(&BlockDeviceSource { now: 0, diskstats: some(&both) }));
    assert!(bdev.update(&BlockDeviceSource { now: 1000, diskstats: some(&both) }));
    assert_eq!(bdev.count(), 1);
    let out = text(bdev.render(&plain()));
    assert!(out.contains("       sda "));
    assert!(!out.contains("sda1"));
    // the disk goes away and its partition stays: it is tracked at once
    assert!(bdev.update(&BlockDeviceSource { now: 2000, diskstats: some(&part) }));
    assert_eq!(bdev.count(), 1);
    assert!(bdev.update(&BlockDeviceSource { now: 3000, diskstats: some(&part) }));
    assert_eq!(bdev.count(), 1);
    let out = text(bdev.render(&plain()));
    assert!(!out.contains("       sda "));
    assert!(out.contains("      sda1 "));
    // the disk comes back behind its partition: both are listed in this
    // tick, and the partition leaves with the next
    let late = disk_line("sda1", 2048, 0, 0) + &disk_line("sda", 0, 0, 0);
    assert!(bdev.update(&BlockDeviceSource { now: 4000, diskstats: some(&late) }));
    assert_eq!(bdev.count(), 2);
    let early = disk_line("sda", 0, 0, 0) + &disk_line("sda1", 2048, 0, 0);
    assert!(bdev.update(&BlockDeviceSource { now: 5000, diskstats: some(&early) }));
    assert_eq!(bdev.count(), 1);
    assert!(text(bdev.render(&plain())).contains("       sda "));
}

#[test]
fn disk_names_that_end_in_a_digit_are_tracked_without_their_disk() {
    let mut bdev = BlockDeviceStats::new();
    let table = disk_line("nvme0n1", 0, 0, 0) + &disk_line("nvme0n1p1", 0, 0, 0) + &disk_line("mmcblk0", 0, 0, 0);
    assert!(bdev.update(&BlockDeviceSource { now: 0, diskstats: some(&table) }));
    // nvme0n1p1 stays: "nvme0n1p" is no disk
    assert_eq!(bdev.count(), 3);
}

#[test]
fn disks_come_in_the_order_of_their_names() {
    let mut bdev = BlockDeviceStats::new();
    let table = disk_line("sdb", 0, 0, 0) + &disk_line("nvme0n1", 0, 0, 0) + &disk_line("sda", 0, 0, 0);
    assert!(bdev.update(&BlockDeviceSource { now: 0, diskstats: some(&table) }));
    assert!(bdev.update(&BlockDeviceSource { now: 10, diskstats: some(&table) }));
    let out = text(bdev.render(&plain()));
    let names: Vec<&str> = out.lines().skip(1).filter(|l| !l.is_empty()).map(|l| l[..10].trim()).collect();
    assert_eq!(names, vec!["nvme0n1", "sda", "sdb"]);
}

#[test]
fn disk_table_that_makes_no_sense_changes_nothing() {
    let mut bdev = BlockDeviceStats::new();
    assert!(bdev.update(&BlockDeviceSource { now: 0, diskstats: some(&disk_line("sda", 1, 1, 1)) }));
    assert!(!bdev.update(&BlockDeviceSource { now: 1, diskstats: some("8 0 sda 1 2 3\n") }));
    assert!(!bdev.update(&BlockDeviceSource { now: 1, diskstats: some("8 0\n") }));
    assert!(!bdev.update(&BlockDeviceSource {
        now: 1,
        diskstats: some(&disk_line("sda", u64::MAX, 1, 1)),
    }));
    assert!(bdev.update(&BlockDeviceSource { now: 1, diskstats: None }));
    assert_eq!(bdev.count(), 1);
}

fn memory_source() -> MemorySource {
    MemorySource {
        pagesize: 4096,
        swaps: some("Filename\t\t\t\tType\t\tSize\t\tUsed\t\tPriority\n/dev/sda2 partition 1000 100 -2\n/swapfile file 500 50 -3\n"),
        zram: vec![b"1 2 4096 3 4 5 6 7 8\n".to_vec(), b"0 0 1000 0\n".to_vec()],
        vmstat: some(
            "nr_free_pages 1000\nnr_active_anon 10\nnr_active_file 20\nnr_inactive_anon 30\n\
             nr_inactive_file 40\nnr_dirty 5\nnr_writeback 0\nnr_dirty_threshold 100\n\
             nr_dirty_background_threshold 50\nnr_slab_reclaimable 1\nnr_slab_unreclaimable 2\n\
             nr_kernel_misc_reclaimable 3\nnr_swapcached 4\npgpgin 77\nnr_unknown\n",
        ),
    }
}

#[test]
fn memory_counters_add_up() {
    let mut mem = MemoryStats::new();
    assert!(mem.update(&memory_source()));
    let m = mem.state();
    assert_eq!(m.active, Bytes(30 * 4096));
    assert_eq!(m.inactive, Bytes(70 * 4096));
    assert_eq!(m.cached, Bytes(70 * 4096));
    assert_eq!(m.free, Bytes(1000 * 4096));
    assert_eq!(m.dirty.val, Bytes(5 * 4096));
    assert_eq!(m.dirty.med, Bytes(50 * 4096));
    assert_eq!(m.dirty.high, Bytes(50 * 4096));
    assert_eq!(m.dirty.crit, Bytes(100 * 4096));
    assert_eq!(m.writeback.val, Bytes(0));
    assert_eq!(m.writeback.crit, Bytes(1));
    assert_eq!(m.swap, Bytes(150 * 1024 - 4 * 4096));
    assert_eq!(m.zram, Bytes(5096));
    // a second tick counts anew
    assert!(mem.update(&memory_source()));
    assert_eq!(mem.state().active, Bytes(30 * 4096));
    assert_eq!(mem.state().swap, Bytes(150 * 1024 - 4 * 4096));
}

#[test]
fn memory_row() {
    let mut mem = MemoryStats::new();
    assert!(mem.update(&memory_source()));
    assert_eq!(
        text(mem.render(&plain())),
        "    ACTIVE   INACTIVE     CACHED       FREE      DIRTY     W_BACK       SWAP       ZRAM\n   \
         120.00K    280.00K    280.00K   4000.00K     20.00K          .    134.00K      4.98K\n\n"
    );
    assert_eq!(mem.rows(&plain()), 3);
    assert_eq!(mem.columns(&plain()), 87);
    let out = text(mem.render(&smart()));
    // no dirty level is reached, and writeback of nothing is below its level of one byte
    assert!(out.contains("     20.00K          . "));
}

#[test]
fn memory_without_counters_keeps_the_last_ones() {
    let mut mem = MemoryStats::new();
    assert!(mem.update(&memory_source()));
    let mut source = memory_source();
    source.vmstat = None;
    source.swaps = None;
    source.zram = vec![];
    assert!(mem.update(&source));
    assert_eq!(mem.state().active, Bytes(30 * 4096));
    assert_eq!(mem.state().swap, Bytes(0));
    assert_eq!(mem.state().zram, Bytes(0));
}

#[test]
fn memory_that_makes_no_sense_changes_nothing() {
    let mut mem = MemoryStats::new();
    assert!(mem.update(&memory_source()));
    let mut source = memory_source();
    source.vmstat = some("nr_free_pages many\n");
    assert!(!mem.update(&source));
    let mut source = memory_source();
    source.vmstat = some("nr_free_pages 18446744073709551615\n");
    assert!(!mem.update(&source));
    let mut source = memory_source();
    source.swaps = some("head\n/dev/sda2 partition 1000\n");
    assert!(!mem.update(&source));
    let mut source = memory_source();
    source.zram = vec![b"1 2\n".to_vec()];
    assert!(!mem.update(&source));
    assert_eq!(mem.state().free, Bytes(1000 * 4096));
}

#[test]
fn pressure_that_is_absent_takes_no_room() {
    let mut psi = PressureStats::new();
    assert!(psi.update(&PressureSource { cpu: None, memory: None, io: None }));
    assert!(!psi.is_present());
    assert_eq!(psi.rows(&plain()), 0);
    assert_eq!(psi.columns(&plain()), 0);
    assert_eq!(psi.render(&plain()), b"");
}

#[test]
fn pressure_grid() {
    let mut psi = PressureStats::new();
    let source = PressureSource {
        cpu: some("some avg10=1.50 avg60=0.25 avg300=0.00 total=123\nfull avg10=0.00 avg60=0.00 avg300=0.00 total=0\n"),
        memory: some("some avg10=5.00 avg60=0.00 avg300=0.00 total=1\nfull avg10=12.00 avg60=0.00 avg300=0.00 total=1\n"),
        io: None,
    };
    assert!(psi.update(&source));
    assert!(psi.is_present());
    assert_eq!(psi.rows(&plain()), 4);
    assert_eq!(psi.columns(&plain()), 76);
    assert_eq!(
        text(psi.render(&plain())),
        "       PSI   SOME_CPU   FULL_CPU   SOME_MEM   FULL_MEM    SOME_IO    FULL_IO\n     \
         avg10      1.50%      0.00%      5.00%     12.00%      0.00%      0.00%\n     \
         avg60      0.25%      0.00%      0.00%      0.00%      0.00%      0.00%\n    \
         avg300      0.00%      0.00%      0.00%      0.00%      0.00%      0.00%\n\n"
    );
    let out = text(psi.render(&smart()));
    let row = out.lines().nth(1).unwrap();
    assert_eq!(
        row,
        "     avg10 \x1B[1;93m     1.50%\x1B[0m      0.00% \x1B[1;91m     5.00%\x1B[0m \
         \x1B[1;95m    12.00%\x1B[0m      0.00%      0.00%\x1B[0K"
    );
}

#[test]
fn pressure_that_makes_no_sense_changes_nothing() {
    let mut psi = PressureStats::new();
    assert!(!psi.update(&PressureSource { cpu: some("some avg10=x\n"), memory: None, io: None }));
    assert!(!psi.is_present());
    assert!(psi.update(&PressureSource {
        cpu: some("other avg10=x\nsome total=x avg10 =\n\n"),
        memory: None,
        io: None,
    }));
    assert!(psi.is_present());
}

#[test]
fn mounts_of_one_device_count_once() {
    let table = "device /dev/sda1 mounted on / with fstype ext4\n\
                 device proc mounted on /proc with fstype proc\n\
                 device /dev/sda1 mounted on /mnt/bind with fstype ext4\n\
                 device /dev/sdb1 mounted on /home/my disk with fstype ext4 statvers=1.1\n\
                 device /dev/sdc1 mounted on /odd with fstype mount with fstype vfat\n";
    let mounts = read_mountstats(table.as_bytes()).unwrap();
    let names: Vec<String> = mounts.into_iter().map(|m| String::from_utf8(m).unwrap()).collect();
    assert_eq!(names, vec!["/", "/home/my disk", "/odd with fstype mount"]);
    assert!(read_mountstats(b"devices\n").is_none());
    assert!(read_mountstats(b"device /dev/sda1 at /\n").is_none());
    assert!(read_mountstats(b"device /dev/sda1 mounted on /\n").is_none());
    assert_eq!(read_mountstats(b"device none mounted on /\n").unwrap().len(), 0);
    assert_eq!(read_mountstats(b"").unwrap().len(), 0);
}

fn mount(path: &str, blocks: u64, bavail: u64) -> Mount {
    Mount {
        mountpoint: path.as_bytes().to_vec(),
        vfs: Statvfs { blocks, frsize: 4096, bavail, bsize: 4096 },
    }
}

#[test]
fn filesystem_usage() {
    let mut fs = FilesystemStats::new();
    assert!(fs.update(&FilesystemSource {
        mounts: Some(vec![mount("/home/my disk", 1000, 25), mount("/", 1000, 250), mount("/empty", 0, 0)]),
    }));
    assert_eq!(fs.count(), 3);
    assert_eq!(
        text(fs.render(&plain())),
        "        FS      USED%       USED      AVAIL\n         \
         /     75.00%   3000.00K   1000.00K\n     \
         empty      0.00%          .          .\n   \
         my disk     97.50%   3900.00K    100.00K\n\n"
    );
    let out = text(fs.render(&smart()));
    assert!(out.contains("         /     75.00% "));
    assert!(out.contains("   my disk \x1B[1;95m    97.50%\x1B[0m "));
    assert_eq!(fs.rows(&plain()), 5);
    assert_eq!(fs.columns(&plain()), 43);
}

#[test]
fn filesystems_that_are_unmounted_are_swept() {
    let mut fs = FilesystemStats::new();
    assert!(fs.update(&FilesystemSource { mounts: Some(vec![mount("/", 10, 5), mount("/a", 10, 5)]) }));
    assert!(fs.update(&FilesystemSource { mounts: None }));
    assert_eq!(fs.count(), 2);
    assert!(!fs.update(&FilesystemSource { mounts: Some(vec![mount("/", u64::MAX, 5)]) }));
    assert_eq!(fs.count(), 2);
    assert!(fs.update(&FilesystemSource { mounts: Some(vec![mount("/a", 10, 5)]) }));
    assert_eq!(fs.count(), 1);
    assert!(fs.update(&FilesystemSource { mounts: Some(vec![]) }));
    assert_eq!(fs.count(), 0);
    assert_eq!(fs.render(&plain()), b"");
}

fn line_feeds(out: &[u8]) -> usize {
    out.iter().filter(|b| **b == b'\n').count()
}

#[test]
fn blocks_print_as_many_lines_as_they_claim() {
    for s in [plain(), smart()] {
        let mut mem = MemoryStats::new();
        assert!(mem.update(&memory_source()));
        let out = mem.render(&s);
        assert_eq!(line_feeds(&out), mem.rows(&s) as usize);
        assert_eq!(out.last(), Some(&b'\n'));

        let mut cpu = CpuStats::new();
        assert_eq!(line_feeds(&cpu.render(&s)), cpu.rows(&s) as usize);
        assert!(cpu.update(&CpuSource { stat: some("cpu 1\ncpu0 1 2 3 4 5\ncpu1 1 1 1 1 1\n") }));
        assert!(cpu.update(&CpuSource { stat: some("cpu 1\ncpu0 2 2 3 4 5\ncpu1 1 1 1 1 1\n") }));
        let out = cpu.render(&s);
        assert_eq!(line_feeds(&out), 5);
        assert_eq!(line_feeds(&out), cpu.rows(&s) as usize);
        assert_eq!(out.last(), Some(&b'\n'));

        let mut net = NetworkStats::new();
        assert!(net.update(&NetworkSource { now: 0, dev: net_table("0", "0") }));
        assert!(net.update(&NetworkSource { now: 1000, dev: net_table("10", "20") }));
        let out = net.render(&s);
        assert_eq!(net.count(), 2);
        assert_eq!(line_feeds(&out), 4);
        assert_eq!(line_feeds(&out), net.rows(&s) as usize);
        assert_eq!(out.last(), Some(&b'\n'));

        let mut bdev = BlockDeviceStats::new();
        let table = disk_line("sda", 1, 2, 3) + &disk_line("sdb", 1, 2, 3) + &disk_line("vda", 0, 0, 0);
        assert!(bdev.update(&BlockDeviceSource { now: 0, diskstats: some(&table) }));
        assert!(bdev.update(&BlockDeviceSource { now: 500, diskstats: some(&table) }));
        let out = bdev.render(&s);
        assert_eq!(line_feeds(&out), 5);
        assert_eq!(line_feeds(&out), bdev.rows(&s) as usize);
        assert_eq!(out.last(), Some(&b'\n'));

        let mut fs = FilesystemStats::new();
        assert!(fs.update(&FilesystemSource { mounts: Some(vec![mount("/", 10, 5), mount("/var", 10, 1)]) }));
        let out = fs.render(&s);
        assert_eq!(line_feeds(&out), 4);
        assert_eq!(line_feeds(&out), fs.rows(&s) as usize);
        assert_eq!(out.last(), Some(&b'\n'));
    }
}

#[test]
fn the_pressure_block_does_not_count_its_empty_line() {
    let mut psi = PressureStats::new();
    assert_eq!(line_feeds(&psi.render(&plain())), 0);
    let source = PressureSource {
        cpu: some("some avg10=1.50 avg60=0.25 avg300=0.00 total=123\n"),
        memory: None,
        io: None,
    };
    assert!(psi.update(&source));
    for s in [plain(), smart()] {
        assert_eq!(psi.rows(&s), 4);
        assert_eq!(line_feeds(&psi.render(&s)), 5);
    }
}

#[test]
fn sources_known_by_number_are_held_in_the_order_of_the_numbers() {
    let mut m: BTreeMap<u64, Sampled<u64>> = BTreeMap::new();
    assert!(entries(&m).is_empty());
    take_sample(&mut m, 10, 0, 5);
    take_sample(&mut m, 2, 1, 7);
    take_sample(&mut m, 300, 0, 1);
    take_sample(&mut m, 10, 0, 9);
    assert_eq!(keys_of(&m), vec![2, 10, 300]);
    let v = entries(&m);
    assert_eq!(v.iter().map(|e| e.key).collect::<Vec<u64>>(), vec![2, 10, 300]);
    assert_eq!((v[0].value.prev, v[0].value.cur, v[0].stale.0), (1, 7, false));
    assert_eq!((v[1].value.prev, v[1].value.cur, v[1].stale.0), (5, 9, false));
    // a tick marks all, observes some and drops the rest
    mark_all(&mut m);
    assert!(entries(&m).iter().all(|e| e.stale.0));
    assert_eq!(entries(&m).len(), 3);
    take_sample(&mut m, 300, 0, 4);
    take_sample(&mut m, 1, 0, 4);
    sweep(&mut m);
    let v = entries(&m);
    assert_eq!(v.iter().map(|e| e.key).collect::<Vec<u64>>(), vec![1, 300]);
    assert_eq!((v[1].value.prev, v[1].value.cur, v[1].stale.0), (1, 4, false));
    assert_eq!((v[0].value.prev, v[0].value.cur), (0, 4));
    sweep(&mut m);
    assert_eq!(entries(&m).len(), 2);
    mark_all(&mut m);
    sweep(&mut m);
    assert!(m.is_empty());
}

#[test]
fn cpus_come_in_the_order_of_their_numbers() {
    let mut cpu = CpuStats::new();
    assert!(cpu.update(&CpuSource {
        stat: some("cpu 1\ncpu10 1 1 1 1 1\ncpu2 1 1 1 1 1\ncpu0 1 1 1 1 1\ncpu11 1 1 1 1 1\n"),
    }));
    assert_eq!(cpu.count(), 4);
    let numbers: Vec<u64> = (0..4).map(|i| cpu.cpu(i).key).collect();
    assert_eq!(numbers, vec![0, 2, 10, 11]);
    assert_eq!(cpu.columns(&plain()), 10 + 1 + 4);
}
