use hitome::blockdev::{BlockDeviceSource, BlockDeviceStats};
use hitome::common::{Cli, Settings, StatBlock};
use hitome::cpu::{CpuSource, CpuStats};
use hitome::fs::{FilesystemSource, FilesystemStats};
use hitome::common::MergedStatBlock;
use hitome::driver::{
    column_width, env_dimensions, push_frame_end, push_frame_start, sleep_ms, term_is_smart,
    update_term_dimensions, wants_probe, TermDimensions,
};
use hitome::layout::merge;
use hitome::mem::is_zram;
use hitome::network::{NetworkSource, NetworkStats};
use hitome::pressure::{PressureSource, PressureStats};
use hitome::tracker::{Key, Tracker};

fn text(v: Vec<u8>) -> String {
    String::from_utf8(v).unwrap()
}

fn plain() -> Settings {
    Settings::default()
}

fn newlines(s: &str) -> usize {
    s.bytes().filter(|b| *b == b'\n').count()
}

#[test]
fn two_blocks_side_by_side() {
    let s = plain();
    let out = text(merge(b"ab\ncd\n", b"xyz\n", 2, 3, &s));
    assert_eq!(out, "ab         xyz\ncd            \n");
    assert_eq!(newlines(&out), 2);
    let out = text(merge(b"ab\n", b"xyz\n\nuvw\n", 2, 3, &s));
    assert_eq!(out, "ab         xyz\n              \n           uvw\n");
    assert_eq!(newlines(&out), 3);
}

#[test]
fn two_blocks_one_above_the_other() {
    let narrow = Settings { maxcols: 13, ..Settings::default() };
    let out = text(merge(b"ab\ncd\n", b"xyz\n", 2, 3, &narrow));
    assert_eq!(out, "ab\ncd\nxyz\n");
    assert_eq!(newlines(&out), 3);
    let wide_enough = Settings { maxcols: 14, ..Settings::default() };
    assert_eq!(newlines(&text(merge(b"ab\ncd\n", b"xyz\n", 2, 3, &wide_enough))), 2);
}

#[test]
fn an_empty_block_leaves_the_other_alone() {
    let s = plain();
    assert_eq!(text(merge(b"", b"xyz\n", 0, 3, &s)), "xyz\n");
    assert_eq!(text(merge(b"ab\n", b"", 2, 0, &s)), "ab\n");
    assert_eq!(merge(b"", b"", 0, 0, &s), b"");
}

#[test]
fn smart_lines_are_erased_to_their_end() {
    let s = Settings { smart: true, ..Settings::default() };
    let out = text(merge(b"ab\x1B[0K\n\x1B[0K\n", b"xyz\x1B[0K\n", 2, 3, &s));
    assert_eq!(out, "ab\x1B[0K         xyz\x1B[0K\x1B[0K\n              \x1B[0K\n");
}

#[test]
fn widths_are_rounded_up_to_columns() {
    let m: MergedStatBlock<CpuStats, NetworkStats> = MergedStatBlock::new();
    let s = plain();
    assert_eq!(m.pad_length_to_columns(&s, 0), 0);
    assert_eq!(m.pad_length_to_columns(&s, 1), 10);
    assert_eq!(m.pad_length_to_columns(&s, 10), 10);
    assert_eq!(m.pad_length_to_columns(&s, 11), 21);
    assert_eq!(m.pad_length_to_columns(&s, 12), 21);
    assert_eq!(m.pad_length_to_columns(&s, 21), 21);
    assert_eq!(m.pad_length_to_columns(&s, 32), 32);
    assert_eq!(m.pad_length_to_columns(&s, 65535), 65535);
    assert!(m.can_merge(&s));
}

fn cpu_table(n: usize) -> Option<Vec<u8>> {
    let mut t = String::from("cpu 1 1 1 1 1\n");
    for i in 0..n {
        t.push_str(&format!("cpu{} 1 1 1 1 1\n", i));
    }
    Some(t.into_bytes())
}

fn net_table() -> Option<Vec<u8>> {
    Some(b"a\nb\n  eth0: 1 0 0 0 0 0 0 0 1 0 0 0 0 0 0 0\n  eth1: 1 0 0 0 0 0 0 0 1 0 0 0 0 0 0 0\n".to_vec())
}

#[test]
fn merged_blocks() {
    let s = plain();
    let mut m: MergedStatBlock<CpuStats, NetworkStats> = MergedStatBlock::new();
    assert_eq!(m.columns(&s), 0);
    assert_eq!(m.rows(&s), 0);
    assert_eq!(m.render(&s), b"");
    for now in [0, 1000] {
        assert!(m.update(&(CpuSource { stat: cpu_table(4) }, NetworkSource { now, dev: net_table() })));
    }
    assert_eq!(m.t.columns(&s), 15);
    assert_eq!(m.u.columns(&s), 32);
    assert!(m.can_merge(&s));
    assert_eq!(m.columns(&s), 21 + 32 + 1);
    assert_eq!(m.rows(&s), 5);
    let out = text(m.render(&s));
    assert_eq!(newlines(&out), 5);
    let lines: Vec<&str> = out.lines().collect();
    assert_eq!(lines[0], "    IOWAIT                 IFACE       RX/s       TX/s");
    assert_eq!(lines[1], "    SYSTEM                  eth0          .          .");
    assert_eq!(lines[2], "      USER                  eth1          .          .");
    assert_eq!(lines[3], format!("      NICE      {}", " ".repeat(38)));
    assert_eq!(lines[4], " ".repeat(54));
    for l in &lines {
        assert_eq!(l.len(), 54);
    }
    // too narrow a frame: one above the other
    let narrow = Settings { maxcols: 71, colwidth: 8, ..Settings::default() };
    assert_eq!(m.t.columns(&narrow), 13);
    assert_eq!(m.u.columns(&narrow), 26);
    assert!(m.can_merge(&narrow));
    let many = Settings { maxcols: 40, colwidth: 8, ..Settings::default() };
    assert!(!many.is_wf());
    let tight = Settings { maxcols: 87, colwidth: 10, ..Settings::default() };
    let mut big: MergedStatBlock<CpuStats, NetworkStats> = MergedStatBlock::new();
    for now in [0, 1000] {
        assert!(big.update(&(CpuSource { stat: cpu_table(50) }, NetworkSource { now, dev: net_table() })));
    }
    assert_eq!(big.t.columns(&tight), 61);
    assert!(!big.can_merge(&tight));
    assert_eq!(big.columns(&tight), 61);
    assert_eq!(big.rows(&tight), 5 + 4 + 1);
    let out = text(big.render(&tight));
    assert_eq!(newlines(&out), 5 + 4);
    assert_eq!(out, text(big.t.render(&tight)) + &text(big.u.render(&tight)));
}

#[test]
fn a_block_without_width_prints_nothing() {
    let s = plain();
    let mut m: MergedStatBlock<CpuStats, NetworkStats> = MergedStatBlock::new();
    assert!(m.update(&(CpuSource { stat: cpu_table(2) }, NetworkSource { now: 0, dev: None })));
    assert_eq!(m.u.columns(&s), 0);
    assert_eq!(m.columns(&s), 13);
    assert_eq!(m.rows(&s), 5);
    assert_eq!(m.render(&s), m.t.render(&s));
    let mut m: MergedStatBlock<CpuStats, NetworkStats> = MergedStatBlock::new();
    assert!(m.update(&(CpuSource { stat: None }, NetworkSource { now: 0, dev: net_table() })));
    assert_eq!(m.t.columns(&s), 0);
    assert_eq!(m.columns(&s), 32);
    assert_eq!(m.render(&s), m.u.render(&s));
}

#[test]
fn dimensions_follow_the_terminal() {
    let cli = Cli { colour: None, columns: None, rows: None, column_width: None, refresh_interval: 2000 };
    let mut s = Settings::from_cli(&cli, true);
    assert!(s.smart && s.auto_maxcols && s.auto_maxrows && s.auto_colwidth);
    assert_eq!(s.refresh, 2000);
    assert!(!s.is_wf());
    assert!(update_term_dimensions(&mut s, Some(TermDimensions { rows: 40, cols: 80 })));
    assert_eq!((s.maxcols, s.maxrows, s.colwidth), (80, 40, 9));
    assert!(update_term_dimensions(&mut s, Some(TermDimensions { rows: 10, cols: 20 })));
    assert_eq!((s.maxcols, s.maxrows, s.colwidth), (71, 24, 8));
    assert!(update_term_dimensions(&mut s, Some(TermDimensions { rows: 100, cols: 300 })));
    assert_eq!((s.maxcols, s.maxrows, s.colwidth), (300, 100, 10));
    assert!(update_term_dimensions(&mut s, None));
    assert_eq!((s.maxcols, s.maxrows, s.colwidth), (71, 24, 8));
}

#[test]
fn dimensions_that_are_given_stay() {
    let cli = Cli {
        colour: Some(false),
        columns: Some(100),
        rows: None,
        column_width: Some(10),
        refresh_interval: 500,
    };
    let mut s = Settings::from_cli(&cli, true);
    assert!(!s.smart);
    assert!(update_term_dimensions(&mut s, Some(TermDimensions { rows: 30, cols: 200 })));
    assert_eq!((s.maxcols, s.maxrows, s.colwidth), (100, 30, 10));
    // too narrow a frame for eight columns of the width that was asked for
    let cli = Cli { colour: None, columns: None, rows: Some(30), column_width: Some(10), refresh_interval: 1 };
    let mut s = Settings::from_cli(&cli, false);
    assert!(!update_term_dimensions(&mut s, Some(TermDimensions { rows: 30, cols: 80 })));
    assert_eq!((s.maxcols, s.maxrows, s.colwidth), (80, 30, 10));
    let cli = Cli { colour: None, columns: Some(120), rows: Some(30), column_width: Some(7), refresh_interval: 1 };
    let mut s = Settings::from_cli(&cli, false);
    assert!(!update_term_dimensions(&mut s, None));
    let cli = Cli { colour: None, columns: Some(120), rows: Some(30), column_width: Some(8), refresh_interval: 1 };
    let mut s = Settings::from_cli(&cli, false);
    assert!(update_term_dimensions(&mut s, None));
    assert_eq!((s.maxcols, s.maxrows, s.colwidth), (120, 30, 8));
    assert!(!wants_probe(&s));
}

#[test]
fn the_column_width_follows_the_columns_that_are_given() {
    let cli = Cli { colour: None, columns: Some(100), rows: None, column_width: None, refresh_interval: 1 };
    let mut s = Settings::from_cli(&cli, false);
    assert!(s.auto_colwidth && !s.auto_maxcols && s.auto_maxrows);
    assert!(wants_probe(&s));
    assert!(update_term_dimensions(&mut s, Some(TermDimensions { rows: 50, cols: 200 })));
    assert_eq!((s.maxcols, s.maxrows, s.colwidth), (100, 50, 10));
    assert!(s.is_wf());
    // with every dimension given nothing is asked of the terminal
    let cli = Cli { colour: None, columns: Some(80), rows: Some(30), column_width: None, refresh_interval: 1 };
    let mut s = Settings::from_cli(&cli, false);
    assert!(!wants_probe(&s));
    assert!(update_term_dimensions(&mut s, None));
    assert_eq!((s.maxcols, s.maxrows, s.colwidth), (80, 30, 9));
    // too few columns for eight of the least width
    let cli = Cli { colour: None, columns: Some(50), rows: Some(30), column_width: None, refresh_interval: 1 };
    let mut s = Settings::from_cli(&cli, false);
    assert!(!update_term_dimensions(&mut s, None));
    assert_eq!((s.maxcols, s.maxrows, s.colwidth), (50, 30, 8));
    assert_eq!(column_width(0), 8);
    assert_eq!(column_width(71), 8);
    assert_eq!(column_width(79), 9);
    assert_eq!(column_width(87), 10);
    assert_eq!(column_width(u16::MAX), 10);
}

#[test]
fn frames_begin_and_end() {
    let mut out = Vec::new();
    push_frame_start(&mut out, false);
    push_frame_end(&mut out, false);
    assert_eq!(text(out), "----------\n");
    let mut out = Vec::new();
    push_frame_start(&mut out, true);
    push_frame_end(&mut out, true);
    assert_eq!(text(out), "\x1B[1;1H\x1B[0J\x1B[0J");
    assert_eq!(sleep_ms(2000, 150), 1850);
    assert_eq!(sleep_ms(2000, 2000), 0);
    assert_eq!(sleep_ms(2000, 5000), 0);
}

#[test]
fn tracked_entries_stay_in_the_order_of_their_keys() {
    let mut t: Tracker<Vec<u8>, u32> = Tracker::new();
    for (name, v) in [("sdb", 1), ("sda", 2), ("nvme0n1", 3), ("sda", 4), ("sd", 5), ("sdaa", 6)] {
        t.put(name.as_bytes().to_vec(), v);
    }
    let got: Vec<(String, u32)> = (0..t.len())
        .map(|i| (String::from_utf8(t.slot(i).key.clone()).unwrap(), t.slot(i).value))
        .collect();
    let want: Vec<(String, u32)> = [("nvme0n1", 3), ("sd", 5), ("sda", 4), ("sdaa", 6), ("sdb", 1)]
        .iter()
        .map(|(n, v)| (n.to_string(), *v))
        .collect();
    assert_eq!(got, want);
    assert_eq!(t.find(&b"sda".to_vec()), Ok(2));
    assert_eq!(t.find(&b"sdab".to_vec()), Err(4));
    assert_eq!(t.find(&b"".to_vec()), Err(0));
    assert_eq!(t.get(&b"sdb".to_vec()), Some(&1));
    assert!(!t.contains(&b"sdc".to_vec()));
    t.mark_all();
    t.put(b"sda".to_vec(), 7);
    t.put(b"zz".to_vec(), 8);
    t.sweep();
    let got: Vec<u32> = (0..t.len()).map(|i| t.slot(i).value).collect();
    assert_eq!(got, vec![7, 8]);
    assert!((0..t.len()).all(|i| !t.slot(i).stale.0));
    assert!(b"ab".to_vec().precedes(&b"b".to_vec()));
    assert!(b"a".to_vec().precedes(&b"ab".to_vec()));
    assert!(!b"ab".to_vec().precedes(&b"ab".to_vec()));
    assert!(9u64.precedes(&10u64));
}

#[test]
fn the_environment_gives_the_size_and_the_kind_of_the_terminal() {
    let some = |s: &str| Some(s.as_bytes().to_vec());
    assert_eq!(env_dimensions(&some("24"), &some("80")), Some(TermDimensions { rows: 24, cols: 80 }));
    assert_eq!(env_dimensions(&some("24"), &None), None);
    assert_eq!(env_dimensions(&None, &some("80")), None);
    assert_eq!(env_dimensions(&some("many"), &some("80")), None);
    assert_eq!(env_dimensions(&some("24"), &some("65536")), None);
    assert_eq!(env_dimensions(&some("65535"), &some("0")), Some(TermDimensions { rows: 65535, cols: 0 }));
    assert!(term_is_smart(&some("xterm-256color")));
    assert!(term_is_smart(&some("")));
    assert!(!term_is_smart(&some("dumb")));
    assert!(!term_is_smart(&None));
    assert!(is_zram(b"zram0"));
    assert!(!is_zram(b"sda"));
    assert!(!is_zram(b"zra"));
}

#[test]
fn absent_pressure_leaves_no_gap_in_the_frame() {
    let s = plain();
    let mut psi = PressureStats::new();
    assert!(psi.update(&PressureSource { cpu: None, memory: None, io: None }));
    let mut cpu_net: MergedStatBlock<CpuStats, NetworkStats> = MergedStatBlock::new();
    let mut bdev_fs: MergedStatBlock<BlockDeviceStats, FilesystemStats> = MergedStatBlock::new();
    let disks = Some(b"8 0 sda 1 0 2 0 1 0 2 0 0 0 3 0 0 0 0\n".to_vec());
    for now in [0, 1000] {
        assert!(cpu_net.update(&(CpuSource { stat: cpu_table(1) }, NetworkSource { now, dev: None })));
        assert!(bdev_fs.update(&(
            BlockDeviceSource { now, diskstats: disks.clone() },
            FilesystemSource { mounts: None },
        )));
    }
    let mut frame = Vec::new();
    frame.extend(psi.render(&s));
    frame.extend(cpu_net.render(&s));
    frame.extend(bdev_fs.render(&s));
    assert_eq!(psi.rows(&s), 0);
    assert_eq!(
        text(frame),
        "    IOWAIT  \n    SYSTEM  \n      USER  \n      NICE  \n\n    \
         DEVICE     READ/s    WRITE/s   PRESSURE\n       \
         sda          .          .      0.00%\n\n"
    );
}

#[test]
fn lines_side_by_side_are_as_wide_as_both_blocks() {
    let s = plain();
    let mut m: MergedStatBlock<BlockDeviceStats, FilesystemStats> = MergedStatBlock::new();
    let table = b"   8       0 sda 100 0 8 0 50 0 16 0 0 0 5 0 0 0 0\n".to_vec();
    for now in [0, 1000] {
        let fs = FilesystemSource { mounts: Some(Vec::new()) };
        assert!(m.update(&(BlockDeviceSource { now, diskstats: Some(table.clone()) }, fs)));
    }
    assert_eq!(m.rows(&s), 3);
    assert_eq!(newlines(&text(m.render(&s))), 3);
    let mut both: MergedStatBlock<CpuStats, NetworkStats> = MergedStatBlock::new();
    for now in [0, 1000] {
        assert!(both.update(&(CpuSource { stat: cpu_table(3) }, NetworkSource { now, dev: net_table() })));
    }
    let tc = both.t.columns(&s);
    let uc = both.u.columns(&s);
    let out = text(both.render(&s));
    assert_eq!(newlines(&out), both.t.rows(&s).max(both.u.rows(&s)) as usize);
    for l in out.lines() {
        assert_eq!(l.len(), both.pad_length_to_columns(&s, tc) as usize + 1 + uc as usize);
    }
}
