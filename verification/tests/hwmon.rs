use hitome::common::{Quantity, Settings, StatBlock};
use hitome::hwmon::{
    read_chip, read_gpu, read_monitor_index, Celsius, ChipKey, ChipReading, DataKind, GpuReading,
    walk_ends, HwmonSource, HwmonStats, Sample, TempReading,
};
use hitome::parse::Read;
use hitome::tracker::Key;

fn text(v: Vec<u8>) -> String {
    String::from_utf8(v).unwrap()
}

fn plain() -> Settings {
    Settings::default()
}

fn sample(c: &ChipReading) -> Option<Sample> {
    match read_chip(c) {
        Read::Record(s) => Some(s),
        Read::Bad => None,
        Read::Skip => panic!("no monitor"),
    }
}

fn temp(input: &str, label: Option<&str>) -> TempReading {
    TempReading { input: Some(input.as_bytes().to_vec()), label: label.map(|l| l.as_bytes().to_vec()) }
}

fn coretemp() -> ChipReading {
    ChipReading {
        dir: b"hwmon0".to_vec(),
        name: b"coretemp\n".to_vec(),
        temps: vec![temp("45000\n", Some("Package id 0\n")), temp("38000\n", None)],
        power: None,
        vram: None,
    }
}

fn second() -> ChipReading {
    ChipReading {
        dir: b"hwmon1".to_vec(),
        name: b"nvme\n".to_vec(),
        temps: vec![temp("30000\n", Some("Composite\n"))],
        power: None,
        vram: None,
    }
}

fn amdgpu() -> ChipReading {
    ChipReading {
        dir: b"hwmon3".to_vec(),
        name: b"amdgpu\n".to_vec(),
        temps: vec![temp("51000\n", Some("edge\n")), temp("72500\n", Some("junction\n")), temp("-1000\n", Some("mem\n"))],
        power: Some((b"35000000\n".to_vec(), b"120999999\n".to_vec())),
        vram: Some((b"1073741824\n".to_vec(), b"8589934592\n".to_vec())),
    }
}

#[test]
fn temperatures_are_written_in_degrees() {
    assert_eq!(text(Celsius { milli: 45500 }.format(6, 1)), " 45.5C");
    assert_eq!(text(Celsius { milli: 45500 }.format(6, 0)), "   46C");
    assert_eq!(text(Celsius { milli: 44500 }.format(6, 0)), "   44C");
    assert_eq!(text(Celsius { milli: -5000 }.format(6, 1)), " -5.0C");
    assert_eq!(text(Celsius { milli: -40 }.format(6, 1)), " -0.0C");
    assert_eq!(text(Celsius { milli: 0 }.format(8, 2)), "   0.00C");
    assert_eq!(text(Celsius { milli: i64::MIN + 1 }.format(0, 0)), "-9223372036854776C");
    assert!(Celsius { milli: -1 }.is_below(&Celsius { milli: 0 }));
}

#[test]
fn chip_keys_put_monitors_before_cards() {
    let m0 = ChipKey { nvml: false, index: 0 };
    let m9 = ChipKey { nvml: false, index: 9 };
    let g0 = ChipKey { nvml: true, index: 0 };
    assert!(m0.precedes(&m9));
    assert!(m9.precedes(&g0));
    assert!(!g0.precedes(&m9));
    assert!(!m0.precedes(&m0));
}

#[test]
fn monitor_samples() {
    let s = sample(&coretemp()).unwrap();
    assert_eq!(s.name, b"coretemp");
    assert_eq!(s.key, ChipKey { nvml: false, index: 0 });
    assert_eq!(s.sensors.len(), 2);
    assert_eq!(s.sensors[0].label, b"Package id 0");
    assert!(matches!(s.sensors[0].value, DataKind::Temperature(Celsius { milli: 45000 })));
    assert_eq!(s.sensors[1].label, b"Temp2");
    let s = sample(&amdgpu()).unwrap();
    assert_eq!(s.sensors.len(), 5);
    assert_eq!(s.sensors[3].label, b"pwr");
    match s.sensors[3].value {
        DataKind::Watts(w, Some(cap)) => {
            assert_eq!(w.0, 35);
            assert_eq!(cap.0, 120);
        }
        _ => panic!(),
    }
    assert_eq!(s.sensors[4].label, b"vram");
    match s.sensors[4].value {
        DataKind::Bytes(used, Some(total)) => {
            assert_eq!(used.0, 1 << 30);
            assert_eq!(total.0, 8 << 30);
        }
        _ => panic!(),
    }
    // only the chip amdgpu has power and video memory read
    let mut other = amdgpu();
    other.name = b"radeon\n".to_vec();
    assert_eq!(sample(&other).unwrap().sensors.len(), 3);
    let mut bad = coretemp();
    bad.temps[1].input = Some(b"warm\n".to_vec());
    assert!(sample(&bad).is_none());
    let mut bad = amdgpu();
    bad.power = Some((b"1\n".to_vec(), b"\n".to_vec()));
    assert!(sample(&bad).is_none());
}

#[test]
fn card_samples() {
    let s = read_gpu(&GpuReading {
        index: 1,
        temperature: Some(60),
        memory: Some((1, 4)),
        utilization: Some((30, 70)),
    });
    assert_eq!(s.name, b"nvidia1");
    assert_eq!(s.key, ChipKey { nvml: true, index: 1 });
    assert_eq!(s.sensors[0].label, b"Tgpu");
    assert!(matches!(s.sensors[0].value, DataKind::Temperature(Celsius { milli: 60000 })));
    match s.sensors[1].value {
        DataKind::Percentage(p) => assert_eq!((p.part, p.whole), (1, 4)),
        _ => panic!(),
    }
    match s.sensors[2].value {
        DataKind::Percentage(p) => assert_eq!((p.part, p.whole), (70, 100)),
        _ => panic!(),
    }
    let s = read_gpu(&GpuReading { index: 0, temperature: None, memory: Some((0, 0)), utilization: None });
    assert!(matches!(s.sensors[0].value, DataKind::Nothing));
    assert!(matches!(s.sensors[1].value, DataKind::Nothing));
    assert!(matches!(s.sensors[2].value, DataKind::Nothing));
}

#[test]
fn two_chips_share_a_line() {
    let mut hw = HwmonStats::new();
    assert_eq!(hw.rows(&plain()), 0);
    assert_eq!(hw.columns(&plain()), 0);
    assert_eq!(hw.render(&plain()), b"");
    let source = HwmonSource {
        chips: Some(vec![coretemp()]),
        gpus: Some(vec![GpuReading {
            index: 0,
            temperature: Some(60),
            memory: Some((1, 4)),
            utilization: Some((30, 70)),
        }]),
    };
    assert!(hw.update(&source));
    assert_eq!(hw.count(), 2);
    assert_eq!(hw.rows(&plain()), 2);
    assert_eq!(hw.columns(&plain()), 8 * 10 + 7);
    // a line that has ended is not filled up again
    let blank = " ".repeat(11);
    let both = format!(
        "  coretemp Pack   45C Temp   38C{} \
         \u{20}  nvidia0   Load 70% Tgpu   60C   Vram 25%\n",
        blank
    );
    assert_eq!(text(hw.render(&plain())), format!("{}\n", both));
    // a third chip begins a line, which is filled up to its end
    let source = HwmonSource { chips: Some(vec![coretemp(), second()]), gpus: source.gpus };
    assert!(hw.update(&source));
    assert_eq!(hw.count(), 3);
    assert_eq!(hw.rows(&plain()), 3);
    let out = text(hw.render(&plain()));
    assert_eq!(
        out,
        format!(
            "  coretemp Pack   45C Temp   38C{} \
             \u{20}     nvme Comp   30C{}\n   nvidia0   Load 70% Tgpu   60C   Vram 25% {}\n\n",
            blank,
            " ".repeat(22),
            " ".repeat(44)
        )
    );
    assert_eq!(out.matches('\n').count(), 3);
}

#[test]
fn the_walk_over_sensors_ends_at_the_first_that_is_missing() {
    let mut chip = coretemp();
    let third = temp("50000\n", Some("Late\n"));
    chip.temps.insert(1, TempReading { input: None, label: Some(b"Gone\n".to_vec()) });
    chip.temps.push(third);
    assert!(!walk_ends(&chip.temps[0]));
    assert!(walk_ends(&chip.temps[1]));
    let s = sample(&chip).unwrap();
    assert_eq!(s.sensors.len(), 1);
    assert_eq!(s.sensors[0].label, b"Package id 0");
    // what stands behind the missing one is not even looked at
    chip.temps[2].input = Some(b"warm\n".to_vec());
    assert_eq!(sample(&chip).unwrap().sensors.len(), 1);
}

#[test]
fn a_chip_with_many_sensors_has_lines_of_its_own() {
    let mut hw = HwmonStats::new();
    let mut many = coretemp();
    many.temps = (1..=9).map(|i| temp(&format!("{}000\n", 30 + i), Some(&format!("c{}\n", i)))).collect();
    assert!(hw.update(&HwmonSource { chips: Some(vec![many, amdgpu()]), gpus: None }));
    assert_eq!(hw.rows(&plain()), 1 + 2 + 1);
    let out = text(hw.render(&plain()));
    let lines: Vec<&str> = out.lines().collect();
    assert_eq!(lines.len(), 4);
    assert_eq!(out.matches('\n').count(), 4);
    assert_eq!(
        lines[0],
        "  coretemp   c1   31C   c2   32C   c3   33C   c4   34C   c5   35C   c6   36C   c7   37C"
    );
    assert_eq!(lines[1], format!("  coretemp   c8   38C   c9   39C{}", " ".repeat(55)));
    assert_eq!(
        lines[2],
        format!("    amdgpu edge   51C junc   72C  mem   -1C  pwr   35W vram 1024M{}", " ".repeat(22))
    );
    assert_eq!(lines[3], "");
    for l in &lines[..3] {
        assert_eq!(l.len(), 8 * 10 + 7);
    }
}

#[test]
fn sensors_are_coloured_by_their_levels() {
    let mut hw = HwmonStats::new();
    assert!(hw.update(&HwmonSource { chips: Some(vec![amdgpu()]), gpus: None }));
    let smart = Settings { smart: true, colwidth: 12, maxcols: 120, ..Settings::default() };
    let out = text(hw.render(&smart));
    // 51 degrees reach the first level, 72.5 the second, 35 of 120 watts none
    assert!(out.contains(" \x1B[1m  edge\x1B[0m\x1B[1;93m 51.0C\x1B[0m"));
    assert!(out.contains(" \x1B[1mjuncti\x1B[0m\x1B[1;91m 72.5C\x1B[0m"));
    assert!(out.contains(" \x1B[1m   mem\x1B[0m -1.0C"));
    assert!(out.contains(" \x1B[1m   pwr\x1B[0m   35W"));
    assert!(out.contains(" \x1B[1m  vram\x1B[0m 1024M"));
}

#[test]
fn chips_and_sensors_that_go_away_are_swept() {
    let mut hw = HwmonStats::new();
    assert!(hw.update(&HwmonSource { chips: Some(vec![coretemp(), amdgpu()]), gpus: None }));
    assert_eq!(hw.count(), 2);
    let mut less = coretemp();
    less.temps.pop();
    assert!(hw.update(&HwmonSource { chips: Some(vec![less]), gpus: None }));
    assert_eq!(hw.count(), 1);
    let out = text(hw.render(&plain()));
    assert!(out.contains("Pack   45C"));
    assert!(!out.contains("Temp"));
    // what makes no sense changes nothing
    let mut bad = coretemp();
    bad.temps[0].input = Some(b"\n".to_vec());
    assert!(!hw.update(&HwmonSource { chips: Some(vec![bad, amdgpu()]), gpus: None }));
    assert_eq!(hw.count(), 1);
    assert!(hw.update(&HwmonSource { chips: None, gpus: None }));
    assert_eq!(hw.count(), 0);
}

#[test]
fn a_chip_without_sensors_is_not_written() {
    let mut hw = HwmonStats::new();
    let mut bare = coretemp();
    bare.temps.clear();
    assert!(hw.update(&HwmonSource { chips: Some(vec![bare]), gpus: None }));
    assert_eq!(hw.count(), 1);
    // it is counted among the chips that share lines all the same
    assert_eq!(hw.rows(&plain()), 2);
    assert_eq!(hw.columns(&plain()), 8 * 10 + 7);
    assert_eq!(text(hw.render(&plain())), "\n");
    // beside a chip that has sensors it takes no place
    let mut bare = coretemp();
    bare.temps.clear();
    assert!(hw.update(&HwmonSource { chips: Some(vec![bare, second()]), gpus: None }));
    assert_eq!(hw.count(), 2);
    assert_eq!(hw.rows(&plain()), 2);
    assert_eq!(
        text(hw.render(&plain())),
        format!("      nvme Comp   30C{}{}\n\n", " ".repeat(22), " ".repeat(45))
    );
}

#[test]
fn directories_that_are_no_monitors_are_passed_over() {
    assert_eq!(read_monitor_index(b"hwmon0"), Some(0));
    assert_eq!(read_monitor_index(b"hwmon12"), Some(12));
    assert_eq!(read_monitor_index(b"hwmon"), None);
    assert_eq!(read_monitor_index(b"hwmonX"), None);
    assert_eq!(read_monitor_index(b"power"), None);
    assert_eq!(read_monitor_index(b""), None);
    let mut odd = coretemp();
    odd.dir = b"README".to_vec();
    odd.temps[0].input = Some(b"nonsense".to_vec());
    assert!(matches!(read_chip(&odd), Read::Skip));
    let mut hw = HwmonStats::new();
    assert!(hw.update(&HwmonSource { chips: Some(vec![odd, amdgpu()]), gpus: None }));
    assert_eq!(hw.count(), 1);
}

#[test]
fn power_and_memory_are_coloured_by_their_share_of_the_whole() {
    let smart = Settings { smart: true, colwidth: 12, maxcols: 120, ..Settings::default() };
    let render = |power: (&str, &str), vram: (&str, &str)| {
        let mut chip = amdgpu();
        chip.temps.clear();
        chip.power = Some((power.0.as_bytes().to_vec(), power.1.as_bytes().to_vec()));
        chip.vram = Some((vram.0.as_bytes().to_vec(), vram.1.as_bytes().to_vec()));
        let mut hw = HwmonStats::new();
        assert!(hw.update(&HwmonSource { chips: Some(vec![chip]), gpus: None }));
        text(hw.render(&smart))
    };
    // of a cap of 120 W the levels are 60, 90 and 108 W; of 8 GiB they are 4, 6 and 7.2 GiB
    let out = render(("59999999\n", "120000000\n"), ("4294967295\n", "8589934592\n"));
    assert!(out.contains("\x1B[0m   59W "));
    assert!(out.contains("\x1B[0m 4096M "));
    let out = render(("60000000\n", "120000000\n"), ("4294967296\n", "8589934592\n"));
    assert!(out.contains("\x1B[1;93m   60W\x1B[0m"));
    assert!(out.contains("\x1B[1;93m 4096M\x1B[0m"));
    let out = render(("100000000\n", "120000000\n"), ("6442450944\n", "8589934592\n"));
    assert!(out.contains("\x1B[1;91m  100W\x1B[0m"));
    assert!(out.contains("\x1B[1;91m 6144M\x1B[0m"));
    let out = render(("108000000\n", "120000000\n"), ("8053063680\n", "8589934592\n"));
    assert!(out.contains("\x1B[1;95m  108W\x1B[0m"));
    assert!(out.contains("\x1B[1;95m 7680M\x1B[0m"));
}
