use hitome::common::{Settings, StatBlock};
use hitome::driver::remaining_rows;
use hitome::queue::PickHeap;
use hitome::tasks::{
    fd_budget_of, push_command, read_task_id, read_task_stat, read_uptime, split_at, top, Access,
    Outcome, Pick, TaskState, TaskStats, TaskText,
};

fn text(v: Vec<u8>) -> String {
    String::from_utf8(v).unwrap()
}

fn plain() -> Settings {
    Settings::default()
}

fn stat(name: &str, state: &str, utime: u64, stime: u64, starttime: u64) -> Vec<u8> {
    format!(
        "1234 ({}) {} 1 1234 1234 0 -1 4194560 100 0 0 0 {} {} 0 0 20 0 1 0 {} 1000000 100 18446744073709551615\n",
        name, state, utime, stime, starttime
    )
    .into_bytes()
}

fn read(name: &str, state: &str, utime: u64, stime: u64, starttime: u64) -> Outcome {
    Outcome::Read { stat: stat(name, state, utime, stime, starttime), kept: None }
}

#[test]
fn task_statistics() {
    let st = read_task_stat(&stat("bash", "S", 50, 25, 5000)).unwrap();
    assert_eq!(st.state, TaskState::Sleeping);
    assert_eq!(st.used, 75);
    assert_eq!(st.starttime, 5000);
    // the name may hold blanks and brackets
    let st = read_task_stat(&stat("my (weird) D name)", "D", 1, 2, 3)).unwrap();
    assert_eq!(st.state, TaskState::Uninterruptible);
    assert_eq!(st.used, 3);
    for (letter, state) in [
        ("R", TaskState::Running),
        ("Z", TaskState::Zombie),
        ("T", TaskState::Traced),
        ("I", TaskState::Idle),
        ("X", TaskState::Unknown),
        ("t", TaskState::Unknown),
        ("SS", TaskState::Unknown),
    ] {
        assert_eq!(read_task_stat(&stat("x", letter, 0, 0, 0)).unwrap().state, state);
    }
    assert!(read_task_stat(b"1234 (bash S 1 2 3").is_none());
    assert!(read_task_stat(b"1234 (bash) S 1 2 3").is_none());
    assert!(read_task_stat(&stat("x", "S", u64::MAX, 1, 0)).is_none());
    assert!(read_task_stat(b"").is_none());
}

#[test]
fn uptime_in_jiffies() {
    assert_eq!(read_uptime(b"100.00 200.00\n", 100), Some(10000));
    assert_eq!(read_uptime(b"350735.47 234388.90\n", 100), Some(35073547));
    assert_eq!(read_uptime(b"1.999 0\n", 100), Some(199));
    assert_eq!(read_uptime(b"10.50\n", 250), Some(2625));
    assert_eq!(read_uptime(b"7\n", 100), Some(700));
    assert_eq!(read_uptime(b"\n", 100), None);
    assert_eq!(read_uptime(b"soon\n", 100), None);
}

#[test]
fn descriptors_stay_open_within_the_budget() {
    let mut tasks = TaskStats::with_limits(100, 2);
    assert!(tasks.begin(b"100.00 1.00\n"));
    assert_eq!(tasks.plan(1), Access::Open { keep: true });
    assert!(tasks.sample(1, 0, &Outcome::Read { stat: stat("a", "S", 1, 1, 1), kept: Some(7) }));
    assert_eq!(tasks.plan(1), Access::Cached(7));
    assert_eq!(tasks.plan(2), Access::Open { keep: true });
    assert!(tasks.sample(2, 0, &Outcome::Read { stat: stat("b", "S", 1, 1, 1), kept: Some(8) }));
    // the budget is used up
    assert_eq!(tasks.plan(3), Access::Open { keep: false });
    assert!(tasks.sample(3, 0, &Outcome::Read { stat: stat("c", "S", 1, 1, 1), kept: None }));
    assert_eq!(tasks.plan(3), Access::Open { keep: false });
    assert_eq!(tasks.sweep(), Vec::<i32>::new());
    // the next tick sees only the third task: the descriptors of the others are handed back
    assert!(tasks.begin(b"101.00 1.00\n"));
    assert!(tasks.sample(3, 0, &Outcome::Read { stat: stat("c", "S", 1, 1, 1), kept: None }));
    let mut fds = tasks.sweep();
    fds.sort();
    assert_eq!(fds, vec![7, 8]);
    assert_eq!(tasks.plan(1), Access::Open { keep: true });
}

#[test]
fn a_task_that_is_gone_is_swept() {
    let mut tasks = TaskStats::with_limits(100, 0);
    assert!(tasks.begin(b"100.00\n"));
    assert!(tasks.sample(1, 0, &Outcome::Gone));
    assert!(tasks.sample(2, 0, &read("b", "R", 10, 0, 9000)));
    assert_eq!(tasks.sweep(), Vec::<i32>::new());
    assert_eq!(tasks.select(), vec![Pick { pid: 2, state: TaskState::Running, cpu: 1 }]);
    assert!(tasks.begin(b"101.00\n"));
    assert!(tasks.sample(2, 0, &Outcome::Gone));
    tasks.sweep();
    assert_eq!(tasks.select(), vec![]);
    assert!(tasks.begin(b"102.00\n"));
    tasks.sweep();
    assert!(tasks.begin(b"103.00\n"));
    assert!(tasks.sample(2, 0, &read("b", "R", 10, 0, 9000)));
    tasks.sweep();
    // the task is new again: it has used 10 jiffies in the 1300 since its start
    assert_eq!(tasks.select(), vec![Pick { pid: 2, state: TaskState::Running, cpu: 0 }]);
}

#[test]
fn shares_since_the_last_tick() {
    let mut tasks = TaskStats::with_limits(100, 0);
    assert!(tasks.begin(b"100.00\n"));
    assert!(tasks.sample(1234, 0, &read("bash", "S", 50, 25, 5000)));
    tasks.sweep();
    // 75 jiffies in the 5000 since the start
    assert_eq!(tasks.select(), vec![Pick { pid: 1234, state: TaskState::Sleeping, cpu: 1 }]);
    assert!(tasks.begin(b"101.00\n"));
    // 500 ms after the uptime was read, 150 jiffies after the last sample
    assert!(tasks.sample(1234, 500, &read("bash", "R", 100, 50, 5000)));
    tasks.sweep();
    assert_eq!(tasks.select(), vec![Pick { pid: 1234, state: TaskState::Running, cpu: 50 }]);
    // statistics that make no sense change nothing and leave the task stale
    assert!(tasks.begin(b"102.00\n"));
    assert!(!tasks.sample(1234, 0, &Outcome::Read { stat: b"1234 (bash) S 1".to_vec(), kept: None }));
    assert!(!tasks.begin(b"\n"));
    tasks.sweep();
    assert_eq!(tasks.select(), vec![]);
}

#[test]
fn a_number_that_goes_to_another_task_starts_over() {
    let mut tasks = TaskStats::with_limits(100, 0);
    assert!(tasks.begin(b"100.00\n"));
    assert!(tasks.sample(77, 0, &read("old", "R", 4000, 0, 5000)));
    tasks.sweep();
    assert_eq!(tasks.select(), vec![Pick { pid: 77, state: TaskState::Running, cpu: 80 }]);
    assert!(tasks.begin(b"101.00\n"));
    assert!(tasks.sample(77, 0, &read("new", "R", 3, 0, 10050)));
    tasks.sweep();
    assert_eq!(tasks.select(), vec![]);
    assert!(tasks.begin(b"102.00\n"));
    assert!(tasks.sample(77, 0, &read("new", "R", 13, 0, 10050)));
    tasks.sweep();
    assert_eq!(tasks.select(), vec![Pick { pid: 77, state: TaskState::Running, cpu: 10 }]);
}

#[test]
fn a_share_that_eight_bits_do_not_hold_keeps_its_low_bits() {
    let mut tasks = TaskStats::with_limits(100, 0);
    assert!(tasks.begin(b"100.00\n"));
    assert!(tasks.sample(7, 0, &read("busy", "R", 0, 0, 9900)));
    assert!(tasks.sample(8, 0, &read("full", "R", 0, 0, 9900)));
    tasks.sweep();
    assert!(tasks.begin(b"101.00\n"));
    // 300 jiffies in 100: 300 %, of which eight bits hold 44
    assert!(tasks.sample(7, 0, &read("busy", "R", 200, 100, 9900)));
    // 255 %
    assert!(tasks.sample(8, 0, &read("full", "R", 255, 0, 9900)));
    tasks.sweep();
    assert_eq!(
        tasks.select(),
        vec![
            Pick { pid: 8, state: TaskState::Running, cpu: 255 },
            Pick { pid: 7, state: TaskState::Running, cpu: 44 },
        ]
    );
}

#[test]
fn descriptors_that_the_process_keeps_for_itself() {
    assert_eq!(fd_budget_of(1024), 1014);
    assert_eq!(fd_budget_of(11), 1);
    assert_eq!(fd_budget_of(10), 0);
    assert_eq!(fd_budget_of(3), 0);
    assert_eq!(fd_budget_of(0), 0);
    assert_eq!(fd_budget_of(u64::MAX), u64::MAX - 10);
}

fn pick(pid: u32, state: TaskState, cpu: u8) -> Pick {
    Pick { pid, state, cpu }
}

#[test]
fn uninterruptible_tasks_come_first() {
    let c = vec![
        pick(1, TaskState::Running, 90),
        pick(2, TaskState::Uninterruptible, 0),
        pick(3, TaskState::Sleeping, 5),
        pick(4, TaskState::Uninterruptible, 7),
        pick(5, TaskState::Sleeping, 0),
        pick(6, TaskState::Running, 0),
        pick(7, TaskState::Zombie, 5),
        pick(8, TaskState::Sleeping, 0),
    ];
    let order: Vec<u32> = top(&c, 10).iter().map(|p| p.pid).collect();
    // the sleeping task 8 that has used nothing ends the list, though task 6 ranks below it
    assert_eq!(order, vec![4, 2, 1, 7, 3]);
    let order: Vec<u32> = top(&c, 3).iter().map(|p| p.pid).collect();
    assert_eq!(order, vec![4, 2, 1]);
    assert_eq!(top(&c, 0), vec![]);
    assert_eq!(top(&vec![], 5), vec![]);
    let mut reversed = c.clone();
    reversed.reverse();
    let order: Vec<u32> = top(&reversed, 10).iter().map(|p| p.pid).collect();
    assert_eq!(order, vec![4, 2, 1, 7, 3]);
}

#[test]
fn the_selection_is_sorted() {
    let mut seed: u32 = 99;
    let mut c = Vec::new();
    for pid in 0..300u32 {
        seed = seed.wrapping_mul(1664525).wrapping_add(1013904223);
        let state = match (seed >> 8) % 4 {
            0 => TaskState::Uninterruptible,
            1 => TaskState::Running,
            2 => TaskState::Idle,
            _ => TaskState::Sleeping,
        };
        c.push(pick(pid, state, 1 + ((seed >> 16) % 100) as u8));
    }
    let picks = top(&c, 40);
    assert_eq!(picks.len(), 40);
    for w in picks.windows(2) {
        let (a, b) = (w[0], w[1]);
        let (ua, ub) = (a.state == TaskState::Uninterruptible, b.state == TaskState::Uninterruptible);
        assert!(ua || !ub);
        if ua == ub {
            assert!(a.cpu > b.cpu || (a.cpu == b.cpu && a.pid > b.pid));
        }
    }
    let mut want = c.clone();
    want.sort_by_key(|p| (p.state == TaskState::Uninterruptible, p.cpu, p.pid));
    want.reverse();
    want.truncate(40);
    assert_eq!(picks, want);
}

#[test]
fn the_task_budget() {
    assert_eq!(remaining_rows(30, 3, 4, 5, 5, 4), 7);
    assert_eq!(remaining_rows(24, 3, 4, 5, 5, 4), 5);
    assert_eq!(remaining_rows(10, 3, 4, 5, 5, 4), 5);
    assert_eq!(remaining_rows(50, 3, 0, 0, 0, 0), 45);
    assert_eq!(remaining_rows(0, 65535, 65535, 65535, 65535, 65535), 5);
    let mut tasks = TaskStats::new();
    assert_eq!(tasks.rows(&plain()), 11);
    tasks.set_max_tasks(remaining_rows(30, 3, 4, 5, 5, 4));
    assert_eq!(tasks.rows(&plain()), 8);
    assert_eq!(tasks.columns(&plain()), 120);
    tasks.set_max_tasks(u16::MAX);
    assert_eq!(tasks.rows(&plain()), u16::MAX);
}

fn line(pid: u32, state: TaskState, cpu: u8, comm: &str, cmdline: &[u8]) -> TaskText {
    TaskText { pick: pick(pid, state, cpu), cmdline: cmdline.to_vec(), comm: comm.as_bytes().to_vec() }
}

fn letter(state: TaskState) -> &'static str {
    match state {
        TaskState::Sleeping => "S",
        TaskState::Running => "R",
        TaskState::Uninterruptible => "D",
        TaskState::Zombie => "Z",
        TaskState::Traced => "T",
        TaskState::Idle => "I",
        TaskState::Unknown => "?",
    }
}

/// Two ticks a second apart, after which each task has the share given.
fn observe(tasks: &mut TaskStats, all: &[(u32, TaskState, u8)]) {
    assert!(tasks.begin(b"100.00\n"));
    for (pid, state, _) in all {
        assert!(tasks.sample(*pid, 0, &read("x", letter(*state), 0, 0, 9900)));
    }
    tasks.sweep();
    assert!(tasks.begin(b"101.00\n"));
    for (pid, state, cpu) in all {
        assert!(tasks.sample(*pid, 0, &read("x", letter(*state), *cpu as u64, 0, 9900)));
    }
    tasks.sweep();
}

#[test]
fn task_lines() {
    let mut tasks = TaskStats::new();
    tasks.set_max_tasks(3);
    observe(
        &mut tasks,
        &[
            (1234, TaskState::Sleeping, 10),
            (7, TaskState::Uninterruptible, 100),
            (99999, TaskState::Running, 61),
            (5, TaskState::Running, 5),
        ],
    );
    let lines = vec![
        line(7, TaskState::Uninterruptible, 100, "kworker/0:1\n", b""),
        line(99999, TaskState::Running, 61, "Web Content\n", b"/opt/firefox/firefox-bin\0-contentproc\0"),
        line(1234, TaskState::Sleeping, 10, "bash\n", b"/usr/bin/bash\0-c\0echo 'hi' there\0"),
    ];
    assert_eq!(tasks.select(), lines.iter().map(|l| l.pick).collect::<Vec<Pick>>());
    assert!(tasks.update(&lines));
    let out = text(tasks.render(&plain()));
    let got: Vec<&str> = out.lines().collect();
    assert_eq!(got.len(), 4);
    assert_eq!(got[0], "       PID S CPU% COMMAND   ");
    assert_eq!(got[1], format!("         7 D 100% (kworker/0:1)  {:<87}", ""));
    assert_eq!(got[2], format!("     99999 R  61% (Web Content) firefox-bin {:<76}", "-contentproc  "));
    assert_eq!(got[3], format!("      1234 S  10% bash {:<97}", "-c 'echo \\'hi\\' there'  "));
    for l in &got[1..] {
        assert_eq!(l.len(), 10 + 1 + 1 + 1 + 4 + 1 + 102);
        assert_eq!(l.len(), tasks.columns(&plain()) as usize);
    }
    let smart = Settings { smart: true, ..Settings::default() };
    let out = text(tasks.render(&smart));
    let got: Vec<&str> = out.lines().collect();
    assert_eq!(
        got[0],
        "\x1B[1m       PID\x1B[0m \x1B[1mS\x1B[0m \x1B[1mCPU%\x1B[0m \x1B[1mCOMMAND   \x1B[0m\x1B[0K"
    );
    assert!(got[1].starts_with("         7 \x1B[1;95mD\x1B[0m \x1B[1;95m100%\x1B[0m (kworker/0:1) \x1B[1m\x1B[0m "));
    assert!(got[2].starts_with("     99999 \x1B[1;93mR\x1B[0m \x1B[1;91m 61%\x1B[0m (Web Content) \x1B[1mfirefox-bin\x1B[0m "));
    assert!(got[3].starts_with("      1234 S  10% \x1B[1mbash\x1B[0m -c "));
}

#[test]
fn lines_that_are_not_those_of_the_selection_are_refused() {
    let mut tasks = TaskStats::new();
    tasks.set_max_tasks(2);
    observe(
        &mut tasks,
        &[(1, TaskState::Running, 30), (2, TaskState::Running, 50), (3, TaskState::Running, 10)],
    );
    let first = || line(2, TaskState::Running, 50, "b\n", b"b\0");
    let second = || line(1, TaskState::Running, 30, "a\n", b"a\0");
    let third = || line(3, TaskState::Running, 10, "c\n", b"c\0");
    assert!(tasks.update(&vec![first(), second()]));
    let shown = tasks.render(&plain());
    // another order, a task too few, a task too many, a task that is not held,
    // another share
    assert!(!tasks.update(&vec![second(), first()]));
    assert!(!tasks.update(&vec![first()]));
    assert!(!tasks.update(&vec![first(), second(), third()]));
    assert!(!tasks.update(&vec![first(), line(9, TaskState::Running, 30, "a\n", b"a\0")]));
    assert!(!tasks.update(&vec![first(), line(1, TaskState::Running, 31, "a\n", b"a\0")]));
    assert!(!tasks.update(&vec![]));
    assert_eq!(tasks.render(&plain()), shown);
    // a task that was not seen in the tick under way is out of the running,
    // swept or not
    assert!(tasks.begin(b"102.00\n"));
    assert!(tasks.sample(1, 0, &read("x", "R", 60, 0, 9900)));
    assert_eq!(tasks.select(), vec![pick(1, TaskState::Running, 30)]);
    assert!(!tasks.update(&vec![first(), second()]));
    assert!(tasks.update(&vec![second()]));
    tasks.sweep();
    assert_eq!(tasks.select(), vec![pick(1, TaskState::Running, 30)]);
    assert!(tasks.update(&vec![second()]));
}

#[test]
fn long_command_lines_are_cut() {
    let mut tasks = TaskStats::new();
    observe(&mut tasks, &[(1, TaskState::Running, 1)]);
    let mut cmdline = b"/bin/x".to_vec();
    for i in 0..200 {
        cmdline.push(0);
        cmdline.extend_from_slice(format!("arg{}", i).as_bytes());
    }
    assert!(tasks.update(&vec![line(1, TaskState::Running, 1, "x\n", &cmdline)]));
    let out = text(tasks.render(&plain()));
    let row = out.lines().nth(1).unwrap();
    assert_eq!(row.len(), 120);
    assert!(row.starts_with("         1 R   1% x arg0 arg1 arg2 "));
    let narrow = Settings { maxcols: 71, colwidth: 8, ..Settings::default() };
    let out = text(tasks.render(&narrow));
    assert_eq!(out.lines().nth(1).unwrap().len(), 71);
}

fn command(s: &Settings, comm: &str, cmdline: &[u8]) -> String {
    let mut out = Vec::new();
    push_command(&mut out, s, comm.as_bytes(), cmdline);
    text(out)
}

#[test]
fn long_names_are_cut() {
    let narrow = Settings { maxcols: 71, colwidth: 8, ..Settings::default() };
    let smart = Settings { smart: true, ..narrow };
    // a room of 55 characters
    let long = "p".repeat(60);
    let path = format!("/usr/bin/{}\0--flag\0", long);
    let c = command(&narrow, &format!("{}\n", &long[..15]), path.as_bytes());
    assert_eq!(c, "p".repeat(55));
    assert_eq!(command(&smart, "ppp\n", path.as_bytes()), format!("\x1B[1m{}\x1B[0m", "p".repeat(55)));
    // the name fills the room but for the blank
    let path = format!("/{}\0--flag\0", "p".repeat(54));
    assert_eq!(command(&narrow, "p\n", path.as_bytes()), format!("{} ", "p".repeat(54)));
    let path = format!("/{}\0--flag\0", "p".repeat(55));
    assert_eq!(command(&narrow, "p\n", path.as_bytes()), "p".repeat(55));
    let path = format!("/{}\0--flag\0", "p".repeat(53));
    assert_eq!(command(&narrow, "p\n", path.as_bytes()), format!("{} -", "p".repeat(53)));
    // the task's name and the program's name together
    let path = format!("{}\0--flag\0", long);
    let c = command(&narrow, "worker\n", path.as_bytes());
    assert_eq!(c, format!("(worker) {}", "p".repeat(46)));
    assert_eq!(command(&smart, "worker\n", path.as_bytes()), format!("(worker) \x1B[1m{}\x1B[0m", "p".repeat(46)));
    // the task's name alone
    let c = command(&narrow, &format!("{}\n", "w".repeat(70)), b"prog\0a\0");
    assert_eq!(c, format!("({}", "w".repeat(54)));
    let c = command(&narrow, &format!("{}\n", "w".repeat(52)), b"prog\0a\0");
    assert_eq!(c, format!("({}) ", "w".repeat(52)));
    let c = command(&narrow, &format!("{}\n", "w".repeat(50)), b"prog\0a\0");
    assert_eq!(c, format!("({}) pr", "w".repeat(50)));
    // characters of more than one byte are cut whole
    let path = format!("{}\0", "é".repeat(60));
    let c = command(&narrow, "é\n", path.as_bytes());
    assert_eq!(c, "é".repeat(55));
    assert_eq!(c.chars().count(), 55);
    // whatever the names are, the command takes its room and the line the frame
    let mut tasks = TaskStats::new();
    observe(&mut tasks, &[(1, TaskState::Running, 1)]);
    for (comm, cmdline) in [
        ("x\n".to_string(), format!("{}\0a b\0", long)),
        (format!("{}\n", long), "short\0".to_string()),
        (String::new(), String::new()),
        ("x\n".to_string(), "x\0".to_string()),
    ] {
        for s in [narrow, plain()] {
            assert_eq!(command(&s, &comm, cmdline.as_bytes()).len(), (s.maxcols - s.colwidth - 8) as usize);
        }
        assert!(tasks.update(&vec![line(1, TaskState::Running, 1, &comm, cmdline.as_bytes())]));
        for s in [narrow, plain()] {
            let out = text(tasks.render(&s));
            assert_eq!(out.lines().nth(1).unwrap().len(), s.maxcols as usize);
        }
    }
}

#[test]
fn pieces_of_a_command_line() {
    let strings = |v: Vec<Vec<u8>>| -> Vec<String> {
        v.into_iter().map(|x| String::from_utf8(x).unwrap()).collect()
    };
    assert_eq!(strings(split_at(b"a\0b c\0", 0)), vec!["a", "b c", ""]);
    assert_eq!(strings(split_at(b"", 0)), vec![""]);
    assert_eq!(strings(split_at(b"\0\0", 0)), vec!["", "", ""]);
    assert_eq!(strings(split_at(b"abc", 0)), vec!["abc"]);
}

#[test]
fn task_directories() {
    assert_eq!(read_task_id(b"1"), Some(1));
    assert_eq!(read_task_id(b"4194304"), Some(4194304));
    assert_eq!(read_task_id(b"4294967295"), Some(u32::MAX));
    assert_eq!(read_task_id(b"4294967296"), None);
    assert_eq!(read_task_id(b"self"), None);
    assert_eq!(read_task_id(b""), None);
}

#[test]
fn the_queue_gives_the_highest_rank_first() {
    let mut heap = PickHeap::new();
    assert_eq!(heap.pop(), None);
    let mut seed: u32 = 7;
    let mut all = Vec::new();
    for pid in 0..200u32 {
        seed = seed.wrapping_mul(1664525).wrapping_add(1013904223);
        let state = if (seed >> 9) % 5 == 0 { TaskState::Uninterruptible } else { TaskState::Running };
        let p = pick(pid, state, ((seed >> 16) % 7) as u8);
        heap.push(p);
        all.push(p);
        assert_eq!(heap.len(), all.len());
    }
    all.sort_by_key(|p| (p.state == TaskState::Uninterruptible, p.cpu, p.pid));
    all.reverse();
    for want in all {
        assert_eq!(heap.pop(), Some(want));
    }
    assert_eq!(heap.len(), 0);
    assert_eq!(heap.pop(), None);
}
