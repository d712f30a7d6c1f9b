use porc::process::{table_cells, Metrics, Process, SortBy, MEGABYTE};
use std::cmp::Ordering;

fn process(pid: u32, cpu: Option<u64>, ram: u64) -> Process {
    Process {
        pid,
        name: format!("p{}", pid),
        arguments: Vec::new(),
        parent: None,
        metrics: Metrics { cpu, ram },
    }
}

fn with_arguments(name: &str, arguments: &[&str]) -> Process {
    Process {
        pid: 1,
        name: name.to_string(),
        arguments: arguments.iter().map(|a| a.to_string()).collect(),
        parent: None,
        metrics: Metrics { cpu: Some(0), ram: 0 },
    }
}

#[test]
fn next_goes_round_in_three_steps() {
    assert_eq!(SortBy::Pid.next(), SortBy::Cpu);
    assert_eq!(SortBy::Cpu.next(), SortBy::Ram);
    assert_eq!(SortBy::Ram.next(), SortBy::Pid);
    for key in [SortBy::Pid, SortBy::Cpu, SortBy::Ram] {
        assert_eq!(key.next().next().next(), key);
        assert_ne!(key.next(), key);
    }
    assert_eq!(SortBy::default(), SortBy::Pid);
}

#[test]
fn compare_by_pid() {
    let a = process(1, Some(500), 10);
    let b = process(2, Some(900), 90);
    assert_eq!(a.compare(&b, SortBy::Pid), Ordering::Less);
    assert_eq!(b.compare(&a, SortBy::Pid), Ordering::Greater);
    assert_eq!(a.compare(&a, SortBy::Pid), Ordering::Equal);
}

#[test]
fn compare_by_cpu_puts_the_larger_first() {
    let a = process(1, Some(500), 0);
    let b = process(2, Some(900), 0);
    assert_eq!(a.compare(&b, SortBy::Cpu), Ordering::Greater);
    assert_eq!(b.compare(&a, SortBy::Cpu), Ordering::Less);
    assert!(b.stands_before(&a, SortBy::Cpu));
    assert!(!a.stands_before(&b, SortBy::Cpu));
}

#[test]
fn compare_by_ram_puts_the_larger_first() {
    let a = process(1, Some(0), 10);
    let b = process(2, Some(0), 90);
    assert_eq!(a.compare(&b, SortBy::Ram), Ordering::Greater);
    assert_eq!(b.compare(&a, SortBy::Ram), Ordering::Less);
}

#[test]
fn equal_readings_are_ordered_by_pid() {
    let a = process(3, Some(700), 64);
    let b = process(8, Some(700), 64);
    for key in [SortBy::Pid, SortBy::Cpu, SortBy::Ram] {
        assert_eq!(a.compare(&b, key), Ordering::Less);
        assert_eq!(b.compare(&a, key), Ordering::Greater);
        assert_eq!(a.compare(&a, key), Ordering::Equal);
    }
}

#[test]
fn a_reading_that_is_no_number_is_ordered_by_pid() {
    let a = process(1, Some(100), 0);
    let b = process(2, None, 0);
    let c = process(3, Some(200), 0);
    assert_eq!(a.compare(&b, SortBy::Cpu), Ordering::Less);
    assert_eq!(b.compare(&c, SortBy::Cpu), Ordering::Less);
    assert_eq!(c.compare(&b, SortBy::Cpu), Ordering::Greater);
    assert_eq!(a.compare(&c, SortBy::Cpu), Ordering::Greater);
    assert_eq!(b.compare(&b, SortBy::Cpu), Ordering::Equal);
}

#[test]
fn compare_is_total_and_transitive_on_numbers() {
    let all: Vec<Process> = vec![
        process(1, Some(5), 7),
        process(2, Some(5), 3),
        process(3, Some(9), 7),
        process(4, Some(0), 0),
        process(5, Some(9), 9),
    ];
    for key in [SortBy::Pid, SortBy::Cpu, SortBy::Ram] {
        for a in &all {
            for b in &all {
                let forth = a.compare(b, key);
                assert_eq!(forth.reverse(), b.compare(a, key));
                assert_eq!(forth == Ordering::Equal, a.pid == b.pid);
                for c in &all {
                    if forth == Ordering::Less && b.compare(c, key) == Ordering::Less {
                        assert_eq!(a.compare(c, key), Ordering::Less);
                    }
                }
            }
        }
    }
}

#[test]
fn the_number_columns() {
    assert_eq!(process(1, Some(100), 0).table_data(), "       1    1%       0MB");
    assert_eq!(
        process(4711, Some(12345), 5 * 1024 * MEGABYTE).table_data(),
        "    4711  123%   5,120MB"
    );
    assert_eq!(
        process(u32::MAX, Some(0), MEGABYTE - 1).table_data(),
        "4294967295    0%       0MB"
    );
    assert_eq!(
        process(7, None, 1234567 * MEGABYTE).table_data(),
        "       7  NaN% 1,234,567MB"
    );
    assert_eq!(
        table_cells(12, &Metrics { cpu: Some(1234567), ram: u64::MAX }),
        "      12 12346% 17,592,186,044,415MB"
    );
}

#[test]
fn percent_is_rounded_to_the_nearest_and_a_half_to_the_even() {
    let shown = |hundredths: u64| {
        table_cells(1, &Metrics { cpu: Some(hundredths), ram: 0 })
    };
    assert_eq!(shown(0), "       1    0%       0MB");
    assert_eq!(shown(49), "       1    0%       0MB");
    assert_eq!(shown(50), "       1    0%       0MB");
    assert_eq!(shown(51), "       1    1%       0MB");
    assert_eq!(shown(149), "       1    1%       0MB");
    assert_eq!(shown(150), "       1    2%       0MB");
    assert_eq!(shown(250), "       1    2%       0MB");
    assert_eq!(shown(251), "       1    3%       0MB");
    assert_eq!(shown(9950), "       1  100%       0MB");
    assert_eq!(shown(u64::MAX), "       1 184467440737095516%       0MB");
}

#[test]
fn metrics_add_up_and_stop_at_the_largest() {
    let mut total = Metrics { cpu: Some(5), ram: 7 };
    total.accumulate_from(&Metrics { cpu: Some(10), ram: 20 });
    assert_eq!(total, Metrics { cpu: Some(15), ram: 27 });
    total.accumulate_from(&Metrics { cpu: Some(0), ram: 0 });
    assert_eq!(total, Metrics { cpu: Some(15), ram: 27 });
    total.accumulate_from(&Metrics { cpu: Some(u64::MAX), ram: u64::MAX - 26 });
    assert_eq!(total, Metrics { cpu: Some(u64::MAX), ram: u64::MAX });
    total.accumulate_from(&Metrics { cpu: None, ram: 1 });
    assert_eq!(total, Metrics { cpu: None, ram: u64::MAX });
    total.accumulate_from(&Metrics { cpu: Some(1), ram: 0 });
    assert_eq!(total.cpu, None);
}

#[test]
fn the_command_is_the_file_name_of_the_first_argument_and_the_rest() {
    assert_eq!(with_arguments("zsh", &[]).command(), "zsh");
    assert_eq!(with_arguments("zsh", &["/usr/bin/zsh"]).command(), "zsh");
    assert_eq!(
        with_arguments("python3", &["/usr/bin/python3", "-m", "http.server", "8000"]).command(),
        "python3 -m http.server 8000"
    );
    assert_eq!(with_arguments("x", &["relative/tool", "a b"]).command(), "tool a b");
    assert_eq!(with_arguments("x", &["..", "up"]).command(), ".. up");
    assert_eq!(with_arguments("x", &["", "-v"]).command(), " -v");
    assert_eq!(with_arguments("x", &["/"]).command(), "/");
}

#[test]
fn the_name_comes_from_the_executable() {
    assert_eq!(Process::executable_name(Some("/usr/bin/zsh"), "reported"), "zsh");
    assert_eq!(Process::executable_name(Some("/opt/tool/"), "reported"), "tool");
    assert_eq!(Process::executable_name(Some("/"), "reported"), "/");
    assert_eq!(Process::executable_name(Some(".."), "reported"), "..");
    assert_eq!(Process::executable_name(None, "reported"), "reported");
}

#[test]
fn a_clone_holds_the_same() {
    let first = Process {
        pid: 9,
        name: "nine".to_string(),
        arguments: vec!["/bin/nine".to_string(), "--lives".to_string()],
        parent: Some(1),
        metrics: Metrics { cpu: None, ram: 99 },
    };
    let copy = first.clone();
    assert_eq!(copy.pid, 9);
    assert_eq!(copy.name, "nine");
    assert_eq!(copy.arguments, first.arguments);
    assert_eq!(copy.parent, Some(1));
    assert_eq!(copy.metrics, first.metrics);
    assert_eq!(copy.id(), 9);
    assert_eq!(copy.parent(), Some(1));
    assert_eq!(Process::node_header(), "executable");
}

#[test]
fn the_header_lines() {
    let lines = Process::format_header(40);
    assert_eq!(lines.len(), 2);
    assert_eq!(lines[0], "     pid   cpu       ram ┃ executable");
    assert_eq!(lines[1], format!("{}╋{}", "━".repeat(25), "━".repeat(14)));
    assert_eq!(lines[1].chars().count(), 40);
    assert_eq!(Process::format_header(26)[1], format!("{}╋", "━".repeat(25)));
    assert_eq!(Process::format_header(0)[1], format!("{}╋", "━".repeat(25)));
    assert_eq!(Process::format_header(27)[1], format!("{}╋━", "━".repeat(25)));
}
