use metrics_bridge::kernel::{
    cpu_samples, cpu_usage, memory_samples, parse_cpu_stat, parse_meminfo, CpuTicks,
};
use metrics_bridge::parser::{parse, parse_cpu, SourceKind};

const MEMINFO: &[u8] = b"MemTotal:       16316412 kB\nMemFree:          238156 kB\nMemAvailable:    9431732 kB\nBuffers:          812344 kB\nCached:          7821308 kB\n";

const STAT: &[u8] = b"cpu  100 0 50 800 50 0 0 0 0 0\ncpu0 50 0 25 400 25 0 0 0 0 0\nintr 12345 1 2 3\nctxt 999\n";

#[test]
fn meminfo_counters_are_read() {
    let reading = parse_meminfo(MEMINFO);
    assert_eq!(reading.counters.total_kb(), 16316412);
    assert_eq!(reading.counters.free_kb(), 238156);
    assert_eq!(reading.counters.available_kb(), 9431732);
    assert_eq!(reading.skipped, 2);
}

#[test]
fn memory_samples_are_in_bytes() {
    let reading = parse_meminfo(b"MemTotal: 1000000 kB\nMemAvailable: 400000 kB\n");
    let samples = memory_samples(&reading.counters);
    assert_eq!(samples.len(), 3);
    assert_eq!(samples[0].identity().name().as_slice(), b"memory_total_bytes");
    assert_eq!(samples[0].value(), 1000000 * 1024);
    assert_eq!(samples[1].identity().name().as_slice(), b"memory_used_bytes");
    assert_eq!(samples[1].value(), (1000000 - 400000) * 1024);
    assert_eq!(samples[1].value(), 614400000);
    assert_eq!(samples[2].identity().name().as_slice(), b"memory_free_bytes");
    assert_eq!(samples[2].value(), 400000 * 1024);
}

#[test]
fn missing_memory_lines_count_as_zero() {
    let reading = parse_meminfo(b"MemAvailable: 10 kB\n");
    assert_eq!(reading.counters.total_kb(), 0);
    assert_eq!(reading.counters.available_kb(), 10);
    let samples = memory_samples(&reading.counters);
    assert_eq!(samples[0].value(), 0);
    assert_eq!(samples[1].value(), -10240);
    assert_eq!(samples[2].value(), 10240);
    let nothing = parse_meminfo(b"");
    assert_eq!(nothing.counters.total_kb(), 0);
    assert_eq!(nothing.skipped, 0);
}

#[test]
fn malformed_memory_lines_are_skipped() {
    let text = b"MemTotal: lots kB\nMemTotal:12 kB\nMemTotal 13 kB\n MemTotal: 14 kB\nMemTotal: 15kB\nMemTotal: -16 kB\nMemTotal: 9007199254740992 kB\n\nMemTotal:\t17\n";
    let reading = parse_meminfo(text);
    assert_eq!(reading.counters.total_kb(), 17);
    assert_eq!(reading.skipped, 7);
}

#[test]
fn the_last_memory_line_wins() {
    let reading = parse_meminfo(b"MemTotal: 1 kB\nMemTotal: 2 kB\nMemTotal: bad\n");
    assert_eq!(reading.counters.total_kb(), 2);
    assert_eq!(reading.skipped, 1);
}

#[test]
fn the_largest_memory_fits() {
    let reading = parse_meminfo(b"MemTotal: 9007199254740991 kB\n");
    assert_eq!(reading.counters.total_kb(), 9007199254740991);
    let samples = memory_samples(&reading.counters);
    assert_eq!(samples[0].value(), 9223372036854774784);
}

#[test]
fn cpu_ticks_are_read() {
    let reading = parse_cpu_stat(STAT);
    assert_eq!(reading.ticks, Some(CpuTicks { idle: 800, total: 1000 }));
    assert_eq!(reading.skipped, 3);
}

#[test]
fn malformed_cpu_lines_are_skipped() {
    assert_eq!(parse_cpu_stat(b"cpu 1 2 3\n").ticks, None);
    assert_eq!(parse_cpu_stat(b"cpu 1 2 3\n").skipped, 1);
    assert_eq!(parse_cpu_stat(b"cpu 1 2 x 4\n").ticks, None);
    assert_eq!(parse_cpu_stat(b"cpux 1 2 3 4\n").ticks, None);
    assert_eq!(parse_cpu_stat(b"cpu 1 2 3 -4\n").ticks, None);
    assert_eq!(parse_cpu_stat(b"cpu 18446744073709551615 1 0 0\n").ticks, None);
    assert_eq!(parse_cpu_stat(b"").ticks, None);
    assert_eq!(parse_cpu_stat(b"").skipped, 0);
    assert_eq!(
        parse_cpu_stat(b"  cpu\t1 2 3 4  \n").ticks,
        Some(CpuTicks { idle: 4, total: 10 })
    );
    assert_eq!(
        parse_cpu_stat(b"cpu 18446744073709551614 1 0 0").ticks,
        Some(CpuTicks { idle: 0, total: 18446744073709551615 })
    );
}

#[test]
fn the_first_summary_line_decides() {
    let reading = parse_cpu_stat(b"cpu 0 0 0 1\ncpu 1 0 0 0\n");
    assert_eq!(reading.ticks, Some(CpuTicks { idle: 1, total: 1 }));
    assert_eq!(reading.skipped, 0);
    let other = parse_cpu_stat(b"cpu 0 0 0 1\ncpu0 9 9 9 9\nintr 1\n");
    assert_eq!(other.ticks, Some(CpuTicks { idle: 1, total: 1 }));
    assert_eq!(other.skipped, 2);
    let late = parse_cpu_stat(b"cpu 1 2 x\n\ncpu 1 0 0 0 5\ncpu 7 7 7 7\n");
    assert_eq!(late.ticks, Some(CpuTicks { idle: 0, total: 6 }));
    assert_eq!(late.skipped, 1);
}

#[test]
fn the_first_usage_lies_between_0_and_100() {
    let zero = CpuTicks { idle: 0, total: 0 };
    let all_idle = parse_cpu_stat(b"cpu 0 0 0 1099511627775\n").ticks.unwrap();
    let none_idle = parse_cpu_stat(b"cpu 1099511627775 1099511627775 1099511627775 0\n")
        .ticks
        .unwrap();
    let some = parse_cpu_stat(b"cpu 2 0 1 9 0 0 0 0 0 0\ncpu0 1 1 1 1\n").ticks.unwrap();
    assert_eq!(cpu_usage(&zero, &all_idle), Some(0));
    assert_eq!(cpu_usage(&zero, &none_idle), Some(100));
    assert_eq!(cpu_usage(&zero, &some), Some(25));
}

#[test]
fn cpu_usage_is_the_share_of_busy_ticks() {
    let zero = CpuTicks { idle: 0, total: 0 };
    let first = CpuTicks { idle: 800, total: 1000 };
    let second = CpuTicks { idle: 1500, total: 1900 };
    assert_eq!(cpu_usage(&zero, &first), Some(20));
    assert_eq!(cpu_usage(&first, &second), Some(22));
    assert_eq!(cpu_usage(&first, &CpuTicks { idle: 800, total: 1100 }), Some(100));
    assert_eq!(cpu_usage(&first, &CpuTicks { idle: 900, total: 1100 }), Some(0));
    assert_eq!(cpu_usage(&first, &first), None);
    assert_eq!(cpu_usage(&second, &first), None);
    assert_eq!(cpu_usage(&first, &CpuTicks { idle: 700, total: 1100 }), None);
    assert_eq!(cpu_usage(&first, &CpuTicks { idle: 1000, total: 1100 }), None);
    assert_eq!(
        cpu_usage(&zero, &CpuTicks { idle: 1, total: u64::MAX }),
        Some(99)
    );
}

#[test]
fn cpu_samples_hold_the_usage_alone() {
    let samples = cpu_samples(&CpuTicks { idle: 800, total: 1000 }, &CpuTicks { idle: 1500, total: 1900 });
    assert_eq!(samples.len(), 1);
    assert_eq!(samples[0].identity().name().as_slice(), b"cpu_usage_percent");
    assert_eq!(samples[0].identity().labels().len(), 0);
    assert_eq!(samples[0].value(), 22);
    let stalled = cpu_samples(&CpuTicks { idle: 5, total: 9 }, &CpuTicks { idle: 5, total: 9 });
    assert_eq!(stalled.len(), 0);
    let back = cpu_samples(&CpuTicks { idle: 5, total: 9 }, &CpuTicks { idle: 1, total: 2 });
    assert_eq!(back.len(), 0);
}

#[test]
fn parse_cpu_gives_the_counters_to_keep() {
    let kept = CpuTicks { idle: 800, total: 1000 };
    let (out, next) = parse_cpu(b"cpu  200 0 100 1500 100 0 0 0 0 0\nctxt 1\n", &kept);
    assert_eq!(out.samples.len(), 1);
    assert_eq!(out.samples[0].value(), 22);
    assert_eq!(out.skipped, 1);
    assert_eq!(next, CpuTicks { idle: 1500, total: 1900 });
    let (out, next) = parse_cpu(b"ctxt 1\n", &kept);
    assert_eq!(out.samples.len(), 0);
    assert_eq!(out.skipped, 1);
    assert_eq!(next, kept);
    let (out, next) = parse_cpu(b"cpu 1 1 1 1\n", &kept);
    assert_eq!(out.samples.len(), 0);
    assert_eq!(next, CpuTicks { idle: 1, total: 4 });
}

#[test]
fn parse_goes_by_the_kind_of_source() {
    let exposition = parse(b"up 1\nbad\n", &SourceKind::Exposition);
    assert_eq!(exposition.samples.len(), 1);
    assert_eq!(exposition.skipped, 1);
    let memory = parse(MEMINFO, &SourceKind::KernelMemory);
    assert_eq!(memory.samples.len(), 3);
    assert_eq!(memory.samples[1].value(), (16316412 - 9431732) * 1024);
    assert_eq!(memory.skipped, 2);
    let cpu = parse(STAT, &SourceKind::KernelCpu(CpuTicks { idle: 0, total: 0 }));
    assert_eq!(cpu.samples.len(), 1);
    assert_eq!(cpu.samples[0].value(), 20);
    assert_eq!(cpu.skipped, 3);
    let none = parse(b"intr 1 2 3\n", &SourceKind::KernelCpu(CpuTicks { idle: 0, total: 0 }));
    assert_eq!(none.samples.len(), 0);
    assert_eq!(none.skipped, 1);
}
