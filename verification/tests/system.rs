use tavtop::cpu::{clock_file, Cpu};
use tavtop::gpu::{read_clock, read_mebibytes, Gpu};
use tavtop::ram::{memory_figures, Memory};

const MEMINFO: &str = "MemTotal:       16318476 kB\nMemFree:         1234567 kB\nMemAvailable:    8000000 kB\nBuffers:          100000 kB\nCached:          5000000 kB\nSwapCached:         1024 kB\nActive:          4000000 kB\nSwapTotal:       8388604 kB\nSwapFree:        8000000 kB";

const STAT: &str = "cpu  100 0 50 1000 10 0 5 0 0 0\ncpu0 50 0 25 500 5 0 3 0 0 0\ncpu1 50 0 25 500 5 0 2 0 0 0\nintr 12345\nctxt 999";

#[test]
fn meminfo_figures_in_mebibytes() {
    assert_eq!(memory_figures(MEMINFO), Some(vec![15936, 1205, 7812, 1, 8191, 7812]));
    assert_eq!(memory_figures("MemTotal: 12"), None);
    assert_eq!(memory_figures("MemTotal: x kB"), None);
    assert_eq!(memory_figures("Buffers: x kB"), Some(vec![]));
}

#[test]
fn memory_from_meminfo() {
    assert!(Memory::can_create(MEMINFO));
    let m = Memory::new(MEMINFO);
    assert_eq!(m.ram.total, 15936);
    assert_eq!(m.ram.used, 15936 - 7812);
    assert_eq!(m.ram.allocated, 15936 - 1205);
    assert_eq!(m.swap.total, 8191);
    assert_eq!(m.swap.allocated, 8191 - 7812);
}

#[test]
fn memory_update_keeps_totals() {
    let mut m = Memory::new(MEMINFO);
    let later = MEMINFO.replace("8000000 kB\nBuffers", "4096000 kB\nBuffers");
    assert!(m.can_update(&later));
    m.update(&later);
    assert_eq!(m.ram.total, 15936);
    assert_eq!(m.ram.used, 15936 - 4000);
    assert_eq!(m.ram.allocated, 15936 - 1205);
    assert_eq!(m.swap.allocated, 0);
    assert_eq!(m.swap.total, 8191);
}

#[test]
fn memory_refuses_short_text() {
    assert!(!Memory::can_create("MemTotal: 1024 kB\nMemFree: 0 kB"));
    assert!(!Memory::can_create("MemTotal: 1024 kB\nMemFree: 2048 kB\nMemAvailable: 0 kB\nSwapCached: 0 kB\nSwapTotal: 0 kB\nSwapFree: 0 kB"));
}

#[test]
fn cpu_threads_from_online_range() {
    assert!(Cpu::can_create("15"));
    assert!(!Cpu::can_create("65535"));
    assert!(!Cpu::can_create("0-3"));
    let c = Cpu::new("1");
    assert_eq!(c.threads, 2);
    assert_eq!(c.util, vec![0, 0]);
    assert_eq!(c.clock[1].file(), "/sys/devices/system/cpu/cpu1/cpufreq/scaling_cur_freq");
    assert_eq!(clock_file(12), "/sys/devices/system/cpu/cpu12/cpufreq/scaling_cur_freq");
}

#[test]
fn cpu_busy_share_from_stat() {
    let mut c = Cpu::new("1");
    assert!(c.can_update_util(STAT));
    c.update_util(STAT);
    assert_eq!(c.time.0[0].average, 583);
    assert_eq!(c.time.1[0].average, 505);
    assert_eq!(c.util, vec![14, 100 - 505 * 100 / 582]);
}

#[test]
fn cpu_stat_without_growth_is_refused() {
    let c = Cpu::new("0");
    assert!(!c.can_update_util("cpu  0 0 0 0 0\ncpu0 0 0 0 0 0"));
    assert!(!c.can_update_util("cpu  1\ncpu0 1 2 3"));
    assert!(c.can_update_util("cpu  1"));
}

#[test]
fn cpu_clock_readings() {
    let mut c = Cpu::new("1");
    let out = c.add_clock_readings(&vec!["3400".to_string(), "+2200".to_string()]);
    assert_eq!(out, vec![0, 0]);
}

#[test]
fn gpu_clock_reading() {
    assert_eq!(read_clock(" 70"), Some(700));
    assert_eq!(read_clock("1800"), Some(1800));
    assert_eq!(read_clock(" 71"), None);
    assert_eq!(read_mebibytes("8589934592"), Some(8192));
    assert_eq!(read_mebibytes("x"), None);
}

#[test]
fn gpu_update() {
    let mut g = Gpu::new("8589934592");
    assert_eq!(g.memory.total, 8192);
    let evicted = g.update(" 70", "35", "1073741824");
    assert_eq!(evicted, (0, 0));
    assert_eq!(g.memory.used, 1024);
}

#[test]
fn cpu_update_takes_clocks_and_stat() {
    let mut c = Cpu::new("1");
    let out = c.update(&vec!["3400".to_string(), "2200".to_string()], STAT);
    assert_eq!(out, vec![0, 0]);
    assert_eq!(c.util, vec![14, 14]);
    assert!(c.util.iter().all(|u| *u <= 100));
    let out = c.update(&vec!["3500".to_string(), "2300".to_string()], STAT);
    assert_eq!(out, vec![0, 0]);
    assert_eq!(c.time.0[0].average, 583);
}

#[test]
fn memory_used_within_total() {
    let m = Memory::new(MEMINFO);
    assert!(m.ram.used <= m.ram.total);
    assert!(m.ram.allocated <= m.ram.total);
    assert!(m.swap.allocated <= m.swap.total);
}

#[test]
fn busy_share_over_many_passes() {
    let mut c = Cpu::new("0");
    let counters = |k: usize| [10 * k, 0, 0, k * k, 0];
    let total = |k: usize| if k == 0 { 0 } else { counters(k).iter().sum::<usize>() };
    let idle = |k: usize| if k == 0 { 0 } else { counters(k)[3] + counters(k)[4] };
    for k in 1..=90usize {
        let f = counters(k);
        let stat = format!("cpu  1\ncpu0 {} {} {} {} {}", f[0], f[1], f[2], f[3], f[4]);
        assert!(c.can_update_util(&stat));
        c.update_util(&stat);
        let back = k.saturating_sub(40);
        let grown = total(k).saturating_sub(total(back));
        let idle_grown = idle(k).saturating_sub(idle(back));
        assert_eq!(c.util[0] as usize, 100 - idle_grown * 100 / grown, "pass {k}");
    }
}
