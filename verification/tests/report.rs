use tavtop::network::{parse_ipv4, Adapter, Ipv4, Network};
use tavtop::ram::Memory;
use tavtop::result::{median, prettify, sort_ascending, CpuResult, GpuResult, MemoryResult, NetworkResult, Result};
use tavtop::unit_types::Size;

const MEMINFO: &str = "MemTotal:       16318476 kB\nMemFree:         1234567 kB\nMemAvailable:    8000000 kB\nSwapCached:         1024 kB\nSwapTotal:       8388604 kB\nSwapFree:        8000000 kB";

#[test]
fn prettify_pads_in_front() {
    assert_eq!(prettify("800", 4, " ", "MHz"), " 800MHz");
    assert_eq!(prettify("5", 2, "0", "%"), "05%");
    assert_eq!(prettify("45.0", 4, " ", "°C"), "45.0°C");
    assert_eq!(prettify("", 3, " ", ""), "   ");
}

#[test]
fn sorting_and_median() {
    assert_eq!(sort_ascending(&vec![3, 1, 2, 1]), vec![1, 1, 2, 3]);
    assert_eq!(median(vec![5, 1, 3]), 3);
    assert_eq!(median(vec![4, 1, 3, 2]), 2);
    assert_eq!(median(vec![7]), 7);
    assert_eq!(median(vec![10, 13]), 11);
}

#[test]
fn cpu_report() {
    let r = CpuResult::new(&vec![3400, 800, 2200, 1000], &vec![5, 150, 40, 99], 4, "0.0".to_string());
    assert_eq!(r.clock.median, "1600");
    assert_eq!(r.clock.arithmetic_mean, "1850");
    assert_eq!(r.clock.max, "3400");
    assert_eq!(r.clock.min, "800");
    assert_eq!(r.clock.values, vec!["3400", "800", "2200", "1000"]);
    assert_eq!(r.util.median, "69");
    assert_eq!(r.util.arithmetic_mean, "73");
    assert_eq!(r.util.max, "99");
    assert_eq!(r.util.min, "5");
    assert_eq!(r.util.values, vec!["5", "99", "40", "99"]);
    let p = r.prettify();
    assert_eq!(p.clock.min, " 800MHz");
    assert_eq!(p.util.min, "05%");
    assert_eq!(p.temp, " 0.0°C");
}

#[test]
fn gpu_report() {
    let mut vram = Size::new("/sys/vram", 8192);
    vram.used = 512;
    let r = GpuResult::new("700".to_string(), 120, "0.0".to_string(), &vram);
    assert_eq!(r.clock, "700");
    assert_eq!(r.util, "99");
    assert_eq!(r.vram.allocated, "512");
    assert_eq!(r.vram.total, "8192");
    let p = r.prettify();
    assert_eq!(p.clock, " 700MHz");
    assert_eq!(p.vram.allocated, " 512");
    assert_eq!(p.vram.total, "8192");
}

#[test]
fn memory_report() {
    let m = Memory::new(MEMINFO);
    let r = MemoryResult::new(&m);
    assert_eq!(r.ram.total, "15936");
    assert_eq!(r.ram.used, "8124");
    let p = r.prettify();
    assert_eq!(p.ram.used, " 8124");
    assert_eq!(p.ram.allocated, "14731");
    assert_eq!(p.swap.allocated, " 379");
    assert_eq!(p.swap.total, "8191");
}

#[test]
fn ipv4_parsing() {
    assert_eq!(parse_ipv4(b"192.168.1.20"), Some(Ipv4 { a: 192, b: 168, c: 1, d: 20 }));
    assert_eq!(parse_ipv4(b"0.0.0.0"), Some(Ipv4::unspecified()));
    assert_eq!(parse_ipv4(b"256.1.1.1"), None);
    assert_eq!(parse_ipv4(b"01.1.1.1"), None);
    assert_eq!(parse_ipv4(b"1.1.1"), None);
    assert_eq!(parse_ipv4(b"1.1.1.1.1"), None);
    assert_eq!(parse_ipv4(b"1.1..1"), None);
    assert_eq!(parse_ipv4(b"1.1.1.1 "), None);
    assert_eq!(parse_ipv4(b"255.255.255.255"), Some(Ipv4 { a: 255, b: 255, c: 255, d: 255 }));
    assert_eq!(parse_ipv4(b"1.2.3.04"), None);
    assert_eq!(parse_ipv4(b"1.2.3.4/24"), None);
    assert_eq!(parse_ipv4(b"+1.2.3.4"), None);
    assert_eq!(parse_ipv4(b"1.2.3.1000"), None);
}

#[test]
fn ipv4_text_reads_back() {
    let ip = Ipv4 { a: 10, b: 0, c: 200, d: 7 };
    assert_eq!(ip.to_text(), "10.0.200.7");
    assert_eq!(parse_ipv4(ip.to_text().as_bytes()), Some(ip));
}

const NMCLI: &[u8] = b"GENERAL.DEVICE:wlan0\nGENERAL.TYPE:wifi\nGENERAL.VENDOR:Intel Corporation\nGENERAL.CONNECTION:Home\nIP4.ADDRESS[1]:192.168.1.20/24\nIP4.GATEWAY:192.168.1.1\n";

#[test]
fn adapter_from_nmcli() {
    let a = Adapter::from_nmcli(NMCLI).unwrap();
    assert_eq!(a.name, "wlan0");
    assert_eq!(a.interface, "wifi");
    assert_eq!(a.vendor, "Intel Corporation");
    assert_eq!(a.connection, "Home");
    assert_eq!(a.local_ip, Ipv4 { a: 192, b: 168, c: 1, d: 20 });
    assert_eq!(a.public_ip, Ipv4::unspecified());
}

#[test]
fn adapter_without_mask_is_none() {
    let out = b"GENERAL.DEVICE:eth0\nGENERAL.TYPE:ethernet\nGENERAL.VENDOR:x\nGENERAL.CONNECTION:y\nIP4.ADDRESS[1]:10.0.0.2/16";
    assert!(Adapter::from_nmcli(out).is_none());
}

#[test]
fn network_switch_and_traffic() {
    let mut n = Network::new();
    let a = Adapter::from_nmcli(NMCLI).unwrap();
    assert!(n.switch_adapter(a));
    n.set_public_ip("93.184.216.34");
    assert_eq!(n.adapter.public_ip, Ipv4 { a: 93, b: 184, c: 216, d: 34 });
    assert!(!n.switch_adapter(Adapter::from_nmcli(NMCLI).unwrap()));
    assert_eq!(n.adapter.public_ip, Ipv4 { a: 93, b: 184, c: 216, d: 34 });
    n.set_public_ip("<html>");
    assert_eq!(n.adapter.public_ip, Ipv4::unspecified());
    assert_eq!(n.tx_file(), "/sys/class/net/wlan0/statistics/tx_bytes");
    assert_eq!(n.rx_file(), "/sys/class/net/wlan0/statistics/rx_bytes");
    assert!(Network::can_record("1000", "2000"));
    assert!(!Network::can_record("536870912", "0"));
    n.record_traffic("1000", "2000");
    assert_eq!(n.up.average, 2000);
    assert_eq!(n.down.average, 4000);
}

#[test]
fn network_report_aligns_addresses() {
    let mut n = Network::new();
    n.switch_adapter(Adapter::from_nmcli(NMCLI).unwrap());
    let r = NetworkResult::new(&n);
    assert_eq!(r.adapter.local_ip, "192.168.1.20");
    assert_eq!(r.adapter.public_ip, "0.0.0.0");
    let p = r.prettify();
    assert_eq!(p.adapter.local_ip, "192.168.  1. 20");
    assert_eq!(p.adapter.public_ip, "  0.  0.  0.  0");
    assert_eq!(p.adapter.local_ip.len(), 15);
    assert_eq!(p.adapter.name, "wlan0");
}

#[test]
fn whole_report() {
    let cpu = CpuResult::new(&vec![1000], &vec![50], 1, "0.0".to_string());
    let gpu = GpuResult::new("500".to_string(), 3, "0.0".to_string(), &Size::new("/v", 100));
    let m = Memory::new(MEMINFO);
    let n = Network::new();
    let r = Result::new(cpu, gpu, &m, &n).prettify();
    assert_eq!(r.cpu.clock.median, "1000MHz");
    assert_eq!(r.gpu.util, "03%");
    assert_eq!(r.memory.swap.total, "8191");
    assert_eq!(r.network.adapter.local_ip, "  0.  0.  0.  0");
}

#[test]
fn padding_lines_figures_up() {
    for x in ["", "7", "42", "800", "1234"] {
        assert_eq!(prettify(x, 4, " ", "MHz").len(), 4 + 3);
    }
    assert_eq!(prettify("9", 2, "0", "%").len(), 3);
}

#[test]
fn report_checks() {
    assert!(CpuResult::can_create(&vec![1000, 2000], &vec![10, 20], 2));
    assert!(!CpuResult::can_create(&vec![], &vec![10], 1));
    assert!(!CpuResult::can_create(&vec![1000], &vec![10], 0));
    assert!(!CpuResult::can_create(&vec![40000, 30000], &vec![10, 20], 2));
    let wide = CpuResult::new(&vec![12000], &vec![10], 1, "0.0".to_string());
    let gpu = GpuResult::new("500".to_string(), 3, "0.0".to_string(), &Size::new("/v", 100));
    let r = Result::new(wide, gpu, &Memory::new(MEMINFO), &Network::new());
    assert!(!r.can_prettify());
    assert!(Adapter::try_from_nmcli(NMCLI).is_some());
    assert!(Adapter::try_from_nmcli(b"a:b\nc:d").is_none());
    assert!(Adapter::try_from_nmcli(b"a\nb\nc\nd\nIP4.ADDRESS[1]:300.1.1.1/24").is_none());
    assert!(matches!(Adapter::try_from_nmcli(b"a\nb\nc\nd\nIP4.ADDRESS[1]:300.1.1.1"), Some(None)));
}

#[test]
fn adapter_from_invalid_utf8_output() {
    let out = b"GENERAL.DEVICE:wlan0\nGENERAL.TYPE:wifi\nGENERAL.VENDOR:Ac\xffme:x\nGENERAL.CONNECTION:\xe2\x82\nIP4.ADDRESS[1]:10.0.0.2/24";
    let a = Adapter::from_nmcli(out).unwrap();
    assert_eq!(a.vendor, "Ac\u{fffd}me:x");
    assert_eq!(a.connection, "\u{fffd}");
    assert_eq!(a.local_ip, Ipv4 { a: 10, b: 0, c: 0, d: 2 });
}
