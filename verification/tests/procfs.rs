//! The Linux procfs readers, on text shaped like the kernel's.

use osfacts::procfs::{
    argv0_name, boot_time_us, child_pids, host_pid_list, cpu_counters_fit, cpu_rows, decimal_seconds_to_us, dedup_inodes,
    load_listeners, meminfo_sizes_fit, parse_comm, parse_proc_net, parse_stat_field,
    process_name, read_argv, read_cpu_metadata, read_cpu_time, read_host_memory, read_networks,
    read_proc, read_rss_from_stat, read_rss_from_statm, read_start_time, read_status, read_uid,
    socket_inode, stat_number, ticks_us, uptime_us, CpuMetadata, Listener,
};
use osfacts::procfs::attribute_listeners;
use osfacts::Attribution;

const STAT: &str = "4242 (my (odd) name) S 1 4242 4242 0 -1 4194560 1000 0 0 0 150 50 0 0 20 -5 3 0 123456 10000000 2500 18446744073709551615 0 0 0 0 0 0 0 0 0 0 0 0 17 2 0 0 0 0 0\n";

#[test]
fn the_command_name_spans_first_open_to_last_close() {
    assert_eq!(parse_comm(STAT).as_deref(), Some("my (odd) name"));
    assert_eq!(parse_comm("no parens here"), None);
    assert_eq!(parse_comm("1 )backwards( S"), None);
}

#[test]
fn stat_fields_count_from_after_the_command_name() {
    assert_eq!(parse_stat_field(STAT, 0).as_deref(), Ok("S"));
    assert_eq!(parse_stat_field(STAT, 1).as_deref(), Ok("1"));
    assert_eq!(parse_stat_field(STAT, 19).as_deref(), Ok("123456"));
    assert_eq!(parse_stat_field(STAT, 200), Err(libc::EINVAL));
    assert_eq!(parse_stat_field("no close paren", 0), Err(libc::EINVAL));
    assert_eq!(stat_number(STAT, 21), Ok(2500));
    assert_eq!(stat_number(STAT, 0), Err(libc::EINVAL));
}

#[test]
fn rss_is_pages_times_page_size() {
    assert_eq!(read_rss_from_stat(STAT, 4096), Ok(2500 * 4096));
    assert_eq!(read_rss_from_stat(STAT, u64::MAX), Err(libc::EOVERFLOW));
    assert_eq!(read_rss_from_stat("1 (x) S", 4096), Err(libc::EINVAL));
    assert_eq!(read_rss_from_statm("100 25 3 1 0 20 0\n", 4096), Ok(25 * 4096));
    assert_eq!(read_rss_from_statm("100\n", 4096), Err(libc::EINVAL));
}

#[test]
fn start_time_adds_the_tick_offset_to_boot() {
    // 123456 ticks at 100 Hz is 1234.56 s.
    assert_eq!(
        read_start_time(STAT, 1_700_000_000_000_000, 100),
        Ok(1_700_000_000_000_000 + 1_234_560_000)
    );
    assert_eq!(read_start_time("1 (x) S", 0, 100), Err(libc::EINVAL));
}

#[test]
fn cpu_time_is_user_plus_system() {
    // 150 + 50 ticks at 100 Hz.
    assert_eq!(read_cpu_time(STAT, 100), Ok(2_000_000));
    assert_eq!(ticks_us(3, 100), 30_000);
    assert_eq!(ticks_us(u64::MAX, 1), u64::MAX);
}

#[test]
fn status_is_state_nice_and_threads() {
    assert_eq!(read_status(STAT), Ok(('S', -5, 3)));
    assert_eq!(read_status("1 (x) S 1"), Err(libc::EINVAL));
}

#[test]
fn a_process_is_named_by_its_argv0_base_name() {
    let row = read_proc(4242, STAT, Ok(b"/usr/bin/kaval\0--flag\0")).expect("row");
    assert_eq!(row.pid, 4242);
    assert_eq!(row.ppid, 1);
    assert_eq!(row.name, "kaval");
}

#[test]
fn a_process_without_a_command_line_is_named_by_comm() {
    assert_eq!(process_name(7, STAT, Err(libc::EACCES)), "my (odd) name");
    assert_eq!(process_name(7, STAT, Ok(b"")), "my (odd) name");
    assert_eq!(process_name(7, STAT, Ok(b"/trailing/\0")), "my (odd) name");
    assert_eq!(process_name(7, "garbage", Ok(b"")), "7");
    assert_eq!(process_name(7, "1 (tab\there) S", Ok(b"")), "tab here");
}

#[test]
fn a_decoded_argv0_names_the_row_by_its_base_name() {
    assert_eq!(argv0_name("/usr/sbin/sshd"), Some("sshd".to_owned()));
    assert_eq!(argv0_name("tab\there"), Some("tab here".to_owned()));
    assert_eq!(argv0_name("/trailing/"), None);
    assert_eq!(process_name(7, STAT, Ok(b"/bin/\xffx\0-D\0")), "\u{fffd}x");
}

#[test]
fn a_stat_line_without_a_parent_is_unreadable() {
    assert_eq!(read_proc(1, "1 (x)", Ok(b"x\0")), Err(libc::EINVAL));
}

#[test]
fn argv_skips_empty_pieces_and_decodes_lossily() {
    assert_eq!(read_argv(b"a\0\0b c\0"), vec!["a".to_owned(), "b c".to_owned()]);
    assert_eq!(read_argv(b"\xff\0"), vec!["\u{fffd}".to_owned()]);
    assert!(read_argv(b"").is_empty());
}

#[test]
fn the_real_uid_is_the_first_uid_field() {
    let status = "Name:\tcat\nUid:\t1000\t1001\t1000\t1000\nGid:\t100\n";
    assert_eq!(read_uid(status), Ok(1000));
    assert_eq!(read_uid("Name:\tcat\n"), Err(libc::EINVAL));
    assert_eq!(read_uid("Uid:\tx\n"), Err(libc::EINVAL));
}

#[test]
fn boot_time_reads_the_btime_line() {
    let stat = "cpu  1 2 3 4\nbtime 1700000000\nprocesses 5\n";
    assert_eq!(boot_time_us(stat), Ok(1_700_000_000_000_000));
    assert_eq!(boot_time_us("cpu 1\n"), Err(libc::EINVAL));
}

#[test]
fn decimal_seconds_read_to_six_places() {
    assert_eq!(decimal_seconds_to_us("12345.67"), Ok(12_345_670_000));
    assert_eq!(decimal_seconds_to_us("3"), Ok(3_000_000));
    assert_eq!(decimal_seconds_to_us("1.1234567"), Ok(1_123_456));
    assert_eq!(decimal_seconds_to_us("x.5"), Err(libc::EINVAL));
    assert_eq!(uptime_us("350735.47 234388.90\n"), Ok(350_735_470_000));
    assert_eq!(uptime_us("\n"), Err(libc::EINVAL));
}

const TCP: &str = "  sl  local_address rem_address   st tx_queue rx_queue tr tm->when retrnsmt   uid  timeout inode\n   0: 0100007F:1F90 00000000:0000 0A 00000000:00000000 00:00000000 00000000  1000        0 41231 1 0000000000000000 100 0 0 10 0\n   1: 0100007F:1F91 00000000:0000 01 00000000:00000000 00:00000000 00000000  1000        0 41232 1 0000000000000000 100 0 0 10 0\n   2: 00000000:0016 00000000:0000 0A 00000000:00000000 00:00000000 00000000     0        0 0 1 0000000000000000 100 0 0 10 0\n";

#[test]
fn only_listening_rows_with_an_inode_are_listeners() {
    let mut out = Vec::new();
    assert_eq!(parse_proc_net(TCP, &mut out), Ok(()));
    assert_eq!(out.len(), 1);
    assert_eq!(out[0].inode, 41231);
    assert_eq!(out[0].uid, 1000);
    assert_eq!(out[0].port, 8080);
    assert_eq!(out[0].addr, vec![127, 0, 0, 1]);
}

#[test]
fn a_table_without_its_header_is_refused() {
    let mut out = Vec::new();
    assert_eq!(parse_proc_net("garbage\n", &mut out), Err(()));
    assert!(out.is_empty());
}

#[test]
fn listener_tables_collapse_repeated_inodes() {
    let rows = load_listeners(Ok(TCP), Ok(TCP)).expect("listeners");
    assert_eq!(rows.len(), 1);
    assert_eq!(
        load_listeners(Ok(TCP), Err(libc::ENOENT)).map(|v| v.len()),
        Ok(1)
    );
    assert_eq!(
        load_listeners(Err(libc::EACCES), Ok(TCP)).err(),
        Some(("proc_net_tcp", libc::EACCES))
    );
    assert_eq!(
        load_listeners(Ok(TCP), Err(libc::EACCES)).err(),
        Some(("proc_net_tcp6", libc::EACCES))
    );
    assert_eq!(
        load_listeners(Ok("nothing\n"), Ok(TCP)).err(),
        Some(("proc_net_tcp", libc::EIO))
    );
}

#[test]
fn dedup_keeps_the_first_row_of_each_inode() {
    let rows = vec![
        Listener { inode: 5, uid: 1, port: 10, addr: vec![1] },
        Listener { inode: 6, uid: 1, port: 11, addr: vec![2] },
        Listener { inode: 5, uid: 2, port: 12, addr: vec![3] },
    ];
    let kept = dedup_inodes(rows);
    assert_eq!(kept.len(), 2);
    assert_eq!(kept[0].port, 10);
    assert_eq!(kept[1].port, 11);
}

#[test]
fn a_listener_is_claimed_by_the_first_pid_holding_it() {
    let listeners = vec![
        Listener { inode: 5, uid: 1000, port: 8080, addr: vec![127, 0, 0, 1] },
        Listener { inode: 9, uid: 0, port: 22, addr: vec![0, 0, 0, 0] },
    ];
    let holdings = vec![(10u32, vec![1u64, 5]), (11u32, vec![5u64])];
    let ports = attribute_listeners(&listeners, &holdings);
    assert_eq!(ports[0].attribution, Attribution::Claimed { pid: 10 });
    assert_eq!(ports[0].uid, Some(1000));
    assert_eq!(ports[0].address, "7f000001");
    assert_eq!(ports[1].attribution, Attribution::Unclaimed);
}

#[test]
fn an_fd_link_names_a_socket_inode() {
    assert_eq!(socket_inode("socket:[12345]"), Some(12345));
    assert_eq!(socket_inode("pipe:[12345]"), None);
    assert_eq!(socket_inode("socket:[]"), None);
    assert_eq!(socket_inode("socket:[12"), None);
}

const MEMINFO: &str = "MemTotal:       16000000 kB\nMemFree:         1000000 kB\nMemAvailable:    8000000 kB\nSwapTotal:       2000000 kB\nSwapFree:        1500000 kB\n";

#[test]
fn host_memory_is_reported_in_bytes() {
    assert!(meminfo_sizes_fit(MEMINFO));
    let (mem, swap) = read_host_memory(MEMINFO).expect("meminfo");
    assert_eq!(mem.total_bytes, 16_000_000 * 1024);
    assert_eq!(mem.available_bytes, 8_000_000 * 1024);
    assert_eq!(swap.total_bytes, 2_000_000 * 1024);
    assert_eq!(swap.used_bytes, 500_000 * 1024);
    assert_eq!(read_host_memory("MemTotal: 1 kB\n"), Err(libc::EINVAL));
    assert!(!meminfo_sizes_fit("MemTotal: 18446744073709551615 kB\n"));
}

#[test]
fn swap_in_use_never_goes_below_zero() {
    let text = "MemTotal: 4 kB\nMemAvailable: 2 kB\nSwapTotal: 1 kB\nSwapFree: 5 kB\n";
    let (_, swap) = read_host_memory(text).expect("meminfo");
    assert_eq!(swap.used_bytes, 0);
}

#[test]
fn network_rows_follow_the_two_header_lines() {
    let dev = "Inter-|   Receive |  Transmit\n face |bytes packets|bytes packets\n    lo: 100 1 0 0 0 0 0 0 200 2 0 0 0 0 0 0\n  eth0: 300 3 0 0 0 0 0 0 400 4 0 0 0 0 0 0\n short: 1 2\n";
    let nets = read_networks(dev);
    assert_eq!(nets.len(), 2);
    assert_eq!(nets[0].name, "lo");
    assert_eq!(nets[0].rx_bytes, 100);
    assert_eq!(nets[0].tx_bytes, 200);
    assert_eq!(nets[1].name, "eth0");
    assert!(read_networks("").is_empty());
}

fn metadata() -> Vec<CpuMetadata> {
    vec![
        CpuMetadata { core: 0, model: "Model A".into(), frequency_mhz: Some(2400) },
        CpuMetadata { core: 1, model: "Model A".into(), frequency_mhz: None },
    ]
}

#[test]
fn cpu_rows_come_from_per_core_lines() {
    let stat = "cpu  10 10 10 10\ncpu0 100 100 50 1000 1 2 3 4 5 6\ncpu1 1 1 1 1\nintr 5\n";
    assert!(cpu_counters_fit(stat, &metadata(), 100));
    let rows = cpu_rows(stat, &metadata(), 100).expect("cpus");
    assert_eq!(rows.len(), 2);
    assert_eq!(rows[0].core, 0);
    assert_eq!(rows[0].user_us, 2_000_000);
    assert_eq!(rows[0].system_us, 500_000);
    assert_eq!(rows[0].idle_us, 10_000_000);
    assert_eq!(rows[0].other_us, 210_000);
    assert_eq!(rows[0].model, "Model A");
    assert_eq!(rows[0].frequency_mhz, Some(2400));
    assert_eq!(rows[1].frequency_mhz, None);
}

#[test]
fn cpu_failures_name_their_source() {
    assert_eq!(
        cpu_rows("cpu0 1 x 1 1\n", &metadata(), 100).err(),
        Some(("proc_stat_cpu", libc::EINVAL))
    );
    assert_eq!(
        cpu_rows("cpu0 1 1 1\n", &metadata(), 100).err(),
        Some(("proc_stat_cpu", libc::EINVAL))
    );
    assert_eq!(
        cpu_rows("cpu7 1 1 1 1\n", &metadata(), 100).err(),
        Some(("proc_cpuinfo", libc::EINVAL))
    );
    assert_eq!(
        cpu_rows("cpu 1 1 1 1\n", &metadata(), 100).err(),
        Some(("proc_stat_cpu", libc::EINVAL))
    );
    assert!(!cpu_counters_fit("cpu0 18446744073709551615 1 1 1\n", &metadata(), 100));
}

#[test]
fn cpuinfo_blocks_name_each_cpu() {
    let info = "processor\t: 0\nmodel name\t: Model A\ncpu MHz\t\t: 2400.000\n\nprocessor\t: 1\nmodel name\t: Model B\n";
    let (cpus, clocks) = read_cpu_metadata(info).expect("cpuinfo");
    assert_eq!(cpus.len(), 2);
    assert_eq!(cpus[0].core, 0);
    assert_eq!(cpus[0].model, "Model A");
    assert_eq!(cpus[0].mhz.as_deref(), Some("2400.000"));
    assert_eq!(cpus[1].core, 1);
    assert_eq!(cpus[1].model, "Model B");
    assert_eq!(cpus[1].mhz, None);
    assert_eq!(clocks, vec!["2400.000".to_owned()]);
}

#[test]
fn cpuinfo_refuses_a_cpu_without_a_model() {
    assert_eq!(read_cpu_metadata("processor : 0\n").err(), Some(libc::EINVAL));
    assert_eq!(read_cpu_metadata("processor : x\nmodel name : A\n").err(), Some(libc::EINVAL));
    assert_eq!(read_cpu_metadata("flags : fpu\n").err(), Some(libc::EINVAL));
}

#[test]
fn a_children_file_lists_pids_and_skips_other_fields() {
    assert_eq!(child_pids("12 13\n"), vec![12, 13]);
    assert_eq!(child_pids(""), Vec::<u32>::new());
    assert_eq!(child_pids("  7\tx 4294967296 +8 9"), vec![7, 8, 9]);
}

#[test]
fn the_host_pid_list_is_every_numeric_entry_in_order() {
    let names: Vec<String> = ["self", "42", "1", "sys", "300", "thread-self", "7"]
        .iter()
        .map(|s| s.to_string())
        .collect();
    assert_eq!(host_pid_list(&names), vec![1, 7, 42, 300]);
    assert_eq!(host_pid_list(&[]), Vec::<u32>::new());
}
