use arthouse::adapter::{ForwardMonitor, FrameState, KeepUpReport, Snapshot, REPORT_INTERVAL_MILLIS};
use arthouse::address::DmxAddress;
use arthouse::allocation::DmxAllocation;
use arthouse::command::{decode, ArtNetCommand};

fn output(universe: u16, data: Vec<u8>) -> ArtNetCommand {
    ArtNetCommand::Output { universe, sequence: 0, data }
}

fn pixel_buffer() -> FrameState {
    FrameState::new(DmxAllocation::new(DmxAddress::new(1, 0), 1176, 84))
}

#[test]
fn new_state_is_all_zero() {
    let state = pixel_buffer();
    assert_eq!(state.frame(), &vec![0u8; 1176]);
    assert_eq!(state.updates(), 0);
    assert_eq!(state.allocation(), DmxAllocation::new(DmxAddress::new(1, 0), 1176, 84));
}

#[test]
fn no_snapshot_without_an_update() {
    let mut state = pixel_buffer();
    assert_eq!(state.take_snapshot(), None);
    assert_eq!(state.updates(), 0);
}

#[test]
fn output_is_written_through_the_allocation() {
    let mut state = pixel_buffer();
    let data: Vec<u8> = (0..512).map(|i| (i % 200) as u8 + 1).collect();
    assert!(state.handle_command(output(2, data.clone())));
    let frame = state.frame();
    for index in 0..1176 {
        if (504..1008).contains(&index) {
            assert_eq!(frame[index], data[index - 504]);
        } else {
            assert_eq!(frame[index], 0);
        }
    }
    assert_eq!(state.updates(), 1);
}

#[test]
fn padding_bytes_of_an_output_are_not_written() {
    let mut state = FrameState::new(DmxAllocation::new(DmxAddress::new(1, 0), 512, 3));
    assert!(state.handle_command(output(1, vec![7; 512])));
    assert_eq!(state.frame()[..510], vec![7u8; 510][..]);
    assert_eq!(state.frame()[510..], [0, 0]);
    assert!(state.handle_command(output(2, vec![9; 512])));
    assert_eq!(state.frame()[..510], vec![7u8; 510][..]);
    assert_eq!(state.frame()[510..], [9, 9]);
    assert_eq!(state.updates(), 2);
}

#[test]
fn misaligned_start_skips_the_channels_before_it() {
    let mut state = FrameState::new(DmxAllocation::new(DmxAddress::new(1, 200), 1176, 84));
    let data: Vec<u8> = (0..512).map(|i| (i / 2) as u8).collect();
    assert!(state.handle_command(output(1, data.clone())));
    for index in 0..252 {
        assert_eq!(state.frame()[index], data[200 + index]);
    }
    assert!(state.frame()[252..].iter().all(|&byte| byte == 0));
}

#[test]
fn short_output_writes_only_its_own_bytes() {
    let mut state = pixel_buffer();
    assert!(state.handle_command(output(1, vec![5, 6, 7])));
    assert_eq!(state.frame()[..4], [5, 6, 7, 0]);
    assert!(state.frame()[4..].iter().all(|&byte| byte == 0));
    assert!(state.handle_command(output(3, vec![1; 100])));
    assert_eq!(state.frame()[1008..1108], vec![1u8; 100][..]);
    assert!(state.frame()[1108..].iter().all(|&byte| byte == 0));
}

#[test]
fn output_longer_than_a_universe_stays_in_its_universe() {
    let mut state = pixel_buffer();
    assert!(state.handle_command(output(1, vec![3; 600])));
    assert_eq!(state.frame()[..504], vec![3u8; 504][..]);
    assert!(state.frame()[504..].iter().all(|&byte| byte == 0));
}

#[test]
fn outputs_outside_the_allocation_are_ignored() {
    let mut state = pixel_buffer();
    assert!(!state.handle_command(output(0, vec![1; 512])));
    assert!(!state.handle_command(output(4, vec![1; 512])));
    assert!(!state.handle_command(output(u16::MAX, vec![1; 512])));
    assert!(!state.handle_command(output(2, vec![])));
    assert!(!state.handle_command(ArtNetCommand::Other { description: String::new() }));
    assert_eq!(state.frame(), &vec![0u8; 1176]);
    assert_eq!(state.updates(), 0);
    assert_eq!(state.take_snapshot(), None);
}

#[test]
fn output_that_reaches_only_what_lies_before_the_start_is_ignored() {
    let mut state = FrameState::new(DmxAllocation::new(DmxAddress::new(1, 200), 1176, 84));
    assert!(!state.handle_command(output(1, vec![1; 200])));
    assert_eq!(state.updates(), 0);
    assert!(state.handle_command(output(1, vec![1; 201])));
    assert_eq!(state.frame()[..2], [1, 0]);
    assert_eq!(state.updates(), 1);
}

#[test]
fn output_with_the_same_bytes_still_counts() {
    let mut state = pixel_buffer();
    assert!(state.handle_command(output(1, vec![0; 10])));
    assert!(state.handle_command(output(1, vec![0; 10])));
    assert_eq!(state.updates(), 2);
}

#[test]
fn writes_coalesce_into_one_snapshot() {
    let mut state = pixel_buffer();
    let writes = 5;
    for n in 0..writes {
        assert!(state.handle_command(output(1 + (n % 3) as u16, vec![n as u8 + 1; 512])));
    }
    let snapshot = state.take_snapshot().unwrap();
    assert_eq!(snapshot.updates, writes);
    let mut merged = vec![0u8; 1176];
    merged[..504].fill(4);
    merged[504..1008].fill(5);
    merged[1008..].fill(3);
    assert_eq!(snapshot.frame, merged);
    assert_eq!(state.take_snapshot(), None);
    assert_eq!(state.frame(), &merged);
}

#[test]
fn last_write_wins_whenever_snapshots_are_taken() {
    let writes: Vec<(u16, Vec<u8>)> = vec![
        (1, vec![1; 512]),
        (2, vec![2; 300]),
        (1, vec![3; 10]),
        (3, vec![4; 512]),
        (9, vec![5; 512]),
        (2, vec![6; 2]),
        (1, vec![]),
    ];
    let mut expected = vec![0u8; 1176];
    expected[..504].fill(1);
    expected[..10].fill(3);
    expected[504..804].fill(2);
    expected[504..506].fill(6);
    expected[1008..].fill(4);
    for pattern in 0..(1u32 << writes.len()) {
        let mut state = pixel_buffer();
        let mut reported = 0;
        for (n, (universe, data)) in writes.iter().enumerate() {
            state.handle_command(output(*universe, data.clone()));
            if pattern & (1 << n) != 0 {
                if let Some(snapshot) = state.take_snapshot() {
                    reported += snapshot.updates;
                }
            }
        }
        assert_eq!(state.frame(), &expected);
        reported += state.take_snapshot().map_or(0, |snapshot| snapshot.updates);
        assert_eq!(reported, 5);
    }
}

#[test]
fn snapshot_copies_the_frame_and_resets_the_count() {
    let mut state = pixel_buffer();
    state.handle_command(output(1, vec![8; 4]));
    let mut frame = vec![0u8; 1176];
    frame[..4].fill(8);
    assert_eq!(state.take_snapshot(), Some(Snapshot { frame: frame.clone(), updates: 1 }));
    assert_eq!(state.updates(), 0);
    assert_eq!(state.frame(), &frame);
    state.handle_command(output(1, vec![9; 2]));
    frame[..2].fill(9);
    assert_eq!(state.take_snapshot(), Some(Snapshot { frame, updates: 1 }));
}

#[test]
fn decoded_datagram_reaches_the_frame() {
    let mut raw = vec![b'A', b'r', b't', b'-', b'N', b'e', b't', 0, 0x00, 0x50, 0, 14, 1, 0, 2, 0, 0, 4];
    raw.extend_from_slice(&[11, 12, 13, 14]);
    let mut state = pixel_buffer();
    assert!(state.handle_command(decode(&raw).unwrap()));
    assert_eq!(state.frame()[504..509], [11, 12, 13, 14, 0]);
    assert_eq!(state.frame()[18..22], [0, 0, 0, 0]);
    assert_eq!(state.frame()[2], 0);
}

#[test]
fn monitor_reports_dropped_updates_once_an_interval_has_passed() {
    assert_eq!(REPORT_INTERVAL_MILLIS, 1000);
    let mut monitor = ForwardMonitor::new(100);
    assert_eq!(monitor.record(200, 3), None);
    assert_eq!(monitor.record(1099, 2), None);
    assert_eq!(monitor.record(1100, 1), Some(KeepUpReport { updates: 6, dropped: 3 }));
    assert_eq!(monitor, ForwardMonitor::new(1100));
    assert_eq!(monitor.record(1200, 4), None);
    assert_eq!(monitor.record(2100, 1), Some(KeepUpReport { updates: 5, dropped: 3 }));
}

#[test]
fn monitor_reports_the_count_once_in_an_interval() {
    let mut monitor = ForwardMonitor::new(0);
    let mut reports = vec![];
    for now in 0..50 {
        if let Some(report) = monitor.record(now * 100, 1) {
            reports.push((now * 100, report));
        }
    }
    assert_eq!(
        reports,
        vec![
            (1000, KeepUpReport { updates: 11, dropped: 0 }),
            (2000, KeepUpReport { updates: 10, dropped: 0 }),
            (3000, KeepUpReport { updates: 10, dropped: 0 }),
            (4000, KeepUpReport { updates: 10, dropped: 0 }),
        ]
    );
    assert_eq!(monitor, ForwardMonitor { last_report: 4000, updates: 9, dropped: 0 });
    assert_eq!(monitor.record(5000, 2), Some(KeepUpReport { updates: 11, dropped: 1 }));
}

#[test]
fn monitor_is_silent_while_there_is_nothing_to_report() {
    let mut monitor = ForwardMonitor::new(0);
    assert_eq!(monitor.record(5000, 0), None);
    assert_eq!(monitor.record(9000, 0), None);
    assert_eq!(monitor, ForwardMonitor::new(0));
    assert_eq!(monitor.record(9000, 1), Some(KeepUpReport { updates: 1, dropped: 0 }));
    assert_eq!(monitor, ForwardMonitor::new(9000));
}

#[test]
fn monitor_counts_stop_at_the_largest_number() {
    let mut monitor = ForwardMonitor::new(0);
    assert_eq!(monitor.record(1, usize::MAX), None);
    assert_eq!(monitor.record(2, 5), None);
    assert_eq!(monitor, ForwardMonitor { last_report: 0, updates: usize::MAX, dropped: usize::MAX });
}

#[test]
fn monitor_waits_when_the_clock_is_behind() {
    let mut monitor = ForwardMonitor::new(5000);
    assert_eq!(monitor.record(10, 3), None);
    assert_eq!(monitor.record(5999, 1), None);
    assert_eq!(monitor.record(6000, 1), Some(KeepUpReport { updates: 5, dropped: 2 }));
}
