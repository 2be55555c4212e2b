use netrecon::ping::{
    echo_request, next_phase, ping_identifier, reply_identifier, DrainPhase, PingResult, PingTally,
};
use netrecon::portscan::{
    is_syn_ack, next_syn_probe, scan_results, should_retry_send, syn_probe, TcpReply, ACK, SYN,
};

fn ones_complement(words_sum: u32) -> u16 {
    let mut s = words_sum;
    while s >> 16 != 0 {
        s = (s >> 16) + (s & 0xFFFF);
    }
    !(s as u16)
}

fn ip(a: u8, b: u8, c: u8, d: u8) -> u32 {
    u32::from_be_bytes([a, b, c, d])
}

#[test]
fn identifiers_are_indices() {
    assert_eq!(ping_identifier(0), 0);
    assert_eq!(ping_identifier(65535), 65535);
    let ids: std::collections::HashSet<u16> = (0..65536usize).map(ping_identifier).collect();
    assert_eq!(ids.len(), 65536);
}

#[test]
fn echo_request_bytes_and_checksum() {
    assert_eq!(echo_request(0), vec![8, 0, 0xF7, 0xFF, 0, 0, 0, 0]);
    let p = echo_request(0x0102);
    assert_eq!(&p[4..], &[0, 0, 1, 2]);
    let c = ones_complement(0x0800 + 0x0102);
    assert_eq!(&p[2..4], &c.to_be_bytes());
}

#[test]
fn reply_identifier_reads_bytes_two_and_three() {
    assert_eq!(reply_identifier(&[0, 0, 0x00, 0x00]), Some(0));
    assert_eq!(reply_identifier(&[9, 9, 0x01, 0x02, 7]), Some(258));
    assert_eq!(reply_identifier(&[0, 0, 1]), None);
}

#[test]
fn loopback_reply_marks_host_up() {
    let mut tally = PingTally::new(1);
    assert!(tally.record_reply(&[0, 0, 0x00, 0x00], 1, 10));
    assert_eq!(tally.results, vec![PingResult { target: 0, is_up: true, response_millis: Some(10) }]);
    // a second reply from the same host does not count again
    assert!(!tally.record_reply(&[0, 0, 0x00, 0x00], 1, 12));
    assert_eq!(tally.results.len(), 1);
}

#[test]
fn unknown_or_unregistered_reply_is_dropped() {
    let mut tally = PingTally::new(2);
    assert!(!tally.record_reply(&[0, 0, 0x00, 0x01], 1, 5));
    assert!(!tally.record_reply(&[0, 0, 0x00, 0x07], 2, 5));
    assert!(tally.results.is_empty());
}

#[test]
fn silent_host_is_absent_and_send_error_is_down() {
    let mut tally = PingTally::new(2);
    tally.record_send_error(1);
    assert_eq!(tally.results, vec![PingResult { target: 1, is_up: false, response_millis: None }]);
    assert!(PingTally::new(0).results.is_empty());
    assert!(PingTally::new(1).results.is_empty());
}

#[test]
fn drain_window_is_latched_once() {
    let p = next_phase(DrainPhase::Sending, false, 50);
    assert_eq!(p, DrainPhase::Sending);
    let p = next_phase(p, true, 100);
    assert_eq!(p, DrainPhase::Draining { deadline_ms: 3100 });
    let p = next_phase(p, true, 3099);
    assert_eq!(p, DrainPhase::Draining { deadline_ms: 3100 });
    assert_eq!(next_phase(p, true, 3100), DrainPhase::Done);
    assert_eq!(next_phase(DrainPhase::Sending, true, u64::MAX), DrainPhase::Draining { deadline_ms: u64::MAX });
}

#[test]
fn syn_ack_classification() {
    assert!(is_syn_ack(SYN | ACK));
    assert!(is_syn_ack(0x12));
    assert!(!is_syn_ack(SYN));
    assert!(!is_syn_ack(0x14));
    assert!(!is_syn_ack(0x13));
}

#[test]
fn send_retry_only_without_buffer_space() {
    assert!(should_retry_send(Some(105)));
    assert!(!should_retry_send(Some(11)));
    assert!(!should_retry_send(None));
}

#[test]
fn syn_probe_layout_and_checksum() {
    let src = ip(10, 0, 0, 1);
    let dst = ip(10, 0, 0, 5);
    let p = syn_probe(src, dst, 0x1234, 22, 0xA1B2C3D4);
    assert_eq!(p.len(), 40);
    assert_eq!(&p[0..16], &[0x12, 0x34, 0, 22, 0xA1, 0xB2, 0xC3, 0xD4, 0, 0, 0, 0, 0x50, 0x02, 0xFA, 0xF0]);
    assert_eq!(&p[18..20], &[0, 0]);
    assert!(p[20..].iter().all(|b| *b == 0));
    let mut sum: u32 = 0;
    for w in [src >> 16, src & 0xFFFF, dst >> 16, dst & 0xFFFF, 6, 40] {
        sum += w;
    }
    for (i, ch) in p.chunks(2).enumerate() {
        if i != 8 {
            sum += u16::from_be_bytes([ch[0], ch[1]]) as u32;
        }
    }
    assert_eq!(&p[16..18], &ones_complement(sum).to_be_bytes());
}

#[test]
fn random_probe_targets_port() {
    let p = next_syn_probe(ip(10, 0, 0, 1), ip(10, 0, 0, 5), 443);
    assert_eq!(p.len(), 40);
    assert_eq!(u16::from_be_bytes([p[2], p[3]]), 443);
    assert_ne!(u16::from_be_bytes([p[0], p[1]]), 0);
    assert_eq!(p[13], SYN);
}

#[test]
fn port_scan_reports_syn_ack_ports() {
    let t = ip(10, 0, 0, 5);
    let replies = vec![
        TcpReply { source: t, source_port: 443, flags: SYN | ACK },
        TcpReply { source: t, source_port: 80, flags: 0x14 },
        TcpReply { source: t, source_port: 22, flags: SYN | ACK },
        TcpReply { source: t, source_port: 22, flags: SYN | ACK },
        TcpReply { source: ip(10, 0, 0, 6), source_port: 25, flags: SYN | ACK },
    ];
    let r = scan_results(&vec![t], &replies);
    assert_eq!(r.len(), 1);
    assert_eq!(r[0].ip, t);
    assert_eq!(r[0].open_ports, vec![22, 443]);
}

#[test]
fn port_scan_one_record_per_target() {
    assert!(scan_results(&vec![], &vec![]).is_empty());
    let targets = vec![ip(1, 1, 1, 1), ip(2, 2, 2, 2), ip(1, 1, 1, 1)];
    let r = scan_results(&targets, &vec![]);
    assert_eq!(r.len(), 3);
    assert!(r.iter().all(|s| s.open_ports.is_empty()));
    assert_eq!(r[1].ip, ip(2, 2, 2, 2));
}
