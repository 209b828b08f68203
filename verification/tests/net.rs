use platform_drivers::net::batch::parse_frames;
use platform_drivers::net::checksum::{InternetChecksum, checksum};
use platform_drivers::net::drain::{DrainAction, ReassemblyDrain, parse_command_ready};
use platform_drivers::net::flow::toeplitz;
use platform_drivers::net::ip::{is_local_ipv4, is_local_ipv6};
use platform_drivers::net::tcp::parse_tcp_options;
use platform_drivers::net::turn::{
    NetStackRegisterErrorKind, NetStackRemoveError, ShardTurn, TurnAction, TurnStatus,
    finalize_outcome, map_register_error, map_remove_error, rss_generation, shards_to_initialize,
    turn_entry_allowed,
};
use platform_drivers::net::types::{
    DropReason, EthernetStatus, Family, NetStackLocalAddress, NetStackPacketInput, NetworkOutcome,
    TransportOutcome,
};

const HASH_KEY: [u8; 40] = [
    0x6d, 0x5a, 0x56, 0xda, 0x25, 0x5b, 0x0e, 0xc2, 0x41, 0x67, 0x25, 0x3d, 0x43, 0xa3, 0x8f, 0xb0,
    0xd0, 0xca, 0x2b, 0xcb, 0xae, 0x7b, 0x30, 0xb4, 0x77, 0xcb, 0x2d, 0xa3, 0x80, 0x30, 0xf2, 0x0c,
    0x6a, 0x42, 0xb7, 0x3b, 0xbe, 0xac, 0x01, 0xfa,
];

const SOURCE: [u8; 4] = [66, 9, 149, 187];
const LOCAL: [u8; 4] = [161, 142, 100, 80];

fn local(address: &[u8], family: Family, prefix_len: u8) -> NetStackLocalAddress {
    let mut bytes = [0u8; 16];
    bytes[..address.len()].copy_from_slice(address);
    NetStackLocalAddress {
        interface: 1,
        family,
        prefix_len,
        address: bytes,
        reserved0: [0; 2],
        reserved1: [0; 8],
    }
}

fn facts(frame: &[u8]) -> NetStackPacketInput {
    NetStackPacketInput {
        present: 1,
        checksums_validated: 0,
        rss_hash_present: 0,
        reserved: 0,
        frame_len: frame.len() as u32,
        rss_hash: 0,
        rss_generation: 0,
    }
}

fn ethernet(ethertype: u16, payload: &[u8]) -> Vec<u8> {
    let mut frame = vec![2, 0, 0, 0, 0, 1, 2, 0, 0, 0, 0, 2];
    frame.extend(ethertype.to_be_bytes());
    frame.extend(payload);
    frame
}

fn ipv4(protocol: u8, source: [u8; 4], destination: [u8; 4], payload: &[u8]) -> Vec<u8> {
    let mut packet = vec![0x45, 0];
    packet.extend(((20 + payload.len()) as u16).to_be_bytes());
    packet.extend([0, 0, 0x40, 0, 64, protocol, 0, 0]);
    packet.extend(source);
    packet.extend(destination);
    let sum = checksum(&packet);
    packet[10..12].copy_from_slice(&sum.to_be_bytes());
    packet.extend(payload);
    packet
}

fn sealed(protocol: u8, source: &[u8], destination: &[u8], mut segment: Vec<u8>, at: usize) -> Vec<u8> {
    let mut sum = InternetChecksum::new();
    sum.add(source);
    sum.add(destination);
    if source.len() == 4 {
        sum.add(&[0, protocol]);
        sum.add(&(segment.len() as u16).to_be_bytes());
    } else {
        sum.add(&(segment.len() as u32).to_be_bytes());
        sum.add(&[0, 0, 0, protocol]);
    }
    sum.add(&segment);
    let value = sum.finish();
    segment[at..at + 2].copy_from_slice(&value.to_be_bytes());
    segment
}

fn tcp_segment() -> Vec<u8> {
    let mut segment = Vec::new();
    segment.extend(2794u16.to_be_bytes());
    segment.extend(1766u16.to_be_bytes());
    segment.extend(7u32.to_be_bytes());
    segment.extend(9u32.to_be_bytes());
    segment.extend([0x60, 0x12, 0x20, 0x00, 0, 0, 0, 0]);
    segment.extend([2, 4, 0x05, 0xb4]);
    segment.extend(b"hello");
    segment
}

fn parsed(
    frames: Vec<Vec<u8>>,
    addresses: &[NetStackLocalAddress],
) -> platform_drivers::net::batch::NetStackPacketParse {
    let inputs = frames.iter().map(|frame| facts(frame)).collect();
    parse_frames(1, 1, 1, HASH_KEY, 1, inputs, &frames, addresses).unwrap()
}

#[test]
fn checksum_matches_known_header() {
    let header = [
        0x45, 0x00, 0x00, 0x73, 0x00, 0x00, 0x40, 0x00, 0x40, 0x11, 0x00, 0x00, 0xc0, 0xa8, 0x00,
        0x01, 0xc0, 0xa8, 0x00, 0xc7,
    ];
    assert_eq!(checksum(&header), 0xb861);
    let mut whole = header;
    whole[10..12].copy_from_slice(&0xb861u16.to_be_bytes());
    assert_eq!(checksum(&whole), 0);
}

#[test]
fn checksum_does_not_depend_on_the_cut() {
    let data: Vec<u8> = (0..101).collect();
    for cut in [0, 2, 50, 100] {
        let mut sum = InternetChecksum::new();
        sum.add(&data[..cut]);
        sum.add(&data[cut..]);
        assert_eq!(sum.finish(), checksum(&data));
    }
}

#[test]
fn flow_hash_matches_the_published_vector() {
    let mut input = Vec::new();
    input.extend(SOURCE);
    input.extend(LOCAL);
    input.extend(2794u16.to_be_bytes());
    input.extend(1766u16.to_be_bytes());
    assert_eq!(toeplitz(&HASH_KEY, &input), 0x51cc_c178);
    assert_eq!(toeplitz(&HASH_KEY, &input[..8]), 0x323e_8fc2);
}

#[test]
fn tcp_packet_is_parsed_down_to_its_options() {
    let segment = sealed(6, &SOURCE, &LOCAL, tcp_segment(), 16);
    let frame = ethernet(0x0800, &ipv4(6, SOURCE, LOCAL, &segment));
    let turn = parsed(vec![frame], &[local(&LOCAL, Family::Ipv4, 24)]);
    assert_eq!(turn.ethernet[0].status, EthernetStatus::Accepted);
    let network = turn.network[0];
    assert_eq!(network.outcome, NetworkOutcome::Ip);
    assert_eq!(network.next_header, 6);
    assert_eq!(network.hop_limit, 64);
    assert_eq!((network.payload_offset, network.payload_len), (34, 29));
    assert_eq!(network.source[..4], SOURCE);
    let transport = turn.transport[0];
    assert_eq!(transport.outcome, TransportOutcome::Tcp);
    assert_eq!((transport.source_port, transport.destination_port), (2794, 1766));
    assert_eq!((transport.payload_offset, transport.payload_len), (58, 5));
    assert_eq!((transport.tcp_sequence, transport.tcp_acknowledgement), (7, 9));
    assert_eq!(transport.tcp_window, 0x2000);
    assert_eq!(transport.rss_hash, 0x51cc_c178);
    assert!(transport.tcp_options.has_mss);
    assert_eq!(transport.tcp_options.maximum_segment_size, 1460);
}

#[test]
fn damaged_packets_are_dropped_for_their_reason() {
    let segment = sealed(6, &SOURCE, &LOCAL, tcp_segment(), 16);
    let addresses = [local(&LOCAL, Family::Ipv4, 24)];
    let good = ethernet(0x0800, &ipv4(6, SOURCE, LOCAL, &segment));

    let mut header = good.clone();
    header[22] = 63;
    let mut payload = good.clone();
    payload[60] ^= 1;
    let foreign = ethernet(0x0800, &ipv4(6, SOURCE, [161, 142, 101, 80], &segment));
    let short = good[..30].to_vec();
    let turn = parsed(vec![header, payload, foreign, short], &addresses);
    assert_eq!(turn.network[0].drop_reason, DropReason::Ipv4Checksum);
    assert_eq!(turn.transport[1].drop_reason, DropReason::TcpChecksum);
    assert_eq!(turn.network[2].drop_reason, DropReason::NotLocal);
    assert_eq!(turn.network[3].drop_reason, DropReason::MalformedIpv4);
    assert_eq!(turn.transport[0].outcome, TransportOutcome::Skipped);
}

#[test]
fn fragment_does_not_reach_the_transport() {
    let mut packet = ipv4(6, SOURCE, LOCAL, &[0; 24]);
    packet[6] = 0x20;
    packet[7] = 0x01;
    packet[10] = 0;
    packet[11] = 0;
    let sum = checksum(&packet[..20]);
    packet[10..12].copy_from_slice(&sum.to_be_bytes());
    let turn = parsed(
        vec![ethernet(0x0800, &packet)],
        &[local(&LOCAL, Family::Ipv4, 24)],
    );
    assert!(turn.network[0].flags.fragment);
    assert!(turn.network[0].flags.more_fragments);
    assert_eq!(turn.network[0].fragment_offset, 1);
    assert_eq!(turn.transport[0].outcome, TransportOutcome::Skipped);
}

#[test]
fn udp_over_ipv6_is_parsed_behind_its_options() {
    let source = [0x20, 1, 0, 0, 0, 0, 0, 0, 0, 0, 0, 0, 0, 0, 0, 1];
    let destination = [0x20, 1, 0, 0, 0, 0, 0, 0, 0, 0, 0, 0, 0, 0, 0, 2];
    let datagram = sealed(
        17,
        &source,
        &destination,
        vec![0, 53, 0x30, 0x39, 0, 12, 0, 0, b'a', b'b', b'c', b'd'],
        6,
    );
    let mut packet = vec![0x60, 0, 0, 0, 0, 20, 60, 7];
    packet.extend(source);
    packet.extend(destination);
    packet.extend([17, 0, 1, 4, 0, 0, 0, 0]);
    packet.extend(&datagram);
    let turn = parsed(
        vec![ethernet(0x86dd, &packet)],
        &[local(&destination, Family::Ipv6, 64)],
    );
    let network = turn.network[0];
    assert_eq!(network.outcome, NetworkOutcome::Ip);
    assert_eq!(network.next_header, 17);
    assert_eq!((network.payload_offset, network.payload_len), (62, 12));
    let transport = turn.transport[0];
    assert_eq!(transport.outcome, TransportOutcome::Udp);
    assert_eq!((transport.source_port, transport.destination_port), (53, 12345));
    assert_eq!((transport.payload_offset, transport.payload_len), (70, 4));
}

#[test]
fn arp_request_is_recorded() {
    let mut message = vec![0, 1, 8, 0, 6, 4, 0, 1];
    message.extend([2, 0, 0, 0, 0, 2]);
    message.extend(SOURCE);
    message.extend([0; 6]);
    message.extend(LOCAL);
    let turn = parsed(
        vec![ethernet(0x0806, &message)],
        &[local(&LOCAL, Family::Ipv4, 24)],
    );
    assert_eq!(turn.network[0].outcome, NetworkOutcome::Arp);
    assert_eq!(turn.network[0].arp_operation, 1);
    assert_eq!(turn.network[0].arp_sender_mac, [2, 0, 0, 0, 0, 2]);
    assert_eq!(turn.network[0].source[..4], SOURCE);
}

#[test]
fn batch_is_refused_as_a_whole() {
    let frame = ethernet(0x0800, &[]);
    let mut input = facts(&frame);
    input.reserved = 1;
    assert!(parse_frames(1, 1, 1, HASH_KEY, 1, vec![input], &vec![frame.clone()], &[]).is_none());
    assert!(parse_frames(1, 1, 0, HASH_KEY, 1, vec![facts(&frame)], &vec![frame.clone()], &[]).is_none());
    assert!(parse_frames(1, 0, 1, HASH_KEY, 1, vec![facts(&frame)], &vec![frame.clone()], &[]).is_none());
    assert!(parse_frames(1, 1, 1, HASH_KEY, 0, vec![facts(&frame)], &vec![frame], &[]).is_none());
}

#[test]
fn local_addresses_cover_broadcast_and_groups() {
    let addresses = [
        local(&LOCAL, Family::Ipv4, 24),
        local(&[0xfe, 0x80, 0, 0, 0, 0, 0, 0, 0, 0, 0, 0, 0, 0, 0, 1], Family::Ipv6, 64),
    ];
    assert!(is_local_ipv4(1, &addresses, LOCAL));
    assert!(is_local_ipv4(1, &addresses, [161, 142, 100, 255]));
    assert!(is_local_ipv4(1, &addresses, [255; 4]));
    assert!(is_local_ipv4(1, &addresses, [224, 0, 0, 1]));
    assert!(!is_local_ipv4(1, &addresses, [161, 142, 100, 81]));
    assert!(!is_local_ipv4(2, &addresses, LOCAL));
    let mut group = [0u8; 16];
    group[0] = 0xff;
    assert!(is_local_ipv6(1, &addresses, group));
    group[0] = 0xfd;
    assert!(!is_local_ipv6(1, &addresses, group));
}

#[test]
fn tcp_options_are_read_and_bounded() {
    let options = [
        3, 3, 20, 4, 2, 8, 10, 0, 0, 0, 1, 0, 0, 0, 2, 5, 10, 0, 0, 0, 3, 0, 0, 0, 4, 1, 1, 0,
    ];
    let read = parse_tcp_options(&options, 0, 20 + options.len()).unwrap();
    assert!(read.has_window_scale && read.window_scale == 14);
    assert!(read.sack_permitted);
    assert!(read.has_timestamp);
    assert_eq!((read.timestamp_value, read.timestamp_echo_reply), (1, 2));
    assert_eq!(read.sack_count, 1);
    assert_eq!((read.sack_left[0], read.sack_right[0]), (3, 4));
    assert_eq!(
        parse_tcp_options(&[2, 9, 0, 0], 0, 24).err(),
        Some(DropReason::MalformedTcp)
    );
}

/// Runs a turn and answers every action alike, but for one.
fn run(mut turn: ShardTurn, fails: Option<TurnAction>) -> (Vec<TurnAction>, TurnStatus, ShardTurn) {
    let mut actions = Vec::new();
    loop {
        let action = turn.action();
        if let TurnAction::Finish(status) = action {
            return (actions, status, turn);
        }
        actions.push(action);
        turn.report(Some(action) != fails);
    }
}

#[test]
fn committed_turn_ran_all_of_its_commands() {
    let (actions, status, turn) = run(ShardTurn::begin(2, 1, 0, 0, 4), None);
    assert_eq!(status, TurnStatus::Done);
    assert!(turn.committed);
    assert_eq!(
        actions,
        [
            TurnAction::AcquireLease,
            TurnAction::LockControlPlane,
            TurnAction::RunControl(0),
            TurnAction::BorrowShard,
            TurnAction::RunCommand(0),
            TurnAction::RunCommand(1),
            TurnAction::FinalizeTx,
            TurnAction::ReleaseLease,
        ]
    );
    let (actions, status, turn) = run(
        ShardTurn::begin(2, 1, 0, 0, 4),
        Some(TurnAction::FinalizeTx),
    );
    assert_eq!(status, TurnStatus::Invalid);
    assert!(!turn.committed && !turn.lease_held);
    assert_eq!(actions.last(), Some(&TurnAction::DropLease));
    let (actions, status, _) = run(
        ShardTurn::begin(0, 1, 0, 0, 4),
        Some(TurnAction::LockControlPlane),
    );
    assert_eq!(status, TurnStatus::Invalid);
    assert_eq!(actions, [TurnAction::LockControlPlane]);
    let (actions, status, _) = run(
        ShardTurn::begin(1, 0, 3, 3, 4),
        Some(TurnAction::AcquireLease),
    );
    assert_eq!(status, TurnStatus::Busy);
    assert_eq!(actions, [TurnAction::AcquireLease, TurnAction::MarkPending]);
    let (actions, status, _) = run(ShardTurn::begin(1, 1, 1, 1, 4), None);
    assert_eq!(status, TurnStatus::Invalid);
    assert!(actions.is_empty());
}

#[test]
fn drain_takes_no_more_than_its_batches() {
    let mut drain = ReassemblyDrain::begin(true, 1, true, 2);
    let mut taken = 0;
    let mut actions = 0;
    while !matches!(drain.next, DrainAction::Finish(_)) {
        if drain.next == DrainAction::TakeInput {
            taken += 1;
        }
        actions += 1;
        drain.report(true);
    }
    assert_eq!((taken, actions), (2, 7));
    assert_eq!(drain.next, DrainAction::Finish(true));
    let mut drain = ReassemblyDrain::begin(true, 1, true, 2);
    drain.report(false);
    assert_eq!(drain.next, DrainAction::MoveOut);
    assert_eq!(
        ReassemblyDrain::begin(true, 0, true, 2).next,
        DrainAction::Finish(false)
    );
    assert!(parse_command_ready(false, true, 1, true, true));
    assert!(!parse_command_ready(true, true, 1, true, true));
}

#[test]
fn stack_start_and_end_have_codes() {
    assert_eq!(shards_to_initialize(false, Some(4), 8), Ok(4));
    assert_eq!(shards_to_initialize(true, Some(4), 8), Err(-16));
    assert_eq!(shards_to_initialize(false, None, 8), Err(-19));
    assert_eq!(shards_to_initialize(false, Some(9), 8), Err(-22));
    assert_eq!(
        finalize_outcome(true, Err(NetStackRemoveError::NoStack)),
        (Ok(()), true)
    );
    assert_eq!(
        finalize_outcome(true, Err(NetStackRemoveError::Busy)),
        (Err(-16), false)
    );
    assert_eq!(map_register_error(NetStackRegisterErrorKind::RegistrarNotReady), -19);
    assert_eq!(map_register_error(NetStackRegisterErrorKind::ResourceExhausted), -12);
    assert_eq!(map_remove_error(NetStackRemoveError::OwnerMismatch), -1);
    assert_eq!(rss_generation(&[1, 2, 0, 0, 9]), 0x201);
    assert_eq!(rss_generation(&[0, 0, 0, 0]), 1);
    assert!(turn_entry_allowed(false, 1, true));
    assert!(!turn_entry_allowed(true, 1, true));
}
