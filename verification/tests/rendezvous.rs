use p2p_ft::endpoint::encode_endpoint;
use p2p_ft::peer::{next_dial_action, on_server_payload, DialAction, RendezvousAction};
use p2p_ft::server::{
    bind_address, broadcast_plan, encode_peers, filter_peers, handle_disconnect,
    handle_registration, parse_registration, Peer,
};

fn peer(local: &str, lport: u16, remote: &str, rport: u16) -> Peer {
    Peer {
        local_address: local.as_bytes().to_vec(),
        local_port: lport,
        remote_address: remote.as_bytes().to_vec(),
        remote_port: rport,
        secret: Vec::new(),
    }
}

fn remotes(peers: &[Peer]) -> Vec<(Vec<u8>, u16)> {
    peers
        .iter()
        .map(|p| (p.remote_address.clone(), p.remote_port))
        .collect()
}

#[test]
fn filter_peers_leaves_out_the_given_endpoint() {
    let peers = vec![
        peer("10.0.0.1", 1, "1.1.1.1", 100),
        peer("10.0.0.2", 2, "2.2.2.2", 200),
        peer("10.0.0.3", 3, "1.1.1.1", 101),
    ];
    let kept = filter_peers(&peers, b"1.1.1.1", 100);
    assert_eq!(
        remotes(&kept),
        vec![(b"2.2.2.2".to_vec(), 200), (b"1.1.1.1".to_vec(), 101)]
    );
    assert_eq!(kept[0].local_address, b"10.0.0.2".to_vec());
    assert_eq!(kept[0].local_port, 2);
}

#[test]
fn filter_peers_matches_address_and_port_together() {
    let peers = vec![peer("a", 1, "1.1.1.1", 100), peer("b", 2, "1.1.1.2", 100)];
    assert_eq!(filter_peers(&peers, b"1.1.1.1", 101).len(), 2);
    assert_eq!(filter_peers(&peers, b"1.1.1.3", 100).len(), 2);
    assert_eq!(filter_peers(&peers, b"1.1.1.2", 100).len(), 1);
    assert_eq!(filter_peers(&Vec::new(), b"1.1.1.2", 100).len(), 0);
}

#[test]
fn filter_peers_removes_every_duplicate() {
    let peers = vec![peer("a", 1, "9.9.9.9", 9), peer("b", 2, "9.9.9.9", 9)];
    assert!(filter_peers(&peers, b"9.9.9.9", 9).is_empty());
}

#[test]
fn encode_peers_lists_public_then_private() {
    let one = vec![peer("192.168.0.5", 4000, "203.0.113.7", 51000)];
    assert_eq!(
        encode_peers(&one),
        b"203.0.113.7:51000|192.168.0.5:4000".to_vec()
    );
    let two = vec![peer("l1", 1, "r1", 10), peer("l2", 2, "r2", 20)];
    assert_eq!(encode_peers(&two), b"r1:10|l1:1,r2:20|l2:2".to_vec());
    assert_eq!(encode_peers(&Vec::new()), Vec::<u8>::new());
}

#[test]
fn registration_without_secret() {
    let reg = parse_registration(b"192.168.1.20:5000").unwrap();
    assert_eq!(reg.local_address, b"192.168.1.20".to_vec());
    assert_eq!(reg.local_port, 5000);
    assert!(reg.secret.is_empty());
}

#[test]
fn registration_with_secret_ignores_later_fields() {
    let reg = parse_registration(b"10.0.0.1:80:s3cret:more").unwrap();
    assert_eq!(reg.local_address, b"10.0.0.1".to_vec());
    assert_eq!(reg.local_port, 80);
    assert_eq!(reg.secret, b"s3cret".to_vec());
}

#[test]
fn registration_refused() {
    assert!(parse_registration(b"").is_none());
    assert!(parse_registration(b"10.0.0.1").is_none());
    assert!(parse_registration(b"10.0.0.1:http").is_none());
    assert!(parse_registration(b"10.0.0.1:70000").is_none());
    assert!(parse_registration(b"10.0.0.1:").is_none());
}

#[test]
fn registration_reads_back_the_client_message() {
    let message = encode_endpoint(b"192.168.7.7", 43210);
    let reg = parse_registration(&message).unwrap();
    assert_eq!(reg.local_address, b"192.168.7.7".to_vec());
    assert_eq!(reg.local_port, 43210);
    assert!(reg.secret.is_empty());
}

#[test]
fn lone_peer_is_told_nothing() {
    let peers = vec![peer("l1", 1, "r1", 10)];
    assert!(broadcast_plan(&peers).is_empty());
}

#[test]
fn two_peers_are_told_about_each_other() {
    let peers = vec![
        peer("192.168.0.2", 5000, "198.51.100.1", 40000),
        peer("10.1.1.9", 6000, "203.0.113.9", 41000),
    ];
    let plan = broadcast_plan(&peers);
    assert_eq!(plan.len(), 2);
    assert_eq!(plan[0].key, b"198.51.100.1:40000".to_vec());
    assert_eq!(plan[0].payload, b"203.0.113.9:41000|10.1.1.9:6000".to_vec());
    assert_eq!(plan[1].key, b"203.0.113.9:41000".to_vec());
    assert_eq!(plan[1].payload, b"198.51.100.1:40000|192.168.0.2:5000".to_vec());
}

#[test]
fn three_peers_each_hear_of_the_two_others() {
    let peers = vec![
        peer("a", 1, "A", 1),
        peer("b", 2, "B", 2),
        peer("c", 3, "C", 3),
    ];
    let plan = broadcast_plan(&peers);
    assert_eq!(plan.len(), 3);
    assert_eq!(plan[0].payload, b"B:2|b:2,C:3|c:3".to_vec());
    assert_eq!(plan[1].payload, b"A:1|a:1,C:3|c:3".to_vec());
    assert_eq!(plan[2].payload, b"A:1|a:1,B:2|b:2".to_vec());
}

#[test]
fn registration_adds_the_peer_and_plans_notices() {
    let mut peers: Vec<Peer> = Vec::new();
    let first = handle_registration(&mut peers, b"192.168.0.2:5000", b"198.51.100.1", 40000)
        .unwrap();
    assert!(first.is_empty());
    assert_eq!(peers.len(), 1);
    assert_eq!(peers[0].remote_address, b"198.51.100.1".to_vec());
    assert_eq!(peers[0].local_port, 5000);
    let second = handle_registration(&mut peers, b"10.1.1.9:6000", b"203.0.113.9", 41000)
        .unwrap();
    assert_eq!(second.len(), 2);
    assert_eq!(second[0].key, b"198.51.100.1:40000".to_vec());
    assert_eq!(second[1].payload, b"198.51.100.1:40000|192.168.0.2:5000".to_vec());
}

#[test]
fn bad_registration_leaves_registry_alone() {
    let mut peers = vec![peer("l1", 1, "r1", 10)];
    assert!(handle_registration(&mut peers, b"no-port-here", b"r2", 20).is_none());
    assert_eq!(peers.len(), 1);
}

#[test]
fn disconnect_removes_first_match_only() {
    let mut peers = vec![
        peer("a", 1, "X", 7),
        peer("b", 2, "Y", 8),
        peer("c", 3, "X", 7),
    ];
    assert_eq!(handle_disconnect(&mut peers, b"X", 7), Some(0));
    assert_eq!(remotes(&peers), vec![(b"Y".to_vec(), 8), (b"X".to_vec(), 7)]);
    assert_eq!(peers[1].local_address, b"c".to_vec());
    assert_eq!(handle_disconnect(&mut peers, b"Z", 7), None);
    assert_eq!(peers.len(), 2);
}

#[test]
fn disconnect_undoes_registration() {
    let mut peers = vec![peer("a", 1, "X", 7)];
    handle_registration(&mut peers, b"b:2", b"Y", 8).unwrap();
    assert_eq!(handle_disconnect(&mut peers, b"Y", 8), Some(1));
    assert_eq!(remotes(&peers), vec![(b"X".to_vec(), 7)]);
}

#[test]
fn bind_address_defaults_to_all_interfaces() {
    assert_eq!(bind_address(None, b"8080"), b"0.0.0.0:8080".to_vec());
    assert_eq!(bind_address(Some(b"127.0.0.1"), b"9"), b"127.0.0.1:9".to_vec());
}

#[test]
fn server_payload_decisions() {
    assert!(matches!(on_server_payload(b""), RendezvousAction::GiveUp));
    match on_server_payload(b"203.0.113.9:41000|10.1.1.9:6000") {
        RendezvousAction::Dial { public, private } => {
            assert_eq!(public, b"203.0.113.9:41000".to_vec());
            assert_eq!(private, Some(b"10.1.1.9:6000".to_vec()));
        }
        _ => panic!("expected a dial"),
    }
}

#[test]
fn server_payload_with_two_peers_keeps_the_rest_in_private() {
    match on_server_payload(b"a:1|b:2,c:3|d:4") {
        RendezvousAction::Dial { public, private } => {
            assert_eq!(public, b"a:1".to_vec());
            assert_eq!(private, Some(b"b:2,c:3".to_vec()));
        }
        _ => panic!("expected a dial"),
    }
}

#[test]
fn server_payload_without_private_endpoint_still_dials_public() {
    match on_server_payload(b"1.2.3.4:5") {
        RendezvousAction::Dial { public, private } => {
            assert_eq!(public, b"1.2.3.4:5".to_vec());
            assert!(private.is_none());
        }
        _ => panic!("expected a dial"),
    }
}

#[test]
fn client_dials_what_the_server_lists() {
    let listing = encode_peers(&vec![peer("10.1.1.9", 6000, "203.0.113.9", 41000)]);
    match on_server_payload(&listing) {
        RendezvousAction::Dial { public, private } => {
            assert_eq!(public, encode_endpoint(b"203.0.113.9", 41000));
            assert_eq!(private, Some(encode_endpoint(b"10.1.1.9", 6000)));
        }
        _ => panic!("expected a dial"),
    }
}

#[test]
fn dial_loop_steps() {
    assert!(matches!(next_dial_action(false, false), DialAction::Attempt));
    assert!(matches!(next_dial_action(true, false), DialAction::Abandon));
    assert!(matches!(next_dial_action(true, true), DialAction::Claim));
    assert!(matches!(next_dial_action(false, true), DialAction::Claim));
}
