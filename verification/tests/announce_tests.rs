use rsbt_core::announce::{
    announce_request, connect_request, parse_announce_response, parse_connect_response,
    udp_announce_outcome, AnnounceTransfer, Peer, DEFAULT_RETRY_INTERVAL,
};

#[test]
fn connect_request_layout() {
    let request = connect_request(0x11223344);
    assert_eq!(
        request,
        vec![
            0x00, 0x00, 0x04, 0x17, 0x27, 0x10, 0x19, 0x80, // protocol id
            0x00, 0x00, 0x00, 0x00, // action: connect
            0x11, 0x22, 0x33, 0x44, // transaction id
        ]
    );
}

#[test]
fn connect_response_parsing() {
    let mut reply = Vec::new();
    reply.extend([0, 0, 0, 0]); // action: connect
    reply.extend([0x11, 0x22, 0x33, 0x44]); // transaction id
    reply.extend([1, 2, 3, 4, 5, 6, 7, 8]); // connection id
    assert_eq!(
        parse_connect_response(&reply, 0x11223344),
        Some(0x0102030405060708)
    );
    // transaction id mismatch
    assert_eq!(parse_connect_response(&reply, 0x11223345), None);
    // short reply
    assert_eq!(parse_connect_response(&reply[..15], 0x11223344), None);
    // wrong action
    let mut bad = reply.clone();
    bad[3] = 1;
    assert_eq!(parse_connect_response(&bad, 0x11223344), None);
}

#[test]
fn announce_request_layout() {
    let info_hash = vec![0xAAu8; 20];
    let peer_id = vec![0xBBu8; 20];
    let transfer = AnnounceTransfer {
        downloaded: 1,
        left: 2,
        uploaded: 3,
        event: 2,
    };
    let request = announce_request(
        0x0102030405060708,
        0x11223344,
        &info_hash,
        &peer_id,
        transfer,
        0xCAFEBABE,
        6881,
    );
    assert_eq!(request.len(), 98);
    assert_eq!(&request[0..8], &[1, 2, 3, 4, 5, 6, 7, 8]); // connection id
    assert_eq!(&request[8..12], &[0, 0, 0, 1]); // action: announce
    assert_eq!(&request[12..16], &[0x11, 0x22, 0x33, 0x44]); // transaction id
    assert_eq!(&request[16..36], info_hash.as_slice());
    assert_eq!(&request[36..56], peer_id.as_slice());
    assert_eq!(&request[56..64], &[0, 0, 0, 0, 0, 0, 0, 1]); // downloaded
    assert_eq!(&request[64..72], &[0, 0, 0, 0, 0, 0, 0, 2]); // left
    assert_eq!(&request[72..80], &[0, 0, 0, 0, 0, 0, 0, 3]); // uploaded
    assert_eq!(&request[80..84], &[0, 0, 0, 2]); // event
    assert_eq!(&request[84..88], &[0, 0, 0, 0]); // ip
    assert_eq!(&request[88..92], &[0xCA, 0xFE, 0xBA, 0xBE]); // key
    assert_eq!(&request[92..96], &[0xFF, 0xFF, 0xFF, 0xFF]); // num_want: -1
    assert_eq!(&request[96..98], &[0x1A, 0xE1]); // port 6881
}

fn announce_reply() -> Vec<u8> {
    let mut reply = Vec::new();
    reply.extend([0, 0, 0, 1]); // action: announce
    reply.extend([0x11, 0x22, 0x33, 0x44]); // transaction id
    reply.extend([0, 0, 0x07, 0x08]); // interval 1800
    reply.extend([0, 0, 0, 5]); // leechers
    reply.extend([0, 0, 0, 6]); // seeders
    reply.extend([10, 0, 0, 1, 0x1A, 0xE1]); // one peer 10.0.0.1:6881
    reply
}

#[test]
fn announce_response_parsing() {
    let reply = announce_reply();
    let (interval, peers) = parse_announce_response(&reply, 0x11223344).unwrap();
    assert_eq!(interval, 1800);
    assert_eq!(
        peers,
        vec![Peer {
            ip: [10, 0, 0, 1],
            port: 6881,
        }]
    );
    assert_eq!(parse_announce_response(&reply, 0x11223345), None);
    assert_eq!(parse_announce_response(&reply[..19], 0x11223344), None);
}

#[test]
fn announce_outcome_sleeps_interval_or_retries() {
    // a mock tracker answered with interval 1800 and one peer: the loop
    // sleeps 1800 seconds before the next announce
    let reply = announce_reply();
    let (interval, peers) = udp_announce_outcome(Some(&reply), 0x11223344);
    assert_eq!(interval, 1800);
    assert_eq!(peers.len(), 1);

    // no reply within the timeout: retry after the default interval
    let (interval, peers) = udp_announce_outcome(None, 0x11223344);
    assert_eq!(interval, DEFAULT_RETRY_INTERVAL);
    assert!(peers.is_empty());

    // a reply to someone else's transaction: retry too
    let (interval, peers) = udp_announce_outcome(Some(&reply), 0x99999999);
    assert_eq!(interval, DEFAULT_RETRY_INTERVAL);
    assert!(peers.is_empty());
}
