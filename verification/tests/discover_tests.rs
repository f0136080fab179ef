use rustory::discover::{discover_targets, SyncTarget, TrackerAnswer};
use rustory::store::PeerBookPeer;
use rustory::tracker::{PeerInfo, PeerMeta};

fn info(peer_id: &str, addr: &str, user: &str, device: &str) -> PeerInfo {
    PeerInfo {
        peer_id: peer_id.to_string(),
        addrs: vec![addr.to_string()],
        meta: Some(PeerMeta {
            device_id: Some(device.to_string()),
            hostname: None,
            user_id: Some(user.to_string()),
            version: None,
        }),
        last_seen_unix: 100,
    }
}

#[test]
fn discover_targets_falls_back_to_peer_book_when_trackers_fail() {
    let answers = vec![TrackerAnswer { ok: false, peers: vec![] }];
    let book = vec![PeerBookPeer {
        peer_id: "peer-remote".to_string(),
        addrs: vec!["/ip4/127.0.0.1/tcp/1234/p2p/peer-remote".to_string()],
        user_id: Some("u1".to_string()),
        device_id: Some("dev-remote".to_string()),
        last_seen_unix: 100,
    }];

    let got: Vec<SyncTarget> = discover_targets(answers, &book, Some("dev-local"));
    assert_eq!(got.len(), 1);
    assert_eq!(got[0].peer_id, "peer-remote");
    assert_eq!(
        got[0].addrs,
        vec!["/ip4/127.0.0.1/tcp/1234/p2p/peer-remote".to_string()]
    );
}

#[test]
fn discover_unions_trackers_and_drops_duplicates_and_self() {
    let answers = vec![
        TrackerAnswer {
            ok: true,
            peers: vec![
                info("peer-a", "/ip4/10.0.0.1/tcp/1", "u1", "dev-a"),
                info("peer-me", "/ip4/10.0.0.9/tcp/9", "u1", "dev-local"),
            ],
        },
        TrackerAnswer {
            ok: true,
            peers: vec![
                info("peer-a", "/ip4/10.9.9.9/tcp/1", "u1", "dev-a"),
                info("peer-b", "/ip4/10.0.0.2/tcp/2", "u1", "dev-b"),
            ],
        },
    ];
    let book: Vec<PeerBookPeer> = vec![PeerBookPeer {
        peer_id: "peer-stale".to_string(),
        addrs: vec![],
        user_id: None,
        device_id: None,
        last_seen_unix: 1,
    }];

    let got = discover_targets(answers, &book, Some("dev-local"));
    assert_eq!(got.len(), 2);
    assert_eq!(got[0].peer_id, "peer-a");
    // the first tracker's addresses win for a peer listed twice
    assert_eq!(got[0].addrs, vec!["/ip4/10.0.0.1/tcp/1".to_string()]);
    assert_eq!(got[1].peer_id, "peer-b");
    // the book is not consulted when the trackers yielded peers
    assert!(!got.iter().any(|t| t.peer_id == "peer-stale"));
    // and this device itself is never a target
    assert!(!got.iter().any(|t| t.peer_id == "peer-me"));
}

#[test]
fn discover_self_filter_applies_to_the_book_fallback_too() {
    let answers: Vec<TrackerAnswer> = vec![];
    let book = vec![
        PeerBookPeer {
            peer_id: "peer-me".to_string(),
            addrs: vec![],
            user_id: Some("u1".to_string()),
            device_id: Some("dev-local".to_string()),
            last_seen_unix: 100,
        },
        PeerBookPeer {
            peer_id: "peer-b".to_string(),
            addrs: vec![],
            user_id: Some("u1".to_string()),
            device_id: Some("dev-b".to_string()),
            last_seen_unix: 100,
        },
    ];

    let got = discover_targets(answers, &book, Some("dev-local"));
    assert_eq!(got.len(), 1);
    assert_eq!(got[0].peer_id, "peer-b");
}
