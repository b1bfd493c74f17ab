use avoidant::peers::{NetworkEvent, PeerDirectory};
use avoidant::pulses::PulseIds;

fn s(text: &str) -> String {
    text.to_string()
}

#[test]
fn joining_sets_neighbors_and_messages_are_delivered() {
    let mut dir = PeerDirectory::new();
    let me = Some(s("me"));
    let joined = NetworkEvent::Joined { neighbors: vec![s("a"), s("b"), s("a")] };
    assert!(dir.on_event(&joined, 10, &me).is_none());
    let peers = dir.peers();
    assert_eq!(peers.len(), 2);
    assert_eq!(peers[0].endpoint_id, "a");
    assert_eq!(peers[1].endpoint_id, "b");
    assert!(peers.iter().all(|p| p.is_connected && p.nickname.is_none() && p.last_seen_ms.is_none()));

    let msg = NetworkEvent::MessageReceived { from: s("c"), text: s("hello"), nickname: s("Cat") };
    assert_eq!(dir.on_event(&msg, 20, &me), Some((s("c"), s("hello"))));
    let c = dir.peers().into_iter().find(|p| p.endpoint_id == "c").unwrap();
    assert!(c.is_connected);
    assert_eq!(c.nickname, Some(s("Cat")));
    assert_eq!(c.last_seen_ms, Some(20));
}

#[test]
fn own_messages_are_ignored_and_departures_keep_what_was_heard() {
    let mut dir = PeerDirectory::new();
    let me = Some(s("me"));
    let own = NetworkEvent::MessageReceived { from: s("me"), text: s("x"), nickname: s("Me") };
    assert!(dir.on_event(&own, 5, &me).is_none());
    assert!(dir.peers().is_empty());

    let hello = NetworkEvent::Presence { from: s("d"), nickname: s("Dog") };
    assert!(dir.on_event(&hello, 7, &me).is_none());
    let down = NetworkEvent::NeighborDown { endpoint_id: s("d") };
    dir.on_event(&down, 9, &me);
    let d = dir.peers().into_iter().find(|p| p.endpoint_id == "d").unwrap();
    assert!(!d.is_connected);
    assert_eq!(d.nickname, Some(s("Dog")));
    assert_eq!(d.last_seen_ms, Some(7));

    let up = NetworkEvent::NeighborUp { endpoint_id: s("d") };
    dir.on_event(&up, 11, &me);
    assert!(dir.peers().iter().any(|p| p.endpoint_id == "d" && p.is_connected));
    assert!(dir.on_event(&NetworkEvent::Lagged, 12, &me).is_none());
    assert_eq!(dir.peers().len(), 1);
}

#[test]
fn pulse_ids_are_handed_out_in_turn_and_removed_by_id() {
    let mut pulses = PulseIds::new();
    assert_eq!(pulses.add(), 0);
    assert_eq!(pulses.add(), 1);
    assert_eq!(pulses.add(), 2);
    pulses.remove(1);
    assert_eq!(pulses.active, vec![0, 2]);
    pulses.next_id = u32::MAX;
    assert_eq!(pulses.add(), u32::MAX);
    assert_eq!(pulses.next_id, 0);
}

#[test]
fn peers_are_listed_in_endpoint_order() {
    let mut dir = PeerDirectory::new();
    let me = None;
    for id in ["zed", "b", "ab", "a", "b"] {
        dir.on_event(&NetworkEvent::NeighborUp { endpoint_id: s(id) }, 1, &me);
    }
    dir.on_event(&NetworkEvent::NeighborDown { endpoint_id: s("ab") }, 2, &me);
    let ids: Vec<String> = dir.peers().into_iter().map(|p| p.endpoint_id).collect();
    assert_eq!(ids, vec![s("a"), s("ab"), s("b"), s("zed")]);
    assert!(!dir.peers()[1].is_connected);
}
