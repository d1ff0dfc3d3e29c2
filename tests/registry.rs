use clickrtraining::endpoint::{click_reply, listen_reply, fire_trigger, Reply, HEARTBEAT_MESSAGE, TRIGGER_MESSAGE};
use clickrtraining::registry::Registry;

fn ids(reg: &Registry<u32>, room: &str) -> Option<Vec<u64>> {
    reg.members(room).map(|m| m.iter().map(|c| c.id).collect())
}

#[test]
fn unjoined_room_is_not_found() {
    let mut reg: Registry<u32> = Registry::new();
    for room in ["", "abc", "a room", &"x".repeat(64)] {
        assert_eq!(click_reply(&reg, room), Reply::NotFound);
        assert!(reg.members(room).is_none());
        assert_eq!(fire_trigger(&mut reg, room, &vec![]), Reply::NotFound);
    }
    reg.join("other", String::from("label"), 1);
    assert_eq!(click_reply(&reg, "abc"), Reply::NotFound);
    assert!(!reg.contains("abc"));
}

#[test]
fn joined_member_is_sent_to_and_stays_when_delivered() {
    let mut reg: Registry<u32> = Registry::new();
    let c = reg.join("r", String::from("c"), 7);
    assert_eq!(ids(&reg, "r"), Some(vec![c]));
    assert_eq!(reg.members("r").unwrap()[0].handle, 7);
    assert_eq!(reg.members("r").unwrap()[0].label, "c");
    assert!(reg.settle("r", &vec![]));
    assert_eq!(ids(&reg, "r"), Some(vec![c]));
}

#[test]
fn failed_only_member_removes_room() {
    let mut reg: Registry<u32> = Registry::new();
    let c = reg.join("r", String::from("c"), 7);
    assert!(reg.settle("r", &vec![c]));
    assert!(!reg.contains("r"));
    assert!(reg.room_names().is_empty());
}

#[test]
fn failed_member_leaves_others() {
    let mut reg: Registry<u32> = Registry::new();
    let a = reg.join("r", String::from("a"), 1);
    let b = reg.join("r", String::from("b"), 2);
    let c = reg.join("r", String::from("c"), 3);
    assert!(reg.settle("r", &vec![b]));
    assert_eq!(ids(&reg, "r"), Some(vec![a, c]));
}

#[test]
fn broadcast_to_emptied_room_is_noop() {
    let mut reg: Registry<u32> = Registry::new();
    let c = reg.join("r", String::from("c"), 7);
    assert_eq!(fire_trigger(&mut reg, "r", &vec![c]), Reply::Accepted);
    assert_eq!(fire_trigger(&mut reg, "r", &vec![c]), Reply::NotFound);
    assert!(!reg.settle("r", &vec![]));
    assert!(reg.room_names().is_empty());
}

#[test]
fn many_joins_then_one_broadcast() {
    let mut reg: Registry<u32> = Registry::new();
    let n: u32 = 50;
    let mut joined = Vec::new();
    for k in 0..n {
        joined.push(reg.join("r", format!("c{k}"), k));
    }
    let failed: Vec<u64> = joined.iter().copied().filter(|id| id % 3 == 0).collect();
    assert!(reg.settle("r", &failed));
    let left = ids(&reg, "r").unwrap();
    assert!(left.len() <= n as usize);
    assert_eq!(left.len(), joined.len() - failed.len());
    for id in &left {
        assert!(joined.contains(id));
        assert!(!failed.contains(id));
    }
}

#[test]
fn healthy_and_timed_out_member_scenario() {
    let mut reg: Registry<&str> = Registry::new();
    let a = reg.join("abc", String::from("a"), "A");
    let b = reg.join("abc", String::from("b"), "B");
    let targets: Vec<&str> = reg.members("abc").unwrap().iter().map(|c| c.handle).collect();
    assert_eq!(targets, vec!["A", "B"]);
    assert_eq!(click_reply(&reg, "abc"), Reply::Accepted);
    assert_eq!(fire_trigger(&mut reg, "abc", &vec![b]), Reply::Accepted);
    let left: Vec<u64> = reg.members("abc").unwrap().iter().map(|c| c.id).collect();
    assert_eq!(left, vec![a]);
    assert_eq!(fire_trigger(&mut reg, "abc", &vec![]), Reply::Accepted);
    let left: Vec<u64> = reg.members("abc").unwrap().iter().map(|c| c.id).collect();
    assert_eq!(left, vec![a]);
}

#[test]
fn heartbeat_on_empty_registry() {
    let mut reg: Registry<u32> = Registry::new();
    assert!(reg.room_names().is_empty());
    reg.sweep(&vec![]);
    reg.sweep(&vec![1, 2, 3]);
    assert!(reg.room_names().is_empty());
    assert!(!reg.contains(""));
}

#[test]
fn heartbeat_sweeps_every_room() {
    let mut reg: Registry<u32> = Registry::new();
    let a = reg.join("one", String::from("a"), 1);
    let b = reg.join("two", String::from("b"), 2);
    let c = reg.join("two", String::from("c"), 3);
    let d = reg.join("three", String::from("d"), 4);
    reg.sweep(&vec![a, c]);
    assert!(!reg.contains("one"));
    assert_eq!(ids(&reg, "two"), Some(vec![b]));
    assert_eq!(ids(&reg, "three"), Some(vec![d]));
    let mut names = reg.room_names();
    names.sort();
    assert_eq!(names, vec![String::from("three"), String::from("two")]);
}

#[test]
fn room_id_of_65_characters_is_rejected() {
    let mut reg: Registry<u32> = Registry::new();
    let long = "a".repeat(65);
    reg.join(&long, String::from("x"), 1);
    assert_eq!(listen_reply(&long), Reply::BadRequest);
    assert_eq!(click_reply(&reg, &long), Reply::BadRequest);
    assert_eq!(fire_trigger(&mut reg, &long, &vec![0]), Reply::BadRequest);
    assert!(reg.contains(&long));
    let fits = "a".repeat(64);
    assert_eq!(listen_reply(&fits), Reply::Accepted);
    assert_eq!(listen_reply("é".repeat(33).as_str()), Reply::BadRequest);
    assert_eq!(listen_reply("é".repeat(32).as_str()), Reply::Accepted);
}

#[test]
fn identifiers_are_handed_out_in_turn() {
    let mut reg: Registry<u32> = Registry::new();
    assert_eq!(reg.join("a", String::new(), 0), 0);
    assert_eq!(reg.join("b", String::new(), 0), 1);
    assert_eq!(reg.join("a", String::new(), 0), 2);
    assert_eq!(ids(&reg, "a"), Some(vec![0, 2]));
}

#[test]
fn wire_messages_differ() {
    assert_eq!(TRIGGER_MESSAGE, "c");
    assert_eq!(HEARTBEAT_MESSAGE, "h");
    assert_ne!(TRIGGER_MESSAGE, HEARTBEAT_MESSAGE);
}

#[test]
fn survivors_keep_their_handles() {
    let mut reg: Registry<u32> = Registry::new();
    let _a = reg.join("r", String::from("a"), 10);
    let b = reg.join("r", String::from("b"), 20);
    let _c = reg.join("r", String::from("c"), 30);
    assert!(reg.settle("r", &vec![b]));
    let kept: Vec<(u32, String)> = reg.members("r").unwrap().iter().map(|c| (c.handle, c.label.clone())).collect();
    assert_eq!(kept, vec![(10, String::from("a")), (30, String::from("c"))]);
}

#[test]
fn randomized_joins_and_broadcasts_keep_membership_sound() {
    let mut reg: Registry<u64> = Registry::new();
    let rooms = ["a", "b", "c", "d"];
    let mut state: u64 = 0x2545_f491_4f6c_dd1d;
    let mut next = move || {
        state ^= state << 13;
        state ^= state >> 7;
        state ^= state << 17;
        state
    };
    let mut model: Vec<(String, Vec<u64>)> = Vec::new();
    for _ in 0..2000 {
        let room = rooms[(next() % 4) as usize];
        if next() % 3 != 0 {
            let id = reg.join(room, String::new(), 0);
            match model.iter_mut().find(|(n, _)| n == room) {
                Some((_, m)) => m.push(id),
                None => model.push((room.to_string(), vec![id])),
            }
        } else {
            let members: Vec<u64> = reg.members(room).map(|m| m.iter().map(|c| c.id).collect()).unwrap_or_default();
            let failed: Vec<u64> = members.iter().copied().filter(|_| next() % 2 == 0).collect();
            let existed = reg.settle(room, &failed);
            let pos = model.iter().position(|(n, _)| n == room);
            assert_eq!(existed, pos.is_some());
            if let Some(p) = pos {
                model[p].1.retain(|id| !failed.contains(id));
                if model[p].1.is_empty() {
                    model.remove(p);
                }
            }
        }
        let mut names = reg.room_names();
        names.sort();
        let mut expected: Vec<String> = model.iter().map(|(n, _)| n.clone()).collect();
        expected.sort();
        assert_eq!(names, expected);
        for (n, m) in &model {
            let got: Vec<u64> = reg.members(n).unwrap().iter().map(|c| c.id).collect();
            assert!(!got.is_empty());
            assert_eq!(&got, m);
        }
    }
}

#[test]
fn join_keeps_earlier_members_and_other_rooms() {
    let mut reg: Registry<u32> = Registry::new();
    reg.join("r", String::from("a"), 1);
    reg.join("s", String::from("x"), 9);
    reg.join("r", String::from("b"), 2);
    let r: Vec<(u64, String, u32)> = reg.members("r").unwrap().iter().map(|c| (c.id, c.label.clone(), c.handle)).collect();
    assert_eq!(r, vec![(0, String::from("a"), 1), (2, String::from("b"), 2)]);
    let s: Vec<(u64, String, u32)> = reg.members("s").unwrap().iter().map(|c| (c.id, c.label.clone(), c.handle)).collect();
    assert_eq!(s, vec![(1, String::from("x"), 9)]);
}

#[test]
fn sweep_keeps_survivors_with_their_handles() {
    let mut reg: Registry<u32> = Registry::new();
    let a = reg.join("one", String::from("a"), 10);
    let _b = reg.join("one", String::from("b"), 20);
    let c = reg.join("two", String::from("c"), 30);
    let _d = reg.join("two", String::from("d"), 40);
    reg.sweep(&vec![a, c]);
    let one: Vec<(String, u32)> = reg.members("one").unwrap().iter().map(|x| (x.label.clone(), x.handle)).collect();
    let two: Vec<(String, u32)> = reg.members("two").unwrap().iter().map(|x| (x.label.clone(), x.handle)).collect();
    assert_eq!(one, vec![(String::from("b"), 20)]);
    assert_eq!(two, vec![(String::from("d"), 40)]);
}
