use lobby_graph::codec::{decode, decode_node_map, encode};
use lobby_graph::labels::{alpha_label, dec_label};
use lobby_graph::extract::{build_node_map, extract_node_map};
use lobby_graph::level::{
    chapters, default_spwan, find_mini_heart_door, pos_bounded, pos_in_room, start_level,
    to_export_space, traverse_element, warps, Anchor, Element, Entity, LevelMap, Room, Trigger,
};
use lobby_graph::nodemap::NodeMap;
use lobby_graph::{Failure, Pos};

fn b(s: &str) -> Vec<u8> {
    s.as_bytes().to_vec()
}

fn room(name: &str, origin: Pos) -> Room {
    Room { name: b(name), origin, entities: Vec::new(), triggers: Vec::new() }
}

fn warp(id: i32, x: i64, y: i64) -> Entity {
    Entity {
        name: b("CollabUtils2/LobbyMapWarp"),
        id: Some(id),
        pos: Pos { x, y },
        is_default_spawn: false,
    }
}

fn chapter(id: i32, x: i64, y: i64) -> Trigger {
    Trigger { name: b("CollabUtils2/ChapterPanelTrigger"), id: Some(id), pos: Pos { x, y } }
}

fn player(x: i64, y: i64, default: bool) -> Entity {
    Entity { name: b("player"), id: None, pos: Pos { x, y }, is_default_spawn: default }
}

fn root_only() -> Vec<Element> {
    vec![Element { start_level: None, children: Vec::new() }]
}

#[test]
fn coordinate_transforms_compose() {
    let r = room("a", Pos { x: 7, y: -3 });
    let mp = LevelMap { rooms: vec![], bounds_origin: Pos { x: 2, y: 5 } };
    let in_room = pos_in_room(Pos { x: 10, y: 20 }, &r);
    assert_eq!((in_room.x, in_room.y), (17, 17));
    let bounded = pos_bounded(in_room, &mp);
    assert_eq!((bounded.x, bounded.y), (15, 12));
    let direct = to_export_space(Pos { x: 10, y: 20 }, r.origin, &mp);
    assert_eq!((direct.x, direct.y), (10 + 7 - 2, 20 - 3 - 5));
}

#[test]
fn warps_sort_by_id_distance_room_name() {
    let mut ra = room("b_room", Pos { x: 0, y: 0 });
    ra.entities.push(warp(2, 1, 1));
    ra.entities.push(warp(1, 3, 4));
    let mut rb = room("a_room", Pos { x: 0, y: 0 });
    rb.entities.push(warp(1, 0, 5)); // same id, same squared distance 25
    rb.entities.push(warp(1, 1, 1)); // same id, smaller distance
    let mp = LevelMap { rooms: vec![ra, rb], bounds_origin: Pos { x: 0, y: 0 } };
    let ws = warps(&mp).unwrap();
    let key: Vec<(i32, i64, String)> = ws
        .iter()
        .map(|a| {
            (
                a.id,
                a.pos.x * a.pos.x + a.pos.y * a.pos.y,
                String::from_utf8(a.room_name.clone()).unwrap(),
            )
        })
        .collect();
    assert_eq!(
        key,
        vec![
            (1, 2, "a_room".to_string()),
            (1, 25, "a_room".to_string()),
            (1, 25, "b_room".to_string()),
            (2, 2, "b_room".to_string()),
        ]
    );
}

#[test]
fn warp_without_id_is_missing_data() {
    let mut r = room("a", Pos { x: 0, y: 0 });
    let mut w = warp(1, 0, 0);
    w.id = None;
    r.entities.push(w);
    let mp = LevelMap { rooms: vec![r], bounds_origin: Pos { x: 0, y: 0 } };
    assert!(matches!(warps(&mp), Err(Failure::MissingData)));
}

#[test]
fn chapters_collect_and_sort() {
    let mut r = room("a", Pos { x: 0, y: 0 });
    r.triggers.push(chapter(3, 0, 0));
    r.triggers.push(chapter(1, 0, 0));
    r.triggers.push(chapter(2, 0, 0));
    let mp = LevelMap { rooms: vec![r], bounds_origin: Pos { x: 0, y: 0 } };
    let chs = chapters(&mp).unwrap();
    let ids: Vec<i32> = chs.iter().map(|a| a.id).collect();
    assert_eq!(ids, vec![1, 2, 3]);
}

#[test]
fn door_first_room_wins() {
    let mut ra = room("a", Pos { x: 0, y: 0 });
    ra.entities.push(player(0, 0, false));
    let mut rb = room("b", Pos { x: 0, y: 0 });
    rb.entities.push(Entity {
        name: b("CollabUtils2/MiniHeartDoor"),
        id: None,
        pos: Pos { x: 5, y: 6 },
        is_default_spawn: false,
    });
    let mp = LevelMap { rooms: vec![ra, rb], bounds_origin: Pos { x: 0, y: 0 } };
    assert_eq!(find_mini_heart_door(&mp), Some((1, 0)));
}

#[test]
fn default_spawn_prefers_flagged_player() {
    let mut r = room("a", Pos { x: 0, y: 0 });
    r.entities.push(player(1, 1, false));
    r.entities.push(player(2, 2, true));
    assert_eq!(default_spwan(&r), Ok(1));
    let mut r2 = room("a", Pos { x: 0, y: 0 });
    r2.entities.push(warp(1, 0, 0));
    r2.entities.push(player(1, 1, false));
    assert_eq!(default_spwan(&r2), Ok(1));
    let r3 = room("a", Pos { x: 0, y: 0 });
    assert_eq!(default_spwan(&r3), Err(Failure::MissingData));
}

#[test]
fn traversal_is_breadth_first() {
    // 0 -> (1, 2); 1 -> (3); 2 -> (4)
    let arena = vec![
        Element { start_level: None, children: vec![1, 2] },
        Element { start_level: None, children: vec![3] },
        Element { start_level: None, children: vec![4] },
        Element { start_level: None, children: Vec::new() },
        Element { start_level: None, children: Vec::new() },
    ];
    assert_eq!(traverse_element(&arena), vec![0, 1, 2, 3, 4]);
}

#[test]
fn start_level_resolves_shallowest_attribute() {
    // the root's sibling branch declares the attribute deeper down; the
    // shallower declaration wins
    let arena = vec![
        Element { start_level: None, children: vec![1, 2] },
        Element { start_level: None, children: vec![3] },
        Element { start_level: Some(b("target")), children: Vec::new() },
        Element { start_level: Some(b("other")), children: Vec::new() },
    ];
    let mp = LevelMap {
        rooms: vec![
            room("other", Pos { x: 0, y: 0 }),
            room("target", Pos { x: 0, y: 0 }),
        ],
        bounds_origin: Pos { x: 0, y: 0 },
    };
    assert_eq!(start_level(&arena, &mp), Ok(1));
    // unresolved name falls back to the first room
    let mp2 = LevelMap {
        rooms: vec![room("elsewhere", Pos { x: 0, y: 0 })],
        bounds_origin: Pos { x: 0, y: 0 },
    };
    assert_eq!(start_level(&arena, &mp2), Ok(0));
}

#[test]
fn zero_rooms_abort_extraction() {
    let mp = LevelMap { rooms: vec![], bounds_origin: Pos { x: 0, y: 0 } };
    assert_eq!(start_level(&root_only(), &mp), Err(Failure::MissingData));
    assert!(matches!(extract_node_map(&mp, &root_only()), Err(Failure::MissingData)));
}

#[test]
fn extracted_node_map_has_distinct_sorted_keys() {
    let mut r = room("lobby", Pos { x: 100, y: 200 });
    r.entities.push(player(1, 2, true));
    r.entities.push(warp(1, 10, 10));
    r.entities.push(warp(2, 20, 20));
    r.triggers.push(chapter(1, 30, 30));
    r.entities.push(Entity {
        name: b("CollabUtils2/MiniHeartDoor"),
        id: None,
        pos: Pos { x: 40, y: 40 },
        is_default_spawn: false,
    });
    let mp = LevelMap { rooms: vec![r], bounds_origin: Pos { x: 50, y: 60 } };
    let nm = extract_node_map(&mp, &root_only()).unwrap();
    // spawn + 1 chapter + 2 warps + door
    assert_eq!(nm.len(), 5);
    let labels: Vec<Vec<u8>> = nm.entries.iter().map(|e| e.label.clone()).collect();
    for i in 0..labels.len() {
        for j in 0..labels.len() {
            if i != j {
                assert_ne!(labels[i], labels[j]);
            }
        }
        if i + 1 < labels.len() {
            assert!(labels[i] < labels[i + 1]);
        }
    }
    // spawn at (1 + 100 - 50, 2 + 200 - 60)
    assert_eq!(nm.get(&b("\u{21ba}")), Some(Pos { x: 51, y: 142 }));
    assert_eq!(nm.get(&b("1")), Some(Pos { x: 80, y: 170 }));
    assert_eq!(nm.get(&b("B")), Some(Pos { x: 60, y: 150 }));
    assert_eq!(nm.get(&b("C")), Some(Pos { x: 70, y: 160 }));
    assert_eq!(nm.get(&b("\u{2665}")), Some(Pos { x: 90, y: 180 }));
    // the extracted map survives one persistence round trip unchanged
    let text = encode(&nm);
    let back = decode(&text).unwrap();
    assert_eq!(back.len(), nm.len());
    for e in &nm.entries {
        assert_eq!(back.get(&e.label), Some(e.pos));
    }
}

#[test]
fn label_allocation_formulas() {
    assert_eq!(dec_label(1), b("1"));
    assert_eq!(dec_label(12), b("12"));
    assert_eq!(dec_label(105), b("105"));
    assert_eq!(alpha_label(0), b("B"));
    assert_eq!(alpha_label(24), b("Z"));
    assert_eq!(alpha_label(25), b("AA"));
    assert_eq!(alpha_label(26), b("AB"));
    assert_eq!(alpha_label(50), b("AZ"));
    assert_eq!(alpha_label(51), b("BA"));
}

#[test]
fn build_node_map_labels_warps_from_second_word() {
    let mp = LevelMap { rooms: vec![], bounds_origin: Pos { x: 0, y: 0 } };
    let mk = |id: i32, x: i64| Anchor {
        id,
        pos: Pos { x, y: 0 },
        room_origin: Pos { x: 0, y: 0 },
        room_name: b("a"),
    };
    let ws: Vec<Anchor> = (0..27).map(|i| mk(i, i as i64)).collect();
    let nm = build_node_map(Pos { x: 0, y: 0 }, &Vec::new(), &ws, None, &mp);
    assert_eq!(nm.get(&b("A")), None);
    assert_eq!(nm.get(&b("B")), Some(Pos { x: 0, y: 0 }));
    assert_eq!(nm.get(&b("Z")), Some(Pos { x: 24, y: 0 }));
    assert_eq!(nm.get(&b("AA")), Some(Pos { x: 25, y: 0 }));
    assert_eq!(nm.get(&b("AB")), Some(Pos { x: 26, y: 0 }));
    assert_eq!(nm.get(&b("\u{2665}")), None);
}

#[test]
fn node_map_insert_replaces_and_sorts() {
    let mut nm = NodeMap::new();
    nm.insert(b("b"), Pos { x: 1, y: 1 });
    nm.insert(b("a"), Pos { x: 2, y: 2 });
    nm.insert(b("b"), Pos { x: 3, y: 3 });
    assert_eq!(nm.len(), 2);
    assert_eq!(nm.get(&b("a")), Some(Pos { x: 2, y: 2 }));
    assert_eq!(nm.get(&b("b")), Some(Pos { x: 3, y: 3 }));
    assert_eq!(nm.entries[0].label, b("a"));
    assert_eq!(nm.entries[1].label, b("b"));
}

#[test]
fn encode_decode_round_trip() {
    let mut nm = NodeMap::new();
    nm.insert(b("\u{21ba}"), Pos { x: 51, y: 142 });
    nm.insert(b("1"), Pos { x: -80, y: 0 });
    nm.insert(b("B"), Pos { x: 60, y: 150 });
    let text = encode(&nm);
    assert_eq!(
        String::from_utf8(text.clone()).unwrap(),
        "{\"1\":[-80,0],\"B\":[60,150],\"\u{21ba}\":[51,142]}"
    );
    let back = decode(&text).unwrap();
    assert_eq!(back.len(), 3);
    assert_eq!(back.get(&b("1")), Some(Pos { x: -80, y: 0 }));
    assert_eq!(back.get(&b("B")), Some(Pos { x: 60, y: 150 }));
    assert_eq!(back.get(&b("\u{21ba}")), Some(Pos { x: 51, y: 142 }));
    // an empty map round-trips too
    let empty = NodeMap::new();
    let etext = encode(&empty);
    assert_eq!(String::from_utf8(etext.clone()).unwrap(), "{}");
    assert_eq!(decode(&etext).unwrap().len(), 0);
}

#[test]
fn decode_accepts_any_key_order_and_overrides_duplicates() {
    let nm = decode(&b("{\"b\":[1,2],\"a\":[3,4],\"b\":[5,6]}")).unwrap();
    assert_eq!(nm.len(), 2);
    assert_eq!(nm.get(&b("a")), Some(Pos { x: 3, y: 4 }));
    assert_eq!(nm.get(&b("b")), Some(Pos { x: 5, y: 6 }));
    assert_eq!(nm.entries[0].label, b("a"));
}

#[test]
fn decode_rejects_malformed_text() {
    assert!(decode(&b("")).is_none());
    assert!(decode(&b("{")).is_none());
    assert!(decode(&b("[]")).is_none());
    assert!(decode(&b("{\"a\":[1,2]")).is_none());
    assert!(decode(&b("{\"a\":[1,2]} ")).is_none());
    assert!(decode(&b("{\"a\":[1]}")).is_none());
    assert!(decode(&b("{\"a\":[x,2]}")).is_none());
    assert!(decode(&b("{\"a\":[99999999999999999999,2]}")).is_none());
    assert!(matches!(decode_node_map(&b("{")), Err(Failure::MalformedInput)));
}

#[test]
fn decode_agrees_with_generic_json_writer() {
    let mut m = std::collections::BTreeMap::new();
    m.insert("START".to_string(), [0i64, 0]);
    m.insert("1".to_string(), [100i64, 0]);
    let text = serde_json::to_string(&m).unwrap();
    let nm = decode(&text.into_bytes()).unwrap();
    assert_eq!(nm.get(&b("START")), Some(Pos { x: 0, y: 0 }));
    assert_eq!(nm.get(&b("1")), Some(Pos { x: 100, y: 0 }));
}
