//! Extraction orchestration: from a decoded level to the node map.
//!
//! The spawn, the sorted chapter anchors, the sorted warp anchors and the
//! optional door anchor each receive a label from their own namespace and
//! their export-space position; the namespaces are disjoint, so the node
//! map's keys never collide.

use vstd::prelude::*;
use crate::codec::entry_ok;
use crate::labels::{
    spawn_label, door_label, dec_digits, alpha_word, spawn_label_bytes, door_label_bytes,
    dec_label, alpha_label, lemma_dec_digits_shape, lemma_alpha_word_shape,
    lemma_dec_digits_injective, lemma_alpha_word_injective, lemma_namespaces_disjoint,
};
use crate::level::{
    Anchor, LevelMap, Element, export_pos, to_export_space, warps, chapters, start_level,
    default_spwan, find_mini_heart_door, warp_id_missing, chapter_id_missing, level_warps,
    level_chapters, room_has_door, is_player, start_room_index,
};
use crate::nodemap::NodeMap;
use crate::{Pos, Failure, coord_ok};

verus! {

/// A key the node map may hold after the first `n_ch` chapters and `n_w`
/// warps are in: the spawn label, a chapter label, a warp label, or, when
/// `door` holds, the door label.
pub open spec fn known_key(k: Seq<u8>, n_ch: int, n_w: int, door: bool) -> bool {
    ||| k == spawn_label()
    ||| exists|c: int| 1 <= c <= n_ch && k == #[trigger] dec_digits(c as nat)
    ||| exists|w: int| 1 <= w <= n_w && k == #[trigger] alpha_word(w as nat)
    ||| (door && k == door_label())
}

/// An anchor whose coordinates the arithmetic below accepts.
pub open spec fn anchor_ok(a: Anchor) -> bool {
    coord_ok(a.pos) && coord_ok(a.room_origin)
}

/// Builds the node map from the extracted anchors: the spawn under its
/// reserved symbol, chapters under decimal labels starting at one in the
/// given order, warps under alphabetic words starting at the alphabet's
/// second word, and the door, when there is one, under its reserved symbol.
/// Every position is the anchor's export-space position.
pub fn build_node_map(
    spawn_export: Pos,
    chs: &Vec<Anchor>,
    ws: &Vec<Anchor>,
    door_export: Option<Pos>,
    mp: &LevelMap,
) -> (r: NodeMap)
    requires
        coord_ok(mp.bounds_origin),
        -3 * crate::COORD_BOUND <= spawn_export.x <= 3 * crate::COORD_BOUND,
        -3 * crate::COORD_BOUND <= spawn_export.y <= 3 * crate::COORD_BOUND,
        door_export matches Some(d) ==> -3 * crate::COORD_BOUND <= d.x <= 3 * crate::COORD_BOUND
            && -3 * crate::COORD_BOUND <= d.y <= 3 * crate::COORD_BOUND,
        forall|k: int| 0 <= k < chs@.len() ==> anchor_ok(#[trigger] chs@[k]),
        forall|k: int| 0 <= k < ws@.len() ==> anchor_ok(#[trigger] ws@[k]),
        chs@.len() <= 0xffff_fffe,
        ws@.len() <= 0xffff_fffe,
    ensures
        r.wf(),
        r.spec_get(spawn_label()) == Some(spawn_export),
        forall|k: int|
            1 <= k <= chs@.len() ==> r.spec_get(dec_digits(k as nat)) == Some(
                export_pos((#[trigger] chs@[k - 1]).pos, chs@[k - 1].room_origin, mp.bounds_origin),
            ),
        forall|k: int|
            0 <= k < ws@.len() ==> r.spec_get(alpha_word((k + 1) as nat)) == Some(
                export_pos((#[trigger] ws@[k]).pos, ws@[k].room_origin, mp.bounds_origin),
            ),
        door_export matches Some(d) ==> r.spec_get(door_label()) == Some(d),
        door_export is None ==> r.spec_get(door_label()) is None,
        r.entries@.len() == 1 + chs@.len() + ws@.len() + (if door_export is Some {
            1int
        } else {
            0int
        }),
        forall|i: int| 0 <= i < r.entries@.len() ==> entry_ok(#[trigger] r.entries@[i]),
{
    let mut nm = NodeMap::new();
    nm.insert(spawn_label_bytes(), spawn_export);
    proof {
        lemma_namespaces_disjoint(0, 0);
        assert(forall|i: int| 0 <= i < nm.entries@.len() ==> entry_ok(#[trigger] nm.entries@[i]));
        assert(forall|k: Seq<u8>| nm.spec_get(k) is Some ==> known_key(k, 0, 0, false));
    }
    let mut i: usize = 0;
    while i < chs.len()
        invariant
            nm.wf(),
            coord_ok(mp.bounds_origin),
            forall|k: int| 0 <= k < chs@.len() ==> anchor_ok(#[trigger] chs@[k]),
            chs@.len() <= 0xffff_fffe,
            0 <= i <= chs@.len(),
            nm.entries@.len() == 1 + i,
            nm.spec_get(spawn_label()) == Some(spawn_export),
            forall|k: int|
                1 <= k <= i ==> nm.spec_get(dec_digits(k as nat)) == Some(
                    export_pos(
                        (#[trigger] chs@[k - 1]).pos,
                        chs@[k - 1].room_origin,
                        mp.bounds_origin,
                    ),
                ),
            forall|k: Seq<u8>| #[trigger] nm.spec_get(k) is Some ==> known_key(
                k,
                i as int,
                0,
                false,
            ),
            forall|j: int| 0 <= j < nm.entries@.len() ==> entry_ok(#[trigger] nm.entries@[j]),
        decreases chs@.len() - i,
    {
        let a = &chs[i];
        let lab = dec_label((i + 1) as u64);
        let ex = to_export_space(a.pos, a.room_origin, mp);
        proof {
            lemma_dec_digits_shape((i + 1) as nat);
            lemma_namespaces_disjoint((i + 1) as nat, 0);
            assert(nm.spec_get(dec_digits((i + 1) as nat)) is None) by {
                if nm.spec_get(dec_digits((i + 1) as nat)) is Some {
                    assert(known_key(dec_digits((i + 1) as nat), i as int, 0, false));
                    if exists|c: int|
                        1 <= c <= i && dec_digits((i + 1) as nat) == #[trigger] dec_digits(c as nat) {
                        let c = choose|c: int|
                            1 <= c <= i && dec_digits((i + 1) as nat) == #[trigger] dec_digits(c as nat);
                        lemma_dec_digits_injective((i + 1) as nat, c as nat);
                    }
                }
            }
        }
        let ghost pre = nm;
        nm.insert(lab, ex);
        proof {
            assert forall|k: int|
                1 <= k <= i + 1 implies nm.spec_get(dec_digits(k as nat)) == Some(
                export_pos(
                    (#[trigger] chs@[k - 1]).pos,
                    chs@[k - 1].room_origin,
                    mp.bounds_origin,
                ),
            ) by {
                if k <= i {
                    lemma_dec_digits_injective(k as nat, (i + 1) as nat);
                }
            }
            assert forall|k: Seq<u8>| #[trigger] nm.spec_get(k) is Some implies known_key(
                k,
                i + 1,
                0,
                false,
            ) by {
                if k != dec_digits((i + 1) as nat) {
                    assert(pre.spec_get(k) == nm.spec_get(k));
                }
            }
            assert forall|j: int| 0 <= j < nm.entries@.len() implies entry_ok(
                #[trigger] nm.entries@[j],
            ) by {
                if !(nm.entries@[j].label@ == lab@ && nm.entries@[j].pos == ex) {
                    assert(pre.entries@.contains(nm.entries@[j]));
                    let w = choose|w: int|
                        0 <= w < pre.entries@.len() && #[trigger] pre.entries@[w] == nm.entries@[j];
                    assert(entry_ok(pre.entries@[w]));
                }
            }
        }
        i = i + 1;
    }
    let ghost n_ch = chs@.len() as int;
    let mut i: usize = 0;
    while i < ws.len()
        invariant
            nm.wf(),
            coord_ok(mp.bounds_origin),
            forall|k: int| 0 <= k < chs@.len() ==> anchor_ok(#[trigger] chs@[k]),
            forall|k: int| 0 <= k < ws@.len() ==> anchor_ok(#[trigger] ws@[k]),
            ws@.len() <= 0xffff_fffe,
            n_ch == chs@.len(),
            0 <= i <= ws@.len(),
            nm.entries@.len() == 1 + n_ch + i,
            nm.spec_get(spawn_label()) == Some(spawn_export),
            forall|k: int|
                1 <= k <= n_ch ==> nm.spec_get(dec_digits(k as nat)) == Some(
                    export_pos(
                        (#[trigger] chs@[k - 1]).pos,
                        chs@[k - 1].room_origin,
                        mp.bounds_origin,
                    ),
                ),
            forall|k: int|
                0 <= k < i ==> nm.spec_get(alpha_word((k + 1) as nat)) == Some(
                    export_pos(
                        (#[trigger] ws@[k]).pos,
                        ws@[k].room_origin,
                        mp.bounds_origin,
                    ),
                ),
            forall|k: Seq<u8>| #[trigger] nm.spec_get(k) is Some ==> known_key(
                k,
                n_ch,
                i as int,
                false,
            ),
            forall|j: int| 0 <= j < nm.entries@.len() ==> entry_ok(#[trigger] nm.entries@[j]),
        decreases ws@.len() - i,
    {
        let a = &ws[i];
        let lab = alpha_label(i as u64);
        let ex = to_export_space(a.pos, a.room_origin, mp);
        proof {
            lemma_alpha_word_shape((i + 1) as nat);
            lemma_namespaces_disjoint(0, (i + 1) as nat);
            assert(nm.spec_get(alpha_word((i + 1) as nat)) is None) by {
                if nm.spec_get(alpha_word((i + 1) as nat)) is Some {
                    assert(known_key(alpha_word((i + 1) as nat), n_ch, i as int, false));
                    if exists|c: int|
                        1 <= c <= n_ch && alpha_word((i + 1) as nat) == #[trigger] dec_digits(c as nat) {
                        let c = choose|c: int|
                            1 <= c <= n_ch && alpha_word((i + 1) as nat) == #[trigger] dec_digits(c as nat);
                        lemma_namespaces_disjoint(c as nat, (i + 1) as nat);
                    }
                    if exists|w: int|
                        1 <= w <= i && alpha_word((i + 1) as nat) == #[trigger] alpha_word(w as nat) {
                        let w = choose|w: int|
                            1 <= w <= i && alpha_word((i + 1) as nat) == #[trigger] alpha_word(w as nat);
                        lemma_alpha_word_injective((i + 1) as nat, w as nat);
                    }
                }
            }
        }
        let ghost pre = nm;
        nm.insert(lab, ex);
        proof {
            assert forall|k: int|
                1 <= k <= n_ch implies nm.spec_get(dec_digits(k as nat)) == Some(
                export_pos(
                    (#[trigger] chs@[k - 1]).pos,
                    chs@[k - 1].room_origin,
                    mp.bounds_origin,
                ),
            ) by {
                lemma_namespaces_disjoint(k as nat, (i + 1) as nat);
            }
            assert forall|k: int|
                0 <= k <= i implies nm.spec_get(alpha_word((k + 1) as nat)) == Some(
                export_pos(
                    (#[trigger] ws@[k]).pos,
                    ws@[k].room_origin,
                    mp.bounds_origin,
                ),
            ) by {
                if k < i {
                    lemma_alpha_word_injective((k + 1) as nat, (i + 1) as nat);
                }
            }
            assert(nm.spec_get(spawn_label()) == Some(spawn_export)) by {
                lemma_namespaces_disjoint(0, (i + 1) as nat);
            }
            assert forall|k: Seq<u8>| #[trigger] nm.spec_get(k) is Some implies known_key(
                k,
                n_ch,
                i + 1,
                false,
            ) by {
                if k != alpha_word((i + 1) as nat) {
                    assert(pre.spec_get(k) == nm.spec_get(k));
                }
            }
            assert forall|j: int| 0 <= j < nm.entries@.len() implies entry_ok(
                #[trigger] nm.entries@[j],
            ) by {
                if !(nm.entries@[j].label@ == lab@ && nm.entries@[j].pos == ex) {
                    assert(pre.entries@.contains(nm.entries@[j]));
                    let w = choose|w: int|
                        0 <= w < pre.entries@.len() && #[trigger] pre.entries@[w] == nm.entries@[j];
                    assert(entry_ok(pre.entries@[w]));
                }
            }
        }
        i = i + 1;
    }
    let ghost n_w = ws@.len() as int;
    proof {
        lemma_namespaces_disjoint(0, 0);
        assert(nm.spec_get(door_label()) is None) by {
            if nm.spec_get(door_label()) is Some {
                assert(known_key(door_label(), n_ch, n_w, false));
                if exists|c: int| 1 <= c <= n_ch && door_label() == #[trigger] dec_digits(c as nat) {
                    let c = choose|c: int| 1 <= c <= n_ch && door_label() == #[trigger] dec_digits(c as nat);
                    lemma_namespaces_disjoint(c as nat, 0);
                }
                if exists|w: int| 1 <= w <= n_w && door_label() == #[trigger] alpha_word(w as nat) {
                    let w = choose|w: int| 1 <= w <= n_w && door_label() == #[trigger] alpha_word(w as nat);
                    lemma_namespaces_disjoint(0, w as nat);
                }
            }
        }
    }
    match door_export {
        None => nm,
        Some(d) => {
            let ghost pre = nm;
            nm.insert(door_label_bytes(), d);
            proof {
                assert forall|k: int|
                    1 <= k <= n_ch implies nm.spec_get(dec_digits(k as nat)) == Some(
                    export_pos(
                        (#[trigger] chs@[k - 1]).pos,
                        chs@[k - 1].room_origin,
                        mp.bounds_origin,
                    ),
                ) by {
                    lemma_namespaces_disjoint(k as nat, 0);
                }
                assert forall|k: int|
                    0 <= k < n_w implies nm.spec_get(alpha_word((k + 1) as nat)) == Some(
                    export_pos(
                        (#[trigger] ws@[k]).pos,
                        ws@[k].room_origin,
                        mp.bounds_origin,
                    ),
                ) by {
                    lemma_namespaces_disjoint(0, (k + 1) as nat);
                }
                assert(nm.spec_get(spawn_label()) == Some(spawn_export)) by {
                    lemma_namespaces_disjoint(0, 0);
                }
                assert forall|j: int| 0 <= j < nm.entries@.len() implies entry_ok(
                    #[trigger] nm.entries@[j],
                ) by {
                    if !(nm.entries@[j].label@ == door_label() && nm.entries@[j].pos == d) {
                        assert(pre.entries@.contains(nm.entries@[j]));
                        let w = choose|w: int|
                            0 <= w < pre.entries@.len() && #[trigger] pre.entries@[w] == nm.entries@[j];
                        assert(entry_ok(pre.entries@[w]));
                    }
                }
            }
            nm
        },
    }
}

/// The start room of the level, resolved through the object tree, has no
/// player entity at all.
pub open spec fn start_spawn_missing(arena: Seq<Element>, mp: LevelMap) -> bool {
    &&& mp.rooms@.len() > 0
    &&& forall|j: int|
        0 <= j < mp.rooms@[start_room_index(arena, mp.rooms@)].entities@.len() ==> !is_player(
            #[trigger] mp.rooms@[start_room_index(arena, mp.rooms@)].entities@[j],
        )
}

/// Extracts the whole node map of a level: resolves the start room, finds
/// the default spawn, collects and sorts the chapter and warp anchors,
/// finds the door anchor, and labels them all.  A level with zero rooms, an
/// anchor without an identifier, or a start room without a player entity is
/// missing data and aborts the extraction; the door anchor alone is
/// optional.
pub fn extract_node_map(mp: &LevelMap, arena: &Vec<Element>) -> (r: Result<NodeMap, Failure>)
    requires
        mp.wf(),
        arena@.len() >= 1,
        level_chapters(mp.rooms@, mp.rooms@.len() as int).len() <= 0xffff_fffe,
        level_warps(mp.rooms@, mp.rooms@.len() as int).len() <= 0xffff_fffe,
    ensures
        r is Err <==> (mp.rooms@.len() == 0 || warp_id_missing(mp.rooms@) || chapter_id_missing(
            mp.rooms@,
        ) || start_spawn_missing(arena@, *mp)),
        r matches Err(f) ==> f == Failure::MissingData,
        r matches Ok(nm) ==> {
            &&& nm.wf()
            &&& forall|i: int| 0 <= i < nm.entries@.len() ==> entry_ok(#[trigger] nm.entries@[i])
            &&& nm.entries@.len() == 1 + level_chapters(mp.rooms@, mp.rooms@.len() as int).len()
                + level_warps(mp.rooms@, mp.rooms@.len() as int).len() + (if (exists|i: int|
                0 <= i < mp.rooms@.len() && room_has_door(#[trigger] mp.rooms@[i])) {
                1int
            } else {
                0int
            })
            &&& nm.spec_get(spawn_label()) is Some
            &&& nm.spec_get(door_label()) is Some <==> exists|i: int|
                0 <= i < mp.rooms@.len() && room_has_door(#[trigger] mp.rooms@[i])
        },
{
    let chs = match chapters(mp) {
        Err(f) => {
            return Err(f);
        },
        Ok(v) => v,
    };
    let ws = match warps(mp) {
        Err(f) => {
            return Err(f);
        },
        Ok(v) => v,
    };
    let start = match start_level(arena, mp) {
        Err(f) => {
            return Err(f);
        },
        Ok(idx) => idx,
    };
    let room = &mp.rooms[start];
    let spawn_idx = match default_spwan(room) {
        Err(f) => {
            return Err(f);
        },
        Ok(j) => j,
    };
    let spawn_pos = room.entities[spawn_idx].pos;
    let spawn_export = to_export_space(spawn_pos, room.origin, mp);
    let door_export = match find_mini_heart_door(mp) {
        None => None,
        Some((ri, ei)) => {
            proof {
                assert(room_has_door(mp.rooms@[ri as int]));
                assert(exists|i: int|
                    0 <= i < mp.rooms@.len() && room_has_door(#[trigger] mp.rooms@[i]));
            }
            let d = &mp.rooms[ri];
            Some(to_export_space(d.entities[ei].pos, d.origin, mp))
        },
    };
    Ok(build_node_map(spawn_export, &chs, &ws, door_export, mp))
}

} // verus!
