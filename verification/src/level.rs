//! The level model and graph extraction.
//!
//! A decoded level is held as plain values: rooms with integer origins and
//! entity/trigger lists, plus the raw object tree flattened into an arena.
//! Extraction walks this model to find the default spawn, chapter anchors,
//! warp anchors and the door anchor, with a total tie-break order so the
//! result is reproducible.

use vstd::prelude::*;
use crate::bytes::{lex_lt, lemma_lex_irrefl, lemma_lex_total, lemma_lex_trans, bytes_lt, bytes_eq, clone_bytes};
use crate::{Pos, Failure, coord_ok};

verus! {

/// A placed object of a room: a spawn point, a warp marker, a door marker.
pub struct Entity {
    /// Kind name, UTF-8 bytes.
    pub name: Vec<u8>,
    /// Numeric identifier, if the level file carries one.
    pub id: Option<i32>,
    /// Room-local position.
    pub pos: Pos,
    /// Whether a player entity is flagged as the default spawn.
    pub is_default_spawn: bool,
}

/// A trigger region of a room; chapter panels are triggers.
pub struct Trigger {
    /// Kind name, UTF-8 bytes.
    pub name: Vec<u8>,
    /// Numeric identifier, if the level file carries one.
    pub id: Option<i32>,
    /// Room-local position.
    pub pos: Pos,
}

/// A rectangular sub-region of the level with its own coordinate origin.
pub struct Room {
    /// Room name, UTF-8 bytes.
    pub name: Vec<u8>,
    /// Origin of the room in map space.
    pub origin: Pos,
    pub entities: Vec<Entity>,
    pub triggers: Vec<Trigger>,
}

/// A decoded level: its rooms and the origin of its bounding box.
pub struct LevelMap {
    pub rooms: Vec<Room>,
    /// Origin of the bounding box enclosing all rooms.
    pub bounds_origin: Pos,
}

/// A node of the raw object tree, flattened into an arena: index 0 is the
/// root, and children are arena indices of strictly larger value.
pub struct Element {
    /// Value of the start-level attribute, where the node carries one.
    pub start_level: Option<Vec<u8>>,
    /// Arena indices of the children, in document order.
    pub children: Vec<usize>,
}

/// A discovered anchor: its identifier, room-local position, and the owning
/// room's origin and name.
pub struct Anchor {
    pub id: i32,
    pub pos: Pos,
    pub room_origin: Pos,
    pub room_name: Vec<u8>,
}

/// Mathematical image of an [`Anchor`].
#[verifier::ext_equal]
pub ghost struct AnchorV {
    pub id: int,
    pub pos: Pos,
    pub room_origin: Pos,
    pub room_name: Seq<u8>,
}

impl View for Anchor {
    type V = AnchorV;

    open spec fn view(&self) -> AnchorV {
        AnchorV {
            id: self.id as int,
            pos: self.pos,
            room_origin: self.room_origin,
            room_name: self.room_name@,
        }
    }
}

/// Views of a sequence of anchors.
pub open spec fn views(s: Seq<Anchor>) -> Seq<AnchorV> {
    s.map_values(|a: Anchor| a@)
}

/// Kind name of a warp marker entity.
pub open spec fn warp_name() -> Seq<u8> {
    seq![
        0x43u8, 0x6f, 0x6c, 0x6c, 0x61, 0x62, 0x55, 0x74, 0x69, 0x6c, 0x73, 0x32, 0x2f, 0x4c,
        0x6f, 0x62, 0x62, 0x79, 0x4d, 0x61, 0x70, 0x57, 0x61, 0x72, 0x70,
    ]
}

/// Kind name of a chapter panel trigger.
pub open spec fn chapter_name() -> Seq<u8> {
    seq![
        0x43u8, 0x6f, 0x6c, 0x6c, 0x61, 0x62, 0x55, 0x74, 0x69, 0x6c, 0x73, 0x32, 0x2f, 0x43,
        0x68, 0x61, 0x70, 0x74, 0x65, 0x72, 0x50, 0x61, 0x6e, 0x65, 0x6c, 0x54, 0x72, 0x69,
        0x67, 0x67, 0x65, 0x72,
    ]
}

/// Kind name of the door marker entity.
pub open spec fn door_name() -> Seq<u8> {
    seq![
        0x43u8, 0x6f, 0x6c, 0x6c, 0x61, 0x62, 0x55, 0x74, 0x69, 0x6c, 0x73, 0x32, 0x2f, 0x4d,
        0x69, 0x6e, 0x69, 0x48, 0x65, 0x61, 0x72, 0x74, 0x44, 0x6f, 0x6f, 0x72,
    ]
}

/// Kind name of a player spawn entity.
pub open spec fn player_name() -> Seq<u8> {
    seq![0x70u8, 0x6c, 0x61, 0x79, 0x65, 0x72]
}

/// Kind name of a warp marker entity, as bytes.
pub fn warp_name_bytes() -> (r: Vec<u8>)
    ensures
        r@ == warp_name(),
{
    let r: Vec<u8> = vec![
        0x43u8, 0x6f, 0x6c, 0x6c, 0x61, 0x62, 0x55, 0x74, 0x69, 0x6c, 0x73, 0x32, 0x2f, 0x4c,
        0x6f, 0x62, 0x62, 0x79, 0x4d, 0x61, 0x70, 0x57, 0x61, 0x72, 0x70,
    ];
    assert(r@ =~= warp_name());
    r
}

/// Kind name of a chapter panel trigger, as bytes.
pub fn chapter_name_bytes() -> (r: Vec<u8>)
    ensures
        r@ == chapter_name(),
{
    let r: Vec<u8> = vec![
        0x43u8, 0x6f, 0x6c, 0x6c, 0x61, 0x62, 0x55, 0x74, 0x69, 0x6c, 0x73, 0x32, 0x2f, 0x43,
        0x68, 0x61, 0x70, 0x74, 0x65, 0x72, 0x50, 0x61, 0x6e, 0x65, 0x6c, 0x54, 0x72, 0x69,
        0x67, 0x67, 0x65, 0x72,
    ];
    assert(r@ =~= chapter_name());
    r
}

/// Kind name of the door marker entity, as bytes.
pub fn door_name_bytes() -> (r: Vec<u8>)
    ensures
        r@ == door_name(),
{
    let r: Vec<u8> = vec![
        0x43u8, 0x6f, 0x6c, 0x6c, 0x61, 0x62, 0x55, 0x74, 0x69, 0x6c, 0x73, 0x32, 0x2f, 0x4d,
        0x69, 0x6e, 0x69, 0x48, 0x65, 0x61, 0x72, 0x74, 0x44, 0x6f, 0x6f, 0x72,
    ];
    assert(r@ =~= door_name());
    r
}

/// Kind name of a player spawn entity, as bytes.
pub fn player_name_bytes() -> (r: Vec<u8>)
    ensures
        r@ == player_name(),
{
    let r: Vec<u8> = vec![0x70u8, 0x6c, 0x61, 0x79, 0x65, 0x72];
    assert(r@ =~= player_name());
    r
}

impl Room {
    /// All coordinates of the room are bounded.
    pub open spec fn wf(self) -> bool {
        &&& coord_ok(self.origin)
        &&& forall|i: int| 0 <= i < self.entities@.len() ==> coord_ok(
            #[trigger] self.entities@[i].pos,
        )
        &&& forall|i: int| 0 <= i < self.triggers@.len() ==> coord_ok(
            #[trigger] self.triggers@[i].pos,
        )
    }
}

impl LevelMap {
    /// All coordinates of the level are bounded.
    pub open spec fn wf(self) -> bool {
        &&& coord_ok(self.bounds_origin)
        &&& forall|i: int| 0 <= i < self.rooms@.len() ==> (#[trigger] self.rooms@[i]).wf()
    }
}

/// Translates a room-local position into map space by adding the room origin.
pub fn pos_in_room(pos: Pos, room: &Room) -> (r: Pos)
    requires
        coord_ok(pos),
        coord_ok(room.origin),
    ensures
        r.x == pos.x + room.origin.x,
        r.y == pos.y + room.origin.y,
{
    Pos { x: pos.x + room.origin.x, y: pos.y + room.origin.y }
}

/// Translates a map-space position into export space by subtracting the
/// origin of the level's bounding box.
pub fn pos_bounded(pos: Pos, mp: &LevelMap) -> (r: Pos)
    requires
        -2 * COORD_BOUND <= pos.x <= 2 * COORD_BOUND,
        -2 * COORD_BOUND <= pos.y <= 2 * COORD_BOUND,
        coord_ok(mp.bounds_origin),
    ensures
        r.x == pos.x - mp.bounds_origin.x,
        r.y == pos.y - mp.bounds_origin.y,
{
    Pos { x: pos.x - mp.bounds_origin.x, y: pos.y - mp.bounds_origin.y }
}

/// The export-space position of room-local `pos`: room origin added, the
/// level bounding-box origin subtracted.
pub open spec fn export_pos(pos: Pos, room_origin: Pos, bounds_origin: Pos) -> Pos {
    Pos {
        x: (pos.x + room_origin.x - bounds_origin.x) as i64,
        y: (pos.y + room_origin.y - bounds_origin.y) as i64,
    }
}

/// Composition of the two coordinate transforms, the form every persisted
/// position takes: room-local position plus room origin minus bounding-box
/// origin, in each component.
pub fn to_export_space(pos: Pos, room_origin: Pos, mp: &LevelMap) -> (r: Pos)
    requires
        coord_ok(pos),
        coord_ok(room_origin),
        coord_ok(mp.bounds_origin),
    ensures
        r == export_pos(pos, room_origin, mp.bounds_origin),
        r.x == pos.x + room_origin.x - mp.bounds_origin.x,
        r.y == pos.y + room_origin.y - mp.bounds_origin.y,
{
    Pos {
        x: pos.x + room_origin.x - mp.bounds_origin.x,
        y: pos.y + room_origin.y - mp.bounds_origin.y,
    }
}

use crate::COORD_BOUND;

/// The anchor an entity or trigger contributes, given its unwrapped id.
pub open spec fn anchor_v(id: int, pos: Pos, room: Room) -> AnchorV {
    AnchorV { id: id, pos: pos, room_origin: room.origin, room_name: room.name@ }
}

/// Warp anchors of a prefix of a room's entity list, in list order.
pub open spec fn room_warps(room: Room, n: int) -> Seq<AnchorV>
    decreases n,
{
    if n <= 0 {
        Seq::empty()
    } else {
        let rest = room_warps(room, n - 1);
        let e = room.entities@[n - 1];
        if e.name@ == warp_name() {
            rest + seq![anchor_v(e.id.unwrap() as int, e.pos, room)]
        } else {
            rest
        }
    }
}

/// Warp anchors of a prefix of the room list, in room order.
pub open spec fn level_warps(rooms: Seq<Room>, n: int) -> Seq<AnchorV>
    decreases n,
{
    if n <= 0 {
        Seq::empty()
    } else {
        level_warps(rooms, n - 1) + room_warps(rooms[n - 1], rooms[n - 1].entities@.len() as int)
    }
}

/// Chapter anchors of a prefix of a room's trigger list, in list order.
pub open spec fn room_chapters(room: Room, n: int) -> Seq<AnchorV>
    decreases n,
{
    if n <= 0 {
        Seq::empty()
    } else {
        let rest = room_chapters(room, n - 1);
        let t = room.triggers@[n - 1];
        if t.name@ == chapter_name() {
            rest + seq![anchor_v(t.id.unwrap() as int, t.pos, room)]
        } else {
            rest
        }
    }
}

/// Chapter anchors of a prefix of the room list, in room order.
pub open spec fn level_chapters(rooms: Seq<Room>, n: int) -> Seq<AnchorV>
    decreases n,
{
    if n <= 0 {
        Seq::empty()
    } else {
        level_chapters(rooms, n - 1) + room_chapters(
            rooms[n - 1],
            rooms[n - 1].triggers@.len() as int,
        )
    }
}

/// Some warp marker in the level lacks an identifier.
pub open spec fn warp_id_missing(rooms: Seq<Room>) -> bool {
    exists|i: int, j: int|
        0 <= i < rooms.len() && 0 <= j < rooms[i].entities@.len()
            && (#[trigger] rooms[i].entities@[j]).name@ == warp_name()
            && rooms[i].entities@[j].id is None
}

/// Some chapter panel in the level lacks an identifier.
pub open spec fn chapter_id_missing(rooms: Seq<Room>) -> bool {
    exists|i: int, j: int|
        0 <= i < rooms.len() && 0 <= j < rooms[i].triggers@.len()
            && (#[trigger] rooms[i].triggers@[j]).name@ == chapter_name()
            && rooms[i].triggers@[j].id is None
}

/// Collects the level's warp anchors in room-traversal order, unsorted.
/// Fails when a warp marker lacks an identifier; that is never defaulted.
fn collect_warps(mp: &LevelMap) -> (r: Result<Vec<Anchor>, Failure>)
    requires
        mp.wf(),
    ensures
        r matches Ok(v) ==> forall|k: int|
            0 <= k < v@.len() ==> coord_ok((#[trigger] v@[k]).pos) && coord_ok(
                v@[k].room_origin,
            ),
        r is Err <==> warp_id_missing(mp.rooms@),
        r matches Err(f) ==> f == Failure::MissingData,
        r matches Ok(v) ==> views(v@) == level_warps(mp.rooms@, mp.rooms@.len() as int),
{
    let mut out: Vec<Anchor> = Vec::new();
    let mut i: usize = 0;
    while i < mp.rooms.len()
        invariant
            0 <= i <= mp.rooms@.len(),
            mp.wf(),
            forall|k: int|
                0 <= k < out@.len() ==> coord_ok((#[trigger] out@[k]).pos) && coord_ok(
                    out@[k].room_origin,
                ),
            views(out@) == level_warps(mp.rooms@, i as int),
            forall|a: int, b: int|
                0 <= a < i && 0 <= b < mp.rooms@[a].entities@.len() ==> !((
                #[trigger] mp.rooms@[a].entities@[b]).name@ == warp_name() && mp.rooms@[a].entities@[b].id
                    is None),
        decreases mp.rooms@.len() - i,
    {
        let room = &mp.rooms[i];
        let wn = warp_name_bytes();
        let mut j: usize = 0;
        while j < room.entities.len()
            invariant
                0 <= j <= room.entities@.len(),
                mp.wf(),
                forall|k: int|
                0 <= k < out@.len() ==> coord_ok((#[trigger] out@[k]).pos) && coord_ok(
                    out@[k].room_origin,
                ),
                room == mp.rooms@[i as int],
                0 <= i < mp.rooms@.len(),
                wn@ == warp_name(),
                views(out@) == level_warps(mp.rooms@, i as int) + room_warps(*room, j as int),
                forall|b: int|
                    0 <= b < j ==> !((#[trigger] room.entities@[b]).name@ == warp_name()
                        && room.entities@[b].id is None),
            decreases room.entities@.len() - j,
        {
            let e = &room.entities[j];
            if bytes_eq(&e.name, &wn) {
                match e.id {
                    None => {
                        return Err(Failure::MissingData);
                    },
                    Some(id) => {
                        let a = Anchor {
                            id: id,
                            pos: e.pos,
                            room_origin: room.origin,
                            room_name: clone_bytes(&room.name),
                        };
                        proof {
                            assert(a@ == anchor_v(e.id.unwrap() as int, e.pos, mp.rooms@[i as int]));
                        }
                        let ghost pre = out@;
                        out.push(a);
                        proof {
                            assert(out@ =~= pre.push(a));
                            assert(room_warps(*room, j + 1) =~~= room_warps(*room, j as int)
                                + seq![anchor_v(e.id.unwrap() as int, e.pos, *room)]);
                            assert(views(out@) =~~= views(pre) + seq![a@]);
                            assert(*room == mp.rooms@[i as int]);
                            assert(a@ =~~= anchor_v(e.id.unwrap() as int, e.pos, *room));
                            assert(views(out@) =~~= level_warps(mp.rooms@, i as int)
                                + room_warps(*room, j + 1));
                        }
                    },
                }
            } else {
                proof {
                    assert(views(out@) =~= level_warps(mp.rooms@, i as int) + room_warps(
                        *room,
                        j + 1,
                    ));
                }
            }
            j = j + 1;
        }
        proof {
            assert(views(out@) =~= level_warps(mp.rooms@, i + 1));
        }
        i = i + 1;
    }
    Ok(out)
}

/// Collects the level's chapter anchors in room-traversal order, unsorted.
/// Fails when a chapter panel lacks an identifier; that is never defaulted.
fn collect_chapters(mp: &LevelMap) -> (r: Result<Vec<Anchor>, Failure>)
    requires
        mp.wf(),
    ensures
        r matches Ok(v) ==> forall|k: int|
            0 <= k < v@.len() ==> coord_ok((#[trigger] v@[k]).pos) && coord_ok(
                v@[k].room_origin,
            ),
        r is Err <==> chapter_id_missing(mp.rooms@),
        r matches Err(f) ==> f == Failure::MissingData,
        r matches Ok(v) ==> views(v@) == level_chapters(mp.rooms@, mp.rooms@.len() as int),
{
    let mut out: Vec<Anchor> = Vec::new();
    let mut i: usize = 0;
    while i < mp.rooms.len()
        invariant
            0 <= i <= mp.rooms@.len(),
            mp.wf(),
            forall|k: int|
                0 <= k < out@.len() ==> coord_ok((#[trigger] out@[k]).pos) && coord_ok(
                    out@[k].room_origin,
                ),
            views(out@) == level_chapters(mp.rooms@, i as int),
            forall|a: int, b: int|
                0 <= a < i && 0 <= b < mp.rooms@[a].triggers@.len() ==> !((
                #[trigger] mp.rooms@[a].triggers@[b]).name@ == chapter_name()
                    && mp.rooms@[a].triggers@[b].id is None),
        decreases mp.rooms@.len() - i,
    {
        let room = &mp.rooms[i];
        let cn = chapter_name_bytes();
        let mut j: usize = 0;
        while j < room.triggers.len()
            invariant
                0 <= j <= room.triggers@.len(),
                mp.wf(),
                forall|k: int|
                0 <= k < out@.len() ==> coord_ok((#[trigger] out@[k]).pos) && coord_ok(
                    out@[k].room_origin,
                ),
                room == mp.rooms@[i as int],
                0 <= i < mp.rooms@.len(),
                cn@ == chapter_name(),
                views(out@) == level_chapters(mp.rooms@, i as int) + room_chapters(
                    *room,
                    j as int,
                ),
                forall|b: int|
                    0 <= b < j ==> !((#[trigger] room.triggers@[b]).name@ == chapter_name()
                        && room.triggers@[b].id is None),
            decreases room.triggers@.len() - j,
        {
            let t = &room.triggers[j];
            if bytes_eq(&t.name, &cn) {
                match t.id {
                    None => {
                        return Err(Failure::MissingData);
                    },
                    Some(id) => {
                        let a = Anchor {
                            id: id,
                            pos: t.pos,
                            room_origin: room.origin,
                            room_name: clone_bytes(&room.name),
                        };
                        proof {
                            assert(a@ == anchor_v(t.id.unwrap() as int, t.pos, mp.rooms@[i as int]));
                        }
                        let ghost pre = out@;
                        out.push(a);
                        proof {
                            assert(out@ =~= pre.push(a));
                            assert(room_chapters(*room, j + 1) =~~= room_chapters(*room, j as int)
                                + seq![anchor_v(t.id.unwrap() as int, t.pos, *room)]);
                            assert(views(out@) =~~= views(pre) + seq![a@]);
                            assert(*room == mp.rooms@[i as int]);
                            assert(a@ =~~= anchor_v(t.id.unwrap() as int, t.pos, *room));
                            assert(views(out@) =~~= level_chapters(mp.rooms@, i as int)
                                + room_chapters(*room, j + 1));
                        }
                    },
                }
            } else {
                proof {
                    assert(views(out@) =~= level_chapters(mp.rooms@, i as int) + room_chapters(
                        *room,
                        j + 1,
                    ));
                }
            }
            j = j + 1;
        }
        proof {
            assert(views(out@) =~= level_chapters(mp.rooms@, i + 1));
        }
        i = i + 1;
    }
    Ok(out)
}


/// Squared distance of an anchor's room-local position from the room origin.
pub open spec fn sq_dist(a: AnchorV) -> int {
    a.pos.x * a.pos.x + a.pos.y * a.pos.y
}

/// The extraction order on anchors: ascending identifier, then squared
/// distance from the room-local origin, then the owning room's name.
pub open spec fn anchor_le(a: AnchorV, b: AnchorV) -> bool {
    if a.id != b.id {
        a.id < b.id
    } else if sq_dist(a) != sq_dist(b) {
        sq_dist(a) < sq_dist(b)
    } else {
        !lex_lt(b.room_name, a.room_name)
    }
}

/// The sequence is ordered by the extraction order.
pub open spec fn anchors_sorted(s: Seq<AnchorV>) -> bool {
    forall|i: int, j: int| 0 <= i < j < s.len() ==> anchor_le(#[trigger] s[i], #[trigger] s[j])
}

/// Any two anchors are comparable: the extraction order leaves no ties
/// unresolved, which is what makes extraction reproducible.
pub proof fn lemma_anchor_le_total(a: AnchorV, b: AnchorV)
    ensures
        anchor_le(a, b) || anchor_le(b, a),
{
    lemma_lex_total(a.room_name, b.room_name);
    lemma_lex_irrefl(a.room_name);
    if lex_lt(a.room_name, b.room_name) && lex_lt(b.room_name, a.room_name) {
        lemma_lex_trans(a.room_name, b.room_name, a.room_name);
    }
}

/// The extraction order is transitive.
pub proof fn lemma_anchor_le_trans(a: AnchorV, b: AnchorV, c: AnchorV)
    requires
        anchor_le(a, b),
        anchor_le(b, c),
    ensures
        anchor_le(a, c),
{
    if a.id == c.id && sq_dist(a) == sq_dist(c) {
        if lex_lt(c.room_name, a.room_name) {
            lemma_lex_total(a.room_name, b.room_name);
            lemma_lex_total(b.room_name, c.room_name);
            if a.room_name == b.room_name {
            } else if b.room_name == c.room_name {
            } else {
                lemma_lex_trans(a.room_name, b.room_name, c.room_name);
                lemma_lex_trans(c.room_name, a.room_name, b.room_name);
            }
            lemma_lex_irrefl(a.room_name);
            lemma_lex_irrefl(b.room_name);
        }
    }
}

/// Coordinates this small square and sum without overflowing.
proof fn lemma_sq_bound(x: int)
    by (nonlinear_arith)
    requires
        -0x2000_0000 <= x <= 0x2000_0000,
    ensures
        0 <= x * x <= 0x0400_0000_0000_0000,
{
}

/// Decides the extraction order between two anchors.
fn anchor_le_exec(a: &Anchor, b: &Anchor) -> (r: bool)
    requires
        coord_ok(a.pos),
        coord_ok(b.pos),
    ensures
        r == anchor_le(a@, b@),
{
    if a.id != b.id {
        return a.id < b.id;
    }
    proof {
        lemma_sq_bound(a.pos.x as int);
        lemma_sq_bound(a.pos.y as int);
        lemma_sq_bound(b.pos.x as int);
        lemma_sq_bound(b.pos.y as int);
    }
    let sa = a.pos.x * a.pos.x + a.pos.y * a.pos.y;
    let sb = b.pos.x * b.pos.x + b.pos.y * b.pos.y;
    if sa != sb {
        return sa < sb;
    }
    !bytes_lt(&b.room_name, &a.room_name)
}

/// Sorts anchors by the extraction order; the result is a permutation of the
/// input.  The sort is the tie-break of the extraction pipeline.
pub fn sort_anchors(input: Vec<Anchor>) -> (r: Vec<Anchor>)
    requires
        forall|k: int|
            0 <= k < input@.len() ==> coord_ok((#[trigger] input@[k]).pos) && coord_ok(
                input@[k].room_origin,
            ),
    ensures
        anchors_sorted(views(r@)),
        views(r@).to_multiset() == views(input@).to_multiset(),
        forall|k: int|
            0 <= k < r@.len() ==> coord_ok((#[trigger] r@[k]).pos) && coord_ok(
                r@[k].room_origin,
            ),
        r@.len() == input@.len(),
{
    broadcast use vstd::seq_lib::to_multiset_insert;
    broadcast use vstd::seq_lib::to_multiset_remove;
    broadcast use vstd::seq_lib::group_to_multiset_ensures;
    broadcast use vstd::multiset::group_multiset_axioms;

    let mut v = input;
    let mut out: Vec<Anchor> = Vec::new();
    proof {
        assert(views(out@) =~= Seq::<AnchorV>::empty());
        assert(views(out@).to_multiset() =~= vstd::multiset::Multiset::<AnchorV>::empty());
        assert(views(v@).to_multiset().add(views(out@).to_multiset()) =~= views(
            input@,
        ).to_multiset());
    }
    while v.len() > 0
        invariant
            anchors_sorted(views(out@)),
            views(v@).to_multiset().add(views(out@).to_multiset()) == views(
                input@,
            ).to_multiset(),
            forall|k: int|
                0 <= k < v@.len() ==> coord_ok((#[trigger] v@[k]).pos) && coord_ok(
                    v@[k].room_origin,
                ),
            forall|k: int|
                0 <= k < out@.len() ==> coord_ok((#[trigger] out@[k]).pos) && coord_ok(
                    out@[k].room_origin,
                ),
            v@.len() + out@.len() == input@.len(),
        decreases v@.len(),
    {
        let ghost pre_v = v@;
        let ghost pre_out = out@;
        let a = v.remove(0);
        proof {
            assert(views(v@) =~~= views(pre_v).remove(0));
            assert(views(pre_v)[0] == a@);
            vstd::seq_lib::to_multiset_remove(views(pre_v), 0);
            assert(views(v@).to_multiset() == views(pre_v).to_multiset().remove(a@));
        }
        let mut j: usize = 0;
        while j < out.len() && anchor_le_exec(&out[j], &a)
            invariant
                0 <= j <= out@.len(),
                out@ == pre_out,
                forall|k: int|
                0 <= k < out@.len() ==> coord_ok((#[trigger] out@[k]).pos) && coord_ok(
                    out@[k].room_origin,
                ),
                coord_ok(a.pos),
                forall|k: int| 0 <= k < j ==> anchor_le(#[trigger] views(out@)[k], a@),
            decreases out@.len() - j,
        {
            j = j + 1;
        }
        proof {
            if j < out@.len() {
                lemma_anchor_le_total(views(out@)[j as int], a@);
                assert forall|k: int| j <= k < out@.len() implies anchor_le(
                    a@,
                    #[trigger] views(out@)[k],
                ) by {
                    if k > j {
                        lemma_anchor_le_trans(a@, views(out@)[j as int], views(out@)[k]);
                    }
                }
            }
        }
        out.insert(j, a);
        proof {
            assert(views(out@) =~~= views(pre_out).insert(j as int, a@));
            vstd::seq_lib::to_multiset_insert(views(pre_out), j as int, a@);
            assert(views(out@).to_multiset() == views(pre_out).to_multiset().insert(a@));
            assert(views(pre_v).contains(a@)) by {
                assert(views(pre_v)[0] == a@);
            }
            views(pre_v).to_multiset_ensures();
            assert(views(pre_v).to_multiset().count(a@) > 0);
            assert(views(v@).to_multiset().add(views(out@).to_multiset()) =~= views(
                input@,
            ).to_multiset());
            assert forall|p: int, q: int|
                0 <= p < q < views(out@).len() implies anchor_le(
                #[trigger] views(out@)[p],
                #[trigger] views(out@)[q],
            ) by {
                let jj = j as int;
                if q < jj {
                } else if p == jj && q > jj {
                    assert(views(out@)[q] == views(pre_out)[q - 1]);
                } else if p < jj && q == jj {
                    assert(views(out@)[p] == views(pre_out)[p]);
                } else if p < jj && q > jj {
                    assert(views(out@)[p] == views(pre_out)[p]);
                    assert(views(out@)[q] == views(pre_out)[q - 1]);
                    lemma_anchor_le_trans(views(pre_out)[p], a@, views(pre_out)[q - 1]);
                } else if p > jj {
                    assert(views(out@)[p] == views(pre_out)[p - 1]);
                    assert(views(out@)[q] == views(pre_out)[q - 1]);
                }
            }
        }
    }
    proof {
        assert(views(v@) =~= Seq::<AnchorV>::empty());
        assert(views(v@).to_multiset() =~= vstd::multiset::Multiset::<AnchorV>::empty());
        assert(views(v@).to_multiset().add(views(out@).to_multiset()) =~= views(
            out@,
        ).to_multiset());
    }
    out
}

/// The level's warp anchors, sorted by the extraction order: identifier,
/// then squared distance from the room-local origin, then room name.  Fails
/// when a warp marker lacks an identifier.
pub fn warps(mp: &LevelMap) -> (r: Result<Vec<Anchor>, Failure>)
    requires
        mp.wf(),
    ensures
        r is Err <==> warp_id_missing(mp.rooms@),
        r matches Err(f) ==> f == Failure::MissingData,
        r matches Ok(v) ==> {
            &&& anchors_sorted(views(v@))
            &&& views(v@).to_multiset() == level_warps(
                mp.rooms@,
                mp.rooms@.len() as int,
            ).to_multiset()
            &&& v@.len() == level_warps(mp.rooms@, mp.rooms@.len() as int).len()
            &&& forall|k: int|
                0 <= k < v@.len() ==> coord_ok((#[trigger] v@[k]).pos) && coord_ok(
                    v@[k].room_origin,
                )
        },
{
    broadcast use vstd::seq_lib::group_to_multiset_ensures;

    match collect_warps(mp) {
        Err(f) => Err(f),
        Ok(c) => Ok(sort_anchors(c)),
    }
}

/// The level's chapter anchors, sorted by the extraction order.  Fails when
/// a chapter panel lacks an identifier.
pub fn chapters(mp: &LevelMap) -> (r: Result<Vec<Anchor>, Failure>)
    requires
        mp.wf(),
    ensures
        r is Err <==> chapter_id_missing(mp.rooms@),
        r matches Err(f) ==> f == Failure::MissingData,
        r matches Ok(v) ==> {
            &&& anchors_sorted(views(v@))
            &&& views(v@).to_multiset() == level_chapters(
                mp.rooms@,
                mp.rooms@.len() as int,
            ).to_multiset()
            &&& v@.len() == level_chapters(mp.rooms@, mp.rooms@.len() as int).len()
            &&& forall|k: int|
                0 <= k < v@.len() ==> coord_ok((#[trigger] v@[k]).pos) && coord_ok(
                    v@[k].room_origin,
                )
        },
{
    broadcast use vstd::seq_lib::group_to_multiset_ensures;

    match collect_chapters(mp) {
        Err(f) => Err(f),
        Ok(c) => Ok(sort_anchors(c)),
    }
}

/// The room holds a door marker entity.
pub open spec fn room_has_door(r: Room) -> bool {
    exists|j: int| 0 <= j < r.entities@.len() && (#[trigger] r.entities@[j]).name@ == door_name()
}

/// Finds the first door marker entity, in room traversal order, as a pair of
/// room index and entity index.  When several rooms hold one, the first room
/// wins; within a room, the first entity wins.
pub fn find_mini_heart_door(mp: &LevelMap) -> (r: Option<(usize, usize)>)
    ensures
        r matches Some(p) ==> 0 <= p.0 < mp.rooms@.len(),
        r matches Some(p) ==> 0 <= p.1 < mp.rooms@[p.0 as int].entities@.len(),
        r matches Some(p) ==> mp.rooms@[p.0 as int].entities@[p.1 as int].name@ == door_name(),
        r matches Some(p) ==> forall|i: int| 0 <= i < p.0 ==> !room_has_door(
            #[trigger] mp.rooms@[i],
        ),
        r matches Some(p) ==> forall|j: int|
            0 <= j < p.1 ==> (#[trigger] mp.rooms@[p.0 as int].entities@[j]).name@ != door_name(),
        r is None ==> forall|i: int| 0 <= i < mp.rooms@.len() ==> !room_has_door(
            #[trigger] mp.rooms@[i],
        ),
{
    let dn = door_name_bytes();
    let mut i: usize = 0;
    while i < mp.rooms.len()
        invariant
            0 <= i <= mp.rooms@.len(),
            dn@ == door_name(),
            forall|a: int| 0 <= a < i ==> !room_has_door(#[trigger] mp.rooms@[a]),
        decreases mp.rooms@.len() - i,
    {
        let room = &mp.rooms[i];
        let mut j: usize = 0;
        while j < room.entities.len()
            invariant
                0 <= j <= room.entities@.len(),
                room == mp.rooms@[i as int],
                0 <= i < mp.rooms@.len(),
                dn@ == door_name(),
                forall|a: int| 0 <= a < i ==> !room_has_door(#[trigger] mp.rooms@[a]),
                forall|b: int| 0 <= b < j ==> (#[trigger] room.entities@[b]).name@ != door_name(),
            decreases room.entities@.len() - j,
        {
            if bytes_eq(&room.entities[j].name, &dn) {
                return Some((i, j));
            }
            j = j + 1;
        }
        i = i + 1;
    }
    None
}

/// The entity is a player spawn point.
pub open spec fn is_player(e: Entity) -> bool {
    e.name@ == player_name()
}

/// The entity is a player spawn point flagged as the default spawn.
pub open spec fn is_default_player(e: Entity) -> bool {
    is_player(e) && e.is_default_spawn
}

/// The index of the room's default spawn entity: the first player entity
/// flagged as default, or, when none is flagged, the first player entity in
/// the room's own order.  A room without a player entity is missing data.
pub fn default_spwan(room: &Room) -> (r: Result<usize, Failure>)
    ensures
        match r {
            Ok(j) => {
                &&& 0 <= j < room.entities@.len()
                &&& is_player(room.entities@[j as int])
                &&& if exists|k: int|
                    0 <= k < room.entities@.len() && is_default_player(
                        #[trigger] room.entities@[k],
                    ) {
                    is_default_player(room.entities@[j as int]) && forall|k: int|
                        0 <= k < j ==> !is_default_player(#[trigger] room.entities@[k])
                } else {
                    forall|k: int| 0 <= k < j ==> !is_player(#[trigger] room.entities@[k])
                }
            },
            Err(f) => f == Failure::MissingData && forall|k: int|
                0 <= k < room.entities@.len() ==> !is_player(#[trigger] room.entities@[k]),
        },
{
    let pn = player_name_bytes();
    let mut j: usize = 0;
    while j < room.entities.len()
        invariant
            0 <= j <= room.entities@.len(),
            pn@ == player_name(),
            forall|k: int| 0 <= k < j ==> !is_default_player(#[trigger] room.entities@[k]),
        decreases room.entities@.len() - j,
    {
        let e = &room.entities[j];
        if e.is_default_spawn && bytes_eq(&e.name, &pn) {
            return Ok(j);
        }
        j = j + 1;
    }
    let mut j: usize = 0;
    while j < room.entities.len()
        invariant
            0 <= j <= room.entities@.len(),
            pn@ == player_name(),
            forall|k: int| 0 <= k < room.entities@.len() ==> !is_default_player(
                #[trigger] room.entities@[k],
            ),
            forall|k: int| 0 <= k < j ==> !is_player(#[trigger] room.entities@[k]),
        decreases room.entities@.len() - j,
    {
        let e = &room.entities[j];
        if bytes_eq(&e.name, &pn) {
            return Ok(j);
        }
        j = j + 1;
    }
    Err(Failure::MissingData)
}

/// Every child index points further into the arena, so the flattened tree is
/// acyclic.
pub open spec fn arena_wf(arena: Seq<Element>) -> bool {
    forall|i: int, k: int|
        0 <= i < arena.len() && 0 <= k < arena[i].children@.len() ==> i < (
        #[trigger] arena[i].children@[k]) < arena.len()
}

/// The breadth-first visit order from a queue, spending one unit of fuel per
/// visited node: the head is visited, its children join the back of the
/// queue.  With fuel equal to the arena size, a tree is visited completely,
/// shallowest declarations first.
pub open spec fn bfs_order(arena: Seq<Element>, queue: Seq<usize>, fuel: nat) -> Seq<usize>
    decreases fuel,
{
    if fuel == 0 || queue.len() == 0 {
        Seq::empty()
    } else {
        let head = queue[0];
        let kids = if head < arena.len() {
            arena[head as int].children@
        } else {
            Seq::empty()
        };
        seq![head] + bfs_order(arena, queue.drop_first() + kids, (fuel - 1) as nat)
    }
}

/// Visits the object tree breadth first, starting at the root, and returns
/// the visit order.  Breadth-first order makes the shallowest declaration of
/// an attribute win over nested ones.
pub fn traverse_element(arena: &Vec<Element>) -> (r: Vec<usize>)
    requires
        arena@.len() >= 1,
    ensures
        r@ == bfs_order(arena@, seq![0usize], arena@.len() as nat),
        forall|k: int| 0 <= k < r@.len() ==> (#[trigger] r@[k]) < arena@.len() || !arena_wf(
            arena@,
        ),
{
    let mut order: Vec<usize> = Vec::new();
    let mut queue: Vec<usize> = Vec::new();
    queue.push(0);
    let ghost fuel = arena@.len() as nat;
    let mut step: usize = 0;
    proof {
        assert(queue@ =~= seq![0usize]);
    }
    while step < arena.len() && queue.len() > 0
        invariant
            0 <= step <= arena@.len(),
            step <= fuel,
            order@ + bfs_order(arena@, queue@, (fuel - step) as nat) == bfs_order(
                arena@,
                seq![0usize],
                fuel,
            ),
            order@.len() == step,
            fuel == arena@.len(),
            arena_wf(arena@) ==> forall|k: int| 0 <= k < queue@.len() ==> (#[trigger] queue@[k])
                < arena@.len(),
            arena_wf(arena@) ==> forall|k: int| 0 <= k < order@.len() ==> (#[trigger] order@[k])
                < arena@.len(),
        decreases arena@.len() - step,
    {
        let ghost pre_q = queue@;
        let ghost pre_o = order@;
        let head = queue.remove(0);
        order.push(head);
        if head < arena.len() {
            let mut c: usize = 0;
            let ghost kids = arena@[head as int].children@;
            while c < arena[head].children.len()
                invariant
                    0 <= c <= kids.len(),
                    head < arena@.len(),
                    kids == arena@[head as int].children@,
                    queue@ == pre_q.drop_first() + kids.take(c as int),
                decreases kids.len() - c,
            {
                queue.push(arena[head].children[c]);
                proof {
                    assert(queue@ =~= pre_q.drop_first() + kids.take(c + 1));
                }
                c = c + 1;
            }
            proof {
                assert(queue@ =~= pre_q.drop_first() + kids);
            }
        } else {
            proof {
                assert(queue@ =~= pre_q.drop_first() + Seq::<usize>::empty());
            }
        }
        step = step + 1;
        proof {
            assert(bfs_order(arena@, pre_q, (fuel - step + 1) as nat) == seq![pre_q[0]]
                + bfs_order(arena@, queue@, (fuel - step) as nat));
            assert(order@ =~= pre_o + seq![head]);
            assert(order@ + bfs_order(arena@, queue@, (fuel - step) as nat) =~= bfs_order(
                arena@,
                seq![0usize],
                fuel,
            ));
        }
    }
    proof {
        assert(order@ + bfs_order(arena@, queue@, (fuel - step) as nat) =~= order@);
    }
    order
}

/// The value of the start-level attribute on the first visited node that
/// carries one, in the given visit order.
pub open spec fn first_start_attr(arena: Seq<Element>, ord: Seq<usize>) -> Option<Seq<u8>>
    decreases ord.len(),
{
    if ord.len() == 0 {
        None
    } else if ord[0] < arena.len() && arena[ord[0] as int].start_level is Some {
        Some(arena[ord[0] as int].start_level.unwrap()@)
    } else {
        first_start_attr(arena, ord.drop_first())
    }
}

/// The index of the first room of that name at or after position `i`.
pub open spec fn room_index_from(rooms: Seq<Room>, name: Seq<u8>, i: int) -> Option<int>
    decreases rooms.len() - i,
{
    if i < 0 || i >= rooms.len() {
        None
    } else if rooms[i].name@ == name {
        Some(i)
    } else {
        room_index_from(rooms, name, i + 1)
    }
}

/// Which room the run starts in: the room named by the shallowest start-level
/// attribute in breadth-first order, or the level's first room when the
/// attribute is absent or names no room.
pub open spec fn start_room_index(arena: Seq<Element>, rooms: Seq<Room>) -> int {
    match first_start_attr(arena, bfs_order(arena, seq![0usize], arena.len() as nat)) {
        Some(n) => match room_index_from(rooms, n, 0) {
            Some(ri) => ri,
            None => 0,
        },
        None => 0,
    }
}

/// Resolves the room the run starts in: a breadth-first search of the raw
/// object tree finds the shallowest start-level attribute, whose value names
/// a room; absent either, the level's first room stands in.  A level with
/// zero rooms is missing data.
pub fn start_level(arena: &Vec<Element>, mp: &LevelMap) -> (r: Result<usize, Failure>)
    requires
        arena@.len() >= 1,
    ensures
        r is Err <==> mp.rooms@.len() == 0,
        r matches Err(f) ==> f == Failure::MissingData,
        r matches Ok(idx) ==> idx as int == start_room_index(arena@, mp.rooms@) && 0 <= idx
            < mp.rooms@.len(),
{
    if mp.rooms.len() == 0 {
        return Err(Failure::MissingData);
    }
    let ord = traverse_element(arena);
    let ghost ord0 = ord@;
    proof {
        assert(ord@.subrange(0, ord@.len() as int) =~= ord@);
    }
    let mut k: usize = 0;
    let mut attr_elem: Option<usize> = None;
    while k < ord.len() && attr_elem.is_none()
        invariant
            0 <= k <= ord@.len(),
            ord@ == ord0,
            ord0 == bfs_order(arena@, seq![0usize], arena@.len() as nat),
            attr_elem is None ==> first_start_attr(arena@, ord0) == first_start_attr(
                arena@,
                ord0.subrange(k as int, ord0.len() as int),
            ),
            attr_elem matches Some(e) ==> e < arena@.len() && arena@[e as int].start_level
                is Some && first_start_attr(arena@, ord0) == Some(
                arena@[e as int].start_level.unwrap()@,
            ),
        decreases ord@.len() - k, (if attr_elem is None { 1int } else { 0int }),
    {
        let e = ord[k];
        proof {
            assert(ord0.subrange(k as int, ord0.len() as int).drop_first() =~= ord0.subrange(
                k + 1,
                ord0.len() as int,
            ));
        }
        if e < arena.len() && arena[e].start_level.is_some() {
            attr_elem = Some(e);
        } else {
            k = k + 1;
        }
    }
    proof {
        if attr_elem is None {
            assert(k == ord@.len());
            assert(ord0.subrange(k as int, ord0.len() as int) =~= Seq::<usize>::empty());
        }
    }
    match attr_elem {
        None => Ok(0),
        Some(e) => {
            match &arena[e].start_level {
                None => {
                    proof {
                        assert(false);
                    }
                    Err(Failure::MissingData)
                },
                Some(name) => {
                    let ghost target = first_start_attr(arena@, ord0);
                    let mut i: usize = 0;
                    while i < mp.rooms.len()
                        invariant
                            0 <= i <= mp.rooms@.len(),
                            mp.rooms@.len() > 0,
                            target == first_start_attr(
                                arena@,
                                bfs_order(arena@, seq![0usize], arena@.len() as nat),
                            ),
                            target == Some(name@),
                            room_index_from(mp.rooms@, name@, 0) == room_index_from(
                                mp.rooms@,
                                name@,
                                i as int,
                            ),
                        decreases mp.rooms@.len() - i,
                    {
                        if bytes_eq(&mp.rooms[i].name, name) {
                            return Ok(i);
                        }
                        i = i + 1;
                    }
                    Ok(0)
                },
            }
        },
    }
}

} // verus!
