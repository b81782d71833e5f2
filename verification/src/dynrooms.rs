//! Rooms that follow the live agents: whenever the set of sessions changes, the old rooms
//! are cleared off the world and one room per session is laid out and drawn.
use vstd::prelude::*;
use crate::tiles::TileKind;
use crate::room::{Room, room_tile};
use crate::office::OfficeMap;
use crate::sessions::{count_sessions, counts_ok, counts_view, count_keys, session_keys};
use crate::layout::{layout, layout_rooms, sizes_of, start_cursor, lemma_layout_inside, lemma_layout_disjoint, lemma_sizes_ok, lemma_layout_len};
use crate::world::{clear_rooms, stamp_rooms, covered_by, covers_grid, rooms_placed, grids_fit, lemma_stamped_single, lemma_stamped_none};

verus! {

/// The sessions the current rooms were built for.
pub struct DynRoomState {
    pub known_sessions: Vec<String>,
}

impl Default for DynRoomState {
    fn default() -> (s: Self)
        ensures
            s.known_sessions@.len() == 0,
    {
        DynRoomState { known_sessions: Vec::new() }
    }
}

/// The tile a world cell shows after the old rooms have been cleared off it.
pub open spec fn cleared_tile(w: Seq<Vec<TileKind>>, rooms: Seq<Room>, row: int, col: int) -> TileKind {
    if covered_by(rooms, row, col) { TileKind::Grass } else { w[row]@[col] }
}

/// What the office holds after rebuilding the rooms for the session counts `counts`:
/// the laid-out rooms, and a world where each room shows its own tiles, cells of old
/// rooms outside the new ones are grass again, and all other cells are unchanged.
pub open spec fn rebuilt_office(old_office: OfficeMap, new_office: OfficeMap, counts: Seq<(Seq<char>, nat)>) -> bool {
    let sizes = sizes_of(counts);
    let pos = layout(sizes, start_cursor());
    let rooms = new_office.rooms@;
    &&& new_office.wf()
    &&& new_office.spawned == old_office.spawned
    &&& rooms.len() == pos.len()
    &&& forall|k: int| 0 <= k < rooms.len() ==> (#[trigger] rooms[k]).fresh(
        counts[k].0,
        pos[k].0 as i32,
        pos[k].1 as i32,
        sizes[k].0 as i32,
        sizes[k].1 as i32,
    )
    &&& forall|k: int, i: int, j: int|
        0 <= k < rooms.len() && 0 <= i < rooms[k].height && 0 <= j < rooms[k].width
            && rooms[k].y + i < 50 && rooms[k].x + j < 60 ==> new_office.world@[rooms[k].y + i]@[rooms[k].x + j]
            == #[trigger] room_tile(rooms[k].width as int, rooms[k].height as int, i, j)
    &&& forall|r: int, c: int|
        0 <= r < 50 && 0 <= c < 60 && (forall|k: int| 0 <= k < rooms.len() ==> !covers_grid(#[trigger] rooms[k], r, c))
            ==> #[trigger] new_office.world@[r]@[c] == cleared_tile(old_office.world@, old_office.rooms@, r, c)
}

/// Whether two session lists are equal.
fn same_sessions(a: &Vec<String>, b: &Vec<String>) -> (eq: bool)
    ensures
        eq == (session_keys(a@) == session_keys(b@)),
{
    if a.len() != b.len() {
        proof {
            assert(session_keys(a@).len() != session_keys(b@).len());
        }
        return false;
    }
    let mut i: usize = 0;
    while i < a.len()
        invariant
            a@.len() == b@.len(),
            i <= a@.len(),
            forall|j: int| 0 <= j < i ==> a@[j]@ == b@[j]@,
        decreases a@.len() - i,
    {
        if a[i] != b[i] {
            proof {
                assert(session_keys(a@)[i as int] != session_keys(b@)[i as int]);
            }
            return false;
        }
        i = i + 1;
    }
    proof {
        assert(session_keys(a@) =~= session_keys(b@));
    }
    true
}

/// Syncing again with the same agents changes nothing: once the rooms were synced with
/// sessions `sv` (the known list is then the key list of a count list of `sv`), the key
/// list of every count list of `sv` is the known list.
pub proof fn lemma_resync_is_noop(sv: Seq<Seq<char>>, counts: Seq<(Seq<char>, nat)>, other: Seq<(Seq<char>, nat)>)
    requires
        counts_ok(sv, counts),
        counts_ok(sv, other),
    ensures
        count_keys(other) == count_keys(counts),
{
    crate::sessions::lemma_counts_unique(sv, counts, other);
}

impl DynRoomState {
    /// The known sessions, as character sequences.
    pub open spec fn known(self) -> Seq<Seq<char>> {
        session_keys(self.known_sessions@)
    }

    /// Brings the rooms in line with the agents' `sessions`. Nothing happens when there are
    /// no agents, or when the sessions, ordered busiest first, are the ones already known.
    /// Otherwise the new session list is remembered; once the tile images are loaded
    /// (`assets_ready`), the old rooms are cleared off the world and the new ones laid out
    /// and drawn. Returns whether the rooms were rebuilt.
    pub fn sync_rooms(&mut self, office: &mut OfficeMap, sessions: &Vec<String>, assets_ready: bool) -> (rebuilt: bool)
        requires
            old(office).wf(),
            rooms_placed(old(office).rooms@),
        ensures
            final(office).wf(),
            rooms_placed(final(office).rooms@),
            sessions@.len() == 0 ==> !rebuilt && *final(self) == *old(self) && *final(office) == *old(office),
            sessions@.len() > 0 ==> exists|counts: Seq<(Seq<char>, nat)>| {
                &&& counts_ok(session_keys(sessions@), counts)
                &&& if count_keys(counts) == old(self).known() {
                    !rebuilt && *final(self) == *old(self) && *final(office) == *old(office)
                } else if !assets_ready {
                    !rebuilt && final(self).known() == count_keys(counts) && *final(office) == *old(office)
                } else {
                    rebuilt && final(self).known() == count_keys(counts) && rebuilt_office(*old(office), *final(office), counts)
                }
            },
    {
        if sessions.len() == 0 {
            return false;
        }
        let counts = count_sessions(sessions);
        let ghost cv = counts_view(counts@);
        let mut names: Vec<String> = Vec::new();
        let mut i: usize = 0;
        while i < counts.len()
            invariant
                i <= counts@.len(),
                names@.len() == i,
                cv == counts_view(counts@),
                forall|j: int| 0 <= j < i ==> (#[trigger] names@[j])@ == counts@[j].0@,
            decreases counts@.len() - i,
        {
            names.push(counts[i].0.clone());
            i = i + 1;
        }
        proof {
            assert(session_keys(names@) =~= count_keys(cv));
        }
        if same_sessions(&names, &self.known_sessions) {
            return false;
        }
        self.known_sessions = names;
        if !assets_ready {
            return false;
        }
        let ghost old_office = *office;
        clear_rooms(&mut office.world, &office.rooms);
        let ghost cleared_world = office.world@;
        let rooms = layout_rooms(&counts);
        let ghost sizes = sizes_of(cv);
        let ghost pos = layout(sizes, start_cursor());
        proof {
            lemma_sizes_ok(cv);
            lemma_layout_len(sizes, start_cursor());
            assert forall|k: int| 0 <= k < rooms@.len() implies {
                &&& (#[trigger] rooms@[k]).x >= 0
                &&& rooms@[k].y >= 0
                &&& rooms@[k].width >= 0
                &&& rooms@[k].height >= 0
            } by {
                lemma_layout_inside(sizes, k);
            }
            assert forall|k: int| 0 <= k < rooms@.len() implies {
                &&& (#[trigger] rooms@[k]).y + rooms@[k].tiles@.len() <= usize::MAX
                &&& forall|ry: int| 0 <= ry < rooms@[k].tiles@.len() ==> rooms@[k].x + (#[trigger] rooms@[k].tiles@[ry])@.len() <= usize::MAX
            } by {
                lemma_layout_inside(sizes, k);
            }
        }
        stamp_rooms(&mut office.world, &rooms);
        office.rooms = rooms;
        proof {
            let nr = office.rooms@;
            // Each new room's grid covers exactly its rectangle, and no other room's.
            assert forall|k: int, i: int, j: int|
                0 <= k < nr.len() && 0 <= i < nr[k].height && 0 <= j < nr[k].width
                    && nr[k].y + i < 50 && nr[k].x + j < 60 implies office.world@[nr[k].y + i]@[nr[k].x + j]
                    == #[trigger] room_tile(nr[k].width as int, nr[k].height as int, i, j) by {
                let r = nr[k].y + i;
                let c = nr[k].x + j;
                lemma_layout_inside(sizes, k);
                assert(nr[k].tile(i, j) == room_tile(nr[k].width as int, nr[k].height as int, i, j));
                assert forall|m: int| 0 <= m < nr.len() && m != k implies !covers_grid(#[trigger] nr[m], r, c) by {
                    lemma_layout_disjoint(sizes, k, m);
                    lemma_layout_inside(sizes, m);
                }
                lemma_stamped_single(cleared_world, nr, k, r, c);
            }
            assert forall|r: int, c: int|
                0 <= r < 50 && 0 <= c < 60 && (forall|k: int| 0 <= k < nr.len() ==> !covers_grid(#[trigger] nr[k], r, c))
                    implies #[trigger] office.world@[r]@[c] == cleared_tile(old_office.world@, old_office.rooms@, r, c) by {
                lemma_stamped_none(cleared_world, nr, r, c);
            }
            assert(rebuilt_office(old_office, *office, cv));
        }
        true
    }
}

} // verus!
