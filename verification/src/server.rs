use vstd::prelude::*;
use crate::rng::random_below;
use crate::text::string_from_chars;

verus! {

pub type PlayerId = u64;

/// At most this many players share a room.
pub const ROOM_CAPACITY: usize = 2;

/// The players of `s` other than `id`, in their order.
pub open spec fn without(s: Seq<PlayerId>, id: PlayerId) -> Seq<PlayerId>
    decreases s.len(),
{
    if s.len() == 0 {
        Seq::empty()
    } else {
        let rest = without(s.drop_last(), id);
        if s.last() != id { rest.push(s.last()) } else { rest }
    }
}

proof fn lemma_without_facts(s: Seq<PlayerId>, id: PlayerId)
    requires
        s.no_duplicates(),
    ensures
        without(s, id).no_duplicates(),
        forall|p: PlayerId| #[trigger] without(s, id).contains(p) <==> (s.contains(p) && p != id),
        without(s, id).len() == if s.contains(id) { s.len() - 1 } else { s.len() as int },
    decreases s.len(),
{
    if s.len() > 0 {
        let d = s.drop_last();
        assert(d.no_duplicates());
        lemma_without_facts(d, id);
        let rest = without(d, id);
        assert forall|p: PlayerId| #[trigger] s.contains(p) <==> (d.contains(p) || p == s.last()) by {
            if s.contains(p) && p != s.last() {
                let j = choose|j: int| 0 <= j < s.len() && s[j] == p;
                assert(d[j] == p);
            }
            if d.contains(p) {
                let j = choose|j: int| 0 <= j < d.len() && d[j] == p;
                assert(s[j] == p);
            }
            if p == s.last() {
                assert(s[s.len() - 1] == p);
            }
        }
        assert(!d.contains(s.last())) by {
            if d.contains(s.last()) {
                let j = choose|j: int| 0 <= j < d.len() && d[j] == s.last();
                assert(s[j] == s[s.len() - 1]);
            }
        }
        if s.last() != id {
            let r2 = rest.push(s.last());
            assert forall|p: PlayerId| #[trigger] r2.contains(p) <==> (rest.contains(p) || p == s.last()) by {
                if r2.contains(p) && p != s.last() {
                    let j = choose|j: int| 0 <= j < r2.len() && r2[j] == p;
                    assert(rest[j] == p);
                }
                if rest.contains(p) {
                    let j = choose|j: int| 0 <= j < rest.len() && rest[j] == p;
                    assert(r2[j] == p);
                }
                if p == s.last() {
                    assert(r2[rest.len() as int] == p);
                }
            }
            assert forall|i: int, j: int| 0 <= i < r2.len() && 0 <= j < r2.len() && i != j implies r2[i] != r2[j] by {
                if i == rest.len() {
                    assert(rest.contains(r2[j]));
                }
                if j == rest.len() {
                    assert(rest.contains(r2[i]));
                }
            }
        }
    }
}

/// A room: its players, in the order they joined.
pub struct Room {
    pub players: Vec<PlayerId>,
}

impl Room {
    pub open spec fn wf(&self) -> bool {
        self.players@.no_duplicates()
    }

    pub fn new() -> (r: Room)
        ensures
            r.players@ == Seq::<PlayerId>::empty(),
            r.wf(),
    {
        Room { players: Vec::new() }
    }

    /// Adds the player (a player already in the room stays where it is).
    pub fn add_player(&mut self, player_id: PlayerId)
        requires
            old(self).wf(),
        ensures
            final(self).wf(),
            final(self).players@ == if old(self).players@.contains(player_id) {
                old(self).players@
            } else {
                old(self).players@.push(player_id)
            },
    {
        let mut i: usize = 0;
        while i < self.players.len()
            invariant
                0 <= i <= self.players@.len(),
                self.players@ == old(self).players@,
                old(self).wf(),
                forall|j: int| 0 <= j < i ==> self.players@[j] != player_id,
            decreases self.players@.len() - i,
        {
            if self.players[i] == player_id {
                assert(self.players@[i as int] == player_id);
                return;
            }
            i = i + 1;
        }
        let ghost before = self.players@;
        self.players.push(player_id);
        proof {
            assert forall|a: int, b: int| 0 <= a < self.players@.len() && 0 <= b < self.players@.len() && a != b
                implies self.players@[a] != self.players@[b] by {
                if a == before.len() {
                    assert(self.players@[b] == before[b]);
                }
                if b == before.len() {
                    assert(self.players@[a] == before[a]);
                }
            }
        }
    }

    /// Removes the player, if it is in the room.
    pub fn remove_player(&mut self, player_id: PlayerId)
        requires
            old(self).wf(),
        ensures
            final(self).wf(),
            final(self).players@ == without(old(self).players@, player_id),
    {
        let mut kept: Vec<PlayerId> = Vec::new();
        let mut i: usize = 0;
        while i < self.players.len()
            invariant
                0 <= i <= self.players@.len(),
                self.players@ == old(self).players@,
                kept@ == without(self.players@.take(i as int), player_id),
            decreases self.players@.len() - i,
        {
            assert(self.players@.take(i + 1).drop_last() =~= self.players@.take(i as int));
            if self.players[i] != player_id {
                kept.push(self.players[i]);
            }
            i = i + 1;
        }
        assert(self.players@.take(self.players@.len() as int) =~= self.players@);
        proof {
            lemma_without_facts(self.players@, player_id);
        }
        self.players = kept;
    }

    /// The players a message goes to: all in the room but the one excluded.
    pub fn broadcast(&self, exclude: Option<PlayerId>) -> (r: Vec<PlayerId>)
        ensures
            r@ == match exclude {
                Some(e) => without(self.players@, e),
                None => self.players@,
            },
    {
        let mut to: Vec<PlayerId> = Vec::new();
        let mut i: usize = 0;
        while i < self.players.len()
            invariant
                0 <= i <= self.players@.len(),
                to@ == match exclude {
                    Some(e) => without(self.players@.take(i as int), e),
                    None => self.players@.take(i as int),
                },
            decreases self.players@.len() - i,
        {
            assert(self.players@.take(i + 1).drop_last() =~= self.players@.take(i as int));
            assert(self.players@.take(i as int).push(self.players@[i as int]) =~= self.players@.take(i + 1));
            let id = self.players[i];
            let send = match exclude {
                Some(e) => id != e,
                None => true,
            };
            if send {
                to.push(id);
            }
            i = i + 1;
        }
        assert(self.players@.take(self.players@.len() as int) =~= self.players@);
        to
    }

    pub fn is_empty(&self) -> (r: bool)
        ensures
            r == (self.players@.len() == 0),
    {
        self.players.len() == 0
    }

    /// Where the player sits in the room, counted from 0 in the order of joining.
    pub fn position(&self, player_id: PlayerId) -> (r: Option<usize>)
        ensures
            match r {
                Some(k) => k < self.players@.len() && self.players@[k as int] == player_id,
                None => !self.players@.contains(player_id),
            },
    {
        let mut i: usize = 0;
        while i < self.players.len()
            invariant
                0 <= i <= self.players@.len(),
                forall|j: int| 0 <= j < i ==> self.players@[j] != player_id,
            decreases self.players@.len() - i,
        {
            if self.players[i] == player_id {
                return Some(i);
            }
            i = i + 1;
        }
        None
    }
}

/// The seat of `p` among the players `ps`, counted from 0.
pub open spec fn seat(ps: Seq<PlayerId>, p: PlayerId) -> int {
    choose|k: int| 0 <= k < ps.len() && ps[k] == p
}

proof fn lemma_seat(ps: Seq<PlayerId>, p: PlayerId, k: int)
    requires
        ps.no_duplicates(),
        0 <= k < ps.len(),
        ps[k] == p,
    ensures
        seat(ps, p) == k,
{
    let c = seat(ps, p);
    assert(0 <= c < ps.len() && ps[c] == p);
}

/// The rooms as a map from room ids to their players.
pub open spec fn rooms_map(rooms: Seq<(String, Room)>) -> Map<Seq<char>, Seq<PlayerId>>
    decreases rooms.len(),
{
    if rooms.len() == 0 {
        Map::empty()
    } else {
        rooms_map(rooms.drop_last()).insert(rooms.last().0@, rooms.last().1.players@)
    }
}

/// Each id names one room, and no room holds a player twice.
pub open spec fn rooms_wf(rooms: Seq<(String, Room)>) -> bool {
    &&& forall|i: int, j: int| 0 <= i < j < rooms.len() ==> (#[trigger] rooms[i]).0@ != (#[trigger] rooms[j]).0@
    &&& forall|i: int| 0 <= i < rooms.len() ==> (#[trigger] rooms[i]).1.wf()
}

proof fn lemma_rooms_map_at(rooms: Seq<(String, Room)>, i: int)
    requires
        rooms_wf(rooms),
        0 <= i < rooms.len(),
    ensures
        rooms_map(rooms).contains_key(rooms[i].0@),
        rooms_map(rooms)[rooms[i].0@] == rooms[i].1.players@,
    decreases rooms.len(),
{
    if i < rooms.len() - 1 {
        let d = rooms.drop_last();
        assert(d[i] == rooms[i]);
        assert(rooms_wf(d));
        lemma_rooms_map_at(d, i);
        assert(rooms.last() == rooms[rooms.len() - 1]);
    }
}

proof fn lemma_rooms_map_keys(rooms: Seq<(String, Room)>, k: Seq<char>)
    ensures
        rooms_map(rooms).contains_key(k) <==> exists|i: int| 0 <= i < rooms.len() && (#[trigger] rooms[i]).0@ == k,
    decreases rooms.len(),
{
    if rooms.len() > 0 {
        let d = rooms.drop_last();
        lemma_rooms_map_keys(d, k);
        if exists|i: int| 0 <= i < d.len() && (#[trigger] d[i]).0@ == k {
            let i = choose|i: int| 0 <= i < d.len() && (#[trigger] d[i]).0@ == k;
            assert(rooms[i] == d[i]);
        }
        if exists|i: int| 0 <= i < rooms.len() && (#[trigger] rooms[i]).0@ == k {
            let i = choose|i: int| 0 <= i < rooms.len() && (#[trigger] rooms[i]).0@ == k;
            if i < d.len() {
                assert(rooms[i] == d[i]);
            }
        }
    }
}

/// Replacing the room at `i` changes the map at its id only.
proof fn lemma_rooms_map_update(rooms: Seq<(String, Room)>, i: int, k: String, r: Room)
    requires
        rooms_wf(rooms),
        0 <= i < rooms.len(),
        k@ == rooms[i].0@,
    ensures
        rooms_map(rooms.update(i, (k, r))) == rooms_map(rooms).insert(rooms[i].0@, r.players@),
    decreases rooms.len(),
{
    let r2 = rooms.update(i, (k, r));
    if i == rooms.len() - 1 {
        assert(r2.drop_last() =~= rooms.drop_last());
        lemma_rooms_map_keys(rooms.drop_last(), rooms[i].0@);
        assert(rooms_map(r2) =~= rooms_map(rooms).insert(rooms[i].0@, r.players@));
    } else {
        let d = rooms.drop_last();
        assert(rooms_wf(d));
        assert(d[i] == rooms[i]);
        lemma_rooms_map_update(d, i, k, r);
        assert(r2.drop_last() =~= d.update(i, (k, r)));
        assert(rooms.last() == rooms[rooms.len() - 1]);
        assert(rooms[rooms.len() - 1].0@ != rooms[i].0@);
        assert(rooms_map(r2) =~= rooms_map(rooms).insert(rooms[i].0@, r.players@));
    }
}

/// Removing the room at `i` removes its id from the map.
proof fn lemma_rooms_map_remove(rooms: Seq<(String, Room)>, i: int)
    requires
        rooms_wf(rooms),
        0 <= i < rooms.len(),
    ensures
        rooms_map(rooms.remove(i)) == rooms_map(rooms).remove(rooms[i].0@),
        rooms_wf(rooms.remove(i)),
    decreases rooms.len(),
{
    let r2 = rooms.remove(i);
    if i == rooms.len() - 1 {
        assert(r2 =~= rooms.drop_last());
        lemma_rooms_map_keys(rooms.drop_last(), rooms[i].0@);
        assert(rooms_map(r2) =~= rooms_map(rooms).remove(rooms[i].0@));
    } else {
        let d = rooms.drop_last();
        assert(rooms_wf(d));
        assert(d[i] == rooms[i]);
        lemma_rooms_map_remove(d, i);
        assert(r2.drop_last() =~= d.remove(i));
        assert(r2.last() == rooms.last());
        assert(rooms.last() == rooms[rooms.len() - 1]);
        assert(rooms[rooms.len() - 1].0@ != rooms[i].0@);
        assert(rooms_map(r2) =~= rooms_map(rooms).remove(rooms[i].0@));
    }
    assert forall|a: int, b: int| 0 <= a < b < r2.len() implies (#[trigger] r2[a]).0@ != (#[trigger] r2[b]).0@ by {
        let a0 = if a < i { a } else { a + 1 };
        let b0 = if b < i { b } else { b + 1 };
        assert(r2[a] == rooms[a0]);
        assert(r2[b] == rooms[b0]);
    }
    assert forall|a: int| 0 <= a < r2.len() implies (#[trigger] r2[a]).1.wf() by {
        let a0 = if a < i { a } else { a + 1 };
        assert(r2[a] == rooms[a0]);
    }
}

/// The rooms of the server, each under its id.
pub struct RoomManager {
    pub rooms: Vec<(String, Room)>,
}

impl View for RoomManager {
    type V = Map<Seq<char>, Seq<PlayerId>>;

    open spec fn view(&self) -> Map<Seq<char>, Seq<PlayerId>> {
        rooms_map(self.rooms@)
    }
}

/// The characters a room id is made of: letters and digits that cannot be mistaken for
/// each other.
pub open spec fn id_char(c: char) -> bool {
    ('A' <= c <= 'Z' && c != 'I' && c != 'O') || ('2' <= c <= '9')
}

/// The characters a room id is drawn from, in order.
pub open spec fn id_charset() -> Seq<char> {
    seq![
        'A', 'B', 'C', 'D', 'E', 'F', 'G', 'H', 'J', 'K', 'L', 'M', 'N', 'P', 'Q', 'R', 'S', 'T', 'U', 'V', 'W',
        'X', 'Y', 'Z', '2', '3', '4', '5', '6', '7', '8', '9',
    ]
}

/// The room id for the six numbers `draws`: each picks its character from `id_charset`.
pub open spec fn room_id_of(draws: Seq<usize>) -> Seq<char> {
    Seq::new(6, |i: int| id_charset()[draws[i] as int])
}

fn charset() -> (r: [char; 32])
    ensures
        r@ == id_charset(),
        forall|i: int| 0 <= i < 32 ==> id_char(#[trigger] r[i]),
{
    let r = [
        'A', 'B', 'C', 'D', 'E', 'F', 'G', 'H', 'J', 'K', 'L', 'M', 'N', 'P', 'Q', 'R', 'S', 'T', 'U', 'V', 'W',
        'X', 'Y', 'Z', '2', '3', '4', '5', '6', '7', '8', '9',
    ];
    assert(r@ =~= id_charset());
    r
}

/// The room id for the six numbers `draws` (each below 32): each picks its character
/// from the id characters.
pub fn room_id_from_draws(draws: &[usize; 6]) -> (r: String)
    requires
        forall|i: int| 0 <= i < 6 ==> #[trigger] draws[i] < 32,
    ensures
        r@ == room_id_of(draws@),
        r@.len() == 6,
        forall|i: int| 0 <= i < 6 ==> id_char(#[trigger] r@[i]),
{
    let set = charset();
    let mut chars: Vec<char> = Vec::new();
    let mut k: usize = 0;
    while k < 6
        invariant
            0 <= k <= 6,
            chars@.len() == k,
            set@ == id_charset(),
            forall|i: int| 0 <= i < 6 ==> #[trigger] draws[i] < 32,
            forall|i: int| 0 <= i < 32 ==> id_char(#[trigger] set[i]),
            forall|i: int| 0 <= i < k ==> #[trigger] chars@[i] == id_charset()[draws[i] as int],
            forall|i: int| 0 <= i < k ==> id_char(#[trigger] chars@[i]),
        decreases 6 - k,
    {
        chars.push(set[draws[k]]);
        k = k + 1;
    }
    let r = string_from_chars(&chars);
    assert(r@ =~= room_id_of(draws@));
    r
}

/// A new room id: six characters drawn at random from the id characters (as
/// `room_id_from_draws` makes it from six random numbers below 32). Which characters are
/// drawn is chance; what holds of every outcome is stated.
pub fn generate_room_id() -> (r: String)
    ensures
        exists|draws: Seq<usize>| draws.len() == 6 && (forall|i: int| 0 <= i < 6 ==> #[trigger] draws[i] < 32)
            && r@ == #[trigger] room_id_of(draws),
        r@.len() == 6,
        forall|i: int| 0 <= i < 6 ==> id_char(#[trigger] r@[i]),
{
    let mut draws: [usize; 6] = [0; 6];
    let mut k: usize = 0;
    while k < 6
        invariant
            0 <= k <= 6,
            forall|i: int| 0 <= i < 6 ==> #[trigger] draws[i] < 32,
        decreases 6 - k,
    {
        draws[k] = random_below(32);
        k = k + 1;
    }
    let r = room_id_from_draws(&draws);
    proof {
        assert(forall|i: int| 0 <= i < 6 ==> #[trigger] draws@[i] < 32);
    }
    r
}

impl RoomManager {
    pub open spec fn wf(&self) -> bool {
        rooms_wf(self.rooms@)
    }

    pub fn new() -> (r: RoomManager)
        ensures
            r.wf(),
            r@ == Map::<Seq<char>, Seq<PlayerId>>::empty(),
    {
        RoomManager { rooms: Vec::new() }
    }

    /// The position of the room with id `room_id`.
    fn find(&self, room_id: &String) -> (r: Option<usize>)
        requires
            self.wf(),
        ensures
            r matches Some(i) ==> i < self.rooms@.len() && self.rooms@[i as int].0@ == room_id@,
            r is None <==> !self@.contains_key(room_id@),
    {
        let mut i: usize = 0;
        while i < self.rooms.len()
            invariant
                0 <= i <= self.rooms@.len(),
                forall|j: int| 0 <= j < i ==> (#[trigger] self.rooms@[j]).0@ != room_id@,
            decreases self.rooms@.len() - i,
        {
            if self.rooms[i].0 == *room_id {
                proof {
                    lemma_rooms_map_keys(self.rooms@, room_id@);
                    assert(self.rooms@[i as int].0@ == room_id@);
                }
                return Some(i);
            }
            i = i + 1;
        }
        proof {
            lemma_rooms_map_keys(self.rooms@, room_id@);
        }
        None
    }

    /// A new empty room under a fresh random id (a room that had the same id is replaced).
    pub fn create_room(&mut self) -> (r: String)
        requires
            old(self).wf(),
        ensures
            final(self).wf(),
            final(self)@ == old(self)@.insert(r@, Seq::<PlayerId>::empty()),
            r@.len() == 6,
            forall|i: int| 0 <= i < 6 ==> id_char(#[trigger] r@[i]),
    {
        let room_id = generate_room_id();
        let room = Room::new();
        match self.find(&room_id) {
            Some(i) => {
                let ghost before = self.rooms@;
                let key = room_id.clone();
                self.rooms.set(i, (key, room));
                proof {
                    assert(self.rooms@ =~= before.update(i as int, self.rooms@[i as int]));
                    lemma_rooms_map_update(before, i as int, self.rooms@[i as int].0, self.rooms@[i as int].1);
                    assert forall|a: int, b: int| 0 <= a < b < self.rooms@.len() implies
                        (#[trigger] self.rooms@[a]).0@ != (#[trigger] self.rooms@[b]).0@ by {
                        assert(before[a].0@ != before[b].0@);
                    }
                }
            },
            None => {
                let ghost before = self.rooms@;
                let key = room_id.clone();
                self.rooms.push((key, room));
                proof {
                    assert(self.rooms@.drop_last() =~= before);
                    lemma_rooms_map_keys(before, room_id@);
                    assert forall|a: int, b: int| 0 <= a < b < self.rooms@.len() implies
                        (#[trigger] self.rooms@[a]).0@ != (#[trigger] self.rooms@[b]).0@ by {
                        if b == before.len() {
                            assert(self.rooms@[a] == before[a]);
                        } else {
                            assert(self.rooms@[a] == before[a]);
                            assert(self.rooms@[b] == before[b]);
                        }
                    }
                }
            },
        }
        room_id
    }

    pub fn room_exists(&self, room_id: &String) -> (r: bool)
        requires
            self.wf(),
        ensures
            r == self@.contains_key(room_id@),
    {
        self.find(room_id).is_some()
    }

    /// Puts the player into the room (if it exists).
    pub fn join_room(&mut self, room_id: &String, player_id: PlayerId)
        requires
            old(self).wf(),
        ensures
            final(self).wf(),
            final(self)@ == if old(self)@.contains_key(room_id@) {
                let ps = old(self)@[room_id@];
                old(self)@.insert(room_id@, if ps.contains(player_id) { ps } else { ps.push(player_id) })
            } else {
                old(self)@
            },
    {
        if let Some(i) = self.find(room_id) {
            let ghost before = self.rooms@;
            proof {
                lemma_rooms_map_at(before, i as int);
            }
            let (key, mut room) = self.rooms.remove(i);
            room.add_player(player_id);
            self.rooms.insert(i, (key, room));
            proof {
                assert(self.rooms@ =~= before.update(i as int, self.rooms@[i as int]));
                lemma_rooms_map_update(before, i as int, self.rooms@[i as int].0, self.rooms@[i as int].1);
                assert forall|a: int, b: int| 0 <= a < b < self.rooms@.len() implies
                    (#[trigger] self.rooms@[a]).0@ != (#[trigger] self.rooms@[b]).0@ by {
                    assert(before[a].0@ != before[b].0@);
                }
                assert forall|a: int| 0 <= a < self.rooms@.len() implies (#[trigger] self.rooms@[a]).1.wf() by {
                    if a != i {
                        assert(self.rooms@[a] == before[a]);
                    }
                }
            }
        }
    }

    /// Takes the player out of the room; a room left empty is removed.
    pub fn leave_room(&mut self, room_id: &String, player_id: PlayerId)
        requires
            old(self).wf(),
        ensures
            final(self).wf(),
            final(self)@ == if old(self)@.contains_key(room_id@) {
                let ps = without(old(self)@[room_id@], player_id);
                if ps.len() == 0 { old(self)@.remove(room_id@) } else { old(self)@.insert(room_id@, ps) }
            } else {
                old(self)@
            },
    {
        if let Some(i) = self.find(room_id) {
            let ghost before = self.rooms@;
            proof {
                lemma_rooms_map_at(before, i as int);
            }
            let (key, mut room) = self.rooms.remove(i);
            room.remove_player(player_id);
            if room.is_empty() {
                proof {
                    assert(self.rooms@ =~= before.remove(i as int));
                    lemma_rooms_map_remove(before, i as int);
                }
            } else {
                self.rooms.insert(i, (key, room));
                proof {
                    assert(self.rooms@ =~= before.update(i as int, self.rooms@[i as int]));
                    lemma_rooms_map_update(before, i as int, self.rooms@[i as int].0, self.rooms@[i as int].1);
                    assert forall|a: int, b: int| 0 <= a < b < self.rooms@.len() implies
                        (#[trigger] self.rooms@[a]).0@ != (#[trigger] self.rooms@[b]).0@ by {
                        assert(before[a].0@ != before[b].0@);
                    }
                    assert forall|a: int| 0 <= a < self.rooms@.len() implies (#[trigger] self.rooms@[a]).1.wf() by {
                        if a != i {
                            assert(self.rooms@[a] == before[a]);
                        }
                    }
                }
            }
        }
    }

    /// The players of the room a message goes to (none when there is no such room).
    pub fn broadcast(&self, room_id: &String, exclude: Option<PlayerId>) -> (r: Vec<PlayerId>)
        requires
            self.wf(),
        ensures
            r@ == if self@.contains_key(room_id@) {
                match exclude {
                    Some(e) => without(self@[room_id@], e),
                    None => self@[room_id@],
                }
            } else {
                Seq::empty()
            },
    {
        match self.find(room_id) {
            Some(i) => {
                proof {
                    lemma_rooms_map_at(self.rooms@, i as int);
                }
                self.rooms[i].1.broadcast(exclude)
            },
            None => Vec::new(),
        }
    }

    /// The seat of the player in the room, when the room exists and the player is in it.
    pub fn seat_of(&self, room_id: &String, player_id: PlayerId) -> (r: Option<usize>)
        requires
            self.wf(),
        ensures
            match r {
                Some(k) => self@.contains_key(room_id@) && self@[room_id@].contains(player_id)
                    && k == seat(self@[room_id@], player_id),
                None => !(self@.contains_key(room_id@) && self@[room_id@].contains(player_id)),
            },
    {
        match self.find(room_id) {
            Some(i) => {
                proof {
                    lemma_rooms_map_at(self.rooms@, i as int);
                }
                let found = self.rooms[i].1.position(player_id);
                match found {
                    Some(k) => {
                        proof {
                            assert(self.rooms@[i as int].1.wf());
                            lemma_seat(self@[room_id@], player_id, k as int);
                        }
                        Some(k)
                    },
                    None => None,
                }
            },
            None => None,
        }
    }

    /// The number of players in the room (0 when there is no such room).
    pub fn player_count(&self, room_id: &String) -> (r: usize)
        requires
            self.wf(),
        ensures
            r == if self@.contains_key(room_id@) { self@[room_id@].len() } else { 0 },
    {
        match self.find(room_id) {
            Some(i) => {
                proof {
                    lemma_rooms_map_at(self.rooms@, i as int);
                }
                self.rooms[i].1.players.len()
            },
            None => 0,
        }
    }
}


/// A request of a client.
#[derive(Debug, Clone)]
pub enum ClientMessage {
    CreateRoom,
    JoinRoom { room_id: String },
    /// A move of the game, as the JSON text the client sent.
    GameMove { data: String },
    LeaveRoom,
}

/// A message of the server to a client.
#[derive(Debug, Clone, PartialEq, Eq)]
pub enum ServerMessage {
    RoomCreated { room_id: String },
    RoomJoined { room_id: String, player_number: usize },
    PlayerJoined { player_number: usize },
    /// A move of the other player, as the JSON text that player sent.
    GameMove { data: String },
    PlayerLeft { player_number: usize },
    Error { message: String },
}

/// What a server message says, with its texts as character sequences.
pub enum Notice {
    RoomCreated(Seq<char>),
    RoomJoined(Seq<char>, nat),
    PlayerJoined(nat),
    GameMove(Seq<char>),
    PlayerLeft(nat),
    Error(Seq<char>),
}

impl View for ServerMessage {
    type V = Notice;

    open spec fn view(&self) -> Notice {
        match self {
            ServerMessage::RoomCreated { room_id } => Notice::RoomCreated(room_id@),
            ServerMessage::RoomJoined { room_id, player_number } => Notice::RoomJoined(room_id@, *player_number as nat),
            ServerMessage::PlayerJoined { player_number } => Notice::PlayerJoined(*player_number as nat),
            ServerMessage::GameMove { data } => Notice::GameMove(data@),
            ServerMessage::PlayerLeft { player_number } => Notice::PlayerLeft(*player_number as nat),
            ServerMessage::Error { message } => Notice::Error(message@),
        }
    }
}

/// The messages to send, each with the player it goes to.
pub open spec fn outbox(v: Seq<(PlayerId, ServerMessage)>) -> Seq<(PlayerId, Notice)> {
    v.map_values(|x: (PlayerId, ServerMessage)| (x.0, x.1@))
}

/// The same notice to each of the players `to`, in their order.
pub open spec fn to_each(to: Seq<PlayerId>, n: Notice) -> Seq<(PlayerId, Notice)> {
    to.map_values(|q: PlayerId| (q, n))
}

pub open spec fn room_key(c: Option<String>) -> Option<Seq<char>> {
    match c {
        Some(s) => Some(s@),
        None => None,
    }
}

/// Whether the player sits in the room that `cur` names.
pub open spec fn seated(m: Map<Seq<char>, Seq<PlayerId>>, cur: Option<Seq<char>>, p: PlayerId) -> bool {
    &&& cur is Some
    &&& m.contains_key(cur->0)
    &&& m[cur->0].contains(p)
}

/// The rooms after the player left the room `cur` names (a room left empty goes away).
pub open spec fn after_leaving(m: Map<Seq<char>, Seq<PlayerId>>, cur: Option<Seq<char>>, p: PlayerId) -> Map<
    Seq<char>,
    Seq<PlayerId>,
> {
    if seated(m, cur, p) {
        let rest = without(m[cur->0], p);
        if rest.len() == 0 {
            m.remove(cur->0)
        } else {
            m.insert(cur->0, rest)
        }
    } else {
        m
    }
}

/// The players left behind are told the number of the player who left.
pub open spec fn leave_notices(m: Map<Seq<char>, Seq<PlayerId>>, cur: Option<Seq<char>>, p: PlayerId) -> Seq<
    (PlayerId, Notice),
> {
    if seated(m, cur, p) {
        to_each(without(m[cur->0], p), Notice::PlayerLeft((seat(m[cur->0], p) + 1) as nat))
    } else {
        Seq::empty()
    }
}

/// No room holds more players than it has seats.
pub open spec fn rooms_capped(m: Map<Seq<char>, Seq<PlayerId>>) -> bool {
    forall|k: Seq<char>| #[trigger] m.contains_key(k) ==> m[k].len() <= ROOM_CAPACITY
}

/// The rooms, the player's room and the messages after a request to join the room `rid`.
pub open spec fn join_outcome(m: Map<Seq<char>, Seq<PlayerId>>, cur: Option<Seq<char>>, p: PlayerId, rid: Seq<char>) -> (
    Map<Seq<char>, Seq<PlayerId>>,
    Option<Seq<char>>,
    Seq<(PlayerId, Notice)>,
) {
    if !m.contains_key(rid) {
        (m, cur, seq![(p, Notice::Error("Raum existiert nicht"@))])
    } else if m[rid].contains(p) {
        (m, cur, seq![(p, Notice::Error("Bereits in diesem Raum"@))])
    } else if m[rid].len() >= ROOM_CAPACITY {
        (m, cur, seq![(p, Notice::Error("Raum ist voll"@))])
    } else {
        let ps = m[rid].push(p);
        (
            after_leaving(m, cur, p).insert(rid, ps),
            Some(rid),
            leave_notices(m, cur, p).push((p, Notice::RoomJoined(rid, ps.len()))) + to_each(
                ps,
                Notice::PlayerJoined(ps.len()),
            ),
        )
    }
}

/// A move goes to the other players of the player's room.
pub open spec fn move_outcome(m: Map<Seq<char>, Seq<PlayerId>>, cur: Option<Seq<char>>, p: PlayerId, data: Seq<char>) -> Seq<
    (PlayerId, Notice),
> {
    if seated(m, cur, p) {
        to_each(without(m[cur->0], p), Notice::GameMove(data))
    } else {
        seq![(p, Notice::Error("Nicht in einem Raum"@))]
    }
}

/// The messages after a request to leave the room.
pub open spec fn leave_outcome(m: Map<Seq<char>, Seq<PlayerId>>, cur: Option<Seq<char>>, p: PlayerId) -> Seq<
    (PlayerId, Notice),
> {
    if seated(m, cur, p) {
        leave_notices(m, cur, p)
    } else {
        seq![(p, Notice::Error("Nicht in einem Raum"@))]
    }
}

fn copy_message(m: &ServerMessage) -> (r: ServerMessage)
    ensures
        r@ == m@,
{
    match m {
        ServerMessage::RoomCreated { room_id } => ServerMessage::RoomCreated { room_id: room_id.clone() },
        ServerMessage::RoomJoined { room_id, player_number } => ServerMessage::RoomJoined {
            room_id: room_id.clone(),
            player_number: *player_number,
        },
        ServerMessage::PlayerJoined { player_number } => ServerMessage::PlayerJoined { player_number: *player_number },
        ServerMessage::GameMove { data } => ServerMessage::GameMove { data: data.clone() },
        ServerMessage::PlayerLeft { player_number } => ServerMessage::PlayerLeft { player_number: *player_number },
        ServerMessage::Error { message } => ServerMessage::Error { message: message.clone() },
    }
}

/// Appends the message once for each of the players `to`.
fn send_to_each(out: &mut Vec<(PlayerId, ServerMessage)>, to: &Vec<PlayerId>, msg: &ServerMessage)
    ensures
        outbox(final(out)@) == outbox(old(out)@) + to_each(to@, msg@),
{
    let ghost start = out@;
    let mut i: usize = 0;
    while i < to.len()
        invariant
            0 <= i <= to@.len(),
            outbox(out@) == outbox(start) + to_each(to@.take(i as int), msg@),
        decreases to@.len() - i,
    {
        let ghost before = out@;
        out.push((to[i], copy_message(msg)));
        proof {
            assert(outbox(out@) =~= outbox(before).push((to@[i as int], msg@)));
            assert(to_each(to@.take(i + 1), msg@) =~= to_each(to@.take(i as int), msg@).push((to@[i as int], msg@)));
            assert(outbox(out@) =~= outbox(start) + to_each(to@.take(i + 1), msg@));
        }
        i = i + 1;
    }
    assert(to@.take(to@.len() as int) =~= to@);
}

fn push_message(out: &mut Vec<(PlayerId, ServerMessage)>, to: PlayerId, msg: ServerMessage)
    ensures
        outbox(final(out)@) == outbox(old(out)@).push((to, msg@)),
{
    let ghost before = out@;
    out.push((to, msg));
    assert(outbox(out@) =~= outbox(before).push((to, msg@)));
}

/// The server: its rooms and the id the next player gets.
pub struct ServerState {
    pub rooms: RoomManager,
    pub next_player_id: u64,
}

impl ServerState {
    pub open spec fn wf(&self) -> bool {
        &&& self.rooms.wf()
        &&& rooms_capped(self.rooms@)
    }

    pub fn new() -> (r: ServerState)
        ensures
            r.wf(),
            r.rooms@ == Map::<Seq<char>, Seq<PlayerId>>::empty(),
            r.next_player_id == 1,
    {
        ServerState { rooms: RoomManager::new(), next_player_id: 1 }
    }

    /// The id of a newly connected player; ids count up from 1.
    pub fn get_next_player_id(&mut self) -> (r: PlayerId)
        requires
            old(self).next_player_id < u64::MAX,
        ensures
            r == old(self).next_player_id,
            final(self).next_player_id == old(self).next_player_id + 1,
            final(self).rooms == old(self).rooms,
    {
        let current = self.next_player_id;
        self.next_player_id = current + 1;
        current
    }

    /// The player leaves the room `cur` names, if it sits there; the others are told.
    fn leave_current(&mut self, player_id: PlayerId, cur: &Option<String>, out: &mut Vec<(PlayerId, ServerMessage)>)
        requires
            old(self).wf(),
        ensures
            final(self).wf(),
            final(self).rooms@ == after_leaving(old(self).rooms@, room_key(*cur), player_id),
            final(self).next_player_id == old(self).next_player_id,
            outbox(final(out)@) == outbox(old(out)@) + leave_notices(old(self).rooms@, room_key(*cur), player_id),
    {
        let ghost m = self.rooms@;
        if let Some(r) = cur {
            let seat_found = self.rooms.seat_of(r, player_id);
            if let Some(k) = seat_found {
                let rest = self.rooms.broadcast(r, Some(player_id));
                self.rooms.leave_room(r, player_id);
                proof {
                    lemma_rooms_map_keys(self.rooms.rooms@, r@);
                    assert(m[r@].len() <= ROOM_CAPACITY);
                    assert(m[r@].no_duplicates()) by {
                        lemma_rooms_map_keys(old(self).rooms.rooms@, r@);
                        let i = choose|i: int| 0 <= i < old(self).rooms.rooms@.len() && (#[trigger] old(self).rooms.rooms@[i]).0@ == r@;
                        lemma_rooms_map_at(old(self).rooms.rooms@, i);
                    }
                    lemma_without_facts(m[r@], player_id);
                    assert forall|key: Seq<char>| #[trigger] self.rooms@.contains_key(key) implies self.rooms@[key].len() <= ROOM_CAPACITY by {
                        if key != r@ {
                            assert(m.contains_key(key));
                        }
                    }
                }
                // k < capacity, so k + 1 does not overflow
                assert(k < m[r@].len());
                let msg = ServerMessage::PlayerLeft { player_number: k + 1 };
                send_to_each(out, &rest, &msg);
            } else {
                assert(outbox(out@) =~= outbox(old(out)@) + Seq::<(PlayerId, Notice)>::empty());
            }
        } else {
            assert(outbox(out@) =~= outbox(old(out)@) + Seq::<(PlayerId, Notice)>::empty());
        }
    }

    /// Answers one request of the player, whose room is `current_room`.
    pub fn handle_message(&mut self, player_id: PlayerId, current_room: &mut Option<String>, msg: ClientMessage) -> (r:
        Vec<(PlayerId, ServerMessage)>)
        requires
            old(self).wf(),
        ensures
            final(self).wf(),
            final(self).next_player_id == old(self).next_player_id,
            ({
                let m = old(self).rooms@;
                let cur = room_key(*old(current_room));
                let fc = *final(current_room);
                match msg {
                    ClientMessage::CreateRoom => {
                        &&& fc is Some
                        &&& fc->0@.len() == 6
                        &&& final(self).rooms@ == after_leaving(m, cur, player_id).insert(fc->0@, seq![player_id])
                        &&& outbox(r@) == leave_notices(m, cur, player_id).push(
                            (player_id, Notice::RoomCreated(fc->0@)),
                        )
                    },
                    ClientMessage::JoinRoom { room_id } => {
                        let o = join_outcome(m, cur, player_id, room_id@);
                        &&& final(self).rooms@ == o.0
                        &&& room_key(fc) == o.1
                        &&& outbox(r@) == o.2
                    },
                    ClientMessage::GameMove { data } => {
                        &&& final(self).rooms@ == m
                        &&& fc == *old(current_room)
                        &&& outbox(r@) == move_outcome(m, cur, player_id, data@)
                    },
                    ClientMessage::LeaveRoom => {
                        &&& final(self).rooms@ == after_leaving(m, cur, player_id)
                        &&& fc is None
                        &&& outbox(r@) == leave_outcome(m, cur, player_id)
                    },
                }
            }),
    {
        let mut out: Vec<(PlayerId, ServerMessage)> = Vec::new();
        let ghost m = self.rooms@;
        let ghost cur = room_key(*current_room);
        match msg {
            ClientMessage::CreateRoom => {
                self.leave_current(player_id, current_room, &mut out);
                let ghost m1 = self.rooms@;
                let room_id = self.rooms.create_room();
                self.rooms.join_room(&room_id, player_id);
                proof {
                    assert(Seq::<PlayerId>::empty().push(player_id) =~= seq![player_id]);
                    assert(self.rooms@ =~= m1.insert(room_id@, seq![player_id]));
                    assert forall|key: Seq<char>| #[trigger] self.rooms@.contains_key(key) implies self.rooms@[key].len() <= ROOM_CAPACITY by {
                        if key != room_id@ {
                            assert(m1.contains_key(key));
                        }
                    }
                }
                push_message(&mut out, player_id, ServerMessage::RoomCreated { room_id: room_id.clone() });
                *current_room = Some(room_id);
            },
            ClientMessage::JoinRoom { room_id } => {
                if !self.rooms.room_exists(&room_id) {
                    push_message(&mut out, player_id, ServerMessage::Error { message: "Raum existiert nicht".to_owned() });
                } else if self.rooms.seat_of(&room_id, player_id).is_some() {
                    push_message(&mut out, player_id, ServerMessage::Error { message: "Bereits in diesem Raum".to_owned() });
                } else if self.rooms.player_count(&room_id) >= ROOM_CAPACITY {
                    push_message(&mut out, player_id, ServerMessage::Error { message: "Raum ist voll".to_owned() });
                } else {
                    let ghost ps = m[room_id@].push(player_id);
                    proof {
                        // the player's old room is another one, so leaving it keeps this room as it is
                        if seated(m, cur, player_id) {
                            assert(cur->0 != room_id@);
                        }
                    }
                    self.leave_current(player_id, current_room, &mut out);
                    let ghost m1 = self.rooms@;
                    assert(m1.contains_key(room_id@) && m1[room_id@] == m[room_id@]);
                    self.rooms.join_room(&room_id, player_id);
                    proof {
                        assert forall|key: Seq<char>| #[trigger] self.rooms@.contains_key(key) implies self.rooms@[key].len() <= ROOM_CAPACITY by {
                            if key != room_id@ {
                                assert(m1.contains_key(key));
                            }
                        }
                    }
                    let count = self.rooms.player_count(&room_id);
                    push_message(
                        &mut out,
                        player_id,
                        ServerMessage::RoomJoined { room_id: room_id.clone(), player_number: count },
                    );
                    let everyone = self.rooms.broadcast(&room_id, None);
                    send_to_each(&mut out, &everyone, &ServerMessage::PlayerJoined { player_number: count });
                    *current_room = Some(room_id);
                }
            },
            ClientMessage::GameMove { data } => {
                let seated_now = match current_room {
                    Some(r) => self.rooms.seat_of(r, player_id).is_some(),
                    None => false,
                };
                if seated_now {
                    let r = current_room.as_ref().unwrap();
                    let others = self.rooms.broadcast(r, Some(player_id));
                    send_to_each(&mut out, &others, &ServerMessage::GameMove { data });
                } else {
                    push_message(&mut out, player_id, ServerMessage::Error { message: "Nicht in einem Raum".to_owned() });
                }
            },
            ClientMessage::LeaveRoom => {
                let seated_now = match current_room {
                    Some(r) => self.rooms.seat_of(r, player_id).is_some(),
                    None => false,
                };
                if seated_now {
                    self.leave_current(player_id, current_room, &mut out);
                    assert(outbox(out@) =~= leave_notices(m, cur, player_id));
                } else {
                    push_message(&mut out, player_id, ServerMessage::Error { message: "Nicht in einem Raum".to_owned() });
                }
                *current_room = None;
            },
        }
        out
    }

    /// The player's connection ended: it leaves its room, and the others are told.
    pub fn disconnect(&mut self, player_id: PlayerId, current_room: Option<String>) -> (r: Vec<(PlayerId, ServerMessage)>)
        requires
            old(self).wf(),
        ensures
            final(self).wf(),
            final(self).next_player_id == old(self).next_player_id,
            final(self).rooms@ == after_leaving(old(self).rooms@, room_key(current_room), player_id),
            outbox(r@) == leave_notices(old(self).rooms@, room_key(current_room), player_id),
    {
        let mut out: Vec<(PlayerId, ServerMessage)> = Vec::new();
        self.leave_current(player_id, &current_room, &mut out);
        assert(outbox(out@) =~= leave_notices(old(self).rooms@, room_key(current_room), player_id));
        out
    }
}


proof fn lemma_without_absent(s: Seq<PlayerId>, id: PlayerId)
    requires
        !s.contains(id),
    ensures
        without(s, id) == s,
    decreases s.len(),
{
    if s.len() > 0 {
        let d = s.drop_last();
        assert(!d.contains(id)) by {
            if d.contains(id) {
                let j = choose|j: int| 0 <= j < d.len() && d[j] == id;
                assert(s[j] == id);
            }
        }
        lemma_without_absent(d, id);
        assert(s.last() != id) by {
            assert(s[s.len() - 1] == s.last());
        }
        assert(d.push(s.last()) =~= s);
    }
}

/// Joining a room that someone waits in and leaving it again gives back the rooms as they
/// were, for a player who sat in no room.
pub proof fn lemma_join_then_leave(m: Map<Seq<char>, Seq<PlayerId>>, p: PlayerId, rid: Seq<char>)
    requires
        m.contains_key(rid),
        !m[rid].contains(p),
        0 < m[rid].len() < ROOM_CAPACITY,
    ensures
        ({
            let joined = join_outcome(m, None, p, rid);
            &&& joined.1 == Some(rid)
            &&& after_leaving(joined.0, joined.1, p) == m
        }),
{
    let ps = m[rid].push(p);
    assert(ps.drop_last() =~= m[rid]);
    assert(ps.last() == p);
    lemma_without_absent(m[rid], p);
    assert(without(ps, p) == m[rid]);
    assert(ps[ps.len() - 1] == p);
    assert(m.insert(rid, ps).insert(rid, m[rid]) =~= m);
}

} // verus!
