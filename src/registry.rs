//! The registry of rooms: which connections listen in which room, how a
//! broadcast's failed sends are dropped, and how empty rooms disappear.
use vstd::prelude::*;

verus! {

/// One listener attached to a room.
pub struct Connection<C> {
    /// Number given by the registry at join time, counted up from zero in
    /// the order of joining.
    pub id: u64,
    /// Human-readable tag, used only in diagnostics.
    pub label: String,
    /// The send capability of the underlying transport.
    pub handle: C,
}

/// A named group of connections.
pub struct Room<C> {
    pub name: String,
    pub members: Vec<Connection<C>>,
}

/// The identifiers of a list of connections, in order.
pub open spec fn ids_of<C>(members: Seq<Connection<C>>) -> Seq<u64> {
    members.map_values(|c: Connection<C>| c.id)
}

/// Whether a connection survives a broadcast in which `failed` lists the
/// connections whose send failed or timed out.
pub open spec fn delivered(failed: Seq<u64>) -> spec_fn(u64) -> bool {
    |id: u64| !failed.contains(id)
}

/// Whether a connection survives a broadcast in which `failed` lists the
/// connections whose send failed or timed out.
pub open spec fn connection_delivered<C>(failed: Seq<u64>) -> spec_fn(Connection<C>) -> bool {
    |c: Connection<C>| !failed.contains(c.id)
}

/// The members of a room that survive a broadcast.
pub open spec fn survivors(ids: Seq<u64>, failed: Seq<u64>) -> Seq<u64> {
    ids.filter(delivered(failed))
}

/// The members of `room`, or none when the room is absent.
pub open spec fn members_or_empty(v: Map<Seq<char>, Seq<u64>>, room: Seq<char>) -> Seq<u64> {
    if v.contains_key(room) {
        v[room]
    } else {
        Seq::empty()
    }
}

/// Membership after a connection `id` joins `room`.
pub open spec fn after_join(v: Map<Seq<char>, Seq<u64>>, room: Seq<char>, id: u64) -> Map<
    Seq<char>,
    Seq<u64>,
> {
    v.insert(room, members_or_empty(v, room).push(id))
}

/// Membership after a broadcast to `room` whose failed sends are `failed`:
/// failed members are dropped, and a room left empty is removed.
pub open spec fn after_settle(v: Map<Seq<char>, Seq<u64>>, room: Seq<char>, failed: Seq<u64>) -> Map<
    Seq<char>,
    Seq<u64>,
> {
    if !v.contains_key(room) {
        v
    } else if survivors(v[room], failed).len() == 0 {
        v.remove(room)
    } else {
        v.insert(room, survivors(v[room], failed))
    }
}

/// Membership after a broadcast to every room whose failed sends are `failed`.
pub open spec fn after_sweep(v: Map<Seq<char>, Seq<u64>>, failed: Seq<u64>) -> Map<
    Seq<char>,
    Seq<u64>,
> {
    Map::new(
        |room: Seq<char>| v.contains_key(room) && survivors(v[room], failed).len() > 0,
        |room: Seq<char>| survivors(v[room], failed),
    )
}

/// Whether `k` is among the first `i` names.
pub open spec fn named_before(names: Seq<String>, i: int, k: Seq<char>) -> bool {
    exists|a: int| 0 <= a < i && names[a]@ == k
}

/// The identifier handed to the next connection after `id`.
pub open spec fn successor(id: u64) -> u64 {
    if id == u64::MAX {
        0
    } else {
        (id + 1) as u64
    }
}

/// Whether `id` is listed in `ids`.
fn listed(ids: &Vec<u64>, id: u64) -> (r: bool)
    ensures
        r == ids@.contains(id),
{
    let mut i: usize = 0;
    while i < ids.len()
        invariant
            i <= ids@.len(),
            forall|j: int| 0 <= j < i ==> ids@[j] != id,
        decreases ids@.len() - i,
    {
        if ids[i] == id {
            assert(ids@[i as int] == id);
            return true;
        }
        i = i + 1;
    }
    false
}

proof fn lemma_ids_of_push<C>(s: Seq<Connection<C>>, c: Connection<C>)
    ensures
        ids_of(s.push(c)) == ids_of(s).push(c.id),
{
    assert(ids_of(s.push(c)) =~= ids_of(s).push(c.id));
}

/// Keeps, in order, the members whose identifier is not in `failed`.
fn keep_delivered<C>(members: &mut Vec<Connection<C>>, failed: &Vec<u64>)
    ensures
        ids_of(final(members)@) == survivors(ids_of(old(members)@), failed@),
        final(members)@ == old(members)@.filter(connection_delivered(failed@)),
{
    let ghost orig = members@;
    let mut kept: Vec<Connection<C>> = Vec::new();
    let ghost mut n: int = 0;
    proof {
        assert(orig.subrange(0, 0) =~= Seq::<Connection<C>>::empty());
        assert(ids_of(orig.subrange(0, 0)) =~= Seq::<u64>::empty());
        assert(survivors(Seq::<u64>::empty(), failed@) =~= Seq::<u64>::empty()) by {
            Seq::<u64>::empty().lemma_filter_len(delivered(failed@));
        }
        assert(orig.subrange(0, 0).filter(connection_delivered(failed@)) =~= Seq::<Connection<C>>::empty()) by {
            orig.subrange(0, 0).lemma_filter_len(connection_delivered(failed@));
        }
    }
    while members.len() > 0
        invariant
            0 <= n <= orig.len(),
            members@ == orig.subrange(n, orig.len() as int),
            ids_of(kept@) == survivors(ids_of(orig.subrange(0, n)), failed@),
            kept@ == orig.subrange(0, n).filter(connection_delivered(failed@)),
        decreases members@.len(),
    {
        let c = members.remove(0);
        proof {
            assert(c == orig[n]);
            assert(orig.subrange(0, n + 1) =~= orig.subrange(0, n).push(c));
            lemma_ids_of_push(orig.subrange(0, n), c);
            ids_of(orig.subrange(0, n)).lemma_filter_push(c.id, delivered(failed@));
            orig.subrange(0, n).lemma_filter_push(c, connection_delivered(failed@));
            assert(members@ =~= orig.subrange(n + 1, orig.len() as int));
        }
        if !listed(failed, c.id) {
            proof {
                lemma_ids_of_push(kept@, c);
            }
            kept.push(c);
        }
        proof {
            n = n + 1;
        }
    }
    assert(orig.subrange(0, n) =~= orig);
    *members = kept;
}

/// Whether the rooms of a list have distinct names.
pub open spec fn names_distinct<C>(rooms: Seq<Room<C>>) -> bool {
    forall|i: int, j: int| 0 <= i < j < rooms.len() ==> rooms[i].name@ != rooms[j].name@
}

/// The connections of the room named `room` in a list of rooms.
pub open spec fn connections_in<C>(rooms: Seq<Room<C>>, room: Seq<char>) -> Seq<Connection<C>> {
    let i = choose|i: int| 0 <= i < rooms.len() && rooms[i].name@ == room;
    rooms[i].members@
}

proof fn lemma_connections_in<C>(rooms: Seq<Room<C>>, i: int)
    requires
        names_distinct(rooms),
        0 <= i < rooms.len(),
    ensures
        connections_in(rooms, rooms[i].name@) == rooms[i].members@,
{
    let c = choose|c: int| 0 <= c < rooms.len() && rooms[c].name@ == rooms[i].name@;
    if c < i {
        assert(rooms[c].name@ != rooms[i].name@);
    } else if c > i {
        assert(rooms[i].name@ != rooms[c].name@);
    }
}

/// Mapping from room name to the connections listening in it.
///
/// Its view maps each room name to the identifiers of its members. A room is
/// present only while it has at least one member.
pub struct Registry<C> {
    rooms: Vec<Room<C>>,
    next_id: u64,
    model: Ghost<Map<Seq<char>, Seq<u64>>>,
}

impl<C> View for Registry<C> {
    type V = Map<Seq<char>, Seq<u64>>;

    closed spec fn view(&self) -> Map<Seq<char>, Seq<u64>> {
        self.model@
    }
}

impl<C> Registry<C> {
    /// Room names are distinct, no room is empty, and the view lists exactly
    /// the rooms held with the identifiers of their members.
    pub closed spec fn wf(&self) -> bool {
        &&& names_distinct(self.rooms@)
        &&& forall|i: int| 0 <= i < self.rooms@.len() ==> self.rooms@[i].members@.len() > 0
        &&& forall|i: int|
            0 <= i < self.rooms@.len() ==> #[trigger] self.model@.contains_key(self.rooms@[i].name@)
                && self.model@[self.rooms@[i].name@] == ids_of(self.rooms@[i].members@)
        &&& forall|k: Seq<char>|
            #[trigger] self.model@.contains_key(k) ==> exists|i: int|
                0 <= i < self.rooms@.len() && self.rooms@[i].name@ == k
    }

    /// The connections of `room`, in the order they joined; meaningful when
    /// the room is present.
    pub closed spec fn connections(&self, room: Seq<char>) -> Seq<Connection<C>> {
        connections_in(self.rooms@, room)
    }

    /// The identifier that the next join hands out.
    pub closed spec fn next_id(&self) -> u64 {
        self.next_id
    }

    /// An empty registry.
    pub fn new() -> (r: Self)
        ensures
            r.wf(),
            r@ == Map::<Seq<char>, Seq<u64>>::empty(),
            r.next_id() == 0,
    {
        Registry { rooms: Vec::new(), next_id: 0, model: Ghost(Map::empty()) }
    }

    fn position(&self, room: &String) -> (r: Option<usize>)
        requires
            self.wf(),
        ensures
            match r {
                Some(i) => i < self.rooms@.len() && self.rooms@[i as int].name@ == room@
                    && self@.contains_key(room@),
                None => !self@.contains_key(room@),
            },
    {
        let mut i: usize = 0;
        while i < self.rooms.len()
            invariant
                self.wf(),
                i <= self.rooms@.len(),
                forall|j: int| 0 <= j < i ==> self.rooms@[j].name@ != room@,
            decreases self.rooms@.len() - i,
        {
            if self.rooms[i].name == *room {
                proof {
                    let k = i as int;
                    assert(self.model@.contains_key(self.rooms@[k].name@));
                }
                return Some(i);
            }
            i = i + 1;
        }
        proof {
            if self@.contains_key(room@) {
                assert(self.model@.contains_key(room@));
            }
        }
        None
    }

    /// Adds a connection to `room`, creating the room when absent, and
    /// returns the identifier it was given.
    pub fn join(&mut self, room: &str, label: String, handle: C) -> (id: u64)
        requires
            old(self).wf(),
        ensures
            final(self).wf(),
            id == old(self).next_id(),
            final(self).next_id() == successor(id),
            final(self)@ == after_join(old(self)@, room@, id),
            final(self).connections(room@) == (if old(self)@.contains_key(room@) {
                old(self).connections(room@)
            } else {
                Seq::empty()
            }).push((Connection { id, label, handle })),
            forall|k: Seq<char>|
                k != room@ && old(self)@.contains_key(k) ==> #[trigger] final(self).connections(k)
                    == old(self).connections(k),
    {
        let name = room.to_owned();
        let id = self.next_id;
        self.next_id = if id == u64::MAX {
            0
        } else {
            id + 1
        };
        let conn = Connection { id, label, handle };
        match self.position(&name) {
            Some(i) => {
                let ghost old_rooms = self.rooms@;
                let mut r = self.rooms.remove(i);
                proof {
                    lemma_ids_of_push(r.members@, conn);
                }
                r.members.push(conn);
                self.rooms.insert(i, r);
                self.model = Ghost(self.model@.insert(name@, self.model@[name@].push(id)));
                proof {
                    assert(names_distinct(old_rooms));
                    assert(self.rooms@ =~= old_rooms.update(i as int, r));
                    assert forall|k: Seq<char>| #[trigger] self.model@.contains_key(k) implies exists|j: int|
                        0 <= j < self.rooms@.len() && self.rooms@[j].name@ == k by {
                        if k != name@ {
                            let j = choose|j: int| 0 <= j < old_rooms.len() && old_rooms[j].name@ == k;
                            assert(self.rooms@[j].name@ == k);
                        } else {
                            assert(self.rooms@[i as int].name@ == k);
                        }
                    }
                    assert forall|j: int| 0 <= j < self.rooms@.len() implies #[trigger] self.model@.contains_key(self.rooms@[j].name@)
                        && self.model@[self.rooms@[j].name@] == ids_of(self.rooms@[j].members@) by {
                        if j != i {
                            if j < i {
                                assert(old_rooms[j].name@ != old_rooms[i as int].name@);
                            } else {
                                assert(old_rooms[i as int].name@ != old_rooms[j].name@);
                            }
                            assert(old(self).model@.contains_key(old_rooms[j].name@));
                            assert(self.rooms@[j] == old_rooms[j]);
                        } else {
                            assert(old(self).model@.contains_key(old_rooms[i as int].name@));
                            assert(self.rooms@[j].members@ == old_rooms[i as int].members@.push(conn));
                            assert(self.rooms@[j].name@ == name@);
                            assert(self.model@[name@] == old(self).model@[name@].push(id));
                            assert(ids_of(old_rooms[i as int].members@.push(conn)) == ids_of(old_rooms[i as int].members@).push(id));
                        }
                    }
                    assert(names_distinct(self.rooms@));
                    assert(self.wf());
                    lemma_connections_in(old_rooms, i as int);
                    lemma_connections_in(self.rooms@, i as int);
                    assert forall|k: Seq<char>|
                        k != room@ && old(self)@.contains_key(k) implies #[trigger] self.connections(k)
                            == old(self).connections(k) by {
                        let j = choose|j: int| 0 <= j < old_rooms.len() && old_rooms[j].name@ == k;
                        lemma_connections_in(old_rooms, j);
                        lemma_connections_in(self.rooms@, j);
                    }
                }
            },
            None => {
                let ghost old_rooms = self.rooms@;
                let mut members = Vec::new();
                members.push(conn);
                proof {
                    lemma_ids_of_push(Seq::<Connection<C>>::empty(), conn);
                    assert(Seq::<Connection<C>>::empty().push(conn) =~= members@);
                    assert(ids_of(Seq::<Connection<C>>::empty()) =~= Seq::<u64>::empty());
                }
                let ghost gname = name@;
                self.rooms.push(Room { name, members });
                self.model = Ghost(self.model@.insert(gname, seq![id]));
                proof {
                    assert(Seq::<u64>::empty().push(id) =~= seq![id]);
                    let last = old_rooms.len() as int;
                    assert(self.rooms@[last].name@ == gname);
                    assert forall|k: Seq<char>| #[trigger] self.model@.contains_key(k) implies exists|j: int|
                        0 <= j < self.rooms@.len() && self.rooms@[j].name@ == k by {
                        if k != gname {
                            let j = choose|j: int| 0 <= j < old_rooms.len() && old_rooms[j].name@ == k;
                            assert(self.rooms@[j].name@ == k);
                        }
                    }
                    assert forall|j: int| 0 <= j < self.rooms@.len() implies #[trigger] self.model@.contains_key(self.rooms@[j].name@)
                        && self.model@[self.rooms@[j].name@] == ids_of(self.rooms@[j].members@) by {
                        if j < last {
                            assert(old_rooms[j].name@ != gname);
                        }
                    }
                    assert(ids_of(Seq::<Connection<C>>::empty().push(conn)) == seq![id]);
                    assert(names_distinct(self.rooms@)) by {
                        assert forall|a: int, b: int| 0 <= a < b < self.rooms@.len() implies
                            self.rooms@[a].name@ != self.rooms@[b].name@ by {
                            if b == last {
                                assert(old_rooms[a].name@ != gname);
                            } else {
                                assert(old_rooms[a].name@ != old_rooms[b].name@);
                            }
                        }
                    }
                    assert(self.wf());
                    lemma_connections_in(self.rooms@, last);
                    assert forall|k: Seq<char>|
                        k != room@ && old(self)@.contains_key(k) implies #[trigger] self.connections(k)
                            == old(self).connections(k) by {
                        let j = choose|j: int| 0 <= j < old_rooms.len() && old_rooms[j].name@ == k;
                        lemma_connections_in(old_rooms, j);
                        lemma_connections_in(self.rooms@, j);
                    }
                }
            },
        }
        id
    }

    /// The connections of `room`, to which a broadcast is delivered, or
    /// `None` when the room is absent.
    pub fn members(&self, room: &str) -> (r: Option<&Vec<Connection<C>>>)
        requires
            self.wf(),
        ensures
            r is None <==> !self@.contains_key(room@),
            r matches Some(v) ==> ids_of(v@) == self@[room@] && v@ == self.connections(room@),
    {
        let name = room.to_owned();
        match self.position(&name) {
            Some(i) => {
                proof {
                    let k = i as int;
                    assert(self.model@.contains_key(self.rooms@[k].name@));
                    let c = choose|c: int| 0 <= c < self.rooms@.len() && self.rooms@[c].name@ == room@;
                    if c != k {
                        assert(self.rooms@[c].name@ != self.rooms@[k].name@);
                    }
                }
                Some(&self.rooms[i].members)
            },
            None => None,
        }
    }

    /// Ends a broadcast to `room`: drops the members whose send failed or
    /// timed out (those listed in `failed`), and removes the room when no
    /// member is left. Returns whether the room existed.
    pub fn settle(&mut self, room: &str, failed: &Vec<u64>) -> (existed: bool)
        requires
            old(self).wf(),
        ensures
            final(self).wf(),
            existed == old(self)@.contains_key(room@),
            final(self)@ == after_settle(old(self)@, room@, failed@),
            final(self)@.contains_key(room@) ==> final(self).connections(room@) == old(self).connections(
                room@,
            ).filter(connection_delivered(failed@)),
            forall|k: Seq<char>|
                k != room@ && final(self)@.contains_key(k) ==> #[trigger] final(self).connections(k)
                    == old(self).connections(k),
            final(self).next_id() == old(self).next_id(),
    {
        let name = room.to_owned();
        match self.position(&name) {
            None => false,
            Some(i) => {
                let ghost old_rooms = self.rooms@;
                let ghost old_model = self.model@;
                proof {
                    let k = i as int;
                    assert(self.model@.contains_key(self.rooms@[k].name@));
                    let c = choose|c: int| 0 <= c < old_rooms.len() && old_rooms[c].name@ == name@;
                    if c != k {
                        assert(old_rooms[c].name@ != old_rooms[k].name@);
                    }
                }
                let ghost old_conns = self.connections(name@);
                let mut r = self.rooms.remove(i);
                keep_delivered(&mut r.members, failed);
                let ghost left = ids_of(r.members@);
                assert(left == survivors(old_model[name@], failed@));
                proof {
                    assert forall|j: int| 0 <= j < self.rooms@.len() implies
                        #[trigger] self.rooms@[j].name@ != name@ && old_model.contains_key(self.rooms@[j].name@)
                        && old_model[self.rooms@[j].name@] == ids_of(self.rooms@[j].members@)
                        && self.rooms@[j].members@.len() > 0 by {
                        if j < i {
                            assert(self.rooms@[j] == old_rooms[j]);
                            assert(old_rooms[j].name@ != old_rooms[i as int].name@);
                        } else {
                            assert(self.rooms@[j] == old_rooms[j + 1]);
                            assert(old_rooms[i as int].name@ != old_rooms[j + 1].name@);
                        }
                    }
                    assert forall|a: int, b: int| 0 <= a < b < self.rooms@.len() implies self.rooms@[a].name@ != self.rooms@[b].name@ by {
                        let a2 = if a < i { a } else { a + 1 };
                        let b2 = if b < i { b } else { b + 1 };
                        assert(self.rooms@[a] == old_rooms[a2]);
                        assert(self.rooms@[b] == old_rooms[b2]);
                    }
                }
                if r.members.len() > 0 {
                    let ghost rest = self.rooms@;
                    self.rooms.push(r);
                    self.model = Ghost(old_model.insert(name@, left));
                    proof {
                        let last = rest.len() as int;
                        assert(self.rooms@[last].name@ == name@);
                        assert forall|k: Seq<char>| #[trigger] self.model@.contains_key(k) implies exists|j: int|
                            0 <= j < self.rooms@.len() && self.rooms@[j].name@ == k by {
                            if k != name@ {
                                let j = choose|j: int| 0 <= j < old_rooms.len() && old_rooms[j].name@ == k;
                                if j < i {
                                    assert(self.rooms@[j].name@ == k);
                                } else {
                                    assert(self.rooms@[j - 1].name@ == k);
                                }
                            }
                        }
                        assert forall|j: int| 0 <= j < self.rooms@.len() implies #[trigger] self.model@.contains_key(self.rooms@[j].name@)
                            && self.model@[self.rooms@[j].name@] == ids_of(self.rooms@[j].members@) by {
                            if j < last {
                                assert(rest[j].name@ != name@);
                            }
                        }
                        assert forall|a: int, b: int| 0 <= a < b < self.rooms@.len() implies self.rooms@[a].name@ != self.rooms@[b].name@ by {
                            if b == last {
                                assert(rest[a].name@ != name@);
                            } else {
                                assert(rest[a].name@ != rest[b].name@);
                            }
                        }
                        let c = choose|c: int| 0 <= c < self.rooms@.len() && self.rooms@[c].name@ == name@;
                        if c != last {
                            assert(rest[c].name@ != name@);
                        }
                        assert(self.connections(name@) == old_conns.filter(connection_delivered(failed@)));
                        assert(names_distinct(self.rooms@));
                        assert forall|k: Seq<char>| k != room@ && self@.contains_key(k) implies
                            #[trigger] self.connections(k) == old(self).connections(k) by {
                            assert(old_model.contains_key(k));
                            let j = choose|j: int| 0 <= j < old_rooms.len() && old_rooms[j].name@ == k;
                            lemma_connections_in(old_rooms, j);
                            assert(j != i);
                            let j2 = if j < i { j } else { j - 1 };
                            assert(self.rooms@[j2] == old_rooms[j]);
                            lemma_connections_in(self.rooms@, j2);
                        }
                    }
                } else {
                    self.model = Ghost(old_model.remove(name@));
                    proof {
                        assert forall|k: Seq<char>| #[trigger] self.model@.contains_key(k) implies exists|j: int|
                            0 <= j < self.rooms@.len() && self.rooms@[j].name@ == k by {
                            let j = choose|j: int| 0 <= j < old_rooms.len() && old_rooms[j].name@ == k;
                            if j < i {
                                assert(self.rooms@[j].name@ == k);
                            } else {
                                assert(j != i);
                                assert(self.rooms@[j - 1].name@ == k);
                            }
                        }
                        assert(names_distinct(self.rooms@));
                        assert forall|k: Seq<char>| k != room@ && self@.contains_key(k) implies
                            #[trigger] self.connections(k) == old(self).connections(k) by {
                            assert(old_model.contains_key(k));
                            let j = choose|j: int| 0 <= j < old_rooms.len() && old_rooms[j].name@ == k;
                            lemma_connections_in(old_rooms, j);
                            assert(j != i);
                            let j2 = if j < i { j } else { j - 1 };
                            assert(self.rooms@[j2] == old_rooms[j]);
                            lemma_connections_in(self.rooms@, j2);
                        }
                    }
                }
                true
            },
        }
    }

    /// The names of the rooms present, each once.
    pub fn room_names(&self) -> (r: Vec<String>)
        requires
            self.wf(),
        ensures
            forall|i: int| 0 <= i < r@.len() ==> self@.contains_key(#[trigger] r@[i]@),
            forall|k: Seq<char>| #[trigger] self@.contains_key(k) ==> exists|i: int|
                0 <= i < r@.len() && r@[i]@ == k,
            forall|i: int, j: int| 0 <= i < j < r@.len() ==> r@[i]@ != r@[j]@,
    {
        let mut names: Vec<String> = Vec::new();
        let mut i: usize = 0;
        while i < self.rooms.len()
            invariant
                self.wf(),
                i <= self.rooms@.len(),
                names@.len() == i,
                forall|j: int| 0 <= j < i ==> #[trigger] names@[j]@ == self.rooms@[j].name@,
            decreases self.rooms@.len() - i,
        {
            let n = self.rooms[i].name.clone();
            names.push(n);
            i = i + 1;
        }
        proof {
            assert forall|j: int| 0 <= j < names@.len() implies self@.contains_key(#[trigger] names@[j]@) by {
                assert(self.model@.contains_key(self.rooms@[j].name@));
            }
            assert forall|k: Seq<char>| #[trigger] self@.contains_key(k) implies exists|j: int|
                0 <= j < names@.len() && names@[j]@ == k by {
                assert(self.model@.contains_key(k));
                let j = choose|j: int| 0 <= j < self.rooms@.len() && self.rooms@[j].name@ == k;
                assert(names@[j]@ == k);
            }
            assert forall|a: int, b: int| 0 <= a < b < names@.len() implies names@[a]@ != names@[b]@ by {
                assert(names@[a]@ == self.rooms@[a].name@);
                assert(names@[b]@ == self.rooms@[b].name@);
            }
        }
        names
    }

    /// Ends a broadcast to every room: drops, in each room, the members
    /// listed in `failed`, and removes every room left empty.
    pub fn sweep(&mut self, failed: &Vec<u64>)
        requires
            old(self).wf(),
        ensures
            final(self).wf(),
            final(self)@ == after_sweep(old(self)@, failed@),
            forall|k: Seq<char>|
                final(self)@.contains_key(k) ==> #[trigger] final(self).connections(k) == old(self).connections(
                    k,
                ).filter(connection_delivered(failed@)),
            final(self).next_id() == old(self).next_id(),
    {
        let ghost start = self@;
        let names = self.room_names();
        let mut i: usize = 0;
        while i < names.len()
            invariant
                self.wf(),
                self.next_id() == old(self).next_id(),
                start == old(self)@,
                i <= names@.len(),
                forall|a: int| 0 <= a < names@.len() ==> start.contains_key(#[trigger] names@[a]@),
                forall|k: Seq<char>| #[trigger] start.contains_key(k) ==> exists|a: int|
                    0 <= a < names@.len() && names@[a]@ == k,
                forall|a: int, b: int| 0 <= a < b < names@.len() ==> names@[a]@ != names@[b]@,
                self@ == Map::new(
                    |k: Seq<char>| start.contains_key(k) && (named_before(names@, i as int, k)
                        ==> survivors(start[k], failed@).len() > 0),
                    |k: Seq<char>| if named_before(names@, i as int, k) {
                        survivors(start[k], failed@)
                    } else {
                        start[k]
                    },
                ),
                forall|k: Seq<char>|
                    #[trigger] self@.contains_key(k) ==> self.connections(k) == (if named_before(names@, i as int, k) {
                        old(self).connections(k).filter(connection_delivered(failed@))
                    } else {
                        old(self).connections(k)
                    }),
            decreases names@.len() - i,
        {
            let ghost before = self@;
            let ghost nm = names@[i as int]@;
            let ghost pre_rooms = self.rooms@;
            proof {
                assert(!named_before(names@, i as int, nm));
                assert(before.contains_key(nm));
                assert(before[nm] == start[nm]);
            }
            self.settle(names[i].as_str(), failed);
            i = i + 1;
            proof {
                assert forall|k: Seq<char>| k != nm implies
                    (#[trigger] named_before(names@, i as int, k) <==> named_before(names@, i - 1, k)) by {
                    if named_before(names@, i as int, k) {
                        let a = choose|a: int| 0 <= a < i && names@[a]@ == k;
                        assert(a < i - 1);
                    }
                }
                assert(named_before(names@, i as int, nm)) by {
                    assert(names@[i - 1]@ == nm);
                }
                assert forall|k: Seq<char>| #[trigger] self@.contains_key(k) implies self.connections(k) == (if named_before(names@, i as int, k) {
                        old(self).connections(k).filter(connection_delivered(failed@))
                    } else {
                        old(self).connections(k)
                    }) by {
                    assert(before.contains_key(k));
                    if k == nm {
                        assert(connections_in(pre_rooms, nm) == old(self).connections(nm));
                    } else {
                        assert(self.connections(k) == connections_in(pre_rooms, k));
                    }
                }
                assert(names@[i - 1]@ == nm);
                assert(self@ =~= Map::new(
                    |k: Seq<char>| start.contains_key(k) && (named_before(names@, i as int, k)
                        ==> survivors(start[k], failed@).len() > 0),
                    |k: Seq<char>| if named_before(names@, i as int, k) {
                        survivors(start[k], failed@)
                    } else {
                        start[k]
                    },
                )) by {
                    assert forall|k: Seq<char>| k != nm implies
                        (#[trigger] named_before(names@, i as int, k) <==> named_before(names@, i - 1, k)) by {
                        if named_before(names@, i as int, k) {
                            let a = choose|a: int| 0 <= a < i && names@[a]@ == k;
                            assert(a < i - 1);
                        }
                    }
                }
            }
        }
        proof {
            assert forall|k: Seq<char>| start.contains_key(k) implies named_before(names@, i as int, k) by {
                let a = choose|a: int| 0 <= a < names@.len() && names@[a]@ == k;
                assert(names@[a]@ == k);
            }
            assert(self@ =~= after_sweep(start, failed@));
        }
    }

    /// Whether `room` currently has any member.
    pub fn contains(&self, room: &str) -> (r: bool)
        requires
            self.wf(),
        ensures
            r == self@.contains_key(room@),
    {
        let name = room.to_owned();
        self.position(&name).is_some()
    }
}

} // verus!
