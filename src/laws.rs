//! Properties of the registry's membership that relate several operations.
use vstd::prelude::*;

use crate::registry::{after_join, after_settle, after_sweep, delivered, members_or_empty, survivors};

verus! {

/// One change of membership, as the registry's operations make them.
pub enum Change {
    Join { room: Seq<char>, id: u64 },
    Settle { room: Seq<char>, failed: Seq<u64> },
    Sweep { failed: Seq<u64> },
}

/// Membership after applying `changes` in order to `v`.
pub open spec fn replay(v: Map<Seq<char>, Seq<u64>>, changes: Seq<Change>) -> Map<Seq<char>, Seq<u64>>
    decreases changes.len(),
{
    if changes.len() == 0 {
        v
    } else {
        let w = replay(v, changes.drop_last());
        match changes.last() {
            Change::Join { room, id } => after_join(w, room, id),
            Change::Settle { room, failed } => after_settle(w, room, failed),
            Change::Sweep { failed } => after_sweep(w, failed),
        }
    }
}

/// Whether some change of `changes` is a join to `room`.
pub open spec fn joins_room(changes: Seq<Change>, room: Seq<char>) -> bool {
    exists|i: int| 0 <= i < changes.len() && is_join_to(#[trigger] changes[i], room)
}

/// Whether `change` is a join to `room`.
pub open spec fn is_join_to(change: Change, room: Seq<char>) -> bool {
    match change {
        Change::Join { room: r, .. } => r == room,
        _ => false,
    }
}

/// Membership after connections with identifiers `ids` join `room` in turn.
pub open spec fn joins(v: Map<Seq<char>, Seq<u64>>, room: Seq<char>, ids: Seq<u64>) -> Map<Seq<char>, Seq<u64>>
    decreases ids.len(),
{
    if ids.len() == 0 {
        v
    } else {
        after_join(joins(v, room, ids.drop_last()), room, ids.last())
    }
}

/// A room that nobody joined is absent: starting from an empty registry, no
/// sequence of joins to other rooms, broadcasts and heartbeat sweeps makes
/// it present, so a trigger of it finds nothing.
pub proof fn law_unjoined_room_is_absent(changes: Seq<Change>, room: Seq<char>)
    requires
        !joins_room(changes, room),
    ensures
        !replay(Map::empty(), changes).contains_key(room),
    decreases changes.len(),
{
    if changes.len() > 0 {
        let rest = changes.drop_last();
        assert forall|i: int| 0 <= i < rest.len() implies !is_join_to(#[trigger] rest[i], room) by {
            assert(rest[i] == changes[i]);
        }
        law_unjoined_room_is_absent(rest, room);
        assert(changes[changes.len() - 1] == changes.last());
    }
}

/// A joined connection is among those a broadcast to its room is sent to,
/// and when its send succeeds it is still a member afterwards.
pub proof fn law_delivered_member_stays(v: Map<Seq<char>, Seq<u64>>, room: Seq<char>, id: u64, failed: Seq<u64>)
    requires
        !failed.contains(id),
    ensures
        after_join(v, room, id)[room].contains(id),
        after_settle(after_join(v, room, id), room, failed).contains_key(room),
        after_settle(after_join(v, room, id), room, failed)[room].contains(id),
{
    let s = members_or_empty(v, room).push(id);
    assert(s[s.len() - 1] == id);
    lemma_survivor(s, failed, id);
}

proof fn lemma_survivor(s: Seq<u64>, failed: Seq<u64>, id: u64)
    requires
        s.contains(id),
        !failed.contains(id),
    ensures
        survivors(s, failed).contains(id),
        survivors(s, failed).len() > 0,
{
    let i = choose|i: int| 0 <= i < s.len() && s[i] == id;
    s.lemma_filter_contains(delivered(failed), i);
}

/// A connection whose send fails is no member of its room after the
/// broadcast; when it was the room's only member the room is gone.
pub proof fn law_failed_member_is_evicted(v: Map<Seq<char>, Seq<u64>>, room: Seq<char>, id: u64, failed: Seq<u64>)
    requires
        failed.contains(id),
    ensures
        !(after_settle(v, room, failed).contains_key(room) && after_settle(v, room, failed)[room].contains(id)),
        !v.contains_key(room) ==> !after_settle(after_join(v, room, id), room, failed).contains_key(room),
{
    if v.contains_key(room) {
        let s = v[room];
        if survivors(s, failed).contains(id) {
            let i = choose|i: int| 0 <= i < survivors(s, failed).len() && survivors(s, failed)[i] == id;
            s.lemma_filter_pred(delivered(failed), i);
        }
    } else {
        let s = Seq::<u64>::empty().push(id);
        assert(members_or_empty(v, room) == Seq::<u64>::empty());
        reveal_with_fuel(Seq::filter, 2);
        assert(s.drop_last() =~= Seq::<u64>::empty());
        assert(s.last() == id);
        assert(survivors(s, failed) =~= Seq::<u64>::empty());
    }
}

/// Broadcasting to a room that is absent, for instance one whose members
/// were all dropped by the previous broadcast, changes nothing.
pub proof fn law_settle_of_absent_room_is_noop(v: Map<Seq<char>, Seq<u64>>, room: Seq<char>, failed: Seq<u64>, again: Seq<u64>)
    ensures
        !v.contains_key(room) ==> after_settle(v, room, failed) == v,
        v.contains_key(room) && survivors(v[room], failed).len() == 0 ==> {
            let w = after_settle(v, room, failed);
            !w.contains_key(room) && after_settle(w, room, again) == w
        },
{
}

/// After `ids` join a room that was absent and one broadcast follows, the
/// room holds at most as many members as joined, each of them one of `ids`.
pub proof fn law_joins_then_broadcast_bounded(v: Map<Seq<char>, Seq<u64>>, room: Seq<char>, ids: Seq<u64>, failed: Seq<u64>)
    requires
        !v.contains_key(room),
    ensures
        after_settle(joins(v, room, ids), room, failed).contains_key(room) ==> {
            let m = after_settle(joins(v, room, ids), room, failed)[room];
            m.len() <= ids.len() && forall|x: u64| m.contains(x) ==> ids.contains(x)
        },
{
    lemma_joins_members(v, room, ids);
    let w = joins(v, room, ids);
    if w.contains_key(room) {
        let m = survivors(ids, failed);
        ids.lemma_filter_len(delivered(failed));
        assert forall|x: u64| m.contains(x) implies ids.contains(x) by {
            ids.lemma_filter_contains_rev(delivered(failed), x);
        }
    }
}

proof fn lemma_joins_members(v: Map<Seq<char>, Seq<u64>>, room: Seq<char>, ids: Seq<u64>)
    requires
        !v.contains_key(room),
    ensures
        members_or_empty(joins(v, room, ids), room) == ids,
        ids.len() == 0 ==> !joins(v, room, ids).contains_key(room),
    decreases ids.len(),
{
    if ids.len() > 0 {
        lemma_joins_members(v, room, ids.drop_last());
        assert(ids.drop_last().push(ids.last()) =~= ids);
    }
}

/// A heartbeat sweep creates no room: every room present after it was
/// present before, so a sweep of an empty registry leaves it empty.
pub proof fn law_sweep_creates_no_room(v: Map<Seq<char>, Seq<u64>>, failed: Seq<u64>)
    ensures
        after_sweep(v, failed).dom().subset_of(v.dom()),
        v.dom().is_empty() ==> after_sweep(v, failed).dom().is_empty(),
        after_sweep(Map::empty(), failed) == Map::<Seq<char>, Seq<u64>>::empty(),
{
    assert(after_sweep(Map::empty(), failed) =~= Map::<Seq<char>, Seq<u64>>::empty());
    if v.dom().is_empty() {
        assert(after_sweep(v, failed).dom() =~= Set::<Seq<char>>::empty());
    }
}

/// The identifiers that joined `room`, in the order of `changes`.
pub open spec fn joined_ids(changes: Seq<Change>, room: Seq<char>) -> Seq<u64>
    decreases changes.len(),
{
    if changes.len() == 0 {
        Seq::empty()
    } else {
        let rest = joined_ids(changes.drop_last(), room);
        match changes.last() {
            Change::Join { room: r, id } => if r == room {
                rest.push(id)
            } else {
                rest
            },
            _ => rest,
        }
    }
}

proof fn lemma_survivors_within(s: Seq<u64>, failed: Seq<u64>)
    ensures
        survivors(s, failed).len() <= s.len(),
        forall|x: u64| survivors(s, failed).contains(x) ==> s.contains(x),
        s.no_duplicates() ==> survivors(s, failed).no_duplicates(),
    decreases s.len(),
{
    s.lemma_filter_len(delivered(failed));
    assert forall|x: u64| survivors(s, failed).contains(x) implies s.contains(x) by {
        s.lemma_filter_contains_rev(delivered(failed), x);
    }
    if s.len() > 0 && s.no_duplicates() {
        let d = s.drop_last();
        assert(d.no_duplicates()) by {
            assert forall|i: int, j: int| 0 <= i < d.len() && 0 <= j < d.len() && i != j implies d[i] != d[j] by {
                assert(d[i] == s[i] && d[j] == s[j]);
            }
        }
        lemma_survivors_within(d, failed);
        reveal_with_fuel(Seq::filter, 1);
        let f = survivors(d, failed);
        if delivered(failed)(s.last()) {
            assert(!f.contains(s.last())) by {
                if f.contains(s.last()) {
                    assert(d.contains(s.last()));
                    let k = choose|k: int| 0 <= k < d.len() && d[k] == s.last();
                    assert(d[k] == s[k]);
                    assert(s[k] == s[s.len() - 1]);
                }
            }
            assert(survivors(s, failed) == f.push(s.last()));
            assert forall|i: int, j: int| 0 <= i < f.len() + 1 && 0 <= j < f.len() + 1 && i != j implies
                f.push(s.last())[i] != f.push(s.last())[j] by {
                if i < f.len() && j < f.len() {
                } else if i == f.len() {
                    assert(f.contains(f[j]));
                } else {
                    assert(f.contains(f[i]));
                }
            }
        } else {
            assert(survivors(s, failed) == f);
        }
    }
}

/// Whatever the interleaving of joins, broadcasts and heartbeat sweeps,
/// starting from an empty registry a room holds only connections that
/// joined it, no more of them than joined, and each at most once when the
/// joins had distinct identifiers.
pub proof fn law_interleaved_membership_sound(changes: Seq<Change>, room: Seq<char>)
    ensures
        members_or_empty(replay(Map::empty(), changes), room).len() <= joined_ids(changes, room).len(),
        forall|x: u64|
            members_or_empty(replay(Map::empty(), changes), room).contains(x) ==> joined_ids(changes, room).contains(x),
        joined_ids(changes, room).no_duplicates() ==> members_or_empty(replay(Map::empty(), changes), room).no_duplicates(),
    decreases changes.len(),
{
    if changes.len() > 0 {
        let rest = changes.drop_last();
        law_interleaved_membership_sound(rest, room);
        let v = replay(Map::empty(), rest);
        let m = members_or_empty(v, room);
        let j = joined_ids(rest, room);
        lemma_survivors_within(m, Seq::empty());
        match changes.last() {
            Change::Join { room: r, id } => {
                if r == room {
                    let j2 = j.push(id);
                    assert(members_or_empty(replay(Map::empty(), changes), room) == m.push(id));
                    assert(joined_ids(changes, room) == j2);
                    assert(j2.no_duplicates() ==> j.no_duplicates()) by {
                        if j2.no_duplicates() {
                            assert forall|a: int, b: int| 0 <= a < j.len() && 0 <= b < j.len() && a != b implies j[a] != j[b] by {
                                assert(j[a] == j2[a] && j[b] == j2[b]);
                            }
                        }
                    }
                    assert forall|x: u64| m.push(id).contains(x) implies j2.contains(x) by {
                        if x != id {
                            let k = choose|k: int| 0 <= k < m.len() + 1 && m.push(id)[k] == x;
                            assert(k < m.len());
                            assert(m[k] == x);
                            assert(m.contains(x));
                            assert(j.contains(x));
                            let k2 = choose|k2: int| 0 <= k2 < j.len() && j[k2] == x;
                            assert(j2[k2] == x);
                        } else {
                            assert(j2[j.len() as int] == x);
                        }
                    }
                    if j2.no_duplicates() {
                        assert(!j.contains(id)) by {
                            if j.contains(id) {
                                let k = choose|k: int| 0 <= k < j.len() && j[k] == id;
                                assert(j2[k] == j2[j.len() as int]);
                            }
                        }
                        assert(!m.contains(id));
                        assert forall|a: int, b: int| 0 <= a < m.len() + 1 && 0 <= b < m.len() + 1 && a != b implies
                            m.push(id)[a] != m.push(id)[b] by {
                            if a == m.len() {
                                assert(m.contains(m[b]));
                            } else if b == m.len() {
                                assert(m.contains(m[a]));
                            }
                        }
                    }
                } else {
                    assert(members_or_empty(replay(Map::empty(), changes), room) == m);
                }
            },
            Change::Settle { room: r, failed } => {
                lemma_survivors_within(m, failed);
                if r == room && v.contains_key(room) && survivors(m, failed).len() > 0 {
                    assert(members_or_empty(replay(Map::empty(), changes), room) == survivors(m, failed));
                } else if r == room && v.contains_key(room) {
                    assert(members_or_empty(replay(Map::empty(), changes), room) == Seq::<u64>::empty());
                } else {
                    assert(members_or_empty(replay(Map::empty(), changes), room) == m);
                }
                lemma_within_chain(m, survivors(m, failed), j);
            },
            Change::Sweep { failed } => {
                lemma_survivors_within(m, failed);
                if v.contains_key(room) && survivors(m, failed).len() > 0 {
                    assert(members_or_empty(replay(Map::empty(), changes), room) == survivors(m, failed));
                } else {
                    assert(members_or_empty(replay(Map::empty(), changes), room) == Seq::<u64>::empty());
                }
                lemma_within_chain(m, survivors(m, failed), j);
            },
        }
    }
}

proof fn lemma_within_chain(m: Seq<u64>, f: Seq<u64>, j: Seq<u64>)
    requires
        forall|x: u64| f.contains(x) ==> m.contains(x),
        forall|x: u64| m.contains(x) ==> j.contains(x),
    ensures
        forall|x: u64| f.contains(x) ==> j.contains(x),
{
}

} // verus!
