//! Connections between rooms: the candidates for passages.
use crate::room::Room;
use crate::room::RoomId;
use vstd::prelude::*;

verus! {

/// The squared distance between the centres of two rooms, rounded down, or
/// the greatest number if it is too large.
pub open spec fn spec_squared_length(a: Room, b: Room) -> u64 {
    let ca = a.spec_center_doubled();
    let cb = b.spec_center_doubled();
    let s = ((ca.0 - cb.0) * (ca.0 - cb.0) + (ca.1 - cb.1) * (ca.1 - cb.1) + (ca.2 - cb.2) * (ca.2
        - cb.2)) / 4;
    if s >= u64::MAX {
        u64::MAX
    } else {
        s as u64
    }
}

/// A pair of rooms that a passage may connect, with the squared distance
/// between their centres.
#[derive(Debug, Copy, Clone, PartialEq, Eq, Structural)]
pub struct RoomConnection {
    pub room0_id: RoomId,
    pub room1_id: RoomId,
    pub squared_length: u64,
}

/// The connection between two rooms.
pub open spec fn connection_between(a: Room, b: Room) -> RoomConnection {
    RoomConnection { room0_id: a.id, room1_id: b.id, squared_length: spec_squared_length(a, b) }
}

/// The square of the difference of two numbers.
fn squared_gap(a: u64, b: u64) -> (s: u128)
    requires
        a <= 0x4_0000_0000,
        b <= 0x4_0000_0000,
    ensures
        s == (a - b) * (a - b),
        s <= 0x10_0000_0000_0000_0000,
{
    let d: u128 = if a >= b {
        (a - b) as u128
    } else {
        (b - a) as u128
    };
    assert(d * d <= 0x4_0000_0000 * 0x4_0000_0000) by (nonlinear_arith)
        requires
            0 <= d <= 0x4_0000_0000,
    ;
    assert(d * d == (a - b) * (a - b)) by (nonlinear_arith)
        requires
            d == a - b || d == b - a,
    ;
    d * d
}

impl RoomConnection {
    /// The connection between two rooms.
    pub fn new(a: &Room, b: &Room) -> (c: Self)
        ensures
            c == connection_between(*a, *b),
    {
        let ca = a.center_doubled();
        let cb = b.center_doubled();
        let sum: u128 = squared_gap(ca.0, cb.0) + squared_gap(ca.1, cb.1) + squared_gap(
            ca.2,
            cb.2,
        );
        let s = sum / 4;
        let squared_length: u64 = if s >= u64::MAX as u128 {
            u64::MAX
        } else {
            s as u64
        };
        RoomConnection { room0_id: a.id, room1_id: b.id, squared_length }
    }

    /// The two rooms by the numbers of their identifiers, the smaller first:
    /// the same for a connection and for its reverse.
    pub open spec fn spec_key(&self) -> (u64, u64) {
        pair_key((self.room0_id.spec_inner(), self.room1_id.spec_inner()))
    }

    /// The two rooms by the numbers of their identifiers, the smaller first.
    pub fn key(&self) -> (k: (u64, u64))
        ensures
            k == self.spec_key(),
    {
        normalized_pair((self.room0_id.inner(), self.room1_id.inner()))
    }

    /// The connection as a weighted edge between the numbers of the rooms'
    /// identifiers.
    pub open spec fn spec_edge(&self) -> (u64, u64, u64) {
        (self.room0_id.spec_inner(), self.room1_id.spec_inner(), self.squared_length)
    }

    /// The connection as a weighted edge.
    pub fn edge(&self) -> (e: (u64, u64, u64))
        ensures
            e == self.spec_edge(),
    {
        (self.room0_id.inner(), self.room1_id.inner(), self.squared_length)
    }
}

/// The pair with the smaller number first.
pub open spec fn pair_key(pair: (u64, u64)) -> (u64, u64) {
    if pair.0 < pair.1 {
        pair
    } else {
        (pair.1, pair.0)
    }
}

/// The pair with the smaller number first.
pub fn normalized_pair(pair: (u64, u64)) -> (k: (u64, u64))
    ensures
        k == pair_key(pair),
{
    if pair.0 < pair.1 {
        pair
    } else {
        (pair.1, pair.0)
    }
}

/// A pair and its reverse have the same key, and a key is its own key.
pub proof fn lemma_pair_key(a: u64, b: u64)
    ensures
        pair_key((a, b)) == pair_key((b, a)),
        pair_key(pair_key((a, b))) == pair_key((a, b)),
        pair_key((a, b)).0 <= pair_key((a, b)).1,
{
}

/// The connections of the first room with each of the others, in order.
pub open spec fn links(a: Room, others: Seq<Room>) -> Seq<RoomConnection> {
    others.map_values(|b: Room| connection_between(a, b))
}

/// The connections of every room with every later room: first all of the
/// first room, then all of the second, and so on.
pub open spec fn all_pairs(rooms: Seq<Room>) -> Seq<RoomConnection>
    decreases rooms.len(),
{
    if rooms.len() == 0 {
        Seq::empty()
    } else {
        links(rooms[0], rooms.drop_first()) + all_pairs(rooms.drop_first())
    }
}

/// The connections of every room with every later room.
pub fn connect_all(rooms: &Vec<Room>) -> (out: Vec<RoomConnection>)
    ensures
        out@ == all_pairs(rooms@),
{
    let n = rooms.len();
    let mut out: Vec<RoomConnection> = Vec::new();
    let mut i: usize = 0;
    proof {
        assert(rooms@.subrange(0, n as int) =~= rooms@);
    }
    while i < n
        invariant
            n == rooms@.len(),
            i <= n,
            out@ + all_pairs(rooms@.subrange(i as int, n as int)) == all_pairs(rooms@),
        decreases n - i,
    {
        let ghost before = out@;
        let ghost tail = rooms@.subrange(i as int, n as int);
        let ghost others = rooms@.subrange(i + 1, n as int);
        proof {
            assert(tail.drop_first() =~= others);
            assert(tail[0] == rooms@[i as int]);
        }
        let mut j: usize = i + 1;
        while j < n
            invariant
                n == rooms@.len(),
                i < n,
                i + 1 <= j <= n,
                others == rooms@.subrange(i + 1, n as int),
                out@ == before + links(rooms@[i as int], rooms@.subrange(i + 1, j as int)),
            decreases n - j,
        {
            let c = RoomConnection::new(&rooms[i], &rooms[j]);
            out.push(c);
            proof {
                let a = rooms@[i as int];
                let short = rooms@.subrange(i + 1, j as int);
                let long = rooms@.subrange(i + 1, j + 1);
                assert(long =~= short.push(rooms@[j as int]));
                assert(links(a, long) =~= links(a, short).push(connection_between(
                    a,
                    rooms@[j as int],
                )));
            }
            j = j + 1;
        }
        proof {
            assert(rooms@.subrange(i + 1, n as int) == others);
            assert(out@ + all_pairs(others) =~= before + all_pairs(tail));
        }
        i = i + 1;
    }
    proof {
        assert(all_pairs(rooms@.subrange(n as int, n as int)) =~= Seq::<RoomConnection>::empty());
        assert(out@ + Seq::<RoomConnection>::empty() =~= out@);
    }
    out
}

/// The connection joins two rooms of the sequence, the earlier first.
pub open spec fn joins(rooms: Seq<Room>, c: RoomConnection) -> bool {
    exists|i: int, j: int|
        0 <= i < j < rooms.len() && c == #[trigger] connection_between(rooms[i], rooms[j])
}

/// Every connection of `all_pairs` joins two rooms, the earlier first.
pub proof fn lemma_all_pairs_join(rooms: Seq<Room>)
    ensures
        forall|k: int| 0 <= k < all_pairs(rooms).len() ==> joins(rooms, #[trigger] all_pairs(rooms)[k]),
    decreases rooms.len(),
{
    if rooms.len() > 0 {
        let rest = rooms.drop_first();
        lemma_all_pairs_join(rest);
        let first = links(rooms[0], rest);
        assert forall|k: int| 0 <= k < all_pairs(rooms).len() implies joins(
            rooms,
            #[trigger] all_pairs(rooms)[k],
        ) by {
            let c = all_pairs(rooms)[k];
            if k < first.len() {
                assert(c == connection_between(rooms[0], rest[k]));
                assert(rest[k] == rooms[k + 1]);
                assert(c == connection_between(rooms[0], rooms[k + 1]));
            } else {
                let inner = all_pairs(rest)[k - first.len()];
                assert(c == inner);
                assert(joins(rest, inner));
                let (i, j) = choose|i: int, j: int|
                    0 <= i < j < rest.len() && inner == #[trigger] connection_between(
                        rest[i],
                        rest[j],
                    );
                assert(rest[i] == rooms[i + 1] && rest[j] == rooms[j + 1]);
                assert(c == connection_between(rooms[i + 1], rooms[j + 1]));
            }
        }
    }
}

} // verus!
