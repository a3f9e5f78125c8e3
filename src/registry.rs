//! The directory server's registries of live users and rooms. Each is kept
//! twice, by id and by name, and recycles the ids of what it removes.
use std::collections::HashMap;
use vstd::hash_map::StringHashMap;
use vstd::prelude::*;
use crate::records::{ClientInfo, ID, Room, User};

verus! {

broadcast use vstd::std_specs::hash::group_hash_axioms, vstd::hash_map::group_hash_map_axioms;

/// Ids from `lo` up to `hi` (excluded) that all lie in a finite set are no
/// more than its size.
proof fn lemma_range_in_set(dom: Set<u32>, lo: int, hi: int)
    requires
        dom.finite(),
        0 <= lo <= hi <= u32::MAX + 1,
        forall|j: u32| lo <= j < hi ==> dom.contains(j),
    ensures
        hi - lo <= dom.len(),
    decreases hi - lo,
{
    if lo < hi {
        let top = (hi - 1) as u32;
        assert(dom.contains(top));
        let rest = dom.remove(top);
        assert forall|j: u32| lo <= j < hi - 1 implies rest.contains(j) by {
            assert(dom.contains(j));
        }
        lemma_range_in_set(rest, lo, hi - 1);
    }
}

/// Where the upward scan for a fresh id starts: the map's size, but never the
/// reserved id 0.
pub open spec fn scan_start(len: nat) -> int {
    if len == 0 {
        1
    } else {
        len as int
    }
}

/// `k` is the id that the upward scan over the ids in use `used` finds.
pub open spec fn scanned_id(used: Set<u32>, k: u32) -> bool {
    &&& k >= scan_start(used.len())
    &&& !used.contains(k)
    &&& forall|j: u32| scan_start(used.len()) <= j < k ==> used.contains(j)
}

/// Ids waiting for reuse: nonzero, not in use, each once.
pub open spec fn recyclable(free: Seq<u32>, used: Set<u32>) -> bool {
    &&& forall|i: int| 0 <= i < free.len() ==> free[i] != 0 && !used.contains(#[trigger] free[i])
    &&& forall|i: int, j: int| 0 <= i < j < free.len() ==> free[i] != free[j]
}

/// The id a new entry gets: the most recently freed one, else the first id
/// not in use when scanning upward from the number of entries.
pub open spec fn allocated(free: Seq<u32>, used: Set<u32>, k: u32) -> bool {
    if free.len() > 0 {
        k == free.last()
    } else {
        scanned_id(used, k)
    }
}

/// Takes an id for a new entry of `used`. `None` only when no id is left,
/// which cannot happen while fewer than half of all ids are in use.
fn alloc_id<V>(used: &HashMap<u32, V>, free: &mut Vec<u32>) -> (r: Option<u32>)
    requires
        recyclable(old(free)@, used@.dom()),
    ensures
        used@.len() <= u32::MAX / 2 ==> r is Some,
        r matches Some(k) ==> {
            &&& k != 0
            &&& !used@.contains_key(k)
            &&& allocated(old(free)@, used@.dom(), k)
            &&& final(free)@ == if old(free)@.len() > 0 {
                old(free)@.drop_last()
            } else {
                old(free)@
            }
        },
        r is None ==> final(free)@ == old(free)@,
{
    if free.len() > 0 {
        let k = free.pop().unwrap();
        assert(k == old(free)@[old(free)@.len() - 1]);
        return Some(k);
    }
    let len = used.len();
    if len >= u32::MAX as usize {
        return None;
    }
    let start: u32 = if len == 0 {
        1
    } else {
        len as u32
    };
    let mut k: u32 = start;
    while used.contains_key(&k)
        invariant
            start == scan_start(used@.len()),
            start <= k,
            free@ == old(free)@,
            forall|j: u32| start <= j < k ==> used@.contains_key(j),
        decreases u32::MAX - k,
    {
        if k == u32::MAX {
            proof {
                assert forall|j: u32| start <= j < u32::MAX + 1 implies used@.dom().contains(j) by {}
                lemma_range_in_set(used@.dom(), start as int, u32::MAX + 1);
            }
            return None;
        }
        k = k + 1;
    }
    Some(k)
}

/// The live users, by id and by name.
pub struct AllUserInfo {
    by_id: HashMap<ID, User>,
    by_name: StringHashMap<ID>,
    unuse_id: Vec<ID>,
}

impl AllUserInfo {
    /// The users by id.
    pub closed spec fn ids(&self) -> Map<u32, User> {
        self.by_id@
    }

    /// The user ids by name.
    pub closed spec fn names(&self) -> Map<Seq<char>, u32> {
        self.by_name@
    }

    /// The ids waiting for reuse, the next one last.
    pub closed spec fn free_ids(&self) -> Seq<u32> {
        self.unuse_id@
    }

    /// Both indexes describe the same users, ids are nonzero, and the ids
    /// waiting for reuse are free.
    pub open spec fn wf(&self) -> bool {
        &&& forall|id: u32| #[trigger]
            self.ids().contains_key(id) ==> {
                &&& id != 0
                &&& self.ids()[id].id == id
                &&& self.names().contains_key(self.ids()[id].name@)
                &&& self.names()[self.ids()[id].name@] == id
            }
        &&& forall|n: Seq<char>| #[trigger]
            self.names().contains_key(n) ==> {
                &&& self.ids().contains_key(self.names()[n])
                &&& self.ids()[self.names()[n]].name@ == n
            }
        &&& recyclable(self.free_ids(), self.ids().dom())
    }

    /// Same ids, names and ids waiting for reuse.
    pub open spec fn same(&self, other: AllUserInfo) -> bool {
        &&& self.ids() == other.ids()
        &&& self.names() == other.names()
        &&& self.free_ids() == other.free_ids()
    }

    pub fn new() -> (r: AllUserInfo)
        ensures
            r.wf(),
            r.ids() == Map::<u32, User>::empty(),
            r.names() == Map::<Seq<char>, u32>::empty(),
            r.free_ids() == Seq::<u32>::empty(),
    {
        AllUserInfo { by_id: HashMap::new(), by_name: StringHashMap::new(), unuse_id: Vec::new() }
    }

    /// Whether a live user has this name.
    pub fn has_name(&self, name: &String) -> (r: bool)
        ensures
            r == self.names().contains_key(name@),
    {
        self.by_name.contains_key(name.as_str())
    }

    /// Registers `u` under a fresh id, written into `u.id`. Returns false,
    /// changing nothing, only when no id is left.
    pub fn insert(&mut self, u: &mut User) -> (r: bool)
        requires
            old(self).wf(),
            !old(self).names().contains_key(old(u).name@),
        ensures
            final(self).wf(),
            old(self).ids().len() <= u32::MAX / 2 ==> r,
            r ==> user_added(*old(self), *final(self), *old(u), final(u).id),
            r ==> final(u).name == old(u).name && final(u).passwd == old(u).passwd,
            !r ==> final(self).same(*old(self)) && *final(u) == *old(u),
    {
        let k = match alloc_id(&self.by_id, &mut self.unuse_id) {
            Some(k) => k,
            None => return false,
        };
        u.id = k;
        let rec = User { id: k, name: u.name.clone(), passwd: u.passwd.clone() };
        self.by_name.insert(u.name.clone(), k);
        self.by_id.insert(k, rec);
        proof {
            assert(self.ids().dom() == old(self).ids().dom().insert(k));
            assert forall|id: u32| #[trigger] self.ids().contains_key(id) implies {
                &&& id != 0
                &&& self.ids()[id].id == id
                &&& self.names().contains_key(self.ids()[id].name@)
                &&& self.names()[self.ids()[id].name@] == id
            } by {
                if id != k {
                    assert(old(self).ids().contains_key(id));
                }
            }
            assert forall|n: Seq<char>| #[trigger] self.names().contains_key(n) implies {
                &&& self.ids().contains_key(self.names()[n])
                &&& self.ids()[self.names()[n]].name@ == n
            } by {
                if n != u.name@ {
                    assert(old(self).names().contains_key(n));
                }
            }
            assert forall|i: int| 0 <= i < self.free_ids().len() implies self.free_ids()[i] != 0
                && !self.ids().dom().contains(#[trigger] self.free_ids()[i]) by {
                assert(self.free_ids()[i] == old(self).free_ids()[i]);
                if old(self).free_ids().len() > 0 {
                    assert(k == old(self).free_ids()[old(self).free_ids().len() - 1]);
                }
            }
            assert forall|i: int, j: int| 0 <= i < j < self.free_ids().len() implies self.free_ids()[i]
                != self.free_ids()[j] by {
                assert(self.free_ids()[i] == old(self).free_ids()[i]);
                assert(self.free_ids()[j] == old(self).free_ids()[j]);
            }
        }
        true
    }

    /// The live users, in no particular order.
    pub fn list(&self) -> (r: Vec<User>)
        requires
            self.wf(),
        ensures
            r@.len() == self.ids().len(),
            forall|i: int| 0 <= i < r@.len() ==> #[trigger] self.ids().contains_key(r@[i].id) && self.ids()[r@[i].id] == r@[i],
    {
        let mut r: Vec<User> = Vec::new();
        for kv in it: self.by_id.iter()
            invariant
                self.wf(),
                r@.len() == it.index(),
                forall|j: int| 0 <= j < r@.len() ==> r@[j] == *it.seq()[j].1 && self.ids().contains_key(*it.seq()[j].0) && self.ids()[*it.seq()[j].0] == *it.seq()[j].1,
        {
            r.push(User { id: kv.1.id, name: kv.1.name.clone(), passwd: kv.1.passwd.clone() });
        }
        r
    }

    /// Removes the live user `id` and keeps its id for reuse.
    pub fn remove(&mut self, id: ID) -> (r: Option<User>)
        requires
            old(self).wf(),
        ensures
            final(self).wf(),
            old(self).ids().contains_key(id) ==> user_removed(*old(self), *final(self), id)
                && r == Some(old(self).ids()[id]),
            !old(self).ids().contains_key(id) ==> final(self).same(*old(self)) && r is None,
    {
        if !self.by_id.contains_key(&id) {
            return None;
        }
        let u = self.by_id.remove(&id).unwrap();
        self.by_name.remove(u.name.as_str());
        self.unuse_id.push(id);
        proof {
            assert forall|n: Seq<char>| #[trigger] self.names().contains_key(n) implies {
                &&& self.ids().contains_key(self.names()[n])
                &&& self.ids()[self.names()[n]].name@ == n
            } by {
                assert(old(self).names().contains_key(n));
            }
            assert forall|i: int| 0 <= i < self.free_ids().len() implies self.free_ids()[i] != 0
                && !self.ids().dom().contains(#[trigger] self.free_ids()[i]) by {
                if i < old(self).free_ids().len() {
                    assert(self.free_ids()[i] == old(self).free_ids()[i]);
                }
            }
            assert forall|i: int, j: int| 0 <= i < j < self.free_ids().len() implies self.free_ids()[i]
                != self.free_ids()[j] by {
                assert(self.free_ids()[i] == old(self).free_ids()[i]);
                if j < old(self).free_ids().len() {
                    assert(self.free_ids()[j] == old(self).free_ids()[j]);
                } else {
                    assert(old(self).ids().contains_key(id));
                }
            }
        }
        Some(u)
    }
}

/// `after` is `before` with user `u` added under id `k`, which was taken as
/// `allocated` says.
pub open spec fn user_added(before: AllUserInfo, after: AllUserInfo, u: User, k: u32) -> bool {
    &&& k != 0
    &&& !before.ids().contains_key(k)
    &&& allocated(before.free_ids(), before.ids().dom(), k)
    &&& after.ids() == before.ids().insert(k, User { id: k, ..u })
    &&& after.names() == before.names().insert(u.name@, k)
    &&& after.free_ids() == if before.free_ids().len() > 0 {
        before.free_ids().drop_last()
    } else {
        before.free_ids()
    }
}

/// `after` is `before` without user `id`, whose id now waits for reuse.
pub open spec fn user_removed(before: AllUserInfo, after: AllUserInfo, id: u32) -> bool {
    &&& after.ids() == before.ids().remove(id)
    &&& after.names() == before.names().remove(before.ids()[id].name@)
    &&& after.free_ids() == before.free_ids().push(id)
}


/// The registry invariant holds after any run of inserts and removes: the two
/// indexes are inverse to each other and hold as many entries, and every
/// assigned id is nonzero.
pub proof fn lemma_users_bijection(r: AllUserInfo)
    requires
        r.wf(),
    ensures
        forall|id: u32| #[trigger]
            r.ids().contains_key(id) ==> id != 0 && r.ids()[id].id == id && r.names().contains_key(
                r.ids()[id].name@,
            ) && r.names()[r.ids()[id].name@] == id,
        forall|n: Seq<char>| #[trigger]
            r.names().contains_key(n) ==> r.ids().contains_key(r.names()[n]) && r.ids()[r.names()[n]].name@
                == n,
        r.ids().len() == r.names().len(),
{
    let f = |id: u32| r.ids()[id].name@;
    let dom = r.ids().dom();
    assert(vstd::relations::injective_on(f, dom)) by {
        assert forall|a: u32, b: u32| dom.contains(a) && dom.contains(b) && #[trigger] f(a) == #[trigger] f(b) implies a == b by {
            assert(r.names()[f(a)] == a);
            assert(r.names()[f(b)] == b);
        }
    }
    assert(dom.map(f) =~= r.names().dom()) by {
        assert forall|n: Seq<char>| r.names().dom().contains(n) implies #[trigger] dom.map(f).contains(n) by {
            let id = r.names()[n];
            assert(dom.contains(id) && f(id) == n);
        }
    }
    vstd::set_lib::lemma_map_size(dom, r.names().dom(), f);
}

/// A user who leaves hands its id to the next user who logs in, when nobody
/// else left in between.
pub proof fn lemma_user_id_recycled(
    r0: AllUserInfo,
    r1: AllUserInfo,
    r2: AllUserInfo,
    k: u32,
    u: User,
    k2: u32,
)
    requires
        r0.wf(),
        r0.ids().contains_key(k),
        user_removed(r0, r1, k),
        user_added(r1, r2, u, k2),
    ensures
        k2 == k,
{
}

fn copy_client(c: &ClientInfo) -> (r: ClientInfo)
    ensures
        r == *c,
{
    ClientInfo { id: c.id, name: c.name.clone(), addr: c.addr.clone() }
}

/// Member ids are unique within a room.
pub open spec fn unique_members(cs: Seq<ClientInfo>) -> bool {
    forall|i: int, j: int| 0 <= i < j < cs.len() ==> cs[i].id != cs[j].id
}

/// A live room with the members it holds.
#[derive(Debug)]
pub struct RoomFull {
    pub id: ID,
    pub name: String,
    pub passwd: String,
    pub cs: Vec<ClientInfo>,
}

/// The live rooms, by id and by name.
pub struct AllRoomInfo {
    by_id: HashMap<u32, RoomFull>,
    by_name: StringHashMap<u32>,
    unuse_id: Vec<u32>,
}

/// Why a room could not be joined or created.
#[derive(Debug, PartialEq, Eq, Structural)]
pub enum JoinError {
    /// The room exists under another name or password.
    Mismatch,
    /// No room id is left.
    NoFreeId,
}

/// The room that a join request names: by id when that id is live, else by
/// name; `None` when a new room is to be created.
pub open spec fn join_target(rs: AllRoomInfo, room: Room) -> Option<u32> {
    if room.id != 0 && rs.rooms().contains_key(room.id) {
        Some(room.id)
    } else if rs.names().contains_key(room.name@) {
        Some(rs.names()[room.name@])
    } else {
        None
    }
}

/// Those of `cs` other than the user `id`, in order.
pub open spec fn others(cs: Seq<ClientInfo>, id: u32) -> Seq<ClientInfo> {
    cs.filter(|c: ClientInfo| c.id != id)
}

impl AllRoomInfo {
    /// The rooms by id.
    pub closed spec fn rooms(&self) -> Map<u32, RoomFull> {
        self.by_id@
    }

    /// The room ids by name.
    pub closed spec fn names(&self) -> Map<Seq<char>, u32> {
        self.by_name@
    }

    /// The ids waiting for reuse, the next one last.
    pub closed spec fn free_ids(&self) -> Seq<u32> {
        self.unuse_id@
    }

    /// Both indexes describe the same rooms, ids are nonzero, every room has
    /// at least one member and each member once, and the ids waiting for
    /// reuse are free.
    pub open spec fn wf(&self) -> bool {
        &&& forall|id: u32| #[trigger]
            self.rooms().contains_key(id) ==> {
                &&& id != 0
                &&& self.rooms()[id].id == id
                &&& self.names().contains_key(self.rooms()[id].name@)
                &&& self.names()[self.rooms()[id].name@] == id
                &&& self.rooms()[id].cs@.len() > 0
                &&& unique_members(self.rooms()[id].cs@)
            }
        &&& forall|n: Seq<char>| #[trigger]
            self.names().contains_key(n) ==> {
                &&& self.rooms().contains_key(self.names()[n])
                &&& self.rooms()[self.names()[n]].name@ == n
            }
        &&& recyclable(self.free_ids(), self.rooms().dom())
    }

    /// Same rooms, names and ids waiting for reuse.
    pub open spec fn same(&self, other: AllRoomInfo) -> bool {
        &&& self.rooms() == other.rooms()
        &&& self.names() == other.names()
        &&& self.free_ids() == other.free_ids()
    }

    pub fn new() -> (r: AllRoomInfo)
        ensures
            r.wf(),
            r.rooms() == Map::<u32, RoomFull>::empty(),
            r.names() == Map::<Seq<char>, u32>::empty(),
            r.free_ids() == Seq::<u32>::empty(),
    {
        AllRoomInfo { by_id: HashMap::new(), by_name: StringHashMap::new(), unuse_id: Vec::new() }
    }
}


/// Copies the members of `cs` other than the user `uid`, in order.
fn others_of(cs: &Vec<ClientInfo>, uid: u32) -> (r: Vec<ClientInfo>)
    ensures
        r@ == others(cs@, uid),
        forall|i: int| 0 <= i < r@.len() ==> r@[i].id != uid,
        unique_members(cs@) ==> unique_members(r@),
{
    let mut r: Vec<ClientInfo> = Vec::new();
    let mut i: usize = 0;
    while i < cs.len()
        invariant
            i <= cs@.len(),
            r@ == others(cs@.take(i as int), uid),
            forall|a: int| 0 <= a < r@.len() ==> r@[a].id != uid,
            unique_members(cs@) ==> unique_members(r@),
            unique_members(cs@) ==> forall|a: int, j: int|
                0 <= a < r@.len() && i <= j < cs@.len() ==> r@[a].id != cs@[j].id,
        decreases cs@.len() - i,
    {
        let ghost before = r@;
        if cs[i].id != uid {
            r.push(copy_client(&cs[i]));
        }
        proof {
            let pred = |c: ClientInfo| c.id != uid;
            let pre = cs@.take(i + 1);
            assert(pre.drop_last() =~= cs@.take(i as int));
            assert(pre.last() == cs@[i as int]);
            reveal(Seq::filter);
            assert(pre.filter(pred) == if pred(pre.last()) {
                pre.drop_last().filter(pred).push(pre.last())
            } else {
                pre.drop_last().filter(pred)
            });
        }
        i += 1;
    }
    assert(cs@.take(i as int) =~= cs@);
    r
}

/// `after` is `before` with member `me` put into room `t`, replacing any
/// earlier entry of the same user.
pub open spec fn room_joined(before: AllRoomInfo, after: AllRoomInfo, t: u32, me: ClientInfo) -> bool {
    let rf = before.rooms()[t];
    &&& after.rooms().dom() == before.rooms().dom()
    &&& after.rooms().remove(t) == before.rooms().remove(t)
    &&& after.rooms()[t].id == rf.id
    &&& after.rooms()[t].name@ == rf.name@
    &&& after.rooms()[t].passwd@ == rf.passwd@
    &&& after.rooms()[t].cs@ == others(rf.cs@, me.id).push(me)
    &&& after.names() == before.names()
    &&& after.free_ids() == before.free_ids()
}

/// `after` is `before` with a new room `k` named after `room`, holding `me`
/// alone, under an id taken as `allocated` says.
pub open spec fn room_created(
    before: AllRoomInfo,
    after: AllRoomInfo,
    room: Room,
    me: ClientInfo,
    k: u32,
) -> bool {
    &&& k != 0
    &&& !before.rooms().contains_key(k)
    &&& allocated(before.free_ids(), before.rooms().dom(), k)
    &&& after.rooms().dom() == before.rooms().dom().insert(k)
    &&& after.rooms().remove(k) == before.rooms()
    &&& after.rooms()[k].id == k
    &&& after.rooms()[k].name@ == room.name@
    &&& after.rooms()[k].passwd@ == room.passwd@
    &&& after.rooms()[k].cs@ == seq![me]
    &&& after.names() == before.names().insert(room.name@, k)
    &&& after.free_ids() == if before.free_ids().len() > 0 {
        before.free_ids().drop_last()
    } else {
        before.free_ids()
    }
}

/// `after` is `before` once user `uid` left room `rid`: the room loses that
/// member, and goes, its id kept for reuse, when no member is left.
pub open spec fn room_left(before: AllRoomInfo, after: AllRoomInfo, rid: u32, uid: u32) -> bool {
    let rf = before.rooms()[rid];
    let rest = others(rf.cs@, uid);
    if !before.rooms().contains_key(rid) {
        after.same(before)
    } else if rest.len() == 0 {
        &&& after.rooms() == before.rooms().remove(rid)
        &&& after.names() == before.names().remove(rf.name@)
        &&& after.free_ids() == before.free_ids().push(rid)
    } else {
        &&& after.rooms().dom() == before.rooms().dom()
        &&& after.rooms().remove(rid) == before.rooms().remove(rid)
        &&& after.rooms()[rid].id == rf.id
        &&& after.rooms()[rid].name@ == rf.name@
        &&& after.rooms()[rid].passwd@ == rf.passwd@
        &&& after.rooms()[rid].cs@ == rest
        &&& after.names() == before.names()
        &&& after.free_ids() == before.free_ids()
    }
}

impl AllRoomInfo {
    /// Joins the room that `room` names, or creates it when none does.
    /// On success returns the room as stored and the members that were in it
    /// before (without `me`), who are to be told of `me`.
    pub fn join(&mut self, room: &Room, me: &ClientInfo) -> (r: Result<(Room, Vec<ClientInfo>), JoinError>)
        requires
            old(self).wf(),
        ensures
            final(self).wf(),
            match join_target(*old(self), *room) {
                Some(t) => {
                    let rf = old(self).rooms()[t];
                    if rf.name@ == room.name@ && rf.passwd@ == room.passwd@ {
                        &&& r matches Ok((c, snap)) && c.id == t && c.name@ == rf.name@ && c.passwd@
                            == rf.passwd@ && snap@ == others(rf.cs@, me.id)
                        &&& room_joined(*old(self), *final(self), t, *me)
                    } else {
                        r == Err::<(Room, Vec<ClientInfo>), JoinError>(JoinError::Mismatch)
                            && final(self).same(*old(self))
                    }
                },
                None => {
                    &&& old(self).rooms().len() <= u32::MAX / 2 ==> r is Ok
                    &&& r is Err ==> r == Err::<(Room, Vec<ClientInfo>), JoinError>(
                        JoinError::NoFreeId,
                    ) && final(self).same(*old(self))
                    &&& r matches Ok((c, snap)) ==> c.name@ == room.name@ && c.passwd@
                        == room.passwd@ && snap@.len() == 0 && room_created(
                        *old(self),
                        *final(self),
                        *room,
                        *me,
                        c.id,
                    )
                },
            },
    {
        let target: Option<u32> = if room.id != 0 && self.by_id.contains_key(&room.id) {
            Some(room.id)
        } else {
            match self.by_name.get(room.name.as_str()) {
                Some(k) => Some(*k),
                None => None,
            }
        };
        match target {
            Some(t) => {
                assert(self.rooms().contains_key(t));
                let matches = {
                    let rf = self.by_id.get(&t).unwrap();
                    rf.name == room.name && rf.passwd == room.passwd
                };
                if !matches {
                    return Err(JoinError::Mismatch);
                }
                let rf = self.by_id.remove(&t).unwrap();
                let snap = others_of(&rf.cs, me.id);
                let mut cs = others_of(&rf.cs, me.id);
                cs.push(copy_client(me));
                let canon = Room { id: t, name: rf.name.clone(), passwd: rf.passwd.clone() };
                self.by_id.insert(t, RoomFull { id: rf.id, name: rf.name, passwd: rf.passwd, cs });
                proof {
                    assert(self.rooms().dom() =~= old(self).rooms().dom());
                    assert(self.rooms().remove(t) =~= old(self).rooms().remove(t));
                    assert forall|id: u32| #[trigger] self.rooms().contains_key(id) implies {
                        &&& id != 0
                        &&& self.rooms()[id].id == id
                        &&& self.names().contains_key(self.rooms()[id].name@)
                        &&& self.names()[self.rooms()[id].name@] == id
                        &&& self.rooms()[id].cs@.len() > 0
                        &&& unique_members(self.rooms()[id].cs@)
                    } by {
                        assert(old(self).rooms().contains_key(id));
                    }
                    assert forall|n: Seq<char>| #[trigger] self.names().contains_key(n) implies {
                        &&& self.rooms().contains_key(self.names()[n])
                        &&& self.rooms()[self.names()[n]].name@ == n
                    } by {
                        assert(old(self).names().contains_key(n));
                    }
                }
                Ok((canon, snap))
            },
            None => {
                let k = match alloc_id(&self.by_id, &mut self.unuse_id) {
                    Some(k) => k,
                    None => return Err(JoinError::NoFreeId),
                };
                let mut cs: Vec<ClientInfo> = Vec::new();
                cs.push(copy_client(me));
                self.by_name.insert(room.name.clone(), k);
                self.by_id.insert(
                    k,
                    RoomFull { id: k, name: room.name.clone(), passwd: room.passwd.clone(), cs },
                );
                proof {
                    assert(self.rooms().remove(k) =~= old(self).rooms());
                    assert forall|id: u32| #[trigger] self.rooms().contains_key(id) implies {
                        &&& id != 0
                        &&& self.rooms()[id].id == id
                        &&& self.names().contains_key(self.rooms()[id].name@)
                        &&& self.names()[self.rooms()[id].name@] == id
                        &&& self.rooms()[id].cs@.len() > 0
                        &&& unique_members(self.rooms()[id].cs@)
                    } by {
                        if id != k {
                            assert(old(self).rooms().contains_key(id));
                        }
                    }
                    assert forall|n: Seq<char>| #[trigger] self.names().contains_key(n) implies {
                        &&& self.rooms().contains_key(self.names()[n])
                        &&& self.rooms()[self.names()[n]].name@ == n
                    } by {
                        if n != room.name@ {
                            assert(old(self).names().contains_key(n));
                        }
                    }
                    assert forall|i: int| 0 <= i < self.free_ids().len() implies self.free_ids()[i]
                        != 0 && !self.rooms().dom().contains(#[trigger] self.free_ids()[i]) by {
                        assert(self.free_ids()[i] == old(self).free_ids()[i]);
                        if old(self).free_ids().len() > 0 {
                            assert(k == old(self).free_ids()[old(self).free_ids().len() - 1]);
                        }
                    }
                    assert forall|i: int, j: int|
                        0 <= i < j < self.free_ids().len() implies self.free_ids()[i]
                        != self.free_ids()[j] by {
                        assert(self.free_ids()[i] == old(self).free_ids()[i]);
                        assert(self.free_ids()[j] == old(self).free_ids()[j]);
                    }
                }
                Ok((Room { id: k, name: room.name.clone(), passwd: room.passwd.clone() }, Vec::new()))
            },
        }
    }
}


fn copy_room(rf: &RoomFull) -> (r: RoomFull)
    ensures
        r.id == rf.id,
        r.name == rf.name,
        r.passwd == rf.passwd,
        r.cs@ == rf.cs@,
{
    let mut cs: Vec<ClientInfo> = Vec::new();
    let mut i: usize = 0;
    while i < rf.cs.len()
        invariant
            i <= rf.cs@.len(),
            cs@ == rf.cs@.take(i as int),
        decreases rf.cs@.len() - i,
    {
        cs.push(copy_client(&rf.cs[i]));
        i += 1;
        assert(cs@ =~= rf.cs@.take(i as int));
    }
    assert(rf.cs@.take(i as int) =~= rf.cs@);
    RoomFull { id: rf.id, name: rf.name.clone(), passwd: rf.passwd.clone(), cs }
}

impl AllRoomInfo {
    /// The live rooms with their members, in no particular order.
    pub fn list(&self) -> (r: Vec<RoomFull>)
        requires
            self.wf(),
        ensures
            r@.len() == self.rooms().len(),
            forall|i: int|
                0 <= i < r@.len() ==> #[trigger] self.rooms().contains_key(r@[i].id) && ({
                    let rf = self.rooms()[r@[i].id];
                    r@[i].name == rf.name && r@[i].passwd == rf.passwd && r@[i].cs@ == rf.cs@
                }),
    {
        let mut r: Vec<RoomFull> = Vec::new();
        for kv in it: self.by_id.iter()
            invariant
                self.wf(),
                r@.len() == it.index(),
                forall|j: int|
                    0 <= j < r@.len() ==> {
                        let rf = *it.seq()[j].1;
                        &&& (#[trigger] r@[j]).id == rf.id && r@[j].name == rf.name && r@[j].passwd == rf.passwd
                            && r@[j].cs@ == rf.cs@
                        &&& self.rooms().contains_key(*it.seq()[j].0)
                        &&& self.rooms()[*it.seq()[j].0] == rf
                    },
        {
            r.push(copy_room(kv.1));
        }
        r
    }

    /// Takes user `uid` out of room `rid`; the room goes, and its id waits
    /// for reuse, when it was the last member. Returns whether the room went.
    pub fn leave(&mut self, rid: u32, uid: u32) -> (r: bool)
        requires
            old(self).wf(),
        ensures
            final(self).wf(),
            room_left(*old(self), *final(self), rid, uid),
            r == (old(self).rooms().contains_key(rid) && others(old(self).rooms()[rid].cs@, uid).len()
                == 0),
    {
        if !self.by_id.contains_key(&rid) {
            return false;
        }
        let rf = self.by_id.remove(&rid).unwrap();
        let rest = others_of(&rf.cs, uid);
        if rest.len() == 0 {
            self.by_name.remove(rf.name.as_str());
            self.unuse_id.push(rid);
            proof {
                assert forall|n: Seq<char>| #[trigger] self.names().contains_key(n) implies {
                    &&& self.rooms().contains_key(self.names()[n])
                    &&& self.rooms()[self.names()[n]].name@ == n
                } by {
                    assert(old(self).names().contains_key(n));
                }
                assert forall|i: int| 0 <= i < self.free_ids().len() implies self.free_ids()[i]
                    != 0 && !self.rooms().dom().contains(#[trigger] self.free_ids()[i]) by {
                    if i < old(self).free_ids().len() {
                        assert(self.free_ids()[i] == old(self).free_ids()[i]);
                    }
                }
                assert forall|i: int, j: int|
                    0 <= i < j < self.free_ids().len() implies self.free_ids()[i]
                    != self.free_ids()[j] by {
                    assert(self.free_ids()[i] == old(self).free_ids()[i]);
                    if j < old(self).free_ids().len() {
                        assert(self.free_ids()[j] == old(self).free_ids()[j]);
                    } else {
                        assert(old(self).rooms().contains_key(rid));
                    }
                }
            }
            true
        } else {
            self.by_id.insert(rid, RoomFull { id: rf.id, name: rf.name, passwd: rf.passwd, cs: rest });
            proof {
                assert(self.rooms().dom() =~= old(self).rooms().dom());
                assert(self.rooms().remove(rid) =~= old(self).rooms().remove(rid));
                assert forall|id: u32| #[trigger] self.rooms().contains_key(id) implies {
                    &&& id != 0
                    &&& self.rooms()[id].id == id
                    &&& self.names().contains_key(self.rooms()[id].name@)
                    &&& self.names()[self.rooms()[id].name@] == id
                    &&& self.rooms()[id].cs@.len() > 0
                    &&& unique_members(self.rooms()[id].cs@)
                } by {
                    assert(old(self).rooms().contains_key(id));
                }
                assert forall|n: Seq<char>| #[trigger] self.names().contains_key(n) implies {
                    &&& self.rooms().contains_key(self.names()[n])
                    &&& self.rooms()[self.names()[n]].name@ == n
                } by {
                    assert(old(self).names().contains_key(n));
                }
            }
            false
        }
    }
}

/// The room registry invariant holds after any run of joins, creations and
/// departures: the two indexes are inverse to each other and hold as many
/// entries, ids are nonzero, and no live room is empty.
pub proof fn lemma_rooms_bijection(r: AllRoomInfo)
    requires
        r.wf(),
    ensures
        forall|id: u32| #[trigger]
            r.rooms().contains_key(id) ==> id != 0 && r.rooms()[id].id == id && r.names().contains_key(
                r.rooms()[id].name@,
            ) && r.names()[r.rooms()[id].name@] == id && r.rooms()[id].cs@.len() > 0,
        forall|n: Seq<char>| #[trigger]
            r.names().contains_key(n) ==> r.rooms().contains_key(r.names()[n])
                && r.rooms()[r.names()[n]].name@ == n,
        r.rooms().len() == r.names().len(),
{
    let f = |id: u32| r.rooms()[id].name@;
    let dom = r.rooms().dom();
    assert(vstd::relations::injective_on(f, dom)) by {
        assert forall|a: u32, b: u32| dom.contains(a) && dom.contains(b) && #[trigger] f(a) == #[trigger] f(b) implies a == b by {
            assert(r.names()[f(a)] == a);
            assert(r.names()[f(b)] == b);
        }
    }
    assert(dom.map(f) =~= r.names().dom()) by {
        assert forall|n: Seq<char>| r.names().dom().contains(n) implies #[trigger] dom.map(f).contains(n) by {
            let id = r.names()[n];
            assert(dom.contains(id) && f(id) == n);
        }
    }
    vstd::set_lib::lemma_map_size(dom, r.names().dom(), f);
}

/// When the last member leaves a room, the room goes and the next room
/// created, with no other room gone in between, gets its id back.
pub proof fn lemma_room_id_recycled(
    r0: AllRoomInfo,
    r1: AllRoomInfo,
    r2: AllRoomInfo,
    rid: u32,
    uid: u32,
    room: Room,
    me: ClientInfo,
    k: u32,
)
    requires
        r0.wf(),
        r0.rooms().contains_key(rid),
        others(r0.rooms()[rid].cs@, uid).len() == 0,
        room_left(r0, r1, rid, uid),
        room_created(r1, r2, room, me, k),
    ensures
        !r1.rooms().contains_key(rid),
        k == rid,
{
}

} // verus!
