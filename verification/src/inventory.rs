//! The per-region resource reservation ledger.
//!
//! The ledger tracks the targets observed this tick and the in-flight
//! reservations held against them, so that no two agents are promised the
//! same unit of material.  It is rebuilt from live observations every tick
//! and never persisted.

use vstd::prelude::*;

use crate::world::{ResourceKind, WorldView};

verus! {

/// A process-wide identifier for a reservation; fresh values come from a
/// strictly increasing counter that the caller threads through.
#[derive(Debug, Clone, Copy, PartialEq, Eq, PartialOrd, Ord, Hash, Structural)]
pub struct ReservationId(pub u32);

impl ReservationId {
    /// Returns the next reservation id and advances the counter.
    pub fn next(next_reservation_id: &mut u32) -> (id: ReservationId)
        requires
            *old(next_reservation_id) < u32::MAX,
        ensures
            id.0 == *old(next_reservation_id),
            *final(next_reservation_id) == *old(next_reservation_id) + 1,
    {
        let val = *next_reservation_id;
        *next_reservation_id = *next_reservation_id + 1;
        ReservationId(val)
    }
}

/// A physical place resources can be drawn from, identified by a stable
/// world object identifier.  A target is a stateless reference into world
/// state and is re-resolved against the current tick's observations on
/// every use.
#[derive(Debug, Clone, Copy, PartialEq, Eq, Hash, Structural)]
pub enum Target {
    Resource(u128),
    Storage(u128),
}

impl Target {
    /// The total amount of `kind` this target holds according to this
    /// tick's observations; `None` if the underlying object is gone.
    pub open spec fn spec_available(self, kind: ResourceKind, world: WorldView) -> Option<u32> {
        match self {
            Target::Resource(id) => match world.spec_pile(id) {
                Some(pile) => Some(
                    if pile.kind == kind {
                        pile.amount
                    } else {
                        0u32
                    },
                ),
                None => None,
            },
            Target::Storage(id) => match world.spec_store(id) {
                Some(store) => Some(store.used.spec_get(kind)),
                None => None,
            },
        }
    }

    /// Gets the available amount of resource `kind` in this target, if the
    /// target can be found in this tick's observations.
    ///
    /// This does not account for reservations: it is the total amount.
    pub fn get_available_amount(&self, kind: ResourceKind, world: &WorldView) -> (r: Option<u32>)
        ensures
            r == self.spec_available(kind, *world),
    {
        match self {
            Target::Resource(id) => match world.find_pile(*id) {
                Some(pile) => Some(
                    if pile.kind == kind {
                        pile.amount
                    } else {
                        0
                    },
                ),
                None => None,
            },
            Target::Storage(id) => match world.find_store(*id) {
                Some(store) => Some(store.used.get(kind)),
                None => None,
            },
        }
    }
}

/// The current state of a single target: the reservations held against it.
#[derive(Debug)]
pub struct TargetInfo {
    reservations: Vec<ReservationId>,
}

impl TargetInfo {
    pub closed spec fn ids(self) -> Seq<ReservationId> {
        self.reservations@
    }
}

/// An immutable record of a promise: which target, which resource kind,
/// and the exact amount promised.
#[derive(Debug)]
pub struct Reservation {
    target: Target,
    kind: ResourceKind,
    amount: u32,
}

impl Reservation {
    pub closed spec fn spec_target(self) -> Target {
        self.target
    }

    pub closed spec fn spec_kind(self) -> ResourceKind {
        self.kind
    }

    pub closed spec fn spec_amount(self) -> u32 {
        self.amount
    }

    pub fn target(&self) -> (t: Target)
        ensures
            t == self.spec_target(),
    {
        self.target
    }

    pub fn resource_type(&self) -> (k: ResourceKind)
        ensures
            k == self.spec_kind(),
    {
        self.kind
    }

    pub fn amount(&self) -> (a: u32)
        ensures
            a == self.spec_amount(),
    {
        self.amount
    }
}

/// Describes the way in which a request for resources failed.
#[derive(Debug, Clone, Copy, PartialEq, Eq, Structural)]
pub enum ReservationError {
    /// The request could not be filled because no tracked target had enough
    /// of this resource free.
    NotEnough(NotEnoughErr),
}

#[derive(Debug, Clone, Copy, PartialEq, Eq, Structural)]
pub struct NotEnoughErr {
    pub kind: ResourceKind,
    pub amount: u32,
}

#[derive(Debug)]
struct TargetEntry {
    target: Target,
    info: TargetInfo,
}

/// The targets of a sequence of ledger entries, in entry order.
spec fn entry_keys(entries: Seq<TargetEntry>) -> Seq<Target> {
    entries.map_values(|e: TargetEntry| e.target)
}

/// Whether `v` holds the target `t`.
fn vec_contains_target(v: &Vec<Target>, t: &Target) -> (r: bool)
    ensures
        r == v@.contains(*t),
{
    let mut i: usize = 0;
    while i < v.len()
        invariant
            0 <= i <= v.len(),
            forall|j: int| 0 <= j < i ==> #[trigger] v@[j] != *t,
        decreases v.len() - i,
    {
        if v[i] == *t {
            return true;
        }
        i = i + 1;
    }
    false
}

/// Appending an entry with a fresh target keeps the keys duplicate-free.
proof fn lemma_keys_push_no_dup(s: Seq<TargetEntry>, e: TargetEntry)
    requires
        entry_keys(s).no_duplicates(),
        !entry_keys(s).contains(e.target),
    ensures
        entry_keys(s.push(e)) == entry_keys(s).push(e.target),
        entry_keys(s.push(e)).no_duplicates(),
        forall|t: Target|
            #[trigger] entry_keys(s.push(e)).contains(t) <==> entry_keys(s).contains(t) || t
                == e.target,
{
    assert(entry_keys(s.push(e)) =~= entry_keys(s).push(e.target));
    let ks = entry_keys(s).push(e.target);
    assert forall|i: int, j: int| 0 <= i < j < ks.len() implies ks[i] != ks[j] by {
        if j == ks.len() - 1 {
            assert(ks[i] == entry_keys(s)[i]);
            assert(entry_keys(s).contains(entry_keys(s)[i]));
        } else {
            assert(ks[i] == entry_keys(s)[i] && ks[j] == entry_keys(s)[j]);
        }
    }
    assert forall|t: Target| #[trigger] ks.contains(t) <==> entry_keys(s).contains(t) || t
        == e.target by {
        if ks.contains(t) {
            let i = choose|i: int| 0 <= i < ks.len() && ks[i] == t;
            if i < ks.len() - 1 {
                assert(entry_keys(s)[i] == t);
            }
        }
        if entry_keys(s).contains(t) {
            let i = choose|i: int| 0 <= i < entry_keys(s).len() && entry_keys(s)[i] == t;
            assert(ks[i] == t);
        }
        if t == e.target {
            assert(ks[ks.len() - 1] == t);
        }
    }
}

/// Membership in the observed set, as the sweep's filter predicate.
pub open spec fn observed_pred(observed: Seq<Target>) -> spec_fn(Target) -> bool {
    |t: Target| observed.contains(t)
}

/// The newly observed targets — those not already tracked — in
/// first-observation order.
pub open spec fn fresh_targets(order: Seq<Target>, observed: Seq<Target>) -> Seq<Target>
    decreases observed.len(),
{
    if observed.len() == 0 {
        Seq::empty()
    } else {
        let rest = fresh_targets(order, observed.drop_last());
        let t = observed.last();
        if order.contains(t) || observed.drop_last().contains(t) {
            rest
        } else {
            rest.push(t)
        }
    }
}

/// A concatenation holds exactly the elements of its parts.
proof fn lemma_add_contains<A>(a: Seq<A>, b: Seq<A>, x: A)
    ensures
        (a + b).contains(x) <==> a.contains(x) || b.contains(x),
{
    if (a + b).contains(x) {
        let i = choose|i: int| 0 <= i < (a + b).len() && (a + b)[i] == x;
        if i < a.len() {
            assert(a[i] == x);
        } else {
            assert(b[i - a.len()] == x);
        }
    }
    if a.contains(x) {
        let i = choose|i: int| 0 <= i < a.len() && a[i] == x;
        assert((a + b)[i] == x);
    }
    if b.contains(x) {
        let i = choose|i: int| 0 <= i < b.len() && b[i] == x;
        assert((a + b)[a.len() + i] == x);
    }
}

/// A sequence holds an element exactly when its last element is it or the
/// rest holds it.
proof fn lemma_drop_last_contains<A>(s: Seq<A>, x: A)
    requires
        s.len() > 0,
    ensures
        s.contains(x) <==> s.drop_last().contains(x) || s.last() == x,
{
    if s.contains(x) {
        let i = choose|i: int| 0 <= i < s.len() && s[i] == x;
        if i < s.len() - 1 {
            assert(s.drop_last()[i] == x);
        }
    }
    if s.drop_last().contains(x) {
        let i = choose|i: int| 0 <= i < s.drop_last().len() && s.drop_last()[i] == x;
        assert(s[i] == x);
    }
}

/// A filtered sequence holds exactly the elements that pass the filter.
proof fn lemma_filter_membership<A>(s: Seq<A>, pred: spec_fn(A) -> bool, x: A)
    ensures
        s.filter(pred).contains(x) <==> s.contains(x) && pred(x),
    decreases s.len(),
{
    reveal(Seq::filter);
    if s.len() == 0 {
        assert(!s.contains(x));
    } else {
        lemma_filter_membership(s.drop_last(), pred, x);
        lemma_drop_last_contains(s, x);
        let sub = s.drop_last().filter(pred);
        if pred(s.last()) {
            lemma_drop_last_contains(sub.push(s.last()), x);
            assert(sub.push(s.last()).drop_last() =~= sub);
        }
    }
}

/// The fresh part of a sweep holds exactly the observed targets that were
/// not already tracked.
proof fn lemma_fresh_targets_contains(order: Seq<Target>, observed: Seq<Target>, t: Target)
    ensures
        fresh_targets(order, observed).contains(t) <==> !order.contains(t) && observed.contains(
            t,
        ),
    decreases observed.len(),
{
    if observed.len() == 0 {
        assert(!observed.contains(t));
        assert(!fresh_targets(order, observed).contains(t));
    } else {
        lemma_fresh_targets_contains(order, observed.drop_last(), t);
        lemma_drop_last_contains(observed, t);
        let rest = fresh_targets(order, observed.drop_last());
        let last = observed.last();
        if !(order.contains(last) || observed.drop_last().contains(last)) {
            lemma_drop_last_contains(rest.push(last), t);
            assert(rest.push(last).drop_last() =~= rest);
        }
    }
}

/// Whether some entry of `entries` has the target `t`.
fn entries_contain(entries: &Vec<TargetEntry>, t: &Target) -> (r: bool)
    ensures
        r == entry_keys(entries@).contains(*t),
{
    let mut i: usize = 0;
    while i < entries.len()
        invariant
            0 <= i <= entries.len(),
            forall|j: int| 0 <= j < i ==> (#[trigger] entries@[j]).target != *t,
        decreases entries.len() - i,
    {
        if entries[i].target == *t {
            assert(entry_keys(entries@)[i as int] == *t);
            return true;
        }
        i = i + 1;
    }
    assert forall|j: int| 0 <= j < entry_keys(entries@).len() implies entry_keys(entries@)[j]
        != *t by {
        assert(entry_keys(entries@)[j] == entries@[j].target);
    }
    false
}

/// The per-region ledger: all known targets that could serve a request,
/// and all the reservations this region knows about.
#[derive(Debug)]
pub struct RoomInventory {
    targets: Vec<TargetEntry>,
    reservations: Vec<(ReservationId, Reservation)>,
}

impl RoomInventory {
    /// The tracked targets, in the deterministic order requests scan them.
    pub closed spec fn order(self) -> Seq<Target> {
        entry_keys(self.targets@)
    }

    /// Whether target `t` is currently known to the ledger.
    pub open spec fn tracks(self, t: Target) -> bool {
        self.order().contains(t)
    }

    /// The reservation ids currently registered against target `t`
    /// (empty if `t` is not tracked).
    pub closed spec fn info(self, t: Target) -> Seq<ReservationId> {
        if self.tracks(t) {
            self.targets@[self.order().index_of(t)].info.reservations@
        } else {
            Seq::empty()
        }
    }

    /// The ids of all reservations the ledger holds a record for,
    /// dangling ones included.
    pub closed spec fn res_ids(self) -> Seq<ReservationId> {
        self.reservations@.map_values(|p: (ReservationId, Reservation)| p.0)
    }

    /// Whether the ledger holds a record for reservation `id`.
    pub open spec fn has_res(self, id: ReservationId) -> bool {
        self.res_ids().contains(id)
    }

    /// The reservation record for `id`.
    pub closed spec fn res(self, id: ReservationId) -> Reservation
        recommends
            self.has_res(id),
    {
        self.reservations@[self.res_ids().index_of(id)].1
    }

    /// Reservation `id` is registered against target `t`: the ledger tracks
    /// `t` and `t`'s own bookkeeping lists `id`.  Every reservation granted
    /// by a request is registered; only the removal of its target by a later
    /// sweep can orphan it.
    pub open spec fn registered(self, t: Target, id: ReservationId) -> bool {
        self.info(t).contains(id)
    }

    /// All reservation ids on record lie below `bound`; threading the id
    /// counter as the bound keeps freshly allocated ids unused.
    pub open spec fn ids_below(self, bound: u32) -> bool {
        forall|id: ReservationId| #[trigger] self.has_res(id) ==> id.0 < bound
    }

    /// Structural consistency of the ledger:
    /// - tracked targets and reservation ids are unique keys;
    /// - a target holds at most one registered reservation;
    /// - every registered id has a record whose target is that target.
    pub closed spec fn wf(self) -> bool {
        &&& self.order().no_duplicates()
        &&& self.res_ids().no_duplicates()
        &&& forall|i: int|
            0 <= i < self.targets@.len() ==> (
            #[trigger] self.targets@[i]).info.reservations@.len() <= 1
        &&& forall|i: int, k: int|
            0 <= i < self.targets@.len() && 0 <= k < self.targets@[i].info.reservations@.len()
                ==> {
                let id = #[trigger] self.targets@[i].info.reservations@[k];
                &&& self.has_res(id)
                &&& self.res(id).spec_target() == self.targets@[i].target
            }
    }

    /// An empty ledger: no targets, no reservations.
    pub fn new() -> (inv: RoomInventory)
        ensures
            inv.wf(),
            inv.order() == Seq::<Target>::empty(),
            forall|id: ReservationId| !(#[trigger] inv.has_res(id)),
            forall|t: Target| #[trigger] inv.info(t) == Seq::<ReservationId>::empty(),
            inv.ids_below(0),
    {
        let inv = RoomInventory { targets: Vec::new(), reservations: Vec::new() };
        proof {
            assert(inv.order() =~= Seq::<Target>::empty());
            assert(inv.res_ids() =~= Seq::<ReservationId>::empty());
        }
        inv
    }

    /// Returns whether target `t` is currently known to the ledger.
    pub fn is_tracked(&self, t: &Target) -> (r: bool)
        ensures
            r == self.tracks(*t),
    {
        match self.find_target_index(t) {
            Some(i) => {
                proof {
                    assert(self.order()[i as int] == self.targets@[i as int].target);
                }
                true
            },
            None => false,
        }
    }

    /// Returns whether the ledger holds a record for reservation `id`,
    /// dangling records included.
    pub fn contains_reservation(&self, id: ReservationId) -> (r: bool)
        ensures
            r == self.has_res(id),
    {
        match self.find_res_index(id) {
            Some(k) => {
                proof {
                    assert(self.res_ids()[k as int] == self.reservations@[k as int].0);
                }
                true
            },
            None => false,
        }
    }

    /// Returns whether every reservation id on record lies below `bound`.
    pub fn check_ids_below(&self, bound: u32) -> (r: bool)
        ensures
            r == self.ids_below(bound),
    {
        let mut i: usize = 0;
        while i < self.reservations.len()
            invariant
                0 <= i <= self.reservations.len(),
                forall|j: int| 0 <= j < i ==> (#[trigger] self.reservations@[j]).0.0 < bound,
            decreases self.reservations.len() - i,
        {
            if self.reservations[i].0.0 >= bound {
                proof {
                    let witness = self.reservations@[i as int].0;
                    assert(self.res_ids()[i as int] == witness);
                    assert(self.has_res(witness));
                    assert(!self.ids_below(bound));
                }
                return false;
            }
            i = i + 1;
        }
        assert forall|id: ReservationId| #[trigger] self.has_res(id) implies id.0 < bound by {
            let k = choose|k: int| 0 <= k < self.res_ids().len() && self.res_ids()[k] == id;
            assert(self.reservations@[k].0 == id);
        }
        true
    }

    /// The index of the entry for target `t`, if the ledger tracks it.
    fn find_target_index(&self, t: &Target) -> (r: Option<usize>)
        ensures
            match r {
                Some(i) => i < self.targets@.len() && self.targets@[i as int].target == *t,
                None => !self.tracks(*t),
            },
    {
        let mut i: usize = 0;
        while i < self.targets.len()
            invariant
                0 <= i <= self.targets.len(),
                forall|j: int| 0 <= j < i ==> (#[trigger] self.targets@[j]).target != *t,
            decreases self.targets.len() - i,
        {
            if self.targets[i].target == *t {
                return Some(i);
            }
            i = i + 1;
        }
        assert forall|k: int| 0 <= k < self.order().len() implies self.order()[k] != *t by {
            assert(self.order()[k] == self.targets@[k].target);
        }
        None
    }

    /// The index of the record for reservation `id`, if one exists.
    fn find_res_index(&self, id: ReservationId) -> (r: Option<usize>)
        ensures
            match r {
                Some(k) => k < self.reservations@.len() && self.reservations@[k as int].0 == id,
                None => !self.has_res(id),
            },
    {
        let mut k: usize = 0;
        while k < self.reservations.len()
            invariant
                0 <= k <= self.reservations.len(),
                forall|j: int| 0 <= j < k ==> (#[trigger] self.reservations@[j]).0 != id,
            decreases self.reservations.len() - k,
        {
            if self.reservations[k].0 == id {
                return Some(k);
            }
            k = k + 1;
        }
        assert forall|j: int| 0 <= j < self.res_ids().len() implies self.res_ids()[j] != id by {
            assert(self.res_ids()[j] == self.reservations@[j].0);
        }
        None
    }

    /// Position `i` of the scan order can serve a request for `amount` of
    /// `kind`: the target there has no active reservation and reports an
    /// available quantity strictly greater than `amount`.
    pub open spec fn spec_eligible(
        self,
        world: WorldView,
        kind: ResourceKind,
        amount: u32,
        i: int,
    ) -> bool {
        &&& 0 <= i < self.order().len()
        &&& self.info(self.order()[i]).len() == 0
        &&& match self.order()[i].spec_available(kind, world) {
            Some(avl) => avl > amount,
            None => false,
        }
    }

    /// Some tracked target can serve a request for `amount` of `kind`.
    pub open spec fn spec_requestable(
        self,
        world: WorldView,
        kind: ResourceKind,
        amount: u32,
    ) -> bool {
        exists|i: int| self.spec_eligible(world, kind, amount, i)
    }

    /// How one successful `request` relates the ledger before (`pre`, with
    /// the id counter at `c0`) and after (`post`, counter at `c1`): the
    /// first eligible target in scan order is reserved under the fresh `id`,
    /// whose record holds the requested kind and amount verbatim; everything
    /// else is untouched.
    pub open spec fn request_ok_rel(
        pre: RoomInventory,
        world: WorldView,
        kind: ResourceKind,
        amount: u32,
        id: ReservationId,
        c0: u32,
        c1: u32,
        post: RoomInventory,
    ) -> bool {
        exists|i: int|
            {
                &&& #[trigger] pre.spec_eligible(world, kind, amount, i)
                &&& forall|j: int| 0 <= j < i ==> !pre.spec_eligible(world, kind, amount, j)
                &&& id.0 == c0
                &&& c1 == c0 + 1
                &&& post.order() == pre.order()
                &&& post.info(pre.order()[i]) == seq![id]
                &&& forall|t2: Target|
                    t2 != pre.order()[i] ==> #[trigger] post.info(t2) == pre.info(t2)
                &&& forall|id2: ReservationId|
                    #[trigger] post.has_res(id2) <==> pre.has_res(id2) || id2 == id
                &&& forall|id2: ReservationId|
                    pre.has_res(id2) ==> #[trigger] post.res(id2) == pre.res(id2)
                &&& post.has_res(id)
                &&& post.res(id).spec_target() == pre.order()[i]
                &&& post.res(id).spec_kind() == kind
                &&& post.res(id).spec_amount() == amount
            }
    }

    /// Reserves `amount` of `kind` against the first tracked target (in scan
    /// order) that has no active reservation and reports strictly more than
    /// `amount` available.  On success the full requested amount is recorded
    /// verbatim under a fresh id; fails with `NotEnough` if and only if no
    /// tracked target qualifies.
    ///
    /// Only fully unreserved targets are considered and the comparison is
    /// strict: partial fulfilment and sharing one target between
    /// reservations are deliberately ruled out.
    pub fn request(
        &mut self,
        kind: ResourceKind,
        amount: u32,
        world: &WorldView,
        next_reservation_id: &mut u32,
    ) -> (r: Result<ReservationId, ReservationError>)
        requires
            old(self).wf(),
            old(self).ids_below(*old(next_reservation_id)),
            *old(next_reservation_id) < u32::MAX,
        ensures
            final(self).wf(),
            final(self).ids_below(*final(next_reservation_id)),
            r is Ok <==> old(self).spec_requestable(*world, kind, amount),
            r matches Err(e) ==> *final(self) == *old(self) && *final(next_reservation_id) == *old(
                next_reservation_id,
            ) && e == ReservationError::NotEnough(NotEnoughErr { kind, amount }),
            r matches Ok(id) ==> Self::request_ok_rel(
                *old(self),
                *world,
                kind,
                amount,
                id,
                *old(next_reservation_id),
                *final(next_reservation_id),
                *final(self),
            ),
    {
        let ghost pre = *self;
        let ghost c0 = *next_reservation_id;
        let mut i: usize = 0;
        while i < self.targets.len()
            invariant
                pre == *old(self),
                c0 == *old(next_reservation_id),
                pre.wf(),
                pre.ids_below(c0),
                c0 < u32::MAX,
                *self == pre,
                *next_reservation_id == c0,
                0 <= i <= self.targets@.len(),
                forall|j: int| 0 <= j < i ==> !pre.spec_eligible(*world, kind, amount, j),
            decreases self.targets@.len() - i,
        {
            let t = self.targets[i].target;
            proof {
                assert(pre.order()[i as int] == t);
                lemma_index_of_unique(pre.order(), i as int, t);
                assert(pre.info(t) == pre.targets@[i as int].info.reservations@);
            }
            let empty_info = self.targets[i].info.reservations.len() == 0;
            let avail_ok = match t.get_available_amount(kind, world) {
                Some(avl) => avl > amount,
                None => false,
            };
            if empty_info && avail_ok {
                assert(pre.spec_eligible(*world, kind, amount, i as int));
                let id = ReservationId::next(next_reservation_id);
                let mut fresh_ids: Vec<ReservationId> = Vec::new();
                fresh_ids.push(id);
                assert(fresh_ids@ =~= seq![id]);
                self.targets.set(i, TargetEntry { target: t, info: TargetInfo { reservations: fresh_ids } });
                self.reservations.push((id, Reservation { target: t, kind, amount }));
                proof {
                    self.lemma_request_post(pre, *world, kind, amount, i as int, id);
                }
                return Ok(id);
            }
            assert(!pre.spec_eligible(*world, kind, amount, i as int));
            i = i + 1;
        }
        assert forall|j: int| !pre.spec_eligible(*world, kind, amount, j) by {
            if 0 <= j < pre.order().len() {
            }
        }
        Err(ReservationError::NotEnough(NotEnoughErr { kind, amount }))
    }

    /// The post-state facts of `request` on the successful path: `self` is
    /// the pre-state with position `i` newly reserved under the fresh `id`.
    proof fn lemma_request_post(
        self,
        pre: RoomInventory,
        world: WorldView,
        kind: ResourceKind,
        amount: u32,
        i: int,
        id: ReservationId,
    )
        requires
            pre.wf(),
            pre.ids_below(id.0),
            id.0 < u32::MAX,
            pre.spec_eligible(world, kind, amount, i),
            self.targets@.len() == pre.targets@.len(),
            self.targets@[i].target == pre.targets@[i].target,
            self.targets@[i].target == pre.order()[i],
            self.targets@[i].info.reservations@ == seq![id],
            forall|j: int|
                0 <= j < self.targets@.len() && j != i ==> #[trigger] self.targets@[j]
                    == pre.targets@[j],
            self.reservations@.len() == pre.reservations@.len() + 1,
            forall|y: int|
                0 <= y < pre.reservations@.len() ==> #[trigger] self.reservations@[y]
                    == pre.reservations@[y],
            self.reservations@.last().0 == id,
            self.reservations@.last().1.spec_target() == pre.order()[i],
            self.reservations@.last().1.spec_kind() == kind,
            self.reservations@.last().1.spec_amount() == amount,
        ensures
            self.wf(),
            self.ids_below((id.0 + 1) as u32),
            self.order() == pre.order(),
            self.info(pre.order()[i]) == seq![id],
            forall|t2: Target|
                t2 != pre.order()[i] ==> #[trigger] self.info(t2) == pre.info(t2),
            forall|id2: ReservationId|
                #[trigger] self.has_res(id2) <==> pre.has_res(id2) || id2 == id,
            forall|id2: ReservationId|
                pre.has_res(id2) ==> #[trigger] self.res(id2) == pre.res(id2),
            self.has_res(id),
            self.res(id).spec_target() == pre.order()[i],
            self.res(id).spec_kind() == kind,
            self.res(id).spec_amount() == amount,
    {
        let t = pre.order()[i];
        let rids = pre.res_ids();
        let rids2 = self.res_ids();
        let n = rids.len() as int;

        assert(self.order() =~= pre.order());
        assert(rids2 =~= rids.push(id));

        // `id` is fresh with respect to the pre state
        assert forall|y: int| 0 <= y < n implies rids[y] != id by {
            assert(pre.has_res(rids[y]));
        }
        assert(!pre.has_res(id));

        // the id column stays duplicate-free
        assert forall|x: int, y: int| 0 <= x < y < rids2.len() implies rids2[x] != rids2[y] by {
            if y < n {
                assert(rids2[x] == rids[x] && rids2[y] == rids[y]);
            } else {
                assert(rids2[y] == id && rids2[x] == rids[x]);
            }
        }
        assert(rids2.no_duplicates());

        // membership gains exactly `id`
        assert forall|id2: ReservationId| #[trigger] self.has_res(id2) implies pre.has_res(id2)
            || id2 == id by {
            let x = choose|x: int| 0 <= x < rids2.len() && rids2[x] == id2;
            if x < n {
                assert(rids[x] == id2);
            }
        }
        assert forall|id2: ReservationId| pre.has_res(id2) || id2 == id implies #[trigger] self
            .has_res(id2) by {
            if pre.has_res(id2) {
                let y = choose|y: int| 0 <= y < rids.len() && rids[y] == id2;
                assert(rids2[y] == id2);
            } else {
                assert(rids2[n] == id);
            }
        }

        // the fresh record
        lemma_index_of_unique(rids2, n, id);
        assert(self.res(id) == self.reservations@[n].1);

        // old records are untouched
        assert forall|id2: ReservationId| pre.has_res(id2) implies #[trigger] self.res(id2)
            == pre.res(id2) by {
            let y = choose|y: int| 0 <= y < rids.len() && rids[y] == id2;
            lemma_index_of_unique(rids, y, id2);
            lemma_index_of_unique(rids2, y, id2);
            assert(self.reservations@[y] == pre.reservations@[y]);
        }

        // registrations: position `i` now holds exactly `id`, others unchanged
        lemma_index_of_unique(pre.order(), i, t);
        assert(self.info(t) == self.targets@[i].info.reservations@);
        assert forall|t2: Target| t2 != t implies #[trigger] self.info(t2) == pre.info(t2) by {
            if pre.tracks(t2) {
                let j = pre.order().index_of(t2);
                assert(pre.order()[j] == t2);
                assert(j != i);
                assert(self.targets@[j] == pre.targets@[j]);
            } else {
                assert(!self.tracks(t2));
            }
        }

        // well-formedness of the post state
        assert forall|j: int, k3: int|
            0 <= j < self.targets@.len() && 0 <= k3 < self.targets@[j].info.reservations@.len()
            implies {
                let id3 = #[trigger] self.targets@[j].info.reservations@[k3];
                self.has_res(id3) && self.res(id3).spec_target() == self.targets@[j].target
            } by {
            let id3 = self.targets@[j].info.reservations@[k3];
            if j == i {
                assert(id3 == id);
            } else {
                assert(self.targets@[j] == pre.targets@[j]);
                assert(pre.has_res(id3) && pre.res(id3).spec_target() == pre.targets@[j].target);
                assert(self.has_res(id3));
                assert(self.res(id3) == pre.res(id3));
            }
        }
        assert(self.wf());

        // every id on record now lies below the advanced counter
        assert forall|id2: ReservationId| #[trigger] self.has_res(id2) implies id2.0 < id.0
            + 1 by {
            if pre.has_res(id2) {
            } else {
                assert(id2 == id);
            }
        }
    }

    /// How one `update_targets(observed)` sweep relates the ledger before
    /// (`pre`) and after (`post`): the tracked set becomes exactly the
    /// observed set, surviving targets keep their registrations, fresh ones
    /// start unreserved, and the reservation records are untouched.
    pub open spec fn refresh_rel(
        pre: RoomInventory,
        observed: Seq<Target>,
        post: RoomInventory,
    ) -> bool {
        &&& forall|t: Target| #[trigger] post.tracks(t) <==> observed.contains(t)
        &&& forall|t: Target|
            observed.contains(t) && pre.tracks(t) ==> #[trigger] post.info(t) == pre.info(t)
        &&& forall|t: Target|
            observed.contains(t) && !pre.tracks(t) ==> #[trigger] post.info(t)
                == Seq::<ReservationId>::empty()
        &&& post.res_ids() == pre.res_ids()
        &&& forall|id: ReservationId|
            #[trigger] post.has_res(id) ==> post.res(id) == pre.res(id)
    }

    /// Reconciles the tracked targets with the set observed this tick: a
    /// fresh, unreserved bookkeeping entry is created for every newly seen
    /// target, and every tracked target absent from `observed` is removed
    /// together with its bookkeeping.  Reservation records are untouched, so
    /// reservations whose target was just removed become dangling; they are
    /// surfaced lazily by `resolve_reservation`, never auto-released.
    ///
    /// This full sweep must run before any reservation request in the same
    /// tick.
    pub fn update_targets(&mut self, observed: &Vec<Target>)
        requires
            old(self).wf(),
        ensures
            final(self).wf(),
            Self::refresh_rel(*old(self), observed@, *final(self)),
            forall|t: Target| #[trigger] final(self).tracks(t) <==> observed@.contains(t),
            forall|t: Target|
                observed@.contains(t) && old(self).tracks(t) ==> #[trigger] final(self).info(t)
                    == old(self).info(t),
            forall|t: Target|
                observed@.contains(t) && !old(self).tracks(t) ==> #[trigger] final(self).info(t)
                    == Seq::<ReservationId>::empty(),
            final(self).res_ids() == old(self).res_ids(),
            forall|id: ReservationId|
                #[trigger] final(self).has_res(id) ==> final(self).res(id) == old(self).res(id),
            forall|bound: u32|
                #[trigger] old(self).ids_below(bound) ==> final(self).ids_below(bound),
            final(self).order() == old(self).order().filter(observed_pred(observed@))
                + fresh_targets(old(self).order(), observed@),
    {
        let ghost pre = *self;
        let ghost old_t = pre.targets@;
        let mut survivors: Vec<TargetEntry> = Vec::new();
        proof {
            reveal(Seq::filter);
            assert(entry_keys(survivors@) =~= Seq::<Target>::empty());
            assert(entry_keys(old_t).take(0) =~= Seq::<Target>::empty());
            assert(Seq::<Target>::empty().filter(observed_pred(observed@))
                =~= Seq::<Target>::empty());
        }

        // keep the tracked targets that were observed again, in their old order
        while self.targets.len() > 0
            invariant
                pre.wf(),
                old_t == pre.targets@,
                self.reservations@ == pre.reservations@,
                self.targets@.len() <= old_t.len(),
                self.targets@ == old_t.skip(old_t.len() - self.targets@.len()),
                forall|j: int|
                    0 <= j < survivors@.len() ==> observed@.contains(
                        (#[trigger] survivors@[j]).target,
                    ),
                forall|j: int|
                    0 <= j < survivors@.len() ==> {
                        let e = #[trigger] survivors@[j];
                        &&& entry_keys(old_t).contains(e.target)
                        &&& entry_keys(old_t).index_of(e.target) < old_t.len()
                            - self.targets@.len()
                        &&& e == old_t[entry_keys(old_t).index_of(e.target)]
                    },
                entry_keys(survivors@).no_duplicates(),
                forall|i: int|
                    0 <= i < old_t.len() - self.targets@.len() && observed@.contains(
                        #[trigger] entry_keys(old_t)[i],
                    ) ==> entry_keys(survivors@).contains(entry_keys(old_t)[i]),
                entry_keys(survivors@) == entry_keys(old_t).take(
                    old_t.len() - self.targets@.len(),
                ).filter(observed_pred(observed@)),
            decreases self.targets@.len(),
        {
            let ghost p = old_t.len() - self.targets@.len();
            let e = self.targets.remove(0);
            proof {
                assert(e == old_t[p]);
                assert(self.targets@ =~= old_t.skip(p + 1));
                assert(entry_keys(old_t)[p] == old_t[p].target);
                lemma_index_of_unique(entry_keys(old_t), p, e.target);
            }
            proof {
                reveal(Seq::filter);
                assert(entry_keys(old_t).take(p + 1).drop_last() =~= entry_keys(old_t).take(p));
                assert(entry_keys(old_t).take(p + 1).last() == e.target);
            }
            if vec_contains_target(observed, &e.target) {
                proof {
                    if entry_keys(survivors@).contains(e.target) {
                        let j = choose|j: int|
                            0 <= j < entry_keys(survivors@).len() && entry_keys(survivors@)[j]
                                == e.target;
                        assert(survivors@[j].target == e.target);
                        assert(entry_keys(old_t).index_of(e.target) < p);
                        assert(false);
                    }
                }
                let ghost old_surv = survivors@;
                survivors.push(e);
                proof {
                    reveal(Seq::filter);
                    lemma_keys_push_no_dup(old_surv, e);
                    assert(observed_pred(observed@)(e.target));
                    assert(entry_keys(old_t).take(p + 1).filter(observed_pred(observed@))
                        == entry_keys(old_t).take(p).filter(observed_pred(observed@)).push(
                        e.target,
                    ));
                }
            } else {
                proof {
                    reveal(Seq::filter);
                    assert(!observed_pred(observed@)(e.target));
                    assert(entry_keys(old_t).take(p + 1).filter(observed_pred(observed@))
                        == entry_keys(old_t).take(p).filter(observed_pred(observed@)));
                }
            }
        }
        proof {
            assert(old_t.len() - self.targets@.len() == old_t.len());
            assert(entry_keys(old_t).take(old_t.len() as int) =~= entry_keys(old_t));
            assert(observed@.take(0) =~= Seq::<Target>::empty());
            assert(fresh_targets(entry_keys(old_t), observed@.take(0))
                =~= Seq::<Target>::empty());
            assert(entry_keys(survivors@) =~= entry_keys(old_t).filter(observed_pred(observed@))
                + fresh_targets(entry_keys(old_t), observed@.take(0)));
        }

        // append a fresh, unreserved entry for each newly observed target
        let mut k: usize = 0;
        while k < observed.len()
            invariant
                pre.wf(),
                old_t == pre.targets@,
                self.reservations@ == pre.reservations@,
                0 <= k <= observed.len(),
                forall|j: int|
                    0 <= j < survivors@.len() ==> observed@.contains(
                        (#[trigger] survivors@[j]).target,
                    ),
                forall|j: int|
                    0 <= j < survivors@.len() ==> {
                        let e = #[trigger] survivors@[j];
                        ||| {
                            &&& entry_keys(old_t).contains(e.target)
                            &&& e == old_t[entry_keys(old_t).index_of(e.target)]
                        }
                        ||| {
                            &&& !entry_keys(old_t).contains(e.target)
                            &&& e.info.reservations@ == Seq::<ReservationId>::empty()
                        }
                    },
                entry_keys(survivors@).no_duplicates(),
                forall|k2: int|
                    0 <= k2 < k ==> entry_keys(survivors@).contains(#[trigger] observed@[k2]),
                forall|i: int|
                    0 <= i < old_t.len() && observed@.contains(#[trigger] entry_keys(old_t)[i])
                        ==> entry_keys(survivors@).contains(entry_keys(old_t)[i]),
                entry_keys(survivors@) == entry_keys(old_t).filter(observed_pred(observed@))
                    + fresh_targets(entry_keys(old_t), observed@.take(k as int)),
            decreases observed.len() - k,
        {
            let t = observed[k];
            let ghost keys = entry_keys(old_t);
            let ghost filtered = keys.filter(observed_pred(observed@));
            let ghost obs_k = observed@.take(k as int);
            let ghost obs_k1 = observed@.take(k as int + 1);
            proof {
                assert(obs_k1.drop_last() =~= obs_k);
                assert(obs_k1.last() == t);
                assert(observed@.contains(t));
            }
            if !entries_contain(&survivors, &t) {
                proof {
                    if entry_keys(old_t).contains(t) {
                        let i = entry_keys(old_t).index_of(t);
                        assert(observed@.contains(t));
                        assert(entry_keys(survivors@).contains(entry_keys(old_t)[i]));
                        assert(false);
                    }
                    if obs_k.contains(t) {
                        lemma_fresh_targets_contains(keys, obs_k, t);
                        lemma_add_contains(filtered, fresh_targets(keys, obs_k), t);
                        assert(false);
                    }
                    assert(fresh_targets(keys, obs_k1) == fresh_targets(keys, obs_k).push(t));
                }
                let ghost old_surv = survivors@;
                let fresh = TargetEntry { target: t, info: TargetInfo { reservations: Vec::new() } };
                survivors.push(fresh);
                proof {
                    lemma_keys_push_no_dup(old_surv, fresh);
                    assert(entry_keys(survivors@).contains(t));
                    assert(entry_keys(survivors@) =~= filtered + fresh_targets(keys, obs_k1));
                }
            } else {
                proof {
                    lemma_add_contains(filtered, fresh_targets(keys, obs_k), t);
                    if filtered.contains(t) {
                        lemma_filter_membership(keys, observed_pred(observed@), t);
                        assert(keys.contains(t));
                    } else {
                        lemma_fresh_targets_contains(keys, obs_k, t);
                        assert(obs_k.contains(t));
                    }
                    assert(fresh_targets(keys, obs_k1) == fresh_targets(keys, obs_k));
                }
            }
            proof {
                assert(entry_keys(survivors@).contains(t));
                assert forall|k2: int| 0 <= k2 < k + 1 implies entry_keys(survivors@).contains(
                    #[trigger] observed@[k2],
                ) by {
                    if k2 < k {
                    } else {
                        assert(observed@[k2] == t);
                    }
                }
            }
            k = k + 1;
        }

        self.targets = survivors;
        proof {
            assert(observed@.take(observed@.len() as int) =~= observed@);
        }

        proof {
            let post = *self;
            let new_t = post.targets@;

            // the tracked set now equals the observed set
            assert forall|t: Target| #[trigger] post.tracks(t) <==> observed@.contains(t) by {
                if post.tracks(t) {
                    let j = choose|j: int|
                        0 <= j < post.order().len() && post.order()[j] == t;
                    assert(new_t[j].target == t);
                    assert(observed@.contains(t));
                }
                if observed@.contains(t) {
                    let k2 = choose|k2: int|
                        0 <= k2 < observed@.len() && observed@[k2] == t;
                    assert(entry_keys(new_t).contains(observed@[k2]));
                }
            }

            // surviving targets keep their registrations; fresh ones start empty
            assert forall|t: Target| observed@.contains(t) && pre.tracks(t) implies #[trigger] post
                .info(t) == pre.info(t) by {
                assert(post.tracks(t));
                let j = post.order().index_of(t);
                assert(post.order()[j] == t);
                let e = new_t[j];
                assert(entry_keys(old_t).contains(e.target));
                assert(pre.info(t) == old_t[entry_keys(old_t).index_of(t)].info.reservations@);
            }
            assert forall|t: Target| observed@.contains(t) && !pre.tracks(t) implies #[trigger] post
                .info(t) == Seq::<ReservationId>::empty() by {
                assert(post.tracks(t));
                let j = post.order().index_of(t);
                assert(post.order()[j] == t);
            }

            // well-formedness carries over entry by entry
            assert forall|i: int, k3: int|
                0 <= i < new_t.len() && 0 <= k3 < new_t[i].info.reservations@.len() implies {
                    let id3 = #[trigger] new_t[i].info.reservations@[k3];
                    post.has_res(id3) && post.res(id3).spec_target() == new_t[i].target
                } by {
                let e = new_t[i];
                assert(entry_keys(old_t).contains(e.target) && e == old_t[entry_keys(
                    old_t,
                ).index_of(e.target)]);
                let oi = entry_keys(old_t).index_of(e.target);
                assert(old_t[oi].info.reservations@[k3] == new_t[i].info.reservations@[k3]);
            }
            assert forall|i: int|
                0 <= i < new_t.len() implies (#[trigger] new_t[i]).info.reservations@.len()
                <= 1 by {
                let e = new_t[i];
                if entry_keys(old_t).contains(e.target) {
                    let oi = entry_keys(old_t).index_of(e.target);
                    assert(old_t[oi].info.reservations@.len() <= 1);
                }
            }
            assert(post.wf());
            assert forall|bound: u32| #[trigger] pre.ids_below(bound) implies post.ids_below(
                bound,
            ) by {
                assert forall|id2: ReservationId| #[trigger] post.has_res(id2) implies id2.0
                    < bound by {
                    assert(pre.has_res(id2));
                }
            }
        }
    }

    /// How one `release(id)` call relates the ledger before (`pre`) and
    /// after (`post`): if `id` has a record and its target is still tracked,
    /// both the record and its registration are removed; otherwise the call
    /// is a no-op.
    pub open spec fn release_rel(pre: RoomInventory, id: ReservationId, post: RoomInventory) -> bool {
        if pre.has_res(id) && pre.tracks(pre.res(id).spec_target()) {
            let t = pre.res(id).spec_target();
            &&& post.order() == pre.order()
            &&& forall|id2: ReservationId|
                #[trigger] post.has_res(id2) <==> pre.has_res(id2) && id2 != id
            &&& forall|id2: ReservationId|
                #[trigger] post.has_res(id2) ==> post.res(id2) == pre.res(id2)
            &&& forall|t2: Target| t2 != t ==> #[trigger] post.info(t2) == pre.info(t2)
            &&& post.info(t) == if pre.info(t) == seq![id] {
                Seq::<ReservationId>::empty()
            } else {
                pre.info(t)
            }
        } else {
            post == pre
        }
    }

    /// Removes a reservation and its registration against the owning
    /// target.  A no-op if the id is unknown or its target is missing;
    /// callers must not treat either as an error.
    pub fn release(&mut self, id: ReservationId)
        requires
            old(self).wf(),
        ensures
            final(self).wf(),
            Self::release_rel(*old(self), id, *final(self)),
            forall|bound: u32|
                #[trigger] old(self).ids_below(bound) ==> final(self).ids_below(bound),
    {
        let k = match self.find_res_index(id) {
            None => {
                return ;
            },
            Some(k) => k,
        };
        proof {
            assert(self.res_ids()[k as int] == self.reservations@[k as int].0);
            lemma_index_of_unique(self.res_ids(), k as int, id);
        }
        let t = self.reservations[k].1.target;
        let ti = match self.find_target_index(&t) {
            None => {
                return ;
            },
            Some(ti) => ti,
        };
        proof {
            assert(self.order()[ti as int] == self.targets@[ti as int].target);
            lemma_index_of_unique(self.order(), ti as int, t);
        }
        let ghost pre = *self;
        let registered_here = self.targets[ti].info.reservations.len() > 0
            && self.targets[ti].info.reservations[0] == id;
        if registered_here {
            self.targets.set(ti, TargetEntry { target: t, info: TargetInfo { reservations: Vec::new() } });
        }
        self.reservations.remove(k);
        proof {
            let post = *self;
            let ki = k as int;
            let tii = ti as int;
            let old_t = pre.targets@;
            let new_t = post.targets@;
            let rids = pre.res_ids();
            let rids2 = post.res_ids();

            assert(pre.res(id) == pre.reservations@[ki].1);
            assert(pre.res(id).spec_target() == t);

            // the scan order and the target entries other than `ti` are untouched
            assert(post.order() =~= pre.order());
            assert(new_t.len() == old_t.len());
            assert(forall|j: int|
                0 <= j < new_t.len() && j != tii ==> #[trigger] new_t[j] == old_t[j]);

            // the id column after the removal is the old column with `k` removed
            pre.reservations@.remove_ensures(ki);
            rids.remove_ensures(ki);
            assert forall|x: int| 0 <= x < rids2.len() implies rids2[x] == rids.remove(ki)[x] by {
                if x < ki {
                    assert(pre.reservations@.remove(ki)[x] == pre.reservations@[x]);
                    assert(rids.remove(ki)[x] == rids[x]);
                } else {
                    assert(pre.reservations@.remove(ki)[x] == pre.reservations@[x + 1]);
                    assert(rids.remove(ki)[x] == rids[x + 1]);
                }
            }
            assert(rids2 =~= rids.remove(ki));

            // the remaining ids stay pairwise distinct
            assert forall|x: int, y: int| 0 <= x < y < rids2.len() implies rids2[x] != rids2[y] by {
                let x0: int = if x < ki { x } else { x + 1 };
                let y0: int = if y < ki { y } else { y + 1 };
                assert(rids2[x] == rids[x0] && rids2[y] == rids[y0]);
            }
            assert(rids2.no_duplicates());

            // membership: exactly `id` went away
            assert forall|id2: ReservationId| #[trigger] post.has_res(id2) implies pre.has_res(id2)
                && id2 != id by {
                let x = choose|x: int| 0 <= x < rids2.len() && rids2[x] == id2;
                let y: int = if x < ki { x } else { x + 1 };
                assert(rids[y] == id2);
                assert(y != ki);
            }
            assert forall|id2: ReservationId| pre.has_res(id2) && id2 != id implies #[trigger] post
                .has_res(id2) by {
                let y = choose|y: int| 0 <= y < rids.len() && rids[y] == id2;
                assert(y != ki);
                let x: int = if y < ki { y } else { y - 1 };
                assert(rids2[x] == id2);
            }

            // the surviving records are unchanged
            assert forall|id2: ReservationId| #[trigger] post.has_res(id2) implies post.res(id2)
                == pre.res(id2) by {
                let x = choose|x: int| 0 <= x < rids2.len() && rids2[x] == id2;
                lemma_index_of_unique(rids2, x, id2);
                let y: int = if x < ki { x } else { x + 1 };
                assert(rids[y] == id2);
                lemma_index_of_unique(rids, y, id2);
                assert(post.reservations@[x].1 == pre.reservations@[y].1);
            }

            // registrations of other targets are unchanged
            assert forall|t2: Target| t2 != t implies #[trigger] post.info(t2) == pre.info(t2) by {
                if pre.tracks(t2) {
                    let j = pre.order().index_of(t2);
                    assert(pre.order()[j] == t2);
                    assert(j != tii);
                    assert(new_t[j] == old_t[j]);
                } else {
                    assert(!post.tracks(t2));
                }
            }

            // the released id's own target
            if registered_here {
                assert(pre.info(t) == old_t[tii].info.reservations@);
                assert(pre.info(t).len() <= 1);
                assert(pre.info(t) =~= seq![id]);
                assert(post.info(t) =~= Seq::<ReservationId>::empty());
            } else {
                assert(pre.info(t) != seq![id]) by {
                    if pre.info(t) == seq![id] {
                        assert(old_t[tii].info.reservations@[0] == id);
                    }
                }
                assert(post.info(t) == pre.info(t));
            }

            // well-formedness of the post state
            assert forall|i: int, k3: int|
                0 <= i < new_t.len() && 0 <= k3 < new_t[i].info.reservations@.len() implies {
                    let id3 = #[trigger] new_t[i].info.reservations@[k3];
                    post.has_res(id3) && post.res(id3).spec_target() == new_t[i].target
                } by {
                let id3 = new_t[i].info.reservations@[k3];
                if registered_here && i == tii {
                    assert(false);
                } else {
                    assert(new_t[i] == old_t[i]);
                }
                assert(pre.has_res(id3) && pre.res(id3).spec_target() == old_t[i].target);
                assert(id3 != id) by {
                    if id3 == id {
                        assert(pre.order()[i] == old_t[i].target);
                        assert(old_t[i].target == t);
                        assert(i == tii);
                        assert(old_t[tii].info.reservations@.len() <= 1);
                        assert(k3 == 0);
                        assert(registered_here);
                    }
                }
                assert(post.has_res(id3));
                assert(post.res(id3) == pre.res(id3));
                assert(new_t[i].target == old_t[i].target);
            }
            assert(post.wf());
            assert(Self::release_rel(pre, id, post));
            assert forall|bound: u32| #[trigger] pre.ids_below(bound) implies post.ids_below(
                bound,
            ) by {
                assert forall|id2: ReservationId| #[trigger] post.has_res(id2) implies id2.0
                    < bound by {
                    assert(pre.has_res(id2));
                }
            }
        }
    }

    /// Reservation `id` resolves: it has a record and the record's target is
    /// still tracked.
    pub open spec fn spec_resolvable(self, id: ReservationId) -> bool {
        self.has_res(id) && self.tracks(self.res(id).spec_target())
    }

    /// Resolves a reservation id to its record, but only if both the record
    /// and its target still exist; a sweep may have removed the target since
    /// the reservation was granted, in which case the reservation is
    /// unusable and the caller should release it.
    pub fn resolve_reservation(&self, id: &ReservationId) -> (r: Option<&Reservation>)
        requires
            self.wf(),
        ensures
            r is Some <==> self.spec_resolvable(*id),
            r matches Some(res) ==> *res == self.res(*id),
    {
        match self.find_res_index(*id) {
            None => None,
            Some(k) => {
                proof {
                    assert(self.res_ids()[k as int] == self.reservations@[k as int].0);
                    lemma_index_of_unique(self.res_ids(), k as int, *id);
                }
                let reservation = &self.reservations[k].1;
                match self.find_target_index(&reservation.target) {
                    None => None,
                    Some(i) => {
                        proof {
                            assert(self.order()[i as int] == self.targets@[i as int].target);
                        }
                        Some(reservation)
                    },
                }
            },
        }
    }
}

impl Default for RoomInventory {
    /// An empty ledger, as a region starts with.
    fn default() -> (inv: RoomInventory)
        ensures
            inv.wf(),
            inv.order() == Seq::<Target>::empty(),
            forall|id: ReservationId| !(#[trigger] inv.has_res(id)),
            forall|t: Target| #[trigger] inv.info(t) == Seq::<ReservationId>::empty(),
            inv.ids_below(0),
    {
        RoomInventory::new()
    }
}

/// No double reservation: two distinct reservations registered in the
/// ledger's per-target bookkeeping never reference the same target.  Every
/// reservation a request grants is registered this way; only a later sweep
/// that removes its target can orphan one.
pub proof fn lemma_no_double_reservation(
    inv: RoomInventory,
    t1: Target,
    t2: Target,
    i1: ReservationId,
    i2: ReservationId,
)
    requires
        inv.wf(),
        i1 != i2,
        inv.registered(t1, i1),
        inv.registered(t2, i2),
    ensures
        t1 != t2,
{
    if t1 == t2 {
        let s = inv.info(t1);
        let k1 = choose|k: int| 0 <= k < s.len() && s[k] == i1;
        let k2 = choose|k: int| 0 <= k < s.len() && s[k] == i2;
        assert(inv.tracks(t1));
        let j = inv.order().index_of(t1);
        assert(inv.order()[j] == t1);
        assert(s == inv.targets@[j].info.reservations@);
        assert(s.len() <= 1);
        assert(false);
    }
}

/// Every reservation a successful request grants is registered against its
/// target, so `lemma_no_double_reservation` applies to it: between two
/// sweeps, no two granted reservations can share a target.
pub proof fn lemma_request_grants_registered(
    pre: RoomInventory,
    world: WorldView,
    kind: ResourceKind,
    amount: u32,
    id: ReservationId,
    c0: u32,
    c1: u32,
    post: RoomInventory,
)
    requires
        RoomInventory::request_ok_rel(pre, world, kind, amount, id, c0, c1, post),
    ensures
        post.has_res(id),
        post.registered(post.res(id).spec_target(), id),
{
    let i = choose|i: int|
        {
            &&& #[trigger] pre.spec_eligible(world, kind, amount, i)
            &&& post.info(pre.order()[i]) == seq![id]
            &&& post.res(id).spec_target() == pre.order()[i]
        };
    assert(post.info(pre.order()[i])[0] == id);
}

/// Monotonic, unique ids: every reservation id equals the counter's value
/// at its allocation, and the counter strictly grows between allocations
/// (`ReservationId::next` adds one and nothing ever decreases it), so ids
/// strictly increase in allocation order and are never reused.
pub proof fn lemma_ids_strictly_increase(counters: Seq<u32>, ids: Seq<ReservationId>)
    requires
        ids.len() == counters.len(),
        forall|i: int| 0 <= i < ids.len() ==> (#[trigger] ids[i]).0 == counters[i],
        forall|i: int| 0 <= i + 1 < counters.len() ==> #[trigger] counters[i] < counters[i + 1],
    ensures
        forall|i: int, j: int|
            0 <= i < j < ids.len() ==> (#[trigger] ids[i]).0 < (#[trigger] ids[j]).0,
        ids.no_duplicates(),
{
    assert forall|i: int, j: int| 0 <= i < j < ids.len() implies (#[trigger] ids[i]).0 < (
    #[trigger] ids[j]).0 by {
        lemma_counters_grow(counters, i, j);
    }
}

/// In a chain where each counter value is below the next, earlier values
/// are below later ones.
proof fn lemma_counters_grow(counters: Seq<u32>, i: int, j: int)
    requires
        forall|k: int| 0 <= k + 1 < counters.len() ==> #[trigger] counters[k] < counters[k + 1],
        0 <= i < j < counters.len(),
    ensures
        counters[i] < counters[j],
    decreases j - i,
{
    if i + 1 < j {
        lemma_counters_grow(counters, i, j - 1);
    }
}

/// Release idempotence: releasing the same id twice leaves the ledger
/// exactly as the first release left it, and a release of an unknown id
/// changes nothing.
pub proof fn lemma_release_idempotent(
    pre: RoomInventory,
    mid: RoomInventory,
    post: RoomInventory,
    id: ReservationId,
)
    requires
        RoomInventory::release_rel(pre, id, mid),
        RoomInventory::release_rel(mid, id, post),
    ensures
        post == mid,
{
    if pre.has_res(id) && pre.tracks(pre.res(id).spec_target()) {
        assert(!mid.has_res(id));
    }
}

/// Resolve reflects target liveness across a sweep: a sweep whose observed
/// set omits a reservation's target leaves that reservation unresolvable,
/// while its record stays on the books.
pub proof fn lemma_refresh_drops_resolution(
    pre: RoomInventory,
    observed: Seq<Target>,
    post: RoomInventory,
    id: ReservationId,
)
    requires
        RoomInventory::refresh_rel(pre, observed, post),
        pre.has_res(id),
        !observed.contains(pre.res(id).spec_target()),
    ensures
        post.has_res(id),
        !post.spec_resolvable(id),
{
    assert(post.has_res(id));
    assert(post.res(id) == pre.res(id));
}

/// In a duplicate-free sequence, any position holding `x` is the position
/// `index_of(x)` picks.
proof fn lemma_index_of_unique<T>(s: Seq<T>, i: int, x: T)
    requires
        s.no_duplicates(),
        0 <= i < s.len(),
        s[i] == x,
    ensures
        s.contains(x),
        s.index_of(x) == i,
{
    assert(s.contains(x));
    let j = s.index_of(x);
    assert(0 <= j < s.len() && s[j] == x);
}

} // verus!
