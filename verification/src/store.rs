//! The stores that hand out identifiers: one for the wires of a net, one for
//! the agent kinds of a program. Both keep their entries in a slot map.

use crate::term::AgentId;
use crate::term::Term;
use crate::term::Tree;
use crate::term::VarId;
use slotmap::DefaultKey;
use slotmap::Key;
use slotmap::KeyData;
use slotmap::SlotMap;
use vstd::prelude::*;

verus! {
/// A store can hold this many entries and no more.
pub const STORE_LIMIT: usize = 0xffff_fffe;

/// The identifier under which a store looks `id` up: the same number with
/// bit 32 set, as `KeyData::from_ffi` makes a key of it. Every identifier
/// that a store hands out has that bit set already.
pub open spec fn slot_key(id: u64) -> u64 {
    id | 0x1_0000_0000u64
}

/// The wires of a net: each is unbound, or bound to one tree. They are kept
/// in a `slotmap::SlotMap`, which the verifier does not look into: what is
/// known of the store is what the functions below say of `var_slots` and
/// `var_spent`.
#[verifier::external_body]
#[derive(Debug)]
pub struct VarStore {
    slots: SlotMap<DefaultKey, Option<Tree>>,
}

/// What a wire store holds, by identifier.
pub uninterp spec fn var_slots(s: VarStore) -> Map<VarId, Option<Tree>>;

/// The identifiers that have left a wire store: it handed them out and holds
/// them no more.
pub uninterp spec fn var_spent(s: VarStore) -> Set<VarId>;

/// A store hands out no identifier a second time before this many have left
/// it. An identifier is a slot's place and the slot's version; the version
/// goes up by two each time the slot is filled again, in 32 bits, so a
/// slot comes back to a version only after this many entries have left it.
pub const REUSE_AFTER: u64 = 0x8000_0000;

/// `SlotMap::new`: the new map holds nothing, and nothing has left it.
#[verifier::external_body]
fn slots_new() -> (s: VarStore)
    ensures
        var_slots(s).dom() == Set::<VarId>::empty(),
        var_spent(s) == Set::<VarId>::empty(),
{
    VarStore { slots: SlotMap::new() }
}

/// `SlotMap::len`: the number of entries.
#[verifier::external_body]
fn slots_len(s: &VarStore) -> (n: usize)
    ensures
        n == var_slots(*s).dom().len(),
{
    s.slots.len()
}

/// `SlotMap::insert`: files the value under an identifier that the map did
/// not hold, with bit 32 set, and leaves the other entries as they were. The
/// identifier is none that has left the map, as long as fewer than
/// `REUSE_AFTER` have left it: a slot that is filled again gets the next
/// version. The map panics where no slot is free and it cannot make
/// another, which is only once it holds as many entries as the limit: a
/// store never detaches a key, so each of its slots is free or holds an
/// entry.
#[verifier::external_body]
fn slots_insert(s: &mut VarStore, value: Option<Tree>) -> (id: VarId)
    requires
        var_slots(*old(s)).dom().len() < STORE_LIMIT,
    ensures
        !var_slots(*old(s)).contains_key(id),
        slot_key(id) == id,
        var_slots(*final(s)) == var_slots(*old(s)).insert(id, value),
        var_spent(*final(s)) == var_spent(*old(s)),
        var_spent(*old(s)).len() < REUSE_AFTER ==> !var_spent(*old(s)).contains(id),
{
    s.slots.insert(value).data().as_ffi()
}

/// `SlotMap::get`: the entry filed under the identifier, if there is one. The
/// key is made of the identifier by `KeyData::from_ffi`, which sets bit 32.
#[verifier::external_body]
fn slots_get(s: &VarStore, id: VarId) -> (r: Option<&Option<Tree>>)
    ensures
        r is Some <==> var_slots(*s).contains_key(slot_key(id)),
        r is Some ==> *r.unwrap() == var_slots(*s)[slot_key(id)],
{
    s.slots.get(DefaultKey::from(KeyData::from_ffi(id)))
}

/// `SlotMap::get_mut`: the entry filed under the identifier, if there is one;
/// what is written through the reference replaces that entry and no other,
/// and no identifier leaves the map.
#[verifier::external_body]
fn slots_get_mut(s: &mut VarStore, id: VarId) -> (r: Option<&mut Option<Tree>>)
    ensures
        r is Some <==> var_slots(*old(s)).contains_key(slot_key(id)),
        r is Some ==> *r.unwrap() == var_slots(*old(s))[slot_key(id)] && var_slots(*final(s))
            == var_slots(*old(s)).insert(slot_key(id), *final(r.unwrap())),
        r is None ==> var_slots(*final(s)) == var_slots(*old(s)),
        var_spent(*final(s)) == var_spent(*old(s)),
{
    s.slots.get_mut(DefaultKey::from(KeyData::from_ffi(id)))
}

/// `SlotMap::remove`: takes out the entry filed under the identifier, if
/// there is one, and returns it; the identifier has then left the map.
#[verifier::external_body]
fn slots_remove(s: &mut VarStore, id: VarId) -> (r: Option<Option<Tree>>)
    ensures
        r is Some <==> var_slots(*old(s)).contains_key(slot_key(id)),
        r is Some ==> r.unwrap() == var_slots(*old(s))[slot_key(id)],
        var_slots(*final(s)) == var_slots(*old(s)).remove(slot_key(id)),
        var_spent(*final(s)) == if var_slots(*old(s)).contains_key(slot_key(id)) {
            var_spent(*old(s)).insert(slot_key(id))
        } else {
            var_spent(*old(s))
        },
{
    s.slots.remove(DefaultKey::from(KeyData::from_ffi(id)))
}

impl View for VarStore {
    type V = Map<VarId, Option<Term>>;

    open spec fn view(&self) -> Map<VarId, Option<Term>> {
        var_slots(*self).map_values(|o: Option<Tree>| o.deep_view())
    }
}

impl VarStore {
    /// Every identifier in the store is one that a store hands out, the
    /// store is finite, and finitely many identifiers have left it.
    pub open spec fn wf(&self) -> bool {
        &&& var_slots(*self).dom().finite()
        &&& var_spent(*self).finite()
        &&& forall|k: VarId| #[trigger] var_slots(*self).contains_key(k) ==> slot_key(k) == k
    }

    /// The identifiers that have left the store.
    pub open spec fn spent(&self) -> Set<VarId> {
        var_spent(*self)
    }

    /// The identifiers that the store has handed out: those it holds and
    /// those that have left it.
    pub open spec fn issued(&self) -> Set<VarId> {
        self@.dom().union(self.spent())
    }

    /// A well-formed store holds finitely many wires.
    pub proof fn lemma_finite(&self)
        requires
            self.wf(),
        ensures
            self@.dom().finite(),
    {
        assert(self@.dom() =~= var_slots(*self).dom());
    }

    /// A store without wires.
    pub fn new() -> (s: Self)
        ensures
            s.wf(),
            s@ == Map::<VarId, Option<Term>>::empty(),
            s.spent() == Set::<VarId>::empty(),
    {
        let s = slots_new();
        s
    }

    /// The number of wires.
    pub fn len(&self) -> (n: usize)
        ensures
            n == self@.len(),
    {
        let n = slots_len(self);
        assert(self@.dom() =~= var_slots(*self).dom());
        n
    }

    /// Whether the store holds a wire under `id`.
    pub fn contains(&self, id: VarId) -> (r: bool)
        requires
            self.wf(),
        ensures
            r == self@.contains_key(id),
    {
        if id | 0x1_0000_0000u64 != id {
            return false;
        }
        slots_get(self, id).is_some()
    }

    /// Files a new wire and returns its identifier, which the store did not
    /// hold before, and which is none that has left the store as long as
    /// fewer than `REUSE_AFTER` have left it.
    pub fn insert(&mut self, value: Option<Tree>) -> (id: VarId)
        requires
            old(self).wf(),
            old(self)@.len() < STORE_LIMIT,
        ensures
            final(self).wf(),
            !old(self)@.contains_key(id),
            final(self)@ == old(self)@.insert(id, value.deep_view()),
            final(self)@.len() == old(self)@.len() + 1,
            final(self).spent() == old(self).spent(),
            old(self).spent().len() < REUSE_AFTER ==> !old(self).issued().contains(id),
    {
        assert(self@.dom() =~= var_slots(*self).dom());
        let id = slots_insert(self, value);
        id
    }

    /// The entry of the wire `id`, if the store holds it.
    pub fn get(&self, id: VarId) -> (r: Option<&Option<Tree>>)
        requires
            self.wf(),
        ensures
            r is Some <==> self@.contains_key(id),
            r is Some ==> r.unwrap().deep_view() == self@[id],
    {
        if id | 0x1_0000_0000u64 != id {
            return None;
        }
        slots_get(self, id)
    }

    /// Puts `value` in place of the entry of the wire `id` and returns the
    /// entry that was there; without such a wire the store stays as it is.
    pub fn replace(&mut self, id: VarId, value: Option<Tree>) -> (r: Option<Option<Tree>>)
        requires
            old(self).wf(),
        ensures
            final(self).wf(),
            r is Some <==> old(self)@.contains_key(id),
            r is Some ==> r.unwrap().deep_view() == old(self)@[id] && final(self)@ == old(
                self,
            )@.insert(id, value.deep_view()),
            r is None ==> final(self)@ == old(self)@,
            final(self).spent() == old(self).spent(),
    {
        if id | 0x1_0000_0000u64 != id {
            return None;
        }
        match slots_get_mut(self, id) {
            Some(slot) => {
                let before = slot.take();
                *slot = value;
                Some(before)
            },
            None => None,
        }
    }

    /// Takes the wire `id` out of the store and returns its entry; the
    /// identifier has then left the store.
    pub fn remove(&mut self, id: VarId) -> (r: Option<Option<Tree>>)
        requires
            old(self).wf(),
        ensures
            final(self).wf(),
            r is Some <==> old(self)@.contains_key(id),
            r is Some ==> r.unwrap().deep_view() == old(self)@[id],
            final(self)@ == old(self)@.remove(id),
            final(self).spent() == if old(self)@.contains_key(id) {
                old(self).spent().insert(id)
            } else {
                old(self).spent()
            },
            final(self).issued() == old(self).issued(),
    {
        if id | 0x1_0000_0000u64 != id {
            return None;
        }
        let r = slots_remove(self, id);
        r
    }
}

/// `SlotMap::clone`: a map with the same identifiers, each holding a clone
/// of what it held, and with the same slots and versions, so that the same
/// identifiers have left it; a tree's clone has the tree's view.
#[verifier::external_body]
fn slots_clone(s: &VarStore) -> (r: VarStore)
    ensures
        var_slots(r).dom() == var_slots(*s).dom(),
        var_spent(r) == var_spent(*s),
        forall|k: VarId| #[trigger]
            var_slots(r).contains_key(k) ==> var_slots(r)[k].deep_view() == var_slots(
                *s,
            )[k].deep_view(),
{
    VarStore { slots: s.slots.clone() }
}

impl Clone for VarStore {
    fn clone(&self) -> (r: Self)
        ensures
            r@ == self@,
            r.wf() == self.wf(),
            r.spent() == self.spent(),
    {
        let r = slots_clone(self);
        r
    }
}

/// The agent kinds of a program: an identifier for each. They are kept in a
/// `slotmap::SlotMap`, which the verifier does not look into: what is known
/// of the store is what the functions below say of `agent_slots`.
#[verifier::external_body]
#[derive(Debug)]
pub struct AgentStore {
    slots: SlotMap<DefaultKey, ()>,
}

/// The identifiers that an agent store holds.
pub uninterp spec fn agent_slots(s: AgentStore) -> Set<AgentId>;

/// `SlotMap::new`: the new map holds nothing.
#[verifier::external_body]
fn agents_new() -> (s: AgentStore)
    ensures
        agent_slots(s) == Set::<AgentId>::empty(),
{
    AgentStore { slots: SlotMap::new() }
}

/// `SlotMap::len`: the number of entries.
#[verifier::external_body]
fn agents_len(s: &AgentStore) -> (n: usize)
    ensures
        n == agent_slots(*s).len(),
{
    s.slots.len()
}

/// `SlotMap::insert`: files an entry under an identifier that the map did not
/// hold, with bit 32 set, and leaves the other entries as they were. The map
/// panics where no slot is free and it cannot make another, which is only
/// once it holds as many entries as the limit: a store never detaches a key,
/// so each of its slots is free or holds an entry.
#[verifier::external_body]
fn agents_insert(s: &mut AgentStore) -> (id: AgentId)
    requires
        agent_slots(*old(s)).len() < STORE_LIMIT,
    ensures
        !agent_slots(*old(s)).contains(id),
        slot_key(id) == id,
        agent_slots(*final(s)) == agent_slots(*old(s)).insert(id),
{
    s.slots.insert(()).data().as_ffi()
}

/// `SlotMap::clone`: a map with the same identifiers.
#[verifier::external_body]
fn agents_clone(s: &AgentStore) -> (r: AgentStore)
    ensures
        agent_slots(r) == agent_slots(*s),
{
    AgentStore { slots: s.slots.clone() }
}

impl View for AgentStore {
    type V = Map<AgentId, ()>;

    open spec fn view(&self) -> Map<AgentId, ()> {
        Map::new(|k: AgentId| agent_slots(*self).contains(k), |k: AgentId| ())
    }
}

impl Clone for AgentStore {
    fn clone(&self) -> (r: Self)
        ensures
            r@ == self@,
            r.wf() == self.wf(),
    {
        let r = agents_clone(self);
        r
    }
}

impl AgentStore {
    /// The store is finite.
    pub open spec fn wf(&self) -> bool {
        agent_slots(*self).finite()
    }

    /// A store without agent kinds.
    pub fn new() -> (s: Self)
        ensures
            s.wf(),
            s@ == Map::<AgentId, ()>::empty(),
    {
        let s = agents_new();
        s
    }

    /// The number of agent kinds.
    pub fn len(&self) -> (n: usize)
        ensures
            n == self@.len(),
    {
        let n = agents_len(self);
        assert(self@.dom() =~= agent_slots(*self));
        n
    }

    /// Files a new agent kind and returns its identifier, which the store did
    /// not hold before.
    pub fn insert(&mut self) -> (id: AgentId)
        requires
            old(self).wf(),
            old(self)@.len() < STORE_LIMIT,
        ensures
            final(self).wf(),
            !old(self)@.contains_key(id),
            final(self)@ == old(self)@.insert(id, ()),
            final(self)@.len() == old(self)@.len() + 1,
    {
        assert(self@.dom() =~= agent_slots(*self));
        let id = agents_insert(self);
        id
    }
}
} // verus!
