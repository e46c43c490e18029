//! Deferred world mutations. Systems queue structural changes (spawning,
//! despawning, inserting and removing components) that are applied after
//! the systems of a phase complete, so no query is invalidated while it is
//! iterated.

pub mod queue;
pub mod parallel;

use vstd::prelude::*;
use crate::component::{ComponentId, FNV_OFFSET_BASIS, FNV_PRIME, fmix64, spec_fmix64};
use crate::entity::Entity;
use crate::bundle::bundle_view;

verus! {

/// Command kind for batching: commands of the same kind are applied
/// together.
#[derive(Clone, Copy, PartialEq, Eq, Structural, Debug, Hash)]
pub enum CommandKind {
    /// Spawn commands.
    Spawn,
    /// Despawn commands.
    Despawn,
    /// Insert-bundle commands, by bundle signature.
    InsertBundle(u64),
    /// Insert-component commands, by component id.
    InsertComponent(u64),
    /// Remove-component commands, by component id.
    RemoveComponent(u64),
    /// Other commands.
    Other,
}

/// The place of a kind in the application order: spawns first, then bundle
/// inserts, component inserts, removals, despawns, and other commands last.
pub open spec fn spec_kind_order(kind: CommandKind) -> u32 {
    match kind {
        CommandKind::Spawn => 0,
        CommandKind::InsertBundle(_) => 1,
        CommandKind::InsertComponent(_) => 2,
        CommandKind::RemoveComponent(_) => 3,
        CommandKind::Despawn => 4,
        CommandKind::Other => 5,
    }
}

/// Returns the place of a kind in the application order.
pub fn kind_order(kind: &CommandKind) -> (r: u32)
    ensures
        r == spec_kind_order(*kind),
{
    match kind {
        CommandKind::Spawn => 0,
        CommandKind::InsertBundle(_) => 1,
        CommandKind::InsertComponent(_) => 2,
        CommandKind::RemoveComponent(_) => 3,
        CommandKind::Despawn => 4,
        CommandKind::Other => 5,
    }
}

/// The signature of a sequence of component ids: FNV-1a over the ids, then
/// the MurmurHash3 finalizer. Bundles with the same ids in the same order
/// have the same signature.
pub open spec fn spec_signature_fold(ids: Seq<ComponentId>) -> u64
    decreases ids.len(),
{
    if ids.len() == 0 {
        FNV_OFFSET_BASIS
    } else {
        (spec_signature_fold(ids.drop_last()) ^ ids.last().0).wrapping_mul(FNV_PRIME)
    }
}

/// The signature of a bundle: that of its ids.
pub open spec fn spec_bundle_signature<V>(bundle: Seq<(ComponentId, V)>) -> u64 {
    spec_fmix64(spec_signature_fold(bundle.map_values(|p: (ComponentId, V)| p.0)))
}

/// Computes the signature of a bundle.
pub fn bundle_signature<V>(bundle: &Vec<(ComponentId, V)>) -> (r: u64)
    ensures
        r == spec_bundle_signature(bundle@),
{
    let ghost ids = bundle@.map_values(|p: (ComponentId, V)| p.0);
    let mut h: u64 = FNV_OFFSET_BASIS;
    let mut i: usize = 0;
    while i < bundle.len()
        invariant
            i <= bundle@.len(),
            ids == bundle@.map_values(|p: (ComponentId, V)| p.0),
            h == spec_signature_fold(ids.subrange(0, i as int)),
        decreases bundle@.len() - i,
    {
        proof {
            assert(ids.subrange(0, i as int + 1).drop_last() =~= ids.subrange(0, i as int));
        }
        h = (h ^ bundle[i].0.0).wrapping_mul(FNV_PRIME);
        i = i + 1;
    }
    proof {
        assert(ids.subrange(0, i as int) =~= ids);
    }
    fmix64(h)
}

/// A structural change of the world.
pub enum WorldCommand<V> {
    /// Spawn an entity with a bundle of components.
    Spawn(Vec<(ComponentId, V)>),
    /// Spawn an entity with no components.
    SpawnEmpty,
    /// Despawn an entity.
    Despawn(Entity),
    /// Insert a component on an entity.
    Insert(Entity, ComponentId, V),
    /// Insert a bundle of components on an entity.
    InsertBundle(Entity, Vec<(ComponentId, V)>),
    /// Remove a component from an entity.
    Remove(Entity, ComponentId),
}

/// The kind of a command.
pub open spec fn spec_command_kind<V>(c: WorldCommand<V>) -> CommandKind {
    match c {
        WorldCommand::Spawn(_) => CommandKind::Spawn,
        WorldCommand::SpawnEmpty => CommandKind::Spawn,
        WorldCommand::Despawn(_) => CommandKind::Despawn,
        WorldCommand::Insert(_, id, _) => CommandKind::InsertComponent(id.0),
        WorldCommand::InsertBundle(_, b) => CommandKind::InsertBundle(spec_bundle_signature(b@)),
        WorldCommand::Remove(_, id) => CommandKind::RemoveComponent(id.0),
    }
}

/// Whether a command spawns an entity.
pub open spec fn is_spawn<V>(c: WorldCommand<V>) -> bool {
    c is Spawn || c is SpawnEmpty
}

impl<V> WorldCommand<V> {
    /// Returns the kind of the command, for batching.
    pub fn kind(&self) -> (r: CommandKind)
        ensures
            r == spec_command_kind(*self),
    {
        match self {
            WorldCommand::Spawn(_) => CommandKind::Spawn,
            WorldCommand::SpawnEmpty => CommandKind::Spawn,
            WorldCommand::Despawn(_) => CommandKind::Despawn,
            WorldCommand::Insert(_, id, _) => CommandKind::InsertComponent(id.0),
            WorldCommand::InsertBundle(_, b) => CommandKind::InsertBundle(bundle_signature(b)),
            WorldCommand::Remove(_, id) => CommandKind::RemoveComponent(id.0),
        }
    }
}

/// What a command does to the components of the entities; a spawn creates
/// `fresh`.
pub open spec fn command_effect<V>(m: Map<Entity, Map<u64, V>>, c: WorldCommand<V>, fresh: Entity) -> Map<Entity, Map<u64, V>> {
    match c {
        WorldCommand::Spawn(b) => m.insert(fresh, bundle_view(b@)),
        WorldCommand::SpawnEmpty => m.insert(fresh, Map::empty()),
        WorldCommand::Despawn(e) => m.remove(e),
        WorldCommand::Insert(e, id, v) => if m.contains_key(e) {
            m.insert(e, m[e].insert(id.0, v))
        } else {
            m
        },
        WorldCommand::InsertBundle(e, b) => if m.contains_key(e) {
            m.insert(e, m[e].union_prefer_right(bundle_view(b@)))
        } else {
            m
        },
        WorldCommand::Remove(e, id) => if m.contains_key(e) {
            m.insert(e, m[e].remove(id.0))
        } else {
            m
        },
    }
}

/// The number of spawning commands.
pub open spec fn spawn_count<V>(cs: Seq<WorldCommand<V>>) -> nat
    decreases cs.len(),
{
    if cs.len() == 0 {
        0
    } else {
        spawn_count(cs.drop_last()) + if is_spawn(cs.last()) { 1nat } else { 0nat }
    }
}

/// What commands applied in order do; the spawns create the entities of
/// `fresh`, in order.
pub open spec fn commands_effect<V>(m: Map<Entity, Map<u64, V>>, cs: Seq<WorldCommand<V>>, fresh: Seq<Entity>) -> Map<
    Entity,
    Map<u64, V>,
>
    decreases cs.len(),
{
    if cs.len() == 0 {
        m
    } else {
        command_effect(commands_effect(m, cs.drop_last(), fresh), cs.last(), fresh[spawn_count(cs.drop_last()) as int])
    }
}

/// Every spawned entity is new when it is spawned.
pub open spec fn fresh_spawns<V>(m: Map<Entity, Map<u64, V>>, cs: Seq<WorldCommand<V>>, fresh: Seq<Entity>) -> bool
    decreases cs.len(),
{
    if cs.len() == 0 {
        true
    } else {
        &&& fresh_spawns(m, cs.drop_last(), fresh)
        &&& is_spawn(cs.last()) ==> !commands_effect(m, cs.drop_last(), fresh).contains_key(
            fresh[spawn_count(cs.drop_last()) as int],
        )
    }
}

/// Some choice of new entities for the spawns gives `result`.
pub open spec fn commands_lead_to<V>(m: Map<Entity, Map<u64, V>>, cs: Seq<WorldCommand<V>>, result: Map<Entity, Map<u64, V>>) -> bool {
    exists|fresh: Seq<Entity>|
        fresh.len() == spawn_count(cs) && fresh_spawns(m, cs, fresh) && #[trigger] commands_effect(m, cs, fresh) == result
}

/// Marker state of the commands parameter: the queue comes from the
/// scheduler.
#[derive(Default, Debug)]
pub struct CommandsState;

/// Queues deferred world mutations; they are applied after the systems of
/// the current phase complete.
pub struct Commands<'w, V> {
    pub queue: &'w mut queue::CommandQueue<V>,
}

impl<'w, V> Commands<'w, V> {
    /// The commands queued so far.
    pub open spec fn queued(&self) -> Seq<WorldCommand<V>> {
        self.queue@
    }

    /// Commands writing into a queue; what they leave in it is what the
    /// queue holds afterwards.
    pub fn new(queue: &'w mut queue::CommandQueue<V>) -> (r: Commands<'w, V>)
        ensures
            r.queued() == old(queue)@,
            r.queue.wf() == old(queue).wf(),
            final(queue)@ == final(r.queue)@,
            final(queue).wf() == final(r.queue).wf(),
    {
        Commands { queue }
    }

    /// Queues spawning an entity with a bundle of components.
    pub fn spawn(&mut self, bundle: Vec<(ComponentId, V)>)
        requires
            old(self).queue.wf(),
        ensures
            final(self).queue.wf(),
            final(self).queued() == old(self).queued().push(WorldCommand::Spawn(bundle)),
            final(final(self).queue)@ == final(old(self).queue)@,
            final(final(self).queue).wf() == final(old(self).queue).wf(),
    {
        self.queue.push(WorldCommand::Spawn(bundle));
    }

    /// Queues spawning an entity with no components. The entity is not known
    /// until the commands are applied, so the placeholder entity is returned.
    pub fn spawn_empty(&mut self) -> (r: Entity)
        requires
            old(self).queue.wf(),
        ensures
            final(self).queue.wf(),
            final(self).queued() == old(self).queued().push(WorldCommand::SpawnEmpty),
            final(final(self).queue)@ == final(old(self).queue)@,
            final(final(self).queue).wf() == final(old(self).queue).wf(),
            r == Entity::spec_placeholder(),
    {
        self.queue.push(WorldCommand::SpawnEmpty);
        Entity::placeholder()
    }

    /// Queues despawning an entity.
    pub fn despawn(&mut self, entity: Entity)
        requires
            old(self).queue.wf(),
        ensures
            final(self).queue.wf(),
            final(self).queued() == old(self).queued().push(WorldCommand::Despawn(entity)),
            final(final(self).queue)@ == final(old(self).queue)@,
            final(final(self).queue).wf() == final(old(self).queue).wf(),
    {
        self.queue.push(WorldCommand::Despawn(entity));
    }

    /// Queues inserting a component on an entity.
    pub fn insert(&mut self, entity: Entity, id: ComponentId, value: V)
        requires
            old(self).queue.wf(),
        ensures
            final(self).queue.wf(),
            final(self).queued() == old(self).queued().push(WorldCommand::Insert(entity, id, value)),
            final(final(self).queue)@ == final(old(self).queue)@,
            final(final(self).queue).wf() == final(old(self).queue).wf(),
    {
        self.queue.push(WorldCommand::Insert(entity, id, value));
    }

    /// Queues inserting a bundle of components on an entity.
    pub fn insert_bundle(&mut self, entity: Entity, bundle: Vec<(ComponentId, V)>)
        requires
            old(self).queue.wf(),
        ensures
            final(self).queue.wf(),
            final(self).queued() == old(self).queued().push(WorldCommand::InsertBundle(entity, bundle)),
            final(final(self).queue)@ == final(old(self).queue)@,
            final(final(self).queue).wf() == final(old(self).queue).wf(),
    {
        self.queue.push(WorldCommand::InsertBundle(entity, bundle));
    }

    /// Queues removing a component from an entity.
    pub fn remove(&mut self, entity: Entity, id: ComponentId)
        requires
            old(self).queue.wf(),
        ensures
            final(self).queue.wf(),
            final(self).queued() == old(self).queued().push(WorldCommand::Remove(entity, id)),
            final(final(self).queue)@ == final(old(self).queue)@,
            final(final(self).queue).wf() == final(old(self).queue).wf(),
    {
        self.queue.push(WorldCommand::Remove(entity, id));
    }
}

} // verus!
