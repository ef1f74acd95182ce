//! The table of effective opacities, kept in the entity hash map of the
//! host's entity system.

use bevy::ecs::entity::Entity;
use bevy::ecs::entity::EntityHashMap;
use vstd::prelude::*;

verus! {

/// `bevy::ecs::entity::Entity`, the identity of a scene node. Nothing is
/// claimed of what it holds. The contracts below take two entities for the
/// same key where the entity system compares them equal, which it does
/// where index and generation agree.
#[verifier::external_type_specification]
#[verifier::external_body]
pub struct ExEntity(Entity);

/// `bevy::ecs::entity::EntityHashMap`, a hash map keyed by entities. Its
/// methods other than `new` are those of `bevy::platform::collections::HashMap`,
/// which it dereferences to and which hands each call on to the map of
/// `hashbrown`.
#[verifier::external_type_specification]
#[verifier::external_body]
#[verifier::reject_recursive_types(V)]
pub struct ExEntityHashMap<V>(EntityHashMap<V>);

/// What an entity hash map of opacities holds: the value under each key.
pub uninterp spec fn table_entries(table: EntityHashMap<i64>) -> Map<Entity, i64>;

/// What an entity hash map of positions holds: the value under each key.
pub uninterp spec fn index_entries(index: EntityHashMap<usize>) -> Map<Entity, usize>;

/// `EntityHashMap::new`: the map it makes holds nothing.
#[verifier::external_body]
fn table_new() -> (table: EntityHashMap<i64>)
    ensures
        table_entries(table) == (Map::<Entity, i64>::empty()),
{
    EntityHashMap::new()
}

/// `HashMap::clear`, reached through the entity hash map: afterwards the
/// map holds nothing.
#[verifier::external_body]
fn table_clear(table: &mut EntityHashMap<i64>)
    ensures
        table_entries(*final(table)) == (Map::<Entity, i64>::empty()),
{
    table.clear();
}

/// `HashMap::contains_key`, reached through the entity hash map: whether
/// the map holds a value under the key.
#[verifier::external_body]
fn table_contains_key(table: &EntityHashMap<i64>, entity: Entity) -> (found: bool)
    ensures
        found == table_entries(*table).contains_key(entity),
{
    table.contains_key(&entity)
}

/// `HashMap::insert`, reached through the entity hash map: afterwards the
/// key holds the value given, whether or not it held one before, and every
/// other key holds what it held.
#[verifier::external_body]
fn table_insert(table: &mut EntityHashMap<i64>, entity: Entity, opacity: i64)
    ensures
        table_entries(*final(table)) == table_entries(*old(table)).insert(entity, opacity),
{
    table.insert(entity, opacity);
}

/// `HashMap::get`, reached through the entity hash map: the value under
/// the key, if the map holds one.
#[verifier::external_body]
fn table_get(table: &EntityHashMap<i64>, entity: Entity) -> (found: Option<i64>)
    ensures
        found == (if table_entries(*table).contains_key(entity) {
            Some(table_entries(*table)[entity])
        } else {
            None
        }),
{
    table.get(&entity).copied()
}

/// `EntityHashMap::new`: the map it makes holds nothing.
#[verifier::external_body]
fn index_new() -> (index: EntityHashMap<usize>)
    ensures
        index_entries(index) == (Map::<Entity, usize>::empty()),
{
    EntityHashMap::new()
}

/// `HashMap::insert`, reached through the entity hash map: afterwards the
/// key holds the value given, whether or not it held one before, and every
/// other key holds what it held.
#[verifier::external_body]
fn index_insert(index: &mut EntityHashMap<usize>, entity: Entity, position: usize)
    ensures
        index_entries(*final(index)) == index_entries(*old(index)).insert(entity, position),
{
    index.insert(entity, position);
}

/// `HashMap::get`, reached through the entity hash map: the value under
/// the key, if the map holds one.
#[verifier::external_body]
fn index_get(index: &EntityHashMap<usize>, entity: Entity) -> (found: Option<usize>)
    ensures
        found == (if index_entries(*index).contains_key(entity) {
            Some(index_entries(*index)[entity])
        } else {
            None
        }),
{
    index.get(&entity).copied()
}

/// The effective opacity of every node that takes part. A node without an
/// entry lies below no node that carries an opacity: it is neither opaque
/// nor transparent by this table, and is to be left alone.
#[derive(Debug)]
pub struct OpacityMap(EntityHashMap<i64>);

impl View for OpacityMap {
    type V = Map<Entity, i64>;

    closed spec fn view(&self) -> Map<Entity, i64> {
        table_entries(self.0)
    }
}

impl OpacityMap {
    /// Creates a table without entries.
    pub fn new() -> (r: OpacityMap)
        ensures
            r@ == (Map::<Entity, i64>::empty()),
    {
        OpacityMap(table_new())
    }

    /// The effective opacity of `entity`, if it has one.
    pub fn get(&self, entity: Entity) -> (r: Option<i64>)
        ensures
            r == (if self@.contains_key(entity) {
                Some(self@[entity])
            } else {
                None
            }),
    {
        table_get(&self.0, entity)
    }

    /// Whether `entity` has an entry.
    pub fn contains_key(&self, entity: Entity) -> (r: bool)
        ensures
            r == self@.contains_key(entity),
    {
        table_contains_key(&self.0, entity)
    }

    /// Removes every entry.
    pub(crate) fn clear(&mut self)
        ensures
            final(self)@ == (Map::<Entity, i64>::empty()),
    {
        table_clear(&mut self.0);
    }

    /// Records the effective opacity of `entity`.
    pub(crate) fn insert(&mut self, entity: Entity, opacity: i64)
        ensures
            final(self)@ == old(self)@.insert(entity, opacity),
    {
        table_insert(&mut self.0, entity, opacity);
    }
}

impl Default for OpacityMap {
    fn default() -> (r: OpacityMap)
        ensures
            r@ == (Map::<Entity, i64>::empty()),
    {
        OpacityMap::new()
    }
}

/// Where each entity stands in a list of nodes.
pub(crate) struct EntityIndex(EntityHashMap<usize>);

impl View for EntityIndex {
    type V = Map<Entity, usize>;

    closed spec fn view(&self) -> Map<Entity, usize> {
        index_entries(self.0)
    }
}

impl EntityIndex {
    /// Creates an index without entries.
    pub(crate) fn new() -> (r: EntityIndex)
        ensures
            r@ == (Map::<Entity, usize>::empty()),
    {
        EntityIndex(index_new())
    }

    /// The position recorded for `entity`, if there is one.
    pub(crate) fn get(&self, entity: Entity) -> (r: Option<usize>)
        ensures
            r == (if self@.contains_key(entity) {
                Some(self@[entity])
            } else {
                None
            }),
    {
        index_get(&self.0, entity)
    }

    /// Records the position of `entity`.
    pub(crate) fn insert(&mut self, entity: Entity, position: usize)
        ensures
            final(self)@ == old(self)@.insert(entity, position),
    {
        index_insert(&mut self.0, entity, position);
    }
}

} // verus!
