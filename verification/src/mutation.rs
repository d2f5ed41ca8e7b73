//! Writing to components, with what the writing says about changes.

use vstd::prelude::*;
use crate::column::bytes_of;
use crate::component::{ComponentId, Tick};
use crate::entity::Entity;
use crate::storage::CellState;
use crate::world::{World, after_write, after_writes, piece};

verus! {

/// A component of a live entity, open for writing.
pub struct Mut<'w> {
    pub world: &'w mut World,
    pub entity: Entity,
    pub id: ComponentId,
}

impl<'w> Mut<'w> {
    /// The invariant: the entity is alive and has the component.
    pub open spec fn wf(&self) -> bool {
        &&& self.world.wf()
        &&& self.world@.values.contains_key(self.entity)
        &&& self.world@.values[self.entity].contains_key(self.id.0)
    }

    /// The component as it is.
    pub open spec fn cell(&self) -> CellState {
        self.world@.values[self.entity][self.id.0]
    }

    /// The value.
    pub fn get(&self) -> (value: Vec<u8>)
        requires
            self.wf(),
        ensures
            value@ == self.cell().value,
    {
        match self.world.get(self.entity, self.id) {
            Some(value) => bytes_of(value),
            None => Vec::new(),
        }
    }

    /// Writes the value, which counts as a change.
    pub fn set(&mut self, value: &[u8])
        requires
            old(self).wf(),
            value@.len() == old(self).cell().value.len(),
        ensures
            final(self).wf(),
            final(self).entity == old(self).entity,
            final(self).id == old(self).id,
            *final(final(self).world) == *final(old(self).world),
            final(self).world@ == after_write(
                old(self).world@,
                old(self).entity,
                old(self).id.0,
                value@,
                old(self).world@.tick,
            ),
            final(self).world.layout() == old(self).world.layout(),
            forall|n: nat| #[trigger] final(self).world.room(n) == old(self).world.room(n),
    {
        let tick: Tick = self.world.current_tick();
        self.world.write_cell(self.entity, self.id, value, tick);
    }

    /// Marks the component as changed, with the value it has.
    pub fn set_changed(&mut self)
        requires
            old(self).wf(),
        ensures
            final(self).wf(),
            final(self).entity == old(self).entity,
            final(self).id == old(self).id,
            *final(final(self).world) == *final(old(self).world),
            final(self).world@ == after_write(
                old(self).world@,
                old(self).entity,
                old(self).id.0,
                old(self).cell().value,
                old(self).world@.tick,
            ),
            final(self).world.layout() == old(self).world.layout(),
            forall|n: nat| #[trigger] final(self).world.room(n) == old(self).world.room(n),
    {
        let value: Vec<u8> = self.get();
        self.set(value.as_slice());
    }

    /// Writes the value so that it does not count as a change.
    pub fn bypass_change_detection(&mut self, value: &[u8])
        requires
            old(self).wf(),
            value@.len() == old(self).cell().value.len(),
        ensures
            final(self).wf(),
            final(self).entity == old(self).entity,
            final(self).id == old(self).id,
            *final(final(self).world) == *final(old(self).world),
            final(self).world@ == after_write(
                old(self).world@,
                old(self).entity,
                old(self).id.0,
                value@,
                old(self).cell().changed,
            ),
            final(self).world.layout() == old(self).world.layout(),
            forall|n: nat| #[trigger] final(self).world.room(n) == old(self).world.room(n),
    {
        let tick: Tick = self.world.changed_tick(self.entity, self.id);
        self.world.write_cell(self.entity, self.id, value, tick);
    }
}

impl World {
    /// Opens a component for writing, if the entity is alive and has it. To open it changes
    /// nothing.
    pub fn get_mut(&mut self, e: Entity, id: ComponentId) -> (m: Option<Mut<'_>>)
        requires
            old(self).wf(),
        ensures
            m is Some <==> old(self)@.values.contains_key(e) && old(self)@.values[e].contains_key(
                id.0,
            ),
            m matches Some(m) ==> m.wf() && m.entity == e && m.id == id && *m.world == *old(self)
                && *final(m.world) == *final(self),
            m is None ==> *final(self) == *old(self),
    {
        if self.get(e, id).is_some() {
            Some(Mut { world: self, entity: e, id })
        } else {
            None
        }
    }

    /// Overwrites a component of some rows, each with its piece of `data`: all of them count as
    /// changed, whether the values differ or not.
    pub fn write_rows(&mut self, rows: &[Entity], id: ComponentId, size: usize, data: &[u8])
        requires
            old(self).wf(),
            data@.len() == rows@.len() * size,
            forall|i: int|
                0 <= i < rows@.len() ==> old(self)@.values.contains_key(#[trigger] rows@[i])
                    && old(self)@.values[rows@[i]].contains_key(id.0) && old(
                    self,
                )@.values[rows@[i]][id.0].value.len() == size,
        ensures
            final(self).wf(),
            final(self)@ == after_writes(
                old(self)@,
                rows@,
                id.0,
                size as nat,
                data@,
                old(self)@.tick,
                rows@.len(),
            ),
            final(self).layout() == old(self).layout(),
            forall|n: nat| #[trigger] final(self).room(n) == old(self).room(n),
    {
        let tick: Tick = self.current_tick();
        let ghost w = self@;
        let mut i: usize = 0;
        let _n: usize = data.len();
        while i < rows.len()
            invariant
                i <= rows@.len(),
                self.wf(),
                _n == data@.len() == rows@.len() * size,
                w == old(self)@,
                tick == w.tick,
                self@ == after_writes(w, rows@, id.0, size as nat, data@, tick, i as nat),
                forall|k: int|
                    0 <= k < rows@.len() ==> self@.values.contains_key(#[trigger] rows@[k])
                        && self@.values[rows@[k]].contains_key(id.0)
                        && self@.values[rows@[k]][id.0].value.len() == size,
                self.layout() == old(self).layout(),
                forall|n: nat| #[trigger] self.room(n) == old(self).room(n),
            decreases rows.len() - i,
        {
            proof {
                assert(0 <= i * size <= i * size + size <= rows@.len() * size) by (nonlinear_arith)
                    requires
                        i + 1 <= rows@.len(),
                ;
                assert(self@.values.contains_key(rows@[i as int]));
            }
            let value: &[u8] = vstd::slice::slice_subrange(data, i * size, i * size + size);
            self.write_cell(rows[i], id, value, tick);
            i = i + 1;
        }
    }
}

} // verus!
