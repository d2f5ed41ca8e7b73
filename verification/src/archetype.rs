//! Archetypes: storage of all entities that share one set of components.

use vstd::prelude::*;
use rustc_hash::FxHashMap;
use crate::column::{Column, ColumnState, column_wf, pushed, row_removed, row_written, swap_removed};
use crate::component::{ComponentId, Tick, clamped};
use crate::entity::Entity;
use crate::fx::{map_get, map_insert, map_new};
use crate::inline::{IdList, id_items};
use crate::registry::ComponentInfo;

verus! {

/// Index of an archetype in the world's archetype list.
#[derive(Clone, Copy, PartialEq, Eq, Hash, Debug, PartialOrd, Ord, Structural)]
pub struct ArchetypeId(pub u32);

impl ArchetypeId {
    /// The archetype without components: always the first one.
    pub fn empty() -> (id: ArchetypeId)
        ensures
            id.0 == 0,
    {
        ArchetypeId(0)
    }

    /// The id as a position in the archetype list.
    pub fn as_usize(self) -> (i: usize)
        ensures
            i == self.0,
    {
        self.0 as usize
    }
}

impl Default for ArchetypeId {
    fn default() -> (id: ArchetypeId)
        ensures
            id.0 == 0,
    {
        ArchetypeId(0)
    }
}

/// Number of components up to which columns are found by scanning the ids.
pub const COLUMN_LINEAR_MAX: usize = 8;

/// State of an archetype.
pub struct ArchState {
    pub id: ArchetypeId,
    /// The components, in the order of their columns.
    pub ids: Seq<u32>,
    /// The values, column by column.
    pub columns: Seq<ColumnState>,
    /// The entity of each row.
    pub entities: Seq<Entity>,
    /// Archetypes reached by adding a component.
    pub add_edges: Map<u64, ArchetypeId>,
    /// Archetypes reached by removing a component.
    pub remove_edges: Map<u64, ArchetypeId>,
}

/// Column of a component, if the archetype has it.
pub open spec fn column_of(s: ArchState, component: u32) -> Option<int> {
    if s.ids.contains(component) {
        Some(s.ids.index_of(component))
    } else {
        None
    }
}

/// What holds of the state of every archetype: components are distinct, and each has its column.
pub open spec fn arch_wf(s: ArchState) -> bool {
    &&& s.ids.no_duplicates()
    &&& s.columns.len() == s.ids.len()
    &&& forall|i: int|
        0 <= i < s.columns.len() ==> column_wf(#[trigger] s.columns[i]) && s.columns[i].id
            == s.ids[i]
}

/// Whether every column has a value for every entity.
pub open spec fn filled(s: ArchState) -> bool {
    forall|i: int|
        0 <= i < s.columns.len() ==> (#[trigger] s.columns[i]).rows.len() == s.entities.len()
}

/// The state with one column changed.
pub open spec fn with_column(s: ArchState, i: int, c: ColumnState) -> ArchState {
    ArchState { columns: s.columns.update(i, c), ..s }
}

/// The state after a value was written in a row: appended behind the column, or over what was
/// there. Nothing happens where the archetype lacks the component.
pub open spec fn component_written(
    s: ArchState,
    row: nat,
    component: u32,
    value: Seq<u8>,
    tick: Tick,
) -> ArchState {
    match column_of(s, component) {
        Some(i) => if row >= s.columns[i].rows.len() {
            with_column(s, i, pushed(s.columns[i], value, tick, tick))
        } else {
            with_column(s, i, row_written(s.columns[i], row as int, value, tick))
        },
        None => s,
    }
}

/// The state after a row was removed; the last row takes its place.
pub open spec fn arch_row_removed(s: ArchState, row: int) -> ArchState {
    ArchState {
        columns: s.columns.map_values(|c: ColumnState| row_removed(c, row)),
        entities: swap_removed(s.entities, row),
        ..s
    }
}

/// All entities that share one set of components.
pub struct Archetype {
    id: ArchetypeId,
    component_ids: IdList,
    columns: Vec<Column>,
    entities: Vec<Entity>,
    column_map: FxHashMap<u64, usize>,
    add_edges: FxHashMap<u64, ArchetypeId>,
    remove_edges: FxHashMap<u64, ArchetypeId>,
}

impl View for Archetype {
    type V = ArchState;

    closed spec fn view(&self) -> ArchState {
        ArchState {
            id: self.id,
            ids: id_items(self.component_ids),
            columns: self.columns@.map_values(|c: Column| c@),
            entities: self.entities@,
            add_edges: self.add_edges@,
            remove_edges: self.remove_edges@,
        }
    }
}

impl Archetype {
    /// The archetype's invariant.
    pub closed spec fn wf(&self) -> bool {
        &&& self@.ids.no_duplicates()
        &&& self@.columns.len() == self@.ids.len()
        &&& forall|i: int|
            0 <= i < self.columns@.len() ==> (#[trigger] self.columns@[i]).wf()
                && self.columns@[i]@.id == self@.ids[i]
        &&& forall|i: int|
            0 <= i < self@.ids.len() ==> self.column_map@.contains_key(
                #[trigger] self@.ids[i] as u64,
            ) && self.column_map@[self@.ids[i] as u64] == i
        &&& forall|key: u64| #[trigger]
            self.column_map@.contains_key(key) ==> key <= u32::MAX && self@.ids.contains(
                key as u32,
            )
    }

    /// The invariant, as it shows in the state.
    pub proof fn lemma_wf(&self)
        requires
            self.wf(),
        ensures
            arch_wf(self@),
    {
        assert forall|i: int| 0 <= i < self@.columns.len() implies column_wf(
            #[trigger] self@.columns[i],
        ) && self@.columns[i].id == self@.ids[i] by {
            self.columns@[i].lemma_wf();
        }
    }

    /// An archetype without entities, with a column for each component.
    pub fn new(
        id: ArchetypeId,
        component_ids: IdList,
        component_infos: &[&ComponentInfo],
    ) -> (a: Archetype)
        requires
            id_items(component_ids).no_duplicates(),
            component_infos@.len() == id_items(component_ids).len(),
            forall|i: int|
                0 <= i < component_infos@.len() ==> (#[trigger] component_infos@[i])@.id
                    == id_items(component_ids)[i],
        ensures
            a.wf(),
            a@.id == id,
            a@.ids == id_items(component_ids),
            a@.entities.len() == 0,
            forall|i: int|
                0 <= i < a@.columns.len() ==> (#[trigger] a@.columns[i]) == (ColumnState {
                    id: a@.ids[i],
                    item_size: component_infos@[i]@.size as nat,
                    item_align: component_infos@[i]@.align as nat,
                    rows: Seq::empty(),
                    changed: Seq::empty(),
                    added: Seq::empty(),
                    capacity: 0,
                }),
            (a@.add_edges == Map::<u64, ArchetypeId>::empty()),
            (a@.remove_edges == Map::<u64, ArchetypeId>::empty()),
    {
        let mut columns: Vec<Column> = Vec::new();
        let mut column_map: FxHashMap<u64, usize> = map_new();
        let ids: &[u32] = component_ids.as_slice();
        let mut i: usize = 0;
        while i < component_infos.len()
            invariant
                i <= component_infos@.len(),
                ids@ == id_items(component_ids),
                ids@.no_duplicates(),
                component_infos@.len() == ids@.len(),
                forall|k: int|
                    0 <= k < component_infos@.len() ==> (#[trigger] component_infos@[k])@.id
                        == ids@[k],
                columns@.len() == i,
                forall|k: int|
                    0 <= k < i ==> (#[trigger] columns@[k]).wf() && columns@[k]@ == (ColumnState {
                        id: ids@[k],
                        item_size: component_infos@[k]@.size as nat,
                        item_align: component_infos@[k]@.align as nat,
                        rows: Seq::empty(),
                        changed: Seq::empty(),
                        added: Seq::empty(),
                        capacity: 0,
                    }),
                forall|k: int|
                    0 <= k < i ==> column_map@.contains_key(#[trigger] ids@[k] as u64)
                        && column_map@[ids@[k] as u64] == k,
                forall|key: u64| #[trigger]
                    column_map@.contains_key(key) ==> key <= u32::MAX && ids@.contains(key as u32),
            decreases component_infos.len() - i,
        {
            columns.push(Column::new(component_infos[i]));
            let ghost before = column_map@;
            let none: Option<usize> = map_insert(&mut column_map, ids[i] as u64, i);
            proof {
                assert(ids@.contains(ids@[i as int]));
                assert forall|k: int| 0 <= k < i + 1 implies column_map@.contains_key(
                    #[trigger] ids@[k] as u64,
                ) && column_map@[ids@[k] as u64] == k by {
                    if k < i {
                        assert(ids@[k] != ids@[i as int]);
                        assert(before.contains_key(ids@[k] as u64));
                    }
                }
                assert forall|key: u64| #[trigger] column_map@.contains_key(key) implies key
                    <= u32::MAX && ids@.contains(key as u32) by {
                    if key != ids@[i as int] as u64 {
                        assert(before.contains_key(key));
                    }
                }
            }
            i = i + 1;
        }
        Archetype {
            id,
            component_ids,
            columns,
            entities: Vec::new(),
            column_map,
            add_edges: map_new(),
            remove_edges: map_new(),
        }
    }

    /// Index of the archetype.
    pub fn id(&self) -> (id: ArchetypeId)
        ensures
            id == self@.id,
    {
        self.id
    }

    /// The components, in the order of their columns.
    pub fn component_ids(&self) -> (ids: &[u32])
        ensures
            ids@ == self@.ids,
    {
        self.component_ids.as_slice()
    }

    /// Number of entities.
    pub fn len(&self) -> (n: usize)
        ensures
            n == self@.entities.len(),
    {
        self.entities.len()
    }

    /// Whether there is no entity.
    pub fn is_empty(&self) -> (b: bool)
        ensures
            b == (self@.entities.len() == 0),
    {
        self.entities.len() == 0
    }

    proof fn lemma_column(&self, i: int)
        requires
            self.wf(),
            0 <= i < self@.ids.len(),
        ensures
            column_of(self@, self@.ids[i]) == Some(i),
            self.columns@[i].wf(),
            self@.columns[i] == self.columns@[i]@,
            self.columns@.len() == self@.ids.len(),
    {
        let c = self@.ids[i];
        assert(self@.ids.contains(c));
        let j = self@.ids.index_of(c);
        assert(0 <= j < self@.ids.len() && self@.ids[j] == c);
    }

    /// Column of a component.
    pub fn column_index(&self, component_id: ComponentId) -> (col: Option<usize>)
        requires
            self.wf(),
        ensures
            col is Some <==> self@.ids.contains(component_id.0),
            col matches Some(i) ==> column_of(self@, component_id.0) == Some(i as int) && i
                < self@.columns.len(),
    {
        let ids: &[u32] = self.component_ids.as_slice();
        if ids.len() <= COLUMN_LINEAR_MAX {
            let mut i: usize = 0;
            while i < ids.len()
                invariant
                    i <= ids@.len(),
                    self.wf(),
                    ids@ == self@.ids,
                    forall|k: int| 0 <= k < i ==> #[trigger] ids@[k] != component_id.0,
                decreases ids.len() - i,
            {
                if ids[i] == component_id.0 {
                    proof {
                        self.lemma_column(i as int);
                        assert(self@.ids.contains(self@.ids[i as int]));
                    }
                    return Some(i);
                }
                i = i + 1;
            }
            None
        } else {
            match map_get(&self.column_map, component_id.0 as u64) {
                Some(i) => {
                    proof {
                        assert(self.column_map@.contains_key(component_id.0 as u64));
                        assert(self@.ids.contains(component_id.0));
                        let j = self@.ids.index_of(component_id.0);
                        assert(self@.ids[j] == component_id.0);
                        assert(self.column_map@[self@.ids[j] as u64] == j);
                        self.lemma_column(j);
                    }
                    Some(*i)
                },
                None => {
                    proof {
                        if self@.ids.contains(component_id.0) {
                            let j = self@.ids.index_of(component_id.0);
                            assert(self.column_map@.contains_key(self@.ids[j] as u64));
                        }
                    }
                    None
                },
            }
        }
    }

    /// Whether the archetype has a component.
    pub fn has_component(&self, component_id: ComponentId) -> (b: bool)
        requires
            self.wf(),
        ensures
            b == self@.ids.contains(component_id.0),
    {
        self.column_index(component_id).is_some()
    }

    /// The value of a component in a row.
    pub fn get_component(&self, row: usize, component_id: ComponentId) -> (value: Option<&[u8]>)
        requires
            self.wf(),
            column_of(self@, component_id.0) matches Some(i) ==> row < self@.columns[i].rows.len(),
        ensures
            match column_of(self@, component_id.0) {
                Some(i) => value is Some && value->0@ == self@.columns[i].rows[row as int],
                None => value is None,
            },
    {
        match self.column_index(component_id) {
            Some(i) => {
                proof {
                    self.lemma_column(i as int);
                }
                Some(self.columns[i].get(row))
            },
            None => None,
        }
    }

    /// When a component was last changed in a row.
    pub fn change_tick_of(&self, row: usize, component_id: ComponentId) -> (t: Option<Tick>)
        requires
            self.wf(),
        ensures
            match column_of(self@, component_id.0) {
                Some(i) => t == Some(
                    if row < self@.columns[i].changed.len() {
                        self@.columns[i].changed[row as int]
                    } else {
                        Tick(0)
                    },
                ),
                None => t is None,
            },
    {
        match self.column_index(component_id) {
            Some(i) => {
                proof {
                    self.lemma_column(i as int);
                }
                Some(self.columns[i].get_tick(row))
            },
            None => None,
        }
    }

    proof fn lemma_column_changed(&self, before: Archetype, i: int)
        requires
            before.wf(),
            0 <= i < before.columns@.len(),
            self.component_ids == before.component_ids,
            self.column_map == before.column_map,
            self.columns@ == before.columns@.update(i, self.columns@[i]),
            self.columns@[i].wf(),
            self.columns@[i]@.id == before.columns@[i]@.id,
        ensures
            self.wf(),
            self@.columns == before@.columns.update(i, self.columns@[i]@),
    {
        assert(self@.ids == before@.ids);
        assert(self@.columns =~= before@.columns.update(i, self.columns@[i]@));
        assert forall|k: int| 0 <= k < self.columns@.len() implies (#[trigger] self.columns@[k]).wf()
            && self.columns@[k]@.id == self@.ids[k] by {
            assert(before.columns@[k].wf() && before.columns@[k]@.id == before@.ids[k]);
        }
        assert forall|k: int| 0 <= k < self@.ids.len() implies self.column_map@.contains_key(
            #[trigger] self@.ids[k] as u64,
        ) && self.column_map@[self@.ids[k] as u64] == k by {
            assert(before.column_map@.contains_key(before@.ids[k] as u64));
        }
    }

    /// Sets the change tick of a component in a row. Nothing happens where the archetype lacks the
    /// component.
    pub fn set_change_tick(&mut self, row: usize, component_id: ComponentId, tick: Tick)
        requires
            old(self).wf(),
            column_of(old(self)@, component_id.0) matches Some(i) ==> row < old(
                self,
            )@.columns[i].rows.len(),
        ensures
            final(self).wf(),
            final(self)@ == match column_of(old(self)@, component_id.0) {
                Some(i) => with_column(
                    old(self)@,
                    i,
                    (ColumnState {
                        changed: old(self)@.columns[i].changed.update(row as int, tick),
                        ..old(self)@.columns[i]
                    }),
                ),
                None => old(self)@,
            },
    {
        if let Some(i) = self.column_index(component_id) {
            proof {
                self.lemma_column(i as int);
            }
            let ghost before = *self;
            self.columns[i].set_change_tick(row, tick);
            proof {
                self.lemma_column_changed(before, i as int);
            }
        }
    }

    /// Adds a row for an entity; its columns are filled separately.
    pub fn allocate_row(&mut self, entity: Entity) -> (row: usize)
        requires
            old(self).wf(),
        ensures
            final(self).wf(),
            row == old(self)@.entities.len(),
            final(self)@ == (ArchState {
                entities: old(self)@.entities.push(entity),
                ..old(self)@
            }),
    {
        let row: usize = self.entities.len();
        self.entities.push(entity);
        row
    }

    /// Writes a component in a row: behind its column, or over what was there.
    pub fn write_component(
        &mut self,
        row: usize,
        component_id: ComponentId,
        src: &[u8],
        tick: Tick,
    )
        requires
            old(self).wf(),
            column_of(old(self)@, component_id.0) matches Some(i) ==> src@.len() == old(
                self,
            )@.columns[i].item_size && (row < old(self)@.columns[i].rows.len() || old(
                self,
            )@.columns[i].rows.len() < usize::MAX),
        ensures
            final(self).wf(),
            final(self)@ == component_written(
                old(self)@,
                row as nat,
                component_id.0,
                src@,
                tick,
            ),
    {
        let before: Option<Vec<u8>> = self.write_or_replace_component(row, component_id, src, tick);
    }

    /// Writes a component in a row: behind its column, or in place of what was there, which is
    /// returned.
    pub fn write_or_replace_component(
        &mut self,
        row: usize,
        component_id: ComponentId,
        src: &[u8],
        tick: Tick,
    ) -> (replaced: Option<Vec<u8>>)
        requires
            old(self).wf(),
            column_of(old(self)@, component_id.0) matches Some(i) ==> src@.len() == old(
                self,
            )@.columns[i].item_size && (row < old(self)@.columns[i].rows.len() || old(
                self,
            )@.columns[i].rows.len() < usize::MAX),
        ensures
            final(self).wf(),
            final(self)@ == component_written(
                old(self)@,
                row as nat,
                component_id.0,
                src@,
                tick,
            ),
            match column_of(old(self)@, component_id.0) {
                Some(i) => if row < old(self)@.columns[i].rows.len() {
                    replaced is Some && replaced->0@ == old(self)@.columns[i].rows[row as int]
                } else {
                    replaced is None
                },
                None => replaced is None,
            },
    {
        match self.column_index(component_id) {
            Some(i) => {
                proof {
                    self.lemma_column(i as int);
                }
                let ghost before = *self;
                let mut replaced: Option<Vec<u8>> = None;
                if row >= self.columns[i].len() {
                    self.columns[i].push(src, tick);
                } else {
                    replaced = Some(self.columns[i].replace_at(row, src, tick));
                }
                proof {
                    self.lemma_column_changed(before, i as int);
                }
                replaced
            },
            None => None,
        }
    }

    /// Appends a value that comes from another archetype: both of its ticks stay.
    pub fn push_moved(
        &mut self,
        component_id: ComponentId,
        src: &[u8],
        changed: Tick,
        added: Tick,
    )
        requires
            old(self).wf(),
            column_of(old(self)@, component_id.0) matches Some(i) ==> src@.len() == old(
                self,
            )@.columns[i].item_size && old(self)@.columns[i].rows.len() < usize::MAX,
        ensures
            final(self).wf(),
            final(self)@ == match column_of(old(self)@, component_id.0) {
                Some(i) => with_column(
                    old(self)@,
                    i,
                    pushed(old(self)@.columns[i], src@, changed, added),
                ),
                None => old(self)@,
            },
    {
        if let Some(i) = self.column_index(component_id) {
            proof {
                self.lemma_column(i as int);
            }
            let ghost before = *self;
            self.columns[i].push_moved(src, changed, added);
            proof {
                self.lemma_column_changed(before, i as int);
            }
        }
    }

    /// Removes a row, whose place the last row takes. Returns the entity that moved, unless the
    /// row was the last.
    pub fn remove_row(&mut self, row: usize) -> (moved: Option<Entity>)
        requires
            old(self).wf(),
            filled(old(self)@),
            row < old(self)@.entities.len(),
        ensures
            final(self).wf(),
            filled(final(self)@),
            final(self)@ == arch_row_removed(old(self)@, row as int),
            moved == if row == old(self)@.entities.len() - 1 {
                None
            } else {
                Some(old(self)@.entities.last())
            },
    {
        let ghost s = old(self)@;
        let mut i: usize = 0;
        while i < self.columns.len()
            invariant
                i <= self.columns@.len(),
                s == old(self)@,
                old(self).wf(),
                self.wf(),
                filled(s),
                row < s.entities.len(),
                self.entities == old(self).entities,
                self.columns@.len() == s.columns.len(),
                self@ == (ArchState { columns: self@.columns, ..s }),
                forall|k: int|
                    0 <= k < s.columns.len() ==> #[trigger] self@.columns[k] == if k < i {
                        row_removed(s.columns[k], row as int)
                    } else {
                        s.columns[k]
                    },
            decreases self.columns.len() - i,
        {
            proof {
                self.lemma_column(i as int);
                assert(s.columns[i as int].rows.len() == s.entities.len());
                assert(self@.columns[i as int] == s.columns[i as int]);
            }
            let ghost before = *self;
            let gone: Vec<u8> = self.columns[i].swap_remove_and_drop(row);
            proof {
                self.lemma_column_changed(before, i as int);
            }
            i = i + 1;
        }
        let ghost mid = *self;
        let last: usize = self.entities.len() - 1;
        let e: Entity = self.entities[last];
        self.entities.set(row, e);
        self.entities.truncate(last);
        proof {
            let t = arch_row_removed(s, row as int);
            assert(self@.columns =~= t.columns);
            assert(self@.entities =~= t.entities);
            assert(self@.ids == mid@.ids);
            assert forall|k: int| 0 <= k < self@.ids.len() implies self.column_map@.contains_key(
                #[trigger] self@.ids[k] as u64,
            ) && self.column_map@[self@.ids[k] as u64] == k by {
                assert(mid.column_map@.contains_key(mid@.ids[k] as u64));
            }
            assert forall|k: int| 0 <= k < self@.columns.len() implies (
            #[trigger] self@.columns[k]).rows.len() == self@.entities.len() by {
                assert(s.columns[k].rows.len() == s.entities.len());
            }
        }
        if row != last {
            Some(e)
        } else {
            None
        }
    }

    /// Pulls old ticks of all columns up to the largest age.
    pub fn check_change_ticks(&mut self, current: Tick)
        requires
            old(self).wf(),
        ensures
            final(self).wf(),
            final(self)@ == (ArchState {
                columns: old(self)@.columns.map_values(
                    |c: ColumnState|
                        ColumnState {
                            changed: c.changed.map_values(|t: Tick| clamped(t, current)),
                            added: c.added.map_values(|t: Tick| clamped(t, current)),
                            ..c
                        },
                ),
                ..old(self)@
            }),
    {
        let ghost s = old(self)@;
        let ghost f = |c: ColumnState|
            ColumnState {
                changed: c.changed.map_values(|t: Tick| clamped(t, current)),
                added: c.added.map_values(|t: Tick| clamped(t, current)),
                ..c
            };
        let mut i: usize = 0;
        while i < self.columns.len()
            invariant
                i <= self.columns@.len(),
                s == old(self)@,
                old(self).wf(),
                self.wf(),
                self.columns@.len() == s.columns.len(),
                self@ == (ArchState { columns: self@.columns, ..s }),
                f == (|c: ColumnState|
                    ColumnState {
                        changed: c.changed.map_values(|t: Tick| clamped(t, current)),
                        added: c.added.map_values(|t: Tick| clamped(t, current)),
                        ..c
                    }),
                forall|k: int|
                    0 <= k < s.columns.len() ==> #[trigger] self@.columns[k] == if k < i {
                        f(s.columns[k])
                    } else {
                        s.columns[k]
                    },
            decreases self.columns.len() - i,
        {
            proof {
                self.lemma_column(i as int);
                assert(self@.columns[i as int] == s.columns[i as int]);
            }
            let ghost before = *self;
            self.columns[i].check_change_ticks(current);
            proof {
                self.lemma_column_changed(before, i as int);
            }
            i = i + 1;
        }
        assert(self@.columns =~= s.columns.map_values(f));
    }

    /// Archetype reached by adding a component, if it is known.
    pub fn add_edge(&self, component_id: ComponentId) -> (to: Option<ArchetypeId>)
        ensures
            to == if self@.add_edges.contains_key(component_id.0 as u64) {
                Some(self@.add_edges[component_id.0 as u64])
            } else {
                None
            },
    {
        match map_get(&self.add_edges, component_id.0 as u64) {
            Some(to) => Some(*to),
            None => None,
        }
    }

    /// Remembers the archetype reached by adding a component.
    pub fn set_add_edge(&mut self, component_id: ComponentId, to: ArchetypeId)
        requires
            old(self).wf(),
        ensures
            final(self).wf(),
            final(self)@ == (ArchState {
                add_edges: old(self)@.add_edges.insert(component_id.0 as u64, to),
                ..old(self)@
            }),
    {
        let before: Option<ArchetypeId> = map_insert(
            &mut self.add_edges,
            component_id.0 as u64,
            to,
        );
    }

    /// Archetype reached by removing a component, if it is known.
    pub fn remove_edge(&self, component_id: ComponentId) -> (to: Option<ArchetypeId>)
        ensures
            to == if self@.remove_edges.contains_key(component_id.0 as u64) {
                Some(self@.remove_edges[component_id.0 as u64])
            } else {
                None
            },
    {
        match map_get(&self.remove_edges, component_id.0 as u64) {
            Some(to) => Some(*to),
            None => None,
        }
    }

    /// Remembers the archetype reached by removing a component.
    pub fn set_remove_edge(&mut self, component_id: ComponentId, to: ArchetypeId)
        requires
            old(self).wf(),
        ensures
            final(self).wf(),
            final(self)@ == (ArchState {
                remove_edges: old(self)@.remove_edges.insert(component_id.0 as u64, to),
                ..old(self)@
            }),
    {
        let before: Option<ArchetypeId> = map_insert(
            &mut self.remove_edges,
            component_id.0 as u64,
            to,
        );
    }

    /// A column.
    pub fn column(&self, i: usize) -> (c: &Column)
        requires
            self.wf(),
            i < self@.columns.len(),
        ensures
            c.wf(),
            c@ == self@.columns[i as int],
    {
        proof {
            self.lemma_column(i as int);
        }
        &self.columns[i]
    }

    /// The columns, in order.
    pub fn columns_raw(&self) -> (columns: &[Column])
        ensures
            columns@.map_values(|c: Column| c@) == self@.columns,
    {
        self.columns.as_slice()
    }

    /// Views of the columns, in order.
    pub fn columns(&self) -> (views: Vec<ColumnView<'_>>)
        requires
            self.wf(),
        ensures
            views@.map_values(|v: ColumnView| v.col@) == self@.columns,
            forall|i: int| 0 <= i < views@.len() ==> (#[trigger] views@[i]).col.wf(),
    {
        let mut views: Vec<ColumnView<'_>> = Vec::new();
        let mut i: usize = 0;
        while i < self.columns.len()
            invariant
                i <= self.columns@.len(),
                self.wf(),
                views@.len() == i,
                forall|k: int|
                    0 <= k < i ==> (#[trigger] views@[k]).col.wf() && views@[k].col@
                        == self@.columns[k],
            decreases self.columns.len() - i,
        {
            proof {
                self.lemma_column(i as int);
            }
            views.push(ColumnView { col: &self.columns[i] });
            i = i + 1;
        }
        assert(views@.map_values(|v: ColumnView| v.col@) =~= self@.columns);
        views
    }

    /// The entity of each row.
    pub fn entities(&self) -> (es: &[Entity])
        ensures
            es@ == self@.entities,
    {
        self.entities.as_slice()
    }
}

/// A column as others see it.
pub struct ColumnView<'a> {
    pub col: &'a Column,
}

impl<'a> ColumnView<'a> {
    /// The component whose values are stored.
    pub fn id(&self) -> (id: ComponentId)
        ensures
            id.0 == self.col@.id,
    {
        self.col.id()
    }

    /// The value of a row.
    pub fn get_raw_ptr(&self, row: usize) -> (value: &'a [u8])
        requires
            self.col.wf(),
            row < self.col@.rows.len(),
        ensures
            value@ == self.col@.rows[row as int],
    {
        self.col.get(row)
    }
}

/// Some consecutive rows of an archetype.
pub struct ArchetypeChunk<'a> {
    pub entities: &'a [Entity],
    pub arch_id: ArchetypeId,
    pub start_row: usize,
    pub len: usize,
}

/// Number of chunks of at most `size` rows that `total` rows make.
pub open spec fn chunk_count(total: nat, size: nat) -> nat
    recommends
        size > 0,
{
    if total % size == 0 {
        total / size
    } else {
        total / size + 1
    }
}

/// Number of rows in chunk `i`.
pub open spec fn chunk_len(total: nat, size: nat, i: nat) -> nat {
    if (i + 1) * size <= total {
        size
    } else {
        (total - i * size) as nat
    }
}

proof fn lemma_chunks(total: nat, size: nat, i: nat)
    requires
        size > 0,
    ensures
        i < chunk_count(total, size) <==> i * size < total,
        i < chunk_count(total, size) ==> 0 < chunk_len(total, size, i) <= size && i * size
            + chunk_len(total, size, i) <= total,
        (i + 1) * size == i * size + size,
{
    let q = total / size;
    let r = total % size;
    assert(total == q * size + r && r < size) by (nonlinear_arith)
        requires
            size > 0,
            q == total / size,
            r == total % size,
    ;
    assert((i + 1) * size == i * size + size) by (nonlinear_arith);
    if i < q {
        assert((i + 1) * size <= q * size) by (nonlinear_arith)
            requires
                i + 1 <= q,
        ;
    } else if i == q {
    } else {
        assert((q + 1) * size <= i * size) by (nonlinear_arith)
            requires
                q + 1 <= i,
        ;
        assert((q + 1) * size == q * size + size) by (nonlinear_arith);
    }
}

/// The chunks cover every row once: chunk `i` starts where the chunks before it end, and the last
/// one ends with the last row.
pub proof fn law_chunks_cover_all_rows(total: nat, size: nat, i: nat)
    requires
        size > 0,
        i < chunk_count(total, size),
    ensures
        0 < chunk_len(total, size, i) <= size,
        i + 1 < chunk_count(total, size) ==> i * size + chunk_len(total, size, i) == (i + 1) * size,
        i + 1 == chunk_count(total, size) ==> i * size + chunk_len(total, size, i) == total,
{
    lemma_chunks(total, size, i);
    lemma_chunks(total, size, i + 1);
}

/// Splits an archetype into chunks of `chunk_size` rows; the last one may be shorter.
pub fn archetype_chunks<'a>(arch: &'a Archetype, chunk_size: usize) -> (chunks: Vec<
    ArchetypeChunk<'a>,
>)
    requires
        chunk_size > 0,
    ensures
        chunks@.len() == chunk_count(arch@.entities.len(), chunk_size as nat),
        forall|i: int|
            0 <= i < chunks@.len() ==> {
                let c = #[trigger] chunks@[i];
                &&& c.start_row == i * chunk_size
                &&& c.len == chunk_len(arch@.entities.len(), chunk_size as nat, i as nat)
                &&& c.arch_id == arch@.id
                &&& c.entities@ == arch@.entities.subrange(
                    c.start_row as int,
                    c.start_row + c.len,
                )
            },
{
    let total: usize = arch.entities.len();
    let mut chunks: Vec<ArchetypeChunk<'a>> = Vec::new();
    let mut start: usize = 0;
    let ghost mut n: nat = 0;
    proof {
        lemma_chunks(total as nat, chunk_size as nat, 0);
    }
    while start < total
        invariant
            chunk_size > 0,
            total == arch@.entities.len(),
            chunks@.len() == n,
            start == if n * chunk_size <= total {
                n * chunk_size
            } else {
                total as int
            },
            start == total ==> n == chunk_count(total as nat, chunk_size as nat),
            start < total ==> n < chunk_count(total as nat, chunk_size as nat),
            forall|i: int|
                0 <= i < chunks@.len() ==> {
                    let c = #[trigger] chunks@[i];
                    &&& c.start_row == i * chunk_size
                    &&& c.len == chunk_len(total as nat, chunk_size as nat, i as nat)
                    &&& c.arch_id == arch@.id
                    &&& c.entities@ == arch@.entities.subrange(
                        c.start_row as int,
                        c.start_row + c.len,
                    )
                },
        decreases total - start,
    {
        proof {
            lemma_chunks(total as nat, chunk_size as nat, n);
            lemma_chunks(total as nat, chunk_size as nat, n + 1);
        }
        let len: usize = if chunk_size <= total - start { chunk_size } else { total - start };
        chunks.push(
            ArchetypeChunk {
                entities: vstd::slice::slice_subrange(arch.entities.as_slice(), start, start + len),
                arch_id: arch.id,
                start_row: start,
                len,
            },
        );
        start = start + len;
        proof {
            n = n + 1;
        }
    }
    chunks
}

/// There are as many chunks as it takes: one less would leave rows out, and none is empty.
pub proof fn law_chunks_are_as_many_as_it_takes(total: nat, size: nat)
    requires
        size > 0,
    ensures
        total <= chunk_count(total, size) * size,
        total == 0 ==> chunk_count(total, size) == 0,
        total > 0 ==> chunk_count(total, size) > 0 && (chunk_count(total, size) - 1) * size < total,
{
    let n = chunk_count(total, size);
    lemma_chunks(total, size, n);
    lemma_chunks(total, size, 0);
    if n > 0 {
        lemma_chunks(total, size, (n - 1) as nat);
    }
}

} // verus!
