//! Columns: the values of one component, row by row, with their change ticks.

use vstd::prelude::*;
use crate::component::{ComponentId, Tick, clamped};
use crate::registry::ComponentInfo;

verus! {

/// State of a column.
pub struct ColumnState {
    /// The component whose values are stored.
    pub id: u32,
    /// Size of a value in bytes.
    pub item_size: nat,
    /// Alignment of a value in bytes.
    pub item_align: nat,
    /// The value of each row.
    pub rows: Seq<Seq<u8>>,
    /// When each row was last changed.
    pub changed: Seq<Tick>,
    /// When the component was added in each row.
    pub added: Seq<Tick>,
    /// Number of rows for which room was made.
    pub capacity: nat,
}

/// Room that a column without any makes first: some 256 bytes, but for 4 values at least and 64
/// at most.
pub open spec fn first_capacity(item_size: nat) -> nat {
    if item_size == 0 {
        64
    } else if 256nat / item_size < 4 {
        4
    } else if 256nat / item_size > 64 {
        64
    } else {
        256nat / item_size
    }
}

/// Room after growth: the first room, or twice what there was.
pub open spec fn grown_capacity(item_size: nat, capacity: nat) -> nat {
    if capacity == 0 {
        first_capacity(item_size)
    } else if capacity * 2 <= usize::MAX {
        capacity * 2
    } else {
        usize::MAX as nat
    }
}

/// The least of `p`, `2 * p`, `4 * p` and so on that is no less than `n`, as far as a machine
/// word goes.
pub open spec fn doubled_to(p: nat, n: nat) -> nat
    decreases
            if n > p {
                n - p
            } else {
                0
            },
{
    if p >= n || p == 0 {
        p
    } else if p * 2 <= usize::MAX {
        doubled_to(p * 2, n)
    } else {
        usize::MAX as nat
    }
}

/// Room after a reservation: the least power of two that holds everything, and 4 at least.
pub open spec fn reserved_capacity(s: ColumnState, additional: nat) -> nat {
    let needed = if s.rows.len() + additional <= usize::MAX {
        s.rows.len() + additional
    } else {
        usize::MAX as nat
    };
    if needed <= s.capacity {
        s.capacity
    } else {
        doubled_to(4, needed)
    }
}

/// Whether room for more rows can be asked for: no allocation, be it of values or of ticks, is
/// larger than the address space allows.
pub open spec fn can_reserve(s: ColumnState, additional: nat) -> bool {
    &&& (s.rows.len() + additional) * 4 <= isize::MAX
    &&& s.rows.len() + additional > s.capacity ==> s.item_size * reserved_capacity(s, additional)
        <= isize::MAX
}

/// A reservation keeps the room that there was and makes what was asked for.
pub proof fn law_reservation_makes_room(s: ColumnState, additional: nat)
    requires
        can_reserve(s, additional),
    ensures
        reserved_capacity(s, additional) >= s.rows.len() + additional,
        reserved_capacity(s, additional) >= s.capacity,
{
    let needed = s.rows.len() + additional;
    if needed > s.capacity {
        lemma_doubled_to(4, needed);
    }
}

proof fn lemma_doubled_to(p: nat, n: nat)
    requires
        p > 0,
        n * 4 <= isize::MAX,
    ensures
        doubled_to(p, n) >= n,
    decreases
            if n > p {
                n - p
            } else {
                0
            },
{
    if p < n {
        lemma_doubled_to(p * 2, n);
    }
}

/// The state after a value was appended.
pub open spec fn pushed(s: ColumnState, value: Seq<u8>, changed: Tick, added: Tick) -> ColumnState {
    ColumnState {
        rows: s.rows.push(value),
        changed: s.changed.push(changed),
        added: s.added.push(added),
        capacity: if s.rows.len() >= s.capacity {
            grown_capacity(s.item_size, s.capacity)
        } else {
            s.capacity
        },
        ..s
    }
}

/// `s` with the last item in the place of item `i`, and one item less.
pub open spec fn swap_removed<T>(s: Seq<T>, i: int) -> Seq<T> {
    s.update(i, s.last()).drop_last()
}

/// The state after row `i` was removed; the last row takes its place.
pub open spec fn row_removed(s: ColumnState, i: int) -> ColumnState {
    ColumnState {
        rows: swap_removed(s.rows, i),
        changed: swap_removed(s.changed, i),
        added: swap_removed(s.added, i),
        ..s
    }
}

/// The state after row `i` was overwritten: its change tick follows, its added tick stays.
pub open spec fn row_written(s: ColumnState, i: int, value: Seq<u8>, tick: Tick) -> ColumnState {
    ColumnState { rows: s.rows.update(i, value), changed: s.changed.update(i, tick), ..s }
}

/// What holds of the state of every column.
pub open spec fn column_wf(s: ColumnState) -> bool {
    &&& s.changed.len() == s.rows.len()
    &&& s.added.len() == s.rows.len()
    &&& s.item_size <= usize::MAX
    &&& forall|i: int| 0 <= i < s.rows.len() ==> (#[trigger] s.rows[i]).len() == s.item_size
}

proof fn lemma_row(i: int, len: int, size: int)
    requires
        0 <= i < len,
        0 <= size,
    ensures
        0 <= i * size,
        i * size + size == (i + 1) * size,
        (i + 1) * size <= len * size,
{
    assert(0 <= i * size && i * size + size == (i + 1) * size && (i + 1) * size <= len * size)
        by (nonlinear_arith)
        requires
            0 <= i < len,
            0 <= size,
    ;
}

proof fn lemma_rows_apart(i: int, j: int, size: int)
    requires
        0 <= i < j,
        0 <= size,
    ensures
        i * size + size <= j * size,
{
    assert(i * size + size <= j * size) by (nonlinear_arith)
        requires
            0 <= i < j,
            0 <= size,
    ;
}

/// The values of one component.
pub struct Column {
    component_id: ComponentId,
    data: Vec<u8>,
    item_size: usize,
    item_align: usize,
    len: usize,
    capacity: usize,
    change_ticks: Vec<Tick>,
    added_ticks: Vec<Tick>,
}

impl View for Column {
    type V = ColumnState;

    closed spec fn view(&self) -> ColumnState {
        ColumnState {
            id: self.component_id.0,
            item_size: self.item_size as nat,
            item_align: self.item_align as nat,
            rows: Seq::new(self.len as nat, |i: int| self.row_bytes(i)),
            changed: self.change_ticks@,
            added: self.added_ticks@,
            capacity: self.capacity as nat,
        }
    }
}

impl Column {
    closed spec fn row_bytes(&self, i: int) -> Seq<u8> {
        self.data@.subrange(i * self.item_size, i * self.item_size + self.item_size)
    }

    /// The column's invariant: the data of all rows, one behind the other, and a tick of each
    /// sort for every row.
    pub closed spec fn wf(&self) -> bool {
        &&& self.data@.len() == self.len * self.item_size
        &&& self.change_ticks@.len() == self.len
        &&& self.added_ticks@.len() == self.len
    }

    /// The invariant, as it shows in the state.
    pub proof fn lemma_wf(&self)
        requires
            self.wf(),
        ensures
            column_wf(self@),
    {
        assert forall|i: int| 0 <= i < self@.rows.len() implies (#[trigger] self@.rows[i]).len()
            == self@.item_size by {
            lemma_row(i, self.len as int, self.item_size as int);
        }
    }

    /// An empty column for a component.
    pub fn new(info: &ComponentInfo) -> (c: Column)
        ensures
            c.wf(),
            c@ == (ColumnState {
                id: info@.id,
                item_size: info@.size as nat,
                item_align: info@.align as nat,
                rows: Seq::empty(),
                changed: Seq::empty(),
                added: Seq::empty(),
                capacity: 0,
            }),
    {
        let c = Column {
            component_id: info.id,
            data: Vec::new(),
            item_size: info.size,
            item_align: info.align,
            len: 0,
            capacity: 0,
            change_ticks: Vec::new(),
            added_ticks: Vec::new(),
        };
        assert(0 * c.item_size == 0) by (nonlinear_arith);
        assert(c@.rows =~= Seq::<Seq<u8>>::empty());
        c
    }

    /// The component whose values are stored.
    pub fn id(&self) -> (id: ComponentId)
        ensures
            id.0 == self@.id,
    {
        self.component_id
    }

    /// Number of rows.
    pub fn len(&self) -> (n: usize)
        ensures
            n == self@.rows.len(),
    {
        self.len
    }

    /// Whether there is no row.
    pub fn is_empty(&self) -> (b: bool)
        ensures
            b == (self@.rows.len() == 0),
    {
        self.len == 0
    }

    /// Number of rows for which room was made.
    pub fn capacity(&self) -> (n: usize)
        ensures
            n == self@.capacity,
    {
        self.capacity
    }

    /// Size of a value in bytes.
    pub fn item_size(&self) -> (n: usize)
        ensures
            n == self@.item_size,
    {
        self.item_size
    }

    /// Alignment of a value in bytes.
    pub fn item_align(&self) -> (n: usize)
        ensures
            n == self@.item_align,
    {
        self.item_align
    }

    /// The value of a row.
    pub fn get(&self, row: usize) -> (value: &[u8])
        requires
            self.wf(),
            row < self@.rows.len(),
        ensures
            value@ == self@.rows[row as int],
    {
        let total: usize = self.data.len();
        proof {
            lemma_row(row as int, self.len as int, self.item_size as int);
        }
        let start: usize = row * self.item_size;
        vstd::slice::slice_subrange(self.data.as_slice(), start, start + self.item_size)
    }

    /// Sets the change tick of a row.
    pub fn set_change_tick(&mut self, row: usize, tick: Tick)
        requires
            old(self).wf(),
            row < old(self)@.rows.len(),
        ensures
            final(self).wf(),
            final(self)@ == (ColumnState {
                changed: old(self)@.changed.update(row as int, tick),
                ..old(self)@
            }),
    {
        self.change_ticks.set(row, tick);
        assert(self@.rows =~= old(self)@.rows);
    }

    /// Sets the change tick of the rows from `start` up to `end`: a slice that was handed out for
    /// writing counts as changed throughout.
    pub fn stamp_range(&mut self, start: usize, end: usize, tick: Tick)
        requires
            old(self).wf(),
            end <= old(self)@.rows.len(),
        ensures
            final(self).wf(),
            final(self)@ == (ColumnState {
                changed: Seq::new(
                    old(self)@.changed.len(),
                    |i: int|
                        if start <= i < end {
                            tick
                        } else {
                            old(self)@.changed[i]
                        },
                ),
                ..old(self)@
            }),
    {
        let mut row: usize = start;
        while row < end
            invariant
                start <= row,
                row <= end || row == start,
                end <= self.len,
                self.wf(),
                old(self).wf(),
                self@ == (ColumnState { changed: self@.changed, ..old(self)@ }),
                self@.changed.len() == old(self)@.changed.len(),
                forall|i: int|
                    0 <= i < self@.changed.len() ==> #[trigger] self@.changed[i] == if start <= i
                        < row {
                        tick
                    } else {
                        old(self)@.changed[i]
                    },
            decreases end - row,
        {
            self.change_ticks.set(row, tick);
            row = row + 1;
            assert(self@.rows =~= old(self)@.rows);
        }
        assert(self@.changed =~= Seq::new(
            old(self)@.changed.len(),
            |i: int|
                if start <= i < end {
                    tick
                } else {
                    old(self)@.changed[i]
                },
        ));
    }

    /// Makes room for more rows: the first room, or twice what there is.
    pub fn grow(&mut self)
        requires
            old(self).wf(),
        ensures
            final(self).wf(),
            final(self)@ == (ColumnState {
                capacity: grown_capacity(old(self)@.item_size, old(self)@.capacity),
                ..old(self)@
            }),
    {
        let new_cap: usize = if self.capacity == 0 {
            if self.item_size == 0 {
                64
            } else {
                let fit: usize = 256 / self.item_size;
                if fit < 4 {
                    4
                } else if fit > 64 {
                    64
                } else {
                    fit
                }
            }
        } else if self.capacity <= usize::MAX / 2 {
            self.capacity * 2
        } else {
            usize::MAX
        };
        self.set_capacity(new_cap);
    }

    /// Makes room for `capacity` rows.
    fn set_capacity(&mut self, capacity: usize)
        requires
            old(self).wf(),
        ensures
            final(self).wf(),
            final(self)@ == (ColumnState { capacity: capacity as nat, ..old(self)@ }),
    {
        if let Some(bytes) = self.item_size.checked_mul(capacity) {
            if bytes > self.data.len() && bytes <= usize::MAX / 2 {
                self.data.reserve(bytes - self.data.len());
            }
        }
        self.capacity = capacity;
        assert(self@.rows =~= old(self)@.rows);
    }

    /// Makes room for `additional` more rows.
    pub fn reserve(&mut self, additional: usize)
        requires
            old(self).wf(),
            can_reserve(old(self)@, additional as nat),
        ensures
            final(self).wf(),
            final(self)@ == (ColumnState {
                capacity: reserved_capacity(old(self)@, additional as nat),
                ..old(self)@
            }),
    {
        let needed: usize = self.len + additional;
        if needed > self.capacity {
            let mut new_cap: usize = 4;
            while new_cap < needed && new_cap <= usize::MAX / 2
                invariant
                    4 <= new_cap,
                    doubled_to(4, needed as nat) == doubled_to(new_cap as nat, needed as nat),
                decreases usize::MAX - new_cap,
            {
                new_cap = new_cap * 2;
            }
            if new_cap < needed {
                new_cap = usize::MAX;
            }
            self.set_capacity(new_cap);
        }
        self.change_ticks.reserve(additional);
        self.added_ticks.reserve(additional);
        assert(self@.rows =~= old(self)@.rows);
    }

    /// Appends a new value: it counts as changed and as added at `tick`.
    pub fn push(&mut self, src: &[u8], tick: Tick)
        requires
            old(self).wf(),
            src@.len() == old(self)@.item_size,
            old(self)@.rows.len() < usize::MAX,
        ensures
            final(self).wf(),
            final(self)@ == pushed(old(self)@, src@, tick, tick),
    {
        self.push_moved(src, tick, tick);
    }

    /// Appends a value that comes from another archetype: both of its ticks stay.
    pub fn push_moved(&mut self, src: &[u8], changed: Tick, added: Tick)
        requires
            old(self).wf(),
            src@.len() == old(self)@.item_size,
            old(self)@.rows.len() < usize::MAX,
        ensures
            final(self).wf(),
            final(self)@ == pushed(old(self)@, src@, changed, added),
    {
        if self.len >= self.capacity {
            self.grow();
        }
        let ghost before = *self;
        let mut i: usize = 0;
        while i < self.item_size
            invariant
                i <= self.item_size,
                src@.len() == self.item_size,
                self.component_id == before.component_id,
                self.item_size == before.item_size,
                self.item_align == before.item_align,
                self.len == before.len,
                self.capacity == before.capacity,
                self.change_ticks == before.change_ticks,
                self.added_ticks == before.added_ticks,
                self.data@ == before.data@ + src@.subrange(0, i as int),
            decreases self.item_size - i,
        {
            self.data.push(src[i]);
            i = i + 1;
            assert(self.data@ =~= before.data@ + src@.subrange(0, i as int));
        }
        self.change_ticks.push(changed);
        self.added_ticks.push(added);
        self.len = self.len + 1;
        proof {
            let n = before.len as int;
            let size = self.item_size as int;
            assert(src@.subrange(0, size) =~= src@);
            assert((n + 1) * size == n * size + size) by (nonlinear_arith);
            assert forall|k: int| 0 <= k < n implies self.row_bytes(k) =~= before.row_bytes(k) by {
                lemma_row(k, n, size);
            }
            assert(self.row_bytes(n) =~= src@);
            assert(self@.rows =~= before@.rows.push(src@));
            assert(before@.rows =~= old(self)@.rows);
        }
    }

    /// Appends a value in row `row`, which must be the first one that is missing.
    pub fn write_typed_at(&mut self, value: &[u8], row: usize, tick: Tick)
        requires
            old(self).wf(),
            value@.len() == old(self)@.item_size,
            row == old(self)@.rows.len(),
            row < usize::MAX,
        ensures
            final(self).wf(),
            final(self)@ == pushed(old(self)@, value@, tick, tick),
    {
        self.push(value, tick);
    }

    /// Overwrites the bytes of a row.
    fn copy_into(&mut self, row: usize, src: &[u8])
        requires
            old(self).wf(),
            row < old(self)@.rows.len(),
            src@.len() == old(self)@.item_size,
        ensures
            final(self).wf(),
            final(self)@ == (ColumnState {
                rows: old(self)@.rows.update(row as int, src@),
                ..old(self)@
            }),
    {
        let total: usize = self.data.len();
        proof {
            lemma_row(row as int, self.len as int, self.item_size as int);
        }
        let start: usize = row * self.item_size;
        let mut i: usize = 0;
        while i < self.item_size
            invariant
                i <= self.item_size,
                src@.len() == self.item_size,
                start == row * self.item_size,
                start + self.item_size <= self.data@.len() == total,
                self.data@.len() == old(self).data@.len(),
                self.component_id == old(self).component_id,
                self.item_size == old(self).item_size,
                self.item_align == old(self).item_align,
                self.len == old(self).len,
                self.capacity == old(self).capacity,
                self.change_ticks == old(self).change_ticks,
                self.added_ticks == old(self).added_ticks,
                forall|k: int|
                    0 <= k < self.data@.len() ==> #[trigger] self.data@[k] == if start <= k < start
                        + i {
                        src@[k - start]
                    } else {
                        old(self).data@[k]
                    },
            decreases self.item_size - i,
        {
            self.data.set(start + i, src[i]);
            i = i + 1;
        }
        proof {
            let size = self.item_size as int;
            assert forall|k: int| 0 <= k < self.len implies self.row_bytes(k) =~= if k == row {
                src@
            } else {
                old(self).row_bytes(k)
            } by {
                lemma_row(k, self.len as int, size);
                if k < row {
                    lemma_rows_apart(k, row as int, size);
                } else if k > row {
                    lemma_rows_apart(row as int, k, size);
                }
            }
            assert(self@.rows =~= old(self)@.rows.update(row as int, src@));
        }
    }

    /// Overwrites the value of a row; its added tick stays.
    pub fn write_at(&mut self, row: usize, src: &[u8], tick: Tick)
        requires
            old(self).wf(),
            row < old(self)@.rows.len(),
            src@.len() == old(self)@.item_size,
        ensures
            final(self).wf(),
            final(self)@ == row_written(old(self)@, row as int, src@, tick),
    {
        self.copy_into(row, src);
        self.set_change_tick(row, tick);
    }

    /// Replaces the value of a row and returns the old one, which its owner disposes of.
    pub fn replace_at(&mut self, row: usize, src: &[u8], tick: Tick) -> (before: Vec<u8>)
        requires
            old(self).wf(),
            row < old(self)@.rows.len(),
            src@.len() == old(self)@.item_size,
        ensures
            final(self).wf(),
            before@ == old(self)@.rows[row as int],
            final(self)@ == row_written(old(self)@, row as int, src@, tick),
    {
        let before: Vec<u8> = bytes_of(self.get(row));
        self.write_at(row, src, tick);
        before
    }

    /// Pulls old ticks up to the largest age.
    pub fn check_change_ticks(&mut self, current: Tick)
        requires
            old(self).wf(),
        ensures
            final(self).wf(),
            final(self)@ == (ColumnState {
                changed: old(self)@.changed.map_values(|t: Tick| clamped(t, current)),
                added: old(self)@.added.map_values(|t: Tick| clamped(t, current)),
                ..old(self)@
            }),
    {
        clamp_all(&mut self.change_ticks, current);
        clamp_all(&mut self.added_ticks, current);
        assert(self@.rows =~= old(self)@.rows);
    }

    /// Removes a row, whose place the last row takes, and returns the value of the row, which its
    /// owner disposes of.
    pub fn swap_remove_and_drop(&mut self, row: usize) -> (removed: Vec<u8>)
        requires
            old(self).wf(),
            row < old(self)@.rows.len(),
        ensures
            final(self).wf(),
            removed@ == old(self)@.rows[row as int],
            final(self)@ == row_removed(old(self)@, row as int),
    {
        let removed: Vec<u8> = bytes_of(self.get(row));
        self.swap_remove_no_drop(row);
        removed
    }

    /// Removes a row, whose value has gone elsewhere; the last row takes its place.
    pub fn swap_remove_no_drop(&mut self, row: usize)
        requires
            old(self).wf(),
            row < old(self)@.rows.len(),
        ensures
            final(self).wf(),
            final(self)@ == row_removed(old(self)@, row as int),
    {
        proof {
            self.lemma_wf();
        }
        let last: usize = self.len - 1;
        let ghost s = self@;
        if row != last {
            let value: Vec<u8> = bytes_of(self.get(last));
            self.copy_into(row, value.as_slice());
            let changed: Tick = self.change_ticks[last];
            self.change_ticks.set(row, changed);
            let added: Tick = self.added_ticks[last];
            self.added_ticks.set(row, added);
        }
        let ghost mid = *self;
        let total: usize = self.data.len();
        proof {
            assert(mid@.rows =~= s.rows.update(row as int, s.rows.last()));
            assert(mid@.changed =~= s.changed.update(row as int, s.changed.last()));
            assert(mid@.added =~= s.added.update(row as int, s.added.last()));
            lemma_row(last as int, self.len as int, self.item_size as int);
        }
        let bytes: usize = last * self.item_size;
        self.data.truncate(bytes);
        self.change_ticks.truncate(last);
        self.added_ticks.truncate(last);
        self.len = last;
        proof {
            assert forall|k: int| 0 <= k < last implies self.row_bytes(k) =~= mid.row_bytes(k) by {
                lemma_row(k, last as int, self.item_size as int);
            }
            assert(self@.rows =~= swap_removed(s.rows, row as int));
            assert(self@.changed =~= swap_removed(s.changed, row as int));
            assert(self@.added =~= swap_removed(s.added, row as int));
        }
    }

    /// When a row was last changed; the zero tick for a row that does not exist.
    pub fn get_tick(&self, row: usize) -> (t: Tick)
        requires
            self.wf(),
        ensures
            t == if row < self@.changed.len() {
                self@.changed[row as int]
            } else {
                Tick(0)
            },
    {
        if row < self.change_ticks.len() {
            self.change_ticks[row]
        } else {
            Tick(0)
        }
    }

    /// When the component was added in a row; the zero tick for a row that does not exist.
    pub fn get_added_tick(&self, row: usize) -> (t: Tick)
        requires
            self.wf(),
        ensures
            t == if row < self@.added.len() {
                self@.added[row as int]
            } else {
                Tick(0)
            },
    {
        if row < self.added_ticks.len() {
            self.added_ticks[row]
        } else {
            Tick(0)
        }
    }

    /// The change ticks of all rows.
    pub fn ticks_ptr(&self) -> (ticks: &[Tick])
        ensures
            ticks@ == self@.changed,
    {
        self.change_ticks.as_slice()
    }

    /// The added ticks of all rows.
    pub fn added_ticks_ptr(&self) -> (ticks: &[Tick])
        ensures
            ticks@ == self@.added,
    {
        self.added_ticks.as_slice()
    }

    /// The data of all rows, one behind the other.
    pub fn data_ptr(&self) -> (data: &[u8])
        requires
            self.wf(),
        ensures
            data@.len() == self@.rows.len() * self@.item_size,
            forall|i: int|
                0 <= i < self@.rows.len() ==> #[trigger] self@.rows[i] == data@.subrange(
                    i * self@.item_size,
                    i * self@.item_size + self@.item_size,
                ),
    {
        self.data.as_slice()
    }
}

/// Pulls every tick up to the largest age.
pub(crate) fn clamp_all(ticks: &mut Vec<Tick>, current: Tick)
    ensures
        final(ticks)@ == old(ticks)@.map_values(|t: Tick| clamped(t, current)),
{
    let mut i: usize = 0;
    while i < ticks.len()
        invariant
            i <= ticks@.len(),
            ticks@.len() == old(ticks)@.len(),
            forall|k: int|
                0 <= k < ticks@.len() ==> #[trigger] ticks@[k] == if k < i {
                    clamped(old(ticks)@[k], current)
                } else {
                    old(ticks)@[k]
                },
        decreases ticks.len() - i,
    {
        let mut t: Tick = ticks[i];
        let clamp: bool = t.check_against(current);
        ticks.set(i, t);
        i = i + 1;
    }
    assert(ticks@ =~= old(ticks)@.map_values(|t: Tick| clamped(t, current)));
}

/// The bytes of a slice.
pub(crate) fn bytes_of(items: &[u8]) -> (out: Vec<u8>)
    ensures
        out@ == items@,
{
    let mut out: Vec<u8> = Vec::new();
    let mut i: usize = 0;
    while i < items.len()
        invariant
            i <= items@.len(),
            out@ == items@.subrange(0, i as int),
        decreases items.len() - i,
    {
        out.push(items[i]);
        i = i + 1;
        assert(out@ =~= items@.subrange(0, i as int));
    }
    assert(out@ =~= items@);
    out
}

} // verus!
