//! Queries: the rows of all archetypes that a shape takes, in order.

use vstd::prelude::*;
use vstd::string::StringExecFns;
use crate::archetype::{ArchState, Archetype, arch_wf, filled};
use crate::component::{ComponentId, INVALID_ID, Tick};
use crate::entity::{Entity, location_of};
use crate::inline::{IdList, KeyList, PlaceList, id_items, key_items, place_items};
use crate::registry::{ComponentRegistry, InfoView};
use crate::shape::{
    Shape, cache_key, count, data_access, has_row_filter, ids, ids_from_key,
    law_key_tells_the_components, law_required_components_are_there,
    law_unfiltered_shapes_take_every_row, suits, passes, required_ids, takes,
};
use crate::storage::{CellState, Storage, arch_ok, at, having, law_component_index, store_wf};
use crate::world::{World, row_cells};

verus! {

/// Number of archetypes up to which all of them are tried.
const LINEAR_SCAN_MAX_ARCHETYPES: usize = 128;

/// State of a query.
pub struct QueryState {
    /// The component types of the world.
    pub infos: Seq<InfoView>,
    /// The archetypes of the world.
    pub archetypes: Seq<ArchState>,
    /// What the query asks for.
    pub shape: Shape,
    /// Changes after this tick count as new.
    pub last_run: Tick,
    /// Places of the archetypes to look at, in order.
    pub places: Seq<usize>,
    /// Rows that are looked at, for some archetypes: place, first row, and the row behind the
    /// last. All rows of the others are.
    pub ranges: Seq<(usize, usize, usize)>,
}

/// The first range for an archetype, from `from` on.
pub open spec fn range_of(ranges: Seq<(usize, usize, usize)>, place: usize, from: nat) -> (
    usize,
    usize,
)
    decreases ranges.len() - from,
{
    if from >= ranges.len() {
        (0, usize::MAX)
    } else if ranges[from as int].0 == place {
        (ranges[from as int].1, ranges[from as int].2)
    } else {
        range_of(ranges, place, from + 1)
    }
}

/// The first row of an archetype that a query looks at.
pub open spec fn first_row(q: QueryState, place: usize) -> usize {
    range_of(q.ranges, place, 0).0
}

/// The row behind the last row of an archetype that a query looks at.
pub open spec fn rows_end(q: QueryState, place: usize) -> usize {
    let end = range_of(q.ranges, place, 0).1;
    let len = q.archetypes[place as int].entities.len();
    if end <= len {
        end
    } else {
        len as usize
    }
}

/// Whether a query takes an archetype.
pub open spec fn takes_archetype(q: QueryState, place: usize) -> bool {
    suits(q.infos, q.archetypes[place as int], q.shape)
}

/// Whether a query takes a row of an archetype that it takes.
pub open spec fn takes_row(q: QueryState, place: usize, row: usize) -> bool {
    passes(q.infos, q.archetypes[place as int], row as int, q.last_run, q.shape)
}

/// The rows of an archetype that a query takes, from `row` on.
pub open spec fn rows_from(q: QueryState, place: usize, row: int, end: int) -> Seq<(usize, usize)>
    decreases end - row,
{
    if row >= end {
        Seq::empty()
    } else if takes_row(q, place, row as usize) {
        seq![(place, row as usize)] + rows_from(q, place, row + 1, end)
    } else {
        rows_from(q, place, row + 1, end)
    }
}

/// The rows of an archetype that a query takes.
pub open spec fn hits_in(q: QueryState, place: usize) -> Seq<(usize, usize)> {
    if takes_archetype(q, place) {
        rows_from(q, place, first_row(q, place) as int, rows_end(q, place) as int)
    } else {
        Seq::empty()
    }
}

/// The rows that a query takes, from the archetype at `k` of its list on.
pub open spec fn hits_from(q: QueryState, k: nat) -> Seq<(usize, usize)>
    decreases q.places.len() - k,
{
    if k >= q.places.len() {
        Seq::empty()
    } else {
        hits_in(q, q.places[k as int]) + hits_from(q, k + 1)
    }
}

/// The rows that a query takes, in order: place of the archetype, and row.
pub open spec fn hits(q: QueryState) -> Seq<(usize, usize)> {
    hits_from(q, 0)
}

/// The entity of a row.
pub open spec fn entity_at(q: QueryState, hit: (usize, usize)) -> Entity {
    q.archetypes[hit.0 as int].entities[hit.1 as int]
}

/// Whether a query takes a row.
pub open spec fn covers(q: QueryState, place: usize, row: usize) -> bool {
    &&& q.places.contains(place)
    &&& takes_archetype(q, place)
    &&& first_row(q, place) <= row < rows_end(q, place)
    &&& takes_row(q, place, row)
}

pub(crate) proof fn lemma_rows_from(q: QueryState, place: usize, row: int, end: int, p: usize, r: usize)
    requires
        0 <= row,
        end <= usize::MAX,
    ensures
        rows_from(q, place, row, end).contains((p, r)) <==> p == place && row <= r < end
            && takes_row(q, place, r),
    decreases end - row,
{
    if row < end {
        lemma_rows_from(q, place, row + 1, end, p, r);
        let tail = rows_from(q, place, row + 1, end);
        let all = rows_from(q, place, row, end);
        if takes_row(q, place, row as usize) {
            let head = seq![(place, row as usize)];
            assert(all == head + tail);
            if tail.contains((p, r)) {
                let i = choose|i: int| 0 <= i < tail.len() && tail[i] == (p, r);
                assert(all[i + 1] == (p, r));
            }
            assert(all[0] == (place, row as usize));
            if all.contains((p, r)) {
                let i = choose|i: int| 0 <= i < all.len() && all[i] == (p, r);
                if i > 0 {
                    assert(tail[i - 1] == (p, r));
                }
            }
        }
    }
}

proof fn lemma_hits_from(q: QueryState, k: nat, p: usize, r: usize)
    ensures
        hits_from(q, k).contains((p, r)) <==> (exists|i: int|
            k <= i < q.places.len() && #[trigger] q.places[i] == p) && takes_archetype(q, p)
            && first_row(q, p) <= r < rows_end(q, p) && takes_row(q, p, r),
    decreases q.places.len() - k,
{
    if k < q.places.len() {
        lemma_hits_from(q, k + 1, p, r);
        let here = q.places[k as int];
        let a = hits_in(q, here);
        let b = hits_from(q, k + 1);
        let all = hits_from(q, k);
        assert(all == a + b);
        if takes_archetype(q, here) {
            lemma_rows_from(
                q,
                here,
                first_row(q, here) as int,
                rows_end(q, here) as int,
                p,
                r,
            );
        }
        if a.contains((p, r)) {
            let i = choose|i: int| 0 <= i < a.len() && a[i] == (p, r);
            assert(all[i] == (p, r));
            assert(q.places[k as int] == p);
        }
        if b.contains((p, r)) {
            let i = choose|i: int| 0 <= i < b.len() && b[i] == (p, r);
            assert(all[i + a.len()] == (p, r));
        }
        if all.contains((p, r)) {
            let i = choose|i: int| 0 <= i < all.len() && all[i] == (p, r);
            if i < a.len() {
                assert(a[i] == (p, r));
            } else {
                assert(b[i - a.len()] == (p, r));
            }
        }
        if (exists|i: int| k <= i < q.places.len() && #[trigger] q.places[i] == p) {
            let i = choose|i: int| k <= i < q.places.len() && #[trigger] q.places[i] == p;
            if i > k {
                assert(k + 1 <= i && q.places[i] == p);
            }
        }
    }
}

/// A row is among those that a query takes exactly where the query covers it.
pub proof fn law_hits_are_what_is_covered(q: QueryState, place: usize, row: usize)
    ensures
        hits(q).contains((place, row)) <==> covers(q, place, row),
{
    lemma_hits_from(q, 0, place, row);
    if q.places.contains(place) {
        let i = choose|i: int| 0 <= i < q.places.len() && q.places[i] == place;
        assert(0 <= i && q.places[i] == place);
    }
}

/// Whether an archetype is among those that a query over a whole world looks at: it has entities,
/// and the shape takes it.
pub open spec fn candidate(infos: Seq<InfoView>, a: ArchState, s: Shape) -> bool {
    a.entities.len() > 0 && suits(infos, a, s)
}

/// Places of the archetypes among the first `n` that have entities and that a shape takes.
pub open spec fn taken_upto(
    infos: Seq<InfoView>,
    archetypes: Seq<ArchState>,
    s: Shape,
    n: nat,
) -> Seq<usize>
    decreases n,
{
    if n == 0 {
        Seq::empty()
    } else {
        let head = taken_upto(infos, archetypes, s, (n - 1) as nat);
        if candidate(infos, archetypes[n - 1], s) {
            head.push((n - 1) as usize)
        } else {
            head
        }
    }
}

/// Places of the archetypes among the first `n` that a shape takes.
pub open spec fn matching_upto(
    infos: Seq<InfoView>,
    archetypes: Seq<ArchState>,
    s: Shape,
    n: nat,
) -> Seq<usize>
    decreases n,
{
    if n == 0 {
        Seq::empty()
    } else {
        let head = matching_upto(infos, archetypes, s, (n - 1) as nat);
        if suits(infos, archetypes[n - 1], s) {
            head.push((n - 1) as usize)
        } else {
            head
        }
    }
}

/// The places of a list that hold candidates.
spec fn kept(infos: Seq<InfoView>, archetypes: Seq<ArchState>, s: Shape, list: Seq<usize>) -> Seq<
    usize,
>
    decreases list.len(),
{
    if list.len() == 0 {
        Seq::empty()
    } else {
        let head = kept(infos, archetypes, s, list.drop_last());
        if candidate(infos, archetypes[list.last() as int], s) {
            head.push(list.last())
        } else {
            head
        }
    }
}

proof fn lemma_kept_having(
    infos: Seq<InfoView>,
    archetypes: Seq<ArchState>,
    s: Shape,
    c: u32,
    n: nat,
)
    requires
        n <= archetypes.len() <= usize::MAX,
        forall|a: int|
            0 <= a < archetypes.len() && #[trigger] candidate(infos, archetypes[a], s)
                ==> archetypes[a].ids.contains(c),
    ensures
        kept(infos, archetypes, s, having(archetypes, c, n)) == taken_upto(infos, archetypes, s, n),
    decreases n,
{
    if n > 0 {
        lemma_kept_having(infos, archetypes, s, c, (n - 1) as nat);
        let head = having(archetypes, c, (n - 1) as nat);
        let all = having(archetypes, c, n);
        let a = archetypes[n - 1];
        if a.ids.contains(c) {
            assert(all == head.push((n - 1) as usize));
            assert(all.drop_last() =~= head);
            assert(all.last() == (n - 1) as usize);
        } else {
            assert(!candidate(infos, a, s));
        }
    }
}

/// The places of the candidates, each once, in ascending order.
pub proof fn law_candidates(
    infos: Seq<InfoView>,
    archetypes: Seq<ArchState>,
    s: Shape,
    n: nat,
    i: usize,
)
    requires
        n <= archetypes.len() <= usize::MAX,
    ensures
        taken_upto(infos, archetypes, s, n).contains(i) <==> i < n && candidate(
            infos,
            archetypes[i as int],
            s,
        ),
        forall|a: int, b: int|
            0 <= a < b < taken_upto(infos, archetypes, s, n).len() ==> #[trigger] taken_upto(
                infos,
                archetypes,
                s,
                n,
            )[a] < #[trigger] taken_upto(infos, archetypes, s, n)[b],
        forall|a: int|
            0 <= a < taken_upto(infos, archetypes, s, n).len() ==> #[trigger] taken_upto(
                infos,
                archetypes,
                s,
                n,
            )[a] < n && candidate(
                infos,
                archetypes[taken_upto(infos, archetypes, s, n)[a] as int],
                s,
            ),
    decreases n,
{
    if n > 0 {
        law_candidates(infos, archetypes, s, (n - 1) as nat, i);
        let head = taken_upto(infos, archetypes, s, (n - 1) as nat);
        let all = taken_upto(infos, archetypes, s, n);
        if candidate(infos, archetypes[n - 1], s) {
            assert(all[head.len() as int] == (n - 1) as usize);
            assert forall|x: usize| all.contains(x) <==> head.contains(x) || x == (n - 1) as usize by {
                if head.contains(x) {
                    let k = choose|k: int| 0 <= k < head.len() && head[k] == x;
                    assert(all[k] == x);
                }
            }
        }
    }
}

/// The places of the archetypes that a shape takes, each once, in ascending order.
pub proof fn law_matching(
    infos: Seq<InfoView>,
    archetypes: Seq<ArchState>,
    s: Shape,
    n: nat,
    i: usize,
)
    requires
        n <= archetypes.len() <= usize::MAX,
    ensures
        matching_upto(infos, archetypes, s, n).contains(i) <==> i < n && suits(
            infos,
            archetypes[i as int],
            s,
        ),
        forall|a: int, b: int|
            0 <= a < b < matching_upto(infos, archetypes, s, n).len() ==> #[trigger] matching_upto(
                infos,
                archetypes,
                s,
                n,
            )[a] < #[trigger] matching_upto(infos, archetypes, s, n)[b],
        forall|a: int|
            0 <= a < matching_upto(infos, archetypes, s, n).len() ==> #[trigger] matching_upto(
                infos,
                archetypes,
                s,
                n,
            )[a] < n && suits(
                infos,
                archetypes[matching_upto(infos, archetypes, s, n)[a] as int],
                s,
            ),
    decreases n,
{
    if n > 0 {
        law_matching(infos, archetypes, s, (n - 1) as nat, i);
        let head = matching_upto(infos, archetypes, s, (n - 1) as nat);
        let all = matching_upto(infos, archetypes, s, n);
        if suits(infos, archetypes[n - 1], s) {
            assert(all[head.len() as int] == (n - 1) as usize);
            assert forall|x: usize| all.contains(x) <==> head.contains(x) || x == (n - 1) as usize by {
                if head.contains(x) {
                    let k = choose|k: int| 0 <= k < head.len() && head[k] == x;
                    assert(all[k] == x);
                }
            }
        }
    }
}

/// Whether a component is handed out twice, and for writing once at least.
pub open spec fn aliased(access: Seq<(u32, bool)>, i: int, j: int) -> bool {
    &&& 0 <= i < j < access.len()
    &&& access[i].0 != INVALID_ID
    &&& access[i].0 == access[j].0
    &&& access[i].1 || access[j].1
}

/// Whether a shape would hand out two references to one component of a row, one of them for
/// writing.
pub open spec fn self_alias(infos: Seq<InfoView>, s: Shape) -> bool {
    exists|i: int, j: int| aliased(data_access(infos, s), i, j)
}

/// The first component type that a shape would hand out twice, for writing once at least.
pub fn find_self_alias(registry: &ComponentRegistry, shape: &Shape) -> (found: Option<ComponentId>)
    requires
        registry.wf(),
    ensures
        found is Some <==> self_alias(registry@.infos, *shape),
        found matches Some(id) ==> exists|i: int, j: int|
            #[trigger] aliased(data_access(registry@.infos, *shape), i, j) && data_access(
                registry@.infos,
                *shape,
            )[i].0 == id.0 && forall|k: int, l: int|
                0 <= k < i ==> !#[trigger] aliased(data_access(registry@.infos, *shape), k, l),
{
    let mut access: Vec<(u32, bool)> = Vec::new();
    shape.fill_data_access(registry, &mut access);
    let ghost all = data_access(registry@.infos, *shape);
    assert(access@ =~= all);
    let mut i: usize = 0;
    while i < access.len()
        invariant
            i <= access@.len(),
            access@ == all,
            all == data_access(registry@.infos, *shape),
            forall|k: int, l: int| 0 <= k < i ==> !#[trigger] aliased(all, k, l),
        decreases access.len() - i,
    {
        if access[i].0 != INVALID_ID {
            let mut j: usize = i + 1;
            while j < access.len()
                invariant
                    i < j <= access@.len(),
                    access@ == all,
                    all == data_access(registry@.infos, *shape),
                    access@[i as int].0 != INVALID_ID,
                    forall|k: int, l: int| 0 <= k < i ==> !#[trigger] aliased(all, k, l),
                    forall|l: int| l < j ==> !#[trigger] aliased(all, i as int, l),
                decreases access.len() - j,
            {
                if access[j].0 == access[i].0 && (access[i].1 || access[j].1) {
                    assert(aliased(all, i as int, j as int));
                    return Some(ComponentId(access[i].0));
                }
                j = j + 1;
            }
        }
        i = i + 1;
    }
    None
}

enum Places<'s> {
    Owned(PlaceList),
    Borrowed(&'s [usize]),
}

impl<'s> Places<'s> {
    spec fn items(&self) -> Seq<usize> {
        match self {
            Places::Owned(list) => place_items(*list),
            Places::Borrowed(list) => list@,
        }
    }

    fn as_slice(&self) -> (list: &[usize])
        ensures
            list@ == self.items(),
    {
        match self {
            Places::Owned(list) => list.as_slice(),
            Places::Borrowed(list) => list,
        }
    }
}

/// A query over a world.
pub struct Query<'w, 's> {
    world: &'w World,
    shape: Shape,
    places: Places<'s>,
    ids: IdList,
    last_run: Tick,
    ranges: &'s [(usize, usize, usize)],
    /// Whether the shape takes every listed archetype.
    match_verified: bool,
}

impl<'w, 's> View for Query<'w, 's> {
    type V = QueryState;

    closed spec fn view(&self) -> QueryState {
        QueryState {
            infos: self.world@.registry.infos,
            archetypes: self.world.store().archetypes,
            shape: self.shape,
            last_run: self.last_run,
            places: self.places.items(),
            ranges: self.ranges@,
        }
    }
}

/// A query over all of a world.
pub open spec fn whole(w: World, s: Shape, last_run: Tick) -> QueryState {
    QueryState {
        infos: w@.registry.infos,
        archetypes: w.store().archetypes,
        shape: s,
        last_run,
        places: taken_upto(
            w@.registry.infos,
            w.store().archetypes,
            s,
            w.store().archetypes.len(),
        ),
        ranges: Seq::empty(),
    }
}

fn is_candidate(
    storage: &Storage,
    Ghost(infos): Ghost<Seq<InfoView>>,
    shape: &Shape,
    ids: &IdList,
    place: usize,
) -> (b: bool)
    requires
        storage.wf(infos),
        place < storage@.archetypes.len(),
        id_items(*ids) == crate::shape::ids(infos, *shape),
    ensures
        b == candidate(infos, storage@.archetypes[place as int], *shape),
{
    let arch: &Archetype = storage.archetype(place);
    proof {
        shape.lemma_stands_at_start(infos);
    }
    !arch.is_empty() && shape.matches_at(Ghost(infos), arch, ids.as_slice(), 0)
}

fn scan_all(
    storage: &Storage,
    Ghost(infos): Ghost<Seq<InfoView>>,
    shape: &Shape,
    ids: &IdList,
) -> (list: PlaceList)
    requires
        storage.wf(infos),
        id_items(*ids) == crate::shape::ids(infos, *shape),
    ensures
        place_items(list) == taken_upto(
            infos,
            storage@.archetypes,
            *shape,
            storage@.archetypes.len(),
        ),
{
    let mut list: PlaceList = PlaceList::new();
    let n: usize = storage.archetype_count();
    let mut i: usize = 0;
    while i < n
        invariant
            i <= n == storage@.archetypes.len(),
            storage.wf(infos),
            id_items(*ids) == crate::shape::ids(infos, *shape),
            place_items(list) == taken_upto(infos, storage@.archetypes, *shape, i as nat),
        decreases n - i,
    {
        if is_candidate(storage, Ghost(infos), shape, ids, i) {
            list.push(i);
        }
        i = i + 1;
    }
    list
}

fn scan_listed(
    storage: &Storage,
    Ghost(infos): Ghost<Seq<InfoView>>,
    shape: &Shape,
    ids: &IdList,
    candidates: &Vec<usize>,
) -> (list: PlaceList)
    requires
        storage.wf(infos),
        id_items(*ids) == crate::shape::ids(infos, *shape),
        forall|k: int|
            0 <= k < candidates@.len() ==> #[trigger] candidates@[k] < storage@.archetypes.len(),
    ensures
        place_items(list) == kept(infos, storage@.archetypes, *shape, candidates@),
{
    let mut list: PlaceList = PlaceList::new();
    let mut i: usize = 0;
    assert(candidates@.subrange(0, 0) =~= Seq::<usize>::empty());
    while i < candidates.len()
        invariant
            i <= candidates@.len(),
            storage.wf(infos),
            id_items(*ids) == crate::shape::ids(infos, *shape),
            forall|k: int|
                0 <= k < candidates@.len() ==> #[trigger] candidates@[k]
                    < storage@.archetypes.len(),
            place_items(list) == kept(
                infos,
                storage@.archetypes,
                *shape,
                candidates@.subrange(0, i as int),
            ),
        decreases candidates.len() - i,
    {
        let ghost seen = candidates@.subrange(0, i as int + 1);
        assert(seen.drop_last() =~= candidates@.subrange(0, i as int));
        assert(seen.last() == candidates@[i as int]);
        if is_candidate(storage, Ghost(infos), shape, ids, candidates[i]) {
            list.push(candidates[i]);
        }
        i = i + 1;
    }
    assert(candidates@.subrange(0, candidates@.len() as int) =~= candidates@);
    list
}

/// The archetypes that have the rarest of some component types.
fn rarest(storage: &Storage, Ghost(infos): Ghost<Seq<InfoView>>, required: &[u32]) -> (list: Vec<
    usize,
>)
    requires
        storage.wf(infos),
        required@.len() > 0,
    ensures
        exists|k: int|
            0 <= k < required@.len() && list@ == having(
                storage@.archetypes,
                #[trigger] required@[k],
                storage@.archetypes.len(),
            ),
{
    let mut best: Vec<usize> = storage.archetypes_with(ComponentId(required[0]));
    assert(list_of(storage@.archetypes, required@, best@, 0));
    let mut i: usize = 1;
    while i < required.len()
        invariant
            1 <= i <= required@.len(),
            storage.wf(infos),
            exists|k: int| 0 <= k < i && #[trigger] list_of(storage@.archetypes, required@, best@, k),
        decreases required.len() - i,
    {
        let list: Vec<usize> = storage.archetypes_with(ComponentId(required[i]));
        if list.len() < best.len() {
            best = list;
            assert(list_of(storage@.archetypes, required@, best@, i as int));
        }
        i = i + 1;
    }
    proof {
        let k = choose|k: int|
            0 <= k < required@.len() && #[trigger] list_of(
                storage@.archetypes,
                required@,
                best@,
                k,
            );
        assert(best@ == having(storage@.archetypes, required@[k], storage@.archetypes.len()));
    }
    best
}

spec fn list_of(archetypes: Seq<ArchState>, required: Seq<u32>, list: Seq<usize>, k: int) -> bool {
    list == having(archetypes, required[k], archetypes.len())
}

/// Values of the components that a shape hands out, in order, for an entity with these components.
pub open spec fn item_values(infos: Seq<InfoView>, m: Map<u32, CellState>, s: Shape) -> Seq<
    Option<Seq<u8>>,
> {
    data_access(infos, s).map_values(
        |x: (u32, bool)|
            if m.contains_key(x.0) {
                Some(m[x.0].value)
            } else {
                None
            },
    )
}

/// Whether `values` are the wanted ones.
pub open spec fn values_are(values: Seq<Option<&[u8]>>, want: Seq<Option<Seq<u8>>>) -> bool {
    &&& values.len() == want.len()
    &&& forall|i: int|
        0 <= i < values.len() ==> match (#[trigger] values[i], want[i]) {
            (Some(v), Some(w)) => v@ == w,
            (None, None) => true,
            _ => false,
        }
}

/// What a query hands out for a row.
pub struct QueryItem<'w> {
    /// The entity of the row.
    pub entity: Entity,
    /// Values of the components that the shape hands out, in order. One that is asked for where it
    /// is there may be missing.
    pub values: Vec<Option<&'w [u8]>>,
}

/// Whether `item` is what a query hands out for a row.
pub open spec fn is_item(q: QueryState, hit: (usize, usize), item: QueryItem<'_>) -> bool {
    &&& item.entity == entity_at(q, hit)
    &&& values_are(
        item.values@,
        item_values(q.infos, row_cells(q.archetypes[hit.0 as int], hit.1 as int), q.shape),
    )
}

/// Why there is not exactly one match.
#[derive(Clone, Copy, PartialEq, Eq, Debug, Structural)]
pub enum QuerySingleError {
    /// Nothing matches.
    NoEntities,
    /// More than one entity matches.
    MultipleEntities,
}

impl QuerySingleError {
    /// The error in words.
    pub fn text(&self) -> (t: String)
        ensures
            t@ == match *self {
                QuerySingleError::NoEntities => "Query::single: no matching entity"@,
                QuerySingleError::MultipleEntities => "Query::single: more than one matching entity"@,
            },
    {
        match self {
            QuerySingleError::NoEntities => "Query::single: no matching entity".to_owned(),
            QuerySingleError::MultipleEntities =>
                "Query::single: more than one matching entity".to_owned(),
        }
    }
}

impl<'w, 's> Query<'w, 's> {
    /// The query's invariant.
    pub closed spec fn wf(&self) -> bool {
        &&& self.world.wf()
        &&& id_items(self.ids) == ids(self@.infos, self.shape)
        &&& forall|k: int|
            0 <= k < self@.places.len() ==> #[trigger] self@.places[k] < self@.archetypes.len()
        &&& self.match_verified ==> forall|k: int|
            0 <= k < self@.places.len() ==> takes_archetype(self@, #[trigger] self@.places[k])
    }

    /// The world that the query is over.
    pub closed spec fn subject(&self) -> World {
        *self.world
    }

    /// What the invariant says of the state.
    pub proof fn lemma_wf(&self)
        requires
            self.wf(),
        ensures
            self.subject().wf(),
            self@.infos == self.subject()@.registry.infos,
            self@.archetypes == self.subject().store().archetypes,
            store_wf(self.subject().store(), self@.infos),
            self@.archetypes.len() <= u32::MAX,
            forall|k: int|
                0 <= k < self@.places.len() ==> #[trigger] self@.places[k] < self@.archetypes.len(),
    {
        self.world.lemma_store();
    }

    /// A query over a world, for which every change is new.
    pub fn new(world: &'w World, shape: Shape) -> (q: Query<'w, 's>)
        requires
            world.wf(),
            !self_alias(world@.registry.infos, shape),
        ensures
            q.wf(),
            q.subject() == *world,
            q@ == whole(*world, shape, Tick(0)),
    {
        Query::new_with_tick(world, shape, Tick(0))
    }

    /// A query over a world, for which changes after `last_run` are new.
    pub fn new_with_tick(world: &'w World, shape: Shape, last_run: Tick) -> (q: Query<'w, 's>)
        requires
            world.wf(),
            !self_alias(world@.registry.infos, shape),
        ensures
            q.wf(),
            q.subject() == *world,
            q@ == whole(*world, shape, last_run),
    {
        let ghost infos = world@.registry.infos;
        let ghost archetypes = world.store().archetypes;
        let registry: &ComponentRegistry = world.registry();
        let storage: &Storage = world.storage();
        let mut all: IdList = IdList::new();
        shape.fill_ids(registry, &mut all);
        assert(id_items(all) =~= ids(infos, shape));
        let mut required: IdList = IdList::new();
        if storage.archetype_count() > LINEAR_SCAN_MAX_ARCHETYPES {
            shape.fill_required_ids(registry, &mut required);
            assert(id_items(required) =~= required_ids(infos, shape));
        }
        proof {
            world.lemma_store();
        }
        let list: PlaceList = if required.as_slice().len() == 0 {
            scan_all(storage, Ghost(infos), &shape, &all)
        } else {
            let candidates: Vec<usize> = rarest(storage, Ghost(infos), required.as_slice());
            proof {
                let k = choose|k: int|
                    0 <= k < id_items(required).len() && candidates@ == having(
                        archetypes,
                        #[trigger] id_items(required)[k],
                        archetypes.len(),
                    );
                let c = id_items(required)[k];
                law_component_index(archetypes, c, archetypes.len(), 0);
                assert forall|a: int|
                    0 <= a < archetypes.len() && #[trigger] candidate(
                        infos,
                        archetypes[a],
                        shape,
                    ) implies archetypes[a].ids.contains(c) by {
                    law_required_components_are_there(infos, archetypes[a], shape, k);
                }
                lemma_kept_having(infos, archetypes, shape, c, archetypes.len());
            }
            scan_listed(storage, Ghost(infos), &shape, &all, &candidates)
        };
        let q = Query {
            world,
            shape,
            places: Places::Owned(list),
            ids: all,
            last_run,
            ranges: &[],
            match_verified: true,
        };
        proof {
            law_candidates(infos, archetypes, shape, archetypes.len(), 0);
            assert(q.ranges@ =~= Seq::<(usize, usize, usize)>::empty());
        }
        q
    }

    /// A query over a world that lists every archetype that the shape takes, with or without
    /// entities, and finds the component types by its cache key.
    pub fn from_world_cached(world: &'w World, shape: Shape, last_run: Tick) -> (q: Query<'w, 's>)
        requires
            world.wf(),
            !self_alias(world@.registry.infos, shape),
        ensures
            q.wf(),
            q.subject() == *world,
            q@ == (QueryState {
                places: matching_upto(
                    world@.registry.infos,
                    world.store().archetypes,
                    shape,
                    world.store().archetypes.len(),
                ),
                ..whole(*world, shape, last_run)
            }),
    {
        let ghost infos = world@.registry.infos;
        let ghost archetypes = world.store().archetypes;
        let registry: &ComponentRegistry = world.registry();
        let storage: &Storage = world.storage();
        proof {
            world.lemma_store();
            shape.lemma_stands_at_start(infos);
        }
        let mut key: KeyList = KeyList::new();
        shape.fill_cache_key(registry, &mut key);
        assert(key_items(key) =~= cache_key(infos, shape));
        let all: IdList = ids_from_key(&key);
        proof {
            law_key_tells_the_components(infos, shape);
        }
        let mut list: PlaceList = PlaceList::new();
        let n: usize = storage.archetype_count();
        let mut i: usize = 0;
        while i < n
            invariant
                i <= n == archetypes.len(),
                storage.wf(infos),
                storage@.archetypes == archetypes,
                id_items(all) == ids(infos, shape),
                shape.stands_at(infos, ids(infos, shape), 0),
                place_items(list) == matching_upto(infos, archetypes, shape, i as nat),
            decreases n - i,
        {
            if shape.matches_at(Ghost(infos), storage.archetype(i), all.as_slice(), 0) {
                list.push(i);
            }
            i = i + 1;
        }
        let q = Query {
            world,
            shape,
            places: Places::Owned(list),
            ids: all,
            last_run,
            ranges: &[],
            match_verified: true,
        };
        proof {
            law_matching(infos, archetypes, shape, archetypes.len(), 0);
            assert(q.ranges@ =~= Seq::<(usize, usize, usize)>::empty());
        }
        q
    }

    /// A query over some archetypes, and some rows of them. The shape need not take all of them.
    pub fn from_sub_world(
        world: &'w World,
        shape: Shape,
        last_run: Tick,
        places: &'s [usize],
        ranges: &'s [(usize, usize, usize)],
    ) -> (q: Query<'w, 's>)
        requires
            world.wf(),
            !self_alias(world@.registry.infos, shape),
            forall|k: int|
                0 <= k < places@.len() ==> #[trigger] places@[k] < world.store().archetypes.len(),
        ensures
            q.wf(),
            q.subject() == *world,
            q@ == (QueryState {
                places: places@,
                ranges: ranges@,
                ..whole(*world, shape, last_run)
            }),
    {
        let mut all: IdList = IdList::new();
        shape.fill_ids(world.registry(), &mut all);
        assert(id_items(all) =~= ids(world@.registry.infos, shape));
        Query {
            world,
            shape,
            places: Places::Borrowed(places),
            ids: all,
            last_run,
            ranges,
            match_verified: false,
        }
    }

    /// A query over archetypes that the shape is known to take.
    pub fn from_state_parts(
        world: &'w World,
        shape: Shape,
        places: &'s [usize],
        last_run: Tick,
    ) -> (q: Query<'w, 's>)
        requires
            world.wf(),
            forall|k: int|
                0 <= k < places@.len() ==> #[trigger] places@[k] < world.store().archetypes.len()
                    && suits(
                    world@.registry.infos,
                    world.store().archetypes[places@[k] as int],
                    shape,
                ),
        ensures
            q.wf(),
            q.subject() == *world,
            q@ == (QueryState { places: places@, ..whole(*world, shape, last_run) }),
    {
        let mut all: IdList = IdList::new();
        shape.fill_ids(world.registry(), &mut all);
        assert(id_items(all) =~= ids(world@.registry.infos, shape));
        let q = Query {
            world,
            shape,
            places: Places::Borrowed(places),
            ids: all,
            last_run,
            ranges: &[],
            match_verified: true,
        };
        assert(q.ranges@ =~= Seq::<(usize, usize, usize)>::empty());
        q
    }

    /// The rows of an archetype that are looked at: the first one, and the one behind the last.
    fn row_range(&self, place: usize) -> (r: (usize, usize))
        ensures
            r == range_of(self@.ranges, place, 0),
    {
        let mut i: usize = 0;
        while i < self.ranges.len()
            invariant
                i <= self.ranges@.len(),
                self@.ranges == self.ranges@,
                range_of(self.ranges@, place, 0) == range_of(self.ranges@, place, i as nat),
            decreases self.ranges.len() - i,
        {
            if self.ranges[i].0 == place {
                return (self.ranges[i].1, self.ranges[i].2);
            }
            i = i + 1;
        }
        (0, usize::MAX)
    }

    /// An archetype of the world.
    pub fn archetype(&self, place: usize) -> (arch: &'w Archetype)
        requires
            self.wf(),
            place < self@.archetypes.len(),
        ensures
            arch.wf(),
            arch@ == self@.archetypes[place as int],
            arch_ok(arch@, place as int, self@.infos),
    {
        proof {
            self.lemma_wf();
        }
        self.world.storage().archetype(place)
    }

    /// Whether the query takes a listed archetype.
    fn takes_listed(&self, arch: &Archetype, Ghost(k): Ghost<int>) -> (b: bool)
        requires
            self.wf(),
            arch.wf(),
            0 <= k < self@.places.len(),
            arch@ == self@.archetypes[self@.places[k] as int],
        ensures
            b == takes_archetype(self@, self@.places[k]),
    {
        if self.match_verified {
            true
        } else {
            proof {
                self.shape.lemma_stands_at_start(self@.infos);
            }
            self.shape.matches_at(Ghost(self@.infos), arch, self.ids.as_slice(), 0)
        }
    }

    /// Whether the query takes a row of an archetype that it takes.
    pub(crate) fn takes_row_of(&self, arch: &Archetype, row: usize, Ghost(place): Ghost<usize>) -> (b: bool)
        requires
            self.wf(),
            arch.wf(),
            filled(arch@),
            place < self@.archetypes.len(),
            arch@ == self@.archetypes[place as int],
            takes_archetype(self@, place),
            row < arch@.entities.len(),
        ensures
            b == takes_row(self@, place, row),
    {
        proof {
            self.shape.lemma_stands_at_start(self@.infos);
        }
        self.shape.passes_at(
            Ghost(self@.infos),
            arch,
            row,
            self.last_run,
            self.ids.as_slice(),
            0,
        )
    }

    /// What the query hands out for a row.
    pub fn item_at(&self, place: usize, row: usize) -> (item: QueryItem<'w>)
        requires
            self.wf(),
            place < self@.archetypes.len(),
            row < self@.archetypes[place as int].entities.len(),
        ensures
            is_item(self@, (place, row), item),
    {
        let arch: &'w Archetype = self.archetype(place);
        let ghost infos = self@.infos;
        let access: Vec<(u32, bool)> = self.access();
        let ghost m = row_cells(arch@, row as int);
        let ghost want = item_values(infos, m, self.shape);
        let mut values: Vec<Option<&'w [u8]>> = Vec::new();
        let mut i: usize = 0;
        while i < access.len()
            invariant
                i <= access@.len() == want.len(),
                values@.len() == i,
                arch.wf(),
                arch_wf(arch@),
                filled(arch@),
                row < arch@.entities.len(),
                m == row_cells(arch@, row as int),
                want == item_values(infos, m, self.shape),
                access@ == data_access(infos, self.shape),
                values_are(values@, want.subrange(0, i as int)),
            decreases access.len() - i,
        {
            let id: ComponentId = ComponentId(access[i].0);
            assert(m.contains_key(id.0) <==> arch@.ids.contains(id.0));
            let value: Option<&'w [u8]> = arch.get_component(row, id);
            let ghost before = values@;
            values.push(value);
            i = i + 1;
            proof {
                assert forall|k: int| 0 <= k < values@.len() implies match (
                    #[trigger] values@[k],
                    want.subrange(0, i as int)[k],
                ) {
                    (Some(v), Some(w)) => v@ == w,
                    (None, None) => true,
                    _ => false,
                } by {
                    if k < before.len() {
                        assert(values@[k] == before[k]);
                        assert(want.subrange(0, i - 1)[k] == want.subrange(0, i as int)[k]);
                    }
                }
            }
        }
        assert(want.subrange(0, want.len() as int) =~= want);
        QueryItem { entity: arch.entities()[row], values }
    }
}

/// Walks over the rows that a query takes, in order.
pub struct QueryIter<'q, 'w, 's> {
    query: &'q Query<'w, 's>,
    /// How many listed archetypes have been entered or skipped.
    next_place: usize,
    /// The archetype whose rows are walked.
    place: usize,
    row: usize,
    row_end: usize,
}

impl<'q, 'w, 's> QueryIter<'q, 'w, 's> {
    /// The iterator's invariant.
    pub closed spec fn wf(&self) -> bool {
        &&& self.query.wf()
        &&& self.next_place <= self.query@.places.len()
        &&& self.row < self.row_end ==> {
            &&& self.place < self.query@.archetypes.len()
            &&& takes_archetype(self.query@, self.place)
            &&& self.row_end <= self.query@.archetypes[self.place as int].entities.len()
        }
    }

    /// State of the query that is walked.
    pub closed spec fn state(&self) -> QueryState {
        self.query@
    }

    /// The rows that are still to come.
    pub closed spec fn remaining(&self) -> Seq<(usize, usize)> {
        rows_from(self.query@, self.place, self.row as int, self.row_end as int) + hits_from(
            self.query@,
            self.next_place as nat,
        )
    }

    /// Enters the next archetype that has rows to look at. False where there is none.
    fn advance_archetype(&mut self) -> (found: bool)
        requires
            old(self).wf(),
            old(self).row >= old(self).row_end,
        ensures
            final(self).wf(),
            final(self).query == old(self).query,
            final(self).remaining() == old(self).remaining(),
            found ==> final(self).row < final(self).row_end && final(self).next_place > old(
                self,
            ).next_place,
            !found ==> final(self).remaining().len() == 0 && final(self).row >= final(self).row_end,
    {
        let ghost q = self.query@;
        let ghost rest = self.remaining();
        let places: &[usize] = self.query.places.as_slice();
        while self.next_place < places.len()
            invariant
                self.wf(),
                self.query == old(self).query,
                self.query@ == q,
                places@ == q.places,
                self.row >= self.row_end,
                self.next_place >= old(self).next_place,
                rest == hits_from(q, self.next_place as nat),
                rest == old(self).remaining(),
            decreases places.len() - self.next_place,
        {
            let ghost k = self.next_place as int;
            let place: usize = places[self.next_place];
            let arch: &Archetype = self.query.archetype(place);
            let (start, stop) = self.query.row_range(place);
            let len: usize = arch.len();
            let end: usize = if stop <= len {
                stop
            } else {
                len
            };
            assert(q.places[k] == place);
            assert(rest == hits_in(q, place) + hits_from(q, (k + 1) as nat));
            self.next_place = self.next_place + 1;
            if !self.query.takes_listed(arch, Ghost(k)) || end <= start {
                assert(hits_in(q, place) =~= Seq::empty());
                assert(rest =~= hits_from(q, self.next_place as nat));
                continue ;
            }
            self.place = place;
            self.row = start;
            self.row_end = end;
            return true;
        }
        assert(self.remaining() =~= Seq::empty());
        assert(rest =~= Seq::empty());
        false
    }

    /// The place and row of the next match.
    pub fn next_row(&mut self) -> (hit: Option<(usize, usize)>)
        requires
            old(self).wf(),
        ensures
            final(self).wf(),
            final(self).state() == old(self).state(),
            old(self).remaining().len() == 0 ==> hit is None && final(self).remaining().len() == 0,
            old(self).remaining().len() > 0 ==> {
                &&& hit == Some(old(self).remaining()[0])
                &&& final(self).remaining() == old(self).remaining().drop_first()
            },
    {
        let ghost q = self.query@;
        let ghost rest = self.remaining();
        loop
            invariant
                self.wf(),
                self.query == old(self).query,
                self.query@ == q,
                self.remaining() == rest,
                rest == old(self).remaining(),
            decreases q.places.len() - self.next_place, self.row_end - self.row,
        {
            if self.row >= self.row_end {
                if !self.advance_archetype() {
                    return None;
                }
            } else {
                let row: usize = self.row;
                let ghost tail = rows_from(q, self.place, row as int + 1, self.row_end as int);
                let ghost later = hits_from(q, self.next_place as nat);
                self.row = row + 1;
                let arch: &Archetype = self.query.archetype(self.place);
                if self.query.takes_row_of(arch, row, Ghost(self.place)) {
                    proof {
                        let head = seq![(self.place, row)];
                        assert(rest == (head + tail) + later);
                        assert(rest[0] == (self.place, row));
                        assert(rest.drop_first() =~= tail + later);
                    }
                    return Some((self.place, row));
                }
            }
        }
    }

    /// The next match.
    pub fn next(&mut self) -> (item: Option<QueryItem<'w>>)
        requires
            old(self).wf(),
        ensures
            final(self).wf(),
            final(self).state() == old(self).state(),
            old(self).remaining().len() == 0 ==> item is None && final(self).remaining().len() == 0,
            old(self).remaining().len() > 0 ==> {
                &&& item is Some
                &&& is_item(old(self).state(), old(self).remaining()[0], item->0)
                &&& final(self).remaining() == old(self).remaining().drop_first()
            },
    {
        proof {
            self.lemma_remaining();
        }
        match self.next_row() {
            Some((place, row)) => Some(self.query.item_at(place, row)),
            None => None,
        }
    }

    proof fn lemma_remaining(&self)
        requires
            self.wf(),
        ensures
            forall|i: int|
                0 <= i < self.remaining().len() ==> (#[trigger] self.remaining()[i]).0
                    < self.query@.archetypes.len() && self.remaining()[i].1
                    < self.query@.archetypes[self.remaining()[i].0 as int].entities.len(),
    {
        let q = self.query@;
        let a = rows_from(q, self.place, self.row as int, self.row_end as int);
        let b = hits_from(q, self.next_place as nat);
        assert forall|i: int| 0 <= i < self.remaining().len() implies (
        #[trigger] self.remaining()[i]).0 < q.archetypes.len() && self.remaining()[i].1
            < q.archetypes[self.remaining()[i].0 as int].entities.len() by {
            let (p, r) = self.remaining()[i];
            if i < a.len() {
                assert(a[i] == (p, r));
                assert(a.contains((p, r)));
                lemma_rows_from(q, self.place, self.row as int, self.row_end as int, p, r);
            } else {
                assert(b[i - a.len()] == (p, r));
                assert(b.contains((p, r)));
                lemma_hits_from(q, self.next_place as nat, p, r);
                let k = choose|k: int|
                    self.next_place <= k < q.places.len() && #[trigger] q.places[k] == p;
                assert(q.places[k] < q.archetypes.len());
            }
        }
    }
}

/// Number of rows of the first `n` archetypes of a list.
pub open spec fn rows_listed(q: QueryState, n: nat) -> nat
    decreases n,
{
    if n == 0 {
        0
    } else {
        rows_listed(q, (n - 1) as nat) + q.archetypes[q.places[n - 1] as int].entities.len()
    }
}

proof fn lemma_rows_full(q: QueryState, place: usize, row: int, end: int)
    requires
        0 <= row <= end <= usize::MAX,
        forall|r: usize| #[trigger] takes_row(q, place, r),
    ensures
        rows_from(q, place, row, end).len() == end - row,
    decreases end - row,
{
    if row < end {
        assert(takes_row(q, place, row as usize));
        lemma_rows_full(q, place, row + 1, end);
    }
}

/// Without a row filter and without ranges every row of a taken archetype is a match.
proof fn lemma_all_rows(q: QueryState, k: nat)
    requires
        !has_row_filter(q.shape),
        q.ranges.len() == 0,
        forall|i: int| 0 <= i < q.places.len() ==> takes_archetype(q, #[trigger] q.places[i]),
        forall|i: int|
            0 <= i < q.places.len() ==> q.archetypes[(#[trigger] q.places[i]) as int].entities.len()
                <= usize::MAX,
        k <= q.places.len(),
    ensures
        hits_from(q, k).len() + rows_listed(q, k) == rows_listed(q, q.places.len()),
    decreases q.places.len() - k,
{
    if k < q.places.len() {
        lemma_all_rows(q, k + 1);
        let place = q.places[k as int];
        assert(takes_archetype(q, place));
        assert forall|r: usize| #[trigger] takes_row(q, place, r) by {
            law_unfiltered_shapes_take_every_row(
                q.infos,
                q.archetypes[place as int],
                r as int,
                q.last_run,
                q.shape,
            );
        }
        lemma_rows_full(q, place, 0, rows_end(q, place) as int);
        assert(hits_in(q, place).len() == q.archetypes[place as int].entities.len());
    }
}

impl<'w, 's> Query<'w, 's> {
    /// Walks over the matches in order.
    pub fn iter<'q>(&'q self) -> (it: QueryIter<'q, 'w, 's>)
        requires
            self.wf(),
        ensures
            it.wf(),
            it.state() == self@,
            it.remaining() == hits(self@),
    {
        let it = QueryIter { query: self, next_place: 0, place: 0, row: 0, row_end: 0 };
        assert(it.remaining() =~= hits(self@));
        it
    }

    /// The places and rows of all matches in order.
    pub fn rows(&self) -> (list: Vec<(usize, usize)>)
        requires
            self.wf(),
        ensures
            list@ == hits(self@),
    {
        let mut list: Vec<(usize, usize)> = Vec::new();
        let mut it = self.iter();
        let ghost all = hits(self@);
        loop
            invariant
                it.wf(),
                it.state() == self@,
                all == hits(self@),
                list@ + it.remaining() =~= all,
            decreases it.remaining().len(),
        {
            let ghost rest = it.remaining();
            match it.next_row() {
                Some(hit) => {
                    list.push(hit);
                },
                None => {
                    return list;
                },
            }
        }
    }

    /// What the query hands out for an entity, if the query takes it.
    pub fn get(&self, entity: Entity) -> (item: Option<QueryItem<'w>>)
        requires
            self.wf(),
        ensures
            match location_of(self.subject().store().entities, entity) {
                Some(loc) => {
                    &&& item is Some <==> covers(
                        self@,
                        loc.archetype_id.0 as usize,
                        loc.row as usize,
                    )
                    &&& item is Some ==> is_item(
                        self@,
                        (loc.archetype_id.0 as usize, loc.row as usize),
                        item->0,
                    )
                },
                None => item is None,
            },
    {
        proof {
            self.lemma_wf();
        }
        match self.world.location(entity) {
            Some(loc) => {
                let place: usize = loc.archetype_id.0 as usize;
                let row: usize = loc.row as usize;
                let places: &[usize] = self.places.as_slice();
                match place_in(places, place) {
                    Some(k) => {
                        let arch: &Archetype = self.archetype(place);
                        if !self.takes_listed(arch, Ghost(k as int)) {
                            return None;
                        }
                        let (start, stop) = self.row_range(place);
                        if row < start || row >= stop || row >= arch.len() {
                            return None;
                        }
                        if self.takes_row_of(arch, row, Ghost(place)) {
                            Some(self.item_at(place, row))
                        } else {
                            None
                        }
                    },
                    None => None,
                }
            },
            None => None,
        }
    }

    /// What the query hands out for its only match.
    pub fn single(&self) -> (r: Result<QueryItem<'w>, QuerySingleError>)
        requires
            self.wf(),
        ensures
            match r {
                Ok(item) => hits(self@).len() == 1 && is_item(self@, hits(self@)[0], item),
                Err(QuerySingleError::NoEntities) => hits(self@).len() == 0,
                Err(QuerySingleError::MultipleEntities) => hits(self@).len() > 1,
            },
    {
        let mut it = self.iter();
        match it.next() {
            None => Err(QuerySingleError::NoEntities),
            Some(first) => match it.next_row() {
                Some(_) => Err(QuerySingleError::MultipleEntities),
                None => Ok(first),
            },
        }
    }

    /// The entity of the only match, and what the query hands out for it.
    pub fn single_inner(self) -> (r: Result<(Entity, QueryItem<'w>), QuerySingleError>)
        requires
            self.wf(),
        ensures
            match r {
                Ok((entity, item)) => hits(self@).len() == 1 && entity == entity_at(
                    self@,
                    hits(self@)[0],
                ) && is_item(self@, hits(self@)[0], item),
                Err(QuerySingleError::NoEntities) => hits(self@).len() == 0,
                Err(QuerySingleError::MultipleEntities) => hits(self@).len() > 1,
            },
    {
        match self.single() {
            Ok(item) => Ok((item.entity, item)),
            Err(e) => Err(e),
        }
    }

    /// Number of matches.
    pub fn len(&self) -> (n: usize)
        requires
            self.wf(),
            hits(self@).len() <= usize::MAX,
        ensures
            n == hits(self@).len(),
    {
        let ghost q = self@;
        proof {
            self.lemma_wf();
            self.lemma_lens();
        }
        if self.match_verified && self.ranges.len() == 0 && !self.shape.has_row_filter() {
            proof {
                lemma_all_rows(q, 0);
            }
            let places: &[usize] = self.places.as_slice();
            let mut n: usize = 0;
            let mut i: usize = 0;
            while i < places.len()
                invariant
                    i <= places@.len(),
                    self.wf(),
                    q == self@,
                    places@ == q.places,
                    rows_listed(q, q.places.len()) <= usize::MAX,
                    n == rows_listed(q, i as nat),
                decreases places.len() - i,
            {
                proof {
                    lemma_listed(q, (i + 1) as nat);
                    assert(q.places[i as int] < q.archetypes.len());
                }
                n = n + self.archetype(places[i]).len();
                i = i + 1;
            }
            return n;
        }
        let mut it = self.iter();
        let mut n: usize = 0;
        loop
            invariant
                it.wf(),
                q == self@,
                it.state() == q,
                n + it.remaining().len() == hits(q).len(),
                hits(q).len() <= usize::MAX,
            decreases it.remaining().len(),
        {
            match it.next_row() {
                Some(_) => {
                    n = n + 1;
                },
                None => {
                    return n;
                },
            }
        }
    }

    /// Whether there is no match.
    pub fn is_empty(&self) -> (b: bool)
        requires
            self.wf(),
        ensures
            b == (hits(self@).len() == 0),
    {
        let ghost q = self@;
        proof {
            self.lemma_wf();
            self.lemma_lens();
        }
        if self.match_verified && self.ranges.len() == 0 && !self.shape.has_row_filter() {
            proof {
                lemma_all_rows(q, 0);
            }
            let places: &[usize] = self.places.as_slice();
            let mut i: usize = 0;
            while i < places.len()
                invariant
                    i <= places@.len(),
                    self.wf(),
                    q == self@,
                    places@ == q.places,
                    rows_listed(q, i as nat) == 0,
                    hits(q).len() == rows_listed(q, q.places.len()),
                decreases places.len() - i,
            {
                proof {
                    assert(q.places[i as int] < q.archetypes.len());
                }
                if !self.archetype(places[i]).is_empty() {
                    proof {
                        lemma_listed(q, (i + 1) as nat);
                    }
                    return false;
                }
                i = i + 1;
            }
            return true;
        }
        self.iter().next_row().is_none()
    }

    /// No archetype has more rows than a machine word counts.
    proof fn lemma_lens(&self)
        requires
            self.wf(),
        ensures
            forall|i: int|
                0 <= i < self@.places.len() ==> self@.archetypes[(
                #[trigger] self@.places[i]) as int].entities.len() <= usize::MAX,
    {
        let s = self.subject().store();
        self.lemma_wf();
        assert forall|i: int| 0 <= i < self@.places.len() implies self@.archetypes[(
        #[trigger] self@.places[i]) as int].entities.len() <= usize::MAX by {
            crate::storage::lemma_rows_fit(s, self@.infos, self@.places[i] as int);
        }
    }
}

proof fn lemma_listed(q: QueryState, n: nat)
    requires
        n <= q.places.len(),
    ensures
        rows_listed(q, n) <= rows_listed(q, q.places.len()),
    decreases q.places.len() - n,
{
    if n < q.places.len() {
        lemma_listed(q, n + 1);
    }
}

/// Where `place` stands in a list.
fn place_in(list: &[usize], place: usize) -> (k: Option<usize>)
    ensures
        k is Some <==> list@.contains(place),
        k matches Some(i) ==> i < list@.len() && list@[i as int] == place,
{
    let mut i: usize = 0;
    while i < list.len()
        invariant
            i <= list@.len(),
            forall|j: int| 0 <= j < i ==> list@[j] != place,
        decreases list.len() - i,
    {
        if list[i] == place {
            return Some(i);
        }
        i = i + 1;
    }
    None
}

impl<'w, 's> Query<'w, 's> {
    /// Places of the archetypes to look at, in order.
    pub fn listed(&self) -> (places: &[usize])
        ensures
            places@ == self@.places,
    {
        self.places.as_slice()
    }

    /// The components that the query hands out, in order, and whether for writing.
    pub fn access(&self) -> (list: Vec<(u32, bool)>)
        requires
            self.wf(),
        ensures
            list@ == data_access(self@.infos, self@.shape),
    {
        let mut list: Vec<(u32, bool)> = Vec::new();
        self.shape.fill_data_access(self.world.registry(), &mut list);
        assert(list@ =~= data_access(self@.infos, self@.shape));
        list
    }

    /// The rows to look at in a listed archetype, if the query takes it and there are any.
    pub fn span_at(&self, i: usize) -> (span: Option<(usize, usize)>)
        requires
            self.wf(),
            i < self@.places.len(),
        ensures
            span == {
                let place = self@.places[i as int];
                if takes_archetype(self@, place) && first_row(self@, place) < rows_end(
                    self@,
                    place,
                ) {
                    Some((first_row(self@, place), rows_end(self@, place)))
                } else {
                    None
                }
            },
    {
        let place: usize = self.places.as_slice()[i];
        let arch: &Archetype = self.archetype(place);
        let (start, stop) = self.row_range(place);
        let len: usize = arch.len();
        let end: usize = if stop <= len {
            stop
        } else {
            len
        };
        if start < end && self.takes_listed(arch, Ghost(i as int)) {
            Some((start, end))
        } else {
            None
        }
    }
}

impl<'w, 's> Query<'w, 's> {
    /// Whether the shape takes an archetype, listed or not.
    pub fn takes_place(&self, place: usize) -> (b: bool)
        requires
            self.wf(),
            place < self@.archetypes.len(),
        ensures
            b == takes_archetype(self@, place),
    {
        proof {
            self.shape.lemma_stands_at_start(self@.infos);
        }
        self.shape.matches_at(
            Ghost(self@.infos),
            self.archetype(place),
            self.ids.as_slice(),
            0,
        )
    }

    /// Whether the shape takes a row of an archetype that it takes.
    pub fn takes_row_at(&self, place: usize, row: usize) -> (b: bool)
        requires
            self.wf(),
            place < self@.archetypes.len(),
            takes_archetype(self@, place),
            row < self@.archetypes[place as int].entities.len(),
        ensures
            b == takes_row(self@, place, row),
    {
        self.takes_row_of(self.archetype(place), row, Ghost(place))
    }
}

/// What is said of a shape that would hand out a component twice, with the name of the component.
pub open spec fn alias_text(name: Seq<char>) -> Seq<char> {
    "Query aliases component `"@ + name
        + "`: it is accessed mutably more than once (or both mutably and immutably) within a single query (e.g. `Query<(&mut "@
        + name + ", &mut "@ + name
        + ")>` or `(Read, Write)` of the same component). This would create aliasing references to one row. Access each component at most once per query, or split into separate queries."@
}

/// Why a query of this shape must not be made, if it must not.
pub fn assert_no_self_alias(registry: &ComponentRegistry, shape: &Shape) -> (fault: Option<String>)
    requires
        registry.wf(),
    ensures
        fault is Some <==> self_alias(registry@.infos, *shape),
        fault matches Some(text) ==> exists|i: int, j: int|
            #[trigger] aliased(data_access(registry@.infos, *shape), i, j) && text@ == alias_text(
                name_of(registry@.infos, data_access(registry@.infos, *shape)[i].0),
            ) && forall|k: int, l: int|
                0 <= k < i ==> !#[trigger] aliased(data_access(registry@.infos, *shape), k, l),
{
    match find_self_alias(registry, shape) {
        None => None,
        Some(id) => {
            let name: &str = match registry.get_info(id) {
                Some(info) => info.name.as_str(),
                None => "<component>",
            };
            let mut text: String = "Query aliases component `".to_owned();
            text.append(name);
            text.append(
                "`: it is accessed mutably more than once (or both mutably and immutably) within a single query (e.g. `Query<(&mut ",
            );
            text.append(name);
            text.append(", &mut ");
            text.append(name);
            text.append(
                ")>` or `(Read, Write)` of the same component). This would create aliasing references to one row. Access each component at most once per query, or split into separate queries.",
            );
            Some(text)
        },
    }
}

/// Name of a component type; a stand-in where it is not registered.
pub open spec fn name_of(infos: Seq<InfoView>, id: u32) -> Seq<char> {
    if id < infos.len() {
        infos[id as int].name
    } else {
        "<component>"@
    }
}

/// The only match of a query.
pub struct Single<'w> {
    entity: Entity,
    item: QueryItem<'w>,
}

impl<'w> Single<'w> {
    /// The entity.
    pub closed spec fn spec_entity(&self) -> Entity {
        self.entity
    }

    /// What the query hands out for it.
    pub closed spec fn spec_item(&self) -> QueryItem<'w> {
        self.item
    }

    /// The only match of a query, if there is exactly one.
    pub fn of(query: Query<'w, '_>) -> (r: Result<Single<'w>, QuerySingleError>)
        requires
            query.wf(),
        ensures
            match r {
                Ok(single) => hits(query@).len() == 1 && single.spec_entity() == entity_at(
                    query@,
                    hits(query@)[0],
                ) && is_item(query@, hits(query@)[0], single.spec_item()),
                Err(QuerySingleError::NoEntities) => hits(query@).len() == 0,
                Err(QuerySingleError::MultipleEntities) => hits(query@).len() > 1,
            },
    {
        match query.single_inner() {
            Ok((entity, item)) => Ok(Single { entity, item }),
            Err(e) => Err(e),
        }
    }

    /// The entity.
    pub fn entity(&self) -> (e: Entity)
        ensures
            e == self.spec_entity(),
    {
        self.entity
    }

    /// What the query hands out for it.
    pub fn into_inner(self) -> (item: QueryItem<'w>)
        ensures
            item == self.spec_item(),
    {
        self.item
    }
}

} // verus!
