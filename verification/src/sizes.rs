//! Whether descriptions of component types agree on sizes, before anything is registered.

use vstd::prelude::*;
use crate::entity::{Entity, allocated};
use crate::registry::{
    ComponentDesc, ComponentInfo, agrees, desc_count, infos_agree, lemma_requires_upto,
    requires_agree, requires_count,
};
use crate::storage::{component_list, tables_with};
use crate::world::{
    Bundle, BundlePart, BundleState, World, after_spawn_bundle, bundle_cost, bundle_fits,
};

verus! {

/// Whether `sizes` has the sizes of `list`.
spec fn covers(sizes: Map<u64, usize>, list: Seq<(u64, usize)>) -> bool {
    forall|i: int|
        0 <= i < list.len() ==> sizes.contains_key((#[trigger] list[i]).0) && sizes[list[i].0]
            == list[i].1
}

/// Whether no type is listed twice.
spec fn distinct(list: Seq<(u64, usize)>) -> bool {
    forall|i: int, j: int|
        0 <= i < j < list.len() ==> (#[trigger] list[i]).0 != (#[trigger] list[j]).0
}

/// The sizes of `list` as a map.
spec fn as_map(list: Seq<(u64, usize)>) -> Map<u64, usize>
    decreases list.len(),
{
    if list.len() == 0 {
        Map::empty()
    } else {
        as_map(list.drop_last()).insert(list.last().0, list.last().1)
    }
}

proof fn lemma_as_map(list: Seq<(u64, usize)>)
    requires
        distinct(list),
    ensures
        covers(as_map(list), list),
    decreases list.len(),
{
    if list.len() > 0 {
        let head = list.drop_last();
        assert(distinct(head)) by {
            assert forall|i: int, j: int| 0 <= i < j < head.len() implies (#[trigger] head[i]).0 != (
            #[trigger] head[j]).0 by {
                assert(list[i].0 != list[j].0);
            }
        }
        lemma_as_map(head);
        assert forall|i: int| 0 <= i < list.len() implies as_map(list).contains_key(
            (#[trigger] list[i]).0,
        ) && as_map(list)[list[i].0] == list[i].1 by {
            if i < head.len() {
                assert(head[i] == list[i]);
                assert(list[i].0 != list[list.len() - 1].0);
            }
        }
    }
}

/// Whether `more` goes on from `list`.
spec fn prefix(list: Seq<(u64, usize)>, more: Seq<(u64, usize)>) -> bool {
    list.len() <= more.len() && forall|i: int| 0 <= i < list.len() ==> more[i] == list[i]
}

proof fn lemma_covers_prefix(
    sizes: Map<u64, usize>,
    list: Seq<(u64, usize)>,
    more: Seq<(u64, usize)>,
)
    requires
        prefix(list, more),
        covers(sizes, more),
    ensures
        covers(sizes, list),
{
    assert forall|i: int| 0 <= i < list.len() implies sizes.contains_key((#[trigger] list[i]).0)
        && sizes[list[i].0] == list[i].1 by {
        assert(more[i] == list[i]);
    }
}

/// Notes the size of a type. False where the type is noted with another size.
fn note(list: &mut Vec<(u64, usize)>, key: u64, size: usize) -> (ok: bool)
    requires
        distinct(old(list)@),
    ensures
        distinct(final(list)@),
        prefix(old(list)@, final(list)@),
        forall|sizes: Map<u64, usize>|
            ok && #[trigger] covers(sizes, old(list)@) && sizes.contains_key(key) && sizes[key]
                == size ==> covers(sizes, final(list)@),
        ok ==> forall|sizes: Map<u64, usize>| #[trigger]
            covers(sizes, final(list)@) ==> sizes.contains_key(key) && sizes[key] == size,
        !ok ==> forall|sizes: Map<u64, usize>| #[trigger]
            covers(sizes, old(list)@) ==> !(sizes.contains_key(key) && sizes[key] == size),
{
    let mut i: usize = 0;
    while i < list.len()
        invariant
            i <= list@.len(),
            list@ == old(list)@,
            distinct(list@),
            forall|k: int| 0 <= k < i ==> (#[trigger] list@[k]).0 != key,
        decreases list.len() - i,
    {
        if list[i].0 == key {
            let ok: bool = list[i].1 == size;
            proof {
                assert forall|sizes: Map<u64, usize>| #[trigger] covers(sizes, list@) implies (ok
                    ==> sizes.contains_key(key) && sizes[key] == size) && (!ok ==> !(
                sizes.contains_key(key) && sizes[key] == size)) by {
                    assert(sizes.contains_key(list@[i as int].0));
                }
            }
            return ok;
        }
        i = i + 1;
    }
    list.push((key, size));
    proof {
        let before = old(list)@;
        assert(list@ == before.push((key, size)));
        assert forall|sizes: Map<u64, usize>| #[trigger]
            covers(sizes, before) && sizes.contains_key(key) && sizes[key] == size implies covers(
            sizes,
            list@,
        ) by {
            assert forall|k: int| 0 <= k < list@.len() implies sizes.contains_key(
                (#[trigger] list@[k]).0,
            ) && sizes[list@[k].0] == list@[k].1 by {
                if k < before.len() {
                    assert(list@[k] == before[k]);
                }
            }
        }
        assert forall|sizes: Map<u64, usize>| #[trigger] covers(
            sizes,
            list@,
        ) implies sizes.contains_key(key) && sizes[key] == size by {
            assert(list@[before.len() as int] == (key, size));
        }
    }
    true
}

/// Notes the sizes of a description and what it requires. False where they contradict what is
/// noted.
fn note_desc(list: &mut Vec<(u64, usize)>, desc: &ComponentDesc) -> (ok: bool)
    requires
        distinct(old(list)@),
    ensures
        distinct(final(list)@),
        prefix(old(list)@, final(list)@),
        ok ==> forall|sizes: Map<u64, usize>| #[trigger]
            covers(sizes, final(list)@) <==> covers(sizes, old(list)@) && agrees(sizes, *desc),
        !ok ==> forall|sizes: Map<u64, usize>| #[trigger]
            covers(sizes, old(list)@) ==> !agrees(sizes, *desc),
    decreases *desc,
{
    let ghost before = list@;
    if !note(list, desc.key, desc.size) {
        return false;
    }
    let ghost first = list@;
    proof {
        assert forall|sizes: Map<u64, usize>| #[trigger] covers(sizes, first) <==> covers(
            sizes,
            before,
        ) && sizes.contains_key(desc.key) && sizes[desc.key] == desc.size by {
            if covers(sizes, first) {
                lemma_covers_prefix(sizes, before, first);
            }
        }
    }
    let mut i: usize = 0;
    while i < desc.requires.len()
        invariant
            i <= desc.requires@.len(),
            before == old(list)@,
            distinct(list@),
            prefix(before, list@),
            prefix(first, list@),
            forall|sizes: Map<u64, usize>| #[trigger]
                covers(sizes, list@) <==> covers(sizes, first) && requires_agree(
                    sizes,
                    *desc,
                    i as nat,
                ),
            forall|sizes: Map<u64, usize>| #[trigger]
                covers(sizes, first) <==> covers(sizes, before) && sizes.contains_key(desc.key)
                    && sizes[desc.key] == desc.size,
        decreases desc.requires.len() - i,
    {
        assert(decreases_to!(*desc => desc.requires@[i as int].component));
        let ghost mid = list@;
        if desc.requires[i].default.len() != desc.requires[i].component.size {
            proof {
                assert forall|sizes: Map<u64, usize>| #[trigger] covers(
                    sizes,
                    before,
                ) implies !agrees(sizes, *desc) by {
                    if agrees(sizes, *desc) {
                        lemma_requires_upto(sizes, *desc, (i + 1) as nat);
                    }
                }
            }
            return false;
        }
        if !note_desc(list, &desc.requires[i].component) {
            proof {
                assert forall|sizes: Map<u64, usize>| #[trigger] covers(
                    sizes,
                    before,
                ) implies !agrees(sizes, *desc) by {
                    if agrees(sizes, *desc) {
                        lemma_requires_upto(sizes, *desc, (i + 1) as nat);
                        assert(covers(sizes, first));
                        assert(covers(sizes, mid));
                        assert(agrees(sizes, desc.requires@[i as int].component));
                    }
                }
            }
            return false;
        }
        i = i + 1;
        proof {
            assert forall|sizes: Map<u64, usize>| #[trigger] covers(sizes, list@) <==> covers(
                sizes,
                first,
            ) && requires_agree(sizes, *desc, i as nat) by {
                assert(covers(sizes, mid) <==> covers(sizes, first) && requires_agree(
                    sizes,
                    *desc,
                    (i - 1) as nat,
                ));
                if covers(sizes, list@) {
                    lemma_covers_prefix(sizes, mid, list@);
                }
            }
        }
    }
    proof {
        assert forall|sizes: Map<u64, usize>| #[trigger] covers(sizes, list@) <==> covers(
            sizes,
            before,
        ) && agrees(sizes, *desc) by {
            assert(covers(sizes, first) <==> covers(sizes, before) && sizes.contains_key(desc.key)
                && sizes[desc.key] == desc.size);
        }
    }
    true
}

impl World {
    /// Whether the parts of a bundle can be written: each value has the size that its description
    /// tells, and no two descriptions, nor a description and a registered type, disagree on a size.
    pub fn bundle_suits(&self, bundle: &Bundle) -> (ok: bool)
        requires
            self.wf(),
        ensures
            ok <==> exists|sizes: Map<u64, usize>|
                #![trigger infos_agree(sizes, self@.registry.infos)]
                infos_agree(sizes, self@.registry.infos) && bundle_fits(sizes, bundle@),
    {
        let ghost infos = self@.registry.infos;
        let ghost b = bundle@;
        let known: &Vec<ComponentInfo> = self.registry().iter();
        let mut list: Vec<(u64, usize)> = Vec::new();
        let mut i: usize = 0;
        while i < known.len()
            invariant
                i <= known@.len() == infos.len(),
                infos == self@.registry.infos,
                forall|k: int| 0 <= k < infos.len() ==> (#[trigger] known@[k])@ == infos[k],
                distinct(list@),
                forall|sizes: Map<u64, usize>| #[trigger]
                    covers(sizes, list@) <==> infos_agree(
                        sizes,
                        infos.subrange(0, i as int),
                    ),
                b == bundle@,
            decreases known.len() - i,
        {
            let ghost mid = list@;
            assert(known@[i as int]@ == infos[i as int]);
            let same: bool = note(&mut list, known[i].key, known[i].size);
            proof {
                let head = infos.subrange(0, i as int);
                let more = infos.subrange(0, i + 1);
                assert(more =~= head.push(infos[i as int]));
                assert forall|sizes: Map<u64, usize>| infos_agree(sizes, more) <==> infos_agree(
                    sizes,
                    head,
                ) && sizes.contains_key(infos[i as int].key) && sizes[infos[i as int].key]
                    == infos[i as int].size by {
                    if infos_agree(sizes, more) {
                        assert forall|k: int| 0 <= k < head.len() implies sizes.contains_key(
                            (#[trigger] head[k]).key,
                        ) && sizes[head[k].key] == head[k].size by {
                            assert(more[k] == head[k]);
                        }
                        assert(more[i as int] == infos[i as int]);
                    }
                }
                if !same {
                    assert forall|sizes: Map<u64, usize>| #[trigger] infos_agree(
                        sizes,
                        infos,
                    ) implies false by {
                        assert(infos_agree(sizes, more)) by {
                            assert forall|k: int| 0 <= k < more.len() implies sizes.contains_key(
                                (#[trigger] more[k]).key,
                            ) && sizes[more[k].key] == more[k].size by {
                                assert(infos[k] == more[k]);
                            }
                        }
                        assert(covers(sizes, mid));
                    }
                } else {
                    assert forall|sizes: Map<u64, usize>| #[trigger] covers(
                        sizes,
                        list@,
                    ) <==> infos_agree(sizes, more) by {
                        if covers(sizes, list@) {
                            lemma_covers_prefix(sizes, mid, list@);
                        }
                        if infos_agree(sizes, more) {
                            assert(covers(sizes, mid));
                        }
                    }
                }
            }
            if !same {
                return false;
            }
            i = i + 1;
        }
        assert(infos.subrange(0, infos.len() as int) =~= infos);
        let ghost start = list@;
        let mut k: usize = 0;
        while k < bundle.parts.len()
            invariant
                k <= bundle.parts@.len() == b.len(),
                infos == self@.registry.infos,
                b == bundle@,
                distinct(list@),
                forall|sizes: Map<u64, usize>| #[trigger]
                    covers(sizes, list@) <==> infos_agree(sizes, infos) && bundle_fits(
                        sizes,
                        b.subrange(0, k as int),
                    ),
            decreases bundle.parts.len() - k,
        {
            let ghost mid = list@;
            let part: &BundlePart = &bundle.parts[k];
            assert(b[k as int] == (BundleState { desc: part.desc, value: part.value@ }));
            if part.value.len() != part.desc.size {
                assert forall|sizes: Map<u64, usize>| #[trigger] infos_agree(
                    sizes,
                    infos,
                ) implies !bundle_fits(sizes, b) by {
                    if bundle_fits(sizes, b) {
                        assert(b[k as int].value.len() == b[k as int].desc.size);
                    }
                }
                return false;
            }
            let same: bool = note_desc(&mut list, &part.desc);
            proof {
                let head = b.subrange(0, k as int);
                let more = b.subrange(0, k + 1);
                assert forall|sizes: Map<u64, usize>| bundle_fits(sizes, more) <==> bundle_fits(
                    sizes,
                    head,
                ) && agrees(sizes, part.desc) by {
                    if bundle_fits(sizes, more) {
                        assert forall|m: int| 0 <= m < head.len() implies agrees(
                            sizes,
                            (#[trigger] head[m]).desc,
                        ) && head[m].value.len() == head[m].desc.size by {
                            assert(more[m] == head[m]);
                        }
                        assert(more[k as int] == b[k as int]);
                    }
                    if bundle_fits(sizes, head) && agrees(sizes, part.desc) {
                        assert forall|m: int| 0 <= m < more.len() implies agrees(
                            sizes,
                            (#[trigger] more[m]).desc,
                        ) && more[m].value.len() == more[m].desc.size by {
                            if m < head.len() {
                                assert(more[m] == head[m]);
                            }
                        }
                    }
                }
                if !same {
                    assert forall|sizes: Map<u64, usize>| #[trigger] infos_agree(
                        sizes,
                        infos,
                    ) implies !bundle_fits(sizes, b) by {
                        if bundle_fits(sizes, b) {
                            assert(bundle_fits(sizes, more)) by {
                                assert forall|m: int| 0 <= m < more.len() implies agrees(
                                    sizes,
                                    (#[trigger] more[m]).desc,
                                ) && more[m].value.len() == more[m].desc.size by {
                                    assert(b[m] == more[m]);
                                }
                            }
                            assert(covers(sizes, mid));
                        }
                    }
                }
            }
            if !same {
                return false;
            }
            k = k + 1;
        }
        assert(b.subrange(0, b.len() as int) =~= b);
        proof {
            lemma_as_map(list@);
            assert(covers(as_map(list@), list@));
            assert(infos_agree(as_map(list@), infos));
        }
        true
    }
}

/// Number of types that a description names, unless it is beyond what a machine word counts.
pub fn desc_cost(desc: &ComponentDesc) -> (n: Option<usize>)
    ensures
        match n {
            Some(k) => k == desc_count(*desc),
            None => desc_count(*desc) > usize::MAX,
        },
    decreases *desc,
{
    let mut n: usize = 0;
    let mut i: usize = 0;
    while i < desc.requires.len()
        invariant
            i <= desc.requires@.len(),
            n == requires_count(*desc, i as nat),
        decreases desc.requires.len() - i,
    {
        assert(decreases_to!(*desc => desc.requires@[i as int].component));
        proof {
            lemma_requires_count(*desc, (i + 1) as nat);
        }
        match desc_cost(&desc.requires[i].component) {
            Some(k) => match n.checked_add(k) {
                Some(m) => {
                    n = m;
                },
                None => {
                    return None;
                },
            },
            None => {
                return None;
            },
        }
        i = i + 1;
    }
    n.checked_add(1)
}

proof fn lemma_requires_count(d: ComponentDesc, n: nat)
    requires
        n <= d.requires@.len(),
    ensures
        requires_count(d, n) <= requires_count(d, d.requires@.len()),
    decreases d.requires@.len() - n,
{
    if n < d.requires@.len() {
        lemma_requires_count(d, n + 1);
    }
}

pub proof fn lemma_bundle_cost(b: Seq<BundleState>, n: nat)
    requires
        n <= b.len(),
    ensures
        bundle_cost(b, n) <= bundle_cost(b, b.len()),
    decreases b.len() - n,
{
    if n < b.len() {
        lemma_bundle_cost(b, n + 1);
    }
}

/// Number of types that the parts of a bundle name, unless it is beyond what a machine word counts.
fn cost_of(bundle: &Bundle) -> (n: Option<usize>)
    ensures
        match n {
            Some(k) => k == bundle_cost(bundle@, bundle@.len()),
            None => bundle_cost(bundle@, bundle@.len()) > usize::MAX,
        },
{
    let ghost b = bundle@;
    let mut n: usize = 0;
    let mut i: usize = 0;
    while i < bundle.parts.len()
        invariant
            i <= bundle.parts@.len() == b.len(),
            b == bundle@,
            n == bundle_cost(b, i as nat),
        decreases bundle.parts.len() - i,
    {
        proof {
            lemma_bundle_cost(b, (i + 1) as nat);
            assert(b[i as int].desc == bundle.parts@[i as int].desc);
        }
        match desc_cost(&bundle.parts[i].desc) {
            Some(k) => match n.checked_add(k) {
                Some(m) => {
                    n = m;
                },
                None => {
                    return None;
                },
            },
            None => {
                return None;
            },
        }
        i = i + 1;
    }
    Some(n)
}

impl World {
    /// Whether an entity can be spawned with a bundle: there is room, and the sizes agree.
    pub open spec fn can_spawn(&self, bundle: Seq<BundleState>) -> bool {
        &&& self.room(bundle_cost(bundle, bundle.len()) + 1)
        &&& exists|sizes: Map<u64, usize>|
            #![trigger infos_agree(sizes, self@.registry.infos)]
            infos_agree(sizes, self@.registry.infos) && bundle_fits(sizes, bundle)
    }

    /// Spawns an entity with the components of a bundle, if there is room and the sizes agree.
    pub fn try_spawn(&mut self, bundle: &Bundle) -> (e: Option<Entity>)
        requires
            old(self).wf(),
        ensures
            final(self).wf(),
            e is Some <==> old(self).can_spawn(bundle@),
            e is None ==> *final(self) == *old(self),
            e matches Some(x) ==> x == allocated(old(self)@.entities, 1)[0] && final(self)@
                == after_spawn_bundle(old(self)@, bundle@) && final(self).layout() == tables_with(
                old(self).layout(),
                x,
                component_list(final(self)@.values[x]),
            ),
    {
        let cost: usize = match cost_of(bundle) {
            Some(n) => n,
            None => {
                proof {
                    self.lemma_small_room(bundle_cost(bundle@, bundle@.len()) + 1);
                }
                return None;
            },
        };
        let total: usize = match cost.checked_add(1) {
            Some(n) => n,
            None => {
                proof {
                    self.lemma_small_room(bundle_cost(bundle@, bundle@.len()) + 1);
                }
                return None;
            },
        };
        if !self.has_room(total) || !self.bundle_suits(bundle) {
            return None;
        }
        Some(self.spawn(bundle))
    }
}

} // verus!
