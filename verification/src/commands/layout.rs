//! Where entities lie after commands: the order of the rows of each archetype, and the order in
//! which archetypes came up.

use vstd::prelude::*;
use crate::entity::Entity;
use crate::storage::{Table, component_list, tables_with};
use crate::world::{
    BundleState, WorldState, settled, spawned_as, tables_after_despawns,
    tables_after_spawns,
};
use super::{
    CommandState, after_command, after_commands, goes_with, insert_ladder, lemma_commands_prefix,
    lemma_run_end_grows, lemma_run_split, lemma_spawn_all, run_end, writes_to,
};

verus! {

/// The layout after one command by itself.
pub open spec fn tables_after_command(t: Seq<Table>, w: WorldState, c: CommandState) -> Seq<Table> {
    let now = after_command(w, c);
    match c {
        CommandState::Spawn { entity, bundle } => {
            let e = spawned_as(w, entity);
            tables_with(t, e, component_list(now.values[e]))
        },
        CommandState::Insert { entity, part } => settled(t, now, entity),
        CommandState::InsertRaw { entity, part } => settled(t, now, entity),
        CommandState::Remove { entity, id } => settled(t, now, entity),
        CommandState::RemoveTyped { entity, key } => settled(t, now, entity),
        CommandState::Despawn { entity } => tables_after_despawns(t, w, seq![entity]),
        _ => t,
    }
}

/// The layout after the first `n` commands, each by itself.
pub open spec fn tables_after(
    t: Seq<Table>,
    w: WorldState,
    cmds: Seq<CommandState>,
    n: nat,
) -> Seq<Table>
    decreases n,
{
    if n == 0 {
        t
    } else {
        tables_after_command(
            tables_after(t, w, cmds, (n - 1) as nat),
            after_commands(w, cmds, (n - 1) as nat),
            cmds[n - 1],
        )
    }
}

/// Place behind the group that starts at command `i`: commands in a row that write to one entity
/// are a group.
pub open spec fn group_end(cmds: Seq<CommandState>, i: nat) -> nat {
    if writes_to(cmds[i as int]) is Some {
        run_end(cmds, i, i + 1)
    } else {
        i + 1
    }
}

/// The layout after the commands from `i` to `k`: in each group the entity moves once, to the
/// archetype of what it has in the end.
pub open spec fn tables_between(
    t: Seq<Table>,
    w: WorldState,
    cmds: Seq<CommandState>,
    i: nat,
    k: nat,
) -> Seq<Table>
    decreases k - i,
{
    if i >= k {
        t
    } else {
        let j = group_end(cmds, i);
        if i + 1 < j <= k {
            tables_between(
                settled(t, after_commands(w, cmds, j), writes_to(cmds[i as int])->0),
                w,
                cmds,
                j,
                k,
            )
        } else {
            tables_between(
                tables_after_command(t, after_commands(w, cmds, i), cmds[i as int]),
                w,
                cmds,
                i + 1,
                k,
            )
        }
    }
}

pub(crate) proof fn lemma_run_end(cmds: Seq<CommandState>, i: nat, j: nat, end: nat)
    requires
        i < cmds.len(),
        j <= end <= cmds.len(),
        forall|k: int| j <= k < end ==> goes_with(cmds[i as int], #[trigger] cmds[k]),
        end < cmds.len() ==> !goes_with(cmds[i as int], cmds[end as int]),
    ensures
        run_end(cmds, i, j) == end,
    decreases end - j,
{
    if j < end {
        assert(goes_with(cmds[i as int], cmds[j as int]));
        lemma_run_end(cmds, i, j + 1, end);
    }
}

/// Runs in the rest of a queue are runs in the queue.
pub(crate) proof fn lemma_run_end_behind(
    cmds: Seq<CommandState>,
    p: Seq<CommandState>,
    i: nat,
    m: nat,
    j: nat,
)
    requires
        i + m < cmds.len(),
        i + j <= cmds.len(),
        p == cmds.subrange(i as int, cmds.len() as int),
    ensures
        run_end(cmds, i + m, i + j) == i + run_end(p, m, j),
    decreases cmds.len() - j,
{
    assert(p[m as int] == cmds[(i + m) as int]);
    if i + j < cmds.len() {
        assert(p[j as int] == cmds[(i + j) as int]);
        if goes_with(p[m as int], p[j as int]) {
            lemma_run_end_behind(cmds, p, i, m, j + 1);
        }
    }
}

proof fn lemma_tables_prefix(
    t: Seq<Table>,
    w: WorldState,
    short: Seq<CommandState>,
    long: Seq<CommandState>,
    n: nat,
)
    requires
        n <= short.len() <= long.len(),
        forall|i: int| 0 <= i < short.len() ==> #[trigger] long[i] == short[i],
    ensures
        tables_after(t, w, short, n) == tables_after(t, w, long, n),
    decreases n,
{
    if n > 0 {
        lemma_tables_prefix(t, w, short, long, (n - 1) as nat);
        lemma_commands_prefix(w, short, long, (n - 1) as nat);
        assert(long[n - 1] == short[n - 1]);
    }
}

pub(crate) proof fn lemma_tables_spawned(
    t: Seq<Table>,
    w: WorldState,
    cmds: Seq<CommandState>,
    es: Seq<Entity>,
    bundles: Seq<Seq<BundleState>>,
    n: nat,
)
    requires
        n <= cmds.len() == es.len() == bundles.len(),
        forall|i: int|
            0 <= i < cmds.len() ==> (#[trigger] cmds[i]) == (CommandState::Spawn {
                entity: es[i],
                bundle: bundles[i],
            }),
    ensures
        tables_after(t, w, cmds, n) == tables_after_spawns(t, w, es, bundles, n),
    decreases n,
{
    if n > 0 {
        lemma_tables_spawned(t, w, cmds, es, bundles, (n - 1) as nat);
        lemma_spawn_all(w, cmds, es, bundles, (n - 1) as nat);
        lemma_spawn_all(w, cmds, es, bundles, n);
        let before = after_commands(w, cmds, (n - 1) as nat);
        assert(cmds[n - 1] == (CommandState::Spawn {
            entity: es[n - 1],
            bundle: bundles[n - 1],
        }));
        assert(after_commands(w, cmds, n) == after_command(before, cmds[n - 1]));
    }
}

/// Whether the layout goes from `t` to `u` with the first `n` commands, which are a group, one
/// command, or spawns.
#[verifier::opaque]
pub(crate) open spec fn laid_out(
    t: Seq<Table>,
    u: Seq<Table>,
    w: WorldState,
    p: Seq<CommandState>,
    n: nat,
) -> bool {
    if group_end(p, 0) > 1 {
        &&& n == group_end(p, 0)
        &&& u == settled(t, after_commands(w, p, n), writes_to(p[0])->0)
    } else {
        &&& u == tables_after(t, w, p, n)
        &&& n > 1 ==> forall|k: int| 0 <= k < n ==> (#[trigger] p[k]) is Spawn
    }
}

pub(crate) proof fn lemma_laid_out_one(
    t: Seq<Table>,
    u: Seq<Table>,
    w: WorldState,
    p: Seq<CommandState>,
)
    requires
        group_end(p, 0) == 1,
        u == tables_after_command(t, w, p[0]),
    ensures
        laid_out(t, u, w, p, 1),
{
    reveal(laid_out);
    reveal_with_fuel(tables_after, 2);
    assert(after_commands(w, p, 0) == w);
}

pub(crate) proof fn lemma_laid_out_group(
    t: Seq<Table>,
    u: Seq<Table>,
    w: WorldState,
    p: Seq<CommandState>,
    n: nat,
)
    requires
        n > 1,
        group_end(p, 0) == n,
        u == settled(t, after_commands(w, p, n), writes_to(p[0])->0),
    ensures
        laid_out(t, u, w, p, n),
{
    reveal(laid_out);
}

pub(crate) proof fn lemma_laid_out_spawns(
    t: Seq<Table>,
    u: Seq<Table>,
    w: WorldState,
    run: Seq<CommandState>,
    p: Seq<CommandState>,
    n: nat,
)
    requires
        0 < n == run.len() <= p.len(),
        forall|i: int| 0 <= i < run.len() ==> #[trigger] run[i] == p[0 + i],
        forall|k: int| 0 <= k < n ==> (#[trigger] p[k]) is Spawn,
        u == tables_after(t, w, run, n),
    ensures
        laid_out(t, u, w, p, n),
{
    assert forall|i: int| 0 <= i < run.len() implies #[trigger] p[i] == run[i] by {
        assert(run[i] == p[0 + i]);
    }
    lemma_tables_prefix(t, w, run, p, n);
    reveal(laid_out);
    assert(p[0] is Spawn);
}

/// Whether the layout `t` becomes `u` with the first `i` commands, as far as the layout behind the
/// first `stop` commands goes.
#[verifier::opaque]
pub(crate) open spec fn leads_to(
    t: Seq<Table>,
    u: Seq<Table>,
    w: WorldState,
    cmds: Seq<CommandState>,
    i: nat,
    stop: nat,
) -> bool {
    tables_between(t, w, cmds, 0, stop) == tables_between(u, w, cmds, i, stop)
}

pub(crate) proof fn lemma_leads_nowhere(
    t: Seq<Table>,
    w: WorldState,
    cmds: Seq<CommandState>,
    stop: nat,
)
    ensures
        leads_to(t, t, w, cmds, 0, stop),
{
    reveal(leads_to);
}

/// What leads to the end is the layout at the end.
pub(crate) proof fn lemma_tables_done(
    t: Seq<Table>,
    u: Seq<Table>,
    w: WorldState,
    cmds: Seq<CommandState>,
    stop: nat,
)
    requires
        leads_to(t, u, w, cmds, stop, stop),
    ensures
        u == tables_between(t, w, cmds, 0, stop),
{
    reveal(leads_to);
}

/// A run of commands, each by itself, is part of the layout.
proof fn lemma_tables_singly(
    t: Seq<Table>,
    w: WorldState,
    cmds: Seq<CommandState>,
    p: Seq<CommandState>,
    i: nat,
    n: nat,
    k: nat,
)
    requires
        i + n <= k <= cmds.len(),
        p == cmds.subrange(i as int, cmds.len() as int),
        forall|m: nat| i <= m < i + n ==> #[trigger] group_end(cmds, m) == m + 1,
    ensures
        tables_between(t, w, cmds, i, k) == tables_between(
            tables_after(t, after_commands(w, cmds, i), p, n),
            w,
            cmds,
            i + n,
            k,
        ),
    decreases n,
{
    if n > 0 {
        let m = (i + n - 1) as nat;
        lemma_tables_singly(t, w, cmds, p, i, (n - 1) as nat, k);
        lemma_run_split(w, cmds, p, i as int, (n - 1) as nat);
        assert(p[n - 1] == cmds[m as int]);
        lemma_tables_step(
            tables_after(t, after_commands(w, cmds, i), p, (n - 1) as nat),
            w,
            cmds,
            m,
            k,
        );
    }
}

/// A command by itself is part of the layout.
proof fn lemma_tables_step(
    t: Seq<Table>,
    w: WorldState,
    cmds: Seq<CommandState>,
    i: nat,
    k: nat,
)
    requires
        i < k,
        group_end(cmds, i) == i + 1,
    ensures
        tables_between(t, w, cmds, i, k) == tables_between(
            tables_after_command(t, after_commands(w, cmds, i), cmds[i as int]),
            w,
            cmds,
            i + 1,
            k,
        ),
{
}

/// Groups in the rest of a queue are groups in the queue.
proof fn lemma_group_behind(
    cmds: Seq<CommandState>,
    p: Seq<CommandState>,
    i: nat,
)
    requires
        i < cmds.len(),
        p == cmds.subrange(i as int, cmds.len() as int),
    ensures
        group_end(cmds, i) == i + group_end(p, 0),
{
    assert(p[0] == cmds[i as int]);
    lemma_run_end_behind(cmds, p, i, 0, 1);
}

/// A group is part of the layout.
proof fn lemma_tables_group(
    t: Seq<Table>,
    w: WorldState,
    cmds: Seq<CommandState>,
    i: nat,
    j: nat,
    k: nat,
)
    requires
        i + 1 < j <= k,
        group_end(cmds, i) == j,
    ensures
        tables_between(t, w, cmds, i, k) == tables_between(
            settled(t, after_commands(w, cmds, j), writes_to(cmds[i as int])->0),
            w,
            cmds,
            j,
            k,
        ),
{
}

/// The layout goes on from where a run leaves it.
pub(crate) proof fn lemma_leads_on(
    start: Seq<Table>,
    t: Seq<Table>,
    u: Seq<Table>,
    w: WorldState,
    cmds: Seq<CommandState>,
    p: Seq<CommandState>,
    i: nat,
    n: nat,
    k: nat,
)
    requires
        1 <= n,
        i + n <= k <= cmds.len(),
        p == cmds.subrange(i as int, cmds.len() as int),
        leads_to(start, t, w, cmds, i, k),
        laid_out(t, u, after_commands(w, cmds, i), p, n),
    ensures
        leads_to(start, u, w, cmds, i + n, k),
{
    reveal(leads_to);
    reveal(laid_out);
    let now = after_commands(w, cmds, i);
    lemma_group_behind(cmds, p, i);
    lemma_run_split(w, cmds, p, i as int, n);
    assert(p[0] == cmds[i as int]);
    if group_end(p, 0) > 1 {
        lemma_tables_group(t, w, cmds, i, i + n, k);
    } else {
        assert(group_end(cmds, i) >= i + 1) by {
            lemma_run_end_grows(cmds, i, i + 1);
        }
        assert forall|m: nat| i <= m < i + n implies #[trigger] group_end(cmds, m) == m
            + 1 by {
            if m > i {
                assert(p[m - i] is Spawn);
                assert(p[m - i] == cmds[m as int]);
            }
        }
        lemma_tables_singly(t, w, cmds, p, i, n, k);
    }
}

/// Where no two commands in a row write to one entity, each is by itself.
pub(crate) proof fn lemma_tables_alone(
    t: Seq<Table>,
    w: WorldState,
    cmds: Seq<CommandState>,
    k: nat,
)
    requires
        k <= cmds.len(),
        insert_ladder::describes(cmds),
    ensures
        tables_between(t, w, cmds, 0, k) == tables_after(t, w, cmds, k),
{
    assert(cmds.subrange(0, cmds.len() as int) =~= cmds);
    assert(after_commands(w, cmds, 0) == w);
    assert forall|m: nat| 0 <= m < 0 + k implies #[trigger] group_end(cmds, m) == m
        + 1 by {
        assert(cmds[m as int] is Insert);
        if m + 1 < cmds.len() {
            assert(cmds[(m + 1) as int] is Insert);
            assert(cmds[m as int]->Insert_entity != cmds[(m + 1) as int]->Insert_entity);
        }
    }
    lemma_tables_singly(t, w, cmds, cmds, 0, k, k);
}

/// Where entities lie after a command: what is spawned goes behind the last row of the archetype of
/// its components, what is written to or loses a component settles in that of what it has then,
/// what goes is replaced by the last of its archetype, and nobody else moves.
pub proof fn law_commands_move_whom_they_are_about(
    t: Seq<Table>,
    w: WorldState,
    c: CommandState,
)
    ensures
        match c {
            CommandState::Spawn { entity, bundle } => {
                let e = if entity.index == u32::MAX && entity.generation == u32::MAX {
                    crate::entity::allocated(w.entities, 1)[0]
                } else {
                    entity
                };
                tables_after_command(t, w, c) == tables_with(
                    t,
                    e,
                    component_list(after_command(w, c).values[e]),
                )
            },
            CommandState::Insert { entity, part } => tables_after_command(t, w, c) == settled(
                t,
                after_command(w, c),
                entity,
            ),
            CommandState::InsertRaw { entity, part } => tables_after_command(t, w, c) == settled(
                t,
                after_command(w, c),
                entity,
            ),
            CommandState::Remove { entity, id } => tables_after_command(t, w, c) == settled(
                t,
                after_command(w, c),
                entity,
            ),
            CommandState::RemoveTyped { entity, key } => tables_after_command(t, w, c) == settled(
                t,
                after_command(w, c),
                entity,
            ),
            CommandState::Despawn { entity } => tables_after_command(t, w, c)
                == tables_after_despawns(t, w, seq![entity]),
            _ => tables_after_command(t, w, c) == t,
        },
        tables_after(t, w, Seq::<CommandState>::empty(), 0) == t,
{
}

/// Commands move entities one after the other.
pub proof fn law_commands_move_entities_in_turn(
    t: Seq<Table>,
    w: WorldState,
    cmds: Seq<CommandState>,
    n: nat,
)
    ensures
        tables_after(t, w, cmds, n + 1) == tables_after_command(
            tables_after(t, w, cmds, n),
            after_commands(w, cmds, n),
            cmds[n as int],
        ),
{
}

} // verus!
