//! The tree of descendants of a process, built from a snapshot of the
//! process table, and the breadth-first list of their ids.

use crate::tree::{
    Node, all_children, flatten_tree_breadth_first, lemma_level_order_by_generation,
    level_order, root_values,
};
use vstd::prelude::*;

verus! {

/// One row of a process table: a process id and the id of its parent, if the
/// process has one.
#[derive(Debug, Clone, Copy, PartialEq, Eq)]
pub struct ProcessEntry {
    pub pid: i32,
    pub parent: Option<i32>,
}

/// The ids of the processes whose parent is `parent`, in table order.
pub open spec fn child_pids(entries: Seq<ProcessEntry>, parent: i32) -> Seq<i32>
    decreases entries.len(),
{
    if entries.len() == 0 {
        Seq::empty()
    } else {
        let earlier = child_pids(entries.drop_last(), parent);
        if entries.last().parent == Some(parent) {
            earlier.push(entries.last().pid)
        } else {
            earlier
        }
    }
}

/// Every chain of descendants of `parent` ends within `depth` generations:
/// walking down from `parent` never needs more than `depth` steps.
pub open spec fn finite_within(entries: Seq<ProcessEntry>, parent: i32, depth: nat) -> bool
    decreases depth, 0nat,
{
    let kids = child_pids(entries, parent);
    if kids.len() == 0 {
        true
    } else if depth == 0 {
        false
    } else {
        all_finite_within(entries, kids, (depth - 1) as nat)
    }
}

/// `finite_within` holds of each process of `pids`.
pub open spec fn all_finite_within(entries: Seq<ProcessEntry>, pids: Seq<i32>, depth: nat) -> bool
    decreases depth, pids.len() + 1,
{
    if pids.len() == 0 {
        true
    } else {
        finite_within(entries, pids[0], depth) && all_finite_within(
            entries,
            pids.subrange(1, pids.len() as int),
            depth,
        )
    }
}

/// `nodes` is the forest of descendants of `parent`: one node per child, in
/// table order, each holding the child's id and the forest of its own
/// descendants, with no chain deeper than `depth`.
pub open spec fn is_process_forest(
    nodes: Seq<Node<i32>>,
    entries: Seq<ProcessEntry>,
    parent: i32,
    depth: nat,
) -> bool
    decreases depth, 0nat,
{
    let kids = child_pids(entries, parent);
    if kids.len() == 0 {
        nodes.len() == 0
    } else if depth == 0 {
        false
    } else {
        is_process_row(nodes, entries, kids, (depth - 1) as nat)
    }
}

/// `nodes[k]` holds `pids[k]` and the forest of its descendants, for each `k`.
pub open spec fn is_process_row(
    nodes: Seq<Node<i32>>,
    entries: Seq<ProcessEntry>,
    pids: Seq<i32>,
    depth: nat,
) -> bool
    decreases depth, pids.len() + 1,
{
    if pids.len() == 0 {
        nodes.len() == 0
    } else {
        &&& nodes.len() == pids.len()
        &&& nodes[0].value == pids[0]
        &&& is_process_forest(nodes[0].children@, entries, pids[0], depth)
        &&& is_process_row(
            nodes.subrange(1, nodes.len() as int),
            entries,
            pids.subrange(1, pids.len() as int),
            depth,
        )
    }
}

/// `all_finite_within` is `finite_within` at every index.
pub proof fn lemma_all_finite_within(entries: Seq<ProcessEntry>, pids: Seq<i32>, depth: nat)
    ensures
        all_finite_within(entries, pids, depth) <==> forall|k: int|
            0 <= k < pids.len() ==> #[trigger] finite_within(entries, pids[k], depth),
    decreases pids.len(),
{
    if pids.len() > 0 {
        let rest = pids.subrange(1, pids.len() as int);
        lemma_all_finite_within(entries, rest, depth);
        assert(all_finite_within(entries, pids, depth) == (finite_within(entries, pids[0], depth)
            && all_finite_within(entries, rest, depth)));
        if forall|k: int| 0 <= k < pids.len() ==> #[trigger] finite_within(entries, pids[k], depth) {
            assert forall|k: int| 0 <= k < rest.len() implies #[trigger] finite_within(
                entries,
                rest[k],
                depth,
            ) by {
                assert(rest[k] == pids[k + 1]);
            }
        }
        if all_finite_within(entries, pids, depth) {
            assert forall|k: int| 0 <= k < pids.len() implies #[trigger] finite_within(
                entries,
                pids[k],
                depth,
            ) by {
                if k > 0 {
                    assert(rest[k - 1] == pids[k]);
                }
            }
        }
    }
}

/// `is_process_row` is `is_process_forest` at every index.
pub proof fn lemma_process_row(
    nodes: Seq<Node<i32>>,
    entries: Seq<ProcessEntry>,
    pids: Seq<i32>,
    depth: nat,
)
    ensures
        is_process_row(nodes, entries, pids, depth) <==> {
            &&& nodes.len() == pids.len()
            &&& forall|k: int|
                0 <= k < nodes.len() ==> (#[trigger] nodes[k]).value == pids[k]
                    && is_process_forest(nodes[k].children@, entries, pids[k], depth)
        },
    decreases pids.len(),
{
    if pids.len() > 0 && nodes.len() == pids.len() {
        let rest = pids.subrange(1, pids.len() as int);
        let nrest = nodes.subrange(1, nodes.len() as int);
        lemma_process_row(nrest, entries, rest, depth);
        if forall|k: int|
            0 <= k < nodes.len() ==> (#[trigger] nodes[k]).value == pids[k] && is_process_forest(
                nodes[k].children@,
                entries,
                pids[k],
                depth,
            ) {
            assert forall|k: int| 0 <= k < nrest.len() implies (#[trigger] nrest[k]).value
                == rest[k] && is_process_forest(nrest[k].children@, entries, rest[k], depth) by {
                assert(nrest[k] == nodes[k + 1]);
                assert(rest[k] == pids[k + 1]);
            }
        }
        if is_process_row(nodes, entries, pids, depth) {
            assert forall|k: int| 0 <= k < nodes.len() implies (#[trigger] nodes[k]).value
                == pids[k] && is_process_forest(nodes[k].children@, entries, pids[k], depth) by {
                if k > 0 {
                    assert(nrest[k - 1] == nodes[k]);
                    assert(rest[k - 1] == pids[k]);
                }
            }
        }
    }
}

/// The children of a row of processes, the children of the first process
/// first.
pub open spec fn next_generation(entries: Seq<ProcessEntry>, pids: Seq<i32>) -> Seq<i32>
    decreases pids.len(),
{
    if pids.len() == 0 {
        Seq::empty()
    } else {
        child_pids(entries, pids[0]) + next_generation(
            entries,
            pids.subrange(1, pids.len() as int),
        )
    }
}

/// `pids`, then their children, then their grandchildren, and so on for
/// `depth` generations.
pub open spec fn generations(entries: Seq<ProcessEntry>, pids: Seq<i32>, depth: nat) -> Seq<i32>
    decreases depth,
{
    if depth == 0 {
        pids
    } else {
        pids + generations(entries, next_generation(entries, pids), (depth - 1) as nat)
    }
}

/// Children found in two tables one after the other.
pub proof fn lemma_child_pids_append(a: Seq<ProcessEntry>, b: Seq<ProcessEntry>, parent: i32)
    ensures
        child_pids(a + b, parent) == child_pids(a, parent) + child_pids(b, parent),
    decreases b.len(),
{
    if b.len() == 0 {
        assert(a + b =~= a);
    } else {
        assert((a + b).drop_last() =~= a + b.drop_last());
        lemma_child_pids_append(a, b.drop_last(), parent);
    }
}

/// A child of a process whose descendants end within `depth` generations
/// has descendants that end within `depth - 1`.
proof fn lemma_finite_within_child(entries: Seq<ProcessEntry>, parent: i32, depth: nat, k: int)
    requires
        finite_within(entries, parent, depth),
        0 <= k < child_pids(entries, parent).len(),
    ensures
        depth > 0,
        finite_within(entries, child_pids(entries, parent)[k], (depth - 1) as nat),
{
    lemma_all_finite_within(entries, child_pids(entries, parent), (depth - 1) as nat);
}

/// One step of a table scan: the children among the first `i + 1` rows are
/// those among the first `i`, plus row `i` if its parent is `parent`.
proof fn lemma_child_pids_step(entries: Seq<ProcessEntry>, parent: i32, i: int)
    requires
        0 <= i < entries.len(),
    ensures
        child_pids(entries.take(i + 1), parent) == if entries[i].parent == Some(parent) {
            child_pids(entries.take(i), parent).push(entries[i].pid)
        } else {
            child_pids(entries.take(i), parent)
        },
        child_pids(entries.take(i + 1), parent).len() <= child_pids(entries, parent).len(),
        forall|k: int|
            0 <= k < child_pids(entries.take(i + 1), parent).len() ==> #[trigger] child_pids(
                entries,
                parent,
            )[k] == child_pids(entries.take(i + 1), parent)[k],
{
    assert(entries.take(i + 1).drop_last() =~= entries.take(i));
    lemma_child_pids_append(entries.take(i + 1), entries.skip(i + 1), parent);
    assert(entries.take(i + 1) + entries.skip(i + 1) =~= entries);
}

/// Builds the forest of descendants of `parent_pid`, descending at most
/// `depth` generations.
fn build_forest(parent_pid: i32, processes: &Vec<ProcessEntry>, depth: usize) -> (nodes: Vec<
    Node<i32>,
>)
    requires
        finite_within(processes@, parent_pid, depth as nat),
    ensures
        is_process_forest(nodes@, processes@, parent_pid, depth as nat),
    decreases depth,
{
    let ghost entries = processes@;
    let ghost kids = child_pids(entries, parent_pid);
    let mut nodes: Vec<Node<i32>> = Vec::new();
    let mut i: usize = 0;
    while i < processes.len()
        invariant
            entries == processes@,
            kids == child_pids(entries, parent_pid),
            finite_within(entries, parent_pid, depth as nat),
            0 <= i <= entries.len(),
            nodes@.len() == child_pids(entries.take(i as int), parent_pid).len(),
            nodes@.len() <= kids.len(),
            nodes@.len() > 0 ==> depth > 0,
            forall|k: int|
                0 <= k < nodes@.len() ==> (#[trigger] nodes@[k]).value == kids[k]
                    && is_process_forest(nodes@[k].children@, entries, kids[k], (depth - 1) as nat),
        decreases entries.len() - i,
    {
        proof {
            lemma_child_pids_step(entries, parent_pid, i as int);
        }
        let entry = processes[i];
        let is_child = match entry.parent {
            Some(p) => p == parent_pid,
            None => false,
        };
        if is_child {
            let ghost k = nodes@.len() as int;
            assert(kids[k] == entry.pid);
            proof {
                lemma_finite_within_child(entries, parent_pid, depth as nat, k);
            }
            let grandchildren = build_forest(entry.pid, processes, depth - 1);
            nodes.push(Node { value: entry.pid, children: grandchildren });
            assert(nodes@[k].value == kids[k]);
        }
        i = i + 1;
    }
    proof {
        assert(entries.take(entries.len() as int) =~= entries);
        if kids.len() > 0 {
            lemma_finite_within_child(entries, parent_pid, depth as nat, 0);
            lemma_process_row(nodes@, entries, kids, (depth - 1) as nat);
        }
    }
    nodes
}

/// The forest of descendants of `parent_pid` in `processes`: the children of
/// `parent_pid` in table order, each with the forest of its own descendants.
/// `processes` must not let a chain of descendants of `parent_pid` run in a
/// cycle (see `has_finite_descendants`).
pub fn get_children(parent_pid: i32, processes: &Vec<ProcessEntry>) -> (nodes: Vec<Node<i32>>)
    requires
        finite_within(processes@, parent_pid, processes@.len()),
    ensures
        is_process_forest(nodes@, processes@, parent_pid, processes@.len()),
{
    build_forest(parent_pid, processes, processes.len())
}

/// Decides `finite_within(processes@, parent_pid, depth)`.
fn check_finite_within(parent_pid: i32, processes: &Vec<ProcessEntry>, depth: usize) -> (ok: bool)
    ensures
        ok == finite_within(processes@, parent_pid, depth as nat),
    decreases depth,
{
    let ghost entries = processes@;
    let ghost kids = child_pids(entries, parent_pid);
    let ghost mut found: int = 0;
    let mut i: usize = 0;
    while i < processes.len()
        invariant
            entries == processes@,
            kids == child_pids(entries, parent_pid),
            0 <= i <= entries.len(),
            found == child_pids(entries.take(i as int), parent_pid).len(),
            found <= kids.len(),
            found > 0 ==> depth > 0,
            forall|k: int|
                0 <= k < found ==> #[trigger] finite_within(entries, kids[k], (depth - 1) as nat),
        decreases entries.len() - i,
    {
        proof {
            lemma_child_pids_step(entries, parent_pid, i as int);
        }
        let entry = processes[i];
        let is_child = match entry.parent {
            Some(p) => p == parent_pid,
            None => false,
        };
        if is_child {
            assert(kids[found] == entry.pid);
            if depth == 0 {
                return false;
            }
            if !check_finite_within(entry.pid, processes, depth - 1) {
                proof {
                    lemma_all_finite_within(entries, kids, (depth - 1) as nat);
                }
                return false;
            }
            proof {
                found = found + 1;
            }
        }
        i = i + 1;
    }
    proof {
        assert(entries.take(entries.len() as int) =~= entries);
        if kids.len() > 0 {
            lemma_all_finite_within(entries, kids, (depth - 1) as nat);
        }
    }
    true
}

/// Whether every chain of descendants of `parent_pid` in `processes` ends,
/// that is, whether no cycle of parent links is reachable below it; this is
/// what `get_children` and `get_children_pids` ask of their input.
pub fn has_finite_descendants(parent_pid: i32, processes: &Vec<ProcessEntry>) -> (ok: bool)
    ensures
        ok == finite_within(processes@, parent_pid, processes@.len()),
{
    check_finite_within(parent_pid, processes, processes.len())
}

/// Rows of forests concatenate.
proof fn lemma_process_row_append(
    a: Seq<Node<i32>>,
    pa: Seq<i32>,
    b: Seq<Node<i32>>,
    pb: Seq<i32>,
    entries: Seq<ProcessEntry>,
    depth: nat,
)
    requires
        is_process_row(a, entries, pa, depth),
        is_process_row(b, entries, pb, depth),
    ensures
        is_process_row(a + b, entries, pa + pb, depth),
{
    lemma_process_row(a, entries, pa, depth);
    lemma_process_row(b, entries, pb, depth);
    lemma_process_row(a + b, entries, pa + pb, depth);
    assert forall|k: int| 0 <= k < (a + b).len() implies (#[trigger] (a + b)[k]).value == (pa
        + pb)[k] && is_process_forest((a + b)[k].children@, entries, (pa + pb)[k], depth) by {
        if k < a.len() {
            assert((a + b)[k] == a[k]);
            assert((pa + pb)[k] == pa[k]);
        } else {
            assert((a + b)[k] == b[k - a.len()]);
            assert((pa + pb)[k] == pb[k - a.len()]);
        }
    }
}

/// The children of a row of process trees form the row of trees of the next
/// generation, one level shallower.
proof fn lemma_process_row_children(
    q: Seq<Node<i32>>,
    entries: Seq<ProcessEntry>,
    pids: Seq<i32>,
    depth: nat,
)
    requires
        is_process_row(q, entries, pids, depth),
    ensures
        depth == 0 ==> all_children(q).len() == 0 && next_generation(entries, pids).len() == 0,
        depth > 0 ==> is_process_row(
            all_children(q),
            entries,
            next_generation(entries, pids),
            (depth - 1) as nat,
        ),
    decreases q.len(),
{
    if pids.len() == 0 {
        assert(all_children(q) =~= Seq::<Node<i32>>::empty());
    } else {
        let q1 = q.subrange(1, q.len() as int);
        let p1 = pids.subrange(1, pids.len() as int);
        lemma_process_row_children(q1, entries, p1, depth);
        let kids = child_pids(entries, pids[0]);
        assert(is_process_forest(q[0].children@, entries, pids[0], depth));
        if depth > 0 {
            if kids.len() > 0 {
                assert(is_process_row(q[0].children@, entries, kids, (depth - 1) as nat));
            } else {
                assert(q[0].children@.len() == 0);
                assert(is_process_row(q[0].children@, entries, kids, (depth - 1) as nat));
            }
            lemma_process_row_append(
                q[0].children@,
                kids,
                all_children(q1),
                next_generation(entries, p1),
                entries,
                (depth - 1) as nat,
            );
        } else {
            assert(kids.len() == 0);
            assert(q[0].children@.len() == 0);
        }
    }
}

/// Breadth-first order over a row of process trees lists their ids one
/// generation after another.
proof fn lemma_process_row_level_order(
    q: Seq<Node<i32>>,
    entries: Seq<ProcessEntry>,
    pids: Seq<i32>,
    depth: nat,
)
    requires
        is_process_row(q, entries, pids, depth),
    ensures
        level_order(q) == generations(entries, pids, depth),
    decreases depth,
{
    lemma_level_order_by_generation(q);
    lemma_process_row(q, entries, pids, depth);
    assert(root_values(q) =~= pids);
    lemma_process_row_children(q, entries, pids, depth);
    if depth == 0 {
        assert(all_children(q) =~= Seq::<Node<i32>>::empty());
        assert(level_order(all_children(q)) =~= Seq::<i32>::empty());
        assert(level_order(q) =~= pids);
    } else {
        lemma_process_row_level_order(
            all_children(q),
            entries,
            next_generation(entries, pids),
            (depth - 1) as nat,
        );
    }
}

/// Flattening the forest that `get_children` builds, below its parent,
/// gives what `get_children_pids` lists.
pub proof fn lemma_forest_level_order(
    nodes: Seq<Node<i32>>,
    entries: Seq<ProcessEntry>,
    parent_pid: i32,
    depth: nat,
)
    requires
        is_process_forest(nodes, entries, parent_pid, depth),
    ensures
        seq![parent_pid] + level_order(nodes) == generations(entries, seq![parent_pid], depth),
{
    let kids = child_pids(entries, parent_pid);
    assert(seq![parent_pid].subrange(1, 1) =~= Seq::<i32>::empty());
    assert(next_generation(entries, Seq::<i32>::empty()) =~= Seq::<i32>::empty());
    assert(kids + Seq::<i32>::empty() =~= kids);
    assert(next_generation(entries, seq![parent_pid]) =~= kids);
    if kids.len() == 0 {
        assert(level_order(nodes) =~= Seq::<i32>::empty());
        if depth > 0 {
            lemma_generations_of_nothing(entries, (depth - 1) as nat);
        }
        assert(seq![parent_pid] + level_order(nodes) =~= generations(
            entries,
            seq![parent_pid],
            depth,
        ));
    } else {
        lemma_process_row_level_order(nodes, entries, kids, (depth - 1) as nat);
    }
}

/// No processes have no generations.
proof fn lemma_generations_of_nothing(entries: Seq<ProcessEntry>, depth: nat)
    ensures
        generations(entries, Seq::empty(), depth) == Seq::<i32>::empty(),
    decreases depth,
{
    if depth > 0 {
        assert(next_generation(entries, Seq::<i32>::empty()) =~= Seq::<i32>::empty());
        lemma_generations_of_nothing(entries, (depth - 1) as nat);
        assert(Seq::<i32>::empty() + Seq::<i32>::empty() =~= Seq::<i32>::empty());
    }
}

/// The ids of `parent_pid` and of all its descendants in `processes`,
/// generation by generation: `parent_pid` first, then its children, then
/// its grandchildren, and so on, each generation in the order of the
/// generation before it and of the table.
pub fn get_children_pids(parent_pid: i32, processes: &Vec<ProcessEntry>) -> (pids: Vec<i32>)
    requires
        finite_within(processes@, parent_pid, processes@.len()),
    ensures
        pids@ == generations(processes@, seq![parent_pid], processes@.len()),
{
    let children_tree = get_children(parent_pid, processes);
    proof {
        lemma_forest_level_order(children_tree@, processes@, parent_pid, processes@.len());
    }
    let mut children: Vec<i32> = Vec::new();
    children.push(parent_pid);
    flatten_tree_breadth_first(Node { value: parent_pid, children: children_tree }, children)
}

/// `child` is listed among the children of `parent` exactly when some row of
/// the table has id `child` and parent `parent`.
pub proof fn lemma_child_pids_members(entries: Seq<ProcessEntry>, parent: i32, child: i32)
    ensures
        child_pids(entries, parent).contains(child) <==> exists|m: int|
            0 <= m < entries.len() && (#[trigger] entries[m]).pid == child && entries[m].parent
                == Some(parent),
    decreases entries.len(),
{
    if entries.len() > 0 {
        let init = entries.drop_last();
        lemma_child_pids_members(init, parent, child);
        let kids = child_pids(entries, parent);
        let earlier = child_pids(init, parent);
        if kids.contains(child) {
            let k = choose|k: int| 0 <= k < kids.len() && kids[k] == child;
            if k < earlier.len() {
                assert(earlier[k] == child);
                let m = choose|m: int|
                    0 <= m < init.len() && (#[trigger] init[m]).pid == child && init[m].parent
                        == Some(parent);
                assert(entries[m] == init[m]);
            } else {
                assert(entries[entries.len() - 1].pid == child);
            }
        }
        if exists|m: int|
            0 <= m < entries.len() && (#[trigger] entries[m]).pid == child && entries[m].parent
                == Some(parent) {
            let m = choose|m: int|
                0 <= m < entries.len() && (#[trigger] entries[m]).pid == child && entries[m].parent
                    == Some(parent);
            if m < entries.len() - 1 {
                assert(init[m] == entries[m]);
                assert(earlier.contains(child));
                let k = choose|k: int| 0 <= k < earlier.len() && earlier[k] == child;
                assert(kids[k] == child);
            } else {
                assert(kids[kids.len() - 1] == child);
            }
        }
    }
}

/// A process is in the next generation of `pids` exactly when it is a child
/// of one of them.
pub proof fn lemma_next_generation_members(entries: Seq<ProcessEntry>, pids: Seq<i32>, child: i32)
    ensures
        next_generation(entries, pids).contains(child) <==> exists|j: int|
            0 <= j < pids.len() && child_pids(entries, #[trigger] pids[j]).contains(child),
    decreases pids.len(),
{
    if pids.len() > 0 {
        let rest = pids.subrange(1, pids.len() as int);
        let first = child_pids(entries, pids[0]);
        let later = next_generation(entries, rest);
        let all = next_generation(entries, pids);
        lemma_next_generation_members(entries, rest, child);
        assert(all == first + later);
        if all.contains(child) {
            let k = choose|k: int| 0 <= k < all.len() && all[k] == child;
            if k < first.len() {
                assert(first[k] == child);
                assert(child_pids(entries, pids[0]).contains(child));
            } else {
                assert(later[k - first.len()] == child);
                let j = choose|j: int|
                    0 <= j < rest.len() && child_pids(entries, #[trigger] rest[j]).contains(child);
                assert(rest[j] == pids[j + 1]);
                assert(child_pids(entries, pids[j + 1]).contains(child));
            }
        }
        if exists|j: int|
            0 <= j < pids.len() && child_pids(entries, #[trigger] pids[j]).contains(child) {
            let j = choose|j: int|
                0 <= j < pids.len() && child_pids(entries, #[trigger] pids[j]).contains(child);
            if j == 0 {
                let k = choose|k: int| 0 <= k < first.len() && first[k] == child;
                assert(all[k] == child);
            } else {
                assert(rest[j - 1] == pids[j]);
                assert(later.contains(child));
                let k = choose|k: int| 0 <= k < later.len() && later[k] == child;
                assert(all[k + first.len()] == child);
            }
        }
    }
}

/// The process listed at `i` in `listed` is a child of one listed before it.
pub open spec fn parent_listed_before(entries: Seq<ProcessEntry>, listed: Seq<i32>, i: int) -> bool {
    exists|j: int| 0 <= j < i && child_pids(entries, #[trigger] listed[j]).contains(listed[i])
}

/// Every process listed after the first generation is a child of a process
/// listed before it.
pub proof fn lemma_generations_parent_first(entries: Seq<ProcessEntry>, pids: Seq<i32>, depth: nat)
    ensures
        generations(entries, pids, depth).len() >= pids.len(),
        forall|i: int| 0 <= i < pids.len() ==> generations(entries, pids, depth)[i] == pids[i],
        forall|i: int|
            pids.len() <= i < generations(entries, pids, depth).len() ==> parent_listed_before(
                entries,
                generations(entries, pids, depth),
                i,
            ),
    decreases depth,
{
    let g = generations(entries, pids, depth);
    if depth > 0 {
        let next = next_generation(entries, pids);
        let h = generations(entries, next, (depth - 1) as nat);
        lemma_generations_parent_first(entries, next, (depth - 1) as nat);
        assert(g == pids + h);
        assert forall|i: int| pids.len() <= i < g.len() implies parent_listed_before(
            entries,
            g,
            i,
        ) by {
            let i2 = i - pids.len();
            assert(g[i] == h[i2]);
            if i2 < next.len() {
                assert(h[i2] == next[i2]);
                assert(next.contains(h[i2]));
                lemma_next_generation_members(entries, pids, h[i2]);
                let j = choose|j: int|
                    0 <= j < pids.len() && child_pids(entries, #[trigger] pids[j]).contains(h[i2]);
                assert(g[j] == pids[j]);
            } else {
                assert(parent_listed_before(entries, h, i2));
                let j2 = choose|j2: int|
                    0 <= j2 < i2 && child_pids(entries, #[trigger] h[j2]).contains(h[i2]);
                assert(g[j2 + pids.len()] == h[j2]);
            }
        }
    } else {
        assert(g.len() == pids.len());
    }
}

/// The ids that `get_children_pids` lists start with the parent, and every
/// later id is that of a child of a process listed before it.
pub proof fn lemma_listed_after_parent(entries: Seq<ProcessEntry>, parent_pid: i32, depth: nat)
    ensures
        generations(entries, seq![parent_pid], depth)[0] == parent_pid,
        forall|i: int|
            1 <= i < generations(entries, seq![parent_pid], depth).len() ==> parent_listed_before(
                entries,
                generations(entries, seq![parent_pid], depth),
                i,
            ),
{
    lemma_generations_parent_first(entries, seq![parent_pid], depth);
}

/// `all_finite_within` holds of a concatenation when it holds of both parts.
proof fn lemma_all_finite_within_append(
    entries: Seq<ProcessEntry>,
    a: Seq<i32>,
    b: Seq<i32>,
    depth: nat,
)
    requires
        all_finite_within(entries, a, depth),
        all_finite_within(entries, b, depth),
    ensures
        all_finite_within(entries, a + b, depth),
{
    lemma_all_finite_within(entries, a, depth);
    lemma_all_finite_within(entries, b, depth);
    lemma_all_finite_within(entries, a + b, depth);
    assert forall|k: int| 0 <= k < (a + b).len() implies #[trigger] finite_within(
        entries,
        (a + b)[k],
        depth,
    ) by {
        if k < a.len() {
            assert((a + b)[k] == a[k]);
        } else {
            assert((a + b)[k] == b[k - a.len()]);
        }
    }
}

/// The next generation of processes whose descendants end within `depth`
/// generations has descendants that end within `depth - 1`.
proof fn lemma_all_finite_within_next(entries: Seq<ProcessEntry>, pids: Seq<i32>, depth: nat)
    requires
        all_finite_within(entries, pids, depth),
        depth > 0,
    ensures
        all_finite_within(entries, next_generation(entries, pids), (depth - 1) as nat),
    decreases pids.len(),
{
    if pids.len() > 0 {
        let rest = pids.subrange(1, pids.len() as int);
        assert(finite_within(entries, pids[0], depth) && all_finite_within(entries, rest, depth));
        lemma_all_finite_within_next(entries, rest, depth);
        let kids = child_pids(entries, pids[0]);
        if kids.len() == 0 {
            assert(kids + next_generation(entries, rest) =~= next_generation(entries, rest));
        } else {
            assert(finite_within(entries, pids[0], depth));
            assert(all_finite_within(entries, kids, (depth - 1) as nat));
            lemma_all_finite_within_append(
                entries,
                kids,
                next_generation(entries, rest),
                (depth - 1) as nat,
            );
        }
    }
}

/// Every child of the process listed at `i` in `listed` is listed too.
pub open spec fn children_listed(entries: Seq<ProcessEntry>, listed: Seq<i32>, i: int) -> bool {
    forall|c: i32| #[trigger] child_pids(entries, listed[i]).contains(c) ==> listed.contains(c)
}

/// When the descendants of `pids` end within `depth` generations, their
/// first `depth + 1` generations hold every child of every process in them.
pub proof fn lemma_generations_closed(entries: Seq<ProcessEntry>, pids: Seq<i32>, depth: nat)
    requires
        all_finite_within(entries, pids, depth),
    ensures
        forall|i: int|
            0 <= i < generations(entries, pids, depth).len() ==> children_listed(
                entries,
                generations(entries, pids, depth),
                i,
            ),
    decreases depth,
{
    let g = generations(entries, pids, depth);
    lemma_all_finite_within(entries, pids, depth);
    if depth == 0 {
        assert forall|i: int| 0 <= i < g.len() implies children_listed(entries, g, i) by {
            assert(g[i] == pids[i]);
            assert(finite_within(entries, pids[i], depth));
            assert(child_pids(entries, pids[i]).len() == 0);
        }
    } else {
        let next = next_generation(entries, pids);
        let h = generations(entries, next, (depth - 1) as nat);
        lemma_all_finite_within_next(entries, pids, depth);
        lemma_generations_closed(entries, next, (depth - 1) as nat);
        lemma_generations_parent_first(entries, next, (depth - 1) as nat);
        assert(g == pids + h);
        assert forall|i: int| 0 <= i < g.len() implies children_listed(entries, g, i) by {
            assert forall|c: i32| #[trigger] child_pids(entries, g[i]).contains(c) implies g.contains(
                c,
            ) by {
                if i < pids.len() {
                    assert(g[i] == pids[i]);
                    lemma_next_generation_members(entries, pids, c);
                    assert(next.contains(c));
                    let k = choose|k: int| 0 <= k < next.len() && next[k] == c;
                    assert(h[k] == next[k]);
                    assert(g[k + pids.len()] == c);
                } else {
                    let i2 = i - pids.len();
                    assert(g[i] == h[i2]);
                    assert(children_listed(entries, h, i2));
                    assert(h.contains(c));
                    let k = choose|k: int| 0 <= k < h.len() && h[k] == c;
                    assert(g[k + pids.len()] == c);
                }
            }
        }
    }
}

/// The ids that `get_children_pids` lists are closed under taking children:
/// every child of a listed process is listed.
pub proof fn lemma_listed_children_complete(entries: Seq<ProcessEntry>, parent_pid: i32, depth: nat)
    requires
        finite_within(entries, parent_pid, depth),
    ensures
        forall|i: int|
            0 <= i < generations(entries, seq![parent_pid], depth).len() ==> children_listed(
                entries,
                generations(entries, seq![parent_pid], depth),
                i,
            ),
{
    lemma_all_finite_within(entries, seq![parent_pid], depth);
    lemma_generations_closed(entries, seq![parent_pid], depth);
}

} // verus!
