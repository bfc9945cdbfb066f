//! Descendants of a process as chains of parent links, and what
//! `get_children_pids` lists in their terms.

use crate::process_tree::{
    ProcessEntry, child_pids, children_listed, finite_within, generations, lemma_all_finite_within,
    lemma_child_pids_members, lemma_listed_after_parent, lemma_listed_children_complete,
    lemma_next_generation_members, next_generation, parent_listed_before,
};
use vstd::prelude::*;

verus! {

/// Row `chain[k]` of the table is a child of row `chain[k - 1]`.
pub open spec fn links_to_previous(entries: Seq<ProcessEntry>, chain: Seq<int>, k: int) -> bool {
    entries[chain[k]].parent == Some(entries[chain[k - 1]].pid)
}

/// `chain` lists rows of the table going down parent links from `start`:
/// the first row is a child of `start`, each later row a child of the row
/// before it.
pub open spec fn is_parent_chain(entries: Seq<ProcessEntry>, start: i32, chain: Seq<int>) -> bool {
    &&& forall|k: int| 0 <= k < chain.len() ==> 0 <= #[trigger] chain[k] < entries.len()
    &&& chain.len() > 0 ==> entries[chain[0]].parent == Some(start)
    &&& forall|k: int| 1 <= k < chain.len() ==> #[trigger] links_to_previous(entries, chain, k)
}

/// `pid` is a descendant of `ancestor`: a chain of parent links leads down
/// from `ancestor` to a row with id `pid`.
pub open spec fn is_descendant(entries: Seq<ProcessEntry>, ancestor: i32, pid: i32) -> bool {
    exists|chain: Seq<int>|
        #[trigger] is_parent_chain(entries, ancestor, chain) && chain.len() > 0
            && entries[chain.last()].pid == pid
}

/// A chain extended by one more row, a child of its last row, is a chain.
proof fn lemma_chain_push(entries: Seq<ProcessEntry>, start: i32, chain: Seq<int>, m: int)
    requires
        is_parent_chain(entries, start, chain),
        chain.len() > 0,
        0 <= m < entries.len(),
        entries[m].parent == Some(entries[chain.last()].pid),
    ensures
        is_parent_chain(entries, start, chain.push(m)),
{
    let c = chain.push(m);
    assert forall|k: int| 0 <= k < c.len() implies 0 <= #[trigger] c[k] < entries.len() by {
        if k < chain.len() {
            assert(c[k] == chain[k]);
        }
    }
    assert forall|k: int| 1 <= k < c.len() implies #[trigger] links_to_previous(entries, c, k) by {
        assert(c[k - 1] == chain[k - 1]);
        if k < chain.len() {
            assert(c[k] == chain[k]);
            assert(links_to_previous(entries, chain, k));
        }
    }
    assert(c[0] == chain[0]);
}

/// Every process listed at `i` or before is `parent_pid` or one of its
/// descendants.
proof fn lemma_listed_prefix_descends(
    entries: Seq<ProcessEntry>,
    parent_pid: i32,
    depth: nat,
    i: int,
)
    requires
        0 <= i < generations(entries, seq![parent_pid], depth).len(),
    ensures
        generations(entries, seq![parent_pid], depth)[i] == parent_pid || is_descendant(
            entries,
            parent_pid,
            generations(entries, seq![parent_pid], depth)[i],
        ),
    decreases i,
{
    let g = generations(entries, seq![parent_pid], depth);
    lemma_listed_after_parent(entries, parent_pid, depth);
    if i > 0 {
        assert(parent_listed_before(entries, g, i));
        let j = choose|j: int| 0 <= j < i && child_pids(entries, #[trigger] g[j]).contains(g[i]);
        lemma_listed_prefix_descends(entries, parent_pid, depth, j);
        lemma_child_pids_members(entries, g[j], g[i]);
        let m = choose|m: int|
            0 <= m < entries.len() && (#[trigger] entries[m]).pid == g[i] && entries[m].parent
                == Some(g[j]);
        if g[j] == parent_pid {
            let c = seq![m];
            assert(c[0] == m);
            assert(is_parent_chain(entries, parent_pid, c));
            assert(entries[c.last()].pid == g[i]);
        } else {
            let c = choose|c: Seq<int>|
                #[trigger] is_parent_chain(entries, parent_pid, c) && c.len() > 0
                    && entries[c.last()].pid == g[j];
            lemma_chain_push(entries, parent_pid, c, m);
            assert(c.push(m).last() == m);
            assert(is_parent_chain(entries, parent_pid, c.push(m)));
        }
    }
}

/// The end of a chain from `parent_pid` is listed.
proof fn lemma_chain_end_listed(
    entries: Seq<ProcessEntry>,
    parent_pid: i32,
    depth: nat,
    chain: Seq<int>,
)
    requires
        finite_within(entries, parent_pid, depth),
        is_parent_chain(entries, parent_pid, chain),
        chain.len() > 0,
    ensures
        generations(entries, seq![parent_pid], depth).contains(entries[chain.last()].pid),
    decreases chain.len(),
{
    let g = generations(entries, seq![parent_pid], depth);
    lemma_listed_after_parent(entries, parent_pid, depth);
    lemma_listed_children_complete(entries, parent_pid, depth);
    let m = chain.last();
    let above = if chain.len() == 1 {
        parent_pid
    } else {
        entries[chain[chain.len() - 2]].pid
    };
    assert(entries[m].parent == Some(above)) by {
        if chain.len() > 1 {
            assert(links_to_previous(entries, chain, chain.len() - 1));
        }
    }
    let k: int = if chain.len() == 1 {
        0
    } else {
        let shorter = chain.drop_last();
        assert forall|j: int| 0 <= j < shorter.len() implies 0 <= #[trigger] shorter[j]
            < entries.len() by {
            assert(shorter[j] == chain[j]);
        }
        assert forall|j: int| 1 <= j < shorter.len() implies #[trigger] links_to_previous(
            entries,
            shorter,
            j,
        ) by {
            assert(shorter[j] == chain[j]);
            assert(shorter[j - 1] == chain[j - 1]);
            assert(links_to_previous(entries, chain, j));
        }
        assert(shorter[0] == chain[0]);
        lemma_chain_end_listed(entries, parent_pid, depth, shorter);
        assert(shorter.last() == chain[chain.len() - 2]);
        choose|k: int| 0 <= k < g.len() && g[k] == above
    };
    assert(g[k] == above);
    assert(children_listed(entries, g, k));
    lemma_child_pids_members(entries, above, entries[m].pid);
    assert(child_pids(entries, g[k]).contains(entries[m].pid));
}

/// What `get_children_pids` lists is exactly `parent_pid` and its
/// descendants.
pub proof fn lemma_listed_exactly_descendants(
    entries: Seq<ProcessEntry>,
    parent_pid: i32,
    depth: nat,
    pid: i32,
)
    requires
        finite_within(entries, parent_pid, depth),
    ensures
        generations(entries, seq![parent_pid], depth).contains(pid) <==> (pid == parent_pid
            || is_descendant(entries, parent_pid, pid)),
{
    let g = generations(entries, seq![parent_pid], depth);
    lemma_listed_after_parent(entries, parent_pid, depth);
    if g.contains(pid) {
        let i = choose|i: int| 0 <= i < g.len() && g[i] == pid;
        lemma_listed_prefix_descends(entries, parent_pid, depth, i);
    }
    if pid == parent_pid {
        assert(g[0] == pid);
    }
    if is_descendant(entries, parent_pid, pid) {
        let c = choose|c: Seq<int>|
            #[trigger] is_parent_chain(entries, parent_pid, c) && c.len() > 0
                && entries[c.last()].pid == pid;
        lemma_chain_end_listed(entries, parent_pid, depth, c);
    }
}

/// No two rows of the table have the same process id.
pub open spec fn pids_unique(entries: Seq<ProcessEntry>) -> bool {
    forall|a: int, b: int|
        0 <= a < entries.len() && 0 <= b < entries.len() && a != b ==> #[trigger] entries[a].pid
            != #[trigger] entries[b].pid
}

/// The descendants of `parent_pid` that are `depth` parent links below it,
/// in the order that `get_children_pids` lists them.
pub open spec fn generation(entries: Seq<ProcessEntry>, parent_pid: i32, depth: nat) -> Seq<i32>
    decreases depth,
{
    if depth == 0 {
        seq![parent_pid]
    } else {
        next_generation(entries, generation(entries, parent_pid, (depth - 1) as nat))
    }
}

/// The first `n` rows of a chain form a chain.
proof fn lemma_chain_prefix(entries: Seq<ProcessEntry>, start: i32, chain: Seq<int>, n: int)
    requires
        is_parent_chain(entries, start, chain),
        1 <= n <= chain.len(),
    ensures
        is_parent_chain(entries, start, chain.take(n)),
{
    let c = chain.take(n);
    assert forall|k: int| 0 <= k < c.len() implies 0 <= #[trigger] c[k] < entries.len() by {
        assert(c[k] == chain[k]);
    }
    assert forall|k: int| 1 <= k < c.len() implies #[trigger] links_to_previous(entries, c, k) by {
        assert(c[k] == chain[k]);
        assert(c[k - 1] == chain[k - 1]);
        assert(links_to_previous(entries, chain, k));
    }
    assert(c[0] == chain[0]);
}

/// The rows of a chain from index `i` on form a chain from the row before.
proof fn lemma_chain_suffix(entries: Seq<ProcessEntry>, start: i32, chain: Seq<int>, i: int)
    requires
        is_parent_chain(entries, start, chain),
        1 <= i < chain.len(),
    ensures
        is_parent_chain(entries, entries[chain[i - 1]].pid, chain.subrange(i, chain.len() as int)),
{
    let c = chain.subrange(i, chain.len() as int);
    assert forall|k: int| 0 <= k < c.len() implies 0 <= #[trigger] c[k] < entries.len() by {
        assert(c[k] == chain[k + i]);
    }
    assert forall|k: int| 1 <= k < c.len() implies #[trigger] links_to_previous(entries, c, k) by {
        assert(c[k] == chain[k + i]);
        assert(c[k - 1] == chain[k - 1 + i]);
        assert(links_to_previous(entries, chain, k + i));
    }
    assert(c[0] == chain[i]);
    assert(links_to_previous(entries, chain, i));
}

/// With unique ids, a process lists each child once.
proof fn lemma_child_pids_no_duplicates(entries: Seq<ProcessEntry>, parent: i32)
    requires
        pids_unique(entries),
    ensures
        child_pids(entries, parent).no_duplicates(),
    decreases entries.len(),
{
    if entries.len() > 0 {
        let init = entries.drop_last();
        assert forall|a: int, b: int|
            0 <= a < init.len() && 0 <= b < init.len() && a != b implies #[trigger] init[a].pid
            != #[trigger] init[b].pid by {
            assert(init[a] == entries[a]);
            assert(init[b] == entries[b]);
        }
        lemma_child_pids_no_duplicates(init, parent);
        let last = entries.last();
        if last.parent == Some(parent) {
            lemma_child_pids_members(init, parent, last.pid);
            if child_pids(init, parent).contains(last.pid) {
                let m = choose|m: int|
                    0 <= m < init.len() && (#[trigger] init[m]).pid == last.pid && init[m].parent
                        == Some(parent);
                assert(entries[m] == init[m]);
                assert(entries[entries.len() - 1].pid == last.pid);
            }
            let kids = child_pids(entries, parent);
            assert forall|a: int, b: int|
                0 <= a < kids.len() && 0 <= b < kids.len() && a != b implies kids[a]
                != kids[b] by {
                if a == kids.len() - 1 {
                    assert(child_pids(init, parent)[b] == kids[b]);
                } else if b == kids.len() - 1 {
                    assert(child_pids(init, parent)[a] == kids[a]);
                }
            }
        }
    }
}

/// With unique ids, each process is a child of one process only.
proof fn lemma_one_parent(entries: Seq<ProcessEntry>, a: i32, b: i32, child: i32)
    requires
        pids_unique(entries),
        child_pids(entries, a).contains(child),
        child_pids(entries, b).contains(child),
    ensures
        a == b,
{
    lemma_child_pids_members(entries, a, child);
    lemma_child_pids_members(entries, b, child);
    let m1 = choose|m: int|
        0 <= m < entries.len() && (#[trigger] entries[m]).pid == child && entries[m].parent == Some(
            a,
        );
    let m2 = choose|m: int|
        0 <= m < entries.len() && (#[trigger] entries[m]).pid == child && entries[m].parent == Some(
            b,
        );
    assert(m1 == m2);
}

/// With unique ids, the next generation of distinct processes holds no id
/// twice.
proof fn lemma_next_generation_no_duplicates(entries: Seq<ProcessEntry>, pids: Seq<i32>)
    requires
        pids_unique(entries),
        pids.no_duplicates(),
    ensures
        next_generation(entries, pids).no_duplicates(),
    decreases pids.len(),
{
    if pids.len() > 0 {
        let rest = pids.subrange(1, pids.len() as int);
        assert forall|a: int, b: int|
            0 <= a < rest.len() && 0 <= b < rest.len() && a != b implies rest[a] != rest[b] by {
            assert(rest[a] == pids[a + 1]);
            assert(rest[b] == pids[b + 1]);
        }
        lemma_next_generation_no_duplicates(entries, rest);
        lemma_child_pids_no_duplicates(entries, pids[0]);
        let first = child_pids(entries, pids[0]);
        let later = next_generation(entries, rest);
        assert forall|i: int, j: int| 0 <= i < first.len() && 0 <= j < later.len() implies first[i]
            != later[j] by {
            if first[i] == later[j] {
                assert(later.contains(first[i]));
                lemma_next_generation_members(entries, rest, first[i]);
                let k = choose|k: int|
                    0 <= k < rest.len() && child_pids(entries, #[trigger] rest[k]).contains(
                        first[i],
                    );
                assert(first.contains(first[i]));
                lemma_one_parent(entries, pids[0], rest[k], first[i]);
                assert(rest[k] == pids[k + 1]);
            }
        }
        vstd::seq_lib::lemma_no_dup_in_concat(first, later);
    }
}

/// With unique ids, a generation holds no id twice.
proof fn lemma_generation_no_duplicates(entries: Seq<ProcessEntry>, parent_pid: i32, depth: nat)
    requires
        pids_unique(entries),
    ensures
        generation(entries, parent_pid, depth).no_duplicates(),
    decreases depth,
{
    if depth > 0 {
        lemma_generation_no_duplicates(entries, parent_pid, (depth - 1) as nat);
        lemma_next_generation_no_duplicates(
            entries,
            generation(entries, parent_pid, (depth - 1) as nat),
        );
    }
}

/// A process in generation `depth > 0` ends a chain of `depth` rows from
/// `parent_pid`.
proof fn lemma_generation_chain(entries: Seq<ProcessEntry>, parent_pid: i32, depth: nat, pid: i32) -> (chain: Seq<int>)
    requires
        depth > 0,
        generation(entries, parent_pid, depth).contains(pid),
    ensures
        is_parent_chain(entries, parent_pid, chain),
        chain.len() == depth,
        entries[chain.last()].pid == pid,
    decreases depth,
{
    let above = generation(entries, parent_pid, (depth - 1) as nat);
    lemma_next_generation_members(entries, above, pid);
    let j = choose|j: int| 0 <= j < above.len() && child_pids(entries, #[trigger] above[j]).contains(pid);
    lemma_child_pids_members(entries, above[j], pid);
    let m = choose|m: int|
        0 <= m < entries.len() && (#[trigger] entries[m]).pid == pid && entries[m].parent == Some(
            above[j],
        );
    if depth == 1 {
        assert(above == seq![parent_pid]);
        let c = seq![m];
        assert(c[0] == m);
        assert(is_parent_chain(entries, parent_pid, c));
        c
    } else {
        assert(above.contains(above[j]));
        let c = lemma_generation_chain(entries, parent_pid, (depth - 1) as nat, above[j]);
        lemma_chain_push(entries, parent_pid, c, m);
        assert(c.push(m).last() == m);
        c.push(m)
    }
}

/// With unique ids, two chains of the same length that end at the same
/// process start from the same process.
proof fn lemma_chain_origin_unique(
    entries: Seq<ProcessEntry>,
    a: i32,
    ca: Seq<int>,
    b: i32,
    cb: Seq<int>,
)
    requires
        pids_unique(entries),
        is_parent_chain(entries, a, ca),
        is_parent_chain(entries, b, cb),
        ca.len() == cb.len(),
        ca.len() > 0,
        entries[ca.last()].pid == entries[cb.last()].pid,
    ensures
        a == b,
    decreases ca.len(),
{
    let n = ca.len() as int;
    assert(ca.last() == cb.last());
    if n > 1 {
        assert(links_to_previous(entries, ca, n - 1));
        assert(links_to_previous(entries, cb, n - 1));
        lemma_chain_prefix(entries, a, ca, n - 1);
        lemma_chain_prefix(entries, b, cb, n - 1);
        assert(ca.take(n - 1).last() == ca[n - 2]);
        assert(cb.take(n - 1).last() == cb[n - 2]);
        lemma_chain_origin_unique(entries, a, ca.take(n - 1), b, cb.take(n - 1));
    }
}

/// One parent link down from a process whose descendants end within `depth`
/// generations leads to one whose descendants end within `depth - 1`.
proof fn lemma_finite_within_step(entries: Seq<ProcessEntry>, pid: i32, depth: nat, m: int)
    requires
        finite_within(entries, pid, depth),
        0 <= m < entries.len(),
        entries[m].parent == Some(pid),
    ensures
        depth > 0,
        finite_within(entries, entries[m].pid, (depth - 1) as nat),
{
    lemma_child_pids_members(entries, pid, entries[m].pid);
    let kids = child_pids(entries, pid);
    let k = choose|k: int| 0 <= k < kids.len() && kids[k] == entries[m].pid;
    lemma_all_finite_within(entries, kids, (depth - 1) as nat);
}

/// Going down a chain of `n` rows from a process whose descendants end
/// within `depth` generations uses up `n` of them.
proof fn lemma_chain_within(entries: Seq<ProcessEntry>, start: i32, depth: nat, chain: Seq<int>)
    requires
        finite_within(entries, start, depth),
        is_parent_chain(entries, start, chain),
        chain.len() > 0,
    ensures
        chain.len() <= depth,
        finite_within(entries, entries[chain.last()].pid, (depth - chain.len()) as nat),
    decreases chain.len(),
{
    let n = chain.len() as int;
    if n == 1 {
        lemma_finite_within_step(entries, start, depth, chain[0]);
    } else {
        lemma_chain_prefix(entries, start, chain, n - 1);
        lemma_chain_within(entries, start, depth, chain.take(n - 1));
        assert(chain.take(n - 1).last() == chain[n - 2]);
        assert(links_to_previous(entries, chain, n - 1));
        lemma_finite_within_step(
            entries,
            entries[chain[n - 2]].pid,
            (depth - (n - 1)) as nat,
            chain[n - 1],
        );
    }
}

/// A process whose descendants end is not its own descendant.
proof fn lemma_no_cycle_through(entries: Seq<ProcessEntry>, pid: i32, depth: nat, chain: Seq<int>)
    requires
        finite_within(entries, pid, depth),
        is_parent_chain(entries, pid, chain),
        chain.len() > 0,
    ensures
        entries[chain.last()].pid != pid,
    decreases depth,
{
    lemma_chain_within(entries, pid, depth, chain);
    if entries[chain.last()].pid == pid {
        lemma_no_cycle_through(entries, pid, (depth - chain.len()) as nat, chain);
    }
}

/// With unique ids, below a process whose descendants end, no process is in
/// two different generations.
proof fn lemma_generations_disjoint(
    entries: Seq<ProcessEntry>,
    parent_pid: i32,
    depth: nat,
    k: nat,
    l: nat,
    pid: i32,
)
    requires
        pids_unique(entries),
        finite_within(entries, parent_pid, depth),
        k < l,
        generation(entries, parent_pid, k).contains(pid),
    ensures
        !generation(entries, parent_pid, l).contains(pid),
{
    if generation(entries, parent_pid, l).contains(pid) {
        let cl = lemma_generation_chain(entries, parent_pid, l, pid);
        if k == 0 {
            assert(generation(entries, parent_pid, 0) == seq![parent_pid]);
            assert(pid == parent_pid);
            lemma_no_cycle_through(entries, parent_pid, depth, cl);
        } else {
            let ck = lemma_generation_chain(entries, parent_pid, k, pid);
            let i = l - k;
            let above = entries[cl[i - 1]].pid;
            lemma_chain_suffix(entries, parent_pid, cl, i);
            let tail = cl.subrange(i, cl.len() as int);
            assert(tail.last() == cl.last());
            lemma_chain_origin_unique(entries, parent_pid, ck, above, tail);
            lemma_chain_prefix(entries, parent_pid, cl, i);
            assert(cl.take(i).last() == cl[i - 1]);
            lemma_no_cycle_through(entries, parent_pid, depth, cl.take(i));
        }
    }
}

/// Every process in `n` generations from generation `k` is in one of the
/// generations `k` to `k + n`.
proof fn lemma_generations_span(
    entries: Seq<ProcessEntry>,
    parent_pid: i32,
    k: nat,
    n: nat,
    pid: i32,
)
    requires
        generations(entries, generation(entries, parent_pid, k), n).contains(pid),
    ensures
        exists|l: nat| k <= l <= k + n && #[trigger] generation(entries, parent_pid, l).contains(pid),
    decreases n,
{
    let gk = generation(entries, parent_pid, k);
    if n == 0 {
        assert(generation(entries, parent_pid, k).contains(pid));
    } else {
        let rest = generations(entries, generation(entries, parent_pid, k + 1), (n - 1) as nat);
        assert(next_generation(entries, gk) == generation(entries, parent_pid, k + 1));
        assert(generations(entries, gk, n) == gk + rest);
        let i = choose|i: int| 0 <= i < (gk + rest).len() && (gk + rest)[i] == pid;
        if i < gk.len() {
            assert(gk[i] == pid);
            assert(generation(entries, parent_pid, k).contains(pid));
        } else {
            assert(rest[i - gk.len()] == pid);
            lemma_generations_span(entries, parent_pid, k + 1, (n - 1) as nat, pid);
        }
    }
}

/// With unique ids, below a process whose descendants end, `n` generations
/// from generation `k` hold no id twice.
proof fn lemma_generations_no_duplicates(
    entries: Seq<ProcessEntry>,
    parent_pid: i32,
    depth: nat,
    k: nat,
    n: nat,
)
    requires
        pids_unique(entries),
        finite_within(entries, parent_pid, depth),
    ensures
        generations(entries, generation(entries, parent_pid, k), n).no_duplicates(),
    decreases n,
{
    let gk = generation(entries, parent_pid, k);
    lemma_generation_no_duplicates(entries, parent_pid, k);
    if n > 0 {
        let rest = generations(entries, generation(entries, parent_pid, k + 1), (n - 1) as nat);
        assert(next_generation(entries, gk) == generation(entries, parent_pid, k + 1));
        assert(generations(entries, gk, n) == gk + rest);
        lemma_generations_no_duplicates(entries, parent_pid, depth, k + 1, (n - 1) as nat);
        assert forall|i: int, j: int| 0 <= i < gk.len() && 0 <= j < rest.len() implies gk[i]
            != rest[j] by {
            if gk[i] == rest[j] {
                assert(rest.contains(gk[i]));
                lemma_generations_span(entries, parent_pid, k + 1, (n - 1) as nat, gk[i]);
                let l = choose|l: nat|
                    k + 1 <= l <= k + 1 + (n - 1) && #[trigger] generation(
                        entries,
                        parent_pid,
                        l,
                    ).contains(gk[i]);
                assert(gk.contains(gk[i]));
                lemma_generations_disjoint(entries, parent_pid, depth, k, l, gk[i]);
            }
        }
        vstd::seq_lib::lemma_no_dup_in_concat(gk, rest);
    }
}

/// When no two rows of the table share an id, `get_children_pids` lists no
/// id twice.
pub proof fn lemma_listed_once(entries: Seq<ProcessEntry>, parent_pid: i32, depth: nat)
    requires
        pids_unique(entries),
        finite_within(entries, parent_pid, depth),
    ensures
        generations(entries, seq![parent_pid], depth).no_duplicates(),
{
    assert(generation(entries, parent_pid, 0) == seq![parent_pid]);
    lemma_generations_no_duplicates(entries, parent_pid, depth, 0, depth);
}

} // verus!
