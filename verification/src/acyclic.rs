//! A process table without cycles of parent links always meets what
//! `get_children` asks: the descendants of every process end.

use crate::descendants::{is_parent_chain, links_to_previous};
use crate::process_tree::{
    ProcessEntry, all_finite_within, child_pids, finite_within, lemma_all_finite_within,
    lemma_child_pids_members,
};
use vstd::prelude::*;

verus! {

/// No process is its own descendant: going down parent links from a process
/// never leads back to it.
pub open spec fn no_process_is_own_descendant(entries: Seq<ProcessEntry>) -> bool {
    forall|start: i32, chain: Seq<int>|
        #[trigger] is_parent_chain(entries, start, chain) && chain.len() > 0 ==> entries[chain.last()].pid
            != start
}

/// When the descendants of `parent` do not end within `depth` generations,
/// there is a chain of `depth + 1` rows going down from `parent`.
proof fn lemma_long_chain(entries: Seq<ProcessEntry>, parent: i32, depth: nat) -> (chain: Seq<int>)
    requires
        !finite_within(entries, parent, depth),
    ensures
        chain.len() == depth + 1,
        is_parent_chain(entries, parent, chain),
    decreases depth,
{
    let kids = child_pids(entries, parent);
    assert(kids.len() > 0);
    let k: int = if depth == 0 {
        0
    } else {
        lemma_all_finite_within(entries, kids, (depth - 1) as nat);
        assert(!all_finite_within(entries, kids, (depth - 1) as nat));
        choose|k: int| 0 <= k < kids.len() && !finite_within(entries, kids[k], (depth - 1) as nat)
    };
    let child = kids[k];
    assert(kids.contains(child));
    lemma_child_pids_members(entries, parent, child);
    let m = choose|m: int|
        0 <= m < entries.len() && (#[trigger] entries[m]).pid == child && entries[m].parent == Some(
            parent,
        );
    if depth == 0 {
        let chain = seq![m];
        assert(chain[0] == m);
        chain
    } else {
        let sub = lemma_long_chain(entries, child, (depth - 1) as nat);
        let chain = seq![m] + sub;
        assert(chain[0] == m);
        assert forall|j: int| 0 <= j < chain.len() implies 0 <= #[trigger] chain[j] < entries.len() by {
            if j > 0 {
                assert(chain[j] == sub[j - 1]);
            }
        }
        assert forall|j: int| 1 <= j < chain.len() implies #[trigger] links_to_previous(
            entries,
            chain,
            j,
        ) by {
            assert(chain[j] == sub[j - 1]);
            if j == 1 {
                assert(chain[0] == m);
            } else {
                assert(chain[j - 1] == sub[j - 2]);
                assert(links_to_previous(entries, sub, j - 1));
            }
        }
        chain
    }
}

/// A sequence of more than `n` numbers below `n` repeats one of them.
proof fn lemma_pigeonhole(s: Seq<int>, n: int) -> (pair: (int, int))
    requires
        n >= 0,
        s.len() > n,
        forall|k: int| 0 <= k < s.len() ==> 0 <= #[trigger] s[k] < n,
    ensures
        0 <= pair.0 < pair.1 < s.len(),
        s[pair.0] == s[pair.1],
{
    if s.no_duplicates() {
        s.unique_seq_to_set();
        vstd::set_lib::lemma_int_range(0, n);
        assert(s.to_set().subset_of(vstd::set_lib::set_int_range(0, n)));
        vstd::set_lib::lemma_len_subset(s.to_set(), vstd::set_lib::set_int_range(0, n));
        assert(false);
        (0, 1)
    } else {
        let (a, b) = choose|a: int, b: int|
            0 <= a < s.len() && 0 <= b < s.len() && a != b && s[a] == s[b];
        if a < b {
            (a, b)
        } else {
            (b, a)
        }
    }
}

/// In a table where no process is its own descendant, the descendants of
/// every process end within as many generations as the table has rows; so
/// `has_finite_descendants` holds and `get_children` and
/// `get_children_pids` can be called with any process of such a table.
pub proof fn lemma_acyclic_descendants_finite(entries: Seq<ProcessEntry>, parent: i32)
    requires
        no_process_is_own_descendant(entries),
    ensures
        finite_within(entries, parent, entries.len()),
{
    if !finite_within(entries, parent, entries.len()) {
        let chain = lemma_long_chain(entries, parent, entries.len());
        let (a, b) = lemma_pigeonhole(chain, entries.len() as int);
        let start = entries[chain[a]].pid;
        let sub = chain.subrange(a + 1, b + 1);
        assert(sub[0] == chain[a + 1]);
        assert(links_to_previous(entries, chain, a + 1));
        assert forall|j: int| 0 <= j < sub.len() implies 0 <= #[trigger] sub[j] < entries.len() by {
            assert(sub[j] == chain[a + 1 + j]);
        }
        assert forall|j: int| 1 <= j < sub.len() implies #[trigger] links_to_previous(
            entries,
            sub,
            j,
        ) by {
            assert(sub[j] == chain[a + 1 + j]);
            assert(sub[j - 1] == chain[a + j]);
            assert(links_to_previous(entries, chain, a + 1 + j));
        }
        assert(is_parent_chain(entries, start, sub));
        assert(sub.last() == chain[b]);
    }
}

} // verus!
