//! Where each sibling group lands in the flat catalog. The breadth-first
//! pass appends a directory's children as one block at the back of the
//! queue, so the records whose parent field is `p` are exactly the children
//! of the node emitted at flat index `p`, contiguous and in order. This is
//! what makes a directory's forward reference land on its first child and
//! the per-group "last" flags land on each group's final record.

use vstd::prelude::*;

use crate::filetree::FileSystemNode;
use crate::filetree::node_count;
use crate::filetree::node_marked;
use crate::filetree::forest_marked;
use crate::linearize::bfs_cat;
use crate::linearize::bfs_next_queue;
use crate::linearize::lemma_queue_step_count;
use crate::linearize::queue_count;
use crate::linearize::spec_entry_of;
use crate::linearize::tag_children;

verus! {

/// The (parent tag, node) pairs in the order the breadth-first pass emits
/// them; the record at flat index `idx + k` is produced by element `k`.
pub open spec fn bfs_nodes(q: Seq<(int, FileSystemNode)>, idx: int) -> Seq<(int, FileSystemNode)>
    decreases queue_count(q),
    via bfs_nodes_decreases
{
    if q.len() == 0 {
        Seq::empty()
    } else {
        seq![q[0]] + bfs_nodes(bfs_next_queue(q, idx), idx + 1)
    }
}

#[via_fn]
proof fn bfs_nodes_decreases(q: Seq<(int, FileSystemNode)>, idx: int) {
    if q.len() > 0 {
        lemma_queue_step_count(q, idx);
    }
}

pub proof fn lemma_queue_count_ge_len(q: Seq<(int, FileSystemNode)>)
    ensures
        queue_count(q) >= q.len(),
    decreases q.len(),
{
    if q.len() > 0 {
        lemma_queue_count_ge_len(q.skip(1));
        assert(node_count(q[0].1) >= 1);
    }
}

/// The catalog record at each position is the record of the node processed
/// there, under its parent tag.
pub proof fn lemma_bfs_nodes_cat(q: Seq<(int, FileSystemNode)>, idx: int)
    ensures
        bfs_nodes(q, idx).len() == queue_count(q),
        bfs_cat(q, idx).len() == queue_count(q),
        forall|k: int|
            0 <= k < queue_count(q) ==> #[trigger] bfs_cat(q, idx)[k] == spec_entry_of(
                bfs_nodes(q, idx)[k].1,
                bfs_nodes(q, idx)[k].0,
            ),
    decreases queue_count(q),
{
    if q.len() > 0 {
        lemma_queue_step_count(q, idx);
        lemma_bfs_nodes_cat(bfs_next_queue(q, idx), idx + 1);
        assert(bfs_nodes(q, idx)[0] == q[0]);
        assert(bfs_cat(q, idx)[0] == spec_entry_of(q[0].1, q[0].0));
        assert(forall|k: int|
            1 <= k < queue_count(q) ==> #[trigger] bfs_nodes(q, idx)[k] == bfs_nodes(
                bfs_next_queue(q, idx),
                idx + 1,
            )[k - 1]);
        assert(forall|k: int|
            1 <= k < queue_count(q) ==> #[trigger] bfs_cat(q, idx)[k] == bfs_cat(
                bfs_next_queue(q, idx),
                idx + 1,
            )[k - 1]);
    }
}

/// Children emitted by the nodes at positions below `m`.
pub open spec fn kids_before(ns: Seq<(int, FileSystemNode)>, m: int) -> int
    decreases m,
{
    if m <= 0 {
        0
    } else {
        kids_before(ns, m - 1) + ns[m - 1].1.children_spec().len()
    }
}

pub proof fn lemma_kids_before_nonneg(ns: Seq<(int, FileSystemNode)>, m: int)
    ensures
        kids_before(ns, m) >= 0,
    decreases m,
{
    if m > 0 {
        lemma_kids_before_nonneg(ns, m - 1);
    }
}

proof fn lemma_kids_before_cons(ns: Seq<(int, FileSystemNode)>, m: int)
    requires
        ns.len() > 0,
        1 <= m <= ns.len(),
    ensures
        kids_before(ns, m) == ns[0].1.children_spec().len() + kids_before(ns.skip(1), m - 1),
    decreases m,
{
    if m > 1 {
        lemma_kids_before_cons(ns, m - 1);
        assert(ns.skip(1)[m - 2] == ns[m - 1]);
    } else {
        assert(kids_before(ns, 0) == 0);
        assert(kids_before(ns.skip(1), 0) == 0);
    }
}

/// The block of positions holding the children of the node at position
/// `p - idx`: they sit contiguously from `qlen + kids_before`, carry parent
/// tag `p`, and no other position carries that tag.
pub open spec fn child_block(ns: Seq<(int, FileSystemNode)>, qlen: int, idx: int, p: int) -> bool {
    let cs = ns[p - idx].1.children_spec();
    let start = qlen + kids_before(ns, p - idx);
    &&& start + cs.len() <= ns.len()
    &&& forall|j: int| start <= j < start + cs.len() ==> #[trigger] ns[j] == (p, cs[j - start])
    &&& forall|j: int| 0 <= j < ns.len() && (#[trigger] ns[j]).0 == p ==> start <= j < start
        + cs.len()
}

/// The structure of the breadth-first emission order: the queue itself is
/// emitted first, every later node carries a parent tag at or above `idx`,
/// and each emitted node's children form exactly the block of records
/// tagged with its flat index.
pub proof fn lemma_bfs_structure(q: Seq<(int, FileSystemNode)>, idx: int)
    requires
        forall|i: int| 0 <= i < q.len() ==> (#[trigger] q[i]).0 < idx,
    ensures
        bfs_nodes(q, idx).len() == queue_count(q),
        forall|k: int| 0 <= k < q.len() ==> #[trigger] bfs_nodes(q, idx)[k] == q[k],
        forall|j: int|
            q.len() <= j < bfs_nodes(q, idx).len() ==> idx <= (#[trigger] bfs_nodes(q, idx)[j]).0,
        forall|j: int| 0 <= j < bfs_nodes(q, idx).len() ==> (#[trigger] bfs_nodes(q, idx)[j]).0
            < idx + j,
        forall|p: int|
            idx <= p < idx + bfs_nodes(q, idx).len() ==> #[trigger] child_block(
                bfs_nodes(q, idx),
                q.len() as int,
                idx,
                p,
            ),
    decreases queue_count(q),
{
    if q.len() == 0 {
        return ;
    }
    lemma_queue_step_count(q, idx);
    lemma_queue_count_ge_len(q);
    let qn = bfs_next_queue(q, idx);
    let cs0 = q[0].1.children_spec();
    let is_dir0 = q[0].1.is_dir_spec();
    assert(!is_dir0 ==> cs0.len() == 0);
    assert forall|i: int| 0 <= i < qn.len() implies (#[trigger] qn[i]).0 < idx + 1 by {
        if is_dir0 && i >= q.len() - 1 {
            assert(qn[i] == tag_children(cs0, idx)[i - (q.len() - 1)]);
        } else {
            assert(qn[i] == q.skip(1)[i]);
            assert(q.skip(1)[i] == q[i + 1]);
        }
    }
    lemma_bfs_structure(qn, idx + 1);
    lemma_queue_count_ge_len(qn);
    let ns = bfs_nodes(q, idx);
    let nsn = bfs_nodes(qn, idx + 1);
    assert(ns == seq![q[0]] + nsn);
    assert(ns[0] == q[0]);
    assert(forall|k: int| 1 <= k < ns.len() ==> #[trigger] ns[k] == nsn[k - 1]);
    assert(ns.len() == queue_count(q));
    assert(nsn.len() == queue_count(qn));
    // the queue length after the step
    assert(qn.len() == if is_dir0 {
        q.len() - 1 + cs0.len()
    } else {
        q.len() - 1
    });
    // (b) the first |q| emitted elements are q itself
    assert forall|k: int| 0 <= k < q.len() implies #[trigger] ns[k] == q[k] by {
        if k >= 1 {
            assert(ns[k] == nsn[k - 1]);
            assert(k - 1 < qn.len());
            assert(nsn[k - 1] == qn[k - 1]);
            assert(qn[k - 1] == q.skip(1)[k - 1]);
            assert(q.skip(1)[k - 1] == q[k]);
        }
    }
    // (c) everything after the queue carries a tag at or above idx
    assert forall|j: int| q.len() <= j < ns.len() implies idx <= (#[trigger] ns[j]).0 by {
        assert(ns[j] == nsn[j - 1]);
        if j - 1 < qn.len() {
            assert(nsn[j - 1] == qn[j - 1]);
            assert(j - 1 >= q.len() - 1);
            assert(is_dir0);
            assert(qn[j - 1] == tag_children(cs0, idx)[j - 1 - (q.len() - 1)]);
        } else {
            assert(idx + 1 <= nsn[j - 1].0);
        }
    }
    // every tag lies strictly below its position's flat index
    assert forall|j: int| 0 <= j < ns.len() implies (#[trigger] ns[j]).0 < idx + j by {
        if j >= 1 {
            assert(ns[j] == nsn[j - 1]);
            assert(nsn[j - 1].0 < (idx + 1) + (j - 1));
        }
    }
    // (d) each emitted node's children form its block
    assert forall|p: int| idx <= p < idx + ns.len() implies #[trigger] child_block(
        ns,
        q.len() as int,
        idx,
        p,
    ) by {
        let m = p - idx;
        let cs = ns[m].1.children_spec();
        let start = q.len() + kids_before(ns, m);
        if p == idx {
            // children of the head: they sit right after the rest of the queue
            assert(kids_before(ns, 0) == 0);
            assert(start == q.len());
            assert(is_dir0 || cs.len() == 0);
            assert(start + cs.len() <= ns.len()) by {
                if cs.len() > 0 {
                    assert(qn.len() <= queue_count(qn));
                }
            }
            assert forall|j: int| start <= j < start + cs.len() implies #[trigger] ns[j] == (
            p,
            cs[j - start],
            ) by {
                assert(is_dir0);
                assert(ns[j] == nsn[j - 1]);
                assert(j - 1 < qn.len());
                assert(nsn[j - 1] == qn[j - 1]);
                assert(qn[j - 1] == tag_children(cs0, idx)[j - 1 - (q.len() - 1)]);
                assert(tag_children(cs0, idx)[j - q.len()] == (idx, cs0[j - q.len()]));
            }
            assert forall|j: int| 0 <= j < ns.len() && (#[trigger] ns[j]).0 == p implies start <= j
                < start + cs.len() by {
                assert(j != 0);
                assert(ns[j] == nsn[j - 1]);
                if j - 1 < qn.len() {
                    assert(nsn[j - 1] == qn[j - 1]);
                    if is_dir0 && j - 1 >= q.len() - 1 {
                        assert(qn[j - 1] == tag_children(cs0, idx)[j - 1 - (q.len() - 1)]);
                        assert(q.len() <= j < q.len() + cs0.len());
                    } else {
                        assert(qn[j - 1] == q.skip(1)[j - 1]);
                        assert(q.skip(1)[j - 1] == q[j]);
                        assert(q[j].0 < idx);
                        assert(false);
                    }
                } else {
                    assert(idx + 1 <= nsn[j - 1].0);
                    assert(false);
                }
            }
        } else {
            // children of a later node: shift the inner statement by one
            let pm = p - (idx + 1);
            assert(ns[m] == nsn[m - 1]);
            assert(m - 1 == pm);
            assert(idx + 1 <= p < idx + 1 + nsn.len());
            assert(child_block(nsn, qn.len() as int, idx + 1, p));
            let cs_inner = nsn[pm].1.children_spec();
            assert(cs_inner == cs);
            let start_inner = qn.len() + kids_before(nsn, pm);
            lemma_kids_before_nonneg(nsn, pm);
            assert(start_inner >= 0);
            assert(start_inner + cs_inner.len() <= nsn.len());
            lemma_kids_before_cons(ns, m);
            assert(ns.skip(1) =~= nsn);
            assert(kids_before(ns, m) == cs0.len() + kids_before(nsn, m - 1));
            assert(start == q.len() + cs0.len() + kids_before(nsn, pm));
            assert(start == start_inner + 1);
            assert(start + cs.len() <= ns.len());
            assert forall|j: int| start <= j < start + cs.len() implies #[trigger] ns[j] == (
            p,
            cs[j - start],
            ) by {
                assert(ns[j] == nsn[j - 1]);
                assert(start_inner <= j - 1 < start_inner + cs_inner.len());
                assert(nsn[j - 1] == (p, cs_inner[j - 1 - start_inner]));
            }
            assert forall|j: int| 0 <= j < ns.len() && (#[trigger] ns[j]).0 == p implies start <= j
                < start + cs.len() by {
                assert(j != 0);
                assert(ns[j] == nsn[j - 1]);
                assert(start_inner <= j - 1 < start_inner + cs_inner.len());
            }
        }
    }
}

/// Sibling marking survives the breadth-first pass: every emitted node is
/// marked below when every queued node is.
pub proof fn lemma_bfs_nodes_marked(q: Seq<(int, FileSystemNode)>, idx: int)
    requires
        forall|i: int| 0 <= i < q.len() ==> node_marked((#[trigger] q[i]).1),
    ensures
        forall|k: int|
            0 <= k < bfs_nodes(q, idx).len() ==> node_marked(
                (#[trigger] bfs_nodes(q, idx)[k]).1,
            ),
    decreases queue_count(q),
{
    if q.len() > 0 {
        lemma_queue_step_count(q, idx);
        let qn = bfs_next_queue(q, idx);
        assert forall|i: int| 0 <= i < qn.len() implies node_marked((#[trigger] qn[i]).1) by {
            if q[0].1.is_dir_spec() && i >= q.len() - 1 {
                assert(qn[i] == tag_children(q[0].1.children_spec(), idx)[i - (q.len() - 1)]);
                assert(qn[i].1 == q[0].1.children_spec()[i - (q.len() - 1)]);
                assert(node_marked(q[0].1));
                assert(forest_marked(q[0].1.children_spec()));
            } else {
                assert(qn[i] == q.skip(1)[i]);
                assert(q.skip(1)[i] == q[i + 1]);
            }
        }
        lemma_bfs_nodes_marked(qn, idx + 1);
        assert(forall|k: int|
            1 <= k < bfs_nodes(q, idx).len() ==> #[trigger] bfs_nodes(q, idx)[k] == bfs_nodes(
                qn,
                idx + 1,
            )[k - 1]);
        assert(bfs_nodes(q, idx)[0] == q[0]);
    }
}

} // verus!
