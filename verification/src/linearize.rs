//! Breadth-first linearization of the file tree into the flat catalog and the
//! data segment. The specification runs a queue of (parent index, node)
//! pairs: the head node is emitted as one record, and a directory appends its
//! children tagged with the directory's own flat index. The root itself is
//! never emitted; its children carry the parent index -1.

use vstd::prelude::*;

use crate::archive::EntryV;
use crate::archive::VDFSCatalogEntry;
use crate::archive::cat_view;
use crate::archive::ENTRY_TYPE_DIR;
use crate::archive::ENTRY_TYPE_LAST;
use crate::bytes::NAME_WIDTH;
use crate::bytes::spec_pad_name;
use crate::filetree::FileSystemNode;
use crate::filetree::node_count;
use crate::filetree::forest_count;
use crate::filetree::node_data_len;
use crate::filetree::forest_data_len;
use crate::filetree::node_wf;
use crate::filetree::forest_wf;

verus! {

broadcast use vstd::std_specs::vec::axiom_vec_index_decreases;

/// The record a node produces, before any forward reference is resolved.
pub open spec fn spec_entry_of(n: FileSystemNode, par: int) -> EntryV {
    EntryV {
        name: spec_pad_name(n.name_spec()),
        next_index: 0,
        size: if n.is_dir_spec() {
            0u32
        } else {
            n.size_spec() as u32
        },
        typ: if n.is_dir_spec() {
            if n.is_last_spec() {
                ENTRY_TYPE_DIR | ENTRY_TYPE_LAST
            } else {
                ENTRY_TYPE_DIR
            }
        } else {
            if n.is_last_spec() {
                ENTRY_TYPE_LAST
            } else {
                0u32
            }
        },
        attributes: 0,
        parent_id: par,
        is_dir: n.is_dir_spec(),
    }
}

/// A sibling group, each member tagged with its parent's flat index.
pub open spec fn tag_children(cs: Seq<FileSystemNode>, p: int) -> Seq<(int, FileSystemNode)> {
    Seq::new(cs.len(), |i: int| (p, cs[i]))
}

/// Total number of catalog records the queued subtrees will produce.
pub open spec fn queue_count(q: Seq<(int, FileSystemNode)>) -> nat
    decreases q,
{
    if q.len() == 0 {
        0
    } else {
        node_count(q[0].1) + queue_count(q.skip(1))
    }
}

/// Every queued node respects the format's machine limits.
pub open spec fn queue_wf(q: Seq<(int, FileSystemNode)>) -> bool {
    forall|i: int| 0 <= i < q.len() ==> node_wf(#[trigger] q[i].1)
}

/// The queue after the head node, at flat index `idx`, has been processed.
pub open spec fn bfs_next_queue(q: Seq<(int, FileSystemNode)>, idx: int) -> Seq<
    (int, FileSystemNode),
> {
    if q[0].1.is_dir_spec() {
        q.skip(1) + tag_children(q[0].1.children_spec(), idx)
    } else {
        q.skip(1)
    }
}

pub proof fn lemma_queue_count_add(a: Seq<(int, FileSystemNode)>, b: Seq<(int, FileSystemNode)>)
    ensures
        queue_count(a + b) == queue_count(a) + queue_count(b),
    decreases a.len(),
{
    if a.len() == 0 {
        assert(a + b =~= b);
    } else {
        assert((a + b).skip(1) =~= a.skip(1) + b);
        assert((a + b)[0] == a[0]);
        lemma_queue_count_add(a.skip(1), b);
    }
}

pub proof fn lemma_tag_children_count(cs: Seq<FileSystemNode>, p: int)
    ensures
        queue_count(tag_children(cs, p)) == forest_count(cs),
    decreases cs.len(),
{
    if cs.len() > 0 {
        assert(tag_children(cs, p).skip(1) =~= tag_children(cs.skip(1), p));
        lemma_tag_children_count(cs.skip(1), p);
    }
}

/// Processing the head of a non-empty queue shrinks the pending record count
/// by exactly one.
pub proof fn lemma_queue_step_count(q: Seq<(int, FileSystemNode)>, idx: int)
    requires
        q.len() > 0,
    ensures
        queue_count(bfs_next_queue(q, idx)) + 1 == queue_count(q),
{
    match q[0].1 {
        FileSystemNode::Directory { children, .. } => {
            lemma_queue_count_add(q.skip(1), tag_children(children@, idx));
            lemma_tag_children_count(children@, idx);
        },
        FileSystemNode::File { .. } => {},
    }
}

/// The flat catalog (with unresolved forward references) produced by the
/// queued subtrees, the head record receiving flat index `idx`.
pub open spec fn bfs_cat(q: Seq<(int, FileSystemNode)>, idx: int) -> Seq<EntryV>
    decreases queue_count(q),
    via bfs_cat_decreases
{
    if q.len() == 0 {
        Seq::empty()
    } else {
        seq![spec_entry_of(q[0].1, q[0].0)] + bfs_cat(bfs_next_queue(q, idx), idx + 1)
    }
}

#[via_fn]
proof fn bfs_cat_decreases(q: Seq<(int, FileSystemNode)>, idx: int) {
    if q.len() > 0 {
        lemma_queue_step_count(q, idx);
    }
}

/// The data segment produced by the queued subtrees: the concatenation of
/// every file's content in visitation order.
pub open spec fn bfs_data(q: Seq<(int, FileSystemNode)>, idx: int) -> Seq<u8>
    decreases queue_count(q),
    via bfs_data_decreases
{
    if q.len() == 0 {
        Seq::empty()
    } else {
        q[0].1.data_spec() + bfs_data(bfs_next_queue(q, idx), idx + 1)
    }
}

#[via_fn]
proof fn bfs_data_decreases(q: Seq<(int, FileSystemNode)>, idx: int) {
    if q.len() > 0 {
        lemma_queue_step_count(q, idx);
    }
}

/// The initial queue for a root node: a directory root contributes its
/// children under the sentinel parent -1 and is itself never emitted; a bare
/// file root is emitted as a single record.
pub open spec fn init_queue(root: FileSystemNode) -> Seq<(int, FileSystemNode)> {
    if root.is_dir_spec() {
        tag_children(root.children_spec(), -1)
    } else {
        seq![(-1int, root)]
    }
}

/// The archive built from this root stays within the format's 32-bit offsets:
/// header, catalog and data segment together fit a 32-bit byte offset.
pub open spec fn archive_fits(root: FileSystemNode) -> bool {
    296 + 80 * queue_count(init_queue(root)) + bfs_data(init_queue(root), 0).len() <= 0xffff_ffff
}

/// The lifted ghost image of the executable queue.
pub open spec fn lift_queue<'a>(q: Seq<(i32, &'a FileSystemNode)>) -> Seq<(int, FileSystemNode)> {
    Seq::new(q.len(), |i: int| (q[i].0 as int, *q[i].1))
}

/// Machine limits survive one step of the breadth-first pass.
pub proof fn lemma_queue_wf_step(q: Seq<(int, FileSystemNode)>, idx: int)
    requires
        queue_wf(q),
    ensures
        q.len() > 0 ==> queue_wf(bfs_next_queue(q, idx)),
{
    if q.len() > 0 {
        assert forall|i: int|
            0 <= i < bfs_next_queue(q, idx).len() implies node_wf(
            #[trigger] bfs_next_queue(q, idx)[i].1,
        ) by {
            if q[0].1.is_dir_spec() && i >= q.len() - 1 {
                assert(bfs_next_queue(q, idx)[i].1 == q[0].1.children_spec()[i - (q.len() - 1)]);
                assert(node_wf(q[0].1));
                assert(forest_wf(q[0].1.children_spec()));
            } else {
                assert(bfs_next_queue(q, idx)[i] == q.skip(1)[i]);
                assert(q.skip(1)[i] == q[i + 1]);
            }
        }
    }
}

/// Pointwise facts about every record the linearization produces.
pub proof fn lemma_bfs_cat_wf(q: Seq<(int, FileSystemNode)>, idx: int)
    requires
        queue_wf(q),
    ensures
        bfs_cat(q, idx).len() == queue_count(q),
        forall|k: int| 0 <= k < bfs_cat(q, idx).len() ==> (#[trigger] bfs_cat(q, idx)[k]).name.len()
            == NAME_WIDTH,
        forall|k: int| 0 <= k < bfs_cat(q, idx).len() ==> (#[trigger] bfs_cat(q, idx)[k]).next_index
            == 0,
        forall|k: int| 0 <= k < bfs_cat(q, idx).len() ==> (#[trigger] bfs_cat(q, idx)[k]).attributes
            == 0,
        forall|k: int|
            0 <= k < bfs_cat(q, idx).len() ==> ((#[trigger] bfs_cat(q, idx)[k]).is_dir <==> (bfs_cat(
                q,
                idx,
            )[k].typ == ENTRY_TYPE_DIR || bfs_cat(q, idx)[k].typ == (ENTRY_TYPE_DIR
                | ENTRY_TYPE_LAST))),
        forall|k: int|
            0 <= k < bfs_cat(q, idx).len() ==> (!(#[trigger] bfs_cat(q, idx)[k]).is_dir <==> bfs_cat(
                q,
                idx,
            )[k].is_plain()),
        forall|k: int|
            0 <= k < bfs_cat(q, idx).len() ==> ((#[trigger] bfs_cat(q, idx)[k]).is_dir ==> bfs_cat(
                q,
                idx,
            )[k].size == 0),
    decreases queue_count(q),
{
    assert(0x8000_0000u32 | 0x4000_0000u32 == 0xc000_0000u32) by (bit_vector);
    assert(ENTRY_TYPE_DIR | ENTRY_TYPE_LAST == 0xc000_0000u32);
    if q.len() > 0 {
        lemma_queue_step_count(q, idx);
        assert(node_wf(q[0].1));
        match q[0].1 {
            FileSystemNode::Directory { children, .. } => {
                assert forall|i: int|
                    0 <= i < bfs_next_queue(q, idx).len() implies node_wf(
                    #[trigger] bfs_next_queue(q, idx)[i].1,
                ) by {
                    if i < q.len() - 1 {
                        assert(bfs_next_queue(q, idx)[i] == q[i + 1]);
                    } else {
                        assert(bfs_next_queue(q, idx)[i].1 == children@[i - (q.len() - 1)]);
                        assert(forest_wf(children@));
                    }
                }
            },
            FileSystemNode::File { .. } => {
                assert forall|i: int|
                    0 <= i < bfs_next_queue(q, idx).len() implies node_wf(
                    #[trigger] bfs_next_queue(q, idx)[i].1,
                ) by {
                    assert(bfs_next_queue(q, idx)[i] == q[i + 1]);
                }
            },
        }
        lemma_bfs_cat_wf(bfs_next_queue(q, idx), idx + 1);
        assert(bfs_cat(q, idx)[0] == spec_entry_of(q[0].1, q[0].0));
        assert(spec_pad_name(q[0].1.name_spec()).len() == NAME_WIDTH);
        assert(forall|k: int|
            1 <= k < bfs_cat(q, idx).len() ==> bfs_cat(q, idx)[k] == #[trigger] bfs_cat(
                bfs_next_queue(q, idx),
                idx + 1,
            )[k - 1]);
    }
}

/// The verified breadth-first pass: returns the flat catalog (forward
/// references still unresolved) and the data segment of the tree.
pub fn linearize(root: &FileSystemNode) -> (r: (Vec<VDFSCatalogEntry>, Vec<u8>))
    requires
        node_wf(*root),
        archive_fits(*root),
    ensures
        cat_view(r.0@) == bfs_cat(init_queue(*root), 0),
        r.1@ == bfs_data(init_queue(*root), 0),
{
    let ghost q0 = init_queue(*root);
    let mut queue: Vec<(i32, &FileSystemNode)> = Vec::new();
    match root {
        FileSystemNode::Directory { children, .. } => {
            let mut k: usize = 0;
            while k < children.len()
                invariant
                    k <= children@.len(),
                    queue@.len() == k,
                    forall|j: int|
                        0 <= j < k ==> (#[trigger] queue@[j]).0 == -1 && *queue@[j].1
                            == children@[j],
                decreases children@.len() - k,
            {
                queue.push((-1i32, &children[k]));
                k += 1;
            }
            proof {
                assert(lift_queue(queue@) =~= q0);
            }
        },
        FileSystemNode::File { .. } => {
            queue.push((-1i32, root));
            proof {
                assert(lift_queue(queue@) =~= q0);
            }
        },
    }
    let mut head: usize = 0;
    let mut catalog: Vec<VDFSCatalogEntry> = Vec::new();
    let mut data: Vec<u8> = Vec::new();
    proof {
        assert(queue@.skip(0) =~= queue@);
        assert(cat_view(catalog@) =~= Seq::<EntryV>::empty());
        assert(bfs_cat(q0, 0) =~= cat_view(catalog@) + bfs_cat(
            lift_queue(queue@.skip(head as int)),
            catalog@.len() as int,
        ));
        assert(bfs_data(q0, 0) =~= data@ + bfs_data(
            lift_queue(queue@.skip(head as int)),
            catalog@.len() as int,
        ));
        assert forall|i: int|
            0 <= i < lift_queue(queue@.skip(head as int)).len() implies node_wf(
            #[trigger] lift_queue(queue@.skip(head as int))[i].1,
        ) by {
            if root.is_dir_spec() {
                assert(lift_queue(queue@.skip(head as int))[i].1 == root.children_spec()[i]);
            }
        }
    }
    while head < queue.len()
        invariant
            head <= queue@.len(),
            bfs_cat(q0, 0) == cat_view(catalog@) + bfs_cat(
                lift_queue(queue@.skip(head as int)),
                catalog@.len() as int,
            ),
            bfs_data(q0, 0) == data@ + bfs_data(
                lift_queue(queue@.skip(head as int)),
                catalog@.len() as int,
            ),
            queue_wf(lift_queue(queue@.skip(head as int))),
            queue_count(lift_queue(queue@.skip(head as int))) + catalog@.len() == queue_count(q0),
            80 * queue_count(q0) <= 0xffff_ffff,
        decreases queue_count(lift_queue(queue@.skip(head as int))),
    {
        let ghost rem = lift_queue(queue@.skip(head as int));
        let ghost idx = catalog@.len() as int;
        proof {
            assert(rem.len() == queue@.len() - head);
            assert(rem[0] == (queue@[head as int].0 as int, *queue@[head as int].1));
            assert(node_wf(rem[0].1));
            lemma_queue_step_count(rem, idx);
        }
        let pair = queue[head];
        let par: i32 = pair.0;
        let node: &FileSystemNode = pair.1;
        head += 1;
        proof {
            assert(lift_queue(queue@.skip(head as int)) =~= rem.skip(1));
        }
        match node {
            FileSystemNode::File { name, data: fdata, is_last, .. } => {
                let mut e = VDFSCatalogEntry::new_sized(name, fdata.len() as u64);
                e.parent_id = par;
                if *is_last {
                    e.typ = ENTRY_TYPE_LAST;
                }
                proof {
                    assert(e@ == spec_entry_of(*node, par as int));
                }
                let ghost cprev = catalog@;
                catalog.push(e);
                proof {
                    assert(cat_view(catalog@) =~= cat_view(cprev).push(e@));
                    assert(cat_view(catalog@).take(idx) =~= cat_view(cprev));
                }
                let mut k: usize = 0;
                let ghost dprev = data@;
                while k < fdata.len()
                    invariant
                        k <= fdata@.len(),
                        data@ == dprev + fdata@.take(k as int),
                    decreases fdata@.len() - k,
                {
                    data.push(fdata[k]);
                    proof {
                        assert(dprev + fdata@.take(k as int) + seq![fdata@[k as int]] =~= dprev
                            + fdata@.take(k as int + 1));
                    }
                    k += 1;
                }
                proof {
                    assert(fdata@.take(fdata@.len() as int) =~= fdata@);
                    assert(data@ == dprev + node.data_spec());
                    assert(bfs_next_queue(rem, idx) =~= rem.skip(1));
                    lemma_step_reassemble(q0, rem, idx, cat_view(catalog@), e@, data@, dprev,
                        node.data_spec());
                }
            },
            FileSystemNode::Directory { name, children, is_last, .. } => {
                let mut e = VDFSCatalogEntry::new(name);
                e.is_dir = true;
                e.typ = if *is_last {
                    ENTRY_TYPE_DIR | ENTRY_TYPE_LAST
                } else {
                    ENTRY_TYPE_DIR
                };
                e.parent_id = par;
                proof {
                    assert(e@ == spec_entry_of(*node, par as int));
                    assert(catalog@.len() < queue_count(q0));
                    assert(80 * catalog@.len() < 80 * queue_count(q0)) by (nonlinear_arith)
                        requires
                            catalog@.len() < queue_count(q0),
                    ;
                }
                let my_idx: i32 = catalog.len() as i32;
                let ghost cprev = catalog@;
                catalog.push(e);
                proof {
                    assert(cat_view(catalog@) =~= cat_view(cprev).push(e@));
                    assert(cat_view(catalog@).take(idx) =~= cat_view(cprev));
                }
                let ghost qmid = queue@;
                let mut k: usize = 0;
                while k < children.len()
                    invariant
                        k <= children@.len(),
                        queue@.len() == qmid.len() + k,
                        queue@.take(qmid.len() as int) == qmid,
                        forall|j: int|
                            0 <= j < k ==> (#[trigger] queue@[qmid.len() + j]).0 == my_idx
                                && *queue@[qmid.len() + j].1 == children@[j],
                    decreases children@.len() - k,
                {
                    queue.push((my_idx, &children[k]));
                    proof {
                        assert(queue@.take(qmid.len() as int) =~= qmid);
                    }
                    k += 1;
                }
                proof {
                    assert forall|j: int| 0 <= j < qmid.len() implies queue@[j] == qmid[j] by {
                        assert(queue@.take(qmid.len() as int)[j] == queue@[j]);
                    }
                    let pushed = queue@.skip(qmid.len() as int);
                    assert(queue@.skip(head as int) =~= qmid.skip(head as int) + pushed);
                    assert forall|j: int|
                        0 <= j < lift_queue(queue@.skip(head as int)).len() implies lift_queue(
                        queue@.skip(head as int),
                    )[j] == (lift_queue(qmid.skip(head as int)) + tag_children(
                        children@,
                        my_idx as int,
                    ))[j] by {
                        if head + j < qmid.len() {
                            assert(queue@.skip(head as int)[j] == qmid[head + j]);
                        } else {
                            let t = head + j - qmid.len();
                            assert(queue@.skip(head as int)[j] == queue@[qmid.len() + t]);
                            assert((#[trigger] queue@[qmid.len() + t]).0 == my_idx && *queue@[
                                qmid.len() + t].1 == children@[t]);
                        }
                    }
                    assert(lift_queue(queue@.skip(head as int)) =~= lift_queue(
                        qmid.skip(head as int),
                    ) + tag_children(children@, my_idx as int));
                    assert(lift_queue(qmid.skip(head as int)) =~= rem.skip(1));
                    assert(lift_queue(queue@.skip(head as int)) =~= rem.skip(1) + tag_children(
                        children@,
                        my_idx as int,
                    ));
                    assert(my_idx as int == idx);
                    assert(bfs_next_queue(rem, idx) =~= rem.skip(1) + tag_children(
                        children@,
                        idx,
                    ));
                    lemma_step_reassemble(q0, rem, idx, cat_view(catalog@), e@, data@, data@,
                        node.data_spec());
                }
            },
        }
        proof {
            let rem2 = lift_queue(queue@.skip(head as int));
            assert(rem2 == bfs_next_queue(rem, idx));
            assert forall|i: int| 0 <= i < rem2.len() implies node_wf(#[trigger] rem2[i].1) by {
                if rem[0].1.is_dir_spec() && i >= rem.len() - 1 {
                    assert(rem2[i].1 == rem[0].1.children_spec()[i - (rem.len() - 1)]);
                    assert(forest_wf(rem[0].1.children_spec()));
                } else {
                    assert(rem2[i] == rem.skip(1)[i]);
                    assert(rem.skip(1)[i] == rem[i + 1]);
                }
            }
        }
    }
    proof {
        let rem = lift_queue(queue@.skip(head as int));
        assert(rem.len() == 0);
        assert(cat_view(catalog@) + bfs_cat(rem, catalog@.len() as int) =~= cat_view(catalog@));
        assert(data@ + bfs_data(rem, catalog@.len() as int) =~= data@);
    }
    (catalog, data)
}

/// One unfolding step of the two breadth-first recurrences, shared by the
/// file and directory arms of the linearizer's loop.
proof fn lemma_step_reassemble(
    q0: Seq<(int, FileSystemNode)>,
    rem: Seq<(int, FileSystemNode)>,
    idx: int,
    cat_after: Seq<EntryV>,
    e: EntryV,
    data_after: Seq<u8>,
    data_before: Seq<u8>,
    emitted: Seq<u8>,
)
    requires
        idx >= 0,
        rem.len() > 0,
        e == spec_entry_of(rem[0].1, rem[0].0),
        cat_after.len() == idx + 1,
        cat_after.last() == e,
        bfs_cat(q0, 0) == cat_after.take(idx) + bfs_cat(rem, idx),
        data_after == data_before + emitted,
        emitted == rem[0].1.data_spec(),
        bfs_data(q0, 0) == data_before + bfs_data(rem, idx),
    ensures
        bfs_cat(q0, 0) == cat_after + bfs_cat(bfs_next_queue(rem, idx), idx + 1),
        bfs_data(q0, 0) == data_after + bfs_data(bfs_next_queue(rem, idx), idx + 1),
{
    assert(bfs_cat(rem, idx) == seq![e] + bfs_cat(bfs_next_queue(rem, idx), idx + 1));
    assert(bfs_data(rem, idx) == emitted + bfs_data(bfs_next_queue(rem, idx), idx + 1));
    assert(cat_after.take(idx) + seq![e] =~= cat_after);
    assert(cat_after.take(idx) + (seq![e] + bfs_cat(bfs_next_queue(rem, idx), idx + 1))
        =~= (cat_after.take(idx) + seq![e]) + bfs_cat(bfs_next_queue(rem, idx), idx + 1));
    assert(data_before + (emitted + bfs_data(bfs_next_queue(rem, idx), idx + 1)) =~= data_after
        + bfs_data(bfs_next_queue(rem, idx), idx + 1));
}

/// Total byte size of the file contents below the queued subtrees.
pub open spec fn queue_data(q: Seq<(int, FileSystemNode)>) -> nat
    decreases q,
{
    if q.len() == 0 {
        0
    } else {
        node_data_len(q[0].1) + queue_data(q.skip(1))
    }
}

pub proof fn lemma_queue_data_add(a: Seq<(int, FileSystemNode)>, b: Seq<(int, FileSystemNode)>)
    ensures
        queue_data(a + b) == queue_data(a) + queue_data(b),
    decreases a.len(),
{
    if a.len() == 0 {
        assert(a + b =~= b);
    } else {
        assert((a + b).skip(1) =~= a.skip(1) + b);
        assert((a + b)[0] == a[0]);
        lemma_queue_data_add(a.skip(1), b);
    }
}

pub proof fn lemma_tag_children_data(cs: Seq<FileSystemNode>, p: int)
    ensures
        queue_data(tag_children(cs, p)) == forest_data_len(cs),
    decreases cs.len(),
{
    if cs.len() > 0 {
        assert(tag_children(cs, p).skip(1) =~= tag_children(cs.skip(1), p));
        lemma_tag_children_data(cs.skip(1), p);
    }
}

/// The data segment's length is the total byte size of the queued files.
pub proof fn lemma_bfs_data_len(q: Seq<(int, FileSystemNode)>, idx: int)
    ensures
        bfs_data(q, idx).len() == queue_data(q),
    decreases queue_count(q),
{
    if q.len() > 0 {
        lemma_queue_step_count(q, idx);
        lemma_bfs_data_len(bfs_next_queue(q, idx), idx + 1);
        match q[0].1 {
            FileSystemNode::Directory { children, .. } => {
                lemma_queue_data_add(q.skip(1), tag_children(children@, idx));
                lemma_tag_children_data(children@, idx);
            },
            FileSystemNode::File { .. } => {},
        }
    }
}

/// Extending a sibling prefix by one node adds that node's subtree count.
pub proof fn lemma_forest_count_snoc(s: Seq<FileSystemNode>, i: int)
    requires
        0 <= i < s.len(),
    ensures
        forest_count(s.take(i + 1)) == forest_count(s.take(i)) + node_count(s[i]),
    decreases i,
{
    if i == 0 {
        assert(s.take(1)[0] == s[0]);
        assert(s.take(1).skip(1) =~= Seq::<FileSystemNode>::empty());
        assert(forest_count(Seq::<FileSystemNode>::empty()) == 0);
        assert(s.take(0) =~= Seq::<FileSystemNode>::empty());
    } else {
        lemma_forest_count_snoc(s.skip(1), i - 1);
        assert(s.take(i + 1).skip(1) =~= s.skip(1).take(i));
        assert(s.take(i).skip(1) =~= s.skip(1).take(i - 1));
        assert(s.take(i + 1)[0] == s[0]);
        assert(s.take(i)[0] == s[0]);
        assert(s.skip(1)[i - 1] == s[i]);
    }
}

/// Extending a sibling prefix by one node adds that node's subtree data.
pub proof fn lemma_forest_data_snoc(s: Seq<FileSystemNode>, i: int)
    requires
        0 <= i < s.len(),
    ensures
        forest_data_len(s.take(i + 1)) == forest_data_len(s.take(i)) + node_data_len(s[i]),
    decreases i,
{
    if i == 0 {
        assert(s.take(1)[0] == s[0]);
        assert(s.take(1).skip(1) =~= Seq::<FileSystemNode>::empty());
        assert(forest_data_len(Seq::<FileSystemNode>::empty()) == 0);
        assert(s.take(0) =~= Seq::<FileSystemNode>::empty());
    } else {
        lemma_forest_data_snoc(s.skip(1), i - 1);
        assert(s.take(i + 1).skip(1) =~= s.skip(1).take(i));
        assert(s.take(i).skip(1) =~= s.skip(1).take(i - 1));
        assert(s.take(i + 1)[0] == s[0]);
        assert(s.take(i)[0] == s[0]);
        assert(s.skip(1)[i - 1] == s[i]);
    }
}

/// A node of a sibling group accounts for no more records than the group.
pub proof fn lemma_node_count_le_forest(s: Seq<FileSystemNode>, k: int)
    requires
        0 <= k < s.len(),
    ensures
        node_count(s[k]) <= forest_count(s),
    decreases k,
{
    if k > 0 {
        lemma_node_count_le_forest(s.skip(1), k - 1);
        assert(s.skip(1)[k - 1] == s[k]);
    }
}

/// Decides the machine limits on every node of a tree.
#[verifier::loop_isolation(false)]
pub fn node_wf_exec(n: &FileSystemNode) -> (b: bool)
    ensures
        b == node_wf(*n),
    decreases node_count(*n),
{
    match n {
        FileSystemNode::File { name, data, .. } => name.len() <= 64 && (data.len() as u64)
            <= 0xffff_ffffu64,
        FileSystemNode::Directory { name, children, .. } => {
            if name.len() > 64 {
                return false;
            }
            let mut k: usize = 0;
            while k < children.len()
                invariant
                    k <= children@.len(),
                    forall|j: int| 0 <= j < k ==> node_wf(#[trigger] children@[j]),
                decreases children@.len() - k,
            {
                proof {
                    lemma_node_count_le_forest(children@, k as int);
                }
                if !node_wf_exec(&children[k]) {
                    proof {
                        assert(!node_wf(children@[k as int]));
                        assert(!forest_wf(children@));
                    }
                    return false;
                }
                k += 1;
            }
            assert(forest_wf(children@));
            true
        },
    }
}

/// Number of catalog records below a node, itself included, saturating at
/// 2^32: past that the archive cannot fit the format anyway.
#[verifier::loop_isolation(false)]
pub fn node_count_sat(n: &FileSystemNode) -> (c: u64)
    ensures
        c <= 0x1_0000_0000u64,
        c < 0x1_0000_0000u64 ==> c == node_count(*n),
        c == 0x1_0000_0000u64 ==> node_count(*n) >= 0x1_0000_0000,
    decreases node_count(*n),
{
    match n {
        FileSystemNode::File { .. } => 1,
        FileSystemNode::Directory { children, .. } => {
            let mut acc: u64 = 1;
            let mut k: usize = 0;
            while k < children.len()
                invariant
                    k <= children@.len(),
                    acc <= 0x1_0000_0000u64,
                    acc < 0x1_0000_0000u64 ==> acc == 1 + forest_count(children@.take(k as int)),
                    acc == 0x1_0000_0000u64 ==> 1 + forest_count(children@.take(k as int))
                        >= 0x1_0000_0000,
                decreases children@.len() - k,
            {
                proof {
                    lemma_node_count_le_forest(children@, k as int);
                }
                let c = node_count_sat(&children[k]);
                proof {
                    lemma_forest_count_snoc(children@, k as int);
                }
                if acc >= 0x1_0000_0000u64 - c {
                    acc = 0x1_0000_0000u64;
                } else {
                    acc = acc + c;
                }
                k += 1;
            }
            proof {
                assert(children@.take(children@.len() as int) =~= children@);
            }
            acc
        },
    }
}

/// Total byte size of the file contents below a node, saturating at 2^32.
#[verifier::loop_isolation(false)]
pub fn node_data_sat(n: &FileSystemNode) -> (c: u64)
    ensures
        c <= 0x1_0000_0000u64,
        c < 0x1_0000_0000u64 ==> c == node_data_len(*n),
        c == 0x1_0000_0000u64 ==> node_data_len(*n) >= 0x1_0000_0000,
    decreases node_count(*n),
{
    match n {
        FileSystemNode::File { data, .. } => {
            if (data.len() as u64) >= 0x1_0000_0000u64 {
                0x1_0000_0000u64
            } else {
                data.len() as u64
            }
        },
        FileSystemNode::Directory { children, .. } => {
            let mut acc: u64 = 0;
            let mut k: usize = 0;
            while k < children.len()
                invariant
                    k <= children@.len(),
                    acc <= 0x1_0000_0000u64,
                    acc < 0x1_0000_0000u64 ==> acc == forest_data_len(children@.take(k as int)),
                    acc == 0x1_0000_0000u64 ==> forest_data_len(children@.take(k as int))
                        >= 0x1_0000_0000,
                decreases children@.len() - k,
            {
                proof {
                    lemma_node_count_le_forest(children@, k as int);
                }
                let c = node_data_sat(&children[k]);
                proof {
                    lemma_forest_data_snoc(children@, k as int);
                }
                if acc >= 0x1_0000_0000u64 - c {
                    if acc + c >= 0x1_0000_0000u64 {
                        acc = 0x1_0000_0000u64;
                    } else {
                        acc = acc + c;
                    }
                } else {
                    acc = acc + c;
                }
                k += 1;
            }
            proof {
                assert(children@.take(children@.len() as int) =~= children@);
            }
            acc
        },
    }
}

/// Decides whether a tree can be packaged at all: every node within the
/// format's machine limits, and the whole archive within 32-bit offsets.
/// This is exactly the precondition of the catalog builder, so a caller can
/// test it and refuse the tree instead of relying on it.
pub fn check_build_input(fs: &FileSystemNode) -> (b: bool)
    ensures
        b == (node_wf(*fs) && archive_fits(*fs)),
{
    if !node_wf_exec(fs) {
        return false;
    }
    let ghost q0 = init_queue(*fs);
    let total_count = node_count_sat(fs);
    let total_data = node_data_sat(fs);
    proof {
        match fs {
            FileSystemNode::Directory { children, .. } => {
                lemma_tag_children_count(children@, -1);
                lemma_tag_children_data(children@, -1);
                assert(queue_count(q0) == forest_count(children@));
                assert(queue_data(q0) == forest_data_len(children@));
                assert(node_count(*fs) == 1 + forest_count(children@));
                assert(node_data_len(*fs) == forest_data_len(children@));
            },
            FileSystemNode::File { .. } => {
                assert(q0[0].1 == *fs);
                assert(q0.skip(1) =~= Seq::<(int, FileSystemNode)>::empty());
                assert(queue_count(Seq::<(int, FileSystemNode)>::empty()) == 0);
                assert(queue_data(Seq::<(int, FileSystemNode)>::empty()) == 0);
                assert(queue_count(q0) == node_count(*fs));
                assert(queue_data(q0) == node_data_len(*fs));
            },
        }
        lemma_bfs_data_len(q0, 0);
    }
    if total_count >= 0x1_0000_0000u64 || total_data >= 0x1_0000_0000u64 {
        proof {
            if total_count >= 0x1_0000_0000u64 {
                assert(node_count(*fs) >= 0x1_0000_0000);
                assert(queue_count(q0) >= 0xffff_ffff);
                assert(80 * queue_count(q0) >= 80 * 0xffff_ffff) by (nonlinear_arith)
                    requires
                        queue_count(q0) >= 0xffff_ffff,
                ;
            } else {
                assert(node_data_len(*fs) >= 0x1_0000_0000);
            }
        }
        return false;
    }
    let queue_total: u64 = match fs {
        FileSystemNode::Directory { .. } => total_count - 1,
        FileSystemNode::File { .. } => total_count,
    };
    let total: u64 = 296 + 80 * queue_total + total_data;
    total <= 0xffff_ffffu64
}

} // verus!
