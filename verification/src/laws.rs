//! Catalog-wide laws of a built archive, stated over the specification of
//! the finished catalog and data segment. Together with the contract of
//! `Vdfs::from_dir` — which yields exactly `spec_catalog` and `spec_data`,
//! with `header.size` equal to the data segment's length and `num_entries`
//! equal to the plain-file count — these pin the invariants of every archive
//! the builder produces.

use vstd::prelude::*;

use crate::archive::ENTRY_TYPE_DIR;
use crate::archive::ENTRY_TYPE_LAST;
use crate::archive::EntryV;
use crate::archive::lemma_bfs_sizes;
use crate::archive::lemma_init_queue_wf;
use crate::archive::lemma_psum_eq_ssum;
use crate::archive::lemma_psum_flat;
use crate::archive::lemma_psum_le_ssum;
use crate::archive::lemma_psum_mono;
use crate::archive::lemma_ssum_mono;
use crate::archive::lemma_sums_congruent;
use crate::archive::offsets_pass;
use crate::archive::psum;
use crate::archive::resolve_pass;
use crate::archive::spec_catalog;
use crate::archive::spec_data;
use crate::archive::ssum;
use crate::filetree::FileSystemNode;
use crate::filetree::node_wf;
use crate::archive::lemma_find_from_first;
use crate::archive::lemma_find_from_none;
use crate::archive::parent_as_u32;
use crate::archive::spec_find_index;
use crate::bytes::spec_pad_name;
use crate::filetree::node_marked;
use crate::linearize::archive_fits;
use crate::linearize::bfs_cat;
use crate::linearize::init_queue;
use crate::linearize::lemma_bfs_cat_wf;
use crate::linearize::queue_count;
use crate::linearize::spec_entry_of;
use crate::siblings::bfs_nodes;
use crate::siblings::child_block;
use crate::siblings::kids_before;
use crate::siblings::lemma_bfs_nodes_cat;
use crate::siblings::lemma_bfs_nodes_marked;
use crate::siblings::lemma_bfs_structure;
use crate::siblings::lemma_kids_before_nonneg;

verus! {

/// The forward reference of the directory record at flat index `p` is
/// correct against the tree node emitted there: with no child it stays 0;
/// otherwise it is the flat index of the record of the first child — the
/// earliest record whose parent field is `p`.
pub open spec fn dir_ref_ok(c: Seq<EntryV>, ns: Seq<(int, FileSystemNode)>, p: int) -> bool {
    let cs = ns[p].1.children_spec();
    let f = c[p].next_index as int;
    &&& (cs.len() == 0 ==> f == 0)
    &&& (cs.len() > 0 ==> {
        &&& 0 <= f < c.len()
        &&& c[f].parent_id == p
        &&& c[f].name == spec_pad_name(cs[0].name_spec())
        &&& forall|j: int| 0 <= j < f ==> (#[trigger] c[j]).parent_id != p
    })
}

/// A record's position is the greatest among the records sharing its parent.
pub open spec fn is_group_max(c: Seq<EntryV>, j: int) -> bool {
    forall|j2: int| 0 <= j2 < c.len() && (#[trigger] c[j2]).parent_id == c[j].parent_id ==> j2 <= j
}

/// Both passes leave sizes, type flags, parents and names untouched; only
/// forward references change.
proof fn lemma_passes_preserve(root: FileSystemNode)
    ensures
        spec_catalog(root).len() == bfs_cat(init_queue(root), 0).len(),
        forall|k: int|
            0 <= k < spec_catalog(root).len() ==> (#[trigger] spec_catalog(root)[k]).size
                == bfs_cat(init_queue(root), 0)[k].size && spec_catalog(root)[k].typ == bfs_cat(
                init_queue(root),
                0,
            )[k].typ && spec_catalog(root)[k].parent_id == bfs_cat(init_queue(root), 0)[
                k].parent_id && spec_catalog(root)[k].name == bfs_cat(init_queue(root), 0)[k].name
                && spec_catalog(root)[k].is_dir == bfs_cat(init_queue(root), 0)[k].is_dir,
{
    let c0 = bfs_cat(init_queue(root), 0);
    let c1 = resolve_pass(c0);
    let c2 = offsets_pass(c1);
    assert(forall|k: int| 0 <= k < c0.len() ==> (#[trigger] c1[k]).size == c0[k].size && c1[k].typ
        == c0[k].typ && c1[k].parent_id == c0[k].parent_id && c1[k].name == c0[k].name
        && c1[k].is_dir == c0[k].is_dir);
    assert(forall|k: int| 0 <= k < c1.len() ==> (#[trigger] c2[k]).size == c1[k].size && c2[k].typ
        == c1[k].typ && c2[k].parent_id == c1[k].parent_id && c2[k].name == c1[k].name
        && c2[k].is_dir == c1[k].is_dir);
}

/// The sizes of the plain-file records sum to the data segment's length —
/// which is what the header's `size` field holds after `from_dir`. Directory
/// records contribute nothing: their size is zero, so the sum over all
/// records is the same quantity.
pub proof fn lemma_plain_sizes_total(root: FileSystemNode)
    requires
        node_wf(root),
        archive_fits(root),
    ensures
        psum(spec_catalog(root), spec_catalog(root).len() as int) == spec_data(root).len(),
        ssum(spec_catalog(root), spec_catalog(root).len() as int) == spec_data(root).len(),
{
    let q0 = init_queue(root);
    let c0 = bfs_cat(q0, 0);
    let c2 = spec_catalog(root);
    lemma_init_queue_wf(root);
    lemma_bfs_cat_wf(q0, 0);
    lemma_bfs_sizes(q0, 0);
    lemma_passes_preserve(root);
    lemma_sums_congruent(c0, c2, c0.len() as int);
    assert(forall|k: int| 0 <= k < c2.len() ==> (!(#[trigger] c2[k]).is_plain() ==> c2[k].size
        == 0)) by {
        assert(forall|k: int| 0 <= k < c0.len() ==> ((#[trigger] c0[k]).is_dir ==> c0[k].size
            == 0));
        assert(forall|k: int| 0 <= k < c0.len() ==> (!(#[trigger] c0[k]).is_dir <==> c0[
            k].is_plain()));
        assert(forall|k: int| 0 <= k < c2.len() ==> (#[trigger] c2[k]).is_plain() == c0[
            k].is_plain() && c2[k].size == c0[k].size);
    }
    lemma_psum_eq_ssum(c2, c2.len() as int);
}

/// A record is counted by `num_entries` exactly when its directory bit is
/// clear: the plain-file predicate and the directory bit agree on every
/// record of a built catalog.
pub proof fn lemma_plain_iff_dir_bit_clear(root: FileSystemNode)
    requires
        node_wf(root),
        archive_fits(root),
    ensures
        forall|k: int|
            0 <= k < spec_catalog(root).len() ==> ((#[trigger] spec_catalog(root)[k]).typ
                & ENTRY_TYPE_DIR == 0 <==> spec_catalog(root)[k].is_plain()),
{
    let q0 = init_queue(root);
    let c0 = bfs_cat(q0, 0);
    let c2 = spec_catalog(root);
    lemma_init_queue_wf(root);
    lemma_bfs_cat_wf(q0, 0);
    lemma_passes_preserve(root);
    assert(0u32 & 0x8000_0000u32 == 0) by (bit_vector);
    assert(0x4000_0000u32 & 0x8000_0000u32 == 0) by (bit_vector);
    assert(0x8000_0000u32 & 0x8000_0000u32 != 0) by (bit_vector);
    assert(0xc000_0000u32 & 0x8000_0000u32 != 0) by (bit_vector);
    assert(0x8000_0000u32 | 0x4000_0000u32 == 0xc000_0000u32) by (bit_vector);
    assert forall|k: int| 0 <= k < c2.len() implies ((#[trigger] c2[k]).typ & ENTRY_TYPE_DIR == 0
        <==> c2[k].is_plain()) by {
        assert(c2[k].typ == c0[k].typ && c2[k].is_plain() == c0[k].is_plain());
        assert(c0[k].is_dir <==> (c0[k].typ == ENTRY_TYPE_DIR || c0[k].typ == (ENTRY_TYPE_DIR
            | ENTRY_TYPE_LAST)));
        assert(!c0[k].is_dir <==> c0[k].is_plain());
    }
}

/// File offsets are monotone in catalog order: a later plain-file record's
/// offset lies at or past the end of an earlier one's content, and exactly
/// at it when no plain-file record lies between them.
pub proof fn lemma_file_offsets_monotone(root: FileSystemNode)
    requires
        node_wf(root),
        archive_fits(root),
    ensures
        forall|i: int, j: int|
            0 <= i < j < spec_catalog(root).len() && (#[trigger] spec_catalog(root)[i]).is_plain()
                && (#[trigger] spec_catalog(root)[j]).is_plain() ==> spec_catalog(root)[
                j].next_index >= spec_catalog(root)[i].next_index + spec_catalog(root)[i].size,
        forall|i: int, j: int|
            0 <= i < j < spec_catalog(root).len() && (#[trigger] spec_catalog(root)[i]).is_plain()
                && (#[trigger] spec_catalog(root)[j]).is_plain() && (forall|k: int|
                i < k < j ==> !(#[trigger] spec_catalog(root)[k]).is_plain()) ==> spec_catalog(
                root,
            )[j].next_index == spec_catalog(root)[i].next_index + spec_catalog(root)[i].size,
{
    let q0 = init_queue(root);
    let c0 = bfs_cat(q0, 0);
    let c1 = resolve_pass(c0);
    let c2 = spec_catalog(root);
    lemma_init_queue_wf(root);
    lemma_bfs_cat_wf(q0, 0);
    lemma_bfs_sizes(q0, 0);
    assert(forall|k: int| 0 <= k < c0.len() ==> (#[trigger] c1[k]).size == c0[k].size && c1[k].typ
        == c0[k].typ);
    lemma_sums_congruent(c0, c1, c0.len() as int);
    let n = c1.len() as int;
    let base = 296 + 80 * c1.len();
    assert(ssum(c1, n) == spec_data(root).len());
    assert(c0.len() == queue_count(q0));
    assert forall|i: int| 0 <= i <= n implies base + psum(c1, i) <= 0xffff_ffff by {
        lemma_psum_le_ssum(c1, i);
        lemma_ssum_mono(c1, i, n);
    }
    assert forall|i: int, j: int|
        0 <= i < j < c2.len() && (#[trigger] c2[i]).is_plain() && (#[trigger] c2[j]).is_plain()
        implies c2[j].next_index >= c2[i].next_index + c2[i].size by {
        lemma_psum_le_ssum(c1, i);
        lemma_psum_le_ssum(c1, j);
        lemma_ssum_mono(c1, i, n);
        lemma_ssum_mono(c1, j, n);
        assert(c1[i].is_plain() && c1[j].is_plain());
        assert(c2[i].next_index as int == base + psum(c1, i));
        assert(c2[j].next_index as int == base + psum(c1, j));
        assert(psum(c1, i + 1) == psum(c1, i) + c1[i].size);
        lemma_psum_mono(c1, i + 1, j);
    }
    assert forall|i: int, j: int|
        0 <= i < j < c2.len() && (#[trigger] c2[i]).is_plain() && (#[trigger] c2[j]).is_plain()
            && (forall|k: int| i < k < j ==> !(#[trigger] c2[k]).is_plain()) implies c2[
        j].next_index == c2[i].next_index + c2[i].size by {
        lemma_psum_le_ssum(c1, i);
        lemma_psum_le_ssum(c1, j);
        lemma_ssum_mono(c1, i, n);
        lemma_ssum_mono(c1, j, n);
        assert(c1[i].is_plain() && c1[j].is_plain());
        assert(c2[i].next_index as int == base + psum(c1, i));
        assert(c2[j].next_index as int == base + psum(c1, j));
        assert(psum(c1, i + 1) == psum(c1, i) + c1[i].size);
        assert forall|k: int| i + 1 <= k < j implies !(#[trigger] c1[k]).is_plain() by {
            assert(!c2[k].is_plain());
            assert(c2[k].typ == c1[k].typ);
        }
        lemma_psum_flat(c1, i + 1, j);
    }
}

/// Shared bridge for the sibling-group laws: queue facts, the emission
/// structure, and the record-to-node correspondence of a built catalog.
proof fn lemma_catalog_structure_setup(root: FileSystemNode)
    requires
        node_wf(root),
        archive_fits(root),
    ensures
        bfs_nodes(init_queue(root), 0).len() == spec_catalog(root).len(),
        spec_catalog(root).len() == queue_count(init_queue(root)),
        init_queue(root).len() <= spec_catalog(root).len(),
        spec_catalog(root).len() < 0x0400_0000,
        forall|k: int|
            0 <= k < spec_catalog(root).len() ==> (#[trigger] spec_catalog(root)[k]).parent_id
                == bfs_nodes(init_queue(root), 0)[k].0,
        forall|k: int|
            0 <= k < spec_catalog(root).len() ==> (#[trigger] spec_catalog(root)[k]).name
                == spec_pad_name(bfs_nodes(init_queue(root), 0)[k].1.name_spec()),
        forall|k: int|
            0 <= k < spec_catalog(root).len() ==> ((#[trigger] spec_catalog(root)[k]).is_dir
                <==> bfs_nodes(init_queue(root), 0)[k].1.is_dir_spec()),
        forall|k: int|
            0 <= k < spec_catalog(root).len() ==> ((#[trigger] spec_catalog(root)[k]).typ
                & ENTRY_TYPE_LAST != 0 <==> bfs_nodes(init_queue(root), 0)[k].1.is_last_spec()),
        forall|i: int| 0 <= i < init_queue(root).len() ==> (#[trigger] init_queue(root)[i]).0 == -1,
        forall|j: int|
            init_queue(root).len() <= j < spec_catalog(root).len() ==> 0 <= (#[trigger] bfs_nodes(
                init_queue(root),
                0,
            )[j]).0,
        forall|k: int|
            0 <= k < init_queue(root).len() ==> #[trigger] bfs_nodes(init_queue(root), 0)[k]
                == init_queue(root)[k],
        forall|j: int|
            0 <= j < spec_catalog(root).len() ==> (#[trigger] bfs_nodes(init_queue(root), 0)[j]).0
                < j,
        forall|p: int|
            0 <= p < spec_catalog(root).len() ==> #[trigger] child_block(
                bfs_nodes(init_queue(root), 0),
                init_queue(root).len() as int,
                0,
                p,
            ),
{
    let q0 = init_queue(root);
    let c0 = bfs_cat(q0, 0);
    let ns = bfs_nodes(q0, 0);
    let c2 = spec_catalog(root);
    lemma_init_queue_wf(root);
    lemma_bfs_cat_wf(q0, 0);
    lemma_bfs_nodes_cat(q0, 0);
    lemma_passes_preserve(root);
    assert forall|i: int| 0 <= i < q0.len() implies (#[trigger] q0[i]).0 == -1 by {
        if root.is_dir_spec() {
            assert(q0[i] == (-1int, root.children_spec()[i]));
        } else {
            assert(q0[i] == (-1int, root));
        }
    }
    lemma_bfs_structure(q0, 0);
    crate::siblings::lemma_queue_count_ge_len(q0);
    assert(0u32 & 0x4000_0000u32 == 0) by (bit_vector);
    assert(0x4000_0000u32 & 0x4000_0000u32 != 0) by (bit_vector);
    assert(0x8000_0000u32 & 0x4000_0000u32 == 0) by (bit_vector);
    assert(0xc000_0000u32 & 0x4000_0000u32 != 0) by (bit_vector);
    assert(0x8000_0000u32 | 0x4000_0000u32 == 0xc000_0000u32) by (bit_vector);
    assert forall|k: int| 0 <= k < c2.len() implies ((#[trigger] c2[k]).typ & ENTRY_TYPE_LAST != 0
        <==> ns[k].0 == ns[k].0 && bfs_nodes(init_queue(root), 0)[k].1.is_last_spec()) by {
        assert(c2[k].typ == c0[k].typ);
        assert(c0[k] == spec_entry_of(ns[k].1, ns[k].0));
    }
    assert forall|k: int| 0 <= k < c2.len() implies (#[trigger] c2[k]).parent_id == ns[k].0 && c2[
    k].name == spec_pad_name(ns[k].1.name_spec()) && (c2[k].is_dir <==> ns[k].1.is_dir_spec()) by {
        assert(c0[k] == spec_entry_of(ns[k].1, ns[k].0));
    }
    assert(80 * queue_count(q0) <= 0xffff_ffff);
    assert(queue_count(q0) < 0x0400_0000) by (nonlinear_arith)
        requires
            80 * queue_count(q0) <= 0xffff_ffff,
    ;
}

/// Every directory record's forward reference lands on its first child's
/// flat index, and stays 0 for a childless directory.
pub proof fn lemma_dir_forward_references(root: FileSystemNode)
    requires
        node_wf(root),
        archive_fits(root),
    ensures
        bfs_nodes(init_queue(root), 0).len() == spec_catalog(root).len(),
        forall|p: int|
            0 <= p < spec_catalog(root).len() && (#[trigger] spec_catalog(root)[p]).is_dir
                ==> dir_ref_ok(spec_catalog(root), bfs_nodes(init_queue(root), 0), p),
{
    let q0 = init_queue(root);
    let c0 = bfs_cat(q0, 0);
    let c1 = resolve_pass(c0);
    let ns = bfs_nodes(q0, 0);
    let c2 = spec_catalog(root);
    lemma_catalog_structure_setup(root);
    lemma_init_queue_wf(root);
    lemma_bfs_cat_wf(q0, 0);
    lemma_bfs_nodes_cat(q0, 0);
    lemma_passes_preserve(root);
    assert forall|p: int|
        0 <= p < c2.len() && (#[trigger] c2[p]).is_dir implies dir_ref_ok(c2, ns, p) by {
        let cs = ns[p].1.children_spec();
        let start = q0.len() + kids_before(ns, p);
        lemma_kids_before_nonneg(ns, p);
        assert(child_block(ns, q0.len() as int, 0, p));
        assert(c0[p].is_dir);
        assert(c1[p].next_index == spec_find_index(c0, p) as u32);
        assert(!c1[p].is_plain());
        assert(c2[p].next_index == c1[p].next_index);
        if cs.len() == 0 {
            assert forall|j: int|
                0 <= j < c0.len() implies parent_as_u32((#[trigger] c0[j]).parent_id) != p by {
                assert(c0[j] == spec_entry_of(ns[j].1, ns[j].0));
                if ns[j].0 < 0 {
                    if j >= q0.len() {
                        assert(0 <= ns[j].0);
                    }
                    assert(ns[j] == q0[j]);
                    assert(ns[j].0 == -1);
                } else if ns[j].0 == p {
                    assert(start <= j < start);
                }
            }
            lemma_find_from_none(c0, p, 0);
            assert(c2[p].next_index == 0);
        } else {
            assert(ns[start] == (p, cs[0]));
            assert(0 <= start < ns.len());
            assert forall|j: int|
                0 <= j < start implies parent_as_u32((#[trigger] c0[j]).parent_id) != p by {
                assert(c0[j] == spec_entry_of(ns[j].1, ns[j].0));
                if ns[j].0 < 0 {
                    if j >= q0.len() {
                        assert(0 <= ns[j].0);
                    }
                    assert(ns[j] == q0[j]);
                    assert(ns[j].0 == -1);
                } else if ns[j].0 == p {
                    assert(start <= j);
                }
            }
            lemma_find_from_first(c0, p, 0, start);
            assert(spec_find_index(c0, p) == start);
            assert(c2[p].next_index as int == start);
            assert(c2[start].parent_id == p);
            assert(c2[start].name == spec_pad_name(cs[0].name_spec()));
        }
    }
}

/// Within every sibling group of a built catalog — the records sharing one
/// parent field — exactly the record at the group's greatest flat index
/// carries the last-entry bit. The root must be a directory whose sibling
/// groups are marked, as the tree builder leaves them.
pub proof fn lemma_sibling_last_flags(root: FileSystemNode)
    requires
        node_wf(root),
        archive_fits(root),
        root.is_dir_spec(),
        node_marked(root),
    ensures
        forall|j: int|
            0 <= j < spec_catalog(root).len() ==> ((#[trigger] spec_catalog(root)[j]).typ
                & ENTRY_TYPE_LAST != 0 <==> is_group_max(spec_catalog(root), j)),
{
    let q0 = init_queue(root);
    let ns = bfs_nodes(q0, 0);
    let c2 = spec_catalog(root);
    lemma_catalog_structure_setup(root);
    assert forall|i: int| 0 <= i < q0.len() implies node_marked((#[trigger] q0[i]).1) by {
        assert(q0[i] == (-1int, root.children_spec()[i]));
        assert(crate::filetree::forest_marked(root.children_spec()));
    }
    lemma_bfs_nodes_marked(q0, 0);
    assert(crate::filetree::siblings_marked(root.children_spec()));
    assert(q0.len() == root.children_spec().len());
    assert forall|j: int| 0 <= j < c2.len() implies ((#[trigger] c2[j]).typ & ENTRY_TYPE_LAST != 0
        <==> is_group_max(c2, j)) by {
        let t = ns[j].0;
        assert(c2[j].parent_id == t);
        if t == -1 {
            // children of the root: the first |q0| records
            assert(j < q0.len()) by {
                if j >= q0.len() {
                    assert(0 <= ns[j].0);
                }
            }
            assert(ns[j] == q0[j]);
            assert(ns[j].1 == root.children_spec()[j]);
            assert(c2[j].typ & ENTRY_TYPE_LAST != 0 <==> j == q0.len() - 1);
            if j == q0.len() - 1 {
                assert forall|j2: int|
                    0 <= j2 < c2.len() && (#[trigger] c2[j2]).parent_id == c2[j].parent_id
                    implies j2 <= j by {
                    if j2 >= q0.len() {
                        assert(0 <= ns[j2].0);
                    }
                }
                assert(is_group_max(c2, j));
            } else {
                assert(ns[q0.len() - 1] == q0[q0.len() - 1]);
                assert(c2[q0.len() - 1].parent_id == -1);
                assert(!is_group_max(c2, j));
            }
        } else {
            // children of the directory emitted at flat index t
            assert(0 <= t < j);
            let cs = ns[t].1.children_spec();
            let start = q0.len() + kids_before(ns, t);
            assert(child_block(ns, q0.len() as int, 0, t));
            assert(start <= j < start + cs.len());
            assert(cs.len() > 0);
            assert(ns[t].1.is_dir_spec()) by {
                if !ns[t].1.is_dir_spec() {
                    assert(cs.len() == 0);
                }
            }
            assert(node_marked(ns[t].1));
            assert(crate::filetree::siblings_marked(cs));
            assert(ns[j] == (t, cs[j - start]));
            assert(ns[j].1.is_last_spec() <==> j - start == cs.len() - 1);
            assert(c2[j].typ & ENTRY_TYPE_LAST != 0 <==> j == start + cs.len() - 1);
            if j == start + cs.len() - 1 {
                assert forall|j2: int|
                    0 <= j2 < c2.len() && (#[trigger] c2[j2]).parent_id == c2[j].parent_id
                    implies j2 <= j by {
                    assert(ns[j2].0 == t);
                }
                assert(is_group_max(c2, j));
            } else {
                assert(ns[start + cs.len() - 1] == (t, cs[cs.len() - 1]));
                assert(c2[start + cs.len() - 1].parent_id == t);
                assert(!is_group_max(c2, j));
            }
        }
    }
}

} // verus!
