//! The in-memory view of the directory tree that gets packaged: a node is a
//! directory with ordered children or a file with its content. Children of a
//! directory are kept with all sub-directories before all files, each group in
//! case-insensitive alphabetical order, and the final sibling carries the
//! "last" flag that the catalog records as a type bit.

use vstd::prelude::*;

use crate::bytes::NAME_WIDTH;
use crate::bytes::lex_le;
use crate::bytes::spec_upper;
use crate::bytes::spec_eq_ignore_case;
use crate::bytes::eq_ignore_case;
use crate::bytes::le_ignore_case;
use crate::bytes::lemma_lex_le_total;
use crate::bytes::lemma_lex_le_trans;

verus! {

broadcast use vstd::seq_lib::group_to_multiset_ensures;

pub enum FileSystemNode {
    Directory { name: Vec<u8>, children: Vec<FileSystemNode>, level: i32, is_last: bool },
    File { name: Vec<u8>, data: Vec<u8>, level: i32, is_last: bool },
}

impl FileSystemNode {
    pub open spec fn is_dir_spec(self) -> bool {
        self is Directory
    }

    pub open spec fn name_spec(self) -> Seq<u8> {
        match self {
            FileSystemNode::Directory { name, .. } => name@,
            FileSystemNode::File { name, .. } => name@,
        }
    }

    pub open spec fn is_last_spec(self) -> bool {
        match self {
            FileSystemNode::Directory { is_last, .. } => is_last,
            FileSystemNode::File { is_last, .. } => is_last,
        }
    }

    pub open spec fn level_spec(self) -> i32 {
        match self {
            FileSystemNode::Directory { level, .. } => level,
            FileSystemNode::File { level, .. } => level,
        }
    }

    /// The ordered children of a directory; a file has none.
    pub open spec fn children_spec(self) -> Seq<FileSystemNode> {
        match self {
            FileSystemNode::Directory { children, .. } => children@,
            FileSystemNode::File { .. } => Seq::empty(),
        }
    }

    /// The raw content of a file; a directory has none.
    pub open spec fn data_spec(self) -> Seq<u8> {
        match self {
            FileSystemNode::Directory { .. } => Seq::empty(),
            FileSystemNode::File { data, .. } => data@,
        }
    }

    /// The byte size this node contributes to the data segment.
    pub open spec fn size_spec(self) -> nat {
        self.data_spec().len()
    }

    pub fn name(&self) -> (r: &Vec<u8>)
        ensures
            r@ == self.name_spec(),
    {
        match self {
            FileSystemNode::Directory { name, .. } => name,
            FileSystemNode::File { name, .. } => name,
        }
    }

    pub fn is_dir(&self) -> (r: bool)
        ensures
            r == self.is_dir_spec(),
    {
        match self {
            FileSystemNode::Directory { .. } => true,
            FileSystemNode::File { .. } => false,
        }
    }

    /// Three-way comparison used to order siblings: directories before files,
    /// then case-insensitive alphabetical by name.
    pub fn cmp_file_system_nodes(a: &FileSystemNode, b: &FileSystemNode) -> (r: core::cmp::Ordering)
        ensures
            r == spec_cmp_nodes(*a, *b),
    {
        match (a, b) {
            (FileSystemNode::Directory { .. }, FileSystemNode::File { .. }) => {
                core::cmp::Ordering::Less
            },
            (FileSystemNode::File { .. }, FileSystemNode::Directory { .. }) => {
                core::cmp::Ordering::Greater
            },
            _ => {
                if eq_ignore_case(a.name(), b.name()) {
                    core::cmp::Ordering::Equal
                } else if le_ignore_case(a.name(), b.name()) {
                    core::cmp::Ordering::Less
                } else {
                    core::cmp::Ordering::Greater
                }
            },
        }
    }
}

/// The sibling order as a specification.
pub open spec fn spec_cmp_nodes(a: FileSystemNode, b: FileSystemNode) -> core::cmp::Ordering {
    if a.is_dir_spec() && !b.is_dir_spec() {
        core::cmp::Ordering::Less
    } else if !a.is_dir_spec() && b.is_dir_spec() {
        core::cmp::Ordering::Greater
    } else if spec_eq_ignore_case(a.name_spec(), b.name_spec()) {
        core::cmp::Ordering::Equal
    } else if lex_le(spec_upper(a.name_spec()), spec_upper(b.name_spec())) {
        core::cmp::Ordering::Less
    } else {
        core::cmp::Ordering::Greater
    }
}

/// Non-strict sibling order: directories first, ties broken case-insensitively.
pub open spec fn node_le(a: FileSystemNode, b: FileSystemNode) -> bool {
    if a.is_dir_spec() && !b.is_dir_spec() {
        true
    } else if !a.is_dir_spec() && b.is_dir_spec() {
        false
    } else {
        lex_le(spec_upper(a.name_spec()), spec_upper(b.name_spec()))
    }
}

pub proof fn lemma_node_le_total(a: FileSystemNode, b: FileSystemNode)
    ensures
        node_le(a, b) || node_le(b, a),
{
    lemma_lex_le_total(spec_upper(a.name_spec()), spec_upper(b.name_spec()));
}

pub proof fn lemma_node_le_trans(a: FileSystemNode, b: FileSystemNode, c: FileSystemNode)
    requires
        node_le(a, b),
        node_le(b, c),
    ensures
        node_le(a, c),
{
    if a.is_dir_spec() == b.is_dir_spec() && b.is_dir_spec() == c.is_dir_spec() {
        lemma_lex_le_trans(
            spec_upper(a.name_spec()),
            spec_upper(b.name_spec()),
            spec_upper(c.name_spec()),
        );
    }
}

/// A sibling group in the order the catalog expects.
pub open spec fn siblings_sorted(s: Seq<FileSystemNode>) -> bool {
    forall|p: int, q: int| 0 <= p < q < s.len() ==> node_le(s[p], s[q])
}

/// Exactly the final member of a sibling group carries the "last" flag.
pub open spec fn siblings_marked(s: Seq<FileSystemNode>) -> bool {
    forall|i: int| 0 <= i < s.len() ==> (s[i].is_last_spec() <==> i == s.len() - 1)
}

/// Number of catalog entries a node expands to: itself plus all descendants.
pub open spec fn node_count(n: FileSystemNode) -> nat
    decreases n,
{
    match n {
        FileSystemNode::File { .. } => 1,
        FileSystemNode::Directory { children, .. } => 1 + forest_count(children@),
    }
}

pub open spec fn forest_count(s: Seq<FileSystemNode>) -> nat
    decreases s,
{
    if s.len() == 0 {
        0
    } else {
        node_count(s[0]) + forest_count(s.skip(1))
    }
}

/// Total byte size of the file contents below a node, itself included.
pub open spec fn node_data_len(n: FileSystemNode) -> nat
    decreases n,
{
    match n {
        FileSystemNode::File { data, .. } => data@.len(),
        FileSystemNode::Directory { children, .. } => forest_data_len(children@),
    }
}

pub open spec fn forest_data_len(s: Seq<FileSystemNode>) -> nat
    decreases s,
{
    if s.len() == 0 {
        0
    } else {
        node_data_len(s[0]) + forest_data_len(s.skip(1))
    }
}

/// Machine limits the archive format imposes on every node: a name fits the
/// fixed-width field and a file's size fits its 32-bit record field.
pub open spec fn node_wf(n: FileSystemNode) -> bool
    decreases n,
{
    match n {
        FileSystemNode::File { name, data, .. } => name@.len() <= NAME_WIDTH && data@.len()
            <= 0xffff_ffff,
        FileSystemNode::Directory { name, children, .. } => name@.len() <= NAME_WIDTH && forest_wf(
            children@,
        ),
    }
}

pub open spec fn forest_wf(s: Seq<FileSystemNode>) -> bool
    decreases s,
{
    forall|i: int| 0 <= i < s.len() ==> node_wf(#[trigger] s[i])
}

/// Every sibling group below this node (and the node's own children) is
/// marked: exactly the final sibling carries the "last" flag.
pub open spec fn node_marked(n: FileSystemNode) -> bool
    decreases n,
{
    match n {
        FileSystemNode::File { .. } => true,
        FileSystemNode::Directory { children, .. } => siblings_marked(children@) && forest_marked(
            children@,
        ),
    }
}

pub open spec fn forest_marked(s: Seq<FileSystemNode>) -> bool
    decreases s,
{
    forall|i: int| 0 <= i < s.len() ==> node_marked(#[trigger] s[i])
}

/// A sibling group with every "last" flag cleared; used to state that
/// sorting and marking permute the nodes and change nothing but that flag.
pub open spec fn strip_last_flags(s: Seq<FileSystemNode>) -> Seq<FileSystemNode> {
    s.map_values(|n: FileSystemNode| with_last(n, false))
}

/// The same node with its "last" flag replaced.
pub open spec fn with_last(n: FileSystemNode, fl: bool) -> FileSystemNode {
    match n {
        FileSystemNode::Directory { name, children, level, .. } => FileSystemNode::Directory {
            name,
            children,
            level,
            is_last: fl,
        },
        FileSystemNode::File { name, data, level, .. } => FileSystemNode::File {
            name,
            data,
            level,
            is_last: fl,
        },
    }
}

fn node_le_exec(a: &FileSystemNode, b: &FileSystemNode) -> (r: bool)
    ensures
        r == node_le(*a, *b),
{
    match (a, b) {
        (FileSystemNode::Directory { .. }, FileSystemNode::File { .. }) => true,
        (FileSystemNode::File { .. }, FileSystemNode::Directory { .. }) => false,
        _ => le_ignore_case(a.name(), b.name()),
    }
}

/// Stable insertion sort of a sibling group into the catalog order:
/// directories before files, each group case-insensitively alphabetical.
pub fn sort_children(v: &mut Vec<FileSystemNode>)
    ensures
        final(v)@.len() == old(v)@.len(),
        final(v)@.to_multiset() == old(v)@.to_multiset(),
        siblings_sorted(final(v)@),
{
    let ghost orig: Seq<FileSystemNode> = old(v)@;
    if v.len() <= 1 {
        return ;
    }
    let mut i: usize = 1;
    while i < v.len()
        invariant
            1 <= i <= v@.len(),
            v@.len() == orig.len(),
            v@.to_multiset() == orig.to_multiset(),
            forall|p: int, q: int| 0 <= p < q < i ==> node_le(v@[p], v@[q]),
        decreases v@.len() - i,
    {
        let ghost before: Seq<FileSystemNode> = v@;
        let x = v.remove(i);
        let ghost mid: Seq<FileSystemNode> = v@;
        let mut j: usize = 0;
        while j < i && node_le_exec(&v[j], &x)
            invariant
                j <= i < before.len(),
                v@ == mid,
                mid == before.remove(i as int),
                forall|p: int| 0 <= p < j ==> node_le(v@[p], x),
            decreases i - j,
        {
            j += 1;
        }
        proof {
            // the sorted prefix is untouched by removing position i
            assert(forall|p: int, q: int| 0 <= p < q < i ==> node_le(mid[p], mid[q]));
            if j < i {
                lemma_node_le_total(mid[j as int], x);
                assert(node_le(x, mid[j as int]));
                assert forall|k: int| j <= k < i implies node_le(x, mid[k]) by {
                    if k > j {
                        lemma_node_le_trans(x, mid[j as int], mid[k]);
                    }
                }
            }
        }
        v.insert(j, x);
        proof {
            let after = v@;
            assert(after == mid.insert(j as int, x));
            assert forall|p: int, q: int| 0 <= p < q < i + 1 implies node_le(after[p], after[q])
                by {
                assert(forall|k: int| 0 <= k < j ==> after[k] == mid[k]);
                assert(after[j as int] == x);
                assert(forall|k: int| j < k <= i ==> after[k] == mid[k - 1]);
            }
            // multiset accounting: removing then re-inserting the same element
            assert(mid.to_multiset() == before.to_multiset().remove(before[i as int]));
            assert(after.to_multiset() == mid.to_multiset().insert(x));
            assert(after.to_multiset() =~= before.to_multiset());
        }
        i += 1;
    }
}

/// Sets the "last" flag on the final node of a sibling group, leaving every
/// other node and every other field unchanged.
pub fn mark_last(v: &mut Vec<FileSystemNode>)
    ensures
        final(v)@.len() == old(v)@.len(),
        old(v)@.len() == 0 ==> final(v)@ == old(v)@,
        old(v)@.len() > 0 ==> final(v)@ == old(v)@.update(
            old(v)@.len() - 1,
            with_last(old(v)@.last(), true),
        ),
{
    if v.len() == 0 {
        proof {
            assert(v@ =~= old(v)@);
        }
        return ;
    }
    let x = v.pop().unwrap();
    let y = match x {
        FileSystemNode::Directory { name, children, level, .. } => FileSystemNode::Directory {
            name,
            children,
            level,
            is_last: true,
        },
        FileSystemNode::File { name, data, level, .. } => FileSystemNode::File {
            name,
            data,
            level,
            is_last: true,
        },
    };
    v.push(y);
    proof {
        assert(v@ =~= old(v)@.update(old(v)@.len() - 1, with_last(old(v)@.last(), true)));
    }
}

/// Brings a freshly enumerated sibling group into catalog shape: sorts it and
/// marks the final sibling. The nodes themselves are the same up to the one
/// "last" flag that is set.
pub fn sort_and_mark_children(v: &mut Vec<FileSystemNode>)
    requires
        forall|i: int| 0 <= i < old(v)@.len() ==> !old(v)@[i].is_last_spec(),
    ensures
        final(v)@.len() == old(v)@.len(),
        siblings_sorted(final(v)@),
        siblings_marked(final(v)@),
        strip_last_flags(final(v)@).to_multiset() == old(v)@.to_multiset(),
{
    let ghost orig: Seq<FileSystemNode> = old(v)@;
    sort_children(v);
    let ghost sorted: Seq<FileSystemNode> = v@;
    proof {
        // every element of the sorted group is one of the originals, so its flag is clear
        assert forall|k: int| 0 <= k < sorted.len() implies !sorted[k].is_last_spec() by {
            assert(sorted.to_multiset().count(sorted[k]) > 0);
            assert(orig.to_multiset().count(sorted[k]) > 0);
            assert(orig.contains(sorted[k]));
        }
    }
    mark_last(v);
    proof {
        let fin = v@;
        if sorted.len() > 0 {
            let last = sorted.last();
            assert(fin == sorted.update(sorted.len() - 1, with_last(last, true)));
            assert forall|p: int, q: int| 0 <= p < q < fin.len() implies node_le(fin[p], fin[q])
                by {
                assert(node_le(sorted[p], sorted[q]));
            }
            assert(siblings_marked(fin));
            assert(strip_last_flags(fin) =~= sorted) by {
                assert forall|k: int| 0 <= k < fin.len() implies with_last(fin[k], false)
                    == sorted[k] by {
                    assert(!sorted[k].is_last_spec());
                }
            }
            assert(strip_last_flags(fin).to_multiset() == orig.to_multiset());
        } else {
            assert(fin =~= sorted);
            assert(strip_last_flags(fin) =~= sorted);
        }
    }
}

} // verus!
