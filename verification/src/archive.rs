//! The volume being built: the fixed-layout header, the flat catalog of
//! fixed-width records, and the data segment. The catalog is produced by a
//! breadth-first linearization of the file tree; a directory record points
//! forward at its first child's flat index, a file record (after the offset
//! pass) at the absolute byte offset of its content in the output file.

use vstd::prelude::*;

use chrono::Datelike;
use chrono::Timelike;

use crate::bytes::NAME_WIDTH;
use crate::bytes::spec_pad_name;
use crate::bytes::pad_name;
use crate::filetree::FileSystemNode;
use crate::filetree::node_wf;
use crate::linearize::archive_fits;
use crate::linearize::bfs_cat;
use crate::linearize::bfs_data;
use crate::linearize::init_queue;
use crate::linearize::lemma_bfs_cat_wf;
use crate::linearize::linearize;
use crate::linearize::queue_count;
use crate::linearize::queue_wf;

verus! {

/// Type bit marking a catalog record as a directory.
pub const ENTRY_TYPE_DIR: u32 = 0x8000_0000;

/// Type bit marking a catalog record as the last of its sibling group.
pub const ENTRY_TYPE_LAST: u32 = 0x4000_0000;

/// Byte width of the header's comment field.
pub const COMMENT_WIDTH: usize = 256;

/// Byte width of the header's format signature field.
pub const SIGNATURE_WIDTH: usize = 16;

/// Byte length of the serialized header, which is also the catalog's offset
/// in the output file: comment, signature, and six 32-bit fields.
pub const CATALOG_OFFSET: u32 = 296;

/// Byte length of one serialized catalog record: the name field and four
/// 32-bit fields.
pub const ENTRY_WIDTH: u32 = 80;

/// Constant format version written to every header.
pub const VDFS_VERSION: u32 = 80;

/// Filler byte of the comment field.
pub const COMMENT_FILL: u8 = 0x1a;

/// The constant 16-byte format signature, `PSVDSC_V2.00\n\r\n\r`.
pub open spec fn spec_signature() -> Seq<u8> {
    seq![
        0x50u8,
        0x53u8,
        0x56u8,
        0x44u8,
        0x53u8,
        0x43u8,
        0x5fu8,
        0x56u8,
        0x32u8,
        0x2eu8,
        0x30u8,
        0x30u8,
        0x0au8,
        0x0du8,
        0x0au8,
        0x0du8,
    ]
}

/// Mathematical image of a header.
pub struct HeaderV {
    pub comment: Seq<u8>,
    pub signature: Seq<u8>,
    pub num_files: u32,
    pub num_entries: u32,
    pub timestamp: u32,
    pub size: u32,
    pub catalog_offset: u32,
    pub version: u32,
}

/// One archive header. `num_files` counts all catalog records, `num_entries`
/// only the plain-file records; `size` is the byte length of the data
/// segment; `catalog_offset` is the constant header length.
pub struct VDFSHeader {
    pub comment: Vec<u8>,
    pub signature: Vec<u8>,
    pub num_files: u32,
    pub num_entries: u32,
    pub timestamp: u32,
    pub size: u32,
    pub catalog_offset: u32,
    pub version: u32,
}

impl View for VDFSHeader {
    type V = HeaderV;

    open spec fn view(&self) -> HeaderV {
        HeaderV {
            comment: self.comment@,
            signature: self.signature@,
            num_files: self.num_files,
            num_entries: self.num_entries,
            timestamp: self.timestamp,
            size: self.size,
            catalog_offset: self.catalog_offset,
            version: self.version,
        }
    }
}

impl HeaderV {
    /// Field widths and constants every header carries.
    pub open spec fn wf(self) -> bool {
        &&& self.comment.len() == COMMENT_WIDTH
        &&& self.signature.len() == SIGNATURE_WIDTH
        &&& self.signature == spec_signature()
        &&& self.version == VDFS_VERSION
    }
}

/// A field-wide fill of the comment value, overwritten on a prefix by the
/// consumer-provided comment.
pub open spec fn spec_overwrite_prefix(field: Seq<u8>, c: Seq<u8>) -> Seq<u8> {
    Seq::new(field.len(), |i: int| if i < c.len() { c[i] } else { field[i] })
}

impl VDFSHeader {
    /// Writes the comment over a prefix of the fixed-width comment field.
    pub fn comment(&mut self, cmnt: &Vec<u8>)
        requires
            cmnt@.len() <= old(self)@.comment.len(),
        ensures
            final(self)@ == (HeaderV {
                comment: spec_overwrite_prefix(old(self)@.comment, cmnt@),
                ..old(self)@
            }),
    {
        let mut i: usize = 0;
        while i < cmnt.len()
            invariant
                i <= cmnt@.len() <= self.comment@.len(),
                self.comment@.len() == old(self)@.comment.len(),
                forall|j: int| 0 <= j < i ==> self.comment@[j] == cmnt@[j],
                forall|j: int| i <= j < self.comment@.len() ==> self.comment@[j] == old(
                    self,
                )@.comment[j],
                self.signature == old(self).signature,
                self.num_files == old(self).num_files,
                self.num_entries == old(self).num_entries,
                self.timestamp == old(self).timestamp,
                self.size == old(self).size,
                self.catalog_offset == old(self).catalog_offset,
                self.version == old(self).version,
            decreases cmnt@.len() - i,
        {
            let b = cmnt[i];
            self.comment[i] = b;
            i += 1;
        }
        proof {
            assert(self.comment@ =~= spec_overwrite_prefix(old(self)@.comment, cmnt@));
        }
    }
}

impl Default for VDFSHeader {
    /// A fresh header: filled comment field, constant signature and version,
    /// the timestamp taken from the current wall clock, counters zero.
    fn default() -> (h: Self)
        ensures
            h@.wf(),
            h@.comment == Seq::new(COMMENT_WIDTH as nat, |i: int| COMMENT_FILL),
            h@.num_files == 0,
            h@.num_entries == 0,
            h@.size == 0,
            h@.catalog_offset == 0,
    {
        let mut comment: Vec<u8> = Vec::new();
        while comment.len() < COMMENT_WIDTH
            invariant
                comment@.len() <= COMMENT_WIDTH,
                comment@ =~= Seq::new(comment@.len(), |i: int| COMMENT_FILL),
            decreases COMMENT_WIDTH - comment@.len(),
        {
            comment.push(COMMENT_FILL);
            proof {
                assert(comment@ =~= Seq::new(comment@.len(), |i: int| COMMENT_FILL));
            }
        }
        let mut signature: Vec<u8> = Vec::new();
        signature.push(0x50);
        signature.push(0x53);
        signature.push(0x56);
        signature.push(0x44);
        signature.push(0x53);
        signature.push(0x43);
        signature.push(0x5f);
        signature.push(0x56);
        signature.push(0x32);
        signature.push(0x2e);
        signature.push(0x30);
        signature.push(0x30);
        signature.push(0x0a);
        signature.push(0x0d);
        signature.push(0x0a);
        signature.push(0x0d);
        proof {
            assert(signature@ =~= spec_signature());
        }
        VDFSHeader {
            comment,
            signature,
            timestamp: get_current_dos_time(),
            num_files: 0,
            num_entries: 0,
            size: 0,
            catalog_offset: 0,
            version: VDFS_VERSION,
        }
    }
}

/// Mathematical image of a catalog record.
pub struct EntryV {
    pub name: Seq<u8>,
    pub next_index: u32,
    pub size: u32,
    pub typ: u32,
    pub attributes: u32,
    pub parent_id: int,
    pub is_dir: bool,
}

/// One flat catalog record. `next_index` is a catalog index for a directory
/// and a byte offset into the output file for a file; `parent_id` is the flat
/// index of the parent record (-1 for children of the root) and is used only
/// to resolve the forward references, it is not serialized.
pub struct VDFSCatalogEntry {
    pub name: Vec<u8>,
    pub next_index: u32,
    pub size: u32,
    pub typ: u32,
    pub attributes: u32,
    pub parent_id: i32,
    pub is_dir: bool,
}

impl View for VDFSCatalogEntry {
    type V = EntryV;

    open spec fn view(&self) -> EntryV {
        EntryV {
            name: self.name@,
            next_index: self.next_index,
            size: self.size,
            typ: self.typ,
            attributes: self.attributes,
            parent_id: self.parent_id as int,
            is_dir: self.is_dir,
        }
    }
}

impl EntryV {
    /// A record whose type flags mark a plain file, possibly the last of its
    /// sibling group.
    pub open spec fn is_plain(self) -> bool {
        self.typ == 0 || self.typ == ENTRY_TYPE_LAST
    }
}

/// The view of a whole catalog.
pub open spec fn cat_view(c: Seq<VDFSCatalogEntry>) -> Seq<EntryV> {
    c.map_values(|e: VDFSCatalogEntry| e@)
}

impl Default for VDFSCatalogEntry {
    /// A blank record: space-filled name field, zero fields.
    fn default() -> (e: Self)
        ensures
            e@.name == Seq::new(NAME_WIDTH as nat, |i: int| 0x20u8),
            e@.next_index == 0,
            e@.size == 0,
            e@.typ == 0,
            e@.attributes == 0,
            e@.parent_id == 0,
            e@.is_dir == false,
    {
        let mut name: Vec<u8> = Vec::new();
        while name.len() < NAME_WIDTH
            invariant
                name@.len() <= NAME_WIDTH,
                name@ =~= Seq::new(name@.len(), |i: int| 0x20u8),
            decreases NAME_WIDTH - name@.len(),
        {
            name.push(0x20);
            proof {
                assert(name@ =~= Seq::new(name@.len(), |i: int| 0x20u8));
            }
        }
        VDFSCatalogEntry {
            name,
            next_index: 0,
            size: 0,
            typ: 0,
            attributes: 0,
            parent_id: 0,
            is_dir: false,
        }
    }
}

impl VDFSCatalogEntry {
    /// A record for a directory or zero-sized entry: upper-cased,
    /// space-padded name, every other field blank.
    pub fn new(file_name: &Vec<u8>) -> (e: Self)
        requires
            file_name@.len() <= NAME_WIDTH,
        ensures
            e@ == (EntryV {
                name: spec_pad_name(file_name@),
                next_index: 0,
                size: 0,
                typ: 0,
                attributes: 0,
                parent_id: 0,
                is_dir: false,
            }),
    {
        let name = pad_name(file_name);
        VDFSCatalogEntry {
            name,
            next_index: 0,
            size: 0,
            typ: 0,
            attributes: 0,
            parent_id: 0,
            is_dir: false,
        }
    }

    /// A record for a file of the given byte size.
    pub fn new_sized(file_name: &Vec<u8>, size: u64) -> (e: Self)
        requires
            file_name@.len() <= NAME_WIDTH,
            size <= 0xffff_ffff,
        ensures
            e@ == (EntryV {
                name: spec_pad_name(file_name@),
                next_index: 0,
                size: size as u32,
                typ: 0,
                attributes: 0,
                parent_id: 0,
                is_dir: false,
            }),
    {
        let name = pad_name(file_name);
        VDFSCatalogEntry {
            name,
            next_index: 0,
            size: size as u32,
            typ: 0,
            attributes: 0,
            parent_id: 0,
            is_dir: false,
        }
    }
}

/// The packed DOS date-time: year since 1980 in bits 25-31, month in 21-24,
/// day in 16-20, hour in 11-15, minute in 5-10, two-second count in 0-4.
pub open spec fn spec_dos_pack(yy: u32, mo: u32, dd: u32, hh: u32, mi: u32, s2: u32) -> u32 {
    (yy << 25) | (mo << 21) | (dd << 16) | (hh << 11) | (mi << 5) | s2
}

/// The seven-bit year field: years before 1980 collapse to zero, later years
/// keep the low seven bits of their distance from 1980, as the shift into
/// bits 25-31 would.
pub open spec fn spec_dos_year_field(year: i32) -> u32 {
    if year >= 1980 {
        (((year - 1980) as int) % 128) as u32
    } else {
        0u32
    }
}

/// Packs a calendar date and time into the 32-bit DOS format.
pub fn dos_time_from_parts(year: i32, month: u32, day: u32, hour: u32, minute: u32, second: u32) -> (r:
    u32)
    requires
        1 <= month <= 12,
        1 <= day <= 31,
        hour < 24,
        minute < 60,
        second < 60,
    ensures
        r == spec_dos_pack(
            spec_dos_year_field(year),
            month,
            day,
            hour,
            minute,
            second / 2,
        ),
{
    let yy: u32 = if year >= 1980 {
        ((year - 1980) as u32) % 128
    } else {
        0
    };
    (yy << 25) | (month << 21) | (day << 16) | (hour << 11) | (minute << 5) | (second / 2)
}

/// Relies on `chrono::Utc::now` and its `Datelike`/`Timelike` accessors for
/// the current wall-clock instant: `month` is within 1..=12, `day` within
/// 1..=31, `hour` below 24, `minute` below 60 and `second` below 60 (chrono
/// folds a leap second into the nanosecond field).
#[verifier::external_body]
fn utc_now_parts() -> (r: (i32, u32, u32, u32, u32, u32))
    ensures
        1 <= r.1 <= 12,
        1 <= r.2 <= 31,
        r.3 < 24,
        r.4 < 60,
        r.5 < 60,
{
    let now = chrono::Utc::now();
    (now.year(), now.month(), now.day(), now.hour(), now.minute(), now.second())
}

/// The current wall-clock time in the packed DOS format.
fn get_current_dos_time() -> u32 {
    let (year, month, day, hour, minute, second) = utc_now_parts();
    dos_time_from_parts(year, month, day, hour, minute, second)
}

/// The 32-bit reading of a parent index, as comparing it against an unsigned
/// flat index does: non-negative values are themselves, the sentinel -1 and
/// other negatives wrap.
pub open spec fn parent_as_u32(p: int) -> int {
    if p >= 0 {
        p
    } else {
        p + 0x1_0000_0000
    }
}

/// First position at or after `k` whose parent field reads as `target`; 0 if
/// there is none.
pub open spec fn find_from(c: Seq<EntryV>, target: int, k: int) -> int
    decreases c.len() - k,
{
    if k < 0 || k >= c.len() {
        0
    } else if parent_as_u32(c[k].parent_id) == target {
        k
    } else {
        find_from(c, target, k + 1)
    }
}

/// Flat index of the first record whose parent field reads as `target`, or 0
/// when no record has that parent.
pub open spec fn spec_find_index(c: Seq<EntryV>, target: int) -> int {
    find_from(c, target, 0)
}

/// The scan for a parent stops at the first match.
pub proof fn lemma_find_from_first(c: Seq<EntryV>, target: int, k: int, j0: int)
    requires
        0 <= k <= j0 < c.len(),
        parent_as_u32(c[j0].parent_id) == target,
        forall|j: int| k <= j < j0 ==> parent_as_u32((#[trigger] c[j]).parent_id) != target,
    ensures
        find_from(c, target, k) == j0,
    decreases j0 - k,
{
    if k < j0 {
        lemma_find_from_first(c, target, k + 1, j0);
    }
}

/// With no match at or after `k`, the scan reports 0.
pub proof fn lemma_find_from_none(c: Seq<EntryV>, target: int, k: int)
    requires
        0 <= k,
        forall|j: int| k <= j < c.len() ==> parent_as_u32((#[trigger] c[j]).parent_id) != target,
    ensures
        find_from(c, target, k) == 0,
    decreases c.len() - k,
{
    if k < c.len() {
        lemma_find_from_none(c, target, k + 1);
    }
}

/// Byte size of the first `i` records summed.
pub open spec fn ssum(c: Seq<EntryV>, i: int) -> int
    decreases i,
{
    if i <= 0 {
        0
    } else {
        ssum(c, i - 1) + c[i - 1].size
    }
}

/// Byte size of the plain-file records among the first `i` records summed:
/// the running data offset of record `i`.
pub open spec fn psum(c: Seq<EntryV>, i: int) -> int
    decreases i,
{
    if i <= 0 {
        0
    } else {
        psum(c, i - 1) + if c[i - 1].is_plain() {
            c[i - 1].size as int
        } else {
            0
        }
    }
}

/// Number of plain-file records among the first `i` records.
pub open spec fn count_plain(c: Seq<EntryV>, i: int) -> int
    decreases i,
{
    if i <= 0 {
        0
    } else {
        count_plain(c, i - 1) + if c[i - 1].is_plain() {
            1int
        } else {
            0int
        }
    }
}

pub proof fn lemma_count_plain_le(c: Seq<EntryV>, i: int)
    requires
        0 <= i,
    ensures
        0 <= count_plain(c, i) <= i,
    decreases i,
{
    if i > 0 {
        lemma_count_plain_le(c, i - 1);
    }
}

pub proof fn lemma_ssum_mono(c: Seq<EntryV>, i: int, j: int)
    requires
        i <= j,
    ensures
        ssum(c, i) <= ssum(c, j),
    decreases j - i,
{
    if i < j {
        lemma_ssum_mono(c, i, j - 1);
    }
}

pub proof fn lemma_psum_mono(c: Seq<EntryV>, i: int, j: int)
    requires
        i <= j,
    ensures
        psum(c, i) <= psum(c, j),
    decreases j - i,
{
    if i < j {
        lemma_psum_mono(c, i, j - 1);
    }
}

/// The running data offset does not move across records that are not plain
/// files.
pub proof fn lemma_psum_flat(c: Seq<EntryV>, a: int, b: int)
    requires
        0 <= a <= b <= c.len(),
        forall|k: int| a <= k < b ==> !(#[trigger] c[k]).is_plain(),
    ensures
        psum(c, b) == psum(c, a),
    decreases b - a,
{
    if a < b {
        lemma_psum_flat(c, a, b - 1);
    }
}

pub proof fn lemma_psum_le_ssum(c: Seq<EntryV>, i: int)
    ensures
        psum(c, i) <= ssum(c, i),
        0 <= psum(c, i),
    decreases i,
{
    if i > 0 {
        lemma_psum_le_ssum(c, i - 1);
    }
}

/// When every non-plain record has size zero, the running data offset at the
/// end equals the total of all record sizes.
pub proof fn lemma_psum_eq_ssum(c: Seq<EntryV>, i: int)
    requires
        forall|k: int| 0 <= k < c.len() ==> (!(#[trigger] c[k]).is_plain() ==> c[k].size == 0),
        i <= c.len(),
    ensures
        psum(c, i) == ssum(c, i),
    decreases i,
{
    if i > 0 {
        lemma_psum_eq_ssum(c, i - 1);
    }
}

/// `ssum`, `psum` and `count_plain` only read sizes and type flags, so any
/// pass that preserves those preserves them.
pub proof fn lemma_sums_congruent(c: Seq<EntryV>, d: Seq<EntryV>, i: int)
    requires
        i <= c.len(),
        c.len() == d.len(),
        forall|k: int| 0 <= k < c.len() ==> (#[trigger] d[k]).size == c[k].size && d[k].typ
            == c[k].typ,
    ensures
        ssum(d, i) == ssum(c, i),
        psum(d, i) == psum(c, i),
        count_plain(d, i) == count_plain(c, i),
    decreases i,
{
    if i <= 0 {
        assert(ssum(c, i) == 0 && ssum(d, i) == 0);
        assert(psum(c, i) == 0 && psum(d, i) == 0);
        assert(count_plain(c, i) == 0 && count_plain(d, i) == 0);
    } else {
        lemma_sums_congruent(c, d, i - 1);
        assert(d[i - 1].is_plain() == c[i - 1].is_plain());
    }
}

/// `find_from` only reads parent fields.
pub proof fn lemma_find_congruent(c: Seq<EntryV>, d: Seq<EntryV>, target: int, k: int)
    requires
        c.len() == d.len(),
        forall|j: int| 0 <= j < c.len() ==> (#[trigger] d[j]).parent_id == c[j].parent_id,
    ensures
        find_from(d, target, k) == find_from(c, target, k),
    decreases c.len() - k,
{
    if 0 <= k < c.len() {
        lemma_find_congruent(c, d, target, k + 1);
    }
}

/// The total record size of a linearized tree is the length of its data
/// segment.
pub proof fn lemma_bfs_sizes(q: Seq<(int, FileSystemNode)>, idx: int)
    requires
        queue_wf(q),
    ensures
        ssum(bfs_cat(q, idx), bfs_cat(q, idx).len() as int) == bfs_data(q, idx).len(),
    decreases queue_count(q),
{
    crate::linearize::lemma_queue_wf_step(q, idx);
    if q.len() > 0 {
        crate::linearize::lemma_queue_step_count(q, idx);
        let qn = crate::linearize::bfs_next_queue(q, idx);
        lemma_bfs_sizes(qn, idx + 1);
        let e = crate::linearize::spec_entry_of(q[0].1, q[0].0);
        let c = bfs_cat(q, idx);
        let cn = bfs_cat(qn, idx + 1);
        assert(node_wf(q[0].1));
        assert(e.size as int == q[0].1.data_spec().len());
        lemma_ssum_cons(e, cn, cn.len() as int);
        assert(c =~= seq![e] + cn);
    }
}

/// Prepending one record shifts the prefix sum by that record's size.
pub proof fn lemma_ssum_cons(e: EntryV, s: Seq<EntryV>, i: int)
    requires
        0 <= i <= s.len(),
    ensures
        ssum(seq![e] + s, i + 1) == e.size + ssum(s, i),
    decreases i,
{
    if i > 0 {
        lemma_ssum_cons(e, s, i - 1);
        assert((seq![e] + s)[i] == s[i - 1]);
    } else {
        assert(ssum(s, 0) == 0);
        assert(ssum(seq![e] + s, 0) == 0);
        assert((seq![e] + s)[0] == e);
    }
}

/// The catalog after the forward-reference pass: every directory record
/// points at the first record whose parent field is the directory's own flat
/// index (0 when it has no child); other records are untouched. Resolution
/// reads only parent fields, which the pass does not modify, so it is stated
/// against the unresolved catalog.
pub open spec fn resolve_pass(c: Seq<EntryV>) -> Seq<EntryV> {
    Seq::new(
        c.len(),
        |i: int|
            if c[i].is_dir {
                EntryV { next_index: spec_find_index(c, i) as u32, ..c[i] }
            } else {
                c[i]
            },
    )
}

/// The catalog after the first `m` records of the forward-reference pass.
pub open spec fn resolve_prefix(c: Seq<EntryV>, m: int) -> Seq<EntryV> {
    Seq::new(
        c.len(),
        |i: int|
            if i < m && c[i].is_dir {
                EntryV { next_index: spec_find_index(c, i) as u32, ..c[i] }
            } else {
                c[i]
            },
    )
}

/// The catalog after the offset pass: every plain-file record's forward
/// reference becomes the absolute byte offset of its content in the output
/// file; directory records are untouched.
pub open spec fn offsets_pass(c: Seq<EntryV>) -> Seq<EntryV> {
    Seq::new(
        c.len(),
        |i: int|
            if c[i].is_plain() {
                EntryV { next_index: (296 + 80 * c.len() + psum(c, i)) as u32, ..c[i] }
            } else {
                c[i]
            },
    )
}

/// The catalog after the first `m` records of the offset pass.
pub open spec fn offsets_prefix(c: Seq<EntryV>, m: int) -> Seq<EntryV> {
    Seq::new(
        c.len(),
        |i: int|
            if i < m && c[i].is_plain() {
                EntryV { next_index: (296 + 80 * c.len() + psum(c, i)) as u32, ..c[i] }
            } else {
                c[i]
            },
    )
}

/// The finished catalog of a tree: linearized, forward references resolved,
/// file offsets assigned.
pub open spec fn spec_catalog(root: FileSystemNode) -> Seq<EntryV> {
    offsets_pass(resolve_pass(bfs_cat(init_queue(root), 0)))
}

/// The finished data segment of a tree.
pub open spec fn spec_data(root: FileSystemNode) -> Seq<u8> {
    bfs_data(init_queue(root), 0)
}

/// A well-formed initial queue under a well-formed root.
pub proof fn lemma_init_queue_wf(root: FileSystemNode)
    requires
        node_wf(root),
    ensures
        queue_wf(init_queue(root)),
{
    let q = init_queue(root);
    assert forall|i: int| 0 <= i < q.len() implies node_wf(#[trigger] q[i].1) by {
        if root.is_dir_spec() {
            assert(q[i].1 == root.children_spec()[i]);
            assert(crate::filetree::forest_wf(root.children_spec()));
        } else {
            assert(q[i].1 == root);
        }
    }
}

/// The archive being assembled.
pub struct Vdfs {
    pub header: VDFSHeader,
    pub fs: FileSystemNode,
    pub catalog_dirs: Vec<VDFSCatalogEntry>,
    pub data: Vec<u8>,
    pub curr_pos: u32,
}

impl Vdfs {
    /// A fully built archive, ready for serialization.
    pub open spec fn wf(self) -> bool {
        &&& self.header@.wf()
        &&& self.header@.catalog_offset == CATALOG_OFFSET
        &&& self.header@.num_files as int == self.catalog_dirs@.len()
        &&& forall|i: int|
            0 <= i < self.catalog_dirs@.len() ==> (#[trigger] self.catalog_dirs@[i]).name@.len()
                == NAME_WIDTH
        &&& self.header@.size as int == self.data@.len()
    }

    /// Position of the first record whose parent field reads as `level`, or 0
    /// when there is none.
    pub fn find_index(&self, level: u32) -> (r: u32)
        requires
            self.catalog_dirs@.len() <= 0xffff_ffff,
        ensures
            r as int == spec_find_index(cat_view(self.catalog_dirs@), level as int),
    {
        let ghost c = cat_view(self.catalog_dirs@);
        let n = self.catalog_dirs.len();
        let mut j: usize = 0;
        while j < n
            invariant
                j <= n == c.len() <= 0xffff_ffff,
                c == cat_view(self.catalog_dirs@),
                spec_find_index(c, level as int) == find_from(c, level as int, j as int),
            decreases n - j,
        {
            let p = self.catalog_dirs[j].parent_id;
            let reads: u32 = if p >= 0 {
                p as u32
            } else {
                ((p as i64) + 0x1_0000_0000) as u32
            };
            if reads == level {
                return j as u32;
            }
            j += 1;
        }
        0
    }

    /// Sums every record's size into the header's data-segment size field.
    pub fn calculate_data_size(&mut self)
        requires
            ssum(cat_view(old(self).catalog_dirs@), old(self).catalog_dirs@.len() as int)
                <= 0xffff_ffff,
        ensures
            final(self).fs == old(self).fs,
            final(self).catalog_dirs == old(self).catalog_dirs,
            final(self).data == old(self).data,
            final(self).curr_pos == old(self).curr_pos,
            final(self).header@ == (HeaderV {
                size: ssum(
                    cat_view(old(self).catalog_dirs@),
                    old(self).catalog_dirs@.len() as int,
                ) as u32,
                ..old(self).header@
            }),
    {
        let ghost c = cat_view(self.catalog_dirs@);
        let n = self.catalog_dirs.len();
        let mut acc: u32 = 0;
        let mut i: usize = 0;
        while i < n
            invariant
                i <= n == c.len(),
                c == cat_view(self.catalog_dirs@),
                ssum(c, n as int) <= 0xffff_ffff,
                acc as int == ssum(c, i as int),
            decreases n - i,
        {
            proof {
                lemma_ssum_mono(c, i + 1, n as int);
            }
            acc = acc + self.catalog_dirs[i].size;
            i += 1;
        }
        self.header.size = acc;
    }

    /// Overwrites a prefix of the header's comment field; `None` leaves the
    /// field's fill untouched, as writing an empty comment does.
    pub fn add_comment(self, cmnt: Option<&Vec<u8>>) -> (r: Self)
        requires
            (match cmnt {
                Some(c) => c@.len() <= self.header@.comment.len(),
                None => true,
            }),
        ensures
            r.fs == self.fs,
            r.catalog_dirs == self.catalog_dirs,
            r.data == self.data,
            r.curr_pos == self.curr_pos,
            r.header@ == (HeaderV {
                comment: spec_overwrite_prefix(
                    self.header@.comment,
                    match cmnt {
                        Some(c) => c@,
                        None => Seq::empty(),
                    },
                ),
                ..self.header@
            }),
    {
        let mut out = self;
        match cmnt {
            Some(c) => {
                out.header.comment(c);
            },
            None => {
                let empty: Vec<u8> = Vec::new();
                out.header.comment(&empty);
            },
        }
        proof {
            assert(out.header@.comment =~= spec_overwrite_prefix(
                self.header@.comment,
                match cmnt {
                    Some(c) => c@,
                    None => Seq::<u8>::empty(),
                },
            ));
        }
        out
    }

    /// Builds the flat catalog from the tree: breadth-first linearization,
    /// forward-reference resolution for directories, header totals, and
    /// absolute byte offsets for the plain-file records.
    pub fn build_catalog(&mut self)
        requires
            node_wf(old(self).fs),
            archive_fits(old(self).fs),
            old(self).catalog_dirs@.len() == 0,
            old(self).curr_pos == 0,
        ensures
            final(self).fs == old(self).fs,
            cat_view(final(self).catalog_dirs@) == spec_catalog(old(self).fs),
            final(self).data@ == spec_data(old(self).fs),
            final(self).header@ == (HeaderV {
                num_files: spec_catalog(old(self).fs).len() as u32,
                num_entries: count_plain(
                    spec_catalog(old(self).fs),
                    spec_catalog(old(self).fs).len() as int,
                ) as u32,
                catalog_offset: CATALOG_OFFSET,
                ..old(self).header@
            }),
            final(self).curr_pos as int == spec_data(old(self).fs).len(),
    {
        let ghost root = old(self).fs;
        let ghost q0 = init_queue(root);
        let ghost c0 = bfs_cat(q0, 0);
        proof {
            lemma_init_queue_wf(root);
            lemma_bfs_cat_wf(q0, 0);
            lemma_bfs_sizes(q0, 0);
            assert(c0.len() == queue_count(q0));
            assert(296 + 80 * c0.len() + bfs_data(q0, 0).len() <= 0xffff_ffff);
        }
        let (catalog, data) = linearize(&self.fs);
        self.catalog_dirs = catalog;
        self.data = data;
        let n = self.catalog_dirs.len();
        proof {
            assert(cat_view(self.catalog_dirs@).len() == c0.len());
            assert(n as int == c0.len());
        }

        // forward-reference resolution
        let mut i: usize = 0;
        proof {
            assert(cat_view(self.catalog_dirs@) =~= resolve_prefix(c0, 0));
        }
        while i < n
            invariant
                i <= n,
                root == old(self).fs,
                q0 == init_queue(root),
                c0 == bfs_cat(q0, 0),
                n as int == c0.len(),
                296 + 80 * c0.len() + bfs_data(q0, 0).len() <= 0xffff_ffff,
                self.catalog_dirs@.len() == c0.len(),
                cat_view(self.catalog_dirs@) == resolve_prefix(c0, i as int),
                self.fs == old(self).fs,
                self.data@ == bfs_data(q0, 0),
                self.header == old(self).header,
                self.curr_pos == 0,
            decreases n - i,
        {
            let ghost cur = cat_view(self.catalog_dirs@);
            proof {
                assert(cur[i as int] == self.catalog_dirs@[i as int]@);
            }
            let is_d = self.catalog_dirs[i].is_dir;
            proof {
                assert(is_d == c0[i as int].is_dir);
            }
            if is_d {
                let id = self.find_index(i as u32);
                proof {
                    assert forall|k: int| 0 <= k < c0.len() implies (#[trigger] cur[k]).parent_id
                        == c0[k].parent_id by {}
                    lemma_find_congruent(c0, cur, i as int, 0);
                    assert(id as int == spec_find_index(c0, i as int));
                }
                self.catalog_dirs[i].next_index = id;
                proof {
                    assert forall|k: int|
                        0 <= k < c0.len() implies cat_view(self.catalog_dirs@)[k]
                        == resolve_prefix(c0, i as int + 1)[k] by {
                        assert(cat_view(self.catalog_dirs@)[k] == self.catalog_dirs@[k]@);
                        if k != i as int {
                            assert(self.catalog_dirs@[k]@ == cur[k]);
                        }
                    }
                    assert(cat_view(self.catalog_dirs@) =~= resolve_prefix(c0, i as int + 1));
                }
            } else {
                proof {
                    assert(cat_view(self.catalog_dirs@) =~= resolve_prefix(c0, i as int + 1));
                }
            }
            i += 1;
        }
        let ghost c1 = resolve_pass(c0);
        proof {
            assert(resolve_prefix(c0, n as int) =~= c1);
            // both passes preserve sizes, flags, parents and names
            assert(forall|k: int| 0 <= k < c0.len() ==> (#[trigger] c1[k]).size == c0[k].size
                && c1[k].typ == c0[k].typ && c1[k].parent_id == c0[k].parent_id && c1[k].name
                == c0[k].name && c1[k].is_dir == c0[k].is_dir);
            lemma_sums_congruent(c0, c1, n as int);
        }

        // header totals
        self.header.catalog_offset = CATALOG_OFFSET;
        self.header.num_files = n as u32;
        let mut cnt: u32 = 0;
        let mut i2: usize = 0;
        while i2 < n
            invariant
                i2 <= n,
                n <= 0xffff_ffff,
                cnt <= i2,
                n as int == c1.len(),
                cat_view(self.catalog_dirs@) == c1,
                self.catalog_dirs@.len() == c1.len(),
                cnt as int == count_plain(c1, i2 as int),
            decreases n - i2,
        {
            proof {
                assert(cat_view(self.catalog_dirs@)[i2 as int] == self.catalog_dirs@[i2 as int]@);
            }
            let t = self.catalog_dirs[i2].typ;
            if t == 0 || t == ENTRY_TYPE_LAST {
                cnt = cnt + 1;
            }
            i2 += 1;
        }
        self.header.num_entries = cnt;

        // absolute file offsets
        let mut i3: usize = 0;
        proof {
            assert(offsets_prefix(c1, 0) =~= c1);
            assert(ssum(c1, n as int) == bfs_data(q0, 0).len());
        }
        while i3 < n
            invariant
                i3 <= n,
                root == old(self).fs,
                q0 == init_queue(root),
                c0 == bfs_cat(q0, 0),
                c1 == resolve_pass(c0),
                n as int == c1.len(),
                ssum(c1, n as int) == bfs_data(q0, 0).len(),
                296 + 80 * c1.len() + ssum(c1, n as int) <= 0xffff_ffff,
                self.catalog_dirs@.len() == c1.len(),
                cat_view(self.catalog_dirs@) == offsets_prefix(c1, i3 as int),
                self.curr_pos as int == psum(c1, i3 as int),
                self.fs == old(self).fs,
                self.data@ == bfs_data(q0, 0),
                self.header.num_files as int == c1.len(),
                self.header.catalog_offset == CATALOG_OFFSET,
                self.header.num_entries as int == count_plain(c1, c1.len() as int),
                self.header.comment == old(self).header.comment,
                self.header.signature == old(self).header.signature,
                self.header.timestamp == old(self).header.timestamp,
                self.header.size == old(self).header.size,
                self.header.version == old(self).header.version,
            decreases n - i3,
        {
            let ghost cur = cat_view(self.catalog_dirs@);
            proof {
                assert(cur[i3 as int] == self.catalog_dirs@[i3 as int]@);
                lemma_psum_le_ssum(c1, i3 as int);
                lemma_psum_le_ssum(c1, i3 as int + 1);
                lemma_ssum_mono(c1, i3 as int, n as int);
                lemma_ssum_mono(c1, i3 as int + 1, n as int);
            }
            let t = self.catalog_dirs[i3].typ;
            if t == 0 || t == ENTRY_TYPE_LAST {
                proof {
                    assert(c1[i3 as int].is_plain());
                }
                let off = self.header.catalog_offset + self.header.num_files * ENTRY_WIDTH
                    + self.curr_pos;
                self.catalog_dirs[i3].next_index = off;
                let sz = self.catalog_dirs[i3].size;
                proof {
                    assert(sz == c1[i3 as int].size);
                }
                self.curr_pos = self.curr_pos + sz;
                proof {
                    assert forall|k: int|
                        0 <= k < c1.len() implies cat_view(self.catalog_dirs@)[k]
                        == offsets_prefix(c1, i3 as int + 1)[k] by {
                        assert(cat_view(self.catalog_dirs@)[k] == self.catalog_dirs@[k]@);
                        if k != i3 as int {
                            assert(self.catalog_dirs@[k]@ == cur[k]);
                        }
                    }
                    assert(cat_view(self.catalog_dirs@) =~= offsets_prefix(c1, i3 as int + 1));
                }
            } else {
                proof {
                    assert(!c1[i3 as int].is_plain());
                    assert(cat_view(self.catalog_dirs@) =~= offsets_prefix(c1, i3 as int + 1));
                }
            }
            i3 += 1;
        }
        proof {
            let c2 = offsets_pass(c1);
            assert(offsets_prefix(c1, n as int) =~= c2);
            assert(spec_catalog(root) == c2);
            assert(forall|k: int| 0 <= k < c1.len() ==> (#[trigger] c2[k]).size == c1[k].size
                && c2[k].typ == c1[k].typ);
            lemma_sums_congruent(c1, c2, n as int);
            // the running offset ends at the data segment's length
            assert(forall|k: int| 0 <= k < c1.len() ==> (!(#[trigger] c1[k]).is_plain()
                ==> c1[k].size == 0));
            lemma_psum_eq_ssum(c1, n as int);
        }
    }

    /// Builds an archive from a directory tree: catalog, data segment and
    /// header totals; the comment field keeps its default fill until
    /// `add_comment` overwrites a prefix of it.
    pub fn from_dir(fs: FileSystemNode) -> (v: Vdfs)
        requires
            node_wf(fs),
            archive_fits(fs),
        ensures
            v.wf(),
            v.fs == fs,
            cat_view(v.catalog_dirs@) == spec_catalog(fs),
            v.data@ == spec_data(fs),
            v.header@.num_files as int == spec_catalog(fs).len(),
            v.header@.num_entries as int == count_plain(
                spec_catalog(fs),
                spec_catalog(fs).len() as int,
            ),
            v.header@.catalog_offset == CATALOG_OFFSET,
            v.header@.size as int == spec_data(fs).len(),
            v.header@.comment == Seq::new(COMMENT_WIDTH as nat, |i: int| COMMENT_FILL),
            v.curr_pos as int == spec_data(fs).len(),
    {
        let mut v = Vdfs {
            header: VDFSHeader::default(),
            fs,
            catalog_dirs: Vec::new(),
            data: Vec::new(),
            curr_pos: 0,
        };
        v.build_catalog();
        proof {
            let q0 = init_queue(fs);
            let c0 = bfs_cat(q0, 0);
            let c2 = spec_catalog(fs);
            lemma_init_queue_wf(fs);
            lemma_bfs_cat_wf(q0, 0);
            lemma_bfs_sizes(q0, 0);
            let c1 = resolve_pass(c0);
            assert(forall|k: int| 0 <= k < c0.len() ==> (#[trigger] c1[k]).size == c0[k].size
                && c1[k].typ == c0[k].typ && c1[k].name == c0[k].name);
            assert(forall|k: int| 0 <= k < c1.len() ==> (#[trigger] c2[k]).size == c1[k].size
                && c2[k].typ == c1[k].typ && c2[k].name == c1[k].name);
            lemma_sums_congruent(c0, c1, c0.len() as int);
            lemma_sums_congruent(c1, c2, c1.len() as int);
            lemma_count_plain_le(c2, c2.len() as int);
            assert(c2.len() <= 0xffff_ffff);
            assert(ssum(c2, c2.len() as int) == spec_data(fs).len());
            assert(ssum(cat_view(v.catalog_dirs@), v.catalog_dirs@.len() as int) <= 0xffff_ffff);
        }
        v.calculate_data_size();
        proof {
            let q0 = init_queue(fs);
            let c0 = bfs_cat(q0, 0);
            let c2 = spec_catalog(fs);
            assert forall|i: int| 0 <= i < v.catalog_dirs@.len() implies (#[trigger] v.catalog_dirs@[
                i]).name@.len() == NAME_WIDTH by {
                assert(cat_view(v.catalog_dirs@)[i] == v.catalog_dirs@[i]@);
                assert(c2[i].name == resolve_pass(c0)[i].name);
                assert(resolve_pass(c0)[i].name == c0[i].name);
            }
        }
        v
    }
}

} // verus!
