//! Binary serialization of the archive: header, catalog table and data
//! segment in a fixed little-endian layout, written once and sequentially.

use vstd::prelude::*;

use crate::archive::CATALOG_OFFSET;
use crate::archive::EntryV;
use crate::archive::HeaderV;
use crate::archive::VDFS_VERSION;
use crate::archive::Vdfs;
use crate::archive::cat_view;
use crate::archive::spec_signature;
use crate::bytes::NAME_WIDTH;
use crate::bytes::push_bytes;
use crate::bytes::push_le32;
use crate::bytes::spec_le32;
use crate::bytes::spec_read_le32;
use crate::bytes::lemma_le32_roundtrip;

verus! {

/// The 296 serialized header bytes: comment, signature, then six 32-bit
/// little-endian fields.
pub open spec fn spec_header_bytes(h: HeaderV) -> Seq<u8> {
    h.comment + h.signature + spec_le32(h.num_files) + spec_le32(h.num_entries) + spec_le32(
        h.timestamp,
    ) + spec_le32(h.size) + spec_le32(h.catalog_offset) + spec_le32(h.version)
}

/// The 80 serialized bytes of one catalog record: name field, then four
/// 32-bit little-endian fields.
pub open spec fn spec_entry_bytes(e: EntryV) -> Seq<u8> {
    e.name + spec_le32(e.next_index) + spec_le32(e.size) + spec_le32(e.typ) + spec_le32(
        e.attributes,
    )
}

/// The serialized catalog table, records in flat order.
pub open spec fn spec_cat_bytes(c: Seq<EntryV>) -> Seq<u8>
    decreases c.len(),
{
    if c.len() == 0 {
        Seq::empty()
    } else {
        spec_entry_bytes(c[0]) + spec_cat_bytes(c.skip(1))
    }
}

/// The whole output file: header, catalog table, data segment.
pub open spec fn spec_archive_bytes(h: HeaderV, c: Seq<EntryV>, d: Seq<u8>) -> Seq<u8> {
    spec_header_bytes(h) + spec_cat_bytes(c) + d
}

/// Appending one record to the catalog appends its 80 bytes.
pub proof fn lemma_cat_bytes_snoc(c: Seq<EntryV>, e: EntryV)
    ensures
        spec_cat_bytes(c.push(e)) == spec_cat_bytes(c) + spec_entry_bytes(e),
    decreases c.len(),
{
    if c.len() == 0 {
        assert(c.push(e)[0] == e);
        assert(c.push(e).skip(1) =~= Seq::<EntryV>::empty());
        assert(spec_cat_bytes(Seq::<EntryV>::empty()) == Seq::<u8>::empty());
        assert(spec_cat_bytes(c.push(e)) == spec_entry_bytes(e) + Seq::<u8>::empty());
        assert(spec_entry_bytes(e) + Seq::<u8>::empty() =~= spec_entry_bytes(e));
        assert(spec_cat_bytes(c) + spec_entry_bytes(e) =~= spec_entry_bytes(e));
    } else {
        assert(c.push(e).skip(1) =~= c.skip(1).push(e));
        assert(c.push(e)[0] == c[0]);
        lemma_cat_bytes_snoc(c.skip(1), e);
        assert(spec_entry_bytes(c[0]) + (spec_cat_bytes(c.skip(1)) + spec_entry_bytes(e))
            =~= (spec_entry_bytes(c[0]) + spec_cat_bytes(c.skip(1))) + spec_entry_bytes(e));
    }
}

/// With full name fields, the catalog table is 80 bytes per record.
pub proof fn lemma_cat_bytes_len(c: Seq<EntryV>)
    requires
        forall|i: int| 0 <= i < c.len() ==> (#[trigger] c[i]).name.len() == NAME_WIDTH,
    ensures
        spec_cat_bytes(c).len() == 80 * c.len(),
    decreases c.len(),
{
    if c.len() > 0 {
        assert(forall|i: int| 0 <= i < c.skip(1).len() ==> (#[trigger] c.skip(1)[i]).name.len()
            == NAME_WIDTH);
        lemma_cat_bytes_len(c.skip(1));
    }
}

impl Vdfs {
    /// Serializes the archive: the exact bytes of the output file.
    pub fn to_bytes(&self) -> (r: Vec<u8>)
        requires
            self.wf(),
        ensures
            r@ == spec_archive_bytes(self.header@, cat_view(self.catalog_dirs@), self.data@),
            r@.len() == 296 + 80 * self.catalog_dirs@.len() + self.data@.len(),
    {
        let mut out: Vec<u8> = Vec::new();
        push_bytes(&mut out, &self.header.comment);
        push_bytes(&mut out, &self.header.signature);
        push_le32(&mut out, self.header.num_files);
        push_le32(&mut out, self.header.num_entries);
        push_le32(&mut out, self.header.timestamp);
        push_le32(&mut out, self.header.size);
        push_le32(&mut out, self.header.catalog_offset);
        push_le32(&mut out, self.header.version);
        proof {
            assert(out@ =~= spec_header_bytes(self.header@));
        }
        let ghost c = cat_view(self.catalog_dirs@);
        let n = self.catalog_dirs.len();
        let mut i: usize = 0;
        proof {
            assert(c.take(0) =~= Seq::<EntryV>::empty());
            assert(out@ + spec_cat_bytes(c.take(0)) =~= out@);
        }
        while i < n
            invariant
                i <= n,
                n == self.catalog_dirs@.len(),
                c == cat_view(self.catalog_dirs@),
                out@ == spec_header_bytes(self.header@) + spec_cat_bytes(c.take(i as int)),
            decreases n - i,
        {
            proof {
                assert(c[i as int] == self.catalog_dirs@[i as int]@);
            }
            let ghost before = out@;
            push_bytes(&mut out, &self.catalog_dirs[i].name);
            push_le32(&mut out, self.catalog_dirs[i].next_index);
            push_le32(&mut out, self.catalog_dirs[i].size);
            push_le32(&mut out, self.catalog_dirs[i].typ);
            push_le32(&mut out, self.catalog_dirs[i].attributes);
            proof {
                assert(out@ =~= before + spec_entry_bytes(c[i as int]));
                lemma_cat_bytes_snoc(c.take(i as int), c[i as int]);
                assert(c.take(i as int).push(c[i as int]) =~= c.take(i as int + 1));
                assert(out@ =~= spec_header_bytes(self.header@) + spec_cat_bytes(
                    c.take(i as int + 1),
                ));
            }
            i += 1;
        }
        proof {
            assert(c.take(n as int) =~= c);
        }
        push_bytes(&mut out, &self.data);
        proof {
            assert(out@ =~= spec_archive_bytes(self.header@, c, self.data@));
            assert forall|k: int| 0 <= k < c.len() implies (#[trigger] c[k]).name.len()
                == NAME_WIDTH by {
                assert(c[k] == self.catalog_dirs@[k]@);
            }
            lemma_cat_bytes_len(c);
        }
        out
    }
}

/// Reading four little-endian bytes back where a 32-bit field was written
/// recovers the field.
pub proof fn lemma_read_le32_at(b: Seq<u8>, off: int, x: u32)
    requires
        0 <= off,
        off + 4 <= b.len(),
        b.subrange(off, off + 4) == spec_le32(x),
    ensures
        spec_read_le32(b, off) == x,
{
    lemma_le32_roundtrip(x);
    assert(b[off] == spec_le32(x)[0]);
    assert(b[off + 1] == spec_le32(x)[1]);
    assert(b[off + 2] == spec_le32(x)[2]);
    assert(b[off + 3] == spec_le32(x)[3]);
}

/// Decoding a produced archive's header bytes per the fixed layout yields
/// the format constants back, whatever tree was packaged: the signature at
/// offset 256, the catalog offset at 288, the version at 292.
pub proof fn lemma_header_round_trip(h: HeaderV, c: Seq<EntryV>, d: Seq<u8>)
    requires
        h.wf(),
        h.catalog_offset == CATALOG_OFFSET,
    ensures
        spec_archive_bytes(h, c, d).subrange(256, 272) == spec_signature(),
        spec_read_le32(spec_archive_bytes(h, c, d), 288) == CATALOG_OFFSET,
        spec_read_le32(spec_archive_bytes(h, c, d), 292) == VDFS_VERSION,
{
    let b = spec_archive_bytes(h, c, d);
    let hb = spec_header_bytes(h);
    assert(hb.len() == 296);
    assert(forall|k: int| 0 <= k < 296 ==> b[k] == hb[k]);
    assert(b.subrange(256, 272) =~= spec_signature());
    assert(b.subrange(288, 292) =~= spec_le32(h.catalog_offset));
    assert(b.subrange(292, 296) =~= spec_le32(h.version));
    lemma_read_le32_at(b, 288, h.catalog_offset);
    lemma_read_le32_at(b, 292, h.version);
}

} // verus!
