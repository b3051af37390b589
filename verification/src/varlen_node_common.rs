//! Variable-length nodes: record structures, headers and the operations that all
//! variable-length node variants share.
//!
//! A node buffer is laid out as
//!
//! ```text
//! [PersistentHeader][VarNodeHeader][Record0]..[RecordN] <--free--> [DataN]..[Data1][Data0]
//! ```
//!
//! Records grow to the right, the data they point to grows to the left, down to
//! `tail_arena_offset`.

use vstd::prelude::*;
use crate::btree_node::{NodeCore, PersistentHeader, PERSISTENT_HEADER_SIZE};
use crate::bytes::{le16, overlay, rd16, read_u16, write_u16};
use crate::node_layout::{avail, tail, Layout};

verus! {

broadcast use crate::record_sizes::lemma_times;

/// Offset of the first record in a node buffer.
pub const RECORDS_START: u16 = 60;

/// Marks a value length as that of an overflow reference.
pub const OVERFLOW_BIT: u16 = 0x8000;

/// The bits of a packed value length that hold the length.
pub const VALUE_LEN_MASK: u16 = 0x7fff;

//==============================================================================
// Node header
//==============================================================================

/// Header of a variable-length node, right behind the persistent header.
#[derive(Debug, Clone, Copy)]
pub struct VarNodeHeader {
    /// Where the lowest data byte is; the next object goes below it.
    pub tail_arena_offset: u16,
    /// Free bytes in the node, contiguous or not.
    pub available_space: u16,
}

impl VarNodeHeader {
    /// Size of the header in a node buffer.
    pub fn size() -> (r: u16)
        ensures
            r == 4,
            PERSISTENT_HEADER_SIZE + r == RECORDS_START,
    {
        4
    }

    /// The header of an empty node of `node_size` bytes.
    pub fn init(&mut self, node_size: u16)
        requires
            node_size >= RECORDS_START,
        ensures
            final(self).tail_arena_offset == node_size,
            final(self).available_space == node_size - RECORDS_START,
    {
        self.tail_arena_offset = node_size;
        self.available_space = node_size - PersistentHeader::size() - Self::size();
    }
}

//==============================================================================
// Records
//==============================================================================

/// What all records start with: where the data of the entry is.
#[derive(Debug, Clone, Copy)]
pub struct RecordHeader {
    pub obj_offset: u16,
}

impl RecordHeader {
    pub fn obj_offset(&self) -> (r: u16)
        ensures
            r == self.obj_offset,
    {
        self.obj_offset
    }

    pub fn set_obj_offset(&mut self, offset: u16)
        ensures
            final(self).obj_offset == offset,
    {
        self.obj_offset = offset;
    }

    /// The record header stored at `pos`.
    pub fn read(buf: &Vec<u8>, pos: usize) -> (r: Self)
        requires
            pos + 2 <= buf.len(),
        ensures
            r.obj_offset as int == rd16(buf@, pos as int),
    {
        RecordHeader { obj_offset: read_u16(buf, pos) }
    }

    /// Stores the record header at `pos`.
    pub fn write(&self, buf: &mut Vec<u8>, pos: usize)
        requires
            pos + 2 <= old(buf).len(),
        ensures
            final(buf)@ == overlay(old(buf)@, pos as int, le16(self.obj_offset as int)),
    {
        write_u16(buf, pos, self.obj_offset);
    }
}

/// What the packed field of a value length says: the length in its low fifteen bits, and in
/// the highest one whether the value is an overflow reference.
pub open spec fn packed_len(packed: int) -> int {
    packed % 0x8000
}

pub open spec fn packed_overflow(packed: int) -> bool {
    packed >= 0x8000
}

/// The packed field for a length and an overflow mark.
pub open spec fn pack(len: int, overflow: bool) -> int {
    if overflow {
        len + 0x8000
    } else {
        len
    }
}

proof fn lemma_pack_bits(p: u16, len: u16)
    requires
        len <= VALUE_LEN_MASK,
    ensures
        (p & VALUE_LEN_MASK) as int == packed_len(p as int),
        (p & OVERFLOW_BIT != 0) == packed_overflow(p as int),
        ((p & OVERFLOW_BIT) | (len & VALUE_LEN_MASK)) as int == pack(
            len as int,
            packed_overflow(p as int),
        ),
        (p | OVERFLOW_BIT) as int == pack(packed_len(p as int), true),
        (p & !OVERFLOW_BIT) as int == pack(packed_len(p as int), false),
{
    assert(p & 0x7fff == p % 0x8000) by (bit_vector);
    assert((p & 0x8000 != 0) == (p >= 0x8000)) by (bit_vector);
    assert(len <= 0x7fff ==> ((p & 0x8000) | (len & 0x7fff)) == if p >= 0x8000 {
        (len + 0x8000) as int
    } else {
        len as int
    }) by (bit_vector);
    assert((p | 0x8000) == p % 0x8000 + 0x8000) by (bit_vector);
    assert((p & !0x8000u16) == p % 0x8000) by (bit_vector);
}

/// Record of a node with variable-length keys and fixed-size values: four bytes.
#[derive(Debug, Clone, Copy)]
pub struct VarKeyRecord {
    pub header: RecordHeader,
    pub key_len: u16,
}

impl VarKeyRecord {
    /// Size of a record.
    pub fn size() -> (r: usize)
        ensures
            r == 4,
    {
        4
    }

    /// The record that four stored bytes hold.
    pub fn from_bytes(bytes: &Vec<u8>, pos: usize) -> (r: Self)
        requires
            pos + 4 <= bytes.len(),
        ensures
            r.header.obj_offset as int == rd16(bytes@, pos as int),
            r.key_len as int == rd16(bytes@, pos + 2),
    {
        VarKeyRecord { header: RecordHeader::read(bytes, pos), key_len: read_u16(bytes, pos + 2) }
    }

    pub fn key_len(&self) -> (r: u16)
        ensures
            r == self.key_len,
    {
        self.key_len
    }

    pub fn set_key_len(&mut self, len: u16)
        ensures
            final(self).key_len == len,
            final(self).header == old(self).header,
    {
        self.key_len = len;
    }
}

/// Record of a node with fixed-size keys and variable-length values: four bytes, the overflow
/// mark in the highest bit of the value length.
#[derive(Debug, Clone, Copy)]
pub struct VarValueRecord {
    pub header: RecordHeader,
    pub value_len_packed: u16,
}

impl VarValueRecord {
    /// Size of a record.
    pub fn size() -> (r: usize)
        ensures
            r == 4,
    {
        4
    }

    /// The record that four stored bytes hold.
    pub fn from_bytes(bytes: &Vec<u8>, pos: usize) -> (r: Self)
        requires
            pos + 4 <= bytes.len(),
        ensures
            r.header.obj_offset as int == rd16(bytes@, pos as int),
            r.value_len_packed as int == rd16(bytes@, pos + 2),
    {
        VarValueRecord {
            header: RecordHeader::read(bytes, pos),
            value_len_packed: read_u16(bytes, pos + 2),
        }
    }

    pub fn value_len(&self) -> (r: u16)
        ensures
            r as int == packed_len(self.value_len_packed as int),
    {
        proof {
            lemma_pack_bits(self.value_len_packed, 0);
        }
        self.value_len_packed & VALUE_LEN_MASK
    }

    pub fn is_overflow(&self) -> (r: bool)
        ensures
            r == packed_overflow(self.value_len_packed as int),
    {
        proof {
            lemma_pack_bits(self.value_len_packed, 0);
        }
        (self.value_len_packed & OVERFLOW_BIT) != 0
    }

    pub fn obj_offset(&self) -> (r: u16)
        ensures
            r == self.header.obj_offset,
    {
        self.header.obj_offset()
    }

    pub fn set_obj_offset(&mut self, offset: u16)
        ensures
            final(self).header.obj_offset == offset,
            final(self).value_len_packed == old(self).value_len_packed,
    {
        self.header.set_obj_offset(offset);
    }

    /// Sets the length and leaves the overflow mark as it is.
    pub fn set_value_len(&mut self, len: u16)
        requires
            len <= VALUE_LEN_MASK,
        ensures
            final(self).value_len_packed as int == pack(
                len as int,
                packed_overflow(old(self).value_len_packed as int),
            ),
            final(self).header == old(self).header,
    {
        proof {
            lemma_pack_bits(self.value_len_packed, len);
        }
        self.value_len_packed = (self.value_len_packed & OVERFLOW_BIT) | (len & VALUE_LEN_MASK);
    }

    /// Sets the overflow mark and leaves the length as it is.
    pub fn set_is_overflow(&mut self, is_overflow: bool)
        ensures
            final(self).value_len_packed as int == pack(
                packed_len(old(self).value_len_packed as int),
                is_overflow,
            ),
            final(self).header == old(self).header,
    {
        proof {
            lemma_pack_bits(self.value_len_packed, 0);
        }
        self.value_len_packed = if is_overflow {
            self.value_len_packed | OVERFLOW_BIT
        } else {
            self.value_len_packed & !OVERFLOW_BIT
        };
    }

    pub fn get_value_len_tuple(&self) -> (r: (usize, bool))
        ensures
            r.0 as int == packed_len(self.value_len_packed as int),
            r.1 == packed_overflow(self.value_len_packed as int),
    {
        (self.value_len() as usize, self.is_overflow())
    }

    pub fn set_value_len_tuple(&mut self, len: u16, is_overflow: bool)
        requires
            len <= VALUE_LEN_MASK,
        ensures
            final(self).value_len_packed as int == pack(len as int, is_overflow),
            final(self).header == old(self).header,
    {
        self.set_value_len(len);
        self.set_is_overflow(is_overflow);
    }
}

/// Record of a node with variable-length keys and values: six bytes, the overflow mark in the
/// highest bit of the value length.
#[derive(Debug, Clone, Copy)]
pub struct VarObjRecord {
    pub header: RecordHeader,
    pub key_len: u16,
    pub value_len_packed: u16,
}

impl VarObjRecord {
    /// Size of a record.
    pub fn size() -> (r: usize)
        ensures
            r == 6,
    {
        6
    }

    /// The record that six stored bytes hold.
    pub fn from_bytes(bytes: &Vec<u8>, pos: usize) -> (r: Self)
        requires
            pos + 6 <= bytes.len(),
        ensures
            r.header.obj_offset as int == rd16(bytes@, pos as int),
            r.key_len as int == rd16(bytes@, pos + 2),
            r.value_len_packed as int == rd16(bytes@, pos + 4),
    {
        VarObjRecord {
            header: RecordHeader::read(bytes, pos),
            key_len: read_u16(bytes, pos + 2),
            value_len_packed: read_u16(bytes, pos + 4),
        }
    }

    pub fn key_len(&self) -> (r: u16)
        ensures
            r == self.key_len,
    {
        self.key_len
    }

    pub fn set_key_len(&mut self, len: u16)
        ensures
            final(self).key_len == len,
            final(self).value_len_packed == old(self).value_len_packed,
            final(self).header == old(self).header,
    {
        self.key_len = len;
    }

    pub fn value_len(&self) -> (r: u16)
        ensures
            r as int == packed_len(self.value_len_packed as int),
    {
        proof {
            lemma_pack_bits(self.value_len_packed, 0);
        }
        self.value_len_packed & VALUE_LEN_MASK
    }

    pub fn is_overflow(&self) -> (r: bool)
        ensures
            r == packed_overflow(self.value_len_packed as int),
    {
        proof {
            lemma_pack_bits(self.value_len_packed, 0);
        }
        (self.value_len_packed & OVERFLOW_BIT) != 0
    }

    /// Sets the value length and leaves the overflow mark as it is.
    pub fn set_value_len(&mut self, len: u16)
        requires
            len <= VALUE_LEN_MASK,
        ensures
            final(self).value_len_packed as int == pack(
                len as int,
                packed_overflow(old(self).value_len_packed as int),
            ),
            final(self).key_len == old(self).key_len,
            final(self).header == old(self).header,
    {
        proof {
            lemma_pack_bits(self.value_len_packed, len);
        }
        self.value_len_packed = (self.value_len_packed & OVERFLOW_BIT) | (len & VALUE_LEN_MASK);
    }

    /// Sets the overflow mark and leaves the value length as it is.
    pub fn set_is_overflow(&mut self, is_overflow: bool)
        ensures
            final(self).value_len_packed as int == pack(
                packed_len(old(self).value_len_packed as int),
                is_overflow,
            ),
            final(self).key_len == old(self).key_len,
            final(self).header == old(self).header,
    {
        proof {
            lemma_pack_bits(self.value_len_packed, 0);
        }
        self.value_len_packed = if is_overflow {
            self.value_len_packed | OVERFLOW_BIT
        } else {
            self.value_len_packed & !OVERFLOW_BIT
        };
    }

    pub fn get_value_len_tuple(&self) -> (r: (usize, bool))
        ensures
            r.0 as int == packed_len(self.value_len_packed as int),
            r.1 == packed_overflow(self.value_len_packed as int),
    {
        (self.value_len() as usize, self.is_overflow())
    }

    pub fn set_value_len_tuple(&mut self, len: u16, is_overflow: bool)
        requires
            len <= VALUE_LEN_MASK,
        ensures
            final(self).value_len_packed as int == pack(len as int, is_overflow),
            final(self).key_len == old(self).key_len,
            final(self).header == old(self).header,
    {
        self.set_value_len(len);
        self.set_is_overflow(is_overflow);
    }
}

//==============================================================================
// Record policies
//==============================================================================

/// How a node variant keeps the lengths of its entries.
pub trait VarRecordOps {
    /// The records of the variant.
    spec fn layout(&self) -> Layout;

    spec fn spec_node_variant_type(&self) -> u8;

    proof fn lemma_layout(&self)
        ensures
            self.layout().wf(),
    ;

    /// Size of one record in bytes.
    fn record_size(&self) -> (r: usize)
        ensures
            r as int == self.layout().rec,
    ;

    /// Key length of entry `idx`, as the variant knows it.
    fn get_key_size(&self, core: &NodeCore, idx: u32) -> (r: usize)
        requires
            self.layout().rec_pos(idx + 1) <= core@.buf.len(),
        ensures
            r as int == self.layout().key_len(core@.buf, idx as int),
    ;

    /// Stored value length of entry `idx`, as the variant knows it.
    fn get_value_size(&self, core: &NodeCore, idx: u32) -> (r: usize)
        requires
            self.layout().rec_pos(idx + 1) <= core@.buf.len(),
        ensures
            r as int == self.layout().val_len(core@.buf, idx as int),
    ;

    /// Whether the value of entry `idx` is an overflow reference.
    fn is_value_overflow(&self, core: &NodeCore, idx: u32) -> (r: bool)
        requires
            self.layout().rec_pos(idx + 1) <= core@.buf.len(),
        ensures
            r == self.layout().overflow(core@.buf, idx as int),
    ;

    /// Stores the key length of entry `idx`, where the record has a field for it.
    fn set_key_len(&self, core: &mut NodeCore, idx: u32, len: usize)
        requires
            self.layout().rec_pos(idx + 1) <= old(core)@.buf.len(),
            self.layout().key_field is Some ==> len <= 0xffff,
        ensures
            final(core)@.header == old(core)@.header,
            final(core)@.buf == match self.layout().key_field {
                Some(p) => overlay(
                    old(core)@.buf,
                    self.layout().rec_pos(idx as int) + p,
                    le16(len as int),
                ),
                None => old(core)@.buf,
            },
    ;

    /// Stores the value length and the overflow mark of entry `idx`, where the record has a
    /// field for them.
    fn set_value_len(&self, core: &mut NodeCore, idx: u32, len: usize, is_overflow: bool)
        requires
            self.layout().rec_pos(idx + 1) <= old(core)@.buf.len(),
            self.layout().val_field is Some ==> len <= 0x7fff,
        ensures
            final(core)@.header == old(core)@.header,
            final(core)@.buf == match self.layout().val_field {
                Some(p) => overlay(
                    old(core)@.buf,
                    self.layout().rec_pos(idx as int) + p,
                    le16(pack(len as int, is_overflow)),
                ),
                None => old(core)@.buf,
            },
    ;

    /// The number of the node variant.
    fn node_variant_type(&self) -> (r: u8)
        ensures
            r == self.spec_node_variant_type(),
    ;
}

//==============================================================================
// Access to headers, records and data
//==============================================================================

/// The header of a variable-length node.
pub fn get_var_header(core: &NodeCore) -> (r: VarNodeHeader)
    requires
        core@.buf.len() >= RECORDS_START,
    ensures
        r.tail_arena_offset as int == tail(core@.buf),
        r.available_space as int == avail(core@.buf),
{
    let len: usize = core.phys_buf.len();
    VarNodeHeader {
        tail_arena_offset: read_u16(&core.phys_buf, 56),
        available_space: read_u16(&core.phys_buf, 58),
    }
}

/// Replaces the header of a variable-length node.
pub fn set_var_header(core: &mut NodeCore, hdr: VarNodeHeader)
    requires
        old(core)@.buf.len() >= RECORDS_START,
    ensures
        final(core)@.header == old(core)@.header,
        final(core)@.buf.len() == old(core)@.buf.len(),
        tail(final(core)@.buf) == hdr.tail_arena_offset as int,
        avail(final(core)@.buf) == hdr.available_space as int,
        forall|p: int|
            0 <= p < old(core)@.buf.len() && !(56 <= p < 60) ==> #[trigger] final(core)@.buf[p]
                == old(core)@.buf[p],
{
    let len: usize = core.phys_buf.len();
    write_u16(&mut core.phys_buf, 56, hdr.tail_arena_offset);
    write_u16(&mut core.phys_buf, 58, hdr.available_space);
}

/// Offset of record `idx` in the node buffer.
pub fn get_record_ptr(core: &NodeCore, idx: u32, record_size: usize) -> (r: usize)
    requires
        60 + record_size * idx <= usize::MAX,
    ensures
        r == 60 + record_size * idx,
{
    let first: usize = PersistentHeader::size() as usize + VarNodeHeader::size() as usize;
    proof {
        assert(0 <= record_size * idx) by (nonlinear_arith);
    }
    first + record_size * (idx as usize)
}

/// Offset of the data that the record at offset `rec_ptr` points to.
pub fn get_obj_ptr(core: &NodeCore, rec_ptr: usize) -> (r: usize)
    requires
        rec_ptr + 2 <= core@.buf.len(),
    ensures
        r as int == rd16(core@.buf, rec_ptr as int),
{
    let len: usize = core.phys_buf.len();
    RecordHeader::read(&core.phys_buf, rec_ptr).obj_offset() as usize
}

/// Free bytes between the last record and the data; none where the records reach the data.
pub fn get_arena_free_space(core: &NodeCore, rec_size: usize) -> (r: usize)
    requires
        60 <= core@.buf.len(),
    ensures
        r as int == if tail(core@.buf) <= 60 + rec_size * core@.header.nentries {
            0
        } else {
            tail(core@.buf) - (60 + rec_size * core@.header.nentries)
        },
{
    let var_hdr = get_var_header(core);
    let n: u32 = core.header.nentries;
    proof {
        assert(0 <= rec_size * n <= 0xffff_ffff_ffff_ffff * 0xffff_ffff) by (nonlinear_arith)
            requires
                rec_size <= 0xffff_ffff_ffff_ffff,
                n <= 0xffff_ffff,
        ;
    }
    let records_end: u128 = 60 + rec_size as u128 * n as u128;
    let tail_offset: u128 = var_hdr.tail_arena_offset as u128;
    if tail_offset <= records_end {
        0
    } else {
        (tail_offset - records_end) as usize
    }
}

} // verus!
