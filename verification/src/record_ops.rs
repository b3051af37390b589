//! The record policies of the node variants.

use vstd::prelude::*;
use crate::btree_node::NodeCore;
use crate::bytes::write_u16;
use crate::node_layout::Layout;
use crate::varlen_node_common::{VarKeyRecord, VarObjRecord, VarRecordOps, VarValueRecord};

verus! {

/// Number of the variant with variable-length keys and fixed-size values.
pub const VAR_KEY_NODE: u8 = 1;

/// Number of the variant with fixed-size keys and variable-length values.
pub const VAR_VALUE_NODE: u8 = 2;

/// Number of the variant with variable-length keys and values.
pub const VAR_OBJECT_NODE: u8 = 3;

/// Number of the variant for keys with common prefixes.
pub const PREFIX_NODE: u8 = 4;

/// How the entries of a node keep their lengths.
#[derive(Debug, Clone, Copy)]
pub enum RecordPolicy {
    /// Records keep the key length; all values have `value_size` bytes.
    VarKey { value_size: u32 },
    /// Records keep the value length; all keys have `key_size` bytes.
    VarValue { key_size: u32 },
    /// Records keep both lengths. Entries with common key prefixes are kept this way too, each
    /// with its whole key; `variant` tells the two apart.
    VarObject { variant: u8 },
}

impl RecordPolicy {
    /// The length of all keys, where records do not keep it.
    pub fn key_size(&self) -> (r: Option<u32>)
        ensures
            self.layout().key_fixed == match r {
                Some(n) => Some(n as int),
                None => None,
            },
    {
        match self {
            RecordPolicy::VarValue { key_size } => Some(*key_size),
            _ => None,
        }
    }

    /// The length of all values, where records do not keep it.
    pub fn value_size(&self) -> (r: Option<u32>)
        ensures
            self.layout().val_fixed == match r {
                Some(n) => Some(n as int),
                None => None,
            },
    {
        match self {
            RecordPolicy::VarKey { value_size } => Some(*value_size),
            _ => None,
        }
    }

    /// Whether records can mark a value as an overflow reference.
    pub fn marks_overflow(&self) -> (r: bool)
        ensures
            r == (self.layout().val_field is Some),
    {
        match self {
            RecordPolicy::VarKey { .. } => false,
            _ => true,
        }
    }
}

impl VarRecordOps for RecordPolicy {
    open spec fn layout(&self) -> Layout {
        match self {
            RecordPolicy::VarKey { value_size } => Layout {
                rec: 4,
                key_field: Some(2),
                key_fixed: None,
                val_field: None,
                val_fixed: Some(*value_size as int),
            },
            RecordPolicy::VarValue { key_size } => Layout {
                rec: 4,
                key_field: None,
                key_fixed: Some(*key_size as int),
                val_field: Some(2),
                val_fixed: None,
            },
            RecordPolicy::VarObject { variant } => Layout {
                rec: 6,
                key_field: Some(2),
                key_fixed: None,
                val_field: Some(4),
                val_fixed: None,
            },
        }
    }

    open spec fn spec_node_variant_type(&self) -> u8 {
        match self {
            RecordPolicy::VarKey { value_size } => VAR_KEY_NODE,
            RecordPolicy::VarValue { key_size } => VAR_VALUE_NODE,
            RecordPolicy::VarObject { variant } => *variant,
        }
    }

    proof fn lemma_layout(&self) {
    }

    fn record_size(&self) -> (r: usize) {
        match self {
            RecordPolicy::VarKey { .. } => VarKeyRecord::size(),
            RecordPolicy::VarValue { .. } => VarValueRecord::size(),
            RecordPolicy::VarObject { .. } => VarObjRecord::size(),
        }
    }

    fn get_key_size(&self, core: &NodeCore, idx: u32) -> (r: usize) {
        let len: usize = core.phys_buf.len();
        match self {
            RecordPolicy::VarKey { .. } => {
                let rec = VarKeyRecord::from_bytes(&core.phys_buf, 60 + 4 * (idx as usize));
                rec.key_len() as usize
            },
            RecordPolicy::VarValue { key_size } => *key_size as usize,
            RecordPolicy::VarObject { .. } => {
                let rec = VarObjRecord::from_bytes(&core.phys_buf, 60 + 6 * (idx as usize));
                rec.key_len() as usize
            },
        }
    }

    fn get_value_size(&self, core: &NodeCore, idx: u32) -> (r: usize) {
        let len: usize = core.phys_buf.len();
        match self {
            RecordPolicy::VarKey { value_size } => *value_size as usize,
            RecordPolicy::VarValue { .. } => {
                let rec = VarValueRecord::from_bytes(&core.phys_buf, 60 + 4 * (idx as usize));
                rec.get_value_len_tuple().0
            },
            RecordPolicy::VarObject { .. } => {
                let rec = VarObjRecord::from_bytes(&core.phys_buf, 60 + 6 * (idx as usize));
                rec.get_value_len_tuple().0
            },
        }
    }

    fn is_value_overflow(&self, core: &NodeCore, idx: u32) -> (r: bool) {
        let len: usize = core.phys_buf.len();
        match self {
            RecordPolicy::VarKey { .. } => false,
            RecordPolicy::VarValue { .. } => {
                let rec = VarValueRecord::from_bytes(&core.phys_buf, 60 + 4 * (idx as usize));
                rec.get_value_len_tuple().1
            },
            RecordPolicy::VarObject { .. } => {
                let rec = VarObjRecord::from_bytes(&core.phys_buf, 60 + 6 * (idx as usize));
                rec.get_value_len_tuple().1
            },
        }
    }

    fn set_key_len(&self, core: &mut NodeCore, idx: u32, len: usize) {
        let buf_len: usize = core.phys_buf.len();
        match self {
            RecordPolicy::VarKey { .. } => {
                let pos: usize = 60 + 4 * (idx as usize);
                let mut rec = VarKeyRecord::from_bytes(&core.phys_buf, pos);
                rec.set_key_len(len as u16);
                write_u16(&mut core.phys_buf, pos + 2, rec.key_len());
            },
            RecordPolicy::VarValue { .. } => {},
            RecordPolicy::VarObject { .. } => {
                let pos: usize = 60 + 6 * (idx as usize);
                let mut rec = VarObjRecord::from_bytes(&core.phys_buf, pos);
                rec.set_key_len(len as u16);
                write_u16(&mut core.phys_buf, pos + 2, rec.key_len());
            },
        }
    }

    fn set_value_len(&self, core: &mut NodeCore, idx: u32, len: usize, is_overflow: bool) {
        let buf_len: usize = core.phys_buf.len();
        match self {
            RecordPolicy::VarKey { .. } => {},
            RecordPolicy::VarValue { .. } => {
                let pos: usize = 60 + 4 * (idx as usize);
                let mut rec = VarValueRecord::from_bytes(&core.phys_buf, pos);
                rec.set_value_len_tuple(len as u16, is_overflow);
                write_u16(&mut core.phys_buf, pos + 2, rec.value_len_packed);
            },
            RecordPolicy::VarObject { .. } => {
                let pos: usize = 60 + 6 * (idx as usize);
                let mut rec = VarObjRecord::from_bytes(&core.phys_buf, pos);
                rec.set_value_len_tuple(len as u16, is_overflow);
                write_u16(&mut core.phys_buf, pos + 4, rec.value_len_packed);
            },
        }
    }

    fn node_variant_type(&self) -> (r: u8) {
        match self {
            RecordPolicy::VarKey { .. } => VAR_KEY_NODE,
            RecordPolicy::VarValue { .. } => VAR_VALUE_NODE,
            RecordPolicy::VarObject { variant } => *variant,
        }
    }
}

} // verus!
