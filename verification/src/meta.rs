use vstd::prelude::*;

use crate::error::Error;
use crate::pack::{spec_stride_bytes, stride_bytes};
use crate::text::{decimal, message_with_number};

verus! {

/// On-disk format version written into and accepted from `meta.json`.
pub const FORMAT_VERSION: u32 = 1;

/// Width of a row id in bytes.
pub const ID_WIDTH: usize = 16;

/// Bits stored per dimension.
pub const BITS: u8 = 1;

/// The published description of an index: its shape, size and generation.
#[derive(Debug, Clone)]
pub struct Meta {
    pub version: u32,
    pub dim: usize,
    pub bits: u8,
    pub count: usize,
    pub generation: u64,
    pub stride_bytes: usize,
    pub id_width: usize,
    pub embedder_id: String,
}

/// What a new index is configured with.
#[derive(Debug, Clone, Copy)]
pub struct IndexConfig {
    pub dim: usize,
}

/// A metadata record this format version can read: 1-bit rows, 16-byte ids,
/// and a row stride that matches the dimension.
pub open spec fn meta_supported(m: Meta) -> bool {
    &&& m.version == FORMAT_VERSION
    &&& m.bits == BITS
    &&& m.id_width == ID_WIDTH
    &&& m.stride_bytes == spec_stride_bytes(m.dim as nat)
}

impl Meta {
    /// The error `validate` reports: the first unsupported field, in the
    /// order version, bits, id width, stride.
    pub open spec fn validate_error(self, e: Error) -> bool {
        if self.version != FORMAT_VERSION {
            e matches Error::InvalidArgument(msg) && msg@ == "unsupported format version: "@
                + decimal(self.version as nat)
        } else if self.bits != BITS {
            e matches Error::InvalidArgument(msg) && msg@ == "unsupported bits: "@ + decimal(
                self.bits as nat,
            ) + " (only 1-bit indexes are supported)"@
        } else if self.id_width != ID_WIDTH {
            e matches Error::InvalidArgument(msg) && msg@ == "unsupported id width: "@ + decimal(
                self.id_width as nat,
            )
        } else {
            e matches Error::InvalidArgument(msg) && msg@ == "stride_bytes does not match dim"@
        }
    }

    /// Metadata of a fresh, empty index of dimension `dim`.
    pub fn new(dim: usize, embedder_id: &str) -> (m: Meta)
        ensures
            m.version == FORMAT_VERSION,
            m.dim == dim,
            m.bits == BITS,
            m.count == 0,
            m.generation == 0,
            m.stride_bytes == spec_stride_bytes(dim as nat),
            m.id_width == ID_WIDTH,
            m.embedder_id@ == embedder_id@,
    {
        Meta {
            version: FORMAT_VERSION,
            dim,
            bits: BITS,
            count: 0,
            generation: 0,
            stride_bytes: stride_bytes(dim),
            id_width: ID_WIDTH,
            embedder_id: <String as StringExecFns>::from_str(embedder_id),
        }
    }

    /// A field-for-field copy.
    pub fn duplicate(&self) -> (m: Meta)
        ensures
            m == *self,
    {
        Meta {
            version: self.version,
            dim: self.dim,
            bits: self.bits,
            count: self.count,
            generation: self.generation,
            stride_bytes: self.stride_bytes,
            id_width: self.id_width,
            embedder_id: self.embedder_id.clone(),
        }
    }

    /// Accepts exactly the records of this format version; the first field
    /// that does not fit names the error.
    pub fn validate(&self) -> (r: Result<(), Error>)
        ensures
            r is Ok <==> meta_supported(*self),
            r matches Err(e) ==> self.validate_error(e),
    {
        if self.version != FORMAT_VERSION {
            let msg = message_with_number("unsupported format version: ", self.version as u128, "");
            proof {
                reveal_strlit("");
            }
            return Err(Error::InvalidArgument(msg));
        }
        if self.bits != BITS {
            return Err(
                Error::InvalidArgument(
                    message_with_number(
                        "unsupported bits: ",
                        self.bits as u128,
                        " (only 1-bit indexes are supported)",
                    ),
                ),
            );
        }
        if self.id_width != ID_WIDTH {
            let msg = message_with_number("unsupported id width: ", self.id_width as u128, "");
            proof {
                reveal_strlit("");
            }
            return Err(Error::InvalidArgument(msg));
        }
        if self.stride_bytes != stride_bytes(self.dim) {
            return Err(
                Error::InvalidArgument(
                    <String as StringExecFns>::from_str("stride_bytes does not match dim"),
                ),
            );
        }
        Ok(())
    }
}

/// The metadata of a new index is always accepted when read back.
pub proof fn lemma_new_meta_supported(dim: usize, m: Meta)
    requires
        m.version == FORMAT_VERSION,
        m.dim == dim,
        m.bits == BITS,
        m.stride_bytes == spec_stride_bytes(dim as nat),
        m.id_width == ID_WIDTH,
    ensures
        meta_supported(m),
{
}

} // verus!
