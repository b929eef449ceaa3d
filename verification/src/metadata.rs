//! Index metadata.
//!
//! A small fixed-layout record: one version byte followed by the document
//! count as a little-endian `u64`.

use vstd::prelude::*;

use crate::error::Error;
use crate::traits::{push_u64_le, read_u64_le, spec_u64_from_le_bytes, spec_u64_to_le_bytes};

verus! {

/// Version of the index artifact. The only current version is `V1`,
/// encoded as the byte `0`.
#[derive(Debug, Clone, Copy, PartialEq, Eq, Structural)]
pub enum IndexVersion {
    V1,
}

/// The byte that encodes a version.
pub open spec fn version_byte(v: IndexVersion) -> u8 {
    match v {
        IndexVersion::V1 => 0,
    }
}

impl IndexVersion {
    /// Decodes a version byte; an unknown value is a decode error.
    pub fn try_from(value: u8) -> (r: Result<IndexVersion, Error>)
        ensures
            value == 0 ==> r == Ok::<IndexVersion, Error>(IndexVersion::V1),
            value != 0 ==> r == Err::<IndexVersion, Error>(Error::Decode),
    {
        match value {
            0 => Ok(IndexVersion::V1),
            _ => Err(Error::Decode),
        }
    }

    /// The byte this version is encoded as.
    pub fn as_byte(&self) -> (r: u8)
        ensures
            r == version_byte(*self),
    {
        match self {
            IndexVersion::V1 => 0,
        }
    }
}

/// Various metadata for the given index: the artifact version and the
/// number of documents it holds.
#[derive(Debug, Clone, Copy)]
pub struct DefaultMetadata {
    pub version: IndexVersion,
    pub document_count: usize,
}

impl DefaultMetadata {
    /// Creates a new metadata record with the given version and no
    /// documents.
    pub fn new(version: IndexVersion) -> (r: DefaultMetadata)
        ensures
            r.version == version,
            r.document_count == 0,
    {
        DefaultMetadata { version, document_count: 0 }
    }

    pub fn get_version(&self) -> (r: IndexVersion)
        ensures
            r == self.version,
    {
        self.version
    }

    pub fn get_document_count(&self) -> (r: usize)
        ensures
            r == self.document_count,
    {
        self.document_count
    }

    pub fn set_document_count(&mut self, count: usize)
        ensures
            final(self).document_count == count,
            final(self).version == old(self).version,
    {
        self.document_count = count;
    }

    /// The exact serialized form: version byte, then the document count.
    pub open spec fn spec_encoding(&self) -> Seq<u8> {
        seq![version_byte(self.version)] + spec_u64_to_le_bytes(self.document_count as u64)
    }

    /// Serializes the metadata record.
    pub fn encode(&self) -> (r: Vec<u8>)
        ensures
            r@ == self.spec_encoding(),
    {
        let mut out: Vec<u8> = Vec::new();
        out.push(self.version.as_byte());
        push_u64_le(&mut out, self.document_count as u64);
        proof {
            assert(out@ =~= self.spec_encoding());
        }
        out
    }

    /// A metadata record parses at `pos` when the version byte is known and
    /// the document count fits the machine.
    pub open spec fn parse_ok(data: Seq<u8>, pos: int) -> bool {
        &&& 0 <= pos
        &&& pos + 9 <= data.len()
        &&& data[pos] == 0
        &&& spec_u64_from_le_bytes(data.subrange(pos + 1, pos + 9)) <= usize::MAX
    }

    /// Deserializes a metadata record.
    pub fn decode(data: &[u8], pos: usize) -> (r: Result<(DefaultMetadata, usize), Error>)
        ensures
            r matches Ok(p) ==> Self::parse_ok(data@, pos as int) && p.1 == pos + 9
                && p.0.version == IndexVersion::V1 && p.0.document_count
                == spec_u64_from_le_bytes(data@.subrange(pos as int + 1, pos as int + 9))
                && p.0.spec_encoding() == data@.subrange(pos as int, pos as int + 9),
            r is Err ==> !Self::parse_ok(data@, pos as int),
    {
        let len = data.len();
        if !(len >= 9 && pos <= len - 9) {
            return Err(Error::Decode);
        }
        let version = match IndexVersion::try_from(data[pos]) {
            Ok(v) => v,
            Err(e) => {
                return Err(e);
            },
        };
        let count64 = read_u64_le(data, pos + 1);
        if count64 > usize::MAX as u64 {
            return Err(Error::Decode);
        }
        let m = DefaultMetadata { version, document_count: count64 as usize };
        proof {
            vstd::bytes::lemma_auto_spec_u64_to_from_le_bytes();
            assert(spec_u64_to_le_bytes(count64) == data@.subrange(pos as int + 1, pos as int + 9))
                by {
                assert(count64 == spec_u64_from_le_bytes(
                    data@.subrange(pos as int + 1, pos as int + 9),
                ));
                assert(data@.subrange(pos as int + 1, pos as int + 9).len() == 8);
            }
            assert(m.spec_encoding() =~= data@.subrange(pos as int, pos as int + 9));
        }
        Ok((m, pos + 9))
    }
}

impl Default for DefaultMetadata {
    /// The default metadata: current version, no documents.
    fn default() -> (r: DefaultMetadata)
        ensures
            r.version == IndexVersion::V1,
            r.document_count == 0,
    {
        DefaultMetadata { version: IndexVersion::V1, document_count: 0 }
    }
}

} // verus!
