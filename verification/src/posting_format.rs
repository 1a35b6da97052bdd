//! Tags of posting list formats.

use vstd::prelude::*;

use crate::postings::MAGIC;

verus! {

/// On-disk posting list format.
///
/// Stored as one byte: `0x00` for the block-packed default, `0x01` for Roaring. Any
/// other tag marks a segment that this version cannot read.
#[derive(Debug, Clone, Copy, PartialEq, Eq, Hash, Structural)]
pub enum PostingFormat {
    /// Block-wise bit packing; what untagged segments use.
    BitPacker4x,
    /// Roaring containers.
    Roaring,
}

impl PostingFormat {
    /// The tag of a format.
    pub open spec fn tag_of(self) -> u8 {
        match self {
            PostingFormat::BitPacker4x => 0x00,
            PostingFormat::Roaring => 0x01,
        }
    }

    /// Wire byte for this format.
    pub fn tag(self) -> (r: u8)
        ensures
            r == self.tag_of(),
    {
        match self {
            PostingFormat::BitPacker4x => 0x00,
            PostingFormat::Roaring => 0x01,
        }
    }

    /// Decode a wire byte. An unknown tag gives `None`, so that the caller decides
    /// whether the input is corrupt or from a later version.
    pub fn from_tag(byte: u8) -> (r: Option<Self>)
        ensures
            match r {
                Some(f) => f.tag_of() == byte,
                None => forall|f: PostingFormat| f.tag_of() != byte,
            },
    {
        match byte {
            0x00 => Some(PostingFormat::BitPacker4x),
            0x01 => Some(PostingFormat::Roaring),
            _ => None,
        }
    }

    /// Whether this is the format that untagged segments are read as.
    pub fn is_default(self) -> (r: bool)
        ensures
            r == (self is BitPacker4x),
    {
        match self {
            PostingFormat::BitPacker4x => true,
            PostingFormat::Roaring => false,
        }
    }
}

impl Default for PostingFormat {
    fn default() -> (r: Self)
        ensures
            r == PostingFormat::BitPacker4x,
    {
        PostingFormat::BitPacker4x
    }
}

/// Different formats have different tags, so a tag reads back as its format.
pub proof fn lemma_tag_round_trip(f: PostingFormat, g: PostingFormat)
    ensures
        f.tag_of() == g.tag_of() <==> f == g,
{
}

/// Handle that says which format a segment uses.
#[derive(Debug, Clone, Copy, PartialEq, Eq, Structural)]
pub struct PostingFormatDispatch {
    /// Format selected when the segment was written.
    pub format: PostingFormat,
}

/// A body starts with the Roaring magic.
pub open spec fn has_magic(body: Seq<u8>) -> bool {
    body.len() >= 4 && body.take(4) == MAGIC@
}

impl PostingFormatDispatch {
    /// Handle for the block-packed format.
    pub fn legacy() -> (r: Self)
        ensures
            r.format == PostingFormat::BitPacker4x,
    {
        PostingFormatDispatch { format: PostingFormat::BitPacker4x }
    }

    /// Handle for the Roaring format.
    pub fn roaring() -> (r: Self)
        ensures
            r.format == PostingFormat::Roaring,
    {
        PostingFormatDispatch { format: PostingFormat::Roaring }
    }

    /// Tell the format of a posting body from its first bytes. What does not start
    /// with the Roaring magic is block-packed.
    pub fn detect(body: &[u8]) -> (r: PostingFormat)
        ensures
            r == (if has_magic(body@) {
                PostingFormat::Roaring
            } else {
                PostingFormat::BitPacker4x
            }),
    {
        if body.len() >= 4 && body[0] == MAGIC[0] && body[1] == MAGIC[1] && body[2] == MAGIC[2]
            && body[3] == MAGIC[3] {
            assert(body@.take(4) =~= MAGIC@);
            PostingFormat::Roaring
        } else {
            proof {
                if has_magic(body@) {
                    assert(body@.take(4)[0] == MAGIC@[0]);
                    assert(body@.take(4)[1] == MAGIC@[1]);
                    assert(body@.take(4)[2] == MAGIC@[2]);
                    assert(body@.take(4)[3] == MAGIC@[3]);
                }
            }
            PostingFormat::BitPacker4x
        }
    }
}

} // verus!
