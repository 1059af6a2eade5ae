use vstd::prelude::*;
use vstd::utf8::encode_utf8;
use crate::owner::Owner;

verus! {

/// A stored note. `display_id` is the per-owner, gap-free, 1-based sequence
/// number shown to the user; the globally unique internal key under which the
/// note is stored is not part of the record but is the key of the durable map.
pub struct Note {
    pub display_id: u64,
    pub title: String,
    pub content: String,
    pub owner: Owner,
}

/// The mathematical content of a note: what the contracts speak of.
pub struct NoteView {
    pub display_id: u64,
    pub title: Seq<char>,
    pub content: Seq<char>,
    pub owner: Seq<u8>,
}

impl View for Note {
    type V = NoteView;

    open spec fn view(&self) -> NoteView {
        NoteView {
            display_id: self.display_id,
            title: self.title@,
            content: self.content@,
            owner: self.owner@,
        }
    }
}

/// A serialized note record must not exceed this many bytes.
pub const MAX_NOTE_BYTES: usize = 2048;

impl NoteView {
    /// The number of bytes of the serialized record: an 8-byte display id,
    /// two 2-byte length fields, the owner bytes and the UTF-8 bytes of the
    /// title and the content.
    pub open spec fn encoded_len(self) -> int {
        12 + self.owner.len() as int + encode_utf8(self.title).len() as int + encode_utf8(
            self.content,
        ).len() as int
    }

    /// A note is storable when its serialized record fits the size bound.
    pub open spec fn fits(self) -> bool {
        self.encoded_len() <= MAX_NOTE_BYTES
    }
}

} // verus!
