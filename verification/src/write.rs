//! Writing a save.

use crate::block::{push_all, write_block};
use crate::brick::{encode_records, Layout};
use crate::endian::{i32_to_le, u16_to_le};
use crate::file::{
    body_bytes, body_fault, fault, header0_bytes, header1_bytes, header1_fault, header2_bytes,
    header2_fault, lemma_magic, lemma_parse_save, parse_save, preview_bytes, preview_fault,
    save_bytes, MAGIC_BYTES, SAVE_VERSION,
};
use crate::header::{encode_catalog, encode_identity};
use crate::read::ReadError;
use crate::save::{Preview, SaveData, SaveDataView};
use crate::scalar::MAX_LEN;
use crate::section::encode_component_table;
use vstd::prelude::*;

verus! {

broadcast use vstd::array::group_array_axioms;

/// Why a save could not be written.
#[derive(Clone, Copy, Debug, PartialEq, Eq, Structural)]
pub enum WriteError {
    /// A text, a byte run, a table or a section is longer than a signed
    /// 32-bit length can say.
    TooLarge,
    /// The brick count of the first header is not the number of bricks.
    BrickCount,
    /// A preview is present under the tag that means "absent".
    PreviewTag,
    /// A brick points outside a lookup table, or its material intensity
    /// does not fit its field.
    OutOfRange,
    /// Bricks and components disagree: a brick names a component that the
    /// save does not declare, or its properties are not exactly those of the
    /// component's schema, or two components have one name.
    Component,
}

/// Every view of a save has ids of sixteen bytes and a time stamp of eight.
pub proof fn lemma_view_wf(data: &SaveData)
    ensures
        data@.wf(),
{
    let owners = data.header2.brick_owners@;
    assert forall|i: int| 0 <= i < data@.header2.brick_owners.len() implies (
    #[trigger] data@.header2.brick_owners[i]).id.len() == 16 by {
        assert(data@.header2.brick_owners[i] == owners[i]@);
    }
}

/// Appends the first part of a save: its start and the block of the first
/// header. Where that cannot be written, nothing is appended.
pub fn encode_header1(data: &SaveData, out: &mut Vec<u8>) -> (r: Result<(), WriteError>)
    ensures
        match r {
            Ok(()) => header1_fault(data@) is None && final(out)@ == old(out)@ + header1_bytes(
                data@,
            ),
            Err(e) => header1_fault(data@) == Some(e) && final(out)@ == old(out)@,
        },
{
    proof {
        reveal(header1_fault);
    }
    if data.header1.brick_count as usize != data.bricks.len() {
        return Err(WriteError::BrickCount);
    }
    let payload = match encode_identity(&data.header1) {
        Ok(v) => v,
        Err(e) => {
            return Err(e);
        },
    };
    let mut staged: Vec<u8> = Vec::new();
    let version = u16_to_le(SAVE_VERSION);
    let game_version = i32_to_le(data.game_version);
    push_all(&mut staged, MAGIC_BYTES.as_slice());
    push_all(&mut staged, version.as_slice());
    push_all(&mut staged, game_version.as_slice());
    proof {
        lemma_magic();
        assert(staged@ =~= header0_bytes(data@.game_version));
    }
    match write_block(&mut staged, &payload) {
        Ok(()) => {},
        Err(e) => {
            return Err(e);
        },
    }
    push_all(out, staged.as_slice());
    Ok(())
}

/// Appends the second part of a save: the block of the second header.
/// Where that cannot be written, nothing is appended.
pub fn encode_header2(data: &SaveData, out: &mut Vec<u8>) -> (r: Result<(), WriteError>)
    ensures
        match r {
            Ok(()) => header2_fault(data@) is None && final(out)@ == old(out)@ + header2_bytes(
                data@,
            ),
            Err(e) => header2_fault(data@) == Some(e) && final(out)@ == old(out)@,
        },
{
    proof {
        reveal(header2_fault);
    }
    let payload = match encode_catalog(&data.header2) {
        Ok(v) => v,
        Err(e) => {
            return Err(e);
        },
    };
    write_block(out, &payload)
}

/// Appends the preview. Where it cannot be written, nothing is appended.
pub fn encode_preview(data: &SaveData, out: &mut Vec<u8>) -> (r: Result<(), WriteError>)
    ensures
        match r {
            Ok(()) => preview_fault(data@.preview) is None && final(out)@ == old(out)@
                + preview_bytes(data@.preview),
            Err(e) => preview_fault(data@.preview) == Some(e) && final(out)@ == old(out)@,
        },
{
    proof {
        reveal(preview_fault);
    }
    let ghost start = out@;
    match &data.preview {
        Preview::Absent => {
            out.push(0);
            proof {
                assert(out@ =~= start + preview_bytes(data@.preview));
            }
            Ok(())
        },
        Preview::Image { tag, bytes } => {
            if *tag == 0 {
                return Err(WriteError::PreviewTag);
            }
            if bytes.len() > MAX_LEN {
                return Err(WriteError::TooLarge);
            }
            let size = i32_to_le(bytes.len() as i32);
            out.push(*tag);
            push_all(out, size.as_slice());
            push_all(out, bytes.as_slice());
            proof {
                assert(out@ =~= start + preview_bytes(data@.preview));
            }
            Ok(())
        },
    }
}

/// Appends the last part of a save: the blocks of the brick table and of
/// the component table. Where they cannot be written, nothing is appended.
pub fn encode_bricks(data: &SaveData, out: &mut Vec<u8>) -> (r: Result<(), WriteError>)
    ensures
        match r {
            Ok(()) => body_fault(data@) is None && final(out)@ == old(out)@ + body_bytes(data@),
            Err(e) => body_fault(data@) == Some(e) && final(out)@ == old(out)@,
        },
{
    proof {
        reveal(body_fault);
    }
    let layout = Layout::of(&data.header2);
    let first = match encode_records(&data.bricks, &layout) {
        Ok(v) => v,
        Err(e) => {
            return Err(e);
        },
    };
    let second = match encode_component_table(&data.components, &data.bricks) {
        Ok(v) => v,
        Err(e) => {
            return Err(e);
        },
    };
    if first.len() > MAX_LEN || second.len() > MAX_LEN {
        return Err(WriteError::TooLarge);
    }
    let mut staged: Vec<u8> = Vec::new();
    match write_block(&mut staged, &first) {
        Ok(()) => {},
        Err(e) => {
            return Err(e);
        },
    }
    match write_block(&mut staged, &second) {
        Ok(()) => {},
        Err(e) => {
            return Err(e);
        },
    }
    proof {
        assert(staged@ =~= body_bytes(data@));
    }
    push_all(out, staged.as_slice());
    Ok(())
}

/// Appends a whole save. Where the save cannot be written, nothing is
/// appended and the fault of its first faulty part is returned. What is
/// appended is read back as the save, with the host of its first header
/// named.
pub fn encode_save(data: &SaveData, out: &mut Vec<u8>) -> (r: Result<(), WriteError>)
    ensures
        match r {
            Ok(()) => data@.valid() && final(out)@ == old(out)@ + save_bytes(data@)
                && parse_save(save_bytes(data@)) == Ok::<_, ReadError>(
                (data@.resolved(), Seq::<u8>::empty()),
            ),
            Err(e) => fault(data@) == Some(e) && final(out)@ == old(out)@,
        },
{
    let mut staged: Vec<u8> = Vec::new();
    match encode_header1(data, &mut staged) {
        Ok(()) => {},
        Err(e) => {
            return Err(e);
        },
    }
    match encode_header2(data, &mut staged) {
        Ok(()) => {},
        Err(e) => {
            return Err(e);
        },
    }
    match encode_preview(data, &mut staged) {
        Ok(()) => {},
        Err(e) => {
            return Err(e);
        },
    }
    match encode_bricks(data, &mut staged) {
        Ok(()) => {},
        Err(e) => {
            return Err(e);
        },
    }
    proof {
        assert(staged@ =~= save_bytes(data@));
        lemma_view_wf(data);
        lemma_parse_save(data@, Seq::<u8>::empty());
        assert(save_bytes(data@) + Seq::<u8>::empty() =~= save_bytes(data@));
    }
    push_all(out, staged.as_slice());
    Ok(())
}

/// The bytes of a save, or why it cannot be written.
pub fn encode(data: &SaveData) -> (r: Result<Vec<u8>, WriteError>)
    ensures
        match r {
            Ok(bytes) => data@.valid() && bytes@ == save_bytes(data@) && parse_save(bytes@)
                == Ok::<_, ReadError>((data@.resolved(), Seq::<u8>::empty())),
            Err(e) => fault(data@) == Some(e),
        },
{
    let mut out: Vec<u8> = Vec::new();
    match encode_save(data, &mut out) {
        Ok(()) => {
            proof {
                assert(out@ =~= save_bytes(data@));
            }
            Ok(out)
        },
        Err(e) => Err(e),
    }
}

/// A save writer, which appends the parts of its save to the bytes that it
/// was made with.
pub struct SaveWriter {
    writer: Vec<u8>,
    data: SaveData,
}

impl SaveWriter {
    /// The bytes written so far, behind those that the writer was made
    /// with.
    pub closed spec fn written(&self) -> Seq<u8> {
        self.writer@
    }

    /// The save that is written.
    pub closed spec fn save(&self) -> SaveDataView {
        self.data@
    }

    /// A writer of `data` behind the bytes of `writer`.
    pub fn new(writer: Vec<u8>, data: SaveData) -> (w: SaveWriter)
        ensures
            w.written() == writer@,
            w.save() == data@,
    {
        SaveWriter { writer, data }
    }

    /// Writes the start of the save and its first header.
    pub fn write_header1(&mut self) -> (r: Result<(), WriteError>)
        ensures
            final(self).save() == old(self).save(),
            match r {
                Ok(()) => header1_fault(old(self).save()) is None && final(self).written() == old(self).written() + header1_bytes(old(self).save()),
                Err(e) => header1_fault(old(self).save()) == Some(e) && final(self).written()
                    == old(self).written(),
            },
    {
        encode_header1(&self.data, &mut self.writer)
    }

    /// Writes the second header.
    pub fn write_header2(&mut self) -> (r: Result<(), WriteError>)
        ensures
            final(self).save() == old(self).save(),
            match r {
                Ok(()) => header2_fault(old(self).save()) is None && final(self).written() == old(self).written() + header2_bytes(old(self).save()),
                Err(e) => header2_fault(old(self).save()) == Some(e) && final(self).written()
                    == old(self).written(),
            },
    {
        encode_header2(&self.data, &mut self.writer)
    }

    /// Writes the preview.
    pub fn write_preview(&mut self) -> (r: Result<(), WriteError>)
        ensures
            final(self).save() == old(self).save(),
            match r {
                Ok(()) => preview_fault(old(self).save().preview) is None && final(self).written() == old(self).written() + preview_bytes(old(self).save().preview),
                Err(e) => preview_fault(old(self).save().preview) == Some(e) && final(self).written() == old(self).written(),
            },
    {
        encode_preview(&self.data, &mut self.writer)
    }

    /// Writes the bricks and components.
    pub fn write_bricks(&mut self) -> (r: Result<(), WriteError>)
        ensures
            final(self).save() == old(self).save(),
            match r {
                Ok(()) => body_fault(old(self).save()) is None && final(self).written() == old(self).written() + body_bytes(old(self).save()),
                Err(e) => body_fault(old(self).save()) == Some(e) && final(self).written() == old(self).written(),
            },
    {
        encode_bricks(&self.data, &mut self.writer)
    }

    /// Writes the full save. Where it cannot be written, nothing is
    /// written.
    pub fn write(&mut self) -> (r: Result<(), WriteError>)
        ensures
            final(self).save() == old(self).save(),
            match r {
                Ok(()) => old(self).save().valid() && final(self).written() == old(self).written() + save_bytes(old(self).save()) && parse_save(
                    save_bytes(old(self).save()),
                ) == Ok::<_, ReadError>((old(self).save().resolved(), Seq::<u8>::empty())),
                Err(e) => fault(old(self).save()) == Some(e) && final(self).written() == old(self).written(),
            },
    {
        encode_save(&self.data, &mut self.writer)
    }

    /// The bytes that the writer holds.
    pub fn into_inner(self) -> (out: Vec<u8>)
        ensures
            out@ == self.written(),
    {
        self.writer
    }
}

} // verus!
