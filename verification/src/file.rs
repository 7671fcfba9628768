//! The save as bytes: a short header, the first header in a block, the
//! second header in a block, the preview, the brick table in a block and
//! the component table in a block.

use crate::bits::{
    bytes_bits, lemma_bytes_bits_of_bits, lemma_padded_aligned, pad_len, padded, payload_of,
    zeros,
};
use crate::block::{block_bytes, lemma_block_frames, lemma_parse_block, parse_block};
use crate::brick::{
    bricks_bits, bricks_in_range, lemma_parse_bricks, parse_bricks, tables_of, Tables,
};
use crate::component::{
    components_agree, components_bits, declarations, lemma_parse_components, lemma_sections_wf,
    lemma_with_sections, parse_components, sections_of, with_sections,
};
use crate::endian::{
    i32_unwire, i32_wire, le_bytes, le_value, lemma_i32_wire, lemma_le_bytes_len,
    lemma_le_limits, lemma_le_value_bytes,
};
use crate::header::{
    catalog_bits, identity_bits, lemma_parse_catalog, lemma_parse_identity, parse_catalog,
    parse_identity,
};
use crate::read::ReadError;
use crate::save::{
    BrickView, ComponentView, Header1View, Header2View, PreviewView, SaveDataView,
};
use crate::scalar::MAX_LEN;
use crate::section::sections_fit;
use crate::write::WriteError;
use vstd::prelude::*;

verus! {

/// The version of the format that is written and read.
pub const SAVE_VERSION: u16 = 10;

/// The bytes that every save begins with.
pub const MAGIC_BYTES: [u8; 4] = [0x42, 0x52, 0x53, 0x00];

/// The bytes that every save begins with.
pub open spec fn magic() -> Seq<u8> {
    seq![0x42u8, 0x52u8, 0x53u8, 0x00u8]
}

/// The magic bytes are what the constant holds.
pub proof fn lemma_magic()
    ensures
        MAGIC_BYTES@ == magic(),
{
    assert(MAGIC_BYTES@ =~= magic());
}

// ---------------------------------------------------------------------------
// What is written
// ---------------------------------------------------------------------------

/// The start of a save: the magic bytes, the format version, the game
/// version. It is never compressed.
pub open spec fn header0_bytes(game_version: i32) -> Seq<u8> {
    magic() + le_bytes(SAVE_VERSION as nat, 2) + le_bytes(i32_wire(game_version), 4)
}

/// The content of the block of the first header.
pub open spec fn identity_payload(d: SaveDataView) -> Seq<u8> {
    payload_of(identity_bits(d.header1))
}

/// The content of the block of the second header.
pub open spec fn catalog_payload(d: SaveDataView) -> Seq<u8> {
    payload_of(catalog_bits(d.header2))
}

/// The content of the block of the brick table.
pub open spec fn bricks_payload(d: SaveDataView) -> Seq<u8> {
    payload_of(bricks_bits(d.bricks, tables_of(d.header2)))
}

/// The content of the block of the component table.
pub open spec fn components_payload(d: SaveDataView) -> Seq<u8> {
    payload_of(components_bits(sections_of(d.components, d.bricks), d.bricks.len()))
}

/// The preview: a zero where there is none, else its tag, the count of its
/// bytes and the bytes.
pub open spec fn preview_bytes(p: PreviewView) -> Seq<u8> {
    match p {
        PreviewView::Absent => seq![0u8],
        PreviewView::Image { tag, bytes } => seq![tag] + le_bytes(bytes.len(), 4) + bytes,
    }
}

/// The first part of a save: its start and the block of the first header.
pub open spec fn header1_bytes(d: SaveDataView) -> Seq<u8> {
    header0_bytes(d.game_version) + block_bytes(identity_payload(d))
}

/// The second part of a save: the block of the second header.
pub open spec fn header2_bytes(d: SaveDataView) -> Seq<u8> {
    block_bytes(catalog_payload(d))
}

/// The last part of a save: the blocks of the brick table and of the
/// component table.
pub open spec fn body_bytes(d: SaveDataView) -> Seq<u8> {
    block_bytes(bricks_payload(d)) + block_bytes(components_payload(d))
}

/// A whole save.
pub open spec fn save_bytes(d: SaveDataView) -> Seq<u8> {
    header1_bytes(d) + header2_bytes(d) + preview_bytes(d.preview) + body_bytes(d)
}

// ---------------------------------------------------------------------------
// What cannot be written
// ---------------------------------------------------------------------------

/// Why the first part cannot be written, if it cannot.
#[verifier::opaque]
pub open spec fn header1_fault(d: SaveDataView) -> Option<WriteError> {
    if d.header1.brick_count != d.bricks.len() {
        Some(WriteError::BrickCount)
    } else if !d.header1.fits() || identity_payload(d).len() > MAX_LEN {
        Some(WriteError::TooLarge)
    } else {
        None
    }
}

/// Why the second part cannot be written, if it cannot.
#[verifier::opaque]
pub open spec fn header2_fault(d: SaveDataView) -> Option<WriteError> {
    if !d.header2.fits() || catalog_payload(d).len() > MAX_LEN {
        Some(WriteError::TooLarge)
    } else {
        None
    }
}

/// Why the preview cannot be written, if it cannot.
#[verifier::opaque]
pub open spec fn preview_fault(p: PreviewView) -> Option<WriteError> {
    match p {
        PreviewView::Absent => None,
        PreviewView::Image { tag, bytes } => if tag == 0 {
            Some(WriteError::PreviewTag)
        } else if bytes.len() > MAX_LEN {
            Some(WriteError::TooLarge)
        } else {
            None
        },
    }
}

/// Why the last part cannot be written, if it cannot: first a brick out of
/// range, then bricks and components that disagree, then a length or count
/// that cannot be said.
#[verifier::opaque]
pub open spec fn body_fault(d: SaveDataView) -> Option<WriteError> {
    if !bricks_in_range(d.bricks, tables_of(d.header2)) {
        Some(WriteError::OutOfRange)
    } else if !components_agree(d.components, d.bricks) {
        Some(WriteError::Component)
    } else if bricks_payload(d).len() > MAX_LEN || !sections_fit(
        sections_of(d.components, d.bricks),
    ) || components_payload(d).len() > MAX_LEN {
        Some(WriteError::TooLarge)
    } else {
        None
    }
}

/// Why a save cannot be written, if it cannot: the fault of the first of
/// its parts that has one.
pub open spec fn fault(d: SaveDataView) -> Option<WriteError> {
    if header1_fault(d) is Some {
        header1_fault(d)
    } else if header2_fault(d) is Some {
        header2_fault(d)
    } else if preview_fault(d.preview) is Some {
        preview_fault(d.preview)
    } else {
        body_fault(d)
    }
}

impl SaveDataView {
    /// Ids are sixteen bytes and the time stamp eight, as in every view of
    /// a save.
    pub open spec fn wf(self) -> bool {
        self.header1.wf() && self.header2.wf()
    }

    /// Whether the save can be written.
    pub open spec fn valid(self) -> bool {
        fault(self) is None
    }
}

// ---------------------------------------------------------------------------
// What is read
// ---------------------------------------------------------------------------

/// The start of a save, as it is read: the game version and the bytes
/// behind it.
pub open spec fn parse_header0(s: Seq<u8>) -> Result<(i32, Seq<u8>), ReadError> {
    if s.len() < 4 {
        Err(ReadError::Truncated)
    } else if s.take(4) != magic() {
        Err(ReadError::BadMagic)
    } else if s.len() < 6 {
        Err(ReadError::Truncated)
    } else if le_value(s.subrange(4, 6)) != SAVE_VERSION {
        Err(ReadError::UnsupportedVersion)
    } else if s.len() < 10 {
        Err(ReadError::Truncated)
    } else {
        Ok((i32_unwire(le_value(s.subrange(6, 10))), s.skip(10)))
    }
}

/// The first part of a save, as it is read. Bytes of the block behind the
/// header are passed over.
#[verifier::opaque]
pub open spec fn parse_header1(s: Seq<u8>) -> Result<((i32, Header1View), Seq<u8>), ReadError> {
    match parse_header0(s) {
        Err(e) => Err(e),
        Ok((game_version, r)) => match parse_block(r) {
            Err(e) => Err(e),
            Ok((payload, r2)) => match parse_identity(bytes_bits(payload)) {
                None => Err(ReadError::Header1),
                Some((h, _)) => Ok(((game_version, h), r2)),
            },
        },
    }
}

/// The second part of a save, as it is read. Bytes of the block behind the
/// header are passed over.
#[verifier::opaque]
pub open spec fn parse_header2(s: Seq<u8>) -> Result<(Header2View, Seq<u8>), ReadError> {
    match parse_block(s) {
        Err(e) => Err(e),
        Ok((payload, r)) => match parse_catalog(bytes_bits(payload)) {
            None => Err(ReadError::Header2),
            Some((h, _)) => Ok((h, r)),
        },
    }
}

/// The preview, as it is read.
#[verifier::opaque]
pub open spec fn parse_preview(s: Seq<u8>) -> Result<(PreviewView, Seq<u8>), ReadError> {
    if s.len() < 1 {
        Err(ReadError::Truncated)
    } else if s[0] == 0 {
        Ok((PreviewView::Absent, s.skip(1)))
    } else if s.len() < 5 {
        Err(ReadError::Truncated)
    } else {
        let n = le_value(s.subrange(1, 5));
        if n > MAX_LEN {
            Err(ReadError::BadLength)
        } else if s.len() < 5 + n {
            Err(ReadError::Truncated)
        } else {
            Ok((PreviewView::Image { tag: s[0], bytes: s.subrange(5, 5 + n as int) }, s.skip(5 + n as int)))
        }
    }
}

/// The last part of a save of `n` bricks, as it is read: the bricks with
/// their components, and the components.
#[verifier::opaque]
pub open spec fn parse_body(s: Seq<u8>, n: nat, t: Tables) -> Result<
    ((Seq<BrickView>, Seq<ComponentView>), Seq<u8>),
    ReadError,
> {
    match parse_block(s) {
        Err(e) => Err(e),
        Ok((first, r)) => match parse_bricks(bytes_bits(first), n, t) {
            None => Err(ReadError::Bricks),
            Some(bare) => match parse_block(r) {
                Err(e) => Err(e),
                Ok((second, r2)) => match parse_components(bytes_bits(second), n) {
                    None => Err(ReadError::Components),
                    Some(sections) => Ok(
                        ((with_sections(bare, sections), declarations(sections)), r2),
                    ),
                },
            },
        },
    }
}

/// A whole save, as it is read, and the bytes behind it.
pub open spec fn parse_save(s: Seq<u8>) -> Result<(SaveDataView, Seq<u8>), ReadError> {
    match parse_header1(s) {
        Err(e) => Err(e),
        Ok(((game_version, header1), r1)) => match parse_header2(r1) {
            Err(e) => Err(e),
            Ok((header2, r2)) => match parse_preview(r2) {
                Err(e) => Err(e),
                Ok((preview, r3)) => match parse_body(
                    r3,
                    header1.brick_count as nat,
                    tables_of(header2),
                ) {
                    Err(e) => Err(e),
                    Ok(((bricks, components), r4)) => Ok(
                        (
                            SaveDataView {
                                game_version,
                                header1,
                                header2,
                                preview,
                                bricks,
                                components,
                            },
                            r4,
                        ),
                    ),
                },
            },
        },
    }
}

// ---------------------------------------------------------------------------
// Reading undoes writing
// ---------------------------------------------------------------------------

/// The bits of a payload are the padded bits that it was made of.
pub proof fn lemma_payload_bits(bits: Seq<bool>)
    ensures
        bytes_bits(payload_of(bits)) == bits + zeros(pad_len(bits.len())),
        bits.len() % 8 == 0 ==> bytes_bits(payload_of(bits)) == bits,
{
    lemma_padded_aligned(bits);
    lemma_bytes_bits_of_bits(padded(bits));
}

/// What was written for the start of a save is read back, whatever follows it.
pub proof fn lemma_parse_header0(game_version: i32, rest: Seq<u8>)
    ensures
        parse_header0(header0_bytes(game_version) + rest) == Ok::<_, ReadError>(
            (game_version, rest),
        ),
{
    let s = header0_bytes(game_version) + rest;
    lemma_le_limits();
    lemma_le_bytes_len(SAVE_VERSION as nat, 2);
    lemma_le_bytes_len(i32_wire(game_version), 4);
    lemma_le_value_bytes(SAVE_VERSION as nat, 2);
    lemma_i32_wire(game_version);
    lemma_le_value_bytes(i32_wire(game_version), 4);
    assert(s.take(4) =~= magic());
    assert(s.subrange(4, 6) =~= le_bytes(SAVE_VERSION as nat, 2));
    assert(s.subrange(6, 10) =~= le_bytes(i32_wire(game_version), 4));
    assert(s.skip(10) =~= rest);
}

/// What was written for the first part of a save is read back, whatever follows it.
pub proof fn lemma_parse_header1(d: SaveDataView, rest: Seq<u8>)
    requires
        d.header1.wf(),
        d.header1.fits(),
        identity_payload(d).len() <= MAX_LEN,
    ensures
        parse_header1(header1_bytes(d) + rest) == Ok::<_, ReadError>(
            ((d.game_version, d.header1.resolved()), rest),
        ),
{
    reveal(parse_header1);
    lemma_block_frames(identity_payload(d));
    let block = block_bytes(identity_payload(d));
    assert(header1_bytes(d) + rest =~= header0_bytes(d.game_version) + (block + rest));
    lemma_parse_header0(d.game_version, block + rest);
    lemma_parse_block(block, identity_payload(d), rest);
    let bits = identity_bits(d.header1);
    lemma_payload_bits(bits);
    lemma_parse_identity(d.header1, zeros(pad_len(bits.len())));
}

/// What was written for the second part of a save is read back, whatever follows it.
pub proof fn lemma_parse_header2(d: SaveDataView, rest: Seq<u8>)
    requires
        d.header2.wf(),
        d.header2.fits(),
        catalog_payload(d).len() <= MAX_LEN,
    ensures
        parse_header2(header2_bytes(d) + rest) == Ok::<_, ReadError>((d.header2, rest)),
{
    reveal(parse_header2);
    lemma_block_frames(catalog_payload(d));
    lemma_parse_block(header2_bytes(d), catalog_payload(d), rest);
    let bits = catalog_bits(d.header2);
    lemma_payload_bits(bits);
    lemma_parse_catalog(d.header2, zeros(pad_len(bits.len())));
}

/// What was written for a preview is read back, whatever follows it.
pub proof fn lemma_parse_preview(p: PreviewView, rest: Seq<u8>)
    requires
        preview_fault(p) is None,
    ensures
        parse_preview(preview_bytes(p) + rest) == Ok::<_, ReadError>((p, rest)),
{
    reveal(parse_preview);
    reveal(preview_fault);
    let s = preview_bytes(p) + rest;
    match p {
        PreviewView::Absent => {
            assert(s.skip(1) =~= rest);
        },
        PreviewView::Image { tag, bytes } => {
            lemma_le_limits();
            lemma_le_bytes_len(bytes.len(), 4);
            lemma_le_value_bytes(bytes.len(), 4);
            assert(s.subrange(1, 5) =~= le_bytes(bytes.len(), 4));
            assert(s.subrange(5, 5 + bytes.len() as int) =~= bytes);
            assert(s.skip(5 + bytes.len() as int) =~= rest);
        },
    }
}

/// What was written for the last part of a save is read back, whatever follows it.
pub proof fn lemma_parse_body(d: SaveDataView, rest: Seq<u8>)
    requires
        body_fault(d) is None,
    ensures
        parse_body(body_bytes(d) + rest, d.bricks.len(), tables_of(d.header2)) == Ok::<
            _,
            ReadError,
        >(((d.bricks, d.components), rest)),
{
    reveal(parse_body);
    reveal(body_fault);
    lemma_block_frames(bricks_payload(d));
    lemma_block_frames(components_payload(d));
    let t = tables_of(d.header2);
    let n = d.bricks.len();
    let first = block_bytes(bricks_payload(d));
    let second = block_bytes(components_payload(d));
    let sections = sections_of(d.components, d.bricks);
    assert(body_bytes(d) + rest =~= first + (second + rest));
    lemma_parse_block(first, bricks_payload(d), second + rest);
    lemma_parse_bricks(d.bricks, t);
    lemma_payload_bits(bricks_bits(d.bricks, t));
    lemma_parse_block(second, components_payload(d), rest);
    assert forall|j: int| 0 <= j < sections.len() implies (#[trigger] sections[j]).wf(n)
        && sections[j].fits() by {
        lemma_sections_wf(d.components, d.bricks, j);
    }
    assert(declarations(sections) =~= d.components);
    lemma_parse_components(sections, n);
    lemma_payload_bits(components_bits(sections, n));
    lemma_with_sections(d.components, d.bricks);
}

/// What follows from a save being writable, part by part.
pub proof fn lemma_valid_parts(d: SaveDataView)
    requires
        d.valid(),
    ensures
        header1_fault(d) is None,
        header2_fault(d) is None,
        preview_fault(d.preview) is None,
        body_fault(d) is None,
        d.header1.fits(),
        d.header2.fits(),
        d.header1.brick_count == d.bricks.len(),
        identity_payload(d).len() <= MAX_LEN,
        catalog_payload(d).len() <= MAX_LEN,
{
    reveal(header1_fault);
    reveal(header2_fault);
}

/// A save is its four parts one after another.
pub proof fn lemma_save_split(d: SaveDataView, rest: Seq<u8>)
    ensures
        save_bytes(d) + rest == header1_bytes(d) + (header2_bytes(d) + (preview_bytes(d.preview)
            + (body_bytes(d) + rest))),
{
    lemma_joined(
        header1_bytes(d),
        header2_bytes(d),
        preview_bytes(d.preview),
        body_bytes(d),
        rest,
    );
}

/// Five runs of bytes joined from the left are the same joined from the
/// right.
pub proof fn lemma_joined(a: Seq<u8>, b: Seq<u8>, c: Seq<u8>, d: Seq<u8>, e: Seq<u8>)
    ensures
        a + b + c + d + e == a + (b + (c + (d + e))),
{
    assert(a + b + c + d + e =~= a + (b + (c + (d + e))));
}

/// The parts of a save that are read one after another make the save.
pub proof fn lemma_parse_save_joined(
    d: SaveDataView,
    s: Seq<u8>,
    r1: Seq<u8>,
    r2: Seq<u8>,
    r3: Seq<u8>,
    rest: Seq<u8>,
)
    requires
        parse_header1(s) == Ok::<_, ReadError>(((d.game_version, d.header1.resolved()), r1)),
        parse_header2(r1) == Ok::<_, ReadError>((d.header2, r2)),
        parse_preview(r2) == Ok::<_, ReadError>((d.preview, r3)),
        parse_body(r3, d.header1.resolved().brick_count as nat, tables_of(d.header2)) == Ok::<
            _,
            ReadError,
        >(((d.bricks, d.components), rest)),
    ensures
        parse_save(s) == Ok::<_, ReadError>((d.resolved(), rest)),
{
}

/// A save that can be written is read back from its bytes as it was, with
/// the host of its first header named.
pub proof fn lemma_parse_save(d: SaveDataView, rest: Seq<u8>)
    requires
        d.wf(),
        d.valid(),
    ensures
        parse_save(save_bytes(d) + rest) == Ok::<_, ReadError>((d.resolved(), rest)),
{
    let r3 = body_bytes(d) + rest;
    let r2 = preview_bytes(d.preview) + r3;
    let r1 = header2_bytes(d) + r2;
    lemma_valid_parts(d);
    lemma_save_split(d, rest);
    lemma_parse_header1(d, r1);
    lemma_parse_header2(d, r2);
    lemma_parse_preview(d.preview, r3);
    lemma_parse_body(d, rest);
    lemma_parse_save_joined(d, save_bytes(d) + rest, r1, r2, r3, rest);
}

} // verus!
