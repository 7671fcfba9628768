//! Reading a save.

use crate::attach::attach;
use crate::block::{push_all, ByteSource};
use crate::brick::{decode_records, tables_of, Layout};
use crate::component::declarations;
use crate::endian::{lemma_le_limits, lemma_le_value_bound};
use crate::file::{
    lemma_magic, magic, parse_body, parse_header0, parse_header1, parse_header2, parse_preview,
    parse_save, MAGIC_BYTES, SAVE_VERSION,
};
use crate::header::{decode_catalog, decode_identity};
use crate::save::{
    views, Brick, Component, ComponentView, Header1, Header2, Preview, SaveData, SaveDataView,
};
use crate::section_read::{decode_component_table, sections_view};
use vstd::prelude::*;

verus! {

/// Why bytes could not be read as a save.
#[derive(Clone, Copy, Debug, PartialEq, Eq, Structural)]
pub enum ReadError {
    /// The bytes end before the part that is being read does.
    Truncated,
    /// The bytes do not begin with the magic bytes.
    BadMagic,
    /// The save is of a format version that is not read.
    UnsupportedVersion,
    /// A block or a preview gives a negative length.
    BadLength,
    /// The compressed bytes of a block are not a zlib stream.
    Inflate,
    /// The bytes of a block inflate to another length than the block says.
    LengthMismatch,
    /// The content of the first header is malformed.
    Header1,
    /// The content of the second header is malformed.
    Header2,
    /// The content of the brick table is malformed.
    Bricks,
    /// The content of the component table is malformed.
    Components,
}

/// A save reader, which reads the parts of a save from bytes, front to
/// back.
pub struct SaveReader {
    source: ByteSource,
}

impl SaveReader {
    /// The bytes that have not been read yet.
    pub closed spec fn remaining(&self) -> Seq<u8> {
        self.source@
    }

    /// A reader of `bytes`.
    pub fn new(bytes: Vec<u8>) -> (r: SaveReader)
        ensures
            r.remaining() == bytes@,
    {
        SaveReader { source: ByteSource::new(bytes) }
    }

    /// Reads the start of a save: checks the magic bytes and the format
    /// version and gives the game version.
    fn read_header0(&mut self) -> (r: Result<i32, ReadError>)
        ensures
            match r {
                Ok(v) => parse_header0(old(self).remaining()) == Ok::<_, ReadError>(
                    (v, final(self).remaining()),
                ),
                Err(e) => parse_header0(old(self).remaining()) == Err::<(i32, Seq<u8>), _>(e),
            },
    {
        let ghost s = self.source@;
        let start = match self.source.take(4) {
            Some(v) => v,
            None => {
                return Err(ReadError::Truncated);
            },
        };
        proof {
            lemma_magic();
        }
        if !(start[0] == MAGIC_BYTES[0] && start[1] == MAGIC_BYTES[1] && start[2]
            == MAGIC_BYTES[2] && start[3] == MAGIC_BYTES[3]) {
            return Err(ReadError::BadMagic);
        }
        proof {
            assert(s.take(4) =~= magic());
        }
        let version = match self.source.read_u16() {
            Some(v) => v,
            None => {
                return Err(ReadError::Truncated);
            },
        };
        proof {
            assert(s.skip(4).take(2) =~= s.subrange(4, 6));
        }
        if version != SAVE_VERSION {
            return Err(ReadError::UnsupportedVersion);
        }
        let game_version = match self.source.read_i32() {
            Some(v) => v,
            None => {
                return Err(ReadError::Truncated);
            },
        };
        proof {
            assert(s.skip(4).skip(2).take(4) =~= s.subrange(6, 10));
            assert(s.skip(4).skip(2).skip(4) =~= s.skip(10));
            lemma_le_value_bound(s.subrange(6, 10));
            lemma_le_limits();
        }
        Ok(game_version)
    }

    /// Reads the start of a save and its first header: the game version and
    /// the header.
    pub fn read_header1(&mut self) -> (r: Result<(i32, Header1), ReadError>)
        ensures
            match r {
                Ok((v, h)) => h@.wf() && parse_header1(old(self).remaining()) == Ok::<
                    _,
                    ReadError,
                >(((v, h@), final(self).remaining())),
                Err(e) => parse_header1(old(self).remaining()) == Err::<
                    ((i32, crate::save::Header1View), Seq<u8>),
                    _,
                >(e),
            },
    {
        proof {
            reveal(parse_header1);
        }
        let game_version = self.read_header0()?;
        let payload = self.source.read_block()?;
        match decode_identity(payload) {
            Some(header) => Ok((game_version, header)),
            None => Err(ReadError::Header1),
        }
    }

    /// Reads the second header.
    pub fn read_header2(&mut self) -> (r: Result<Header2, ReadError>)
        ensures
            match r {
                Ok(h) => parse_header2(old(self).remaining()) == Ok::<_, ReadError>(
                    (h@, final(self).remaining()),
                ),
                Err(e) => parse_header2(old(self).remaining()) == Err::<
                    (crate::save::Header2View, Seq<u8>),
                    _,
                >(e),
            },
    {
        proof {
            reveal(parse_header2);
        }
        let payload = self.source.read_block()?;
        match decode_catalog(payload) {
            Some(header) => Ok(header),
            None => Err(ReadError::Header2),
        }
    }

    /// Reads the preview.
    pub fn read_preview(&mut self) -> (r: Result<Preview, ReadError>)
        ensures
            match r {
                Ok(p) => parse_preview(old(self).remaining()) == Ok::<_, ReadError>(
                    (p@, final(self).remaining()),
                ),
                Err(e) => parse_preview(old(self).remaining()) == Err::<
                    (crate::save::PreviewView, Seq<u8>),
                    _,
                >(e),
            },
    {
        proof {
            reveal(parse_preview);
        }
        let ghost s = self.source@;
        let tag = match self.source.take(1) {
            Some(v) => v[0],
            None => {
                return Err(ReadError::Truncated);
            },
        };
        if tag == 0 {
            return Ok(Preview::Absent);
        }
        let size = match self.source.read_i32() {
            Some(v) => v,
            None => {
                return Err(ReadError::Truncated);
            },
        };
        proof {
            assert(s.skip(1).take(4) =~= s.subrange(1, 5));
            lemma_le_value_bound(s.subrange(1, 5));
            lemma_le_limits();
        }
        if size < 0 {
            return Err(ReadError::BadLength);
        }
        let bytes = match self.source.take(size as usize) {
            Some(v) => v,
            None => {
                return Err(ReadError::Truncated);
            },
        };
        proof {
            assert(s.skip(1).skip(4).take(size as int) =~= s.subrange(5, 5 + size as int));
            assert(s.skip(1).skip(4).skip(size as int) =~= s.skip(5 + size as int));
        }
        Ok(Preview::Image { tag, bytes })
    }

    /// Reads the bricks and components of a save with these two headers:
    /// the bricks, each with its components, and the components.
    pub fn read_bricks(&mut self, header1: &Header1, header2: &Header2) -> (r: Result<
        (Vec<Brick>, Vec<Component>),
        ReadError,
    >)
        ensures
            match r {
                Ok((bricks, components)) => parse_body(
                    old(self).remaining(),
                    header1.brick_count as nat,
                    tables_of(header2@),
                ) == Ok::<_, ReadError>(
                    ((views(bricks@), views(components@)), final(self).remaining()),
                ),
                Err(e) => parse_body(
                    old(self).remaining(),
                    header1.brick_count as nat,
                    tables_of(header2@),
                ) == Err::<((Seq<crate::save::BrickView>, Seq<ComponentView>), Seq<u8>), _>(e),
            },
    {
        proof {
            reveal(parse_body);
        }
        let n = header1.brick_count as usize;
        let layout = Layout::of(header2);
        let first = self.source.read_block()?;
        let bare = match decode_records(first, n, &layout) {
            Some(v) => v,
            None => {
                return Err(ReadError::Bricks);
            },
        };
        let second = self.source.read_block()?;
        let (components, carried) = match decode_component_table(second, n) {
            Some(v) => v,
            None => {
                return Err(ReadError::Components);
            },
        };
        let bricks = attach(&bare, &components, &carried);
        proof {
            assert(declarations(sections_view(components@, carried@)) =~= views(components@));
        }
        Ok((bricks, components))
    }

    /// Reads a full save.
    pub fn read(&mut self) -> (r: Result<SaveData, ReadError>)
        ensures
            match r {
                Ok(d) => parse_save(old(self).remaining()) == Ok::<_, ReadError>(
                    (d@, final(self).remaining()),
                ),
                Err(e) => parse_save(old(self).remaining()) == Err::<(SaveDataView, Seq<u8>), _>(
                    e,
                ),
            },
    {
        let (game_version, header1) = self.read_header1()?;
        let header2 = self.read_header2()?;
        let preview = self.read_preview()?;
        let (bricks, components) = self.read_bricks(&header1, &header2)?;
        Ok(SaveData { game_version, header1, header2, preview, bricks, components })
    }
}

/// The save that bytes hold, or why they hold none. Bytes behind the save
/// are passed over.
pub fn decode(bytes: &Vec<u8>) -> (r: Result<SaveData, ReadError>)
    ensures
        match r {
            Ok(d) => parse_save(bytes@) matches Ok((v, _)) && v == d@,
            Err(e) => parse_save(bytes@) == Err::<(SaveDataView, Seq<u8>), _>(e),
        },
{
    let mut copy: Vec<u8> = Vec::new();
    push_all(&mut copy, bytes.as_slice());
    proof {
        assert(copy@ =~= bytes@);
    }
    let mut reader = SaveReader::new(copy);
    reader.read()
}

} // verus!
