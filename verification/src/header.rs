//! The header at the start of a tiled image file.
use crate::bytes::{
    law_fixed_width_round_trip, le_bytes, le_value, lemma_le_bytes_len, read_u32_le, read_u64_le,
    write_u32_le, write_u64_le, ByteReader, ReadError,
};
use crate::tiles::Extent;
use vstd::prelude::*;

verus! {

/// The first four bytes of a file: "TILE".
pub const MAGIC_BYTES: [u8; 4] = [0x54, 0x49, 0x4C, 0x45];

/// What a header says, apart from how it is held.
pub struct HeaderView {
    pub magic: Seq<u8>,
    pub version: u32,
    pub log_tile_size: u32,
    pub format: u32,
    pub first_in_memory_level: u32,
    pub level_resolution: Seq<Extent>,
    pub level_offset: Seq<u64>,
}

/// The width and the height of each level, in four bytes each.
pub open spec fn extents_encoded(extents: Seq<Extent>) -> Seq<u8>
    decreases extents.len(),
{
    if extents.len() == 0 {
        Seq::empty()
    } else {
        extents_encoded(extents.drop_last()) + le_bytes(extents.last().width as nat, 4) + le_bytes(
            extents.last().height as nat,
            4,
        )
    }
}

/// Each offset, in eight bytes.
pub open spec fn offsets_encoded(offsets: Seq<u64>) -> Seq<u8>
    decreases offsets.len(),
{
    if offsets.len() == 0 {
        Seq::empty()
    } else {
        offsets_encoded(offsets.drop_last()) + le_bytes(offsets.last() as nat, 8)
    }
}

/// The number of bytes of the header of an image with `levels` levels.
pub open spec fn header_size(levels: nat) -> nat {
    24 + 16 * levels
}

impl HeaderView {
    /// The magic and the five fixed fields, the last of which is the number of levels.
    pub open spec fn fixed_encoded(self) -> Seq<u8> {
        self.magic + le_bytes(self.version as nat, 4) + le_bytes(self.log_tile_size as nat, 4)
            + le_bytes(self.format as nat, 4) + le_bytes(self.first_in_memory_level as nat, 4)
            + le_bytes((self.level_resolution.len() as u32) as nat, 4)
    }

    /// The bytes that stand for the header in a file.
    pub open spec fn encoded(self) -> Seq<u8> {
        self.fixed_encoded() + extents_encoded(self.level_resolution) + offsets_encoded(
            self.level_offset,
        )
    }

    /// Whether the header is what the front of `bytes` stands for.
    pub open spec fn decodes(self, bytes: Seq<u8>) -> bool {
        let levels = self.level_resolution.len();
        &&& bytes.len() >= header_size(levels)
        &&& self.magic == bytes.subrange(0, 4)
        &&& self.version == le_value(bytes.subrange(4, 8))
        &&& self.log_tile_size == le_value(bytes.subrange(8, 12))
        &&& self.format == le_value(bytes.subrange(12, 16))
        &&& self.first_in_memory_level == le_value(bytes.subrange(16, 20))
        &&& levels == le_value(bytes.subrange(20, 24))
        &&& self.level_offset.len() == levels
        &&& forall|i: int|
            0 <= i < levels ==> {
                let at = 24 + 8 * i;
                &&& (#[trigger] self.level_resolution[i]).width == le_value(
                    bytes.subrange(at, at + 4),
                )
                &&& self.level_resolution[i].height == le_value(bytes.subrange(at + 4, at + 8))
            }
        &&& forall|i: int|
            0 <= i < levels ==> {
                let at = 24 + 8 * levels + 8 * i;
                #[trigger] self.level_offset[i] == le_value(bytes.subrange(at, at + 8))
            }
    }
}

/// The number of bytes of the header that `bytes` begin with, as far as it can be told: with the
/// fixed fields cut short, those.
pub open spec fn needed_bytes(bytes: Seq<u8>) -> nat {
    if bytes.len() < 24 {
        24
    } else {
        header_size(le_value(bytes.subrange(20, 24)))
    }
}

/// The header of a tiled image file.
#[derive(Debug)]
pub struct Header {
    pub magic: [u8; 4],
    pub version: u32,
    /// The binary logarithm of the side of a tile.
    pub log_tile_size: u32,
    /// The number that stands for the pixel format.
    pub format: u32,
    /// The largest level that is stored next to the header; it and the smaller ones after it are
    /// kept in memory.
    pub first_in_memory_level: u32,
    pub level_resolution: Vec<Extent>,
    /// Where each level begins in the file.
    pub level_offset: Vec<u64>,
}

impl View for Header {
    type V = HeaderView;

    open spec fn view(&self) -> HeaderView {
        HeaderView {
            magic: self.magic@,
            version: self.version,
            log_tile_size: self.log_tile_size,
            format: self.format,
            first_in_memory_level: self.first_in_memory_level,
            level_resolution: self.level_resolution@,
            level_offset: self.level_offset@,
        }
    }
}

impl Header {
    /// The number of bytes of the header of an image with `levels` levels.
    pub fn byte_size(levels: usize) -> (bytes: usize)
        requires
            header_size(levels as nat) <= usize::MAX,
        ensures
            bytes == header_size(levels as nat),
    {
        4  // magic
         + 4 * 5  // fixed fields
         + 8 * levels  // extents
         + 8 * levels  // level offsets

    }

    /// Appends the bytes that stand for the header.
    pub fn write(&self, writer: &mut Vec<u8>)
        ensures
            final(writer)@ == old(writer)@ + self@.encoded(),
    {
        let ghost start = writer@;
        // magic (raw bytes)
        writer.extend_from_slice(self.magic.as_slice());
        assert(writer@ =~= start + self.magic@);

        // fixed fields
        write_u32_le(writer, self.version);
        write_u32_le(writer, self.log_tile_size);
        write_u32_le(writer, self.format);
        write_u32_le(writer, self.first_in_memory_level);
        let levels: usize = self.level_resolution.len();
        write_u32_le(
            writer,
            #[verifier::truncate]
            (levels as u32),
        );
        assert(writer@ =~= start + self@.fixed_encoded());

        // variable fields
        let ghost fixed = writer@;
        let mut i: usize = 0;
        assert(self.level_resolution@.take(0) =~= Seq::empty());
        assert(fixed =~= fixed + extents_encoded(self.level_resolution@.take(0)));
        while i < self.level_resolution.len()
            invariant
                i <= self.level_resolution@.len(),
                writer@ == fixed + extents_encoded(self.level_resolution@.take(i as int)),
            decreases self.level_resolution@.len() - i,
        {
            let ghost before = writer@;
            let extent: Extent = self.level_resolution[i];
            write_u32_le(writer, extent.width);
            write_u32_le(writer, extent.height);
            proof {
                let next = self.level_resolution@.take(i + 1);
                assert(next.drop_last() =~= self.level_resolution@.take(i as int));
                assert(writer@ =~= fixed + extents_encoded(next));
            }
            i = i + 1;
        }
        assert(self.level_resolution@.take(i as int) =~= self.level_resolution@);

        let ghost sized = writer@;
        let mut j: usize = 0;
        assert(self.level_offset@.take(0) =~= Seq::empty());
        assert(sized =~= sized + offsets_encoded(self.level_offset@.take(0)));
        while j < self.level_offset.len()
            invariant
                j <= self.level_offset@.len(),
                writer@ == sized + offsets_encoded(self.level_offset@.take(j as int)),
            decreases self.level_offset@.len() - j,
        {
            write_u64_le(writer, self.level_offset[j]);
            proof {
                let next = self.level_offset@.take(j + 1);
                assert(next.drop_last() =~= self.level_offset@.take(j as int));
                assert(writer@ =~= sized + offsets_encoded(next));
            }
            j = j + 1;
        }
        assert(self.level_offset@.take(j as int) =~= self.level_offset@);
        assert(writer@ =~= start + self@.encoded());
    }

    /// How many bytes a header has that begins with `front`, as far as `front` tells: with fewer
    /// than 24 bytes, 24.
    pub fn needed_bytes(front: &[u8]) -> (bytes: u64)
        ensures
            bytes == needed_bytes(front@),
    {
        if front.len() < 24 {
            return 24;
        }
        let mut reader = ByteReader::new(vstd::slice::slice_subrange(front, 20, 24));
        let levels: u32 = match read_u32_le(&mut reader) {
            Ok(levels) => levels,
            Err(_) => 0,
        };
        assert(front@.subrange(20, 24).take(4) =~= front@.subrange(20, 24));
        24 + 16 * levels as u64
    }

    /// The header that the next bytes stand for. It fails if and only if they end before the
    /// header does.
    pub fn read(reader: &mut ByteReader) -> (header: Result<Header, ReadError>)
        ensures
            match header {
                Ok(h) => h@.decodes(old(reader)@) && needed_bytes(old(reader)@) <= old(
                    reader,
                )@.len() && final(reader)@ == old(reader)@.skip(
                    needed_bytes(old(reader)@) as int,
                ),
                Err(e) => needed_bytes(old(reader)@) > old(reader)@.len() && exists|k: int|
                    0 <= k <= old(reader)@.len() && final(reader)@ == #[trigger] old(
                        reader,
                    )@.skip(k),
            },
    {
        let ghost bytes = reader@;
        assert(bytes =~= bytes.skip(0));
        if reader.remaining() < 24 {
            return Err(ReadError::UnexpectedEof);
        }
        let magic: [u8; 4] = read_magic(reader)?;
        let version: u32 = read_u32_le(reader)?;
        assert(reader@ =~= bytes.skip(8));
        let log_tile_size: u32 = read_u32_le(reader)?;
        assert(reader@ =~= bytes.skip(12));
        let format: u32 = read_u32_le(reader)?;
        assert(reader@ =~= bytes.skip(16));
        let first_in_memory_level: u32 = read_u32_le(reader)?;
        assert(reader@ =~= bytes.skip(20));
        let mip_count: u32 = read_u32_le(reader)?;
        assert(reader@ =~= bytes.skip(24));
        proof {
            assert(bytes.subrange(4, 8) =~= bytes.skip(4).take(4));
            assert(bytes.subrange(8, 12) =~= bytes.skip(8).take(4));
            assert(bytes.subrange(12, 16) =~= bytes.skip(12).take(4));
            assert(bytes.subrange(16, 20) =~= bytes.skip(16).take(4));
            assert(bytes.subrange(20, 24) =~= bytes.skip(20).take(4));
        }

        let mut level_resolution: Vec<Extent> = Vec::new();
        let mut i: u32 = 0;
        while i < mip_count
            invariant
                i <= mip_count,
                bytes.len() >= 24 + 8 * i,
                mip_count == le_value(bytes.subrange(20, 24)),
                bytes == old(reader)@,
                reader@ == bytes.skip(24 + 8 * i),
                level_resolution@.len() == i,
                forall|k: int|
                    0 <= k < i ==> {
                        let at = 24 + 8 * k;
                        &&& (#[trigger] level_resolution@[k]).width == le_value(
                            bytes.subrange(at, at + 4),
                        )
                        &&& level_resolution@[k].height == le_value(bytes.subrange(at + 4, at + 8))
                    },
            decreases mip_count - i,
        {
            let ghost at = 24 + 8 * i as int;
            if reader.remaining() < 8 {
                return Err(ReadError::UnexpectedEof);
            }
            let width: u32 = read_u32_le(reader)?;
            assert(reader@ =~= bytes.skip(at + 4));
            let height: u32 = read_u32_le(reader)?;
            assert(reader@ =~= bytes.skip(at + 8));
            assert(bytes.subrange(at, at + 4) =~= bytes.skip(at).take(4));
            assert(bytes.subrange(at + 4, at + 8) =~= bytes.skip(at + 4).take(4));
            level_resolution.push(Extent::new(width, height));
            i = i + 1;
        }

        let mut level_offset: Vec<u64> = Vec::new();
        let mut j: u32 = 0;
        while j < mip_count
            invariant
                j <= mip_count,
                bytes.len() >= 24 + 8 * mip_count + 8 * j,
                mip_count == le_value(bytes.subrange(20, 24)),
                bytes == old(reader)@,
                reader@ == bytes.skip(24 + 8 * mip_count + 8 * j),
                level_offset@.len() == j,
                forall|k: int|
                    0 <= k < j ==> {
                        let at = 24 + 8 * mip_count + 8 * k;
                        #[trigger] level_offset@[k] == le_value(bytes.subrange(at, at + 8))
                    },
            decreases mip_count - j,
        {
            let ghost at = 24 + 8 * mip_count + 8 * j as int;
            if reader.remaining() < 8 {
                return Err(ReadError::UnexpectedEof);
            }
            let offset: u64 = read_u64_le(reader)?;
            assert(reader@ =~= bytes.skip(at + 8));
            assert(bytes.subrange(at, at + 8) =~= bytes.skip(at).take(8));
            level_offset.push(offset);
            j = j + 1;
        }

        Ok(
            Header {
                magic,
                version,
                log_tile_size,
                format,
                first_in_memory_level,
                level_resolution,
                level_offset,
            },
        )
    }
}

proof fn lemma_extents_encoded(extents: Seq<Extent>)
    ensures
        extents_encoded(extents).len() == 8 * extents.len(),
        forall|i: int|
            0 <= i < extents.len() ==> extents_encoded(extents).subrange(8 * i, 8 * i + 4)
                == le_bytes((#[trigger] extents[i]).width as nat, 4) && extents_encoded(
                extents,
            ).subrange(8 * i + 4, 8 * i + 8) == le_bytes(extents[i].height as nat, 4),
    decreases extents.len(),
{
    if extents.len() > 0 {
        let front = extents.drop_last();
        let last = extents.last();
        lemma_extents_encoded(front);
        lemma_le_bytes_len(last.width as nat, 4);
        lemma_le_bytes_len(last.height as nat, 4);
        let all = extents_encoded(extents);
        assert forall|i: int| 0 <= i < extents.len() implies all.subrange(8 * i, 8 * i + 4)
            == le_bytes((#[trigger] extents[i]).width as nat, 4) && all.subrange(8 * i + 4, 8 * i
            + 8) == le_bytes(extents[i].height as nat, 4) by {
            if i < front.len() {
                assert(front[i] == extents[i]);
                let before = extents_encoded(front);
                assert(all.subrange(8 * i, 8 * i + 4) =~= before.subrange(8 * i, 8 * i + 4));
                assert(all.subrange(8 * i + 4, 8 * i + 8) =~= before.subrange(8 * i + 4, 8 * i + 8));
            } else {
                assert(all.subrange(8 * i, 8 * i + 4) =~= le_bytes(last.width as nat, 4));
                assert(all.subrange(8 * i + 4, 8 * i + 8) =~= le_bytes(last.height as nat, 4));
            }
        }
    }
}

proof fn lemma_offsets_encoded(offsets: Seq<u64>)
    ensures
        offsets_encoded(offsets).len() == 8 * offsets.len(),
        forall|i: int|
            0 <= i < offsets.len() ==> offsets_encoded(offsets).subrange(8 * i, 8 * i + 8)
                == le_bytes(#[trigger] offsets[i] as nat, 8),
    decreases offsets.len(),
{
    if offsets.len() > 0 {
        let front = offsets.drop_last();
        lemma_offsets_encoded(front);
        lemma_le_bytes_len(offsets.last() as nat, 8);
        let all = offsets_encoded(offsets);
        assert forall|i: int| 0 <= i < offsets.len() implies all.subrange(8 * i, 8 * i + 8)
            == le_bytes(#[trigger] offsets[i] as nat, 8) by {
            if i < front.len() {
                assert(front[i] == offsets[i]);
                assert(all.subrange(8 * i, 8 * i + 8) =~= offsets_encoded(front).subrange(
                    8 * i,
                    8 * i + 8,
                ));
            } else {
                assert(all.subrange(8 * i, 8 * i + 8) =~= le_bytes(offsets.last() as nat, 8));
            }
        }
    }
}

/// A header takes up as many bytes as `byte_size` says.
pub proof fn law_encoded_size(header: HeaderView)
    requires
        header.magic.len() == 4,
        header.level_offset.len() == header.level_resolution.len(),
    ensures
        header.encoded().len() == header_size(header.level_resolution.len()),
{
    lemma_extents_encoded(header.level_resolution);
    lemma_offsets_encoded(header.level_offset);
    lemma_le_bytes_len(header.version as nat, 4);
    lemma_le_bytes_len(header.log_tile_size as nat, 4);
    lemma_le_bytes_len(header.format as nat, 4);
    lemma_le_bytes_len(header.first_in_memory_level as nat, 4);
    lemma_le_bytes_len((header.level_resolution.len() as u32) as nat, 4);
}

/// A header that was written is read back as it was, whatever bytes follow it, and all
/// its bytes are read.
pub proof fn law_header_round_trip(header: HeaderView, tail: Seq<u8>)
    requires
        header.magic.len() == 4,
        header.level_offset.len() == header.level_resolution.len(),
        header.level_resolution.len() <= u32::MAX,
    ensures
        header.decodes(header.encoded() + tail),
        needed_bytes(header.encoded() + tail) == header.encoded().len(),
{
    let extents = header.level_resolution;
    let offsets = header.level_offset;
    let levels = extents.len();
    let bytes = header.encoded() + tail;
    law_encoded_size(header);
    lemma_extents_encoded(extents);
    lemma_offsets_encoded(offsets);
    lemma_le_bytes_len(header.version as nat, 4);
    lemma_le_bytes_len(header.log_tile_size as nat, 4);
    lemma_le_bytes_len(header.format as nat, 4);
    lemma_le_bytes_len(header.first_in_memory_level as nat, 4);
    lemma_le_bytes_len((levels as u32) as nat, 4);
    law_fixed_width_round_trip(header.version, 0);
    law_fixed_width_round_trip(header.log_tile_size, 0);
    law_fixed_width_round_trip(header.format, 0);
    law_fixed_width_round_trip(header.first_in_memory_level, 0);
    law_fixed_width_round_trip(levels as u32, 0);
    assert(bytes.subrange(0, 4) =~= header.magic);
    assert(bytes.subrange(4, 8) =~= le_bytes(header.version as nat, 4));
    assert(bytes.subrange(8, 12) =~= le_bytes(header.log_tile_size as nat, 4));
    assert(bytes.subrange(12, 16) =~= le_bytes(header.format as nat, 4));
    assert(bytes.subrange(16, 20) =~= le_bytes(header.first_in_memory_level as nat, 4));
    assert(bytes.subrange(20, 24) =~= le_bytes((levels as u32) as nat, 4));
    assert forall|i: int| 0 <= i < levels implies {
        let at = 24 + 8 * i;
        &&& (#[trigger] extents[i]).width == le_value(bytes.subrange(at, at + 4))
        &&& extents[i].height == le_value(bytes.subrange(at + 4, at + 8))
    } by {
        let at = 24 + 8 * i;
        let part = extents_encoded(extents);
        assert(bytes.subrange(at, at + 4) =~= part.subrange(8 * i, 8 * i + 4));
        assert(bytes.subrange(at + 4, at + 8) =~= part.subrange(8 * i + 4, 8 * i + 8));
        law_fixed_width_round_trip(extents[i].width, 0);
        law_fixed_width_round_trip(extents[i].height, 0);
    }
    assert forall|i: int| 0 <= i < levels implies {
        let at = 24 + 8 * levels + 8 * i;
        #[trigger] offsets[i] == le_value(bytes.subrange(at, at + 8))
    } by {
        let at = 24 + 8 * levels + 8 * i;
        assert(bytes.subrange(at, at + 8) =~= offsets_encoded(offsets).subrange(8 * i, 8 * i + 8));
        law_fixed_width_round_trip(0, offsets[i]);
    }
}

/// Bytes stand for at most one header.
pub proof fn law_header_is_unique(a: HeaderView, b: HeaderView, bytes: Seq<u8>)
    requires
        a.decodes(bytes),
        b.decodes(bytes),
    ensures
        a == b,
{
    assert forall|i: int| 0 <= i < a.level_resolution.len() implies a.level_resolution[i]
        == b.level_resolution[i] by {}
    assert(a.level_resolution =~= b.level_resolution);
    assert forall|i: int| 0 <= i < a.level_offset.len() implies a.level_offset[i]
        == b.level_offset[i] by {}
    assert(a.level_offset =~= b.level_offset);
}

/// Takes the next four bytes as they are.
fn read_magic(reader: &mut ByteReader) -> (magic: Result<[u8; 4], ReadError>)
    requires
        old(reader)@.len() >= 4,
    ensures
        magic matches Ok(m) && m@ == old(reader)@.subrange(0, 4) && final(reader)@ == old(
            reader,
        )@.skip(4),
{
    let ghost bytes = reader@;
    let b0 = reader.next_byte();
    let b1 = reader.next_byte();
    let b2 = reader.next_byte();
    let b3 = reader.next_byte();
    assert(reader@ =~= bytes.skip(4));
    match (b0, b1, b2, b3) {
        (Some(m0), Some(m1), Some(m2), Some(m3)) => {
            let magic: [u8; 4] = [m0, m1, m2, m3];
            assert(magic@ =~= bytes.subrange(0, 4));
            Ok(magic)
        },
        _ => Err(ReadError::UnexpectedEof),
    }
}

} // verus!
