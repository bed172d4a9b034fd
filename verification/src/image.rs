//! Tiled images: made of levels, read from a file, and addressed by texel and by tile.
use crate::bytes::ReadError;
use crate::create::{align_up, can_write_file, count_tiles, level_views, write_file};
use crate::header::{Header, HeaderView};
use crate::layout::{next_multiple, tiles_across, Pyramid, TILE_DISK_ALIGNMENT};
use crate::mips::{build_mips, can_build_mips, level_data, level_extents, LevelView, WrapMode};
use crate::power_of_two::PowerOfTwo;
use crate::storable::law_common_image_can_be_stored;
use crate::texel::PixelFormat;
use crate::tiles::Extent;
use vstd::prelude::*;

verus! {

/// What a tiled image is, apart from how it is held.
pub struct ImageView {
    pub format: PixelFormat,
    pub log_tile_size: u32,
    pub first_in_memory_level: u32,
    pub extents: Seq<Extent>,
    pub offsets: Seq<usize>,
    pub in_memory_levels: Seq<Seq<u8>>,
}

/// The format that a number in a file stands for.
pub open spec fn format_of_code(code: u32) -> PixelFormat {
    choose|format: PixelFormat| format.code() == code
}

impl HeaderView {
    /// The number of bytes of a level.
    pub open spec fn level_bytes(self, level: int) -> nat {
        self.level_resolution[level].width as nat * self.level_resolution[level].height as nat
            * format_of_code(self.format).stride()
    }

    /// Whether an image can be made of the header: the format is known, the levels to be kept in
    /// memory are levels of the image, and their sizes fit.
    pub open spec fn is_loadable(self) -> bool {
        &&& self.format <= 8
        &&& self.level_offset.len() == self.level_resolution.len()
        &&& self.first_in_memory_level <= self.level_offset.len()
        &&& forall|level: int|
            self.first_in_memory_level <= level < self.level_offset.len() ==> {
                &&& (#[trigger] self.level_resolution[level]).width
                    * self.level_resolution[level].height <= u32::MAX
                &&& self.level_bytes(level) <= usize::MAX
            }
    }

    /// Whether the file holds all of a level, in one piece from its offset on. A level without
    /// texels is held by any file.
    pub open spec fn holds_level(self, file: Seq<u8>, level: int) -> bool {
        self.level_bytes(level) == 0 || self.level_offset[level] + self.level_bytes(level)
            <= file.len()
    }

    /// Where the levels from `level` on, those with texels, end in the file at the latest.
    pub open spec fn levels_end(self, level: nat) -> nat
        decreases self.level_offset.len() - level,
    {
        if level >= self.level_offset.len() {
            0
        } else {
            let others = self.levels_end(level + 1);
            let end = self.level_offset[level as int] as nat + self.level_bytes(level as int);
            if self.level_bytes(level as int) > 0 && end > others {
                end
            } else {
                others
            }
        }
    }

    /// What the file holds of a level.
    pub open spec fn level_content(self, file: Seq<u8>, level: int) -> Seq<u8> {
        let start = self.level_offset[level] as int;
        if self.level_bytes(level) == 0 {
            Seq::empty()
        } else {
            file.subrange(start, start + self.level_bytes(level))
        }
    }

    /// The image that the header and the file stand for.
    pub open spec fn image(self, file: Seq<u8>) -> ImageView {
        ImageView {
            format: format_of_code(self.format),
            log_tile_size: self.log_tile_size,
            first_in_memory_level: self.first_in_memory_level,
            extents: self.level_resolution,
            offsets: Seq::new(self.level_offset.len(), |i: int| self.level_offset[i] as usize),
            in_memory_levels: Seq::new(
                (self.level_offset.len() - self.first_in_memory_level) as nat,
                |i: int| self.level_content(file, self.first_in_memory_level + i),
            ),
        }
    }
}

impl Header {
    /// Whether an image can be made of the header.
    pub fn is_loadable(&self) -> (loadable: bool)
        ensures
            loadable == self@.is_loadable(),
    {
        let levels: usize = self.level_offset.len();
        if self.format > 8 || self.level_resolution.len() != levels
            || self.first_in_memory_level as u64 > levels as u64 {
            return false;
        }
        let stride: usize = PixelFormat::from_u32(self.format).texel_bytes();
        proof {
            lemma_format_of_code(self.format);
        }
        let mut level: usize = self.first_in_memory_level as usize;
        while level < levels
            invariant
                self.first_in_memory_level <= level <= levels,
                levels == self.level_offset@.len() == self.level_resolution@.len(),
                stride == format_of_code(self.format).stride(),
                1 <= stride <= 16,
                forall|k: int|
                    self.first_in_memory_level <= k < level ==> {
                        &&& (#[trigger] self@.level_resolution[k]).width
                            * self@.level_resolution[k].height <= u32::MAX
                        &&& self@.level_bytes(k) <= usize::MAX
                    },
            decreases levels - level,
        {
            let Extent { width, height } = self.level_resolution[level];
            assert(width * height <= 0xffff_ffff * 0xffff_ffff) by (nonlinear_arith)
                requires
                    width <= 0xffff_ffff,
                    height <= 0xffff_ffff,
            ;
            let texels: u64 = width as u64 * height as u64;
            assert(self@.level_resolution[level as int] == self.level_resolution@[level as int]);
            if texels > u32::MAX as u64 {
                return false;
            }
            assert(texels * stride <= 0xffff_ffff * 16) by (nonlinear_arith)
                requires
                    texels <= 0xffff_ffff,
                    stride <= 16,
            ;
            if texels * stride as u64 > usize::MAX as u64 {
                return false;
            }
            level = level + 1;
        }
        true
    }
}

impl Header {
    /// How many bytes of the front of the file hold all levels that are to be kept in memory.
    pub fn front_bytes(&self) -> (bytes: u128)
        requires
            self@.is_loadable(),
        ensures
            bytes == self@.levels_end(self@.first_in_memory_level as nat),
    {
        let format: PixelFormat = PixelFormat::from_u32(self.format);
        proof {
            lemma_format_of_code(self.format);
        }
        let first: usize = self.first_in_memory_level as usize;
        let mut end: u128 = 0;
        let mut level: usize = self.level_offset.len();
        while level > first
            invariant
                self@.is_loadable(),
                first == self.first_in_memory_level,
                first <= level <= self.level_offset@.len(),
                self.level_offset@.len() == self.level_resolution@.len(),
                format == format_of_code(self.format),
                end == self@.levels_end(level as nat),
            decreases level,
        {
            level = level - 1;
            let Extent { width, height } = self.level_resolution[level];
            assert(self@.level_resolution[level as int] == self.level_resolution@[level as int]);
            let bytes: usize = (width * height) as usize * format.texel_bytes();
            assert(bytes == self@.level_bytes(level as int));
            let level_end: u128 = self.level_offset[level] as u128 + bytes as u128;
            if bytes > 0 && level_end > end {
                end = level_end;
            }
        }
        end
    }
}

/// A file holds all levels that are to be kept in memory if and only if it is as long as they need.
pub proof fn law_front_holds_levels(header: HeaderView, file: Seq<u8>, level: nat)
    ensures
        file.len() >= header.levels_end(level) <==> forall|k: int|
            level <= k < header.level_offset.len() ==> #[trigger] header.holds_level(file, k),
    decreases header.level_offset.len() - level,
{
    if level < header.level_offset.len() {
        law_front_holds_levels(header, file, level + 1);
        assert(header.holds_level(file, level as int) <==> header.level_bytes(level as int) == 0
            || header.level_offset[level as int] + header.level_bytes(level as int) <= file.len());
        if file.len() >= header.levels_end(level) {
            assert forall|k: int|
                level <= k < header.level_offset.len() implies #[trigger] header.holds_level(
                file,
                k,
            ) by {
                if k > level {
                    assert(level + 1 <= k);
                }
            }
        }
    }
}

/// A format is found by its number.
pub proof fn lemma_format_of_code(code: u32)
    requires
        code <= 8,
    ensures
        format_of_code(code).code() == code,
        forall|format: PixelFormat| #[trigger] format.code() == code ==> format == format_of_code(
            code,
        ),
{
    let witness = if code == 0 {
        PixelFormat::Luma8
    } else if code == 1 {
        PixelFormat::Luma16
    } else if code == 2 {
        PixelFormat::Luma32
    } else if code == 3 {
        PixelFormat::Rgb8
    } else if code == 4 {
        PixelFormat::Rgb16
    } else if code == 5 {
        PixelFormat::Rgb32
    } else if code == 6 {
        PixelFormat::Rgba8
    } else if code == 7 {
        PixelFormat::Rgba16
    } else {
        PixelFormat::Rgba32
    };
    assert(witness.code() == code);
}

impl ImageView {
    /// Whether the parts of the image agree: each level has an extent and an offset, and each of
    /// the levels kept in memory has the bytes that its extent promises.
    pub open spec fn is_consistent(self) -> bool {
        &&& self.offsets.len() == self.extents.len()
        &&& self.first_in_memory_level <= self.extents.len()
        &&& self.in_memory_levels.len() == self.extents.len() - self.first_in_memory_level
        &&& forall|level: int|
            self.first_in_memory_level <= level < self.extents.len() ==> {
                &&& (#[trigger] self.extents[level]).width * self.extents[level].height <= u32::MAX
                &&& self.in_memory_levels[level - self.first_in_memory_level].len()
                    == self.extents[level].width as nat * self.extents[level].height as nat
                    * self.format.stride()
            }
    }

    /// The side of a tile.
    pub open spec fn tile_size(self) -> nat {
        vstd::arithmetic::power2::pow2(self.log_tile_size as nat)
    }

    pub open spec fn tile_bytes(self) -> nat {
        self.tile_size() * self.tile_size() * self.format.stride()
    }

    /// The number of bytes that a tile takes up in the file.
    pub open spec fn tile_disk_bytes(self) -> nat {
        next_multiple(self.tile_bytes(), TILE_DISK_ALIGNMENT as nat)
    }

    /// The number of texels between a texel of a tile and the first texel of the tile.
    pub open spec fn texel_in_tile(self, x: nat, y: nat) -> nat {
        (y % self.tile_size()) * self.tile_size() + x % self.tile_size()
    }

    /// Where a texel stands among the bytes of its tile.
    pub open spec fn texel_offset(self, x: nat, y: nat) -> nat {
        self.format.stride() * self.texel_in_tile(x, y)
    }

    /// The index of a tile of a level, counted left to right, top to bottom.
    pub open spec fn tile_number(self, tile_x: nat, tile_y: nat, level: int) -> nat {
        tile_y * tiles_across(self.extents[level].width as nat, self.tile_size()) + tile_x
    }

    /// Where a tile begins in the file.
    pub open spec fn file_offset(self, tile_x: nat, tile_y: nat, level: int) -> nat {
        self.offsets[level] as nat + self.tile_disk_bytes() * self.tile_number(
            tile_x,
            tile_y,
            level,
        )
    }

    /// Whether a tile of a level can be addressed: the level is there, and the numbers on the way
    /// to the offset fit.
    pub open spec fn can_address(self, tile_x: nat, tile_y: nat, level: int) -> bool {
        &&& self.log_tile_size < 32
        &&& 0 <= level < self.extents.len()
        &&& self.offsets.len() == self.extents.len()
        &&& self.extents[level].width + self.tile_size() <= u32::MAX
        &&& self.tile_number(tile_x, tile_y, level) <= u32::MAX
        &&& self.tile_disk_bytes() <= usize::MAX
        &&& self.file_offset(tile_x, tile_y, level) <= usize::MAX
    }

    /// Whether the bytes of a level can be asked for in one piece.
    pub open spec fn can_get_level(self, level: int) -> bool {
        &&& self.can_address(0, 0, level)
        &&& self.extents[level].width * self.extents[level].height <= u32::MAX
        &&& self.extents[level].width * self.extents[level].height * self.format.stride()
            <= usize::MAX
    }

    /// Whether a texel of a level that is kept in memory is there. Texels are counted left to
    /// right, top to bottom; an `x` past the right edge counts on in the next scanline.
    pub open spec fn has_in_memory(self, x: nat, y: nat, level: int) -> bool {
        &&& self.first_in_memory_level <= level < self.extents.len()
        &&& y * self.extents[level].width + x < self.extents[level].width
            * self.extents[level].height
    }

    /// The bytes of a texel of a level that is kept in memory.
    pub open spec fn in_memory_texel(self, x: nat, y: nat, level: int) -> Seq<u8> {
        let start = (y * self.extents[level].width + x) * self.format.stride();
        self.in_memory_levels[level - self.first_in_memory_level].subrange(
            start as int,
            start + self.format.stride(),
        )
    }
}

/// The image with all its smaller levels, as it is to be stored.
pub open spec fn mip_pyramid(
    base: Seq<u8>,
    width: u32,
    height: u32,
    format: PixelFormat,
    tile_size: u32,
    wrap_mode: WrapMode,
) -> Pyramid {
    let levels = base_level(base, width, height, format).pyramid(wrap_mode);
    Pyramid {
        levels: level_data(levels),
        extents: level_extents(levels),
        format,
        tile_size: tile_size as nat,
    }
}

/// An image as the largest of its levels.
pub open spec fn base_level(
    base: Seq<u8>,
    width: u32,
    height: u32,
    format: PixelFormat,
) -> LevelView {
    LevelView {
        data: base,
        width: width as nat,
        height: height as nat,
        stride: format.stride(),
    }
}

/// An image that is stored in tiles, of which the smallest levels are kept in memory.
pub struct TiledImage {
    /// The components of the path that the image was opened by.
    pub path: Vec<Vec<u8>>,
    pub format: PixelFormat,
    pub log_tile_size: u32,
    pub first_in_memory_level: u32,
    pub level_resolution: Vec<Extent>,
    pub level_offset: Vec<usize>,
    pub in_memory_levels: Vec<Vec<u8>>,
}

impl View for TiledImage {
    type V = ImageView;

    open spec fn view(&self) -> ImageView {
        ImageView {
            format: self.format,
            log_tile_size: self.log_tile_size,
            first_in_memory_level: self.first_in_memory_level,
            extents: self.level_resolution@,
            offsets: self.level_offset@,
            in_memory_levels: level_views(self.in_memory_levels@),
        }
    }
}

impl TiledImage {
    /// The image that a header and the bytes of its file stand for. It fails if and only if the
    /// bytes do not hold all of a level that is to be kept in memory.
    pub fn open(path: Vec<Vec<u8>>, header: Header, file: &[u8]) -> (image: Result<
        TiledImage,
        ReadError,
    >)
        requires
            header@.is_loadable(),
        ensures
            match image {
                Ok(i) => i.path == path && i@ == header@.image(file@)
                    && i@.is_consistent() && (forall|level: int|
                    #![trigger header@.holds_level(file@, level)]
                    header@.first_in_memory_level <= level < header@.level_offset.len()
                        ==> header@.holds_level(file@, level)),
                Err(e) => exists|level: int|
                    header@.first_in_memory_level <= level < header@.level_offset.len()
                        && !#[trigger] header@.holds_level(file@, level),
            },
    {
        let format: PixelFormat = PixelFormat::from_u32(header.format);
        proof {
            lemma_format_of_code(header.format);
        }
        let mip_levels: usize = header.level_offset.len();
        let first: usize = header.first_in_memory_level as usize;
        let mut in_memory_levels: Vec<Vec<u8>> = Vec::new();
        let mut level: usize = first;
        while level < mip_levels
            invariant
                header@.is_loadable(),
                first == header.first_in_memory_level,
                first <= level <= mip_levels == header.level_offset@.len(),
                mip_levels == header.level_resolution@.len(),
                format == format_of_code(header.format),
                in_memory_levels@.len() == level - first,
                forall|k: int|
                    first <= k < level ==> #[trigger] header@.holds_level(file@, k)
                        && in_memory_levels@[k - first]@ == header@.level_content(file@, k),
            decreases mip_levels - level,
        {
            let Extent { width, height } = header.level_resolution[level];
            let offset: u64 = header.level_offset[level];
            assert(header@.level_resolution[level as int]
                == header.level_resolution@[level as int]);
            let bytes: usize = (width * height) as usize * format.texel_bytes();
            assert(bytes == header@.level_bytes(level as int));
            let len: usize = file.len();
            if bytes == 0 {
                let empty: Vec<u8> = Vec::new();
                assert(empty@ =~= header@.level_content(file@, level as int));
                in_memory_levels.push(empty);
            } else {
                if offset > len as u64 || bytes > len - offset as usize {
                    assert(!header@.holds_level(file@, level as int));
                    return Err(ReadError::UnexpectedEof);
                }
                let start: usize = offset as usize;
                in_memory_levels.push(
                    vstd::slice::slice_to_vec(
                        vstd::slice::slice_subrange(file, start, start + bytes),
                    ),
                );
            }
            assert(header@.holds_level(file@, level as int));
            level = level + 1;
        }
        let mut level_offset: Vec<usize> = Vec::new();
        let mut i: usize = 0;
        while i < mip_levels
            invariant
                i <= mip_levels == header.level_offset@.len(),
                level_offset@.len() == i,
                forall|k: int|
                    0 <= k < i ==> #[trigger] level_offset@[k] == header.level_offset@[k] as usize,
            decreases mip_levels - i,
        {
            level_offset.push(
                #[verifier::truncate]
                (header.level_offset[i] as usize),
            );
            i = i + 1;
        }
        let image = TiledImage {
            path,
            format,
            log_tile_size: header.log_tile_size,
            first_in_memory_level: header.first_in_memory_level,
            level_resolution: header.level_resolution,
            level_offset,
            in_memory_levels,
        };
        proof {
            let model = header@.image(file@);
            assert(image@.offsets =~= model.offsets);
            assert forall|k: int| 0 <= k < model.in_memory_levels.len() implies
                image@.in_memory_levels[k] == model.in_memory_levels[k] by {
                assert(header@.holds_level(file@, first + k));
            }
            assert(image@.in_memory_levels =~= model.in_memory_levels);
            assert forall|k: int| first <= k < image@.extents.len() implies {
                &&& (#[trigger] image@.extents[k]).width * image@.extents[k].height <= u32::MAX
                &&& image@.in_memory_levels[k - first].len() == image@.extents[k].width as nat
                    * image@.extents[k].height as nat * image@.format.stride()
            } by {
                assert(header@.holds_level(file@, k));
                assert(header@.level_resolution[k] == image@.extents[k]);
            }
        }
        Ok(image)
    }

    /// Takes an image pyramid, rearranges the texels into tiles with width and height equal to the
    /// given `tile_size`, and appends the file that holds them.
    pub fn create(
        levels: Vec<Vec<u8>>,
        level_resolution: Vec<Extent>,
        format: PixelFormat,
        tile_size: PowerOfTwo<u32>,
        writer: &mut Vec<u8>,
    )
        requires
            (Pyramid {
                levels: level_views(levels@),
                extents: level_resolution@,
                format,
                tile_size: tile_size.value() as nat,
            }).can_be_stored(),
        ensures
            final(writer)@ == old(writer)@ + (Pyramid {
                levels: level_views(levels@),
                extents: level_resolution@,
                format,
                tile_size: tile_size.value() as nat,
            }).file(),
    {
        write_file(&levels, &level_resolution, format, tile_size, writer);
    }

    /// Whether a file can be made of the levels of an image.
    pub fn can_create(
        levels: &Vec<Vec<u8>>,
        level_resolution: &Vec<Extent>,
        format: PixelFormat,
        tile_size: PowerOfTwo<u32>,
    ) -> (can: bool)
        ensures
            can == (Pyramid {
                levels: level_views(levels@),
                extents: level_resolution@,
                format,
                tile_size: tile_size.value() as nat,
            }).can_be_stored(),
    {
        can_write_file(levels, level_resolution, format, tile_size)
    }

    /// Whether the smaller levels of an image can be made, and a file of them all.
    pub fn can_create_with_mips(
        base: &[u8],
        width: u32,
        height: u32,
        format: PixelFormat,
        tile_size: PowerOfTwo<u32>,
        wrap_mode: WrapMode,
    ) -> (can: bool)
        ensures
            can == (base_level(base@, width, height, format).is_sized() && (width > 1 || height > 1
                ==> base_level(base@, width, height, format).can_be_halved(wrap_mode))
                && mip_pyramid(
                base@,
                width,
                height,
                format,
                tile_size.value(),
                wrap_mode,
            ).can_be_stored()),
            // an image of common size is never refused
            (format == PixelFormat::Luma8 || format == PixelFormat::Rgb8 || format
                == PixelFormat::Rgba8) && 1 <= width <= 16384 && 1 <= height <= 16384 && base@.len()
                == width * height * format.stride() && tile_size.value() == 64 ==> can,
    {
        proof {
            if (format == PixelFormat::Luma8 || format == PixelFormat::Rgb8 || format
                == PixelFormat::Rgba8) && 1 <= width <= 16384 && 1 <= height <= 16384 && base@.len()
                == width * height * format.stride() && tile_size.value() == 64 {
                law_common_image_can_be_stored(base@, width, height, format, wrap_mode);
            }
        }
        if !can_build_mips(base, width, height, format.texel_bytes(), wrap_mode) {
            return false;
        }
        let (levels, level_resolution) = build_mips(
            base,
            width,
            height,
            format.texel_bytes(),
            wrap_mode,
        );
        TiledImage::can_create(&levels, &level_resolution, format, tile_size)
    }

    /// Makes the smaller levels of an image and appends the file that holds them all.
    pub fn create_with_mips(
        base: &[u8],
        width: u32,
        height: u32,
        format: PixelFormat,
        tile_size: PowerOfTwo<u32>,
        wrap_mode: WrapMode,
        writer: &mut Vec<u8>,
    )
        requires
            base_level(base@, width, height, format).is_sized(),
            width > 1 || height > 1 ==> base_level(base@, width, height, format).can_be_halved(
                wrap_mode,
            ),
            mip_pyramid(
                base@,
                width,
                height,
                format,
                tile_size.value(),
                wrap_mode,
            ).can_be_stored(),
        ensures
            final(writer)@ == old(writer)@ + mip_pyramid(
                base@,
                width,
                height,
                format,
                tile_size.value(),
                wrap_mode,
            ).file(),
    {
        let (levels, level_resolution) = build_mips(
            base,
            width,
            height,
            format.texel_bytes(),
            wrap_mode,
        );
        TiledImage::create(levels, level_resolution, format, tile_size, writer);
    }

    /// If the texel for the given coordinate is available from the top few pyramid levels that
    /// are stored in the file's header and were loaded, this returns its bytes.
    pub fn get_texel(&self, x: u32, y: u32, level: u32) -> (texel: Option<&[u8]>)
        requires
            self@.is_consistent(),
            level >= self@.first_in_memory_level ==> self@.has_in_memory(
                x as nat,
                y as nat,
                level as int,
            ),
        ensures
            match texel {
                Some(bytes) => level >= self@.first_in_memory_level && bytes@
                    == self@.in_memory_texel(x as nat, y as nat, level as int) && bytes@.len()
                    == self@.format.stride(),
                None => level < self@.first_in_memory_level,
            },
    {
        if level < self.first_in_memory_level {
            return None;
        }
        let texels: &Vec<u8> = &self.in_memory_levels[(level - self.first_in_memory_level) as usize];
        let extent: Extent = self.level_resolution[level as usize];
        let width: u32 = extent.width;
        let stride: usize = self.format.texel_bytes();
        proof {
            assert(self@.extents[level as int] == extent);
            let number = y * width + x;
            let count = width * extent.height;
            assert(number * stride + stride <= count * stride) by (nonlinear_arith)
                requires
                    number + 1 <= count,
            ;
            assert(0 <= y * width) by (nonlinear_arith);
            assert(0 <= number * stride) by (nonlinear_arith)
                requires
                    0 <= number,
            ;
        }
        let len: usize = texels.len();
        let start: usize = (y * width + x) as usize * stride;
        let end: usize = start + stride;
        Some(vstd::slice::slice_subrange(texels.as_slice(), start, end))
    }

    /// Two to the power of the logarithm of the tile size.
    fn tile_width(&self) -> (width: u32)
        requires
            self@.log_tile_size < 32,
        ensures
            width == self@.tile_size(),
            width > 0,
    {
        proof {
            vstd::bits::lemma_u32_pow2_no_overflow(self.log_tile_size as nat);
            vstd::bits::lemma_u32_shl_is_mul(1, self.log_tile_size);
        }
        1u32 << self.log_tile_size
    }

    /// The total number of bytes needed to store all of the texels in a single tile of the image.
    pub fn tile_bytes(&self) -> (bytes: usize)
        requires
            self@.tile_bytes() <= usize::MAX,
            self@.log_tile_size < usize::BITS,
        ensures
            bytes == self@.tile_bytes(),
    {
        let shift: usize = self.log_tile_size as usize;
        proof {
            vstd::bits::lemma_usize_pow2_no_overflow(self.log_tile_size as nat);
            vstd::bits::lemma_usize_shl_is_mul(1, shift);
            let side = self@.tile_size();
            let stride = self@.format.stride();
            assert(side * side <= side * side * stride) by (nonlinear_arith)
                requires
                    stride >= 1,
            ;
        }
        (1usize << shift) * (1usize << shift) * self.format.texel_bytes()
    }

    /// Given a pixel coordinate (`x`, `y`), the coordinates of the tile that holds the pixel.
    pub fn tile_index(&self, x: u32, y: u32) -> (tile: (u32, u32))
        requires
            self@.log_tile_size < 32,
        ensures
            tile.0 == x as nat / self@.tile_size(),
            tile.1 == y as nat / self@.tile_size(),
    {
        proof {
            vstd::bits::lemma_u32_shr_is_div(x, self.log_tile_size);
            vstd::bits::lemma_u32_shr_is_div(y, self.log_tile_size);
        }
        let tile_x: u32 = x >> self.log_tile_size;
        let tile_y: u32 = y >> self.log_tile_size;
        (tile_x, tile_y)
    }

    /// Given a pixel coordinate (`x`, `y`), the offset of the pixel within its tile.
    pub fn texel_offset(&self, x: u32, y: u32) -> (offset: usize)
        requires
            self@.log_tile_size < 32,
            self@.texel_in_tile(x as nat, y as nat) <= u32::MAX,
            self@.texel_offset(x as nat, y as nat) <= usize::MAX,
        ensures
            offset == self@.texel_offset(x as nat, y as nat),
    {
        let tile_width: u32 = self.tile_width();
        let tile_mask: u32 = tile_width - 1;
        proof {
            vstd::bits::lemma_u32_low_bits_mask_is_mod(x, self.log_tile_size as nat);
            vstd::bits::lemma_u32_low_bits_mask_is_mod(y, self.log_tile_size as nat);
            assert(tile_mask == vstd::bits::low_bits_mask(self.log_tile_size as nat));
            assert((y as nat % self@.tile_size()) * tile_width >= 0) by (nonlinear_arith)
                requires
                    y as nat % self@.tile_size() >= 0,
            ;
        }
        let column: u32 = x & tile_mask;
        let row: u32 = y & tile_mask;
        self.format.texel_bytes() * (row * tile_width + column) as usize
    }

    /// The offset in the file where the tile at coordinates (`tile_x`, `tile_y`) of a level
    /// starts.
    pub fn file_offset(&self, tile_x: u32, tile_y: u32, level: u32) -> (offset: usize)
        requires
            self@.can_address(tile_x as nat, tile_y as nat, level as int),
        ensures
            offset == self@.file_offset(tile_x as nat, tile_y as nat, level as int),
    {
        let tile_width: u32 = self.tile_width();
        let base_offset: usize = self.level_offset[level as usize];
        let extent: Extent = self.level_resolution[level as usize];
        let x_tiles: u32 = count_tiles(extent.width, tile_width, self.log_tile_size);
        proof {
            assert(self@.extents[level as int] == extent);
            assert(0 <= tile_y * x_tiles) by (nonlinear_arith);
            let number = self@.tile_number(tile_x as nat, tile_y as nat, level as int);
            assert(self@.tile_disk_bytes() * number >= 0) by (nonlinear_arith);
        }
        base_offset + self.tile_disk_bytes() * (tile_y * x_tiles + tile_x) as usize
    }

    /// Whether a tile of a level can be addressed.
    pub fn can_address(&self, tile_x: u32, tile_y: u32, level: u32) -> (can: bool)
        ensures
            can == self@.can_address(tile_x as nat, tile_y as nat, level as int),
    {
        if self.log_tile_size >= 32 || level as u64 >= self.level_resolution.len() as u64
            || self.level_offset.len() != self.level_resolution.len() {
            return false;
        }
        let side: u128 = self.tile_width() as u128;
        let extent: Extent = self.level_resolution[level as usize];
        let base_offset: usize = self.level_offset[level as usize];
        assert(self@.extents[level as int] == extent);
        if extent.width as u128 + side > u32::MAX as u128 {
            return false;
        }
        let x_tiles: u128 = (extent.width as u128 + side - 1) / side;
        assert(x_tiles <= 0xffff_ffff) by (nonlinear_arith)
            requires
                extent.width + side <= 0xffff_ffff,
                side >= 1,
                x_tiles == (extent.width + side - 1) as int / side as int,
        ;
        assert(tile_y * x_tiles <= 0xffff_ffff * 0xffff_ffff) by (nonlinear_arith)
            requires
                x_tiles <= 0xffff_ffff,
        ;
        let number: u128 = tile_y as u128 * x_tiles + tile_x as u128;
        if number > u32::MAX as u128 {
            return false;
        }
        assert(side * side <= 0xffff_ffff * 0xffff_ffff) by (nonlinear_arith)
            requires
                side <= 0xffff_ffff,
        ;
        let texels: u128 = side * side;
        let stride: u128 = self.format.texel_bytes() as u128;
        assert(texels * stride <= 0xffff_ffff * 0xffff_ffff * 16) by (nonlinear_arith)
            requires
                texels <= 0xffff_ffff * 0xffff_ffff,
                stride <= 16,
        ;
        let tile_bytes: u128 = texels * stride;
        let alignment: u128 = TILE_DISK_ALIGNMENT as u128;
        let tile_disk_bytes: u128 = (tile_bytes + alignment - 1) / alignment * alignment;
        assert(tile_disk_bytes == self@.tile_disk_bytes());
        if tile_disk_bytes > usize::MAX as u128 {
            return false;
        }
        assert(tile_disk_bytes * number <= 0xffff_ffff_ffff_ffff * 0xffff_ffff) by (nonlinear_arith)
            requires
                tile_disk_bytes <= 0xffff_ffff_ffff_ffff,
                number <= 0xffff_ffff,
        ;
        base_offset as u128 + tile_disk_bytes * number <= usize::MAX as u128
    }

    /// Whether the bytes of a tile can be counted.
    pub fn has_tile_bytes(&self) -> (has: bool)
        ensures
            has == (self@.tile_bytes() <= usize::MAX && self@.log_tile_size < usize::BITS),
    {
        let log: u32 = self.log_tile_size;
        if log >= usize::BITS {
            return false;
        }
        let ghost side = self@.tile_size();
        let ghost wide = self@.format.stride();
        proof {
            vstd::arithmetic::power2::lemma2_to64();
            vstd::arithmetic::power2::lemma2_to64_rest();
            if log > 32 {
                vstd::arithmetic::power2::lemma_pow2_strictly_increases(32, log as nat);
            }
        }
        if log >= 32 {
            proof {
                assert(side * side * wide >= 0x1_0000_0000 * 0x1_0000_0000) by (nonlinear_arith)
                    requires
                        side >= 0x1_0000_0000,
                        wide >= 1,
                ;
            }
            return false;
        }
        let width: u128 = self.tile_width() as u128;
        let stride: u128 = self.format.texel_bytes() as u128;
        assert(width * width <= 0xffff_ffff * 0xffff_ffff) by (nonlinear_arith)
            requires
                width <= 0xffff_ffff,
        ;
        let texels: u128 = width * width;
        assert(texels * stride <= 0xffff_ffff * 0xffff_ffff * 16) by (nonlinear_arith)
            requires
                texels <= 0xffff_ffff * 0xffff_ffff,
                stride <= 16,
        ;
        texels * stride <= usize::MAX as u128
    }

    /// Whether the place of a texel in its tile can be given.
    pub fn has_texel_offset(&self, x: u32, y: u32) -> (has: bool)
        ensures
            has == (self@.log_tile_size < 32 && self@.texel_in_tile(x as nat, y as nat) <= u32::MAX
                && self@.texel_offset(x as nat, y as nat) <= usize::MAX),
    {
        if self.log_tile_size >= 32 {
            return false;
        }
        let width: u128 = self.tile_width() as u128;
        let row: u128 = y as u128 % width;
        assert(row * width <= 0xffff_ffff * 0xffff_ffff) by (nonlinear_arith)
            requires
                row <= 0xffff_ffff,
                width <= 0xffff_ffff,
        ;
        let number: u128 = row * width + x as u128 % width;
        if number > u32::MAX as u128 {
            return false;
        }
        let stride: u128 = self.format.texel_bytes() as u128;
        assert(stride * number <= 16 * 0xffff_ffff) by (nonlinear_arith)
            requires
                number <= 0xffff_ffff,
                stride <= 16,
        ;
        stride * number <= usize::MAX as u128
    }

    /// Whether a texel is in a level that is kept in memory.
    pub fn has_in_memory(&self, x: u32, y: u32, level: u32) -> (has: bool)
        ensures
            has == self@.has_in_memory(x as nat, y as nat, level as int),
    {
        if level < self.first_in_memory_level || level as u64
            >= self.level_resolution.len() as u64 {
            return false;
        }
        let Extent { width, height } = self.level_resolution[level as usize];
        assert(self@.extents[level as int] == self.level_resolution@[level as int]);
        assert(y * width <= 0xffff_ffff * 0xffff_ffff) by (nonlinear_arith)
            requires
                y <= 0xffff_ffff,
                width <= 0xffff_ffff,
        ;
        assert(width * height <= 0xffff_ffff * 0xffff_ffff) by (nonlinear_arith)
            requires
                height <= 0xffff_ffff,
                width <= 0xffff_ffff,
        ;
        y as u64 * width as u64 + (x as u64) < width as u64 * height as u64
    }

    /// The number of bytes that each tile uses in the file, accounting for the alignment.
    fn tile_disk_bytes(&self) -> (bytes: usize)
        requires
            self@.log_tile_size < 32,
            self@.tile_disk_bytes() <= usize::MAX,
        ensures
            bytes == self@.tile_disk_bytes(),
    {
        align_up(self.tile_bytes())
    }

    /// Whether [`TiledImage::get_level`] can be asked for a level: the level is there, and its sizes
    /// fit.
    pub fn can_get_level(&self, level: u32) -> (can: bool)
        ensures
            can == self@.can_get_level(level as int),
    {
        if !self.can_address(0, 0, level) {
            return false;
        }
        let Extent { width, height } = self.level_resolution[level as usize];
        assert(self@.extents[level as int] == self.level_resolution@[level as int]);
        assert(width * height <= 0xffff_ffff * 0xffff_ffff) by (nonlinear_arith)
            requires
                height <= 0xffff_ffff,
                width <= 0xffff_ffff,
        ;
        let texels: u64 = width as u64 * height as u64;
        let stride: u64 = self.format.texel_bytes() as u64;
        if texels > u32::MAX as u64 {
            return false;
        }
        assert(texels * stride <= 0xffff_ffff * 16) by (nonlinear_arith)
            requires
                texels <= 0xffff_ffff,
                stride <= 16,
        ;
        texels * stride <= usize::MAX as u64
    }

    /// Where the bytes of a level start in the file, and how many bytes its texels have.
    pub fn get_level(&self, level: u32) -> (span: (usize, usize))
        requires
            self@.can_get_level(level as int),
        ensures
            span.0 == self@.offsets[level as int],
            span.1 == self@.extents[level as int].width * self@.extents[level as int].height
                * self@.format.stride(),
    {
        let Extent { width, height } = self.level_resolution[level as usize];
        assert(self@.extents[level as int] == self.level_resolution@[level as int]);
        let bytes: usize = (width * height) as usize * self.format.texel_bytes();
        proof {
            let x_tiles = tiles_across(width as nat, self@.tile_size());
            assert(0 * x_tiles == 0);
            assert(self@.tile_disk_bytes() * 0 == 0);
        }
        (self.file_offset(0, 0, level), bytes)
    }
}

/// The bytes of a texel are among those of its tile.
pub proof fn lemma_texel_in_tile(image: ImageView, x: nat, y: nat)
    ensures
        image.texel_offset(x, y) + image.format.stride() <= image.tile_bytes(),
        image.texel_in_tile(x, y) < image.tile_size() * image.tile_size() <= image.tile_bytes(),
{
    let side = image.tile_size();
    let stride = image.format.stride();
    vstd::arithmetic::power2::lemma_pow2_pos(image.log_tile_size as nat);
    let (row, column) = (y % side, x % side);
    let number = image.texel_in_tile(x, y);
    assert(row * side + column < side * side) by (nonlinear_arith)
        requires
            row + 1 <= side,
            column < side,
    ;
    assert(stride * number + stride <= side * side * stride) by (nonlinear_arith)
        requires
            number + 1 <= side * side,
    ;
    assert(side * side <= side * side * stride) by (nonlinear_arith)
        requires
            stride >= 1,
    ;
}

/// Where a texel stands in its tile: two texels of one tile stand at the same place only if they are
/// the same texel; and texels that are whole tiles apart stand at the same place.
pub proof fn law_texel_offsets(image: ImageView, x: nat, y: nat, other_x: nat, other_y: nat)
    ensures
        image.texel_offset(x, y) + image.format.stride() <= image.tile_bytes(),
        x / image.tile_size() == other_x / image.tile_size() && y / image.tile_size() == other_y
            / image.tile_size() ==> (image.texel_offset(x, y) == image.texel_offset(
            other_x,
            other_y,
        ) <==> x == other_x && y == other_y),
        image.texel_offset(x + other_x * image.tile_size(), y + other_y * image.tile_size())
            == image.texel_offset(x, y),
{
    let side = image.tile_size();
    let stride = image.format.stride();
    lemma_texel_in_tile(image, x, y);
    vstd::arithmetic::power2::lemma_pow2_pos(image.log_tile_size as nat);
    vstd::arithmetic::div_mod::lemma_mod_multiples_vanish(other_x as int, x as int, side as int);
    vstd::arithmetic::div_mod::lemma_mod_multiples_vanish(other_y as int, y as int, side as int);
    assert(other_x * side == side * other_x) by (nonlinear_arith);
    assert(other_y * side == side * other_y) by (nonlinear_arith);
    if x / side == other_x / side && y / side == other_y / side && image.texel_offset(x, y)
        == image.texel_offset(other_x, other_y) {
        let (a, b) = (image.texel_in_tile(x, y), image.texel_in_tile(other_x, other_y));
        assert(a == b) by (nonlinear_arith)
            requires
                stride * a == stride * b,
                stride >= 1,
        ;
        vstd::arithmetic::div_mod::lemma_fundamental_div_mod_converse(
            a as int,
            side as int,
            (y % side) as int,
            (x % side) as int,
        );
        vstd::arithmetic::div_mod::lemma_fundamental_div_mod_converse(
            b as int,
            side as int,
            (other_y % side) as int,
            (other_x % side) as int,
        );
        vstd::arithmetic::div_mod::lemma_fundamental_div_mod(x as int, side as int);
        vstd::arithmetic::div_mod::lemma_fundamental_div_mod(other_x as int, side as int);
        vstd::arithmetic::div_mod::lemma_fundamental_div_mod(y as int, side as int);
        vstd::arithmetic::div_mod::lemma_fundamental_div_mod(other_y as int, side as int);
    }
}

} // verus!
