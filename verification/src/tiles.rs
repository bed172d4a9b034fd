//! The square tiles of an image level.
use crate::texel::Texel;
use vstd::prelude::*;

verus! {

/// The width and the height of an image level, in texels.
#[derive(Copy, Clone, Debug, PartialEq, Eq, Structural)]
pub struct Extent {
    pub width: u32,
    pub height: u32,
}

impl Extent {
    pub fn new(width: u32, height: u32) -> (extent: Self)
        ensures
            extent == (Extent { width, height }),
    {
        Extent { width, height }
    }
}

/// A tile of an image level. Within a tile, texels are laid out in scanline order.
#[derive(Debug, PartialEq)]
pub struct Tile<'a> {
    pub scanlines: Vec<&'a [u8]>,
}

impl<'a> View for Tile<'a> {
    type V = Seq<Seq<u8>>;

    /// The bytes of each scanline, from the top down.
    open spec fn view(&self) -> Seq<Seq<u8>> {
        Seq::new(self.scanlines@.len(), |i: int| self.scanlines@[i]@)
    }
}

/// An image level, the side of its tiles, and where the next tile begins.
pub struct TilesView {
    pub data: Seq<u8>,
    pub width: nat,
    pub height: nat,
    pub stride: nat,
    pub tile_size: nat,
    pub x: nat,
    pub y: nat,
}

pub open spec fn min(a: nat, b: nat) -> nat {
    if a <= b {
        a
    } else {
        b
    }
}

impl TilesView {
    /// `count` texels of scanline `y`, from column `x` on.
    pub open spec fn texels(self, x: nat, y: nat, count: nat) -> Seq<u8> {
        let start = (y * self.width + x) * self.stride;
        self.data.subrange(start as int, (start + count * self.stride) as int)
    }

    /// The part of the level that the tile at (`x`, `y`) covers: as many scanlines and columns as
    /// the tile has, or as the level has left.
    pub open spec fn tile(self, x: nat, y: nat) -> Seq<Seq<u8>> {
        Seq::new(
            min(self.tile_size, (self.height - y) as nat),
            |i: int| self.texels(x, (y + i) as nat, min(self.tile_size, (self.width - x) as nat)),
        )
    }

    /// The same level, with the next tile at (`x`, `y`).
    pub open spec fn at(self, x: nat, y: nat) -> TilesView {
        TilesView { x, y, ..self }
    }

    /// Past the end of a row of tiles, the next row begins.
    pub open spec fn wrapped(self) -> TilesView {
        if self.x >= self.width {
            self.at(0, self.y + self.tile_size)
        } else {
            self
        }
    }

    /// Whether the next step finds a tile.
    pub open spec fn has_next(self) -> bool {
        self.wrapped().y < self.height
    }

    /// The next tile, and the state that follows it.
    pub open spec fn step(self) -> (Option<Seq<Seq<u8>>>, TilesView) {
        let here = self.wrapped();
        if self.has_next() {
            (Some(self.tile(here.x, here.y)), here.at(here.x + self.tile_size, here.y))
        } else {
            (None, here)
        }
    }

    /// Whether the coordinates of the next step stay within 32 bits.
    pub open spec fn step_fits(self) -> bool {
        let here = self.wrapped();
        &&& here.y <= u32::MAX
        &&& self.has_next() ==> here.x + self.tile_size <= u32::MAX && here.y + self.tile_size
            <= u32::MAX + 1
    }

    /// All the tiles that are still to come: left to right, top to bottom.
    pub open spec fn rest(self) -> Seq<Seq<Seq<u8>>>
        decreases
                if self.y < self.height {
                    (self.height - self.y) as nat
                } else {
                    0
                },
                if self.x < self.width {
                    (self.width - self.x) as nat
                } else {
                    0
                },
    {
        if self.tile_size > 0 && self.has_next() {
            let here = self.wrapped();
            seq![self.tile(here.x, here.y)] + here.at(here.x + self.tile_size, here.y).rest()
        } else {
            Seq::empty()
        }
    }
}

/// The tiles of an image level, one at a time: left to right, top to bottom.
pub struct Tiles<'a> {
    // source data descriptors
    data: &'a [u8],
    width: u32,
    height: u32,
    scanline_stride: usize,
    // tile descriptors
    tile_size: u32,
    texel_stride: usize,
    // iterator state
    x_begin: u32,
    y_begin: u32,
}

impl<'a> View for Tiles<'a> {
    type V = TilesView;

    closed spec fn view(&self) -> TilesView {
        TilesView {
            data: self.data@,
            width: self.width as nat,
            height: self.height as nat,
            stride: self.texel_stride as nat,
            tile_size: self.tile_size as nat,
            x: self.x_begin as nat,
            y: self.y_begin as nat,
        }
    }
}

pub proof fn lemma_texels_in_bounds(
    width: nat,
    height: nat,
    stride: nat,
    x: nat,
    y: nat,
    count: nat,
)
    requires
        y < height,
        x + count <= width,
    ensures
        y * (width * stride) + x * stride == (y * width + x) * stride,
        (y * width + x) * stride + count * stride <= width * height * stride,
        0 <= y * (width * stride),
        0 <= x * stride,
        0 <= count * stride,
{
    assert(0 <= y * (width * stride)) by (nonlinear_arith);
    assert(0 <= x * stride) by (nonlinear_arith);
    assert(0 <= count * stride) by (nonlinear_arith);
    assert(y * (width * stride) + x * stride == (y * width + x) * stride) by (nonlinear_arith);
    assert((y * width + x) * stride + count * stride == (y * width + x + count) * stride)
        by (nonlinear_arith);
    assert(y * width + width <= width * height) by (nonlinear_arith)
        requires
            y < height,
    ;
    assert((y * width + x + count) * stride <= width * height * stride) by (nonlinear_arith)
        requires
            y * width + x + count <= width * height,
    ;
}

/// A tile has no more scanlines than its side, and none longer than its side.
pub proof fn lemma_tile_shape(tiles: TilesView, x: nat, y: nat)
    requires
        tiles.width * tiles.height * tiles.stride == tiles.data.len(),
        y < tiles.height,
        x <= tiles.width,
    ensures
        tiles.tile(x, y).len() <= tiles.tile_size,
        forall|i: int|
            0 <= i < tiles.tile(x, y).len() ==> (#[trigger] tiles.tile(x, y)[i]).len() == min(
                tiles.tile_size,
                (tiles.width - x) as nat,
            ) * tiles.stride && tiles.tile(x, y)[i].len() <= tiles.tile_size * tiles.stride,
{
    let count = min(tiles.tile_size, (tiles.width - x) as nat);
    assert(count * tiles.stride <= tiles.tile_size * tiles.stride) by (nonlinear_arith)
        requires
            count <= tiles.tile_size,
    ;
    assert forall|i: int| 0 <= i < tiles.tile(x, y).len() implies (#[trigger] tiles.tile(
        x,
        y,
    )[i]).len() == count * tiles.stride by {
        lemma_texels_in_bounds(
            tiles.width,
            tiles.height,
            tiles.stride,
            x,
            (y + i) as nat,
            count,
        );
    }
}

impl<'a> Tiles<'a> {
    #[verifier::type_invariant]
    spec fn data_matches(self) -> bool {
        &&& self.width * self.height * self.texel_stride == self.data@.len()
        &&& self.scanline_stride == self.width * self.texel_stride
    }

    /// The tiles of `data`, which holds `width * height` texels.
    pub fn new<T: Texel>(data: &'a [u8], width: u32, height: u32, tile_size: u32) -> (tiles: Self)
        requires
            width * height <= u32::MAX,
            width * height * T::STRIDE == data@.len(),
            width * T::STRIDE <= usize::MAX,
        ensures
            tiles@ == (TilesView {
                data: data@,
                width: width as nat,
                height: height as nat,
                stride: T::STRIDE as nat,
                tile_size: tile_size as nat,
                x: 0,
                y: 0,
            }),
    {
        Tiles {
            data,
            width,
            height,
            scanline_stride: width as usize * T::STRIDE,
            tile_size,
            texel_stride: T::STRIDE,
            x_begin: 0,
            y_begin: 0,
        }
    }

    /// The next tile, if any is left.
    pub fn next(&mut self) -> (tile: Option<Tile<'a>>)
        requires
            old(self)@.step_fits(),
        ensures
            final(self)@ == old(self)@.step().1,
            match (tile, old(self)@.step().0) {
                (Some(t), Some(scanlines)) => t@ == scanlines,
                (None, None) => true,
                _ => false,
            },
    {
        proof {
            use_type_invariant(&*self);
        }
        if self.x_begin >= self.width {
            self.x_begin = 0;
            self.y_begin = self.y_begin + self.tile_size;
        }
        if self.y_begin >= self.height {
            return None;
        }
        let mut scanlines: Vec<&'a [u8]> = Vec::new();
        let left: u32 = if self.x_begin < self.width {
            self.width - self.x_begin
        } else {
            0
        };
        let columns: u32 = if self.tile_size <= left {
            self.tile_size
        } else {
            left
        };
        let len: usize = self.data.len();
        let mut scanline: u32 = 0;
        while scanline < self.tile_size
            invariant
                self.width * self.height * self.texel_stride == self.data@.len() == len,
                self.scanline_stride == self.width * self.texel_stride,
                self.y_begin < self.height,
                scanline <= self.tile_size,
                self.y_begin + self.tile_size <= u32::MAX + 1,
                self.x_begin + columns <= self.width,
                scanlines@.len() == min(scanline as nat, (self.height - self.y_begin) as nat),
                forall|i: int|
                    0 <= i < scanlines@.len() ==> #[trigger] scanlines@[i]@ == self@.texels(
                        self.x_begin as nat,
                        (self.y_begin + i) as nat,
                        columns as nat,
                    ),
            decreases self.tile_size - scanline,
        {
            let y: u32 = self.y_begin + scanline;
            if y < self.height {
                proof {
                    lemma_texels_in_bounds(
                        self.width as nat,
                        self.height as nat,
                        self.texel_stride as nat,
                        self.x_begin as nat,
                        y as nat,
                        columns as nat,
                    );
                }
                let start: usize = y as usize * self.scanline_stride + self.x_begin as usize
                    * self.texel_stride;
                let end: usize = start + columns as usize * self.texel_stride;
                scanlines.push(vstd::slice::slice_subrange(self.data, start, end));
            }
            scanline = scanline + 1;
        }
        self.x_begin = self.x_begin + self.tile_size;
        let tile = Tile { scanlines };
        assert(tile@ =~= old(self)@.step().0->0);
        Some(tile)
    }
}

} // verus!
