//! Real lighting over one chunk column: a snapshot of the column's opacity
//! and emission, run through [`compute_light`], answering block and sky light
//! in world coordinates. Working one column at a time, light does not bleed
//! across chunk borders.

use vstd::prelude::*;
use crate::light::{
    cell3, in_box, least_lit, light_volume, LightGrid, LightMedium, LightView, LightVolume, MAX_LIGHT,
};

verus! {

/// Opacity and emission snapshot of one chunk column, sized
/// `width × height × depth` with local `y = 0` at the bottom of the band.
pub struct ColumnMedium {
    vol: LightVolume,
}

impl ColumnMedium {
    /// The snapshot being filled.
    pub closed spec fn volume_of(&self) -> LightVolume {
        self.vol
    }

    /// An all-transparent, dark column of the given size.
    pub fn new(width: usize, height: usize, depth: usize) -> (m: Self)
        requires
            width * height <= usize::MAX,
            width * height * depth <= usize::MAX,
        ensures
            m.volume_of().extent() == (width, height, depth),
            forall|x: int, y: int, z: int|
                in_box(m.volume_of().extent(), x, y, z) ==> !m.volume_of().opaque_at(x, y, z)
                    && m.volume_of().emission_at(x, y, z) == 0,
    {
        ColumnMedium { vol: LightVolume::new(width, height, depth) }
    }

    /// Record the opacity and emission of local `(x, y, z)`.
    pub fn set(&mut self, x: usize, y: usize, z: usize, opaque: bool, emission: u8)
        requires
            in_box(old(self).volume_of().extent(), x as int, y as int, z as int),
        ensures
            final(self).volume_of().extent() == old(self).volume_of().extent(),
            forall|x2: int, y2: int, z2: int|
                in_box(old(self).volume_of().extent(), x2, y2, z2) ==> final(self).volume_of().opaque_at(
                    x2,
                    y2,
                    z2,
                ) == (if x2 == x && y2 == y && z2 == z {
                    opaque
                } else {
                    old(self).volume_of().opaque_at(x2, y2, z2)
                }) && final(self).volume_of().emission_at(x2, y2, z2) == (if x2 == x && y2 == y && z2
                    == z {
                    emission
                } else {
                    old(self).volume_of().emission_at(x2, y2, z2)
                }),
    {
        self.vol.set(x, y, z, opaque, emission);
    }
}

impl LightMedium for ColumnMedium {
    open spec fn spec_dims(&self) -> (usize, usize, usize) {
        self.volume_of().extent()
    }

    open spec fn spec_opaque(&self, x: int, y: int, z: int) -> bool {
        in_box(self.volume_of().extent(), x, y, z) && self.volume_of().opaque_at(x, y, z)
    }

    open spec fn spec_emission(&self, x: int, y: int, z: int) -> u8 {
        if in_box(self.volume_of().extent(), x, y, z) {
            self.volume_of().emission_at(x, y, z)
        } else {
            0u8
        }
    }

    fn dims(&self) -> (r: (usize, usize, usize))
        ensures
            r == self.volume_of().extent(),
    {
        self.vol.dims()
    }

    fn opaque(&self, x: usize, y: usize, z: usize) -> (r: bool)
        ensures
            r == (in_box(self.volume_of().extent(), x as int, y as int, z as int) && self.volume_of().opaque_at(
                x as int,
                y as int,
                z as int,
            )),
    {
        LightMedium::opaque(&self.vol, x, y, z)
    }

    fn emission(&self, x: usize, y: usize, z: usize) -> (r: u8)
        ensures
            r == (if in_box(self.volume_of().extent(), x as int, y as int, z as int) {
                self.volume_of().emission_at(x as int, y as int, z as int)
            } else {
                0u8
            }),
    {
        LightMedium::emission(&self.vol, x, y, z)
    }
}

/// Computed light for one chunk column, queryable in world coordinates.
///
/// Coordinates outside this column's footprint or vertical band read as
/// fully dark for block light; sky light reads as [`MAX_LIGHT`] above the
/// band (open sky) and dark below it.
pub struct ColumnLight {
    cx: i32,
    cz: i32,
    base_y: i32,
    grid: LightGrid,
}

impl ColumnLight {
    /// The light table is well formed.
    #[verifier::type_invariant]
    spec fn sound(&self) -> bool {
        &&& self.grid.wf()
    }

    /// Chunk column x.
    pub closed spec fn chunk_x(&self) -> i32 {
        self.cx
    }

    /// Chunk column z.
    pub closed spec fn chunk_z(&self) -> i32 {
        self.cz
    }

    /// World `y` of the bottom of the lit band.
    pub closed spec fn band_base(&self) -> i32 {
        self.base_y
    }

    /// The computed light table, in local coordinates.
    pub closed spec fn table(&self) -> LightGrid {
        self.grid
    }

    /// Local coordinates of world `(x, y, z)`.
    pub open spec fn local_of(&self, x: i32, y: i32, z: i32) -> (int, int, int) {
        (x - self.chunk_x() * 16, y - self.band_base(), z - self.chunk_z() * 16)
    }

    /// World `(x, y, z)` falls inside this column's band.
    pub open spec fn covers(&self, x: i32, y: i32, z: i32) -> bool {
        let l = self.local_of(x, y, z);
        in_box(self.table().extent(), l.0, l.1, l.2)
    }

    /// Light the column `(cx, cz)` whose band starts at world `base_y`.
    pub fn new(cx: i32, cz: i32, base_y: i32, medium: &ColumnMedium) -> (r: Self)
        ensures
            r.chunk_x() == cx,
            r.chunk_z() == cz,
            r.band_base() == base_y,
            r.table().extent() == medium.volume_of().extent(),
            least_lit(&medium.volume_of(), false, r.table().block_seq()),
            least_lit(&medium.volume_of(), true, r.table().sky_seq()),
    {
        Self { cx, cz, base_y, grid: light_volume(&medium.vol) }
    }

    /// The chunk column `(cx, cz)` this light covers.
    pub fn column(&self) -> (r: (i32, i32))
        ensures
            r == (self.chunk_x(), self.chunk_z()),
    {
        (self.cx, self.cz)
    }

    /// World `y` of the bottom of the lit band.
    pub fn base_y(&self) -> (r: i32)
        ensures
            r == self.band_base(),
    {
        self.base_y
    }

    /// Map world coordinates into local grid coordinates if they fall inside
    /// this column.
    fn local(&self, x: i32, y: i32, z: i32) -> (r: Option<(usize, usize, usize)>)
        ensures
            r == (if self.covers(x, y, z) {
                Some(
                    (
                        self.local_of(x, y, z).0 as usize,
                        self.local_of(x, y, z).1 as usize,
                        self.local_of(x, y, z).2 as usize,
                    ),
                )
            } else {
                None::<(usize, usize, usize)>
            }),
    {
        let (w, h, d) = self.grid.dims();
        let lx = (x as i64) - (self.cx as i64) * 16;
        let lz = (z as i64) - (self.cz as i64) * 16;
        let ly = (y as i64) - (self.base_y as i64);
        if lx < 0 || lz < 0 || ly < 0 {
            return None;
        }
        if lx as u64 >= w as u64 || ly as u64 >= h as u64 || lz as u64 >= d as u64 {
            return None;
        }
        Some((lx as usize, ly as usize, lz as usize))
    }

    /// Whether world `y` lies above the top of the lit band (open sky).
    fn above_band(&self, y: i32) -> (r: bool)
        ensures
            r == (y >= self.band_base() + self.table().extent().1),
    {
        proof {
            use_type_invariant(self);
        }
        let (_w, h, _d) = self.grid.dims();
        let above = (y as i64) - (self.base_y as i64);
        above >= 0 && (above as u64) >= (h as u64)
    }
}

impl LightView for ColumnLight {
    fn block_light(&self, x: i32, y: i32, z: i32) -> (r: u8)
        ensures
            r == (if self.covers(x, y, z) {
                self.table().block_seq()[cell3(
                    self.table().extent(),
                    self.local_of(x, y, z).0,
                    self.local_of(x, y, z).1,
                    self.local_of(x, y, z).2,
                )]
            } else {
                0u8
            }),
    {
        proof {
            use_type_invariant(self);
        }
        match self.local(x, y, z) {
            Some((lx, ly, lz)) => self.grid.block_light(lx, ly, lz),
            None => 0,
        }
    }

    fn sky_light(&self, x: i32, y: i32, z: i32) -> (r: u8)
        ensures
            r == (if self.covers(x, y, z) {
                self.table().sky_seq()[cell3(
                    self.table().extent(),
                    self.local_of(x, y, z).0,
                    self.local_of(x, y, z).1,
                    self.local_of(x, y, z).2,
                )]
            } else if y >= self.band_base() + self.table().extent().1 {
                MAX_LIGHT
            } else {
                0u8
            }),
    {
        proof {
            use_type_invariant(self);
        }
        match self.local(x, y, z) {
            Some((lx, ly, lz)) => self.grid.sky_light(lx, ly, lz),
            None => {
                if self.above_band(y) {
                    MAX_LIGHT
                } else {
                    0
                }
            },
        }
    }
}

impl Clone for ColumnLight {
    fn clone(&self) -> (r: Self)
        ensures
            r.chunk_x() == self.chunk_x(),
            r.chunk_z() == self.chunk_z(),
            r.band_base() == self.band_base(),
            r.table().extent() == self.table().extent(),
            r.table().block_seq() == self.table().block_seq(),
            r.table().sky_seq() == self.table().sky_seq(),
    {
        proof {
            use_type_invariant(self);
        }
        ColumnLight { cx: self.cx, cz: self.cz, base_y: self.base_y, grid: self.grid.clone() }
    }
}

} // verus!
