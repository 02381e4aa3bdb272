use vstd::prelude::*;

verus! {

/// An image used as a texture: `nx` by `ny` pixels, three bytes (red, green, blue) each,
/// row after row.
#[derive(Clone, Debug)]
pub struct ImageTexture {
    data: Vec<u8>,
    nx: u32,
    ny: u32,
}

/// The position in the pixel bytes of the texel at column `i`, row `j` of an image `nx`
/// pixels wide, after both are clamped to the image.
pub open spec fn texel_offset(nx: int, ny: int, i: int, j: int) -> int {
    let ci = if i > nx - 1 {
        nx - 1
    } else {
        i
    };
    let cj = if j > ny - 1 {
        ny - 1
    } else {
        j
    };
    3 * ci + 3 * nx * cj
}

impl ImageTexture {
    pub fn new(data: Vec<u8>, nx: u32, ny: u32) -> (r: ImageTexture)
        ensures
            r.bytes() == data@,
            r.width() == nx,
            r.height() == ny,
    {
        ImageTexture { data, nx, ny }
    }

    pub closed spec fn bytes(&self) -> Seq<u8> {
        self.data@
    }

    pub closed spec fn width(&self) -> u32 {
        self.nx
    }

    pub closed spec fn height(&self) -> u32 {
        self.ny
    }

    /// The width in pixels.
    pub fn nx(&self) -> (r: u32)
        ensures
            r == self.width(),
    {
        self.nx
    }

    /// The height in pixels.
    pub fn ny(&self) -> (r: u32)
        ensures
            r == self.height(),
    {
        self.ny
    }

    /// The image has at least one pixel and holds the bytes of all of them.
    pub open spec fn wf(&self) -> bool {
        &&& self.width() >= 1
        &&& self.height() >= 1
        &&& 3 * (self.width() as int) * (self.height() as int) <= self.bytes().len()
    }

    /// Whether the image can be sampled.
    pub fn is_valid(&self) -> (r: bool)
        ensures
            r == self.wf(),
    {
        if self.nx == 0 || self.ny == 0 {
            return false;
        }
        assert((3 * (self.nx as u128) * (self.ny as u128)) as int <= 3 * 0xffff_ffffu128 * 0xffff_ffffu128)
            by (nonlinear_arith);
        let need: u128 = 3 * (self.nx as u128) * (self.ny as u128);
        need <= self.data.len() as u128
    }

    /// The red, green and blue bytes of the pixel at column `i`, row `j` (row 0 on top),
    /// each clamped to the last column or row.
    pub fn texel(&self, i: usize, j: usize) -> (r: (u8, u8, u8))
        requires
            self.wf(),
        ensures
            ({
                let o = texel_offset(self.width() as int, self.height() as int, i as int, j as int);
                r == (self.bytes()[o], self.bytes()[o + 1], self.bytes()[o + 2])
            }),
    {
        let nx = self.nx as usize;
        let ny = self.ny as usize;
        let len = self.data.len();
        let ci = if i > nx - 1 {
            nx - 1
        } else {
            i
        };
        let cj = if j > ny - 1 {
            ny - 1
        } else {
            j
        };
        proof {
            assert(3 * (ci as int) + 3 * (nx as int) * (cj as int) + 3 <= 3 * (nx as int) * (
            ny as int)) by (nonlinear_arith)
                requires
                    ci < nx,
                    cj < ny,
            ;
            assert(3 * (nx as int) <= 3 * (nx as int) * (ny as int)) by (nonlinear_arith)
                requires
                    ny >= 1,
            ;
            assert(0 <= 3 * (nx as int) * (cj as int)) by (nonlinear_arith);
            assert(3 * (nx as int) * (ny as int) <= len);
        }
        let idx = 3 * ci + 3 * nx * cj;
        (self.data[idx], self.data[idx + 1], self.data[idx + 2])
    }
}

} // verus!
