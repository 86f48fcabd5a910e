//! Owned pixel buffers: an RGB image and a single-channel mask.

use vstd::prelude::*;
use crate::grid::{Grid, lemma_cell_in_range};

verus! {

/// One pixel's red, green and blue channel.
#[derive(Clone, Copy, Debug, PartialEq, Eq, Structural)]
pub struct Rgb {
    pub r: u8,
    pub g: u8,
    pub b: u8,
}

/// A single-channel image of bytes. Used as a binary mask: 0 is clear, any
/// other value (255 by convention) is marked.
#[derive(Debug)]
pub struct Mask {
    width: u32,
    height: u32,
    data: Vec<u8>,
}

impl View for Mask {
    type V = Grid<u8>;

    closed spec fn view(&self) -> Grid<u8> {
        Grid { width: self.width as nat, height: self.height as nat, cells: self.data@ }
    }
}

impl Mask {
    #[verifier::type_invariant]
    pub closed spec fn well_formed(&self) -> bool {
        self.data@.len() == self.width * self.height
    }

    /// A buffer that keeps its invariant has a well-formed model.
    pub proof fn lemma_well_formed(&self)
        requires
            self.well_formed(),
        ensures
            self@.wf(),
            self@.width <= u32::MAX,
            self@.height <= u32::MAX,
            self@.width * self@.height <= usize::MAX,
    {
        vstd::std_specs::vec::axiom_spec_len(&self.data);
    }

    /// An all-clear mask of the given size.
    pub fn new(width: u32, height: u32) -> (out: Mask)
        requires
            width * height <= usize::MAX,
        ensures
            out@.wf(),
            out@.width == width,
            out@.height == height,
            forall|i: int| 0 <= i < out@.cells.len() ==> out@.cells[i] == 0,
    {
        assert(width * height == (width as usize) * (height as usize));
        let n: usize = (width as usize) * (height as usize);
        let data = vec![0u8; n];
        Mask { width, height, data }
    }

    /// Wraps a row-major byte buffer. `None` unless the buffer holds exactly
    /// `width * height` bytes.
    pub fn from_raw(width: u32, height: u32, data: Vec<u8>) -> (out: Option<Mask>)
        ensures
            out is Some <==> data@.len() == width * height,
            out matches Some(m) ==> m@ == (Grid { width: width as nat, height: height as nat, cells: data@ })
                && m@.wf(),
    {
        assert(width * height <= 0xFFFF_FFFF * 0xFFFF_FFFF) by (nonlinear_arith)
            requires
                0 <= width <= 0xFFFF_FFFF,
                0 <= height <= 0xFFFF_FFFF,
        ;
        let cells: u128 = (width as u128) * (height as u128);
        if data.len() as u128 == cells {
            Some(Mask { width, height, data })
        } else {
            None
        }
    }

    pub fn width(&self) -> (w: u32)
        ensures
            w == self@.width,
            self@.wf(),
            self@.width * self@.height <= usize::MAX,
    {
        proof {
            use_type_invariant(self);
            self.lemma_well_formed();
        }
        self.width
    }

    pub fn height(&self) -> (h: u32)
        ensures
            h == self@.height,
            self@.wf(),
            self@.width * self@.height <= usize::MAX,
    {
        proof {
            use_type_invariant(self);
            self.lemma_well_formed();
        }
        self.height
    }

    /// The value at column `x`, row `y`.
    pub fn get(&self, x: u32, y: u32) -> (v: u8)
        requires
            self@.inside(x as int, y as int),
        ensures
            v == self@.at(x as int, y as int),
    {
        proof {
            use_type_invariant(self);
            self.lemma_well_formed();
            lemma_cell_in_range(self.width as int, self.height as int, x as int, y as int);
        }
        let i: usize = (y as usize) * (self.width as usize) + (x as usize);
        self.data[i]
    }

    /// Overwrites the value at column `x`, row `y`.
    pub fn put(&mut self, x: u32, y: u32, value: u8)
        requires
            old(self)@.inside(x as int, y as int),
        ensures
            final(self)@ == old(self)@.put(x as int, y as int, value),
            final(self)@.wf(),
            final(self)@.same_shape(old(self)@),
            final(self)@.at(x as int, y as int) == value,
            forall|i: int, j: int|
                old(self)@.inside(i, j) && !(i == x && j == y) ==> #[trigger] final(self)@.at(i, j) == old(
                    self,
                )@.at(i, j),
    {
        proof {
            use_type_invariant(&*self);
            self.lemma_well_formed();
            lemma_cell_in_range(self.width as int, self.height as int, x as int, y as int);
            self@.lemma_put(x as int, y as int, value);
        }
        let i: usize = (y as usize) * (self.width as usize) + (x as usize);
        self.data[i] = value;
    }

    /// The bytes of the mask, row by row.
    pub fn as_raw(&self) -> (data: &Vec<u8>)
        ensures
            data@ == self@.cells,
    {
        &self.data
    }

    /// The bytes of the mask, row by row.
    pub fn into_raw(self) -> (data: Vec<u8>)
        ensures
            data@ == self@.cells,
    {
        self.data
    }
}

impl Clone for Mask {
    fn clone(&self) -> (out: Self)
        ensures
            out@ == self@,
    {
        proof {
            use_type_invariant(self);
        }
        let data = self.data.clone();
        assert(data@ =~= self.data@);
        Mask { width: self.width, height: self.height, data }
    }
}

/// The pixels that a buffer of interleaved red, green and blue bytes holds.
pub open spec fn pixels_of(bytes: Seq<u8>) -> Seq<Rgb> {
    Seq::new(
        (bytes.len() / 3) as nat,
        |i: int| Rgb { r: bytes[3 * i], g: bytes[3 * i + 1], b: bytes[3 * i + 2] },
    )
}

/// An RGB image: three bytes per pixel, pixels row by row.
#[derive(Debug)]
pub struct Raster {
    width: u32,
    height: u32,
    data: Vec<u8>,
}

impl View for Raster {
    type V = Grid<Rgb>;

    closed spec fn view(&self) -> Grid<Rgb> {
        Grid { width: self.width as nat, height: self.height as nat, cells: pixels_of(self.data@) }
    }
}

impl Raster {
    #[verifier::type_invariant]
    pub closed spec fn well_formed(&self) -> bool {
        self.data@.len() == 3 * (self.width * self.height)
    }

    /// A buffer that keeps its invariant has a well-formed model.
    pub proof fn lemma_well_formed(&self)
        requires
            self.well_formed(),
        ensures
            self@.wf(),
            self@.width <= u32::MAX,
            self@.height <= u32::MAX,
            3 * (self@.width * self@.height) <= usize::MAX,
    {
        vstd::std_specs::vec::axiom_spec_len(&self.data);
    }

    /// Wraps a buffer of interleaved red, green and blue bytes, pixels row by
    /// row. `None` unless it holds exactly `3 * width * height` bytes.
    pub fn from_raw(width: u32, height: u32, data: Vec<u8>) -> (out: Option<Raster>)
        ensures
            out is Some <==> data@.len() == 3 * (width * height),
            out matches Some(r) ==> r@ == (Grid {
                width: width as nat,
                height: height as nat,
                cells: pixels_of(data@),
            }) && r@.wf(),
    {
        assert(width * height <= 0xFFFF_FFFF * 0xFFFF_FFFF) by (nonlinear_arith)
            requires
                0 <= width <= 0xFFFF_FFFF,
                0 <= height <= 0xFFFF_FFFF,
        ;
        let bytes: u128 = 3 * ((width as u128) * (height as u128));
        if data.len() as u128 == bytes {
            Some(Raster { width, height, data })
        } else {
            None
        }
    }

    pub fn width(&self) -> (w: u32)
        ensures
            w == self@.width,
            self@.wf(),
            self@.width * self@.height <= usize::MAX,
    {
        proof {
            use_type_invariant(self);
            self.lemma_well_formed();
        }
        self.width
    }

    pub fn height(&self) -> (h: u32)
        ensures
            h == self@.height,
            self@.wf(),
            self@.width * self@.height <= usize::MAX,
    {
        proof {
            use_type_invariant(self);
            self.lemma_well_formed();
        }
        self.height
    }

    /// The colour at column `x`, row `y`.
    pub fn get_pixel(&self, x: u32, y: u32) -> (c: Rgb)
        requires
            self@.inside(x as int, y as int),
        ensures
            c == self@.at(x as int, y as int),
    {
        proof {
            use_type_invariant(self);
            self.lemma_well_formed();
            lemma_cell_in_range(self.width as int, self.height as int, x as int, y as int);
        }
        let i: usize = 3 * ((y as usize) * (self.width as usize) + (x as usize));
        Rgb { r: self.data[i], g: self.data[i + 1], b: self.data[i + 2] }
    }

    /// Overwrites the colour at column `x`, row `y`.
    pub fn put_pixel(&mut self, x: u32, y: u32, color: Rgb)
        requires
            old(self)@.inside(x as int, y as int),
        ensures
            final(self)@ == old(self)@.put(x as int, y as int, color),
            final(self)@.wf(),
            final(self)@.same_shape(old(self)@),
            final(self)@.at(x as int, y as int) == color,
            forall|i: int, j: int|
                old(self)@.inside(i, j) && !(i == x && j == y) ==> #[trigger] final(self)@.at(i, j) == old(
                    self,
                )@.at(i, j),
    {
        proof {
            use_type_invariant(&*self);
            self.lemma_well_formed();
            lemma_cell_in_range(self.width as int, self.height as int, x as int, y as int);
            self@.lemma_put(x as int, y as int, color);
        }
        let i: usize = 3 * ((y as usize) * (self.width as usize) + (x as usize));
        self.data[i] = color.r;
        self.data[i + 1] = color.g;
        self.data[i + 2] = color.b;
        assert(pixels_of(self.data@) =~= pixels_of(old(self).data@).update(
            y * self.width + x,
            color,
        ));
    }

    /// The bytes of the image: red, green, blue of each pixel, row by row.
    pub fn as_raw(&self) -> (data: &Vec<u8>)
        ensures
            pixels_of(data@) == self@.cells,
            data@.len() == 3 * (self@.width * self@.height),
    {
        proof {
            use_type_invariant(self);
        }
        &self.data
    }

    /// The bytes of the image: red, green, blue of each pixel, row by row.
    pub fn into_raw(self) -> (data: Vec<u8>)
        ensures
            pixels_of(data@) == self@.cells,
            data@.len() == 3 * (self@.width * self@.height),
    {
        proof {
            use_type_invariant(&self);
        }
        self.data
    }
}

impl Clone for Raster {
    fn clone(&self) -> (out: Self)
        ensures
            out@ == self@,
    {
        proof {
            use_type_invariant(self);
        }
        let data = self.data.clone();
        assert(data@ =~= self.data@);
        Raster { width: self.width, height: self.height, data }
    }
}

/// One label per pixel: 0 for the background, any other number for the
/// component that the pixel belongs to.
#[derive(Debug)]
pub struct LabelMap {
    width: u32,
    height: u32,
    data: Vec<u32>,
}

impl View for LabelMap {
    type V = Grid<u32>;

    closed spec fn view(&self) -> Grid<u32> {
        Grid { width: self.width as nat, height: self.height as nat, cells: self.data@ }
    }
}

impl LabelMap {
    #[verifier::type_invariant]
    pub closed spec fn well_formed(&self) -> bool {
        self.data@.len() == self.width * self.height
    }

    /// A buffer that keeps its invariant has a well-formed model.
    pub proof fn lemma_well_formed(&self)
        requires
            self.well_formed(),
        ensures
            self@.wf(),
            self@.width <= u32::MAX,
            self@.height <= u32::MAX,
            self@.width * self@.height <= usize::MAX,
    {
        vstd::std_specs::vec::axiom_spec_len(&self.data);
    }

    /// Wraps a row-major buffer of labels. `None` unless the buffer holds
    /// exactly `width * height` labels.
    pub fn from_raw(width: u32, height: u32, data: Vec<u32>) -> (out: Option<LabelMap>)
        ensures
            out is Some <==> data@.len() == width * height,
            out matches Some(m) ==> m@ == (Grid { width: width as nat, height: height as nat, cells: data@ })
                && m@.wf(),
    {
        assert(width * height <= 0xFFFF_FFFF * 0xFFFF_FFFF) by (nonlinear_arith)
            requires
                0 <= width <= 0xFFFF_FFFF,
                0 <= height <= 0xFFFF_FFFF,
        ;
        let cells: u128 = (width as u128) * (height as u128);
        if data.len() as u128 == cells {
            Some(LabelMap { width, height, data })
        } else {
            None
        }
    }

    pub fn width(&self) -> (w: u32)
        ensures
            w == self@.width,
            self@.wf(),
    {
        proof {
            use_type_invariant(self);
            self.lemma_well_formed();
        }
        self.width
    }

    pub fn height(&self) -> (h: u32)
        ensures
            h == self@.height,
            self@.wf(),
    {
        proof {
            use_type_invariant(self);
            self.lemma_well_formed();
        }
        self.height
    }

    /// The label at column `x`, row `y`.
    pub fn get(&self, x: u32, y: u32) -> (label: u32)
        requires
            self@.inside(x as int, y as int),
        ensures
            label == self@.at(x as int, y as int),
    {
        proof {
            use_type_invariant(self);
            self.lemma_well_formed();
            lemma_cell_in_range(self.width as int, self.height as int, x as int, y as int);
        }
        let i: usize = (y as usize) * (self.width as usize) + (x as usize);
        self.data[i]
    }
}

} // verus!
