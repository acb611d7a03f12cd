use vstd::prelude::*;

verus! {

/// Abstract value of a [`Mask`]: its dimensions and its cells in row-major order.
pub struct MaskView {
    pub height: nat,
    pub width: nat,
    pub cells: Seq<u8>,
}

/// A two-dimensional grid of bytes stored in row-major order
/// (the cell at row `y`, column `x` sits at index `y * width + x`).
pub struct Mask {
    pub(crate) height: usize,
    pub(crate) width: usize,
    pub(crate) data: Vec<u8>,
}

impl View for Mask {
    type V = MaskView;

    closed spec fn view(&self) -> MaskView {
        MaskView { height: self.height as nat, width: self.width as nat, cells: self.data@ }
    }
}

impl Mask {
    #[verifier::type_invariant]
    pub(crate) open spec fn shape_ok(self) -> bool {
        self.data@.len() == self.height * self.width
    }

    /// The view in terms of the fields, for code of this crate.
    pub(crate) proof fn lemma_view(&self)
        ensures
            self@.height == self.height,
            self@.width == self.width,
            self@.cells == self.data@,
    {
    }

    /// A grid of the given dimensions with every cell 0.
    pub fn zeros(height: usize, width: usize) -> (m: Mask)
        requires
            height * width <= usize::MAX,
        ensures
            m@.height == height,
            m@.width == width,
            m@.cells == Seq::new((height * width) as nat, |i: int| 0u8),
    {
        let n = height * width;
        let mut data: Vec<u8> = Vec::new();
        let mut i: usize = 0;
        while i < n
            invariant
                i <= n,
                data@ == Seq::new(i as nat, |k: int| 0u8),
            decreases n - i,
        {
            data.push(0);
            i += 1;
        }
        Mask { height, width, data }
    }

    /// Wraps row-major cells as a grid; `None` when their number is not `height * width`.
    pub fn from_vec(height: usize, width: usize, data: Vec<u8>) -> (r: Option<Mask>)
        ensures
            r is Some <==> data@.len() == height * width,
            r matches Some(m) ==> m@ == (MaskView { height: height as nat, width: width as nat, cells: data@ }),
    {
        let len = data.len();
        match height.checked_mul(width) {
            Some(n) if n == len => Some(Mask { height, width, data }),
            _ => None,
        }
    }

    pub fn height(&self) -> (h: usize)
        ensures
            h == self@.height,
    {
        self.height
    }

    pub fn width(&self) -> (w: usize)
        ensures
            w == self@.width,
    {
        self.width
    }

    /// The row-major cells.
    pub fn cells(&self) -> (c: &Vec<u8>)
        ensures
            c@ == self@.cells,
    {
        &self.data
    }

    /// The cell at row `y`, column `x`.
    pub fn get(&self, y: usize, x: usize) -> (v: u8)
        requires
            y < self@.height,
            x < self@.width,
        ensures
            v == self@.cells[y * self@.width + x],
    {
        proof {
            use_type_invariant(self);
            assert(y * self.width + x < self.height * self.width) by (nonlinear_arith)
                requires
                    y < self.height,
                    x < self.width,
            ;
        }
        let len = self.data.len();
        assert(y * self.width + x < len);
        self.data[y * self.width + x]
    }

    /// Overwrites the cell at row `y`, column `x`.
    pub fn set(&mut self, y: usize, x: usize, v: u8)
        requires
            y < old(self)@.height,
            x < old(self)@.width,
        ensures
            final(self)@.height == old(self)@.height,
            final(self)@.width == old(self)@.width,
            final(self)@.cells == old(self)@.cells.update(y * old(self)@.width + x, v),
    {
        proof {
            use_type_invariant(&*self);
            assert(y * self.width + x < self.height * self.width) by (nonlinear_arith)
                requires
                    y < self.height,
                    x < self.width,
            ;
        }
        let len = self.data.len();
        assert(y * self.width + x < len);
        let i = y * self.width + x;
        let mut taken = Mask { height: 0, width: 0, data: Vec::new() };
        std::mem::swap(&mut taken, self);
        let Mask { height, width, mut data } = taken;
        data.set(i, v);
        *self = Mask { height, width, data };
    }
}

/// Abstract value of a [`PixelArray`].
pub struct PixelArrayView {
    pub height: nat,
    pub width: nat,
    pub channels: nat,
    pub cells: Seq<u8>,
}

/// A height x width x channels array of bytes in row-major, channel-last
/// order (the value at `(y, x, c)` sits at index `(y * width + x) * channels + c`).
pub struct PixelArray {
    pub(crate) height: usize,
    pub(crate) width: usize,
    pub(crate) channels: usize,
    pub(crate) data: Vec<u8>,
}

impl View for PixelArray {
    type V = PixelArrayView;

    closed spec fn view(&self) -> PixelArrayView {
        PixelArrayView {
            height: self.height as nat,
            width: self.width as nat,
            channels: self.channels as nat,
            cells: self.data@,
        }
    }
}

impl PixelArray {
    #[verifier::type_invariant]
    pub(crate) open spec fn shape_ok(self) -> bool {
        self.data@.len() == self.height * self.width * self.channels
    }

    /// The view in terms of the fields, for code of this crate.
    pub(crate) proof fn lemma_view(&self)
        ensures
            self@.height == self.height,
            self@.width == self.width,
            self@.channels == self.channels,
            self@.cells == self.data@,
    {
    }

    /// Wraps channel-last row-major values as an array; `None` when their
    /// number is not `height * width * channels`.
    pub fn from_vec(height: usize, width: usize, channels: usize, data: Vec<u8>) -> (r: Option<PixelArray>)
        ensures
            r is Some <==> data@.len() == height * width * channels,
            r matches Some(a) ==> a@ == (PixelArrayView {
                height: height as nat,
                width: width as nat,
                channels: channels as nat,
                cells: data@,
            }),
    {
        let len = data.len();
        if height == 0 || width == 0 || channels == 0 {
            proof {
                assert(height * width * channels == 0) by (nonlinear_arith)
                    requires
                        height == 0 || width == 0 || channels == 0,
                ;
            }
            if len == 0 {
                return Some(PixelArray { height, width, channels, data });
            } else {
                return None;
            }
        }
        match height.checked_mul(width) {
            Some(hw) => match hw.checked_mul(channels) {
                Some(n) if n == len => Some(PixelArray { height, width, channels, data }),
                _ => None,
            },
            None => {
                proof {
                    assert(height * width * channels >= height * width) by (nonlinear_arith)
                        requires
                            channels > 0,
                    ;
                }
                None
            },
        }
    }

    pub fn height(&self) -> (h: usize)
        ensures
            h == self@.height,
    {
        self.height
    }

    pub fn width(&self) -> (w: usize)
        ensures
            w == self@.width,
    {
        self.width
    }

    pub fn channels(&self) -> (c: usize)
        ensures
            c == self@.channels,
    {
        self.channels
    }

    /// The channel-last row-major values.
    pub fn cells(&self) -> (c: &Vec<u8>)
        ensures
            c@ == self@.cells,
    {
        &self.data
    }
}

} // verus!
