use vstd::prelude::*;

verus! {

/// A decoded picture in packed 24-bit RGB: `height` rows of `width` pixels,
/// each row starting `linesize` bytes after the previous one.
pub struct Frame {
    pub width: i32,
    pub height: i32,
    pub linesize: i32,
    pub data: Vec<u8>,
    /// Presentation timestamp, carried along for the encoder.
    pub pts: Option<i64>,
}

/// A buffer of `len` bytes holds `rows` rows of `cols` RGB pixels, with
/// consecutive rows `stride` bytes apart.
pub open spec fn holds_pixels(len: int, cols: int, rows: int, stride: int) -> bool {
    &&& 0 <= cols
    &&& 0 <= rows
    &&& 3 * cols <= stride
    &&& rows * stride <= len
}

impl Frame {
    /// The geometry fields describe the pixel buffer.
    pub open spec fn wf(&self) -> bool {
        holds_pixels(self.data@.len() as int, self.width as int, self.height as int, self.linesize as int)
    }

    /// The same picture with its pixel bytes replaced.
    pub open spec fn same_but_data(&self, other: &Frame) -> bool {
        &&& self.width == other.width
        &&& self.height == other.height
        &&& self.linesize == other.linesize
        &&& self.pts == other.pts
        &&& self.data@.len() == other.data@.len()
    }
}

} // verus!
