use vstd::prelude::*;
use vstd::arithmetic::div_mod::{lemma_fundamental_div_mod, lemma_fundamental_div_mod_converse};
use crate::frame::{Frame, holds_pixels};
use crate::render::RenderData;
use rayon::iter::{IndexedParallelIterator, IntoParallelRefIterator, IntoParallelRefMutIterator, ParallelIterator};

verus! {

/// Where a subtitle is anchored in the frame.
#[derive(Clone, Copy, Debug, PartialEq, Eq, Structural)]
pub enum Offset {
    /// The subtitle's bottom edge sits this many rows above the frame's bottom edge.
    MajorBottom(u32),
    /// The subtitle's top edge sits this many rows below the frame's top edge.
    MinorTop(u32),
}

/// Row of the frame that receives the subtitle's first row.
pub open spec fn top_row(offset: Offset, img_rowc: int, rowc: int) -> int {
    match offset {
        Offset::MajorBottom(v) => img_rowc - v - rowc,
        Offset::MinorTop(v) => v as int,
    }
}

/// Column of the frame that receives the subtitle's first column: centred,
/// rounding towards the left.
pub open spec fn left_col(img_colc: int, colc: int) -> int {
    (img_colc - colc) / 2
}

/// A `colc` x `rowc` subtitle anchored by `offset` lies inside an
/// `img_colc` x `img_rowc` frame.
pub open spec fn placement_fits(img_colc: int, img_rowc: int, colc: int, rowc: int, offset: Offset) -> bool {
    &&& 0 <= colc <= img_colc
    &&& 0 <= rowc
    &&& 0 <= top_row(offset, img_rowc, rowc)
    &&& top_row(offset, img_rowc, rowc) + rowc <= img_rowc
}

/// Byte `k` of a frame with row stride `stride` belongs to the pixels covered
/// by a `colc` x `rowc` subtitle whose top-left pixel is at (`top`, `left`).
pub open spec fn in_region(k: int, stride: int, top: int, left: int, colc: int, rowc: int) -> bool {
    &&& top <= k / stride < top + rowc
    &&& 3 * left <= k % stride < 3 * (left + colc)
}

/// Pure black is the transparency sentinel: such a subtitle pixel darkens
/// the frame instead of covering it.
pub open spec fn is_background(sub: Seq<u8>, base: int) -> bool {
    sub[base] == 0 && sub[base + 1] == 0 && sub[base + 2] == 0
}

/// Channel `x` of the frame byte `dst` under the subtitle pixel starting at `base`.
pub open spec fn blend_channel(sub: Seq<u8>, base: int, x: int, dst: u8) -> u8 {
    if is_background(sub, base) {
        ((dst + sub[base + x]) / 2) as u8
    } else {
        sub[base + x]
    }
}

/// Byte `k` of the frame `dst` after the subtitle `sub` has been drawn at (`top`, `left`).
pub open spec fn embedded_byte(
    dst: Seq<u8>,
    stride: int,
    sub: Seq<u8>,
    sub_stride: int,
    colc: int,
    rowc: int,
    top: int,
    left: int,
    k: int,
) -> u8 {
    if in_region(k, stride, top, left, colc, rowc) {
        let r = k / stride - top;
        let c = (k % stride) / 3 - left;
        blend_channel(sub, r * sub_stride + 3 * c, (k % stride) % 3, dst[k])
    } else {
        dst[k]
    }
}

/// The frame bytes `dst` after the subtitle `sub` has been drawn at (`top`, `left`).
pub open spec fn embedded(
    dst: Seq<u8>,
    stride: int,
    sub: Seq<u8>,
    sub_stride: int,
    colc: int,
    rowc: int,
    top: int,
    left: int,
) -> Seq<u8> {
    Seq::new(dst.len(), |k: int| embedded_byte(dst, stride, sub, sub_stride, colc, rowc, top, left, k))
}

/// Byte `k` has been drawn once every subtitle row before `r`, and the first
/// `c` pixels of row `r`, are done.
spec fn painted(k: int, stride: int, top: int, left: int, colc: int, rowc: int, r: int, c: int) -> bool {
    &&& in_region(k, stride, top, left, colc, rowc)
    &&& (k / stride - top < r || (k / stride - top == r && (k % stride) / 3 - left < c))
}

proof fn lemma_pixel_byte(stride: int, top: int, left: int, colc: int, rowc: int, r: int, c: int, x: int)
    requires
        0 <= top,
        0 <= left,
        0 <= r < rowc,
        0 <= c < colc,
        0 <= x < 3,
        3 * (left + colc) <= stride,
    ensures
        ({
            let k = (r + top) * stride + 3 * (c + left) + x;
            &&& k / stride == r + top
            &&& k % stride == 3 * (c + left) + x
            &&& (k % stride) / 3 == c + left
            &&& (k % stride) % 3 == x
            &&& in_region(k, stride, top, left, colc, rowc)
        }),
{
    let k = (r + top) * stride + 3 * (c + left) + x;
    lemma_fundamental_div_mod_converse(k, stride, r + top, 3 * (c + left) + x);
    lemma_fundamental_div_mod_converse(3 * (c + left) + x, 3, c + left, x);
}

proof fn lemma_pixel_only(stride: int, top: int, left: int, colc: int, rowc: int, r: int, c: int)
    requires
        0 <= top,
        0 <= left,
        0 <= r < rowc,
        0 <= c < colc,
        3 * (left + colc) <= stride,
    ensures
        forall|k: int|
            0 <= k && #[trigger] in_region(k, stride, top, left, colc, rowc) && k / stride - top == r && (k
                % stride) / 3 - left == c ==> {
                let k0 = (r + top) * stride + 3 * (c + left);
                k0 <= k < k0 + 3
            },
{
    assert forall|k: int|
        0 <= k && #[trigger] in_region(k, stride, top, left, colc, rowc) && k / stride - top == r && (k
            % stride) / 3 - left == c implies {
        let k0 = (r + top) * stride + 3 * (c + left);
        k0 <= k < k0 + 3
    } by {
        lemma_fundamental_div_mod(k, stride);
        lemma_fundamental_div_mod(k % stride, 3);
        let q = k / stride;
        let m = k % stride;
        assert(q == r + top);
        assert(m / 3 == c + left);
        assert(k == (r + top) * stride + m);
        assert(m == 3 * (c + left) + m % 3);
    }
}

/// Draws the `colc` x `rowc` RGB bitmap `subtitle_img` (rows `linesize` bytes
/// apart) onto the frame `src_img` (`img_colc` x `img_rowc`, rows
/// `img_linesize` bytes apart), centred horizontally and anchored as `offset`
/// says. A pure black subtitle pixel averages each channel with the frame
/// (truncating); any other pixel replaces the frame's pixel.
pub fn raw_embed(
    src_img: &mut [u8],
    img_colc: i32,
    img_rowc: i32,
    img_linesize: i32,
    subtitle_img: &[u8],
    colc: i32,
    rowc: i32,
    linesize: i32,
    offset: Offset,
)
    requires
        holds_pixels(old(src_img)@.len() as int, img_colc as int, img_rowc as int, img_linesize as int),
        holds_pixels(subtitle_img@.len() as int, colc as int, rowc as int, linesize as int),
        placement_fits(img_colc as int, img_rowc as int, colc as int, rowc as int, offset),
    ensures
        final(src_img)@ == embedded(
            old(src_img)@,
            img_linesize as int,
            subtitle_img@,
            linesize as int,
            colc as int,
            rowc as int,
            top_row(offset, img_rowc as int, rowc as int),
            left_col(img_colc as int, colc as int),
        ),
{
    let lurow: i32 = match offset {
        Offset::MajorBottom(v) => img_rowc - v as i32 - rowc,
        Offset::MinorTop(v) => v as i32,
    };
    let stride = img_linesize as usize;
    let sub_stride = linesize as usize;
    let top = lurow as usize;
    let left = ((img_colc - colc) / 2) as usize;
    let rows = rowc as usize;
    let cols = colc as usize;
    let ghost old_img = src_img@;
    let ghost sub = subtitle_img@;
    let ghost len = old_img.len() as int;
    let ghost img_rows = img_rowc as int;
    let img_len = src_img.len();
    let sub_len = subtitle_img.len();
    assert(3 * (left + cols) <= stride) by {
        assert(left + cols <= img_colc);
    }
    assert(left as int == left_col(img_colc as int, colc as int));
    let mut r: usize = 0;
    while r < rows
        invariant
            src_img@.len() == len,
            len == img_len,
            r <= rows,
            top + rows <= img_rows,
            img_rows * stride <= len,
            3 * (left + cols) <= stride,
            rows * sub_stride <= sub.len(),
            3 * cols <= sub_stride,
            sub == subtitle_img@,
            sub.len() == sub_len,
            forall|k: int|
                0 <= k < len ==> #[trigger] src_img@[k] == if painted(
                    k,
                    stride as int,
                    top as int,
                    left as int,
                    cols as int,
                    rows as int,
                    r as int,
                    0,
                ) {
                    embedded_byte(old_img, stride as int, sub, sub_stride as int, cols as int, rows as int, top as int, left as int, k)
                } else {
                    old_img[k]
                },
        decreases rows - r,
    {
        let mut c: usize = 0;
        while c < cols
            invariant
                src_img@.len() == len,
                len == img_len,
            len == img_len,
                r < rows,
                c <= cols,
                top + rows <= img_rows,
                img_rows * stride <= len,
                3 * (left + cols) <= stride,
                rows * sub_stride <= sub.len(),
                3 * cols <= sub_stride,
                sub == subtitle_img@,
                sub.len() == sub_len,
            sub.len() == sub_len,
                forall|k: int|
                    0 <= k < len ==> #[trigger] src_img@[k] == if painted(
                        k,
                        stride as int,
                        top as int,
                        left as int,
                        cols as int,
                        rows as int,
                        r as int,
                        c as int,
                    ) {
                        embedded_byte(old_img, stride as int, sub, sub_stride as int, cols as int, rows as int, top as int, left as int, k)
                    } else {
                        old_img[k]
                    },
            decreases cols - c,
        {
            proof {
                lemma_pixel_byte(stride as int, top as int, left as int, cols as int, rows as int, r as int, c as int, 0);
                lemma_pixel_byte(stride as int, top as int, left as int, cols as int, rows as int, r as int, c as int, 1);
                lemma_pixel_byte(stride as int, top as int, left as int, cols as int, rows as int, r as int, c as int, 2);
                lemma_pixel_only(stride as int, top as int, left as int, cols as int, rows as int, r as int, c as int);
                assert((r + top) * stride + stride <= img_rows * stride) by (nonlinear_arith)
                    requires r + top + 1 <= img_rows, 0 <= stride;
                assert(r * sub_stride + sub_stride <= rows * sub_stride) by (nonlinear_arith)
                    requires r + 1 <= rows, 0 <= sub_stride;
            }
            let img_base = (r + top) * stride + (c + left) * 3;
            let sub_base = r * sub_stride + 3 * c;
            let s0 = subtitle_img[sub_base];
            let s1 = subtitle_img[sub_base + 1];
            let s2 = subtitle_img[sub_base + 2];
            if s0 == 0 && s1 == 0 && s2 == 0 {
                let d0 = src_img[img_base];
                let d1 = src_img[img_base + 1];
                let d2 = src_img[img_base + 2];
                src_img[img_base] = ((s0 as u16 + d0 as u16) / 2) as u8;
                src_img[img_base + 1] = ((s1 as u16 + d1 as u16) / 2) as u8;
                src_img[img_base + 2] = ((s2 as u16 + d2 as u16) / 2) as u8;
            } else {
                src_img[img_base] = s0;
                src_img[img_base + 1] = s1;
                src_img[img_base + 2] = s2;
            }
            c += 1;
        }
        proof {
            assert forall|k: int| 0 <= k && #[trigger] in_region(k, stride as int, top as int, left as int, cols as int, rows as int)
                implies (k % (stride as int)) / 3 - left < cols by {
            }
        }
        r += 1;
    }
    proof {
        assert(src_img@ =~= embedded(old_img, stride as int, sub, sub_stride as int, cols as int, rows as int, top as int, left as int));
    }
}


/// Errors of the chunk buffer and the compositor.
#[derive(Clone, Copy, Debug, PartialEq, Eq, Structural)]
pub enum EmbedError {
    /// A frame was pushed while the buffer was already at capacity.
    BufferFull,
    /// The frames and the bindings handed over do not line up.
    RangeMismatch,
}

/// The bytes `data` of frame `f` after `sub` has been drawn at the place `offset` gives.
pub open spec fn with_subtitle(data: Seq<u8>, f: Frame, sub: Frame, offset: Offset) -> Seq<u8> {
    embedded(
        data,
        f.linesize as int,
        sub.data@,
        sub.linesize as int,
        sub.width as int,
        sub.height as int,
        top_row(offset, f.height as int, sub.height as int),
        left_col(f.width as int, sub.width as int),
    )
}

/// `sub` is a well-formed bitmap that lies inside `f` at the place `offset` gives.
pub open spec fn subtitle_fits(f: Frame, sub: Frame, offset: Offset) -> bool {
    &&& sub.wf()
    &&& placement_fits(f.width as int, f.height as int, sub.width as int, sub.height as int, offset)
}

/// Frame `f` is well formed and each subtitle bound to it by `b` fits inside it.
pub open spec fn binding_fits(f: Frame, b: RenderData, top_offset: u32, bottom_offset: u32) -> bool {
    &&& f.wf()
    &&& (b.major matches Some(w) ==> subtitle_fits(f, *w.image, Offset::MajorBottom(bottom_offset)))
    &&& (b.minor matches Some(w) ==> subtitle_fits(f, *w.image, Offset::MinorTop(top_offset)))
}

/// The bytes of `f` once the major subtitle of `b` and then its minor one are drawn.
pub open spec fn composited_data(f: Frame, b: RenderData, top_offset: u32, bottom_offset: u32) -> Seq<u8> {
    let d = match b.major {
        Some(w) => with_subtitle(f.data@, f, *w.image, Offset::MajorBottom(bottom_offset)),
        None => f.data@,
    };
    match b.minor {
        Some(w) => with_subtitle(d, f, *w.image, Offset::MinorTop(top_offset)),
        None => d,
    }
}

/// Every frame fits the binding at its index.
pub open spec fn chunk_fits(frames: Seq<Frame>, bindings: Seq<RenderData>, top_offset: u32, bottom_offset: u32) -> bool {
    forall|i: int|
        0 <= i < frames.len() && i < bindings.len() ==> binding_fits(
            #[trigger] frames[i],
            bindings[i],
            top_offset,
            bottom_offset,
        )
}

/// The pixel bytes of each frame of a chunk after compositing.
pub open spec fn composited(frames: Seq<Frame>, bindings: Seq<RenderData>, top_offset: u32, bottom_offset: u32) -> Seq<Seq<u8>> {
    Seq::new(frames.len(), |i: int| composited_data(frames[i], bindings[i], top_offset, bottom_offset))
}

/// `after` is the chunk `before` composited with `bindings`, frame by frame in place.
pub open spec fn composite_result(
    before: Seq<Frame>,
    after: Seq<Frame>,
    bindings: Seq<RenderData>,
    top_offset: u32,
    bottom_offset: u32,
) -> bool {
    &&& after.len() == before.len()
    &&& forall|i: int| 0 <= i < before.len() ==> (#[trigger] after[i]).same_but_data(&before[i])
    &&& forall|i: int| 0 <= i < before.len() ==> (#[trigger] after[i]).data@ == composited(before, bindings, top_offset, bottom_offset)[i]
}

/// Draws the subtitles bound to one frame: the major one, bottom-anchored,
/// then the minor one, top-anchored.
pub fn composite_frame(frame: &mut Frame, binding: &RenderData, top_offset: u32, bottom_offset: u32)
    requires
        binding_fits(*old(frame), *binding, top_offset, bottom_offset),
    ensures
        final(frame).same_but_data(&*old(frame)),
        final(frame).data@ == composited_data(*old(frame), *binding, top_offset, bottom_offset),
{
    if let Some(major) = &binding.major {
        let img: &Frame = &major.image;
        raw_embed(
            frame.data.as_mut_slice(),
            frame.width,
            frame.height,
            frame.linesize,
            img.data.as_slice(),
            img.width,
            img.height,
            img.linesize,
            Offset::MajorBottom(bottom_offset),
        );
    }
    if let Some(minor) = &binding.minor {
        let img: &Frame = &minor.image;
        raw_embed(
            frame.data.as_mut_slice(),
            frame.width,
            frame.height,
            frame.linesize,
            img.data.as_slice(),
            img.width,
            img.height,
            img.linesize,
            Offset::MinorTop(top_offset),
        );
    }
}

/// Relies on rayon's `par_iter_mut().zip(..).for_each(..)` over two slices of
/// equal length: the closure runs once on each frame together with the
/// binding at the same index, and each frame is touched by that run alone.
#[verifier::external_body]
fn composite_parallel(frames: &mut [Frame], bindings: &[RenderData], top_offset: u32, bottom_offset: u32)
    requires
        old(frames)@.len() == bindings@.len(),
        chunk_fits(old(frames)@, bindings@, top_offset, bottom_offset),
    ensures
        composite_result(old(frames)@, final(frames)@, bindings@, top_offset, bottom_offset),
{
    frames.par_iter_mut().zip(bindings.par_iter()).for_each(
        |(frame, binding)| composite_frame(frame, binding, top_offset, bottom_offset),
    );
}

/// Composites a chunk in place, the frames in parallel: frame `i` receives
/// the subtitles of `bindings[i]`. Fails with `RangeMismatch`, touching no
/// frame, when the two slices differ in length.
pub fn composite(frames: &mut [Frame], bindings: &[RenderData], top_offset: u32, bottom_offset: u32) -> (r: Result<(), EmbedError>)
    requires
        chunk_fits(old(frames)@, bindings@, top_offset, bottom_offset),
    ensures
        old(frames)@.len() != bindings@.len() ==> r == Err::<(), EmbedError>(EmbedError::RangeMismatch) && final(frames)@ == old(frames)@,
        old(frames)@.len() == bindings@.len() ==> r is Ok && composite_result(old(frames)@, final(frames)@, bindings@, top_offset, bottom_offset),
{
    if frames.len() != bindings.len() {
        return Err(EmbedError::RangeMismatch);
    }
    composite_parallel(frames, bindings, top_offset, bottom_offset);
    Ok(())
}

/// Whether `f` is well formed: its geometry describes its pixel buffer.
pub fn frame_wf(f: &Frame) -> (r: bool)
    ensures
        r == f.wf(),
{
    if f.width < 0 || f.height < 0 || 3 * (f.width as i64) > f.linesize as i64 {
        return false;
    }
    let h = f.height as u64;
    let ls = f.linesize as u64;
    assert(h * ls <= 0x4000_0000_0000_0000) by (nonlinear_arith)
        requires
            h <= 0x7fff_ffff,
            ls <= 0x7fff_ffff,
    ;
    h * ls <= f.data.len() as u64
}

/// Whether `sub` is well formed and lies inside `f` at the place `offset` gives.
pub fn fits_at(f: &Frame, sub: &Frame, offset: Offset) -> (r: bool)
    ensures
        r == subtitle_fits(*f, *sub, offset),
{
    if !frame_wf(sub) || sub.width > f.width {
        return false;
    }
    let top: i64 = match offset {
        Offset::MajorBottom(v) => f.height as i64 - v as i64 - sub.height as i64,
        Offset::MinorTop(v) => v as i64,
    };
    top >= 0 && top + sub.height as i64 <= f.height as i64
}

/// Whether `frame` is well formed and fits each subtitle that `binding` holds.
pub fn binding_fits_frame(frame: &Frame, binding: &RenderData, top_offset: u32, bottom_offset: u32) -> (r: bool)
    ensures
        r == binding_fits(*frame, *binding, top_offset, bottom_offset),
{
    if !frame_wf(frame) {
        return false;
    }
    let major_ok = match &binding.major {
        Some(w) => fits_at(frame, &w.image, Offset::MajorBottom(bottom_offset)),
        None => true,
    };
    let minor_ok = match &binding.minor {
        Some(w) => fits_at(frame, &w.image, Offset::MinorTop(top_offset)),
        None => true,
    };
    major_ok && minor_ok
}

/// Whether every frame of the chunk fits the binding at its index, as
/// `composite` requires.
pub fn frames_fit(frames: &[Frame], bindings: &[RenderData], top_offset: u32, bottom_offset: u32) -> (r: bool)
    ensures
        r == chunk_fits(frames@, bindings@, top_offset, bottom_offset),
{
    let n = if frames.len() < bindings.len() { frames.len() } else { bindings.len() };
    let mut i: usize = 0;
    while i < n
        invariant
            i <= n,
            n <= frames@.len(),
            n <= bindings@.len(),
            n == frames@.len() || n == bindings@.len(),
            forall|k: int| 0 <= k < i ==> binding_fits(#[trigger] frames@[k], bindings@[k], top_offset, bottom_offset),
        decreases n - i,
    {
        if !binding_fits_frame(&frames[i], &bindings[i], top_offset, bottom_offset) {
            return false;
        }
        i += 1;
    }
    true
}

/// The frames `frame_begin..=frame_end` (counted from 1) are a range of
/// `len` frames inside a table of `table_len` bindings.
pub open spec fn range_matches(frame_begin: i64, frame_end: i64, len: int, table_len: int) -> bool {
    &&& 1 <= frame_begin
    &&& frame_end - frame_begin + 1 == len
    &&& frame_end <= table_len
}

/// Collects decoded frames into chunks of a fixed size and composites each
/// chunk with its slice of the binding table.
pub struct SubtitleEmbedder<'a> {
    render_data: &'a Vec<RenderData>,
    buf: Vec<Frame>,
    buffer_size: usize,
    top_offset: u32,
    bottom_offset: u32,
}

impl<'a> SubtitleEmbedder<'a> {
    /// The frames collected so far, in the order they came.
    pub closed spec fn frames(&self) -> Seq<Frame> {
        self.buf@
    }

    /// How many frames a chunk holds.
    pub closed spec fn capacity(&self) -> nat {
        self.buffer_size as nat
    }

    /// The binding table, indexed by frame from 0.
    pub closed spec fn bindings(&self) -> Seq<RenderData> {
        self.render_data@
    }

    /// Margin of the minor subtitles from the top of the frame.
    pub closed spec fn top(&self) -> u32 {
        self.top_offset
    }

    /// Margin of the major subtitles from the bottom of the frame.
    pub closed spec fn bottom(&self) -> u32 {
        self.bottom_offset
    }

    /// The buffer never holds more than a chunk.
    pub closed spec fn wf(&self) -> bool {
        self.buf@.len() <= self.buffer_size
    }

    /// The settings of `self` and `other` agree.
    pub open spec fn same_setup(&self, other: &Self) -> bool {
        &&& self.capacity() == other.capacity()
        &&& self.bindings() == other.bindings()
        &&& self.top() == other.top()
        &&& self.bottom() == other.bottom()
    }

    /// The frames collected so far.
    pub fn get_buf(&self) -> (r: &Vec<Frame>)
        ensures
            r@ == self.frames(),
    {
        &self.buf
    }

    /// An empty buffer for chunks of `buffer_size` frames over the binding
    /// table `render_data`.
    pub fn new(render_data: &'a Vec<RenderData>, buffer_size: usize, top_offset: u32, bottom_offset: u32) -> (r: Self)
        ensures
            r.wf(),
            r.frames().len() == 0,
            r.capacity() == buffer_size,
            r.bindings() == render_data@,
            r.top() == top_offset,
            r.bottom() == bottom_offset,
    {
        SubtitleEmbedder {
            render_data,
            buf: Vec::with_capacity(buffer_size),
            buffer_size,
            top_offset,
            bottom_offset,
        }
    }

    /// Appends a frame. Fails with `BufferFull`, changing nothing, when the
    /// buffer is at capacity; otherwise tells whether it has just become full.
    pub fn send_frame(&mut self, frame: Frame) -> (r: Result<bool, EmbedError>)
        requires
            old(self).wf(),
        ensures
            final(self).wf(),
            final(self).same_setup(&*old(self)),
            old(self).frames().len() == old(self).capacity() ==> r == Err::<bool, EmbedError>(EmbedError::BufferFull)
                && final(self).frames() == old(self).frames(),
            old(self).frames().len() < old(self).capacity() ==> r == Ok::<bool, EmbedError>(
                final(self).frames().len() == final(self).capacity(),
            ) && final(self).frames() == old(self).frames().push(frame),
    {
        if self.buf.len() >= self.buffer_size {
            return Err(EmbedError::BufferFull);
        }
        self.buf.push(frame);
        Ok(self.buf.len() == self.buffer_size)
    }

    /// Whether the chunk fits the bindings of frames `frame_begin..=frame_end`
    /// (from 1) wherever those line up with it, as `embed` requires.
    pub fn fits(&self, frame_begin: i64, frame_end: i64) -> (r: bool)
        ensures
            r == (range_matches(frame_begin, frame_end, self.frames().len() as int, self.bindings().len() as int)
                ==> chunk_fits(self.frames(), self.bindings().subrange(frame_begin - 1, frame_end as int), self.top(), self.bottom())),
    {
        if !self.range_ok(frame_begin, frame_end) {
            return true;
        }
        let _table_len = self.render_data.len();
        let lo = (frame_begin - 1) as usize;
        let hi = frame_end as usize;
        assert(lo as int == frame_begin - 1 && hi as int == frame_end as int);
        let bindings = vstd::slice::slice_subrange(self.render_data.as_slice(), lo, hi);
        frames_fit(self.buf.as_slice(), bindings, self.top_offset, self.bottom_offset)
    }

    fn range_ok(&self, frame_begin: i64, frame_end: i64) -> (r: bool)
        ensures
            r == range_matches(frame_begin, frame_end, self.buf@.len() as int, self.render_data@.len() as int),
    {
        if frame_begin < 1 || frame_end < frame_begin - 1 {
            return false;
        }
        (frame_end - frame_begin + 1) as u64 == self.buf.len() as u64 && frame_end as u64 <= self.render_data.len() as u64
    }

    /// Composites the collected chunk, taken as frames `frame_begin..=frame_end`
    /// (from 1), with those frames' bindings. Fails with `RangeMismatch`,
    /// touching no frame, when that range is not the chunk's length or leaves
    /// the binding table.
    pub fn embed(&mut self, frame_begin: i64, frame_end: i64) -> (r: Result<(), EmbedError>)
        requires
            old(self).wf(),
            range_matches(frame_begin, frame_end, old(self).frames().len() as int, old(self).bindings().len() as int)
                ==> chunk_fits(
                old(self).frames(),
                old(self).bindings().subrange(frame_begin - 1, frame_end as int),
                old(self).top(),
                old(self).bottom(),
            ),
        ensures
            final(self).wf(),
            final(self).same_setup(&*old(self)),
            !range_matches(frame_begin, frame_end, old(self).frames().len() as int, old(self).bindings().len() as int)
                ==> r == Err::<(), EmbedError>(EmbedError::RangeMismatch) && final(self).frames() == old(self).frames(),
            range_matches(frame_begin, frame_end, old(self).frames().len() as int, old(self).bindings().len() as int)
                ==> r is Ok && composite_result(
                old(self).frames(),
                final(self).frames(),
                old(self).bindings().subrange(frame_begin - 1, frame_end as int),
                old(self).top(),
                old(self).bottom(),
            ),
    {
        if !self.range_ok(frame_begin, frame_end) {
            return Err(EmbedError::RangeMismatch);
        }
        let _table_len = self.render_data.len();
        let lo = (frame_begin - 1) as usize;
        let hi = frame_end as usize;
        assert(lo as int == frame_begin - 1 && hi as int == frame_end as int);
        let bindings = vstd::slice::slice_subrange(self.render_data.as_slice(), lo, hi);
        composite(self.buf.as_mut_slice(), bindings, self.top_offset, self.bottom_offset)
    }

    /// Empties the buffer for the next chunk, keeping room for a whole chunk.
    pub fn finish(&mut self)
        ensures
            final(self).wf(),
            final(self).same_setup(&*old(self)),
            final(self).frames().len() == 0,
    {
        self.buf.clear();
        self.buf.reserve(self.buffer_size);
    }
}

/// With a single subtitle bound to a frame, compositing changes no byte
/// outside the pixels that the subtitle covers.
pub proof fn lemma_lone_subtitle_stays_in_region(f: Frame, b: RenderData, top_offset: u32, bottom_offset: u32)
    requires
        binding_fits(f, b, top_offset, bottom_offset),
    ensures
        composited_data(f, b, top_offset, bottom_offset).len() == f.data@.len(),
        b.minor is None ==> (b.major matches Some(w) ==> forall|k: int|
            0 <= k < f.data@.len() && !in_region(
                k,
                f.linesize as int,
                top_row(Offset::MajorBottom(bottom_offset), f.height as int, w.image.height as int),
                left_col(f.width as int, w.image.width as int),
                w.image.width as int,
                w.image.height as int,
            ) ==> #[trigger] composited_data(f, b, top_offset, bottom_offset)[k] == f.data@[k]),
        b.major is None ==> (b.minor matches Some(w) ==> forall|k: int|
            0 <= k < f.data@.len() && !in_region(
                k,
                f.linesize as int,
                top_row(Offset::MinorTop(top_offset), f.height as int, w.image.height as int),
                left_col(f.width as int, w.image.width as int),
                w.image.width as int,
                w.image.height as int,
            ) ==> #[trigger] composited_data(f, b, top_offset, bottom_offset)[k] == f.data@[k]),
{
}

/// Compositing a chunk is the same as compositing any first part of it and
/// then the rest: each frame's bytes depend on that frame and its binding
/// alone, so the order in which frames are handled does not matter.
pub proof fn lemma_composite_splits(
    frames: Seq<Frame>,
    bindings: Seq<RenderData>,
    top_offset: u32,
    bottom_offset: u32,
    k: int,
)
    requires
        frames.len() == bindings.len(),
        0 <= k <= frames.len(),
    ensures
        composited(frames, bindings, top_offset, bottom_offset) == composited(
            frames.take(k),
            bindings.take(k),
            top_offset,
            bottom_offset,
        ) + composited(frames.skip(k), bindings.skip(k), top_offset, bottom_offset),
{
    assert(composited(frames, bindings, top_offset, bottom_offset) =~= composited(
        frames.take(k),
        bindings.take(k),
        top_offset,
        bottom_offset,
    ) + composited(frames.skip(k), bindings.skip(k), top_offset, bottom_offset));
}

/// Two runs of the compositor on the same chunk and bindings, however their
/// work was scheduled, leave byte-identical frames.
pub proof fn lemma_composite_deterministic(
    before: Seq<Frame>,
    first: Seq<Frame>,
    second: Seq<Frame>,
    bindings: Seq<RenderData>,
    top_offset: u32,
    bottom_offset: u32,
)
    requires
        composite_result(before, first, bindings, top_offset, bottom_offset),
        composite_result(before, second, bindings, top_offset, bottom_offset),
    ensures
        first.len() == second.len(),
        forall|i: int| 0 <= i < first.len() ==> (#[trigger] first[i]).data@ == second[i].data@ && first[i].same_but_data(&second[i]),
{
    assert forall|i: int| 0 <= i < first.len() implies (#[trigger] first[i]).data@ == second[i].data@ && first[i].same_but_data(&second[i]) by {
        assert(first[i].same_but_data(&before[i]));
        assert(second[i].same_but_data(&before[i]));
    }
}

} // verus!
