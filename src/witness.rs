//! Frames from the shared-memory ring buffer written by the capture daemon.
use vstd::prelude::*;

verus! {

/// Byte offset of the status byte.
pub const OFF_STATUS: usize = 0;

/// Byte offset of the frame width (little-endian `u32`).
pub const OFF_WIDTH: usize = 4;

/// Byte offset of the frame height (little-endian `u32`).
pub const OFF_HEIGHT: usize = 8;

/// Byte offset of the frame id (little-endian `u64`).
pub const OFF_FRAME_ID: usize = 16;

/// Byte offset of the pixels: four bytes per pixel, row after row.
pub const OFF_PIXELS: usize = 24;

/// Status byte while the writer is filling the buffer.
pub const STATUS_WRITING: u8 = 0;

/// Status byte once a frame is complete.
pub const STATUS_READY: u8 = 1;

/// One captured frame.
#[derive(Debug, Clone)]
pub struct VisualCortex {
    pub width: u32,
    pub height: u32,
    pub data: Vec<u8>,
}

/// The little-endian number in `b[off..off + n]`.
pub open spec fn le_value(b: Seq<u8>, off: int, n: int) -> int
    decreases n,
{
    if n <= 0 {
        0
    } else {
        b[off + n - 1] * pow256(n - 1) + le_value(b, off, n - 1)
    }
}

pub open spec fn pow256(n: int) -> int
    decreases n,
{
    if n <= 0 {
        1
    } else {
        256 * pow256(n - 1)
    }
}

/// The frame in a buffer, if a new complete one is there: the writer is
/// not busy, the frame id is above `last_frame_id`, and all pixels fit.
pub open spec fn frame_in(buf: Seq<u8>, last_frame_id: u64) -> Option<(int, int, int, Seq<u8>)> {
    if buf.len() < OFF_PIXELS || buf[OFF_STATUS as int] == STATUS_WRITING {
        None
    } else {
        let w = le_value(buf, OFF_WIDTH as int, 4);
        let h = le_value(buf, OFF_HEIGHT as int, 4);
        let id = le_value(buf, OFF_FRAME_ID as int, 8);
        let end = OFF_PIXELS + w * h * 4;
        if id <= last_frame_id || end > buf.len() {
            None
        } else {
            Some((w, h, id, buf.subrange(OFF_PIXELS as int, end)))
        }
    }
}

proof fn lemma_pow256_eight()
    ensures
        pow256(4) == 0x1_0000_0000,
        pow256(8) == 0x1_0000_0000_0000_0000,
{
    assert(pow256(0) == 1);
    assert(pow256(1) == 0x100);
    assert(pow256(2) == 0x1_0000);
    assert(pow256(3) == 0x100_0000);
    assert(pow256(4) == 0x1_0000_0000);
    assert(pow256(5) == 0x100_0000_0000);
    assert(pow256(6) == 0x1_0000_0000_0000);
    assert(pow256(7) == 0x100_0000_0000_0000);
}

fn read_le(buf: &[u8], off: usize, n: usize) -> (r: u64)
    requires
        off + n <= buf@.len(),
        off <= OFF_PIXELS,
        n <= 8,
    ensures
        r == le_value(buf@, off as int, n as int),
        r < pow256(n as int),
{
    let mut acc: u128 = 0;
    let mut p: u128 = 1;
    let mut j: usize = 0;
    proof {
        lemma_pow256_eight();
    }
    while j < n
        invariant
            j <= n <= 8,
            off + n <= buf@.len(),
            off <= OFF_PIXELS,
            acc == le_value(buf@, off as int, j as int),
            acc < pow256(j as int),
            p == pow256(j as int),
            pow256(8) == 0x1_0000_0000_0000_0000,
        decreases n - j,
    {
        assert(pow256(j + 1) == 256 * pow256(j as int));
        proof {
            lemma_pow256_mono(j + 1, 8);
        }
        let byte = buf[off + j] as u128;
        assert(acc + byte * p < pow256(j + 1)) by (nonlinear_arith)
            requires
                acc < p,
                byte < 256,
                pow256(j + 1) == 256 * p,
        ;
        acc = acc + byte * p;
        p = p * 256;
        j = j + 1;
    }
    proof {
        lemma_pow256_mono(n as int, 8);
    }
    acc as u64
}

proof fn lemma_pow256_mono(a: int, b: int)
    requires
        0 <= a <= b,
    ensures
        1 <= pow256(a) <= pow256(b),
    decreases b,
{
    if b > 0 {
        if a <= b - 1 {
            lemma_pow256_mono(a, b - 1);
        } else {
            lemma_pow256_mono(b - 1, b - 1);
        }
    }
}

/// Reads the frame in the buffer, if a new complete one is there (see
/// `frame_in`), with its id.
pub fn parse_frame(buf: &[u8], last_frame_id: u64) -> (r: Option<(u64, VisualCortex)>)
    ensures
        match frame_in(buf@, last_frame_id) {
            None => r is None,
            Some((w, h, id, data)) => r matches Some((fid, frame)) && fid == id && frame.width == w
                && frame.height == h && frame.data@ == data,
        },
{
    if buf.len() < OFF_PIXELS || buf[OFF_STATUS] == STATUS_WRITING {
        return None;
    }
    proof {
        lemma_pow256_eight();
    }
    let width = read_le(buf, OFF_WIDTH, 4) as u32;
    let height = read_le(buf, OFF_HEIGHT, 4) as u32;
    let frame_id = read_le(buf, OFF_FRAME_ID, 8);
    if frame_id <= last_frame_id {
        return None;
    }
    assert((width as u128) * (height as u128) <= 0xffff_ffff_ffff_ffff) by (nonlinear_arith)
        requires
            width <= u32::MAX,
            height <= u32::MAX,
    ;
    let size: u128 = (width as u128) * (height as u128) * 4;
    if size > (buf.len() - OFF_PIXELS) as u128 {
        return None;
    }
    let end = OFF_PIXELS + size as usize;
    let mut data: Vec<u8> = Vec::new();
    let mut i: usize = OFF_PIXELS;
    while i < end
        invariant
            OFF_PIXELS <= i <= end <= buf@.len(),
            data@ == buf@.subrange(OFF_PIXELS as int, i as int),
        decreases end - i,
    {
        data.push(buf[i]);
        i = i + 1;
        assert(data@ =~= buf@.subrange(OFF_PIXELS as int, i as int));
    }
    Some((frame_id, VisualCortex { width, height, data }))
}

} // verus!
