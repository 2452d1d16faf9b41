//! Both ends of a screen-to-camera vcode link, without the screen and the
//! camera: the frame images a sender shows (its packets spread round-robin
//! over the blocks of each frame), the report a scan hands back, and the
//! preparation of a camera luma plane (stride removal and rotation) before
//! it is scanned.

use vstd::prelude::*;
use std::borrow::ToOwned;
use crate::vcode::{
    opt_view, DecodedFrame, blocks_view, encode_frame, frame_drawn, frame_encodable, Bitmap, FrameHeader, Layout, CORNER, HEADER_LEN,
    STRIP_H, VERSION, lemma_frame_roundtrip, spec_decode_frame, FrameError,
};

verus! {

/// A frame image: grayscale, one cell per pixel, row-major, 0 = black,
/// 255 = white.
pub struct VcodeFrameImage {
    pub width: u32,
    pub height: u32,
    pub pixels: Vec<u8>,
}

/// `p` cut or zero-padded to `n` bytes.
pub open spec fn resized(p: Seq<u8>, n: int) -> Seq<u8> {
    if n <= p.len() {
        p.subrange(0, n)
    } else {
        p + Seq::new((n - p.len()) as nat, |k: int| 0u8)
    }
}

/// The blocks of frame `i` of a sender with `packets`: block `j` carries
/// packet `(i * block_count + j) mod packet_count` (every frame is full),
/// padded or cut to the block payload length.
pub open spec fn tx_blocks(l: Layout, packets: Seq<Seq<u8>>, i: int) -> Seq<Seq<u8>> {
    let bc = l.spec_block_count();
    Seq::new(
        bc as nat,
        |j: int| resized(packets[(i * bc + j) % (packets.len() as int)], l.spec_block_payload_len()),
    )
}

/// The header of frame `i` of a sender: 1 bit per cell, the sequence number
/// `i` modulo 2^16.
pub open spec fn tx_header(l: Layout, oti: [u8; 12], i: int) -> FrameHeader {
    FrameHeader { version: VERSION, bits_per_cell: 1, layout: l, frame_seq: (i % 65536) as u16, oti }
}

/// A frame image as a bitmap.
pub open spec fn image_bitmap(img: VcodeFrameImage) -> Bitmap {
    Bitmap { w: img.width as usize, h: img.height as usize, data: img.pixels }
}

/// A sender can draw frames of layout `l`: its sizes fit, a header copy fits
/// between the corners, blocks have room for their CRC, and the image and
/// its sides fit.
pub open spec fn tx_layout_ok(l: Layout) -> bool {
    &&& l.sizes_fit()
    &&& l.spec_width() > 2 * CORNER + (HEADER_LEN * 8) as int / (STRIP_H as int)
    &&& l.spec_block_bytes() >= 2
    &&& l.spec_width() * l.spec_height() <= usize::MAX
    &&& l.spec_width() <= u32::MAX
    &&& l.spec_height() <= u32::MAX
}

/// Frame `i` of a sender whose encoded packets are `packets`, drawn at one
/// pixel per cell.
pub fn frame_gray(layout: Layout, oti: [u8; 12], packets: &[Vec<u8>], i: u32) -> (img: VcodeFrameImage)
    requires
        tx_layout_ok(layout),
        packets@.len() > 0,
        (i + 1) * layout.spec_block_count() <= usize::MAX,
    ensures
        img.width == layout.spec_width(),
        img.height == layout.spec_height(),
        frame_drawn(
            &image_bitmap(img),
            tx_header(layout, oti, i as int),
            tx_blocks(layout, blocks_view(packets@), i as int),
            1,
        ),
{
    let bc = layout.block_count();
    let pc = packets.len();
    let payload_len = layout.block_payload_len();
    let header = FrameHeader {
        version: VERSION,
        bits_per_cell: 1,
        layout,
        frame_seq: (i % 0x10000) as u16,
        oti,
    };
    let ghost target = tx_blocks(layout, blocks_view(packets@), i as int);
    let mut blocks: Vec<Vec<u8>> = Vec::new();
    let mut j: usize = 0;
    while j < bc
        invariant
            bc == layout.spec_block_count(),
            pc == packets@.len(),
            pc > 0,
            payload_len == layout.spec_block_payload_len(),
            (i + 1) * bc <= usize::MAX,
            target == tx_blocks(layout, blocks_view(packets@), i as int),
            j <= bc,
            blocks@.len() == j,
            forall|k: int| 0 <= k < j ==> (#[trigger] blocks@[k])@ == target[k],
        decreases bc - j,
    {
        proof {
            assert(i * bc + j < (i + 1) * bc) by (nonlinear_arith)
                requires
                    j < bc,
            ;
        }
        let idx = (i as usize * bc + j) % pc;
        let mut p = packets[idx].clone();
        proof {
            assert(p@ =~= packets@[idx as int]@);
        }
        p.resize(payload_len, 0);
        proof {
            assert(blocks_view(packets@)[idx as int] == packets@[idx as int]@);
            assert(p@ =~= target[j as int]);
        }
        blocks.push(p);
        j += 1;
    }
    proof {
        assert(blocks_view(blocks@) =~= target);
        assert(frame_encodable(header, blocks_view(blocks@), 1));
    }
    let bm = encode_frame(&header, blocks.as_slice(), 1);
    let img = VcodeFrameImage { width: bm.w as u32, height: bm.h as u32, pixels: bm.data };
    proof {
        assert(image_bitmap(img) == bm);
    }
    img
}

/// The result of one scan. When `detected` is false, `error` says why.
pub struct VcodeScanReport {
    pub detected: bool,
    /// Whether the frame was found by following the previous one.
    pub from_tracking: bool,
    pub frame_seq: u32,
    pub oti: Vec<u8>,
    /// Payloads of the blocks whose CRC matched (serialized packets).
    pub packets: Vec<Vec<u8>>,
    pub blocks_ok: u32,
    pub blocks_total: u32,
    pub error: Option<String>,
    /// The rotated grayscale image, when a debug dump was asked for.
    pub debug_gray: Option<Vec<u8>>,
    pub debug_w: u32,
    pub debug_h: u32,
}

/// A report of a failed scan, giving `reason`; every other field is empty
/// or zero.
pub fn fail(reason: &str) -> (r: VcodeScanReport)
    ensures
        !r.detected,
        !r.from_tracking,
        r.frame_seq == 0,
        r.oti@.len() == 0,
        r.packets@.len() == 0,
        r.blocks_ok == 0,
        r.blocks_total == 0,
        r.error matches Some(e) && e@ == reason@,
        r.debug_gray is None,
        r.debug_w == 0,
        r.debug_h == 0,
{
    VcodeScanReport {
        detected: false,
        from_tracking: false,
        frame_seq: 0,
        oti: Vec::new(),
        packets: Vec::new(),
        blocks_ok: 0,
        blocks_total: 0,
        error: Some(reason.to_owned()),
        debug_gray: None,
        debug_w: 0,
        debug_h: 0,
    }
}

/// `p` cut to at most `n` bytes.
pub open spec fn cut(p: Seq<u8>, n: int) -> Seq<u8> {
    if n < p.len() {
        p.subrange(0, n)
    } else {
        p
    }
}

/// The payloads of the recovered blocks among `blocks`, in order, each cut
/// to `packet_len` bytes (block payloads may carry zero padding).
pub open spec fn recovered_packets(blocks: Seq<Option<Seq<u8>>>, packet_len: int) -> Seq<Seq<u8>>
    decreases blocks.len(),
{
    if blocks.len() == 0 {
        Seq::empty()
    } else {
        let rest = recovered_packets(blocks.drop_last(), packet_len);
        match blocks.last() {
            Some(p) => rest.push(cut(p, packet_len)),
            None => rest,
        }
    }
}

/// There are never more recovered packets than blocks.
proof fn lemma_recovered_len(blocks: Seq<Option<Seq<u8>>>, packet_len: int)
    ensures
        recovered_packets(blocks, packet_len).len() <= blocks.len(),
    decreases blocks.len(),
{
    if blocks.len() > 0 {
        lemma_recovered_len(blocks.drop_last(), packet_len);
    }
}

/// The blocks of a decoded frame by their views.
pub open spec fn frame_blocks_view(frame: DecodedFrame) -> Seq<Option<Seq<u8>>> {
    Seq::new(frame.blocks@.len(), |i: int| opt_view(frame.blocks@[i]))
}

/// The report of a successful scan of `frame` (of a layout with
/// `blocks_total` blocks): its header fields and the payloads of the blocks
/// whose CRC matched, each cut to `packet_len` bytes (the serialized packet
/// length the header's OTI gives).
pub fn success(frame: DecodedFrame, from_tracking: bool, blocks_total: u32, packet_len: usize) -> (r: VcodeScanReport)
    requires
        frame.blocks@.len() <= u32::MAX,
    ensures
        r.detected,
        r.from_tracking == from_tracking,
        r.frame_seq == frame.header.frame_seq,
        r.oti@ == frame.header.oti@,
        r.packets@.len() == recovered_packets(frame_blocks_view(frame), packet_len as int).len(),
        forall|i: int|
            0 <= i < r.packets@.len() ==> (#[trigger] r.packets@[i])@ == recovered_packets(
                frame_blocks_view(frame),
                packet_len as int,
            )[i],
        r.blocks_ok == r.packets@.len(),
        r.blocks_total == blocks_total,
        r.error is None,
        r.debug_gray is None,
        r.debug_w == 0,
        r.debug_h == 0,
{
    let ghost all = frame_blocks_view(frame);
    let mut packets: Vec<Vec<u8>> = Vec::new();
    let mut i: usize = 0;
    while i < frame.blocks.len()
        invariant
            all == frame_blocks_view(frame),
            i <= frame.blocks@.len(),
            packets@.len() == recovered_packets(all.subrange(0, i as int), packet_len as int).len(),
            forall|k: int|
                0 <= k < packets@.len() ==> (#[trigger] packets@[k])@ == recovered_packets(
                    all.subrange(0, i as int),
                    packet_len as int,
                )[k],
        decreases frame.blocks@.len() - i,
    {
        proof {
            assert(all.subrange(0, i + 1).drop_last() =~= all.subrange(0, i as int));
        }
        match &frame.blocks[i] {
            Some(p) => {
                let mut q = p.clone();
                proof {
                    assert(q@ =~= p@);
                }
                if packet_len < q.len() {
                    q.truncate(packet_len);
                }
                packets.push(q);
            },
            None => {},
        }
        i += 1;
    }
    proof {
        assert(all.subrange(0, all.len() as int) =~= all);
        lemma_recovered_len(all, packet_len as int);
    }
    let mut oti: Vec<u8> = Vec::new();
    let mut k: usize = 0;
    while k < 12
        invariant
            k <= 12,
            oti@ =~= frame.header.oti@.subrange(0, k as int),
        decreases 12 - k,
    {
        oti.push(frame.header.oti[k]);
        k += 1;
    }
    let blocks_ok = packets.len() as u32;
    VcodeScanReport {
        detected: true,
        from_tracking,
        frame_seq: frame.header.frame_seq as u32,
        oti,
        packets,
        blocks_ok,
        blocks_total,
        error: None,
        debug_gray: None,
        debug_w: 0,
        debug_h: 0,
    }
}

/// Width and height of a `w x h` image turned by `rot` degrees: swapped
/// for 90 and 270, kept otherwise.
pub open spec fn rotated_dims(rot: u32, w: int, h: int) -> (int, int) {
    if rot == 90 || rot == 270 {
        (h, w)
    } else {
        (w, h)
    }
}

/// Where source pixel (sx, sy) of a `w x h` image lands after turning it by
/// `rot` degrees clockwise (any angle but 90, 180 and 270 leaves it).
pub open spec fn rotated_dst(rot: u32, w: int, h: int, sx: int, sy: int) -> (int, int) {
    if rot == 90 {
        (h - 1 - sy, sx)
    } else if rot == 180 {
        (w - 1 - sx, h - 1 - sy)
    } else if rot == 270 {
        (sy, w - 1 - sx)
    } else {
        (sx, sy)
    }
}

/// The source pixel that lands on (dx, dy).
pub open spec fn rotated_src(rot: u32, w: int, h: int, dx: int, dy: int) -> (int, int) {
    if rot == 90 {
        (dy, h - 1 - dx)
    } else if rot == 180 {
        (w - 1 - dx, h - 1 - dy)
    } else if rot == 270 {
        (w - 1 - dy, dx)
    } else {
        (dx, dy)
    }
}

/// The `w x h` image stored in `y` with `stride` bytes per row, turned by
/// `rot` degrees, row-major without padding.
pub open spec fn spec_rotated(y: Seq<u8>, w: int, h: int, stride: int, rot: u32) -> Seq<u8> {
    let d = rotated_dims(rot, w, h);
    Seq::new(
        (d.0 * d.1) as nat,
        |i: int|
            {
                let s = rotated_src(rot, w, h, i % d.0, i / d.0);
                y[s.1 * stride + s.0]
            },
    )
}

/// Turning takes in-image pixels to in-image pixels, and the source of a
/// pixel's destination is that pixel.
proof fn lemma_rotated_dst(rot: u32, w: int, h: int, sx: int, sy: int)
    requires
        0 <= sx < w,
        0 <= sy < h,
    ensures
        0 <= rotated_dst(rot, w, h, sx, sy).0 < rotated_dims(rot, w, h).0,
        0 <= rotated_dst(rot, w, h, sx, sy).1 < rotated_dims(rot, w, h).1,
        rotated_src(rot, w, h, rotated_dst(rot, w, h, sx, sy).0, rotated_dst(rot, w, h, sx, sy).1)
            == (sx, sy),
{
}

/// Every in-image pixel of the turned image comes from an in-image source
/// pixel, and is that pixel's destination.
proof fn lemma_rotated_src(rot: u32, w: int, h: int, dx: int, dy: int)
    requires
        0 <= dx < rotated_dims(rot, w, h).0,
        0 <= dy < rotated_dims(rot, w, h).1,
    ensures
        0 <= rotated_src(rot, w, h, dx, dy).0 < w,
        0 <= rotated_src(rot, w, h, dx, dy).1 < h,
        rotated_dst(rot, w, h, rotated_src(rot, w, h, dx, dy).0, rotated_src(rot, w, h, dx, dy).1)
            == (dx, dy),
{
}

/// Index `i` of the turned image splits into an in-image pixel (column
/// `i % rw`, row `i / rw`) whose source pixel is in the image.
proof fn lemma_dest_index(rot: u32, w: int, h: int, rw: int, rh: int, i: int)
    requires
        0 <= w,
        0 <= h,
        (rw, rh) == rotated_dims(rot, w, h),
        0 <= i < rw * rh,
    ensures
        rw > 0,
        i == (i / rw) * rw + i % rw,
        0 <= i % rw < rw,
        0 <= i / rw < rh,
        0 <= rotated_src(rot, w, h, i % rw, i / rw).0 < w,
        0 <= rotated_src(rot, w, h, i % rw, i / rw).1 < h,
        rotated_dst(rot, w, h, rotated_src(rot, w, h, i % rw, i / rw).0, rotated_src(rot, w, h, i % rw, i / rw).1)
            == (i % rw, i / rw),
{
    assert(rw > 0) by (nonlinear_arith)
        requires
            0 <= i < rw * rh,
            rh >= 0,
    ;
    let qx = i % rw;
    let qy = i / rw;
    vstd::arithmetic::div_mod::lemma_fundamental_div_mod(i, rw);
    assert(qy * rw == rw * qy) by (nonlinear_arith);
    assert(0 <= qy < rh) by (nonlinear_arith)
        requires
            i == rw * qy + qx,
            0 <= qx < rw,
            0 <= i < rw * rh,
    ;
    lemma_rotated_src(rot, w, h, qx, qy);
}

/// Source pixel `s` comes before (sx, sy) in row-major order.
pub open spec fn src_before(s: (int, int), sx: int, sy: int) -> bool {
    s.1 < sy || (s.1 == sy && s.0 < sx)
}

/// Removes the row padding of a `w x h` luma plane with `stride` bytes per
/// row and turns it by `rot` degrees (0, 90, 180 or 270; other values leave
/// it unturned). Returns the image and its width and height.
pub fn rotate_y_plane(y: &[u8], w: usize, h: usize, stride: usize, rot: u32) -> (res: (
    Vec<u8>,
    usize,
    usize,
))
    requires
        w * h <= usize::MAX,
        h > 0 ==> (h - 1) * stride + w <= y@.len(),
    ensures
        (res.1 as int, res.2 as int) == rotated_dims(rot, w as int, h as int),
        res.0@ == spec_rotated(y@, w as int, h as int, stride as int, rot),
{
    let rw: usize = if rot == 90 || rot == 270 { h } else { w };
    let rh: usize = if rot == 90 || rot == 270 { w } else { h };
    proof {
        assert(rw * rh == w * h) by (nonlinear_arith)
            requires
                (rw == h && rh == w) || (rw == w && rh == h),
        ;
    }
    let n = rw * rh;
    let mut gray: Vec<u8> = vec![0u8; n];
    let ghost target = spec_rotated(y@, w as int, h as int, stride as int, rot);
    let _len = y.len();
    proof {
        assert forall|i: int| 0 <= i < n implies #[trigger] gray@[i] == if src_before(
            rotated_src(rot, w as int, h as int, i % (rw as int), i / (rw as int)),
            0,
            0,
        ) {
            target[i]
        } else {
            0u8
        } by {
            lemma_dest_index(rot, w as int, h as int, rw as int, rh as int, i);
        }
    }
    let mut sy: usize = 0;
    while sy < h
        invariant
            (rw as int, rh as int) == rotated_dims(rot, w as int, h as int),
            n == rw * rh,
            w * h <= usize::MAX,
            h > 0 ==> (h - 1) * stride + w <= y@.len(),
            y@.len() <= usize::MAX,
            target == spec_rotated(y@, w as int, h as int, stride as int, rot),
            sy <= h,
            gray@.len() == n,
            forall|i: int|
                0 <= i < n ==> #[trigger] gray@[i] == if src_before(
                    rotated_src(rot, w as int, h as int, i % (rw as int), i / (rw as int)),
                    0,
                    sy as int,
                ) {
                    target[i]
                } else {
                    0u8
                },
        decreases h - sy,
    {
        proof {
            assert(sy * stride + w <= (h - 1) * stride + w) by (nonlinear_arith)
                requires
                    sy < h,
            ;
        }
        let base = sy * stride;
        let mut sx: usize = 0;
        while sx < w
            invariant
                (rw as int, rh as int) == rotated_dims(rot, w as int, h as int),
                n == rw * rh,
                target == spec_rotated(y@, w as int, h as int, stride as int, rot),
                sy < h,
                base == sy * stride,
                base + w <= y@.len(),
                y@.len() <= usize::MAX,
                sx <= w,
                gray@.len() == n,
                forall|i: int|
                    0 <= i < n ==> #[trigger] gray@[i] == if src_before(
                        rotated_src(rot, w as int, h as int, i % (rw as int), i / (rw as int)),
                        sx as int,
                        sy as int,
                    ) {
                        target[i]
                    } else {
                        0u8
                    },
            decreases w - sx,
        {
            let dx: usize = if rot == 90 {
                rw - 1 - sy
            } else if rot == 180 {
                rw - 1 - sx
            } else if rot == 270 {
                sy
            } else {
                sx
            };
            let dy: usize = if rot == 90 {
                sx
            } else if rot == 180 {
                rh - 1 - sy
            } else if rot == 270 {
                rh - 1 - sx
            } else {
                sy
            };
            let ghost old_gray = gray@;
            proof {
                lemma_rotated_dst(rot, w as int, h as int, sx as int, sy as int);
                assert((dx as int, dy as int) == rotated_dst(rot, w as int, h as int, sx as int, sy as int));
                assert(dy * rw + dx < rw * rh) by (nonlinear_arith)
                    requires
                        dx < rw,
                        dy < rh,
                ;
                vstd::arithmetic::div_mod::lemma_fundamental_div_mod_converse(
                    (dy * rw + dx) as int,
                    rw as int,
                    dy as int,
                    dx as int,
                );
            }
            let di = dy * rw + dx;
            gray.set(di, y[base + sx]);
            proof {
                assert forall|i: int| 0 <= i < n implies #[trigger] gray@[i] == if src_before(
                    rotated_src(rot, w as int, h as int, i % (rw as int), i / (rw as int)),
                    sx + 1,
                    sy as int,
                ) {
                    target[i]
                } else {
                    0u8
                } by {
                    let qx = i % (rw as int);
                    let qy = i / (rw as int);
                    lemma_dest_index(rot, w as int, h as int, rw as int, rh as int, i);
                    if i == di {
                        assert(target[i] == y@[sy * stride + sx]);
                    } else {
                        let s = rotated_src(rot, w as int, h as int, qx, qy);
                        if s == (sx as int, sy as int) {
                            assert(i == qy * rw + qx) by (nonlinear_arith)
                                requires
                                    i == rw * qy + qx,
                            ;
                        }
                        assert(old_gray[i] == gray@[i]);
                    }
                }
            }
            sx += 1;
        }
        proof {
            assert forall|i: int| 0 <= i < n implies #[trigger] gray@[i] == if src_before(
                rotated_src(rot, w as int, h as int, i % (rw as int), i / (rw as int)),
                0,
                sy + 1,
            ) {
                target[i]
            } else {
                0u8
            } by {
                lemma_dest_index(rot, w as int, h as int, rw as int, rh as int, i);
            }
        }
        sy += 1;
    }
    proof {
        assert forall|i: int| 0 <= i < n implies #[trigger] gray@[i] == target[i] by {
            lemma_dest_index(rot, w as int, h as int, rw as int, rh as int, i);
        }
        assert(gray@ =~= target);
    }
    (gray, rw, rh)
}

/// What a receiver reads from sender frame `i`: decoding the image that
/// `frame_gray` draws (at one pixel per cell) gives a header that carries
/// the layout, 1 bit per cell, the sequence number `i mod 2^16` and the
/// given OTI unchanged, and block `j` carries packet
/// `(i * block_count + j) mod packet_count`, padded or cut to the block
/// payload length. The layout fields must each fit the header's byte and the
/// layout must have a row of blocks.
pub proof fn lemma_sender_frame_decodes(
    img: VcodeFrameImage,
    layout: Layout,
    oti: [u8; 12],
    packets: Seq<Seq<u8>>,
    i: int,
)
    requires
        tx_layout_ok(layout),
        layout.block <= 255,
        layout.grid_w <= 255,
        1 <= layout.grid_h <= 255,
        packets.len() > 0,
        0 <= i,
        frame_drawn(&image_bitmap(img), tx_header(layout, oti, i), tx_blocks(layout, packets, i), 1),
    ensures
        spec_decode_frame(&image_bitmap(img), 1) matches Ok((hd, bs)) && {
            &&& hd.oti == oti
            &&& hd.frame_seq as int == i % 65536
            &&& hd.layout == layout
            &&& hd.bits_per_cell == 1
            &&& hd.version == VERSION
            &&& bs.len() == layout.spec_block_count()
            &&& forall|j: int|
                0 <= j < bs.len() ==> #[trigger] bs[j] == Some(
                    resized(
                        packets[(i * layout.spec_block_count() + j) % (packets.len() as int)],
                        layout.spec_block_payload_len(),
                    ),
                )
        },
{
    let h = tx_header(layout, oti, i);
    let blocks = tx_blocks(layout, packets, i);
    let bm = image_bitmap(img);
    assert forall|j: int| 0 <= j < blocks.len() implies (#[trigger] blocks[j]).len()
        == layout.spec_block_payload_len() by {
    }
    assert(frame_encodable(h, blocks, 1));
    lemma_frame_roundtrip(&bm, h, blocks, 1);
    assert(h.oti == oti);
    assert(h.frame_seq as int == i % 65536);
}

} // verus!
