use beyond_qr::link::{fail, frame_gray, rotate_y_plane, success, VcodeFrameImage};
use beyond_qr::vcode::{decode_frame, Bitmap, Layout};

#[test]
fn fail_reports_only_the_reason() {
    let r = fail("no frame");
    assert!(!r.detected);
    assert!(!r.from_tracking);
    assert_eq!(r.frame_seq, 0);
    assert!(r.oti.is_empty());
    assert!(r.packets.is_empty());
    assert_eq!((r.blocks_ok, r.blocks_total), (0, 0));
    assert_eq!(r.error.as_deref(), Some("no frame"));
    assert!(r.debug_gray.is_none());
    assert_eq!((r.debug_w, r.debug_h), (0, 0));
}

// A 3x2 image stored with stride 4 (one padding byte per row):
//   1 2 3
//   4 5 6
const PLANE: [u8; 7] = [1, 2, 3, 99, 4, 5, 6];

#[test]
fn rotate_0_drops_the_padding() {
    assert_eq!(rotate_y_plane(&PLANE, 3, 2, 4, 0), (vec![1, 2, 3, 4, 5, 6], 3, 2));
}

#[test]
fn rotate_90_turns_clockwise() {
    //   4 1
    //   5 2
    //   6 3
    assert_eq!(rotate_y_plane(&PLANE, 3, 2, 4, 90), (vec![4, 1, 5, 2, 6, 3], 2, 3));
}

#[test]
fn rotate_180_reverses() {
    assert_eq!(rotate_y_plane(&PLANE, 3, 2, 4, 180), (vec![6, 5, 4, 3, 2, 1], 3, 2));
}

#[test]
fn rotate_270_turns_counterclockwise() {
    //   3 6
    //   2 5
    //   1 4
    assert_eq!(rotate_y_plane(&PLANE, 3, 2, 4, 270), (vec![3, 6, 2, 5, 1, 4], 2, 3));
}

#[test]
fn other_angles_leave_the_image() {
    assert_eq!(rotate_y_plane(&PLANE, 3, 2, 4, 45), (vec![1, 2, 3, 4, 5, 6], 3, 2));
}

#[test]
fn frame_image_holds_its_pixels() {
    let img = VcodeFrameImage { width: 2, height: 1, pixels: vec![0, 255] };
    assert_eq!(img.pixels.len() as u32, img.width * img.height);
}

#[test]
fn sender_frames_cycle_through_packets() {
    let layout = Layout::v0();
    let packets: Vec<Vec<u8>> = vec![vec![1; 48], vec![2; 30], vec![3; 60]];
    let oti = [7u8; 12];
    let img = frame_gray(layout, oti, &packets, 1);
    assert_eq!((img.width, img.height), (100, 92));
    let bm = Bitmap { w: img.width as usize, h: img.height as usize, data: img.pixels };
    let decoded = decode_frame(&bm, 1).unwrap();
    assert_eq!(decoded.header.frame_seq, 1);
    assert_eq!(decoded.header.oti, oti);
    assert_eq!(decoded.blocks.len(), 20);
    // Frame 1 starts with packet (1 * 20 + 0) mod 3 = 2.
    assert_eq!(decoded.blocks[0].as_deref(), Some(&[3u8; 48][..]));
    // Short packets are zero-padded.
    let mut second = vec![1u8; 48];
    second.truncate(48);
    assert_eq!(decoded.blocks[1].as_deref(), Some(&second[..]));
    let mut third = vec![2u8; 30];
    third.resize(48, 0);
    assert_eq!(decoded.blocks[2].as_deref(), Some(&third[..]));
}

#[test]
fn success_reports_recovered_packets_cut_to_length() {
    let layout = Layout::v0();
    let packets: Vec<Vec<u8>> = vec![vec![5; 48], vec![6; 48]];
    let img = frame_gray(layout, [3u8; 12], &packets, 0);
    let bm = Bitmap { w: img.width as usize, h: img.height as usize, data: img.pixels };
    let mut decoded = decode_frame(&bm, 1).unwrap();
    decoded.blocks[1] = None;
    let r = success(decoded, true, 20, 44);
    assert!(r.detected);
    assert!(r.from_tracking);
    assert_eq!(r.frame_seq, 0);
    assert_eq!(r.oti, vec![3u8; 12]);
    assert_eq!(r.blocks_ok, 19);
    assert_eq!(r.blocks_total, 20);
    assert_eq!(r.packets.len(), 19);
    assert_eq!(r.packets[0], vec![5u8; 44]);
    // Block 1 was lost: the next packet comes from block 2 (packet 0 again).
    assert_eq!(r.packets[1], vec![5u8; 44]);
    assert_eq!(r.packets[2], vec![6u8; 44]);
    assert!(r.error.is_none());
}
