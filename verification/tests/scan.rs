use beyond_qr::scan::{known_cells, GrayImage};
use beyond_qr::vcode::{encode_frame, FrameHeader, Layout, VERSION};

#[test]
fn gray_image_get_is_row_major() {
    let data = [10u8, 20, 30, 40, 50, 60];
    let img = GrayImage { w: 3, h: 2, data: &data };
    assert_eq!(img.get(0, 0), 10);
    assert_eq!(img.get(2, 0), 30);
    assert_eq!(img.get(1, 1), 50);
}

#[test]
fn known_cells_of_v0() {
    let cells = known_cells(Layout::v0());
    // 4 corner markers of 6x6, then the bottom strip between them.
    assert_eq!(cells.len(), 4 * 36 + 6 * 88);
    assert_eq!(cells[0], (0, 0, true));
    // Top-right marker starts at column 94; its inside is white.
    assert_eq!(cells[36], (0, 94, true));
    assert_eq!(cells[36 + 2 * 6 + 2], (2, 96, false));
    // Bottom-left marker: only the centre 2x2 is black inside the ring.
    assert_eq!(cells[72 + 2 * 6 + 2], (88, 2, true));
    assert_eq!(cells[72 + 1 * 6 + 1], (87, 1, false));
    // Bottom-right marker: checkerboard inside the ring.
    assert_eq!(cells[108 + 1 * 6 + 1], (87, 95, true));
    assert_eq!(cells[108 + 1 * 6 + 2], (87, 96, false));
    // The strip: row 86, column 6 first.
    assert_eq!(cells[144], (86, 6, true));
    assert_eq!(cells[145], (86, 7, false));
    assert_eq!(cells[cells.len() - 1], (91, 93, true));
}

#[test]
fn known_cells_agree_with_an_encoded_frame() {
    let layout = Layout::v0();
    let header = FrameHeader { version: VERSION, bits_per_cell: 1, layout, frame_seq: 0, oti: [0; 12] };
    let bm = encode_frame(&header, &[], 1);
    for (r, c, black) in known_cells(layout) {
        assert_eq!(bm.get(c, r) < 128, black, "cell ({r}, {c})");
    }
}
