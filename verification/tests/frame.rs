use beyond_qr::decoder::{decode_payload, is_decodable};
use beyond_qr::encoder::{encode_payload, is_encodable};
use beyond_qr::frame::{make_spec, CellRole, Frame, FrameSpec};

#[test]
fn phase_0_spec_consistent() {
    let s = FrameSpec::phase_0();
    assert_eq!(s.total_cells(), 128 * 128);
    // 4 corners x (7+1)^2 = 256 (finder 49 + quiet zone 15 per corner)
    assert_eq!(s.finder_cells(), 4 * 8 * 8);
    assert_eq!(s.calibration_cells(), 128);
    assert_eq!(s.data_cells(), 128 * 128 - 256 - 128);
    assert_eq!(s.image_dimensions(), (1024, 1024));
    assert!(s.max_payload_bytes() >= 500);
}

#[test]
fn quiet_zone_around_finders_is_white() {
    let s = FrameSpec::phase_0();
    for c in 0..=7 {
        assert_eq!(s.cell_role(7, c), CellRole::Finder(7), "TL bottom qz col {c}");
    }
    for r in 0..=7 {
        assert_eq!(s.cell_role(r, 7), CellRole::Finder(7), "TL right qz row {r}");
    }
    assert!(matches!(s.cell_role(8, 0), CellRole::Data));
    assert!(matches!(s.cell_role(0, 8), CellRole::Data));
}

#[test]
fn finder_pattern_at_four_corners() {
    let s = FrameSpec::phase_0();
    assert!(matches!(s.cell_role(0, 0), CellRole::Finder(_)));
    assert!(matches!(s.cell_role(0, 127), CellRole::Finder(_)));
    assert!(matches!(s.cell_role(127, 0), CellRole::Finder(_)));
    assert!(matches!(s.cell_role(127, 127), CellRole::Finder(_)));
}

#[test]
fn finder_pattern_outer_ring_is_black() {
    let s = FrameSpec::phase_0();
    for c in 0..7 {
        assert_eq!(s.cell_role(0, c), CellRole::Finder(0));
        assert_eq!(s.cell_role(6, c), CellRole::Finder(0));
        assert_eq!(s.cell_role(c, 0), CellRole::Finder(0));
        assert_eq!(s.cell_role(c, 6), CellRole::Finder(0));
    }
}

#[test]
fn finder_pattern_inner_ring_is_white() {
    let s = FrameSpec::phase_0();
    for c in 1..6 {
        assert_eq!(s.cell_role(1, c), CellRole::Finder(7));
        assert_eq!(s.cell_role(5, c), CellRole::Finder(7));
    }
    for r in 1..6 {
        assert_eq!(s.cell_role(r, 1), CellRole::Finder(7));
        assert_eq!(s.cell_role(r, 5), CellRole::Finder(7));
    }
}

#[test]
fn finder_pattern_center_is_black() {
    let s = FrameSpec::phase_0();
    for r in 2..5 {
        for c in 2..5 {
            assert_eq!(s.cell_role(r, c), CellRole::Finder(0));
        }
    }
}

#[test]
fn calibration_row_at_configured_start() {
    let s = FrameSpec::phase_0();
    for c in 0..s.grid_width {
        assert!(matches!(s.cell_role(s.calibration_row_start, c), CellRole::Calibration(_)));
    }
    assert!(!matches!(s.cell_role(0, 64), CellRole::Calibration(_)));
    assert!(!matches!(s.cell_role(127, 64), CellRole::Calibration(_)));
}

#[test]
fn data_cell_count_matches_layout() {
    let s = FrameSpec::phase_0();
    let mut count = 0;
    for row in 0..s.grid_height {
        for col in 0..s.grid_width {
            if matches!(s.cell_role(row, col), CellRole::Data) {
                count += 1;
            }
        }
    }
    assert_eq!(count, s.data_cells());
}

#[test]
fn phase_0_capacity_formula() {
    let s = FrameSpec::phase_0();
    assert_eq!(s.data_cells(), 16000);
    assert_eq!(s.data_bytes(), 6000);
    assert_eq!(s.rs_blocks(), 23);
    assert_eq!(s.max_payload_bytes(), 23 * 191 - 4);
}

#[test]
fn calibration_colours_sweep_the_palette() {
    let s = FrameSpec::phase_0();
    assert_eq!(s.calibration_color_for(0), 0);
    assert_eq!(s.calibration_color_for(15), 0);
    assert_eq!(s.calibration_color_for(16), 1);
    assert_eq!(s.calibration_color_for(127), 7);
    assert_eq!(s.cell_role(64, 40), CellRole::Calibration(2));
}

#[test]
fn regular_geometry_counts_its_data_cells() {
    let s = FrameSpec::phase_0();
    assert!(s.sizes_fit());
    assert_eq!(s.data_cell_count(), s.data_cells());
    assert!(is_encodable(s));
    assert!(is_decodable(s));
}

#[test]
fn geometry_without_finders_is_encodable() {
    // finder_size 0 disables the finders: no finder or quiet-zone cells.
    let s = make_spec(64, 64, 4, 0, 10, 1);
    assert!(s.sizes_fit());
    assert_eq!(s.finder_cells(), 0);
    assert_eq!(s.data_cells(), 64 * 64 - 64);
    assert_eq!(s.data_cell_count(), s.data_cells());
    assert!(is_encodable(s));
    assert!(is_decodable(s));
    assert_eq!(s.cell_role(0, 0), CellRole::Data);
    let payload: Vec<u8> = (0..200u32).map(|i| (i * 3) as u8).collect();
    let frame = encode_payload(&payload, s).unwrap();
    assert_eq!(decode_payload(&frame).unwrap(), payload);
}

#[test]
fn overflowing_geometry_does_not_fit() {
    let s = make_spec(usize::MAX, 2, 1, 3, 0, 0);
    assert!(!s.sizes_fit());
    assert!(!is_encodable(s));
    assert!(!is_decodable(s));
}

#[test]
fn make_spec_keeps_its_parameters() {
    let s = make_spec(128, 128, 8, 7, 64, 1);
    assert_eq!(s, FrameSpec::phase_0());
}

#[test]
fn frame_get_reads_row_major() {
    let spec = make_spec(3, 2, 1, 1, 0, 0);
    let frame = Frame::new(spec, vec![0, 1, 2, 3, 4, 5]);
    assert_eq!(frame.get(0, 0), 0);
    assert_eq!(frame.get(2, 0), 2);
    assert_eq!(frame.get(1, 1), 4);
}
