# beyond_qr

Screen-to-camera data transfer, verified with Verus.

- `src/` is the verified library (`cargo`-style crate `beyond_qr`):
  - the 8-colour cell frame: `palette`, `frame` (geometry and cell roles),
    `bitstream` (the bit-level models of packing), `ecc` (Reed-Solomon blocks
    through the `reed-solomon` crate), `encoder`, `decoder`, and `ffi` (the
    buffer and error-code logic of the C ABI);
  - the `vcode` frame format (corner markers, CRC-checked header copies,
    independent CRC-checked blocks), `scan` (grayscale images and the cells
    every frame shows), `link` (sender frame images, scan reports, camera
    plane rotation) and `qr` (QR module matrices through the `qrcode` crate).
- Laws proved in `src/`: colour round trip (`palette::lemma_palette_roundtrip`),
  unpacking undoes packing (`bitstream::lemma_unpack_pack`), the data-cell
  count of regular geometries (`frame::lemma_regular_data_cells`), payload
  round trip (`encoder::encode_payload`), RS round trip (`ecc::encode_blocks`),
  RS correction of up to 32 corrupted bytes per block (`ecc::decode_blocks`,
  `decoder::decode_payload`), regular geometries (finders enabled or not) are
  encodable (`encoder::lemma_regular_encodable`), encodable geometries are
  decodable (`encoder::lemma_encodable_decodable`), the CRC laws
  (`vcode::lemma_crc16_laws`, `vcode::lemma_crc16_detects_byte_error`,
  `vcode::lemma_crc16_zeros_nonzero`),
  header round trip (`vcode::lemma_header_roundtrip`), frame round trip
  (`vcode::lemma_frame_roundtrip`), locality of block damage
  (`vcode::lemma_block_damage_is_local`) and the known cells
  (`scan::lemma_known_cells_match_frame`).
- `app/` holds what is not verified: floating-point colour science and camera
  geometry (homography, Otsu thresholding, corner refinement, scanning), the
  raw-pointer C ABI and the Python bindings.
