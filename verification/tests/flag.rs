use base64::Engine;
use war_analyzer::flag::{
    decode_tga, pixel_to_rgba, png_data_url, reorient_tga_pixels, tga_to_png_data_url,
    PNG_DATA_URL_PREFIX,
};

fn sample_tga_bytes() -> Vec<u8> {
    vec![
        0, 0, 10, 0, 0, 0, 0, 0, 0, 0, 0, 0, 2, 0, 1, 0, 32, 8, 0x01, 0, 0, 255, 255, 0, 255, 0,
        255,
    ]
}

fn header(image_type: u8, width: u16, height: u16, depth: u8, descriptor: u8) -> Vec<u8> {
    let mut bytes = vec![0u8; 18];
    bytes[2] = image_type;
    bytes[12..14].copy_from_slice(&width.to_le_bytes());
    bytes[14..16].copy_from_slice(&height.to_le_bytes());
    bytes[16] = depth;
    bytes[17] = descriptor;
    bytes
}

fn decode_error(bytes: &[u8]) -> String {
    match decode_tga(bytes) {
        Ok(_) => panic!("expected an error"),
        Err(error) => error,
    }
}

#[test]
fn converts_tga_flags_to_png_data_urls() {
    let data_url = tga_to_png_data_url(&sample_tga_bytes()).expect("expected data url");
    assert!(data_url.starts_with(PNG_DATA_URL_PREFIX));

    let png_bytes = base64::engine::general_purpose::STANDARD
        .decode(data_url.trim_start_matches(PNG_DATA_URL_PREFIX))
        .expect("expected base64 png");
    let decoder = png::Decoder::new(std::io::Cursor::new(png_bytes));
    let mut reader = decoder.read_info().expect("expected PNG reader");
    let mut buffer = vec![0; reader.output_buffer_size()];
    let info = reader.next_frame(&mut buffer).expect("expected PNG frame");

    assert_eq!(info.width, 2);
    assert_eq!(info.height, 1);
    assert_eq!(&buffer[..4], &[255, 0, 0, 255]);
    assert_eq!(&buffer[4..8], &[0, 255, 0, 255]);
}

#[test]
fn decodes_rle_tga_images() {
    let image = decode_tga(&sample_tga_bytes()).expect("expected decoded image");

    assert_eq!(image.width, 2);
    assert_eq!(image.height, 1);
    assert_eq!(image.rgba, vec![255, 0, 0, 255, 0, 255, 0, 255]);
}

#[test]
fn decodes_uncompressed_bottom_up_images_top_down() {
    // 1 x 2 image, 24 bits, stored bottom row first.
    let mut bytes = header(2, 1, 2, 24, 0);
    bytes.extend_from_slice(&[1, 2, 3, 4, 5, 6]);
    let image = decode_tga(&bytes).expect("expected decoded image");
    assert_eq!(image.width, 1);
    assert_eq!(image.height, 2);
    assert_eq!(image.rgba, vec![6, 5, 4, 255, 3, 2, 1, 255]);
}

#[test]
fn skips_the_image_id_before_the_pixels() {
    let mut bytes = header(2, 1, 1, 32, 0x20);
    bytes[0] = 3;
    bytes.extend_from_slice(&[9, 9, 9, 10, 20, 30, 40]);
    let image = decode_tga(&bytes).expect("expected decoded image");
    assert_eq!(image.rgba, vec![30, 20, 10, 40]);
}

#[test]
fn decodes_raw_rle_packets_and_mirrors_right_to_left_rows() {
    // 2 x 1, 24 bits, a raw packet of two pixels, stored right to left.
    let mut bytes = header(10, 2, 1, 24, 0x30);
    bytes.extend_from_slice(&[0x01, 1, 2, 3, 4, 5, 6]);
    let image = decode_tga(&bytes).expect("expected decoded image");
    assert_eq!(image.rgba, vec![6, 5, 4, 255, 3, 2, 1, 255]);
}

#[test]
fn reports_each_tga_error() {
    assert_eq!(decode_error(&[0; 17]), "TGA file is too small");
    let mut mapped = header(2, 1, 1, 24, 0);
    mapped[1] = 1;
    assert_eq!(decode_error(&mapped), "color-mapped TGA files are not supported");
    assert_eq!(decode_error(&header(3, 1, 1, 24, 0)), "unsupported TGA image type 3");
    assert_eq!(decode_error(&header(2, 1, 1, 16, 0)), "unsupported TGA pixel depth 16");
    assert_eq!(decode_error(&header(2, 0, 1, 24, 0)), "TGA image has zero width or height");
    let mut past = header(2, 1, 1, 24, 0);
    past[0] = 1;
    assert_eq!(decode_error(&past), "TGA header points past the end of the file");
    let mut short = header(2, 1, 1, 24, 0);
    short.extend_from_slice(&[1, 2]);
    assert_eq!(decode_error(&short), "unexpected end of TGA pixel data");
    assert_eq!(decode_error(&header(10, 1, 1, 24, 0)), "unexpected end of TGA RLE packet header");
    let mut run = header(10, 1, 1, 24, 0);
    run.extend_from_slice(&[0x80, 1]);
    assert_eq!(decode_error(&run), "unexpected end of TGA RLE pixel data");
    let mut raw = header(10, 1, 1, 24, 0);
    raw.extend_from_slice(&[0x00, 1, 2]);
    assert_eq!(decode_error(&raw), "unexpected end of TGA raw packet data");
    let mut overshoot = header(10, 1, 1, 24, 0);
    overshoot.extend_from_slice(&[0x81, 1, 2, 3]);
    assert_eq!(
        decode_error(&overshoot),
        "decoded TGA pixel count did not match image dimensions"
    );
    assert_eq!(
        tga_to_png_data_url(&[0; 3]).expect_err("expected an error"),
        "TGA file is too small"
    );
}

#[test]
fn converts_stored_pixels_to_rgba() {
    assert_eq!(pixel_to_rgba(&[1, 2, 3]), [3, 2, 1, 255]);
    assert_eq!(pixel_to_rgba(&[1, 2, 3, 4]), [3, 2, 1, 4]);
    assert_eq!(pixel_to_rgba(&[1, 2]), [0, 0, 0, 0]);
}

#[test]
fn reorients_bottom_up_rows_and_zeroes_the_tail() {
    let pixels = [1, 1, 1, 1, 2, 2, 2, 2, 7, 7];
    let image = reorient_tga_pixels(1, 2, 0, &pixels);
    assert_eq!(image.width, 1);
    assert_eq!(image.height, 2);
    assert_eq!(image.rgba, vec![2, 2, 2, 2, 1, 1, 1, 1, 0, 0]);
}

#[test]
fn writes_png_data_urls_in_standard_base64() {
    assert_eq!(png_data_url(b"Man"), "data:image/png;base64,TWFu");
    assert_eq!(png_data_url(b"Ma"), "data:image/png;base64,TWE=");
    assert_eq!(png_data_url(b"M"), "data:image/png;base64,TQ==");
    assert_eq!(png_data_url(&[0xfb, 0xff]), "data:image/png;base64,+/8=");
    assert_eq!(png_data_url(b""), "data:image/png;base64,");
}

#[test]
fn reorienting_twice_gives_the_stored_pixels_back() {
    let pixels: Vec<u8> = (0u8..24).collect();
    for descriptor in [0u8, 0x10, 0x20, 0x30] {
        let once = reorient_tga_pixels(3, 2, descriptor, &pixels);
        let twice = reorient_tga_pixels(3, 2, descriptor, &once.rgba);
        assert_eq!(twice.rgba, pixels);
    }
}
