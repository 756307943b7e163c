use lib::draw::AsBytes;
use lib::paltex::common::{Color, Header, PalTex};
use lib::paltex::decoding::{decode_header, decode_main, decode_op, decode_palette, perform_op};
use lib::paltex::encoding::{encode_main, encode_op};

#[test]
fn test_op_roundtrip() {
    fn test(op: u8) {
        let decoded = decode_op(op);
        assert_eq!(encode_op(decoded.0, decoded.1, decoded.2), op);
    }

    for i in 0..=255 {
        test(i);
    }
}

#[test]
fn test_op_clamp() {
    assert_eq!(decode_op(encode_op(0, 0, 0)), (0, 0, 1));
    assert_eq!(decode_op(encode_op(1, 0, 0)), (1, 0, 1));
    assert_eq!(decode_op(encode_op(15, 0, 1)), (15, 0, 1));
    assert_eq!(decode_op(encode_op(16, 0, 1)), (15, 0, 1));
    assert_eq!(decode_op(encode_op(255, 1, 0)), (15, 1, 1));
    assert_eq!(decode_op(encode_op(255, 0, 1)), (15, 0, 1));
    assert_eq!(decode_op(encode_op(255, 1, 1)), (15, 1, 1));
    assert_eq!(decode_op(encode_op(255, 0, 255)), (15, 0, 8));
    assert_eq!(decode_op(encode_op(255, 1, 255)), (15, 1, 8));
    assert_eq!(decode_op(encode_op(255, 255, 255)), (15, 1, 8));
}

#[test]
fn test_main_encode() {
    let mut output = Vec::new();
    encode_main(&[0, 0, 0, 0, 0], 5, &mut output);
    assert_eq!(output, &[encode_op(0, 0, 5)]);
    output.clear();
    encode_main(&[1, 1, 1, 0, 0], 5, &mut output);
    assert_eq!(output, &[encode_op(1, 0, 3), encode_op(0, 0, 2)]);
    output.clear();
    encode_main(&[2, 0, 0, 0, 0, 2, 1, 1, 1, 1], 5, &mut output);
    assert_eq!(
        output,
        &[encode_op(2, 1, 2), encode_op(0, 0, 4), encode_op(1, 0, 4)]
    );
}

#[test]
fn test_main_roundtrip() {
    let input = &[
        0, 1, 0, 0, 0, //
        0, 0, 1, 0, 0, //
        0, 2, 0, 1, 0, //
        0, 2, 0, 0, 1, //
        0, 0, 0, 0, 0, //
    ];
    let mut output = Vec::new();
    encode_main(input, 5, &mut output);
    let header = Header {
        width: 5,
        height: 5,
        pal_len: 15,
    };
    let decoded = decode_main(&header, &output);
    assert_eq!(decoded, input);
}

#[test]
fn encode_op_packs_color_direction_and_length() {
    assert_eq!(encode_op(3, 1, 8), 0b1111_0011);
    assert_eq!(encode_op(0, 0, 1), 0);
    assert_eq!(decode_op(0b1010_0101), (5, 1, 3));
}

#[test]
fn perform_op_skips_filled_pixels() {
    let mut data = [255, 7, 255, 255, 255, 255];
    perform_op(&mut data, 0, 3, 1, 3);
    assert_eq!(data, [3, 7, 3, 3, 255, 255]);
    let mut data = [255, 255, 255, 255, 255, 255];
    perform_op(&mut data, 1, 2, 2, 8);
    assert_eq!(data, [255, 2, 255, 2, 255, 2]);
}

#[test]
fn decode_main_caps_the_image_at_eight_pixels_per_op() {
    let header = Header {
        width: 10,
        height: 10,
        pal_len: 0,
    };
    let decoded = decode_main(&header, &[encode_op(1, 0, 8)]);
    assert_eq!(decoded, vec![1; 8]);
}

#[test]
fn header_and_palette_decode() {
    let mut bytes = vec![2, 0, 1, 0, 20, 0];
    assert_eq!(
        decode_header(&bytes).unwrap(),
        Header {
            width: 2,
            height: 1,
            pal_len: 15
        }
    );
    bytes[4] = 1;
    bytes.extend_from_slice(&[10, 20, 30, 40, 0x12]);
    let header = decode_header(&bytes).unwrap();
    let (palette, rest) = decode_palette(&header, &bytes).unwrap();
    assert_eq!(
        palette,
        vec![
            Color::transparent(),
            Color::from_rgba_u8([10, 20, 30, 40])
        ]
    );
    assert_eq!(rest, &[0x12]);
    assert!(decode_palette(&Header { width: 1, height: 1, pal_len: 2 }, &bytes).is_err());
    assert!(decode_header(&[1, 0, 0, 0, 0, 0]).is_err());
    assert!(decode_header(&[1, 0, 1, 0, 0]).is_err());
}

#[test]
fn full_decode() {
    let bytes = [2, 0, 1, 0, 1, 0, 9, 8, 7, 6, encode_op(1, 0, 2)];
    let tex = PalTex::from_encoded(&bytes).unwrap();
    assert_eq!(tex.width, 2);
    assert_eq!(tex.height, 1);
    assert_eq!(tex.palette.len(), 2);
    assert_eq!(tex.palette[1].to_rgba_u8(), [9, 8, 7, 6]);
    assert_eq!(tex.data, vec![1, 1]);
    assert!(PalTex::from_encoded(&bytes[..9]).is_err());
}

#[test]
fn encode_writes_header_palette_and_ops() {
    let tex = PalTex {
        width: 3,
        height: 1,
        palette: vec![Color::transparent(), Color::from_rgba_u8([1, 2, 3, 4])],
        data: vec![1, 1, 1],
    };
    let mut out = Vec::new();
    lib::paltex::encode(&tex, &mut out);
    assert_eq!(
        out,
        vec![3, 0, 1, 0, 2, 0, 0, 0, 0, 0, 1, 2, 3, 4, encode_op(1, 0, 3)]
    );
}

#[test]
fn ascii_map_builds_palette_and_indices() {
    let red = Color::from_rgba_u8([255, 0, 0, 255]);
    let blue = Color::from_rgba_u8([0, 0, 255, 255]);
    let legend = [(b'r', red), (b'.', Color::transparent()), (b'b', blue)];
    let tex = PalTex::from_ascii_map(&legend, &[*b"r.b", *b"bbx"]);
    assert_eq!(tex.width, 3);
    assert_eq!(tex.height, 2);
    assert_eq!(tex.palette, vec![Color::transparent(), red, blue]);
    assert_eq!(tex.data, vec![1, 0, 2, 2, 2, 0]);
}

#[test]
fn vertical_runs_are_preferred_on_ties() {
    let mut out = Vec::new();
    encode_main(&[4, 5, 4, 5], 2, &mut out);
    assert_eq!(out, vec![encode_op(4, 1, 2), encode_op(5, 1, 2)]);
}

#[test]
fn encoding_then_decoding_gives_the_texture_back() {
    let red = Color::from_rgba_u8([255, 0, 0, 255]);
    let blue = Color::from_rgba_u8([0, 0, 255, 255]);
    let data: Vec<u8> = (0..7 * 3).map(|i| ((i * 7) % 3) as u8).collect();
    let tex = PalTex { width: 7, height: 3, palette: vec![red, blue], data: data.clone() };
    let mut out = Vec::new();
    lib::paltex::encode(&tex, &mut out);
    let back = lib::paltex::decode(&out).unwrap();
    assert_eq!(back.width, 7);
    assert_eq!(back.height, 3);
    assert_eq!(back.palette, vec![Color::transparent(), red, blue]);
    assert_eq!(back.data, data);
}

#[test]
fn byte_views_of_header_and_color() {
    let h = Header { width: 0x0102, height: 3, pal_len: 4 };
    assert_eq!(h.as_bytes(), vec![2, 1, 3, 0, 4, 0]);
    assert_eq!(Color::from_rgba_u8([1, 2, 3, 4]).as_bytes(), vec![1, 2, 3, 4]);
    assert_eq!(7u8.as_bytes(), vec![7]);
}
