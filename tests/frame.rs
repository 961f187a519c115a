use monoio_ws::codec::{apply_mask, parse_header};
use monoio_ws::mask::{mask_blocks, mask_data, mask_scalar};
use monoio_ws::{Frame, Message, Opcode};

const MASK: [u8; 4] = [0x0a, 0xf1, 0x22, 0x33];

const LOREM_125: [u8; 125] = [
    76, 111, 114, 101, 109, 32, 105, 112, 115, 117, 109, 32, 100, 111, 108, 111, 114, 32, 115,
    105, 116, 32, 97, 109, 101, 116, 44, 32, 99, 111, 110, 115, 101, 99, 116, 101, 116, 117, 114,
    32, 97, 100, 105, 112, 105, 115, 99, 105, 110, 103, 32, 101, 108, 105, 116, 44, 32, 115, 101,
    100, 32, 100, 111, 32, 101, 105, 117, 115, 109, 111, 100, 32, 116, 101, 109, 112, 111, 114, 32,
    105, 110, 99, 105, 100, 105, 100, 117, 110, 116, 32, 117, 116, 32, 108, 97, 98, 111, 114, 101,
    32, 101, 116, 32, 100, 111, 108, 111, 114, 101, 32, 109, 97, 103, 110, 97, 32, 97, 108, 105,
    113, 117, 97, 46, 32, 85,
];

const LOREM_125_FRAME: [u8; 131] = [
    130, 253, 10, 241, 34, 51, 70, 158, 80, 86, 103, 209, 75, 67, 121, 132, 79, 19, 110, 158, 78,
    92, 120, 209, 81, 90, 126, 209, 67, 94, 111, 133, 14, 19, 105, 158, 76, 64, 111, 146, 86, 86,
    126, 132, 80, 19, 107, 149, 75, 67, 99, 130, 65, 90, 100, 150, 2, 86, 102, 152, 86, 31, 42,
    130, 71, 87, 42, 149, 77, 19, 111, 152, 87, 64, 103, 158, 70, 19, 126, 148, 79, 67, 101, 131,
    2, 90, 100, 146, 75, 87, 99, 149, 87, 93, 126, 209, 87, 71, 42, 157, 67, 81, 101, 131, 71, 19,
    111, 133, 2, 87, 101, 157, 77, 65, 111, 209, 79, 82, 109, 159, 67, 19, 107, 157, 75, 66, 127,
    144, 12, 19, 95,
];

fn binary() -> Frame {
    Frame { fin: true, opcode: Opcode::Binary }
}

fn control_encode(mut input: Vec<u8>) -> Vec<u8> {
    input.resize(input.len() + Frame::CONTROL_HEADER_LEN, 0);
    binary().encode_control_slice(&mut input, MASK);
    input
}

fn vec_encode(mut input: Vec<u8>) -> Vec<u8> {
    binary().encode_vec(&mut input, MASK);
    input
}

#[test]
fn encode_control_slice_empty() {
    assert_eq!(control_encode(vec![]), vec![130, 128, 10, 241, 34, 51]);
}

#[test]
fn encode_control_slice_hell() {
    assert_eq!(
        control_encode(vec![0x68, 0x65, 0x6C, 0x6C]),
        vec![130, 132, 10, 241, 34, 51, 98, 148, 78, 95]
    );
}

#[test]
fn encode_control_slice_hello() {
    assert_eq!(
        control_encode(vec![0x68, 0x65, 0x6C, 0x6C, 0x6F]),
        vec![130, 133, 10, 241, 34, 51, 98, 148, 78, 95, 101]
    );
}

#[test]
fn encode_control_slice_hello_world() {
    assert_eq!(
        control_encode(vec![104, 101, 108, 108, 111, 32, 119, 111, 114, 108, 100]),
        vec![130, 139, 10, 241, 34, 51, 98, 148, 78, 95, 101, 209, 85, 92, 120, 157, 70]
    );
}

#[test]
fn encode_control_slice_sixteen() {
    assert_eq!(
        control_encode(vec![
            108, 111, 114, 101, 109, 32, 105, 112, 115, 117, 109, 32, 100, 111, 108, 111
        ]),
        vec![
            130, 144, 10, 241, 34, 51, 102, 158, 80, 86, 103, 209, 75, 67, 121, 132, 79, 19, 110,
            158, 78, 92
        ]
    );
}

#[test]
fn encode_control_slice_seventeen() {
    assert_eq!(
        control_encode(vec![
            108, 111, 114, 101, 109, 32, 105, 112, 115, 117, 109, 32, 100, 111, 108, 111, 114
        ]),
        vec![
            130, 145, 10, 241, 34, 51, 102, 158, 80, 86, 103, 209, 75, 67, 121, 132, 79, 19, 110,
            158, 78, 92, 120
        ]
    );
}

#[test]
fn encode_control_slice_largest() {
    assert_eq!(control_encode(LOREM_125.to_vec()), LOREM_125_FRAME.to_vec());
}

#[test]
fn encode_vec_empty() {
    assert_eq!(vec_encode(vec![]), vec![130, 128, 10, 241, 34, 51]);
}

#[test]
fn encode_vec_hello() {
    assert_eq!(
        vec_encode(vec![0x68, 0x65, 0x6C, 0x6C, 0x6F]),
        vec![130, 133, 10, 241, 34, 51, 98, 148, 78, 95, 101]
    );
}

#[test]
fn encode_vec_sixteen() {
    assert_eq!(
        vec_encode(vec![
            108, 111, 114, 101, 109, 32, 105, 112, 115, 117, 109, 32, 100, 111, 108, 111
        ]),
        vec![
            130, 144, 10, 241, 34, 51, 102, 158, 80, 86, 103, 209, 75, 67, 121, 132, 79, 19, 110,
            158, 78, 92
        ]
    );
}

#[test]
fn encode_vec_seventeen() {
    assert_eq!(
        vec_encode(vec![
            108, 111, 114, 101, 109, 32, 105, 112, 115, 117, 109, 32, 100, 111, 108, 111, 114
        ]),
        vec![
            130, 145, 10, 241, 34, 51, 102, 158, 80, 86, 103, 209, 75, 67, 121, 132, 79, 19, 110,
            158, 78, 92, 120
        ]
    );
}

#[test]
fn encode_vec_largest_short_form() {
    assert_eq!(vec_encode(LOREM_125.to_vec()), LOREM_125_FRAME.to_vec());
}

#[test]
fn encode_vec_sixteen_bit_length() {
    let mut input = LOREM_125.to_vec();
    input.push(116);
    let mut expected = vec![130, 254, 0, 126];
    expected.extend_from_slice(&LOREM_125_FRAME[2..]);
    expected.push(133);
    assert_eq!(vec_encode(input), expected);
}

#[test]
fn encode_vec_sixty_four_bit_length() {
    let input = vec![7u8; 65536];
    let out = vec_encode(input.clone());
    assert_eq!(out.len(), 14 + 65536);
    assert_eq!(&out[..10], &[130, 255, 0, 0, 0, 0, 0, 1, 0, 0]);
    assert_eq!(&out[10..14], &MASK);
    assert_eq!(out[14], 7 ^ 0x0a);
    assert_eq!(out[17], 7 ^ 0x33);
}

#[test]
fn encode_vec_length_forms_at_the_edges() {
    let cases: [(usize, u8, usize); 5] =
        [(0, 128, 6), (125, 253, 6), (126, 254, 8), (65535, 254, 8), (65536, 255, 14)];
    for (len, second, header) in cases {
        let out = vec_encode(vec![1u8; len]);
        assert_eq!(out[1], second);
        assert_eq!(out.len(), len + header);
    }
}

#[test]
fn fin_clear_and_text_opcode_in_first_byte() {
    let mut data = vec![1, 2, 3];
    Frame { fin: false, opcode: Opcode::Text }.encode_vec(&mut data, MASK);
    assert_eq!(data[0], 0x01);
    let mut ping = vec![0u8; Frame::CONTROL_HEADER_LEN];
    Frame { fin: true, opcode: Opcode::Ping }.encode_control_slice(&mut ping, MASK);
    assert_eq!(ping, vec![0x89, 0x80, 10, 241, 34, 51]);
}

#[test]
fn decode_encoded_frame_gives_it_back() {
    for len in [0usize, 5, 125, 126, 300, 65535, 65536] {
        let payload: Vec<u8> = (0..len).map(|i| (i * 7 % 251) as u8).collect();
        let mut data = payload.clone();
        Frame { fin: false, opcode: Opcode::Text }.encode_vec(&mut data, MASK);
        let h = parse_header(&data).unwrap();
        assert!(!h.fin);
        assert_eq!(h.opcode, Opcode::Text);
        assert!(h.masked);
        assert_eq!(h.length, len as u64);
        assert_eq!(h.mask, Some(MASK));
        let mut body = data[h.header_len..].to_vec();
        apply_mask(&mut body, MASK);
        assert_eq!(body, payload);
    }
}

#[test]
fn scalar_and_block_masking_agree() {
    let masks = [[0u8, 0, 0, 0], MASK, [0xff, 0x01, 0x80, 0x7f]];
    for mask in masks {
        for len in [0usize, 1, 15, 16, 17, 31, 32, 33, 100] {
            for shift in [0usize, 2, 6, 8, 14, 20] {
                let src: Vec<u8> = (0..len + shift + 3).map(|i| (i * 13 + 5) as u8).collect();
                let mut a = src.clone();
                let mut b = src.clone();
                let mut c = src.clone();
                mask_scalar(&mut a, len, mask, shift);
                mask_blocks(&mut b, len, mask, shift);
                mask_data(&mut c, len, mask, shift);
                assert_eq!(a, b);
                assert_eq!(a, c);
                for i in 0..len {
                    assert_eq!(a[shift + i], src[i] ^ mask[i % 4]);
                }
            }
        }
    }
}

#[test]
fn message_kinds() {
    assert!(Message::Text.is_text());
    assert!(!Message::Text.is_binary());
    assert!(Message::Binary.is_binary());
    assert!(!Message::Binary.is_text());
}
