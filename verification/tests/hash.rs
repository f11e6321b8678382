use blurhash::base83;
use blurhash::encode::check_components;
use blurhash::util::{dimensions_of, extract_hash_dimensions};
use blurhash::{decode, encode, Coefficients, Error};

const OCTOCAT: &str = "LBAdAqof00WCqZj[PDay0.WB}pof";

fn octocat() -> Coefficients {
    Coefficients {
        components_x: 4,
        components_y: 3,
        quantised_maximum: 11,
        dc: [91, 92, 95],
        ac: vec![
            [11, 11, 11],
            [0, 0, 0],
            [7, 7, 8],
            [12, 1, 0],
            [10, 10, 10],
            [5, 14, 17],
            [8, 8, 8],
            [0, 3, 12],
            [7, 7, 7],
            [18, 14, 10],
            [11, 11, 11],
        ],
    }
}

#[test]
fn dimensions_of_a_hash() {
    assert_eq!(extract_hash_dimensions(OCTOCAT), Ok((4, 3)));
    assert_eq!(extract_hash_dimensions("00Eyb["), Ok((1, 1)));
    assert_eq!(extract_hash_dimensions("10Eyb[00"), Ok((2, 1)));
    assert_eq!(extract_hash_dimensions("90Eyb[00"), Ok((1, 2)));
}

#[test]
fn dimensions_of_the_greatest_size_flags() {
    let nine_by_nine = format!("{}{}", base83::encode(80, 1), "0".repeat(3 + 2 * 81));
    assert_eq!(extract_hash_dimensions(&nine_by_nine), Ok((9, 9)));
    let two_by_ten = format!("~{}", "0".repeat(3 + 2 * 20));
    assert_eq!(extract_hash_dimensions(&two_by_ten), Ok((2, 10)));
}

#[test]
fn dimensions_of_a_short_hash() {
    assert_eq!(extract_hash_dimensions(""), Err(Error::HashTooShort));
    assert_eq!(extract_hash_dimensions("ab"), Err(Error::HashTooShort));
    assert_eq!(extract_hash_dimensions("00000"), Err(Error::HashTooShort));
    assert_eq!(extract_hash_dimensions("!!"), Err(Error::HashTooShort));
}

#[test]
fn dimensions_of_a_hash_of_the_wrong_length() {
    assert_eq!(
        extract_hash_dimensions("0000000"),
        Err(Error::LengthMismatch { expected: 6, actual: 7 })
    );
    assert_eq!(
        extract_hash_dimensions("L00000"),
        Err(Error::LengthMismatch { expected: 28, actual: 6 })
    );
    assert_eq!(
        extract_hash_dimensions("~000000"),
        Err(Error::LengthMismatch { expected: 44, actual: 7 })
    );
}

#[test]
fn dimensions_with_an_invalid_first_byte() {
    assert_eq!(extract_hash_dimensions("!00000"), Err(Error::InvalidBase83(b'!')));
    assert_eq!(extract_hash_dimensions(" 0000000000"), Err(Error::InvalidBase83(b' ')));
}

#[test]
fn dimensions_look_at_the_first_byte_only() {
    assert_eq!(extract_hash_dimensions("0!!!!!"), Ok((1, 1)));
    assert_eq!(
        extract_hash_dimensions("0!!!!!!"),
        Err(Error::LengthMismatch { expected: 6, actual: 7 })
    );
}

#[test]
fn dimensions_of_bytes_agree() {
    for hash in [OCTOCAT, "ab", "0000000", "!00000", "00Eyb["] {
        assert_eq!(dimensions_of(hash.as_bytes()), extract_hash_dimensions(hash));
    }
}

#[test]
fn decode_reads_every_field() {
    assert_eq!(decode(OCTOCAT), Ok(octocat()));
}

#[test]
fn grid_index_follows_the_rows() {
    let read = decode(OCTOCAT).unwrap();
    assert_eq!(read.grid_index(0, 0), 0);
    assert_eq!(read.grid_index(1, 0), 1);
    assert_eq!(read.grid_index(3, 0), 3);
    assert_eq!(read.grid_index(0, 1), 4);
    assert_eq!(read.grid_index(2, 1), 6);
    assert_eq!(read.grid_index(3, 2), 11);
    assert_eq!(read.ac[read.grid_index(3, 2) - 1], [11, 11, 11]);
    assert_eq!(read.ac[read.grid_index(0, 1) - 1], [12, 1, 0]);
}

#[test]
fn decode_reads_a_hash_of_one_coefficient() {
    assert_eq!(
        decode("00Eyb["),
        Ok(Coefficients {
            components_x: 1,
            components_y: 1,
            quantised_maximum: 0,
            dc: [128, 128, 128],
            ac: vec![],
        })
    );
}

#[test]
fn decode_reads_fields_beyond_what_an_encoder_writes() {
    let read = decode("1~~~~~~~").unwrap();
    assert_eq!(read.components_x, 2);
    assert_eq!(read.components_y, 1);
    assert_eq!(read.quantised_maximum, 82);
    assert_eq!(read.dc, [(47458320u32 >> 16) as u8, (47458320u32 >> 8) as u8, 47458320u32 as u8]);
    assert_eq!(read.ac, vec![[19, 1, 10]]);
}

#[test]
fn decode_fails_on_a_short_hash() {
    assert_eq!(decode("ab"), Err(Error::HashTooShort));
    assert_eq!(decode(""), Err(Error::HashTooShort));
}

#[test]
fn decode_fails_on_a_length_mismatch() {
    assert_eq!(decode("LBAdAqof00WCqZj[PDay0.WB}po"), Err(Error::LengthMismatch {
        expected: 28,
        actual: 27
    }));
    assert_eq!(decode("LBAdAqof00WCqZj[PDay0.WB}pof0"), Err(Error::LengthMismatch {
        expected: 28,
        actual: 29
    }));
}

#[test]
fn decode_names_the_invalid_byte_of_a_hash() {
    for at in 0..OCTOCAT.len() {
        let mut bytes = OCTOCAT.as_bytes().to_vec();
        bytes[at] = b'!';
        let hash = String::from_utf8(bytes).unwrap();
        assert_eq!(decode(&hash), Err(Error::InvalidBase83(b'!')));
    }
}

#[test]
fn decode_names_the_leftmost_invalid_byte_of_a_hash() {
    assert_eq!(decode("LBAdAqof00WCqZj[PD y0.WB\"pof"), Err(Error::InvalidBase83(b' ')));
    assert_eq!(decode("0/Eyb\\"), Err(Error::InvalidBase83(b'/')));
}

#[test]
fn decode_tests_the_length_before_the_other_bytes() {
    assert_eq!(decode("0!!!!!!"), Err(Error::LengthMismatch { expected: 6, actual: 7 }));
    assert_eq!(decode("0!"), Err(Error::HashTooShort));
}

#[test]
fn decode_counts_bytes_not_characters() {
    assert_eq!(decode("00Eyé"), Err(Error::InvalidBase83(0xc3)));
    assert_eq!(decode("é0000"), Err(Error::InvalidBase83(0xc3)));
    assert_eq!(decode("é00"), Err(Error::HashTooShort));
}

#[test]
fn decode_gives_the_same_answer_twice() {
    assert_eq!(decode(OCTOCAT), decode(OCTOCAT));
    assert_eq!(decode("0!!!!!"), decode("0!!!!!"));
}

#[test]
fn encode_writes_every_field() {
    let c = octocat();
    assert_eq!(encode(4, 3, c.quantised_maximum, c.dc, &c.ac), Ok(OCTOCAT.to_string()));
}

#[test]
fn encode_writes_a_hash_of_one_coefficient() {
    assert_eq!(encode(1, 1, 0, [128, 128, 128], &[]), Ok("00Eyb[".to_string()));
    assert_eq!(encode(1, 1, 0, [0, 0, 0], &[]), Ok("000000".to_string()));
    assert_eq!(encode(1, 1, 0, [255, 255, 255], &[]), Ok("00TSUA".to_string()));
}

#[test]
fn encode_writes_no_maximum_where_the_average_stands_alone() {
    assert_eq!(encode(1, 1, 57, [128, 128, 128], &[]), Ok("00Eyb[".to_string()));
}

#[test]
fn encode_writes_the_size_flag_first() {
    for components_y in 1..=9u32 {
        for components_x in 1..=9u32 {
            let ac = vec![[9, 9, 9]; (components_x * components_y - 1) as usize];
            let hash = encode(components_x, components_y, 3, [1, 2, 3], &ac).unwrap();
            let flag = (components_x - 1) + (components_y - 1) * 9;
            assert_eq!(hash[0..1], base83::encode(flag, 1));
        }
    }
}

#[test]
fn encode_has_the_length_that_the_counts_ask_for() {
    for components_y in 1..=9u32 {
        for components_x in 1..=9u32 {
            let ac = vec![[0, 18, 9]; (components_x * components_y - 1) as usize];
            let hash = encode(components_x, components_y, 82, [7, 8, 9], &ac).unwrap();
            assert_eq!(hash.len(), (4 + 2 * components_x * components_y) as usize);
            assert!(hash.is_ascii());
        }
    }
}

#[test]
fn encode_refuses_counts_out_of_range() {
    assert_eq!(encode(0, 5, 0, [0, 0, 0], &[]), Err(Error::ComponentsOutOfRange));
    assert_eq!(encode(10, 5, 0, [0, 0, 0], &[]), Err(Error::ComponentsOutOfRange));
    assert_eq!(encode(5, 0, 0, [0, 0, 0], &[]), Err(Error::ComponentsOutOfRange));
    assert_eq!(encode(5, 10, 0, [0, 0, 0], &[]), Err(Error::ComponentsOutOfRange));
    assert_eq!(encode(0, 0, 0, [0, 0, 0], &[]), Err(Error::ComponentsOutOfRange));
    assert_eq!(encode(u32::MAX, u32::MAX, 0, [0, 0, 0], &[]), Err(Error::ComponentsOutOfRange));
}

#[test]
fn check_components_accepts_one_to_nine() {
    for components_x in 0..12u32 {
        for components_y in 0..12u32 {
            let in_range = (1..=9).contains(&components_x) && (1..=9).contains(&components_y);
            let expected = if in_range { Ok(()) } else { Err(Error::ComponentsOutOfRange) };
            assert_eq!(check_components(components_x, components_y), expected);
        }
    }
}

#[test]
fn reading_undoes_writing() {
    for components_y in 1..=9u32 {
        for components_x in 1..=9u32 {
            let count = (components_x * components_y - 1) as usize;
            let ac: Vec<[u32; 3]> = (0..count as u32)
                .map(|i| [i % 19, (i * 7 + 3) % 19, (18 + i * 5) % 19])
                .collect();
            let quantised_maximum = if count == 0 { 0 } else { (components_x * 9 + components_y) % 83 };
            let dc = [(components_x * 28) as u8, (components_y * 13) as u8, 200];
            let hash = encode(components_x, components_y, quantised_maximum, dc, &ac).unwrap();
            assert_eq!(
                decode(&hash),
                Ok(Coefficients {
                    components_x: components_x as usize,
                    components_y: components_y as usize,
                    quantised_maximum,
                    dc,
                    ac,
                })
            );
        }
    }
}

#[test]
fn writing_undoes_reading() {
    let read = decode(OCTOCAT).unwrap();
    let written = encode(
        read.components_x as u32,
        read.components_y as u32,
        read.quantised_maximum,
        read.dc,
        &read.ac,
    );
    assert_eq!(written, Ok(OCTOCAT.to_string()));
}
