use dorfromantik_calculator::config::config_string::{base62_fits, decode_base62, decode_digits_10, parse_config_string};
use dorfromantik_calculator::utils::number_converter::NumberSystemConverter;
use dorfromantik_calculator::utils::save_decoder::{extract_session_data, find_all_occurrences, find_subslice, read_le_i32};

#[test]
fn converter_decodes_part_two() {
    let c = NumberSystemConverter::new();
    assert_eq!(c.decode_number_as_long("2fJmCw", false), 1011361516);
    assert_eq!(c.decode_number_as_long("2gRsn6", false), 1019672426);
    assert_eq!(c.decode_number_as_long("Z", false), 30);
    assert_eq!(c.decode_number_as_long("10", false), 52);
}

#[test]
fn converter_negative_offset_and_foreign_characters() {
    let c = NumberSystemConverter::new();
    // 'a' is a vowel, outside the alphabet: it counts as digit 0
    assert_eq!(c.decode_number_as_long("a", true), -2147483648);
    assert_eq!(c.decode_number_as_long("1", true), -2147483647);
}

#[test]
fn converter_digits_are_padded_to_ten() {
    let c = NumberSystemConverter::new();
    assert_eq!(c.decode_number_as_digits("2fJmCw", 10), vec![1, 0, 1, 1, 3, 6, 1, 5, 1, 6]);
    assert_eq!(c.decode_number_as_digits("2gRsn6", 10), vec![1, 0, 1, 9, 6, 7, 2, 4, 2, 6]);
    assert_eq!(c.decode_number_as_digits("0", 10), vec![0; 10]);
    assert_eq!(c.decode_number_as_digits("Z", 2), vec![0, 0, 0, 0, 0, 1, 1, 1, 1, 0]);
}

#[test]
fn base62_examples() {
    assert_eq!(decode_base62("072026"), 103911138);
    assert_eq!(decode_base62("2fJmCw"), 2064722420);
    assert_eq!(decode_base62("2gRsn6"), 2081427488);
    assert_eq!(decode_base62("zZ-9"), 138331);
    assert_eq!(decode_base62(""), 0);
}

#[test]
fn decimal_digits_with_padding() {
    assert_eq!(decode_digits_10(2064722420, 10), vec![2, 0, 6, 4, 7, 2, 2, 4, 2, 0]);
    assert_eq!(decode_digits_10(0, 3), vec![0, 0, 0]);
    assert_eq!(decode_digits_10(12345, 3), vec![1, 2, 3, 4, 5]);
    assert_eq!(decode_digits_10(7, 0), vec![7]);
}

#[test]
fn config_string_example() {
    let (seed, rules) = parse_config_string("0720262fJmCw2gRsn6");
    assert_eq!(seed, 103911138);
    let r = rules.unwrap();
    assert_eq!(r.tile_limit, Some(250));
    assert_eq!(r.forest_level, 6);
    assert_eq!(r.agriculture_level, 4);
    assert_eq!(r.water_level, 7);
    assert_eq!(r.train_level, 2);
    assert_eq!(r.quest_probability_level, 0);
    assert_eq!(r.flag_quest_level, 8);
}

#[test]
fn config_string_dashes_are_ignored() {
    assert_eq!(parse_config_string("072026-2fJmCw-2gRsn6"), parse_config_string("0720262fJmCw2gRsn6"));
}

#[test]
fn short_config_string_gives_default() {
    assert_eq!(parse_config_string("0720262fJmCw"), (3103784960, None));
    assert_eq!(parse_config_string("----------------------"), (3103784960, None));
}

#[test]
fn subslice_search() {
    assert_eq!(find_subslice(b"hello world", b"o w"), Some(4));
    assert_eq!(find_subslice(b"hello", b"hello!"), None);
    assert_eq!(find_subslice(b"aaab", b"ab"), Some(2));
    assert_eq!(find_subslice(b"abc", b"x"), None);
}

#[test]
fn all_occurrences_do_not_overlap() {
    assert_eq!(find_all_occurrences(b"aaaa", b"aa"), vec![0, 2]);
    assert_eq!(find_all_occurrences(b"xseedyseedz", b"seed"), vec![1, 6]);
    assert_eq!(find_all_occurrences(b"none here", b"seed"), Vec::<usize>::new());
}

#[test]
fn little_endian_reads() {
    assert_eq!(read_le_i32(&[0x78, 0x56, 0x34, 0x12], 0), 0x12345678);
    assert_eq!(read_le_i32(&[9, 0xff, 0xff, 0xff, 0xff], 1), -1);
}

fn push_i32(v: &mut Vec<u8>, x: i32) {
    v.extend_from_slice(&x.to_le_bytes());
}

fn sample_save() -> Vec<u8> {
    let mut d: Vec<u8> = Vec::new();
    d.extend_from_slice(b"configString");
    push_i32(&mut d, 0x12345678);
    d.extend_from_slice(&[0, 0, 0, 0, 0, 0]);
    d.extend_from_slice(b"0720262fJmCw2gRsn6");
    let marker_at = d.len();
    d.extend_from_slice(b"Dorfromantik.CustomRuleType");
    while d.len() < marker_at + 87 {
        d.push(0);
    }
    let records: [(i32, i32); 3] = [(2, 5), (13, 3), (99, 1)];
    for (t, l) in records.iter() {
        let start = d.len();
        push_i32(&mut d, *t);
        push_i32(&mut d, *l);
        while d.len() < start + 26 {
            d.push(0);
        }
    }
    d
}

#[test]
fn save_file_fields_are_recovered() {
    let s = extract_session_data(&sample_save()).unwrap();
    assert_eq!(s.real_tile_seed, 0x12345678);
    assert_eq!(s.config_string, "0720262fJmCw2gRsn6");
    assert_eq!(s.custom_rules_map.len(), 2);
    assert_eq!(s.custom_rules_map.get(&2), Some(&5));
    assert_eq!(s.custom_rules_map.get(&13), Some(&3));
    assert_eq!(s.decoded_digits_part2, vec![1, 0, 1, 1, 3, 6, 1, 5, 1, 6]);
    assert_eq!(s.decoded_digits_part3, vec![1, 0, 1, 9, 6, 7, 2, 4, 2, 6]);
}

#[test]
fn level_index_prefers_recorded_rules() {
    let s = extract_session_data(&sample_save()).unwrap();
    assert_eq!(s.get_level_index(2, 2, None), 5);
    assert_eq!(s.get_level_index(13, 9, None), 3);
    // from the config string: digit 0 means the default level 9
    assert_eq!(s.get_level_index(1, 1, None), 9);
    assert_eq!(s.get_level_index(4, 4, None), 3);
    assert_eq!(s.get_level_index(15, 0, Some(3)), 9);
    assert_eq!(s.get_level_index(15, 0, Some(4)), 6);
    assert_eq!(s.get_level_index(14, 0, Some(20)), 9);
    assert_eq!(s.get_level_index(5, 40, None), 9);
}

#[test]
fn missing_marker_is_an_error() {
    let r = extract_session_data(b"no marker in here at all, only text 0720262fJmCw2gRsn6");
    assert_eq!(r.unwrap_err(), "Could not find configString field in save file");
}

#[test]
fn missing_config_string_is_an_error() {
    let r = extract_session_data(b"..configString..short1234..");
    assert_eq!(r.unwrap_err(), "Could not find 18-char ASCII ConfigString");
}

#[test]
fn padded_digits_spell_the_number() {
    for n in [0u64, 7, 10, 2064722420, u64::MAX].iter() {
        let d = decode_digits_10(*n, 12);
        assert!(d.len() >= 12);
        let v = d.iter().fold(0u128, |acc, x| acc * 10 + *x as u128);
        assert_eq!(v, *n as u128);
    }
}

#[test]
fn converter_digits_spell_the_value_in_any_base() {
    let c = NumberSystemConverter::new();
    for base in [2i64, 7, 10, 16].iter() {
        let d = c.decode_number_as_digits("2fJmCw", *base);
        assert!(d.len() >= 10);
        let v = d.iter().fold(0i64, |acc, x| acc * base + *x as i64);
        assert_eq!(v, 1011361516);
    }
}

#[test]
fn config_string_decoding_ignores_dashes_anywhere() {
    assert_eq!(parse_config_string("0-7-2026-2fJmCw2gRsn6"), parse_config_string("0720262fJmCw2gRsn6"));
}

#[test]
fn base62_fits_up_to_u64() {
    assert!(base62_fits(""));
    assert!(base62_fits("zZ09"));
    assert!(base62_fits("ZZZZZZZZZZ"));
    assert!(!base62_fits("ZZZZZZZZZZZ"));
    assert!(base62_fits("lYGhA16ahyf"));
    assert_eq!(decode_base62("lYGhA16ahyf"), u64::MAX);
    assert!(!base62_fits("lYGhA16ahyg"));
    assert!(base62_fits("0000000000000001"));
}
