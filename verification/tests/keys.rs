use cells::{grid_len, key_of_index, make_key, update_token, ColKey, Key, TokenChanges, ROW_LEN};

#[test]
fn columns_come_from_upper_case_letters_only() {
    assert_eq!(ColKey::try_from_u8(b'A').map(|c| c.index()), Some(0));
    assert_eq!(ColKey::try_from_u8(b'Z').map(|c| c.index()), Some(25));
    assert_eq!(ColKey::try_from_u8(b'M').map(|c| c.index()), Some(12));
    assert!(ColKey::try_from_u8(b'@').is_none());
    assert!(ColKey::try_from_u8(b'[').is_none());
    assert!(ColKey::try_from_u8(b'a').is_none());
    assert!(ColKey::try_from_u8(b'1').is_none());
    assert!(ColKey::try_from_u8(0).is_none());
    assert!(ColKey::try_from_u8(255).is_none());
    assert_eq!(ColKey::from_u8(b'C').index(), 2);
}

#[test]
fn letters_of_either_case_name_a_column() {
    assert_eq!(ColKey::from_letter(b'a'), ColKey::try_from_u8(b'A'));
    assert_eq!(ColKey::from_letter(b'z'), ColKey::try_from_u8(b'Z'));
    assert_eq!(ColKey::from_letter(b'Q'), ColKey::try_from_u8(b'Q'));
    assert!(ColKey::from_letter(b'`').is_none());
    assert!(ColKey::from_letter(b'{').is_none());
    assert!(ColKey::from_letter(b'5').is_none());
}

#[test]
fn column_labels_are_upper_case() {
    assert_eq!(ColKey::from_u8(b'A').label(), "A");
    assert_eq!(ColKey::from_letter(b'k').unwrap().label(), "K");
    assert_eq!(ColKey::from_u8(b'Z').label(), "Z");
    assert_eq!(ColKey::from_u8(b'Z').letter(), b'Z');
    assert_eq!(ColKey::default().label(), "A");
    assert_eq!(ColKey::LEN, 26);
}

#[test]
fn keys_hold_column_and_row() {
    let key = Key::new(ColKey::from_u8(b'C'), 12);
    assert_eq!(key.col(), ColKey::from_u8(b'C'));
    assert_eq!(key.row(), 12);
    assert_eq!(key, make_key("C12"));
    assert_ne!(key, make_key("C13"));
    assert_ne!(key, make_key("D12"));
    assert_eq!(Key::default(), make_key("A0"));
}

#[test]
fn key_codes_pack_column_and_row() {
    assert_eq!(make_key("A0").code(), 0);
    assert_eq!(make_key("A1").code(), 1);
    assert_eq!(make_key("B0").code(), 256);
    assert_eq!(make_key("C12").code(), 2 * 256 + 12);
    assert_eq!(make_key("Z255").code(), 6655);
    assert_eq!(Key::from_code(6655), Some(make_key("Z255")));
    assert_eq!(Key::from_code(6656), None);
    assert_eq!(Key::from_code(u16::MAX), None);
    assert_eq!(Key::from_code(0), Some(make_key("A0")));
}

#[test]
fn every_key_comes_back_from_its_code_and_its_label() {
    for col in b'A'..=b'Z' {
        for row in 0..=255u8 {
            let key = Key::new(ColKey::from_u8(col), row);
            assert_eq!(Key::from_code(key.code()), Some(key));
            let label = key.label();
            assert_eq!(label, format!("{}{}", col as char, row));
            assert_eq!(Key::from_text(label.as_bytes()), Some(key));
            assert_eq!(make_key(&label), key);
        }
    }
}

#[test]
fn addresses_are_a_letter_and_digits() {
    assert_eq!(Key::from_text(b"A1"), Some(Key::new(ColKey::from_u8(b'A'), 1)));
    assert_eq!(Key::from_text(b"c12"), Some(Key::new(ColKey::from_u8(b'C'), 12)));
    assert_eq!(Key::from_text(b"A01"), Some(make_key("A1")));
    assert_eq!(Key::from_text(b"Z255"), Some(Key::new(ColKey::from_u8(b'Z'), 255)));
    assert_eq!(Key::from_text(b"Z000255"), Some(make_key("Z255")));
    assert_eq!(Key::from_text(b"A256"), None);
    assert_eq!(Key::from_text(b"A260"), None);
    assert_eq!(Key::from_text(b"A1000"), None);
    assert_eq!(Key::from_text(b"A99999999999999999999999"), None);
    assert_eq!(Key::from_text(b""), None);
    assert_eq!(Key::from_text(b"A"), None);
    assert_eq!(Key::from_text(b"1"), None);
    assert_eq!(Key::from_text(b"1A"), None);
    assert_eq!(Key::from_text(b"AA1"), None);
    assert_eq!(Key::from_text(b"A1x"), None);
    assert_eq!(Key::from_text(b"A 1"), None);
    assert_eq!(Key::from_text(b" A1"), None);
    assert_eq!(Key::from_text(b"A-1"), None);
    assert_eq!(Key::from_text("\u{c4}1".as_bytes()), None);
}

#[test]
fn table_positions_inside_the_grid_have_keys() {
    assert_eq!(grid_len(), (26, 100));
    assert_eq!(ROW_LEN, 100);
    assert_eq!(key_of_index(0, 0), Some(make_key("A0")));
    assert_eq!(key_of_index(2, 12), Some(make_key("C12")));
    assert_eq!(key_of_index(25, 99), Some(make_key("Z99")));
    assert_eq!(key_of_index(26, 0), None);
    assert_eq!(key_of_index(0, 100), None);
    assert_eq!(key_of_index(256, 0), None);
    assert_eq!(key_of_index(0, 256), None);
    assert_eq!(key_of_index(u32::MAX, u32::MAX), None);
}

#[test]
fn tokens_follow_their_position() {
    let mut token = None;
    assert_eq!(update_token(1, 2, &mut token), TokenChanges::Any);
    assert_eq!(token, Some(make_key("B2")));
    assert_eq!(update_token(1, 2, &mut token), TokenChanges::Unchanged);
    assert_eq!(token, Some(make_key("B2")));
    assert_eq!(update_token(1, 3, &mut token), TokenChanges::Any);
    assert_eq!(token, Some(make_key("B3")));
    assert_eq!(update_token(26, 3, &mut token), TokenChanges::Any);
    assert_eq!(token, None);
    assert_eq!(update_token(26, 3, &mut token), TokenChanges::Any);
    assert_eq!(token, None);
    assert_eq!(update_token(0, 100, &mut token), TokenChanges::Any);
    assert_eq!(token, None);
}
