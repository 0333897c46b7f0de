use idfm_realtime::keys::{KeyError, KeyManager};

fn lines(list: &[&str]) -> Vec<String> {
    list.iter().map(|line| (*line).to_string()).collect()
}

#[test]
fn keys_are_trimmed_and_handed_out_in_turn() {
    let mut keys = KeyManager::new(&lines(&["  one\t", "", "   ", "two\r"])).unwrap();
    assert_eq!(keys.get_next_key(), "one");
    assert_eq!(keys.get_next_key(), "two");
    assert_eq!(keys.get_next_key(), "one");
}

#[test]
fn a_file_of_blank_lines_has_no_keys() {
    let error = KeyManager::new(&lines(&["", " \u{a0}\u{3000}"])).err();
    assert_eq!(error, Some(KeyError::NoKeys));
    assert_eq!(KeyError::NoKeys.message(), "No keys found in file");
}

#[test]
fn all_white_space_is_trimmed() {
    for code in 0..0x11_0000_u32 {
        if let Some(c) = char::from_u32(code) {
            let trimmed = idfm_realtime::text::text_trim(c.encode_utf8(&mut [0; 4])).is_empty();
            assert_eq!(trimmed, c.is_whitespace(), "{code:x}");
        }
    }
}
