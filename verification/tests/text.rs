use nix_build_graph::text::{byte_len, can_cut, cut, file_name, precedes, same_text};

#[test]
fn texts_are_ordered_by_bytes() {
    let texts = ["", "/", "0", "a", "aa", "ab", "b", "é", "\u{ffff}", "\u{10000}"];
    for a in texts {
        for b in texts {
            assert_eq!(precedes(a, b), a < b, "{:?} {:?}", a, b);
            assert_eq!(same_text(a, b), a == b, "{:?} {:?}", a, b);
        }
    }
}

#[test]
fn texts_are_cut_between_characters() {
    assert_eq!(byte_len("aé"), 3);
    assert!(can_cut("aéb", 1, 3));
    assert!(!can_cut("aéb", 1, 2));
    assert!(!can_cut("aéb", 3, 5));
    assert_eq!(cut("aéb", 1, 3), "é");
    assert_eq!(cut("aéb", 4, 4), "");
}

#[test]
fn file_name_is_behind_the_last_slash() {
    assert_eq!(file_name("/a/b"), Some("b"));
    assert_eq!(file_name("a/"), Some(""));
    assert_eq!(file_name("a"), None);
}
