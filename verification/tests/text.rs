use spectralblend::ports::{classify_stereo_ports, is_left_port, is_right_port, sort_ids};
use spectralblend::text::{
    comes_before, contains_word, format_id, parse_id, same_text,
};

#[test]
fn ids_read_back() {
    for id in [0, 7, 42, 100, 4294967295] {
        assert_eq!(parse_id(&format_id(id)), Some(id));
        assert_eq!(format_id(id), id.to_string());
    }
}

#[test]
fn ids_are_read_as_numbers() {
    let texts = vec!["", "+", "-1", "+5", "007", "4294967296", "12a", " 1", "99999999999999999999", "++1"];
    for t in texts {
        assert_eq!(parse_id(t), t.parse::<u32>().ok(), "{t}");
    }
}

#[test]
fn texts_are_searched_and_ordered() {
    assert!(contains_word("Stream/Output/Audio", "Output"));
    assert!(!contains_word("Stream/Output/Audio", "Input"));
    assert!(contains_word("abc", ""));
    assert!(!contains_word("ab", "abc"));
    assert!(same_text("in", "in"));
    assert!(!same_text("in", "In"));
    for (a, b) in [("", "a"), ("a", "b"), ("Zoo", "apple"), ("ab", "abc"), ("é", "z"), ("x", "x")] {
        assert_eq!(comes_before(a, b), a < b);
        assert_eq!(comes_before(b, a), b < a);
    }
}

#[test]
fn port_names_tell_the_side() {
    assert!(is_left_port("output_FL"));
    assert!(is_left_port("music_Left"));
    assert!(is_left_port("MONO"));
    assert!(!is_left_port("output_FR"));
    assert!(is_right_port("playback_FR"));
    assert!(is_right_port("voice_right"));
    assert!(!is_right_port("FR"));
}

#[test]
fn ports_are_paired() {
    assert_eq!(
        classify_stereo_ports(&[(5, "playback_FR"), (4, "playback_FL")]),
        (Some(4), Some(5))
    );
    // Without telling names the ids decide.
    assert_eq!(classify_stereo_ports(&[(9, "b"), (3, "a"), (5, "c")]), (Some(3), Some(5)));
    assert_eq!(classify_stereo_ports(&[(9, "only")]), (Some(9), None));
    assert_eq!(classify_stereo_ports(&[(9, "output_MONO")]), (Some(9), None));
    assert_eq!(classify_stereo_ports(&[]), (None, None));
    // A second left port takes no side.
    assert_eq!(classify_stereo_ports(&[(1, "left"), (2, "left")]), (Some(1), None));
    assert_eq!(classify_stereo_ports(&[(1, "x"), (2, "right")]), (None, Some(2)));
    assert_eq!(classify_stereo_ports(&[(1, "left_fr"), (2, "left_fr")]), (Some(1), Some(2)));
    assert_eq!(sort_ids(&vec![3, 1, 2, 1]), vec![1, 1, 2, 3]);
}

#[test]
fn the_order_of_ports_does_not_matter() {
    let named = [(7, "out_FR"), (2, "monitor"), (9, "out_FL"), (4, "aux")];
    let plain = [(7, "a"), (2, "b"), (9, "c"), (4, "d")];
    let both = [(7, "left_fr"), (2, "b"), (9, "c"), (4, "d")];
    for (ports, pair) in [
        (named, (Some(9), Some(7))),
        (plain, (Some(2), Some(4))),
        (both, (Some(7), None)),
    ] {
        for a in 0..4 {
            for b in 0..4 {
                for c in 0..4 {
                    if a != b && a != c && b != c {
                        let d = 6 - a - b - c;
                        let list = [ports[a], ports[b], ports[c], ports[d]];
                        assert_eq!(classify_stereo_ports(&list), pair);
                    }
                }
            }
        }
    }
}
