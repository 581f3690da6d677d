use typed_interactions::name::{to_upper, validate, Buffer, Name, MAX_LEN};

#[test]
fn normalize_basic() {
    let n = Name::new("play-now").unwrap();
    assert_eq!(n.stable(), b"play_now".to_vec());
    assert_eq!(n.display(), b"PlayNow".to_vec());
}

#[test]
fn normalize_keeps_case_free_words() {
    let n = Name::new("a_b-c9").unwrap();
    assert_eq!(n.stable(), b"a_b_c9".to_vec());
    assert_eq!(n.display(), b"ABC9".to_vec());
}

#[test]
fn valid_names_always_normalize_and_stable_has_no_hyphen() {
    let samples = [
        "a",
        "play-now",
        "play_now",
        "0abc",
        "-",
        "_",
        "a--b",
        "abcdefghijklmnopqrstuvwxyz0123-_",
    ];
    for s in samples {
        assert!(s.len() >= 1 && s.len() <= MAX_LEN);
        let n = Name::new(s).unwrap_or_else(|| panic!("{s} should normalize"));
        let stable = n.stable();
        assert_eq!(stable.len(), s.len());
        assert!(stable.iter().all(|&b| b != b'-'));
        assert!(stable
            .iter()
            .all(|&b| b.is_ascii_lowercase() || b.is_ascii_digit() || b == b'_'));
    }
}

#[test]
fn invalid_names_are_rejected() {
    assert!(Name::new("").is_none());
    assert!(Name::new(&"a".repeat(33)).is_none());
    assert!(Name::new("ABC").is_none());
    assert!(Name::new("a b").is_none());
    assert!(Name::new("abc!").is_none());
    assert!(Name::new("naïve").is_none());
}

#[test]
fn boundary_lengths() {
    assert!(Name::new("a").is_some());
    assert!(Name::new(&"a".repeat(32)).is_some());
    assert!(Name::new(&"a".repeat(33)).is_none());
}

#[test]
fn display_equality() {
    // Hyphens and underscores normalize to the same display form, so the
    // names compare equal.
    let a = Name::new("play-now").unwrap();
    let b = Name::new("play_now").unwrap();
    assert_eq!(a, b);
    let c = Name::new("play--now").unwrap();
    assert_eq!(a, c);
}

#[test]
fn display_inequality() {
    let a = Name::new("play-now").unwrap();
    let b = Name::new("playnow").unwrap();
    assert!(a != b);
}

#[test]
fn validate_checks_length_and_charset() {
    assert_eq!(validate("abc"), Some(&b"abc"[..]));
    assert_eq!(validate("a-9_z"), Some(&b"a-9_z"[..]));
    assert_eq!(validate(""), None);
    assert_eq!(validate("Abc"), None);
    assert_eq!(validate(&"x".repeat(33)), None);
}

#[test]
fn to_upper_maps_lower_case_only() {
    assert_eq!(to_upper(b'a'), b'A');
    assert_eq!(to_upper(b'z'), b'Z');
    assert_eq!(to_upper(b'0'), b'0');
    assert_eq!(to_upper(b'_'), b'_');
    assert_eq!(to_upper(b'A'), b'A');
}

#[test]
fn buffer_push_extend_clear() {
    let mut b = Buffer::new();
    assert_eq!(b.to_vec(), Vec::<u8>::new());
    b.push(b'a');
    b.extend(b"bc");
    assert_eq!(b.to_vec(), b"abc".to_vec());
    b.clear();
    assert_eq!(b.to_vec(), Vec::<u8>::new());
    b.extend(&[b'x'; 32]);
    assert_eq!(b.to_vec(), vec![b'x'; 32]);
}
