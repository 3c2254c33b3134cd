use playfair::{Cipherer, PlayfairOutcome};

fn init() -> Cipherer {
    Cipherer::with("playfairexample".as_bytes())
}

#[test]
fn duplicate_tests() {
    let cipherer = init();
    assert_eq!(
        cipherer.cipher(b'x', b'x', false),
        PlayfairOutcome::Duplicate((b'g', b'w'))
    );
    assert_eq!(
        cipherer.cipher(b'r', b'r', false),
        PlayfairOutcome::Duplicate((b'e', b'm'))
    );
    assert_eq!(
        cipherer.cipher(b'n', b'n', false),
        PlayfairOutcome::Duplicate((b'q', b'r'))
    );
    assert_eq!(
        cipherer.cipher(b'q', b'q', false),
        PlayfairOutcome::Duplicate((b'w', b'g'))
    );
}

#[test]
fn rectangle_tests() {
    let cipherer = init();
    [
        (b'o', b'l', b'n', b'a'),
        (b't', b'h', b'z', b'b'),
        (b'e', b'g', b'x', b'd'),
        (b'h', b'i', b'b', b'm'),
    ]
    .iter()
    .for_each(|&(a, b, c, d)| {
        assert_eq!(
            cipherer.cipher(a, b, false),
            PlayfairOutcome::Normal((c, d))
        );
        assert_eq!(cipherer.cipher(c, d, true), PlayfairOutcome::Normal((a, b)));
    })
}

#[test]
fn same_row_tests() {
    let cipherer = init();
    [
        (b'p', b'l', b'l', b'a'),
        (b'y', b'f', b'f', b'p'),
        (b'a', b'f', b'y', b'p'),
        (b'k', b's', b'n', b'k'),
        (b'u', b'z', b'v', b't'),
    ]
    .iter()
    .for_each(|&(a, b, c, d)| {
        assert_eq!(
            cipherer.cipher(a, b, false),
            PlayfairOutcome::Normal((c, d))
        );
        assert_eq!(cipherer.cipher(c, d, true), PlayfairOutcome::Normal((a, b)));
    })
}

#[test]
fn same_column_test() {
    let cipherer = init();
    [
        (b'p', b'i', b'i', b'b'),
        (b'b', b't', b'k', b'p'),
        (b'e', b'd', b'd', b'o'),
        (b'f', b's', b'm', b'z'),
        (b'n', b'u', b'u', b'l'),
        (b'x', b'w', b'g', b'y'),
    ]
    .iter()
    .for_each(|&(a, b, c, d)| {
        assert_eq!(
            cipherer.cipher(a, b, false),
            PlayfairOutcome::Normal((c, d))
        );
        assert_eq!(cipherer.cipher(c, d, true), PlayfairOutcome::Normal((a, b)));
    })
}

#[test]
fn outcome_accessors() {
    let normal = PlayfairOutcome::Normal((b'a', b'b'));
    let duplicate = PlayfairOutcome::Duplicate((b'c', b'd'));
    assert_eq!(normal.unwrap(), (b'a', b'b'));
    assert_eq!(duplicate.unwrap(), (b'c', b'd'));
    assert!(!normal.is_duplicate());
    assert!(duplicate.is_duplicate());
}

#[test]
fn key_with_all_letters_is_complete() {
    assert!(init().is_complete());
    assert!(Cipherer::with(b"").is_complete());
    assert!(Cipherer::with(b"PlayFair").is_complete());
}

#[test]
fn non_letter_in_key_stops_construction() {
    assert!(!Cipherer::with(b"hello world").is_complete());
    assert!(!Cipherer::with(b"1").is_complete());
    // Once 25 distinct letters are placed, what follows does not matter.
    assert!(Cipherer::with(b"abcdefghiklmnopqrstuvwxyz!").is_complete());
}

#[test]
fn case_and_j_fold_in_key_and_pairs() {
    let lower = Cipherer::with(b"playfairexample");
    let upper = Cipherer::with(b"PLAYFAIREXAMPLE");
    let with_j = Cipherer::with(b"playfajrexample");
    for &(a, b) in [(b'o', b'l'), (b'k', b's'), (b'x', b'w'), (b'b', b'q')].iter() {
        assert_eq!(lower.cipher(a, b, false), upper.cipher(a, b, false));
        assert_eq!(lower.cipher(a, b, false), with_j.cipher(a, b, false));
        assert_eq!(
            lower.cipher(a, b, false),
            lower.cipher(a.to_ascii_uppercase(), b.to_ascii_uppercase(), false)
        );
    }
    // `j` is looked up as `i`.
    assert_eq!(lower.cipher(b'h', b'j', false), PlayfairOutcome::Normal((b'b', b'm')));
}

#[test]
fn non_letters_are_read_as_x() {
    let cipherer = init();
    assert_eq!(cipherer.cipher(b'e', b'!', false), cipherer.cipher(b'e', b'x', false));
    // Two different non-letters fall on one cell: the filler rule applies,
    // but the outcome is normal since the bytes differ.
    assert_eq!(cipherer.cipher(b'1', b'2', false), PlayfairOutcome::Normal((b'g', b'w')));
}

/// The 25 letters of the square, `j` left out.
fn square_letters() -> Vec<u8> {
    (b'a'..=b'z').filter(|&c| c != b'j').collect()
}

#[test]
fn every_letter_has_one_cell() {
    // Each cell holds one letter and each letter one cell: encoding two
    // different letters gives two different letters, decoding gives them
    // back, and no two pairs share an encoding.
    let cipherer = init();
    let letters = square_letters();
    let mut seen = std::collections::HashSet::new();
    for &a in letters.iter() {
        for &b in letters.iter() {
            if a == b {
                continue;
            }
            let (x, y) = match cipherer.cipher(a, b, false) {
                PlayfairOutcome::Normal(pair) => pair,
                PlayfairOutcome::Duplicate(_) => panic!("distinct letters gave a duplicate"),
            };
            assert_ne!(x, y);
            assert!(letters.contains(&x) && letters.contains(&y));
            assert_eq!(cipherer.cipher(x, y, true), PlayfairOutcome::Normal((a, b)));
            assert!(seen.insert((x, y)));
        }
    }
    assert_eq!(seen.len(), 25 * 24);
}

#[test]
fn building_twice_gives_the_same_square() {
    for key in [&b"playfairexample"[..], b"", b"Monarchy", b"zyxwvutsrqponmlkihgfedcba"] {
        let first = Cipherer::with(key);
        let second = Cipherer::with(key);
        for &a in square_letters().iter() {
            for &b in square_letters().iter() {
                for reverse in [false, true] {
                    assert_eq!(first.cipher(a, b, reverse), second.cipher(a, b, reverse));
                }
            }
        }
    }
}

#[test]
fn square_of_reversed_alphabet() {
    // Cells 0..4 hold z y x w v: a row pair moves one column to the right.
    let cipherer = Cipherer::with(b"zyxwvutsrqponmlkihgfedcba");
    assert_eq!(cipherer.cipher(b'z', b'y', false), PlayfairOutcome::Normal((b'y', b'x')));
    assert_eq!(cipherer.cipher(b'v', b'z', false), PlayfairOutcome::Normal((b'z', b'y')));
    // Column 0 holds z u p k e: a column pair moves one row down.
    assert_eq!(cipherer.cipher(b'z', b'e', false), PlayfairOutcome::Normal((b'u', b'z')));
    assert_eq!(cipherer.cipher(b'u', b'z', true), PlayfairOutcome::Normal((b'z', b'e')));
}
