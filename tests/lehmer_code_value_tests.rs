use lehmer::{CharSet, LehmerCodeValue as L, LehmerError};

#[test]
fn from_dicimal() {
    let charset = CharSet::from_str("12345").unwrap();
    let dicimal_lehmer = vec![
        (0, "0 0 0 0"),
        (1, "0 0 0 1"),
        (2, "0 0 1 0"),
        (3, "0 0 1 1"),
        (4, "0 0 2 0"),
        (117, "4 3 1 1"),
        (118, "4 3 2 0"),
        (119, "4 3 2 1"),
    ];
    for (d, l) in dicimal_lehmer {
        assert_eq!(
            L::from_dicimal(d, &charset, true).unwrap().to_string(),
            format!("{}{}", "L(inc): ", l)
        );
    }
    assert!(L::from_dicimal(120, &charset, true).is_err());
    assert!(L::from_dicimal(121, &charset, true).is_err());
    assert!(L::from_dicimal(120, &charset, false).is_err());
    assert!(L::from_dicimal(121, &charset, false).is_err());
    assert!(L::from_dicimal(usize::MAX, &charset, true).is_err());
    assert!(L::from_dicimal(usize::MAX, &charset, false).is_err());
    let dicimal_lehmer = vec![
        (0, "0 0 0 0"),
        (1, "0 0 0 1"),
        (2, "0 0 0 2"),
        (3, "0 0 0 3"),
        (4, "0 0 0 4"),
        (5, "0 0 1 0"),
        (6, "0 0 1 1"),
        (117, "1 2 3 2"),
        (118, "1 2 3 3"),
        (119, "1 2 3 4"),
    ];
    for (d, l) in dicimal_lehmer {
        assert_eq!(
            L::from_dicimal(d, &charset, false).unwrap().to_string(),
            format!("{}{}", "L(dec): ", l)
        );
    }

    let charset = CharSet::from_str("12").unwrap();
    assert_eq!(
        L::from_dicimal(0, &charset, true).unwrap().to_string(),
        format!("{}{}", "L(inc): ", "0")
    );
    assert_eq!(
        L::from_dicimal(1, &charset, true).unwrap().to_string(),
        format!("{}{}", "L(inc): ", "1")
    );
    assert_eq!(
        L::from_dicimal(2, &charset, true).unwrap_err().message(),
        "A dicimal larger than total number of this permutation!"
    );
    assert!(L::from_dicimal(2, &charset, false).is_err());

    let charset = CharSet::from_str("1").unwrap();
    assert_eq!(
        L::from_dicimal(0, &charset, true).unwrap_err().message(),
        "The Lehmer code of single char is meanless!"
    );
    assert_eq!(
        L::from_dicimal(1, &charset, true).unwrap_err().message(),
        "The Lehmer code of single char is meanless!"
    );
}

fn digits_of(code: &L) -> Vec<i32> {
    match code {
        L::Increasing(v) => v.clone(),
        L::Decreasing(v) => v.clone(),
    }
}

/// Reads a digit vector back, most significant first, with the radices of
/// an `l`-symbol code in the given direction.
fn evaluate(digits: &[i32], l: usize, increasing: bool) -> usize {
    let m = digits.len();
    let mut value: usize = 0;
    for i in 0..m {
        let k = m - 1 - i;
        let r = if increasing { k + 2 } else { l - k };
        value = value * r + digits[i] as usize;
    }
    value
}

#[test]
fn round_trip_over_every_index() {
    for (text, total) in [("ab", 2usize), ("abc", 6), ("abcd", 24), ("12345", 120), ("abcdef", 720)] {
        let charset = CharSet::from_str(text).unwrap();
        let l = charset.len();
        for inc in [true, false] {
            for n in 0..total {
                let code = L::from_dicimal(n, &charset, inc).unwrap();
                let d = digits_of(&code);
                assert_eq!(d.len(), l - 1);
                assert_eq!(evaluate(&d, l, inc), n);
            }
            assert_eq!(
                L::from_dicimal(total, &charset, inc).unwrap_err(),
                LehmerError::IndexOutOfRange
            );
        }
    }
}

#[test]
fn scenario_five_symbols() {
    let charset = CharSet::from_slice(&['1', '2', '3', '4', '5']).unwrap();
    assert_eq!(charset.len(), 5);
    assert_eq!(digits_of(&L::from_dicimal(0, &charset, true).unwrap()), vec![0, 0, 0, 0]);
    assert_eq!(digits_of(&L::from_dicimal(119, &charset, true).unwrap()), vec![4, 3, 2, 1]);
    assert_eq!(digits_of(&L::from_dicimal(0, &charset, false).unwrap()), vec![0, 0, 0, 0]);
    assert_eq!(digits_of(&L::from_dicimal(119, &charset, false).unwrap()), vec![1, 2, 3, 4]);
    assert_eq!(
        L::from_dicimal(120, &charset, true).unwrap_err(),
        LehmerError::IndexOutOfRange
    );
    assert_eq!(
        L::from_dicimal(120, &charset, false).unwrap_err(),
        LehmerError::IndexOutOfRange
    );
    assert!(matches!(L::from_dicimal(119, &charset, true).unwrap(), L::Increasing(_)));
    assert!(matches!(L::from_dicimal(119, &charset, false).unwrap(), L::Decreasing(_)));
}

#[test]
fn indices_past_the_factorial_are_out_of_range() {
    let charset = CharSet::from_str("abc").unwrap();
    for n in [6usize, 7, 100, usize::MAX] {
        for inc in [true, false] {
            assert_eq!(
                L::from_dicimal(n, &charset, inc).unwrap_err(),
                LehmerError::IndexOutOfRange
            );
        }
    }
}

#[test]
fn single_symbol_is_degenerate() {
    let charset = CharSet::from_str("1").unwrap();
    for n in [0usize, 1, 5, usize::MAX] {
        for inc in [true, false] {
            assert_eq!(
                L::from_dicimal(n, &charset, inc).unwrap_err(),
                LehmerError::DegenerateAlphabet
            );
        }
    }
}

#[test]
fn text_form_has_label_and_spaced_digits() {
    let charset = CharSet::from_str("abcdefghijkl").unwrap();
    let code = L::from_dicimal(479001599, &charset, false).unwrap();
    assert_eq!(code.to_string(), "L(dec): 1 2 3 4 5 6 7 8 9 10 11");
    let code = L::from_dicimal(479001599, &charset, true).unwrap();
    assert_eq!(code.to_string(), "L(inc): 11 10 9 8 7 6 5 4 3 2 1");
}

#[test]
fn error_messages() {
    assert_eq!(LehmerError::EmptyAlphabet.message(), "Given no char, so no permutation!");
    assert_eq!(LehmerError::DuplicateSymbol.message(), "Given duplicated chars!");
    assert_eq!(
        LehmerError::DegenerateAlphabet.message(),
        "The Lehmer code of single char is meanless!"
    );
    assert_eq!(
        LehmerError::IndexOutOfRange.message(),
        "A dicimal larger than total number of this permutation!"
    );
}
