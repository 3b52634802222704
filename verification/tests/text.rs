use harvest::text::chars;
use harvest::text::decimal;
use harvest::text::digit;
use harvest::text::rank;
use harvest::text::same;
use harvest::text::zero_padded;
use harvest::text::Rank;

#[test]
fn decimal_renders_as_the_standard_library_does() {
    for n in [0u64, 1, 9, 10, 99, 100, 101, 12345, u64::MAX] {
        assert_eq!(decimal(n), format!("{}", n));
    }
}

#[test]
fn zero_padded_renders_as_the_standard_library_does() {
    assert_eq!(zero_padded(0, 3), "000");
    assert_eq!(zero_padded(7, 3), "007");
    assert_eq!(zero_padded(42, 3), "042");
    assert_eq!(zero_padded(999, 3), "999");
    assert_eq!(zero_padded(1000, 3), "1000");
    assert_eq!(zero_padded(5, 0), "5");
    assert_eq!(zero_padded(5, 1), "5");
    for n in [0u64, 3, 17, 250, 4096, u64::MAX] {
        assert_eq!(zero_padded(n, 3), format!("{:03}", n));
        assert_eq!(zero_padded(n, 25), format!("{:025}", n));
    }
}

#[test]
fn digits_are_characters() {
    assert_eq!(digit(0), '0');
    assert_eq!(digit(9), '9');
}

#[test]
fn rank_is_the_order_of_strings() {
    let texts = ["", "a", "A", "ab", "b", "dir1", "dir2", "file1.txt", "é", "z", "\u{10000}"];
    for a in texts {
        for b in texts {
            let expected = match a.cmp(b) {
                std::cmp::Ordering::Less => Rank::Before,
                std::cmp::Ordering::Equal => Rank::Same,
                std::cmp::Ordering::Greater => Rank::After,
            };
            assert_eq!(rank(a, b), expected, "{a:?} against {b:?}");
            assert_eq!(same(a, b), a == b);
        }
    }
}

#[test]
fn chars_lists_the_characters() {
    assert_eq!(chars("héllo"), vec!['h', 'é', 'l', 'l', 'o']);
    assert_eq!(chars(""), Vec::<char>::new());
}
