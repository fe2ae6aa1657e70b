use saloon::byte_string::{compare, KeyOrder};

#[test]
fn compare_equal_keys() {
    assert_eq!(compare(b"", b""), KeyOrder::Same);
    assert_eq!(compare(b"abc", b"abc"), KeyOrder::Same);
}

#[test]
fn compare_by_first_difference() {
    assert_eq!(compare(b"abc", b"abd"), KeyOrder::Before);
    assert_eq!(compare(b"abd", b"abc"), KeyOrder::After);
    assert_eq!(compare(b"b", b"abc"), KeyOrder::After);
    assert_eq!(compare(&[0x00], &[0xff]), KeyOrder::Before);
    assert_eq!(compare(&[0x80], &[0x7f]), KeyOrder::After);
}

#[test]
fn compare_prefix_sorts_first() {
    assert_eq!(compare(b"", b"a"), KeyOrder::Before);
    assert_eq!(compare(b"ab", b"abc"), KeyOrder::Before);
    assert_eq!(compare(b"abc", b"ab"), KeyOrder::After);
}

#[test]
fn compare_agrees_with_slice_order() {
    let keys: [&[u8]; 6] = [b"", b"a", b"aa", b"ab", b"b", &[0xff, 0x00]];
    for a in keys.iter() {
        for b in keys.iter() {
            let expected = if a < b {
                KeyOrder::Before
            } else if a == b {
                KeyOrder::Same
            } else {
                KeyOrder::After
            };
            assert_eq!(compare(a, b), expected);
        }
    }
}
