use nanodb::converter::{get_int_value, set_int_value};

#[test]
fn test_convert_int() {
    let mut xs = [0; 20];
    let x = 9;
    set_int_value(&mut xs, 10, x);
    assert_eq!(x, get_int_value(&mut xs, 10).unwrap());
}

#[test]
fn convert_int_is_little_endian() {
    let mut xs = [0u8; 8];
    set_int_value(&mut xs, 2, 0x01020304);
    assert_eq!(xs, [0, 0, 4, 3, 2, 1, 0, 0]);
    set_int_value(&mut xs, 4, -2);
    assert_eq!(get_int_value(&xs, 4), Some(-2));
    assert_eq!(&xs[4..8], &[0xfe, 0xff, 0xff, 0xff]);
}

#[test]
fn convert_int_out_of_range_is_none() {
    let xs = [0u8; 6];
    assert_eq!(get_int_value(&xs, 3), None);
    assert_eq!(get_int_value(&xs, 2), Some(0));
}
