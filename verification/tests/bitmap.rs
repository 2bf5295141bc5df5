use marksweep::bitmap::Bitmap;

#[test]
fn a_new_bitmap_is_clear() {
    let bits = Bitmap::new(200);
    assert_eq!(bits.len(), 200);
    for i in 0..200 {
        assert!(!bits.get(i));
    }
}

#[test]
fn set_and_clear_touch_one_bit() {
    let mut bits = Bitmap::new(200);
    for i in [0usize, 1, 63, 64, 65, 127, 128, 199] {
        bits.set(i);
    }
    for i in 0..200usize {
        assert_eq!(bits.get(i), [0usize, 1, 63, 64, 65, 127, 128, 199].contains(&i));
    }
    bits.clear(64);
    bits.clear(0);
    bits.clear(2);
    for i in 0..200usize {
        assert_eq!(bits.get(i), [1usize, 63, 65, 127, 128, 199].contains(&i));
    }
}

#[test]
fn setting_a_bit_twice_is_setting_it_once() {
    let mut bits = Bitmap::new(70);
    bits.set(69);
    bits.set(69);
    assert!(bits.get(69));
    bits.clear(69);
    assert!(!bits.get(69));
}

#[test]
fn an_empty_bitmap_has_no_bits() {
    let bits = Bitmap::new(0);
    assert_eq!(bits.len(), 0);
}
