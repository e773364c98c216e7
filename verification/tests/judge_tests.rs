use make_up_binary::judge::{and_all_posbit, exist_posbit, is_makable, is_makable_detail, posbit};

#[test]
fn posbit_test() {
    assert_eq!(posbit(0b00101001, 0b00100000), 0b00101001);
    assert_eq!(posbit(0b00101001, 0b00010000), 0b11010110);
    assert_eq!(posbit(0b00101001, 0b00001000), 0b00101001);
    assert_eq!(posbit(0b00101001, 0b00000100), 0b11010110);
    assert_eq!(posbit(0b00101001, 0b00000001), 0b00101001);
}

#[test]
fn and_all_posbit_test() {
    assert_eq!(
        and_all_posbit(&vec![0b10101110, 0b01010101, 0b11111111], 0b00000100),
        0b00000100
    );
}

#[test]
fn exist_posbit_test() {
    assert!(exist_posbit(0b00110011, 0b00001111, 0b00000001));
    assert!(!exist_posbit(0b00000011, 0b00001111, 0b00000001));
}

#[test]
fn is_makable_test() {
    assert!(!is_makable(0b101, &vec![0b100, 0b011, 0b000, 0b111]));
    assert!(is_makable(0b101, &vec![0b100, 0b001]));
    assert!(is_makable(0b101, &vec![0b101]));
}

#[test]
fn is_makable_detail_test() {
    assert_eq!(
        is_makable_detail(0b101, &vec![0b100, 0b011, 0b000, 0b111]),
        vec![0b011]
    );
    assert_eq!(
        is_makable_detail(0b10111, &vec![0b10101, 0b01010]),
        vec![0b01010]
    );
}
