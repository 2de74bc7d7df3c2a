use simcan::canframe::CANFrame;

#[test]
#[allow(non_snake_case)]
fn make_CANFrame_id_1() {
    let can_frame = CANFrame::new(1);
    assert_eq!(can_frame.view()[0], 0b10000000000100000000000000000000)
}

#[test]
#[allow(non_snake_case)]
fn make_CANFrame_id_100() {
    let can_frame = CANFrame::new(101);
    assert_eq!(can_frame.view()[0], 0b10000110010100000000000000000000)
}

#[test]
fn prepare_id101_8bytes_data() {
    let mut can_frame = CANFrame::new(101);
    can_frame.set_RTR_and_ctr_bits(8);
    assert_eq!(can_frame.view()[0], 0b10000110010111110000000000000000)
}

#[test]
fn prepare_id101_6bytes_data() {
    let mut can_frame = CANFrame::new(101);
    can_frame.set_RTR_and_ctr_bits(6);
    assert_eq!(can_frame.view()[0], 0b10000110010111101100000000000000)
}

#[test]
#[allow(non_snake_case)]
fn set_RTRs_twice() {
    let mut can_frame = CANFrame::new(101);
    can_frame.set_RTR_and_ctr_bits(7);
    assert_eq!(can_frame.view()[0], 0b10000110010111101110000000000000);
    can_frame.set_RTR_and_ctr_bits(5);
    assert_eq!(can_frame.view()[0], 0b10000110010111101010000000000000);
}

#[test]
fn test_set_data_8byte_hogefuga() {
    let mut can_frame = CANFrame::new(101);
    can_frame.set_RTR_and_ctr_bits(8);
    can_frame.set_data("hogefuga".as_bytes());
    assert_eq!(can_frame.view()[0], 0x865F0D0D);
    assert_eq!(can_frame.view()[1], 0xECECACCE);
    assert_eq!(can_frame.view()[2], 0xACEC2000);
}

#[test]
fn test_set_data_6byte_hogefuga() {
    let mut can_frame = CANFrame::new(101);
    can_frame.set_RTR_and_ctr_bits(6);
    can_frame.set_data("hogefuga".as_bytes());
    assert_eq!(can_frame.view()[0], 0x865ECD0D);
    assert_eq!(can_frame.view()[1], 0xECECACCE);
    assert_eq!(can_frame.view()[2], 0xA0000000);
}

#[test]
fn test_size() {
    let mut can_frame = CANFrame::new(1);
    can_frame.set_RTR_and_ctr_bits(8);
    assert_eq!(can_frame.data_size(), 8);
    can_frame.set_RTR_and_ctr_bits(6);
    assert_eq!(can_frame.data_size(), 6);
}

#[test]
fn test_bitstuffing() {
    let data: [u8; 2] = [0x3, 0xE0];
    let mut can_frame = CANFrame::new(1);
    can_frame.set_RTR_and_ctr_bits(2);
    can_frame.set_data(&data);
    can_frame.prepare_send();
    assert_eq!(can_frame.view()[0], 0x820F8827);
    assert_eq!(can_frame.view()[1], 0xC1041041);
}

#[test]
fn test_bitstuffing2() {
    let data: [u8; 3] = [0x3, 0xF8, 0xDC];
    let mut can_frame = CANFrame::new(1);
    can_frame.set_RTR_and_ctr_bits(3);
    can_frame.set_data(&data);
    can_frame.prepare_send();
    assert_eq!(can_frame.view()[0], 0x820F8C17);
    assert_eq!(can_frame.view()[1], 0xD8DC1041);
    assert_eq!(can_frame.view()[2], 0x04104104);
}

#[test]
fn test_ord_id_11_vs_30() {
    let can_frame1 = CANFrame::new(11);
    let can_frame2 = CANFrame::new(30);

    let result = can_frame1 < can_frame2;
    assert_eq!(result, true);
}

#[test]
fn test_ord_same_id_different_data() {
    let can_frame1 = CANFrame::new(11);
    let can_frame2 = CANFrame::new(11);

    let result_true = can_frame1 <= can_frame2;
    let result_false = can_frame1 < can_frame2;

    assert_eq!(result_true, true);
    assert_eq!(result_false, false);
}

#[test]
fn test_get_data() {
    let mut can_frame = CANFrame::new(1);
    can_frame.set_RTR_and_ctr_bits(8);
    can_frame.set_data("hogefuga".as_bytes());

    assert_eq!(can_frame.get_data(), "hogefuga".as_bytes());
}
