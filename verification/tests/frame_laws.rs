use simcan::bus::Bus;
use simcan::canframe::CANFrame;
use simcan::ecu::ECU;
use simcan::encoder::Encoder;

fn bits(f: &CANFrame) -> Vec<bool> {
    let w = f.view();
    (0..96).map(|p| (w[p / 32] >> (31 - p % 32)) & 1 == 1).collect()
}

#[test]
fn new_sets_start_bit_and_identifier() {
    let f = CANFrame::new(0x7FF);
    assert_eq!(f.view(), &[0xFFF0_0000u32, 0, 0][..]);
    let f = CANFrame::new(0);
    assert_eq!(f.view(), &[0x8000_0000u32, 0, 0][..]);
}

#[test]
fn control_bits_keep_identifier_and_replace_length() {
    let mut f = CANFrame::new(0x7FF);
    f.set_RTR_and_ctr_bits(0);
    assert_eq!(f.view()[0], 0xFFFE_0000);
    assert_eq!(f.data_size(), 0);
    f.set_RTR_and_ctr_bits(3);
    assert_eq!(f.view()[0], 0xFFFE_6000);
    assert_eq!(f.data_size(), 3);
}

#[test]
fn set_data_writes_only_announced_bytes() {
    let mut f = CANFrame::new(1);
    f.set_RTR_and_ctr_bits(2);
    f.set_data(&[0xFF, 0xFF, 0xFF, 0xFF]);
    assert_eq!(f.view()[0], 0x801E_5FFF);
    assert_eq!(f.view()[1], 0xE000_0000);
    assert_eq!(f.view()[2], 0);
    assert_eq!(f.get_data(), [0xFF, 0xFF, 0, 0, 0, 0, 0, 0]);
}

#[test]
fn set_data_with_fewer_bytes_than_announced() {
    let mut f = CANFrame::new(1);
    f.set_RTR_and_ctr_bits(8);
    f.set_data(b"ab");
    assert_eq!(f.get_data(), [b'a', b'b', 0, 0, 0, 0, 0, 0]);
}

#[test]
fn get_data_loses_top_bit_of_bytes_three_four_and_seven() {
    let mut f = CANFrame::new(1);
    f.set_RTR_and_ctr_bits(8);
    f.set_data(&[0x80, 0x81, 0x82, 0x83, 0x84, 0x85, 0x86, 0x87]);
    assert_eq!(f.get_data(), [0x80, 0x81, 0x82, 0x03, 0x04, 0x85, 0x86, 0x07]);
}

#[test]
fn stuffing_leaves_no_six_equal_bits() {
    let mut f = CANFrame::new(0);
    f.set_RTR_and_ctr_bits(8);
    f.set_data(&[0, 0, 0xFF, 0xFF, 0, 0, 0xFF, 0xFF]);
    f.prepare_send();
    let b = bits(&f);
    for i in 0..91 {
        assert!(!(b[i..i + 6].iter().all(|&x| x == b[i])), "run of six at {}", i);
    }
}

#[test]
fn stuffing_inserts_opposite_bit_after_five() {
    let mut f = CANFrame::new(0);
    f.prepare_send();
    assert_eq!(f.view(), &[0x8208_2082u32, 0x0820_8208, 0x2082_0820][..]);
}

#[test]
fn stuffing_leaves_bits_before_first_run_of_five() {
    let mut f = CANFrame::new(0x2AA);
    f.set_RTR_and_ctr_bits(0);
    let mut g = f.clone();
    g.prepare_send();
    assert_eq!(&bits(&g)[..12], &bits(&f)[..12]);
}

#[test]
fn frames_order_by_key() {
    let a = CANFrame::new(3);
    let b = CANFrame::new(4);
    assert!(a < b);
    assert!(b > a);
    assert!(a <= a.clone());
    assert_eq!(a.partial_cmp(&b), Some(std::cmp::Ordering::Less));
    assert_eq!(a.order_key(), 3);
    assert_eq!(b.order_key(), 4);
    // bits 28 and 29 of the first word, the two top identifier bits but one, are not part of the key
    assert_eq!(CANFrame::new(0x100).order_key(), 0);
    assert_eq!(CANFrame::new(0x400).order_key(), 0x400);
}

#[test]
fn equal_frames_have_equal_bits() {
    let a = CANFrame::new(3);
    let mut b = CANFrame::new(3);
    assert_eq!(a, b);
    b.set_RTR_and_ctr_bits(1);
    assert_ne!(a, b);
}

#[test]
fn bus_keeps_lowest_key_and_tie_goes_to_last() {
    let mut bus = Bus::new();
    let mut a = CANFrame::new(7);
    a.set_RTR_and_ctr_bits(1);
    let b = CANFrame::new(7);
    bus.send(a.clone());
    bus.send(b.clone());
    assert_eq!(*bus.recieve().unwrap(), b);
    bus.send(CANFrame::new(9));
    assert_eq!(*bus.recieve().unwrap(), b);
    bus.send(CANFrame::new(2));
    assert_eq!(*bus.recieve().unwrap(), CANFrame::new(2));
}

#[test]
fn frame_text_forms() {
    let f = CANFrame::new(1);
    assert_eq!(
        f.to_bin_string(),
        "10000000000100000000000000000000_00000000000000000000000000000000_00000000000000000000000000000000"
    );
    assert_eq!(f.to_hex_string(), "80100000_0_0");
}

#[test]
fn encode_and_reverse() {
    assert_eq!(Encoder::encode("hoge").unwrap(), b"hoge");
    assert_eq!(
        Encoder::encode("héllo").unwrap_err(),
        "This input cant encode. Only ascii charactor is accepted."
    );
    assert_eq!(Encoder::reverse(Encoder::encode("piyo").unwrap()).unwrap(), "piyo");
    assert!(Encoder::reverse(&[0xff, 0x00]).is_err());
    assert_eq!(Encoder::reverse(&[0xc3, 0xa9]).unwrap(), "é");
}

#[test]
fn ecu_send_returns_data_read_back_after_stuffing() {
    let ecu = ECU::new(1);
    let mut bus = Bus::new();
    assert_eq!(ecu.send(&mut bus, "12345678"), Ok("\u{7}\u{13}#3CScs".to_string()));
    assert!(bus.recieve().is_some());
    let mut bus = Bus::new();
    assert_eq!(ecu.send(&mut bus, ""), Ok("\u{10}A\u{4}\u{10}A\u{4}\u{10}A".to_string()));
}

#[test]
fn ecu_send_returns_written_text_where_read_back_is_not_utf8() {
    let ecu = ECU::new(1);
    let mut bus = Bus::new();
    assert_eq!(ecu.send(&mut bus, "hoge"), Ok("hoge\0\0\0\0".to_string()));
}

#[test]
fn ecu_send_fails_when_bus_held_by_lower_key() {
    let mut bus = Bus::new();
    let low = ECU::new(1);
    let high = ECU::new(2);
    assert!(low.send(&mut bus, "a").is_ok());
    assert_eq!(high.send(&mut bus, "b"), Err("Failed to send"));
    assert!(low.send(&mut bus, "c").is_ok());
}

#[test]
fn ecu_can_send() {
    let ecu = ECU::new(1);
    assert!(ecu.can_send("hoge"));
    assert!(ecu.can_send("12345678"));
    assert!(!ecu.can_send("123456789"));
    assert!(!ecu.can_send("é"));
    assert!(!ECU::new(0x800).can_send("a"));
}

fn destuff(t: &[bool]) -> Vec<bool> {
    let mut out = Vec::new();
    let mut last = false;
    let mut run = 0;
    for &b in t {
        if run >= 5 {
            last = b;
            run = 1;
            continue;
        }
        out.push(b);
        run = if b == last { run + 1 } else { 1 };
        last = b;
    }
    out
}

#[test]
fn destuffing_gives_back_the_frame_before_stuffing() {
    let mut f = CANFrame::new(1);
    f.set_RTR_and_ctr_bits(3);
    f.set_data(&[0x3, 0xF8, 0xDC]);
    let before = bits(&f);
    f.prepare_send();
    let d = destuff(&bits(&f));
    assert!(d.len() <= 96 && d.len() >= 80);
    assert_eq!(&d[..], &before[..d.len()]);
}

#[test]
fn set_data_keeps_length_code_and_key_over_many_calls() {
    let mut f = CANFrame::new(0x123);
    f.set_RTR_and_ctr_bits(5);
    let key = f.order_key();
    f.set_data(&[0xFF; 8]);
    f.set_data(&[0x55, 0xAA]);
    f.set_data(&[]);
    assert_eq!(f.data_size(), 5);
    assert_eq!(f.order_key(), key);
}

#[test]
fn bus_after_many_sends_holds_last_lowest() {
    let mut bus = Bus::new();
    assert!(bus.recieve().is_none());
    let mut a = CANFrame::new(4);
    a.set_RTR_and_ctr_bits(1);
    let frames = [CANFrame::new(9), CANFrame::new(4), CANFrame::new(6), a.clone(), CANFrame::new(5)];
    for f in frames.iter() {
        bus.send(f.clone());
        assert!(bus.recieve().is_some());
    }
    assert_eq!(*bus.recieve().unwrap(), a);
}
