use simcan::bus::Bus;
use simcan::ecu::ECU;

#[test]
fn test_ecu_send_and_check() {
    let mut bus = Bus::new();
    let ecu = ECU::new(1);
    let res = ecu.send(&mut bus, "hoge");
    println!("{:?}", res.unwrap());
}

#[test]
fn test_ecu_sending_twice_1st_prior_to_2nd() {
    let _bus = Bus::new();
    let _ecu1 = ECU::new(1);
    let _ecu2 = ECU::new(2);
}

#[test]
fn test_ecu_sending_twice_2nd_prior_to_1st() {}
