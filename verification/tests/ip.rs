use supportfile_pii_anonymizer::ip::{ipv4_network, subnet_letters};

fn v4(a: u8, b: u8, c: u8, d: u8) -> u32 {
    u32::from_be_bytes([a, b, c, d])
}

#[test]
fn masks_ipv4() {
    let a = v4(10, 1, 2, 34);
    assert_eq!(ipv4_network(a, 24), v4(10, 1, 2, 0));
    let b = v4(10, 1, 2, 99);
    assert_eq!(ipv4_network(a, 24), ipv4_network(b, 24));
}

#[test]
fn letters() {
    assert_eq!(subnet_letters(0), "A");
    assert_eq!(subnet_letters(25), "Z");
    assert_eq!(subnet_letters(26), "AA");
}
