use ipnetwork::Ipv4Network;

use routing::Cidr;

fn addr(a: u8, b: u8, c: u8, d: u8) -> u32 {
    u32::from_be_bytes([a, b, c, d])
}

#[test]
fn new_keeps_address_and_prefix() {
    let net = Cidr::new(0x0a01_0920, 16).unwrap();
    assert_eq!(net.ip(), 0x0a01_0920);
    assert_eq!(net.prefix(), 16);
}

#[test]
fn new_accepts_prefix_up_to_32() {
    assert!(Cidr::new(0, 0).is_some());
    assert!(Cidr::new(0, 32).is_some());
    assert_eq!(Cidr::new(0xc0a8_0001, 32).unwrap().prefix(), 32);
}

#[test]
fn new_rejects_prefix_over_32() {
    assert_eq!(Cidr::new(0, 33), None);
    assert_eq!(Cidr::new(0x0a00_0000, 64), None);
    assert_eq!(Cidr::new(0x0a00_0000, 255), None);
}

#[test]
fn contains_checks_the_leading_bits() {
    let net = Cidr::new(addr(127, 0, 0, 0), 24).unwrap();
    assert!(net.contains(addr(127, 0, 0, 70)));
    assert!(!net.contains(addr(127, 0, 1, 70)));
    assert!(net.contains(addr(127, 0, 0, 0)));
    assert!(net.contains(addr(127, 0, 0, 255)));
    assert!(!net.contains(addr(126, 255, 255, 255)));
}

#[test]
fn contains_ignores_host_bits_of_the_base_address() {
    let net = Cidr::new(addr(10, 0, 0, 99), 24).unwrap();
    assert!(net.contains(addr(10, 0, 0, 1)));
    assert!(net.contains(addr(10, 0, 0, 99)));
    assert!(!net.contains(addr(10, 0, 1, 99)));
}

#[test]
fn zero_prefix_contains_every_address() {
    let net = Cidr::new(addr(10, 0, 0, 0), 0).unwrap();
    assert!(net.contains(0));
    assert!(net.contains(0xffff_ffff));
    assert!(net.contains(addr(192, 168, 0, 1)));
}

#[test]
fn full_prefix_contains_one_address() {
    let net = Cidr::new(addr(10, 0, 0, 99), 32).unwrap();
    assert!(net.contains(addr(10, 0, 0, 99)));
    assert!(!net.contains(addr(10, 0, 0, 98)));
    assert!(!net.contains(addr(10, 0, 0, 100)));
    assert!(!net.contains(addr(138, 0, 0, 99)));
}

#[test]
fn odd_prefix_lengths_split_inside_an_octet() {
    let one = Cidr::new(0x8000_0000, 1).unwrap();
    assert!(one.contains(0x8000_0000));
    assert!(one.contains(0xffff_ffff));
    assert!(!one.contains(0x7fff_ffff));
    let thirty_one = Cidr::new(addr(10, 0, 0, 2), 31).unwrap();
    assert!(thirty_one.contains(addr(10, 0, 0, 2)));
    assert!(thirty_one.contains(addr(10, 0, 0, 3)));
    assert!(!thirty_one.contains(addr(10, 0, 0, 1)));
    assert!(!thirty_one.contains(addr(10, 0, 0, 4)));
    let twelve = Cidr::new(addr(172, 16, 0, 0), 12).unwrap();
    assert!(twelve.contains(addr(172, 31, 255, 255)));
    assert!(!twelve.contains(addr(172, 32, 0, 0)));
    assert!(!twelve.contains(addr(172, 15, 255, 255)));
}

#[test]
fn contains_agrees_with_ipnetwork() {
    let bases = [
        addr(0, 0, 0, 0),
        addr(10, 0, 0, 99),
        addr(172, 16, 5, 4),
        addr(192, 168, 1, 0),
        addr(255, 255, 255, 255),
    ];
    let probes = [
        addr(0, 0, 0, 0),
        addr(10, 0, 0, 1),
        addr(10, 0, 0, 99),
        addr(10, 128, 0, 0),
        addr(172, 16, 5, 5),
        addr(172, 17, 0, 0),
        addr(192, 168, 1, 255),
        addr(192, 168, 2, 0),
        addr(255, 255, 255, 254),
        addr(255, 255, 255, 255),
    ];
    for base in bases {
        for prefix in 0..=32u8 {
            let ours = Cidr::new(base, prefix).unwrap();
            let theirs = Ipv4Network::new(base.into(), prefix).unwrap();
            for probe in probes {
                assert_eq!(ours.contains(probe), theirs.contains(probe.into()));
            }
        }
    }
}
