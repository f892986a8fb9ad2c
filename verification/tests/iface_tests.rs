use mcast_probe::iface::{literal_index, parse_iface, resolve_named, InterfaceRef};

fn no_lookup(name: &str) -> Option<u32> {
    panic!("the platform was asked for {:?}", name)
}

#[test]
fn nothing_asked_for_gives_the_default() {
    let r = parse_iface(&None, no_lookup).unwrap();
    assert_eq!(r, InterfaceRef { index: 0 });
    assert!(r.is_default());
}

#[test]
fn a_number_is_taken_at_its_word() {
    assert_eq!(parse_iface(&Some("3".to_string()), no_lookup).unwrap().index, 3);
    assert_eq!(parse_iface(&Some("0".to_string()), no_lookup).unwrap().index, 0);
    assert_eq!(parse_iface(&Some("+7".to_string()), no_lookup).unwrap().index, 7);
    assert_eq!(parse_iface(&Some("007".to_string()), no_lookup).unwrap().index, 7);
    assert_eq!(
        parse_iface(&Some("4294967295".to_string()), no_lookup).unwrap().index,
        u32::MAX
    );
    assert!(!parse_iface(&Some("3".to_string()), no_lookup).unwrap().is_default());
}

#[test]
fn a_number_is_taken_whatever_the_platform_knows() {
    let r = parse_iface(&Some("12".to_string()), |_| None).unwrap();
    assert_eq!(r.index, 12);
    let r = parse_iface(&Some("12".to_string()), |_| Some(99)).unwrap();
    assert_eq!(r.index, 12);
}

#[test]
fn a_name_is_resolved_by_the_platform() {
    let lookup = |name: &str| if name == "eth0" { Some(2) } else { None };
    assert_eq!(parse_iface(&Some("eth0".to_string()), lookup).unwrap().index, 2);
}

#[test]
fn an_unknown_name_is_not_found() {
    let lookup = |name: &str| if name == "eth0" { Some(2) } else { None };
    let err = parse_iface(&Some("wlan9".to_string()), lookup).unwrap_err();
    assert_eq!(err.name, "wlan9");
}

#[test]
fn an_answer_of_zero_is_not_found() {
    let err = parse_iface(&Some("lo".to_string()), |_| Some(0)).unwrap_err();
    assert_eq!(err.name, "lo");
}

#[test]
fn what_is_no_number_goes_to_the_platform() {
    for text in ["", "+", "-1", "4294967296", "99999999999999999999999", "1 ", " 1", "0x10", "1e3", "eth0", "\u{663}"] {
        let mut asked = false;
        let r = parse_iface(&Some(text.to_string()), |name: &str| {
            assert_eq!(name, text);
            Some(5)
        });
        if let Ok(i) = &r {
            asked = i.index == 5;
        }
        assert!(asked, "{:?} was not looked up", text);
    }
}

#[test]
fn literal_index_agrees_with_the_standard_reading_of_u32() {
    for text in ["0", "1", "+1", "00", "+0", "4294967295", "4294967296", "", "+", "-", "-0", "++1", "1+", "12a", "a12", " 12", "١٢"] {
        assert_eq!(literal_index(text), text.parse::<u32>().ok(), "{:?}", text);
    }
}

#[test]
fn resolve_named_keeps_the_name_in_the_error() {
    assert_eq!(resolve_named("eth1", Some(4)).unwrap(), InterfaceRef { index: 4 });
    assert_eq!(resolve_named("eth1", None).unwrap_err().name, "eth1");
    assert_eq!(resolve_named("eth1", Some(0)).unwrap_err().name, "eth1");
}
