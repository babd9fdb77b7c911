use visa_usb::{NumErrorKind, UsbAddress, UsbParseError};

fn round_trips(addr: &str) {
    let address = UsbAddress::try_new(addr).unwrap();
    assert_eq!(address.to_string(), addr);
}

fn parse_err(addr: &str) -> UsbParseError {
    match UsbAddress::try_new(addr) {
        Ok(_) => panic!("accepted invalid USB address: {addr}"),
        Err(e) => e,
    }
}

#[test]
fn usb_parse_address() {
    round_trips("USB::0x1A34::0x5678::A22-5");
}

#[test]
fn usb_parse_board() {
    round_trips("USB1::0x12B4::0x56F8::A22-5::INSTR");
}

#[test]
fn usb_parse_instr() {
    round_trips("USB::0xFFA1::0x56C8::A22-5::INSTR");
}

#[test]
fn usb_parse_interface() {
    round_trips("USB::0x1234::0x5D78::A22-5::123");
}

#[test]
fn usb_parse_all() {
    round_trips("USB34::0x12A4::0xFF1A::A22-5::12314::INSTR");
}

#[test]
fn usb_ui_not_usb() {
    assert_eq!(parse_err("TCPIP::1.2.3.4::inst0::INSTR"), UsbParseError::NotUSB("TCP".to_string()));
}

#[test]
fn usb_ui_cut_usb() {
    assert_eq!(
        parse_err("US"),
        UsbParseError::IncompleteAddress(
            "US".to_string(),
            "USB flag, Manufacture Code, Model Number, Serial number".to_string()
        )
    );
}

#[test]
fn usb_ui_cut_manu() {
    assert_eq!(
        parse_err("USB::0x"),
        UsbParseError::IncompleteAddress(
            "USB::0x".to_string(),
            "Manufacture Code, Model Number, Serial number".to_string()
        )
    );
}

#[test]
fn usb_ui_cut_model() {
    assert_eq!(
        parse_err("USB::0x321::0x1"),
        UsbParseError::IncompleteAddress("USB::0x321::0x1".to_string(), "Model Number, Serial number".to_string())
    );
}

#[test]
fn usb_ui_cut_serial() {
    assert_eq!(
        parse_err("USB::0x321::0x132::"),
        UsbParseError::IncompleteAddress("USB::0x321::0x132::".to_string(), "Serial Number".to_string())
    );
}

#[test]
fn usb_ui_manu_hex() {
    let addr = "USB34::x1H34::0x5678::A22-5::12314::INSTR";
    assert_eq!(
        parse_err(addr),
        UsbParseError::NotHex { found: "x1H34".to_string(), addr: addr.to_string(), start: 7, end: 12 }
    );
}

#[test]
fn usb_ui_model_hex() {
    let addr = "USB34::0x1B34::x56A8::A22-5::12314::INSTR";
    assert_eq!(
        parse_err(addr),
        UsbParseError::NotHex { found: "x56A8".to_string(), addr: addr.to_string(), start: 15, end: 20 }
    );
}

#[test]
fn usb_ui_wrong_inst_long() {
    let addr = "USB34::0x12C4::0x5678::A22-5::12314::INSTRfdss";
    assert_eq!(
        parse_err(addr),
        UsbParseError::NotInstr { found: "INSTRfdss".to_string(), addr: addr.to_string(), start: 37, end: 45 }
    );
}

#[test]
fn usb_ui_wrong_inst_short() {
    let addr = "USB34::0x1234::0x5D78::A22-5::INST";
    assert_eq!(
        parse_err(addr),
        UsbParseError::NotInstr { found: "INST".to_string(), addr: addr.to_string(), start: 30, end: 33 }
    );
}

#[test]
fn usb_ui_num_err_model() {
    let addr = "USB34::0x1234::0x56Z8::A22-5::12314::INSTR";
    assert_eq!(
        parse_err(addr),
        UsbParseError::NumParseError {
            found: "56Z8".to_string(),
            addr: addr.to_string(),
            start: 15,
            end: 21,
            source: NumErrorKind::InvalidDigit,
        }
    );
}

#[test]
fn usb_ui_num_err_manu() {
    let addr = "USB34::0xTEST::0x568::A22-5::12314::INSTR";
    assert_eq!(
        parse_err(addr),
        UsbParseError::NumParseError {
            found: "TEST".to_string(),
            addr: addr.to_string(),
            start: 7,
            end: 13,
            source: NumErrorKind::InvalidDigit,
        }
    );
}

#[test]
fn fields_of_plain_address() {
    let a = UsbAddress::try_new("USB::0x1A34::0x5678::A22-5").unwrap();
    assert_eq!(a.board(), None);
    assert_eq!(a.manufacturer_id(), 0x1A34);
    assert_eq!(a.model_code(), 0x5678);
    assert_eq!(a.serial_number(), "A22-5");
    assert_eq!(a.interface_number(), None);
    assert!(!a.instr());
}

#[test]
fn fields_with_board_and_marker() {
    let a = UsbAddress::new("USB1::0x12B4::0x56F8::A22-5::INSTR");
    assert_eq!(a.board(), Some(1));
    assert!(a.instr());
    assert_eq!(a.interface_number(), None);
}

#[test]
fn fields_with_everything() {
    let a = UsbAddress::try_new("USB34::0x12A4::0xFF1A::A22-5::12314::INSTR").unwrap();
    assert_eq!(a.board(), Some(34));
    assert_eq!(a.interface_number(), Some(12314));
    assert!(a.instr());
}

#[test]
fn canonical_form_reparses_equal() {
    let a = UsbAddress::try_new("USB007::0X0a34::0x005678::SN:x::instr").unwrap();
    let text = a.to_string();
    assert_eq!(text, "USB7::0xA34::0x5678::SN:x::INSTR");
    assert_eq!(UsbAddress::try_new(&text).unwrap(), a);
}

#[test]
fn serial_may_end_with_colon_at_end() {
    let a = UsbAddress::try_new("USB::0x1::0x2:::").unwrap();
    assert_eq!(a.serial_number(), ":");
    assert_eq!(UsbAddress::try_new(&a.to_string()).unwrap(), a);
}

#[test]
fn empty_trailing_segment_is_accepted() {
    let a = UsbAddress::try_new("USB::0x1::0x2::SN::").unwrap();
    assert_eq!(a.interface_number(), None);
    assert!(!a.instr());
    assert_eq!(a.to_string(), "USB::0x1::0x2::SN");
}

#[test]
fn short_wrong_prefix() {
    assert_eq!(parse_err("X"), UsbParseError::NotUSB("X".to_string()));
    assert_eq!(parse_err("UXB::0x1::0x2::SN"), UsbParseError::NotUSB("UXB".to_string()));
}

#[test]
fn empty_input_is_incomplete() {
    assert_eq!(
        parse_err(""),
        UsbParseError::IncompleteAddress(
            String::new(),
            "USB flag, Manufacture Code, Model Number, Serial number".to_string()
        )
    );
}

#[test]
fn board_only_is_incomplete() {
    assert_eq!(
        parse_err("USB12"),
        UsbParseError::IncompleteAddress("USB12".to_string(), "Manufacture Code, Model Number, Serial number".to_string())
    );
}

#[test]
fn board_overflow() {
    let addr = "USB4294967296::0x1::0x2::SN";
    assert_eq!(
        parse_err(addr),
        UsbParseError::NumParseError {
            found: "4294967296".to_string(),
            addr: addr.to_string(),
            start: 3,
            end: 13,
            source: NumErrorKind::Overflow,
        }
    );
}

#[test]
fn largest_board_accepted() {
    let a = UsbAddress::try_new("USB4294967295::0xFFFF::0xffff::SN::65535").unwrap();
    assert_eq!(a.board(), Some(4294967295));
    assert_eq!(a.manufacturer_id(), 0xFFFF);
    assert_eq!(a.model_code(), 0xFFFF);
    assert_eq!(a.interface_number(), Some(65535));
    assert_eq!(a.to_string(), "USB4294967295::0xFFFF::0xFFFF::SN::65535");
}

#[test]
fn hex_overflow() {
    let addr = "USB::0x10000::0x2::SN";
    assert_eq!(
        parse_err(addr),
        UsbParseError::NumParseError {
            found: "10000".to_string(),
            addr: addr.to_string(),
            start: 5,
            end: 12,
            source: NumErrorKind::Overflow,
        }
    );
}

#[test]
fn hex_digits_missing_after_marker() {
    let addr = "USB::0x::0x2::SN";
    assert_eq!(
        parse_err(addr),
        UsbParseError::NumParseError {
            found: String::new(),
            addr: addr.to_string(),
            start: 5,
            end: 7,
            source: NumErrorKind::Empty,
        }
    );
}

#[test]
fn marker_cut_short() {
    let addr = "USB::0::0x2::SN";
    assert_eq!(
        parse_err(addr),
        UsbParseError::NotHex { found: "0".to_string(), addr: addr.to_string(), start: 5, end: 6 }
    );
}

#[test]
fn bad_marker_without_delimiter() {
    let addr = "USB::0y12";
    assert_eq!(
        parse_err(addr),
        UsbParseError::NotHex { found: "0y12".to_string(), addr: addr.to_string(), start: 5, end: 8 }
    );
}

#[test]
fn spans_count_bytes() {
    let addr = "USB::0x1::0x2::é::Z";
    assert_eq!(
        parse_err(addr),
        UsbParseError::NumParseError {
            found: "Z".to_string(),
            addr: addr.to_string(),
            start: 19,
            end: 19,
            source: NumErrorKind::InvalidDigit,
        }
    );
}

#[test]
fn empty_interface_before_marker() {
    let addr = "USB::0x1::0x2::SN::::INSTR";
    assert_eq!(
        parse_err(addr),
        UsbParseError::NumParseError {
            found: String::new(),
            addr: addr.to_string(),
            start: 19,
            end: 19,
            source: NumErrorKind::Empty,
        }
    );
}

#[test]
fn interface_overflow() {
    let addr = "USB::0x1::0x2::SN::65536";
    assert_eq!(
        parse_err(addr),
        UsbParseError::NumParseError {
            found: "65536".to_string(),
            addr: addr.to_string(),
            start: 19,
            end: 23,
            source: NumErrorKind::Overflow,
        }
    );
}

#[test]
fn marker_after_interface_must_match() {
    let addr = "USB::0x1::0x2::SN::5::INSTX";
    assert_eq!(
        parse_err(addr),
        UsbParseError::NotInstr { found: "INSTX".to_string(), addr: addr.to_string(), start: 22, end: 26 }
    );
}

#[test]
fn empty_serial_before_delimiter() {
    assert_eq!(
        parse_err("USB::0x1::0x2::::5"),
        UsbParseError::IncompleteAddress("USB::0x1::0x2::::5".to_string(), "Serial Number".to_string())
    );
}

#[test]
fn lowercase_marker_accepted() {
    let a = UsbAddress::try_new("USB::0x1::0x2::SN::iNsTr").unwrap();
    assert!(a.instr());
    assert_eq!(a.to_string(), "USB::0x1::0x2::SN::INSTR");
}

#[test]
fn from_str_matches_try_new() {
    let a: UsbAddress = "USB::0x1234::0x5D78::A22-5::123".parse().unwrap();
    assert_eq!(a, UsbAddress::try_new("USB::0x1234::0x5D78::A22-5::123").unwrap());
    assert_eq!(a.interface_number(), Some(123));
    let e = "USB::0x1".parse::<UsbAddress>().unwrap_err();
    assert_eq!(
        e,
        UsbParseError::IncompleteAddress("USB::0x1".to_string(), "Manufacture Code, Model Number, Serial number".to_string())
    );
}

#[test]
fn bad_marker_at_end_of_input() {
    let addr = "USB::y";
    assert_eq!(
        parse_err(addr),
        UsbParseError::NotHex { found: "y".to_string(), addr: addr.to_string(), start: 5, end: 5 }
    );
}
