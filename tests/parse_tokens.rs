use closest_color::color::RawColor;
use closest_color::error::{ColorError, HexFault, ParaFault};

fn parse(s: &str) -> Result<RawColor, ColorError> {
    RawColor::new(s.to_string())
}

#[test]
fn integer_triple_keeps_text_and_values() {
    match parse("171,193,35") {
        Ok(RawColor::RgbU8((raw, c))) => {
            assert_eq!(raw, "171,193,35");
            assert_eq!(c, [171, 193, 35]);
        }
        other => panic!("unexpected {:?}", other),
    }
}

#[test]
fn integer_triple_bounds_and_signs() {
    match parse("0,+7,0255") {
        Ok(RawColor::RgbU8((raw, c))) => {
            assert_eq!(raw, "0,+7,0255");
            assert_eq!(c, [0, 7, 255]);
        }
        other => panic!("unexpected {:?}", other),
    }
    match parse("255,255,255") {
        Ok(RawColor::RgbU8((_, c))) => assert_eq!(c, [255, 255, 255]),
        other => panic!("unexpected {:?}", other),
    }
}

#[test]
fn integer_field_out_of_range_fails() {
    match parse("256,0,0") {
        Err(ColorError::ParaError(ParaFault::Channel { raw, field })) => {
            assert_eq!(raw, "256,0,0");
            assert_eq!(field, b"256".to_vec());
        }
        other => panic!("unexpected {:?}", other),
    }
    match parse("1,x,3") {
        Err(ColorError::ParaError(ParaFault::Channel { field, .. })) => assert_eq!(field, b"x".to_vec()),
        other => panic!("unexpected {:?}", other),
    }
    match parse("1,2,") {
        Err(ColorError::ParaError(ParaFault::Channel { field, .. })) => assert!(field.is_empty()),
        other => panic!("unexpected {:?}", other),
    }
    assert!(matches!(parse("+,1,2"), Err(ColorError::ParaError(ParaFault::Channel { .. }))));
    assert!(matches!(parse("-1,1,2"), Err(ColorError::ParaError(ParaFault::Channel { .. }))));
}

#[test]
fn wrong_field_count_fails() {
    match parse("1,2") {
        Err(ColorError::ParaError(ParaFault::RgbFieldCount { raw })) => assert_eq!(raw, "1,2"),
        other => panic!("unexpected {:?}", other),
    }
    assert!(matches!(parse("1,2,3,4"), Err(ColorError::ParaError(ParaFault::RgbFieldCount { .. }))));
    assert!(matches!(parse(","), Err(ColorError::ParaError(ParaFault::RgbFieldCount { .. }))));
}

#[test]
fn decimal_triple_is_float() {
    match parse("0.3,0.8,0.1") {
        Ok(RawColor::RgbF32((raw, f))) => {
            assert_eq!(raw, "0.3,0.8,0.1");
            assert_eq!(f, vec![b"0.3".to_vec(), b"0.8".to_vec(), b"0.1".to_vec()]);
        }
        other => panic!("unexpected {:?}", other),
    }
}

#[test]
fn mixed_triple_is_float() {
    match parse("1,0.5,3") {
        Ok(RawColor::RgbF32((raw, f))) => {
            assert_eq!(raw, "1,0.5,3");
            assert_eq!(f, vec![b"1".to_vec(), b"0.5".to_vec(), b"3".to_vec()]);
        }
        other => panic!("unexpected {:?}", other),
    }
}

#[test]
fn hex_token_lengths() {
    for ok in ["f3e", "#f3e", "f034e6", "#f034e6"] {
        match parse(ok) {
            Ok(RawColor::Hex(s)) => assert_eq!(s, ok),
            other => panic!("unexpected {:?}", other),
        }
    }
    match parse("f3") {
        Err(ColorError::ParaError(ParaFault::HexLength { raw })) => assert_eq!(raw, "f3"),
        other => panic!("unexpected {:?}", other),
    }
    assert!(matches!(parse("f034e"), Err(ColorError::ParaError(ParaFault::HexLength { .. }))));
    assert!(matches!(parse(""), Err(ColorError::ParaError(ParaFault::HexLength { .. }))));
    match parse("#f03e") {
        Err(ColorError::ParaError(ParaFault::HashHexLength { raw })) => assert_eq!(raw, "#f03e"),
        other => panic!("unexpected {:?}", other),
    }
    // Four bytes with a leading `#` is the short form.
    assert!(matches!(parse("#f03"), Ok(RawColor::Hex(_))));
}

#[test]
fn raw_text_is_returned_verbatim() {
    assert_eq!(parse("171,193,35").unwrap().get_raw_color(), "171,193,35");
    assert_eq!(parse("0.3,0.8,0.1").unwrap().get_raw_color(), "0.3,0.8,0.1");
    assert_eq!(parse("#f034e6").unwrap().get_raw_color(), "#f034e6");
}

#[test]
fn hex_digits_decode() {
    assert_eq!(parse("f3e").unwrap().rgb8().unwrap(), Some([255, 51, 238]));
    assert_eq!(parse("#F3E").unwrap().rgb8().unwrap(), Some([255, 51, 238]));
    assert_eq!(parse("#f034e6").unwrap().rgb8().unwrap(), Some([240, 52, 230]));
    assert_eq!(parse("000000").unwrap().rgb8().unwrap(), Some([0, 0, 0]));
    assert_eq!(parse("171,193,35").unwrap().rgb8().unwrap(), Some([171, 193, 35]));
    assert_eq!(parse("0.3,0.8,0.1").unwrap().rgb8().unwrap(), None);
}

#[test]
fn bad_hex_digits_fail_on_decode() {
    match parse("ggg").unwrap().rgb8() {
        Err(ColorError::ParseHexColorError { hex, fault }) => {
            assert_eq!(hex, "ggg");
            assert_eq!(fault, HexFault::Digit);
        }
        other => panic!("unexpected {:?}", other),
    }
    match parse("##ab").unwrap().rgb8() {
        Err(ColorError::ParseHexColorError { fault, .. }) => assert_eq!(fault, HexFault::Digit),
        other => panic!("unexpected {:?}", other),
    }
    // Three bytes, not three ASCII digits.
    match parse("\u{e9}1").unwrap().rgb8() {
        Err(ColorError::ParseHexColorError { hex, fault }) => {
            assert_eq!(hex, "\u{e9}1");
            assert_eq!(fault, HexFault::Digit);
        }
        other => panic!("unexpected {:?}", other),
    }
}
