use sc2_bank_signer::bank_parser::attribute::Attribute;
use sc2_bank_signer::bank_parser::fixed::Fixed;
use sc2_bank_signer::bank_parser::fixed::fixed_normalize;
use sc2_bank_signer::bank_parser::flag::Flag;
use sc2_bank_signer::strutil::i32_string;
use sc2_bank_signer::strutil::parse_i32_str;
use sc2_bank_signer::strutil::str_eq;
use sc2_bank_signer::strutil::str_lt;

#[test]
fn attribute_int() {
    let a = Attribute::from_xml_attribute("int", "5");
    assert_eq!(a.name(), "int");
    assert_eq!(a.value(), "5");
    assert!(!a.is_text());
    assert_eq!(Attribute::from_xml_attribute("int", "-12").value(), "-12");
    assert_eq!(Attribute::from_xml_attribute("int", "+7").value(), "7");
    assert_eq!(Attribute::from_xml_attribute("int", "abc").value(), "0");
    assert_eq!(Attribute::from_xml_attribute("int", "2147483648").value(), "0");
    assert_eq!(
        Attribute::from_xml_attribute("int", "-2147483648").value(),
        "-2147483648"
    );
}

#[test]
fn attribute_fixed() {
    let a = Attribute::from_xml_attribute("fixed", "2.50");
    assert_eq!(a.name(), "fixed");
    assert_eq!(a.value(), "2.5");
    assert_eq!(Attribute::from_xml_attribute("fixed", "3.0").value(), "3");
    assert_eq!(Attribute::from_xml_attribute("fixed", "junk").value(), "0");
}

#[test]
fn attribute_flag() {
    let t = Attribute::from_xml_attribute("flag", "1");
    assert_eq!(t.name(), "flag");
    assert_eq!(t.value(), "1");
    assert_eq!(Attribute::from_xml_attribute("flag", "0").value(), "0");
    assert_eq!(Attribute::from_xml_attribute("flag", "yes").value(), "0");
}

#[test]
fn attribute_text_and_string() {
    let t = Attribute::from_xml_attribute("text", "hello");
    assert_eq!(t.name(), "text");
    assert_eq!(t.value(), "hello");
    assert!(t.is_text());
    let s = Attribute::from_xml_attribute("string", "hello");
    assert_eq!(s.name(), "string");
    assert_eq!(s.value(), "hello");
    assert!(!s.is_text());
}

#[test]
fn attribute_custom() {
    let c = Attribute::from_xml_attribute("points", "12");
    assert_eq!(c.name(), "points");
    assert_eq!(c.value(), "12");
    assert!(!c.is_text());
}

#[test]
fn fixed_normalization_cases() {
    assert_eq!(fixed_normalize("2.50"), "2.5");
    assert_eq!(fixed_normalize("3.0"), "3");
    assert_eq!(fixed_normalize("007"), "7");
    assert_eq!(fixed_normalize(".5"), "0.5");
    assert_eq!(fixed_normalize("1."), "1");
    assert_eq!(fixed_normalize("-0.0"), "0");
    assert_eq!(fixed_normalize("-2.5"), "-2.5");
    assert_eq!(fixed_normalize("+4.25"), "4.25");
    assert_eq!(fixed_normalize("0"), "0");
    assert_eq!(fixed_normalize(""), "0");
    assert_eq!(fixed_normalize("1.2.3"), "0");
    assert_eq!(fixed_normalize("abc"), "0");
    let f = Fixed::from_value_text("10.100");
    assert_eq!(f.value_string(), "10.1");
}

#[test]
fn flag_values() {
    assert_eq!(Flag::new(true).value_string(), "1");
    assert_eq!(Flag::new(false).value_string(), "0");
    assert_eq!(Flag::from_value_text("1").value_string(), "1");
    assert_eq!(Flag::from_value_text("0").value_string(), "0");
    assert_eq!(Flag::from_value_text("true").value_string(), "0");
}

#[test]
fn int_rendering() {
    assert_eq!(i32_string(0), "0");
    assert_eq!(i32_string(42), "42");
    assert_eq!(i32_string(-7), "-7");
    assert_eq!(i32_string(i32::MAX), "2147483647");
    assert_eq!(i32_string(i32::MIN), "-2147483648");
}

#[test]
fn int_parsing() {
    assert_eq!(parse_i32_str("0"), Some(0));
    assert_eq!(parse_i32_str("-17"), Some(-17));
    assert_eq!(parse_i32_str("+17"), Some(17));
    assert_eq!(parse_i32_str("2147483647"), Some(i32::MAX));
    assert_eq!(parse_i32_str("-2147483648"), Some(i32::MIN));
    assert_eq!(parse_i32_str("2147483648"), None);
    assert_eq!(parse_i32_str("-2147483649"), None);
    assert_eq!(parse_i32_str(""), None);
    assert_eq!(parse_i32_str("+"), None);
    assert_eq!(parse_i32_str("12a"), None);
    assert_eq!(parse_i32_str("99999999999999999999"), None);
}

#[test]
fn string_order() {
    assert!(str_lt("A", "B"));
    assert!(!str_lt("B", "A"));
    assert!(str_lt("A", "AB"));
    assert!(!str_lt("AB", "A"));
    assert!(!str_lt("A", "A"));
    // Uppercase letters order before lowercase ones, as in byte order.
    assert!(str_lt("Z", "a"));
    assert!(str_eq("abc", "abc"));
    assert!(!str_eq("abc", "abd"));
}
