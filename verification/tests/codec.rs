use alco::decimal::{parse_decimal, Decimal};
use alco::error::Error;
use alco::sample::Sample;
use alco::samples::{NamedSample, Samples};
use alco::text::chars_of_str;

const SEP: char = '\u{a7}';

#[test]
fn usize_token_round_trip() {
    let token = format!("n{}usize{}42", SEP, SEP);
    let (name, sample) = Sample::from_str(&token).unwrap();
    assert_eq!(name, "n");
    assert!(matches!(sample, Sample::Usize(42)));
    assert_eq!(sample.to_string(), format!("usize{}42", SEP));
}

#[test]
fn float_token_round_trip() {
    let token = format!("x{}float{}-12.50", SEP, SEP);
    let (name, sample) = Sample::from_str(&token).unwrap();
    assert_eq!(name, "x");
    match &sample {
        Sample::Float(d) => {
            assert_eq!(d.num, -1250);
            assert_eq!(d.scale, 2);
        },
        _ => panic!("expected a decimal sample"),
    }
    assert_eq!(sample.to_string(), format!("float{}-12.50", SEP));
}

#[test]
fn str_token_round_trip() {
    let token = format!("mode{}str{}quick", SEP, SEP);
    let (name, sample) = Sample::from_str(&token).unwrap();
    assert_eq!(name, "mode");
    match &sample {
        Sample::Str(v) => assert_eq!(v, &chars_of_str("quick")),
        _ => panic!("expected a string sample"),
    }
    assert_eq!(sample.to_string(), format!("str{}quick", SEP));
}

#[test]
fn str_value_may_contain_the_delimiter() {
    let token = format!("s{}str{}a{}b", SEP, SEP, SEP);
    let (name, sample) = Sample::from_str(&token).unwrap();
    assert_eq!(name, "s");
    match &sample {
        Sample::Str(v) => assert_eq!(v, &chars_of_str(&format!("a{}b", SEP))),
        _ => panic!("expected a string sample"),
    }
}

#[test]
fn malformed_shape_is_rejected() {
    match Sample::from_str("no-delimiters") {
        Err(Error::InvalidParamTypeStr(o)) => assert_eq!(o, "no-delimiters"),
        other => panic!("unexpected: {:?}", other.map(|_| ())),
    }
    let one_sep = format!("n{}usize", SEP);
    assert!(matches!(
        Sample::from_str(&one_sep),
        Err(Error::InvalidParamTypeStr(_))
    ));
}

#[test]
fn unknown_kind_is_rejected() {
    let token = format!("n{}complex{}1", SEP, SEP);
    assert!(matches!(
        Sample::from_str(&token),
        Err(Error::InvalidParamTypeStr(_))
    ));
}

#[test]
fn bad_numbers_are_rejected() {
    let bad_int = format!("n{}usize{}12x", SEP, SEP);
    assert!(matches!(Sample::from_str(&bad_int), Err(Error::ParseInt)));
    let huge_int = format!("n{}usize{}99999999999999999999999999", SEP, SEP);
    assert!(matches!(Sample::from_str(&huge_int), Err(Error::ParseInt)));
    let bad_float = format!("x{}float{}1.2.3", SEP, SEP);
    assert!(matches!(Sample::from_str(&bad_float), Err(Error::ParseFloat)));
    let empty_float = format!("x{}float{}", SEP, SEP);
    assert!(matches!(Sample::from_str(&empty_float), Err(Error::ParseFloat)));
}

#[test]
fn assignment_round_trip() {
    let entries = vec![
        NamedSample { name: "n".to_owned(), sample: Sample::Usize(7) },
        NamedSample { name: "x".to_owned(), sample: Sample::Float(Decimal { num: 25, scale: 1 }) },
        NamedSample { name: "mode".to_owned(), sample: Sample::Str(chars_of_str("fast")) },
    ];
    let samples = Samples::new(entries);
    let tokens = samples.to_string();
    assert_eq!(tokens.len(), 3);
    assert_eq!(tokens[0], format!("n{}usize{}7", SEP, SEP));
    assert_eq!(tokens[1], format!("x{}float{}2.5", SEP, SEP));
    assert_eq!(tokens[2], format!("mode{}str{}fast", SEP, SEP));

    let joined = tokens.join(" ");
    let parsed = Samples::from_string(&joined).unwrap();
    assert!(!parsed.setup_only);
    assert_eq!(parsed.entries.len(), 3);
    assert_eq!(parsed.get_usize("n"), Some(7));
    assert_eq!(parsed.get_usize("x"), None);
    match &parsed.entries[1].sample {
        Sample::Float(d) => assert_eq!((d.num, d.scale), (25, 1)),
        _ => panic!("expected a decimal sample"),
    }
    match &parsed.entries[2].sample {
        Sample::Str(v) => assert_eq!(v, &chars_of_str("fast")),
        _ => panic!("expected a string sample"),
    }
}

#[test]
fn empty_assignment_text_is_an_error() {
    assert!(matches!(
        Samples::from_string(""),
        Err(Error::InvalidParamTypeStr(_))
    ));
}

#[test]
fn decimal_text_round_trips() {
    let cases = [
        (Decimal { num: 0, scale: 0 }, "0"),
        (Decimal { num: 42, scale: 0 }, "42"),
        (Decimal { num: -42, scale: 0 }, "-42"),
        (Decimal { num: 150, scale: 2 }, "1.50"),
        (Decimal { num: 5, scale: 2 }, "0.05"),
        (Decimal { num: -5, scale: 1 }, "-0.5"),
        (Decimal { num: 123456, scale: 3 }, "123.456"),
    ];
    for (d, text) in cases {
        let rendered = d.to_chars();
        assert_eq!(rendered, chars_of_str(text), "render of {}", text);
        let parsed = parse_decimal(&rendered).unwrap();
        assert_eq!((parsed.num, parsed.scale), (d.num, d.scale), "parse of {}", text);
    }
}

#[test]
fn decimal_parse_rejects_malformed_text() {
    assert!(parse_decimal(&chars_of_str("")).is_none());
    assert!(parse_decimal(&chars_of_str("-")).is_none());
    assert!(parse_decimal(&chars_of_str(".5")).is_none());
    assert!(parse_decimal(&chars_of_str("1.")).is_none());
    assert!(parse_decimal(&chars_of_str("1e5")).is_none());
    assert!(parse_decimal(&chars_of_str("1.2.3")).is_none());
}

#[test]
fn decimal_rescale_keeps_the_value() {
    let d = Decimal { num: 25, scale: 1 };
    let r = d.rescale(3).unwrap();
    assert_eq!((r.num, r.scale), (2500, 3));
    assert!(Decimal { num: i64::MAX, scale: 0 }.rescale(2).is_none());
}

#[test]
fn calibration_assignment_is_empty_and_setup_only() {
    let c = Samples::calibration();
    assert!(c.setup_only);
    assert!(c.entries.is_empty());
}
