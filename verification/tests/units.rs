use rust_kart::convert;
use rust_kart::kcal::{split_portion, BadPortion, Unit};

#[test]
fn test_unit_parsing() {
    assert_eq!("g".parse::<Unit>().unwrap(), Unit::Gram);
    assert_eq!("oz".parse::<Unit>().unwrap(), Unit::Ounce);
    assert_eq!("lb".parse::<Unit>().unwrap(), Unit::Pound);
    assert_eq!("lbs".parse::<Unit>().unwrap(), Unit::Pound);
    assert!("invalid".parse::<Unit>().is_err());
}

#[test]
fn test_unit_display() {
    assert_eq!(Unit::Gram.to_string(), "g");
    assert_eq!(Unit::Ounce.to_string(), "oz");
    assert_eq!(Unit::Pound.to_string(), "lb");
}

#[test]
fn empty_unit_is_grams_and_hash_is_pounds() {
    assert_eq!("".parse::<Unit>().unwrap(), Unit::Gram);
    assert_eq!("#".parse::<Unit>().unwrap(), Unit::Pound);
    assert_eq!(Unit::default(), Unit::Gram);
}

#[test]
fn duals() {
    assert_eq!(Unit::Gram.dual(), Unit::Ounce);
    assert_eq!(Unit::Ounce.dual(), Unit::Gram);
    assert_eq!(Unit::Pound.dual(), Unit::Gram);
    assert_eq!(convert::Unit::Pound.dual(), convert::Unit::Gram);
}

#[test]
fn portion_texts_split_at_the_unit() {
    assert_eq!(split_portion("1.5lb"), ("1.5".to_string(), "lb".to_string()));
    assert_eq!(split_portion("100"), ("100".to_string(), "".to_string()));
    assert_eq!(split_portion("8oz"), ("8".to_string(), "oz".to_string()));
}

#[test]
fn bad_portion_messages() {
    assert_eq!(BadPortion::BadAmount("x".to_string()).to_string(), "x: bad amount");
    assert_eq!(BadPortion::MissingUnit.to_string(), "missing unit");
    assert!(matches!(
        convert::split_portion("100"),
        Err(convert::BadPortion::MissingUnit)
    ));
    assert!(matches!(
        convert::portion_unit("kg"),
        Err(convert::BadPortion::BadUnit(t)) if t == "kg"
    ));
    assert!("".parse::<convert::Unit>().is_err());
}

#[test]
fn the_time_line_names_the_half_of_the_day() {
    use_now();
}

fn use_now() {
    assert_eq!(rust_kart::now::day_period(0), 'a');
    assert_eq!(rust_kart::now::day_period(11), 'a');
    assert_eq!(rust_kart::now::day_period(12), 'p');
    assert_eq!(rust_kart::now::day_period(23), 'p');
    assert_eq!(
        rust_kart::now::now_line("3:04:05", 'p', "May 6, 2024"),
        "3:04:05 p.m. on May 6, 2024"
    );
}

#[test]
fn the_time_line_is_formatted_from_the_fields() {
    assert_eq!(
        rust_kart::now::now_text(2024, 3, 5, 14, 7, 9).as_deref(),
        Some("2:07:09 p.m. on March 5, 2024")
    );
    assert_eq!(
        rust_kart::now::now_text(2023, 12, 31, 0, 0, 0).as_deref(),
        Some("12:00:00 a.m. on December 31, 2023")
    );
    assert_eq!(rust_kart::now::now_text(2023, 2, 30, 0, 0, 0), None);
}
