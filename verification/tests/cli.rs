use mapbox_wallpaper_generator::cli::{
    default_output_file_name, parse_concurrency, parse_positive_u32, place_file_stem_of,
};

#[test]
fn builds_default_output_path() {
    let zoom_label = format!("{:.2}", 12.0f64);
    assert_eq!(default_output_file_name("New York", &zoom_label), "new_york_z12.00.jpg");
}

#[test]
fn validates_positive_rows_and_cols() {
    let parsed = parse_positive_u32("0");
    assert!(parsed.is_err());
}

#[test]
fn validates_concurrency_bounds() {
    let low = parse_concurrency("0");
    let high = parse_concurrency("64");
    assert!(low.is_err());
    assert!(high.is_err());
}

#[test]
fn zero_rows_message() {
    assert_eq!(parse_positive_u32("0"), Err("value must be >= 1".to_string()));
}

#[test]
fn too_high_concurrency_message() {
    assert_eq!(
        parse_concurrency("64"),
        Err("concurrency must be between 1 and 32".to_string())
    );
}

#[test]
fn positive_u32_accepts_decimal_literals() {
    assert_eq!(parse_positive_u32("5"), Ok(5));
    assert_eq!(parse_positive_u32("+7"), Ok(7));
    assert_eq!(parse_positive_u32("007"), Ok(7));
    assert_eq!(parse_positive_u32("4294967295"), Ok(u32::MAX));
}

#[test]
fn positive_u32_rejects_non_literals_and_overflow() {
    for text in ["", "+", "-1", " 5", "5 ", "1.5", "abc", "4294967296", "99999999999999999999"] {
        assert_eq!(
            parse_positive_u32(text),
            Err(format!("invalid positive integer: {text}")),
            "input {text:?}"
        );
    }
}

#[test]
fn concurrency_accepts_the_range_bounds() {
    assert_eq!(parse_concurrency("1"), Ok(1));
    assert_eq!(parse_concurrency("32"), Ok(32));
    assert_eq!(parse_concurrency("+4"), Ok(4));
}

#[test]
fn concurrency_rejects_text_and_out_of_range() {
    assert_eq!(parse_concurrency("four"), Err("invalid integer: four".to_string()));
    assert_eq!(parse_concurrency("-3"), Err("invalid integer: -3".to_string()));
    assert_eq!(
        parse_concurrency("33"),
        Err("concurrency must be between 1 and 32".to_string())
    );
}

#[test]
fn stem_keeps_lowercased_alphanumerics_and_separators() {
    assert_eq!(place_file_stem_of("Tokyo, Japan"), "tokyo_japan");
    assert_eq!(place_file_stem_of("  --Saint-Étienne__Loire!! "), "saint_tienne_loire");
    assert_eq!(place_file_stem_of("A_-_B"), "a_b");
}

#[test]
fn stem_falls_back_when_nothing_is_kept() {
    assert_eq!(place_file_stem_of("!!!"), "wallpaper");
    assert_eq!(place_file_stem_of(""), "wallpaper");
    assert_eq!(default_output_file_name("東京", "5.50"), "wallpaper_z5.50.jpg");
}

#[test]
fn stem_of_only_separators_is_empty() {
    assert_eq!(place_file_stem_of("___"), "");
    assert_eq!(default_output_file_name(" - ", "12.00"), "_z12.00.jpg");
}

#[test]
fn stem_is_tidy_for_concrete_names() {
    for place in ["__a__b__", "Rio de Janeiro", "x--y  z", "-_-", "Ünïcödé City 2"] {
        let stem = place_file_stem_of(place);
        assert!(stem.chars().all(|c| c.is_ascii_lowercase() || c.is_ascii_digit() || c == '_'));
        assert!(!stem.contains("__"));
        assert!(!stem.starts_with('_') && !stem.ends_with('_'));
    }
}
