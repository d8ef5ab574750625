use mapbox_wallpaper_generator::text::{
    char_is_ascii_alphanumeric, char_to_ascii_lower, same_text, to_ascii_lowercase,
};

#[test]
fn lowercases_only_ascii_letters() {
    assert_eq!(to_ascii_lowercase("JPEG"), "jpeg");
    assert_eq!(to_ascii_lowercase("MiXeD-Ünï 9"), "mixed-Ünï 9");
    assert_eq!(to_ascii_lowercase(""), "");
    assert_eq!(char_to_ascii_lower('Z'), 'z');
    assert_eq!(char_to_ascii_lower('@'), '@');
    assert_eq!(char_to_ascii_lower('['), '[');
}

#[test]
fn alphanumerics_are_ascii_only() {
    assert!(char_is_ascii_alphanumeric('a'));
    assert!(char_is_ascii_alphanumeric('Q'));
    assert!(char_is_ascii_alphanumeric('7'));
    assert!(!char_is_ascii_alphanumeric('é'));
    assert!(!char_is_ascii_alphanumeric('_'));
    assert!(!char_is_ascii_alphanumeric(' '));
}

#[test]
fn compares_texts_by_characters() {
    assert!(same_text("png", "png"));
    assert!(!same_text("png", "pn"));
    assert!(!same_text("png", "PNG"));
    assert!(same_text("", ""));
    assert!(same_text("é", "é"));
}
