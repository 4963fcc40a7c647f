use photo_map::exif::{
    camera_time_tag, camera_timestamp, gps_clock, gps_timestamp, ratio_text_parts, readable_ratio, parse_next_integer_ratio, ratio_integer,
    ratio_to_integer, CameraTimeTag,
};

#[test]
fn camera_tag_prefers_image_date_time() {
    assert_eq!(camera_time_tag(true, true), Some(CameraTimeTag::ImageDateTime));
    assert_eq!(camera_time_tag(false, true), Some(CameraTimeTag::PhotoDateTimeOriginal));
    assert_eq!(camera_time_tag(false, false), None);
    assert_eq!(CameraTimeTag::ImageDateTime.name(), "Exif.Image.DateTime");
    assert_eq!(CameraTimeTag::PhotoDateTimeOriginal.name(), "Exif.Photo.DateTimeOriginal");
}

#[test]
fn ratio_integer_truncates_towards_zero() {
    assert_eq!(ratio_integer("12/1"), Some(12));
    assert_eq!(ratio_integer("3021/100"), Some(30));
    assert_eq!(ratio_integer("-7/2"), Some(-3));
    assert_eq!(ratio_integer("7/-2"), Some(-3));
    assert_eq!(ratio_integer("45"), Some(45));
    assert_eq!(ratio_to_integer(-7, 2), -3);
    assert_eq!(ratio_to_integer(7, 2), 3);
}

#[test]
fn ratio_integer_refuses_bad_text() {
    assert_eq!(ratio_integer("1/0"), None);
    assert_eq!(ratio_integer("x/2"), None);
    assert_eq!(ratio_integer(""), None);
    assert_eq!(ratio_integer(" 3/1"), None);
    assert_eq!(ratio_integer("1/2/3"), None);
}

#[test]
fn parse_next_integer_ratio_reads_gps_fields() {
    assert_eq!(parse_next_integer_ratio("14/1"), 14);
    assert_eq!(parse_next_integer_ratio("5/1"), 5);
    assert_eq!(parse_next_integer_ratio("5999/100"), 59);
    // the integer part is cast to u32
    assert_eq!(parse_next_integer_ratio("-1/1"), u32::MAX);
}

#[test]
fn camera_timestamp_reads_exif_date_time() {
    assert_eq!(camera_timestamp("2015:05:15 00:00:00"), Some(1431648000));
    assert_eq!(camera_timestamp("1970:01:01 00:00:01"), Some(1));
    assert_eq!(camera_timestamp("1969:12:31 23:59:59"), Some(-1));
    assert_eq!(camera_timestamp("2015-05-15 00:00:00"), None);
    assert_eq!(camera_timestamp("2015:05:15 24:00:00"), None);
}

#[test]
fn gps_timestamp_adds_time_of_day_to_date() {
    assert_eq!(gps_timestamp("2015:05:15", 0, 0, 0), Some(1431648000));
    assert_eq!(gps_timestamp("2015:05:15", 1, 2, 3), Some(1431648000 + 3723));
    assert_eq!(gps_timestamp("2015:05:15", 24, 0, 0), None);
    assert_eq!(gps_timestamp("2015:05:15", 23, 60, 0), None);
    assert_eq!(gps_timestamp("2015:05:15", 23, 59, 60), None);
    assert_eq!(gps_timestamp("2015:13:15", 1, 0, 0), None);
}

#[test]
fn gps_clock_reads_three_rationals() {
    assert_eq!(gps_clock("14/1 5/1 3021/100"), Some((14, 5, 30)));
    assert_eq!(gps_clock("14/1 5/1 3021/100 9/1"), Some((14, 5, 30)));
    assert_eq!(gps_clock("14/1 5/1"), None);
    assert_eq!(gps_clock("14/1  5/1 3/1"), None);
    assert_eq!(gps_clock("14/1 5/0 3/1"), None);
}

#[test]
fn long_fields_with_leading_zeros_are_read() {
    assert_eq!(ratio_integer("00000000000000000001"), Some(1));
    assert_eq!(ratio_integer("00000000000000000007/00000000000000000002"), Some(3));
    assert_eq!(gps_clock("00000000000000000002/1 5/1 3/1"), Some((2, 5, 3)));
    assert_eq!(parse_next_integer_ratio("00000000000000000002/1"), 2);
}

#[test]
fn only_overflowing_reductions_are_refused() {
    // denominator isize::MIN over an odd numerator
    assert!(!readable_ratio("1/-9223372036854775808"));
    assert_eq!(ratio_integer("1/-9223372036854775808"), None);
    // ... but over an even numerator the fraction reduces
    assert_eq!(ratio_integer("2/-9223372036854775808"), Some(0));
    // numerator isize::MIN over an odd negative denominator
    assert_eq!(ratio_integer("-9223372036854775808/-1"), None);
    assert_eq!(ratio_integer("-9223372036854775808/-3"), None);
    // other denominators are fine
    assert_eq!(ratio_integer("-9223372036854775808/1"), Some(isize::MIN));
    assert_eq!(ratio_integer("-9223372036854775808/-2"), Some(1 << 62));
    assert_eq!(ratio_integer("-9223372036854775808/-9223372036854775808"), Some(1));
    assert!(readable_ratio("3021/100"));
    assert!(!readable_ratio("1/0"));
}

#[test]
fn ratio_text_parts_split_at_first_slash() {
    assert_eq!(ratio_text_parts("12/5"), ("12".to_string(), "5".to_string()));
    assert_eq!(ratio_text_parts("7"), ("7".to_string(), "1".to_string()));
    assert_eq!(ratio_text_parts("a/b/c"), ("a".to_string(), "b/c".to_string()));
    assert_eq!(ratio_text_parts("/"), ("".to_string(), "".to_string()));
}

#[test]
fn ratio_value_is_the_written_fraction() {
    assert_eq!(ratio_integer("6/-4"), Some(-1));
    assert_eq!(ratio_integer("-6/-4"), Some(1));
    assert_eq!(ratio_integer("+9/2"), Some(4));
    assert_eq!(ratio_integer("-0/5"), Some(0));
    assert_eq!(ratio_integer("+/2"), None);
    assert_eq!(ratio_integer("-"), None);
    assert_eq!(ratio_integer("9223372036854775808"), None);
    assert!(readable_ratio("+3/+4"));
}
