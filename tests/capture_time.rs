use photos::exif::exif_time;

#[test]
fn exif_time_reads_a_date() {
    assert_eq!(exif_time(b"2017:04:10 05:25:19"), Some(1_491_801_919));
    assert_eq!(exif_time(b"2020:02:29 12:00:00"), Some(1_582_977_600));
}

#[test]
fn exif_time_before_the_epoch() {
    assert_eq!(exif_time(b"1969:12:31 23:59:59"), Some(-1));
    assert_eq!(exif_time(b"0001:01:01 00:00:00"), Some(-62_135_596_800));
}

#[test]
fn exif_time_last_year() {
    assert_eq!(exif_time(b"9999:12:31 23:59:59"), Some(253_402_300_799));
}

#[test]
fn exif_time_unknown_is_none() {
    assert_eq!(exif_time(b"0000:00:00 00:00:00"), None);
    assert_eq!(exif_time(b"    :  :     :  :  "), None);
}

#[test]
fn exif_time_rejects_impossible_dates() {
    assert_eq!(exif_time(b"2019:02:29 00:00:00"), None);
    assert_eq!(exif_time(b"2019:04:31 00:00:00"), None);
    assert_eq!(exif_time(b"2019:13:01 00:00:00"), None);
    assert_eq!(exif_time(b"2019:01:01 24:00:00"), None);
    assert_eq!(exif_time(b"2019:01:01 00:60:00"), None);
}

#[test]
fn exif_time_rejects_other_shapes() {
    assert_eq!(exif_time(b"2019-01-01 00:00:00"), None);
    assert_eq!(exif_time(b"2019:01:01 00:00"), None);
    assert_eq!(exif_time(b""), None);
}
