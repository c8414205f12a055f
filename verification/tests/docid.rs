use home_env_post::docid;
use home_env_post::docid::FormatError;

fn derive_str(s: &str) -> Result<String, FormatError> {
    docid::derive(&s.as_bytes().to_vec()).map(|v| String::from_utf8(v).unwrap())
}

#[test]
fn fixed_example_id() {
    let id = derive_str("2024/01/05 09:30:00").unwrap();
    assert_eq!(id, "20240105093000");
    assert_eq!(id.len(), 14);
}

#[test]
fn same_second_same_id() {
    let a = derive_str("2024/01/05 09:30:00").unwrap();
    let b = derive_str("2024/01/05 09:30:00").unwrap();
    assert_eq!(a, b);
}

#[test]
fn distinct_seconds_distinct_sorted_ids() {
    let earlier = derive_str("2023/12/31 23:59:59").unwrap();
    let later = derive_str("2024/01/01 00:00:00").unwrap();
    assert_ne!(earlier, later);
    assert!(earlier < later);
    let a = derive_str("2024/06/01 10:00:00").unwrap();
    let b = derive_str("2024/06/01 10:00:01").unwrap();
    assert!(a < b);
}

#[test]
fn wrong_shape_is_rejected() {
    assert_eq!(derive_str("2024-01-05 09:30:00"), Err(FormatError::Shape));
    assert_eq!(derive_str(""), Err(FormatError::Shape));
    assert_eq!(derive_str("2024/01/05T09:30:00"), Err(FormatError::Shape));
    assert_eq!(derive_str("2024/01/05 09:30:0"), Err(FormatError::Shape));
    assert_eq!(derive_str("2024/01/05 09:30:00 "), Err(FormatError::Shape));
}

#[test]
fn impossible_dates_are_rejected() {
    assert_eq!(derive_str("2024/13/05 09:30:00"), Err(FormatError::Calendar));
    assert_eq!(derive_str("2024/00/05 09:30:00"), Err(FormatError::Calendar));
    assert_eq!(derive_str("2024/01/32 09:30:00"), Err(FormatError::Calendar));
    assert_eq!(derive_str("2024/01/00 09:30:00"), Err(FormatError::Calendar));
    assert_eq!(derive_str("2024/01/05 25:30:00"), Err(FormatError::Calendar));
    assert_eq!(derive_str("2024/01/05 09:60:00"), Err(FormatError::Calendar));
    assert_eq!(derive_str("2024/01/05 09:30:60"), Err(FormatError::Calendar));
}

#[test]
fn leap_years() {
    assert!(derive_str("2024/02/29 00:00:00").is_ok());
    assert_eq!(derive_str("2023/02/29 00:00:00"), Err(FormatError::Calendar));
    assert_eq!(derive_str("1900/02/29 00:00:00"), Err(FormatError::Calendar));
    assert!(derive_str("2000/02/29 00:00:00").is_ok());
    assert_eq!(derive_str("2024/04/31 00:00:00"), Err(FormatError::Calendar));
}
