use turbo_html2pdf_core::template::dates::{date, datetime, format_date, DateInput};

fn text(s: &str) -> DateInput {
    DateInput::Text(s.to_string())
}

#[test]
fn date_reads_rfc3339_days_and_timestamps() {
    assert_eq!(date(&text("2024-03-05T10:20:30Z"), None, None), Ok("2024-03-05".to_string()));
    assert_eq!(date(&text("2024-03-05"), None, None), Ok("2024-03-05".to_string()));
    assert_eq!(
        datetime(&DateInput::Number("0".to_string()), None, None),
        Ok("1970-01-01 00:00:00".to_string())
    );
    assert_eq!(
        datetime(&text("2024-03-05T23:30:00Z"), Some("DD/MM/YY HH:mm"), Some("+01:00")),
        Ok("06/03/24 00:30".to_string())
    );
}

#[test]
fn date_errors() {
    assert_eq!(date(&text("yesterday"), None, None), Err("date(): unrecognized date string".to_string()));
    assert_eq!(date(&DateInput::Number("1.5".to_string()), None, None), Err("date(): not a timestamp".to_string()));
    assert_eq!(
        date(&DateInput::Number("9223372036854775807".to_string()), None, None),
        Err("date(): timestamp out of range".to_string())
    );
    assert_eq!(date(&text("2024-03-05"), None, Some("05:00")), Err("date(): bad tz offset".to_string()));
    assert_eq!(format_date(&text("2024-03-05"), "%Q", None), Err("date(): invalid format".to_string()));
}
