//! Tests of the header-folding parser and the message assembler.

use enron_mail::mail::{EnronMail, Reason};

fn bytes(s: &str) -> Vec<u8> {
    s.as_bytes().to_vec()
}

fn text(v: &Vec<u8>) -> String {
    String::from_utf8(v.clone()).unwrap()
}

#[test]
fn should_parse_email_from_benson() {
    let content = bytes("Message-ID: <33386806.1075840371945.JavaMail.evans@thyme>\nDate: Thu, 31 Jan 2002 13:44:03 -0800\nFrom: jennifer.mcquade@enron.com\nTo: robert.benson@enron.com\nSubject: Venezuela update\nCc: daniel.diamond@enron.com, teresa.mandola@enron.com,\n\tcorp <.carter@enron.com>,\n\tdavid.forster@enron.com\n\nPlease see the attached update.\n");
    let mail = EnronMail::parse("resources/benson-r-inbox-1".to_string(), &content).unwrap();
    assert_eq!(
        text(&mail.message_id),
        "<33386806.1075840371945.JavaMail.evans@thyme>"
    );
    assert_eq!(
        text(mail.header.get(&bytes("From")).unwrap()),
        "jennifer.mcquade@enron.com"
    );
    assert_eq!(
        text(mail.header.get(&bytes("Cc")).unwrap()),
        "daniel.diamond@enron.com, teresa.mandola@enron.com, corp <.carter@enron.com>, david.forster@enron.com"
    )
}

#[test]
fn should_parse_email_from_blair() {
    let content = bytes("Message-ID: <1199981.1075853079812.JavaMail.evans@thyme>\nDate: Mon, 19 Nov 2001 09:34:10 -0800\nFrom: lynn.blair@enron.com\nSubject: RE: Meter 1465\n\nThanks.\n");
    let mail = EnronMail::parse("resources/blair-l-inbox-1".to_string(), &content).unwrap();
    assert_eq!(
        text(&mail.message_id),
        "<1199981.1075853079812.JavaMail.evans@thyme>"
    );
    assert_eq!(
        text(mail.header.get(&bytes("From")).unwrap()),
        "lynn.blair@enron.com"
    );
}

#[test]
fn header_count_and_exact_body() {
    let content = bytes("Message-ID: <m@x>\nDate: Mon, 1 Jan 2001 10:00:00 -0800\nFrom: a@b\nSubject: hi\n\nline one\n\nline two");
    let mail = EnronMail::parse("p".to_string(), &content).unwrap();
    // four distinct names parsed, two lifted out
    assert_eq!(mail.header.len(), 2);
    assert_eq!(text(&mail.body), "line one\n\nline two");
}

#[test]
fn folding_joins_fragments_with_single_spaces() {
    let content = bytes("Message-ID: <m@x>\nDate: Mon, 1 Jan 2001 10:00:00 -0800\nX-Folded: a\n   b\t \n\t  c\n\n");
    let mail = EnronMail::parse("p".to_string(), &content).unwrap();
    assert_eq!(text(mail.header.get(&bytes("X-Folded")).unwrap()), "a b c");
}

#[test]
fn last_occurrence_of_a_name_wins() {
    let content = bytes("Message-ID: <m@x>\nDate: Mon, 1 Jan 2001 10:00:00 -0800\nCc: first@x\nCc: second@x\n\n");
    let mail = EnronMail::parse("p".to_string(), &content).unwrap();
    assert_eq!(text(mail.header.get(&bytes("Cc")).unwrap()), "second@x");
    assert_eq!(mail.header.len(), 1);
}

#[test]
fn date_round_trips_through_direct_parsing() {
    let d = "Mon, 1 Jan 2001 10:00:00 -0800";
    let content = bytes(&format!("Message-ID: <m@x>\nDate: {d}\n\nbody"));
    let mail = EnronMail::parse("p".to_string(), &content).unwrap();
    let direct = chrono::DateTime::parse_from_rfc2822(d).unwrap();
    assert_eq!(mail.date.timestamp_secs, direct.timestamp());
    assert_eq!(mail.date.offset_secs, direct.offset().local_minus_utc());
}

#[test]
fn named_timezone_offset_is_read() {
    let d = "Wed, 18 Feb 2015 23:16:09 GMT";
    let content = bytes(&format!("Message-ID: <m@x>\nDate: {d}\n\n"));
    let mail = EnronMail::parse("p".to_string(), &content).unwrap();
    let direct = chrono::DateTime::parse_from_rfc2822(d).unwrap();
    assert_eq!(mail.date.timestamp_secs, direct.timestamp());
    assert_eq!(mail.date.offset_secs, 0);
}

#[test]
fn missing_message_id_is_its_own_error() {
    let content = bytes("From: a@b\nSubject: hi\n");
    let err = EnronMail::parse("p".to_string(), &content).unwrap_err();
    assert!(matches!(err.reason, Reason::MissingMessageId));
    assert!(err.line.is_empty());
    assert_eq!(err.path, "p");
}

#[test]
fn missing_date_is_its_own_error() {
    let content = bytes("Message-ID: <m@x>\nSubject: hi\n");
    let err = EnronMail::parse("p".to_string(), &content).unwrap_err();
    assert!(matches!(err.reason, Reason::MissingDate));
    assert!(err.line.is_empty());
}

#[test]
fn unparseable_date_is_its_own_error() {
    let content = bytes("Message-ID: <m@x>\nDate: not a date\n\n");
    let err = EnronMail::parse("p".to_string(), &content).unwrap_err();
    assert!(matches!(err.reason, Reason::InvalidDate));
    assert!(err.line.is_empty());
}

#[test]
fn continuation_before_any_header_fails_with_the_line() {
    let content = bytes("  floating continuation\nMessage-ID: <m@x>\n\n");
    let err = EnronMail::parse("p".to_string(), &content).unwrap_err();
    assert!(matches!(err.reason, Reason::CannotConcat));
    assert_eq!(text(&err.line), "  floating continuation");
    assert_eq!(err.path, "p");
}

#[test]
fn input_without_blank_line_gives_empty_body() {
    let content = bytes("Message-ID: <m@x>\nDate: Mon, 1 Jan 2001 10:00:00 -0800\n");
    let mail = EnronMail::parse("p".to_string(), &content).unwrap();
    assert!(mail.body.is_empty());
    assert_eq!(mail.header.len(), 0);
}

#[test]
fn trailing_text_without_newline_is_dropped() {
    let content = bytes("Message-ID: <m@x>\nDate: Mon, 1 Jan 2001 10:00:00 -0800\nX-Extra: v");
    let mail = EnronMail::parse("p".to_string(), &content).unwrap();
    assert!(mail.header.get(&bytes("X-Extra")).is_none());
    assert!(mail.body.is_empty());
}

#[test]
fn header_names_are_trimmed_and_case_preserving() {
    let content = bytes("Message-ID: <m@x>\nDate: Mon, 1 Jan 2001 10:00:00 -0800\n  X-Padded  :  v  \n\n");
    let mail = EnronMail::parse("p".to_string(), &content).unwrap();
    assert_eq!(text(mail.header.get(&bytes("X-Padded")).unwrap()), "v");
    assert!(mail.header.get(&bytes("x-padded")).is_none());
}
