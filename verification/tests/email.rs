use tlrl::configuration::{Configuration, EmailConfig};
use tlrl::email::{attachment_name, date_suffix, format_date_suffix, prepare_email};
use tlrl::parser::ParsedDocument;

#[test]
fn attachment_name_with_all_parts() {
    let n = attachment_name("T", &Some("A".to_string()), &Some("d.com".to_string()), &Some(" - 2020-01-02".to_string()));
    assert_eq!(n, "T - A - d.com - 2020-01-02.html");
}

#[test]
fn attachment_name_with_title_only() {
    assert_eq!(attachment_name("Title", &None, &None, &None), "Title.html");
    assert_eq!(attachment_name("Title", &None, &Some("x.org".to_string()), &None), "Title - x.org.html");
}

#[test]
fn unparsable_or_missing_dates_give_no_suffix() {
    assert_eq!(date_suffix(&None), None);
    assert_eq!(date_suffix(&Some("yesterday".to_string())), None);
}

#[test]
fn parsable_date_gives_local_date_suffix() {
    let s = date_suffix(&Some("2020-06-15T12:00:00Z".to_string())).unwrap();
    assert!(s == " - 2020-06-15" || s == " - 2020-06-16", "{}", s);
}

#[test]
fn prepared_email_goes_from_gmail_to_kindle() {
    let doc = ParsedDocument {
        title: "Title".to_string(),
        author: Some("Ann".to_string()),
        content: "<p>hi</p>".to_string(),
        domain: None,
        date_published: None,
        url: None,
    };
    let config = Configuration::new(
        "me@kindle.com".to_string(),
        "me@gmail.com".to_string(),
        "pw".to_string(),
        Some("tok".to_string()),
    )
    .get_email_config();
    let e = prepare_email(doc, config);
    assert_eq!(e.smtp_host, "smtp.gmail.com");
    assert_eq!(e.username, "me@gmail.com");
    assert_eq!(e.from, "me@gmail.com");
    assert_eq!(e.password, "pw");
    assert_eq!(e.to, "me@kindle.com");
    assert_eq!(e.subject, "CONVERT");
    assert_eq!(e.text, "Sent from tl;rl");
    assert_eq!(e.attachment_type, "text/html");
    assert_eq!(e.attachment_name, "Title - Ann.html");
    assert_eq!(e.attachment, "<p>hi</p>");
}

#[test]
fn email_config_takes_the_three_mail_settings() {
    let c = Configuration::new("k".to_string(), "u".to_string(), "p".to_string(), Some("t".to_string()));
    assert_eq!(c.get_mercury_token(), Some("t".to_string()));
    let EmailConfig { to, username, password } = c.get_email_config();
    assert_eq!((to.as_str(), username.as_str(), password.as_str()), ("k", "u", "p"));
}

#[test]
fn redacted_configuration_hides_secrets() {
    let c = Configuration::new("k".to_string(), "u".to_string(), "p".to_string(), Some("t".to_string()));
    let r = c.redacted();
    assert_eq!(r.get_mercury_token(), Some("[redacted]".to_string()));
    let e = r.get_email_config();
    assert_eq!((e.to.as_str(), e.username.as_str(), e.password.as_str()), ("k", "u", "[redacted]"));
    assert_eq!(c.get_mercury_token(), Some("t".to_string()));
}

#[test]
fn configuration_without_token() {
    let c = Configuration::new("k".to_string(), "u".to_string(), "p".to_string(), None);
    assert_eq!(c.get_mercury_token(), None);
    assert_eq!(c.redacted().get_mercury_token(), None);
}

#[test]
fn date_suffix_is_written_as_chrono_writes_it() {
    assert_eq!(format_date_suffix(2020, 1, 2), " - 2020-01-02");
    assert_eq!(format_date_suffix(987, 12, 31), " - 0987-12-31");
    assert_eq!(format_date_suffix(5, 10, 9), " - 0005-10-09");
    assert_eq!(format_date_suffix(12345, 6, 7), " - +12345-06-07");
    assert_eq!(format_date_suffix(-44, 3, 15), " - -0044-03-15");
    for (y, m, d) in [(2020, 1, 2), (987, 12, 31), (5, 10, 9), (12345, 6, 7), (-44, 3, 15)] {
        let date = chrono::NaiveDate::from_ymd_opt(y, m, d).unwrap();
        assert_eq!(format_date_suffix(y, m, d), date.format(" - %Y-%m-%d").to_string());
    }
}
