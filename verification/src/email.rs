//! The mail that carries the article to the kindle: its addresses, subject, body and the
//! name of the HTML attachment.
use vstd::prelude::*;
use crate::configuration::EmailConfig;
use crate::parser::ParsedDocument;
use crate::text::push_char;

verus! {

broadcast use vstd::string::group_string_axioms;

/// The mail to send, with what is needed to send it.
pub struct OutgoingEmail {
    /// The SMTP server that sends it.
    pub smtp_host: String,
    /// The account that logs in to the server; also the sender.
    pub username: String,
    /// The account's password.
    pub password: String,
    /// The recipient: the kindle address.
    pub to: String,
    /// The sender.
    pub from: String,
    /// The subject; kindle converts attachments of mails with this subject.
    pub subject: String,
    /// The text body.
    pub text: String,
    /// The file name of the HTML attachment.
    pub attachment_name: String,
    /// The media type of the attachment.
    pub attachment_type: String,
    /// The HTML of the article.
    pub attachment: String,
}

// ---------------------------------------------------------------------------
// The publication date, as chrono writes it.
// ---------------------------------------------------------------------------

/// Whether chrono parses a text as a date and time with an offset (RFC 3339).
pub uninterp spec fn parses_as_datetime(text: Seq<char>) -> bool;

/// The decimal digit of a value below ten.
pub open spec fn digit(v: int) -> char {
    (48 + v) as char
}

/// The decimal text of a natural number.
pub open spec fn decimal(n: nat) -> Seq<char>
    decreases n,
{
    if n < 10 {
        seq![digit(n as int)]
    } else {
        decimal(n / 10).push(digit((n % 10) as int))
    }
}

/// A text padded on the left with zeros to four characters.
pub open spec fn pad4(s: Seq<char>) -> Seq<char> {
    if s.len() < 4 {
        Seq::new((4 - s.len()) as nat, |i: int| '0') + s
    } else {
        s
    }
}

/// A year as chrono's `%Y` writes it: four digits or more, zero-padded, with a sign
/// outside the years 0 to 9999.
pub open spec fn year_text(y: int) -> Seq<char> {
    if 0 <= y <= 9999 {
        pad4(decimal(y as nat))
    } else if y < 0 {
        seq!['-'] + pad4(decimal((-y) as nat))
    } else {
        seq!['+'] + pad4(decimal(y as nat))
    }
}

/// A month or day as chrono's `%m` and `%d` write it: two digits.
pub open spec fn two_digits(v: int) -> Seq<char> {
    seq![digit(v / 10), digit(v % 10)]
}

/// The text put in the attachment's name for a date: ` - `, then the date as chrono's
/// `%Y-%m-%d` writes it.
pub open spec fn date_suffix_text(y: int, m: int, d: int) -> Seq<char> {
    " - "@ + year_text(y) + "-"@ + two_digits(m) + "-"@ + two_digits(d)
}

/// The calendar date (year, month, day) in UTC of the instant that a text names, as chrono
/// parses it.
pub uninterp spec fn utc_date(text: Seq<char>) -> (int, int, int);

/// The number of days from 1970-01-01 to a date of the proleptic Gregorian calendar.
pub open spec fn day_number(y: int, m: int, d: int) -> int {
    let yy = if m <= 2 { y - 1 } else { y };
    let era = yy / 400;
    let yoe = yy - era * 400;
    let mp = if m > 2 { m - 3 } else { m + 9 };
    let doy = (153 * mp + 2) / 5 + d - 1;
    let doe = yoe * 365 + yoe / 4 - yoe / 100 + doy;
    era * 146097 + doe - 719468
}

/// A date that may be the local date of an instant whose UTC date is `utc`: a month and
/// day in range, and at most one day from the UTC date (a time zone's offset is less than a
/// day).
pub open spec fn local_date_fits(utc: (int, int, int), y: int, m: int, d: int) -> bool {
    let (uy, um, ud) = utc;
    &&& 1 <= m <= 12
    &&& 1 <= d <= 31
    &&& -1 <= day_number(y, m, d) - day_number(uy, um, ud) <= 1
}

/// The date of the instant a text names, in the machine's time zone.
/// Trusted: `<DateTime<Local> as FromStr>::from_str` and `Datelike::{year, month, day}`.
/// Whether the text parses depends on the text alone (named `parses_as_datetime`); the
/// local date depends on the machine's time zone, so the contract says only that it is
/// within a day of the UTC date (named `utc_date`).
#[verifier::external_body]
fn local_date(date: &str) -> (r: Option<(i32, u32, u32)>)
    ensures
        r is Some == parses_as_datetime(date@),
        r matches Some((y, m, d)) ==> local_date_fits(utc_date(date@), y as int, m as int, d as int),
{
    match date.parse::<chrono::DateTime<chrono::Local>>() {
        Ok(d) => Some((chrono::Datelike::year(&d), chrono::Datelike::month(&d), chrono::Datelike::day(&d))),
        Err(_) => None,
    }
}

/// The decimal digit character of a value below ten.
fn digit_char(v: u64) -> (c: char)
    requires
        v < 10,
    ensures
        c == digit(v as int),
{
    match v {
        0 => '0',
        1 => '1',
        2 => '2',
        3 => '3',
        4 => '4',
        5 => '5',
        6 => '6',
        7 => '7',
        8 => '8',
        _ => '9',
    }
}

/// Appends the decimal text of a number.
fn push_decimal(out: &mut String, n: u64)
    ensures
        final(out)@ == old(out)@ + decimal(n as nat),
    decreases n,
{
    if n >= 10 {
        push_decimal(out, n / 10);
    }
    let ghost mid = out@;
    push_char(out, digit_char(n % 10));
    assert(out@ =~= old(out)@ + decimal(n as nat));
}

/// How long the decimal text of a number is, up to four digits.
proof fn lemma_decimal_len(n: nat)
    ensures
        n < 10 ==> decimal(n).len() == 1,
        10 <= n < 100 ==> decimal(n).len() == 2,
        100 <= n < 1000 ==> decimal(n).len() == 3,
        1000 <= n ==> decimal(n).len() >= 4,
    decreases n,
{
    if n >= 10 {
        lemma_decimal_len(n / 10);
    }
}

/// Appends the decimal text of a number, zero-padded to four digits.
fn push_padded4(out: &mut String, n: u64)
    ensures
        final(out)@ == old(out)@ + pad4(decimal(n as nat)),
{
    proof {
        lemma_decimal_len(n as nat);
    }
    let ghost start = out@;
    let zeros: u64 = if n < 10 {
        3
    } else if n < 100 {
        2
    } else if n < 1000 {
        1
    } else {
        0
    };
    let mut i: u64 = 0;
    while i < zeros
        invariant
            i <= zeros,
            out@ == start + Seq::new(i as nat, |k: int| '0'),
        decreases zeros - i,
    {
        push_char(out, '0');
        assert(out@ =~= start + Seq::new((i + 1) as nat, |k: int| '0'));
        i += 1;
    }
    let ghost mid = out@;
    push_decimal(out, n);
    assert(out@ =~= start + pad4(decimal(n as nat)));
}

/// The text of a date for the attachment's name: ` - ` and the date as `%Y-%m-%d`.
pub fn format_date_suffix(year: i32, month: u32, day: u32) -> (s: String)
    requires
        1 <= month <= 12,
        1 <= day <= 31,
    ensures
        s@ == date_suffix_text(year as int, month as int, day as int),
{
    let mut s = " - ".to_owned();
    if 0 <= year && year <= 9999 {
        push_padded4(&mut s, year as u64);
    } else if year < 0 {
        push_char(&mut s, '-');
        let magnitude: i64 = -(year as i64);
        push_padded4(&mut s, magnitude as u64);
    } else {
        push_char(&mut s, '+');
        push_padded4(&mut s, year as u64);
    }
    s.append("-");
    push_char(&mut s, digit_char((month / 10) as u64));
    push_char(&mut s, digit_char((month % 10) as u64));
    s.append("-");
    push_char(&mut s, digit_char((day / 10) as u64));
    push_char(&mut s, digit_char((day % 10) as u64));
    assert(s@ =~= date_suffix_text(year as int, month as int, day as int));
    s
}

// ---------------------------------------------------------------------------
// The mail.
// ---------------------------------------------------------------------------

/// ` - ` and a text when there is one, else nothing.
pub open spec fn dash_part(part: Option<Seq<char>>) -> Seq<char> {
    match part {
        Some(p) => " - "@ + p,
        None => seq![],
    }
}

/// The model of an optional text.
pub open spec fn opt_text(s: Option<String>) -> Option<Seq<char>> {
    match s {
        Some(t) => Some(t@),
        None => None,
    }
}

/// The attachment's file name: the title, ` - author` and ` - domain` when known, the
/// publication date when known, and `.html`.
pub open spec fn attachment_name_spec(
    title: Seq<char>,
    author: Option<Seq<char>>,
    domain: Option<Seq<char>>,
    date_suffix: Option<Seq<char>>,
) -> Seq<char> {
    title + dash_part(author) + dash_part(domain) + match date_suffix {
        Some(d) => d,
        None => seq![],
    } + ".html"@
}

/// The attachment's file name from the title, author, domain and the date suffix.
pub fn attachment_name(
    title: &str,
    author: &Option<String>,
    domain: &Option<String>,
    date_suffix: &Option<String>,
) -> (name: String)
    ensures
        name@ == attachment_name_spec(title@, opt_text(*author), opt_text(*domain), opt_text(*date_suffix)),
{
    let mut name = title.to_owned();
    match author {
        Some(a) => {
            name.append(" - ");
            name.append(a.as_str());
        },
        None => {},
    }
    match domain {
        Some(d) => {
            name.append(" - ");
            name.append(d.as_str());
        },
        None => {},
    }
    match date_suffix {
        Some(d) => name.append(d.as_str()),
        None => {},
    }
    name.append(".html");
    name
}

/// The date suffix that a publication date may give: none without a date or when it does
/// not parse; else its local date, written as ` - %Y-%m-%d`.
pub open spec fn date_suffix_fits(date_published: Option<Seq<char>>, suffix: Option<Seq<char>>) -> bool {
    &&& suffix is Some == (date_published matches Some(d) && parses_as_datetime(d))
    &&& suffix matches Some(s) ==> exists|y: int, m: int, d: int|
        local_date_fits(utc_date(date_published->0), y, m, d) && s == date_suffix_text(y, m, d)
}

/// The date suffix of the attachment's name, from the publication date.
pub fn date_suffix(date_published: &Option<String>) -> (r: Option<String>)
    ensures
        date_suffix_fits(opt_text(*date_published), opt_text(r)),
{
    match date_published {
        Some(text) => match local_date(text.as_str()) {
            Some((y, m, d)) => Some(format_date_suffix(y, m, d)),
            None => None,
        },
        None => None,
    }
}

/// The mail that carries an article to the kindle: through gmail's SMTP server, from the
/// gmail account to the kindle address, subject `CONVERT`, the article as an HTML
/// attachment named after its title, author, domain and date.
pub fn prepare_email(doc: ParsedDocument, config: EmailConfig) -> (e: OutgoingEmail)
    ensures
        e.smtp_host@ == "smtp.gmail.com"@,
        e.username == config.username,
        e.password == config.password,
        e.to == config.to,
        e.from == config.username,
        e.subject@ == "CONVERT"@,
        e.text@ == "Sent from tl;rl"@,
        e.attachment_type@ == "text/html"@,
        e.attachment == doc.content,
        exists|suffix: Option<Seq<char>>|
            date_suffix_fits(opt_text(doc.date_published), suffix) && e.attachment_name@
                == attachment_name_spec(doc.title@, opt_text(doc.author), opt_text(doc.domain), suffix),
{
    let suffix = date_suffix(&doc.date_published);
    let attachment_name = attachment_name(doc.title.as_str(), &doc.author, &doc.domain, &suffix);
    let from = config.username.clone();
    OutgoingEmail {
        smtp_host: "smtp.gmail.com".to_owned(),
        username: config.username,
        password: config.password,
        to: config.to,
        from,
        subject: "CONVERT".to_owned(),
        text: "Sent from tl;rl".to_owned(),
        attachment_name,
        attachment_type: "text/html".to_owned(),
        attachment: doc.content,
    }
}

/// The attachment's name is the title, then ` - ` and the author when there is one, then
/// ` - ` and the domain when there is one, then the date suffix when there is one, then
/// `.html`: each part goes in on its own condition, whatever the others are.
pub proof fn lemma_attachment_name_parts(
    title: Seq<char>,
    author: Option<Seq<char>>,
    domain: Option<Seq<char>>,
    date_suffix: Option<Seq<char>>,
)
    ensures
        attachment_name_spec(title, author, domain, date_suffix) == title + (if author is Some {
            " - "@ + author->0
        } else {
            Seq::empty()
        }) + (if domain is Some {
            " - "@ + domain->0
        } else {
            Seq::empty()
        }) + (if date_suffix is Some {
            date_suffix->0
        } else {
            Seq::empty()
        }) + ".html"@,
        date_suffix matches Some(d) ==> attachment_name_spec(title, author, domain, date_suffix)
            .subrange(
            attachment_name_spec(title, author, domain, date_suffix).len() - ".html"@.len()
                - d.len(),
            attachment_name_spec(title, author, domain, date_suffix).len() - ".html"@.len(),
        ) == d,
        attachment_name_spec(title, author, domain, date_suffix).take(title.len() as int) == title,
{
    let n = attachment_name_spec(title, author, domain, date_suffix);
    let a = if author is Some { " - "@ + author->0 } else { Seq::<char>::empty() };
    let m = if domain is Some { " - "@ + domain->0 } else { Seq::<char>::empty() };
    let t = if date_suffix is Some { date_suffix->0 } else { Seq::<char>::empty() };
    assert(n =~= title + a + m + t + ".html"@);
    assert(n.take(title.len() as int) =~= title);
    if date_suffix is Some {
        let d = date_suffix->0;
        assert(n.subrange(n.len() - ".html"@.len() - d.len(), n.len() - ".html"@.len()) =~= d);
    }
}

} // verus!
