//! The user's configuration: the kindle address, the gmail account that sends to it, and
//! the reader service's token.
use vstd::prelude::*;

verus! {

/// The settings read from the user's configuration file.
#[derive(Debug, Clone)]
pub struct Configuration {
    kindle_email: String,
    gmail_username: String,
    gmail_application_password: String,
    mercury_token: Option<String>,
}

/// Where the article is mailed and how: the kindle address, and the gmail account.
#[derive(Debug)]
pub struct EmailConfig {
    pub to: String,
    pub username: String,
    pub password: String,
}

/// What stands in the place of a secret when the configuration is logged.
pub open spec fn redacted_text() -> Seq<char> {
    "[redacted]"@
}

impl Configuration {
    /// The kindle address.
    pub closed spec fn kindle_email(&self) -> String {
        self.kindle_email
    }

    /// The gmail account.
    pub closed spec fn gmail_username(&self) -> String {
        self.gmail_username
    }

    /// The gmail application password.
    pub closed spec fn gmail_application_password(&self) -> String {
        self.gmail_application_password
    }

    /// The reader service's token, when the file gives one.
    pub closed spec fn mercury_token(&self) -> Option<String> {
        self.mercury_token
    }

    /// A configuration from its four settings.
    pub fn new(
        kindle_email: String,
        gmail_username: String,
        gmail_application_password: String,
        mercury_token: Option<String>,
    ) -> (c: Configuration)
        ensures
            c.kindle_email() == kindle_email,
            c.gmail_username() == gmail_username,
            c.gmail_application_password() == gmail_application_password,
            c.mercury_token() == mercury_token,
    {
        Configuration { kindle_email, gmail_username, gmail_application_password, mercury_token }
    }

    /// The configuration as it may be logged: the password and the token (when there is
    /// one) replaced by `[redacted]`, the addresses kept.
    pub fn redacted(&self) -> (c: Configuration)
        ensures
            c.kindle_email() == self.kindle_email(),
            c.gmail_username() == self.gmail_username(),
            c.gmail_application_password()@ == redacted_text(),
            c.mercury_token() is Some == self.mercury_token() is Some,
            c.mercury_token() matches Some(t) ==> t@ == redacted_text(),
    {
        Configuration {
            gmail_application_password: "[redacted]".to_owned(),
            mercury_token: match &self.mercury_token {
                Some(_) => Some("[redacted]".to_owned()),
                None => None,
            },
            kindle_email: self.kindle_email.clone(),
            gmail_username: self.gmail_username.clone(),
        }
    }

    /// The reader service's token, when the file gives one.
    pub fn get_mercury_token(&self) -> (token: Option<String>)
        ensures
            token == self.mercury_token(),
    {
        match &self.mercury_token {
            Some(t) => Some(t.clone()),
            None => None,
        }
    }

    /// How to mail the article: to the kindle address, from and through the gmail account.
    pub fn get_email_config(self) -> (e: EmailConfig)
        ensures
            e.to == self.kindle_email(),
            e.username == self.gmail_username(),
            e.password == self.gmail_application_password(),
    {
        EmailConfig {
            to: self.kindle_email,
            username: self.gmail_username,
            password: self.gmail_application_password,
        }
    }
}

} // verus!
