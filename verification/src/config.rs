use vstd::prelude::*;
use vstd::string::StringExecFns;
use crate::text::{duplicate, text_of};

verus! {

/// One configured mail account.
#[derive(Clone, Debug, PartialEq)]
pub struct AccountConfig {
    pub name: String,
    pub default: bool,
    pub account: Account,
    pub imap: Imap,
}

/// Where the message store lives.
#[derive(Clone, Debug, PartialEq)]
pub struct DatabaseConfig {
    pub path: String,
    pub password: Option<String>,
    pub password_used: bool,
}

/// Who an account sends as, and how it reads and writes mail.
#[derive(Clone, Debug, PartialEq)]
pub struct Account {
    pub email: String,
    pub display_name: Option<String>,
    pub sender: String,
    pub name: Option<String>,
    pub signature_delim: Option<String>,
    pub signature: Option<String>,
    pub downloads_dir: Option<String>,
    pub folder_listing_page_size: Option<String>,
    pub folder_aliases: Option<String>,
    pub email_listing_page_size: Option<String>,
    pub email_reading_headers: Option<String>,
    pub email_reading_format: Option<String>,
    pub email_reading_verify_cmd: Option<String>,
    pub email_reading_decrypt_cmd: Option<String>,
    pub email_writing_sign_cmd: Option<String>,
    pub email_writing_encrypt_cmd: Option<String>,
    pub email_writing_headers: Option<String>,
    pub email_hooks: Option<String>,
    pub sync: Option<String>,
    pub sync_dir: Option<String>,
}

/// How an account reaches its IMAP server.
#[derive(Clone, Debug, PartialEq)]
pub struct Imap {
    pub port: i32,
    pub host: String,
    pub starttls: Option<bool>,
    pub login: String,
    pub passwd_cmd: Option<String>,
    pub passwd: Option<String>,
    pub ssl: Option<bool>,
}

/// The identity under which a message source is opened.
#[derive(Clone, Debug, PartialEq)]
pub struct SourceIdentity {
    pub email: String,
    pub display_name: Option<String>,
}

/// The connection parameters with which a message source is opened.
#[derive(Clone, Debug, PartialEq)]
pub struct ImapConnection {
    pub host: String,
    pub port: u16,
    pub starttls: Option<bool>,
    pub login: String,
    pub passwd_cmd: String,
    pub ssl: Option<bool>,
}

/// The IMAP port for an account whose settings name none.
pub fn default_port() -> (port: i32)
    ensures
        port == 993,
{
    993
}

/// The server of an account whose settings name none.
pub fn default_host() -> (host: String)
    ensures
        host@ == "imap.gmail.com"@,
{
    "imap.gmail.com".to_owned()
}

/// The sender of an account whose settings name none.
pub fn default_sender() -> (sender: String)
    ensures
        sender@ == "None"@,
{
    "None".to_owned()
}

/// The command that hands out the password of a connection: the
/// configured command where there is one, otherwise an `echo` of the
/// configured password, which is empty where none is configured.
pub open spec fn password_command(imap: Imap) -> Seq<char> {
    match imap.passwd_cmd {
        Some(command) => command@,
        None => "echo \""@ + (match imap.passwd {
            Some(password) => password@,
            None => Seq::empty(),
        }) + "\""@,
    }
}

impl AccountConfig {
    /// The identity and the connection parameters with which the message
    /// source of this account is opened. The connection never starts
    /// with STARTTLS and always uses TLS; the port is the configured one
    /// cut down to sixteen bits.
    pub fn backend_config(&self) -> (r: (SourceIdentity, ImapConnection))
        ensures
            r.0.email@ == self.account.email@,
            text_of(r.0.display_name) == text_of(self.account.display_name),
            r.1.host@ == self.imap.host@,
            r.1.port == self.imap.port as u16,
            r.1.starttls == Some(false),
            r.1.login@ == self.imap.login@,
            r.1.passwd_cmd@ == password_command(self.imap),
            r.1.ssl == Some(true),
    {
        let identity = SourceIdentity {
            email: self.account.email.clone(),
            display_name: duplicate(&self.account.display_name),
        };
        let passwd_cmd = match &self.imap.passwd_cmd {
            Some(command) => command.clone(),
            None => {
                let mut command = "echo \"".to_owned();
                match &self.imap.passwd {
                    Some(password) => command.append(password.as_str()),
                    None => {},
                }
                command.append("\"");
                assert(command@ == password_command(self.imap));
                command
            },
        };
        let connection = ImapConnection {
            host: self.imap.host.clone(),
            port: #[verifier::truncate]
            (self.imap.port as u16),
            starttls: Some(false),
            login: self.imap.login.clone(),
            passwd_cmd,
            ssl: Some(true),
        };
        (identity, connection)
    }
}

impl DatabaseConfig {
    /// The settings that stand in where none can be read: the store at
    /// `path`, without a password.
    pub fn at_path(path: String) -> (r: DatabaseConfig)
        ensures
            r.path@ == path@,
            r.password is None,
            !r.password_used,
    {
        DatabaseConfig { path, password: None, password_used: false }
    }
}

/// The text of a fresh configuration file that names one account file
/// and the store.
pub open spec fn config_file_text(
    account_file: Seq<char>,
    database_file: Seq<char>,
    password_used: bool,
) -> Seq<char> {
    "accounts = [\n    \""@ + account_file + "\"\n]\n[database]\npath = \""@ + database_file
        + "\"\npassword_used = "@ + (if password_used {
        "true"@
    } else {
        "false"@
    }) + "\n"@
}

/// Writes out the text of a fresh configuration file.
pub fn initial_config(account_file: &str, database_file: &str, password_used: bool) -> (r: String)
    ensures
        r@ == config_file_text(account_file@, database_file@, password_used),
{
    let mut text = "accounts = [\n    \"".to_owned();
    text.append(account_file);
    text.append("\"\n]\n[database]\npath = \"");
    text.append(database_file);
    text.append("\"\npassword_used = ");
    if password_used {
        text.append("true");
    } else {
        text.append("false");
    }
    text.append("\n");
    text
}

} // verus!
