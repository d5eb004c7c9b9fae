use bes::config::{
    default_host, default_port, default_sender, initial_config, Account, AccountConfig,
    DatabaseConfig, Imap,
};

fn account_config(port: i32, passwd_cmd: Option<&str>, passwd: Option<&str>) -> AccountConfig {
    AccountConfig {
        name: "work".to_string(),
        default: true,
        account: Account {
            email: "me@example.com".to_string(),
            display_name: Some("Me".to_string()),
            sender: default_sender(),
            name: None,
            signature_delim: None,
            signature: None,
            downloads_dir: None,
            folder_listing_page_size: None,
            folder_aliases: None,
            email_listing_page_size: None,
            email_reading_headers: None,
            email_reading_format: None,
            email_reading_verify_cmd: None,
            email_reading_decrypt_cmd: None,
            email_writing_sign_cmd: None,
            email_writing_encrypt_cmd: None,
            email_writing_headers: None,
            email_hooks: None,
            sync: None,
            sync_dir: None,
        },
        imap: Imap {
            port,
            host: default_host(),
            starttls: Some(true),
            login: "me@example.com".to_string(),
            passwd_cmd: passwd_cmd.map(|s| s.to_string()),
            passwd: passwd.map(|s| s.to_string()),
            ssl: Some(false),
        },
    }
}

#[test]
fn defaults_are_those_of_a_gmail_account() {
    assert_eq!(default_port(), 993);
    assert_eq!(default_host(), "imap.gmail.com");
    assert_eq!(default_sender(), "None");
}

#[test]
fn backend_config_copies_identity_and_connection() {
    let (identity, connection) = account_config(default_port(), Some("pass show mail"), None).backend_config();
    assert_eq!(identity.email, "me@example.com");
    assert_eq!(identity.display_name, Some("Me".to_string()));
    assert_eq!(connection.host, "imap.gmail.com");
    assert_eq!(connection.port, 993);
    assert_eq!(connection.starttls, Some(false));
    assert_eq!(connection.ssl, Some(true));
    assert_eq!(connection.login, "me@example.com");
    assert_eq!(connection.passwd_cmd, "pass show mail");
}

#[test]
fn backend_config_echoes_a_plain_password() {
    let (_, connection) = account_config(993, None, Some("hunter2")).backend_config();
    assert_eq!(connection.passwd_cmd, "echo \"hunter2\"");
    let (_, connection) = account_config(993, None, None).backend_config();
    assert_eq!(connection.passwd_cmd, "echo \"\"");
    let (_, connection) = account_config(993, Some("cmd"), Some("hunter2")).backend_config();
    assert_eq!(connection.passwd_cmd, "cmd");
}

#[test]
fn backend_config_cuts_the_port_down_to_sixteen_bits() {
    assert_eq!(account_config(65536 + 993, None, None).backend_config().1.port, 993);
    assert_eq!(account_config(-1, None, None).backend_config().1.port, 65535);
    assert_eq!(account_config(0, None, None).backend_config().1.port, 0);
}

#[test]
fn database_config_at_path_has_no_password() {
    assert_eq!(
        DatabaseConfig::at_path("/tmp/emails.db".to_string()),
        DatabaseConfig { path: "/tmp/emails.db".to_string(), password: None, password_used: false }
    );
}

#[test]
fn initial_config_names_the_account_file_and_the_store() {
    assert_eq!(
        initial_config("/home/me/account.toml", "/home/me/emails.db", false),
        "accounts = [\n    \"/home/me/account.toml\"\n]\n[database]\npath = \"/home/me/emails.db\"\npassword_used = false\n"
    );
    assert_eq!(
        initial_config("", "", true),
        "accounts = [\n    \"\"\n]\n[database]\npath = \"\"\npassword_used = true\n"
    );
}
