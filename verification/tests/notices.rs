use watch_folder::config::{
    debounce_millis, parse_arguments, require_env, ConfigError, Setting, SmtpConfig, SmtpVars,
    DEFAULT_DEBOUNCE_MS,
};
use watch_folder::digest::calculate_hash;
use watch_folder::mail::{compose_email, prepare_email, read_party, MailError, MailParty};
use watch_folder::notice::{
    added_body, changed_body, queue_email, removed_body, timestamp_now, EmailJob, MailQueue,
    QueueClosed,
};

fn text(s: &str) -> Option<String> {
    Some(s.to_string())
}

fn complete_vars() -> SmtpVars {
    SmtpVars {
        host: text("smtp.example.com"),
        port: text("2525"),
        username: text("user"),
        password: text("word"),
        from: text("監控程式 <monitor@example.com>"),
    }
}

fn config_error(vars: SmtpVars) -> ConfigError {
    match SmtpConfig::from_env(vars) {
        Ok(_) => panic!("the settings are accepted"),
        Err(e) => e,
    }
}

fn job(to: &str, body: &str) -> EmailJob {
    EmailJob { to: to.to_string(), body: body.to_string() }
}

fn mail_error(from: &str, to: &str) -> MailError {
    match prepare_email(from, &job(to, "body")) {
        Ok(_) => panic!("the mail is made"),
        Err(e) => e,
    }
}

#[test]
fn hash_is_the_sha256_digest_in_lower_case() {
    assert_eq!(
        calculate_hash(b""),
        "e3b0c44298fc1c149afbf4c8996fb92427ae41e4649b934ca495991b7852b855"
    );
    assert_eq!(
        calculate_hash(b"abc"),
        "ba7816bf8f01cfea414140de5dae2223b00361a396177a9cb410ff61f20015ad"
    );
}

#[test]
fn notifications_name_time_path_and_hashes() {
    assert_eq!(
        changed_body("2026-07-15 09:30:00", "/w/a", "01", "02"),
        "檔案變動時間: 2026-07-15 09:30:00\n路徑: /w/a\n原始雜湊值: 01\n新的雜湊值: 02"
    );
    assert_eq!(
        added_body("2026-07-15 09:30:00", "/w/a", "02"),
        "檔案變動時間: 2026-07-15 09:30:00\n路徑: /w/a\n新的雜湊值: 02"
    );
    assert_eq!(
        removed_body("2026-07-15 09:30:00", "/w/a", "01"),
        "檔案刪除時間: 2026-07-15 09:30:00\n路徑: /w/a\n刪除前雜湊值: 01"
    );
}

#[test]
fn timestamp_has_date_and_time_of_day() {
    let time = timestamp_now();
    let bytes = time.as_bytes();
    assert_eq!(bytes.len(), 19);
    for (i, b) in bytes.iter().enumerate() {
        match i {
            4 | 7 => assert_eq!(*b, b'-'),
            10 => assert_eq!(*b, b' '),
            13 | 16 => assert_eq!(*b, b':'),
            _ => assert!(b.is_ascii_digit()),
        }
    }
    assert!(time.as_str() > "2020-01-01 00:00:00");
}

#[test]
fn queue_gives_notifications_back_in_order() {
    let mut queue = MailQueue::new();
    assert_eq!(queue_email(&mut queue, "a@example.com", "1".to_string()), Ok(()));
    assert_eq!(queue_email(&mut queue, "b@example.com", "2".to_string()), Ok(()));
    let jobs = queue.take_all();
    assert_eq!(jobs.len(), 2);
    assert_eq!((jobs[0].to.as_str(), jobs[0].body.as_str()), ("a@example.com", "1"));
    assert_eq!((jobs[1].to.as_str(), jobs[1].body.as_str()), ("b@example.com", "2"));
    assert!(queue.take_all().is_empty());
}

#[test]
fn closed_queue_takes_nothing_in() {
    let mut queue = MailQueue::new();
    assert_eq!(queue_email(&mut queue, "a@example.com", "1".to_string()), Ok(()));
    queue.close();
    assert_eq!(queue_email(&mut queue, "a@example.com", "2".to_string()), Err(QueueClosed));
    assert_eq!(queue.take_all().len(), 1);
}

#[test]
fn mailbox_is_read_with_and_without_a_name() {
    let named = read_party("監控程式 <monitor@example.com>").unwrap();
    assert_eq!(named.name, text("監控程式"));
    assert_eq!(named.user, "monitor");
    assert_eq!(named.domain, "example.com");
    let plain = read_party("you@example.com").unwrap();
    assert_eq!(plain.name, None);
    assert_eq!(plain.user, "you");
    assert_eq!(plain.domain, "example.com");
    assert!(read_party("nobody").is_none());
    assert!(read_party("").is_none());
}

#[test]
fn notification_becomes_a_mail_with_the_fixed_subject() {
    let mail = match prepare_email("Monitor <monitor@example.com>", &job("to@example.com", "內容")) {
        Ok(mail) => mail,
        Err(_) => panic!("no mail"),
    };
    assert_eq!(mail.from.name, text("Monitor"));
    assert_eq!(mail.from.user, "monitor");
    assert_eq!(mail.to.user, "to");
    assert_eq!(mail.to.domain, "example.com");
    assert_eq!(mail.subject, "檔案變動通知");
    assert_eq!(mail.body, "內容");
}

#[test]
fn mail_needs_a_sender_and_a_recipient() {
    assert_eq!(mail_error("nobody", "to@example.com"), MailError::InvalidSender);
    assert_eq!(mail_error("monitor@example.com", "nobody"), MailError::InvalidRecipient);
    assert_eq!(mail_error("nobody", "nobody"), MailError::InvalidSender);
}

#[test]
fn composed_mail_keeps_its_parties() {
    let party = |user: &str| {
        Some(MailParty { name: None, user: user.to_string(), domain: "example.com".to_string() })
    };
    match compose_email(party("a"), party("b"), "text".to_string()) {
        Ok(mail) => {
            assert_eq!(mail.from.user, "a");
            assert_eq!(mail.to.user, "b");
            assert_eq!(mail.body, "text");
        }
        Err(_) => panic!("no mail"),
    }
    assert!(matches!(
        compose_email(party("a"), None, String::new()),
        Err(MailError::InvalidRecipient)
    ));
}

#[test]
fn mail_settings_are_read() {
    match SmtpConfig::from_env(complete_vars()) {
        Ok(config) => {
            assert_eq!(config.host, "smtp.example.com");
            assert_eq!(config.port, 2525);
            assert_eq!(config.username, "user");
            assert_eq!(config.password, "word");
            assert_eq!(config.from, "監控程式 <monitor@example.com>");
        }
        Err(_) => panic!("the settings are refused"),
    }
}

#[test]
fn mail_port_has_a_default() {
    match SmtpConfig::from_env(SmtpVars { port: None, ..complete_vars() }) {
        Ok(config) => assert_eq!(config.port, 587),
        Err(_) => panic!("the settings are refused"),
    }
}

#[test]
fn mail_port_has_to_be_a_port() {
    for port in ["65536", "-1", "", "smtp", "25 "] {
        let vars = SmtpVars { port: text(port), ..complete_vars() };
        assert_eq!(config_error(vars), ConfigError::InvalidPort);
    }
    match SmtpConfig::from_env(SmtpVars { port: text("65535"), ..complete_vars() }) {
        Ok(config) => assert_eq!(config.port, 65535),
        Err(_) => panic!("the settings are refused"),
    }
}

#[test]
fn missing_mail_settings_are_named_in_order() {
    assert_eq!(
        config_error(SmtpVars { host: None, port: text("x"), ..complete_vars() }),
        ConfigError::Missing(Setting::SmtpHost)
    );
    assert_eq!(
        config_error(SmtpVars { username: None, port: text("x"), ..complete_vars() }),
        ConfigError::InvalidPort
    );
    assert_eq!(
        config_error(SmtpVars { username: None, password: None, ..complete_vars() }),
        ConfigError::Missing(Setting::SmtpUsername)
    );
    assert_eq!(
        config_error(SmtpVars { password: None, from: None, ..complete_vars() }),
        ConfigError::Missing(Setting::SmtpPassword)
    );
    assert_eq!(
        config_error(SmtpVars { from: None, ..complete_vars() }),
        ConfigError::Missing(Setting::SmtpFrom)
    );
    assert_eq!(require_env(Setting::SmtpHost, text("h")), Ok("h".to_string()));
}

#[test]
fn debounce_time_is_a_number_of_milliseconds() {
    assert_eq!(debounce_millis(&None), Ok(DEFAULT_DEBOUNCE_MS));
    assert_eq!(DEFAULT_DEBOUNCE_MS, 500);
    assert_eq!(debounce_millis(&text("1500")), Ok(1500));
    assert_eq!(debounce_millis(&text("0")), Ok(0));
    for wrong in ["-1", "", "1.5", "18446744073709551616"] {
        assert_eq!(debounce_millis(&text(wrong)), Err(ConfigError::InvalidDebounce));
    }
}

#[test]
fn arguments_are_a_directory_and_an_address() {
    let args = |words: &[&str]| words.iter().map(|w| w.to_string()).collect::<Vec<String>>();
    match parse_arguments(&args(&["watch", "/w", "to@example.com"])) {
        Ok(arguments) => {
            assert_eq!(arguments.watch_dir, "/w");
            assert_eq!(arguments.notify_email, "to@example.com");
        }
        Err(_) => panic!("the arguments are refused"),
    }
    for words in [&["watch"][..], &["watch", "/w"][..], &["watch", "/w", "to", "more"][..]] {
        match parse_arguments(&args(words)) {
            Ok(_) => panic!("the arguments are accepted"),
            Err(e) => assert_eq!(e.program, "watch"),
        }
    }
}
