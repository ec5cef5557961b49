use dabping::alert::notify::{
    Delivery, NotifyError, NotifySpec, Report, Tls, delivered, dispatch,
};
use dabping::alert::{AlertEvent, Notification};
use dabping::config::SmtpConfig;

fn notification() -> Notification {
    Notification {
        alert: "bigloss".to_string(),
        target: "isp/gw".to_string(),
        host: "192.0.2.1".to_string(),
        state: AlertEvent::Raised,
        comment: "lots of loss".to_string(),
        detail: "loss%: 0 30 60".to_string(),
    }
}

#[test]
fn parses_specs() {
    assert_eq!(NotifySpec::parse("log:").unwrap(), NotifySpec::Log);
    assert_eq!(NotifySpec::parse("log").unwrap(), NotifySpec::Log);
    assert!(matches!(NotifySpec::parse("email:a@b.c").unwrap(), NotifySpec::Email(_)));
    assert!(matches!(NotifySpec::parse("exec:/bin/true").unwrap(), NotifySpec::Exec(_)));
    assert!(matches!(NotifySpec::parse("webhook:https://x/y").unwrap(), NotifySpec::Webhook(_)));
    assert!(NotifySpec::parse("email:").is_none());
    assert!(NotifySpec::parse("webhook:ftp://x").is_none());
    assert!(NotifySpec::parse("page-me").is_none());
}

#[test]
fn email_without_smtp_errors() {
    let err = dispatch(&notification(), &NotifySpec::Email("a@b.c".to_string()), &None).unwrap_err();
    assert!(err.message("a@b.c", "").contains("[smtp]"));
}

#[test]
fn log_line_in_words() {
    match dispatch(&notification(), &NotifySpec::Log, &None).unwrap() {
        Delivery::Log { line } => {
            assert_eq!(line, "ALERT raised bigloss on isp/gw (192.0.2.1): lots of loss")
        }
        other => panic!("{other:?}"),
    }
}

#[test]
fn exec_gets_arguments_and_detail() {
    match dispatch(&notification(), &NotifySpec::Exec("/bin/true".to_string()), &None).unwrap() {
        Delivery::Exec { command, args, detail } => {
            assert_eq!(command, "/bin/true");
            assert_eq!(args, vec!["bigloss", "isp/gw", "192.0.2.1", "raised", "lots of loss"]);
            assert_eq!(detail, "loss%: 0 30 60");
        }
        other => panic!("{other:?}"),
    }
}

#[test]
fn webhook_gets_an_object() {
    match dispatch(&notification(), &NotifySpec::Webhook("http://x/".to_string()), &None).unwrap() {
        Delivery::Webhook { url, members } => {
            assert_eq!(url, "http://x/");
            let keys: Vec<&str> = members.iter().map(|m| m.0.as_str()).collect();
            assert_eq!(keys, vec!["alert", "target", "host", "state", "comment", "detail"]);
            assert_eq!(members[0].1, "bigloss");
            assert_eq!(members[3].1, "raised");
            assert_eq!(members[1].1, "isp/gw");
        }
        other => panic!("{other:?}"),
    }
}

fn smtp(from: &str, tls: &str) -> Option<SmtpConfig> {
    Some(SmtpConfig {
        server: "mail.example.org".to_string(),
        port: 587,
        from: from.to_string(),
        tls: tls.to_string(),
        username: Some("u".to_string()),
        password: Some("p".to_string()),
    })
}

#[test]
fn mails_are_composed() {
    let to = NotifySpec::Email("Ops <ops@example.org>".to_string());
    match dispatch(&notification(), &to, &smtp("dabping@example.org", "starttls")).unwrap() {
        Delivery::Email(m) => {
            assert_eq!(m.from, "dabping@example.org");
            assert_eq!(m.to, "Ops <ops@example.org>");
            assert_eq!(m.subject, "[dabping] raised bigloss: isp/gw");
            assert_eq!(
                m.body,
                "raised bigloss on isp/gw (192.0.2.1)\n\nlots of loss\n\nloss%: 0 30 60\n"
            );
            assert_eq!(m.port, 587);
            assert_eq!(m.tls, Tls::Starttls);
            assert_eq!(m.credentials, Some(("u".to_string(), "p".to_string())));
        }
        other => panic!("{other:?}"),
    }
}

#[test]
fn bad_mail_settings_are_told_apart() {
    let fail = |to: &str, s: Option<SmtpConfig>| {
        dispatch(&notification(), &NotifySpec::Email(to.to_string()), &s).unwrap_err()
    };
    assert_eq!(fail("a@b.c", None), NotifyError::NoSmtp);
    assert_eq!(fail("a@b.c", smtp("nobody", "none")), NotifyError::BadFrom);
    assert_eq!(fail("not an address", smtp("a@b.c", "none")), NotifyError::BadTo);
    assert_eq!(fail("a@b.c", smtp("a@b.c", "ssl")), NotifyError::BadTls);
    assert_eq!(
        NotifyError::BadTls.message("a@b.c", "ssl"),
        "smtp.tls must be none|starttls|implicit (got \"ssl\")"
    );
    assert_eq!(NotifyError::BadTo.message("x y", ""), "bad email address \"x y\"");
}

#[test]
fn deliveries_succeed_or_say_why_not() {
    let exited = |success, status: &str| Report::Exited { success, status: status.to_string() };
    assert_eq!(delivered("/bin/notify", &exited(true, "exit status: 0")), Ok(()));
    assert_eq!(
        delivered("/bin/notify", &exited(false, "exit status: 3")),
        Err("exec notifier \"/bin/notify\" exited with exit status: 3".to_string())
    );
    assert_eq!(
        delivered("/bin/notify", &Report::NotStarted),
        Err("exec notifier \"/bin/notify\" failed to start".to_string())
    );
    let answered = |code, status: &str| Report::Answered { code, status: status.to_string() };
    for code in [200, 204, 299] {
        assert_eq!(delivered("http://x/", &answered(code, "fine")), Ok(()));
    }
    for code in [199, 300, 404] {
        assert!(delivered("http://x/", &answered(code, "not fine")).is_err());
    }
    assert_eq!(
        delivered("http://x/", &answered(500, "500 Internal Server Error")),
        Err("webhook http://x/ answered 500 Internal Server Error".to_string())
    );
    assert_eq!(
        delivered("http://x/", &Report::Unreachable),
        Err("webhook http://x/ unreachable".to_string())
    );
}
