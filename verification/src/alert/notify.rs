//! Where notifications go: log, exec, webhook, email.
use crate::alert::Notification;
use crate::config::SmtpConfig;
use crate::text;
use crate::text::{chars_of, find_char, has_prefix, quoted, same, slice_string, trim};
use vstd::prelude::*;
use vstd::string::*;

verus! {

/// Where an alert's notifications go.
#[derive(Debug)]
pub enum NotifySpec {
    /// `log:` — a WARN line; the do-nothing default and handy in tests.
    Log,
    /// `email:addr@example.com` — needs the [smtp] section.
    Email(String),
    /// `exec:/path/to/script` — argv: alert target host state comment.
    Exec(String),
    /// `webhook:https://…` — POST a JSON body.
    Webhook(String),
}

/// Where an alert's notifications go.
#[verifier::ext_equal]
pub enum Route {
    Log,
    Email(Seq<char>),
    Exec(Seq<char>),
    Webhook(Seq<char>),
}

impl View for NotifySpec {
    type V = Route;

    open spec fn view(&self) -> Route {
        match self {
            NotifySpec::Log => Route::Log,
            NotifySpec::Email(s) => Route::Email(s@),
            NotifySpec::Exec(s) => Route::Exec(s@),
            NotifySpec::Webhook(s) => Route::Webhook(s@),
        }
    }
}

impl PartialEq for NotifySpec {
    fn eq(&self, other: &NotifySpec) -> (r: bool) {
        match (self, other) {
            (NotifySpec::Log, NotifySpec::Log) => true,
            (NotifySpec::Email(a), NotifySpec::Email(b)) => same(a.as_str(), b.as_str()),
            (NotifySpec::Exec(a), NotifySpec::Exec(b)) => same(a.as_str(), b.as_str()),
            (NotifySpec::Webhook(a), NotifySpec::Webhook(b)) => same(a.as_str(), b.as_str()),
            _ => false,
        }
    }
}

impl vstd::std_specs::cmp::PartialEqSpecImpl for NotifySpec {
    open spec fn obeys_eq_spec() -> bool {
        true
    }

    open spec fn eq_spec(&self, other: &NotifySpec) -> bool {
        self@ == other@
    }
}

impl Clone for NotifySpec {
    fn clone(&self) -> (r: NotifySpec)
        ensures
            r@ == self@,
    {
        match self {
            NotifySpec::Log => NotifySpec::Log,
            NotifySpec::Email(s) => NotifySpec::Email(s.clone()),
            NotifySpec::Exec(s) => NotifySpec::Exec(s.clone()),
            NotifySpec::Webhook(s) => NotifySpec::Webhook(s.clone()),
        }
    }
}

/// The destination that a text names: a kind, and behind a colon what it
/// needs.
pub open spec fn route_of(s: Seq<char>) -> Option<Route> {
    let cut = text::find(s, ':');
    let kind = s.take(cut);
    let rest = if cut < s.len() {
        text::trimmed(s.skip(cut + 1))
    } else {
        Seq::empty()
    };
    if kind == "log"@ {
        Some(Route::Log)
    } else if kind == "email"@ && rest.len() > 0 {
        Some(Route::Email(rest))
    } else if kind == "exec"@ && rest.len() > 0 {
        Some(Route::Exec(rest))
    } else if kind == "webhook"@ && (text::starts_with(rest, "http://"@) || text::starts_with(
        rest,
        "https://"@,
    )) {
        Some(Route::Webhook(rest))
    } else {
        None
    }
}

impl NotifySpec {
    /// The destination that a text names
    /// (log: | email:addr | exec:cmd | webhook:url).
    pub fn parse(s: &str) -> (r: Option<NotifySpec>)
        ensures
            match r {
                Some(n) => route_of(s@) == Some(n@),
                None => route_of(s@) is None,
            },
    {
        let v = chars_of(s);
        let cut: usize = find_char(&v, ':');
        let kind = slice_string(&v, 0, cut);
        let rest = if cut < v.len() {
            let r = slice_string(&v, cut + 1, v.len());
            assert(r@ == s@.skip(cut + 1));
            trim(r.as_str())
        } else {
            String::new()
        };
        assert(kind@ == s@.take(cut as int));
        let empty = chars_of(rest.as_str()).len() == 0;
        if same(kind.as_str(), "log") {
            Some(NotifySpec::Log)
        } else if same(kind.as_str(), "email") && !empty {
            Some(NotifySpec::Email(rest))
        } else if same(kind.as_str(), "exec") && !empty {
            Some(NotifySpec::Exec(rest))
        } else if same(kind.as_str(), "webhook") && (has_prefix(rest.as_str(), "http://")
            || has_prefix(rest.as_str(), "https://")) {
            Some(NotifySpec::Webhook(rest))
        } else {
            None
        }
    }
}

/// How the connection to the mail server is secured.
#[derive(Clone, Copy, Debug, PartialEq, Eq, Structural)]
pub enum Tls {
    Plain,
    Starttls,
    Implicit,
}

/// A mail to send.
#[derive(Debug)]
pub struct Mail {
    pub from: String,
    pub to: String,
    pub subject: String,
    pub body: String,
    pub server: String,
    pub port: u16,
    pub tls: Tls,
    pub credentials: Option<(String, String)>,
}

/// What to do for a notification.
#[derive(Debug)]
pub enum Delivery {
    /// Write a log line.
    Log { line: String },
    /// Run a command, with the detail in DABPING_DETAIL.
    Exec { command: String, args: Vec<String>, detail: String },
    /// Post a JSON object with these members.
    Webhook { url: String, members: Vec<(String, String)> },
    Email(Mail),
}

/// Why a notification cannot be sent.
#[derive(Clone, Copy, Debug, PartialEq, Eq, Structural)]
pub enum NotifyError {
    /// An email without an [smtp] section.
    NoSmtp,
    /// smtp.from is no address.
    BadFrom,
    /// The recipient is no address.
    BadTo,
    /// smtp.tls is none of none|starttls|implicit.
    BadTls,
}

/// What is said of a notification that cannot be sent.
pub open spec fn failure_text(e: NotifyError, addr: Seq<char>, tls: Seq<char>) -> Seq<char> {
    match e {
        NotifyError::NoSmtp => "email notifier needs an [smtp] section"@,
        NotifyError::BadFrom => "bad smtp.from address"@,
        NotifyError::BadTo => "bad email address "@ + text::debug_form(addr),
        NotifyError::BadTls => "smtp.tls must be none|starttls|implicit (got "@ + text::debug_form(
            tls,
        ) + ")"@,
    }
}

impl NotifyError {
    pub fn message(&self, addr: &str, tls: &str) -> (r: String)
        ensures
            r@ == failure_text(*self, addr@, tls@),
    {
        match self {
            NotifyError::NoSmtp => "email notifier needs an [smtp] section".to_owned(),
            NotifyError::BadFrom => "bad smtp.from address".to_owned(),
            NotifyError::BadTo => {
                let mut m = "bad email address ".to_owned();
                m.append(quoted(addr).as_str());
                m
            },
            NotifyError::BadTls => {
                let mut m = "smtp.tls must be none|starttls|implicit (got ".to_owned();
                m.append(quoted(tls).as_str());
                m.append(")");
                m
            },
        }
    }
}

/// Whether `lettre::message::Mailbox` can be parsed from a text.
pub uninterp spec fn is_mailbox(s: Seq<char>) -> bool;

/// Parses a text as a `lettre::message::Mailbox`; whether that succeeds
/// depends on the text alone, and is named `is_mailbox`.
#[verifier::external_body]
fn parses_as_mailbox(s: &str) -> (r: bool)
    ensures
        r == is_mailbox(s@),
{
    s.parse::<lettre::message::Mailbox>().is_ok()
}

pub open spec fn tls_of(s: Seq<char>) -> Option<Tls> {
    if s == "none"@ {
        Some(Tls::Plain)
    } else if s == "starttls"@ {
        Some(Tls::Starttls)
    } else if s == "implicit"@ {
        Some(Tls::Implicit)
    } else {
        None
    }
}

/// "ALERT raised loss on isp/gw (192.0.2.1): comment"
pub open spec fn log_line(n: Notification) -> Seq<char> {
    "ALERT "@ + n.state.name() + " "@ + n.alert@ + " on "@ + n.target@ + " ("@ + n.host@ + "): "@
        + n.comment@
}

pub open spec fn mail_subject(n: Notification) -> Seq<char> {
    "[dabping] "@ + n.state.name() + " "@ + n.alert@ + ": "@ + n.target@
}

pub open spec fn mail_body(n: Notification) -> Seq<char> {
    n.state.name() + " "@ + n.alert@ + " on "@ + n.target@ + " ("@ + n.host@ + ")\n\n"@ + n.comment@
        + "\n\n"@ + n.detail@ + "\n"@
}

/// Why a mail cannot be sent, if it cannot: the addresses are looked at
/// before the kind of encryption.
pub open spec fn mail_error(smtp: SmtpConfig, from_ok: bool, to_ok: bool) -> Option<NotifyError> {
    if !from_ok {
        Some(NotifyError::BadFrom)
    } else if !to_ok {
        Some(NotifyError::BadTo)
    } else if tls_of(smtp.tls@) is None {
        Some(NotifyError::BadTls)
    } else {
        None
    }
}

/// The mail that a notification makes.
pub open spec fn mail_for(m: Mail, n: Notification, addr: Seq<char>, smtp: SmtpConfig) -> bool {
    &&& m.from@ == smtp.from@
    &&& m.to@ == addr
    &&& m.subject@ == mail_subject(n)
    &&& m.body@ == mail_body(n)
    &&& m.server@ == smtp.server@
    &&& m.port == smtp.port
    &&& tls_of(smtp.tls@) == Some(m.tls)
    &&& match (smtp.username, smtp.password) {
        (Some(u), Some(p)) => m.credentials matches Some((a, b)) && a@ == u@ && b@ == p@,
        _ => m.credentials is None,
    }
}

/// The mail for a notification, once it is known whether the addresses are
/// addresses.
pub fn compose(
    n: &Notification,
    addr: &str,
    smtp: &SmtpConfig,
    from_ok: bool,
    to_ok: bool,
) -> (r: Result<Mail, NotifyError>)
    ensures
        match r {
            Ok(m) => mail_error(*smtp, from_ok, to_ok) is None && mail_for(m, *n, addr@, *smtp),
            Err(e) => mail_error(*smtp, from_ok, to_ok) == Some(e),
        },
{
    if !from_ok {
        return Err(NotifyError::BadFrom);
    }
    if !to_ok {
        return Err(NotifyError::BadTo);
    }
    let tls = if same(smtp.tls.as_str(), "none") {
        Tls::Plain
    } else if same(smtp.tls.as_str(), "starttls") {
        Tls::Starttls
    } else if same(smtp.tls.as_str(), "implicit") {
        Tls::Implicit
    } else {
        return Err(NotifyError::BadTls);
    };
    let state = n.state.as_str();
    let mut subject = "[dabping] ".to_owned();
    subject.append(state);
    subject.append(" ");
    subject.append(n.alert.as_str());
    subject.append(": ");
    subject.append(n.target.as_str());
    let mut body = state.to_owned();
    body.append(" ");
    body.append(n.alert.as_str());
    body.append(" on ");
    body.append(n.target.as_str());
    body.append(" (");
    body.append(n.host.as_str());
    body.append(")\n\n");
    body.append(n.comment.as_str());
    body.append("\n\n");
    body.append(n.detail.as_str());
    body.append("\n");
    let credentials: Option<(String, String)> = match (&smtp.username, &smtp.password) {
        (Some(u), Some(p)) => Some((u.clone(), p.clone())),
        _ => None,
    };
    Ok(
        Mail {
            from: smtp.from.clone(),
            to: addr.to_owned(),
            subject,
            body,
            server: smtp.server.clone(),
            port: smtp.port,
            tls,
            credentials,
        },
    )
}

/// The members of the JSON object that a webhook gets, in order.
pub open spec fn webhook_members(n: Notification) -> Seq<(Seq<char>, Seq<char>)> {
    seq![
        ("alert"@, n.alert@),
        ("target"@, n.target@),
        ("host"@, n.host@),
        ("state"@, n.state.name()),
        ("comment"@, n.comment@),
        ("detail"@, n.detail@),
    ]
}

/// The views of a list of pairs of strings.
pub open spec fn pairs(v: Seq<(String, String)>) -> Seq<(Seq<char>, Seq<char>)> {
    v.map_values(|p: (String, String)| (p.0@, p.1@))
}

/// What is to be done for a notification at one of its destinations.
pub fn dispatch(n: &Notification, spec: &NotifySpec, smtp: &Option<SmtpConfig>) -> (r: Result<
    Delivery,
    NotifyError,
>)
    ensures
        match spec@ {
            Route::Log => r matches Ok(Delivery::Log { line }) && line@ == log_line(*n),
            Route::Exec(cmd) => {
                &&& r matches Ok(Delivery::Exec { command, args, detail })
                &&& command@ == cmd
                &&& text::texts(args@) == seq![
                    n.alert@,
                    n.target@,
                    n.host@,
                    n.state.name(),
                    n.comment@,
                ]
                &&& detail@ == n.detail@
            },
            Route::Webhook(to) => {
                &&& r matches Ok(Delivery::Webhook { url, members })
                &&& url@ == to
                &&& pairs(members@) == webhook_members(*n)
            },
            Route::Email(addr) => match *smtp {
                None => r == Err::<Delivery, NotifyError>(NotifyError::NoSmtp),
                Some(s) => {
                    let bad = mail_error(s, is_mailbox(s.from@), is_mailbox(addr));
                    match r {
                        Ok(Delivery::Email(m)) => bad is None && mail_for(m, *n, addr, s),
                        Ok(_) => false,
                        Err(e) => bad == Some(e),
                    }
                },
            },
        },
{
    let state = n.state.as_str();
    match spec {
        NotifySpec::Log => {
            let mut line = "ALERT ".to_owned();
            line.append(state);
            line.append(" ");
            line.append(n.alert.as_str());
            line.append(" on ");
            line.append(n.target.as_str());
            line.append(" (");
            line.append(n.host.as_str());
            line.append("): ");
            line.append(n.comment.as_str());
            Ok(Delivery::Log { line })
        },
        NotifySpec::Exec(cmd) => {
            let mut args: Vec<String> = Vec::new();
            args.push(n.alert.clone());
            args.push(n.target.clone());
            args.push(n.host.clone());
            args.push(state.to_owned());
            args.push(n.comment.clone());
            assert(text::texts(args@) =~= seq![
                n.alert@,
                n.target@,
                n.host@,
                n.state.name(),
                n.comment@,
            ]);
            Ok(Delivery::Exec { command: cmd.clone(), args, detail: n.detail.clone() })
        },
        NotifySpec::Webhook(url) => {
            let mut members: Vec<(String, String)> = Vec::new();
            members.push(("alert".to_owned(), n.alert.clone()));
            members.push(("target".to_owned(), n.target.clone()));
            members.push(("host".to_owned(), n.host.clone()));
            members.push(("state".to_owned(), state.to_owned()));
            members.push(("comment".to_owned(), n.comment.clone()));
            members.push(("detail".to_owned(), n.detail.clone()));
            assert(pairs(members@) =~= webhook_members(*n));
            Ok(Delivery::Webhook { url: url.clone(), members })
        },
        NotifySpec::Email(addr) => match smtp {
            None => Err(NotifyError::NoSmtp),
            Some(s) => {
                let from_ok = parses_as_mailbox(s.from.as_str());
                let to_ok = parses_as_mailbox(addr.as_str());
                match compose(n, addr.as_str(), s, from_ok, to_ok) {
                    Ok(m) => Ok(Delivery::Email(m)),
                    Err(e) => Err(e),
                }
            },
        },
    }
}

/// What came of running a command or calling a webhook.
#[derive(Debug)]
pub enum Report {
    /// The command could not be started.
    NotStarted,
    /// The command ended; the status is how that is written.
    Exited { success: bool, status: String },
    /// The webhook could not be called.
    Unreachable,
    /// The webhook answered; the status is how its code is written.
    Answered { code: u16, status: String },
}

/// What is said of a delivery that failed. A command succeeds by its exit
/// status, a webhook with a code of 200 to 299.
pub open spec fn failure(place: Seq<char>, report: Report) -> Option<Seq<char>> {
    match report {
        Report::NotStarted => Some(
            "exec notifier "@ + text::debug_form(place) + " failed to start"@,
        ),
        Report::Exited { success, status } => if success {
            None
        } else {
            Some("exec notifier "@ + text::debug_form(place) + " exited with "@ + status@)
        },
        Report::Unreachable => Some("webhook "@ + place + " unreachable"@),
        Report::Answered { code, status } => if 200 <= code < 300 {
            None
        } else {
            Some("webhook "@ + place + " answered "@ + status@)
        },
    }
}

/// Whether a delivery to a command or a url succeeded, else what to say of it.
pub fn delivered(place: &str, report: &Report) -> (r: Result<(), String>)
    ensures
        match r {
            Ok(()) => failure(place@, *report) is None,
            Err(m) => failure(place@, *report) == Some(m@),
        },
{
    match report {
        Report::NotStarted => {
            let mut m = "exec notifier ".to_owned();
            m.append(quoted(place).as_str());
            m.append(" failed to start");
            Err(m)
        },
        Report::Exited { success, status } => {
            if *success {
                return Ok(());
            }
            let mut m = "exec notifier ".to_owned();
            m.append(quoted(place).as_str());
            m.append(" exited with ");
            m.append(status.as_str());
            Err(m)
        },
        Report::Unreachable => {
            let mut m = "webhook ".to_owned();
            m.append(place);
            m.append(" unreachable");
            Err(m)
        },
        Report::Answered { code, status } => {
            if 200 <= *code && *code < 300 {
                return Ok(());
            }
            let mut m = "webhook ".to_owned();
            m.append(place);
            m.append(" answered ");
            m.append(status.as_str());
            Err(m)
        },
    }
}

/// How destinations are written: a kind, a colon and what the kind needs. A log
/// needs nothing; a webhook needs the url of a web server.
pub proof fn destinations_are_written_so(rest: Seq<char>)
    requires
        rest.len() > 0,
        !text::is_space(rest[0]),
        !text::is_space(rest.last()),
    ensures
        route_of("log:"@ + rest) == Some(Route::Log),
        route_of("log"@) == Some(Route::Log),
        route_of("email:"@ + rest) == Some(Route::Email(rest)),
        route_of("exec:"@ + rest) == Some(Route::Exec(rest)),
        route_of("webhook:http://"@ + rest) == Some(Route::Webhook("http://"@ + rest)),
        route_of("webhook:https://"@ + rest) == Some(Route::Webhook("https://"@ + rest)),
        route_of("email:"@) is None,
        route_of("exec:"@) is None,
        rest[0] != 'h' ==> route_of("webhook:"@ + rest) is None,
{
    reveal_strlit("log");
    reveal_strlit("email");
    reveal_strlit("exec");
    reveal_strlit("webhook");
    reveal_strlit("log:");
    reveal_strlit("email:");
    reveal_strlit("exec:");
    reveal_strlit("webhook:");
    reveal_strlit("http://");
    reveal_strlit("https://");
    reveal_strlit("webhook:http://");
    reveal_strlit("webhook:https://");
    let none = Seq::<char>::empty();
    assert("log:"@ =~= "log"@ + seq![':']);
    assert("email:"@ =~= "email"@ + seq![':']);
    assert("exec:"@ =~= "exec"@ + seq![':']);
    assert("webhook:"@ =~= "webhook"@ + seq![':']);
    let plain = "http://"@ + rest;
    let secure = "https://"@ + rest;
    assert("webhook:http://"@ + rest =~= "webhook"@ + seq![':'] + plain);
    assert("webhook:https://"@ + rest =~= "webhook"@ + seq![':'] + secure);
    text::lemma_trimmed_already(rest);
    text::lemma_trimmed_already(none);
    assert(plain[0] == 'h' && plain.last() == rest.last());
    assert(secure[0] == 'h' && secure.last() == rest.last());
    text::lemma_trimmed_already(plain);
    text::lemma_trimmed_already(secure);
    assert(plain.take(7) =~= "http://"@);
    assert(secure.take(8) =~= "https://"@);
    lemma_route_parts("log"@, rest);
    lemma_route_parts("email"@, rest);
    lemma_route_parts("exec"@, rest);
    lemma_route_parts("webhook"@, rest);
    lemma_route_parts("webhook"@, plain);
    lemma_route_parts("webhook"@, secure);
    lemma_route_parts("email"@, none);
    lemma_route_parts("exec"@, none);
    assert("email"@ + seq![':'] + none =~= "email:"@);
    assert("exec"@ + seq![':'] + none =~= "exec:"@);
    text::the_first_one_is_found("log"@, ':');
    assert(!"log"@.contains(':'));
    assert("log"@.take(3) =~= "log"@);
    assert("http://"@[0] == 'h' && "https://"@[0] == 'h');
    assert(rest.len() >= 7 ==> rest.take(7)[0] == rest[0]);
    assert(rest.len() >= 8 ==> rest.take(8)[0] == rest[0]);
    assert("log"@[0] == 'l' && "email"@[0] == 'e' && "exec"@[0] == 'e' && "webhook"@[0] == 'w');
    assert("email"@.len() == 5 && "exec"@.len() == 4);
}

proof fn lemma_route_parts(kind: Seq<char>, rest: Seq<char>)
    requires
        forall|i: int| 0 <= i < kind.len() ==> (#[trigger] kind[i]) != ':',
    ensures
        ({
            let s = kind + seq![':'] + rest;
            &&& text::find(s, ':') == kind.len()
            &&& s.take(kind.len() as int) == kind
            &&& s.skip(kind.len() as int + 1) == rest
        }),
{
    let s = kind + seq![':'] + rest;
    text::the_first_one_is_found(s, ':');
    assert(s[kind.len() as int] == ':');
    assert(s.contains(':'));
    assert forall|i: int| 0 <= i < kind.len() implies (#[trigger] s[i]) != ':' by {
        assert(s[i] == kind[i]);
    }
    assert(s.take(kind.len() as int) =~= kind);
    assert(s.skip(kind.len() as int + 1) =~= rest);
}

/// A mail goes from the configured sender to the recipient, over the configured
/// server. It logs in where both a name and a password are configured, and only
/// there.
pub proof fn mails_log_in_with_both_or_not_at_all(
    m: Mail,
    n: Notification,
    addr: Seq<char>,
    smtp: SmtpConfig,
)
    requires
        mail_for(m, n, addr, smtp),
    ensures
        m.from@ == smtp.from@ && m.to@ == addr && m.server@ == smtp.server@ && m.port == smtp.port,
        m.credentials is Some <==> smtp.username is Some && smtp.password is Some,
        m.tls == Tls::Plain <==> smtp.tls@ == "none"@,
        m.tls == Tls::Starttls <==> smtp.tls@ == "starttls"@,
        m.tls == Tls::Implicit <==> smtp.tls@ == "implicit"@,
{
    reveal_strlit("none");
    reveal_strlit("starttls");
    reveal_strlit("implicit");
    assert("none"@.len() == 4);
    assert("starttls"@[0] == 's' && "implicit"@[0] == 'i');
}

/// A delivery is made where the command exits well or the webhook answers with
/// a code of the two hundreds; anything else is told.
pub proof fn deliveries_fail_by_their_reports(place: Seq<char>, report: Report)
    ensures
        failure(place, report) is None <==> match report {
            Report::Exited { success, status } => success,
            Report::Answered { code, status } => code / 100 == 2,
            _ => false,
        },
{
}

/// A mail can be sent where both addresses are addresses and the encryption is
/// known; otherwise it is refused for one of these.
pub proof fn mails_are_refused_for_what_is_wrong(smtp: SmtpConfig, from_ok: bool, to_ok: bool)
    ensures
        match mail_error(smtp, from_ok, to_ok) {
            None => from_ok && to_ok && tls_of(smtp.tls@) is Some,
            Some(NotifyError::BadFrom) => !from_ok,
            Some(NotifyError::BadTo) => !to_ok,
            Some(NotifyError::BadTls) => tls_of(smtp.tls@) is None,
            Some(_) => false,
        },
{
}

} // verus!
