use abs_screens::connection::{
    build, cert_password_stored, cert_path_stored, cert_removed, cert_subtitle, cert_validated, headers_stored, headers_subtitle, local_address_stored, save_headers, save_local_address, save_user_agent,
    text_subtitle, user_agent_stored, user_agent_subtitle, CertEditor, CertStep, ConnectionSettings, SaveStep, StoredStep,
};

fn some(x: &str) -> Option<String> {
    Some(x.to_string())
}

fn plain() -> ConnectionSettings {
    ConnectionSettings {
        url: "https://library.example/abs".to_string(),
        header_count: 0,
        disable_ssl_verify: false,
        client_cert_path: None,
        local_network_address: None,
        user_agent: None,
    }
}

#[test]
fn the_page_shows_the_server() {
    let screen = build(&plain(), true);
    assert_eq!(screen.title, "library.example");
    assert_eq!(screen.url, "https://library.example/abs");
    assert_eq!(screen.headers, "None");
    assert_eq!(screen.certificate, "None");
    assert_eq!(screen.local_address, "None");
    assert_eq!(screen.user_agent, "Default");
    assert!(!screen.disable_ssl_verify && screen.can_disconnect);
    assert!(!build(&plain(), false).can_disconnect);
}

#[test]
fn the_page_shows_what_is_set() {
    let mut server = plain();
    server.header_count = 2;
    server.disable_ssl_verify = true;
    server.client_cert_path = some("/etc/certs/me.p12");
    server.local_network_address = some(" http://192.168.1.50:13378 ");
    server.user_agent = some("  ");
    let screen = build(&server, true);
    assert_eq!(screen.headers, "2 headers");
    assert!(screen.disable_ssl_verify);
    assert_eq!(screen.certificate, "me.p12");
    assert_eq!(screen.local_address, "http://192.168.1.50:13378");
    assert_eq!(screen.user_agent, "Default");
}

#[test]
fn subtitles_say_when_nothing_is_set() {
    assert_eq!(text_subtitle(&None), "None");
    assert_eq!(text_subtitle(&some(" ")), "None");
    assert_eq!(text_subtitle(&some(" x ")), "x");
    assert_eq!(user_agent_subtitle(&None), "Default");
    assert_eq!(user_agent_subtitle(&some("MyAgent/1.0")), "MyAgent/1.0");
    assert_eq!(headers_subtitle(0), "None");
    assert_eq!(headers_subtitle(1), "1 header");
    assert_eq!(headers_subtitle(12), "12 headers");
}

#[test]
fn certificates_are_named_by_their_file() {
    assert_eq!(cert_subtitle(&None), "None");
    for path in ["/a/b.p12", "b.p12", "/", "..", "a/..", "a/b/", "a/b/.", "./", "a//b//", "", "/..", "a/.hidden", "a/...", ".", "x/./.", "ä/ö.p12"] {
        let expected = std::path::Path::new(path).file_name().map(|n| n.to_string_lossy().to_string()).unwrap_or(path.to_string());
        assert_eq!(cert_subtitle(&some(path)), expected, "{path}");
    }
}

#[test]
fn a_local_address_is_validated_before_it_is_stored() {
    assert!(matches!(save_local_address(Err("bad".to_string())), SaveStep::ShowError(m) if m == "bad"));
    assert!(matches!(save_local_address(Ok(String::new())), SaveStep::Store(None)));
    assert!(matches!(save_local_address(Ok("http://a".to_string())), SaveStep::Store(Some(a)) if a == "http://a"));
    assert!(matches!(local_address_stored(&some("http://a"), true), StoredStep::Close(t) if t == "http://a"));
    assert!(matches!(local_address_stored(&None, true), StoredStep::Close(t) if t == "None"));
    assert!(matches!(local_address_stored(&None, false), StoredStep::Stay));
}

#[test]
fn a_user_agent_is_trimmed_before_it_is_stored() {
    assert!(matches!(save_user_agent("  MyAgent/1.0 \t"), SaveStep::Store(Some(a)) if a == "MyAgent/1.0"));
    assert!(matches!(save_user_agent(" \u{a0} "), SaveStep::Store(None)));
    assert!(matches!(user_agent_stored(&some("MyAgent/1.0"), Ok(())), StoredStep::Close(t) if t == "MyAgent/1.0"));
    assert!(matches!(user_agent_stored(&None, Ok(())), StoredStep::Close(t) if t == "Default"));
    assert!(matches!(user_agent_stored(&None, Err("bad value".to_string())), StoredStep::ShowError(t) if t == "bad value"));
}

#[test]
fn headers_are_validated_before_they_are_stored() {
    assert!(matches!(save_headers(Err("line 1".to_string())), SaveStep::ShowError(m) if m == "line 1"));
    assert!(matches!(save_headers(Ok("{}".to_string())), SaveStep::Store(Some(j)) if j == "{}"));
    assert!(matches!(headers_stored(2, true), StoredStep::Close(t) if t == "2 headers"));
    assert!(matches!(headers_stored(2, false), StoredStep::Stay));
}

#[test]
fn a_certificate_is_chosen_validated_and_stored() {
    let editor = CertEditor::new(&None);
    assert_eq!(editor.file_label, "No file chosen");
    assert!(!editor.can_remove);
    assert!(matches!(editor.save_pressed(&"pw".to_string()), CertStep::ShowError(m) if m == "Choose a certificate file first."));
    let editor = editor.file_chosen(None);
    assert!(editor.chosen.is_none());
    let editor = editor.file_chosen(some("/c/me.p12"));
    assert_eq!(editor.file_label, "/c/me.p12");
    assert!(matches!(editor.save_pressed(&String::new()), CertStep::Validate(p, None) if p == "/c/me.p12"));
    assert!(matches!(editor.save_pressed(&"pw".to_string()), CertStep::Validate(_, Some(w)) if w == "pw"));
    assert!(matches!(cert_validated("/c/me.p12".to_string(), None, Err("wrong password".to_string())), CertStep::ShowError(m) if m == "wrong password"));
    assert!(matches!(cert_validated("/c/me.p12".to_string(), some("pw"), Ok(())), CertStep::StorePath(Some(p), Some(w)) if p == "/c/me.p12" && w == "pw"));
    assert!(matches!(cert_path_stored(some("/c/me.p12"), some("pw"), true), CertStep::StorePassword(Some(_), Some(_))));
    assert!(matches!(cert_path_stored(some("/c/me.p12"), some("pw"), false), CertStep::Stay));
    assert!(matches!(cert_password_stored(&some("/c/me.p12"), true), CertStep::Close(t) if t == "me.p12"));
    assert!(matches!(cert_password_stored(&some("/c/me.p12"), false), CertStep::Stay));
}

#[test]
fn a_certificate_is_removed_with_its_password() {
    assert!(CertEditor::new(&some("/c/me.p12")).can_remove);
    assert!(matches!(cert_removed(), CertStep::StorePath(None, None)));
    assert!(matches!(cert_path_stored(None, None, true), CertStep::StorePassword(None, None)));
    assert!(matches!(cert_password_stored(&None, true), CertStep::Close(t) if t == "None"));
}
