use poodle::moodle::{
    course_url, login_form_url, saml_fields, HtmlChange, HtmlElement, MoodleAuthConf,
    MoodleContext, MoodleCourseData, MoodleErr, SessionAction, SessionCheck, SessionEvent,
    course_from_elements,
};

fn context() -> MoodleContext {
    MoodleContext::new(MoodleAuthConf::ShibbolethUser("user".to_string(), "pass".to_string()))
}

fn course(id: u32, content: &str) -> MoodleCourseData {
    MoodleCourseData::new(id, "Test".to_string(), "https://example.com".to_string(), content.to_string())
}

fn upload(title: &str, kind: &str) -> String {
    format!(
        "<li class=\"activity\"><a href=\"/mod/resource/view.php?id=1\"><span class=\"instancename\">{}<span class=\"accesshide \"> {}</span></span></a></li>",
        title, kind
    )
}

#[test]
fn course_url_writes_the_id() {
    assert_eq!(course_url(1234), "https://www.moodle.tum.de/course/view.php?id=1234");
    assert_eq!(course_url(0), "https://www.moodle.tum.de/course/view.php?id=0");
}

#[test]
fn getters_give_back_the_fields() {
    let c = MoodleCourseData::new(7, "Algebra".to_string(), "u".to_string(), "<p>x</p>".to_string());
    assert_eq!(c.id(), 7);
    assert_eq!(c.name(), "Algebra");
    assert_eq!(c.url(), "u");
    assert_eq!(c.content(), "<p>x</p>");
}

#[test]
fn get_reads_name_and_content() {
    let ctx = context();
    let page = "<html><head><title>t</title></head><body><h1>Analysis 1</h1><div id=\"page-content\"><p>Hello</p></div></body></html>";
    let c = ctx.get(42, 200, page).unwrap();
    assert_eq!(c.id(), 42);
    assert_eq!(c.name(), "Analysis 1");
    assert_eq!(c.url(), "https://www.moodle.tum.de/course/view.php?id=42");
    assert_eq!(c.content(), "<div id=\"page-content\"><p>Hello</p></div>");
}

#[test]
fn get_takes_the_last_heading() {
    let ctx = context();
    let page = "<h1>First</h1><h1>Second</h1>";
    let c = ctx.get(1, 200, page).unwrap();
    assert_eq!(c.name(), "Second");
    assert_eq!(c.content(), "");
}

#[test]
fn get_without_heading_is_not_found() {
    let ctx = context();
    let page = "<div id=\"page-content\"><p>Hello</p></div>";
    assert_eq!(ctx.get(1, 200, page).unwrap_err(), MoodleErr::CourseNotFound);
    let page = "<h1></h1>";
    assert_eq!(ctx.get(1, 200, page).unwrap_err(), MoodleErr::CourseNotFound);
}

#[test]
fn get_with_error_status_is_not_found() {
    let ctx = context();
    let page = "<h1>Analysis 1</h1>";
    assert_eq!(ctx.get(1, 404, page).unwrap_err(), MoodleErr::CourseNotFound);
    assert_eq!(ctx.get(1, 303, page).unwrap_err(), MoodleErr::CourseNotFound);
}

fn element(tag: &str, id: Option<&str>, class: Option<&str>, text: &str, markup: &str) -> HtmlElement {
    HtmlElement {
        tag: tag.to_string(),
        id: id.map(|s| s.to_string()),
        class: class.map(|s| s.to_string()),
        text: text.to_string(),
        markup: markup.to_string(),
    }
}

#[test]
fn course_from_elements_picks_div_and_heading() {
    let els = vec![
        element("div", Some("other"), None, "", "<div id=\"other\"></div>"),
        element("h1", None, None, "Name", "<h1>Name</h1>"),
        element("div", Some("page-content"), None, "c", "<div id=\"page-content\">c</div>"),
        element("div", None, None, "", "<div></div>"),
    ];
    let c = course_from_elements(3, "addr".to_string(), &els).unwrap();
    assert_eq!(c.name(), "Name");
    assert_eq!(c.url(), "addr");
    assert_eq!(c.content(), "<div id=\"page-content\">c</div>");
    let none: Vec<HtmlElement> = vec![element("p", None, None, "x", "<p>x</p>")];
    assert_eq!(course_from_elements(3, "addr".to_string(), &none).unwrap_err(), MoodleErr::CourseNotFound);
}

#[test]
fn user_diff_names_new_uploads() {
    let origin = course(0, "");
    let changes = vec![
        HtmlChange::NotPresent { missing: None, added: Some(upload("NEW CONTENT!", "Datei")) },
        HtmlChange::NodeText,
        HtmlChange::NotPresent { missing: None, added: Some(upload("MORE CONTENT!", "Textseite")) },
    ];
    let diff = origin.user_diff(&changes).expect("Test files are identical");
    assert_eq!(diff, "New \"Datei\" uploaded: \"NEW CONTENT!\"\nNew \"Textseite\" uploaded: \"MORE CONTENT!\"\n");
}

#[test]
fn user_diff_skips_unrecognised_changes() {
    let origin = course(0, "");
    let changes = vec![
        HtmlChange::NotPresent { missing: Some(upload("Old", "Datei")), added: None },
        HtmlChange::NotPresent { missing: None, added: Some("<p>just text</p>".to_string()) },
        HtmlChange::NodeName,
        HtmlChange::NodeType,
        HtmlChange::NodeAttributes,
    ];
    assert_eq!(origin.user_diff(&changes), None);
    assert_eq!(origin.user_diff(&vec![]), None);
}

#[test]
fn update_takes_new_content_and_reports() {
    let ctx = context();
    let mut origin = course(5, "<p>old</p>");
    let target = course(5, "<p>new</p>");
    let changes = vec![HtmlChange::NotPresent { missing: None, added: Some(upload("Blatt 1", "Datei")) }];
    let report = ctx.update(&mut origin, Ok(target.clone()), &changes).unwrap();
    assert_eq!(report.as_deref(), Some("New \"Datei\" uploaded: \"Blatt 1\"\n"));
    assert_eq!(origin.content(), "<p>new</p>");
    assert_eq!(origin.name(), "Test");
    assert_eq!(origin.id(), 5);
    // A second update with the same page reports nothing.
    let again = ctx.update(&mut origin, Ok(target), &changes).unwrap();
    assert_eq!(again, None);
    assert_eq!(origin.content(), "<p>new</p>");
}

#[test]
fn update_with_same_content_reports_nothing() {
    let ctx = context();
    let mut origin = course(5, "<p>same</p>");
    let target = MoodleCourseData::new(5, "Other".to_string(), "x".to_string(), "<p>same</p>".to_string());
    let report = ctx.update(&mut origin, Ok(target), &vec![HtmlChange::NodeText]).unwrap();
    assert_eq!(report, None);
    assert_eq!(origin.name(), "Test");
}

#[test]
fn update_with_changed_but_unrecognised_content() {
    let ctx = context();
    let mut origin = course(5, "<p>a</p>");
    let report = ctx.update(&mut origin, Ok(course(5, "<p>b</p>")), &vec![HtmlChange::NodeText]).unwrap();
    assert_eq!(report, None);
    assert_eq!(origin.content(), "<p>b</p>");
}

#[test]
fn update_passes_fetch_errors_on() {
    let ctx = context();
    let mut origin = course(5, "<p>a</p>");
    let report = ctx.update(&mut origin, Err(MoodleErr::Network), &vec![]);
    assert_eq!(report, Err(MoodleErr::Network));
    assert_eq!(origin.content(), "<p>a</p>");
}

#[test]
fn login_form_url_reads_the_action() {
    let page = "<html><form action=\"/idp/profile/SAML2/Redirect/SSO?execution=e1s1\" method=\"post\"></form></html>";
    assert_eq!(
        login_form_url(page).unwrap(),
        "https://login.tum.de/idp/profile/SAML2/Redirect/SSO?execution=e1s1"
    );
    assert_eq!(login_form_url("<html>no form</html>"), None);
}

#[test]
fn login_form_url_stops_at_the_next_marker() {
    // Without a closing quote before the second form, the text up to it is taken.
    let page = "a form action=\"x form action=\"y\"";
    assert_eq!(login_form_url(page).unwrap(), "https://login.tum.dex ");
}

#[test]
fn saml_fields_reads_both_fields() {
    let page = "<input type=\"hidden\" name=\"RelayState\" value=\"cookie&#x3a;1a2b\"/><input type=\"hidden\" name=\"SAMLResponse\" value=\"PHNhbWw+\"/>";
    let (relay, saml) = saml_fields(page).unwrap();
    assert_eq!(relay, "cookie:1a2b");
    assert_eq!(saml, "PHNhbWw+");
}

#[test]
fn saml_fields_without_fields_is_auth_error() {
    let only_saml = "<input name=\"SAMLResponse\" value=\"abc\"/>";
    assert_eq!(saml_fields(only_saml).unwrap_err(), MoodleErr::Auth);
    let only_relay = "<input name=\"RelayState\" value=\"cookie&#x3a;1\"/>";
    assert_eq!(saml_fields(only_relay).unwrap_err(), MoodleErr::Auth);
}

fn action(c: &SessionCheck) -> String {
    match c.action() {
        SessionAction::Probe => "probe".to_string(),
        SessionAction::Login => "login".to_string(),
        SessionAction::Ready => "ready".to_string(),
        SessionAction::Fail(e) => format!("fail {:?}", e),
    }
}

#[test]
fn three_failed_logins_end_the_check() {
    let mut ctx = context();
    let mut check = ctx.begin_check();
    assert_eq!(action(&check), "login");
    check = ctx.advance_check(check, SessionEvent::LoggedIn(None));
    assert_eq!(action(&check), "login");
    check = ctx.advance_check(check, SessionEvent::LoggedIn(None));
    assert_eq!(action(&check), "login");
    check = ctx.advance_check(check, SessionEvent::LoggedIn(None));
    assert_eq!(action(&check), "fail Login");
    assert!(ctx.client().is_none());
}

#[test]
fn a_successful_login_is_kept() {
    let mut ctx = context();
    let check = ctx.begin_check();
    let check = ctx.advance_check(check, SessionEvent::LoggedIn(None));
    let check = ctx.advance_check(check, SessionEvent::LoggedIn(Some(reqwest::Client::new())));
    assert_eq!(action(&check), "ready");
    assert!(ctx.client().is_some());
    // The next check tries the held client first.
    let check = ctx.begin_check();
    assert_eq!(action(&check), "probe");
    let ok = ctx.advance_check(check, SessionEvent::Probed(Some(200)));
    assert_eq!(action(&ok), "ready");
}

#[test]
fn a_refused_probe_leads_to_login_and_a_failed_one_to_network_error() {
    let mut ctx = context();
    let check = ctx.begin_check();
    let check = ctx.advance_check(check, SessionEvent::LoggedIn(Some(reqwest::Client::new())));
    assert_eq!(action(&check), "ready");
    let probing = ctx.begin_check();
    let login = ctx.advance_check(probing, SessionEvent::Probed(Some(302)));
    assert_eq!(action(&login), "login");
    let probing = ctx.begin_check();
    let failed = ctx.advance_check(probing, SessionEvent::Probed(None));
    assert_eq!(action(&failed), "fail Network");
    // An answer to a request that was not asked for changes nothing.
    let probing = ctx.begin_check();
    let same = ctx.advance_check(probing, SessionEvent::LoggedIn(None));
    assert_eq!(action(&same), "probe");
}

fn spans(name: &str, kind: &str) -> String {
    format!(
        "<li><span class=\"instancename\">{}</span><span class=\"accesshide \">{}</span></li>",
        name, kind
    )
}

#[test]
fn upload_title_is_cut_by_bytes() {
    let origin = course(0, "");
    // The kind text " é" takes three bytes, so three bytes leave the name.
    let changes = vec![HtmlChange::NotPresent { missing: None, added: Some(spans("abcdef", " é")) }];
    assert_eq!(origin.user_diff(&changes).unwrap(), "New \"é\" uploaded: \"abc\"\n");
    // More characters in the kind text than in the name, but not more bytes.
    let changes = vec![HtmlChange::NotPresent { missing: None, added: Some(spans("ééé", " abc")) }];
    assert_eq!(origin.user_diff(&changes).unwrap(), "New \"abc\" uploaded: \"é\"\n");
    // A non-ASCII title that ends with the kind text.
    let changes = vec![HtmlChange::NotPresent { missing: None, added: Some(upload("Übung ä", "Datei")) }];
    assert_eq!(origin.user_diff(&changes).unwrap(), "New \"Datei\" uploaded: \"Übung ä\"\n");
}

#[test]
fn upload_lines_where_slicing_would_panic_are_left_out() {
    let origin = course(0, "");
    // The kind text begins with a two-byte character: `&kind[1..]` panics.
    let changes = vec![HtmlChange::NotPresent { missing: None, added: Some(spans("abcdef", "éx")) }];
    assert_eq!(origin.user_diff(&changes), None);
    // The kind text has more bytes than the name.
    let changes = vec![HtmlChange::NotPresent { missing: None, added: Some(spans("ab", " abc")) }];
    assert_eq!(origin.user_diff(&changes), None);
    // One byte before the end of "aé" falls inside a character.
    let changes = vec![HtmlChange::NotPresent { missing: None, added: Some(spans("aé", " ")) }];
    assert_eq!(origin.user_diff(&changes), None);
}

#[test]
fn unrecognised_changes_are_listed() {
    let origin = course(0, "");
    let plain = "<p>just text</p>".to_string();
    let half = "<span class=\"instancename\">Only a title</span>".to_string();
    let changes = vec![
        HtmlChange::NotPresent { missing: None, added: Some(plain.clone()) },
        HtmlChange::NotPresent { missing: None, added: Some(upload("Blatt 1", "Datei")) },
        HtmlChange::NotPresent { missing: Some(plain.clone()), added: None },
        HtmlChange::NodeText,
        HtmlChange::NotPresent { missing: None, added: Some(half.clone()) },
    ];
    assert_eq!(origin.unrecognised_changes(&changes), vec![plain, half]);
    assert!(origin.unrecognised_changes(&vec![]).is_empty());
}
