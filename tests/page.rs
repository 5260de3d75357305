use prpr::page::{validate_username, AboutPage, AccountPage, RemotePage, USERNAME_CHAR_ERROR, USERNAME_LENGTH_ERROR};

#[test]
fn username_rules() {
    assert_eq!(validate_username("abc"), Some(USERNAME_LENGTH_ERROR));
    assert_eq!(validate_username("abcdefghijklmnopqrstu"), Some(USERNAME_LENGTH_ERROR));
    assert_eq!(validate_username("ab$cd"), Some(USERNAME_CHAR_ERROR));
    assert_eq!(validate_username("user_name-1"), None);
    assert_eq!(validate_username("名字名字"), None);
    assert_eq!(validate_username("a b c d"), Some(USERNAME_CHAR_ERROR));
}

#[test]
fn about_text_names_the_client() {
    assert!(AboutPage::new().text.starts_with("prpr-client v"));
}

#[test]
fn account_page_tasks() {
    let mut p = AccountPage::new(false);
    assert!(!p.task_running);
    p.start("Login".to_string());
    assert!(p.task_running);
    assert_eq!(p.task_desc, "Login");
    assert_eq!(AccountPage::new(true).task_desc, "Update data");
}

#[test]
fn remote_page_loads_on_first_focus_and_after_failure() {
    let mut p = RemotePage::new();
    assert!(p.set_focus(true));
    assert!(!p.set_focus(true));
    assert!(p.begin_refresh());
    assert!(!p.begin_refresh());
    p.finish_load(false);
    assert!(!p.set_focus(false));
    assert!(p.set_focus(true));
    p.finish_load(true);
    assert!(!p.loading);
}
