use ccfolia_tweaks::ccfolia::{character_menu_xpath, send_steps, BrowserStep, Locator};

#[test]
fn xpath_names_the_character_entry() {
    assert_eq!(
        character_menu_xpath("アリス"),
        "//div[contains(@role, 'button')]//*[text()='アリス']/../.."
    );
}

#[test]
fn send_steps_pick_type_and_submit() {
    let steps = send_steps("Alice", "Hello");
    assert_eq!(steps.len(), 13);
    match &steps[1] {
        BrowserStep::Click(Locator::Css(s)) => assert_eq!(s, "button[aria-label='キャラクター選択']"),
        _ => panic!("second step opens the character menu"),
    }
    assert!(matches!(steps[3], BrowserStep::Pause(500)));
    match &steps[5] {
        BrowserStep::Click(Locator::XPath(s)) => {
            assert_eq!(s, "//div[contains(@role, 'button')]//*[text()='Alice']/../..")
        }
        _ => panic!("sixth step picks the character"),
    }
    match &steps[9] {
        BrowserStep::Type(Locator::XPath(s), text) => {
            assert_eq!(s, "//textarea[@id='downshift-:rm:-input']");
            assert_eq!(text, "Hello");
        }
        _ => panic!("tenth step types the message"),
    }
    match &steps[11] {
        BrowserStep::Click(Locator::Css(s)) => assert_eq!(s, "button[type='submit']"),
        _ => panic!("twelfth step sends"),
    }
    match &steps[12] {
        BrowserStep::Say(s) => assert_eq!(s, "完了！"),
        _ => panic!("last step reports"),
    }
}
