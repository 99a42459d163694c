//! Posting one message to the ccfolia room in the browser: the steps that
//! select the speaking character, type the message and send it.

use vstd::prelude::*;

verus! {

/// How an element of the page is found.
pub enum Locator {
    Css(String),
    XPath(String),
}

/// One step of driving the browser.
pub enum BrowserStep {
    /// Report progress to the user.
    Say(String),
    /// Find the element and click it.
    Click(Locator),
    /// Wait this many milliseconds for the page to settle.
    Pause(u64),
    /// Find the element and type the text into it.
    Type(Locator, String),
}

/// A locator as text.
pub enum LocatorView {
    Css(Seq<char>),
    XPath(Seq<char>),
}

/// A browser step as text.
pub enum StepView {
    Say(Seq<char>),
    Click(LocatorView),
    Pause(u64),
    Type(LocatorView, Seq<char>),
}

impl View for Locator {
    type V = LocatorView;

    open spec fn view(&self) -> LocatorView {
        match self {
            Locator::Css(s) => LocatorView::Css(s@),
            Locator::XPath(s) => LocatorView::XPath(s@),
        }
    }
}

impl View for BrowserStep {
    type V = StepView;

    open spec fn view(&self) -> StepView {
        match self {
            BrowserStep::Say(s) => StepView::Say(s@),
            BrowserStep::Click(l) => StepView::Click(l@),
            BrowserStep::Pause(ms) => StepView::Pause(*ms),
            BrowserStep::Type(l, s) => StepView::Type(l@, s@),
        }
    }
}

/// The XPath of the entry for the character named `chara` in the character
/// menu: the element two levels above the one whose text is the name.
pub open spec fn character_xpath(chara: Seq<char>) -> Seq<char> {
    "//div[contains(@role, 'button')]//*[text()='"@ + chara + "']/../.."@
}

/// The steps that post `content` as the character `chara`: open the character
/// menu, pick the character, type the message into the chat box, send it.
pub open spec fn send_plan(chara: Seq<char>, content: Seq<char>) -> Seq<StepView> {
    seq![
        StepView::Say("キャラクター選択を開始..."@),
        StepView::Click(LocatorView::Css("button[aria-label='キャラクター選択']"@)),
        StepView::Say("アニメーション待機中..."@),
        StepView::Pause(500),
        StepView::Say("切り替えボタン探索中..."@),
        StepView::Click(LocatorView::XPath(character_xpath(chara))),
        StepView::Say("アニメーション待機中..."@),
        StepView::Pause(500),
        StepView::Say("入力中..."@),
        StepView::Type(LocatorView::XPath("//textarea[@id='downshift-:rm:-input']"@), content),
        StepView::Say("送信中..."@),
        StepView::Click(LocatorView::Css("button[type='submit']"@)),
        StepView::Say("完了！"@),
    ]
}

/// Posting a message types exactly once: the tenth of the thirteen steps types
/// the content into the chat box, and no other step types anything.
pub proof fn law_one_typing_step(chara: Seq<char>, content: Seq<char>)
    ensures
        send_plan(chara, content).len() == 13,
        send_plan(chara, content)[9] == StepView::Type(
            LocatorView::XPath("//textarea[@id='downshift-:rm:-input']"@),
            content,
        ),
        forall|i: int|
            0 <= i < 13 && i != 9 ==> !(#[trigger] send_plan(chara, content)[i] is Type),
{
}

/// The XPath of the entry for the character named `chara` in the character menu.
pub fn character_menu_xpath(chara: &str) -> (r: String)
    ensures
        r@ == character_xpath(chara@),
{
    let mut x = String::from_str("//div[contains(@role, 'button')]//*[text()='");
    x.append(chara);
    x.append("']/../..");
    x
}

/// The steps that post `content` as the character `chara`.
pub fn send_steps(chara: &str, content: &str) -> (r: Vec<BrowserStep>)
    ensures
        r@.map_values(|s: BrowserStep| s@) == send_plan(chara@, content@),
{
    let mut r: Vec<BrowserStep> = Vec::new();
    r.push(BrowserStep::Say(String::from_str("キャラクター選択を開始...")));
    r.push(
        BrowserStep::Click(Locator::Css(String::from_str("button[aria-label='キャラクター選択']"))),
    );
    r.push(BrowserStep::Say(String::from_str("アニメーション待機中...")));
    r.push(BrowserStep::Pause(500));
    r.push(BrowserStep::Say(String::from_str("切り替えボタン探索中...")));
    r.push(BrowserStep::Click(Locator::XPath(character_menu_xpath(chara))));
    r.push(BrowserStep::Say(String::from_str("アニメーション待機中...")));
    r.push(BrowserStep::Pause(500));
    r.push(BrowserStep::Say(String::from_str("入力中...")));
    r.push(
        BrowserStep::Type(
            Locator::XPath(String::from_str("//textarea[@id='downshift-:rm:-input']")),
            String::from_str(content),
        ),
    );
    r.push(BrowserStep::Say(String::from_str("送信中...")));
    r.push(BrowserStep::Click(Locator::Css(String::from_str("button[type='submit']"))));
    r.push(BrowserStep::Say(String::from_str("完了！")));
    assert(r@.map_values(|s: BrowserStep| s@) =~= send_plan(chara@, content@));
    r
}

} // verus!
