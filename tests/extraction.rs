use page_digest::extract::{strip_html_tags, ExtractError};
use page_digest::text::{collapse_chars, trim_chars};

fn main_text(html: &str) -> String {
    let r: Result<String, ExtractError> = strip_html_tags(html);
    r.expect("the selector lists parse")
}

#[test]
fn navigation_is_left_out() {
    assert_eq!(
        main_text("<html><body><nav>Home</nav><p>Hello world.</p></body></html>"),
        "Hello world."
    );
}

#[test]
fn empty_page_gives_empty_text() {
    assert_eq!(main_text(""), "");
}

#[test]
fn script_and_style_are_left_out() {
    let html = "<html><head><style>p { color: red }</style></head><body><script>var x = 1;</script><article>Body text</article></body></html>";
    assert_eq!(main_text(html), "Body text");
}

#[test]
fn content_inside_boilerplate_is_left_out() {
    let html = "<body><div class=\"sidebar\"><p>side</p></div><footer><p>foot</p></footer><p>main</p></body>";
    assert_eq!(main_text(html), "main");
}

#[test]
fn nested_content_elements_each_give_their_text() {
    assert_eq!(main_text("<body><article><p>A</p><p>B</p></article></body>"), "AB A B");
}

#[test]
fn whitespace_is_collapsed() {
    assert_eq!(main_text("<p>  one \n\t two  </p><h1>\nthree\n</h1>"), "one two three");
}

#[test]
fn body_is_read_without_content_elements() {
    assert_eq!(main_text("<html><body><div>Only <b>div</b> text</div></body></html>"), "Only div text");
}

#[test]
fn body_fallback_skips_boilerplate() {
    assert_eq!(main_text("<html><body><div>x</div><nav>menu</nav></body></html>"), "x");
}

#[test]
fn malformed_markup_still_gives_text() {
    assert_eq!(main_text("<p>unclosed <b>bold<p>next"), "unclosed bold next");
}

#[test]
fn trim_drops_outer_whitespace_only() {
    let v: Vec<char> = " \u{3000}a b\n".chars().collect();
    let r: String = trim_chars(&v).into_iter().collect();
    assert_eq!(r, "a b");
}

#[test]
fn collapse_joins_words_with_single_spaces() {
    let v: Vec<char> = "\t a  b\u{a0}\nc ".chars().collect();
    let r: String = collapse_chars(&v).into_iter().collect();
    assert_eq!(r, "a b c");
}

#[test]
fn script_inside_content_is_left_out() {
    assert_eq!(main_text("<html><body><p>Hi<script>var x=1;</script></p></body></html>"), "Hi");
}

#[test]
fn body_fallback_keeps_text_outside_navigation() {
    assert_eq!(main_text("<html><body><nav>Home</nav><div>Hello</div></body></html>"), "Hello");
}

#[test]
fn element_text_is_joined_before_trimming() {
    assert_eq!(main_text("<body><h1>Title</h1><p>Hello <b>world</b>!</p></body>"), "Title Hello world!");
}

#[test]
fn boilerplate_class_on_content_element_is_left_out() {
    assert_eq!(main_text("<body><p class=\"ad\">Buy now</p><p>Story</p></body>"), "Story");
}
