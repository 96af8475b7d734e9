use tuikit::tui::Container;
use tuikit::tui::Element;
use tuikit::tui::Heading;
use tuikit::tui::Text;

#[test]
fn container_test() {
    let text = Heading::new(String::from("Hello world!"));
    let text2 = Text::new(String::from("This is a long string of text"));
    let container = Container::new(vec![Element::Heading(text), Element::Text(text2)]);
    container.render();
}

#[test]
fn text_dimensions_and_render() {
    let t = Text::new(String::from("abc"));
    let d = t.dimensions();
    assert_eq!(d.width, 3);
    assert_eq!(d.height, 0);
    assert_eq!(t.render(), "abc");

    let empty = Text::new(String::new());
    let d = empty.dimensions();
    assert_eq!(d.width, 0);
    assert_eq!(d.height, 0);
    assert_eq!(empty.render(), "");
}

#[test]
fn heading_dimensions_and_render() {
    let h = Heading::new(String::from("Hi"));
    let d = h.dimensions();
    assert_eq!(d.width, 2);
    assert_eq!(d.height, 0);
    assert_eq!(h.render(), "\u{1b}[1mHi\u{1b}[0m");
}

#[test]
fn container_dimensions() {
    let c = Container::new(vec![
        Element::Text(Text::new(String::from("abc"))),
        Element::Text(Text::new(String::from("abcde"))),
    ]);
    let d = c.dimensions();
    assert_eq!(d.width, 7);
    assert_eq!(d.height, 0);
}

#[test]
fn empty_container() {
    let c = Container::new(vec![]);
    let d = c.dimensions();
    assert_eq!(d.width, 2);
    assert_eq!(d.height, 0);
    assert_eq!(c.render(), "++++");
}

#[test]
fn container_end_to_end() {
    let container = Container::new(vec![
        Element::Heading(Heading::new(String::from("Hello world!"))),
        Element::Text(Text::new(String::from("This is a long string of text"))),
    ]);
    let d = container.dimensions();
    assert_eq!(d.width, 31);
    assert_eq!(d.height, 0);

    let mut expected = String::new();
    expected.push_str("+");
    expected.push_str(&"-".repeat(29));
    expected.push_str("+");
    expected.push_str("|\u{1b}[1mHello world!\u{1b}[0m");
    expected.push_str(&" ".repeat(17));
    expected.push_str("|\n");
    expected.push_str("|This is a long string of text|\n");
    expected.push_str("+");
    expected.push_str(&"-".repeat(29));
    expected.push_str("+");
    assert_eq!(container.render(), expected);
}

#[test]
fn nested_container() {
    let inner = Container::new(vec![Element::Text(Text::new(String::from("ab")))]);
    let outer = Container::new(vec![Element::Container(inner)]);
    let d = outer.dimensions();
    assert_eq!(d.width, 6);
    assert_eq!(d.height, 0);
    assert_eq!(outer.render(), "+----+|+--+|ab|\n+--+|\n+----+");
}

#[test]
fn render_twice_identical() {
    let tree = Container::new(vec![
        Element::Heading(Heading::new(String::from("title"))),
        Element::Text(Text::new(String::from("body"))),
        Element::Container(Container::new(vec![])),
    ]);
    let first = tree.render();
    let second = tree.render();
    assert_eq!(first, second);
}
