use termlayers::style::{Attributes, Color, ContentStyle, StyledChar};
use termlayers::window::Window;

fn red() -> ContentStyle {
    ContentStyle {
        foreground_color: Some(Color::Red),
        background_color: None,
        underline_color: None,
        attributes: Attributes(0),
    }
}

#[test]
fn styled_char_from_char_uses_default_style() {
    let c = StyledChar::from('a');
    assert_eq!(c, StyledChar { char: 'a', style: ContentStyle::default() });
}

#[test]
fn styled_char_default_is_plain_space() {
    let c = StyledChar::default();
    assert_eq!(c.char, ' ');
    assert_eq!(c.style, ContentStyle::new());
    assert_eq!(c.style.foreground_color, None);
    assert_eq!(c.style.attributes, Attributes(0));
}

#[test]
fn new_window_is_transparent() {
    let w = Window::new((2, 3), 7, (4, 2));
    assert_eq!(*w.get_position(), (2, 3));
    assert_eq!(*w.get_depth(), 7);
    assert_eq!(*w.get_size(), (4, 2));
    for x in 0..4 {
        for y in 0..2 {
            assert_eq!(*w.get_char(&(x, y)), None);
        }
    }
}

#[test]
fn get_char_outside_is_none() {
    let mut w = Window::new((0, 0), 0, (2, 2));
    w.fill(StyledChar::from('#'));
    assert_eq!(*w.get_char(&(2, 0)), None);
    assert_eq!(*w.get_char(&(0, 2)), None);
    assert_eq!(*w.get_char(&(1, 1)), Some(StyledChar::from('#')));
}

#[test]
fn draw_then_read_back() {
    let mut w = Window::new((0, 0), 0, (5, 2));
    w.draw_styled((1, 0), "hi", red());
    assert_eq!(*w.get_char(&(1, 0)), Some(StyledChar { char: 'h', style: red() }));
    assert_eq!(*w.get_char(&(2, 0)), Some(StyledChar { char: 'i', style: red() }));
    assert_eq!(*w.get_char(&(0, 0)), None);
    assert_eq!(*w.get_char(&(3, 0)), None);
    assert_eq!(*w.get_char(&(1, 1)), None);
}

#[test]
fn draw_stops_at_right_edge() {
    let mut w = Window::new((0, 0), 0, (5, 2));
    w.draw_styled((3, 1), "hello", red());
    assert_eq!(*w.get_char(&(3, 1)), Some(StyledChar { char: 'h', style: red() }));
    assert_eq!(*w.get_char(&(4, 1)), Some(StyledChar { char: 'e', style: red() }));
    assert_eq!(*w.get_char(&(0, 1)), None);
}

#[test]
fn draw_beyond_right_edge_does_nothing() {
    let mut w = Window::new((0, 0), 0, (3, 1));
    w.draw_styled((3, 5), "abc", red());
    for x in 0..3 {
        assert_eq!(*w.get_char(&(x, 0)), None);
    }
}

#[test]
fn draw_counts_characters_not_bytes() {
    let mut w = Window::new((0, 0), 0, (4, 1));
    w.draw_styled((0, 0), "é€x", ContentStyle::new());
    assert_eq!(*w.get_char(&(0, 0)), Some(StyledChar::from('é')));
    assert_eq!(*w.get_char(&(1, 0)), Some(StyledChar::from('€')));
    assert_eq!(*w.get_char(&(2, 0)), Some(StyledChar::from('x')));
    assert_eq!(*w.get_char(&(3, 0)), None);
}

#[test]
fn fill_sets_every_cell() {
    let mut w = Window::new((0, 0), 0, (3, 2));
    let c = StyledChar { char: '*', style: red() };
    w.fill(c);
    for x in 0..3 {
        for y in 0..2 {
            assert_eq!(*w.get_char(&(x, y)), Some(c));
        }
    }
}

#[test]
fn set_size_keeps_overlap() {
    let mut w = Window::new((0, 0), 0, (3, 3));
    w.fill(StyledChar::from('o'));
    w.set_size((2, 4));
    assert_eq!(*w.get_size(), (2, 4));
    assert_eq!(*w.get_char(&(1, 2)), Some(StyledChar::from('o')));
    assert_eq!(*w.get_char(&(1, 3)), None);
    assert_eq!(*w.get_char(&(2, 0)), None);
    w.set_size((4, 1));
    assert_eq!(*w.get_char(&(0, 0)), Some(StyledChar::from('o')));
    assert_eq!(*w.get_char(&(1, 0)), Some(StyledChar::from('o')));
    assert_eq!(*w.get_char(&(3, 0)), None);
    assert_eq!(*w.get_char(&(0, 1)), None);
}

#[test]
fn setters_change_only_their_field() {
    let mut w = Window::new((1, 1), 2, (2, 2));
    w.fill(StyledChar::from('z'));
    w.set_depth(9);
    w.set_position((4, 5));
    w.set_clear_on_render(true);
    assert_eq!(*w.get_depth(), 9);
    assert_eq!(*w.get_position(), (4, 5));
    assert_eq!(*w.get_size(), (2, 2));
    assert_eq!(*w.get_char(&(1, 1)), Some(StyledChar::from('z')));
}

#[test]
fn draw_below_window_does_nothing() {
    let mut w = Window::new((0, 0), 0, (2, 2));
    w.draw_styled((0, 2), "a", ContentStyle::new());
    for x in 0..2 {
        for y in 0..2 {
            assert_eq!(*w.get_char(&(x, y)), None);
        }
    }
}

#[test]
fn read_gives_last_write() {
    let mut w = Window::new((0, 0), 0, (3, 2));
    w.fill(StyledChar::from('f'));
    w.draw_styled((1, 1), "ab", red());
    w.set_position((7, 7));
    w.set_size((2, 2));
    w.set_size((3, 3));
    assert_eq!(*w.get_char(&(0, 0)), Some(StyledChar::from('f')));
    assert_eq!(*w.get_char(&(1, 1)), Some(StyledChar { char: 'a', style: red() }));
    // Dropped by the shrink, then brought back empty.
    assert_eq!(*w.get_char(&(2, 1)), None);
    assert_eq!(*w.get_char(&(2, 0)), None);
    assert_eq!(*w.get_char(&(0, 2)), None);
    w.draw_styled((0, 2), "z", red());
    assert_eq!(*w.get_char(&(0, 2)), Some(StyledChar { char: 'z', style: red() }));
    assert_eq!(*w.get_char(&(3, 0)), None);
}
