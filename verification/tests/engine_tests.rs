use termlayers::engine::Engine;
use termlayers::frame::TermOp;
use termlayers::style::{Attributes, Color, ContentStyle, StyledChar};
use termlayers::window::Window;

fn styled(c: char, fg: Color) -> StyledChar {
    StyledChar {
        char: c,
        style: ContentStyle {
            foreground_color: Some(fg),
            background_color: None,
            underline_color: None,
            attributes: Attributes(0),
        },
    }
}

fn text(v: &Vec<char>) -> String {
    v.iter().collect()
}

#[test]
fn first_render_prints_each_row_once() {
    let mut w = Window::new((2, 3), 0, (3, 2));
    w.fill(StyledChar::from('x'));
    let mut e: Engine<u64> = Engine::new(1, w);
    let f = e.render();
    assert_eq!(f.updated, 6);
    assert_eq!(f.commands.len(), 2);
    assert_eq!(f.commands[0].position, (0, 0));
    assert_eq!(text(&f.commands[0].text), "xxx");
    assert_eq!(f.commands[1].position, (0, 1));
    assert_eq!(text(&f.commands[1].text), "xxx");
    assert_eq!(
        f.ops,
        vec![TermOp::MoveTo(2, 3), TermOp::Print(0), TermOp::MoveTo(2, 4), TermOp::Print(1)]
    );
    assert_eq!(f.size, (3, 2));
    assert_eq!(f.position, (2, 3));
    assert!(!f.debug);
}

#[test]
fn rerender_prints_nothing() {
    let mut w = Window::new((0, 0), 0, (2, 2));
    w.fill(StyledChar::from('a'));
    let mut e: Engine<u64> = Engine::new(1, w);
    let f1 = e.render();
    assert_eq!(f1.updated, 4);
    let f2 = e.render();
    assert_eq!(f2.updated, 0);
    assert!(f2.commands.is_empty());
    assert!(f2.ops.is_empty());
}

#[test]
fn transparent_window_prints_nothing() {
    let w = Window::new((0, 0), 0, (3, 3));
    let mut e: Engine<u64> = Engine::new(7, w);
    let f = e.render();
    assert_eq!(f.updated, 0);
    assert!(f.commands.is_empty());
    assert!(f.ops.is_empty());
}

#[test]
fn deepest_window_is_on_top() {
    let mut low = Window::new((0, 0), 1, (2, 1));
    low.fill(StyledChar::from('l'));
    let mut high = Window::new((1, 0), 2, (2, 1));
    high.fill(StyledChar::from('h'));
    let mut e: Engine<u64> = Engine::new(1, high);
    assert!(e.add_window(2, low).is_none());
    let f = e.render();
    assert_eq!(f.updated, 3);
    assert_eq!(f.commands.len(), 1);
    assert_eq!(f.commands[0].position, (0, 0));
    assert_eq!(text(&f.commands[0].text), "lhh");
}

#[test]
fn transparent_cells_let_lower_window_show() {
    let mut low = Window::new((0, 0), 0, (3, 1));
    low.fill(StyledChar::from('.'));
    let mut high = Window::new((0, 0), 5, (3, 1));
    high.draw_styled((1, 0), "X", ContentStyle::new());
    let mut e: Engine<u64> = Engine::new(1, low);
    e.add_window(2, high);
    let f = e.render();
    assert_eq!(f.commands.len(), 1);
    assert_eq!(text(&f.commands[0].text), ".X.");
}

#[test]
fn style_change_splits_commands_without_moving() {
    let mut w = Window::new((0, 0), 0, (2, 2));
    w.draw_styled((0, 1), "a", styled('a', Color::Red).style);
    w.draw_styled((1, 1), "b", styled('b', Color::Blue).style);
    let mut e: Engine<u64> = Engine::new(1, w);
    let f = e.render();
    assert_eq!(f.updated, 2);
    assert_eq!(f.commands.len(), 2);
    assert_eq!(f.commands[0].position, (0, 1));
    assert_eq!(f.commands[0].style, styled('a', Color::Red).style);
    assert_eq!(f.commands[1].position, (1, 1));
    assert_eq!(f.commands[1].style, styled('b', Color::Blue).style);
    // The second command starts right where printing the first one left the
    // cursor: no cursor move is queued between them.
    assert_eq!(f.ops, vec![TermOp::MoveTo(0, 1), TermOp::Print(0), TermOp::Print(1)]);
}

#[test]
fn gaps_split_commands_and_move_the_cursor() {
    let mut w = Window::new((10, 0), 0, (5, 1));
    w.draw_styled((0, 0), "ab", ContentStyle::new());
    w.draw_styled((3, 0), "c", ContentStyle::new());
    let mut e: Engine<u64> = Engine::new(1, w);
    let f = e.render();
    assert_eq!(f.commands.len(), 2);
    assert_eq!(text(&f.commands[0].text), "ab");
    assert_eq!(f.commands[1].position, (3, 0));
    assert_eq!(text(&f.commands[1].text), "c");
    assert_eq!(
        f.ops,
        vec![TermOp::MoveTo(10, 0), TermOp::Print(0), TermOp::MoveTo(13, 0), TermOp::Print(1)]
    );
}

#[test]
fn changed_cells_are_printed_again() {
    let mut w = Window::new((0, 0), 0, (3, 1));
    w.fill(StyledChar::from('a'));
    let mut e: Engine<u64> = Engine::new(1, w);
    e.render();
    let mut w2 = Window::new((0, 0), 1, (3, 1));
    w2.draw_styled((2, 0), "b", ContentStyle::new());
    e.add_window(2, w2);
    let f = e.render();
    assert_eq!(f.updated, 1);
    assert_eq!(f.commands.len(), 1);
    assert_eq!(f.commands[0].position, (2, 0));
    assert_eq!(text(&f.commands[0].text), "b");
}

#[test]
fn add_window_returns_previous_and_get_window_finds_new() {
    let w1 = Window::new((0, 0), 1, (1, 1));
    let mut e: Engine<u64> = Engine::new(4, w1);
    assert_eq!(*e.get_window(&4).unwrap().get_depth(), 1);
    assert!(e.get_window(&5).is_none());
    let w2 = Window::new((0, 0), 2, (1, 1));
    let prev = e.add_window(4, w2);
    assert_eq!(*prev.unwrap().get_depth(), 1);
    assert_eq!(*e.get_window(&4).unwrap().get_depth(), 2);
    let w3 = Window::new((3, 3), 3, (1, 1));
    assert!(e.add_window(5, w3).is_none());
    assert_eq!(*e.get_window(&5).unwrap().get_position(), (3, 3));
    assert_eq!(*e.get_window(&4).unwrap().get_depth(), 2);
}

#[test]
fn add_window_grows_right_and_down() {
    let w1 = Window::new((0, 0), 0, (2, 2));
    let mut e: Engine<u64> = Engine::new(1, w1);
    e.add_window(2, Window::new((5, 5), 0, (1, 1)));
    let f = e.render();
    assert_eq!(f.position, (0, 0));
    assert_eq!(f.size, (6, 6));
}

#[test]
fn add_window_grows_left_and_up_keeping_screen_cells() {
    let mut w1 = Window::new((5, 5), 0, (2, 2));
    w1.fill(StyledChar::from('q'));
    let mut e: Engine<u64> = Engine::new(1, w1);
    let f1 = e.render();
    assert_eq!(f1.updated, 4);
    e.add_window(2, Window::new((1, 2), 0, (1, 1)));
    let f2 = e.render();
    assert_eq!(f2.position, (1, 2));
    assert_eq!(f2.size, (6, 5));
    // The cells drawn before kept their screen place, so nothing changed.
    assert_eq!(f2.updated, 0);
    assert!(f2.ops.is_empty());
}

#[test]
fn debug_flag_reaches_the_frame() {
    let mut e: Engine<u64> = Engine::new(1, Window::new((0, 0), 0, (1, 1)));
    e.set_debug(true);
    let f = e.render();
    assert!(f.debug);
    e.set_debug(false);
    assert!(!e.render().debug);
}

#[test]
fn clear_flag_does_not_change_printing() {
    let mut a = Window::new((0, 0), 0, (2, 1));
    a.fill(StyledChar::from('c'));
    let mut b = Window::new((0, 0), 0, (2, 1));
    b.fill(StyledChar::from('c'));
    b.set_clear_on_render(true);
    let fa = Engine::<u64>::new(1, a).render();
    let fb = Engine::<u64>::new(1, b).render();
    assert_eq!(fa.updated, fb.updated);
    assert_eq!(fa.ops, fb.ops);
    assert_eq!(fa.commands.len(), fb.commands.len());
    assert_eq!(text(&fa.commands[0].text), text(&fb.commands[0].text));
}

#[test]
fn cursor_positions_are_cut_to_sixteen_bits() {
    let mut w = Window::new((65536 + 3, 1), 0, (1, 1));
    w.fill(StyledChar::from('w'));
    let mut e: Engine<u64> = Engine::new(1, w);
    let f = e.render();
    assert_eq!(f.ops, vec![TermOp::MoveTo(3, 1), TermOp::Print(0)]);
}

#[test]
fn string_keys_work() {
    let mut w = Window::new((0, 0), 0, (1, 1));
    w.fill(StyledChar::from('k'));
    let mut e: Engine<&str> = Engine::new("main", w);
    assert!(e.get_window(&"main").is_some());
    assert!(e.get_window(&"other").is_none());
    assert_eq!(e.render().updated, 1);
}

#[test]
fn uncovered_cells_keep_what_was_drawn() {
    let mut w = Window::new((0, 0), 0, (2, 1));
    w.fill(StyledChar::from('a'));
    let mut e: Engine<u64> = Engine::new(1, w);
    assert_eq!(e.render().updated, 2);
    // Replace the window by a transparent one: the frame keeps its cells.
    let prev = e.add_window(1, Window::new((0, 0), 0, (2, 1)));
    assert!(prev.is_some());
    let f = e.render();
    assert_eq!(f.updated, 0);
    // Drawing the same characters again changes nothing either.
    let mut again = Window::new((0, 0), 0, (2, 1));
    again.fill(StyledChar::from('a'));
    e.add_window(1, again);
    assert_eq!(e.render().updated, 0);
}

#[test]
fn equal_depth_overlap_shows_one_of_the_windows() {
    let mut a = Window::new((0, 0), 3, (1, 1));
    a.fill(StyledChar::from('a'));
    let mut b = Window::new((0, 0), 3, (1, 1));
    b.fill(StyledChar::from('b'));
    let mut e: Engine<u64> = Engine::new(1, a);
    e.add_window(2, b);
    let f = e.render();
    assert_eq!(f.updated, 1);
    let t = text(&f.commands[0].text);
    assert!(t == "a" || t == "b");
}

#[test]
fn next_row_command_moves_the_cursor() {
    let mut w = Window::new((0, 0), 0, (2, 3));
    w.draw_styled((0, 1), "a", ContentStyle::new());
    w.draw_styled((1, 2), "b", ContentStyle::new());
    let mut e: Engine<u64> = Engine::new(1, w);
    let f = e.render();
    assert_eq!(f.commands.len(), 2);
    assert_eq!(f.commands[0].position, (0, 1));
    assert_eq!(f.commands[1].position, (1, 2));
    assert_eq!(
        f.ops,
        vec![TermOp::MoveTo(0, 1), TermOp::Print(0), TermOp::MoveTo(1, 2), TermOp::Print(1)]
    );
}

#[test]
fn rerender_with_agreeing_equal_depth_windows_is_quiet() {
    let mut a = Window::new((0, 0), 2, (2, 1));
    a.fill(StyledChar::from('s'));
    let mut b = Window::new((1, 0), 2, (2, 1));
    b.fill(StyledChar::from('s'));
    let mut e: Engine<u64> = Engine::new(1, a);
    e.add_window(2, b);
    let f1 = e.render();
    assert_eq!(f1.updated, 3);
    let f2 = e.render();
    assert_eq!(f2.updated, 0);
    assert!(f2.commands.is_empty());
    assert!(f2.ops.is_empty());
}

#[test]
fn cleared_window_renders_like_a_kept_one_every_time() {
    let mut a = Window::new((0, 0), 0, (2, 1));
    a.fill(StyledChar::from('c'));
    let mut b = Window::new((0, 0), 0, (2, 1));
    b.fill(StyledChar::from('c'));
    b.set_clear_on_render(true);
    let mut ea: Engine<u64> = Engine::new(1, a);
    let mut eb: Engine<u64> = Engine::new(1, b);
    for _ in 0..3 {
        let fa = ea.render();
        let fb = eb.render();
        assert_eq!(fa.updated, fb.updated);
        assert_eq!(fa.ops, fb.ops);
        assert_eq!(fa.commands.len(), fb.commands.len());
    }
    // A new window under the same identifier is printed the same way too.
    let mut a2 = Window::new((0, 0), 0, (2, 1));
    a2.draw_styled((1, 0), "d", ContentStyle::new());
    let mut b2 = Window::new((0, 0), 0, (2, 1));
    b2.draw_styled((1, 0), "d", ContentStyle::new());
    b2.set_clear_on_render(true);
    ea.add_window(1, a2);
    eb.add_window(1, b2);
    let fa = ea.render();
    let fb = eb.render();
    assert_eq!(fa.updated, 1);
    assert_eq!(fb.updated, 1);
    assert_eq!(fa.ops, fb.ops);
    assert_eq!(text(&fb.commands[0].text), "d");
}

#[test]
fn lookup_finds_last_window_stored() {
    let mut e: Engine<u64> = Engine::new(4, Window::new((0, 0), 1, (1, 1)));
    e.add_window(5, Window::new((0, 0), 2, (1, 1)));
    e.add_window(4, Window::new((0, 0), 3, (1, 1)));
    e.add_window(6, Window::new((0, 0), 4, (1, 1)));
    e.add_window(4, Window::new((0, 0), 5, (1, 1)));
    assert_eq!(*e.get_window(&4).unwrap().get_depth(), 5);
    assert_eq!(*e.get_window(&5).unwrap().get_depth(), 2);
    assert_eq!(*e.get_window(&6).unwrap().get_depth(), 4);
    assert!(e.get_window(&7).is_none());
}
