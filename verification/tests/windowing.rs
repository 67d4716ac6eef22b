use grep_preview::window::display_window;
use grep_preview::window::fmt_usize;
use grep_preview::window::viewer_args;
use grep_preview::window::WINDOW_SIZE;

#[test]
fn window_size_is_forty() {
    assert_eq!(WINDOW_SIZE, 40);
}

#[test]
fn window_centered_mid_file() {
    let w = display_window(100);
    assert_eq!(w.first, 87);
    assert_eq!(w.last, 126);
    assert_eq!(w.highlight, 100);
}

#[test]
fn window_clamps_near_top() {
    let w = display_window(5);
    assert_eq!(w.first, 1);
    assert_eq!(w.last, 40);
    assert_eq!(w.highlight, 5);
}

#[test]
fn window_at_exact_third() {
    // At exactly a third of the window the subtraction would reach line 0,
    // which does not exist, so the window is clamped to start at line 1.
    let w = display_window(13);
    assert_eq!(w.first, 1);
    assert_eq!(w.last, 40);
}

#[test]
fn window_clamps_at_integer_maximum() {
    let w = display_window(usize::MAX);
    assert_eq!(w.first, usize::MAX - 13);
    assert_eq!(w.last, usize::MAX);
    assert_eq!(w.highlight, usize::MAX);
}

#[test]
fn renders_decimal_digits() {
    assert_eq!(fmt_usize(0), "0");
    assert_eq!(fmt_usize(7), "7");
    assert_eq!(fmt_usize(40), "40");
    assert_eq!(fmt_usize(1234567890), "1234567890");
}

#[test]
fn viewer_args_shape() {
    let args = viewer_args("foo".to_string(), 100);
    assert_eq!(args.len(), 6);
    assert_eq!(args[0], "--style=numbers");
    assert_eq!(args[1], "--color=always");
    assert_eq!(args[2], "--pager=never");
    assert_eq!(args[3], "--line-range=87:126");
    assert_eq!(args[4], "--highlight-line=100");
    assert_eq!(args[5], "foo");
}

#[test]
fn viewer_args_clamped_window() {
    let args = viewer_args("c:\\foo".to_string(), 5);
    assert_eq!(args[3], "--line-range=1:40");
    assert_eq!(args[4], "--highlight-line=5");
    assert_eq!(args[5], "c:\\foo");
}
