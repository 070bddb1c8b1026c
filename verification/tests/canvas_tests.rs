use ascii_painter::Canvas;
use ascii_painter::Rectangle;

#[test]
fn test_rec_with_label() {
    let mut canvas = Canvas::new(20, 20);
    canvas.draw_rectangle_with_label(
        &Rectangle {
            left: 1,
            right: 8,
            top: 1,
            bottom: 5,
        },
        "test",
    );
    canvas.draw_rectangle_with_label(
        &Rectangle {
            left: 1,
            right: 8,
            top: 6,
            bottom: 10,
        },
        "test a super long label",
    );
    canvas.reset_boundary();
    let res = "┌──────┐\n\
               │test  │\n\
               │      │\n\
               │      │\n\
               └──────┘\n\
               ┌──────┐\n\
               │test a│\n\
               │super │\n\
               │long l│\n\
               └──────┘\n";
    assert_eq!(canvas.to_string(), res);
}

#[test]
fn test_arrowed_line() {
    let mut canvas = Canvas::new(20, 20);
    canvas.draw_arrowed_line(&(10, 10), &(10, 18));
    canvas.reset_boundary();
    let res = "───────►\n";
    assert_eq!(canvas.to_string(), res);
}

#[test]
fn test_line_with_label() {
    let mut canvas = Canvas::new(20, 20);
    canvas.draw_line_with_label((10, 10), (10, 18), "func_call_name", true);
    canvas.draw_line_with_label((15, 10), (15, 18), "func_call_name", false);
    canvas.reset_boundary();
    let res = " func_  \n \
               call_  \n \
               name   \n\
               ───────►\n        \n \
               func_  \n \
               call_  \n \
               name   \n\
               ─────── \n";
    assert_eq!(canvas.to_string(), res);
}

#[test]
fn test_line_with_long_label() {
    let mut canvas = Canvas::new(20, 20);
    canvas.draw_line_with_label((15, 10), (15, 18), "func_call_name_really_long", false);
    canvas.reset_boundary();
    let res = " func_ \n \
               call_ \n \
               name_ \n \
               reall \n \
               y_lon \n \
               g     \n\
               ───────\n";
    assert_eq!(canvas.to_string(), res);
}

#[test]
fn test_vertical_and_diagonal_lines() {
    let mut canvas = Canvas::new(20, 20);
    canvas.draw_line(&(2, 4), &(7, 4));
    // A diagonal request is a no-op by design.
    canvas.draw_line(&(1, 1), &(9, 9));
    canvas.reset_boundary();
    assert_eq!(canvas.to_string(), "│\n│\n│\n│\n");
}

#[test]
fn test_draw_point_and_clear() {
    let mut canvas = Canvas::new(10, 10);
    canvas.draw_point(&(3, 4), 'x');
    canvas.reset_boundary();
    assert_eq!(canvas.to_string(), "x\n");
    canvas.clear();
    canvas.reset_boundary();
    assert_eq!(canvas.to_string(), "");
}

#[test]
fn test_line_under_keeps_glyphs() {
    let mut canvas = Canvas::new(10, 10);
    canvas.draw_point(&(3, 2), 'x');
    // The non-overwriting vertical line must not clobber the glyph.
    canvas.draw_line_under(&(1, 2), &(6, 2));
    canvas.reset_boundary();
    assert_eq!(canvas.to_string(), "│\nx\n│\n│\n");
}

#[test]
fn test_rectangle_with_vertices_label() {
    let mut canvas = Canvas::new(20, 20);
    let vertices = [(1usize, 1usize), (1usize, 8usize), (5usize, 1usize), (5usize, 8usize)];
    canvas.draw_rectangle_with_vertices_label(&vertices, "test");
    canvas.reset_boundary();
    // Only the label is written; the border is not drawn.
    assert_eq!(canvas.to_string(), "test\n");
}

#[test]
fn test_reset_boundary_idempotent() {
    let mut canvas = Canvas::new(30, 30);
    canvas.draw_rectangle_with_label(
        &Rectangle {
            left: 2,
            right: 12,
            top: 3,
            bottom: 8,
        },
        "box",
    );
    canvas.draw_arrowed_line(&(12, 4), &(12, 20));
    canvas.reset_boundary();
    let once = canvas.to_string();
    canvas.reset_boundary();
    let twice = canvas.to_string();
    assert_eq!(once, twice);
}

#[test]
fn test_empty_canvas_serializes_empty() {
    let canvas = Canvas::new(15, 7);
    assert_eq!(canvas.to_string(), "");
    let mut canvas2 = Canvas::new(15, 7);
    canvas2.reset_boundary();
    assert_eq!(canvas2.to_string(), "");
}

#[test]
fn test_reset_boundary_shrinks_to_content() {
    let mut canvas = Canvas::new(20, 20);
    canvas.draw_point(&(3, 4), 'x');
    // Writing a blank widens the lazily tracked region without drawing
    // anything; the recomputation must tighten it back to the content.
    canvas.draw_point(&(9, 9), ' ');
    canvas.reset_boundary();
    assert_eq!(canvas.to_string(), "x\n");
}
