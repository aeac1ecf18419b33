use axmm_core::bits::ffs;
use axmm_core::graphic::{Graphic, RGBA};
use axmm_core::input::{pointer_step, InputEvent, Pointer, PointerAction, AXIS_X, AXIS_Y, EV_ABS, EV_KEY, EV_REL, EV_SYN};

fn screen(w: u32, h: u32) -> Graphic {
    Graphic::new(vec![0u8; (w * h * 4) as usize], w, h)
}

fn pixel(g: &Graphic, x: u32, y: u32) -> [u8; 4] {
    let o = ((y * g.width() + x) * 4) as usize;
    let b = g.frame_buffer();
    [b[o], b[o + 1], b[o + 2], b[o + 3]]
}

const BLUE_ISH: u32 = 0x80C0FF;
const BYTES: [u8; 4] = [0xFF, 0xC0, 0x80, 0xFF];

#[test]
fn rgba_from_color() {
    let c = RGBA::new(0x123456);
    assert_eq!(c, RGBA { red: 0x56, green: 0x34, blue: 0x12, alpha: 0xFF });
    assert_eq!(c.as_bytes(), [0x56, 0x34, 0x12, 0xFF]);
    assert_eq!(RGBA::new(BLUE_ISH).as_bytes(), BYTES);
}

#[test]
fn single_pixel_and_off_screen() {
    let mut g = screen(4, 3);
    g.fill_single_pixel(BLUE_ISH, (2, 1));
    assert_eq!(pixel(&g, 2, 1), BYTES);
    assert_eq!(pixel(&g, 1, 1), [0; 4]);
    g.fill_single_pixel(BLUE_ISH, (4, 0));
    g.fill_single_pixel(BLUE_ISH, (0, 3));
    let painted = g.frame_buffer().iter().filter(|b| **b != 0).count();
    assert_eq!(painted, 4);
}

#[test]
fn clear_screen_paints_every_pixel() {
    let mut g = Graphic::new(vec![7u8; 4 * 6 + 2], 3, 2);
    g.clear_screen(0xFFFFFF);
    assert!(g.frame_buffer()[..24].iter().all(|b| *b == 0xFF));
    assert_eq!(&g.frame_buffer()[24..], &[7, 7]);
}

#[test]
fn line_hits_both_ends_and_diagonal() {
    let mut g = screen(8, 8);
    g.draw_line(BLUE_ISH, (1, 1), (5, 5));
    for i in 1..=5 {
        assert_eq!(pixel(&g, i, i), BYTES);
    }
    assert_eq!(pixel(&g, 2, 1), [0; 4]);
    let mut h = screen(8, 8);
    h.draw_line(BLUE_ISH, (6, 2), (0, 5));
    assert_eq!(pixel(&h, 6, 2), BYTES);
    assert_eq!(pixel(&h, 0, 5), BYTES);
}

#[test]
fn rect_outline_and_block() {
    let mut g = screen(8, 8);
    g.draw_rect(BLUE_ISH, (1, 1), 4, 3);
    assert_eq!(pixel(&g, 1, 1), BYTES);
    assert_eq!(pixel(&g, 5, 4), BYTES);
    assert_eq!(pixel(&g, 3, 1), BYTES);
    assert_eq!(pixel(&g, 3, 2), [0; 4]);
    let mut b = screen(8, 8);
    b.draw_block(BLUE_ISH, (2, 3), 2, 3);
    for x in 0..8 {
        for y in 0..8 {
            let inside = (2..4).contains(&x) && (3..6).contains(&y);
            assert_eq!(pixel(&b, x, y) == BYTES, inside);
        }
    }
}

#[test]
fn circle_cardinal_points() {
    let mut g = screen(16, 16);
    g.draw_circle(BLUE_ISH, (8, 8), 5);
    assert_eq!(pixel(&g, 8, 13), BYTES);
    assert_eq!(pixel(&g, 8, 3), BYTES);
    assert_eq!(pixel(&g, 3, 8), BYTES);
    assert_eq!(pixel(&g, 13, 8), BYTES);
    assert_eq!(pixel(&g, 8, 8), [0; 4]);
    let mut edge = screen(16, 16);
    edge.draw_circle(BLUE_ISH, (0, 0), 3);
    assert_eq!(pixel(&edge, 0, 3), BYTES);
    assert_eq!(pixel(&edge, 3, 0), BYTES);
}

fn ev(event_type: u16, code: u16, value: u32) -> InputEvent {
    InputEvent { event_type, code, value }
}

#[test]
fn pointer_follows_events() {
    let p = Pointer { x: 0, y: 0, pressed: false };
    let (p, a) = pointer_step(p, ev(EV_ABS, AXIS_X, 32767), Some((768, 1024)));
    assert_eq!(a, PointerAction::Idle);
    let (p, _) = pointer_step(p, ev(EV_ABS, AXIS_Y, 16384), Some((768, 1024)));
    assert_eq!((p.x, p.y), (32767, 16384));
    let (p, a) = pointer_step(p, ev(EV_SYN, 0, 0), Some((768, 1024)));
    assert_eq!(a, PointerAction::Idle);
    let (p, _) = pointer_step(p, ev(EV_KEY, 0x110, 1), Some((768, 1024)));
    assert!(p.pressed);
    let (p, a) = pointer_step(p, ev(EV_SYN, 0, 0), Some((768, 1024)));
    assert_eq!(a, PointerAction::DrawTo { x: 1023, y: 384 });
    let (_, a) = pointer_step(p, ev(EV_SYN, 0, 0), None);
    assert_eq!(a, PointerAction::Moved { x: 32767, y: 16384 });
    let (p, _) = pointer_step(p, ev(EV_REL, AXIS_Y, 5), None);
    assert_eq!(p.y, 16389);
    let (p, _) = pointer_step(p, ev(EV_REL, AXIS_X, u32::MAX), None);
    assert_eq!(p.x, 32766);
    let (p, _) = pointer_step(p, ev(EV_KEY, 0x110, 0), None);
    assert!(!p.pressed);
}

#[test]
fn ffs_lowest_set_bit() {
    assert_eq!(ffs(0), 0);
    assert_eq!(ffs(1), 1);
    assert_eq!(ffs(8), 4);
    assert_eq!(ffs(12), 3);
    assert_eq!(ffs(-1), 1);
    assert_eq!(ffs(i32::MIN), 32);
}

#[test]
fn block_leaves_other_bytes() {
    let mut g = Graphic::new(vec![9u8; 4 * 4 * 4 + 3], 4, 4);
    g.draw_block(BLUE_ISH, (1, 1), 2, 2);
    for x in 0..4u32 {
        for y in 0..4u32 {
            let inside = (1..3).contains(&x) && (1..3).contains(&y);
            assert_eq!(pixel(&g, x, y) == BYTES, inside);
            if !inside {
                assert_eq!(pixel(&g, x, y), [9; 4]);
            }
        }
    }
    assert_eq!(&g.frame_buffer()[64..], &[9, 9, 9]);
}
