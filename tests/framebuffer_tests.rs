use softraster::color::Color;
use softraster::fixed::ONE;
use softraster::framebuffer::{Framebuffer, FAR};
use softraster::geometry::{Fixed3, Fragment};
use softraster::pipeline::composite;

#[test]
fn new_framebuffer_is_black_and_far() {
    let fb = Framebuffer::new(3, 2);
    assert_eq!(fb.buffer.len(), 6);
    assert_eq!(fb.zbuffer.len(), 6);
    assert!(fb.buffer.iter().all(|&c| c == 0));
    assert!(fb.zbuffer.iter().all(|&z| z == FAR));
    assert_eq!(fb.current_color, 0xFFFFFF);
}

#[test]
fn clear_without_draws_leaves_clear_color_and_far_depth() {
    let mut fb = Framebuffer::new(4, 4);
    fb.set_current_color(0x123456);
    fb.point(1, 1, 10);
    fb.point(2, 3, -5);
    fb.clear(0x0000FF);
    assert!(fb.buffer.iter().all(|&c| c == 0x0000FF));
    assert!(fb.zbuffer.iter().all(|&z| z == FAR));
}

#[test]
fn point_writes_only_nearer_depths() {
    let mut fb = Framebuffer::new(4, 4);
    fb.set_current_color(0xAA0000);
    fb.point(1, 2, 100);
    assert_eq!(fb.buffer[2 * 4 + 1], 0xAA0000);
    assert_eq!(fb.zbuffer[2 * 4 + 1], 100);
    fb.set_current_color(0x00BB00);
    fb.point(1, 2, 100);
    assert_eq!(fb.buffer[9], 0xAA0000);
    fb.point(1, 2, 150);
    assert_eq!(fb.buffer[9], 0xAA0000);
    assert_eq!(fb.zbuffer[9], 100);
    fb.point(1, 2, 40);
    assert_eq!(fb.buffer[9], 0x00BB00);
    assert_eq!(fb.zbuffer[9], 40);
}

#[test]
fn point_off_screen_is_a_no_op() {
    let mut fb = Framebuffer::new(4, 3);
    fb.set_current_color(0xFFFFFF);
    fb.point(-1, 0, 1);
    fb.point(0, -1, 1);
    fb.point(4, 0, 1);
    fb.point(0, 3, 1);
    assert!(fb.buffer.iter().all(|&c| c == 0));
    assert!(fb.zbuffer.iter().all(|&z| z == FAR));
}

#[test]
fn point_at_far_depth_never_lands() {
    let mut fb = Framebuffer::new(2, 2);
    fb.point(0, 0, FAR);
    assert_eq!(fb.buffer[0], 0);
}

#[test]
fn depth_never_increases_over_any_sequence_of_writes() {
    let mut fb = Framebuffer::new(2, 2);
    let depths = [50i64, 70, 20, 20, 90, -3, 0];
    let mut last = FAR;
    for (k, d) in depths.iter().enumerate() {
        fb.set_current_color(k as u32);
        fb.point(1, 1, *d);
        assert!(fb.zbuffer[3] <= last);
        last = fb.zbuffer[3];
    }
    assert_eq!(fb.zbuffer[3], -3);
    assert_eq!(fb.buffer[3], 5);
}

fn frag(x: i32, y: i32, depth: i64, color: Color) -> Fragment {
    let mut f = Fragment::new(x, y, depth, Fixed3::new(0, 0, ONE), ONE, Fixed3::new(0, 0, 0));
    f.color = color;
    f
}

#[test]
fn composite_keeps_nearest_in_either_order() {
    let far = frag(2, 2, 5, Color::new(255, 0, 0));
    let near = frag(2, 2, 2, Color::new(0, 0, 255));
    let mut a = Framebuffer::new(5, 5);
    composite(&mut a, &vec![far, near]);
    let mut b = Framebuffer::new(5, 5);
    composite(&mut b, &vec![near, far]);
    assert_eq!(a.buffer[12], 0x0000FF);
    assert_eq!(b.buffer[12], 0x0000FF);
    assert_eq!(a.zbuffer[12], 2);
    assert_eq!(b.zbuffer[12], 2);
    assert_eq!(a.buffer, b.buffer);
    assert_eq!(a.zbuffer, b.zbuffer);
}

#[test]
fn composite_skips_fragments_outside_the_buffer() {
    let mut fb = Framebuffer::new(2, 2);
    composite(&mut fb, &vec![frag(-1, 0, 1, Color::new(1, 2, 3)), frag(0, 2, 1, Color::new(1, 2, 3))]);
    assert!(fb.buffer.iter().all(|&c| c == 0));
    assert_eq!(fb.current_color, 0xFFFFFF);
}

#[test]
fn many_writes_keep_least_depth_and_first_color_on_ties() {
    let mut fb = Framebuffer::new(3, 3);
    fb.clear(0x111111);
    let writes = [(9i64, 0xA), (4, 0xB), (7, 0xC), (4, 0xD), (6, 0xE)];
    for (d, c) in writes {
        fb.set_current_color(c);
        fb.point(2, 1, d);
        fb.set_current_color(0xFF);
        fb.point(0, 0, d);
    }
    assert_eq!(fb.zbuffer[5], 4);
    assert_eq!(fb.buffer[5], 0xB);
    assert_eq!(fb.zbuffer[0], 4);
    assert_eq!(fb.buffer[0], 0xFF);
    assert!(fb.buffer.iter().enumerate().all(|(i, &c)| i == 0 || i == 5 || c == 0x111111));
}

#[test]
fn composite_result_is_independent_of_order() {
    let frags = vec![
        frag(1, 1, 30, Color::new(1, 0, 0)),
        frag(1, 1, 10, Color::new(2, 0, 0)),
        frag(0, 2, 5, Color::new(3, 0, 0)),
        frag(1, 1, 20, Color::new(4, 0, 0)),
        frag(0, 2, 50, Color::new(5, 0, 0)),
        frag(2, 0, 7, Color::new(6, 0, 0)),
    ];
    let mut reference = Framebuffer::new(3, 3);
    composite(&mut reference, &frags);
    assert_eq!(reference.buffer[4], 0x020000);
    assert_eq!(reference.buffer[6], 0x030000);
    let orders: [[usize; 6]; 3] = [[5, 4, 3, 2, 1, 0], [2, 0, 4, 1, 5, 3], [3, 1, 0, 5, 2, 4]];
    for order in orders {
        let shuffled: Vec<Fragment> = order.iter().map(|&k| frags[k]).collect();
        let mut fb = Framebuffer::new(3, 3);
        composite(&mut fb, &shuffled);
        assert_eq!(fb.buffer, reference.buffer);
        assert_eq!(fb.zbuffer, reference.zbuffer);
    }
}
