use softraster::color::Color;
use softraster::fixed::{HALF, ONE};
use softraster::framebuffer::{Framebuffer, FAR};
use softraster::geometry::{Fixed3, Fragment, Vertex};
use softraster::pipeline::{composite, rasterize_mesh};
use softraster::raster::triangle;

fn screen_vertex(x: i64, y: i64, depth: i64) -> Vertex {
    let mut v = Vertex::new(Fixed3::new(0, 0, 0), Fixed3::new(0, 0, ONE));
    v.transformed_position = Fixed3::new(x, y, depth);
    v
}

fn shade(fragments: &mut Vec<Fragment>, color: Color) {
    for f in fragments.iter_mut() {
        f.color = color;
    }
}

#[test]
fn vertex_new_copies_source_fields() {
    let v = Vertex::new(Fixed3::new(1, 2, 3), Fixed3::new(4, 5, 6));
    assert_eq!(v.transformed_position, Fixed3::new(1, 2, 3));
    assert_eq!(v.transformed_normal, Fixed3::new(4, 5, 6));
    assert_eq!(v.color, Color::new(0, 0, 0));
}

#[test]
fn small_triangle_covers_ten_pixels() {
    let a = screen_vertex(0, 0, ONE);
    let b = screen_vertex(4 * ONE, 0, ONE);
    let c = screen_vertex(0, 4 * ONE, ONE);
    let mut frags = triangle(&a, &b, &c);
    assert_eq!(frags.len(), 10);
    for f in &frags {
        assert!(f.x >= 0 && f.y >= 0 && f.x + f.y <= 3);
        assert_eq!(f.depth, ONE);
    }
    let mut fb = Framebuffer::new(10, 10);
    fb.clear(0x000000);
    shade(&mut frags, Color::new(0xFF, 0x80, 0x00));
    composite(&mut fb, &frags);
    for y in 0..10usize {
        for x in 0..10usize {
            let i = y * 10 + x;
            if x + y <= 3 {
                assert_eq!(fb.buffer[i], 0xFF8000);
                assert_eq!(fb.zbuffer[i], ONE);
            } else {
                assert_eq!(fb.buffer[i], 0x000000);
                assert_eq!(fb.zbuffer[i], FAR);
            }
        }
    }
}

#[test]
fn fragments_come_in_row_major_order() {
    let a = screen_vertex(0, 0, 0);
    let b = screen_vertex(4 * ONE, 0, 0);
    let c = screen_vertex(0, 4 * ONE, 0);
    let frags = triangle(&a, &b, &c);
    let order: Vec<(i32, i32)> = frags.iter().map(|f| (f.x, f.y)).collect();
    assert_eq!(
        order,
        vec![(0, 0), (1, 0), (2, 0), (3, 0), (0, 1), (1, 1), (2, 1), (0, 2), (1, 2), (0, 3)]
    );
}

#[test]
fn winding_does_not_matter() {
    let a = screen_vertex(0, 0, 0);
    let b = screen_vertex(4 * ONE, 0, 0);
    let c = screen_vertex(0, 4 * ONE, 0);
    assert_eq!(triangle(&a, &b, &c).len(), 10);
    assert_eq!(triangle(&a, &c, &b).len(), 10);
}

#[test]
fn degenerate_triangles_yield_nothing() {
    let p = screen_vertex(3 * ONE, 3 * ONE, ONE);
    assert!(triangle(&p, &p, &p).is_empty());
    let a = screen_vertex(0, 0, ONE);
    let b = screen_vertex(2 * ONE, 2 * ONE, ONE);
    let c = screen_vertex(5 * ONE, 5 * ONE, ONE);
    assert!(triangle(&a, &b, &c).is_empty());
    assert!(triangle(&a, &a, &c).is_empty());
}

#[test]
fn depth_is_exact_at_vertex_pixel_centers() {
    let a = screen_vertex(HALF, HALF, 7 * ONE);
    let b = screen_vertex(8 * ONE + HALF, HALF, -3 * ONE);
    let c = screen_vertex(HALF, 6 * ONE + HALF, 11);
    let frags = triangle(&a, &b, &c);
    let at = |x: i32, y: i32| frags.iter().find(|f| f.x == x && f.y == y).map(|f| f.depth);
    assert_eq!(at(0, 0), Some(7 * ONE));
    assert_eq!(at(8, 0), Some(-3 * ONE));
    assert_eq!(at(0, 6), Some(11));
}

#[test]
fn attributes_are_interpolated() {
    let mut a = screen_vertex(HALF, HALF, 0);
    let mut b = screen_vertex(4 * ONE + HALF, HALF, 4 * ONE);
    let mut c = screen_vertex(HALF, 4 * ONE + HALF, 0);
    a.position = Fixed3::new(0, 0, 0);
    b.position = Fixed3::new(ONE, 0, 0);
    c.position = Fixed3::new(0, ONE, 0);
    a.transformed_normal = Fixed3::new(0, 0, ONE);
    b.transformed_normal = Fixed3::new(ONE, 0, 0);
    c.transformed_normal = Fixed3::new(0, ONE, 0);
    let frags = triangle(&a, &b, &c);
    let f = frags.iter().find(|f| f.x == 2 && f.y == 1).unwrap();
    // weights at (2.5, 1.5): a 1/4, b 1/2, c 1/4
    assert_eq!(f.depth, 2 * ONE);
    assert_eq!(f.vertex_position, Fixed3::new(ONE / 2, ONE / 4, 0));
    // the interpolated normal (1/2, 1/4, 1/4) scaled to unit length
    assert_eq!(f.normal, Fixed3::new(53510, 26755, 26755));
    assert_eq!(f.intensity, 26755);
    assert_eq!(f.color, Color::new(0, 0, 0));
}

#[test]
fn nearer_triangle_wins_in_either_draw_order() {
    let far = [screen_vertex(0, 0, 5), screen_vertex(6 * ONE, 0, 5), screen_vertex(0, 6 * ONE, 5)];
    let near = [screen_vertex(0, 0, 2), screen_vertex(5 * ONE, 0, 2), screen_vertex(0, 5 * ONE, 2)];
    let red = Color::new(255, 0, 0);
    let green = Color::new(0, 255, 0);
    let draw = |tri: &[Vertex; 3], color: Color, fb: &mut Framebuffer| {
        let mut frags = triangle(&tri[0], &tri[1], &tri[2]);
        shade(&mut frags, color);
        composite(fb, &frags);
    };
    let mut first = Framebuffer::new(8, 8);
    draw(&far, red, &mut first);
    draw(&near, green, &mut first);
    let mut second = Framebuffer::new(8, 8);
    draw(&near, green, &mut second);
    draw(&far, red, &mut second);
    assert_eq!(first.buffer[8 + 1], 0x00FF00);
    assert_eq!(second.buffer[8 + 1], 0x00FF00);
    assert_eq!(first.zbuffer[9], 2);
    assert_eq!(first.buffer, second.buffer);
    assert_eq!(first.zbuffer, second.zbuffer);
}

#[test]
fn mesh_ignores_trailing_vertices() {
    let tri = [screen_vertex(0, 0, 1), screen_vertex(4 * ONE, 0, 1), screen_vertex(0, 4 * ONE, 1)];
    let mut mesh: Vec<Vertex> = tri.to_vec();
    assert_eq!(rasterize_mesh(&mesh).len(), 10);
    mesh.push(screen_vertex(9 * ONE, 9 * ONE, 1));
    mesh.push(screen_vertex(0, 9 * ONE, 1));
    assert_eq!(rasterize_mesh(&mesh).len(), 10);
    mesh.push(screen_vertex(9 * ONE, 0, 1));
    assert!(rasterize_mesh(&mesh).len() > 10);
    assert!(rasterize_mesh(&Vec::new()).is_empty());
}

#[test]
fn normals_are_unit_length_and_intensity_floors_at_zero() {
    let mut a = screen_vertex(0, 0, 0);
    let mut b = screen_vertex(4 * ONE, 0, 0);
    let mut c = screen_vertex(0, 4 * ONE, 0);
    for v in [&mut a, &mut b, &mut c] {
        v.transformed_normal = Fixed3::new(0, 0, -3 * ONE);
    }
    let frags = triangle(&a, &b, &c);
    assert!(!frags.is_empty());
    for f in &frags {
        assert_eq!(f.normal, Fixed3::new(0, 0, -ONE));
        assert_eq!(f.intensity, 0);
    }
    for v in [&mut a, &mut b, &mut c] {
        v.transformed_normal = Fixed3::new(0, 0, 0);
    }
    for f in &triangle(&a, &b, &c) {
        assert_eq!(f.normal, Fixed3::new(0, 0, 0));
        assert_eq!(f.intensity, 0);
    }
}

#[test]
fn normalize_scales_to_unit_length() {
    assert_eq!(Fixed3::new(3 * ONE, 0, 4 * ONE).normalize(), Fixed3::new(39321, 0, 52428));
    assert_eq!(Fixed3::new(0, -7, 0).normalize(), Fixed3::new(0, -ONE, 0));
    assert_eq!(Fixed3::new(0, 0, 0).normalize(), Fixed3::new(0, 0, 0));
}

#[test]
fn sliver_below_the_area_threshold_yields_nothing() {
    // twice-area of 2^-32 square pixels, with a vertex on a pixel center
    let a = screen_vertex(HALF, HALF, 0);
    let b = screen_vertex(HALF + 1, HALF, 0);
    let c = screen_vertex(HALF, HALF + 1, 0);
    assert!(triangle(&a, &b, &c).is_empty());
    // twice-area of 4294 units (just under a millionth of a square pixel)
    let b = screen_vertex(HALF + 2, HALF, 0);
    let c = screen_vertex(HALF, HALF + 2147, 0);
    assert!(triangle(&a, &b, &c).is_empty());
    // twice-area of 4296 units: rasterized, the vertex pixel is covered
    let c = screen_vertex(HALF, HALF + 2148, 0);
    assert_eq!(triangle(&a, &b, &c).len(), 1);
}
