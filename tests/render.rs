use townscape::cache::{canvas_index, depth_from_bits, Cache, Point, BLACK, CELLS, WHITE};
use townscape::renderer::{Renderer, BLUE, FRAME_BYTES, RED, YELLOW};
use townscape::towns::{TownsR, TOWNS};

/// Every source cell projected onto the pixel of the same coordinates, at
/// depth zero.
fn identity_points(ridge: bool) -> Vec<Point> {
    let mut pts = Vec::with_capacity(CELLS);
    for y in 0..1000 {
        for x in 0..1000 {
            pts.push(Point::projected(x, y, 0.0f32.to_bits(), ridge));
        }
    }
    pts
}

fn fixed_towns() -> TownsR {
    TownsR::place(&vec![(0, 0); TOWNS])
}

/// A hundred samples of a circle of radius 50, as the territory ring.
fn circle_ring() -> Vec<(i32, i32)> {
    let mut ring = Vec::new();
    for a in 0..100 {
        let a = (a as f32) * 2.0 * std::f32::consts::PI / 100.0;
        ring.push(((a.cos() * 50.0) as i32, (a.sin() * 50.0) as i32));
    }
    ring
}

fn identity_renderer() -> Renderer {
    Renderer::init(Cache::load(identity_points(false)), fixed_towns(), circle_ring())
}

fn pixel(r: &Renderer, x: usize, y: usize) -> [u8; 4] {
    let i = (x + y * 1000) * 4;
    [r.im_buff[i], r.im_buff[i + 1], r.im_buff[i + 2], r.im_buff[i + 3]]
}

fn painted(r: &Renderer) -> usize {
    (0..CELLS).filter(|p| r.im_buff[p * 4..p * 4 + 4] != [0, 0, 0, 0]).count()
}

#[test]
fn lookups_inside_return_stored_values() {
    let mut pts = identity_points(false);
    // Cell (2, 50) is visited before cell (7, 3), so the latter's depth stays.
    pts[7 + 3 * 1000] = Point::projected(2, 50, 2.5f32.to_bits(), true);
    let cache = Cache::load(pts);
    let p = cache.get_pixel(7, 3);
    assert_eq!((p.x, p.y, p.z, p.c), (2, 50, depth_from_bits(2.5f32.to_bits()), WHITE));
    for (x, y) in [(1, 1), (999, 999), (1, 999), (999, 1), (500, 3)] {
        let p = cache.get_pixel(x, y);
        assert_eq!((p.x, p.y, p.z, p.c), (x, y, 0, BLACK));
        assert_eq!(cache.get_z(x, y), 0);
    }
    assert_eq!(cache.get_z(2, 50), depth_from_bits(2.5f32.to_bits()));
}

#[test]
fn lookups_outside_return_sentinels() {
    let mut pts = identity_points(false);
    for p in pts.iter_mut() {
        p.z = 9;
    }
    let cache = Cache::load(pts);
    assert_eq!(cache.get_z(5, 5), 9);
    for (x, y) in [(0, 5), (5, 0), (-1, 5), (5, -1), (1000, 5), (5, 1000), (i32::MIN, i32::MAX)] {
        assert_eq!(cache.get_pixel(x, y), Point { x: -1, y: -1, z: 0, c: [0; 4] });
        assert_eq!(cache.get_z(x, y), 0);
    }
}

#[test]
fn same_points_give_same_cache() {
    let mut pts = identity_points(true);
    for (i, p) in pts.iter_mut().enumerate() {
        p.x = ((i * 7) % 1000) as i32;
        p.y = ((i * 13) % 1000) as i32;
        p.z = (i % 101) as i32 - 50;
    }
    let a = Cache::load(pts.clone());
    let b = Cache::load(pts);
    for y in -1..1001 {
        for x in -1..1001 {
            assert_eq!(a.get_pixel(x, y), b.get_pixel(x, y));
            assert_eq!(a.get_z(x, y), b.get_z(x, y));
        }
    }
}

#[test]
fn depth_keys_order_like_floats() {
    let zs = [-1.0e9f32, -3.5, -0.25, -1.0e-30, 0.0, 1.0e-30, 0.25, 3.5, 1.0e9];
    for a in zs {
        for b in zs {
            assert_eq!(
                depth_from_bits(a.to_bits()) >= depth_from_bits(b.to_bits()),
                a >= b
            );
        }
    }
    assert_eq!(depth_from_bits((-0.0f32).to_bits()), depth_from_bits(0.0f32.to_bits()));
    assert_eq!(depth_from_bits(0.0f32.to_bits()), 0);
    assert_eq!(depth_from_bits(1.0f32.to_bits()), 0x3f80_0000);
    assert_eq!(depth_from_bits((-1.0f32).to_bits()), -0x3f80_0000);
}

#[test]
fn visibility_follows_last_write_and_ties() {
    let mut pts = identity_points(false);
    for p in pts.iter_mut() {
        p.x = 0;
        p.y = 0;
    }
    // (10, 10) is visited before (20, 10): x is the outer loop.
    pts[10 + 10 * 1000] = Point::projected(300, 300, 5.0f32.to_bits(), false);
    pts[20 + 10 * 1000] = Point::projected(300, 300, 3.0f32.to_bits(), false);
    pts[30 + 10 * 1000] = Point::projected(400, 400, 7.0f32.to_bits(), false);
    pts[40 + 10 * 1000] = Point::projected(400, 400, 6.0f32.to_bits(), false);
    let cache = Cache::load(pts);
    assert_eq!(cache.get_z(300, 300), depth_from_bits(3.0f32.to_bits()));
    assert!(cache.is_visible(20, 10));
    assert!(cache.is_visible(10, 10));
    assert_eq!(cache.get_z(400, 400), depth_from_bits(6.0f32.to_bits()));
    assert!(cache.is_visible(30, 10));
    assert!(cache.is_visible(40, 10));

    let mut pts = identity_points(false);
    for p in pts.iter_mut() {
        p.x = 0;
        p.y = 0;
    }
    pts[10 + 10 * 1000] = Point::projected(300, 300, 2.0f32.to_bits(), false);
    pts[20 + 10 * 1000] = Point::projected(300, 300, 3.0f32.to_bits(), false);
    let cache = Cache::load(pts);
    assert!(!cache.is_visible(10, 10));
    assert!(cache.is_visible(20, 10));
    // Out of the canvas the sentinel meets the sentinel depth.
    assert!(cache.is_visible(0, 0));
}

#[test]
fn set_pixel_skips_the_border() {
    let mut r = identity_renderer();
    assert_eq!(r.im_buff.len(), FRAME_BYTES);
    r.set_pixel(0, 5, RED);
    r.set_pixel(5, 0, RED);
    r.set_pixel(1000, 5, RED);
    r.set_pixel(-3, 5, RED);
    assert_eq!(painted(&r), 0);
    r.set_pixel(999, 999, RED);
    r.set_pixel(1, 1, BLUE);
    assert_eq!(pixel(&r, 999, 999), RED);
    assert_eq!(pixel(&r, 1, 1), BLUE);
    assert_eq!(painted(&r), 2);
}

#[test]
fn stamp_of_side_zero_paints_nothing() {
    let mut r = identity_renderer();
    r.draw_circle(10, 10, 0, BLUE);
    r.draw_circle(10, 10, -4, BLUE);
    assert_eq!(painted(&r), 0);
}

#[test]
fn stamp_of_side_one_paints_one_cell() {
    let mut r = identity_renderer();
    r.draw_circle(10, 12, 1, BLUE);
    assert_eq!(painted(&r), 1);
    assert_eq!(pixel(&r, 10, 12), BLUE);
}

#[test]
fn stamp_is_a_square_from_its_corner() {
    let mut r = identity_renderer();
    r.draw_circle(10, 20, 3, RED);
    assert_eq!(painted(&r), 9);
    for x in 10..13 {
        for y in 20..23 {
            assert_eq!(pixel(&r, x, y), RED);
        }
    }
    let mut r = identity_renderer();
    r.draw_circle(-2, 997, 5, RED);
    assert_eq!(painted(&r), 6);
    assert_eq!(pixel(&r, 1, 998), RED);
}

#[test]
fn line_between_identical_points_is_one_stamp() {
    let mut a = identity_renderer();
    a.draw_line(20, 30, 20, 30, RED);
    let mut b = identity_renderer();
    b.draw_circle(20, 30, 7, RED);
    assert_eq!(painted(&a), 49);
    assert!(a.im_buff == b.im_buff);
    let mut c = identity_renderer();
    c.draw_line(998, 998, 998, 998, RED);
    c.draw_line(i32::MAX, i32::MIN, i32::MAX, i32::MIN, RED);
    assert_eq!(painted(&c), 4);
}

#[test]
fn line_samples_a_hundred_stamps() {
    let mut r = identity_renderer();
    r.draw_line(100, 100, 300, 100, BLUE);
    assert_eq!(pixel(&r, 100, 100), BLUE);
    assert_eq!(pixel(&r, 304, 106), BLUE);
    assert_eq!(pixel(&r, 305, 100), [0; 4]);
    assert_eq!(pixel(&r, 99, 100), [0; 4]);
    assert_eq!(pixel(&r, 200, 107), [0; 4]);
    assert_eq!(painted(&r), 205 * 7);

    let mut r = identity_renderer();
    r.draw_line(300, 100, 100, 100, BLUE);
    assert_eq!(pixel(&r, 102, 100), BLUE);
    assert_eq!(pixel(&r, 101, 100), [0; 4]);
    assert_eq!(pixel(&r, 306, 100), BLUE);

    // Offsets round toward zero: 1/100 of -50 is 0, not -1.
    let mut r = identity_renderer();
    r.draw_line(500, 500, 450, 500, BLUE);
    assert_eq!(pixel(&r, 450, 500), [0; 4]);
    assert_eq!(pixel(&r, 451, 500), BLUE);
}

#[test]
fn single_town_hull_simplifies_its_ring() {
    let r = identity_renderer();
    let hull = r.territory_hull(&vec![5]);
    assert!(hull.len() >= 4);
    assert_eq!(hull[0], hull[hull.len() - 1]);
    let vertices = hull.len() - 1;
    assert!(vertices < 100);
    let mut twice_area: i64 = 0;
    for i in 1..hull.len() {
        let (ax, ay) = hull[i - 1];
        let (bx, by) = hull[i];
        twice_area += ax as i64 * by as i64 - bx as i64 * ay as i64;
    }
    assert!(twice_area > 0);
    for &(x, y) in &hull {
        assert!((250..=350).contains(&x) && (250..=350).contains(&y));
    }
}

#[test]
fn empty_territory_has_empty_hull() {
    let r = identity_renderer();
    assert!(r.territory_hull(&vec![]).is_empty());
}

#[test]
fn zero_height_terrain_renders_ridge_color() {
    let ridge = (-0.0f32 % 0.15) < 0.015;
    assert!(ridge);
    let mut r = Renderer::init(Cache::load(identity_points(ridge)), fixed_towns(), circle_ring());
    r.render(vec![], 0, vec![], 15);
    for y in 1..1000 {
        for x in 1..1000 {
            assert_eq!(pixel(&r, x, y), WHITE);
        }
    }
    assert_eq!(pixel(&r, 0, 7), [0; 4]);
    assert_eq!(pixel(&r, 7, 0), [0; 4]);
}

#[test]
fn lone_capital_draws_outline_and_no_real_connector() {
    let mut r = identity_renderer();
    r.draw_town(vec![5], 5, BLUE);
    let t = r.towns.get_town(5);
    assert_eq!((t.x, t.y), (300, 300));
    let mut yellow = 0;
    let mut blue = 0;
    for y in 0..1000 {
        for x in 0..1000 {
            let c = pixel(&r, x, y);
            if c == YELLOW {
                yellow += 1;
                assert!((300..307).contains(&x) && (300..307).contains(&y));
            } else if c == BLUE {
                blue += 1;
            }
        }
    }
    assert_eq!(yellow, 49);
    assert!(blue > 0);
}

#[test]
fn render_draws_both_territories() {
    let mut r = identity_renderer();
    r.render(vec![0, 1], 0, vec![15], 15);
    let mut reds = 0;
    let mut blues = 0;
    for p in 0..CELLS {
        let c = &r.im_buff[p * 4..p * 4 + 4];
        if c == RED {
            reds += 1;
        } else if c == BLUE {
            blues += 1;
        }
    }
    assert!(reds > 0 && blues > 0);
    // The connector from town 1 to the capital, town 0, runs along y = 50.
    assert_eq!(pixel(&r, 150, 50), YELLOW);
    // Unpainted cells show the terrain color.
    assert_eq!(pixel(&r, 600, 600), BLACK);
}

#[test]
fn towns_sit_in_their_cells() {
    let towns = TownsR::gen();
    for i in 0..TOWNS {
        let t = towns.get_town(i);
        let (cx, cy) = (((i % 4) * 250) as i32, ((i / 4) * 250) as i32);
        assert!(t.x >= cx + 50 && t.x < cx + 200);
        assert!(t.y >= cy + 50 && t.y < cy + 200);
    }
}

#[test]
fn placed_towns_use_their_offsets() {
    let mut offsets = vec![(0, 0); TOWNS];
    offsets[6] = (149, 7);
    let towns = TownsR::place(&offsets);
    assert_eq!((towns.get_town(0).x, towns.get_town(0).y), (50, 50));
    assert_eq!((towns.get_town(6).x, towns.get_town(6).y), (500 + 149 + 50, 250 + 7 + 50));
    assert_eq!((towns.get_town(15).x, towns.get_town(15).y), (800, 800));
}

#[test]
fn canvas_index_is_row_major_inside_only() {
    assert_eq!(canvas_index(5, 5), Some(5005));
    assert_eq!(canvas_index(1, 1), Some(1001));
    assert_eq!(canvas_index(999, 999), Some(999_999));
    assert_eq!(canvas_index(0, 5), None);
    assert_eq!(canvas_index(5, 0), None);
    assert_eq!(canvas_index(1000, 5), None);
    assert_eq!(canvas_index(-1, 5), None);
}
