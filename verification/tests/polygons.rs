use laboratorio_1::canvas::Canvas;
use laboratorio_1::fill::fill_polygon;
use laboratorio_1::geometry::{intersect_x, next_vertex, Point};
use laboratorio_1::inside::point_in_polygon;
use laboratorio_1::line::rasterize;
use laboratorio_1::outline::draw_polygon_outline;

const WHITE: u32 = 0xFFFFFF;
const RED: u32 = 0xFF0000;
const BLUE: u32 = 0x0000FF;
const BLACK: u32 = 0x000000;

fn pt(x: i32, y: i32) -> Point {
    Point { x, y }
}

fn polygon(coords: &[(i32, i32)]) -> Vec<Point> {
    coords.iter().map(|&(x, y)| pt(x, y)).collect()
}

fn square() -> Vec<Point> {
    polygon(&[(0, 0), (0, 10), (10, 10), (10, 0)])
}

fn small_square() -> Vec<Point> {
    polygon(&[(4, 4), (4, 6), (6, 6), (6, 4)])
}

fn star() -> Vec<Point> {
    polygon(&[
        (165, 380), (185, 360), (180, 330), (207, 345), (233, 330),
        (230, 360), (250, 380), (220, 385), (205, 410), (193, 383),
    ])
}

/// The pixels of `canvas` that show `color`, row by row.
fn showing(canvas: &Canvas, color: u32) -> Vec<(i32, i32)> {
    let mut found = Vec::new();
    for y in 0..canvas.height() as i32 {
        for x in 0..canvas.width() as i32 {
            if canvas.get(pt(x, y)) == Some(color) {
                found.push((x, y));
            }
        }
    }
    found
}

/// Whether column `x` touches an edge of the polygon in row `y`.
fn touches_edge(poly: &[Point], x: i32, y: i32) -> bool {
    (0..poly.len()).any(|i| {
        let a = poly[i];
        let b = poly[next_vertex(poly.len(), i)];
        if (a.y > y) == (b.y > y) {
            return false;
        }
        let forward = intersect_x(a, b, y);
        let backward = intersect_x(b, a, y);
        !((x < forward && x < backward) || (x > forward && x >= backward))
    })
}

/// The pixels of the fill, found by applying the scanline rule to every row
/// of a `width` by `height` canvas with the division of the machine.
fn by_the_rule(poly: &[Point], width: i32, height: i32) -> Vec<(i32, i32)> {
    let mut found = Vec::new();
    if poly.len() < 3 {
        return found;
    }
    for y in 0..height as i64 {
        let mut cuts: Vec<i64> = Vec::new();
        for i in 0..poly.len() {
            let (a, b) = (poly[i], poly[(i + 1) % poly.len()]);
            let (ax, ay, bx, by) = (a.x as i64, a.y as i64, b.x as i64, b.y as i64);
            if (ay <= y && by > y) || (by <= y && ay > y) {
                cuts.push(ax + (y - ay) * (bx - ax) / (by - ay));
            }
        }
        cuts.sort();
        for x in 0..width as i64 {
            if cuts.chunks_exact(2).any(|pair| pair[0] <= x && x <= pair[1]) {
                found.push((x as i32, y as i32));
            }
        }
    }
    found
}

#[test]
fn fill_paints_what_the_rule_gives_row_by_row() {
    let polys = [
        star(),
        polygon(&[(321, 335), (288, 286), (339, 251), (374, 302)]),
        polygon(&[(377, 249), (411, 197), (436, 249)]),
        polygon(&[
            (413, 177), (448, 159), (502, 88), (553, 53), (535, 36), (676, 37), (660, 52),
            (750, 145), (761, 179), (672, 192), (659, 214), (615, 214), (632, 230), (580, 230),
            (597, 215), (552, 214), (517, 144), (466, 180),
        ]),
        polygon(&[(-40, -30), (500, 20), (900, 700), (300, 650), (-10, 400)]),
        polygon(&[(200, 200), (400, 380), (380, 210), (210, 390)]),
        polygon(&[(10, 10), (10, 10), (10, 10)]),
        polygon(&[(5, 5), (50, 5), (50, 5), (5, 5), (30, 40)]),
    ];
    for poly in polys {
        let mut canvas = Canvas::new(800, 600, WHITE).unwrap();
        fill_polygon(&mut canvas, &poly, RED, None);
        assert_eq!(showing(&canvas, RED), by_the_rule(&poly, 800, 600));
    }
}

#[test]
fn last_row_of_a_polygon_is_never_filled() {
    for poly in [square(), star(), polygon(&[(0, 0), (4, 0), (0, 4)])] {
        let last = poly.iter().map(|p| p.y).max().unwrap();
        let mut canvas = Canvas::new(300, 420, WHITE).unwrap();
        fill_polygon(&mut canvas, &poly, RED, None);
        assert!(!showing(&canvas, RED).is_empty());
        assert!(showing(&canvas, RED).iter().all(|c| c.1 < last));
    }
}

#[test]
fn square_is_filled_except_for_its_last_row() {
    let mut canvas = Canvas::new(16, 14, WHITE).unwrap();
    fill_polygon(&mut canvas, &square(), RED, None);
    for y in 0..14 {
        for x in 0..16 {
            let expected = if x <= 10 && y <= 9 { RED } else { WHITE };
            assert_eq!(canvas.get(pt(x, y)), Some(expected), "at ({x}, {y})");
        }
    }
}

#[test]
fn hole_is_left_unpainted() {
    let mut canvas = Canvas::new(16, 14, WHITE).unwrap();
    fill_polygon(&mut canvas, &square(), RED, Some(&small_square()));
    for y in 0..14 {
        for x in 0..16 {
            let in_block = x <= 10 && y <= 9;
            let in_hole = (4..=5).contains(&x) && (4..=5).contains(&y);
            let expected = if in_block && !in_hole { RED } else { WHITE };
            assert_eq!(canvas.get(pt(x, y)), Some(expected), "at ({x}, {y})");
        }
    }
}

#[test]
fn hole_removes_exactly_the_pixels_inside_it() {
    let outer = polygon(&[(2, 1), (30, 4), (26, 25), (12, 18), (3, 27)]);
    let hole = polygon(&[(10, 6), (20, 8), (17, 14), (9, 12)]);
    let mut plain = Canvas::new(34, 30, WHITE).unwrap();
    let mut holed = Canvas::new(34, 30, WHITE).unwrap();
    fill_polygon(&mut plain, &outer, RED, None);
    fill_polygon(&mut holed, &outer, RED, Some(&hole));
    let mut removed = 0;
    for y in 0..30 {
        for x in 0..34 {
            let p = pt(x, y);
            let expected = if plain.get(p) == Some(RED) && !point_in_polygon(p, &hole) {
                RED
            } else {
                WHITE
            };
            assert_eq!(holed.get(p), Some(expected), "at ({x}, {y})");
            if plain.get(p) != holed.get(p) {
                removed += 1;
            }
        }
    }
    assert!(removed > 0);
}

#[test]
fn triangle_rows_shrink_with_truncated_cuts() {
    let mut canvas = Canvas::new(6, 6, WHITE).unwrap();
    fill_polygon(&mut canvas, &polygon(&[(0, 0), (4, 0), (0, 4)]), RED, None);
    assert_eq!(
        showing(&canvas, RED),
        vec![
            (0, 0), (1, 0), (2, 0), (3, 0), (4, 0),
            (0, 1), (1, 1), (2, 1), (3, 1),
            (0, 2), (1, 2), (2, 2),
            (0, 3), (1, 3),
        ]
    );
}

#[test]
fn cut_is_rounded_toward_the_first_vertex_of_its_edge() {
    let mut canvas = Canvas::new(5, 4, WHITE).unwrap();
    fill_polygon(&mut canvas, &polygon(&[(0, 0), (3, 2), (0, 2)]), RED, None);
    assert_eq!(showing(&canvas, RED), vec![(0, 0), (0, 1), (1, 1)]);

    let mut canvas = Canvas::new(5, 4, WHITE).unwrap();
    fill_polygon(&mut canvas, &polygon(&[(3, 2), (0, 0), (3, 0)]), RED, None);
    assert_eq!(showing(&canvas, RED), vec![(0, 0), (1, 0), (2, 0), (3, 0), (2, 1), (3, 1)]);
}

#[test]
fn fill_is_clipped_to_the_canvas() {
    let mut canvas = Canvas::new(4, 4, WHITE).unwrap();
    fill_polygon(&mut canvas, &polygon(&[(-5, -5), (-5, 2), (2, 2), (2, -5)]), RED, None);
    assert_eq!(showing(&canvas, RED), vec![(0, 0), (1, 0), (2, 0), (0, 1), (1, 1), (2, 1)]);
    fill_polygon(&mut canvas, &polygon(&[(10, 10), (10, 20), (20, 20), (20, 10)]), BLUE, None);
    assert!(showing(&canvas, BLUE).is_empty());
}

#[test]
fn concave_polygon_has_two_spans_in_a_row() {
    let mut canvas = Canvas::new(12, 8, WHITE).unwrap();
    let comb = polygon(&[(0, 0), (0, 6), (3, 6), (3, 2), (6, 2), (6, 6), (9, 6), (9, 0)]);
    fill_polygon(&mut canvas, &comb, RED, None);
    let row: Vec<i32> = showing(&canvas, RED).into_iter().filter(|c| c.1 == 4).map(|c| c.0).collect();
    assert_eq!(row, vec![0, 1, 2, 3, 6, 7, 8, 9]);
    let row: Vec<i32> = showing(&canvas, RED).into_iter().filter(|c| c.1 == 1).map(|c| c.0).collect();
    assert_eq!(row, vec![0, 1, 2, 3, 4, 5, 6, 7, 8, 9]);
}

#[test]
fn fill_agrees_with_the_ray_test_away_from_the_edges() {
    let polys = [
        star(),
        polygon(&[(321, 335), (288, 286), (339, 251), (374, 302)]),
        polygon(&[(377, 249), (411, 197), (436, 249)]),
        polygon(&[(200, 200), (400, 380), (380, 210), (210, 390)]),
    ];
    for poly in polys {
        let mut canvas = Canvas::new(450, 420, WHITE).unwrap();
        fill_polygon(&mut canvas, &poly, RED, None);
        let mut compared = 0;
        let mut inside = 0;
        for y in 0..420 {
            for x in 0..450 {
                if touches_edge(&poly, x, y) {
                    continue;
                }
                let painted = canvas.get(pt(x, y)) == Some(RED);
                assert_eq!(painted, point_in_polygon(pt(x, y), &poly), "at ({x}, {y})");
                compared += 1;
                if painted {
                    inside += 1;
                }
            }
        }
        assert!(compared > 180_000 && inside > 100);
    }
}

#[test]
fn fill_and_ray_test_may_differ_on_an_edge() {
    let mut canvas = Canvas::new(16, 14, WHITE).unwrap();
    fill_polygon(&mut canvas, &square(), RED, None);
    assert_eq!(canvas.get(pt(10, 5)), Some(RED));
    assert!(!point_in_polygon(pt(10, 5), &square()));
}

#[test]
fn point_in_square() {
    let sq = square();
    assert!(point_in_polygon(pt(5, 5), &sq));
    assert!(point_in_polygon(pt(0, 0), &sq));
    assert!(point_in_polygon(pt(9, 9), &sq));
    assert!(!point_in_polygon(pt(10, 5), &sq));
    assert!(!point_in_polygon(pt(5, 10), &sq));
    assert!(!point_in_polygon(pt(-1, 5), &sq));
    assert!(!point_in_polygon(pt(5, -1), &sq));
    assert!(!point_in_polygon(pt(11, 11), &sq));
}

#[test]
fn point_in_concave_polygon() {
    let comb = polygon(&[(0, 0), (0, 6), (3, 6), (3, 2), (6, 2), (6, 6), (9, 6), (9, 0)]);
    assert!(point_in_polygon(pt(1, 4), &comb));
    assert!(!point_in_polygon(pt(4, 4), &comb));
    assert!(point_in_polygon(pt(7, 4), &comb));
    assert!(point_in_polygon(pt(4, 1), &comb));
}

#[test]
fn ray_test_rounds_the_cut_toward_the_later_vertex() {
    let tri = polygon(&[(0, 0), (3, 2), (0, 2)]);
    assert!(point_in_polygon(pt(0, 1), &tri));
    assert!(point_in_polygon(pt(1, 1), &tri));
    assert!(!point_in_polygon(pt(2, 1), &tri));
    assert!(!point_in_polygon(pt(0, 0), &tri));
}

#[test]
fn fewer_than_three_vertices_enclose_nothing() {
    let polys = [polygon(&[]), polygon(&[(1, 1)]), polygon(&[(0, 0), (3, 2)]), polygon(&[(3, 2), (0, 0)])];
    for poly in polys {
        for y in -2..5 {
            for x in -2..5 {
                assert!(!point_in_polygon(pt(x, y), &poly));
            }
        }
    }
}

#[test]
fn fewer_than_three_vertices_fill_nothing() {
    let polys = [polygon(&[]), polygon(&[(1, 1)]), polygon(&[(0, 0), (3, 5)])];
    for poly in polys {
        let mut canvas = Canvas::new(6, 6, WHITE).unwrap();
        fill_polygon(&mut canvas, &poly, RED, None);
        fill_polygon(&mut canvas, &poly, RED, Some(&square()));
        assert!(showing(&canvas, RED).is_empty());
    }
}

#[test]
fn hole_of_fewer_than_three_vertices_removes_nothing() {
    let mut plain = Canvas::new(16, 14, WHITE).unwrap();
    let mut holed = Canvas::new(16, 14, WHITE).unwrap();
    fill_polygon(&mut plain, &square(), RED, None);
    fill_polygon(&mut holed, &square(), RED, Some(&polygon(&[(4, 4), (6, 6)])));
    assert_eq!(plain.pixels(), holed.pixels());
}

#[test]
fn fewer_than_two_vertices_have_no_outline() {
    let mut canvas = Canvas::new(6, 6, WHITE).unwrap();
    draw_polygon_outline(&mut canvas, &polygon(&[]), BLACK);
    draw_polygon_outline(&mut canvas, &polygon(&[(2, 2)]), BLACK);
    assert!(showing(&canvas, BLACK).is_empty());
}

#[test]
fn outline_of_two_vertices_is_the_line_both_ways() {
    let mut canvas = Canvas::new(6, 6, WHITE).unwrap();
    draw_polygon_outline(&mut canvas, &polygon(&[(0, 0), (2, 1)]), BLACK);
    assert_eq!(showing(&canvas, BLACK), vec![(0, 0), (1, 0), (1, 1), (2, 1)]);
}

#[test]
fn outline_draws_every_edge_and_closes_the_polygon() {
    let mut canvas = Canvas::new(8, 8, WHITE).unwrap();
    draw_polygon_outline(&mut canvas, &polygon(&[(1, 1), (6, 1), (6, 5), (1, 5)]), BLACK);
    let mut expected = Vec::new();
    for y in 1..=5 {
        for x in 1..=6 {
            if x == 1 || x == 6 || y == 1 || y == 5 {
                expected.push((x, y));
            }
        }
    }
    assert_eq!(showing(&canvas, BLACK), expected);
    assert_eq!(showing(&canvas, WHITE).len(), 64 - expected.len());
}

#[test]
fn outline_is_made_of_the_lines_between_the_vertices() {
    let poly = star();
    let mut canvas = Canvas::new(300, 420, WHITE).unwrap();
    draw_polygon_outline(&mut canvas, &poly, BLACK);
    let mut expected: Vec<(i32, i32)> = Vec::new();
    for i in 0..poly.len() {
        for p in rasterize(poly[i], poly[(i + 1) % poly.len()]) {
            expected.push((p.x, p.y));
        }
    }
    expected.sort_by_key(|&(x, y)| (y, x));
    expected.dedup();
    assert_eq!(showing(&canvas, BLACK), expected);
}

#[test]
fn outline_drawn_last_shows_on_the_whole_boundary() {
    let poly = star();
    let mut canvas = Canvas::new(300, 420, WHITE).unwrap();
    fill_polygon(&mut canvas, &poly, RED, None);
    draw_polygon_outline(&mut canvas, &poly, BLACK);
    for i in 0..poly.len() {
        for p in rasterize(poly[i], poly[(i + 1) % poly.len()]) {
            assert_eq!(canvas.get(p), Some(BLACK));
        }
    }
    assert!(!showing(&canvas, RED).is_empty());
}

#[test]
fn fill_drawn_last_covers_part_of_the_boundary() {
    let poly = star();
    let mut filled = Canvas::new(300, 420, WHITE).unwrap();
    fill_polygon(&mut filled, &poly, RED, None);
    let mut canvas = Canvas::new(300, 420, WHITE).unwrap();
    draw_polygon_outline(&mut canvas, &poly, BLACK);
    fill_polygon(&mut canvas, &poly, RED, None);
    let mut covered = 0;
    let mut left = 0;
    for i in 0..poly.len() {
        for p in rasterize(poly[i], poly[(i + 1) % poly.len()]) {
            if filled.get(p) == Some(RED) {
                assert_eq!(canvas.get(p), Some(RED));
                covered += 1;
            } else {
                assert_eq!(canvas.get(p), Some(BLACK));
                left += 1;
            }
        }
    }
    assert!(covered > 0 && left > 0);
}

#[test]
fn second_fill_paints_over_the_first() {
    let mut canvas = Canvas::new(16, 14, WHITE).unwrap();
    fill_polygon(&mut canvas, &square(), RED, None);
    fill_polygon(&mut canvas, &small_square(), BLUE, None);
    assert_eq!(showing(&canvas, BLUE), vec![(4, 4), (5, 4), (6, 4), (4, 5), (5, 5), (6, 5)]);
    assert_eq!(showing(&canvas, RED).len(), 11 * 10 - 6);
}

#[test]
fn polygon_at_the_end_of_the_coordinate_range_is_walked_without_overflow() {
    let mut canvas = Canvas::new(3, 3, WHITE).unwrap();
    let far = polygon(&[
        (i32::MAX - 4, i32::MAX - 3),
        (i32::MAX, i32::MAX - 3),
        (i32::MAX, i32::MAX),
        (i32::MAX - 4, i32::MAX),
    ]);
    fill_polygon(&mut canvas, &far, RED, None);
    draw_polygon_outline(&mut canvas, &far, RED);
    assert!(showing(&canvas, RED).is_empty());
    let near = polygon(&[(i32::MIN, i32::MIN), (i32::MIN + 2, i32::MIN), (i32::MIN + 1, i32::MIN + 2)]);
    fill_polygon(&mut canvas, &near, RED, Some(&far));
    assert!(showing(&canvas, RED).is_empty());
}
