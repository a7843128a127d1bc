use cgmath::Vector4;
use graphics::math::{
    clip, clip_against, clip_in_box, clip_triangle, convex_triangulation, Point2, RectBounds,
    Triangle, FRUSTUM_PLANES,
};

/// The signed distance of a point from one of the planes of the view
/// volume: `w + x`, `w - x`, `w + y`, `w - y`, `w + z`, `w - z`.
fn distance(plane: usize, p: Vector4<f32>) -> f32 {
    match plane {
        0 => p.w + p.x,
        1 => p.w - p.x,
        2 => p.w + p.y,
        3 => p.w - p.y,
        4 => p.w + p.z,
        _ => p.w - p.z,
    }
}

fn inside(plane: usize, p: Vector4<f32>) -> bool {
    distance(plane, p) >= 0.0
}

fn cross(plane: usize, a: Vector4<f32>, b: Vector4<f32>) -> Vector4<f32> {
    let da = distance(plane, a);
    let db = distance(plane, b);
    let t = da / (da - db);
    a * (1.0 - t) + b * t
}

fn v4(x: f32, y: f32, z: f32, w: f32) -> Vector4<f32> {
    Vector4 { x, y, z, w }
}

#[test]
fn test_bounds_of() {
    assert_eq!(
        RectBounds::<u32>::bounds_of(&vec![Point2 { x: 0, y: 0 }]),
        Some(RectBounds { left: 0, right: 0, top: 0, bottom: 0 })
    );
    assert_eq!(
        RectBounds::<u32>::bounds_of(&vec![Point2 { x: 0, y: 0 }, Point2 { x: 1, y: 1 }]),
        Some(RectBounds { left: 0, right: 1, top: 1, bottom: 0 })
    );
    assert_eq!(
        RectBounds::<u32>::bounds_of(&vec![
            Point2 { x: 0, y: 0 },
            Point2 { x: 1, y: 1 },
            Point2 { x: 0, y: 3 },
        ]),
        Some(RectBounds { left: 0, right: 1, top: 3, bottom: 0 })
    );
}

#[test]
fn bounds_of_nothing_is_none() {
    assert_eq!(RectBounds::<i32>::bounds_of(&vec![]), None);
}

#[test]
fn bounds_of_handles_negative_and_extreme_points() {
    assert_eq!(
        RectBounds::<i32>::bounds_of(&vec![
            Point2 { x: -5, y: 7 },
            Point2 { x: i32::MAX, y: i32::MIN },
            Point2 { x: 3, y: -2 },
        ]),
        Some(RectBounds { left: -5, right: i32::MAX, top: 7, bottom: i32::MIN })
    );
}

#[test]
fn bounds_of_triangle_holds_the_corners() {
    let triangle = Triangle {
        p0: Point2 { x: 4, y: -1 },
        p1: Point2 { x: -3, y: 9 },
        p2: Point2 { x: 0, y: 2 },
    };
    assert_eq!(
        RectBounds::bounds_of_triangle(triangle),
        RectBounds { left: -3, right: 4, top: 9, bottom: -1 }
    );
    let unsigned = Triangle {
        p0: Point2 { x: 4u32, y: 1u32 },
        p1: Point2 { x: u32::MAX, y: 9 },
        p2: Point2 { x: 0, y: 2 },
    };
    assert_eq!(
        RectBounds::bounds_of_triangle(unsigned),
        RectBounds { left: 0, right: u32::MAX, top: 9, bottom: 1 }
    );
}

#[test]
fn overlap_of_disjoint_rectangles_is_none() {
    let a = RectBounds { left: 0, right: 3, bottom: 0, top: 3 };
    assert_eq!(a.overlap(RectBounds { left: 4, right: 9, bottom: 0, top: 3 }), None);
    assert_eq!(a.overlap(RectBounds { left: -9, right: -1, bottom: 0, top: 3 }), None);
    assert_eq!(a.overlap(RectBounds { left: 0, right: 3, bottom: 4, top: 9 }), None);
    assert_eq!(a.overlap(RectBounds { left: 0, right: 3, bottom: -9, top: -1 }), None);
}

#[test]
fn overlap_is_the_common_rectangle() {
    let a = RectBounds { left: -2, right: 5, bottom: -1, top: 7 };
    let screen = RectBounds { left: 0, right: 3, bottom: 0, top: 3 };
    assert_eq!(a.overlap(screen), Some(screen));
    assert_eq!(screen.overlap(a), Some(screen));
    let b = RectBounds { left: 2, right: 9, bottom: 1, top: 2 };
    assert_eq!(
        b.overlap(screen),
        Some(RectBounds { left: 2, right: 3, bottom: 1, top: 2 })
    );
    let touching = RectBounds { left: 3, right: 8, bottom: 3, top: 8 };
    assert_eq!(
        touching.overlap(screen),
        Some(RectBounds { left: 3, right: 3, bottom: 3, top: 3 })
    );
}

#[test]
fn from_slice_takes_exactly_three_points() {
    let points = [Point2 { x: 1, y: 2 }, Point2 { x: 3, y: 4 }, Point2 { x: 5, y: 6 }];
    let triangle = Triangle::from_slice(&points).unwrap();
    assert_eq!(triangle.p0, points[0]);
    assert_eq!(triangle.p1, points[1]);
    assert_eq!(triangle.p2, points[2]);
    assert!(Triangle::from_slice(&points[..2]).is_none());
    assert!(Triangle::<i32>::from_slice(&[]).is_none());
    let four = [points[0], points[1], points[2], points[0]];
    assert!(Triangle::from_slice(&four).is_none());
}

#[test]
fn test_triangulation() {
    assert_eq!(
        convex_triangulation(&vec![
            Vector4 { x: 0.0, y: 0.0, z: 0.0, w: 1.0 },
            Vector4 { x: 1.0, y: 0.0, z: 0.0, w: 1.0 },
            Vector4 { x: 0.0, y: 1.0, z: 0.0, w: 1.0 },
        ]),
        vec![(
            Vector4 { x: 0.0, y: 0.0, z: 0.0, w: 1.0 },
            Vector4 { x: 1.0, y: 0.0, z: 0.0, w: 1.0 },
            Vector4 { x: 0.0, y: 1.0, z: 0.0, w: 1.0 },
        )]
    );
    assert_eq!(
        convex_triangulation(&vec![
            Vector4 { x: 0.0, y: 0.0, z: 0.0, w: 1.0 },
            Vector4 { x: 1.0, y: 0.0, z: 0.0, w: 1.0 },
            Vector4 { x: 1.0, y: 1.0, z: 0.0, w: 1.0 },
            Vector4 { x: 0.0, y: 1.0, z: 0.0, w: 1.0 },
        ]),
        vec![
            (
                Vector4 { x: 0.0, y: 0.0, z: 0.0, w: 1.0 },
                Vector4 { x: 1.0, y: 0.0, z: 0.0, w: 1.0 },
                Vector4 { x: 1.0, y: 1.0, z: 0.0, w: 1.0 },
            ),
            (
                Vector4 { x: 0.0, y: 0.0, z: 0.0, w: 1.0 },
                Vector4 { x: 1.0, y: 1.0, z: 0.0, w: 1.0 },
                Vector4 { x: 0.0, y: 1.0, z: 0.0, w: 1.0 },
            ),
        ]
    );
}

#[test]
fn triangulation_of_fewer_than_three_points_is_empty() {
    assert_eq!(convex_triangulation::<u8>(&vec![]), vec![]);
    assert_eq!(convex_triangulation(&vec![1u8]), vec![]);
    assert_eq!(convex_triangulation(&vec![1u8, 2]), vec![]);
}

#[test]
fn triangulation_fans_from_the_first_point() {
    assert_eq!(
        convex_triangulation(&vec![10u8, 11, 12, 13, 14, 15]),
        vec![(10, 11, 12), (10, 12, 13), (10, 13, 14), (10, 14, 15)]
    );
}

#[test]
fn test_clip() {
    assert_eq!(
        clip(
            &vec![
                Vector4 { x: 0.0, y: 0.0, z: 0.0, w: 1.0 },
                Vector4 { x: 2.0, y: 0.0, z: 0.0, w: 1.0 },
                Vector4 { x: 2.0, y: 2.0, z: 0.0, w: 1.0 },
                Vector4 { x: 0.0, y: 2.0, z: 0.0, w: 1.0 },
            ],
            &|p: Vector4<f32>| inside(1, p),
            &|a: Vector4<f32>, b: Vector4<f32>| cross(1, a, b),
        ),
        vec![
            Vector4 { x: 0.0, y: 0.0, z: 0.0, w: 1.0 },
            Vector4 { x: 1.0, y: 0.0, z: 0.0, w: 1.0 },
            Vector4 { x: 1.0, y: 2.0, z: 0.0, w: 1.0 },
            Vector4 { x: 0.0, y: 2.0, z: 0.0, w: 1.0 },
        ],
    );
}

#[test]
fn test_no_clip() {
    assert_eq!(
        clip(
            &vec![
                Vector4 { x: 0.0, y: 0.0, z: 0.0, w: 1.0 },
                Vector4 { x: 0.5, y: 0.0, z: 0.0, w: 1.0 },
                Vector4 { x: 0.5, y: 2.0, z: 0.0, w: 1.0 },
                Vector4 { x: 0.0, y: 2.0, z: 0.0, w: 1.0 },
            ],
            &|p: Vector4<f32>| inside(1, p),
            &|a: Vector4<f32>, b: Vector4<f32>| cross(1, a, b),
        ),
        vec![
            Vector4 { x: 0.0, y: 0.0, z: 0.0, w: 1.0 },
            Vector4 { x: 0.5, y: 0.0, z: 0.0, w: 1.0 },
            Vector4 { x: 0.5, y: 2.0, z: 0.0, w: 1.0 },
            Vector4 { x: 0.0, y: 2.0, z: 0.0, w: 1.0 },
        ],
    );
}

#[test]
fn test_all_clip() {
    assert_eq!(
        clip(
            &vec![
                Vector4 { x: 2.0, y: 0.0, z: 0.0, w: 1.0 },
                Vector4 { x: 2.5, y: 0.0, z: 0.0, w: 1.0 },
                Vector4 { x: 2.5, y: 2.0, z: 0.0, w: 1.0 },
                Vector4 { x: 2.0, y: 2.0, z: 0.0, w: 1.0 },
            ],
            &|p: Vector4<f32>| inside(1, p),
            &|a: Vector4<f32>, b: Vector4<f32>| cross(1, a, b),
        ),
        vec![],
    );
}

#[test]
fn clip_of_nothing_is_nothing() {
    let out: Vec<i32> = clip(&vec![], &|p: i32| p >= 0, &|_a: i32, _b: i32| 0);
    assert_eq!(out, vec![]);
}

#[test]
fn clip_starts_with_the_edge_from_the_last_vertex() {
    // The first vertex is outside and the last one inside: the walk opens
    // with the cut of the closing edge.
    let out = clip(&vec![-4, 2, 6], &|p: i32| p >= 0, &|a: i32, b: i32| 100 * a + b);
    assert_eq!(out, vec![100 * 6 - 4, 100 * -4 + 2, 2, 6]);
}

#[test]
fn clip_asks_about_each_vertex_once_and_cuts_only_crossing_edges() {
    let asked = std::cell::RefCell::new(Vec::new());
    let cut = std::cell::RefCell::new(Vec::new());
    let out = clip(
        &vec![1, 2, -3, -4, 5],
        &|p: i32| {
            asked.borrow_mut().push(p);
            p >= 0
        },
        &|a: i32, b: i32| {
            cut.borrow_mut().push((a, b));
            0
        },
    );
    assert_eq!(out, vec![1, 2, 0, 0, 5]);
    assert_eq!(*asked.borrow(), vec![1, 2, -3, -4, 5]);
    assert_eq!(*cut.borrow(), vec![(2, -3), (-4, 5)]);
}

#[test]
fn clip_against_asks_about_the_given_plane() {
    let square = vec![
        v4(0.0, 0.0, 0.0, 1.0),
        v4(2.0, 0.0, 0.0, 1.0),
        v4(2.0, 2.0, 0.0, 1.0),
        v4(0.0, 2.0, 0.0, 1.0),
    ];
    assert_eq!(
        clip_against(&square, 3, &inside, &cross),
        vec![
            v4(0.0, 1.0, 0.0, 1.0),
            v4(0.0, 0.0, 0.0, 1.0),
            v4(2.0, 0.0, 0.0, 1.0),
            v4(2.0, 1.0, 0.0, 1.0),
        ]
    );
    assert_eq!(clip_against(&square, 0, &inside, &cross), square);
}

#[test]
fn clip_in_box_keeps_a_polygon_inside_the_volume() {
    let triangle = vec![
        v4(-1.0, -1.0, 0.0, 1.0),
        v4(1.0, -1.0, 0.5, 1.0),
        v4(0.0, 1.0, -1.0, 1.0),
    ];
    assert_eq!(clip_in_box(&triangle, &inside, &cross), triangle);
    let scaled = vec![
        v4(-3.0, 2.0, 1.0, 4.0),
        v4(4.0, -4.0, 0.0, 4.0),
        v4(0.0, 3.5, -2.0, 4.0),
    ];
    assert_eq!(clip_in_box(&scaled, &inside, &cross), scaled);
}

#[test]
fn clip_in_box_removes_a_polygon_outside_one_plane() {
    for plane in 0..FRUSTUM_PLANES {
        let sign = if plane % 2 == 0 { -1.0 } else { 1.0 };
        let place = |t: f32, u: f32| match plane / 2 {
            0 => v4(sign * 2.0, t, u, 1.0),
            1 => v4(t, sign * 2.0, u, 1.0),
            _ => v4(t, u, sign * 2.0, 1.0),
        };
        let triangle = vec![place(-3.0, 0.0), place(3.0, -0.5), place(0.0, 3.0)];
        assert_eq!(clip_in_box(&triangle, &inside, &cross), vec![], "plane {}", plane);
    }
}

#[test]
fn clip_in_box_cuts_a_square_to_the_volume() {
    let square = vec![
        v4(0.0, 0.0, 0.0, 1.0),
        v4(2.0, 0.0, 0.0, 1.0),
        v4(2.0, 2.0, 0.0, 1.0),
        v4(0.0, 2.0, 0.0, 1.0),
    ];
    // Cut at `x = w` first, then at `y = w`, where the walk opens with the
    // cut of the closing edge.
    assert_eq!(
        clip_in_box(&square, &inside, &cross),
        vec![
            v4(0.0, 1.0, 0.0, 1.0),
            v4(0.0, 0.0, 0.0, 1.0),
            v4(1.0, 0.0, 0.0, 1.0),
            v4(1.0, 1.0, 0.0, 1.0),
        ]
    );
}

#[test]
fn clip_triangle_returns_an_inner_triangle_alone() {
    let (a, b, c) = (v4(-1.0, -1.0, 0.0, 1.0), v4(1.0, -1.0, 0.0, 1.0), v4(0.0, 1.0, 0.0, 1.0));
    assert_eq!(clip_triangle(a, b, c, &inside, &cross), vec![(a, b, c)]);
}

#[test]
fn clip_triangle_drops_an_outer_triangle() {
    let (a, b, c) = (v4(2.0, 0.0, 0.0, 1.0), v4(3.0, 0.0, 0.0, 1.0), v4(2.0, 1.0, 0.0, 1.0));
    assert_eq!(clip_triangle(a, b, c, &inside, &cross), vec![]);
}

#[test]
fn clip_triangle_behind_the_near_plane_is_cut_on_it() {
    // One corner lies behind the near plane, `w + z < 0`.
    let a = v4(-0.5, -0.5, 0.0, 1.0);
    let b = v4(0.5, -0.5, 0.0, 1.0);
    let c = v4(0.0, 0.5, -3.0, 1.0);
    let triangles = clip_triangle(a, b, c, &inside, &cross);
    assert_eq!(triangles.len(), 2);
    let mut on_plane = Vec::new();
    for (p, q, r) in &triangles {
        for v in [p, q, r] {
            assert!(v.w + v.z >= -1e-6, "a corner behind the near plane: {:?}", v);
            if (v.w + v.z).abs() <= 1e-6 {
                on_plane.push(*v);
            }
        }
    }
    // The cut runs between the points where the two edges into `c` meet the
    // plane: a third of the way along each.
    assert!(on_plane.iter().any(|v| (v.x - (b.x + (c.x - b.x) / 3.0)).abs() < 1e-6));
    assert!(on_plane.iter().any(|v| (v.x - (a.x + (c.x - a.x) / 3.0)).abs() < 1e-6));
    assert!(on_plane.iter().all(|v| (v.y - (-0.5 + 1.0 / 3.0)).abs() < 1e-6));
    // The polygon is (cut of c-a, a, b, cut of b-c), fanned from its first
    // vertex.
    assert_eq!(triangles[0].1, a);
    assert_eq!(triangles[0].2, b);
    assert_eq!(triangles[1].1, b);
    assert_eq!(triangles[0].0, triangles[1].0);
}

#[test]
fn clip_emits_by_edge_for_every_pattern_of_sides() {
    // Every way in which up to eight vertices can lie on the two sides,
    // against the rule stated edge by edge.
    for n in 0..=8usize {
        for mask in 0..(1u32 << n) {
            let points: Vec<usize> = (0..n).collect();
            let kept = |p: usize| mask & (1 << p) != 0;
            let cut = |a: usize, b: usize| 1000 + 10 * a + b;
            let mut expected = Vec::new();
            for k in 0..n {
                let from = if k == 0 { n - 1 } else { k - 1 };
                match (kept(from), kept(k)) {
                    (true, true) => expected.push(k),
                    (true, false) => expected.push(cut(from, k)),
                    (false, true) => {
                        expected.push(cut(from, k));
                        expected.push(k);
                    }
                    (false, false) => {}
                }
            }
            let out = clip(&points, &kept, &cut);
            assert_eq!(out, expected, "n = {}, mask = {:b}", n, mask);
            // Every edge of the result is an edge between kept vertices, the
            // kept part of a cut edge, or runs from a cut that leaves to a
            // cut that comes back.
            for m in 0..out.len() {
                let (u, v) = (out[if m == 0 { out.len() - 1 } else { m - 1 }], out[m]);
                let next = |p: usize| (p + 1) % n;
                let ends = |c: usize| ((c - 1000) / 10, (c - 1000) % 10);
                match (u < 1000, v < 1000) {
                    (true, true) => assert!(kept(u) && kept(v) && v == next(u)),
                    (true, false) => assert!(kept(u) && ends(v) == (u, next(u)) && !kept(next(u))),
                    (false, true) => assert!(kept(v) && ends(u).1 == v && !kept(ends(u).0)),
                    (false, false) => assert!(!kept(ends(u).1) && kept(ends(v).1)),
                }
            }
            let crossings = (0..n)
                .filter(|&k| kept(k) != kept(if k == 0 { n - 1 } else { k - 1 }))
                .count();
            assert_eq!(out.len(), mask.count_ones() as usize + crossings);
        }
    }
}

#[test]
fn clip_in_box_applies_the_planes_in_order() {
    // Vertices are numbers; plane `k` keeps those whose digit `k` is not 0,
    // and a cut records the plane and the edge.
    let inside = |plane: usize, p: u64| (p / 10u64.pow(plane as u32)) % 10 != 0;
    let cross = |plane: usize, a: u64, b: u64| {
        111_111 + 1_000_000 * (plane as u64 + 1) + 10_000_000 * (a % 7) + 100_000_000 * (b % 7)
    };
    let points = vec![111_111u64, 111_101, 110_111, 111_111];
    let mut expected = points.clone();
    for plane in 0..FRUSTUM_PLANES {
        expected = clip(&expected, &|p: u64| inside(plane, p), &|a: u64, b: u64| cross(plane, a, b));
    }
    assert_eq!(clip_in_box(&points, &inside, &cross), expected);
    // Plane 1 cuts round the second vertex and plane 3 round the third.
    let cut = |plane: u64, a: u64, b: u64| cross(plane as usize, a, b);
    let c1 = cut(1, points[0], points[1]);
    let c2 = cut(1, points[1], points[2]);
    assert_eq!(
        expected,
        vec![
            points[0],
            c1,
            c2,
            cut(3, c2, points[2]),
            cut(3, points[2], points[3]),
            points[3],
        ]
    );
}

/// Whether the corners of a polygon in the plane `w = 1`, `z = 0` all turn
/// the same way.
fn is_convex(polygon: &[Vector4<f32>]) -> bool {
    let n = polygon.len();
    let mut turns = (0..n).map(|i| {
        let (a, b, c) = (polygon[i], polygon[(i + 1) % n], polygon[(i + 2) % n]);
        (b.x - a.x) * (c.y - b.y) - (b.y - a.y) * (c.x - b.x)
    });
    turns.clone().all(|t| t >= -1e-6) || turns.all(|t| t <= 1e-6)
}

#[test]
fn clipping_a_convex_polygon_leaves_a_convex_polygon() {
    // Regular polygons of several sizes and places, some of them reaching
    // out of the view volume.
    for corners in 3..12 {
        for (cx, cy, radius) in [(0.0, 0.0, 0.5), (0.7, 0.2, 0.8), (-0.9, -0.9, 0.6), (0.0, 1.0, 1.5)] {
            let polygon: Vec<Vector4<f32>> = (0..corners)
                .map(|k| {
                    let angle = 0.3 + 2.0 * std::f32::consts::PI * k as f32 / corners as f32;
                    v4(cx + radius * angle.cos(), cy + radius * angle.sin(), 0.0, 1.0)
                })
                .collect();
            assert!(is_convex(&polygon));
            for plane in 0..FRUSTUM_PLANES {
                let cut = clip_against(&polygon, plane, &inside, &cross);
                assert!(is_convex(&cut), "{} corners, plane {}: {:?}", corners, plane, cut);
                assert!(cut.iter().all(|p| distance(plane, *p) >= -1e-6));
            }
            let boxed = clip_in_box(&polygon, &inside, &cross);
            assert!(is_convex(&boxed), "{} corners: {:?}", corners, boxed);
            assert!(boxed.iter().all(|p| (0..FRUSTUM_PLANES).all(|k| distance(k, *p) >= -1e-6)));
            assert!(boxed.len() <= corners + 4);
        }
    }
}
