use svg_path_length::parser::parse;
use svg_path_length::path::{plan, PathSegment, Pen, Point, Step, SPLIT_COUNT};
use std::f64::consts::PI;

// The tests below measure what the library plans, with floating-point
// arithmetic of their own.

type P = (f64, f64);

fn add(a: P, b: P) -> P {
    (a.0 + b.0, a.1 + b.1)
}

fn sub(a: P, b: P) -> P {
    (a.0 - b.0, a.1 - b.1)
}

fn scale(a: P, v: f64) -> P {
    (a.0 * v, a.1 * v)
}

fn norm(a: P) -> f64 {
    (a.0 * a.0 + a.1 * a.1).sqrt()
}

fn rotate(a: P, r: f64) -> P {
    (r.cos() * a.0 - r.sin() * a.1, r.sin() * a.0 + r.cos() * a.1)
}

fn radian(a: P, b: P) -> f64 {
    ((a.0 * b.0 + a.1 * b.1) / norm(a) / norm(b)).acos() * (a.0 * b.1 - a.1 * b.0).signum()
}

fn sampled(curve: &dyn Fn(f64) -> P, split: usize) -> f64 {
    let step = 1.0 / split as f64;
    let mut length = 0.0;
    for i in 0..split {
        length += norm(sub(curve(step * i as f64), curve(step * (i + 1) as f64)));
    }
    length
}

fn arc(p0: P, rx: f64, ry: f64, rotation: f64, large: bool, sweep: bool, p1: P) -> Box<dyn Fn(f64) -> P> {
    if rx == 0.0 || ry == 0.0 {
        return Box::new(move |t| add(p0, scale(sub(p1, p0), t)));
    }
    let r = rotation.to_radians();
    let a = rotate(((p0.0 - p1.0) / 2.0, (p0.1 - p1.1) / 2.0), -r);
    let l = a.0 * a.0 / rx / rx + a.1 * a.1 / ry / ry;
    let grow = if l > 1.0 { l.sqrt() } else { 1.0 };
    let (rx, ry) = (rx.abs() * grow, ry.abs() * grow);
    let (rx2, ry2, ax2, ay2) = (rx * rx, ry * ry, a.0 * a.0, a.1 * a.1);
    let root = ((rx2 * ry2 - rx2 * ay2 - ry2 * ax2) / (rx2 * ay2 + ry2 * ax2)).sqrt();
    let side = if large == sweep { -1.0 } else { 1.0 };
    let b = scale((rx * a.1 / ry, -ry * a.0 / rx), root * side);
    let c = add(rotate(b, r), scale(add(p0, p1), 0.5));
    let u = ((a.0 - b.0) / rx, (a.1 - b.1) / ry);
    let v = ((-a.0 - b.0) / rx, (-a.1 - b.1) / ry);
    let theta = radian((1.0, 0.0), u);
    let turn = radian(u, v) % (2.0 * PI);
    let dtheta = if !sweep && 0.0 < turn {
        turn - 2.0 * PI
    } else if sweep && turn < 0.0 {
        turn + 2.0 * PI
    } else {
        turn
    };
    Box::new(move |t| {
        let at = theta + dtheta * t;
        add(rotate((rx * at.cos(), ry * at.sin()), r), c)
    })
}

fn locate(point: Point, values: &Vec<f64>, current: P, control: Option<P>) -> P {
    match point {
        Point::Current => current,
        Point::Reflected => sub(scale(current, 2.0), control.unwrap()),
        Point::Pair { at, relative } => {
            let p = (values[at], values[at + 1]);
            if relative { add(p, current) } else { p }
        }
        Point::Horizontal { relative } => (values[0] + if relative { current.0 } else { 0.0 }, current.1),
        Point::Vertical { relative } => (current.0, values[0] + if relative { current.1 } else { 0.0 }),
    }
}

fn get_path_length(segments: &Vec<PathSegment>) -> f64 {
    let steps = plan(segments);
    assert_eq!(steps.len(), segments.len());
    let mut length = 0.0;
    let mut current: P = (0.0, 0.0);
    let mut start: Option<P> = None;
    let mut control: Option<P> = None;
    for (segment, step) in segments.iter().zip(steps) {
        let values: Vec<f64> = segment.values.iter().map(|v| v.parse().unwrap()).collect();
        let at = |point: Point| locate(point, &values, current, control);
        match step {
            Step::Skip => {}
            Step::Open { to } => {
                current = at(to);
                start = Some(current);
                control = None;
            }
            Step::Line { to } => {
                let p = at(to);
                length += norm(sub(p, current));
                current = p;
                control = None;
            }
            Step::Close => {
                length += norm(sub(current, start.unwrap()));
                current = start.unwrap();
                control = None;
            }
            Step::Quadratic { control: by, to } => {
                let (p0, p1, p2) = (current, at(by), at(to));
                let curve = move |t: f64| {
                    let a = 1.0 - t;
                    add(add(scale(p0, a * a), scale(p1, 2.0 * t * a)), scale(p2, t * t))
                };
                length += sampled(&curve, SPLIT_COUNT);
                current = p2;
                control = Some(p1);
            }
            Step::Cubic { control1, control2, to } => {
                let (p0, p1, p2, p3) = (current, at(control1), at(control2), at(to));
                let curve = move |t: f64| {
                    let a = 1.0 - t;
                    add(
                        add(scale(p0, a * a * a), scale(p1, 3.0 * a * a * t)),
                        add(scale(p2, 3.0 * a * t * t), scale(p3, t * t * t)),
                    )
                };
                length += sampled(&curve, SPLIT_COUNT);
                current = p3;
                control = Some(p1);
            }
            Step::Arc { to } => {
                let p1 = at(to);
                let curve = arc(current, values[0], values[1], values[2], values[3] != 0.0, values[4] != 0.0, p1);
                length += sampled(&*curve, SPLIT_COUNT);
                current = p1;
                control = None;
            }
        }
    }
    length
}

fn seg(command: char, values: Vec<f64>) -> PathSegment {
    PathSegment::new(command, values.iter().map(|v| v.to_string()).collect())
}

fn get_total_leng(d: &str) -> f64 {
    get_path_length(&parse(d).unwrap())
}

fn pair(at: usize, relative: bool) -> Point {
    Point::Pair { at, relative }
}

#[test]
fn get_path_length_cases() {
    assert_eq!(get_total_leng("M10 10 L 40 10 L40 50"), 70.0);
    assert_eq!(get_total_leng("M10 10 L 40 10 L40 50z"), 120.0);
}

#[test]
fn get_path_segment_length_z() {
    assert_eq!(
        get_path_length(&vec![
            seg('M', vec![1.0, 1.0]),
            seg('L', vec![4.0, 1.0]),
            seg('L', vec![4.0, 4.0]),
            seg('L', vec![1.0, 4.0]),
            seg('Z', vec![]),
            seg('m', vec![10.0, 10.0]),
            seg('l', vec![3.0, 0.0]),
            seg('l', vec![0.0, 3.0]),
            seg('l', vec![-3.0, 0.0]),
            seg('z', vec![]),
        ]),
        24.0
    );

    assert_eq!(
        get_path_length(&vec![
            seg('L', vec![1.0, 1.0]),
            seg('L', vec![4.0, 1.0]),
            seg('L', vec![4.0, 4.0]),
            seg('L', vec![1.0, 4.0]),
            seg('Z', vec![]),
        ]),
        12.0
    );

    assert_eq!(
        get_path_length(&vec![
            seg('l', vec![1.0, 1.0]),
            seg('l', vec![3.0, 0.0]),
            seg('l', vec![0.0, 3.0]),
            seg('l', vec![-3.0, 0.0]),
            seg('z', vec![]),
        ]),
        12.0
    );
}

#[test]
fn get_path_segment_length_m() {
    assert_eq!(
        get_path_length(&vec![
            seg('M', vec![1.0, 2.0]),
            seg('L', vec![4.0, 6.0]),
            seg('M', vec![10.0, 20.0]),
            seg('L', vec![11.0, 20.0]),
        ]),
        6.0
    );

    assert_eq!(
        get_path_length(&vec![
            seg('m', vec![1.0, 2.0]),
            seg('L', vec![4.0, 6.0]),
            seg('m', vec![10.0, 20.0]),
            seg('l', vec![0.0, 1.0]),
        ]),
        6.0
    );
}

#[test]
fn get_path_segment_length_l() {
    assert_eq!(
        get_path_length(&vec![seg('M', vec![1.0, 2.0]), seg('L', vec![4.0, 6.0])]),
        5.0
    );

    assert_eq!(
        get_path_length(&vec![seg('M', vec![1.0, 2.0]), seg('l', vec![3.0, 4.0])]),
        5.0
    );
}

#[test]
fn get_path_segment_length_q() {
    assert_eq!(
        get_path_length(&vec![
            seg('M', vec![10.0, 10.0]),
            seg('Q', vec![20.0, 10.0, 20.0, 20.0]),
        ])
        .round(),
        16.0
    );

    assert_eq!(
        get_path_length(&vec![
            seg('M', vec![10.0, 10.0]),
            seg('q', vec![10.0, 0.0, 10.0, 10.0]),
        ])
        .round(),
        16.0
    );
}

#[test]
fn get_path_segment_length_t() {
    assert_eq!(
        get_path_length(&vec![
            seg('M', vec![10.0, 10.0]),
            seg('Q', vec![20.0, 10.0, 20.0, 20.0]),
            seg('T', vec![30.0, 20.0]),
        ])
        .round(),
        32.0
    );
    assert_eq!(
        get_path_length(&vec![seg('M', vec![10.0, 10.0]), seg('T', vec![20.0, 10.0])]).round(),
        10.0,
        "should treat the point as the control if previous control doesn't exist"
    );

    assert_eq!(
        get_path_length(&vec![
            seg('M', vec![10.0, 10.0]),
            seg('q', vec![10.0, 0.0, 10.0, 10.0]),
            seg('t', vec![10.0, 0.0]),
        ])
        .round(),
        32.0
    );
    assert_eq!(
        get_path_length(&vec![seg('M', vec![10.0, 10.0]), seg('t', vec![10.0, 0.0])]).round(),
        10.0,
        "should treat the point as the control if previous control doesn't exist"
    );
}

#[test]
fn get_path_segment_length_c() {
    assert_eq!(
        get_path_length(&vec![
            seg('M', vec![10.0, 10.0]),
            seg('C', vec![20.0, 10.0, 10.0, 20.0, 20.0, 20.0]),
        ])
        .round(),
        17.0
    );

    assert_eq!(
        get_path_length(&vec![
            seg('M', vec![10.0, 10.0]),
            seg('c', vec![10.0, 0.0, 0.0, 10.0, 10.0, 10.0]),
        ])
        .round(),
        17.0
    );
}

#[test]
fn get_path_segment_length_s() {
    assert_eq!(
        get_path_length(&vec![
            seg('M', vec![10.0, 10.0]),
            seg('Q', vec![20.0, 10.0, 20.0, 20.0]),
            seg('S', vec![30.0, 20.0, 30.0, 30.0]),
        ])
        .round(),
        33.0
    );

    assert_eq!(
        get_path_length(&vec![
            seg('M', vec![10.0, 10.0]),
            seg('q', vec![10.0, 0.0, 10.0, 10.0]),
            seg('s', vec![10.0, 0.0, 10.0, 10.0]),
        ])
        .round(),
        33.0
    );
}

#[test]
fn get_path_segment_length_a() {
    assert_eq!(
        get_path_length(&vec![
            seg('M', vec![10.0, 10.0]),
            seg('A', vec![10.0, 10.0, 0.0, 0.0, 0.0, 20.0, 20.0]),
        ])
        .round(),
        16.0
    );
    assert_eq!(
        get_path_length(&vec![
            seg('M', vec![10.0, 10.0]),
            seg('A', vec![10.0, 10.0, 0.0, 1.0, 0.0, 20.0, 20.0]),
        ])
        .round(),
        47.0
    );
    assert_eq!(
        get_path_length(&vec![
            seg('M', vec![10.0, 10.0]),
            seg('A', vec![10.0, 10.0, 0.0, 0.0, 1.0, 20.0, 20.0]),
        ])
        .round(),
        16.0
    );
    assert_eq!(
        get_path_length(&vec![
            seg('M', vec![10.0, 10.0]),
            seg('A', vec![10.0, 10.0, 0.0, 1.0, 1.0, 20.0, 20.0]),
        ])
        .round(),
        47.0
    );
}

#[test]
fn get_path_segment_length_a_relative() {
    assert_eq!(
        get_path_length(&vec![
            seg('M', vec![10.0, 10.0]),
            seg('a', vec![10.0, 10.0, 0.0, 0.0, 0.0, 10.0, 10.0]),
        ])
        .round(),
        16.0
    );
    assert_eq!(
        get_path_length(&vec![
            seg('M', vec![10.0, 10.0]),
            seg('a', vec![10.0, 10.0, 0.0, 1.0, 0.0, 10.0, 10.0]),
        ])
        .round(),
        47.0
    );
    assert_eq!(
        get_path_length(&vec![
            seg('M', vec![10.0, 10.0]),
            seg('a', vec![10.0, 10.0, 0.0, 0.0, 1.0, 10.0, 10.0]),
        ])
        .round(),
        16.0
    );
    assert_eq!(
        get_path_length(&vec![
            seg('M', vec![10.0, 10.0]),
            seg('a', vec![10.0, 10.0, 0.0, 1.0, 1.0, 10.0, 10.0]),
        ])
        .round(),
        47.0
    );
}

#[test]
fn a_square_is_closed_at_its_start() {
    assert_eq!(get_total_leng("M1 1 L4 1 L4 4 L1 4 Z"), 12.0);
    // Behind the closepath the current point is the start again.
    assert_eq!(get_total_leng("M1 1 L4 1 L4 4 L1 4 Z l 0 5"), 17.0);
    assert_eq!(get_total_leng("M1 1 L4 1 L4 4 L1 4 Z L 1 6"), 17.0);
}

#[test]
fn a_closepath_before_any_subpath_does_nothing() {
    assert_eq!(get_total_leng("Z"), 0.0);
    assert_eq!(get_total_leng("z Z z"), 0.0);
    assert_eq!(get_total_leng("Z M 1 1 L 4 5"), 5.0);
    assert_eq!(plan(&parse("Z z M 1 1 z").unwrap()), vec![
        Step::Skip,
        Step::Skip,
        Step::Open { to: pair(0, false) },
        Step::Close,
    ]);
}

#[test]
fn an_empty_path_and_movetos_have_no_length() {
    assert_eq!(get_total_leng(""), 0.0);
    assert_eq!(get_total_leng("M 1 2"), 0.0);
    assert_eq!(get_total_leng("M 1 2 m 3 4 M 5 6 7 8"), 0.0);
    assert_eq!(plan(&vec![]), vec![]);
}

#[test]
fn horizontal_and_vertical_lines_move_along_one_axis() {
    assert_eq!(get_total_leng("M 1 2 h 9"), 9.0);
    assert_eq!(get_total_leng("M 1 2 v 9"), 9.0);
    assert_eq!(get_total_leng("M 1 2 H 9"), 8.0);
    assert_eq!(get_total_leng("M 1 2 V 9"), 7.0);
    assert_eq!(get_total_leng("M 1 2 h -9"), 9.0);
    assert_eq!(get_total_leng("M 1 2 H 4 V 6 z"), 12.0);
    assert_eq!(get_total_leng("M 1 2 h 3 v 4 z"), 12.0);
}

#[test]
fn the_first_lineto_opens_the_subpath() {
    assert_eq!(get_total_leng("L 3 4"), 0.0);
    assert_eq!(get_total_leng("l 3 4"), 0.0);
    assert_eq!(get_total_leng("H 3"), 0.0);
    assert_eq!(get_total_leng("v 3"), 0.0);
    assert_eq!(get_total_leng("L 3 4 L 0 0"), 5.0);
    assert_eq!(get_total_leng("H 3 V 4 z"), 8.0);
    assert_eq!(get_total_leng("h 3 v 4 z"), 8.0);
    assert_eq!(plan(&parse("h 3 h 4").unwrap()), vec![
        Step::Open { to: Point::Horizontal { relative: false } },
        Step::Line { to: Point::Horizontal { relative: true } },
    ]);
    // A curve moves the current point and starts no subpath: the lineto
    // behind it still opens one, at its coordinates as they stand.
    assert_eq!(plan(&parse("q 1 1 2 0 l 5 5 l 3 4").unwrap()), vec![
        Step::Quadratic { control: pair(0, true), to: pair(2, true) },
        Step::Open { to: pair(0, false) },
        Step::Line { to: pair(0, true) },
    ]);
    assert_eq!(get_total_leng("t 1 0 l 5 5 l 3 4"), 1.0 + 5.0);
}

#[test]
fn a_smooth_curve_without_a_control_point_is_straight() {
    let curve = get_total_leng("M10 10 T20 10");
    let line = get_total_leng("M10 10 L20 10");
    assert!((curve - line).abs() < 1e-9);
    let curve = get_total_leng("M10 10 S 20 20 30 30");
    let line = get_total_leng("M10 10 L 30 30");
    assert!((curve - line).abs() < 1e-9);
    assert_eq!(plan(&parse("M10 10 T20 10 t 1 1 L 0 0 s 1 1 2 2 S 3 3 4 4").unwrap()), vec![
        Step::Open { to: pair(0, false) },
        Step::Quadratic { control: Point::Current, to: pair(0, false) },
        Step::Quadratic { control: Point::Reflected, to: pair(0, true) },
        Step::Line { to: pair(0, false) },
        Step::Cubic { control1: Point::Current, control2: pair(0, true), to: pair(2, true) },
        Step::Cubic { control1: Point::Reflected, control2: pair(0, false), to: pair(2, false) },
    ]);
}

#[test]
fn a_cubic_curve_ends_at_its_last_pair() {
    // The line behind the curve starts where the curve ended.
    let curve = get_total_leng("M 0 0 C 10 0 0 10 10 10");
    assert_eq!(get_total_leng("M 0 0 C 10 0 0 10 10 10 L 10 13"), curve + 3.0);
    assert_eq!(get_total_leng("M 0 0 c 10 0 0 10 10 10 l 0 3"), curve + 3.0);
}

#[test]
fn an_arc_without_a_radius_is_its_chord() {
    assert!((get_total_leng("M 10 10 A 0 5 0 0 0 13 14") - 5.0).abs() < 1e-9);
    assert!((get_total_leng("M 10 10 A 5 0 30 1 1 13 14") - 5.0).abs() < 1e-9);
    assert!((get_total_leng("M 10 10 a 0 0 0 0 1 3 4") - 5.0).abs() < 1e-9);
}

#[test]
fn lengths_are_never_negative() {
    for d in [
        "M 0 0 L -3 -4",
        "M 5 5 h -2 v -2 H -7 V -7 z",
        "M 0 0 q -1 -1 -2 0 t -2 0",
        "M 0 0 c -1 -1 -2 -1 -3 0 s -2 1 -3 0",
        "M 0 0 a 2 3 45 1 0 -4 -1",
    ] {
        assert!(get_total_leng(d) >= 0.0, "{}", d);
    }
}

#[test]
fn measuring_twice_gives_the_same() {
    let d = "M10 10 L 40 10 q 1 2 3 4 T 9 9 a 2 3 45 1 0 -4 -1 z";
    assert_eq!(get_total_leng(d), get_total_leng(d));
    assert_eq!(plan(&parse(d).unwrap()), plan(&parse(d).unwrap()));
}

#[test]
fn next_step_follows_the_letter_and_the_pen() {
    let fresh = Pen::new();
    assert_eq!(fresh, Pen { started: false, smooth: false });
    let drawing = Pen { started: true, smooth: false };
    let curving = Pen { started: true, smooth: true };

    assert_eq!(fresh.next_step('M'), (Step::Open { to: pair(0, false) }, drawing));
    assert_eq!(curving.next_step('m'), (Step::Open { to: pair(0, true) }, drawing));
    assert_eq!(drawing.next_step('L'), (Step::Line { to: pair(0, false) }, drawing));
    assert_eq!(curving.next_step('l'), (Step::Line { to: pair(0, true) }, drawing));
    assert_eq!(fresh.next_step('l'), (Step::Open { to: pair(0, false) }, drawing));
    assert_eq!(drawing.next_step('H'), (Step::Line { to: Point::Horizontal { relative: false } }, drawing));
    assert_eq!(drawing.next_step('v'), (Step::Line { to: Point::Vertical { relative: true } }, drawing));
    assert_eq!(fresh.next_step('v'), (Step::Open { to: Point::Vertical { relative: false } }, drawing));
    assert_eq!(curving.next_step('Z'), (Step::Close, drawing));
    assert_eq!(fresh.next_step('z'), (Step::Skip, fresh));
    let adrift = Pen { started: false, smooth: true };
    assert_eq!(adrift.next_step('z'), (Step::Skip, adrift));
    assert_eq!(
        drawing.next_step('Q'),
        (Step::Quadratic { control: pair(0, false), to: pair(2, false) }, curving)
    );
    assert_eq!(
        fresh.next_step('q'),
        (Step::Quadratic { control: pair(0, true), to: pair(2, true) }, adrift)
    );
    assert_eq!(
        drawing.next_step('T'),
        (Step::Quadratic { control: Point::Current, to: pair(0, false) }, curving)
    );
    assert_eq!(
        curving.next_step('t'),
        (Step::Quadratic { control: Point::Reflected, to: pair(0, true) }, curving)
    );
    assert_eq!(
        drawing.next_step('C'),
        (Step::Cubic { control1: pair(0, false), control2: pair(2, false), to: pair(4, false) }, curving)
    );
    assert_eq!(
        drawing.next_step('c'),
        (Step::Cubic { control1: pair(0, true), control2: pair(2, true), to: pair(4, true) }, curving)
    );
    assert_eq!(
        drawing.next_step('S'),
        (Step::Cubic { control1: Point::Current, control2: pair(0, false), to: pair(2, false) }, curving)
    );
    assert_eq!(
        curving.next_step('s'),
        (Step::Cubic { control1: Point::Reflected, control2: pair(0, true), to: pair(2, true) }, curving)
    );
    assert_eq!(curving.next_step('A'), (Step::Arc { to: pair(5, false) }, drawing));
    assert_eq!(drawing.next_step('a'), (Step::Arc { to: pair(5, true) }, drawing));
    assert_eq!(curving.next_step('x'), (Step::Skip, curving));
}

#[test]
fn curves_are_cut_into_twenty_pieces() {
    assert_eq!(SPLIT_COUNT, 20);
}
