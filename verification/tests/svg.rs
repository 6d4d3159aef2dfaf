use vtracer::ir::{Color, MultiPath, Paint, PathCmd, Point, Shape, SubPath, VectorDoc};
use vtracer::number::{fmt_num, push_num, push_num_fixed, push_num_float};
use vtracer::path::{consider, join_nums};
use vtracer::scalar::Scalar;
use vtracer::svg::{shape_fill, SvgWriter, VERSION};

fn num(v: f64) -> Scalar {
    Scalar { bits: v.to_bits() }
}

fn pt(x: f64, y: f64) -> Point {
    Point { x: num(x), y: num(y) }
}

/// The standard library's float formatter, after rounding to the precision.
fn float(v: Scalar, precision: Option<u32>) -> Option<String> {
    let v = f64::from_bits(v.bits);
    let v = match precision {
        Some(p) => {
            let factor = 10f64.powi(p as i32);
            let scaled = v * factor;
            if scaled.is_finite() {
                scaled.round() / factor
            } else {
                v
            }
        }
        None => v,
    };
    if v == 0.0 {
        return None;
    }
    let text = match precision {
        Some(p) => format!("{:.*}", p as usize, v),
        None => format!("{v}"),
    };
    if v.is_finite() && !text.contains(|c| ('1'..='9').contains(&c)) {
        return None;
    }
    Some(text)
}

/// The integer path must be byte-identical to the float formatter, across a wide
/// range of magnitudes, signs, and precisions.
#[test]
fn fixed_path_matches_float_path() {
    for &p in &[0u32, 1, 2, 3, 4] {
        let factor = 10f64.powi(p as i32);
        // A spread of values with carries, negatives, below one, round numbers.
        let mut v = -5000.0f64;
        while v <= 5000.0 {
            let mut fixed = String::new();
            let mut floating = String::new();
            push_num(&mut fixed, num(v), Some(p), &float);
            push_num_float(&mut floating, num(v), Some(p), &float);
            assert_eq!(fixed, floating, "mismatch at v={v}, p={p}");
            v += 1.0 / (factor / 7.0).max(1.0) + 0.017;
        }
    }
}

#[test]
fn number_formatting() {
    assert_eq!(fmt_num(num(0.0), Some(2), &float), "0");
    assert_eq!(fmt_num(num(-0.0), Some(2), &float), "0");
    assert_eq!(fmt_num(num(1.50), Some(2), &float), "1.5");
    assert_eq!(fmt_num(num(0.5), Some(2), &float), ".5");
    assert_eq!(fmt_num(num(-0.5), Some(2), &float), "-.5");
    assert_eq!(fmt_num(num(2.0), Some(2), &float), "2");
    assert_eq!(fmt_num(num(3.14159), Some(2), &float), "3.14");
}

#[test]
fn join_omits_separator_before_negative() {
    let nums = vec!["1".to_string(), "-2".to_string(), "3".to_string()];
    assert_eq!(join_nums(&nums), "1-2,3");
}

fn square_shape() -> Shape {
    let mut sub = SubPath::new();
    sub.commands = vec![
        PathCmd::MoveTo(pt(0.0, 0.0)),
        PathCmd::LineTo(pt(10.0, 0.0)),
        PathCmd::LineTo(pt(10.0, 10.0)),
        PathCmd::LineTo(pt(0.0, 10.0)),
        PathCmd::Close,
    ];
    Shape {
        paint: Paint::Solid(Color { r: 255, g: 0, b: 0, a: 255 }),
        path: MultiPath { subpaths: vec![sub] },
    }
}

#[test]
fn encodes_axis_aligned_shorthands() {
    let writer = SvgWriter { relative: true, shorthands: true, precision: Some(2) };
    let d = writer.encode_path(&square_shape(), &float);
    // Horizontal/vertical lines collapse to H/V/h/v; first move is absolute.
    assert!(d.starts_with("M0,0"));
    assert!(d.contains('H') || d.contains('h'));
    assert!(d.contains('V') || d.contains('v'));
    assert!(d.ends_with('Z'));
}

#[test]
fn absolute_mode_uses_no_relative_commands() {
    let writer = SvgWriter { relative: false, shorthands: false, precision: Some(2) };
    let d = writer.encode_path(&square_shape(), &float);
    assert!(!d.contains('l'));
    assert!(!d.contains('c'));
    assert!(d.contains('L'));
}

/// A shape with a hole (second subpath).
fn holed_shape() -> Shape {
    let outer = SubPath {
        commands: vec![
            PathCmd::MoveTo(pt(0.0, 0.0)),
            PathCmd::LineTo(pt(30.0, 0.0)),
            PathCmd::LineTo(pt(30.0, 30.0)),
            PathCmd::LineTo(pt(0.0, 30.0)),
            PathCmd::Close,
        ],
    };
    let hole = SubPath {
        commands: vec![
            PathCmd::MoveTo(pt(10.0, 10.0)),
            PathCmd::LineTo(pt(20.0, 10.0)),
            PathCmd::LineTo(pt(20.0, 20.0)),
            PathCmd::LineTo(pt(10.0, 20.0)),
            PathCmd::Close,
        ],
    };
    Shape {
        paint: Paint::Solid(Color { r: 0, g: 0, b: 0, a: 255 }),
        path: MultiPath { subpaths: vec![outer, hole] },
    }
}

/// Parse path data (M/m/L/l/H/h/V/v/Z only) into absolute points.
fn parse_abs(d: &str) -> Vec<(f64, f64)> {
    let mut toks = Vec::new();
    let mut i = 0;
    let b = d.as_bytes();
    while i < b.len() {
        let c = b[i] as char;
        if c.is_ascii_alphabetic() {
            toks.push(c.to_string());
            i += 1;
        } else if c == '-' || c == '.' || c.is_ascii_digit() {
            let start = i;
            i += 1;
            while i < b.len() && {
                let d = b[i] as char;
                d.is_ascii_digit() || d == '.'
            } {
                i += 1;
            }
            toks.push(d[start..i].to_string());
        } else {
            i += 1;
        }
    }
    let mut out = Vec::new();
    let (mut cx, mut cy, mut sx, mut sy) = (0.0, 0.0, 0.0, 0.0);
    let mut j = 0;
    let mut cmd = ' ';
    let num = |j: &mut usize| -> f64 {
        let v = toks[*j].parse().unwrap();
        *j += 1;
        v
    };
    while j < toks.len() {
        if toks[j].chars().next().unwrap().is_ascii_alphabetic() {
            cmd = toks[j].chars().next().unwrap();
            j += 1;
        }
        let rel = cmd.is_ascii_lowercase();
        match cmd.to_ascii_uppercase() {
            'M' => {
                let (mut x, mut y) = (num(&mut j), num(&mut j));
                if rel {
                    x += cx;
                    y += cy;
                }
                cx = x;
                cy = y;
                sx = x;
                sy = y;
                out.push((cx, cy));
                cmd = if rel { 'l' } else { 'L' };
            }
            'L' => {
                let (mut x, mut y) = (num(&mut j), num(&mut j));
                if rel {
                    x += cx;
                    y += cy;
                }
                cx = x;
                cy = y;
                out.push((cx, cy));
            }
            'H' => {
                let mut x = num(&mut j);
                if rel {
                    x += cx;
                }
                cx = x;
                out.push((cx, cy));
            }
            'V' => {
                let mut y = num(&mut j);
                if rel {
                    y += cy;
                }
                cy = y;
                out.push((cx, cy));
            }
            'Z' => {
                cx = sx;
                cy = sy;
            }
            _ => unreachable!(),
        }
    }
    out
}

#[test]
fn relative_and_absolute_encode_same_geometry() {
    let shape = holed_shape();
    let abs = SvgWriter { relative: false, shorthands: false, precision: Some(2) }
        .encode_path(&shape, &float);
    for shorthands in [false, true] {
        let rel = SvgWriter { relative: true, shorthands, precision: Some(2) }
            .encode_path(&shape, &float);
        assert_eq!(
            parse_abs(&abs),
            parse_abs(&rel),
            "relative (shorthands={shorthands}) geometry diverges from absolute:\n abs={abs}\n rel={rel}"
        );
    }
}

#[test]
fn fixed_text_of_extremes() {
    let mut s = String::new();
    push_num_fixed(&mut s, i64::MIN, 19);
    assert_eq!(s, "-.9223372036854775808");
    s.clear();
    push_num_fixed(&mut s, 1200, 3);
    assert_eq!(s, "1.2");
    s.clear();
    push_num_fixed(&mut s, 1005, 3);
    assert_eq!(s, "1.005");
    s.clear();
    push_num_fixed(&mut s, -7, 0);
    assert_eq!(s, "-7");
    s.clear();
    push_num_fixed(&mut s, 0, 2);
    assert_eq!(s, "");
}

#[test]
fn full_precision_asks_the_float_formatter() {
    assert_eq!(fmt_num(num(0.1), None, &float), ".1");
    assert_eq!(fmt_num(num(-0.25), None, &float), "-.25");
    assert_eq!(fmt_num(num(100.0), None, &float), "100");
    assert_eq!(fmt_num(num(-0.0), None, &float), "0");
    assert_eq!(fmt_num(num(1e300), Some(0), &float), format!("{:.0}", 1e300));
    assert_eq!(fmt_num(num(1e307), Some(2), &float), format!("{:.0}", 1e307));
    assert_eq!(fmt_num(num(f64::NAN), Some(2), &float), "NaN");
    assert_eq!(fmt_num(num(f64::NEG_INFINITY), Some(2), &float), "-inf");
    assert_eq!(fmt_num(num(0.5), Some(16), &float), ".5");
    assert_eq!(fmt_num(num(1e-40), Some(16), &float), "0");
}

#[test]
fn ties_keep_the_earlier_candidate() {
    let mut best = String::new();
    consider(&mut best, "abc");
    assert_eq!(best, "abc");
    consider(&mut best, "xyz");
    assert_eq!(best, "abc");
    consider(&mut best, "xy");
    assert_eq!(best, "xy");
}

#[test]
fn smooth_cubics_are_shortened() {
    let sub = SubPath {
        commands: vec![
            PathCmd::MoveTo(pt(0.0, 0.0)),
            PathCmd::CubicTo(pt(0.0, 5.0), pt(5.0, 10.0), pt(10.0, 10.0)),
            PathCmd::CubicTo(pt(15.0, 10.0), pt(20.0, 15.0), pt(20.0, 20.0)),
            PathCmd::CubicTo(pt(1.0, 2.0), pt(3.0, 4.0), pt(5.0, 6.0)),
            PathCmd::Close,
        ],
    };
    let shape = Shape {
        paint: Paint::Solid(Color { r: 0, g: 0, b: 0, a: 255 }),
        path: MultiPath { subpaths: vec![sub] },
    };
    let short = SvgWriter::default().encode_path(&shape, &float);
    assert_eq!(short, "M0,0C0,5,5,10,10,10s10,5,10,10C1,2,3,4,5,6Z");
    let long = SvgWriter { relative: false, shorthands: false, precision: Some(2) }
        .encode_path(&shape, &float);
    assert_eq!(long, "M0,0C0,5,5,10,10,10C15,10,20,15,20,20C1,2,3,4,5,6Z");
}

#[test]
fn relative_moves_start_from_the_closed_subpath() {
    let d = SvgWriter::default().encode_path(&holed_shape(), &float);
    assert_eq!(d, "M0,0H30V30H0ZM10,10H20V20H10Z");
    let far = Shape {
        paint: Paint::Solid(Color { r: 0, g: 0, b: 0, a: 255 }),
        path: MultiPath {
            subpaths: vec![
                SubPath {
                    commands: vec![
                        PathCmd::MoveTo(pt(1000.0, 1000.0)),
                        PathCmd::LineTo(pt(2000.0, 1000.0)),
                        PathCmd::Close,
                    ],
                },
                SubPath {
                    commands: vec![
                        PathCmd::MoveTo(pt(1001.0, 1002.0)),
                        PathCmd::LineTo(pt(1001.5, 999.0)),
                    ],
                },
            ],
        },
    };
    let d = SvgWriter::default().encode_path(&far, &float);
    assert_eq!(d, "M1000,1000H2000Zm1,2l.5-3");
}

fn dot(color: Color, x: f64) -> Shape {
    Shape {
        paint: Paint::Solid(color),
        path: MultiPath {
            subpaths: vec![SubPath {
                commands: vec![PathCmd::MoveTo(pt(x, 0.0)), PathCmd::Close],
            }],
        },
    }
}

#[test]
fn fills_are_hexadecimal_without_alpha() {
    assert_eq!(shape_fill(&dot(Color { r: 171, g: 5, b: 240, a: 7 }, 0.0)), "#AB05F0");
}

#[test]
fn groups_runs_of_one_fill() {
    let red = Color { r: 255, g: 0, b: 0, a: 255 };
    let blue = Color { r: 0, g: 0, b: 255, a: 255 };
    let empty = Shape { paint: Paint::Solid(blue), path: MultiPath::new() };
    let doc = VectorDoc {
        width: 40,
        height: 7,
        shapes: vec![dot(red, 1.0), dot(red, 2.0), dot(blue, 3.0), empty, dot(red, 4.0)],
    };
    let head = format!(
        "<?xml version=\"1.0\" encoding=\"UTF-8\"?>\n<!-- Generator: visioncortex VTracer {} -->\n<svg version=\"1.1\" xmlns=\"http://www.w3.org/2000/svg\" width=\"40\" height=\"7\">\n",
        VERSION
    );
    let grouped = SvgWriter::default().write(&doc, &float);
    assert_eq!(
        grouped,
        format!(
            "{}<g fill=\"#FF0000\">\n<path d=\"M1,0Z\"/>\n<path d=\"M2,0Z\"/>\n</g>\n<g fill=\"#0000FF\">\n<path d=\"M3,0Z\"/>\n</g>\n<path d=\"M4,0Z\" fill=\"#FF0000\"/>\n</svg>\n",
            head
        )
    );
    let plain = SvgWriter { relative: true, shorthands: false, precision: Some(2) }.write(&doc, &float);
    assert_eq!(
        plain,
        format!(
            "{}<path d=\"M1,0Z\" fill=\"#FF0000\"/>\n<path d=\"M2,0Z\" fill=\"#FF0000\"/>\n<path d=\"M3,0Z\" fill=\"#0000FF\"/>\n<path d=\"M4,0Z\" fill=\"#FF0000\"/>\n</svg>\n",
            head
        )
    );
}

fn outline(commands: Vec<PathCmd>) -> Shape {
    Shape {
        paint: Paint::Solid(Color { r: 0, g: 0, b: 0, a: 255 }),
        path: MultiPath { subpaths: vec![SubPath { commands }] },
    }
}

#[test]
fn full_precision_takes_only_exact_differences() {
    let full = SvgWriter { relative: true, shorthands: true, precision: None };
    // The float difference is 1, but the values are not 1 apart.
    assert_eq!(1.1f64 - 0.1, 1.0);
    let rounded = outline(vec![PathCmd::MoveTo(pt(0.1, 0.0)), PathCmd::LineTo(pt(1.1, 0.0))]);
    assert_eq!(full.encode_path(&rounded, &float), "M.1,0H1.1");
    let exact = outline(vec![PathCmd::MoveTo(pt(1000.5, 0.0)), PathCmd::LineTo(pt(1001.0, 0.0))]);
    assert_eq!(full.encode_path(&exact, &float), "M1000.5,0h.5");
    let infinite = outline(vec![
        PathCmd::MoveTo(pt(f64::INFINITY, 0.0)),
        PathCmd::LineTo(pt(f64::NEG_INFINITY, 5.0)),
    ]);
    assert_eq!(full.encode_path(&infinite, &float), "Minf,0L-inf,5");
}

#[test]
fn full_precision_takes_only_the_mirror_image() {
    let full = SvgWriter { relative: true, shorthands: true, precision: None };
    let curve = |x: f64| {
        outline(vec![
            PathCmd::MoveTo(pt(0.0, 0.0)),
            PathCmd::CubicTo(pt(0.0, 5.0), pt(5.0, 10.0), pt(10.0, 10.0)),
            PathCmd::CubicTo(pt(x, 10.0), pt(20.0, 15.0), pt(20.0, 20.0)),
        ])
    };
    assert_eq!(full.encode_path(&curve(15.0), &float), "M0,0C0,5,5,10,10,10s10,5,10,10");
    let near = full.encode_path(&curve(15.0000001), &float);
    assert_eq!(near, "M0,0C0,5,5,10,10,10C15.0000001,10,20,15,20,20");
}

#[test]
fn numbers_that_are_no_whole_parts_stay_absolute() {
    let steps = outline(vec![
        PathCmd::MoveTo(pt(1000.0, 1000.0)),
        PathCmd::LineTo(pt(1001.0, 1002.0)),
        PathCmd::LineTo(pt(1001.0, 1003.0)),
    ]);
    let at = |p| SvgWriter { relative: true, shorthands: true, precision: Some(p) };
    assert_eq!(at(16).encode_path(&steps, &float), "M1000,1000L1001,1002V1003");
    assert_eq!(at(2).encode_path(&steps, &float), "M1000,1000l1,2v1");
    let far = outline(vec![
        PathCmd::MoveTo(pt(1e15, 1e15)),
        PathCmd::LineTo(pt(1e15 + 64.0, 1e15 + 128.0)),
    ]);
    assert_eq!(
        at(2).encode_path(&far, &float),
        "M1000000000000000,1000000000000000L1000000000000064,1000000000000128"
    );
}

#[test]
fn float_texts_are_spare() {
    assert_eq!(fmt_num(num(-0.5), Some(16), &float), "-.5");
    assert_eq!(fmt_num(num(10.0), Some(20), &float), "10");
    assert_eq!(fmt_num(num(f64::from_bits(1)), Some(310), &float), "0");
    let mut text = String::new();
    push_num_float(&mut text, num(-120.250), Some(4), &float);
    assert_eq!(text, "-120.25");
}
