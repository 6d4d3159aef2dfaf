use vtracer::ir::{Color, MultiPath, Paint, PathCmd, Point, Shape, SubPath, VectorDoc};
use vtracer::number::push_num_fixed;
use vtracer::scalar::Scalar;
use vtracer::svg::SvgWriter;

fn float(_: Scalar, _: Option<u32>) -> Option<String> {
    panic!("every number here is written by the integer formatter")
}

/// A reproducible stream of numbers.
struct Stream(u64);

impl Stream {
    fn below(&mut self, n: u64) -> u64 {
        self.0 = self.0.wrapping_mul(6364136223846793005).wrapping_add(1442695040888963407);
        (self.0 >> 33) % n
    }

    /// A whole number of parts; the stream favours small ones and repeats.
    fn parts(&mut self) -> i64 {
        match self.below(4) {
            0 => 0,
            1 => self.below(20) as i64 - 10,
            2 => self.below(2000) as i64 - 1000,
            _ => self.below(2_000_000) as i64 - 1_000_000,
        }
    }
}

/// The point that lies so many parts from the origin.
fn at(x: i64, y: i64, p: u32) -> Point {
    let scale = 10f64.powi(p as i32);
    Point {
        x: Scalar { bits: (x as f64 / scale).to_bits() },
        y: Scalar { bits: (y as f64 / scale).to_bits() },
    }
}

/// A drawn command, in parts.
#[derive(Debug, PartialEq)]
enum Drawn {
    Move(i64, i64),
    Line(i64, i64),
    Cubic([(i64, i64); 3]),
    Close,
}

/// A shape on the grid of `p` decimals, and what it draws.
fn shape(seed: u64, p: u32) -> (Shape, Vec<Drawn>) {
    let mut s = Stream(seed);
    let mut commands = Vec::new();
    let mut drawn = Vec::new();
    let (mut x, mut y) = (s.parts(), s.parts());
    let mut start = (x, y);
    let mut last = None;
    commands.push(PathCmd::MoveTo(at(x, y, p)));
    drawn.push(Drawn::Move(x, y));
    for _ in 0..60 {
        match s.below(8) {
            0 => {
                commands.push(PathCmd::Close);
                drawn.push(Drawn::Close);
                (x, y) = start;
                last = None;
            }
            1 => {
                (x, y) = (s.parts(), s.parts());
                start = (x, y);
                commands.push(PathCmd::MoveTo(at(x, y, p)));
                drawn.push(Drawn::Move(x, y));
                last = None;
            }
            2 | 3 | 4 => {
                match s.below(3) {
                    0 => x = s.parts(),
                    1 => y = s.parts(),
                    _ => (x, y) = (s.parts(), s.parts()),
                }
                commands.push(PathCmd::LineTo(at(x, y, p)));
                drawn.push(Drawn::Line(x, y));
                last = None;
            }
            _ => {
                let c1 = match last {
                    Some((cx, cy)) if s.below(2) == 0 => (2 * x - cx, 2 * y - cy),
                    _ => (s.parts(), s.parts()),
                };
                let c2 = (s.parts(), s.parts());
                let e = (s.parts(), s.parts());
                commands.push(PathCmd::CubicTo(
                    at(c1.0, c1.1, p),
                    at(c2.0, c2.1, p),
                    at(e.0, e.1, p),
                ));
                drawn.push(Drawn::Cubic([c1, c2, e]));
                (x, y) = e;
                last = Some(c2);
            }
        }
    }
    let paint = Paint::Solid(Color { r: seed as u8, g: 0, b: 0, a: 255 });
    (Shape { paint, path: MultiPath { subpaths: vec![SubPath { commands }] } }, drawn)
}

/// Reads path data.
struct Reader<'a> {
    data: &'a [u8],
    i: usize,
    p: u32,
}

impl Reader<'_> {
    /// The number that comes next, in parts.
    fn number(&mut self) -> i64 {
        if self.data[self.i] == b',' {
            self.i += 1;
        }
        let negative = self.data[self.i] == b'-';
        if negative {
            self.i += 1;
        }
        let mut n = 0i64;
        let mut digits = 0;
        let mut dotted = false;
        while self.i < self.data.len() {
            let c = self.data[self.i];
            if c.is_ascii_digit() {
                n = 10 * n + (c - b'0') as i64;
                if dotted {
                    digits += 1;
                }
            } else if c == b'.' && !dotted {
                dotted = true;
            } else {
                break;
            }
            self.i += 1;
        }
        while digits < self.p {
            n *= 10;
            digits += 1;
        }
        assert_eq!(digits, self.p);
        if negative {
            -n
        } else {
            n
        }
    }

    fn read(mut self) -> Vec<Drawn> {
        let mut out = Vec::new();
        let (mut x, mut y, mut start) = (0, 0, (0, 0));
        let mut last: Option<(i64, i64)> = None;
        while self.i < self.data.len() {
            let letter = self.data[self.i] as char;
            self.i += 1;
            let (ox, oy) = if letter.is_ascii_lowercase() { (x, y) } else { (0, 0) };
            let mut control = None;
            match letter.to_ascii_uppercase() {
                'M' => {
                    (x, y) = (ox + self.number(), oy + self.number());
                    start = (x, y);
                    out.push(Drawn::Move(x, y));
                }
                'L' => {
                    (x, y) = (ox + self.number(), oy + self.number());
                    out.push(Drawn::Line(x, y));
                }
                'H' => {
                    x = ox + self.number();
                    out.push(Drawn::Line(x, y));
                }
                'V' => {
                    y = oy + self.number();
                    out.push(Drawn::Line(x, y));
                }
                'C' | 'S' => {
                    let c1 = if letter.to_ascii_uppercase() == 'C' {
                        (ox + self.number(), oy + self.number())
                    } else {
                        let (cx, cy) = last.unwrap();
                        (2 * x - cx, 2 * y - cy)
                    };
                    let c2 = (ox + self.number(), oy + self.number());
                    let e = (ox + self.number(), oy + self.number());
                    out.push(Drawn::Cubic([c1, c2, e]));
                    (x, y) = e;
                    control = Some(c2);
                }
                'Z' => {
                    (x, y) = start;
                    out.push(Drawn::Close);
                }
                _ => panic!("unknown command {letter}"),
            }
            last = control;
        }
        out
    }
}

fn writers(p: u32) -> [SvgWriter; 4] {
    let w = |relative, shorthands| SvgWriter { relative, shorthands, precision: Some(p) };
    [w(false, false), w(true, false), w(false, true), w(true, true)]
}

#[test]
fn grid_paths_read_back_whatever_the_options() {
    for p in 0..=5u32 {
        for seed in 0..30u64 {
            let (shape, drawn) = shape(seed, p);
            for w in writers(p) {
                let d = w.encode_path(&shape, &float);
                let read = Reader { data: d.as_bytes(), i: 0, p }.read();
                assert_eq!(read, drawn, "p={p} seed={seed} d={d}");
            }
        }
    }
}

#[test]
fn fine_grid_paths_read_back_whatever_the_options() {
    for p in 6..=12u32 {
        for seed in 0..10u64 {
            let (shape, drawn) = shape(seed, p);
            for w in writers(p) {
                let d = w.encode_path(&shape, &float);
                let read = Reader { data: d.as_bytes(), i: 0, p }.read();
                assert_eq!(read, drawn, "p={p} seed={seed} d={d}");
            }
        }
    }
}

/// A control point counts as mirrored within a millionth, unless that shows in what
/// is written.
#[test]
fn written_control_points_mirror_each_other() {
    for (off, p, smooth) in
        [(0, 7, true), (5, 7, false), (20, 7, false), (5, 2, true), (20, 2, false)]
    {
        let shape = Shape {
            paint: Paint::Solid(Color { r: 0, g: 0, b: 0, a: 255 }),
            path: MultiPath {
                subpaths: vec![SubPath {
                    commands: vec![
                        PathCmd::MoveTo(at(0, 0, 7)),
                        PathCmd::CubicTo(at(1, 1, 0), at(2, 2, 0), at(3, 2, 0)),
                        PathCmd::CubicTo(at(40_000_000 + off, 20_000_000, 7), at(5, 6, 0), at(7, 8, 0)),
                    ],
                }],
            },
        };
        let w = SvgWriter { relative: false, shorthands: true, precision: Some(p) };
        assert_eq!(w.encode_path(&shape, &float).contains('S'), smooth);
    }
}

#[test]
fn options_never_lengthen_path_data() {
    for p in 0..=5u32 {
        for seed in 0..30u64 {
            let (shape, _) = shape(seed, p);
            let [a, b, c, d] = writers(p).map(|w| w.encode_path(&shape, &float).len());
            assert!(b <= a && c <= a && d <= b && d <= c);
            assert!(d < a);
        }
    }
}

#[test]
fn options_bring_only_their_letters() {
    for seed in 0..30u64 {
        let (shape, _) = shape(seed, 2);
        let [a, b, c, d] = writers(2).map(|w| w.encode_path(&shape, &float));
        let letters = |s: &str, allowed: &str| {
            s.chars().filter(|c| c.is_ascii_alphabetic()).all(|c| allowed.contains(c))
        };
        assert!(letters(&a, "MLCZ"));
        assert!(letters(&b, "MLCZmlc"));
        assert!(letters(&c, "MLCZHVS"));
        assert!(letters(&d, "MLCZHVSmlchvs"));
        for s in [a, b, c, d] {
            assert!(s.starts_with('M'));
        }
    }
}

#[test]
fn options_never_lengthen_documents_worth_grouping() {
    let shapes = || (0..12u64).map(|i| shape(i / 3, 2).0).collect::<Vec<Shape>>();
    let doc = VectorDoc { width: 9, height: 9, shapes: shapes() };
    let [a, b, c, d] = writers(2).map(|w| w.write(&doc, &float).len());
    assert!(b <= a && c <= a && d <= b && d <= c);
    // A group around a single element costs more than the fill that it spares.
    let black = Paint::Solid(Color { r: 0, g: 0, b: 0, a: 255 });
    let dot = SubPath { commands: vec![PathCmd::MoveTo(at(0, 0, 2))] };
    let doc = VectorDoc {
        width: 9,
        height: 9,
        shapes: vec![
            Shape { paint: black, path: MultiPath { subpaths: vec![dot] } },
            Shape { paint: black, path: MultiPath::new() },
        ],
    };
    let [a, _, c, _] = writers(2).map(|w| w.write(&doc, &float).len());
    assert_eq!(c, a + 9);
}

#[test]
fn grouping_keeps_the_paint_order() {
    let fills = [3u64, 3, 1, 3, 2, 2, 2, 1];
    let doc = VectorDoc {
        width: 1,
        height: 1,
        shapes: fills.iter().map(|f| shape(*f, 2).0).collect(),
    };
    let text = SvgWriter::default().write(&doc, &float);
    let mut read = Vec::new();
    let mut group: Option<String> = None;
    let mut groups = 0;
    for line in text.lines() {
        if let Some(rest) = line.strip_prefix("<g fill=\"") {
            group = rest.strip_suffix("\">").map(|s| s.to_string());
            groups += 1;
        } else if line == "</g>" {
            group = None;
        } else if line.starts_with("<path ") {
            let fill = match &group {
                Some(fill) => {
                    assert!(!line.contains("fill="));
                    fill.clone()
                }
                None => line.split("fill=\"").nth(1).unwrap()[..7].to_string(),
            };
            read.push(fill);
        }
    }
    let expected: Vec<String> = fills.iter().map(|f| format!("#{f:02X}0000")).collect();
    assert_eq!(read, expected);
    assert_eq!(groups, 2);
}

#[test]
fn fixed_text_spends_no_spare_character() {
    for p in 0..=15u32 {
        for n in (-1200i64..=1200).chain([-90_000_000, 123_400_000, i64::MAX, i64::MIN]) {
            if n == 0 {
                continue;
            }
            let mut s = String::new();
            push_num_fixed(&mut s, n, p);
            let digits = s.strip_prefix('-').unwrap_or(&s);
            assert!(!digits.is_empty() && !digits.starts_with('0'), "{s}");
            assert!(!s.contains('.') || !(s.ends_with('0') || s.ends_with('.')), "{s}");
            let full = format!("{}{}", if n < 0 { "-" } else { "" }, {
                let a = n.unsigned_abs();
                let scale = 10u64.pow(p);
                if p == 0 {
                    format!("{a}")
                } else {
                    format!("{}.{:0w$}", a / scale, a % scale, w = p as usize)
                }
            });
            let mut float = String::new();
            vtracer::number::push_float_text(&mut float, &full);
            assert_eq!(s, float);
        }
    }
}

fn path_of(commands: Vec<PathCmd>) -> Shape {
    Shape {
        paint: Paint::Solid(Color { r: 0, g: 0, b: 0, a: 255 }),
        path: MultiPath { subpaths: vec![SubPath { commands }] },
    }
}

fn exact(x: f64, y: f64) -> Point {
    Point { x: Scalar { bits: x.to_bits() }, y: Scalar { bits: y.to_bits() } }
}

/// Coordinates finer than the precision do not drift: what a relative number leads
/// to is what is written of the point.
#[test]
fn relative_numbers_do_not_drift() {
    let shape = path_of(vec![
        PathCmd::MoveTo(exact(1000.0, 0.0)),
        PathCmd::LineTo(exact(1000.004, 0.0)),
        PathCmd::LineTo(exact(1000.008, 0.0)),
        PathCmd::LineTo(exact(1000.012, 0.0)),
    ]);
    let absolute = SvgWriter { relative: false, shorthands: true, precision: Some(2) };
    let relative = SvgWriter { relative: true, shorthands: true, precision: Some(2) };
    assert_eq!(absolute.encode_path(&shape, &float), "M1000,0H1000H1000.01H1000.01");
    assert_eq!(relative.encode_path(&shape, &float), "M1000,0h0h.01h0");

    let shape = path_of(vec![
        PathCmd::MoveTo(exact(100.0, 0.0)),
        PathCmd::LineTo(exact(100.4, 3.0)),
        PathCmd::LineTo(exact(100.8, 6.0)),
    ]);
    let w = SvgWriter { relative: true, shorthands: false, precision: Some(0) };
    let d = w.encode_path(&shape, &float);
    assert_eq!(d, "M100,0l0,3l1,3");
    assert_eq!(
        Reader { data: d.as_bytes(), i: 0, p: 0 }.read(),
        [Drawn::Move(100, 0), Drawn::Line(100, 3), Drawn::Line(101, 6)]
    );
}

/// Whatever the coordinates, all options write the same geometry, and it is the
/// coordinates rounded to the precision.
#[test]
fn options_keep_the_geometry_of_any_coordinates() {
    for p in 0..=7u32 {
        let scale = 10f64.powi(p as i32);
        for seed in 0..20u64 {
            let mut s = Stream(seed);
            let mut coordinate = || (s.below(2_000_001) as f64 - 1e6) / 1000.0 / scale;
            let mut commands = vec![PathCmd::MoveTo(exact(coordinate(), coordinate()))];
            let (mut x, mut y) = (coordinate(), coordinate());
            commands.push(PathCmd::LineTo(exact(x, y)));
            let mut last = None;
            for k in 0..40 {
                let c1 = match last {
                    Some((cx, cy)) if k % 2 == 0 => (2.0 * x - cx, 2.0 * y - cy),
                    _ => (coordinate(), coordinate()),
                };
                let c2 = (coordinate(), coordinate());
                (x, y) = (coordinate(), coordinate());
                commands.push(PathCmd::CubicTo(
                    exact(c1.0, c1.1),
                    exact(c2.0, c2.1),
                    exact(x, y),
                ));
                last = Some(c2);
                if k % 5 == 0 {
                    y = coordinate();
                    commands.push(PathCmd::LineTo(exact(x, y)));
                    last = None;
                }
            }
            let parts = |q: Point| {
                let r = |b: u64| (f64::from_bits(b) * scale).round() as i64;
                (r(q.x.bits), r(q.y.bits))
            };
            let drawn: Vec<Drawn> = commands
                .iter()
                .map(|c| match *c {
                    PathCmd::MoveTo(q) => Drawn::Move(parts(q).0, parts(q).1),
                    PathCmd::LineTo(q) => Drawn::Line(parts(q).0, parts(q).1),
                    PathCmd::CubicTo(a, b, c) => Drawn::Cubic([parts(a), parts(b), parts(c)]),
                    PathCmd::Close => Drawn::Close,
                })
                .collect();
            let shape = path_of(commands);
            for w in writers(p) {
                let d = w.encode_path(&shape, &float);
                assert_eq!(Reader { data: d.as_bytes(), i: 0, p }.read(), drawn, "{d}");
            }
        }
    }
}

/// The standard library's float formatter at full precision.
fn full(v: Scalar, precision: Option<u32>) -> Option<String> {
    assert!(precision.is_none());
    Some(format!("{}", f64::from_bits(v.bits)))
}

#[test]
fn full_precision_loses_nothing() {
    let mut s = Stream(5);
    for _ in 0..500 {
        let v = f64::from_bits((s.below(1 << 31) << 33) ^ (s.below(1 << 31) << 2) ^ s.below(4));
        if !v.is_finite() {
            continue;
        }
        let t = vtracer::number::fmt_num(Scalar { bits: v.to_bits() }, None, &full);
        assert_eq!(t.parse::<f64>(), Ok(v));
        let digits = t.strip_prefix('-').unwrap_or(&t);
        assert!(digits.chars().all(|c| c.is_ascii_digit() || c == '.'));
        assert!(digits.matches('.').count() <= 1);
    }
    let shape = path_of(vec![
        PathCmd::MoveTo(exact(0.1, -0.0)),
        PathCmd::LineTo(exact(-0.30000000000000004, 1e-7)),
        PathCmd::CubicTo(exact(1.0, 2.5), exact(3.0, 1e21), exact(-5.125, 6.0)),
        PathCmd::Close,
    ]);
    let w = SvgWriter { relative: false, shorthands: false, precision: None };
    assert_eq!(
        w.encode_path(&shape, &full),
        "M.1,0L-.30000000000000004,.0000001C1,2.5,3,1000000000000000000000-5.125,6Z"
    );
}

#[test]
fn numbers_are_symmetric_about_zero() {
    let mut s = Stream(9);
    for p in 0..=15u32 {
        for _ in 0..200 {
            let v = s.below(4_000_001) as f64 / 4e6 + s.below(3) as f64;
            let t = |v: f64| {
                vtracer::number::fmt_num(Scalar { bits: v.to_bits() }, Some(p), &float)
            };
            let expected = if t(v) == "0" { "0".to_string() } else { format!("-{}", t(v)) };
            assert_eq!(t(-v), expected);
        }
    }
}

#[test]
fn documents_read_back() {
    let mut shapes: Vec<Shape> =
        [3u64, 3, 1, 3, 2, 2, 2, 1].iter().map(|f| shape(*f, 2).0).collect();
    let blue = Paint::Solid(Color { r: 2, g: 0, b: 0, a: 255 });
    shapes.insert(5, Shape { paint: blue, path: MultiPath::new() });
    let doc = VectorDoc { width: 12, height: 345, shapes };
    for w in writers(2) {
        let text = w.write(&doc, &float);
        assert!(text.contains(" width=\"12\" height=\"345\">\n"));
        let mut read = Vec::new();
        let mut group: Option<String> = None;
        for line in text.lines() {
            if let Some(rest) = line.strip_prefix("<g fill=\"") {
                group = rest.strip_suffix("\">").map(|s| s.to_string());
            } else if line == "</g>" {
                group = None;
            } else if let Some(rest) = line.strip_prefix("<path d=\"") {
                let parts: Vec<&str> = rest.split('"').collect();
                let fill = match &group {
                    Some(fill) => fill.clone(),
                    None => parts[2].to_string(),
                };
                read.push((parts[0].to_string(), fill));
            }
        }
        let expected: Vec<(String, String)> = doc
            .shapes
            .iter()
            .filter(|s| !s.path.subpaths.is_empty())
            .map(|s| (w.encode_path(s, &float), vtracer::svg::shape_fill(s)))
            .collect();
        assert_eq!(read, expected);
    }
}

/// Reads path data as floats: each command's letter in upper case, and its absolute
/// coordinates.
fn read_floats(d: &str) -> Vec<(char, Vec<f64>)> {
    let bytes = d.as_bytes();
    let mut out: Vec<(char, Vec<f64>)> = Vec::new();
    let (mut at, mut start, mut control) = ([0.0f64; 2], [0.0f64; 2], None);
    let mut i = 0;
    while i < bytes.len() {
        let letter = bytes[i] as char;
        i += 1;
        let mut ns: Vec<f64> = Vec::new();
        while i < bytes.len() && !bytes[i].is_ascii_alphabetic() {
            if bytes[i] == b',' {
                i += 1;
            }
            let from = i;
            i += 1;
            while i < bytes.len() && (bytes[i].is_ascii_digit() || bytes[i] == b'.') {
                i += 1;
            }
            ns.push(d[from..i].parse().unwrap());
        }
        let small = letter.is_ascii_lowercase();
        let vertical = letter.to_ascii_uppercase() == 'V';
        for (k, n) in ns.iter_mut().enumerate() {
            if small {
                *n += at[if vertical { 1 } else { k % 2 }];
            }
        }
        let upper = letter.to_ascii_uppercase();
        let (name, ns) = match upper {
            'H' => ('L', vec![ns[0], at[1]]),
            'V' => ('L', vec![at[0], ns[0]]),
            'S' => {
                let [x, y]: [f64; 2] = control.unwrap();
                let mut all = vec![2.0 * at[0] - x, 2.0 * at[1] - y];
                all.extend(ns);
                ('C', all)
            }
            _ => (upper, ns),
        };
        control = if name == 'C' { Some([ns[2], ns[3]]) } else { None };
        at = if name == 'Z' { start } else { [ns[ns.len() - 2], ns[ns.len() - 1]] };
        if name == 'M' {
            start = at;
        }
        out.push((name, ns));
    }
    out
}

/// Without a precision, all options write the very coordinates.
#[test]
fn full_precision_paths_read_back_whatever_the_options() {
    let (mut small, mut smooth) = (0, 0);
    for seed in 0..60u64 {
        let mut s = Stream(seed);
        let mut coordinate = || match s.below(5) {
            0 => s.below(4000) as f64 / 4.0 - 500.0,
            1 => s.below(40) as f64 / 10.0,
            2 => 1000.0 + s.below(1000) as f64 / 1000.0,
            3 => f64::from_bits(((1000 + s.below(60)) << 52) | (s.below(1 << 31) << 21)),
            _ => 0.0,
        };
        let (mut x, mut y) = (coordinate(), coordinate());
        let mut commands = vec![PathCmd::MoveTo(exact(x, y))];
        let mut drawn = vec![('M', vec![x, y])];
        let mut last: Option<(f64, f64)> = None;
        for k in 0..60 {
            if k % 3 == 0 {
                if k % 2 == 0 {
                    x = coordinate();
                } else {
                    y = coordinate();
                }
                commands.push(PathCmd::LineTo(exact(x, y)));
                drawn.push(('L', vec![x, y]));
                last = None;
            } else {
                let c1 = match last {
                    Some((cx, cy)) => {
                        let off = if k % 4 == 0 { 1e-7 } else { 0.0 };
                        (2.0 * x - cx + off, 2.0 * y - cy)
                    }
                    None => (coordinate(), coordinate()),
                };
                let c2 = (coordinate(), coordinate());
                (x, y) = (coordinate(), coordinate());
                commands.push(PathCmd::CubicTo(
                    exact(c1.0, c1.1),
                    exact(c2.0, c2.1),
                    exact(x, y),
                ));
                drawn.push(('C', vec![c1.0, c1.1, c2.0, c2.1, x, y]));
                last = Some(c2);
            }
        }
        commands.push(PathCmd::Close);
        drawn.push(('Z', vec![]));
        let shape = path_of(commands);
        for (relative, shorthands) in [(false, false), (true, false), (false, true), (true, true)] {
            let d = SvgWriter { relative, shorthands, precision: None }.encode_path(&shape, &full);
            assert_eq!(read_floats(&d), drawn, "{d}");
            small += d.chars().filter(|c| c.is_ascii_lowercase()).count();
            smooth += d.chars().filter(|c| c.to_ascii_uppercase() == 'S').count();
        }
    }
    assert!(small > 100 && smooth > 100);
}
