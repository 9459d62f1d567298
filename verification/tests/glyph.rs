use font_gen::glyph::{Glyph, Path, Point};
use font_gen::util::{CodecError, DekuRW};

fn reach(x: i16, y: i16, radians: u32, distance: i16) -> (i16, i16) {
    let angle = f32::from_bits(radians);
    let amount = f32::from(distance);
    (x + ((angle.cos() * amount) as i16), y + ((angle.sin() * amount) as i16))
}

fn turn(angle: u32) -> u32 {
    let draw = 0.05f32;
    (f32::from_bits(angle) + draw.powi(3)).to_bits()
}

#[test]
fn a_new_glyph_has_the_starting_path() {
    let glyph = Glyph::new('a');
    assert_eq!(glyph.char, 'a');
    assert_eq!(glyph.char(), 'a');
    assert_eq!(glyph.paths().len(), 1);
    let points = glyph.paths()[0].points();
    assert_eq!(points.len(), 3);
    assert_eq!(points[0].position, [16384, 8192]);
    assert_eq!(points[1].position, [24576, 16384]);
    assert_eq!(points[2].position, [8192, 16384]);
    assert_eq!(points[0].radians, 0f32.to_radians().to_bits());
    assert_eq!(points[1].radians, 90f32.to_radians().to_bits());
    assert_eq!(points[2].radians, 270f32.to_radians().to_bits());
    for point in points.iter() {
        assert_eq!(point.curviness, 4096);
    }
}

#[test]
fn a_glyph_is_its_character_then_its_paths() {
    let glyph = Glyph::new('a');
    let bytes = glyph.to_bytes();
    let mut expected: Vec<u8> = vec![0, 0, 0, 0x61, 0, 3];
    expected.extend_from_slice(&[0x40, 0x00, 0x20, 0x00, 0, 0, 0, 0, 0x10, 0x00]);
    expected.extend_from_slice(&[0x60, 0x00, 0x40, 0x00, 0x3F, 0xC9, 0x0F, 0xDB, 0x10, 0x00]);
    expected.extend_from_slice(&[0x20, 0x00, 0x40, 0x00, 0x40, 0x96, 0xCB, 0xE4, 0x10, 0x00]);
    assert_eq!(bytes, expected);
    let back = Glyph::read(&bytes).unwrap();
    assert_eq!(back.to_bytes(), bytes);
    assert_eq!(back.char, 'a');
}

#[test]
fn a_glyph_round_trips_with_negative_numbers_and_many_paths() {
    let mut glyph = Glyph::new('\u{10FFFF}');
    glyph.add_path();
    glyph.add_point(1);
    glyph.update_point(1, 3, |_| Point { position: [-1, i16::MIN], radians: 0xFFFF_FFFF, curviness: -4096 });
    glyph.update_point(0, 0, |p| Point { position: [i16::MAX, 0], ..p });
    let bytes = glyph.to_bytes();
    assert_eq!(bytes.len(), 4 + (2 + 30) + (2 + 40));
    let back = Glyph::read(&bytes).unwrap();
    assert_eq!(back.char, '\u{10FFFF}');
    assert_eq!(back.paths().len(), 2);
    assert_eq!(back.paths()[1].points().len(), 4);
    let last = back.paths()[1].points()[3];
    assert_eq!(last.position, [-1, i16::MIN]);
    assert_eq!(last.radians, 0xFFFF_FFFF);
    assert_eq!(last.curviness, -4096);
    assert_eq!(back.paths()[0].points()[0].position, [i16::MAX, 0]);
    assert_eq!(back.to_bytes(), bytes);
}

#[test]
fn a_glyph_without_paths_is_four_bytes() {
    let glyph = Glyph::read(&[0, 0, 0, 0]).unwrap();
    assert_eq!(glyph.char, '\u{0}');
    assert_eq!(glyph.paths().len(), 0);
    assert_eq!(glyph.to_bytes(), vec![0u8, 0, 0, 0]);
}

#[test]
fn a_malformed_glyph_is_rejected() {
    assert_eq!(Glyph::read(&[0, 0, 0]).err(), Some(CodecError::Incomplete));
    assert_eq!(Glyph::read(&[0, 0, 0xD8, 0]).err(), Some(CodecError::InvalidCharacter));
    assert_eq!(Glyph::read(&[0, 0x11, 0, 0]).err(), Some(CodecError::InvalidCharacter));
    assert_eq!(Glyph::read(&[0, 0, 0, 0x61, 0]).err(), Some(CodecError::Incomplete));
    assert_eq!(Glyph::read(&[0, 0, 0, 0x61, 0, 1]).err(), Some(CodecError::Incomplete));
    assert_eq!(
        Glyph::read(&[0, 0, 0, 0x61, 0, 1, 0, 0, 0, 0, 0, 0, 0, 0, 0]).err(),
        Some(CodecError::Incomplete)
    );
    assert!(Glyph::read(&[0, 0, 0, 0x61, 0, 0]).is_ok());
    assert!(Glyph::read(&[0, 0, 0, 0x61, 0, 1, 0, 0, 0, 0, 0, 0, 0, 0, 0, 0]).is_ok());
}

#[test]
fn add_point_appends_a_new_point() {
    let mut glyph = Glyph::new('x');
    glyph.add_point(0);
    let points = glyph.paths()[0].points();
    assert_eq!(points.len(), 4);
    assert_eq!(points[3].position, [0, 0]);
    assert_eq!(points[3].radians, 0);
    assert_eq!(points[3].curviness, 4096);
    glyph.add_point(7);
    assert_eq!(glyph.paths().len(), 1);
    assert_eq!(glyph.paths()[0].points().len(), 4);
    assert_eq!(glyph.to_bytes()[4..6], [0, 4]);
}

#[test]
fn update_point_outside_the_glyph_does_nothing() {
    let mut glyph = Glyph::new('x');
    let before = glyph.to_bytes();
    glyph.update_point(0, 3, |_| Point::new());
    glyph.update_point(1, 0, |_| Point::new());
    assert_eq!(glyph.to_bytes(), before);
}

#[test]
fn mutate_keeps_the_character_and_the_shape() {
    let mut glyph = Glyph::new('q');
    glyph.add_path();
    let before = glyph.clone();
    for _ in 0..50 {
        glyph.mutate(&turn);
    }
    assert_eq!(glyph.char, 'q');
    assert_eq!(glyph.paths().len(), 2);
    for (path, old) in glyph.paths().iter().zip(before.paths().iter()) {
        assert_eq!(path.points().len(), old.points().len());
        for (point, old_point) in path.points().iter().zip(old.points().iter()) {
            assert!(point.position[0] >= 0 && point.position[1] >= 0 && point.curviness >= 0);
            assert!((i32::from(point.position[0]) - i32::from(old_point.position[0])).abs() <= 50_000);
            assert_ne!(point.radians, old_point.radians);
        }
    }
}

#[test]
fn one_mutation_moves_each_number_by_a_cube() {
    let cubes: Vec<i32> = (-10..=10).map(|d: i32| d * d * d).collect();
    let mut steps = std::collections::BTreeSet::new();
    for _ in 0..200 {
        let mut point = Point { position: [5000, 3], radians: 7, curviness: 32760 };
        point.mutate(&|angle: u32| angle + 1);
        let dx = i32::from(point.position[0]) - 5000;
        assert!(cubes.contains(&dx));
        steps.insert(dx);
        let y = i32::from(point.position[1]);
        assert!(y == 0 || cubes.contains(&(y - 3)));
        let c = i32::from(point.curviness);
        assert!(c == 32767 || cubes.contains(&(c - 32760)));
        assert_eq!(point.radians, 8);
    }
    assert!(steps.len() > 3);
    assert!(steps.iter().any(|step| *step > 0));
    assert!(steps.iter().any(|step| *step < 0));
}

#[test]
fn variants_are_the_same_characters_in_some_order() {
    let glyphs = vec![Glyph::new('a'), Glyph::new('b'), Glyph::new('c'), Glyph::new('d')];
    let variants = Glyph::generate_variants(&glyphs, &turn);
    assert_eq!(variants.len(), 4);
    let mut chars: Vec<char> = variants.iter().map(|glyph| glyph.char).collect();
    chars.sort();
    assert_eq!(chars, vec!['a', 'b', 'c', 'd']);
    assert_eq!(glyphs[0].to_bytes(), Glyph::new('a').to_bytes());
    let mut orders = std::collections::BTreeSet::new();
    for _ in 0..40 {
        let order: Vec<char> =
            Glyph::generate_variants(&glyphs, &turn).iter().map(|glyph| glyph.char).collect();
        orders.insert(order);
    }
    assert!(orders.len() > 1);
}

#[test]
fn an_outline_is_closed_and_signed() {
    let glyph = Glyph::read(&[
        0, 0, 0, 0x61, 0, 2, 0, 10, 0, 20, 0, 0, 0, 0, 0, 5, 0xFF, 0xF6, 0x80, 0, 0, 0, 0, 0, 0, 7,
    ])
    .unwrap();
    let flat = |x: i16, y: i16, _radians: u32, distance: i16| (x.wrapping_add(distance), y);
    let text = glyph.to_svg_path_d(&flat);
    assert_eq!(
        text,
        "M+00010+00020C+00015+00020-00017-32768-00010-32768C-00003-32768+00005+00020+00010+00020Z"
    );
}

#[test]
fn the_starting_path_draws_as_the_float_geometry_gives() {
    let glyph = Glyph::new('a');
    let text = glyph.to_svg_path_d(&reach);
    let points = glyph.paths()[0].points();
    let mut expected = String::from("M+16384+08192");
    for i in 0..3 {
        let here = points[i];
        let there = points[(i + 1) % 3];
        let a = reach(here.position[0], here.position[1], here.radians, here.curviness);
        let b = reach(there.position[0], there.position[1], there.radians, -there.curviness);
        expected.push('C');
        for n in [a.0, a.1, b.0, b.1, there.position[0], there.position[1]] {
            expected.push_str(&format!("{:+06}", n));
        }
    }
    expected.push('Z');
    assert_eq!(text, expected);
    assert!(text.starts_with("M+16384+08192C+20480+08192"));
}

#[test]
fn a_glyph_without_points_draws_nothing() {
    let glyph = Glyph::read(&[0, 0, 0, 0x61, 0, 0, 0, 0]).unwrap();
    assert_eq!(glyph.paths().len(), 2);
    assert_eq!(glyph.to_svg_path_d(&reach), "");
    let _unused: Option<Path> = None;
}
