use escape_render::fractal::FractalOrbit::{self, Bounded, Escaped};
use escape_render::map::{
    downsample, AntialiasMapper, HistogramLinearMapper, LinearMapper, MappedCellIntensity,
    MappingResult, OrbitMapper, INTENSITY_ONE,
};

fn ev(v: u64) -> MappedCellIntensity {
    MappedCellIntensity::EscapedValue(v)
}

const B: MappedCellIntensity = MappedCellIntensity::BoundedValue;

#[test]
fn linear_maps_limit_to_one() {
    let m = LinearMapper::new(10);
    let r = m.map(3, 1, &[Escaped(10), Escaped(5), Bounded]);
    assert_eq!(r.width, 3);
    assert_eq!(r.height, 1);
    assert_eq!(r.values, vec![ev(INTENSITY_ONE), ev(INTENSITY_ONE / 2), B]);
}

#[test]
fn linear_maps_zero_to_zero() {
    let m = LinearMapper::new(7);
    assert_eq!(m.map_orbit(Escaped(0)), ev(0));
    assert_eq!(m.map_orbit(Bounded), B);
    assert_eq!(m.map_orbit(Escaped(7)), ev(INTENSITY_ONE));
}

#[test]
fn histogram_counts_bounded_cells_in_total() {
    let m = HistogramLinearMapper::new(5);
    let vals = [Escaped(0), Escaped(1), Escaped(1), Bounded];
    let r = m.map(2, 2, &vals);
    assert_eq!(r.values, vec![ev(INTENSITY_ONE / 4), ev(INTENSITY_ONE * 3 / 4), ev(INTENSITY_ONE * 3 / 4), B]);
}

#[test]
fn histogram_reaches_one_without_bounded_cells() {
    let m = HistogramLinearMapper::new(50);
    let vals = [Escaped(3), Escaped(9), Escaped(50), Escaped(3)];
    let r = m.map(4, 1, &vals);
    assert_eq!(r.values, vec![ev(INTENSITY_ONE / 2), ev(INTENSITY_ONE * 3 / 4), ev(INTENSITY_ONE), ev(INTENSITY_ONE / 2)]);
}

#[test]
fn histogram_is_monotone_in_escape_time() {
    let m = HistogramLinearMapper::new(20);
    let vals: Vec<FractalOrbit> = (0..20u32).map(|i| if i % 5 == 0 { Bounded } else { Escaped((i * 7) % 21) }).collect();
    let r = m.map(4, 5, &vals);
    for i in 0..vals.len() {
        for j in 0..vals.len() {
            if let (Escaped(a), Escaped(b)) = (vals[i], vals[j]) {
                if a <= b {
                    match (r.values[i], r.values[j]) {
                        (MappedCellIntensity::EscapedValue(x), MappedCellIntensity::EscapedValue(y)) => {
                            assert!(x <= y);
                            assert!(y <= INTENSITY_ONE);
                        }
                        _ => panic!("escaped cell mapped to the bounded marker"),
                    }
                }
            }
        }
    }
}

#[test]
fn antialias_bounded_block_and_shape() {
    let vals = vec![
        Bounded, Bounded, Escaped(4), Escaped(0),
        Bounded, Bounded, Escaped(4), Escaped(0),
        Escaped(2), Bounded, Escaped(4), Escaped(4),
        Bounded, Bounded, Escaped(4), Escaped(4),
        Escaped(1), Escaped(1), Escaped(1), Escaped(1),
    ];
    let m = AntialiasMapper::new(1, LinearMapper::new(4));
    let r = m.map(4, 5, &vals);
    assert_eq!(r.width, 2);
    assert_eq!(r.height, 2);
    // block (0,1): three bounded cells (1.0 each) and one cell at 0.5
    assert_eq!(r.values, vec![B, ev(INTENSITY_ONE / 2), ev(INTENSITY_ONE * 7 / 8), ev(INTENSITY_ONE)]);
}

#[test]
fn antialias_level_zero_keeps_values() {
    let m = AntialiasMapper::new(0, LinearMapper::new(2));
    let r = m.map(2, 1, &[Escaped(1), Bounded]);
    assert_eq!((r.width, r.height), (2, 1));
    assert_eq!(r.values, vec![ev(INTENSITY_ONE / 2), B]);
}

#[test]
fn downsample_floors_dimensions() {
    let full = MappingResult { values: vec![ev(0); 7 * 9], width: 7, height: 9 };
    let r = downsample(&full, 2);
    assert_eq!((r.width, r.height), (1, 2));
    assert_eq!(r.values.len(), 2);
    let r = downsample(&full, 3);
    assert_eq!((r.width, r.height), (0, 1));
    assert!(r.values.is_empty());
}

#[test]
fn downsample_averages_block() {
    let full = MappingResult { values: vec![ev(0), ev(INTENSITY_ONE), ev(INTENSITY_ONE / 2), ev(INTENSITY_ONE / 2)], width: 2, height: 2 };
    let r = downsample(&full, 1);
    assert_eq!(r.values, vec![ev(INTENSITY_ONE / 2)]);
}

#[test]
fn downsample_large_levels_give_empty_field() {
    let full = MappingResult { values: vec![ev(0); 6], width: 3, height: 2 };
    for level in [2u32, 40, 63, 64, 200] {
        let r = downsample(&full, level);
        assert_eq!((r.width, r.height), (0, 0));
        assert!(r.values.is_empty());
    }
    let tall = MappingResult { values: vec![B; 4], width: 1, height: 4 };
    let r = downsample(&tall, 1);
    assert_eq!((r.width, r.height), (0, 2));
    assert!(r.values.is_empty());
}
