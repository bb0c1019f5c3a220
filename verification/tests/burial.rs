use statics::burial::{
    is_buried, BurialLimits, BurialReport, BurialStats, BurialVerdict, SphereBurial, TriangleBurial,
};
use statics::model::{DistantStatic, Subset};

fn b(value: f32) -> u32 {
    value.to_bits()
}

fn limits() -> BurialLimits {
    BurialLimits {
        exposed_height_epsilon: b(1.0),
        max_exposed_height: b(100.0),
        exposed_area_ratio: b(0.25),
        area_epsilon: b(f32::EPSILON),
        min_valid_triangles: 2,
    }
}

fn triangle(area: f32, height: f32, exposure: f32) -> TriangleBurial {
    TriangleBurial { area: b(area), known: true, height: b(height), exposure: b(exposure) }
}

fn judge(spheres: &[SphereBurial], triangles: &[Vec<TriangleBurial>]) -> BurialReport {
    let distant_static = DistantStatic {
        subsets: triangles
            .iter()
            .map(|list| Subset { triangles: vec![[0, 0, 0]; list.len()], ..Subset::default() })
            .collect(),
        ..DistantStatic::default()
    };
    let measure = |subset: usize, index: usize| triangles[subset][index];
    let sum = |x: u32, y: u32| b(f32::from_bits(x) + f32::from_bits(y));
    let quotient = |x: u32, y: u32| b(f32::from_bits(x) / f32::from_bits(y));
    let share = |count: usize| (count as f32 * 0.5).ceil() as usize;
    is_buried(&measure, &sum, &quotient, &share, &limits(), spheres, &distant_static)
}

fn near() -> SphereBurial {
    SphereBurial { below: false, clearance: None }
}

#[test]
fn geometry_under_the_ground_is_buried() {
    let report = judge(&[near()], &[vec![triangle(1.0, -5.0, -5.0), triangle(1.0, -6.0, -2.0)]]);
    assert_eq!(report.verdict, BurialVerdict::Buried);
    assert_eq!((report.tris_visited, report.centroid_height_samples), (2, 2));
}

#[test]
fn a_quarter_of_exposed_area_keeps_a_static() {
    let buried = triangle(3.0, -5.0, -5.0);
    let exposed = judge(&[near()], &[vec![buried, triangle(1.0, 5.0, 5.0)]]);
    assert_eq!(exposed.verdict, BurialVerdict::Exposed);
    let hardly = judge(&[near()], &[vec![buried, triangle(0.9, 5.0, 5.0)]]);
    assert_eq!(hardly.verdict, BurialVerdict::Buried);
}

#[test]
fn one_high_corner_ends_the_survey() {
    let report = judge(
        &[near()],
        &[vec![triangle(1.0, -5.0, 100.0), triangle(1.0, -5.0, -5.0), triangle(1.0, -5.0, -5.0)]],
    );
    assert_eq!(report.verdict, BurialVerdict::HeightEarly);
    assert_eq!(report.tris_visited, 1);
}

#[test]
fn a_sphere_well_above_the_ground_needs_one_triangle_with_area() {
    let clear = SphereBurial { below: false, clearance: Some(b(150.0)) };
    let report = judge(&[clear], &[vec![triangle(0.0, -5.0, -5.0), triangle(1.0, -5.0, -5.0)]]);
    assert_eq!(report.verdict, BurialVerdict::ClearanceShortcut);
    assert_eq!(report.tris_visited, 0);
    let empty = judge(&[clear], &[vec![triangle(0.0, -5.0, -5.0)]]);
    assert_eq!(empty.verdict, BurialVerdict::Insufficient);
}

#[test]
fn a_sphere_below_the_ground_counts_its_triangles_unseen() {
    let below = SphereBurial { below: true, clearance: None };
    let report = judge(&[below], &[vec![triangle(1.0, 5.0, 500.0)]]);
    assert_eq!(report.verdict, BurialVerdict::Insufficient);
    assert_eq!(report.tris_visited, 0);
}

#[test]
fn unknown_ground_judges_nothing() {
    let unknown = TriangleBurial { known: false, ..triangle(1.0, -5.0, -5.0) };
    let report = judge(&[near()], &[vec![unknown, unknown, unknown]]);
    assert_eq!(report.verdict, BurialVerdict::Insufficient);
    assert_eq!((report.tris_visited, report.centroid_height_samples), (3, 3));
}

#[test]
fn every_verdict_is_counted_once() {
    let verdicts = [
        BurialVerdict::ClearanceShortcut,
        BurialVerdict::HeightEarly,
        BurialVerdict::Insufficient,
        BurialVerdict::Exposed,
        BurialVerdict::Buried,
        BurialVerdict::Buried,
    ];
    let mut stats = BurialStats::default();
    for verdict in verdicts {
        let buried = stats.record(&BurialReport { verdict, tris_visited: 3, centroid_height_samples: 2 });
        assert_eq!(buried, verdict == BurialVerdict::Buried);
    }
    let expected = BurialStats {
        refs_considered: 6,
        tris_visited: 18,
        centroid_height_samples: 12,
        keep_clearance_shortcut: 1,
        keep_height_early: 1,
        keep_insufficient: 1,
        keep_exposed: 1,
        buried: 2,
    };
    assert_eq!(stats, expected);
}
