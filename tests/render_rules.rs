use raytracing_in_rust::camera::strata_per_axis;
use raytracing_in_rust::pdf::SpherePdf;
use raytracing_in_rust::perlin::{lattice_index, perlin_generate_perm, POINT_COUNT};
use raytracing_in_rust::progressbar::bar_length;
use raytracing_in_rust::radiance::{next_bounce, Bounce, SurfaceEvent};
use raytracing_in_rust::rect::{plane_axes, Plane};
use raytracing_in_rust::rotate::{get_axis, Axis};
use raytracing_in_rust::texture::ImageTexture;

const EVENTS: [SurfaceEvent; 4] = [
    SurfaceEvent::Miss,
    SurfaceEvent::Absorbed,
    SurfaceEvent::Specular,
    SurfaceEvent::Diffuse,
];

#[test]
fn depth_zero_is_black_whatever_the_scene() {
    for e in EVENTS {
        assert_eq!(next_bounce(0, e), Bounce::Black);
    }
}

#[test]
fn bounces_with_depth_left() {
    assert_eq!(next_bounce(5, SurfaceEvent::Miss), Bounce::Background);
    assert_eq!(next_bounce(5, SurfaceEvent::Absorbed), Bounce::Emission);
    assert_eq!(next_bounce(5, SurfaceEvent::Specular), Bounce::Specular { depth: 4 });
    assert_eq!(next_bounce(1, SurfaceEvent::Diffuse), Bounce::Mixture { depth: 0 });
    assert_eq!(
        next_bounce(u32::MAX, SurfaceEvent::Diffuse),
        Bounce::Mixture { depth: u32::MAX - 1 }
    );
}

#[test]
fn every_path_ends_within_its_depth() {
    for start in 0..20u32 {
        let mut depth = start;
        let mut steps = 0;
        loop {
            match next_bounce(depth, SurfaceEvent::Diffuse) {
                Bounce::Mixture { depth: d } | Bounce::Specular { depth: d } => depth = d,
                _ => break,
            }
            steps += 1;
        }
        assert_eq!(steps, start);
    }
}

#[test]
fn strata_grid_side() {
    assert_eq!(strata_per_axis(0), 0);
    assert_eq!(strata_per_axis(1), 1);
    assert_eq!(strata_per_axis(4), 2);
    assert_eq!(strata_per_axis(5), 3);
    assert_eq!(strata_per_axis(100), 10);
    assert_eq!(strata_per_axis(101), 11);
    assert_eq!(strata_per_axis(u32::MAX), 65536);
}

#[test]
fn rotation_axes() {
    assert_eq!(get_axis(&Axis::X), (0, 1, 2));
    assert_eq!(get_axis(&Axis::Y), (1, 2, 0));
    assert_eq!(get_axis(&Axis::Z), (2, 0, 1));
}

#[test]
fn rectangle_axes() {
    assert_eq!(plane_axes(&Plane::YZ), (0, 1, 2));
    assert_eq!(plane_axes(&Plane::ZX), (1, 2, 0));
    assert_eq!(plane_axes(&Plane::XY), (2, 0, 1));
}

#[test]
fn sphere_pdf_is_stateless() {
    assert_eq!(SpherePdf::new(), SpherePdf);
}

#[test]
fn texels_are_clamped_to_the_image() {
    // 2 x 2 image: bytes of pixel (i, j) are 10*(i + 2j) + channel
    let mut data = Vec::new();
    for j in 0..2u8 {
        for i in 0..2u8 {
            for c in 0..3u8 {
                data.push(10 * (i + 2 * j) + c);
            }
        }
    }
    let t = ImageTexture::new(data, 2, 2);
    assert!(t.is_valid());
    assert_eq!(t.texel(0, 0), (0, 1, 2));
    assert_eq!(t.texel(1, 0), (10, 11, 12));
    assert_eq!(t.texel(0, 1), (20, 21, 22));
    assert_eq!(t.texel(7, 9), (30, 31, 32));
}

#[test]
fn short_or_empty_images_are_invalid() {
    assert!(!ImageTexture::new(vec![0; 11], 2, 2).is_valid());
    assert!(!ImageTexture::new(vec![], 0, 0).is_valid());
    assert!(!ImageTexture::new(vec![1, 2, 3], 1, 0).is_valid());
    assert!(ImageTexture::new(vec![1, 2, 3], 1, 1).is_valid());
}

#[test]
fn progress_bar_sizes() {
    assert_eq!(bar_length(120, 10, 20), 20);
    assert_eq!(bar_length(80, 30, 100), 14);
    assert_eq!(bar_length(66, 30, 1), 0);
}

#[test]
fn perlin_tables_and_lattice() {
    let p = perlin_generate_perm();
    assert_eq!(p.len(), POINT_COUNT);
    assert!(p.iter().enumerate().all(|(i, v)| i == *v));
    assert_eq!(lattice_index(&p, &p, &p, 1, 2, 4), 7);
    assert_eq!(lattice_index(&p, &p, &p, 256, 3, 3), 0);
    assert_eq!(lattice_index(&p, &p, &p, 255, 0, 0), 255);
}
