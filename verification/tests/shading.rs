use radiosity::sampling::{
    ambient_direction, radical_inverse_base2, ComputeLayout, AMBIENT_SAMPLES, SAMPLES_PER_LUXEL,
};
use radiosity::shading::{
    contribute_positional, contribute_sky, distance_attenuation, gather_ambient, sample_counts,
    sees_sky, spotlight_penumbra, Angular, Cone, Falloff, HitKind, Weight,
};
use radiosity::shared::{AlignedVec3, EmitType, Light, RayPayload, Vec3};
use radiosity::single;

fn light(ty: EmitType, radius: f32) -> Light {
    let zero = AlignedVec3(Vec3 { x: 0, y: 0, z: 0 });
    Light {
        position: zero,
        color: zero,
        direction: zero,
        ty,
        radius: radius.to_bits(),
        constant_attn: 0,
        linear_attn: 0,
        quadratic_attn: 0,
        penumbra_start: 0.9f32.to_bits(),
        penumbra_end: 0.5f32.to_bits(),
        exponent: 0,
    }
}

fn weight(ty: EmitType, radius: f32, dist: f32, cos: f32, axis: f32) -> Option<Weight> {
    contribute_positional(&light(ty, radius), dist.to_bits(), cos.to_bits(), axis.to_bits())
}

#[test]
fn numbers_compare_as_floats_do() {
    let numbers = [
        0.0f32,
        -0.0,
        1.0,
        -1.0,
        1e-6,
        0.0001,
        f32::MIN_POSITIVE,
        1e-45,
        -1e-45,
        f32::MAX,
        f32::MIN,
        f32::INFINITY,
        f32::NEG_INFINITY,
        f32::NAN,
        -f32::NAN,
    ];
    for a in numbers {
        for b in numbers {
            assert_eq!(single::lt(a.to_bits(), b.to_bits()), a < b);
            assert_eq!(single::le(a.to_bits(), b.to_bits()), a <= b);
        }
    }
    assert_eq!(single::ONE, 1.0f32.to_bits());
    assert_eq!(single::ZERO, 0.0f32.to_bits());
    assert_eq!(radiosity::shading::TINY, 1e-6f32.to_bits());
    assert_eq!(radiosity::lights::NO_ATTENUATION, 0.0001f32.to_bits());
}

#[test]
fn bits_are_reversed() {
    assert_eq!(radical_inverse_base2(0), 0);
    assert_eq!(radical_inverse_base2(1), 0x8000_0000);
    assert_eq!(radical_inverse_base2(6), 0x6000_0000);
    for n in 0..100_000u32 {
        let x = n.wrapping_mul(0x9e37_79b9);
        assert_eq!(radical_inverse_base2(x), x.reverse_bits());
        assert_eq!(radical_inverse_base2(radical_inverse_base2(x)), x);
    }
}

#[test]
fn groups_of_a_dispatch() {
    let layout = ComputeLayout { workgroup_size: 64, x_groups: 1024 };
    assert_eq!(layout.dispatch_groups(0), (0, 0));
    assert_eq!(layout.dispatch_groups(1), (1, 1));
    assert_eq!(layout.dispatch_groups(64), (1, 1));
    assert_eq!(layout.dispatch_groups(65), (2, 1));
    assert_eq!(layout.dispatch_groups(65_536), (1024, 1));
    assert_eq!(layout.dispatch_groups(65_537), (1024, 2));
    assert_eq!(layout.dispatch_groups(u32::MAX as usize), (1024, 65_536));
    assert_eq!(layout.dispatch_groups(0x1_0000_0001), (1, 1));
}

#[test]
fn each_texel_is_lit_once() {
    let layout = ComputeLayout { workgroup_size: 4, x_groups: 3 };
    for count in 0..100usize {
        let (x, y) = layout.dispatch_groups(count);
        let mut lit = vec![0; count];
        for gy in 0..y {
            for gx in 0..x * 4 {
                if let Some(i) = layout.lit_texel(gx, gy, count) {
                    assert_eq!(layout.texel_index(gx, gy), i);
                    lit[i] += 1;
                }
            }
        }
        assert!(lit.iter().all(|&n| n == 1));
    }
}

#[test]
fn invocations_have_numbers() {
    let layout = ComputeLayout { workgroup_size: 64, x_groups: 1024 };
    let count = (0x1_0000_0000u64 - 65_536) as usize;
    let (x, y) = layout.dispatch_groups(count);
    assert_eq!((x, y), (1024, 65_535));
    assert_eq!(layout.texel_index(x * 64 - 1, y - 1), count - 1);
    assert_eq!(layout.lit_texel(x * 64 - 1, y - 1, 10), None);
}

#[test]
fn ambient_directions_are_shared_out() {
    let mut seen = vec![false; (AMBIENT_SAMPLES * SAMPLES_PER_LUXEL) as usize];
    for s in 0..SAMPLES_PER_LUXEL {
        for a in 0..AMBIENT_SAMPLES {
            let (d, total) = ambient_direction(a, s, SAMPLES_PER_LUXEL);
            assert_eq!(total, 256);
            assert_eq!(d, a * 16 + s);
            assert!(!seen[d as usize]);
            seen[d as usize] = true;
        }
    }
    assert!(seen.iter().all(|&s| s));
}

#[test]
fn cones_of_spotlights() {
    let spot = light(EmitType::Spotlight, 0.0);
    let at = |cos: f32| spotlight_penumbra(&spot, cos.to_bits());
    assert_eq!(at(0.4), Cone::Dark);
    assert_eq!(at(0.5), Cone::Fringe);
    assert_eq!(at(0.8), Cone::Fringe);
    assert_eq!(at(0.9), Cone::Full);
    assert_eq!(at(1.0), Cone::Full);
}

#[test]
fn lights_weigh_by_their_kind() {
    let point = Weight { cosine: true, angular: Angular::One, falloff: Falloff::Attenuation };
    assert_eq!(weight(EmitType::Point, 0.0, 10.0, 0.5, -1.0), Some(point));
    assert_eq!(
        weight(EmitType::QuakeLight, 0.0, 10.0, 0.5, -1.0),
        Some(Weight { cosine: false, ..point })
    );
    assert_eq!(
        weight(EmitType::Spotlight, 0.0, 10.0, 0.5, 0.7),
        Some(Weight { angular: Angular::Fringe, ..point })
    );
    assert_eq!(
        weight(EmitType::Spotlight, 0.0, 10.0, 0.5, 0.95),
        Some(Weight { angular: Angular::Axis, ..point })
    );
    assert_eq!(
        weight(EmitType::Surface, 0.0, 10.0, 0.5, 0.7),
        Some(Weight {
            cosine: true,
            angular: Angular::Axis,
            falloff: Falloff::InverseSquare
        })
    );
}

#[test]
fn lights_out_of_reach() {
    assert_eq!(weight(EmitType::Point, 0.0, 1e-6, 0.5, 1.0), None);
    assert_eq!(weight(EmitType::Point, 0.0, 10.0, 0.0, 1.0), None);
    assert_eq!(weight(EmitType::QuakeLight, 0.0, 10.0, -0.5, 1.0), None);
    assert_eq!(weight(EmitType::Spotlight, 0.0, 10.0, 0.5, 0.4), None);
    assert_eq!(weight(EmitType::Surface, 0.0, 10.0, 0.5, 0.0), None);
    assert_eq!(weight(EmitType::Surface, 9.0, 10.0, 0.5, 0.7), None);
    assert!(weight(EmitType::Surface, 10.0, 10.0, 0.5, 0.7).is_some());
    assert!(weight(EmitType::Surface, -1.0, 10.0, 0.5, 0.7).is_some());
    assert!(weight(EmitType::Point, 9.0, 10.0, 0.5, 0.7).is_some());
}

#[test]
fn attenuation_ends_at_a_radius() {
    assert!(distance_attenuation(&light(EmitType::Point, 5.0)));
    assert!(!distance_attenuation(&light(EmitType::Point, 0.0)));
    assert!(!distance_attenuation(&light(EmitType::Point, -0.0)));
}

#[test]
fn ambient_light_is_gathered() {
    let cosines: Vec<u32> = [0.5f32, 0.0, 1.0, -1.0, 0.25].iter().map(|c| c.to_bits()).collect();
    let hits = [HitKind::Miss, HitKind::Miss, HitKind::Hit, HitKind::Miss, HitKind::Miss];
    let ambient = gather_ambient(&cosines, &hits);
    assert_eq!(ambient.counted, vec![0, 2, 4]);
    assert_eq!(ambient.visible, vec![0, 4]);
    assert!(sample_counts(0.5f32.to_bits()));
    assert!(!sample_counts((-0.0f32).to_bits()));
}

#[test]
fn rays_towards_the_sky() {
    let one = 1.0f32.to_bits();
    let half = 0.5f32.to_bits();
    let rays = contribute_sky(one, one, half, 3, 16);
    assert_eq!(rays.ambient.len(), 16);
    assert_eq!(rays.ambient[0], (3, 256));
    assert_eq!(rays.ambient[15], (243, 256));
    assert_eq!(rays.sun, Some((3, 16)));
    let night = contribute_sky(0, 0, half, 3, 16);
    assert!(night.ambient.is_empty());
    assert_eq!(night.sun, None);
    assert_eq!(contribute_sky(one, one, 0, 3, 16).sun, None);
    assert!(sees_sky(HitKind::Miss));
    assert!(!sees_sky(HitKind::Hit));
}

#[test]
fn a_new_payload_is_empty() {
    let p = RayPayload::default();
    assert_eq!(p.hit, 0);
    assert_eq!(p.hit_pos, Vec3 { x: 0, y: 0, z: 0 });
    assert_eq!(p.hit_normal, p.hit_pos);
}
