use radiosity::lights::{
    ambient_components, choose_world_lights, collect_lights, collect_world_lights, light_environment, place_light,
    WorldLight,
};
use radiosity::shared::{AlignedVec3, EmitType, Sky, TexelData, Vec3};
use radiosity::words::{white, words};

fn vec3(x: f32, y: f32, z: f32) -> Vec3 {
    Vec3 { x: x.to_bits(), y: y.to_bits(), z: z.to_bits() }
}

fn listed(ty: i32, constant: f32, linear: f32, quadratic: f32) -> WorldLight {
    WorldLight {
        origin: vec3(1.0, 2.0, 3.0),
        intensity: vec3(10.0 + ty as f32, 20.0, 30.0),
        normal: vec3(0.0, 0.0, -1.0),
        ty,
        radius: 64.0f32.to_bits(),
        constant_attn: constant.to_bits(),
        linear_attn: linear.to_bits(),
        quadratic_attn: quadratic.to_bits(),
        penumbra_start: 0.9f32.to_bits(),
        penumbra_end: 0.5f32.to_bits(),
        exponent: 2.0f32.to_bits(),
    }
}

fn attenuation(ty: EmitType, constant: f32, linear: f32, quadratic: f32) -> (f32, f32, f32) {
    let light = place_light(ty, &listed(1, constant, linear, quadratic));
    (
        f32::from_bits(light.constant_attn),
        f32::from_bits(light.linear_attn),
        f32::from_bits(light.quadratic_attn),
    )
}

#[test]
fn kinds_of_lights() {
    assert_eq!(EmitType::from_code(0), Some(EmitType::Surface));
    assert_eq!(EmitType::from_code(1), Some(EmitType::Point));
    assert_eq!(EmitType::from_code(2), Some(EmitType::Spotlight));
    assert_eq!(EmitType::from_code(3), Some(EmitType::SkyLight));
    assert_eq!(EmitType::from_code(4), Some(EmitType::QuakeLight));
    assert_eq!(EmitType::from_code(5), Some(EmitType::SkyAmbient));
    assert_eq!(EmitType::from_code(6), None);
    assert_eq!(EmitType::from_code(-1), None);
    for code in 0..6 {
        assert_eq!(EmitType::from_code(code).map(|ty| ty.code()), Some(code));
    }
}

#[test]
fn lights_without_attenuation_get_one() {
    assert_eq!(attenuation(EmitType::Point, 0.0, 0.0, 0.0), (1.0, 0.0, 0.0));
    assert_eq!(attenuation(EmitType::Spotlight, 0.00009, -1.0, 0.0), (1.0, -1.0, 0.0));
    assert_eq!(attenuation(EmitType::Surface, 0.0, 0.0, 0.0), (0.0, 0.0, 1.0));
    assert_eq!(attenuation(EmitType::Point, 0.0001, 0.0, 0.0), (0.0001, 0.0, 0.0));
    assert_eq!(attenuation(EmitType::Surface, 0.0, 0.0, 0.5), (0.0, 0.0, 0.5));
    assert_eq!(attenuation(EmitType::QuakeLight, 3.0, 4.0, 5.0), (0.0, 1.0, 0.0));
    let (c, _, _) = attenuation(EmitType::Point, f32::NAN, 0.0, 0.0);
    assert!(c.is_nan());
}

#[test]
fn a_light_keeps_what_is_listed() {
    let w = listed(2, 1.0, 2.0, 3.0);
    let light = place_light(EmitType::Spotlight, &w);
    assert_eq!(light.position, AlignedVec3(w.origin));
    assert_eq!(light.color, AlignedVec3(w.intensity));
    assert_eq!(light.direction, AlignedVec3(w.normal));
    assert_eq!(light.ty, EmitType::Spotlight);
    assert_eq!(light.radius, w.radius);
    assert_eq!(light.penumbra_start, w.penumbra_start);
    assert_eq!(light.penumbra_end, w.penumbra_end);
    assert_eq!(light.exponent, w.exponent);
}

#[test]
fn every_listed_light_has_a_role() {
    let list: Vec<WorldLight> =
        [1, 3, 9, 5, 0, 3, 5, 4, -7, 2].iter().map(|&ty| listed(ty, 1.0, 0.0, 0.0)).collect();
    let lights = collect_world_lights(&list);
    assert_eq!(lights.listed, vec![0, 4, 7, 9]);
    assert_eq!(
        lights.world.iter().map(|l| l.ty).collect::<Vec<_>>(),
        vec![EmitType::Point, EmitType::Surface, EmitType::QuakeLight, EmitType::Spotlight]
    );
    assert_eq!(lights.skipped, vec![2, 8]);
    assert_eq!(lights.ambient, vec![list[3].intensity, list[6].intensity]);
    assert_eq!(lights.sun, Some((list[5].normal, list[5].intensity)));
    let suns = 2;
    assert_eq!(
        lights.world.len() + lights.skipped.len() + lights.ambient.len() + suns,
        list.len()
    );
}

#[test]
fn the_last_sun_counts() {
    let mut first = listed(3, 0.0, 0.0, 0.0);
    first.normal = vec3(1.0, 0.0, 0.0);
    let second = listed(3, 0.0, 0.0, 0.0);
    let lights = collect_world_lights(&[first, second]);
    assert_eq!(lights.sun, Some((second.normal, second.intensity)));
}

#[test]
fn the_sky_is_put_together() {
    let lights = collect_world_lights(&[listed(3, 0.0, 0.0, 0.0)]);
    let sum = vec3(5.0, 6.0, 7.0);
    let set = vec3(1.0, 1.0, 2.0);
    let sky = lights.sky(sum, None);
    assert_eq!(sky.ambient_color, AlignedVec3(sum));
    assert_eq!(sky.sun_color, AlignedVec3(vec3(13.0, 20.0, 30.0)));
    assert_eq!(sky.sun_direction, AlignedVec3(vec3(0.0, 0.0, -1.0)));
    assert_eq!(lights.sky(sum, Some(set)).ambient_color, AlignedVec3(set));
    let dark = collect_world_lights(&[]).sky(vec3(0.0, 0.0, 0.0), None);
    assert_eq!(dark, Sky::default());
}

#[test]
fn the_first_environment_counts() {
    let text = "{\"classname\" \"light\" \"_ambient\" \"9\"}\n\
        {\"classname\" \"light_environment\" \"_ambient\" \"1 2 3 4\"}\n\
        {\"classname\" \"light_environment\" \"_ambient\" \"5\" \"SunSpreadAngle\" \"6\"}";
    let environment = light_environment(text);
    assert_eq!(environment.ambient.as_deref(), Some("1 2 3 4"));
    assert_eq!(environment.sun_spread_angle, None);
}

#[test]
fn entities_that_cannot_be_parsed_say_nothing() {
    let environment = light_environment("{\"classname\" \"light_environment\"");
    assert_eq!(environment.ambient, None);
    assert_eq!(environment.sun_spread_angle, None);
    assert_eq!(light_environment("").ambient, None);
}

#[test]
fn bytes_that_are_no_text_are_replaced() {
    let mut bytes = b"{\"classname\" \"light_environment\" \"_ambient\" \"".to_vec();
    bytes.push(0xff);
    bytes.extend_from_slice(b" 1\" \"SunSpreadAngle\" \"5\"}\n\0");
    let (lights, environment) = collect_lights(&bytes, &[listed(1, 1.0, 0.0, 0.0)]);
    assert_eq!(environment.ambient.as_deref(), Some("\u{fffd} 1"));
    assert_eq!(environment.sun_spread_angle.as_deref(), Some("5"));
    assert_eq!(lights.world.len(), 1);
}

#[test]
fn an_ambient_colour_has_four_parts() {
    assert_eq!(ambient_components(&[1, 2, 3]), None);
    assert_eq!(ambient_components(&[1, 2, 3, 4]), Some([1, 2, 3, 4]));
    assert_eq!(ambient_components(&[1, 2, 3, 4, 5]), Some([1, 2, 3, 4]));
}

#[test]
fn white_space_is_that_of_unicode() {
    for n in 0..=0x10ffffu32 {
        if let Some(c) = char::from_u32(n) {
            assert_eq!(white(c), c.is_whitespace());
        }
    }
}

#[test]
fn words_are_split_as_std_does() {
    for text in [
        "",
        " ",
        "a",
        " a",
        "a ",
        "10 20 30 400",
        "\t1\n2\u{3000}3 \u{a0}4",
        "  ä  öü\u{2028}ß  ",
    ] {
        let expected: Vec<String> = text.split_whitespace().map(|w| w.to_string()).collect();
        assert_eq!(words(text), expected);
    }
}

#[test]
fn vectors_are_aligned_and_back() {
    let v = vec3(1.5, -2.0, 0.25);
    let aligned = AlignedVec3::from(v);
    assert_eq!(aligned.0, v);
    assert_eq!(Vec3::from(aligned), v);
    let texel = TexelData::new(v, vec3(0.0, 0.0, 1.0));
    assert_eq!(texel.position, aligned);
    assert_eq!(texel.normal.0, vec3(0.0, 0.0, 1.0));
}

#[test]
fn lights_of_either_range_count() {
    let ordinary = vec![listed(1, 0.0, 0.0, 1.0)];
    let high = vec![listed(2, 0.0, 0.0, 1.0), listed(5, 0.0, 0.0, 1.0)];
    let kinds = |ls: Option<Vec<WorldLight>>| -> Option<Vec<i32>> {
        ls.map(|ls| ls.iter().map(|l| l.ty).collect())
    };
    let chosen = choose_world_lights(false, ordinary.clone(), Some(high.clone()));
    assert_eq!(kinds(chosen), Some(vec![1]));
    assert_eq!(kinds(choose_world_lights(false, ordinary.clone(), None)), Some(vec![1]));
    assert_eq!(kinds(choose_world_lights(true, ordinary.clone(), Some(high))), Some(vec![2, 5]));
    assert_eq!(kinds(choose_world_lights(true, ordinary, None)), None);
}
