use radiosity::geometry::{category, collect_geometry, has_face, triangulate, Category};
use radiosity::color::{encode_rgbexp32, largest, ColorRGBExp32};
use radiosity::lightmap::{
    can_lay_out, choose_faces, lay_out_lightmap, write_lightmap, FaceTexels,
};
use radiosity::lumps::{
    Associated, Edge, Face, LightmapArea, Lumps, Plane, SurfaceEdge, TextureInfo,
};
use radiosity::shared::Vec3;
use radiosity::texels::{can_count_luxels, generate_texels, side_length, Luxel};

fn face(edge_index: i32, edge_count: i16, texture: i16, maxs: [i32; 2]) -> Face {
    Face {
        plane_index: 0,
        edge_index,
        edge_count,
        texture_info_index: texture,
        styles: [9, 9, 9, 9],
        light_offset: -1,
        lightmap: LightmapArea { mins: [-3, 5], maxs },
    }
}

fn texture(flags: i32) -> TextureInfo {
    TextureInfo { luxels: [[0; 4]; 2], flags }
}

/// Vertices 10, 11, 12 and 13 in a ring, with two of the edges turned round.
fn ring() -> Lumps {
    Lumps {
        planes: vec![Plane { normal: [0, 0, 1.0f32.to_bits()], dist: 7 }],
        texture_infos: vec![texture(0), texture(0x4), texture(0x80), texture(0x10000 | 0x2)],
        surface_edges: vec![
            SurfaceEdge { edge_index: 1 },
            SurfaceEdge { edge_index: -2 },
            SurfaceEdge { edge_index: 3 },
            SurfaceEdge { edge_index: -4 },
        ],
        edges: vec![
            Edge { edge: [0, 0] },
            Edge { edge: [10, 11] },
            Edge { edge: [12, 11] },
            Edge { edge: [12, 13] },
            Edge { edge: [10, 13] },
        ],
    }
}

fn color(r: u8) -> ColorRGBExp32 {
    ColorRGBExp32 { r, g: r.wrapping_add(1), b: r.wrapping_add(2), exponent: -(r as i8) }
}

#[test]
fn flags_decide_what_a_face_is() {
    assert_eq!(category(0), Category::Solid);
    assert_eq!(category(0x1 | 0x8 | 0x10 | 0x20), Category::Solid);
    assert_eq!(category(0x2), Category::Sky);
    assert_eq!(category(0x4), Category::Sky);
    for flag in [0x40, 0x80, 0x100, 0x200] {
        assert_eq!(category(flag), Category::Invisible);
        assert_eq!(category(flag | 0x4), Category::Invisible);
    }
    assert_eq!(category(0x40_0000), Category::Solid);
    assert_eq!(category(-1), Category::Invisible);
    assert_eq!(category(i32::MIN), Category::Solid);
}

#[test]
fn faces_refer_into_the_lists() {
    let lumps = ring();
    let f = face(1, 2, 3, [0, 0]);
    let plane: &Plane = f.associated(&lumps);
    assert_eq!(plane.dist, 7);
    let tex: &TextureInfo = f.associated(&lumps);
    assert_eq!(tex.flags, 0x10002);
    let edges: &[SurfaceEdge] = f.associated(&lumps);
    assert_eq!(edges.iter().map(|e| e.edge_index).collect::<Vec<_>>(), vec![-2, 3]);
    let edge: &Edge = edges[0].associated(&lumps);
    assert_eq!(edge.edge, [12, 11]);
}

#[test]
fn a_face_is_a_fan_of_triangles() {
    let lumps = ring();
    assert_eq!(triangulate(&lumps, &face(0, 4, 0, [0, 0])), vec![10, 11, 12, 10, 12, 13]);
    assert_eq!(triangulate(&lumps, &face(0, 3, 0, [0, 0])), vec![10, 11, 12]);
    assert_eq!(triangulate(&lumps, &face(1, 3, 0, [0, 0])), vec![11, 12, 13]);
    for count in 0..3 {
        assert!(triangulate(&lumps, &face(0, count, 0, [0, 0])).is_empty());
    }
}

#[test]
fn triangles_are_sorted_by_category() {
    let lumps = ring();
    let faces = [
        face(0, 4, 0, [0, 0]),
        face(0, 3, 1, [0, 0]),
        face(0, 4, 2, [0, 0]),
        face(1, 3, 0, [0, 0]),
        face(0, 4, 3, [0, 0]),
    ];
    let (solid, sky) = collect_geometry(&lumps, &faces);
    assert_eq!(solid, vec![10, 11, 12, 10, 12, 13, 11, 12, 13]);
    assert_eq!(sky, vec![10, 11, 12, 10, 11, 12, 10, 12, 13]);
    assert_eq!((solid.len() % 3, sky.len() % 3), (0, 0));
    assert_eq!(collect_geometry(&lumps, &[]), (vec![], vec![]));
}

#[test]
fn an_invisible_face_needs_no_edges() {
    let lumps = ring();
    let (solid, sky) = collect_geometry(&lumps, &[face(-9, 99, 2, [0, 0])]);
    assert!(solid.is_empty() && sky.is_empty());
}

#[test]
fn faces_that_are_there() {
    let lumps = ring();
    assert!(has_face(&lumps, &face(0, 4, 0, [0, 0])));
    assert!(has_face(&lumps, &face(-9, 99, 2, [0, 0])));
    assert!(!has_face(&lumps, &face(0, 5, 0, [0, 0])));
    assert!(!has_face(&lumps, &face(-1, 1, 0, [0, 0])));
    assert!(!has_face(&lumps, &face(0, -1, 0, [0, 0])));
    assert!(!has_face(&lumps, &face(0, 4, 9, [0, 0])));
    assert!(!has_face(&lumps, &face(0, 4, -1, [0, 0])));
    let mut torn = ring();
    torn.edges.pop();
    assert!(!has_face(&torn, &face(0, 4, 0, [0, 0])));
    assert!(has_face(&torn, &face(0, 3, 0, [0, 0])));
}

#[test]
fn lightmaps_that_can_be_laid_out() {
    let small = vec![face(0, 0, 0, [1, 0]), face(0, 0, 0, [0, 2])];
    assert!(can_lay_out(&small, &None, 5, 1));
    assert!(can_lay_out(&small, &None, 2, 1));
    assert!(!can_lay_out(&small, &None, 1, 1));
    assert!(can_lay_out(&vec![], &None, 0, 1));
    let large = vec![face(0, 0, 0, [40_000, 40_000])];
    assert!(!can_lay_out(&large, &None, usize::MAX, 1));
    let wide = vec![face(0, 0, 0, [i32::MAX, 0])];
    assert!(!can_lay_out(&wide, &None, usize::MAX, 1));
    let mut far = face(0, 0, 0, [0, 0]);
    far.lightmap.mins = [i32::MAX, 0];
    assert!(can_lay_out(&vec![far], &None, 9, 1));
    assert!(!can_lay_out(&vec![far], &None, 9, 2));
    assert!(!can_lay_out(&small, &Some(vec![far]), 99, 2));
    assert!(can_count_luxels(&small[0], 1));
    assert!(!can_count_luxels(&wide[0], 1));
    assert!(!can_count_luxels(&large[0], 200_000));
}

#[test]
fn sides_of_lightmaps() {
    assert_eq!(side_length(0, 1), 1);
    assert_eq!(side_length(15, 4), 64);
    assert_eq!(side_length(-1, 7), 0);
    assert_eq!(side_length(5, 0), 0);
    assert_eq!(side_length(-2, 1), u32::MAX);
}

#[test]
fn texels_go_face_by_face_and_row_by_row() {
    let faces = [face(0, 0, 0, [1, 0]), face(0, 0, 0, [-1, 3]), face(0, 0, 0, [0, 1])];
    let texels = generate_texels(&faces, 1);
    assert_eq!(
        texels,
        vec![
            Luxel { face: 0, s: 0, t: 0 },
            Luxel { face: 0, s: 1, t: 0 },
            Luxel { face: 2, s: 0, t: 0 },
            Luxel { face: 2, s: 0, t: 1 },
        ]
    );
    assert_eq!(generate_texels(&faces, 2).len(), 8 + 8);
    assert_eq!(generate_texels(&faces, 2)[5], Luxel { face: 0, s: 1, t: 1 });
    assert!(generate_texels(&[], 3).is_empty());
}

#[test]
fn faces_point_at_their_samples() {
    let faces = vec![face(0, 0, 0, [1, 0]), face(0, 0, 0, [0, 2])];
    let layout = lay_out_lightmap(&faces, &None, 5, 1);
    assert_eq!(layout.faces[0].light_offset, 4);
    assert_eq!(layout.faces[1].light_offset, 16);
    assert_eq!(layout.faces[0].styles, [0, 255, 255, 255]);
    assert_eq!(layout.faces[0].lightmap.maxs, [1, 0]);
    assert_eq!(layout.faces[0].lightmap.mins, [-3, 5]);
    assert!(layout.counterparts.is_none());
    assert_eq!(
        layout.texels,
        vec![
            FaceTexels { start: 0, end: 2, luxel_count: 2 },
            FaceTexels { start: 2, end: 5, luxel_count: 3 },
        ]
    );
}

#[test]
fn a_scale_enlarges_lightmaps() {
    let faces = vec![face(0, 0, 0, [1, 0])];
    let hdr = vec![face(1, 0, 0, [7, 7]), face(2, 0, 0, [6, 6])];
    let layout = lay_out_lightmap(&faces, &Some(hdr), 18, 3);
    assert_eq!(layout.faces[0].lightmap.mins, [-9, 15]);
    assert_eq!(layout.faces[0].lightmap.maxs, [5, 2]);
    assert_eq!(layout.texels[0].luxel_count, 18);
    let hdr = layout.counterparts.unwrap();
    assert_eq!(hdr[0].edge_index, 1);
    assert_eq!(hdr[0].lightmap.mins, [-9, 15]);
    assert_eq!(hdr[0].lightmap.maxs, [5, 2]);
    assert_eq!(hdr[0].light_offset, 4);
    assert_eq!(hdr[0].styles, [0, 255, 255, 255]);
    assert_eq!(hdr[1].lightmap.mins, [-9, 15]);
    assert_eq!(hdr[1].lightmap.maxs, [6, 6]);
    assert_eq!(hdr[1].light_offset, -1);
    assert_eq!(hdr[1].styles, [9, 9, 9, 9]);
}

#[test]
fn written_faces_have_the_same_luxels() {
    let faces = vec![face(0, 0, 0, [1, 2]), face(0, 0, 0, [-1, 4]), face(0, 0, 0, [0, 0])];
    let others = faces.clone();
    for scale in [0, 1, 2, 5] {
        let luxels = generate_texels(&faces, scale);
        let layout = lay_out_lightmap(&faces, &Some(others.clone()), luxels.len(), scale);
        assert_eq!(generate_texels(&layout.faces, 1), luxels);
        assert_eq!(generate_texels(&layout.counterparts.unwrap(), 1), luxels);
    }
}

#[test]
fn faces_of_either_range_are_lit() {
    let faces = vec![face(0, 0, 0, [1, 0])];
    let faces_hdr = vec![face(0, 0, 0, [0, 2])];
    let index = |f: &Vec<Face>| f[0].lightmap.maxs;
    let (lit, others) = choose_faces(false, faces.clone(), Some(faces_hdr.clone())).unwrap();
    assert_eq!((index(&lit), index(&others.unwrap())), ([1, 0], [0, 2]));
    assert!(choose_faces(false, faces.clone(), None).unwrap().1.is_none());
    assert!(choose_faces(true, faces.clone(), None).is_none());

    let (lit, others) = choose_faces(true, faces, Some(faces_hdr)).unwrap();
    assert_eq!(index(&lit), [0, 2]);
    let layout = lay_out_lightmap(&lit, &others, 12, 2);
    let (of_map, hdr) = layout.into_lists(true);
    assert_eq!(index(&of_map.unwrap()), [1, 5]);
    assert_eq!(index(&hdr.unwrap()), [1, 5]);
    let (of_map, hdr) = lay_out_lightmap(&lit, &None, 3, 1).into_lists(false);
    assert_eq!(index(&of_map.unwrap()), [0, 2]);
    assert!(hdr.is_none());
}

#[test]
fn faces_without_luxels_have_averages() {
    let faces = vec![face(0, 0, 0, [-1, 3]), face(0, 0, 0, [0, 0])];
    let averages = [color(7), color(8)];
    for (scale, lighting) in [(1, vec![color(9)]), (0, vec![])] {
        let layout = lay_out_lightmap(&faces, &None, lighting.len(), scale);
        let bytes = write_lightmap(&layout.texels, &averages, &lighting);
        assert_eq!(bytes.len(), 4 * (2 + lighting.len()));
        for (f, c) in layout.faces.iter().zip(&averages) {
            let at = f.light_offset as usize - 4;
            assert_eq!(bytes[at..at + 4], [c.r, c.g, c.b, c.exponent as u8]);
        }
    }
}

#[test]
fn missing_lighting_ends_a_face_early() {
    let faces = vec![face(0, 0, 0, [1, 0]), face(0, 0, 0, [0, 2])];
    let layout = lay_out_lightmap(&faces, &None, 3, 1);
    assert_eq!(layout.texels[1], FaceTexels { start: 2, end: 3, luxel_count: 3 });
    assert_eq!(layout.texels[1].divisor(), 3);
    let empty = lay_out_lightmap(&vec![face(0, 0, 0, [-1, -1])], &None, 0, 1);
    assert_eq!(empty.texels[0], FaceTexels { start: 0, end: 0, luxel_count: 0 });
    assert_eq!(empty.texels[0].divisor(), 1);
    assert_eq!(empty.faces[0].lightmap.maxs, [-1, -1]);
}

#[test]
fn samples_are_written_as_bytes() {
    let texels = [FaceTexels { start: 0, end: 1, luxel_count: 1 }];
    let average = ColorRGBExp32 { r: 1, g: 2, b: 3, exponent: -128 };
    let luxel = ColorRGBExp32 { r: 4, g: 5, b: 6, exponent: 127 };
    assert_eq!(write_lightmap(&texels, &[average], &[luxel]), vec![1, 2, 3, 128, 4, 5, 6, 127]);
    assert!(write_lightmap(&[], &[], &[]).is_empty());
}

#[test]
fn luxels_are_read_where_faces_point() {
    let faces = vec![
        face(0, 0, 0, [1, 2]),
        face(0, 0, 0, [-1, 0]),
        face(0, 0, 0, [3, 0]),
        face(0, 0, 0, [0, 0]),
    ];
    let luxels = generate_texels(&faces, 1);
    let lighting: Vec<ColorRGBExp32> = (0..luxels.len()).map(|i| color(i as u8)).collect();
    let averages: Vec<ColorRGBExp32> = (0..faces.len()).map(|i| color(100 + i as u8)).collect();
    let layout = lay_out_lightmap(&faces, &None, lighting.len(), 1);
    let bytes = write_lightmap(&layout.texels, &averages, &lighting);
    assert_eq!(bytes.len(), 4 * (faces.len() + lighting.len()));
    for (i, luxel) in luxels.iter().enumerate() {
        let f = &layout.faces[luxel.face];
        let width = (f.lightmap.maxs[0] + 1) as u32;
        let at = f.light_offset as usize + 4 * (luxel.t * width + luxel.s) as usize;
        let c = lighting[i];
        assert_eq!(bytes[at..at + 4], [c.r, c.g, c.b, c.exponent as u8]);
    }
    for (f, c) in layout.faces.iter().zip(&averages) {
        let at = f.light_offset as usize - 4;
        assert_eq!(bytes[at..at + 4], [c.r, c.g, c.b, c.exponent as u8]);
    }
}

fn encoded(x: f32, y: f32, z: f32) -> ColorRGBExp32 {
    let bits = Vec3 { x: x.to_bits(), y: y.to_bits(), z: z.to_bits() };
    let max_val = f32::from_bits(largest(&bits));
    let floor = if max_val > 0.0 { max_val.log2().floor() as i32 } else { 0 };
    encode_rgbexp32(&bits, floor)
}

fn encoded_with_floats(x: f32, y: f32, z: f32) -> ColorRGBExp32 {
    let max_val = x.max(y).max(z);
    if max_val <= 0.0 {
        return ColorRGBExp32 { r: 0, g: 0, b: 0, exponent: 0 };
    }
    let exponent = max_val.log2().floor() as i32 + 1 - 8;
    let scalar = 2.0_f32.powi(-exponent);
    ColorRGBExp32 {
        r: (x * scalar).clamp(0.0, 255.0) as u8,
        g: (y * scalar).clamp(0.0, 255.0) as u8,
        b: (z * scalar).clamp(0.0, 255.0) as u8,
        exponent: exponent.clamp(-128, 127) as i8,
    }
}

#[test]
fn colours_share_an_exponent() {
    assert_eq!(encoded(1.0, 0.5, 0.0), ColorRGBExp32 { r: 128, g: 64, b: 0, exponent: -7 });
    assert_eq!(encoded(255.0, 128.0, 1.0), ColorRGBExp32 { r: 255, g: 128, b: 1, exponent: 0 });
    assert_eq!(encoded(256.0, 1.9, -5.0), ColorRGBExp32 { r: 128, g: 0, b: 0, exponent: 1 });
    assert_eq!(encoded(0.0, -0.0, -1.0), ColorRGBExp32 { r: 0, g: 0, b: 0, exponent: 0 });
    assert_eq!(encoded(1e-45, 0.0, 0.0), ColorRGBExp32 { r: 255, g: 0, b: 0, exponent: -128 });
}

#[test]
fn colours_are_encoded_as_floats_are() {
    let mut numbers = vec![
        0.0f32, -0.0, 1.0, -1.0, 0.1, 0.999_999_9, 1.999_999_9, 255.999_98, 256.0, 1e-6, 3.7e5,
        f32::MAX, f32::MIN, f32::MIN_POSITIVE, 1e-45, 5e-39, 1e-37, 7e-37, 1.1e-36, f32::NAN,
        f32::NEG_INFINITY, 63.5, 127.99999, 1e30,
    ];
    let mut seed = 12345u32;
    for _ in 0..60 {
        seed = seed.wrapping_mul(1_664_525).wrapping_add(1_013_904_223);
        let f = f32::from_bits(seed);
        if f != f32::INFINITY {
            numbers.push(f);
        }
    }
    for &x in &numbers {
        for &y in &numbers {
            for &z in &[0.0f32, 0.75, 1e-40, -3.0, f32::NAN, 12_345.678] {
                if x.max(y).max(z).is_nan() {
                    continue;
                }
                assert_eq!(encoded(x, y, z), encoded_with_floats(x, y, z));
                assert_eq!(encoded(z, x, y), encoded_with_floats(z, x, y));
            }
        }
    }
}

#[test]
fn the_largest_part_fills_its_byte() {
    for n in 1..2000u32 {
        let c = encoded(n as f32 * 0.37, 0.0, 0.0);
        assert!(c.r >= 127);
    }
    assert_eq!(encoded(0.37, 0.0, 0.0).r, 189);
}

#[test]
fn doubling_a_colour_raises_its_exponent() {
    let numbers = [
        1.0f32, 0.37, 3.5e-30, 255.0, 1e-36, 7.3e37, 1e-40, 0.0, -0.0, -2.5, f32::MIN, 8.1e-37,
    ];
    for x in numbers {
        for y in numbers {
            for z in [0.0f32, 12.75, 1e-44, -1e38] {
                let most = x.max(y).max(z);
                if !(7.6e-37..8.5e37).contains(&most) {
                    continue;
                }
                let a = encoded(x, y, z);
                let b = encoded(2.0 * x, 2.0 * y, 2.0 * z);
                assert_eq!((b.r, b.g, b.b), (a.r, a.g, a.b));
                assert_eq!(b.exponent, a.exponent + 1);
            }
        }
    }
    assert_eq!(encoded(2.0, 1.0, 0.0), ColorRGBExp32 { r: 128, g: 64, b: 0, exponent: -6 });
}
