//! The lighting of a map: where the samples of each face stand, and the bytes
//! that they take.

use vstd::prelude::*;

use crate::color::ColorRGBExp32;
use crate::lumps::Face;
use crate::texels;
use crate::texels::{can_count_luxels, side_length};

verus! {

/// The bytes of a sample.
pub const SAMPLE_BYTES: i32 = 4;

/// The number that 32 bits stand for when they are read as a signed one.
pub open spec fn wrapped(n: int) -> int {
    if n < 0x8000_0000 {
        n
    } else {
        n - 0x1_0000_0000
    }
}

/// The same 32 bits, read as a signed number.
fn reread(n: u32) -> (r: i32)
    ensures
        r == wrapped(n as int),
{
    assert(n < 0x8000_0000 ==> n as i32 == n) by (bit_vector);
    assert(n >= 0x8000_0000 ==> n as i32 == n - 0x1_0000_0000) by (bit_vector);
    #[verifier::truncate]
    (n as i32)
}

/// The bytes of the samples of the first `n` faces: of each its average and its
/// luxels.
pub open spec fn byte_offset(faces: Seq<Face>, scale: u32, n: nat) -> int
    decreases n,
{
    if n == 0 {
        0
    } else {
        byte_offset(faces, scale, (n - 1) as nat) + (1 + texels::luxels(faces[n - 1], scale)) * 4
    }
}

/// A start of a lightmap at `scale` times the resolution.
pub open spec fn scaled_min(min: i32, scale: u32) -> int {
    if scale > 1 {
        min * wrapped(scale as int)
    } else {
        min as int
    }
}

/// The start of a face's lightmap can be scaled.
pub open spec fn mins_fit(face: Face, scale: u32) -> bool {
    forall|k: int|
        0 <= k < 2 ==> i32::MIN <= #[trigger] scaled_min(face.lightmap.mins@[k], scale) <= i32::MAX
}

/// The last luxels of a face's lightmap can be written down.
pub open spec fn maxs_fit(face: Face, scale: u32) -> bool {
    &&& texels::face_fits(face, scale)
    &&& texels::width(face, scale) != 0x8000_0000
    &&& texels::height(face, scale) != 0x8000_0000
}

/// What does not change of a face.
pub open spec fn same_face(a: Face, b: Face) -> bool {
    &&& a.plane_index == b.plane_index
    &&& a.edge_index == b.edge_index
    &&& a.edge_count == b.edge_count
    &&& a.texture_info_index == b.texture_info_index
}

/// `after` is `before` with its lightmap's start scaled.
pub open spec fn mins_scaled(before: Face, after: Face, scale: u32) -> bool {
    &&& after.lightmap.mins@[0] == scaled_min(before.lightmap.mins@[0], scale)
    &&& after.lightmap.mins@[1] == scaled_min(before.lightmap.mins@[1], scale)
    &&& same_face(before, after)
}

/// The face is lit by one style, from samples behind the average at `offset`, on a
/// lightmap as large as that of `sized` at `scale` times the resolution.
pub open spec fn lit(face: Face, sized: Face, scale: u32, offset: int) -> bool {
    &&& face.styles@ == seq![0u8, 255u8, 255u8, 255u8]
    &&& face.light_offset == offset + SAMPLE_BYTES
    &&& face.lightmap.maxs@[0] == wrapped(texels::width(sized, scale)) - 1
    &&& face.lightmap.maxs@[1] == wrapped(texels::height(sized, scale)) - 1
}

/// How a face is lit is as before.
pub open spec fn lit_as_before(before: Face, after: Face) -> bool {
    &&& after.styles@ == before.styles@
    &&& after.light_offset == before.light_offset
    &&& after.lightmap.maxs@ == before.lightmap.maxs@
}

/// Where the texels of a face stand in the lighting, and how many luxels it has.
#[derive(Debug, Clone, Copy, PartialEq, Eq, Structural)]
pub struct FaceTexels {
    pub start: usize,
    pub end: usize,
    pub luxel_count: usize,
}

impl FaceTexels {
    /// By how much the sum of the texels is divided for their average.
    pub fn divisor(&self) -> (r: usize)
        ensures
            r == if self.luxel_count == 0 {
                1
            } else {
                self.luxel_count
            },
    {
        if self.luxel_count == 0 {
            1
        } else {
            self.luxel_count
        }
    }
}

/// The texels of face `i`, as far as there is lighting.
pub open spec fn texels_of(faces: Seq<Face>, scale: u32, lighting: int, i: int) -> FaceTexels {
    let start = texels::texel_offset(faces, scale, i as nat);
    let count = texels::luxels(faces[i], scale);
    FaceTexels {
        start: start as usize,
        end: (if start + count < lighting {
            start + count
        } else {
            lighting
        }) as usize,
        luxel_count: count as usize,
    }
}

/// The texels of each face.
pub open spec fn laid_out(faces: Seq<Face>, scale: u32, lighting: int) -> Seq<FaceTexels> {
    Seq::new(faces.len(), |i: int| texels_of(faces, scale, lighting, i))
}

/// The lighting of the faces can be written: all numbers that it takes fit, and
/// the lighting reaches to the last face.
pub open spec fn writable(faces: Seq<Face>, scale: u32, lighting: int) -> bool {
    &&& forall|i: int| 0 <= i < faces.len() ==> maxs_fit(#[trigger] faces[i], scale)
    &&& byte_offset(faces, scale, faces.len()) <= i32::MAX
    &&& faces.len() > 0 ==> texels::texel_offset(faces, scale, (faces.len() - 1) as nat)
        <= lighting
}

/// Whether the start of a face's lightmap can be scaled.
fn can_scale_mins(face: &Face, scale: u32) -> (r: bool)
    ensures
        r == mins_fit(*face, scale),
{
    if scale <= 1 {
        assert forall|k: int| 0 <= k < 2 implies i32::MIN <= #[trigger] scaled_min(
            face.lightmap.mins@[k],
            scale,
        ) <= i32::MAX by {}
        return true;
    }
    let by: i64 = reread(scale) as i64;
    let a: i64 = face.lightmap.mins[0] as i64;
    let b: i64 = face.lightmap.mins[1] as i64;
    proof {
        assert(-0x4000_0000_0000_0000 <= a * by <= 0x4000_0000_0000_0000 && -0x4000_0000_0000_0000
            <= b * by <= 0x4000_0000_0000_0000) by (nonlinear_arith)
            requires
                -0x8000_0000 <= a <= 0x8000_0000,
                -0x8000_0000 <= b <= 0x8000_0000,
                -0x8000_0000 <= by <= 0x8000_0000,
        ;
    }
    let x: i64 = a * by;
    let y: i64 = b * by;
    let r: bool = -0x8000_0000 <= x && x <= 0x7fff_ffff && -0x8000_0000 <= y && y <= 0x7fff_ffff;
    proof {
        assert(scaled_min(face.lightmap.mins@[0], scale) == x);
        assert(scaled_min(face.lightmap.mins@[1], scale) == y);
    }
    r
}

/// Whether the starts of all lightmaps can be scaled.
fn can_scale_all_mins(faces: &Vec<Face>, scale: u32) -> (r: bool)
    ensures
        r == (forall|i: int| 0 <= i < faces@.len() ==> mins_fit(#[trigger] faces@[i], scale)),
{
    let n: usize = faces.len();
    let mut i: usize = 0;
    while i < n
        invariant
            i <= n == faces@.len(),
            forall|j: int| 0 <= j < i ==> mins_fit(#[trigger] faces@[j], scale),
        decreases n - i,
    {
        if !can_scale_mins(&faces[i], scale) {
            assert(!mins_fit(faces@[i as int], scale));
            return false;
        }
        i = i + 1;
    }
    true
}

/// The lighting of the faces can be written, and the starts of their lightmaps can
/// be scaled.
pub open spec fn layout_fits(
    faces: Seq<Face>,
    counterparts: Option<Vec<Face>>,
    scale: u32,
    lighting: int,
) -> bool {
    &&& writable(faces, scale, lighting)
    &&& forall|i: int| 0 <= i < faces.len() ==> mins_fit(#[trigger] faces[i], scale)
    &&& counterparts matches Some(hdr) ==> forall|i: int|
        0 <= i < hdr@.len() ==> mins_fit(#[trigger] hdr@[i], scale)
}

/// Whether the lighting of a map can be laid out.
pub fn can_lay_out(
    faces: &Vec<Face>,
    counterparts: &Option<Vec<Face>>,
    lighting: usize,
    lightmap_scale: u32,
) -> (r: bool)
    ensures
        r == layout_fits(faces@, *counterparts, lightmap_scale, lighting as int),
{
    let scale: u32 = lightmap_scale;
    if !can_scale_all_mins(faces, scale) {
        return false;
    }
    if let Some(hdr) = counterparts {
        if !can_scale_all_mins(hdr, scale) {
            return false;
        }
    }
    let mut bytes: u64 = 0;
    let mut texels: u64 = 0;
    let n: usize = faces.len();
    let mut i: usize = 0;
    while i < n
        invariant
            i <= n == faces@.len(),
            scale == lightmap_scale,
            forall|j: int| 0 <= j < i ==> maxs_fit(#[trigger] faces@[j], scale),
            forall|i: int| 0 <= i < faces@.len() ==> mins_fit(#[trigger] faces@[i], scale),
            counterparts matches Some(hdr) ==> forall|i: int|
                0 <= i < hdr@.len() ==> mins_fit(#[trigger] hdr@[i], scale),
            bytes == byte_offset(faces@, scale, i as nat) <= i32::MAX,
            texels == texels::texel_offset(faces@, scale, i as nat),
            i == n && n > 0 ==> texels::texel_offset(faces@, scale, (n - 1) as nat) <= lighting,
        decreases n - i,
    {
        if !can_count_luxels(&faces[i], scale) {
            assert(!maxs_fit(faces@[i as int], scale));
            return false;
        }
        let w: u32 = side_length(faces[i].lightmap.maxs[0], scale);
        let h: u32 = side_length(faces[i].lightmap.maxs[1], scale);
        if w == 0x8000_0000 || h == 0x8000_0000 {
            assert(!maxs_fit(faces@[i as int], scale));
            return false;
        }
        if i + 1 == n && texels > lighting as u64 {
            return false;
        }
        proof {
            texels::lemma_luxels(faces@[i as int], scale);
            lemma_bytes_rise(faces@, scale, (i + 1) as nat, n as nat);
            lemma_bytes_and_texels(faces@, scale, i as nat);
            let (a, b) = (w as int, h as int);
            assert(0 <= a * b <= 0xffff_ffff * 0xffff_ffff) by (nonlinear_arith)
                requires
                    0 <= a <= 0xffff_ffff,
                    0 <= b <= 0xffff_ffff,
            ;
        }
        let luxels: u64 = w as u64 * h as u64;
        if luxels > 0x7fff_ffff || bytes + (1 + luxels) * 4 > 0x7fff_ffff {
            return false;
        }
        bytes = bytes + (1 + luxels) * 4;
        texels = texels + luxels;
        i = i + 1;
    }
    true
}

/// Scales the start of a face's lightmap.
fn scale_mins(face: &Face, scale: u32) -> (r: Face)
    requires
        mins_fit(*face, scale),
    ensures
        mins_scaled(*face, r, scale),
        lit_as_before(*face, r),
{
    let mut r = *face;
    if scale > 1 {
        let by: i32 = reread(scale);
        assert(i32::MIN <= scaled_min(face.lightmap.mins@[0], scale) <= i32::MAX);
        assert(i32::MIN <= scaled_min(face.lightmap.mins@[1], scale) <= i32::MAX);
        r.lightmap.mins = [face.lightmap.mins[0] * by, face.lightmap.mins[1] * by];
    }
    r
}

/// Scales the starts of all lightmaps.
fn scale_all_mins(faces: &Vec<Face>, scale: u32) -> (r: Vec<Face>)
    requires
        forall|i: int| 0 <= i < faces@.len() ==> mins_fit(#[trigger] faces@[i], scale),
    ensures
        r@.len() == faces@.len(),
        forall|i: int|
            0 <= i < faces@.len() ==> mins_scaled(faces@[i], #[trigger] r@[i], scale)
                && lit_as_before(faces@[i], r@[i]),
{
    let mut r: Vec<Face> = Vec::new();
    let n: usize = faces.len();
    let mut i: usize = 0;
    while i < n
        invariant
            i <= n == faces@.len(),
            r@.len() == i,
            forall|i: int| 0 <= i < faces@.len() ==> mins_fit(#[trigger] faces@[i], scale),
            forall|j: int|
                0 <= j < i ==> mins_scaled(faces@[j], #[trigger] r@[j], scale) && lit_as_before(
                    faces@[j],
                    r@[j],
                ),
        decreases n - i,
    {
        r.push(scale_mins(&faces[i], scale));
        i = i + 1;
    }
    r
}

/// The faces before `i` are lit, the others only scaled.
spec fn lit_up_to(before: Seq<Face>, after: Seq<Face>, scale: u32, i: int) -> bool {
    &&& after.len() == before.len()
    &&& forall|j: int|
        0 <= j < before.len() ==> mins_scaled(before[j], #[trigger] after[j], scale) && if j < i {
            lit(after[j], before[j], scale, byte_offset(before, scale, j as nat))
        } else {
            lit_as_before(before[j], after[j])
        }
}

/// As `lit_up_to`, for faces that are lit as the faces `main` are.
spec fn lit_like_up_to(
    main: Seq<Face>,
    before: Seq<Face>,
    after: Seq<Face>,
    scale: u32,
    i: int,
) -> bool {
    &&& after.len() == before.len()
    &&& forall|j: int|
        0 <= j < before.len() ==> mins_scaled(before[j], #[trigger] after[j], scale) && if j < i {
            lit(after[j], main[j], scale, byte_offset(main, scale, j as nat))
        } else {
            lit_as_before(before[j], after[j])
        }
}

/// The faces of a map once their lighting is written, and where the texels of
/// each stand.
pub struct Layout {
    pub faces: Vec<Face>,
    /// The same faces for the other dynamic range.
    pub counterparts: Option<Vec<Face>>,
    pub texels: Vec<FaceTexels>,
}

/// The faces that are lit, and their counterparts: those of the map and those for a
/// high dynamic range, or the other way round where that range is asked for.
pub open spec fn chosen_faces(
    hdr: bool,
    faces: Vec<Face>,
    faces_hdr: Option<Vec<Face>>,
) -> Option<(Vec<Face>, Option<Vec<Face>>)> {
    if !hdr {
        Some((faces, faces_hdr))
    } else {
        match faces_hdr {
            Some(lit) => Some((lit, Some(faces))),
            None => None,
        }
    }
}

/// The faces that are lit, and their counterparts. Where a high dynamic range is asked
/// for and there are no faces for it, there is nothing to light.
pub fn choose_faces(hdr: bool, faces: Vec<Face>, faces_hdr: Option<Vec<Face>>) -> (r: Option<
    (Vec<Face>, Option<Vec<Face>>),
>)
    ensures
        r == chosen_faces(hdr, faces, faces_hdr),
{
    if !hdr {
        Some((faces, faces_hdr))
    } else {
        match faces_hdr {
            Some(lit) => Some((lit, Some(faces))),
            None => None,
        }
    }
}

impl Layout {
    /// The faces of the map and those for a high dynamic range, as far as they were
    /// laid out.
    pub fn into_lists(self, hdr: bool) -> (r: (Option<Vec<Face>>, Option<Vec<Face>>))
        ensures
            r == if hdr {
                (self.counterparts, Some(self.faces))
            } else {
                (Some(self.faces), self.counterparts)
            },
    {
        if hdr {
            (self.counterparts, Some(self.faces))
        } else {
            (Some(self.faces), self.counterparts)
        }
    }

    /// It is that of the given faces: each is lit, in the order of the faces, and
    /// its counterpart is lit alike.
    pub open spec fn is_of(
        self,
        faces: Seq<Face>,
        counterparts: Option<Vec<Face>>,
        scale: u32,
        lighting: int,
    ) -> bool {
        &&& self.faces@.len() == faces.len()
        &&& forall|i: int|
            #![trigger self.faces@[i]]
            0 <= i < faces.len() ==> mins_scaled(faces[i], self.faces@[i], scale) && lit(
                self.faces@[i],
                faces[i],
                scale,
                byte_offset(faces, scale, i as nat),
            )
        &&& match counterparts {
            None => self.counterparts is None,
            Some(hdr) => {
                &&& self.counterparts is Some
                &&& self.counterparts->0@.len() == hdr@.len()
                &&& forall|i: int|
                    #![trigger self.counterparts->0@[i]]
                    0 <= i < hdr@.len() ==> mins_scaled(hdr@[i], self.counterparts->0@[i], scale)
                        && if i < faces.len() {
                        lit(
                            self.counterparts->0@[i],
                            faces[i],
                            scale,
                            byte_offset(faces, scale, i as nat),
                        )
                    } else {
                        lit_as_before(hdr@[i], self.counterparts->0@[i])
                    }
            },
        }
        &&& self.texels@ == laid_out(faces, scale, lighting)
    }
}

/// Lays out the lighting of a map: face by face an average and its luxels.
pub fn lay_out_lightmap(
    faces: &Vec<Face>,
    counterparts: &Option<Vec<Face>>,
    lighting: usize,
    lightmap_scale: u32,
) -> (r: Layout)
    requires
        layout_fits(faces@, *counterparts, lightmap_scale, lighting as int),
    ensures
        r.is_of(faces@, *counterparts, lightmap_scale, lighting as int),
{
    let scale: u32 = lightmap_scale;
    let mut out: Vec<Face> = scale_all_mins(faces, scale);
    let mut out_hdr: Vec<Face> = match counterparts {
        Some(hdr) => scale_all_mins(hdr, scale),
        None => Vec::new(),
    };
    let ghost hdr: Seq<Face> = match counterparts {
        Some(hdr) => hdr@,
        None => Seq::empty(),
    };
    let mut texels: Vec<FaceTexels> = Vec::new();
    let mut byte_at: i32 = 0;
    let mut texel_at: usize = 0;
    let n: usize = faces.len();
    let mut i: usize = 0;
    while i < n
        invariant
            i <= n == faces@.len(),
            scale == lightmap_scale,
            writable(faces@, scale, lighting as int),
            lit_up_to(faces@, out@, scale, i as int),
            lit_like_up_to(faces@, hdr, out_hdr@, scale, i as int),
            byte_at == byte_offset(faces@, scale, i as nat),
            texel_at == texels::texel_offset(faces@, scale, i as nat),
            texels@ == Seq::new(
                i as nat,
                |i: int| texels_of(faces@, scale, lighting as int, i),
            ),
        decreases n - i,
    {
        proof {
            assert(maxs_fit(faces@[i as int], scale));
            texels::lemma_luxels(faces@[i as int], scale);
            lemma_bytes_rise(faces@, scale, (i + 1) as nat, n as nat);
            texels::lemma_offsets_rise(faces@, scale, i as nat, (n - 1) as nat);
            lemma_bytes_and_texels(faces@, scale, (i + 1) as nat);
        }
        let w: u32 = side_length(faces[i].lightmap.maxs[0], scale);
        let h: u32 = side_length(faces[i].lightmap.maxs[1], scale);
        let luxel_count: usize = w as usize * h as usize;
        let maxs: [i32; 2] = [reread(w) - 1, reread(h) - 1];
        let mut face: Face = out[i];
        face.lightmap.maxs = maxs;
        face.styles = [0, 255, 255, 255];
        face.light_offset = byte_at + SAMPLE_BYTES;
        if i < out_hdr.len() {
            let mut hdr_face: Face = out_hdr[i];
            hdr_face.lightmap.maxs = maxs;
            hdr_face.styles = face.styles;
            hdr_face.light_offset = face.light_offset;
            out_hdr.set(i, hdr_face);
        }
        out.set(i, face);
        let end: usize = if lighting - texel_at < luxel_count {
            lighting
        } else {
            texel_at + luxel_count
        };
        texels.push(FaceTexels { start: texel_at, end, luxel_count });
        byte_at = byte_at + (1 + luxel_count as i32) * SAMPLE_BYTES;
        texel_at = texel_at + luxel_count;
        i = i + 1;
    }
    Layout {
        faces: out,
        counterparts: match counterparts {
            Some(_) => Some(out_hdr),
            None => None,
        },
        texels,
    }
}

/// Samples of more faces take more bytes.
proof fn lemma_bytes_rise(faces: Seq<Face>, scale: u32, m: nat, n: nat)
    requires
        m <= n,
    ensures
        byte_offset(faces, scale, m) <= byte_offset(faces, scale, n),
    decreases n,
{
    if m < n {
        lemma_bytes_rise(faces, scale, m, (n - 1) as nat);
        texels::lemma_luxels(faces[n - 1], scale);
    }
}

/// Each face takes four bytes for its average and for each texel.
pub proof fn lemma_bytes_and_texels(faces: Seq<Face>, scale: u32, n: nat)
    ensures
        byte_offset(faces, scale, n) == 4 * (n + texels::texel_offset(faces, scale, n)),
        texels::texel_offset(faces, scale, n) >= 0,
    decreases n,
{
    texels::lemma_offsets_rise(faces, scale, n, n);
    if n > 0 {
        lemma_bytes_and_texels(faces, scale, (n - 1) as nat);
    }
}

/// The samples of a face: the average, then its texels.
pub open spec fn face_samples(
    t: FaceTexels,
    average: ColorRGBExp32,
    lighting: Seq<ColorRGBExp32>,
) -> Seq<ColorRGBExp32> {
    seq![average] + lighting.subrange(t.start as int, t.end as int)
}

/// The samples of the first `n` faces.
pub open spec fn samples_of(
    ts: Seq<FaceTexels>,
    averages: Seq<ColorRGBExp32>,
    lighting: Seq<ColorRGBExp32>,
    n: nat,
) -> Seq<ColorRGBExp32>
    decreases n,
{
    if n == 0 {
        Seq::empty()
    } else {
        samples_of(ts, averages, lighting, (n - 1) as nat) + face_samples(
            ts[n - 1],
            averages[n - 1],
            lighting,
        )
    }
}

/// The byte `k` of a sample.
pub open spec fn sample_byte(c: ColorRGBExp32, k: int) -> u8 {
    if k == 0 {
        c.r
    } else if k == 1 {
        c.g
    } else if k == 2 {
        c.b
    } else if c.exponent < 0 {
        (c.exponent + 256) as u8
    } else {
        c.exponent as u8
    }
}

/// The bytes of samples.
pub open spec fn bytes_of(samples: Seq<ColorRGBExp32>) -> Seq<u8> {
    Seq::new(4 * samples.len(), |i: int| sample_byte(samples[i / 4], i % 4))
}

/// The samples of the faces: of each the average, then its texels.
fn lightmap_samples(
    texels: &[FaceTexels],
    averages: &[ColorRGBExp32],
    lighting: &[ColorRGBExp32],
) -> (r: Vec<ColorRGBExp32>)
    requires
        averages@.len() == texels@.len(),
        forall|i: int|
            0 <= i < texels@.len() ==> (#[trigger] texels@[i]).start <= texels@[i].end
                <= lighting@.len(),
    ensures
        r@ == samples_of(texels@, averages@, lighting@, texels@.len()),
{
    let mut samples: Vec<ColorRGBExp32> = Vec::new();
    let n: usize = texels.len();
    let mut i: usize = 0;
    while i < n
        invariant
            i <= n == texels@.len() == averages@.len(),
            forall|i: int|
                0 <= i < texels@.len() ==> (#[trigger] texels@[i]).start <= texels@[i].end
                    <= lighting@.len(),
            samples@ == samples_of(texels@, averages@, lighting@, i as nat),
        decreases n - i,
    {
        let ghost before = samples@;
        samples.push(averages[i]);
        let start: usize = texels[i].start;
        let end: usize = texels[i].end;
        let mut j: usize = start;
        while j < end
            invariant
                i < n == texels@.len() == averages@.len(),
                start <= j <= end <= lighting@.len(),
                samples@ == before + seq![averages@[i as int]] + lighting@.subrange(
                    start as int,
                    j as int,
                ),
            decreases end - j,
        {
            samples.push(lighting[j]);
            j = j + 1;
            assert(samples@ =~= before + seq![averages@[i as int]] + lighting@.subrange(
                start as int,
                j as int,
            ));
        }
        assert(samples@ =~= before + face_samples(texels@[i as int], averages@[i as int], lighting@));
        i = i + 1;
    }
    samples
}

/// The bytes of samples.
fn sample_bytes(samples: &Vec<ColorRGBExp32>) -> (r: Vec<u8>)
    ensures
        r@ == bytes_of(samples@),
{
    let mut bytes: Vec<u8> = Vec::new();
    let n: usize = samples.len();
    let mut i: usize = 0;
    while i < n
        invariant
            i <= n == samples@.len(),
            bytes@ == bytes_of(samples@.take(i as int)),
        decreases n - i,
    {
        let c: ColorRGBExp32 = samples[i];
        let e: i8 = c.exponent;
        assert(e < 0 ==> e as u8 == e + 256) by (bit_vector);
        bytes.push(c.r);
        bytes.push(c.g);
        bytes.push(c.b);
        bytes.push(
            #[verifier::truncate]
            (e as u8),
        );
        i = i + 1;
        assert(bytes@ =~= bytes_of(samples@.take(i as int)));
    }
    assert(samples@.take(n as int) =~= samples@);
    bytes
}

/// The bytes of a map's lighting: face by face the average and the texels.
pub fn write_lightmap(
    texels: &[FaceTexels],
    averages: &[ColorRGBExp32],
    lighting: &[ColorRGBExp32],
) -> (r: Vec<u8>)
    requires
        averages@.len() == texels@.len(),
        forall|i: int|
            0 <= i < texels@.len() ==> (#[trigger] texels@[i]).start <= texels@[i].end
                <= lighting@.len(),
    ensures
        r@ == bytes_of(samples_of(texels@, averages@, lighting@, texels@.len())),
{
    sample_bytes(&lightmap_samples(texels, averages, lighting))
}

/// Where the samples of the faces stand.
proof fn lemma_samples(
    faces: Seq<Face>,
    scale: u32,
    averages: Seq<ColorRGBExp32>,
    lighting: Seq<ColorRGBExp32>,
    n: nat,
)
    requires
        n <= faces.len() == averages.len(),
        texels::texel_offset(faces, scale, faces.len()) <= lighting.len() <= usize::MAX,
    ensures
        ({
            let all = samples_of(
                laid_out(faces, scale, lighting.len() as int),
                averages,
                lighting,
                n,
            );
            &&& all.len() == n + texels::texel_offset(faces, scale, n)
            &&& forall|f: int|
                0 <= f < n ==> #[trigger] averages[f] == all[f + texels::texel_offset(
                    faces,
                    scale,
                    f as nat,
                )]
            &&& forall|f: int, j: int|
                #![trigger lighting[texels::texel_offset(faces, scale, f as nat) + j]]
                0 <= f < n && 0 <= j < texels::luxels(faces[f], scale) ==> all[f
                    + texels::texel_offset(faces, scale, f as nat) + 1 + j]
                    == lighting[texels::texel_offset(faces, scale, f as nat) + j]
        }),
    decreases n,
{
    if n > 0 {
        let m = (n - 1) as nat;
        lemma_samples(faces, scale, averages, lighting, m);
        texels::lemma_offsets_rise(faces, scale, n, faces.len());
        texels::lemma_offsets_rise(faces, scale, m, n);
        texels::lemma_luxels(faces[m as int], scale);
        let ts = laid_out(faces, scale, lighting.len() as int);
        let before = samples_of(ts, averages, lighting, m);
        let mine = face_samples(ts[m as int], averages[m as int], lighting);
        let all = samples_of(ts, averages, lighting, n);
        assert(all == before + mine);
        let start = texels::texel_offset(faces, scale, m);
        assert(ts[m as int].start == start);
        assert(ts[m as int].end == start + texels::luxels(faces[m as int], scale));
        assert forall|f: int| 0 <= f < n implies #[trigger] averages[f] == all[f
            + texels::texel_offset(faces, scale, f as nat)] by {
            if f < m {
                texels::lemma_offsets_rise(faces, scale, f as nat, m);
            }
        }
        assert forall|f: int, j: int|
            #![trigger lighting[texels::texel_offset(faces, scale, f as nat) + j]]
            0 <= f < n && 0 <= j < texels::luxels(faces[f], scale) implies all[f
            + texels::texel_offset(faces, scale, f as nat) + 1 + j]
            == lighting[texels::texel_offset(faces, scale, f as nat) + j] by {
            if f < m {
                let x = texels::texel_offset(faces, scale, f as nat);
                texels::lemma_offsets_rise(faces, scale, f as nat, f as nat);
                texels::lemma_offsets_rise(faces, scale, (f + 1) as nat, m);
                assert(texels::texel_offset(faces, scale, (f + 1) as nat) == x + texels::luxels(
                    faces[f],
                    scale,
                ));
                assert(before[f + x + 1 + j] == lighting[x + j]);
            } else {
                assert(mine[1 + j] == lighting[start + j]);
            }
        }
    }
}

/// What is written for a luxel is read where its face points: with the lighting of
/// all faces there, the bytes behind a face's offset are those of its luxels, row
/// by row, and the ones before it are those of its average, also where the face has
/// no luxels. The samples of all faces together take no more and no fewer bytes.
pub proof fn luxels_are_where_faces_point(
    faces: Seq<Face>,
    scale: u32,
    averages: Seq<ColorRGBExp32>,
    lighting: Seq<ColorRGBExp32>,
    f: int,
    j: int,
    k: int,
)
    requires
        averages.len() == faces.len(),
        texels::texel_offset(faces, scale, faces.len()) <= lighting.len() <= usize::MAX,
        0 <= f < faces.len(),
        0 <= k < 4,
    ensures
        ({
            let ts = laid_out(faces, scale, lighting.len() as int);
            let bytes = bytes_of(samples_of(ts, averages, lighting, ts.len()));
            let at = byte_offset(faces, scale, f as nat) + SAMPLE_BYTES;
            let texel = texels::texel_offset(faces, scale, f as nat) + j;
            &&& bytes.len() == byte_offset(faces, scale, faces.len())
            &&& 0 <= at - 4 && at <= bytes.len()
            &&& bytes[at - 4 + k] == sample_byte(averages[f], k)
            &&& 0 <= j < texels::luxels(faces[f], scale) ==> {
                &&& at + 4 * j + 4 <= bytes.len()
                &&& bytes[at + 4 * j + k] == sample_byte(lighting[texel], k)
            }
        }),
{
    lemma_samples(faces, scale, averages, lighting, faces.len());
    lemma_bytes_and_texels(faces, scale, faces.len());
    lemma_bytes_and_texels(faces, scale, f as nat);
    texels::lemma_offsets_rise(faces, scale, (f + 1) as nat, faces.len());
    let ts = laid_out(faces, scale, lighting.len() as int);
    let all = samples_of(ts, averages, lighting, ts.len());
    let start = texels::texel_offset(faces, scale, f as nat);
    texels::lemma_luxels(faces[f], scale);
    assert(averages[f] == all[f + start]);
    let at = byte_offset(faces, scale, f as nat) + 4;
    assert((at - 4 + k) / 4 == f + start && (at - 4 + k) % 4 == k);
    if 0 <= j < texels::luxels(faces[f], scale) {
        assert(lighting[start + j] == all[f + start + 1 + j]);
        assert((at + 4 * j + k) / 4 == f + start + 1 + j && (at + 4 * j + k) % 4 == k);
    }
}

/// A face that is lit has, as it is written, the sides of the one that it is lit by,
/// at the scale.
proof fn lemma_lit_sides(face: Face, sized: Face, scale: u32, offset: int)
    requires
        lit(face, sized, scale, offset),
        maxs_fit(sized, scale),
    ensures
        texels::face_fits(face, 1),
        texels::width(face, 1) == texels::width(sized, scale),
        texels::height(face, 1) == texels::height(sized, scale),
{
    texels::lemma_luxels(sized, scale);
}

/// The faces as they are written, read at their own resolution, have the luxels that
/// the faces before had at the scale: as many, and in the same order. So have their
/// counterparts. The faces lie on the same planes as before.
pub proof fn written_faces_have_the_same_luxels(
    layout: Layout,
    faces: Seq<Face>,
    counterparts: Option<Vec<Face>>,
    scale: u32,
    lighting: int,
    n: nat,
)
    requires
        layout_fits(faces, counterparts, scale, lighting),
        layout.is_of(faces, counterparts, scale, lighting),
        n <= faces.len(),
    ensures
        forall|i: int|
            0 <= i < n ==> texels::face_fits(#[trigger] layout.faces@[i], 1) && same_face(
                faces[i],
                layout.faces@[i],
            ),
        texels::luxels_of(layout.faces@, 1, n) == texels::luxels_of(faces, scale, n),
        counterparts matches Some(others) && n <= others@.len() ==> texels::luxels_of(
            layout.counterparts->0@,
            1,
            n,
        ) == texels::luxels_of(faces, scale, n),
    decreases n,
{
    if n > 0 {
        let i = n - 1;
        written_faces_have_the_same_luxels(
            layout,
            faces,
            counterparts,
            scale,
            lighting,
            i as nat,
        );
        let offset = byte_offset(faces, scale, i as nat);
        assert(maxs_fit(faces[i], scale));
        assert(lit(layout.faces@[i], faces[i], scale, offset));
        lemma_lit_sides(layout.faces@[i], faces[i], scale, offset);
        assert(texels::face_luxels(layout.faces@[i], 1, i) =~= texels::face_luxels(
            faces[i],
            scale,
            i,
        ));
        if counterparts is Some && n <= counterparts->0@.len() {
            let other = layout.counterparts->0@[i];
            assert(lit(other, faces[i], scale, offset));
            lemma_lit_sides(other, faces[i], scale, offset);
            assert(texels::face_luxels(other, 1, i) =~= texels::face_luxels(faces[i], scale, i));
        }
    }
}

/// Every texel reaches the luxel that it was made for: its colour is read behind
/// the offset of that luxel's face, as far as there are luxels before it in the
/// face, row by row.
pub proof fn texels_reach_their_luxels(
    faces: Seq<Face>,
    scale: u32,
    averages: Seq<ColorRGBExp32>,
    lighting: Seq<ColorRGBExp32>,
    i: int,
    k: int,
)
    requires
        averages.len() == faces.len() <= usize::MAX,
        forall|f: int| 0 <= f < faces.len() ==> texels::face_fits(#[trigger] faces[f], scale),
        lighting.len() == texels::luxels_of(faces, scale, faces.len()).len() <= usize::MAX,
        0 <= i < lighting.len(),
        0 <= k < 4,
    ensures
        ({
            let ts = laid_out(faces, scale, lighting.len() as int);
            let bytes = bytes_of(samples_of(ts, averages, lighting, ts.len()));
            let l = texels::luxels_of(faces, scale, faces.len())[i];
            let at = byte_offset(faces, scale, l.face as nat) + SAMPLE_BYTES;
            let row = texels::width(faces[l.face as int], scale);
            &&& l.face < faces.len()
            &&& l.s < row
            &&& l.t < texels::height(faces[l.face as int], scale)
            &&& 0 <= at + 4 * (l.t * row + l.s) + k < bytes.len()
            &&& bytes[at + 4 * (l.t * row + l.s) + k] == sample_byte(lighting[i], k)
        }),
{
    let all = texels::luxels_of(faces, scale, faces.len());
    let l = all[i];
    texels::lemma_luxel_in_face(faces, scale, faces.len(), i);
    texels::lemma_texel_count(faces, scale, faces.len());
    let f = l.face as int;
    let row = texels::width(faces[f], scale);
    texels::each_luxel_has_one_texel(faces, scale, f, l.s as int, l.t as int);
    let j = l.t * row + l.s;
    assert(0 <= j < texels::luxels(faces[f], scale)) by {
        let h = texels::height(faces[f], scale);
        let (t, s) = (l.t as int, l.s as int);
        assert(0 <= t * row + s < row * h) by (nonlinear_arith)
            requires
                0 <= s < row,
                0 <= t < h,
        ;
    }
    luxels_are_where_faces_point(faces, scale, averages, lighting, f, j, k);
}

/// Where the map says that the lighting of a face is, there it is: once the layout is
/// written to the faces, the bytes from a face's offset on are those of its luxels, four
/// for each, and the four before it are those of its average. A counterpart points to the
/// same place.
pub proof fn written_faces_point_at_their_light(
    layout: Layout,
    faces: Seq<Face>,
    counterparts: Option<Vec<Face>>,
    scale: u32,
    averages: Seq<ColorRGBExp32>,
    lighting: Seq<ColorRGBExp32>,
    f: int,
    j: int,
    k: int,
)
    requires
        layout.is_of(faces, counterparts, scale, lighting.len() as int),
        averages.len() == faces.len(),
        texels::texel_offset(faces, scale, faces.len()) <= lighting.len() <= usize::MAX,
        0 <= f < faces.len(),
        0 <= k < 4,
    ensures
        ({
            let bytes = bytes_of(samples_of(layout.texels@, averages, lighting, faces.len()));
            let at = layout.faces@[f].light_offset as int;
            let texel = texels::texel_offset(faces, scale, f as nat) + j;
            &&& bytes.len() == 4 * (faces.len() + texels::texel_offset(faces, scale, faces.len()))
            &&& 4 <= at <= bytes.len()
            &&& bytes[at - 4 + k] == sample_byte(averages[f], k)
            &&& 0 <= j < texels::luxels(faces[f], scale) ==> {
                &&& at + 4 * j + 4 <= bytes.len()
                &&& bytes[at + 4 * j + k] == sample_byte(lighting[texel], k)
            }
            &&& counterparts matches Some(others) ==> (f < others@.len()
                ==> layout.counterparts->0@[f].light_offset == at)
        }),
{
    assert(lit(layout.faces@[f], faces[f], scale, byte_offset(faces, scale, f as nat)));
    luxels_are_where_faces_point(faces, scale, averages, lighting, f, j, k);
    lemma_bytes_and_texels(faces, scale, faces.len());
    if let Some(others) = counterparts {
        if f < others@.len() {
            let other = layout.counterparts->0@[f];
            assert(lit(other, faces[f], scale, byte_offset(faces, scale, f as nat)));
        }
    }
}

/// A sample takes four bytes: its three parts in their order, and its exponent, whose
/// negative numbers count down from 256.
pub proof fn samples_take_four_bytes(samples: Seq<ColorRGBExp32>, i: int)
    requires
        0 <= i < samples.len(),
    ensures
        ({
            let b = bytes_of(samples);
            let c = samples[i];
            &&& b.len() == 4 * samples.len()
            &&& b[4 * i] == c.r
            &&& b[4 * i + 1] == c.g
            &&& b[4 * i + 2] == c.b
            &&& c.exponent >= 0 ==> b[4 * i + 3] == c.exponent
            &&& c.exponent < 0 ==> b[4 * i + 3] == c.exponent + 256
        }),
{
}

/// The start of a lightmap is scaled with it, and stays where the scale is one or none.
/// What a face is besides that does not change; it is lit by its first style alone. The
/// last luxels of its sides are those of the scaled sides.
pub proof fn written_faces_are_scaled(
    layout: Layout,
    faces: Seq<Face>,
    counterparts: Option<Vec<Face>>,
    scale: u32,
    lighting: int,
    i: int,
    k: int,
)
    requires
        layout.is_of(faces, counterparts, scale, lighting),
        0 <= i < faces.len(),
        0 <= k < 2,
        scale < 0x8000_0000,
    ensures
        layout.faces@.len() == faces.len(),
        scale > 1 ==> layout.faces@[i].lightmap.mins@[k] == faces[i].lightmap.mins@[k] * scale,
        scale <= 1 ==> layout.faces@[i].lightmap.mins@[k] == faces[i].lightmap.mins@[k],
        texels::side(faces[i].lightmap.maxs@[k], scale) < 0x8000_0000
            ==> layout.faces@[i].lightmap.maxs@[k] == texels::side(
            faces[i].lightmap.maxs@[k],
            scale,
        ) - 1,
        layout.faces@[i].styles@ == seq![0u8, 255u8, 255u8, 255u8],
        layout.faces@[i].plane_index == faces[i].plane_index,
        layout.faces@[i].edge_index == faces[i].edge_index,
        layout.faces@[i].edge_count == faces[i].edge_count,
        layout.faces@[i].texture_info_index == faces[i].texture_info_index,
        counterparts is None <==> layout.counterparts is None,
        counterparts matches Some(others) ==> {
            &&& layout.counterparts->0@.len() == others@.len()
            &&& i < others@.len() ==> {
                let (a, b) = (others@[i], layout.counterparts->0@[i]);
                &&& b.styles@ == layout.faces@[i].styles@
                &&& b.lightmap.maxs@[k] == layout.faces@[i].lightmap.maxs@[k]
                &&& b.lightmap.mins@[k] == if scale > 1 {
                    a.lightmap.mins@[k] * scale
                } else {
                    a.lightmap.mins@[k] as int
                }
            }
        },
{
    let offset = byte_offset(faces, scale, i as nat);
    assert(mins_scaled(faces[i], layout.faces@[i], scale));
    assert(lit(layout.faces@[i], faces[i], scale, offset));
    if let Some(others) = counterparts {
        if i < others@.len() {
            assert(mins_scaled(others@[i], layout.counterparts->0@[i], scale));
            assert(lit(layout.counterparts->0@[i], faces[i], scale, offset));
        }
    }
}

/// Counterparts beyond the faces keep their light as it was; only their start is scaled.
pub proof fn surplus_counterparts_stay(
    layout: Layout,
    faces: Seq<Face>,
    others: Vec<Face>,
    scale: u32,
    lighting: int,
    i: int,
)
    requires
        layout.is_of(faces, Some(others), scale, lighting),
        faces.len() <= i < others@.len(),
    ensures
        layout.counterparts->0@[i].styles@ == others@[i].styles@,
        layout.counterparts->0@[i].light_offset == others@[i].light_offset,
        layout.counterparts->0@[i].lightmap.maxs@ == others@[i].lightmap.maxs@,
        1 < scale < 0x8000_0000 ==> layout.counterparts->0@[i].lightmap.mins@[0]
            == others@[i].lightmap.mins@[0] * scale && layout.counterparts->0@[i].lightmap.mins@[1]
            == others@[i].lightmap.mins@[1] * scale,
{
    assert(mins_scaled(others@[i], layout.counterparts->0@[i], scale));
}

/// The texels of the faces follow one another without a gap, each face with as many as it
/// has luxels, as far as there is lighting.
pub proof fn texels_follow_one_another(
    layout: Layout,
    faces: Seq<Face>,
    counterparts: Option<Vec<Face>>,
    scale: u32,
    lighting: int,
    i: int,
)
    requires
        layout.is_of(faces, counterparts, scale, lighting),
        texels::texel_offset(faces, scale, faces.len()) <= lighting <= usize::MAX,
        0 <= i < faces.len(),
    ensures
        layout.texels@.len() == faces.len(),
        layout.texels@[0].start == 0,
        layout.texels@[i].luxel_count == texels::luxels(faces[i], scale),
        layout.texels@[i].end == layout.texels@[i].start + layout.texels@[i].luxel_count,
        i + 1 < faces.len() ==> layout.texels@[i + 1].start == layout.texels@[i].end,
{
    texels::lemma_offsets_rise(faces, scale, i as nat, faces.len());
    texels::lemma_offsets_rise(faces, scale, (i + 1) as nat, faces.len());
    texels::lemma_luxels(faces[i], scale);
}

/// Where the lighting ends within a face, the face has the texels up to there, and still
/// counts all of its luxels.
pub proof fn lighting_may_end_early(faces: Seq<Face>, scale: u32, lighting: int, i: int)
    requires
        0 <= i < faces.len(),
        texels::texel_offset(faces, scale, i as nat) <= lighting <= usize::MAX,
        lighting < texels::texel_offset(faces, scale, (i + 1) as nat) <= usize::MAX,
    ensures
        laid_out(faces, scale, lighting)[i].start == texels::texel_offset(faces, scale, i as nat),
        laid_out(faces, scale, lighting)[i].end == lighting,
        laid_out(faces, scale, lighting)[i].luxel_count == texels::luxels(faces[i], scale),
{
    texels::lemma_offsets_rise(faces, scale, i as nat, i as nat);
    texels::lemma_luxels(faces[i], scale);
}

/// The start of a lightmap fits into 32 bits at `scale` times the resolution.
pub open spec fn start_fits(min: i32, scale: u32) -> bool {
    &&& 1 < scale < 0x8000_0000 ==> -0x8000_0000 <= min * scale < 0x8000_0000
    &&& scale >= 0x8000_0000 ==> -0x8000_0000 <= min * (scale - 0x1_0000_0000) < 0x8000_0000
}

/// A lightmap can be laid out if and only if all numbers that it takes fit: the starts of
/// all faces, the sides of those that are lit, four bytes for each luxel and for each
/// average, and if the lighting reaches up to the texels of the last face.
pub proof fn layouts_fit_where_their_numbers_do(
    faces: Seq<Face>,
    counterparts: Option<Vec<Face>>,
    scale: u32,
    lighting: int,
)
    ensures
        layout_fits(faces, counterparts, scale, lighting) <==> {
            &&& forall|i: int|
                0 <= i < faces.len() ==> {
                    let (s, t) = ((#[trigger] faces[i]).lightmap.maxs@[0], faces[i].lightmap.maxs@[1]);
                    &&& texels::side_fits(s, scale) && texels::side(s, scale) != 0x8000_0000
                    &&& texels::side_fits(t, scale) && texels::side(t, scale) != 0x8000_0000
                    &&& start_fits(faces[i].lightmap.mins@[0], scale)
                    &&& start_fits(faces[i].lightmap.mins@[1], scale)
                }
            &&& counterparts matches Some(others) ==> forall|i: int|
                0 <= i < others@.len() ==> {
                    &&& start_fits((#[trigger] others@[i]).lightmap.mins@[0], scale)
                    &&& start_fits(others@[i].lightmap.mins@[1], scale)
                }
            &&& 4 * (faces.len() + texels::texel_offset(faces, scale, faces.len())) < 0x8000_0000
            &&& faces.len() > 0 ==> texels::texel_offset(faces, scale, faces.len())
                - texels::luxels(faces.last(), scale) <= lighting
        },
{
    lemma_bytes_and_texels(faces, scale, faces.len());
    assert forall|face: Face|
        #[trigger] mins_fit(face, scale) <==> start_fits(face.lightmap.mins@[0], scale)
            && start_fits(face.lightmap.mins@[1], scale) by {
        let (a, b) = (face.lightmap.mins@[0], face.lightmap.mins@[1]);
        if mins_fit(face, scale) {
            assert(scaled_min(a, scale) <= i32::MAX);
            assert(scaled_min(b, scale) <= i32::MAX);
        }
    }
    if layout_fits(faces, counterparts, scale, lighting) {
        assert forall|i: int| 0 <= i < faces.len() implies mins_fit(#[trigger] faces[i], scale)
            && maxs_fit(faces[i], scale) by {}
    } else {
        assert forall|i: int|
            0 <= i < faces.len() && mins_fit(#[trigger] faces[i], scale) implies start_fits(
            faces[i].lightmap.mins@[0],
            scale,
        ) by {}
    }
}

/// A scale of 32 bits and a side of 32 bits are both read as signed numbers, so that large
/// ones count down from zero.
pub proof fn large_numbers_count_down(
    layout: Layout,
    faces: Seq<Face>,
    counterparts: Option<Vec<Face>>,
    scale: u32,
    lighting: int,
    i: int,
    k: int,
)
    requires
        layout.is_of(faces, counterparts, scale, lighting),
        0 <= i < faces.len(),
        0 <= k < 2,
    ensures
        scale >= 0x8000_0000 ==> layout.faces@[i].lightmap.mins@[k] == faces[i].lightmap.mins@[k]
            * (scale - 0x1_0000_0000),
        texels::side(faces[i].lightmap.maxs@[k], scale) >= 0x8000_0000
            ==> layout.faces@[i].lightmap.maxs@[k] == texels::side(
            faces[i].lightmap.maxs@[k],
            scale,
        ) - 0x1_0000_0001,
        counterparts matches Some(others) ==> {
            &&& i < others@.len() && scale >= 0x8000_0000
                ==> layout.counterparts->0@[i].lightmap.mins@[k] == others@[i].lightmap.mins@[k] * (
            scale - 0x1_0000_0000)
            &&& i < others@.len() ==> layout.counterparts->0@[i].lightmap.maxs@[k]
                == layout.faces@[i].lightmap.maxs@[k]
            &&& i < others@.len() ==> layout.counterparts->0@[i].plane_index
                == others@[i].plane_index && layout.counterparts->0@[i].edge_index
                == others@[i].edge_index && layout.counterparts->0@[i].edge_count
                == others@[i].edge_count && layout.counterparts->0@[i].texture_info_index
                == others@[i].texture_info_index
        },
{
    let offset = byte_offset(faces, scale, i as nat);
    assert(mins_scaled(faces[i], layout.faces@[i], scale));
    assert(lit(layout.faces@[i], faces[i], scale, offset));
    if let Some(others) = counterparts {
        if i < others@.len() {
            assert(mins_scaled(others@[i], layout.counterparts->0@[i], scale));
            assert(lit(layout.counterparts->0@[i], faces[i], scale, offset));
        }
    }
}

/// The faces that are lit are those for the range that is asked for, the others are their
/// counterparts, and none is lost. There is nothing to light if and only if a high range
/// is asked for and there are no faces for it.
pub proof fn asked_for_faces_are_lit(hdr: bool, faces: Vec<Face>, faces_hdr: Option<Vec<Face>>)
    ensures
        chosen_faces(hdr, faces, faces_hdr) is None <==> hdr && faces_hdr is None,
        chosen_faces(hdr, faces, faces_hdr) matches Some((lit, others)) ==> {
            &&& hdr ==> Some(lit) == faces_hdr && others == Some(faces)
            &&& !hdr ==> lit == faces && others == faces_hdr
        },
{
}

} // verus!
