//! The texels of a lightmap: which luxel of which face each one lights.

use vstd::arithmetic::div_mod::*;
use vstd::arithmetic::mul::*;
use vstd::prelude::*;

use crate::lumps::Face;

verus! {

/// The number of luxels along a side of a face whose last luxel is `max`, at
/// `scale` times the resolution.
pub open spec fn side(max: i32, scale: u32) -> int {
    let n = max + 1;
    (if n < 0 {
        n + 0x1_0000_0000
    } else {
        n
    }) * scale
}

/// A side can be counted.
pub open spec fn side_fits(max: i32, scale: u32) -> bool {
    max < i32::MAX && side(max, scale) <= u32::MAX
}

/// The number of luxels along a side of a face.
pub fn side_length(max: i32, scale: u32) -> (r: u32)
    requires
        side_fits(max, scale),
    ensures
        r == side(max, scale),
{
    let n: i32 = max + 1;
    let luxels: u32 =
        #[verifier::truncate]
        (n as u32);
    assert(n < 0 ==> n as u32 == n + 0x1_0000_0000) by (bit_vector);
    luxels * scale
}

/// Whether a side can be counted.
pub fn can_count_side(max: i32, scale: u32) -> (r: bool)
    ensures
        r == side_fits(max, scale),
{
    if max == i32::MAX {
        return false;
    }
    let n: i32 = max + 1;
    let luxels: u32 =
        #[verifier::truncate]
        (n as u32);
    assert(n < 0 ==> n as u32 == n + 0x1_0000_0000) by (bit_vector);
    proof {
        let (a, b) = (luxels as int, scale as int);
        assert(0 <= a * b <= 0xffff_ffff * 0xffff_ffff) by (nonlinear_arith)
            requires
                0 <= a <= 0xffff_ffff,
                0 <= b <= 0xffff_ffff,
        ;
    }
    luxels as u64 * scale as u64 <= 0xffff_ffff
}

/// The luxels in a row of a face.
pub open spec fn width(face: Face, scale: u32) -> int {
    side(face.lightmap.maxs@[0], scale)
}

/// The rows of luxels of a face.
pub open spec fn height(face: Face, scale: u32) -> int {
    side(face.lightmap.maxs@[1], scale)
}

/// The luxels of a face.
pub open spec fn luxels(face: Face, scale: u32) -> int {
    width(face, scale) * height(face, scale)
}

/// The sides of a face can be counted.
pub open spec fn face_fits(face: Face, scale: u32) -> bool {
    side_fits(face.lightmap.maxs@[0], scale) && side_fits(face.lightmap.maxs@[1], scale)
}

/// Whether the sides of a face can be counted.
pub fn can_count_luxels(face: &Face, scale: u32) -> (r: bool)
    ensures
        r == face_fits(*face, scale),
{
    can_count_side(face.lightmap.maxs[0], scale) && can_count_side(face.lightmap.maxs[1], scale)
}

/// The luxels of the first `n` faces.
pub open spec fn texel_offset(faces: Seq<Face>, scale: u32, n: nat) -> int
    decreases n,
{
    if n == 0 {
        0
    } else {
        texel_offset(faces, scale, (n - 1) as nat) + luxels(faces[n - 1], scale)
    }
}

/// The luxel that a texel lights: the one in column `s` and row `t` of a face.
#[derive(Debug, Clone, Copy, PartialEq, Eq, Structural)]
pub struct Luxel {
    pub face: usize,
    pub s: u32,
    pub t: u32,
}

/// The luxels of a face, row by row.
pub open spec fn face_luxels(face: Face, scale: u32, at: int) -> Seq<Luxel> {
    Seq::new(
        luxels(face, scale) as nat,
        |i: int|
            Luxel {
                face: at as usize,
                s: (i % width(face, scale)) as u32,
                t: (i / width(face, scale)) as u32,
            },
    )
}

/// The luxels of the first `n` faces, face by face.
pub open spec fn luxels_of(faces: Seq<Face>, scale: u32, n: nat) -> Seq<Luxel>
    decreases n,
{
    if n == 0 {
        Seq::empty()
    } else {
        luxels_of(faces, scale, (n - 1) as nat) + face_luxels(faces[n - 1], scale, n - 1)
    }
}

/// The luxel that each texel lights, face by face and row by row.
pub fn generate_texels(faces: &[Face], lightmap_scale: u32) -> (r: Vec<Luxel>)
    requires
        forall|i: int| 0 <= i < faces@.len() ==> face_fits(#[trigger] faces@[i], lightmap_scale),
    ensures
        r@ == luxels_of(faces@, lightmap_scale, faces@.len()),
{
    let mut texels: Vec<Luxel> = Vec::new();
    let n: usize = faces.len();
    let mut f: usize = 0;
    while f < n
        invariant
            f <= n == faces@.len(),
            forall|i: int|
                0 <= i < faces@.len() ==> face_fits(#[trigger] faces@[i], lightmap_scale),
            texels@ == luxels_of(faces@, lightmap_scale, f as nat),
        decreases n - f,
    {
        assert(face_fits(faces@[f as int], lightmap_scale));
        push_face(&mut texels, &faces[f], f, lightmap_scale);
        f = f + 1;
    }
    texels
}

/// Appends the luxels of a face, row by row.
fn push_face(texels: &mut Vec<Luxel>, face: &Face, at: usize, scale: u32)
    requires
        face_fits(*face, scale),
    ensures
        final(texels)@ == old(texels)@ + face_luxels(*face, scale, at as int),
{
    let w: u32 = side_length(face.lightmap.maxs[0], scale);
    let h: u32 = side_length(face.lightmap.maxs[1], scale);
    let ghost before = texels@;
    let ghost all = face_luxels(*face, scale, at as int);
    let mut t: u32 = 0;
    assert(before + all.take(0) =~= before);
    while t < h
        invariant
            t <= h,
            w == width(*face, scale),
            h == height(*face, scale),
            all == face_luxels(*face, scale, at as int),
            texels@ == before + all.take(t * w),
        decreases h - t,
    {
        let mut s: u32 = 0;
        proof {
            lemma_mul_nonnegative(t as int, w as int);
            lemma_mul_inequality(t + 1, h as int, w as int);
            lemma_mul_is_distributive_add_other_way(w as int, t as int, 1);
            lemma_mul_is_commutative(w as int, h as int);
        }
        while s < w
            invariant
                s <= w,
                w == width(*face, scale),
                h == height(*face, scale),
                t < h,
                0 <= t * w,
                t * w + w <= w * h,
                all == face_luxels(*face, scale, at as int),
                texels@ == before + all.take(t * w + s),
            decreases w - s,
        {
            texels.push(Luxel { face: at, s, t });
            proof {
                let i = t * w + s;
                lemma_mul_is_commutative(t as int, w as int);
                lemma_fundamental_div_mod_converse(i, w as int, t as int, s as int);
                assert(all[i] == (Luxel { face: at, s, t }));
                assert(all.take(i + 1) =~= all.take(i).push(all[i]));
                assert(texels@ =~= before + all.take(i + 1));
            }
            s = s + 1;
        }
        t = t + 1;
    }
    proof {
        lemma_mul_is_commutative(w as int, h as int);
        lemma_side(face.lightmap.maxs@[0], scale);
        lemma_side(face.lightmap.maxs@[1], scale);
        lemma_mul_nonnegative(w as int, h as int);
        assert(all.take(t * w) =~= all);
    }
}

proof fn lemma_side(max: i32, scale: u32)
    ensures
        side(max, scale) >= 0,
{
    let n = max + 1;
    lemma_mul_nonnegative(
        if n < 0 {
            n + 0x1_0000_0000
        } else {
            n
        },
        scale as int,
    );
}

/// A face has no negative number of luxels.
pub proof fn lemma_luxels(face: Face, scale: u32)
    ensures
        width(face, scale) >= 0,
        height(face, scale) >= 0,
        luxels(face, scale) >= 0,
{
    lemma_side(face.lightmap.maxs@[0], scale);
    lemma_side(face.lightmap.maxs@[1], scale);
    lemma_mul_nonnegative(width(face, scale), height(face, scale));
}

/// There are as many luxels as the faces have.
pub proof fn lemma_texel_count(faces: Seq<Face>, scale: u32, n: nat)
    ensures
        luxels_of(faces, scale, n).len() == texel_offset(faces, scale, n),
    decreases n,
{
    if n > 0 {
        lemma_texel_count(faces, scale, (n - 1) as nat);
        lemma_luxels(faces[n - 1], scale);
    }
}

/// More faces have at least as many luxels.
pub proof fn lemma_offsets_rise(faces: Seq<Face>, scale: u32, m: nat, n: nat)
    requires
        m <= n,
    ensures
        0 <= texel_offset(faces, scale, m) <= texel_offset(faces, scale, n),
    decreases n,
{
    if m < n {
        lemma_offsets_rise(faces, scale, m, (n - 1) as nat);
        lemma_luxels(faces[n - 1], scale);
    } else if m > 0 {
        lemma_offsets_rise(faces, scale, (m - 1) as nat, (m - 1) as nat);
        lemma_luxels(faces[m - 1], scale);
    }
}

/// A texel lights a luxel of one of the faces.
pub proof fn lemma_luxel_in_face(faces: Seq<Face>, scale: u32, n: nat, i: int)
    requires
        n <= faces.len() <= usize::MAX,
        forall|f: int| 0 <= f < faces.len() ==> face_fits(#[trigger] faces[f], scale),
        0 <= i < luxels_of(faces, scale, n).len(),
    ensures
        ({
            let l = luxels_of(faces, scale, n)[i];
            &&& l.face < n
            &&& l.s < width(faces[l.face as int], scale)
            &&& l.t < height(faces[l.face as int], scale)
        }),
    decreases n,
{
    if n > 0 {
        let before = luxels_of(faces, scale, (n - 1) as nat);
        if i < before.len() {
            lemma_luxel_in_face(faces, scale, (n - 1) as nat, i);
            assert(luxels_of(faces, scale, n)[i] == before[i]);
        } else {
            let face = faces[n - 1];
            let j = i - before.len();
            assert(face_fits(face, scale));
            assert(luxels_of(faces, scale, n)[i] == face_luxels(face, scale, n - 1)[j]);
            lemma_luxels(face, scale);
            let w = width(face, scale);
            let h = height(face, scale);
            assert(w > 0) by (nonlinear_arith)
                requires
                    0 <= j < w * h,
                    0 <= w,
            ;
            lemma_mod_bound(j, w);
            lemma_div_pos_is_pos(j, w);
            lemma_multiply_divide_lt(j, w, h);
        }
    }
}

/// Every luxel of every face has exactly one texel: the one in column `s` and row
/// `t` has that many texels before it in its face, and the face starts behind the
/// luxels of those before it.
pub proof fn each_luxel_has_one_texel(faces: Seq<Face>, scale: u32, f: int, s: int, t: int)
    requires
        faces.len() <= usize::MAX,
        forall|i: int| 0 <= i < faces.len() ==> face_fits(#[trigger] faces[i], scale),
        0 <= f < faces.len(),
        0 <= s < width(faces[f], scale),
        0 <= t < height(faces[f], scale),
    ensures
        ({
            let l = Luxel { face: f as usize, s: s as u32, t: t as u32 };
            let at = texel_offset(faces, scale, f as nat) + t * width(faces[f], scale) + s;
            let all = luxels_of(faces, scale, faces.len());
            &&& 0 <= at < all.len()
            &&& forall|i: int| 0 <= i < all.len() ==> ((#[trigger] all[i]) == l <==> i == at)
        }),
{
    lemma_one_texel(faces, scale, faces.len(), f, s, t);
}

proof fn lemma_one_texel(faces: Seq<Face>, scale: u32, n: nat, f: int, s: int, t: int)
    requires
        n <= faces.len() <= usize::MAX,
        forall|i: int| 0 <= i < faces.len() ==> face_fits(#[trigger] faces[i], scale),
        0 <= f < faces.len(),
        0 <= s < width(faces[f], scale),
        0 <= t < height(faces[f], scale),
    ensures
        ({
            let l = Luxel { face: f as usize, s: s as u32, t: t as u32 };
            let at = texel_offset(faces, scale, f as nat) + t * width(faces[f], scale) + s;
            let all = luxels_of(faces, scale, n);
            if f < n {
                &&& 0 <= at < all.len()
                &&& forall|i: int| 0 <= i < all.len() ==> ((#[trigger] all[i]) == l <==> i == at)
            } else {
                forall|i: int| 0 <= i < all.len() ==> (#[trigger] all[i]) != l
            }
        }),
    decreases n,
{
    if n > 0 {
        let m = (n - 1) as nat;
        let face = faces[n - 1];
        lemma_one_texel(faces, scale, m, f, s, t);
        lemma_texel_count(faces, scale, m);
        lemma_offsets_rise(faces, scale, m, m);
        lemma_luxels(face, scale);
        let l = Luxel { face: f as usize, s: s as u32, t: t as u32 };
        let before = luxels_of(faces, scale, m);
        let mine = face_luxels(face, scale, n - 1);
        let all = luxels_of(faces, scale, n);
        assert(all == before + mine);
        assert(face_fits(faces[f], scale));
        let w = width(face, scale);
        let h = height(face, scale);
        if f == n - 1 {
            let k = t * w + s;
            assert(0 <= k < w * h) by {
                lemma_mul_nonnegative(t, w);
                lemma_mul_inequality(t + 1, h, w);
                lemma_mul_is_distributive_add_other_way(w, t, 1);
                lemma_mul_is_commutative(w, h);
            }
            lemma_mul_is_commutative(t, w);
            lemma_fundamental_div_mod_converse(k, w, t, s);
            assert(mine[k] == l);
            assert forall|i: int| 0 <= i < all.len() implies ((#[trigger] all[i]) == l <==> i
                == before.len() + k) by {
                if i >= before.len() {
                    let j = i - before.len();
                    assert(all[i] == mine[j]);
                    lemma_fundamental_div_mod(j, w);
                    lemma_mod_bound(j, w);
                    lemma_div_pos_is_pos(j, w);
                    lemma_mul_is_commutative(w, h);
                    lemma_multiply_divide_lt(j, w, h);
                } else {
                    assert(all[i] == before[i]);
                }
            }
        } else {
            assert forall|i: int| before.len() <= i < all.len() implies (#[trigger] all[i])
                != l by {
                assert(all[i] == mine[i - before.len()]);
            }
            assert forall|i: int| 0 <= i < before.len() implies #[trigger] all[i] == before[i] by {}
        }
    }
}

/// A side has one luxel more than the number of its last one, times the scale. A number
/// below minus one counts down from the end of 32 bits.
pub proof fn sides_are_scaled(max: i32, scale: u32)
    ensures
        max >= -1 ==> side(max, scale) == (max + 1) * scale,
        max < -1 ==> side(max, scale) == (max + 1 + 0x1_0000_0000) * scale,
        side_fits(max, scale) <==> max != 0x7fff_ffff && side(max, scale) < 0x1_0000_0000,
{
}

/// A face has as many luxels as its sides make, and lists of faces one behind the other
/// have the luxels of both.
pub proof fn luxels_add_up(faces: Seq<Face>, face: Face, scale: u32)
    ensures
        luxels(face, scale) == side(face.lightmap.maxs@[0], scale) * side(
            face.lightmap.maxs@[1],
            scale,
        ),
        texel_offset(faces, scale, 0) == 0,
        texel_offset(faces.push(face), scale, faces.len() + 1) == texel_offset(
            faces,
            scale,
            faces.len(),
        ) + luxels(face, scale),
{
    lemma_offset_before(faces, face, scale, faces.len());
}

proof fn lemma_offset_before(faces: Seq<Face>, face: Face, scale: u32, n: nat)
    requires
        n <= faces.len(),
    ensures
        texel_offset(faces.push(face), scale, n) == texel_offset(faces, scale, n),
    decreases n,
{
    if n > 0 {
        lemma_offset_before(faces, face, scale, (n - 1) as nat);
        assert(faces.push(face)[n - 1] == faces[n - 1]);
    }
}

} // verus!
