//! Which light reaches a texel. The products and sums of it are left to the
//! program, which has the numbers; they come here as bit patterns.

use vstd::arithmetic::power2::*;
use vstd::prelude::*;

use crate::sampling::{ambient_direction, AMBIENT_SAMPLES};
use crate::shared::{EmitType, Light};
use crate::single;

verus! {

/// The bit pattern of one millionth.
pub const TINY: u32 = 0x3586_37bd;

/// What a ray met.
#[derive(Debug, Clone, Copy, PartialEq, Eq, Structural)]
pub enum HitKind {
    Miss,
    Hit,
}

/// Where a point lies in the cone of a spotlight.
#[derive(Debug, Clone, Copy, PartialEq, Eq, Structural)]
pub enum Cone {
    /// Outside of it.
    Dark,
    /// Between its edge and where it is fully lit.
    Fringe,
    Full,
}

/// Where a point lies in the cone of a spotlight, by the cosine of its angle to
/// the axis.
pub open spec fn cone(light: Light, light_dot: u32) -> Cone {
    if single::less(light_dot, light.penumbra_end) {
        Cone::Dark
    } else if single::less(light_dot, light.penumbra_start) {
        Cone::Fringe
    } else {
        Cone::Full
    }
}

/// Where a point lies in the cone of a spotlight.
pub fn spotlight_penumbra(light: &Light, light_dot: u32) -> (r: Cone)
    ensures
        r == cone(*light, light_dot),
{
    if single::lt(light_dot, light.penumbra_end) {
        Cone::Dark
    } else if single::lt(light_dot, light.penumbra_start) {
        Cone::Fringe
    } else {
        Cone::Full
    }
}

/// The light falls off no further than its radius.
pub open spec fn has_radius(light: Light) -> bool {
    single::less(single::ZERO, light.radius)
}

/// Whether the distance for the attenuation ends at the radius of the light.
pub fn distance_attenuation(light: &Light) -> (r: bool)
    ensures
        r == has_radius(*light),
{
    single::lt(single::ZERO, light.radius)
}

/// How the angle at the light weighs.
#[derive(Debug, Clone, Copy, PartialEq, Eq, Structural)]
pub enum Angular {
    /// Not at all.
    One,
    /// By the cosine of the angle to the axis.
    Axis,
    /// By that and by how far the point is in the fringe of the cone.
    Fringe,
}

/// How light falls off with the distance.
#[derive(Debug, Clone, Copy, PartialEq, Eq, Structural)]
pub enum Falloff {
    /// With its square.
    InverseSquare,
    /// As the light lists.
    Attenuation,
}

/// How a light weighs at a point, if nothing is in between.
#[derive(Debug, Clone, Copy, PartialEq, Eq, Structural)]
pub struct Weight {
    /// The cosine at the point counts.
    pub cosine: bool,
    pub angular: Angular,
    pub falloff: Falloff,
}

/// The light cannot reach the point: it is at the point, or below its horizon, or
/// the point is outside of what the light shines at.
pub open spec fn out_of_reach(light: Light, dist: u32, cos_angle: u32, axis_dot: u32) -> bool {
    ||| single::at_most(dist, TINY)
    ||| single::at_most(cos_angle, single::ZERO)
    ||| light.ty == EmitType::Spotlight && cone(light, axis_dot) == Cone::Dark
    ||| light.ty == EmitType::Surface && single::at_most(axis_dot, single::ZERO)
    ||| light.ty == EmitType::Surface && has_radius(light) && single::less(light.radius, dist)
}

/// How a light weighs at a point that it can reach.
pub open spec fn weight(light: Light, axis_dot: u32) -> Weight {
    Weight {
        cosine: light.ty != EmitType::QuakeLight,
        angular: match light.ty {
            EmitType::Spotlight => if cone(light, axis_dot) == Cone::Fringe {
                Angular::Fringe
            } else {
                Angular::Axis
            },
            EmitType::Surface => Angular::Axis,
            _ => Angular::One,
        },
        falloff: if light.ty == EmitType::Surface {
            Falloff::InverseSquare
        } else {
            Falloff::Attenuation
        },
    }
}

/// How a light weighs at a point: by the distance, the cosine at the point and the
/// cosine to the axis of the light. Without a weight, the light cannot reach the
/// point, and no ray is needed.
pub fn contribute_positional(light: &Light, dist: u32, cos_angle: u32, axis_dot: u32) -> (r: Option<
    Weight,
>)
    ensures
        r == if out_of_reach(*light, dist, cos_angle, axis_dot) {
            None
        } else {
            Some(weight(*light, axis_dot))
        },
{
    if single::le(dist, TINY) {
        return None;
    }
    if single::le(cos_angle, single::ZERO) {
        return None;
    }
    let mut angular: Angular = Angular::One;
    match light.ty {
        EmitType::Spotlight => {
            match spotlight_penumbra(light, axis_dot) {
                Cone::Dark => {
                    return None;
                },
                Cone::Fringe => {
                    angular = Angular::Fringe;
                },
                Cone::Full => {
                    angular = Angular::Axis;
                },
            }
        },
        EmitType::Surface => {
            if single::le(axis_dot, single::ZERO) {
                return None;
            }
            angular = Angular::Axis;
        },
        _ => {},
    }
    let falloff: Falloff = if light.ty == EmitType::Surface {
        if single::lt(single::ZERO, light.radius) && single::lt(light.radius, dist) {
            return None;
        }
        Falloff::InverseSquare
    } else {
        Falloff::Attenuation
    };
    Some(Weight { cosine: light.ty != EmitType::QuakeLight, angular, falloff })
}

/// The samples of a hemisphere that count: all those above the horizon of the
/// point for the whole, and of these the ones whose ray hit nothing for what is
/// visible.
pub open spec fn above_horizon(cosines: Seq<u32>, n: nat) -> Seq<int>
    decreases n,
{
    if n == 0 {
        Seq::empty()
    } else {
        let before = above_horizon(cosines, (n - 1) as nat);
        if single::at_most(cosines[n - 1], single::ZERO) {
            before
        } else {
            before.push(n - 1)
        }
    }
}

/// The light of the whole sky at a point, as the samples gather it.
#[derive(Debug)]
pub struct Ambient {
    /// The samples that count for the whole.
    pub counted: Vec<usize>,
    /// Those of them from which the sky is visible.
    pub visible: Vec<usize>,
}

impl Ambient {
    /// It is gathered from the first `n` samples.
    pub open spec fn is_of(self, cosines: Seq<u32>, hits: Seq<HitKind>, n: nat) -> bool {
        let counted = above_horizon(cosines, n);
        &&& self.counted@.map_values(|i: usize| i as int) == counted
        &&& self.visible@.map_values(|i: usize| i as int) == counted.filter(
            |i: int| hits[i] != HitKind::Hit,
        )
    }
}

/// Whether a sample of the hemisphere counts, and so needs a ray.
pub fn sample_counts(cos_w: u32) -> (r: bool)
    ensures
        r == !single::at_most(cos_w, single::ZERO),
{
    !single::le(cos_w, single::ZERO)
}

/// The samples that count, by their cosines at the point, and those from which the
/// sky is visible, by what their rays met.
pub fn gather_ambient(cosines: &[u32], hits: &[HitKind]) -> (r: Ambient)
    requires
        hits@.len() == cosines@.len(),
    ensures
        r.is_of(cosines@, hits@, cosines@.len()),
{
    let n: usize = cosines.len();
    let mut r = Ambient { counted: Vec::new(), visible: Vec::new() };
    let mut i: usize = 0;
    proof {
        reveal(Seq::filter);
        assert(r.counted@.map_values(|i: usize| i as int) =~= Seq::<int>::empty());
        assert(r.visible@.map_values(|i: usize| i as int) =~= Seq::<int>::empty());
    }
    while i < n
        invariant
            i <= n == cosines@.len() == hits@.len(),
            r.is_of(cosines@, hits@, i as nat),
        decreases n - i,
    {
        let ghost before = r;
        if sample_counts(cosines[i]) {
            r.counted.push(i);
            if sees_sky(hits[i]) {
                r.visible.push(i);
            }
            proof {
                let p = |i: int| hits@[i] != HitKind::Hit;
                let counted = above_horizon(cosines@, i as nat);
                reveal(Seq::filter);
                assert(counted.push(i as int).drop_last() =~= counted);
                assert(r.counted@.map_values(|i: usize| i as int)
                    =~= before.counted@.map_values(|i: usize| i as int).push(i as int));
                if p(i as int) {
                    assert(r.visible@.map_values(|i: usize| i as int)
                        =~= before.visible@.map_values(|i: usize| i as int).push(i as int));
                }
            }
        }
        i = i + 1;
    }
    r
}

/// The rays of a sample towards the sky, each as its number among those that the
/// samples of a texel share, and their count.
#[derive(Debug)]
pub struct SkyRays {
    /// The directions that are tried for the light of the whole sky.
    pub ambient: Vec<(u32, u32)>,
    /// The direction that is tried for the sun.
    pub sun: Option<(u32, u32)>,
}

/// The directions that a sample tries for the light of the whole sky.
pub open spec fn ambient_rays(sample_index: u32, samples_per_luxel: u32) -> Seq<(u32, u32)> {
    Seq::new(
        AMBIENT_SAMPLES as nat,
        |a: int|
            (
                (a * samples_per_luxel + sample_index) as u32,
                (samples_per_luxel * AMBIENT_SAMPLES) as u32,
            ),
    )
}

/// The rays of a sample towards the sky. The whole sky is tried where it gives
/// light, the sun where it gives light and is above the horizon of the point.
pub fn contribute_sky(
    ambient_length_squared: u32,
    sun_length_squared: u32,
    n_dot_l: u32,
    sample_index: u32,
    samples_per_luxel: u32,
) -> (r: SkyRays)
    requires
        single::less(single::ZERO, ambient_length_squared) ==> {
            &&& samples_per_luxel * AMBIENT_SAMPLES <= u32::MAX
            &&& samples_per_luxel * (AMBIENT_SAMPLES - 1) + sample_index <= u32::MAX
        },
    ensures
        r.ambient@ == if single::less(single::ZERO, ambient_length_squared) {
            ambient_rays(sample_index, samples_per_luxel)
        } else {
            Seq::empty()
        },
        r.sun == if single::less(single::ZERO, sun_length_squared) && single::less(
            single::ZERO,
            n_dot_l,
        ) {
            Some((sample_index, samples_per_luxel))
        } else {
            None
        },
{
    let mut ambient: Vec<(u32, u32)> = Vec::new();
    if single::lt(single::ZERO, ambient_length_squared) {
        let mut a: u32 = 0;
        while a < AMBIENT_SAMPLES
            invariant
                a <= AMBIENT_SAMPLES,
                samples_per_luxel * AMBIENT_SAMPLES <= u32::MAX,
                samples_per_luxel * (AMBIENT_SAMPLES - 1) + sample_index <= u32::MAX,
                ambient@ == ambient_rays(sample_index, samples_per_luxel).take(a as int),
            decreases AMBIENT_SAMPLES - a,
        {
            proof {
                let n = samples_per_luxel as int;
                assert(a * n <= n * 15) by (nonlinear_arith)
                    requires
                        0 <= a < 16,
                        0 <= n,
                ;
            }
            ambient.push(ambient_direction(a, sample_index, samples_per_luxel));
            a = a + 1;
            assert(ambient@ =~= ambient_rays(sample_index, samples_per_luxel).take(a as int));
        }
        assert(ambient@ =~= ambient_rays(sample_index, samples_per_luxel));
    }
    let sun: Option<(u32, u32)> = if single::lt(single::ZERO, sun_length_squared) && single::lt(
        single::ZERO,
        n_dot_l,
    ) {
        Some((sample_index, samples_per_luxel))
    } else {
        None
    };
    SkyRays { ambient, sun }
}

/// Whether a ray towards the sun reaches it.
pub fn sees_sky(hit: HitKind) -> (r: bool)
    ensures
        r == (hit != HitKind::Hit),
{
    hit != HitKind::Hit
}

/// Towards its axis, a spotlight does not get darker.
pub proof fn cone_brightens_towards_axis(light: Light, a: u32, b: u32)
    requires
        single::at_most(a, b),
        !single::is_nan(light.penumbra_start),
        !single::is_nan(light.penumbra_end),
    ensures
        cone(light, b) == Cone::Dark ==> cone(light, a) == Cone::Dark,
        cone(light, a) == Cone::Full ==> cone(light, b) == Cone::Full,
{
}

/// Points this near to a light get nothing of it: within the number that is nearest to
/// one millionth.
pub proof fn tiny_is_one_millionth()
    ensures
        -(1_000_000 * pow2(106)) <= 2 * (1_000_000 * single::magnitude(TINY) - pow2(149)) <= 1_000_000
            * pow2(106),
{
    let p = pow2(106) as int;
    lemma_pow2_adds(106, 43);
    lemma2_to64_rest();
    lemma_pow2_pos(106);
    assert(single::significand(TINY) == 0x86_37bd);
    assert(single::exponent(TINY) + 149 == 106);
    assert(pow2(149) == p * 0x800_0000_0000);
    let m = single::magnitude(TINY) as int;
    assert(m == 0x86_37bd * p);
}

/// The cone of a spotlight ends where the light says: it is dark below the end of the
/// penumbra, and no longer at it; it is full from the start of the penumbra on, and not
/// below it.
pub proof fn cone_ends_where_listed(light: Light, light_dot: u32)
    ensures
        cone(light, light_dot) == Cone::Dark <==> single::less(light_dot, light.penumbra_end),
        cone(light, light_dot) == Cone::Full <==> !single::less(light_dot, light.penumbra_end)
            && !single::less(light_dot, light.penumbra_start),
        !single::is_nan(light.penumbra_end) ==> cone(light, light.penumbra_end) != Cone::Dark,
        !single::less(light.penumbra_start, light.penumbra_end) ==> cone(
            light,
            light.penumbra_start,
        ) == Cone::Full,
        single::is_nan(light_dot) ==> cone(light, light_dot) == Cone::Full,
{
}

/// A light falls off with the inverse square if and only if it is a surface light. Where
/// the light stands, how far it reaches and what its attenuation is changes nothing of
/// that, nor does it matter how far and at which angles the point is: all lights of a
/// kind fall off alike.
pub proof fn falloff_goes_by_the_kind(a: Light, b: Light, axis_a: u32, axis_b: u32)
    ensures
        weight(a, axis_a).falloff == Falloff::InverseSquare <==> a.ty == EmitType::Surface,
        weight(a, axis_a).falloff == Falloff::Attenuation <==> a.ty != EmitType::Surface,
        a.ty == b.ty ==> weight(a, axis_a).falloff == weight(b, axis_b).falloff,
{
}

/// The cosine at the point counts for all lights but quake lights. Of the angle at the
/// light only surface lights and spotlights know: surface lights weigh by the cosine to
/// their axis, and so do spotlights, which weigh by more than that where the point is in
/// the fringe of their cone, and there alone.
pub proof fn angles_weigh_by_the_kind(light: Light, axis_dot: u32)
    ensures
        !weight(light, axis_dot).cosine <==> light.ty == EmitType::QuakeLight,
        weight(light, axis_dot).angular == Angular::One <==> light.ty != EmitType::Surface
            && light.ty != EmitType::Spotlight,
        light.ty == EmitType::Surface ==> weight(light, axis_dot).angular == Angular::Axis,
        weight(light, axis_dot).angular == Angular::Fringe <==> light.ty == EmitType::Spotlight
            && !single::less(axis_dot, light.penumbra_end) && single::less(
            axis_dot,
            light.penumbra_start,
        ),
{
}

/// What keeps a light from a point: to be at it, or below its horizon, for every kind of
/// light; to be outside of its cone, for a spotlight; to be behind it or beyond its
/// radius, for a surface light that has one. Nothing else does.
pub proof fn lights_reach_what_they_shine_at(
    light: Light,
    dist: u32,
    cos_angle: u32,
    axis_dot: u32,
)
    ensures
        single::at_most(dist, TINY) ==> out_of_reach(light, dist, cos_angle, axis_dot),
        single::at_most(cos_angle, 0) ==> out_of_reach(light, dist, cos_angle, axis_dot),
        !single::at_most(dist, TINY) && !single::at_most(cos_angle, 0) ==> {
            &&& light.ty == EmitType::Spotlight ==> (out_of_reach(light, dist, cos_angle, axis_dot)
                <==> single::less(axis_dot, light.penumbra_end))
            &&& light.ty == EmitType::Surface ==> (out_of_reach(light, dist, cos_angle, axis_dot)
                <==> single::at_most(axis_dot, 0) || (single::less(0, light.radius)
                && single::less(light.radius, dist)))
            &&& light.ty != EmitType::Spotlight && light.ty != EmitType::Surface
                ==> !out_of_reach(light, dist, cos_angle, axis_dot)
        },
{
}

/// What a light reaches it reaches from nearer as well, as long as the point is not at
/// the light; and a light that is no surface light reaches as far as one likes, whatever
/// its radius is.
pub proof fn nearer_points_are_reached(
    light: Light,
    near: u32,
    far: u32,
    cos_angle: u32,
    axis_dot: u32,
)
    requires
        !single::at_most(near, TINY),
        single::at_most(near, far),
    ensures
        !out_of_reach(light, far, cos_angle, axis_dot) ==> !out_of_reach(
            light,
            near,
            cos_angle,
            axis_dot,
        ),
        light.ty != EmitType::Surface && !out_of_reach(light, near, cos_angle, axis_dot)
            ==> !out_of_reach(light, far, cos_angle, axis_dot),
        light.ty == EmitType::Surface && single::less(0, light.radius) && single::less(
            light.radius,
            far,
        ) ==> out_of_reach(light, far, cos_angle, axis_dot),
{
}

/// The places in a list of those above the horizon: each once, in rising order.
proof fn lemma_above_horizon(cosines: Seq<u32>, n: nat)
    ensures
        forall|i: int|
            above_horizon(cosines, n).contains(i) <==> 0 <= i < n && !single::at_most(
                #[trigger] cosines[i],
                0,
            ),
        forall|k: int|
            0 <= k < above_horizon(cosines, n).len() ==> 0 <= #[trigger] above_horizon(
                cosines,
                n,
            )[k] < n,
        forall|k: int, l: int|
            0 <= k < l < above_horizon(cosines, n).len() ==> #[trigger] above_horizon(
                cosines,
                n,
            )[k] < #[trigger] above_horizon(cosines, n)[l],
    decreases n,
{
    if n > 0 {
        let m = (n - 1) as nat;
        lemma_above_horizon(cosines, m);
        let before = above_horizon(cosines, m);
        let after = above_horizon(cosines, n);
        assert forall|i: int|
            after.contains(i) <==> 0 <= i < n && !single::at_most(#[trigger] cosines[i], 0) by {
            if before.contains(i) {
                let k = choose|k: int| 0 <= k < before.len() && before[k] == i;
                assert(after[k] == i);
            }
            if i == m && !single::at_most(cosines[i], 0) {
                assert(after[after.len() - 1] == i);
            }
            if after.contains(i) {
                let k = choose|k: int| 0 <= k < after.len() && after[k] == i;
                if k < before.len() {
                    assert(before[k] == i);
                }
            }
        }
    }
}

/// A sample of the hemisphere counts if and only if it is above the horizon of the
/// point, and it is visible if and only if it counts and its ray hit nothing. Each
/// counts once, in the order of the samples.
pub proof fn samples_count_above_the_horizon(
    r: Ambient,
    cosines: Seq<u32>,
    hits: Seq<HitKind>,
    i: usize,
)
    requires
        cosines.len() == hits.len() <= usize::MAX,
        r.is_of(cosines, hits, cosines.len()),
    ensures
        r.counted@.contains(i) <==> i < cosines.len() && !single::at_most(cosines[i as int], 0),
        r.visible@.contains(i) <==> r.counted@.contains(i) && hits[i as int] == HitKind::Miss,
        forall|k: int, l: int|
            0 <= k < l < r.counted@.len() ==> #[trigger] r.counted@[k] < #[trigger] r.counted@[l],
        r.visible@.no_duplicates(),
{
    let counted = above_horizon(cosines, cosines.len());
    let p = |i: int| hits[i] != HitKind::Hit;
    let f = |i: usize| i as int;
    lemma_above_horizon(cosines, cosines.len());
    let c = r.counted@.map_values(f);
    let v = r.visible@.map_values(f);
    assert(cosines[i as int] == cosines[i as int]);
    assert(r.counted@.contains(i) <==> c.contains(i as int)) by {
        if r.counted@.contains(i) {
            let k = choose|k: int| 0 <= k < r.counted@.len() && r.counted@[k] == i;
            assert(c[k] == i as int);
        }
        if c.contains(i as int) {
            let k = choose|k: int| 0 <= k < c.len() && c[k] == i as int;
            assert(r.counted@[k] == i);
        }
    }
    assert(r.visible@.contains(i) <==> v.contains(i as int)) by {
        if r.visible@.contains(i) {
            let k = choose|k: int| 0 <= k < r.visible@.len() && r.visible@[k] == i;
            assert(v[k] == i as int);
        }
        if v.contains(i as int) {
            let k = choose|k: int| 0 <= k < v.len() && v[k] == i as int;
            assert(r.visible@[k] == i);
        }
    }
    lemma_filtered(counted, p);
    assert(p(i as int) == (hits[i as int] != HitKind::Hit));
    assert forall|k: int, l: int| 0 <= k < l < r.counted@.len() implies #[trigger] r.counted@[k]
        < #[trigger] r.counted@[l] by {
        assert(c[k] == counted[k] && c[l] == counted[l]);
    }
    assert(r.visible@.no_duplicates()) by {
        assert forall|k: int, l: int|
            0 <= k < r.visible@.len() && 0 <= l < r.visible@.len() && k != l implies r.visible@[k]
            != r.visible@[l] by {
            assert(v[k] != v[l]);
        }
    }
}

/// What passes a test is in the list and passes it, and nothing comes to appear twice.
proof fn lemma_filtered(s: Seq<int>, p: spec_fn(int) -> bool)
    requires
        forall|k: int, l: int| 0 <= k < l < s.len() ==> #[trigger] s[k] < #[trigger] s[l],
    ensures
        forall|x: int| s.filter(p).contains(x) <==> s.contains(x) && #[trigger] p(x),
        s.filter(p).no_duplicates(),
    decreases s.len(),
{
    reveal(Seq::filter);
    if s.len() > 0 {
        let t = s.drop_last();
        lemma_filtered(t, p);
        let a = t.filter(p);
        let b = s.filter(p);
        assert forall|x: int| b.contains(x) <==> s.contains(x) && #[trigger] p(x) by {
            if t.contains(x) {
                let k = choose|k: int| 0 <= k < t.len() && t[k] == x;
                assert(s[k] == x);
            }
            if s.contains(x) && x != s.last() {
                let k = choose|k: int| 0 <= k < s.len() && s[k] == x;
                assert(t[k] == x);
            }
            assert(s[s.len() - 1] == s.last());
            if p(s.last()) {
                assert(b[b.len() - 1] == s.last());
                if a.contains(x) {
                    let k = choose|k: int| 0 <= k < a.len() && a[k] == x;
                    assert(b[k] == x);
                }
                if b.contains(x) && x != s.last() {
                    let k = choose|k: int| 0 <= k < b.len() && b[k] == x;
                    assert(a[k] == x);
                }
            }
        }
        assert(!t.contains(s.last())) by {
            if t.contains(s.last()) {
                let k = choose|k: int| 0 <= k < t.len() && t[k] == s.last();
                assert(s[k] < s[s.len() - 1]);
            }
        }
        if p(s.last()) {
            assert(!a.contains(s.last()));
            assert forall|k: int, l: int| 0 <= k < b.len() && 0 <= l < b.len() && k != l implies b[k]
                != b[l] by {
                if k < a.len() {
                    assert(a.contains(b[k]));
                }
                if l < a.len() {
                    assert(a.contains(b[l]));
                }
            }
        }
    }
}

/// The samples of a texel together try every direction of the sky, each for one sample
/// and once: with `samples` samples there are sixteen times as many directions, and the
/// direction `d` is a ray of the sample `s` if and only if `s` is what `d` leaves when it
/// is divided by `samples`.
pub proof fn rays_share_out_the_sky(samples: u32, s: u32, d: u32)
    requires
        0 < samples,
        16 * samples <= u32::MAX,
        s < samples,
        d < 16 * samples,
    ensures
        ambient_rays(s, samples).len() == 16,
        ambient_rays(s, samples).contains((d, (16 * samples) as u32)) <==> d % samples == s,
        forall|k: int|
            0 <= k < 16 ==> (#[trigger] ambient_rays(s, samples)[k]).0 < 16 * samples
                && ambient_rays(s, samples)[k].1 == 16 * samples,
        ambient_rays(s, samples).no_duplicates(),
{
    let rays = ambient_rays(s, samples);
    let n = samples as int;
    assert forall|k: int| 0 <= k < 16 implies (#[trigger] rays[k]).0 == k * n + s && rays[k].0 < 16
        * n && rays[k].1 == 16 * n by {
        assert(0 <= k * n && k * n + n <= 16 * n) by (nonlinear_arith)
            requires
                0 <= k < 16,
                n > 0,
        ;
    }
    let q = d as int / n;
    vstd::arithmetic::div_mod::lemma_fundamental_div_mod(d as int, n);
    vstd::arithmetic::div_mod::lemma_mod_bound(d as int, n);
    vstd::arithmetic::div_mod::lemma_div_pos_is_pos(d as int, n);
    vstd::arithmetic::mul::lemma_mul_is_commutative(n, q);
    assert(q < 16) by (nonlinear_arith)
        requires
            d == q * n + d as int % n,
            0 <= d as int % n,
            d < 16 * n,
            n > 0,
    ;
    if d % samples == s {
        assert(rays[q] == (d, (16 * samples) as u32));
    }
    if rays.contains((d, (16 * samples) as u32)) {
        let k = choose|k: int| 0 <= k < rays.len() && rays[k] == (d, (16 * samples) as u32);
        vstd::arithmetic::mul::lemma_mul_is_commutative(n, k);
        vstd::arithmetic::div_mod::lemma_fundamental_div_mod_converse(d as int, n, k, s as int);
    }
    assert forall|k: int, l: int| 0 <= k < 16 && 0 <= l < 16 && k != l implies rays[k] != rays[l] by {
        if k < l {
            assert(k * n < l * n) by (nonlinear_arith)
                requires
                    k < l,
                    n > 0,
            ;
        } else {
            assert(l * n < k * n) by (nonlinear_arith)
                requires
                    l < k,
                    n > 0,
            ;
        }
    }
}

/// The distance ends at a radius that is above zero, for every kind of light; one that is
/// zero, negative or no number is none.
pub proof fn only_a_radius_above_zero_counts(a: Light, b: Light)
    ensures
        has_radius(a) <==> 0 < a.radius <= 0x7f80_0000,
        a.radius == b.radius ==> (has_radius(a) <==> has_radius(b)),
{
}

} // verus!
