//! The lights of a map.

use vstd::arithmetic::power2::*;
use vstd::prelude::*;
use vstd::string::*;

use crate::shared::{AlignedVec3, EmitType, Light, Sky, Vec3};
use crate::single;
use crate::text;
use crate::valve_kv::block;
use crate::valve_kv::block::Block;
use crate::valve_kv::properties;

verus! {

broadcast use vstd::string::group_string_axioms;

/// The properties of a block.
pub type Entity = Seq<(Seq<char>, Seq<char>)>;

/// The entities of a text. A text that cannot be parsed has none.
pub open spec fn entities(bytes: Seq<u8>) -> Seq<Entity> {
    match block::meaning(bytes) {
        Ok(es) => es,
        Err(_) => Seq::empty(),
    }
}

/// The entity describes the light from outside.
pub open spec fn is_environment(e: Entity) -> bool {
    properties::lookup(e, "classname"@) == Some("light_environment"@)
}

/// The first entity that describes the light from outside, or their number.
pub open spec fn environment_index(es: Seq<Entity>) -> int
    decreases es.len(),
{
    if es.len() == 0 || is_environment(es[0]) {
        0
    } else {
        1 + environment_index(es.drop_first())
    }
}

/// What the first entity that describes the light from outside says of `key`.
pub open spec fn environment_property(es: Seq<Entity>, key: Seq<char>) -> Option<Seq<char>> {
    let i = environment_index(es);
    if i < es.len() {
        properties::lookup(es[i], key)
    } else {
        None
    }
}

/// What an index of the first such entity is.
proof fn lemma_environment_index(es: Seq<Entity>, i: int)
    requires
        0 <= i <= es.len(),
        i < es.len() ==> is_environment(es[i]),
        forall|j: int| 0 <= j < i ==> !is_environment(#[trigger] es[j]),
    ensures
        environment_index(es) == i,
    decreases es.len(),
{
    if i > 0 {
        let rest = es.drop_first();
        assert(es[0] == es[0]);
        assert forall|j: int| 0 <= j < i - 1 implies !is_environment(#[trigger] rest[j]) by {
            assert(rest[j] == es[j + 1]);
        }
        if i < es.len() {
            assert(rest[i - 1] == es[i]);
        }
        lemma_environment_index(rest, i - 1);
    }
}

/// What a map says of the light from outside, as text.
#[derive(Debug)]
pub struct Environment {
    pub ambient: Option<String>,
    pub sun_spread_angle: Option<String>,
}

/// `r` holds the text `t`, or both are absent.
pub open spec fn same_text(r: Option<String>, t: Option<Seq<char>>) -> bool {
    match t {
        Some(t) => r is Some && r->0@ == t,
        None => r is None,
    }
}

impl Environment {
    /// It is what the entities `es` say.
    pub open spec fn is_of(self, es: Seq<Entity>) -> bool {
        &&& same_text(self.ambient, environment_property(es, "_ambient"@))
        &&& same_text(self.sun_spread_angle, environment_property(es, "SunSpreadAngle"@))
    }
}

/// The value of a property, as text of its own.
fn owned_property(block: &Block, key: &str) -> (r: Option<String>)
    ensures
        same_text(r, properties::lookup(block@, key@)),
{
    match block.get(key) {
        Some(value) => Some(value.to_owned()),
        None => None,
    }
}

/// What the text of a map's entities says of the light from outside. The first
/// `light_environment` counts.
pub fn light_environment(entity_text: &str) -> (r: Environment)
    ensures
        r.is_of(entities(entity_text.spec_bytes())),
{
    let ghost es = entities(entity_text.spec_bytes());
    let blocks: Vec<Block> = match block::parse(entity_text) {
        Ok(blocks) => blocks,
        Err(_) => Vec::new(),
    };
    assert(blocks@.len() == es.len());
    let n: usize = blocks.len();
    let mut i: usize = 0;
    while i < n
        invariant
            i <= n == blocks@.len() == es.len(),
            forall|j: int| 0 <= j < n ==> (#[trigger] blocks@[j])@ == es[j],
            forall|j: int| 0 <= j < i ==> !is_environment(#[trigger] es[j]),
        ensures
            i <= n,
            i < n ==> is_environment(es[i as int]),
            forall|j: int| 0 <= j < i ==> !is_environment(#[trigger] es[j]),
        decreases n - i,
    {
        assert(blocks@[i as int]@ == es[i as int]);
        if let Some(class) = blocks[i].get("classname") {
            if text::same(class, "light_environment") {
                break;
            }
        }
        i = i + 1;
    }
    proof {
        lemma_environment_index(es, i as int);
    }
    if i < n {
        assert(blocks@[i as int]@ == es[i as int]);
        Environment {
            ambient: owned_property(&blocks[i], "_ambient"),
            sun_spread_angle: owned_property(&blocks[i], "SunSpreadAngle"),
        }
    } else {
        Environment { ambient: None, sun_spread_angle: None }
    }
}

/// A light as the map lists it.
#[derive(Debug, Clone, Copy, PartialEq, Eq, Structural)]
pub struct WorldLight {
    pub origin: Vec3,
    pub intensity: Vec3,
    pub normal: Vec3,
    pub ty: i32,
    pub radius: u32,
    pub constant_attn: u32,
    pub linear_attn: u32,
    pub quadratic_attn: u32,
    pub penumbra_start: u32,
    pub penumbra_end: u32,
    pub exponent: u32,
}

/// The bit pattern of one ten-thousandth. Attenuation below it counts as none.
pub const NO_ATTENUATION: u32 = 0x38d1_b717;

/// No term of the attenuation counts.
pub open spec fn unattenuated(w: WorldLight) -> bool {
    &&& single::less(w.constant_attn, NO_ATTENUATION)
    &&& single::less(w.linear_attn, NO_ATTENUATION)
    &&& single::less(w.quadratic_attn, NO_ATTENUATION)
}

/// The constant, linear and quadratic attenuation of a light. One that lists none
/// gets that of its kind.
pub open spec fn attenuation(ty: EmitType, w: WorldLight) -> (u32, u32, u32) {
    match ty {
        EmitType::QuakeLight => (single::ZERO, single::ONE, single::ZERO),
        EmitType::Surface => if unattenuated(w) {
            (w.constant_attn, w.linear_attn, single::ONE)
        } else {
            (w.constant_attn, w.linear_attn, w.quadratic_attn)
        },
        _ => if unattenuated(w) {
            (single::ONE, w.linear_attn, w.quadratic_attn)
        } else {
            (w.constant_attn, w.linear_attn, w.quadratic_attn)
        },
    }
}

/// The light of kind `ty` that the map lists as `w`.
pub open spec fn placed_light(ty: EmitType, w: WorldLight) -> Light {
    let (c, l, q) = attenuation(ty, w);
    Light {
        position: AlignedVec3(w.origin),
        color: AlignedVec3(w.intensity),
        direction: AlignedVec3(w.normal),
        ty,
        radius: w.radius,
        constant_attn: c,
        linear_attn: l,
        quadratic_attn: q,
        penumbra_start: w.penumbra_start,
        penumbra_end: w.penumbra_end,
        exponent: w.exponent,
    }
}

/// The light of kind `ty` that the map lists as `w`.
pub fn place_light(ty: EmitType, w: &WorldLight) -> (r: Light)
    ensures
        r == placed_light(ty, *w),
{
    let mut c: u32 = w.constant_attn;
    let mut l: u32 = w.linear_attn;
    let mut q: u32 = w.quadratic_attn;
    let none: bool = single::lt(c, NO_ATTENUATION) && single::lt(l, NO_ATTENUATION) && single::lt(
        q,
        NO_ATTENUATION,
    );
    match ty {
        EmitType::QuakeLight => {
            c = single::ZERO;
            l = single::ONE;
            q = single::ZERO;
        },
        EmitType::Surface => {
            if none {
                q = single::ONE;
            }
        },
        _ => {
            if none {
                c = single::ONE;
            }
        },
    }
    Light {
        position: AlignedVec3::from(w.origin),
        color: AlignedVec3::from(w.intensity),
        direction: AlignedVec3::from(w.normal),
        ty,
        radius: w.radius,
        constant_attn: c,
        linear_attn: l,
        quadratic_attn: q,
        penumbra_start: w.penumbra_start,
        penumbra_end: w.penumbra_end,
        exponent: w.exponent,
    }
}

/// What becomes of a light that the map lists.
#[derive(Debug, Clone, Copy, PartialEq, Eq, Structural)]
pub enum Role {
    /// It shines from where it is.
    Placed,
    /// It is the sun.
    Sun,
    /// It adds to the light of the whole sky.
    Ambient,
    /// Its kind is not known.
    Skipped,
}

/// What becomes of a light whose kind has the number `code`.
pub open spec fn role(code: i32) -> Role {
    if code == EmitType::SkyLight.code_spec() {
        Role::Sun
    } else if code == EmitType::SkyAmbient.code_spec() {
        Role::Ambient
    } else if exists|ty: EmitType| #[trigger] ty.code_spec() == code {
        Role::Placed
    } else {
        Role::Skipped
    }
}

/// The kind of light with the number `code`.
pub open spec fn kind(code: i32) -> EmitType {
    choose|ty: EmitType| #[trigger] ty.code_spec() == code
}

/// The lights of a map. The light of the sky is not yet summed up.
pub struct Lights {
    /// The lights that shine from where they are.
    pub world: Vec<Light>,
    /// Where each of them stands in the map's list.
    pub listed: Vec<usize>,
    /// The direction and the colour of the sun.
    pub sun: Option<(Vec3, Vec3)>,
    /// The colours that add up to the light of the sky.
    pub ambient: Vec<Vec3>,
    /// Where the lights of unknown kinds stand in the map's list.
    pub skipped: Vec<usize>,
}

/// The places among the first `n` of the list at which a light has the role `r`.
pub open spec fn places(ws: Seq<WorldLight>, r: Role, n: nat) -> Seq<int>
    decreases n,
{
    if n == 0 {
        Seq::empty()
    } else {
        let before = places(ws, r, (n - 1) as nat);
        if role(ws[n - 1].ty) == r {
            before.push(n - 1)
        } else {
            before
        }
    }
}

/// The places of all lights with the role `r`.
pub open spec fn all_places(ws: Seq<WorldLight>, r: Role) -> Seq<int> {
    places(ws, r, ws.len())
}

impl Lights {
    /// They are the first `n` lights of the list `ws`.
    pub open spec fn are_first(self, ws: Seq<WorldLight>, n: nat) -> bool {
        let placed = places(ws, Role::Placed, n);
        let suns = places(ws, Role::Sun, n);
        &&& self.listed@.map_values(|i: usize| i as int) == placed
        &&& self.world@ == placed.map_values(|i: int| placed_light(kind(ws[i].ty), ws[i]))
        &&& self.ambient@ == places(ws, Role::Ambient, n).map_values(|i: int| ws[i].intensity)
        &&& self.skipped@.map_values(|i: usize| i as int) == places(ws, Role::Skipped, n)
        &&& self.sun == if suns.len() == 0 {
            None
        } else {
            Some((ws[suns.last()].normal, ws[suns.last()].intensity))
        }
    }

    /// They are the lights of the list `ws`, each in its role. Of several suns the
    /// last one counts.
    pub open spec fn are(self, ws: Seq<WorldLight>) -> bool {
        self.are_first(ws, ws.len())
    }

    /// The light of the sky, with `ambient` for the sum of the colours that add up
    /// to it, unless the map sets another.
    pub fn sky(&self, ambient: Vec3, ambient_override: Option<Vec3>) -> (s: Sky)
        ensures
            s.sun_direction.0 == match self.sun {
                Some((direction, _)) => direction,
                None => Vec3::zero(),
            },
            s.sun_color.0 == match self.sun {
                Some((_, color)) => color,
                None => Vec3::zero(),
            },
            s.ambient_color.0 == match ambient_override {
                Some(color) => color,
                None => ambient,
            },
    {
        let mut sky: Sky = Sky::default();
        if let Some((direction, color)) = self.sun {
            sky.sun_direction = AlignedVec3::from(direction);
            sky.sun_color = AlignedVec3::from(color);
        }
        sky.ambient_color = AlignedVec3::from(
            match ambient_override {
                Some(color) => color,
                None => ambient,
            },
        );
        sky
    }
}

/// A number stands for at most one kind of light.
proof fn lemma_one_kind(ty: EmitType)
    ensures
        kind(ty.code_spec()) == ty,
{
    assert(kind(ty.code_spec()).code_spec() == ty.code_spec());
}

/// One more place.
proof fn lemma_more_places(ws: Seq<WorldLight>, n: nat)
    ensures
        forall|r: Role|
            places(ws, r, n + 1) == if role(ws[n as int].ty) == r {
                places(ws, r, n).push(n as int)
            } else {
                #[trigger] places(ws, r, n)
            },
{
}

/// The lights of a list.
pub fn collect_world_lights(worldlights: &[WorldLight]) -> (r: Lights)
    ensures
        r.are(worldlights@),
{
    let ghost ws = worldlights@;
    let mut r = Lights {
        world: Vec::new(),
        listed: Vec::new(),
        sun: None,
        ambient: Vec::new(),
        skipped: Vec::new(),
    };
    proof {
        assert(r.world@ =~= Seq::<int>::empty().map_values(
            |i: int| placed_light(kind(ws[i].ty), ws[i]),
        ));
        assert(r.ambient@ =~= Seq::<int>::empty().map_values(|i: int| ws[i].intensity));
        assert(r.listed@.map_values(|i: usize| i as int) =~= Seq::<int>::empty());
        assert(r.skipped@.map_values(|i: usize| i as int) =~= Seq::<int>::empty());
    }
    let n: usize = worldlights.len();
    let mut i: usize = 0;
    while i < n
        invariant
            i <= n == ws.len(),
            ws == worldlights@,
            r.are_first(ws, i as nat),
        decreases n - i,
    {
        let w = &worldlights[i];
        let ghost before = r;
        proof {
            lemma_more_places(ws, i as nat);
        }
        match EmitType::from_code(w.ty) {
            None => {
                r.skipped.push(i);
                assert(r.skipped@.map_values(|i: usize| i as int)
                    =~= before.skipped@.map_values(|i: usize| i as int).push(i as int));
            },
            Some(ty) => {
                proof {
                    lemma_one_kind(ty);
                }
                match ty {
                    EmitType::SkyLight => {
                        r.sun = Some((w.normal, w.intensity));
                    },
                    EmitType::SkyAmbient => {
                        r.ambient.push(w.intensity);
                    },
                    EmitType::Point
                    | EmitType::Spotlight
                    | EmitType::Surface
                    | EmitType::QuakeLight => {
                        r.world.push(place_light(ty, w));
                        r.listed.push(i);
                        assert(r.listed@.map_values(|i: usize| i as int)
                            =~= before.listed@.map_values(|i: usize| i as int).push(i as int));
                    },
                }
            },
        }
        i = i + 1;
        proof {
            let f = |i: int| placed_light(kind(ws[i].ty), ws[i]);
            let g = |i: int| ws[i].intensity;
            assert(r.world@ =~= places(ws, Role::Placed, i as nat).map_values(f));
            assert(r.ambient@ =~= places(ws, Role::Ambient, i as nat).map_values(g));
        }
    }
    r
}

/// The list of lights that counts: that of the map, or the one for a high dynamic range
/// where that is asked for.
pub fn choose_world_lights(
    hdr: bool,
    lights: Vec<WorldLight>,
    lights_hdr: Option<Vec<WorldLight>>,
) -> (r: Option<Vec<WorldLight>>)
    ensures
        r == if hdr {
            lights_hdr
        } else {
            Some(lights)
        },
{
    if hdr {
        lights_hdr
    } else {
        Some(lights)
    }
}

/// The lights of a map and what it says of the light from outside, from the bytes
/// of its entities and its list of lights.
pub fn collect_lights(entity_lump: &[u8], worldlights: &[WorldLight]) -> (r: (Lights, Environment))
    ensures
        r.0.are(worldlights@),
        r.1.is_of(entities(vstd::utf8::encode_utf8(text::utf8_lossy(entity_lump@)))),
{
    let entity_string: String = text::from_utf8_lossy(entity_lump);
    let environment: Environment = light_environment(entity_string.as_str());
    (collect_world_lights(worldlights), environment)
}

/// The first four numbers of a colour with its brightness, where there are that
/// many.
pub fn ambient_components(parts: &[u32]) -> (r: Option<[u32; 4]>)
    ensures
        match r {
            Some(c) => parts@.len() >= 4 && c@ == parts@.take(4),
            None => parts@.len() < 4,
        },
{
    if parts.len() >= 4 {
        let c: [u32; 4] = [parts[0], parts[1], parts[2], parts[3]];
        assert(c@ =~= parts@.take(4));
        Some(c)
    } else {
        None
    }
}

/// Places are in the list, in rising order, and hold what they are places of.
proof fn lemma_places(ws: Seq<WorldLight>, r: Role, n: nat)
    requires
        n <= ws.len(),
    ensures
        forall|k: int|
            0 <= k < places(ws, r, n).len() ==> 0 <= #[trigger] places(ws, r, n)[k] < n && role(
                ws[places(ws, r, n)[k]].ty,
            ) == r,
        forall|k: int, l: int|
            0 <= k < l < places(ws, r, n).len() ==> #[trigger] places(ws, r, n)[k]
                < #[trigger] places(ws, r, n)[l],
        forall|i: int|
            0 <= i < n && role(ws[i].ty) == r ==> #[trigger] places(ws, r, n).contains(i),
    decreases n,
{
    if n > 0 {
        let m = (n - 1) as nat;
        lemma_places(ws, r, m);
        let before = places(ws, r, m);
        let after = places(ws, r, n);
        assert forall|i: int| 0 <= i < n && role(ws[i].ty) == r implies #[trigger] after.contains(
            i,
        ) by {
            if i < m {
                assert(before.contains(i));
                let k = choose|k: int| 0 <= k < before.len() && before[k] == i;
                assert(after[k] == i);
            } else {
                assert(after[after.len() - 1] == i);
            }
        }
    }
}

/// Every light of a list has exactly one role, and stands at exactly one place
/// among those with that role; the places keep the order of the list.
pub proof fn each_light_has_one_role(ws: Seq<WorldLight>, i: int)
    requires
        0 <= i < ws.len(),
    ensures
        forall|r: Role| #[trigger] all_places(ws, r).contains(i) <==> r == role(ws[i].ty),
        all_places(ws, role(ws[i].ty)).no_duplicates(),
        forall|r: Role, k: int, l: int|
            0 <= k < l < all_places(ws, r).len() ==> #[trigger] all_places(ws, r)[k]
                < #[trigger] all_places(ws, r)[l],
        all_places(ws, Role::Placed).len() + all_places(ws, Role::Sun).len() + all_places(
            ws,
            Role::Ambient,
        ).len() + all_places(ws, Role::Skipped).len() == ws.len(),
{
    assert forall|r: Role| #[trigger] all_places(ws, r).contains(i) <==> r == role(ws[i].ty) by {
        lemma_places(ws, r, ws.len());
    }
    assert forall|r: Role, k: int, l: int| 0 <= k < l < all_places(ws, r).len() implies #[trigger]
    all_places(ws, r)[k] < #[trigger] all_places(ws, r)[l] by {
        lemma_places(ws, r, ws.len());
    }
    lemma_places_share(ws, ws.len());
}

/// The roles share out a list.
proof fn lemma_places_share(ws: Seq<WorldLight>, n: nat)
    requires
        n <= ws.len(),
    ensures
        places(ws, Role::Placed, n).len() + places(ws, Role::Sun, n).len() + places(
            ws,
            Role::Ambient,
            n,
        ).len() + places(ws, Role::Skipped, n).len() == n,
    decreases n,
{
    if n > 0 {
        lemma_places_share(ws, (n - 1) as nat);
    }
}

/// Attenuation that is below the number nearest to one ten-thousandth counts as none.
pub proof fn no_attenuation_is_one_ten_thousandth()
    ensures
        -(10_000 * pow2(112)) <= 2 * (10_000 * single::magnitude(NO_ATTENUATION) - pow2(149)) <= 10_000
            * pow2(112),
{
    let p = pow2(112) as int;
    lemma_pow2_adds(112, 37);
    lemma2_to64_rest();
    lemma_pow2_pos(112);
    assert(single::significand(NO_ATTENUATION) == 0xd1_b717);
    assert(single::exponent(NO_ATTENUATION) + 149 == 112);
    assert(pow2(149) == p * 0x20_0000_0000);
    let m = single::magnitude(NO_ATTENUATION) as int;
    assert(m == 0xd1_b717 * p);
}

/// A point light, a spotlight or a surface light for which any of the three attenuations
/// counts keeps all three exactly as listed. Only where none counts does one come in: the
/// constant one for point lights and spotlights, the quadratic one for surface lights,
/// each with the value one, and the other two stay as listed even then. A quake light
/// always falls off linearly, whatever it lists.
pub proof fn listed_attenuation_is_kept(ty: EmitType, w: WorldLight)
    ensures
        ({
            let r = placed_light(ty, w);
            let none = single::less(w.constant_attn, NO_ATTENUATION) && single::less(
                w.linear_attn,
                NO_ATTENUATION,
            ) && single::less(w.quadratic_attn, NO_ATTENUATION);
            &&& ty != EmitType::QuakeLight && !none ==> r.constant_attn == w.constant_attn
                && r.linear_attn == w.linear_attn && r.quadratic_attn == w.quadratic_attn
            &&& ty != EmitType::QuakeLight ==> r.linear_attn == w.linear_attn
            &&& ty == EmitType::Surface ==> r.constant_attn == w.constant_attn
            &&& ty == EmitType::Surface && none ==> r.quadratic_attn == single::ONE
            &&& ty != EmitType::QuakeLight && ty != EmitType::Surface ==> r.quadratic_attn
                == w.quadratic_attn
            &&& ty != EmitType::QuakeLight && ty != EmitType::Surface && none ==> r.constant_attn
                == single::ONE
            &&& ty == EmitType::QuakeLight ==> r.constant_attn == 0 && r.linear_attn == single::ONE
                && r.quadratic_attn == 0
        }),
{
}

/// Every light that is placed has an attenuation that counts, and placing it once more,
/// with what it has then, changes nothing.
pub proof fn placed_lights_are_attenuated(ty: EmitType, w: WorldLight)
    ensures
        ({
            let r = placed_light(ty, w);
            let again = WorldLight {
                constant_attn: r.constant_attn,
                linear_attn: r.linear_attn,
                quadratic_attn: r.quadratic_attn,
                ..w
            };
            &&& !(single::less(r.constant_attn, NO_ATTENUATION) && single::less(
                r.linear_attn,
                NO_ATTENUATION,
            ) && single::less(r.quadratic_attn, NO_ATTENUATION))
            &&& placed_light(ty, again) == r
        }),
{
}

/// Of what is no attenuation a light keeps everything as listed, each in its place.
pub proof fn listed_light_is_kept(ty: EmitType, w: WorldLight)
    ensures
        ({
            let r = placed_light(ty, w);
            &&& r.position.0 == w.origin
            &&& r.color.0 == w.intensity
            &&& r.direction.0 == w.normal
            &&& r.ty == ty
            &&& r.radius == w.radius
            &&& r.penumbra_start == w.penumbra_start
            &&& r.penumbra_end == w.penumbra_end
            &&& r.exponent == w.exponent
        }),
{
}

/// What becomes of a light goes by the number of its kind: 3 is the sun, 5 adds to the
/// light of the sky, 0, 1, 2 and 4 shine from where they are, and all others are skipped.
pub proof fn roles_go_by_number(code: i32)
    ensures
        role(code) == Role::Sun <==> code == 3,
        role(code) == Role::Ambient <==> code == 5,
        role(code) == Role::Placed <==> code == 0 || code == 1 || code == 2 || code == 4,
        role(code) == Role::Skipped <==> code < 0 || code > 5,
        code == 0 ==> kind(code) == EmitType::Surface,
        code == 1 ==> kind(code) == EmitType::Point,
        code == 2 ==> kind(code) == EmitType::Spotlight,
        code == 4 ==> kind(code) == EmitType::QuakeLight,
{
    lemma_one_kind(EmitType::Surface);
    lemma_one_kind(EmitType::Point);
    lemma_one_kind(EmitType::Spotlight);
    lemma_one_kind(EmitType::SkyLight);
    lemma_one_kind(EmitType::QuakeLight);
    lemma_one_kind(EmitType::SkyAmbient);
    assert(EmitType::Surface.code_spec() == 0);
    assert(EmitType::Point.code_spec() == 1);
    assert(EmitType::Spotlight.code_spec() == 2);
    assert(EmitType::QuakeLight.code_spec() == 4);
}

/// A longer list has the same places as far as the shorter one goes.
proof fn lemma_places_before(ws: Seq<WorldLight>, w: WorldLight, r: Role, n: nat)
    requires
        n <= ws.len(),
    ensures
        places(ws.push(w), r, n) == places(ws, r, n),
    decreases n,
{
    if n > 0 {
        lemma_places_before(ws, w, r, (n - 1) as nat);
        assert(ws.push(w)[n - 1] == ws[n - 1]);
    }
}

/// One more light at the end of a list goes to one place alone, and the others stay as
/// they are: a sun takes the place of the one before, a light of the sky is added to
/// those, a light that shines from where it is comes last among those, as it is listed,
/// and one of an unknown kind is put down as skipped.
pub proof fn one_more_light(ws: Seq<WorldLight>, w: WorldLight, a: Lights, b: Lights)
    requires
        a.are(ws),
        b.are(ws.push(w)),
        ws.len() < usize::MAX,
    ensures
        w.ty == 3 ==> b.sun == Some((w.normal, w.intensity)),
        w.ty != 3 ==> b.sun == a.sun,
        w.ty == 5 ==> b.ambient@ == a.ambient@.push(w.intensity),
        w.ty != 5 ==> b.ambient@ == a.ambient@,
        w.ty == 0 || w.ty == 1 || w.ty == 2 || w.ty == 4 ==> b.world@ == a.world@.push(
            placed_light(kind(w.ty), w),
        ) && b.listed@ == a.listed@.push(ws.len() as usize),
        w.ty == 3 || w.ty >= 5 || w.ty < 0 ==> b.world@ == a.world@ && b.listed@ == a.listed@,
        w.ty < 0 || w.ty > 5 ==> b.skipped@ == a.skipped@.push(ws.len() as usize),
        0 <= w.ty <= 5 ==> b.skipped@ == a.skipped@,
{
    let vs = ws.push(w);
    let n = ws.len();
    let f = |i: usize| i as int;
    roles_go_by_number(w.ty);
    assert forall|r: Role| #[trigger] places(vs, r, n) == places(ws, r, n) by {
        lemma_places_before(ws, w, r, n);
    }
    lemma_more_places(vs, n);
    lemma_places(ws, Role::Placed, n);
    lemma_places(ws, Role::Sun, n);
    lemma_places(ws, Role::Ambient, n);
    lemma_places(ws, Role::Skipped, n);
    assert(vs[n as int] == w);
    let (pa, pb) = (places(ws, Role::Placed, n), places(vs, Role::Placed, n + 1));
    let (ka, kb) = (places(ws, Role::Skipped, n), places(vs, Role::Skipped, n + 1));
    let (ma, mb) = (places(ws, Role::Ambient, n), places(vs, Role::Ambient, n + 1));
    let (sa, sb) = (places(ws, Role::Sun, n), places(vs, Role::Sun, n + 1));
    assert(pb == if role(w.ty) == Role::Placed { pa.push(n as int) } else { pa }) by {
        assert(places(vs, Role::Placed, n) == pa);
    }
    assert(kb == if role(w.ty) == Role::Skipped { ka.push(n as int) } else { ka }) by {
        assert(places(vs, Role::Skipped, n) == ka);
    }
    assert(mb == if role(w.ty) == Role::Ambient { ma.push(n as int) } else { ma }) by {
        assert(places(vs, Role::Ambient, n) == ma);
    }
    assert(sb == if role(w.ty) == Role::Sun { sa.push(n as int) } else { sa }) by {
        assert(places(vs, Role::Sun, n) == sa);
    }
    assert forall|i: int| 0 <= i < n implies #[trigger] vs[i] == ws[i] by {}
    if sa.len() > 0 {
        assert(0 <= sa[sa.len() - 1] < n);
    }
    let ga = |i: int| placed_light(kind(ws[i].ty), ws[i]);
    let gb = |i: int| placed_light(kind(vs[i].ty), vs[i]);
    assert(pb.map_values(gb) =~= if role(w.ty) == Role::Placed {
        pa.map_values(ga).push(placed_light(kind(w.ty), w))
    } else {
        pa.map_values(ga)
    });
    let ha = |i: int| ws[i].intensity;
    let hb = |i: int| vs[i].intensity;
    assert(mb.map_values(hb) =~= if role(w.ty) == Role::Ambient {
        ma.map_values(ha).push(w.intensity)
    } else {
        ma.map_values(ha)
    });
    assert(a.listed@.push(n as usize).map_values(f) =~= a.listed@.map_values(f).push(n as int));
    assert(a.skipped@.push(n as usize).map_values(f) =~= a.skipped@.map_values(f).push(n as int));
    lemma_same_places(b.listed@, if role(w.ty) == Role::Placed {
        a.listed@.push(n as usize)
    } else {
        a.listed@
    });
    lemma_same_places(b.skipped@, if role(w.ty) == Role::Skipped {
        a.skipped@.push(n as usize)
    } else {
        a.skipped@
    });
}

/// Without lights there is nothing in any place.
pub proof fn no_lights(a: Lights)
    requires
        a.are(Seq::empty()),
    ensures
        a.world@.len() == 0,
        a.listed@.len() == 0,
        a.sun is None,
        a.ambient@.len() == 0,
        a.skipped@.len() == 0,
{
    let f = |i: usize| i as int;
    assert(a.listed@.map_values(f).len() == 0);
    assert(a.skipped@.map_values(f).len() == 0);
}

/// Lists of the same numbers are the same.
proof fn lemma_same_places(a: Seq<usize>, b: Seq<usize>)
    requires
        a.map_values(|i: usize| i as int) == b.map_values(|i: usize| i as int),
    ensures
        a == b,
{
    let f = |i: usize| i as int;
    assert(a.len() == a.map_values(f).len());
    assert(b.len() == b.map_values(f).len());
    assert forall|k: int| 0 <= k < a.len() implies a[k] == b[k] by {
        assert(a.map_values(f)[k] == b.map_values(f)[k]);
    }
    assert(a =~= b);
}

/// The first entity of the class `light_environment` is the one that speaks of the light
/// from outside, whatever the entities before and behind it hold. Without one, nothing is
/// said.
pub proof fn first_environment_counts(es: Seq<Entity>, e: Environment, i: int)
    requires
        e.is_of(es),
    ensures
        0 <= i < es.len() && properties::lookup(es[i], "classname"@) == Some("light_environment"@)
            && (forall|j: int|
            0 <= j < i ==> properties::lookup(#[trigger] es[j], "classname"@) != Some(
                "light_environment"@,
            )) ==> same_text(e.ambient, properties::lookup(es[i], "_ambient"@)) && same_text(
            e.sun_spread_angle,
            properties::lookup(es[i], "SunSpreadAngle"@),
        ),
        (forall|j: int|
            0 <= j < es.len() ==> properties::lookup(#[trigger] es[j], "classname"@) != Some(
                "light_environment"@,
            )) ==> e.ambient is None && e.sun_spread_angle is None,
{
    if 0 <= i < es.len() && properties::lookup(es[i], "classname"@) == Some("light_environment"@)
        && (forall|j: int|
        0 <= j < i ==> properties::lookup(#[trigger] es[j], "classname"@) != Some(
            "light_environment"@,
        )) {
        lemma_environment_index(es, i);
    }
    if forall|j: int|
        0 <= j < es.len() ==> properties::lookup(#[trigger] es[j], "classname"@) != Some(
            "light_environment"@,
        ) {
        lemma_environment_index(es, es.len() as int);
    }
}

/// A text says of its entities what its blocks say, all of them in their order; one that
/// cannot be parsed says nothing.
pub proof fn entities_are_the_blocks_of_a_text(bytes: Seq<u8>, e: Environment)
    ensures
        block::meaning(bytes) matches Ok(es) ==> entities(bytes) == es,
        block::meaning(bytes) is Err ==> entities(bytes).len() == 0,
        block::meaning(bytes) is Err && e.is_of(entities(bytes)) ==> e.ambient is None
            && e.sun_spread_angle is None,
{
    if block::meaning(bytes) is Err {
        lemma_environment_index(entities(bytes), 0);
    }
}

} // verus!
