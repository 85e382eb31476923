//! Scenes and the bounce-simulation engine.
//!
//! Each round, every live sound is intersected with every object; the earliest
//! interaction later than the sound's own time offset decides its fate: a
//! reflector reflects it and scales its intensity by the reflectance, a
//! receiver captures it, and no interaction at all lets it escape.
use core::cmp::Ordering;

use vstd::prelude::*;

use crate::fixed::{
    floor_div, AUDIBILITY_THRESHOLD, FULL_INTENSITY, MAX_COORD, MAX_TIME, SCALE, SPEED_OF_SOUND,
};
use crate::intersect::{time_order, Hit};
use crate::products::{CrossProduct, DotProduct};
use crate::ray::Ray;
use crate::sphere::Sphere;
use crate::triangle::Triangle;
use crate::vec3::{lemma_dot_bound, lemma_dot_within, Vec3};

verus! {

/// A point source that emits `sounds_per_tick` sounds in one burst.
#[derive(Clone, Copy, Debug, PartialEq, Eq, Structural)]
pub struct Emitter {
    pub origin: Vec3,
    pub sounds_per_tick: usize,
}

/// A reflective mesh with the fraction of intensity that one bounce keeps
/// (out of `FULL_INTENSITY`), or a spherical receiver.
#[derive(Debug)]
#[allow(inconsistent_fields)]
pub enum Object {
    Reflector { geometry: Vec<Triangle<Vec3>>, reflectance: u64 },
    Receiver { geometry: Sphere },
}

/// A candidate event for a sound: a reflection off a surface, or a capture by
/// a receiver with the sound's intensity at that time.
#[derive(Clone, Copy, Debug, PartialEq, Eq, Structural)]
pub enum Interaction {
    ReceiverHit { hit: Hit, intensity: u64 },
    ObjectHit { hit: Hit, reflectance: u64 },
}

/// A live sound: its current ray segment and its residual intensity.
#[derive(Clone, Copy, Debug, PartialEq, Eq, Structural)]
pub struct Sound {
    pub ray: Ray,
    pub intensity: u64,
}

/// What one round does to a sound.
#[derive(Clone, Copy, Debug, PartialEq, Eq, Structural)]
pub enum Fate {
    /// Reflected: the sound goes on as the given sound.
    Alive(Sound),
    /// Captured by a receiver: the hit and the intensity are recorded.
    Captured(Hit, u64),
    /// Escaped, inaudible, or out of the representable range: dropped.
    Decayed,
}

impl Object {
    /// Every triangle or the sphere is well formed, and a reflectance keeps
    /// no more than all of the intensity.
    pub open spec fn well_formed(&self) -> bool {
        match self {
            Object::Reflector { geometry, reflectance } => {
                &&& *reflectance <= FULL_INTENSITY
                &&& forall|i: int| 0 <= i < geometry@.len() ==> (#[trigger] geometry@[i]).well_formed()
            },
            Object::Receiver { geometry } => geometry.well_formed(),
        }
    }

    pub fn reflector(geometry: Vec<Triangle<Vec3>>, reflectance: u64) -> (r: Object)
        ensures
            r == (Object::Reflector { geometry, reflectance }),
    {
        Object::Reflector { geometry, reflectance }
    }

    pub fn receiver(geometry: Sphere) -> (r: Object)
        ensures
            r == (Object::Receiver { geometry }),
    {
        Object::Receiver { geometry }
    }
}

impl Interaction {
    pub open spec fn hit_spec(self) -> Hit {
        match self {
            Interaction::ReceiverHit { hit, .. } => hit,
            Interaction::ObjectHit { hit, .. } => hit,
        }
    }

    /// The arrival time of the wrapped hit, which orders interactions of
    /// either kind.
    pub fn time(&self) -> (r: i64)
        ensures
            r == self.hit_spec().time,
    {
        match self {
            Interaction::ReceiverHit { hit, .. } => hit.time,
            Interaction::ObjectHit { hit, .. } => hit.time,
        }
    }
}

impl Interaction {
    /// Interactions are ordered by the arrival time of their hits, whatever
    /// their kind, so that the earliest event is chosen first.
    pub fn cmp(&self, other: &Interaction) -> (r: Ordering)
        ensures
            r == time_order(self.hit_spec().time, other.hit_spec().time),
    {
        let a: &Hit = match self {
            Interaction::ReceiverHit { hit, .. } => hit,
            Interaction::ObjectHit { hit, .. } => hit,
        };
        let b: &Hit = match other {
            Interaction::ReceiverHit { hit, .. } => hit,
            Interaction::ObjectHit { hit, .. } => hit,
        };
        a.cmp(b)
    }
}

impl PartialOrd for Interaction {
    fn partial_cmp(&self, other: &Interaction) -> (r: Option<Ordering>) {
        Some(self.cmp(other))
    }
}

impl vstd::std_specs::cmp::PartialOrdSpecImpl for Interaction {
    open spec fn obeys_partial_cmp_spec() -> bool {
        true
    }

    open spec fn partial_cmp_spec(&self, other: &Interaction) -> Option<Ordering> {
        Some(time_order(self.hit_spec().time, other.hit_spec().time))
    }
}

impl Sound {
    pub open spec fn well_formed(self) -> bool {
        self.ray.well_formed()
    }
}

/// Every object of `objects` is well formed.
pub open spec fn objects_well_formed(objects: Seq<Object>) -> bool {
    forall|i: int| 0 <= i < objects.len() ==> (#[trigger] objects[i]).well_formed()
}

/// Reflections of `ray` off the triangles of `tris`, in order.
pub open spec fn triangle_interactions(
    ray: Ray,
    tris: Seq<Triangle<Vec3>>,
    reflectance: u64,
) -> Seq<Interaction>
    decreases tris.len(),
{
    if tris.len() == 0 {
        seq![]
    } else {
        let rest = triangle_interactions(ray, tris.drop_last(), reflectance);
        match ray.triangle_hit(tris.last()) {
            Some(hit) => rest.push(Interaction::ObjectHit { hit, reflectance }),
            None => rest,
        }
    }
}

/// Captures of a sound of intensity `intensity` at the hits `hits`, in order.
pub open spec fn receiver_interactions(hits: Seq<Hit>, intensity: u64) -> Seq<Interaction> {
    hits.map_values(|hit: Hit| Interaction::ReceiverHit { hit, intensity })
}

/// Every interaction of `sound` with one object, in order.
pub open spec fn object_interactions(sound: Sound, object: Object) -> Seq<Interaction> {
    match object {
        Object::Reflector { geometry, reflectance } => triangle_interactions(
            sound.ray,
            geometry@,
            reflectance,
        ),
        Object::Receiver { geometry } => match sound.ray.sphere_hits(geometry) {
            Some(hits) => receiver_interactions(hits, sound.intensity),
            None => seq![],
        },
    }
}

/// Every interaction of `sound` with the objects, object by object.
pub open spec fn all_interactions(sound: Sound, objects: Seq<Object>) -> Seq<Interaction>
    decreases objects.len(),
{
    if objects.len() == 0 {
        seq![]
    } else {
        all_interactions(sound, objects.drop_last()) + object_interactions(sound, objects.last())
    }
}

/// The interactions of `c` strictly later than `t0`, in order.
pub open spec fn later_than(c: Seq<Interaction>, t0: i64) -> Seq<Interaction>
    decreases c.len(),
{
    if c.len() == 0 {
        seq![]
    } else {
        let rest = later_than(c.drop_last(), t0);
        if c.last().hit_spec().time > t0 {
            rest.push(c.last())
        } else {
            rest
        }
    }
}

/// The candidate interactions of `sound`: those strictly later than the start
/// of its current ray segment.
pub open spec fn candidates(sound: Sound, objects: Seq<Object>) -> Seq<Interaction> {
    later_than(all_interactions(sound, objects), sound.ray.t_offset)
}

/// The earliest interaction of `c`; of several equally early ones, the first.
pub open spec fn earliest(c: Seq<Interaction>) -> Option<Interaction>
    decreases c.len(),
{
    if c.len() == 0 {
        None
    } else {
        match earliest(c.drop_last()) {
            None => Some(c.last()),
            Some(e) => if c.last().hit_spec().time < e.hit_spec().time {
                Some(c.last())
            } else {
                Some(e)
            },
        }
    }
}

/// Mirror reflection of `d` off a surface with normal `n`:
/// `d - 2 (d · n) n / (n · n)`, each component rounded down. For a unit
/// normal this is `d - 2 (d · n) n`.
pub open spec fn reflection(d: Vec3, n: Vec3) -> (int, int, int) {
    let dn = d.dot_int(n);
    let nn = n.norm_sq();
    (d.0 - (2 * dn * n.0) / nn, d.1 - (2 * dn * n.1) / nn, d.2 - (2 * dn * n.2) / nn)
}

/// Intensity left after one bounce off a surface of reflectance `r`.
pub open spec fn decayed(intensity: int, r: int) -> int {
    (intensity * r) / FULL_INTENSITY as int
}

/// The sound that goes on after reflecting off `hit`, if it is still audible
/// and its new ray is representable.
pub open spec fn reflected(sound: Sound, hit: Hit, reflectance: u64) -> Option<Sound> {
    let (x, y, z) = reflection(sound.ray.direction, hit.unit_normal);
    let intensity = decayed(sound.intensity as int, reflectance as int);
    let c = MAX_COORD as int;
    if intensity < AUDIBILITY_THRESHOLD || !(-c <= x <= c && -c <= y <= c && -c <= z <= c)
        || !hit.point.within(c) || !(-MAX_TIME <= hit.time <= MAX_TIME) {
        None
    } else {
        Some(
            Sound {
                ray: Ray {
                    origin: hit.point,
                    direction: Vec3(x as i64, y as i64, z as i64),
                    t_offset: hit.time,
                },
                intensity: intensity as u64,
            },
        )
    }
}

/// One round for one sound.
pub open spec fn advance(sound: Sound, objects: Seq<Object>) -> Fate {
    match earliest(candidates(sound, objects)) {
        None => Fate::Decayed,
        Some(Interaction::ObjectHit { hit, reflectance }) => match reflected(
            sound,
            hit,
            reflectance,
        ) {
            Some(next) => Fate::Alive(next),
            None => Fate::Decayed,
        },
        Some(Interaction::ReceiverHit { hit, intensity }) => Fate::Captured(hit, intensity),
    }
}

/// Appends the interactions of `sound` with `object` to `out`.
fn collect_object(sound: &Sound, object: &Object, out: &mut Vec<Interaction>)
    requires
        sound.well_formed(),
        object.well_formed(),
    ensures
        final(out)@ == old(out)@ + object_interactions(*sound, *object),
{
    match object {
        Object::Reflector { geometry, reflectance } => {
            let ghost start = out@;
            let mut j: usize = 0;
            while j < geometry.len()
                invariant
                    sound.well_formed(),
                    forall|i: int|
                        0 <= i < geometry@.len() ==> (#[trigger] geometry@[i]).well_formed(),
                    j <= geometry@.len(),
                    out@ == start + triangle_interactions(
                        sound.ray,
                        geometry@.take(j as int),
                        *reflectance,
                    ),
                decreases geometry.len() - j,
            {
                assert(geometry@.take(j + 1).drop_last() =~= geometry@.take(j as int));
                match sound.ray.intersect_triangle(&geometry[j]) {
                    Some(hit) => {
                        out.push(Interaction::ObjectHit { hit, reflectance: *reflectance });
                    },
                    None => {},
                }
                j = j + 1;
                let ghost done = geometry@.take(j as int);
                assert(out@ =~= start + triangle_interactions(sound.ray, done, *reflectance));
            }
            assert(geometry@.take(j as int) =~= geometry@);
        },
        Object::Receiver { geometry } => {
            match sound.ray.intersect_sphere(geometry) {
                Some(hits) => {
                    let ghost start = out@;
                    let mut j: usize = 0;
                    while j < hits.len()
                        invariant
                            j <= hits@.len(),
                            out@ == start + receiver_interactions(
                                hits@.take(j as int),
                                sound.intensity,
                            ),
                        decreases hits.len() - j,
                    {
                        let x = Interaction::ReceiverHit { hit: hits[j], intensity: sound.intensity };
                        out.push(x);
                        j = j + 1;
                        let ghost done = hits@.take(j as int);
                        assert(out@ =~= start + receiver_interactions(done, sound.intensity));
                    }
                    assert(hits@.take(j as int) =~= hits@);
                },
                None => {
                    assert(out@ =~= old(out)@ + object_interactions(*sound, *object));
                },
            }
        },
    }
}

/// Every interaction of `sound` with `objects`, object by object.
fn collect_all(sound: &Sound, objects: &Vec<Object>) -> (r: Vec<Interaction>)
    requires
        sound.well_formed(),
        objects_well_formed(objects@),
    ensures
        r@ == all_interactions(*sound, objects@),
{
    let mut out: Vec<Interaction> = Vec::new();
    let mut i: usize = 0;
    while i < objects.len()
        invariant
            sound.well_formed(),
            objects_well_formed(objects@),
            i <= objects@.len(),
            out@ == all_interactions(*sound, objects@.take(i as int)),
        decreases objects.len() - i,
    {
        assert(objects@.take(i + 1).drop_last() =~= objects@.take(i as int));
        assert(objects@[i as int].well_formed());
        collect_object(sound, &objects[i], &mut out);
        i = i + 1;
    }
    assert(objects@.take(i as int) =~= objects@);
    out
}

/// The interactions of `c` strictly later than `t0`, in order.
fn keep_later(c: &Vec<Interaction>, t0: i64) -> (r: Vec<Interaction>)
    ensures
        r@ == later_than(c@, t0),
{
    let mut out: Vec<Interaction> = Vec::new();
    let mut i: usize = 0;
    while i < c.len()
        invariant
            i <= c@.len(),
            out@ == later_than(c@.take(i as int), t0),
        decreases c.len() - i,
    {
        assert(c@.take(i + 1).drop_last() =~= c@.take(i as int));
        if c[i].time() > t0 {
            out.push(c[i]);
        }
        i = i + 1;
    }
    assert(c@.take(i as int) =~= c@);
    out
}

/// The earliest interaction of `c`; of several equally early ones, the first.
pub fn select_earliest(c: &Vec<Interaction>) -> (r: Option<Interaction>)
    ensures
        r == earliest(c@),
{
    let mut best: Option<Interaction> = None;
    let mut i: usize = 0;
    while i < c.len()
        invariant
            i <= c@.len(),
            best == earliest(c@.take(i as int)),
        decreases c.len() - i,
    {
        assert(c@.take(i + 1).drop_last() =~= c@.take(i as int));
        let x = c[i];
        best = match best {
            None => Some(x),
            Some(e) => if x.time() < e.time() {
                Some(x)
            } else {
                Some(e)
            },
        };
        i = i + 1;
    }
    assert(c@.take(i as int) =~= c@);
    best
}

/// The candidate interactions of `sound` with `objects`: every interaction
/// strictly later than the start of its current ray segment.
pub fn find_candidates(sound: &Sound, objects: &Vec<Object>) -> (r: Vec<Interaction>)
    requires
        sound.well_formed(),
        objects_well_formed(objects@),
    ensures
        r@ == candidates(*sound, objects@),
{
    let all = collect_all(sound, objects);
    keep_later(&all, sound.ray.t_offset)
}

/// Mirror reflection of `d` off a surface with the non-zero normal `n`, each
/// component rounded down.
pub fn reflect(d: Vec3, n: Vec3) -> (r: (i128, i128, i128))
    requires
        d.within(MAX_COORD as int),
        n.within(SCALE as int),
        !n.is_zero(),
    ensures
        (r.0 as int, r.1 as int, r.2 as int) == reflection(d, n),
{
    let ghost c = MAX_COORD as int;
    let ghost sc = SCALE as int;
    proof {
        lemma_dot_bound(d, n);
        lemma_dot_within(d, n, c, sc);
        lemma_dot_bound(n, n);
        lemma_dot_within(n, n, sc, sc);
        lemma_norm_sq_positive(n);
    }
    let dn: i128 = d.dot(&n);
    let nn: i128 = n.dot(&n);
    proof {
        lemma_reflection_term_bounds(dn as int, n);
        lemma_quotient_magnitude(2 * dn * n.0, nn as int);
        lemma_quotient_magnitude(2 * dn * n.1, nn as int);
        lemma_quotient_magnitude(2 * dn * n.2, nn as int);
    }
    let x: i128 = d.0 as i128 - floor_div(2 * dn * n.0 as i128, nn);
    let y: i128 = d.1 as i128 - floor_div(2 * dn * n.1 as i128, nn);
    let z: i128 = d.2 as i128 - floor_div(2 * dn * n.2 as i128, nn);
    (x, y, z)
}

/// A non-zero vector has a positive squared length.
pub proof fn lemma_norm_sq_positive(n: Vec3)
    requires
        !n.is_zero(),
    ensures
        n.norm_sq() > 0,
{
    assert(n.norm_sq() > 0) by (nonlinear_arith)
        requires
            n.0 != 0 || n.1 != 0 || n.2 != 0,
            n.norm_sq() == n.0 * n.0 + n.1 * n.1 + n.2 * n.2,
    ;
}

/// Dividing by a positive integer does not increase the magnitude.
pub proof fn lemma_quotient_magnitude(a: int, b: int)
    requires
        b >= 1,
    ensures
        a >= 0 ==> 0 <= a / b <= a,
        a < 0 ==> a <= a / b < 0,
{
    let q = a / b;
    let r = a % b;
    vstd::arithmetic::div_mod::lemma_fundamental_div_mod(a, b);
    assert(a >= 0 ==> 0 <= q <= a) by (nonlinear_arith)
        requires
            a == b * q + r,
            0 <= r < b,
            b >= 1,
    ;
    assert(a < 0 ==> a <= q < 0) by (nonlinear_arith)
        requires
            a == b * q + r,
            0 <= r < b,
            b >= 1,
    ;
}

proof fn lemma_reflection_term_bounds(dn: int, n: Vec3)
    requires
        -0x0008_0000_0000_0000 <= dn <= 0x0008_0000_0000_0000,
        n.within(SCALE as int),
    ensures
        -0x0100_0000_0000_0000_0000 <= 2 * dn * n.0 <= 0x0100_0000_0000_0000_0000,
        -0x0100_0000_0000_0000_0000 <= 2 * dn * n.1 <= 0x0100_0000_0000_0000_0000,
        -0x0100_0000_0000_0000_0000 <= 2 * dn * n.2 <= 0x0100_0000_0000_0000_0000,
{
    let m = 0x0010_0000_0000_0000int;
    crate::vec3::lemma_product_within(2 * dn, n.0 as int, m, 0x10_0000);
    crate::vec3::lemma_product_within(2 * dn, n.1 as int, m, 0x10_0000);
    crate::vec3::lemma_product_within(2 * dn, n.2 as int, m, 0x10_0000);
}

/// The triangles of the fan over `points`: triangle `i` is
/// `(points[0], points[i + 1], points[i + 2])`. A fan needs at least three
/// points.
pub fn build_geometry_from_triangle_fan(points: Vec<Vec3>) -> (r: Vec<Triangle<Vec3>>)
    requires
        points@.len() >= 3,
    ensures
        r@.len() == points@.len() - 2,
        forall|i: int|
            0 <= i < r@.len() ==> #[trigger] r@[i] == Triangle(
                points@[0],
                points@[i + 1],
                points@[i + 2],
            ),
{
    let origin: Vec3 = points[0];
    let mut prev: Vec3 = points[1];
    let mut out: Vec<Triangle<Vec3>> = Vec::new();
    let mut j: usize = 2;
    while j < points.len()
        invariant
            2 <= j <= points@.len(),
            origin == points@[0],
            prev == points@[j - 1],
            out@.len() == j - 2,
            forall|i: int|
                0 <= i < out@.len() ==> #[trigger] out@[i] == Triangle(
                    points@[0],
                    points@[i + 1],
                    points@[i + 2],
                ),
        decreases points.len() - j,
    {
        let point: Vec3 = points[j];
        out.push(Triangle(origin, prev, point));
        prev = point;
        j = j + 1;
    }
    out
}

/// The scene: reflective and receiving objects, and emitters. `sounds` holds
/// sounds added by hand; a simulation emits its own.
pub struct Scene {
    pub objects: Vec<Object>,
    pub emitters: Vec<Emitter>,
    pub sounds: Vec<Sound>,
}

/// The direction of a freshly emitted sound drawn as `d`: `d` rescaled to the
/// speed of sound.
pub open spec fn launch_direction(d: Vec3) -> Vec3 {
    d.unit_spec().scaled(SPEED_OF_SOUND as int)
}

/// The sound emitted by `e` in the direction drawn as `d`.
pub open spec fn emitted_sound(e: Emitter, d: Vec3) -> Sound {
    Sound {
        ray: Ray { origin: e.origin, direction: launch_direction(d), t_offset: 0 },
        intensity: FULL_INTENSITY,
    }
}

/// The number of sounds that the emitters emit together.
pub open spec fn total_sounds(emitters: Seq<Emitter>) -> nat
    decreases emitters.len(),
{
    if emitters.len() == 0 {
        0
    } else {
        total_sounds(emitters.drop_last()) + emitters.last().sounds_per_tick as nat
    }
}

/// The initial population: emitter by emitter, `sounds_per_tick` sounds each,
/// taking the drawn directions `dirs` in order.
pub open spec fn emission(emitters: Seq<Emitter>, dirs: Seq<Vec3>) -> Seq<Sound>
    decreases emitters.len(),
{
    if emitters.len() == 0 {
        seq![]
    } else {
        let before = total_sounds(emitters.drop_last());
        let e = emitters.last();
        emission(emitters.drop_last(), dirs) + Seq::new(
            e.sounds_per_tick as nat,
            |k: int| emitted_sound(e, dirs[before + k]),
        )
    }
}

/// One synchronous round over a population: the captures it records and the
/// sounds that go on, both in population order.
pub open spec fn round(objects: Seq<Object>, pop: Seq<Sound>) -> (Seq<(Hit, u64)>, Seq<Sound>)
    decreases pop.len(),
{
    if pop.len() == 0 {
        (seq![], seq![])
    } else {
        let (caps, next) = round(objects, pop.drop_last());
        match advance(pop.last(), objects) {
            Fate::Alive(s) => (caps, next.push(s)),
            Fate::Captured(hit, intensity) => (caps.push((hit, intensity)), next),
            Fate::Decayed => (caps, next),
        }
    }
}

/// `rounds` rounds (fewer once the population is empty): the captures
/// recorded, in order, and the population left.
pub open spec fn run(objects: Seq<Object>, pop: Seq<Sound>, rounds: nat) -> (
    Seq<(Hit, u64)>,
    Seq<Sound>,
)
    decreases rounds,
{
    if rounds == 0 || pop.len() == 0 {
        (seq![], pop)
    } else {
        let (caps, next) = round(objects, pop);
        let (later, rest) = run(objects, next, (rounds - 1) as nat);
        (caps + later, rest)
    }
}

/// Every sound of the population is well formed.
pub open spec fn population_well_formed(pop: Seq<Sound>) -> bool {
    forall|i: int| 0 <= i < pop.len() ==> (#[trigger] pop[i]).well_formed()
}

/// Time left to each sound before its time offset leaves the representable
/// range, summed over the population; every round lowers it.
pub open spec fn pending(pop: Seq<Sound>) -> int
    decreases pop.len(),
{
    if pop.len() == 0 {
        0
    } else {
        pending(pop.drop_last()) + (MAX_TIME - pop.last().ray.t_offset + 1)
    }
}

impl Scene {
    /// The objects are well formed and the emitters lie within the coordinate
    /// range.
    pub open spec fn well_formed(&self) -> bool {
        &&& objects_well_formed(self.objects@)
        &&& forall|i: int|
            0 <= i < self.emitters@.len() ==> (#[trigger] self.emitters@[i]).origin.within(
                MAX_COORD as int,
            )
    }

    pub fn new() -> (r: Scene)
        ensures
            r.objects@ == Seq::<Object>::empty(),
            r.emitters@ == Seq::<Emitter>::empty(),
            r.sounds@ == Seq::<Sound>::empty(),
    {
        Scene { objects: Vec::new(), emitters: Vec::new(), sounds: Vec::new() }
    }

    /// The scene with `emitter` added.
    pub fn emitter(self, emitter: Emitter) -> (r: Scene)
        ensures
            r.emitters@ == self.emitters@.push(emitter),
            r.objects@ == self.objects@,
            r.sounds@ == self.sounds@,
    {
        let mut scene = self;
        scene.emitters.push(emitter);
        scene
    }

    /// The scene with `object` added.
    pub fn object(self, object: Object) -> (r: Scene)
        ensures
            r.objects@ == self.objects@.push(object),
            r.emitters@ == self.emitters@,
            r.sounds@ == self.sounds@,
    {
        let mut scene = self;
        scene.objects.push(object);
        scene
    }

    /// Adds `sound` to a scene that is consumed.
    pub fn sound(self, sound: Sound) {
        let mut scene = self;
        scene.sounds.push(sound);
    }

    pub fn emitters(&self) -> (r: &Vec<Emitter>)
        ensures
            r@ == self.emitters@,
    {
        &self.emitters
    }

    pub fn sounds(&self) -> (r: &Vec<Sound>)
        ensures
            r@ == self.sounds@,
    {
        &self.sounds
    }
}

impl Scene {
    /// The initial population: emitter by emitter, `sounds_per_tick` sounds
    /// each, from the emitter's origin in the drawn directions `directions`
    /// (taken in order and rescaled to the speed of sound), at full intensity.
    pub fn emit(&self, directions: &Vec<Vec3>) -> (r: Vec<Sound>)
        requires
            self.well_formed(),
            directions@.len() == total_sounds(self.emitters@),
            forall|i: int| 0 <= i < directions@.len() ==> !(#[trigger] directions@[i]).is_zero(),
        ensures
            r@ == emission(self.emitters@, directions@),
            population_well_formed(r@),
    {
        let n_dirs: usize = directions.len();
        let mut out: Vec<Sound> = Vec::new();
        let mut next: usize = 0;
        let mut i: usize = 0;
        while i < self.emitters.len()
            invariant
                self.well_formed(),
                directions@.len() == total_sounds(self.emitters@),
                forall|j: int| 0 <= j < directions@.len() ==> !(#[trigger] directions@[j]).is_zero(),
                i <= self.emitters@.len(),
                n_dirs == directions@.len(),
                next == total_sounds(self.emitters@.take(i as int)),
                out@ == emission(self.emitters@.take(i as int), directions@),
                population_well_formed(out@),
            decreases self.emitters.len() - i,
        {
            let e: Emitter = self.emitters[i];
            proof {
                lemma_total_prefix(self.emitters@, i as int);
                assert(self.emitters@.take(i + 1).drop_last() =~= self.emitters@.take(i as int));
                assert(self.emitters@.take(i + 1).last() == e);
            }
            let ghost start = out@;
            let mut k: usize = 0;
            while k < e.sounds_per_tick
                invariant
                    self.well_formed(),
                    e.origin.within(MAX_COORD as int),
                    forall|j: int| 0 <= j < directions@.len() ==> !(#[trigger] directions@[j]).is_zero(),
                    k <= e.sounds_per_tick,
                    n_dirs == directions@.len(),
                    next + e.sounds_per_tick <= directions@.len(),
                    population_well_formed(start),
                    out@ == start + Seq::new(
                        k as nat,
                        |j: int| emitted_sound(e, directions@[next + j]),
                    ),
                    population_well_formed(out@),
                decreases e.sounds_per_tick - k,
            {
                let d: Vec3 = directions[next + k];
                let direction: Vec3 = Vec3::from_components_with_mag((d.0, d.1, d.2), SPEED_OF_SOUND);
                let sound = Sound {
                    ray: Ray { origin: e.origin, direction, t_offset: 0 },
                    intensity: FULL_INTENSITY,
                };
                let ghost before = out@;
                out.push(sound);
                k = k + 1;
                proof {
                    assert(out@ =~= start + Seq::new(
                        k as nat,
                        |j: int| emitted_sound(e, directions@[next + j]),
                    ));
                    assert forall|j: int| 0 <= j < out@.len() implies (#[trigger] out@[j]).well_formed() by {
                        if j < before.len() {
                            assert(out@[j] == before[j]);
                        }
                    }
                }
            }
            next = next + e.sounds_per_tick;
            i = i + 1;
        }
        assert(self.emitters@.take(i as int) =~= self.emitters@);
        out
    }

    /// Runs the simulation: emits the initial population (see `emit`), then
    /// advances every live sound by one interaction per round until none is
    /// left. Returns every capture, round by round and, within a round, in
    /// population order. The loop always ends: every surviving sound starts
    /// strictly later than before, and a sound whose time leaves the
    /// representable range is dropped.
    pub fn simulate(&mut self, directions: &Vec<Vec3>) -> (r: Vec<(Hit, u64)>)
        requires
            old(self).well_formed(),
            directions@.len() == total_sounds(old(self).emitters@),
            forall|i: int| 0 <= i < directions@.len() ==> !(#[trigger] directions@[i]).is_zero(),
        ensures
            *final(self) == *old(self),
            exists|n: nat|
                run(old(self).objects@, emission(old(self).emitters@, directions@), n) == (
                    r@,
                    Seq::<Sound>::empty(),
                ),
    {
        let mut sounds: Vec<Sound> = self.emit(directions);
        let ghost init = sounds@;
        let ghost mut k: nat = 0;
        let mut captures: Vec<(Hit, u64)> = Vec::new();
        proof {
            lemma_pending_nonnegative(sounds@);
        }
        while sounds.len() > 0
            invariant
                objects_well_formed(self.objects@),
                population_well_formed(sounds@),
                run(self.objects@, init, k) == (captures@, sounds@),
            decreases pending(sounds@),
        {
            proof {
                lemma_run_extend(self.objects@, init, k);
                lemma_round(self.objects@, sounds@);
                lemma_pending_nonnegative(round(self.objects@, sounds@).1);
            }
            let next = run_round(&sounds, &self.objects, &mut captures);
            sounds = next;
            proof {
                k = k + 1;
            }
        }
        assert(sounds@ =~= Seq::<Sound>::empty());
        captures
    }
}

/// One round over the population `sounds`: records the captures in
/// `captures` and returns the sounds that go on.
fn run_round(sounds: &Vec<Sound>, objects: &Vec<Object>, captures: &mut Vec<(Hit, u64)>) -> (next: Vec<
    Sound,
>)
    requires
        objects_well_formed(objects@),
        population_well_formed(sounds@),
    ensures
        final(captures)@ == old(captures)@ + round(objects@, sounds@).0,
        next@ == round(objects@, sounds@).1,
{
    let ghost start = captures@;
    let mut next: Vec<Sound> = Vec::new();
    let mut i: usize = 0;
    while i < sounds.len()
        invariant
            objects_well_formed(objects@),
            population_well_formed(sounds@),
            i <= sounds@.len(),
            captures@ == start + round(objects@, sounds@.take(i as int)).0,
            next@ == round(objects@, sounds@.take(i as int)).1,
        decreases sounds.len() - i,
    {
        assert(sounds@.take(i + 1).drop_last() =~= sounds@.take(i as int));
        assert(sounds@[i as int].well_formed());
        match advance_sound(&sounds[i], objects) {
            Fate::Alive(s) => {
                next.push(s);
            },
            Fate::Captured(hit, intensity) => {
                captures.push((hit, intensity));
            },
            Fate::Decayed => {},
        }
        i = i + 1;
        assert(captures@ =~= start + round(objects@, sounds@.take(i as int)).0);
    }
    assert(sounds@.take(i as int) =~= sounds@);
    next
}

impl Default for Scene {
    fn default() -> (r: Scene)
        ensures
            r.objects@ == Seq::<Object>::empty(),
            r.emitters@ == Seq::<Emitter>::empty(),
            r.sounds@ == Seq::<Sound>::empty(),
    {
        Scene { objects: Vec::new(), emitters: Vec::new(), sounds: Vec::new() }
    }
}

/// One round for one sound: find its earliest candidate interaction and apply
/// it.
pub fn advance_sound(sound: &Sound, objects: &Vec<Object>) -> (r: Fate)
    requires
        sound.well_formed(),
        objects_well_formed(objects@),
    ensures
        r == advance(*sound, objects@),
{
    let c = find_candidates(sound, objects);
    let chosen = select_earliest(&c);
    match chosen {
        None => Fate::Decayed,
        Some(Interaction::ObjectHit { hit, reflectance }) => {
            proof {
                lemma_chosen_candidate(*sound, objects@);
            }
            let (x, y, z) = reflect(sound.ray.direction, hit.unit_normal);
            proof {
                assert(sound.intensity * reflectance <= u128::MAX) by (nonlinear_arith)
                    requires
                        sound.intensity <= u64::MAX,
                        reflectance <= u64::MAX,
                ;
            }
            let intensity: u128 = sound.intensity as u128 * reflectance as u128
                / FULL_INTENSITY as u128;
            proof {
                lemma_decay_bounds(sound.intensity as int, reflectance as int);
            }
            let c: i128 = MAX_COORD as i128;
            if intensity < AUDIBILITY_THRESHOLD as u128 || !(-c <= x && x <= c && -c <= y && y <= c
                && -c <= z && z <= c) || !within_coord(hit.point) || !(-MAX_TIME <= hit.time
                && hit.time <= MAX_TIME) {
                Fate::Decayed
            } else {
                Fate::Alive(
                    Sound {
                        ray: Ray {
                            origin: hit.point,
                            direction: Vec3(x as i64, y as i64, z as i64),
                            t_offset: hit.time,
                        },
                        intensity: intensity as u64,
                    },
                )
            }
        },
        Some(Interaction::ReceiverHit { hit, intensity }) => Fate::Captured(hit, intensity),
    }
}

fn within_coord(p: Vec3) -> (r: bool)
    ensures
        r == p.within(MAX_COORD as int),
{
    -MAX_COORD <= p.0 && p.0 <= MAX_COORD && -MAX_COORD <= p.1 && p.1 <= MAX_COORD && -MAX_COORD
        <= p.2 && p.2 <= MAX_COORD
}

/// Decay keeps the intensity non-negative and never raises it; with a
/// reflectance below `FULL_INTENSITY` it strictly lowers a positive intensity.
pub proof fn lemma_decay_bounds(intensity: int, r: int)
    requires
        0 <= intensity,
        0 <= r <= FULL_INTENSITY,
    ensures
        0 <= decayed(intensity, r) <= intensity,
        r < FULL_INTENSITY && intensity > 0 ==> decayed(intensity, r) < intensity,
{
    let f = FULL_INTENSITY as int;
    assert(0 <= intensity * r <= intensity * f) by (nonlinear_arith)
        requires
            0 <= intensity,
            0 <= r <= f,
    ;
    assert((intensity * f) / f == intensity) by (nonlinear_arith)
        requires
            f > 0,
    ;
    vstd::arithmetic::div_mod::lemma_div_is_ordered(intensity * r, intensity * f, f);
    vstd::arithmetic::div_mod::lemma_div_pos_is_pos(intensity * r, f);
    if r < f && intensity > 0 {
        assert(intensity * r < intensity * f) by (nonlinear_arith)
            requires
                intensity > 0,
                r < f,
        ;
        let q = (intensity * r) / f;
        vstd::arithmetic::div_mod::lemma_fundamental_div_mod(intensity * r, f);
        assert(q < intensity) by (nonlinear_arith)
            requires
                intensity * r == f * q + (intensity * r) % f,
                0 <= (intensity * r) % f,
                intensity * r < intensity * f,
                f > 0,
        ;
    }
}

/// The earliest interaction of a sequence is one of its elements, and no
/// element is earlier.
pub proof fn lemma_earliest(c: Seq<Interaction>)
    ensures
        earliest(c) is None <==> c.len() == 0,
        earliest(c) is Some ==> c.contains(earliest(c)->0),
        earliest(c) is Some ==> forall|i: int|
            0 <= i < c.len() ==> earliest(c)->0.hit_spec().time <= (#[trigger] c[i]).hit_spec().time,
    decreases c.len(),
{
    if c.len() > 0 {
        let p = c.drop_last();
        lemma_earliest(p);
        assert(c =~= p.push(c.last()));
        if earliest(p) is Some {
            let e = earliest(p)->0;
            let j = choose|j: int| 0 <= j < p.len() && p[j] == e;
            assert(c[j] == e);
        }
        assert(c[c.len() - 1] == c.last());
        assert forall|i: int| 0 <= i < c.len() implies earliest(c)->0.hit_spec().time <= (
        #[trigger] c[i]).hit_spec().time by {
            if i < c.len() - 1 {
                assert(c[i] == p[i]);
            }
        }
    }
}

/// Every interaction kept by `later_than` is one of the input's and is
/// strictly later than `t0`.
pub proof fn lemma_later_than(c: Seq<Interaction>, t0: i64)
    ensures
        forall|x: Interaction| #[trigger]
            later_than(c, t0).contains(x) ==> c.contains(x) && x.hit_spec().time > t0,
    decreases c.len(),
{
    if c.len() > 0 {
        let p = c.drop_last();
        lemma_later_than(p, t0);
        assert forall|x: Interaction| #[trigger]
            later_than(c, t0).contains(x) implies c.contains(x) && x.hit_spec().time > t0 by {
            let l = later_than(c, t0);
            let i = choose|i: int| 0 <= i < l.len() && l[i] == x;
            if l.len() > later_than(p, t0).len() && i == l.len() - 1 {
                assert(x == c.last());
                assert(c[c.len() - 1] == x);
            } else {
                assert(later_than(p, t0)[i] == x);
                assert(later_than(p, t0).contains(x));
                let j = choose|j: int| 0 <= j < p.len() && p[j] == x;
                assert(c[j] == x);
            }
        }
    }
}

/// A reflection candidate carries a usable normal and a reflectance of at most
/// `FULL_INTENSITY`.
pub open spec fn sound_reflection(x: Interaction) -> bool {
    match x {
        Interaction::ObjectHit { hit, reflectance } => {
            &&& hit.unit_normal.within(SCALE as int)
            &&& !hit.unit_normal.is_zero()
            &&& reflectance <= FULL_INTENSITY
        },
        Interaction::ReceiverHit { .. } => true,
    }
}

proof fn lemma_triangle_interactions(ray: Ray, tris: Seq<Triangle<Vec3>>, reflectance: u64)
    requires
        ray.well_formed(),
        reflectance <= FULL_INTENSITY,
        forall|i: int| 0 <= i < tris.len() ==> (#[trigger] tris[i]).well_formed(),
    ensures
        forall|i: int|
            0 <= i < triangle_interactions(ray, tris, reflectance).len() ==> sound_reflection(
                #[trigger] triangle_interactions(ray, tris, reflectance)[i],
            ),
    decreases tris.len(),
{
    if tris.len() > 0 {
        let p = tris.drop_last();
        assert forall|i: int| 0 <= i < p.len() implies (#[trigger] p[i]).well_formed() by {
            assert(p[i] == tris[i]);
        }
        lemma_triangle_interactions(ray, p, reflectance);
        let tri = tris.last();
        assert(tris[tris.len() - 1] == tri);
        let rest = triangle_interactions(ray, p, reflectance);
        let all = triangle_interactions(ray, tris, reflectance);
        if ray.triangle_hit(tri) is Some {
            crate::ray::lemma_triangle_normal_nonzero(ray, tri);
            let ab = tri.1.minus(tri.0);
            let ac = tri.2.minus(tri.0);
            crate::vec3::lemma_unit_spec(ac.spec_cross(&ab));
            let x = Interaction::ObjectHit { hit: ray.triangle_hit(tri)->0, reflectance };
            assert(all == rest.push(x));
            assert(sound_reflection(x));
            assert forall|i: int| 0 <= i < all.len() implies sound_reflection(#[trigger] all[i]) by {
                if i < rest.len() {
                    assert(all[i] == rest[i]);
                } else {
                    assert(all[i] == x);
                }
            }
        } else {
            assert(all == rest);
        }
    }
}

proof fn lemma_all_interactions(sound: Sound, objects: Seq<Object>)
    requires
        sound.well_formed(),
        objects_well_formed(objects),
    ensures
        forall|i: int|
            0 <= i < all_interactions(sound, objects).len() ==> sound_reflection(
                #[trigger] all_interactions(sound, objects)[i],
            ),
    decreases objects.len(),
{
    if objects.len() > 0 {
        let p = objects.drop_last();
        assert forall|i: int| 0 <= i < p.len() implies (#[trigger] p[i]).well_formed() by {
            assert(p[i] == objects[i]);
        }
        lemma_all_interactions(sound, p);
        let o = objects.last();
        assert(objects[objects.len() - 1] == o);
        let a = all_interactions(sound, p);
        let b = object_interactions(sound, o);
        match o {
            Object::Reflector { geometry, reflectance } => {
                lemma_triangle_interactions(sound.ray, geometry@, reflectance);
            },
            Object::Receiver { geometry } => {},
        }
        assert forall|i: int| 0 <= i < (a + b).len() implies sound_reflection(
            #[trigger] (a + b)[i],
        ) by {
            if i >= a.len() {
                assert((a + b)[i] == b[i - a.len()]);
            }
        }
    }
}

/// The candidate chosen for a sound is later than the start of its ray
/// segment, and if it is a reflection, its normal is usable.
pub proof fn lemma_chosen_candidate(sound: Sound, objects: Seq<Object>)
    requires
        sound.well_formed(),
        objects_well_formed(objects),
        earliest(candidates(sound, objects)) is Some,
    ensures
        earliest(candidates(sound, objects))->0.hit_spec().time > sound.ray.t_offset,
        sound_reflection(earliest(candidates(sound, objects))->0),
{
    let all = all_interactions(sound, objects);
    let c = candidates(sound, objects);
    lemma_earliest(c);
    lemma_later_than(all, sound.ray.t_offset);
    lemma_all_interactions(sound, objects);
    let e = earliest(c)->0;
    assert(all.contains(e));
}

/// A sound that goes on after a round is well formed and starts strictly
/// later than before.
pub proof fn lemma_advance_alive(sound: Sound, objects: Seq<Object>)
    requires
        sound.well_formed(),
        objects_well_formed(objects),
    ensures
        advance(sound, objects) is Alive ==> {
            let next = advance(sound, objects)->Alive_0;
            next.well_formed() && next.ray.t_offset > sound.ray.t_offset
        },
{
    if earliest(candidates(sound, objects)) is Some {
        lemma_chosen_candidate(sound, objects);
    }
}

/// A round keeps the population well formed and lowers `pending` by at least
/// the size of the population.
pub proof fn lemma_round(objects: Seq<Object>, pop: Seq<Sound>)
    requires
        objects_well_formed(objects),
        population_well_formed(pop),
    ensures
        population_well_formed(round(objects, pop).1),
        pending(round(objects, pop).1) + pop.len() <= pending(pop),
        round(objects, pop).1.len() <= pop.len(),
    decreases pop.len(),
{
    if pop.len() > 0 {
        let p = pop.drop_last();
        assert forall|i: int| 0 <= i < p.len() implies (#[trigger] p[i]).well_formed() by {
            assert(p[i] == pop[i]);
        }
        lemma_round(objects, p);
        let last = pop.last();
        assert(pop[pop.len() - 1] == last);
        lemma_advance_alive(last, objects);
        let next = round(objects, p).1;
        match advance(last, objects) {
            Fate::Alive(s) => {
                let n2 = next.push(s);
                assert(n2.drop_last() =~= next);
                assert forall|i: int| 0 <= i < n2.len() implies (#[trigger] n2[i]).well_formed() by {
                    if i < next.len() {
                        assert(n2[i] == next[i]);
                    }
                }
            },
            _ => {},
        }
    }
}

/// `pending` is non-negative on a well-formed population.
pub proof fn lemma_pending_nonnegative(pop: Seq<Sound>)
    requires
        population_well_formed(pop),
    ensures
        pending(pop) >= 0,
    decreases pop.len(),
{
    if pop.len() > 0 {
        let p = pop.drop_last();
        assert forall|i: int| 0 <= i < p.len() implies (#[trigger] p[i]).well_formed() by {
            assert(p[i] == pop[i]);
        }
        lemma_pending_nonnegative(p);
        assert(pop[pop.len() - 1] == pop.last());
    }
}

/// One more round extends a run: its captures follow those recorded so far.
pub proof fn lemma_run_extend(objects: Seq<Object>, pop: Seq<Sound>, k: nat)
    requires
        run(objects, pop, k).1.len() > 0,
    ensures
        run(objects, pop, k + 1) == (
            run(objects, pop, k).0 + round(objects, run(objects, pop, k).1).0,
            round(objects, run(objects, pop, k).1).1,
        ),
    decreases k,
{
    if k == 0 {
        let (caps, next) = round(objects, pop);
        assert(run(objects, next, 0) == (Seq::<(Hit, u64)>::empty(), next));
        assert(caps + Seq::<(Hit, u64)>::empty() =~= caps);
        assert(Seq::<(Hit, u64)>::empty() + caps =~= caps);
    } else {
        let (caps, next) = round(objects, pop);
        lemma_run_extend(objects, next, (k - 1) as nat);
        let (later, rest) = run(objects, next, (k - 1) as nat);
        assert((caps + later) + round(objects, rest).0 =~= caps + (later + round(objects, rest).0));
        assert((k + 1 - 1) as nat == k);
    }
}

/// Prefix sums of `total_sounds` grow with the prefix.
pub proof fn lemma_total_prefix(emitters: Seq<Emitter>, i: int)
    requires
        0 <= i < emitters.len(),
    ensures
        total_sounds(emitters.take(i)) + emitters[i].sounds_per_tick == total_sounds(
            emitters.take(i + 1),
        ),
        total_sounds(emitters.take(i + 1)) <= total_sounds(emitters),
    decreases emitters.len(),
{
    assert(emitters.take(i + 1).drop_last() =~= emitters.take(i));
    if i + 1 < emitters.len() {
        let p = emitters.drop_last();
        lemma_total_prefix(p, i);
        assert(p.take(i + 1) =~= emitters.take(i + 1));
    } else {
        assert(emitters.take(i + 1) =~= emitters);
    }
}

} // verus!
