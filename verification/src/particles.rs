//! Particles, emitters and the particle system.

use vstd::prelude::*;
use rand::Rng;
use vstd::arithmetic::power::pow;
use crate::fixed::{
    abs, clamp_i32, cos_milli, cos_spec, fx_add, fx_mul, fx_sub, lemma_mul_unit, lemma_quot_bounds,
    lemma_waves_unit, mul_spec, quot, sin_milli, sin_spec,
};
use crate::physics::{Force, Vec2};

verus! {

/// The share of its velocity that a particle keeps over one step, in
/// thousandths.
pub const DRAG: i32 = 990;

/// One particle: thirteen 32-bit words, the last two of them filler. The
/// struct declares no layout of its own; whoever uploads particles as raw
/// instance data copies them into a record that does.
#[derive(Copy, Clone, Debug)]
pub struct Particle {
    pub position: [i32; 2],
    pub velocity: [i32; 2],
    /// Milliseconds left to live.
    pub life: i32,
    pub size: i32,
    /// Red, green, blue, alpha, each in thousandths.
    pub color: [i32; 4],
    pub mass: i32,
    pub padding: [i32; 2],
}

/// The sum, taken from the left, of what each force does to a body of mass
/// `mass` at `position`.
pub open spec fn acceleration_spec(forces: Seq<Force>, position: Vec2, mass: int) -> Vec2
    decreases forces.len(),
{
    if forces.len() == 0 {
        Vec2::zero_spec()
    } else {
        acceleration_spec(forces.drop_last(), position, mass).add_spec(
            forces.last().calculate_at_spec(position).div_spec(mass),
        )
    }
}

impl Particle {
    pub open spec fn pos_spec(self) -> Vec2 {
        Vec2 { x: self.position[0], y: self.position[1] }
    }

    pub open spec fn vel_spec(self) -> Vec2 {
        Vec2 { x: self.velocity[0], y: self.velocity[1] }
    }

    pub open spec fn is_alive_spec(self) -> bool {
        self.life > 0
    }

    pub open spec fn new_spec(
        position: Vec2,
        velocity: Vec2,
        life: i32,
        size: i32,
        color: [i32; 4],
    ) -> Particle {
        Particle {
            position: [position.x, position.y],
            velocity: [velocity.x, velocity.y],
            life,
            size,
            color,
            mass: 1000,
            padding: [0, 0],
        }
    }

    /// The velocity after one step of `dt` milliseconds, before drag.
    pub open spec fn pushed_spec(self, dt: int, forces: Seq<Force>) -> Vec2 {
        self.vel_spec().add_spec(
            acceleration_spec(forces, self.pos_spec(), self.mass as int).scale_spec(dt),
        )
    }

    /// The particle one step of `dt` milliseconds later: the forces change
    /// the velocity, the new velocity moves the particle, drag then takes
    /// its share of the velocity, and the particle ages by `dt`.
    pub open spec fn step_spec(self, dt: int, forces: Seq<Force>) -> Particle {
        let pushed = self.pushed_spec(dt, forces);
        let moved = self.pos_spec().add_spec(pushed.scale_spec(dt));
        let dragged = pushed.scale_spec(DRAG as int);
        Particle {
            position: [moved.x, moved.y],
            velocity: [dragged.x, dragged.y],
            life: clamp_i32(self.life - dt) as i32,
            ..self
        }
    }

    /// A particle of unit mass.
    pub fn new(position: Vec2, velocity: Vec2, life: i32, size: i32, color: [i32; 4]) -> (r: Particle)
        ensures
            r == Particle::new_spec(position, velocity, life, size, color),
    {
        Particle {
            position: [position.x, position.y],
            velocity: [velocity.x, velocity.y],
            life,
            size,
            color,
            mass: 1000,
            padding: [0, 0],
        }
    }

    /// Advances the particle by `dt` milliseconds under `forces`.
    pub fn update(&mut self, dt: i32, forces: &[Force])
        ensures
            *final(self) == old(self).step_spec(dt as int, forces@),
    {
        let pos = self.pos();
        let mut acceleration = Vec2::zero();
        let mut i: usize = 0;
        while i < forces.len()
            invariant
                i <= forces.len(),
                pos == self.pos_spec(),
                *self == *old(self),
                acceleration == acceleration_spec(forces@.take(i as int), pos, self.mass as int),
            decreases forces.len() - i,
        {
            proof {
                assert(forces@.take(i + 1).drop_last() == forces@.take(i as int));
            }
            acceleration = acceleration.add(forces[i].calculate_at(pos).div(self.mass));
            i += 1;
        }
        proof {
            assert(forces@.take(i as int) == forces@);
        }
        let pushed = self.vel().add(acceleration.scale(dt));
        let moved = pos.add(pushed.scale(dt));
        let dragged = pushed.scale(DRAG);
        self.position = [moved.x, moved.y];
        self.velocity = [dragged.x, dragged.y];
        self.life = fx_sub(self.life, dt);
    }

    /// Whether the particle has life left.
    pub fn is_alive(&self) -> (r: bool)
        ensures
            r == self.is_alive_spec(),
    {
        self.life > 0
    }

    pub fn pos(&self) -> (r: Vec2)
        ensures
            r == self.pos_spec(),
    {
        Vec2 { x: self.position[0], y: self.position[1] }
    }

    pub fn vel(&self) -> (r: Vec2)
        ensures
            r == self.vel_spec(),
    {
        Vec2 { x: self.velocity[0], y: self.velocity[1] }
    }
}

/// Settings of a particle system.
#[derive(Clone, Copy, Debug)]
pub struct ParticleConfig {
    /// The most particles the system holds.
    pub max_particles: usize,
    pub spawn_rate: i32,
    pub particle_lifetime: i32,
    pub particle_size: i32,
    pub gravity: Vec2,
    /// Kept with the settings; a step always applies `DRAG`.
    pub drag_coefficient: i32,
}

impl ParticleConfig {
    pub open spec fn default_spec() -> ParticleConfig {
        ParticleConfig {
            max_particles: 10000,
            spawn_rate: 500_000,
            particle_lifetime: 5000,
            particle_size: 3000,
            gravity: Vec2 { x: 0, y: 100_000 },
            drag_coefficient: 990,
        }
    }
}

impl Default for ParticleConfig {
    fn default() -> (r: ParticleConfig)
        ensures
            r == ParticleConfig::default_spec(),
    {
        ParticleConfig {
            max_particles: 10000,
            spawn_rate: 500_000,
            particle_lifetime: 5000,
            particle_size: 3000,
            gravity: Vec2 { x: 0, y: 100_000 },
            drag_coefficient: 990,
        }
    }
}

/// Draws an integer between `low` and `high`, both included, from the
/// thread's random generator: `rand::thread_rng().gen_range(low..=high)`.
/// Nothing is said of the value but that it lies in the range; an empty
/// range, on which the generator panics, is left out.
#[verifier::external_body]
fn random_between(low: i32, high: i32) -> (r: i32)
    requires
        low <= high,
    ensures
        low <= r <= high,
{
    rand::thread_rng().gen_range(low..=high)
}

/// A source of particles. It turns a rate in particles per second into
/// whole particles per frame, carrying the fraction from frame to frame.
#[derive(Clone, Copy, Debug)]
pub struct Emitter {
    pub position: Vec2,
    /// Particles per second, in thousandths.
    pub rate: i32,
    /// Half the opening angle, in milliradians.
    pub spread: i32,
    /// Speed of a new particle.
    pub initial_velocity: i32,
    pub particle_lifetime: i32,
    pub particle_size: i32,
    pub enabled: bool,
    /// Thousandths of a particle carried over from earlier frames.
    pub accumulator: i32,
}

impl Emitter {
    /// What is due after `dt` more milliseconds, in thousandths of a particle.
    pub open spec fn due_spec(self, dt: int) -> int {
        clamp_i32(self.accumulator + mul_spec(dt, self.rate as int))
    }

    /// The number of particles that a frame of `dt` milliseconds emits.
    pub open spec fn count_spec(self, dt: int) -> int {
        if self.enabled && self.due_spec(dt) > 0 {
            self.due_spec(dt) / 1000
        } else {
            0
        }
    }

    /// What the emitter carries over after a frame of `dt` milliseconds.
    pub open spec fn pending_after_spec(self, dt: int) -> int {
        if self.enabled {
            self.due_spec(dt) - 1000 * self.count_spec(dt)
        } else {
            self.accumulator as int
        }
    }

    /// The emitter after a frame of `dt` milliseconds.
    pub open spec fn after_emit_spec(self, dt: int) -> Emitter {
        Emitter { accumulator: self.pending_after_spec(dt) as i32, ..self }
    }

    pub open spec fn new_spec(position: Vec2) -> Emitter {
        Emitter {
            position,
            rate: 100_000,
            spread: 785,
            initial_velocity: 50_000,
            particle_lifetime: 5000,
            particle_size: 3000,
            enabled: true,
            accumulator: 0,
        }
    }

    /// The widest angle off the axis at which a particle leaves.
    pub open spec fn half_spread_spec(self) -> int {
        clamp_i32(abs(self.spread as int))
    }

    /// The particle that leaves at `angle` with the given colour.
    pub open spec fn spawn_spec(self, angle: int, red: int, green: int, blue: int) -> Particle {
        Particle::new_spec(
            self.position,
            Vec2 {
                x: mul_spec(cos_spec(angle), self.initial_velocity as int) as i32,
                y: mul_spec(sin_spec(angle), self.initial_velocity as int) as i32,
            },
            self.particle_lifetime,
            self.particle_size,
            [red as i32, green as i32, blue as i32, 1000],
        )
    }

    /// `p` is a particle that this emitter can emit: it sits at the
    /// emitter, leaves at an angle inside the spread at the emitter's speed,
    /// and has a pale colour leaning to blue.
    pub open spec fn may_spawn(self, p: Particle) -> bool {
        exists|angle: int, red: int, green: int, blue: int|
            {
                &&& -self.half_spread_spec() <= angle <= self.half_spread_spec()
                &&& 500 <= red <= 1000
                &&& 500 <= green <= 1000
                &&& 800 <= blue <= 1000
                &&& p == #[trigger] self.spawn_spec(angle, red, green, blue)
            }
    }

    /// An enabled emitter at `position` with nothing carried over.
    pub fn new(position: Vec2) -> (r: Emitter)
        ensures
            r == Emitter::new_spec(position),
    {
        Emitter {
            position,
            rate: 100_000,
            spread: 785,
            initial_velocity: 50_000,
            particle_lifetime: 5000,
            particle_size: 3000,
            enabled: true,
            accumulator: 0,
        }
    }

    /// Builds the particle that leaves at `angle` with the given colour.
    pub fn spawn(&self, angle: i32, red: i32, green: i32, blue: i32) -> (r: Particle)
        ensures
            r == self.spawn_spec(angle as int, red as int, green as int, blue as int),
    {
        let velocity = Vec2::new(
            fx_mul(cos_milli(angle), self.initial_velocity),
            fx_mul(sin_milli(angle), self.initial_velocity),
        );
        Particle::new(
            self.position,
            velocity,
            self.particle_lifetime,
            self.particle_size,
            [red, green, blue, 1000],
        )
    }

    /// Books a frame of `dt` milliseconds and returns the number of
    /// particles that it emits.
    pub fn take_due(&mut self, dt: i32) -> (count: usize)
        ensures
            count == old(self).count_spec(dt as int),
            *final(self) == old(self).after_emit_spec(dt as int),
    {
        if !self.enabled {
            return 0;
        }
        let due = fx_add(self.accumulator, fx_mul(dt, self.rate));
        if due <= 0 {
            self.accumulator = due;
            return 0;
        }
        let count = due / 1000;
        self.accumulator = due - count * 1000;
        count as usize
    }

    /// Emits the particles of a frame of `dt` milliseconds. How many there
    /// are follows from the rate; angle and colour of each are drawn at
    /// random.
    pub fn emit(&mut self, dt: i32) -> (particles: Vec<Particle>)
        ensures
            particles@.len() == old(self).count_spec(dt as int),
            forall|i: int|
                0 <= i < particles@.len() ==> old(self).may_spawn(#[trigger] particles@[i]),
            *final(self) == old(self).after_emit_spec(dt as int),
    {
        let count = self.take_due(dt);
        let half: i32 = if self.spread == i32::MIN {
            i32::MAX
        } else if self.spread < 0 {
            -self.spread
        } else {
            self.spread
        };
        let mut particles: Vec<Particle> = Vec::new();
        let mut i: usize = 0;
        while i < count
            invariant
                i <= count,
                particles@.len() == i,
                *self == old(self).after_emit_spec(dt as int),
                half == old(self).half_spread_spec(),
                0 <= half,
                forall|j: int|
                    0 <= j < particles@.len() ==> old(self).may_spawn(#[trigger] particles@[j]),
            decreases count - i,
        {
            let angle = random_between(-half, half);
            let red = random_between(500, 1000);
            let green = random_between(500, 1000);
            let blue = random_between(800, 1000);
            let p = self.spawn(angle, red, green, blue);
            proof {
                assert(p == old(self).spawn_spec(angle as int, red as int, green as int, blue as int));
            }
            particles.push(p);
            i += 1;
        }
        particles
    }
}

/// The emitter after `n` frames of `dt` milliseconds each.
pub open spec fn after_frames_spec(emitter: Emitter, dt: int, n: nat) -> Emitter
    decreases n,
{
    if n == 0 {
        emitter
    } else {
        after_frames_spec(emitter, dt, (n - 1) as nat).after_emit_spec(dt)
    }
}

/// The number of particles that the emitter emits over `n` frames of `dt`
/// milliseconds each.
pub open spec fn emitted_over_spec(emitter: Emitter, dt: int, n: nat) -> int
    decreases n,
{
    if n == 0 {
        0
    } else {
        emitted_over_spec(emitter, dt, (n - 1) as nat) + after_frames_spec(
            emitter,
            dt,
            (n - 1) as nat,
        ).count_spec(dt)
    }
}

/// The rate is honoured over time: an enabled emitter whose frames are
/// each worth `per_frame` thousandths of a particle has, after `n` frames,
/// emitted all the whole particles in what came due, and carries the rest.
pub proof fn lemma_rate_is_honoured(emitter: Emitter, dt: int, n: nat)
    requires
        emitter.enabled,
        0 <= emitter.accumulator < 1000,
        0 <= mul_spec(dt, emitter.rate as int) <= i32::MAX - 1000,
    ensures
        emitted_over_spec(emitter, dt, n) == (emitter.accumulator + n * mul_spec(
            dt,
            emitter.rate as int,
        )) / 1000,
        after_frames_spec(emitter, dt, n) == (Emitter {
            accumulator: ((emitter.accumulator + n * mul_spec(dt, emitter.rate as int)) % 1000) as i32,
            ..emitter
        }),
    decreases n,
{
    let per_frame = mul_spec(dt, emitter.rate as int);
    if n > 0 {
        let m = (n - 1) as nat;
        lemma_rate_is_honoured(emitter, dt, m);
        let at = after_frames_spec(emitter, dt, m);
        let came = emitter.accumulator + m * per_frame;
        assert(emitter.accumulator + n * per_frame == came + per_frame) by (nonlinear_arith)
            requires
                n == m + 1,
                came == emitter.accumulator + m * per_frame,
        ;
        assert(came >= 0) by (nonlinear_arith)
            requires
                came == emitter.accumulator + m * per_frame,
                emitter.accumulator >= 0,
                per_frame >= 0,
                m >= 0,
        ;
        let due = came % 1000 + per_frame;
        assert(at.due_spec(dt) == due);
        assert(at.count_spec(dt) == due / 1000);
        assert(at.pending_after_spec(dt) == due % 1000);
        assert(came / 1000 + due / 1000 == (came + per_frame) / 1000);
        assert(due % 1000 == (came + per_frame) % 1000);
    } else {
        assert(n * per_frame == 0) by (nonlinear_arith)
            requires
                n == 0,
        ;
    }
}

/// The particles one step later, in their order, without those that the
/// step left dead.
pub open spec fn survivors_spec(particles: Seq<Particle>, dt: int, forces: Seq<Force>) -> Seq<Particle> {
    particles.map_values(|p: Particle| p.step_spec(dt, forces)).filter(
        |p: Particle| p.is_alive_spec(),
    )
}

/// The number of particles that the emitters emit in a frame of `dt`
/// milliseconds, all together.
pub open spec fn emitted_spec(emitters: Seq<Emitter>, dt: int) -> int
    decreases emitters.len(),
{
    if emitters.len() == 0 {
        0
    } else {
        emitted_spec(emitters.drop_last(), dt) + emitters.last().count_spec(dt)
    }
}

/// How many of `offered` new particles a population of `held` takes in
/// under the cap `max`: as many as fit, the first ones.
pub open spec fn admitted_spec(held: int, offered: int, max: int) -> int {
    if held >= max {
        0
    } else if offered <= max - held {
        offered
    } else {
        max - held
    }
}

/// The emitter that the `k`-th new particle of a frame comes from, the new
/// particles of all emitters counted from 0 in the emitters' order.
pub open spec fn source_of_spec(emitters: Seq<Emitter>, dt: int, k: int) -> int
    decreases emitters.len(),
{
    if emitters.len() == 0 {
        -1
    } else if k >= emitted_spec(emitters.drop_last(), dt) {
        emitters.len() - 1
    } else {
        source_of_spec(emitters.drop_last(), dt, k)
    }
}

/// `p` is a particle as the emitter of the `k`-th new particle of the
/// frame emits it.
pub open spec fn emitted_as(emitters: Seq<Emitter>, dt: int, k: int, p: Particle) -> bool {
    let e = source_of_spec(emitters, dt, k);
    0 <= e < emitters.len() && emitters[e].enabled && emitters[e].may_spawn(p)
}

/// The emitters up to any point emit no more than all of them, and never
/// less than nothing.
pub proof fn lemma_emitted_grows(emitters: Seq<Emitter>, dt: int, e: int)
    requires
        0 <= e <= emitters.len(),
    ensures
        0 <= emitted_spec(emitters.take(e), dt) <= emitted_spec(emitters, dt),
    decreases emitters.len(),
{
    if e == emitters.len() {
        assert(emitters.take(e) == emitters);
        if e > 0 {
            lemma_emitted_grows(emitters.drop_last(), dt, e - 1);
        }
    } else {
        lemma_emitted_grows(emitters.drop_last(), dt, e);
        assert(emitters.drop_last().take(e) == emitters.take(e));
    }
}

/// The new particles are numbered emitter by emitter.
pub proof fn lemma_source_of(emitters: Seq<Emitter>, dt: int, e: int, k: int)
    requires
        0 <= e < emitters.len(),
        emitted_spec(emitters.take(e), dt) <= k < emitted_spec(emitters.take(e + 1), dt),
    ensures
        source_of_spec(emitters, dt, k) == e,
        emitters[e].enabled,
    decreases emitters.len(),
{
    assert(emitters.take(e + 1).drop_last() == emitters.take(e));
    if e == emitters.len() - 1 {
        assert(emitters.take(e) == emitters.drop_last());
    } else {
        lemma_emitted_grows(emitters.drop_last(), dt, e + 1);
        assert(emitters.drop_last().take(e + 1) == emitters.take(e + 1));
        assert(emitters.drop_last().take(e) == emitters.take(e));
        lemma_source_of(emitters.drop_last(), dt, e, k);
    }
}

/// Every enabled emitter gives its particles a positive lifetime.
pub open spec fn give_life(emitters: Seq<Emitter>) -> bool {
    forall|e: int|
        0 <= e < emitters.len() && #[trigger] emitters[e].enabled ==> emitters[e].particle_lifetime > 0
}

/// The square of a particle's speed, in squared raw units.
pub open spec fn speed_squared_spec(p: Particle) -> int {
    p.vel_spec().x * p.vel_spec().x + p.vel_spec().y * p.vel_spec().y
}

/// The square of what a particle's speed is at most once each component
/// is given back the raw unit that rounding may have taken.
pub open spec fn speed_squared_above_spec(p: Particle) -> int {
    (abs(p.vel_spec().x as int) + 1) * (abs(p.vel_spec().x as int) + 1) + (abs(
        p.vel_spec().y as int,
    ) + 1) * (abs(p.vel_spec().y as int) + 1)
}

/// A particle straight from an emitter has the emitter's position,
/// lifetime and size and unit mass, and leaves at the emitter's speed: the
/// square of its speed is at most 1.002 times that of `initial_velocity`,
/// and no less than 0.995998 times it once rounding is allowed for.
pub proof fn lemma_spawned(emitter: Emitter, p: Particle)
    requires
        emitter.may_spawn(p),
    ensures
        p.pos_spec() == emitter.position,
        p.life == emitter.particle_lifetime,
        p.size == emitter.particle_size,
        p.mass == 1000,
        abs(p.vel_spec().x as int) <= abs(emitter.initial_velocity as int),
        abs(p.vel_spec().y as int) <= abs(emitter.initial_velocity as int),
        1_000_000 * speed_squared_spec(p) <= 1_002_000 * (emitter.initial_velocity
            * emitter.initial_velocity),
        995_998 * (emitter.initial_velocity * emitter.initial_velocity) <= 1_000_000
            * speed_squared_above_spec(p),
{
    let (angle, red, green, blue) = choose|angle: int, red: int, green: int, blue: int|
        {
            &&& -emitter.half_spread_spec() <= angle <= emitter.half_spread_spec()
            &&& 500 <= red <= 1000
            &&& 500 <= green <= 1000
            &&& 800 <= blue <= 1000
            &&& p == #[trigger] emitter.spawn_spec(angle, red, green, blue)
        };
    let iv = emitter.initial_velocity as int;
    let c = cos_spec(angle);
    let s = sin_spec(angle);
    lemma_waves_unit(angle);
    lemma_mul_unit(c, iv);
    lemma_mul_unit(s, iv);
    let ax = abs(p.vel_spec().x as int);
    let ay = abs(p.vel_spec().y as int);
    let bx = abs(c * iv);
    let by = abs(s * iv);
    let unit = c * c + s * s;
    assert(bx * bx + by * by == unit * (iv * iv)) by (nonlinear_arith)
        requires
            bx == c * iv || bx == -(c * iv),
            by == s * iv || by == -(s * iv),
            unit == c * c + s * s,
    ;
    assert(iv * iv >= 0) by (nonlinear_arith);
    assert(995_998 * (iv * iv) <= unit * (iv * iv) <= 1_002_000 * (iv * iv)) by (nonlinear_arith)
        requires
            995_998 <= unit <= 1_002_000,
            iv * iv >= 0,
    ;
    assert((1000 * ax) * (1000 * ax) <= bx * bx && (1000 * ay) * (1000 * ay) <= by * by)
        by (nonlinear_arith)
        requires
            0 <= 1000 * ax <= bx,
            0 <= 1000 * ay <= by,
    ;
    assert(1_000_000 * (ax * ax + ay * ay) == (1000 * ax) * (1000 * ax) + (1000 * ay) * (1000
        * ay)) by (nonlinear_arith);
    assert(ax * ax + ay * ay == speed_squared_spec(p)) by (nonlinear_arith)
        requires
            ax == p.vel_spec().x || ax == -p.vel_spec().x,
            ay == p.vel_spec().y || ay == -p.vel_spec().y,
            speed_squared_spec(p) == p.vel_spec().x * p.vel_spec().x + p.vel_spec().y
                * p.vel_spec().y,
    ;
    assert(bx * bx <= (1000 * (ax + 1)) * (1000 * (ax + 1)) && by * by <= (1000 * (ay + 1)) * (
    1000 * (ay + 1))) by (nonlinear_arith)
        requires
            0 <= bx <= 1000 * (ax + 1),
            0 <= by <= 1000 * (ay + 1),
    ;
    assert(1_000_000 * ((ax + 1) * (ax + 1) + (ay + 1) * (ay + 1)) == (1000 * (ax + 1)) * (1000
        * (ax + 1)) + (1000 * (ay + 1)) * (1000 * (ay + 1))) by (nonlinear_arith);
}

/// The population of particles with the emitters that feed it.
pub struct ParticleSystem {
    pub particles: Vec<Particle>,
    pub emitters: Vec<Emitter>,
    pub config: ParticleConfig,
}

impl ParticleSystem {
    /// The population is no larger than the configured cap.
    pub open spec fn within_capacity(self) -> bool {
        self.particles@.len() <= self.config.max_particles
    }

    /// No particle of the population is dead.
    pub open spec fn all_alive(self) -> bool {
        forall|i: int|
            0 <= i < self.particles@.len() ==> (#[trigger] self.particles@[i]).is_alive_spec()
    }

    /// `next` is this system one frame of `dt` milliseconds later: the
    /// survivors of the step come first, in their order; after them the new
    /// particles, emitter by emitter, as many as the cap lets in; and every
    /// emitter has booked the frame.
    pub open spec fn frame_spec(self, next: ParticleSystem, dt: int, forces: Seq<Force>) -> bool {
        let kept = survivors_spec(self.particles@, dt, forces);
        let fresh = admitted_spec(
            kept.len() as int,
            emitted_spec(self.emitters@, dt),
            self.config.max_particles as int,
        );
        &&& next.particles@.len() == kept.len() + fresh
        &&& next.particles@.take(kept.len() as int) == kept
        &&& forall|j: int|
            kept.len() <= j < next.particles@.len() ==> emitted_as(
                self.emitters@,
                dt,
                j - kept.len(),
                #[trigger] next.particles@[j],
            )
        &&& next.emitters@ == self.emitters@.map_values(|e: Emitter| e.after_emit_spec(dt))
        &&& next.config == self.config
    }

    /// An empty system with the default configuration.
    pub fn new() -> (r: ParticleSystem)
        ensures
            r.particles@.len() == 0,
            r.emitters@.len() == 0,
            r.config == ParticleConfig::default_spec(),
            r.within_capacity(),
            r.all_alive(),
    {
        ParticleSystem { particles: Vec::new(), emitters: Vec::new(), config: ParticleConfig::default() }
    }

    /// One frame of `dt` milliseconds: every particle takes a step under
    /// `forces`, the dead are removed, and then each emitter in turn adds its
    /// new particles while the population is below the cap. What exceeds the
    /// cap is dropped. The new particles take no step in this frame.
    pub fn update(&mut self, dt: i32, forces: &[Force])
        ensures
            old(self).frame_spec(*final(self), dt as int, forces@),
            old(self).within_capacity() ==> final(self).within_capacity(),
            give_life(old(self).emitters@) ==> final(self).all_alive(),
    {
        let ghost before = self.particles@;
        let ghost sources = self.emitters@;
        let mut kept: Vec<Particle> = Vec::new();
        let mut i: usize = 0;
        while i < self.particles.len()
            invariant
                i <= self.particles.len(),
                self.particles@ == before,
                kept@ == survivors_spec(before.take(i as int), dt as int, forces@),
            decreases self.particles.len() - i,
        {
            let mut p = self.particles[i];
            p.update(dt, forces);
            proof {
                let step = |p: Particle| p.step_spec(dt as int, forces@);
                let alive = |p: Particle| p.is_alive_spec();
                let done = before.take(i as int);
                assert(before.take(i + 1) == done.push(before[i as int]));
                done.lemma_push_map_commute(step, before[i as int]);
                done.map_values(step).lemma_filter_push(p, alive);
            }
            if p.is_alive() {
                kept.push(p);
            }
            i += 1;
        }
        proof {
            assert(before.take(i as int) == before);
            before.map_values(|p: Particle| p.step_spec(dt as int, forces@)).lemma_filter_len(
                |p: Particle| p.is_alive_spec(),
            );
        }
        let ghost held = kept@;
        self.particles = kept;
        let max = self.config.max_particles;
        let mut e: usize = 0;
        while e < self.emitters.len()
            invariant
                e <= self.emitters.len(),
                self.config == old(self).config,
                max == self.config.max_particles,
                held == survivors_spec(before, dt as int, forces@),
                sources == old(self).emitters@,
                self.emitters@.len() == sources.len(),
                forall|t: int|
                    0 <= t < e ==> #[trigger] self.emitters@[t] == sources[t].after_emit_spec(dt as int),
                forall|t: int| e <= t < sources.len() ==> #[trigger] self.emitters@[t] == sources[t],
                self.particles@.len() == held.len() + admitted_spec(
                    held.len() as int,
                    emitted_spec(sources.take(e as int), dt as int),
                    max as int,
                ),
                emitted_spec(sources.take(e as int), dt as int) >= 0,
                self.particles@.take(held.len() as int) == held,
                forall|j: int|
                    held.len() <= j < self.particles@.len() ==> emitted_as(
                        sources,
                        dt as int,
                        j - held.len(),
                        #[trigger] self.particles@[j],
                    ),
            decreases self.emitters.len() - e,
        {
            let mut emitter = self.emitters[e];
            let batch = emitter.emit(dt);
            self.emitters.set(e, emitter);
            let ghost earlier = emitted_spec(sources.take(e as int), dt as int);
            proof {
                assert(sources.take(e + 1).drop_last() == sources.take(e as int));
            }
            let mut k: usize = 0;
            while k < batch.len()
                invariant
                    k <= batch.len(),
                    earlier >= 0,
                    0 <= e < sources.len(),
                    forall|j: int|
                        0 <= j < batch@.len() ==> sources[e as int].may_spawn(#[trigger] batch@[j]),
                    max == self.config.max_particles,
                    self.config == old(self).config,
                    self.emitters@.len() == sources.len(),
                    forall|t: int|
                        0 <= t <= e ==> #[trigger] self.emitters@[t] == sources[t].after_emit_spec(
                            dt as int,
                        ),
                    forall|t: int| e < t < sources.len() ==> #[trigger] self.emitters@[t] == sources[t],
                    self.particles@.len() == held.len() + admitted_spec(
                        held.len() as int,
                        earlier + k,
                        max as int,
                    ),
                    self.particles@.take(held.len() as int) == held,
                    batch@.len() == sources[e as int].count_spec(dt as int),
                    earlier == emitted_spec(sources.take(e as int), dt as int),
                    earlier + batch@.len() == emitted_spec(sources.take(e + 1), dt as int),
                    forall|j: int|
                        held.len() <= j < self.particles@.len() ==> emitted_as(
                            sources,
                            dt as int,
                            j - held.len(),
                            #[trigger] self.particles@[j],
                        ),
                decreases batch.len() - k,
            {
                if self.particles.len() < max {
                    let ghost was = self.particles@;
                    self.particles.push(batch[k]);
                    proof {
                        assert(self.particles@.take(held.len() as int) == was.take(held.len() as int));
                        assert(sources[e as int].may_spawn(batch@[k as int]));
                        lemma_source_of(sources, dt as int, e as int, earlier + k);
                        assert forall|j: int|
                            held.len() <= j < self.particles@.len() implies emitted_as(
                            sources,
                            dt as int,
                            j - held.len(),
                            #[trigger] self.particles@[j],
                        ) by {
                            if j < was.len() {
                                assert(self.particles@[j] == was[j]);
                            }
                        }
                    }
                }
                k += 1;
            }
            e += 1;
        }
        proof {
            assert(sources.take(e as int) == sources);
            assert(self.emitters@ =~= sources.map_values(|e: Emitter| e.after_emit_spec(dt as int)));
            lemma_survivors_alive(before, dt as int, forces@);
            assert(old(self).frame_spec(*self, dt as int, forces@));
            if old(self).within_capacity() {
                lemma_frame_keeps_cap(*old(self), *self, dt as int, forces@);
            }
            if give_life(sources) {
                lemma_frame_leaves_no_dead(*old(self), *self, dt as int, forces@);
            }
        }
    }

    /// Adds an emitter after those already there.
    pub fn add_emitter(&mut self, emitter: Emitter)
        ensures
            final(self).emitters@ == old(self).emitters@.push(emitter),
            final(self).particles@ == old(self).particles@,
            final(self).config == old(self).config,
            old(self).within_capacity() ==> final(self).within_capacity(),
    {
        self.emitters.push(emitter);
    }

    /// The number of particles in the population.
    pub fn particle_count(&self) -> (n: usize)
        ensures
            n == self.particles@.len(),
    {
        self.particles.len()
    }
}

/// Whatever survives a step is alive and was there before.
pub proof fn lemma_survivors_alive(particles: Seq<Particle>, dt: int, forces: Seq<Force>)
    ensures
        survivors_spec(particles, dt, forces).len() <= particles.len(),
        forall|i: int|
            0 <= i < survivors_spec(particles, dt, forces).len() ==> (#[trigger] survivors_spec(
                particles,
                dt,
                forces,
            )[i]).is_alive_spec(),
{
    let stepped = particles.map_values(|p: Particle| p.step_spec(dt, forces));
    let alive = |p: Particle| p.is_alive_spec();
    stepped.lemma_filter_len(alive);
    assert forall|i: int| 0 <= i < stepped.filter(alive).len() implies (#[trigger] stepped.filter(
        alive,
    )[i]).is_alive_spec() by {
        stepped.lemma_filter_pred(alive, i);
    }
}

/// A frame never takes the population over the cap: a system within its
/// capacity is within it one frame later.
pub proof fn lemma_frame_keeps_cap(
    before: ParticleSystem,
    after: ParticleSystem,
    dt: int,
    forces: Seq<Force>,
)
    requires
        before.frame_spec(after, dt, forces),
        before.within_capacity(),
    ensures
        after.within_capacity(),
{
    lemma_survivors_alive(before.particles@, dt, forces);
}

/// A frame leaves no dead particle behind, as long as every enabled
/// emitter gives its particles a positive lifetime.
pub proof fn lemma_frame_leaves_no_dead(
    before: ParticleSystem,
    after: ParticleSystem,
    dt: int,
    forces: Seq<Force>,
)
    requires
        before.frame_spec(after, dt, forces),
        give_life(before.emitters@),
    ensures
        after.all_alive(),
{
    let kept = survivors_spec(before.particles@, dt, forces);
    lemma_survivors_alive(before.particles@, dt, forces);
    lemma_emitted_grows(before.emitters@, dt, 0);
    assert forall|i: int|
        0 <= i < after.particles@.len() implies (#[trigger] after.particles@[i]).is_alive_spec() by {
        let p = after.particles@[i];
        if i < kept.len() {
            assert(p == after.particles@.take(kept.len() as int)[i]);
        } else {
            assert(emitted_as(before.emitters@, dt, i - kept.len(), p));
            lemma_spawned(before.emitters@[source_of_spec(before.emitters@, dt, i - kept.len())], p);
        }
    }
}

/// A particle that a frame adds ends that frame as its emitter made it, at
/// the emitter's position, with its full lifetime and at the emitter's
/// speed, whatever forces act in the frame. It takes its first step in the frame after: if it survives
/// that step, the population then holds it one step on.
pub proof fn lemma_new_particles_wait(
    before: ParticleSystem,
    after: ParticleSystem,
    later: ParticleSystem,
    dt: int,
    forces: Seq<Force>,
    next_dt: int,
    next_forces: Seq<Force>,
    j: int,
)
    requires
        before.frame_spec(after, dt, forces),
        after.frame_spec(later, next_dt, next_forces),
        survivors_spec(before.particles@, dt, forces).len() <= j < after.particles@.len(),
    ensures
        ({
            let k = j - survivors_spec(before.particles@, dt, forces).len();
            let emitter = before.emitters@[source_of_spec(before.emitters@, dt, k)];
            &&& emitter.may_spawn(after.particles@[j])
            &&& after.particles@[j].pos_spec() == emitter.position
            &&& after.particles@[j].life == emitter.particle_lifetime
            &&& 1_000_000 * speed_squared_spec(after.particles@[j]) <= 1_002_000 * (
            emitter.initial_velocity * emitter.initial_velocity)
            &&& 995_998 * (emitter.initial_velocity * emitter.initial_velocity) <= 1_000_000
                * speed_squared_above_spec(after.particles@[j])
        }),
        after.particles@[j].step_spec(next_dt, next_forces).is_alive_spec()
            ==> later.particles@.contains(after.particles@[j].step_spec(next_dt, next_forces)),
{
    let kept = survivors_spec(before.particles@, dt, forces);
    let p = after.particles@[j];
    assert(emitted_as(before.emitters@, dt, j - kept.len(), p));
    lemma_spawned(before.emitters@[source_of_spec(before.emitters@, dt, j - kept.len())], p);
    let stepped = after.particles@.map_values(|p: Particle| p.step_spec(next_dt, next_forces));
    let alive = |p: Particle| p.is_alive_spec();
    let moved = p.step_spec(next_dt, next_forces);
    if moved.is_alive_spec() {
        assert(stepped[j] == moved);
        stepped.lemma_filter_contains(alive, j);
        let held = stepped.filter(alive);
        lemma_emitted_grows(after.emitters@, next_dt, 0);
        let at = choose|at: int| 0 <= at < held.len() && held[at] == moved;
        assert(later.particles@.take(held.len() as int)[at] == moved);
        assert(later.particles@[at] == moved);
    }
}

/// Every particle has at least `bound` milliseconds to live.
pub open spec fn all_last(particles: Seq<Particle>, bound: int) -> bool {
    forall|i: int| 0 <= i < particles.len() ==> (#[trigger] particles[i]).life >= bound
}

/// Every enabled emitter gives its particles at least `bound` milliseconds.
pub open spec fn give_at_least(emitters: Seq<Emitter>, bound: int) -> bool {
    forall|e: int|
        0 <= e < emitters.len() && #[trigger] emitters[e].enabled ==> emitters[e].particle_lifetime
            >= bound
}

/// The frames of `run` follow one another, each `dt` milliseconds long and
/// under the same forces.
pub open spec fn is_run(run: Seq<ParticleSystem>, dt: int, forces: Seq<Force>) -> bool {
    forall|k: int| 0 <= k < run.len() - 1 ==> (#[trigger] run[k]).frame_spec(run[k + 1], dt, forces)
}

/// A filter that every element passes keeps the length.
proof fn lemma_filter_keeps_all(s: Seq<Particle>, pred: spec_fn(Particle) -> bool)
    requires
        forall|i: int| 0 <= i < s.len() ==> pred(#[trigger] s[i]),
    ensures
        s.filter(pred).len() == s.len(),
    decreases s.len(),
{
    reveal(Seq::filter);
    if s.len() > 0 {
        lemma_filter_keeps_all(s.drop_last(), pred);
    }
}

/// A frame in which nobody runs out of time loses nobody: where every
/// particle has more than `dt` milliseconds left, the population is no
/// smaller after the frame, and everybody in it has at least what the
/// youngest had before, less `dt`, or what the emitters give.
pub proof fn lemma_frame_never_shrinks(
    before: ParticleSystem,
    after: ParticleSystem,
    dt: int,
    forces: Seq<Force>,
    bound: int,
)
    requires
        before.frame_spec(after, dt, forces),
        0 <= dt < bound,
        all_last(before.particles@, bound),
        give_at_least(before.emitters@, bound - dt),
    ensures
        after.particles@.len() >= before.particles@.len(),
        all_last(after.particles@, bound - dt),
        give_at_least(after.emitters@, bound - dt),
{
    let step = |p: Particle| p.step_spec(dt, forces);
    let alive = |p: Particle| p.is_alive_spec();
    let stepped = before.particles@.map_values(step);
    assert forall|i: int| 0 <= i < stepped.len() implies alive(#[trigger] stepped[i]) && stepped[i].life
        >= bound - dt by {
        assert(before.particles@[i].life >= bound);
    }
    lemma_filter_keeps_all(stepped, alive);
    let kept = stepped.filter(alive);
    lemma_emitted_grows(before.emitters@, dt, 0);
    assert forall|i: int| 0 <= i < after.particles@.len() implies (#[trigger] after.particles@[i]).life
        >= bound - dt by {
        let p = after.particles@[i];
        if i < kept.len() {
            assert(p == after.particles@.take(kept.len() as int)[i]);
            lemma_kept_came_from(stepped, alive, i);
            let at = choose|at: int| 0 <= at < stepped.len() && stepped[at] == kept[i];
            assert(stepped[at].life >= bound - dt);
        } else {
            assert(emitted_as(before.emitters@, dt, i - kept.len(), p));
            lemma_spawned(before.emitters@[source_of_spec(before.emitters@, dt, i - kept.len())], p);
        }
    }
    let sources = after.emitters@;
    assert forall|e: int|
        0 <= e < sources.len() && #[trigger] sources[e].enabled implies sources[e].particle_lifetime
        >= bound - dt by {
        assert(sources[e] == before.emitters@[e].after_emit_spec(dt));
        assert(before.emitters@[e].enabled);
    }
}

/// What a filter keeps was there before.
proof fn lemma_kept_came_from(s: Seq<Particle>, pred: spec_fn(Particle) -> bool, i: int)
    requires
        0 <= i < s.filter(pred).len(),
    ensures
        s.contains(s.filter(pred)[i]),
    decreases s.len(),
{
    reveal(Seq::filter);
    if s.len() > 0 {
        let rest = s.drop_last().filter(pred);
        if i < rest.len() {
            lemma_kept_came_from(s.drop_last(), pred, i);
            let at = choose|at: int| 0 <= at < s.drop_last().len() && s.drop_last()[at] == rest[i];
            assert(s[at] == rest[i]);
        } else {
            assert(s[s.len() - 1] == s.last());
        }
    }
}

/// Over a run of frames in which nobody can run out of time, the
/// population never shrinks: where the emitters give their particles at
/// least `lifetime` milliseconds, everybody there at the start has as much,
/// and all the frames together are shorter than `lifetime`, each frame ends
/// with no fewer particles than it began with.
pub proof fn lemma_run_never_shrinks(
    run: Seq<ParticleSystem>,
    dt: int,
    forces: Seq<Force>,
    lifetime: int,
    k: int,
)
    requires
        is_run(run, dt, forces),
        0 <= k < run.len() - 1,
        0 <= dt,
        (run.len() - 1) * dt < lifetime,
        all_last(run[0].particles@, lifetime),
        give_at_least(run[0].emitters@, lifetime),
    ensures
        run[k + 1].particles@.len() >= run[k].particles@.len(),
        all_last(run[k + 1].particles@, lifetime - (k + 1) * dt),
        give_at_least(run[k + 1].emitters@, lifetime),
    decreases k,
{
    assert(0 <= k * dt && (k + 1) * dt == k * dt + dt && (k + 1) * dt <= (run.len() - 1) * dt)
        by (nonlinear_arith)
        requires
            0 <= k < run.len() - 1,
            0 <= dt,
    ;
    if k > 0 {
        lemma_run_never_shrinks(run, dt, forces, lifetime, k - 1);
        assert((k - 1 + 1) * dt == k * dt);
    }
    let bound = lifetime - k * dt;
    assert(run[k].frame_spec(run[k + 1], dt, forces));
    let sources = run[k].emitters@;
    assert(give_at_least(sources, bound - dt)) by {
        assert forall|e: int|
            0 <= e < sources.len() && #[trigger] sources[e].enabled implies sources[e].particle_lifetime
            >= bound - dt by {}
    }
    lemma_frame_never_shrinks(run[k], run[k + 1], dt, forces, bound);
    let next = run[k + 1].emitters@;
    assert forall|e: int|
        0 <= e < next.len() && #[trigger] next[e].enabled implies next[e].particle_lifetime
        >= lifetime by {
        assert(next[e] == sources[e].after_emit_spec(dt));
        assert(sources[e].enabled);
    }
}

impl Default for ParticleSystem {
    fn default() -> (r: ParticleSystem)
        ensures
            r.particles@.len() == 0,
            r.emitters@.len() == 0,
            r.config == ParticleConfig::default_spec(),
    {
        ParticleSystem::new()
    }
}

/// The particle after `n` steps of `dt` milliseconds each under the same
/// forces.
pub open spec fn after_steps_spec(p: Particle, dt: int, forces: Seq<Force>, n: nat) -> Particle
    decreases n,
{
    if n == 0 {
        p
    } else {
        after_steps_spec(p, dt, forces, (n - 1) as nat).step_spec(dt, forces)
    }
}

/// A velocity component after `n` steps of drag alone: each step keeps
/// `DRAG` thousandths of it and drops the fraction.
pub open spec fn decayed_spec(c: int, n: nat) -> int
    decreases n,
{
    if n == 0 {
        c
    } else {
        quot(decayed_spec(c, (n - 1) as nat) * DRAG, 1000)
    }
}

/// Drag alone shrinks a component as `0.99^n` does, short of the fractions
/// dropped on the way: after `n` steps the magnitude is at most
/// `|c| * 0.99^n`, and less than that by no more than `n`. The sign stays.
pub proof fn lemma_decay_bounds(c: int, n: nat)
    ensures
        abs(decayed_spec(c, n)) * pow(100, n) <= abs(c) * pow(99, n),
        abs(c) * pow(99, n) <= (abs(decayed_spec(c, n)) + n) * pow(100, n),
        abs(decayed_spec(c, n)) <= abs(c),
        c >= 0 ==> decayed_spec(c, n) >= 0,
        c <= 0 ==> decayed_spec(c, n) <= 0,
    decreases n,
{
    reveal(pow);
    if n > 0 {
        let m = (n - 1) as nat;
        let before = decayed_spec(c, m);
        let after = decayed_spec(c, n);
        lemma_decay_bounds(c, m);
        lemma_quot_bounds(before * DRAG, 1000);
        let a = abs(before);
        let b = abs(after);
        assert(abs(before * DRAG) == a * 990);
        vstd::arithmetic::div_mod::lemma_fundamental_div_mod(a * 990, 1000);
        vstd::arithmetic::div_mod::lemma_mod_bound(a * 990, 1000);
        assert(1000 * b <= 990 * a < 1000 * b + 1000);
        let h = pow(100, m);
        let l = pow(99, m);
        vstd::arithmetic::power::lemma_pow_positive(100, m);
        vstd::arithmetic::power::lemma_pow_positive(99, m);
        assert(b * (100 * h) <= abs(c) * (99 * l)) by (nonlinear_arith)
            requires
                100 * b <= 99 * a,
                a * h <= abs(c) * l,
                h > 0,
                l > 0,
                b >= 0,
                a >= 0,
        ;
        assert(abs(c) * (99 * l) <= (b + n) * (100 * h)) by (nonlinear_arith)
            requires
                99 * a < 100 * b + 100,
                abs(c) * l <= (a + m) * h,
                n == m + 1,
                h > 0,
                l > 0,
                b >= 0,
                a >= 0,
        ;
    }
}

/// With no forces a particle coasts: each velocity component decays by
/// drag alone, and the lifetime falls by `dt` with every step for as long
/// as it stays inside the `i32` range.
pub proof fn lemma_ballistic(p: Particle, dt: int, n: nat)
    ensures
        after_steps_spec(p, dt, Seq::empty(), n).vel_spec().x == decayed_spec(p.vel_spec().x as int, n),
        after_steps_spec(p, dt, Seq::empty(), n).vel_spec().y == decayed_spec(p.vel_spec().y as int, n),
        i32::MIN <= p.life - n * dt <= i32::MAX ==> after_steps_spec(p, dt, Seq::empty(), n).life
            == p.life - n * dt,
    decreases n,
{
    if n > 0 {
        let m = (n - 1) as nat;
        let q = after_steps_spec(p, dt, Seq::empty(), m);
        lemma_ballistic(p, dt, m);
        lemma_decay_bounds(p.vel_spec().x as int, m);
        lemma_decay_bounds(p.vel_spec().y as int, m);
        lemma_decay_bounds(p.vel_spec().x as int, n);
        lemma_decay_bounds(p.vel_spec().y as int, n);
        assert(acceleration_spec(Seq::empty(), q.pos_spec(), q.mass as int) == Vec2::zero_spec());
        assert(q.pushed_spec(dt, Seq::empty()) == q.vel_spec());
        if i32::MIN <= p.life - n * dt <= i32::MAX {
            assert(i32::MIN <= p.life - m * dt <= i32::MAX) by (nonlinear_arith)
                requires
                    -0x8000_0000 <= p.life - n * dt <= 0x7fff_ffff,
                    -0x8000_0000 <= p.life <= 0x7fff_ffff,
                    n == m + 1,
                    m >= 0,
            {
                if dt >= 0 {
                    assert(0 <= m * dt <= n * dt);
                } else {
                    assert(n * dt <= m * dt <= 0);
                }
            }
            assert(p.life - n * dt == p.life - m * dt - dt) by (nonlinear_arith)
                requires
                    n == m + 1,
            ;
        }
    }
}

} // verus!
