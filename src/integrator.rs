use vstd::prelude::*;

verus! {

/// Bounces a camera ray may take.
pub const MAX_BOUNCES: usize = 40;

/// Shadow rays cast toward each light from a surface hit by a camera ray.
pub const MAX_LIGHT_SAMPLES: usize = 20;

/// Continuation rays scattered from a surface hit by a camera ray.
pub const MAX_BOUNCE_SAMPLES: usize = 5;

/// Light samples are divided by this at each bounce, rounding up.
pub const LIGHT_SAMPLE_DECAY: usize = 4;

/// Bounce samples are divided by this at each bounce, rounding up.
pub const BOUNCE_SAMPLE_DECAY: usize = 5;

/// `n / d` rounded up.
pub open spec fn ceil_div(n: nat, d: nat) -> nat
    recommends
        d > 0,
{
    ((n + d - 1) as nat / d) as nat
}

/// The budget a ray is traced with: how many more bounces it may take, and
/// how many samples to draw at the surface it hits.
#[derive(Clone, Copy, PartialEq, Eq, Debug, Structural)]
pub struct RayProperties {
    pub bounces: usize,
    pub light_samples: usize,
    pub bounce_samples: usize,
}

fn ceil_div_exec(n: usize, d: usize) -> (r: usize)
    requires
        d > 0,
    ensures
        r == ceil_div(n as nat, d as nat),
        r <= n,
        n > 0 ==> r > 0,
{
    let q = n / d;
    proof {
        vstd::arithmetic::div_mod::lemma_fundamental_div_mod(n as int, d as int);
        let (ni, di, qi, m) = (n as int, d as int, q as int, n as int % d as int);
        assert(0 <= m < di);
        assert(qi >= 0) by (nonlinear_arith)
            requires
                ni == di * qi + m,
                0 <= m < di,
                ni >= 0,
        ;
        assert(m > 0 ==> qi < ni) by (nonlinear_arith)
            requires
                ni == di * qi + m,
                di > 0,
                qi >= 0,
        ;
        assert(m == 0 ==> qi <= ni) by (nonlinear_arith)
            requires
                ni == di * qi + m,
                di > 0,
                qi >= 0,
        ;
        assert(m == 0 && ni > 0 ==> qi > 0) by (nonlinear_arith)
            requires
                ni == di * qi + m,
                qi >= 0,
        ;
        assert((qi + 1) * di == qi * di + di) by (nonlinear_arith);
        assert(qi * di == di * qi) by (nonlinear_arith);
        if m == 0 {
            vstd::arithmetic::div_mod::lemma_fundamental_div_mod_converse(ni + di - 1, di, qi, di - 1);
        } else {
            vstd::arithmetic::div_mod::lemma_fundamental_div_mod_converse(ni + di - 1, di, qi + 1, m - 1);
        }
    }
    if n % d == 0 {
        q
    } else {
        q + 1
    }
}

impl RayProperties {
    /// The budget of a camera ray.
    pub fn initial() -> (p: RayProperties)
        ensures
            p == (RayProperties {
                bounces: MAX_BOUNCES,
                light_samples: MAX_LIGHT_SAMPLES,
                bounce_samples: MAX_BOUNCE_SAMPLES,
            }),
    {
        RayProperties {
            bounces: MAX_BOUNCES,
            light_samples: MAX_LIGHT_SAMPLES,
            bounce_samples: MAX_BOUNCE_SAMPLES,
        }
    }

    /// Whether a ray with this budget is traced at all: with no bounce left
    /// it contributes nothing, whatever the scene holds.
    pub fn can_bounce(&self) -> (r: bool)
        ensures
            r == (self.bounces > 0),
    {
        self.bounces > 0
    }

    /// The budget of a continuation ray: one bounce fewer, and the sample
    /// counts divided, rounding up, by their decay factors.
    pub fn decayed(&self) -> (p: RayProperties)
        requires
            self.bounces > 0,
        ensures
            p.bounces == self.bounces - 1,
            p.light_samples == ceil_div(self.light_samples as nat, LIGHT_SAMPLE_DECAY as nat),
            p.bounce_samples == ceil_div(self.bounce_samples as nat, BOUNCE_SAMPLE_DECAY as nat),
            p.light_samples <= self.light_samples,
            p.bounce_samples <= self.bounce_samples,
            self.light_samples > 0 ==> p.light_samples > 0,
            self.bounce_samples > 0 ==> p.bounce_samples > 0,
    {
        RayProperties {
            bounces: self.bounces - 1,
            light_samples: ceil_div_exec(self.light_samples, LIGHT_SAMPLE_DECAY),
            bounce_samples: ceil_div_exec(self.bounce_samples, BOUNCE_SAMPLE_DECAY),
        }
    }
}

/// The candidate nearest the ray's origin: the position of the least key,
/// the first such where several are least; none for no candidate.
pub fn nearest(keys: &Vec<u64>) -> (r: Option<usize>)
    ensures
        r is None <==> keys@.len() == 0,
        r matches Some(i) ==> i < keys@.len() && (forall|j: int|
            0 <= j < keys@.len() ==> keys@[i as int] <= #[trigger] keys@[j]) && (forall|j: int|
            0 <= j < i ==> keys@[i as int] < #[trigger] keys@[j]),
{
    if keys.len() == 0 {
        return None;
    }
    let mut best: usize = 0;
    let mut k: usize = 1;
    while k < keys.len()
        invariant
            1 <= k <= keys@.len(),
            best < k,
            forall|j: int| 0 <= j < k ==> keys@[best as int] <= #[trigger] keys@[j],
            forall|j: int| 0 <= j < best ==> keys@[best as int] < #[trigger] keys@[j],
        decreases keys@.len() - k,
    {
        if keys[k] < keys[best] {
            best = k;
        }
        k = k + 1;
    }
    Some(best)
}

/// Whether a light sample lights a surface point: nothing along the shadow
/// ray toward it lies strictly nearer than the light. `light_key` orders the
/// light's distance, `hit_key` that of the nearest object the shadow ray
/// meets, if any.
pub fn light_unoccluded(light_key: u64, hit_key: Option<u64>) -> (r: bool)
    ensures
        r == match hit_key {
            None => true,
            Some(h) => light_key <= h,
        },
{
    match hit_key {
        None => true,
        Some(h) => light_key <= h,
    }
}

} // verus!
