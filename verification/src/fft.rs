//! Plans for the batched two-dimensional transforms.

use vstd::prelude::*;

use crate::text::{dec, decimal_usize, signed_dec, signed_decimal};

verus! {

/// The plan kind of a complex-to-real transform.
pub const C2R: i32 = 0x2c;

/// The plan kind of a real-to-complex transform.
pub const R2C: i32 = 0x2a;

/// What a plan is made for: `batch` planes of `h` by `w`.
#[derive(Clone, Copy, PartialEq, Eq, Structural, Debug)]
pub struct PlanKey {
    pub h: usize,
    pub w: usize,
    pub batch: usize,
    pub inverse: bool,
}

/// The extents of a plane in the device's integers.
#[derive(Clone, Copy, PartialEq, Eq, Structural, Debug)]
pub struct Extents {
    pub rows: i32,
    pub cols: i32,
}

/// The arguments of `cufftPlanMany` that depend on the plane: its extents, and for
/// each side the extents it is stored with and the distance between planes.
#[derive(Clone, Copy, PartialEq, Eq, Structural, Debug)]
pub struct Geometry {
    pub n: Extents,
    pub inembed: Extents,
    pub idist: i32,
    pub onembed: Extents,
    pub odist: i32,
    pub kind: i32,
    pub batch: i32,
}

impl PlanKey {
    /// The columns of a half spectrum.
    pub open spec fn half_width(self) -> int {
        self.w as int / 2 + 1
    }

    /// The values in a complex plane, in the device's integers.
    pub open spec fn complex_dist(self) -> int {
        (self.h as i32) * (self.half_width() as i32)
    }

    /// Whether the plane's extents can be handed to the device.
    pub open spec fn fits(self) -> bool {
        &&& self.h * self.w <= usize::MAX
        &&& i32::MIN <= self.complex_dist() <= i32::MAX
    }

    /// The real side is stored as `h` by `w` and the complex side as `h` by
    /// `w / 2 + 1`, both tightly packed.
    pub open spec fn layout(self) -> Geometry {
        let plain = Extents { rows: self.h as i32, cols: self.w as i32 };
        let halved = Extents { rows: self.h as i32, cols: self.half_width() as i32 };
        let real_dist = (self.h * self.w) as i32;
        let complex_dist = self.complex_dist() as i32;
        if self.inverse {
            Geometry {
                n: plain,
                inembed: halved,
                idist: complex_dist,
                onembed: plain,
                odist: real_dist,
                kind: C2R,
                batch: self.batch as i32,
            }
        } else {
            Geometry {
                n: plain,
                inembed: plain,
                idist: real_dist,
                onembed: halved,
                odist: complex_dist,
                kind: R2C,
                batch: self.batch as i32,
            }
        }
    }

    /// Whether the plane's extents can be handed to the device.
    pub fn representable(&self) -> (r: bool)
        ensures
            r == self.fits(),
    {
        let hw: usize = self.w / 2 + 1;
        self.h.checked_mul(self.w).is_some() && (self.h as i32).checked_mul(hw as i32).is_some()
    }

    /// The plan's geometry.
    pub fn geometry(&self) -> (g: Geometry)
        requires
            self.fits(),
        ensures
            g == self.layout(),
    {
        let hw: i32 = (self.w / 2 + 1) as i32;
        let (h, w) = (self.h as i32, self.w as i32);
        let plain = Extents { rows: h, cols: w };
        let halved = Extents { rows: h, cols: hw };
        let real_dist: i32 = (self.h * self.w) as i32;
        let complex_dist: i32 = h * hw;
        if self.inverse {
            Geometry {
                n: plain,
                inembed: halved,
                idist: complex_dist,
                onembed: plain,
                odist: real_dist,
                kind: C2R,
                batch: self.batch as i32,
            }
        } else {
            Geometry {
                n: plain,
                inembed: plain,
                idist: real_dist,
                onembed: halved,
                odist: complex_dist,
                kind: R2C,
                batch: self.batch as i32,
            }
        }
    }
}

/// The two directions of one plane are each other's mirror: what one reads the
/// other writes.
pub proof fn directions_mirror(k: PlanKey)
    ensures
        ({
            let there = PlanKey { inverse: false, ..k }.layout();
            let back = PlanKey { inverse: true, ..k }.layout();
            &&& there.n == back.n
            &&& there.inembed == back.onembed
            &&& there.onembed == back.inembed
            &&& there.idist == back.odist
            &&& there.odist == back.idist
        }),
{
}

// ---------------------------------------------------------------------------
// Messages
// ---------------------------------------------------------------------------

/// Two extents in brackets.
pub open spec fn pair_text(p: Extents) -> Seq<char> {
    "["@ + signed_dec(p.rows as int) + " "@ + signed_dec(p.cols as int) + "]"@
}

fn pair_string(p: Extents) -> (r: String)
    ensures
        r@ == pair_text(p),
{
    let mut out = "[".to_owned();
    out.append(signed_decimal(p.rows).as_str());
    out.append(" ");
    out.append(signed_decimal(p.cols).as_str());
    out.append("]");
    out
}

/// `true` or `false`.
pub open spec fn truth(b: bool) -> Seq<char> {
    if b {
        "true"@
    } else {
        "false"@
    }
}

/// The complaint about a plan that could not be made.
pub open spec fn plan_complaint(code: i32, key: PlanKey, g: Geometry) -> Seq<char> {
    "cufftPlanMany failed: "@ + signed_dec(code as int) + " (h="@ + dec(key.h as nat) + " w="@
        + dec(key.w as nat) + " batch="@ + dec(key.batch as nat) + " inverse="@ + truth(
        key.inverse,
    ) + " n="@ + pair_text(g.n) + " inembed="@ + pair_text(g.inembed) + " idist="@ + signed_dec(
        g.idist as int,
    ) + " onembed="@ + pair_text(g.onembed) + " odist="@ + signed_dec(g.odist as int) + " kind="@
        + signed_dec(g.kind as int) + ")"@
}

/// Say that a plan could not be made.
pub fn plan_failure(code: i32, key: &PlanKey, g: &Geometry) -> (r: String)
    ensures
        r@ == plan_complaint(code, *key, *g),
{
    let mut out = "cufftPlanMany failed: ".to_owned();
    out.append(signed_decimal(code).as_str());
    out.append(" (h=");
    out.append(decimal_usize(key.h).as_str());
    out.append(" w=");
    out.append(decimal_usize(key.w).as_str());
    out.append(" batch=");
    out.append(decimal_usize(key.batch).as_str());
    out.append(" inverse=");
    out.append(
        if key.inverse {
            "true"
        } else {
            "false"
        },
    );
    out.append(" n=");
    out.append(pair_string(g.n).as_str());
    out.append(" inembed=");
    out.append(pair_string(g.inembed).as_str());
    out.append(" idist=");
    out.append(signed_decimal(g.idist).as_str());
    out.append(" onembed=");
    out.append(pair_string(g.onembed).as_str());
    out.append(" odist=");
    out.append(signed_decimal(g.odist).as_str());
    out.append(" kind=");
    out.append(signed_decimal(g.kind).as_str());
    out.append(")");
    out
}

/// The trace of a plan that is about to be made.
pub open spec fn plan_trace(key: PlanKey, g: Geometry) -> Seq<char> {
    "cufftPlanMany(rank=2, n="@ + pair_text(g.n) + ", inembed="@ + pair_text(g.inembed)
        + ", istride=1, idist="@ + signed_dec(g.idist as int) + ", onembed="@ + pair_text(
        g.onembed,
    ) + ", ostride=1, odist="@ + signed_dec(g.odist as int) + ", kind="@ + signed_dec(
        g.kind as int,
    ) + ", batch="@ + dec(key.batch as nat) + ")"@
}

/// Describe a plan that is about to be made.
pub fn plan_note(key: &PlanKey, g: &Geometry) -> (r: String)
    ensures
        r@ == plan_trace(*key, *g),
{
    let mut out = "cufftPlanMany(rank=2, n=".to_owned();
    out.append(pair_string(g.n).as_str());
    out.append(", inembed=");
    out.append(pair_string(g.inembed).as_str());
    out.append(", istride=1, idist=");
    out.append(signed_decimal(g.idist).as_str());
    out.append(", onembed=");
    out.append(pair_string(g.onembed).as_str());
    out.append(", ostride=1, odist=");
    out.append(signed_decimal(g.odist).as_str());
    out.append(", kind=");
    out.append(signed_decimal(g.kind).as_str());
    out.append(", batch=");
    out.append(decimal_usize(key.batch).as_str());
    out.append(")");
    out
}

// ---------------------------------------------------------------------------
// The cache
// ---------------------------------------------------------------------------

/// The plans made so far. A plan is kept for the life of the process, so each is
/// made once.
pub struct PlanCache {
    entries: Vec<(PlanKey, u64)>,
}

/// What a list of entries holds.
spec fn entries_map(s: Seq<(PlanKey, u64)>) -> Map<PlanKey, u64>
    decreases s.len(),
{
    if s.len() == 0 {
        Map::empty()
    } else {
        entries_map(s.drop_last()).insert(s.last().0, s.last().1)
    }
}

impl View for PlanCache {
    type V = Map<PlanKey, u64>;

    closed spec fn view(&self) -> Map<PlanKey, u64> {
        entries_map(self.entries@)
    }
}

/// What becomes of the cache and what is answered for `key`, where making the plan,
/// if that was needed, returned `code` and `handle`. A plan that is kept is answered
/// whatever was returned, and one that could not be made is not kept.
pub open spec fn answered(m: Map<PlanKey, u64>, key: PlanKey, code: i32, handle: u64) -> (
    Map<PlanKey, u64>,
    Result<u64, Seq<char>>,
) {
    if m.contains_key(key) {
        (m, Ok(m[key]))
    } else if code == 0 {
        (m.insert(key, handle), Ok(handle))
    } else {
        (m, Err(plan_complaint(code, key, key.layout())))
    }
}

/// A plan is made once: after an answer, the same key has the same answer, and the
/// cache stays, whatever another attempt would return.
pub proof fn plan_is_kept(
    m: Map<PlanKey, u64>,
    key: PlanKey,
    code: i32,
    handle: u64,
    code2: i32,
    handle2: u64,
)
    ensures
        ({
            let (kept, r) = answered(m, key, code, handle);
            r is Ok ==> kept.contains_key(key) && answered(kept, key, code2, handle2) == (kept, r)
        }),
{
}

/// A failure keeps nothing, so that the next attempt decides; and no answer touches
/// what is kept for another key.
pub proof fn failed_plan_is_not_kept(
    m: Map<PlanKey, u64>,
    key: PlanKey,
    code: i32,
    handle: u64,
    other: PlanKey,
)
    ensures
        ({
            let (kept, r) = answered(m, key, code, handle);
            &&& r is Err ==> kept == m && !kept.contains_key(key)
            &&& other != key ==> kept.contains_key(other) == m.contains_key(other) && kept[other]
                == m[other]
        }),
{
}

impl PlanCache {
    pub fn new() -> (r: PlanCache)
        ensures
            r@ == Map::<PlanKey, u64>::empty(),
    {
        PlanCache { entries: Vec::new() }
    }

    /// The handle of the plan for `key`, if it has been made.
    pub fn find(&self, key: &PlanKey) -> (r: Option<u64>)
        ensures
            r == if self@.contains_key(*key) {
                Some(self@[*key])
            } else {
                None
            },
    {
        let mut i: usize = self.entries.len();
        assert(self.entries@.take(i as int) =~= self.entries@);
        while i > 0
            invariant
                i <= self.entries.len(),
                self@.contains_key(*key) == entries_map(self.entries@.take(i as int)).contains_key(
                    *key,
                ),
                self@.contains_key(*key) ==> self@[*key] == entries_map(
                    self.entries@.take(i as int),
                )[*key],
            decreases i,
        {
            i -= 1;
            let ghost s = self.entries@.take(i + 1);
            assert(s.drop_last() =~= self.entries@.take(i as int));
            assert(s.last() == self.entries@[i as int]);
            let k = self.entries[i].0;
            if k == *key {
                return Some(self.entries[i].1);
            }
        }
        None
    }

    /// The plan that has to be made for `key`: none where it is kept already.
    pub fn wanted(&self, key: &PlanKey) -> (r: Option<Geometry>)
        requires
            key.fits(),
        ensures
            r == if self@.contains_key(*key) {
                None
            } else {
                Some(key.layout())
            },
    {
        match self.find(key) {
            Some(_) => None,
            None => Some(key.geometry()),
        }
    }

    /// Answer for `key`, where making the plan, if that was needed, returned `code`
    /// and `handle`.
    pub fn answer(&mut self, key: PlanKey, code: i32, handle: u64) -> (r: Result<u64, String>)
        requires
            key.fits(),
        ensures
            final(self)@ == answered(old(self)@, key, code, handle).0,
            match r {
                Ok(h) => answered(old(self)@, key, code, handle).1 == Ok::<u64, Seq<char>>(h),
                Err(e) => answered(old(self)@, key, code, handle).1 == Err::<u64, Seq<char>>(e@),
            },
    {
        match self.find(&key) {
            Some(h) => Ok(h),
            None => {
                if code != 0 {
                    return Err(plan_failure(code, &key, &key.geometry()));
                }
                self.insert(key, handle);
                Ok(handle)
            },
        }
    }

    /// Keep the handle of a plan.
    pub fn insert(&mut self, key: PlanKey, handle: u64)
        ensures
            final(self)@ == old(self)@.insert(key, handle),
    {
        self.entries.push((key, handle));
        assert(self.entries@.drop_last() =~= old(self).entries@);
    }
}

// ---------------------------------------------------------------------------
// The half spectrum
// ---------------------------------------------------------------------------

/// The complex side of a plan has the frequencies that a real plane of `w` columns
/// needs, and none twice: from zero up to half of `w`. On either side the planes lie
/// one right behind the other, and the real side has the extents of the plane.
pub proof fn half_spectrum_is_enough(k: PlanKey)
    requires
        k.h <= i32::MAX,
        k.w < i32::MAX,
        k.h * k.w <= i32::MAX,
        k.h * (k.w + 2) <= i32::MAX,
        k.batch <= i32::MAX,
    ensures
        ({
            let g = k.layout();
            let (plain, halved) = if k.inverse {
                (g.onembed, g.inembed)
            } else {
                (g.inembed, g.onembed)
            };
            let (plain_dist, halved_dist) = if k.inverse {
                (g.odist, g.idist)
            } else {
                (g.idist, g.odist)
            };
            &&& g.n.rows == k.h
            &&& g.n.cols == k.w
            &&& plain == g.n
            &&& halved.rows == k.h
            &&& 2 * (halved.cols - 1) <= k.w < 2 * halved.cols
            &&& plain_dist == plain.rows * plain.cols
            &&& halved_dist == halved.rows * halved.cols
            &&& g.batch == k.batch
            &&& g.kind == if k.inverse {
                0x2ci32
            } else {
                0x2ai32
            }
        }),
{
    let hw = k.w as int / 2 + 1;
    assert(k.h * hw <= k.h * (k.w + 2)) by (nonlinear_arith)
        requires
            hw <= k.w + 2,
            0 <= k.h,
    ;
    assert(0 <= k.h * hw) by (nonlinear_arith)
        requires
            0 <= hw,
            0 <= k.h,
    ;
}

} // verus!
