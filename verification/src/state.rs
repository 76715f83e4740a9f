use vstd::prelude::*;

use crate::ampl::{ring_pos, ring_pos_i64, Ampl};
use crate::bitvec::{spec_bit, spec_flip_bit, spec_set_bit, BitVec};
use crate::prog::Ins;

verus! {

/// The errors the engine can surface.  Any of them aborts the whole
/// simulation; there is no partial result.
#[derive(Clone, Copy, PartialEq, Eq, Structural, Debug)]
pub enum SimError {
    /// A qubit index used by an instruction lies outside [0, n).
    IndexError,
    /// The declared qubit count exceeds what the engine supports.
    CapacityError,
    /// A ring coefficient left the representable range: a sum fell outside
    /// i64, or a division by sqrt(2) met an odd coefficient.
    OverflowError,
    /// The merge left more than one surviving branch for one basis state.
    InternalConsistencyError,
}

/// One interference term of the superposition: an exact amplitude, a phase
/// in units of pi / 4 (kept in [0, 8)), and a basis state.
#[derive(Clone, Copy, PartialEq, Eq, Structural, Debug)]
pub struct World {
    /// Counts fractions of 2^(-n/2), where n is the qubit count.
    pub ampl: Ampl,
    /// Multiples of pi / 4, in [0, 8).
    pub phase: u32,
    pub vec: BitVec,
}

impl World {
    /// The branch the execution state starts from: the whole normalization
    /// constant 2^(n/2) on the all-zero basis state, phase 0.  For odd n
    /// the constant is 2^((n-1)/2) * sqrt(2), held in the sqrt(2) slot.
    pub open spec fn spec_init(n: u32) -> World {
        World {
            ampl: if n % 2 == 0 {
                Ampl { a: 1i64 << (n / 2), b: 0 }
            } else {
                Ampl { a: 0, b: 1i64 << (n / 2) }
            },
            phase: 0,
            vec: BitVec { bits: 0 },
        }
    }

    pub fn init(n: u32) -> (r: World)
        requires
            n <= 64,
        ensures
            r == World::spec_init(n),
    {
        World {
            ampl: if n % 2 == 0 {
                Ampl { a: 1i64 << (n / 2), b: 0 }
            } else {
                Ampl { a: 0, b: 1i64 << (n / 2) }
            },
            phase: 0,
            vec: BitVec { bits: 0 },
        }
    }

    /// The branch's phase slot is in range.
    pub open spec fn phase_wf(self) -> bool {
        self.phase < 8
    }

    /// The per-gate rewrite of one branch, as a sequence of new branches:
    /// H splits in two (the "bit set" branch picks up a pi phase shift when
    /// the qubit was already set), all other gates rewrite in place.
    pub open spec fn spec_transition(self, ins: Ins) -> Seq<World> {
        match ins {
            Ins::H(i) => seq![
                World {
                    ampl: self.ampl.spec_div_sqrt2(),
                    phase: self.phase,
                    vec: BitVec { bits: spec_set_bit(self.vec.bits, i, 0) },
                },
                World {
                    ampl: self.ampl.spec_div_sqrt2(),
                    phase: ((self.phase + 4 * spec_bit(self.vec.bits, i)) % 8) as u32,
                    vec: BitVec { bits: spec_set_bit(self.vec.bits, i, 1) },
                },
            ],
            Ins::X(i) => seq![
                World { vec: BitVec { bits: spec_flip_bit(self.vec.bits, i) }, ..self },
            ],
            Ins::T(i) => seq![
                World { phase: ((self.phase + spec_bit(self.vec.bits, i)) % 8) as u32, ..self },
            ],
            Ins::Tdg(i) => seq![
                World {
                    phase: ((self.phase + 7 * spec_bit(self.vec.bits, i)) % 8) as u32,
                    ..self
                },
            ],
            Ins::Cx(c, t) => seq![
                World {
                    vec: if spec_bit(self.vec.bits, c) == 1 {
                        BitVec { bits: spec_flip_bit(self.vec.bits, t) }
                    } else {
                        self.vec
                    },
                    ..self
                },
            ],
        }
    }

    /// Applies one instruction to this branch alone.  Total for every
    /// in-range instruction; for H the caller must have checked that the
    /// integer coefficient is even, so the division by sqrt(2) is exact.
    pub fn apply(self, ins: Ins) -> (r: Vec<World>)
        requires
            ins.spec_in_range(64),
            self.phase_wf(),
            ins is H ==> self.ampl.a as int % 2 == 0,
        ensures
            r@ == self.spec_transition(ins),
    {
        let mut r: Vec<World> = Vec::new();
        match ins {
            Ins::H(i) => {
                let half = self.ampl.div_sqrt2();
                let b = self.vec.get_bit(i);
                r.push(World { ampl: half, phase: self.phase, vec: self.vec.set_bit(i, 0) });
                r.push(World {
                    ampl: half,
                    phase: (self.phase + 4 * b) % 8,
                    vec: self.vec.set_bit(i, 1),
                });
            }
            Ins::X(i) => {
                r.push(World { vec: self.vec.flip_bit(i), ..self });
            }
            Ins::T(i) => {
                r.push(World { phase: (self.phase + self.vec.get_bit(i)) % 8, ..self });
            }
            Ins::Tdg(i) => {
                r.push(World { phase: (self.phase + 7 * self.vec.get_bit(i)) % 8, ..self });
            }
            Ins::Cx(c, t) => {
                let v = if self.vec.get_bit(c) == 1 {
                    self.vec.flip_bit(t)
                } else {
                    self.vec
                };
                r.push(World { vec: v, ..self });
            }
        }
        proof {
            assert(r@ =~= self.spec_transition(ins));
        }
        r
    }
}

/// The signed contribution of branch w to the integer coefficient of the
/// phase pair (i, i + 4) at basis state v: phases i and i + 4 point in
/// opposite directions of the complex plane, so a branch at phase i + 4
/// counts negatively.
pub open spec fn contrib_a(w: World, v: u64, i: int) -> int {
    if w.vec.bits == v && w.phase % 4 == i {
        if w.phase < 4 {
            w.ampl.a as int
        } else {
            -(w.ampl.a as int)
        }
    } else {
        0
    }
}

/// As `contrib_a`, for the sqrt(2) coefficient.
pub open spec fn contrib_b(w: World, v: u64, i: int) -> int {
    if w.vec.bits == v && w.phase % 4 == i {
        if w.phase < 4 {
            w.ampl.b as int
        } else {
            -(w.ampl.b as int)
        }
    } else {
        0
    }
}

/// The net integer coefficient of phase pair i at basis state v, over the
/// whole branch sequence: the exact value the merge must preserve.
pub open spec fn net_a(s: Seq<World>, v: u64, i: int) -> int
    decreases s.len(),
{
    if s.len() == 0 {
        0
    } else {
        net_a(s.drop_last(), v, i) + contrib_a(s.last(), v, i)
    }
}

/// As `net_a`, for the sqrt(2) coefficient.
pub open spec fn net_b(s: Seq<World>, v: u64, i: int) -> int
    decreases s.len(),
{
    if s.len() == 0 {
        0
    } else {
        net_b(s.drop_last(), v, i) + contrib_b(s.last(), v, i)
    }
}

/// The distinct basis states of s, in order of first appearance: the order
/// in which the merge emits its groups.
pub open spec fn vec_list(s: Seq<World>) -> Seq<u64>
    decreases s.len(),
{
    if s.len() == 0 {
        Seq::empty()
    } else {
        let pre = vec_list(s.drop_last());
        if pre.contains(s.last().vec.bits) {
            pre
        } else {
            pre.push(s.last().vec.bits)
        }
    }
}

/// What the merge emits for phase pair i of basis state v: nothing when
/// the pair cancels exactly, else one branch carrying the net amplitude,
/// labelled with whichever of the two opposite phases makes it positive.
pub open spec fn epair(s: Seq<World>, v: u64, i: int) -> Seq<World> {
    let na = net_a(s, v, i);
    let nb = net_b(s, v, i);
    if na == 0 && nb == 0 {
        Seq::empty()
    } else if ring_pos(na, nb) {
        seq![
            World {
                ampl: Ampl { a: na as i64, b: nb as i64 },
                phase: i as u32,
                vec: BitVec { bits: v },
            },
        ]
    } else {
        seq![
            World {
                ampl: Ampl { a: (-na) as i64, b: (-nb) as i64 },
                phase: (i + 4) as u32,
                vec: BitVec { bits: v },
            },
        ]
    }
}

/// The emissions for the first i of the four phase pairs of basis state v.
pub open spec fn epairs_upto(s: Seq<World>, v: u64, i: int) -> Seq<World>
    decreases i,
{
    if i <= 0 {
        Seq::empty()
    } else {
        epairs_upto(s, v, i - 1) + epair(s, v, i - 1)
    }
}

/// Everything the merge emits for basis state v: at most four branches.
pub open spec fn emit_group(s: Seq<World>, v: u64) -> Seq<World> {
    epairs_upto(s, v, 4)
}

/// The merge output for the basis states listed in vl, in list order.
pub open spec fn merge_groups(s: Seq<World>, vl: Seq<u64>) -> Seq<World>
    decreases vl.len(),
{
    if vl.len() == 0 {
        Seq::empty()
    } else {
        merge_groups(s, vl.drop_last()) + emit_group(s, vl.last())
    }
}

/// The merged form of a branch sequence: branches regrouped by basis
/// state, each group collapsed to at most one branch per opposite phase
/// pair by exact cancellation.
pub open spec fn spec_merge(s: Seq<World>) -> Seq<World> {
    merge_groups(s, vec_list(s))
}

/// All net coefficients stay strictly inside i64 (symmetrically, so that
/// negation is also safe): the condition under which the merge succeeds.
pub open spec fn net_fits(x: int) -> bool {
    -(i64::MAX as int) <= x <= i64::MAX as int
}

pub open spec fn merge_fits(s: Seq<World>) -> bool {
    forall|v: u64, i: int|
        0 <= i < 4 ==> net_fits(#[trigger] net_a(s, v, i)) && net_fits(net_b(s, v, i))
}

/// The nets of the first g listed basis states all fit.
pub open spec fn groups_fit(s: Seq<World>, vl: Seq<u64>, g: int) -> bool {
    forall|q: int, ii: int|
        0 <= q < g && 0 <= ii < 4 ==> net_fits(#[trigger] net_a(s, vl[q], ii)) && net_fits(
            net_b(s, vl[q], ii),
        )
}

/// The nets of the first i phase pairs of basis state v all fit.
pub open spec fn pairs_fit(s: Seq<World>, v: u64, i: int) -> bool {
    forall|ii: int|
        0 <= ii < i ==> net_fits(#[trigger] net_a(s, v, ii)) && net_fits(net_b(s, v, ii))
}


/// One more phase pair checked to fit.
proof fn lemma_pairs_fit_step(s: Seq<World>, v: u64, i: int)
    requires
        0 <= i,
        pairs_fit(s, v, i),
        net_fits(net_a(s, v, i)),
        net_fits(net_b(s, v, i)),
    ensures
        pairs_fit(s, v, i + 1),
{
}

/// One more basis-state group checked to fit.
proof fn lemma_groups_fit_step(s: Seq<World>, vl: Seq<u64>, g: int, v: u64)
    requires
        0 <= g < vl.len(),
        vl[g] == v,
        groups_fit(s, vl, g),
        pairs_fit(s, v, 4),
    ensures
        groups_fit(s, vl, g + 1),
{
    assert forall|q: int, ii: int| 0 <= q < g + 1 && 0 <= ii < 4 implies net_fits(
        #[trigger] net_a(s, vl[q], ii),
    ) && net_fits(net_b(s, vl[q], ii)) by {
        if q == g {
            assert(net_fits(net_a(s, v, ii)));
            assert(net_fits(net_b(s, v, ii)));
            assert(vl[q] == v);
            assert(net_fits(net_a(s, vl[q], ii)));
            assert(net_fits(net_b(s, vl[q], ii)));
        } else {
            assert(0 <= q < g);
            assert(net_fits(net_a(s, vl[q], ii)));
            assert(net_fits(net_b(s, vl[q], ii)));
        }
    }
}

/// When every listed basis state fits, every basis state fits: the ones
/// that never occur have zero nets.
proof fn lemma_groups_fit_all(s: Seq<World>)
    requires
        groups_fit(s, vec_list(s), vec_list(s).len() as int),
    ensures
        merge_fits(s),
{
    assert forall|v: u64, i: int| 0 <= i < 4 implies net_fits(#[trigger] net_a(s, v, i))
        && net_fits(net_b(s, v, i)) by {
        if vec_list(s).contains(v) {
            let q = choose|q: int| 0 <= q < vec_list(s).len() && vec_list(s)[q] == v;
            assert(net_fits(net_a(s, vec_list(s)[q], i)) && net_fits(net_b(s, vec_list(s)[q], i)));
        } else {
            lemma_net_off_list(s, v, i);
        }
    }
}

/// A basis state that never occurs in s has zero net coefficients.
pub proof fn lemma_net_off_list(s: Seq<World>, v: u64, i: int)
    requires
        !vec_list(s).contains(v),
    ensures
        net_a(s, v, i) == 0,
        net_b(s, v, i) == 0,
    decreases s.len(),
{
    if s.len() > 0 {
        let pre = vec_list(s.drop_last());
        assert forall|x: u64| pre.contains(x) implies vec_list(s).contains(x) by {
            let q = choose|q: int| 0 <= q < pre.len() && pre[q] == x;
            if !pre.contains(s.last().vec.bits) {
                assert(pre.push(s.last().vec.bits)[q] == x);
            }
        }
        if s.last().vec.bits == v {
            if pre.contains(v) {
                assert(vec_list(s).contains(v));
            } else {
                assert(pre.push(v)[pre.len() as int] == v);
                assert(vec_list(s).contains(v));
            }
            assert(false);
        }
        lemma_net_off_list(s.drop_last(), v, i);
    }
}

/// Regroups branches by basis state, accumulates each of the four
/// opposite phase pairs with exact integer arithmetic, and keeps one
/// branch per non-cancelling pair.  Fails exactly when some net
/// coefficient leaves the (symmetric) i64 range.
#[verifier::loop_isolation(false)]
#[verifier::rlimit(100)]
pub fn merge_branches(t: &Vec<World>) -> (r: Result<Vec<World>, SimError>)
    ensures
        r is Ok <==> merge_fits(t@),
        r is Ok ==> r->Ok_0@ == spec_merge(t@),
        r is Err ==> r->Err_0 == SimError::OverflowError,
{
    let mut vlist: Vec<u64> = Vec::new();
    let mut k: usize = 0;
    while k < t.len()
        invariant
            k <= t@.len(),
            vlist@ == vec_list(t@.take(k as int)),
        decreases t@.len() - k,
    {
        let key: u64 = t[k].vec.bits;
        let mut found: bool = false;
        let mut j: usize = 0;
        while j < vlist.len()
            invariant
                j <= vlist@.len(),
                found == exists|q: int| 0 <= q < j && vlist@[q] == key,
            decreases vlist@.len() - j,
        {
            if vlist[j] == key {
                found = true;
                proof {
                    assert(0 <= j < j + 1 && vlist@[j as int] == key);
                }
            }
            j = j + 1;
        }
        proof {
            assert(t@.take(k + 1).drop_last() =~= t@.take(k as int));
            assert(found == vlist@.contains(key));
        }
        if !found {
            vlist.push(key);
        }
        k = k + 1;
    }
    proof {
        assert(t@.take(t@.len() as int) =~= t@);
    }
    let mut out: Vec<World> = Vec::new();
    let mut g: usize = 0;
    while g < vlist.len()
        invariant
            g <= vlist@.len(),
            vlist@ == vec_list(t@),
            out@ == merge_groups(t@, vlist@.take(g as int)),
            groups_fit(t@, vlist@, g as int),
        decreases vlist@.len() - g,
    {
        let v: u64 = vlist[g];
        let mut i: u32 = 0;
        while i < 4
            invariant
                i <= 4,
                vlist@ == vec_list(t@),
                g < vlist@.len(),
                v == vlist@[g as int],
                out@ == merge_groups(t@, vlist@.take(g as int)) + epairs_upto(t@, v, i as int),
                pairs_fit(t@, v, i as int),
                groups_fit(t@, vlist@, g as int),
            decreases 4 - i,
        {
            let mut na: i128 = 0;
            let mut nb: i128 = 0;
            let mut k2: usize = 0;
            while k2 < t.len()
                invariant
                    k2 <= t@.len(),
                    na == net_a(t@.take(k2 as int), v, i as int),
                    nb == net_b(t@.take(k2 as int), v, i as int),
                    -(k2 as int) * (i64::MAX as int + 1) <= na <= (k2 as int) * (i64::MAX as int
                        + 1),
                    -(k2 as int) * (i64::MAX as int + 1) <= nb <= (k2 as int) * (i64::MAX as int
                        + 1),
                decreases t@.len() - k2,
            {
                let w = t[k2];
                proof {
                    assert(t@.take(k2 + 1).drop_last() =~= t@.take(k2 as int));
                    assert((k2 + 1) as int * (i64::MAX as int + 1) <= (usize::MAX as int) * (
                    i64::MAX as int + 1));
                }
                if w.vec.bits == v && w.phase % 4 == i {
                    if w.phase < 4 {
                        na = na + w.ampl.a as i128;
                        nb = nb + w.ampl.b as i128;
                    } else {
                        na = na - w.ampl.a as i128;
                        nb = nb - w.ampl.b as i128;
                    }
                }
                k2 = k2 + 1;
            }
            proof {
                assert(t@.take(t@.len() as int) =~= t@);
            }
            if na == 0 && nb == 0 {
                proof {
                    assert(epair(t@, v, i as int) =~= Seq::<World>::empty());
                    assert(out@ =~= merge_groups(t@, vlist@.take(g as int)) + epairs_upto(
                        t@,
                        v,
                        i as int + 1,
                    ));
                }
            } else if na < -(i64::MAX as i128) || na > i64::MAX as i128 || nb < -(i64::MAX
                as i128) || nb > i64::MAX as i128 {
                proof {
                    assert(!net_fits(net_a(t@, v, i as int)) || !net_fits(net_b(t@, v, i as int)));
                }
                return Err(SimError::OverflowError);
            } else if ring_pos_i64(na as i64, nb as i64) {
                out.push(
                    World { ampl: Ampl { a: na as i64, b: nb as i64 }, phase: i, vec: BitVec { bits: v } },
                );
                proof {
                    assert(out@ =~= merge_groups(t@, vlist@.take(g as int)) + epairs_upto(
                        t@,
                        v,
                        i as int + 1,
                    ));
                }
            } else {
                let ma: i128 = -na;
                let mb: i128 = -nb;
                out.push(
                    World {
                        ampl: Ampl { a: ma as i64, b: mb as i64 },
                        phase: i + 4,
                        vec: BitVec { bits: v },
                    },
                );
                proof {
                    assert(out@ =~= merge_groups(t@, vlist@.take(g as int)) + epairs_upto(
                        t@,
                        v,
                        i as int + 1,
                    ));
                }
            }
            proof {
                assert(na == net_a(t@, v, i as int));
                assert(nb == net_b(t@, v, i as int));
                lemma_pairs_fit_step(t@, v, i as int);
            }
            i = i + 1;
        }
        proof {
            assert(vlist@.take(g + 1).drop_last() =~= vlist@.take(g as int));
            assert(out@ =~= merge_groups(t@, vlist@.take(g + 1)));
            lemma_groups_fit_step(t@, vlist@, g as int, v);
        }
        g = g + 1;
    }
    proof {
        assert(vlist@.take(vlist@.len() as int) =~= vlist@);
        lemma_groups_fit_all(t@);
    }
    Ok(out)
}

/// Every branch keeps its phase slot in [0, 8).
pub open spec fn wf_worlds(s: Seq<World>) -> bool {
    forall|k: int| 0 <= k < s.len() ==> (#[trigger] s[k]).phase_wf()
}

/// Every branch's basis state uses only the low n bits.
pub open spec fn vecs_bounded(s: Seq<World>, n: u32) -> bool {
    forall|k: int| 0 <= k < s.len() ==> (#[trigger] s[k]).vec.bits >> n == 0
}

/// The result of rewriting every branch of s under one instruction, in
/// order: what the merge then compacts.
pub open spec fn step_branches(s: Seq<World>, ins: Ins) -> Seq<World>
    decreases s.len(),
{
    if s.len() == 0 {
        Seq::empty()
    } else {
        step_branches(s.drop_last(), ins) + s.last().spec_transition(ins)
    }
}

/// For an H instruction, every integer coefficient must be even, so that
/// the division by sqrt(2) is exact; other gates do not divide.
pub open spec fn h_coeffs_even(s: Seq<World>, ins: Ins) -> bool {
    ins is H ==> forall|k: int| 0 <= k < s.len() ==> (#[trigger] s[k]).ampl.a as int % 2 == 0
}

/// One full engine step: rewrite every branch, then merge.
pub open spec fn spec_step(s: Seq<World>, ins: Ins) -> Seq<World> {
    spec_merge(step_branches(s, ins))
}

/// The step succeeds: the division is exact and no net leaves i64.
pub open spec fn step_ok(s: Seq<World>, ins: Ins) -> bool {
    h_coeffs_even(s, ins) && merge_fits(step_branches(s, ins))
}

/// The execution state: the whole superposition as an unordered
/// collection of branches (kept in a vector, in merge emission order).
#[derive(Debug)]
pub struct State {
    pub worlds: Vec<World>,
}

impl View for State {
    type V = Seq<World>;

    open spec fn view(&self) -> Seq<World> {
        self.worlds@
    }
}

impl State {
    /// The initial execution state: one branch holding the whole
    /// normalization constant on the all-zero basis state.
    pub fn init(n: u32) -> (r: State)
        requires
            n <= 64,
        ensures
            r@ == seq![World::spec_init(n)],
    {
        let r = State { worlds: vec![World::init(n)] };
        proof {
            assert(r@ =~= seq![World::spec_init(n)]);
        }
        r
    }

    /// Applies one instruction to the whole state: every branch is
    /// rewritten, then the merge regroups and cancels.  Consumes the old
    /// state; fails exactly when a division by sqrt(2) would be inexact or
    /// a net coefficient would leave i64.
    #[verifier::loop_isolation(false)]
    pub fn apply(self, ins: Ins) -> (r: Result<State, SimError>)
        requires
            ins.spec_in_range(64),
            wf_worlds(self@),
        ensures
            r is Ok <==> step_ok(self@, ins),
            r is Ok ==> r->Ok_0@ == spec_step(self@, ins),
            r is Err ==> r->Err_0 == SimError::OverflowError,
    {
        let is_h: bool = matches!(ins, Ins::H(_));
        let mut t: Vec<World> = Vec::new();
        let mut k: usize = 0;
        while k < self.worlds.len()
            invariant
                k <= self@.len(),
                t@ == step_branches(self@.take(k as int), ins),
                is_h == ins is H,
                forall|q: int|
                    0 <= q < k && is_h ==> (#[trigger] self@[q]).ampl.a as int % 2 == 0,
            decreases self@.len() - k,
        {
            let w: World = self.worlds[k];
            if is_h {
                let rem: i64 = w.ampl.a.checked_rem_euclid(2).unwrap();
                if rem != 0 {
                    proof {
                        assert(!h_coeffs_even(self@, ins));
                    }
                    return Err(SimError::OverflowError);
                }
            }
            let parts: Vec<World> = w.apply(ins);
            let mut j: usize = 0;
            while j < parts.len()
                invariant
                    j <= parts@.len(),
                    t@ == step_branches(self@.take(k as int), ins) + parts@.take(j as int),
                decreases parts@.len() - j,
            {
                t.push(parts[j]);
                proof {
                    assert(parts@.take(j as int + 1) =~= parts@.take(j as int).push(
                        parts@[j as int],
                    ));
                    assert(t@ =~= step_branches(self@.take(k as int), ins) + parts@.take(
                        j as int + 1,
                    ));
                }
                j = j + 1;
            }
            proof {
                assert(self@.take(k + 1).drop_last() =~= self@.take(k as int));
                assert(parts@.take(parts@.len() as int) =~= parts@);
                assert(t@ =~= step_branches(self@.take(k + 1), ins));
            }
            k = k + 1;
        }
        proof {
            assert(self@.take(self@.len() as int) =~= self@);
        }
        match merge_branches(&t) {
            Ok(out) => Ok(State { worlds: out }),
            Err(e) => Err(e),
        }
    }
}

} // verus!

