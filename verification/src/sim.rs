use vstd::prelude::*;

use vstd::arithmetic::power2::pow2;

use crate::ampl::Ampl;
use crate::bitvec::{be_val, lemma_be_val_bound, lemma_bit_ops_bounded};
use crate::prog::Ins;
use crate::state::{
    epair, epairs_upto, merge_groups, spec_merge, spec_step, step_branches, step_ok, vec_list,
    vecs_bounded, wf_worlds, SimError, State, World,
};

verus! {

/// One entry of the projected vector, still exact: the ring amplitude and
/// the discrete phase of the single branch that reached this index, or the
/// zero entry where no branch survived.
#[derive(Clone, Copy, PartialEq, Eq, Structural, Debug)]
pub struct OutAmp {
    pub ampl: Ampl,
    pub phase: u32,
}

/// The entry of an index no branch reached.
pub open spec fn zero_entry() -> OutAmp {
    OutAmp { ampl: Ampl { a: 0, b: 0 }, phase: 0 }
}

/// The output index of a branch: its basis state read as a big-endian
/// integer over n qubits.
pub open spec fn out_index(w: World, n: u32) -> nat {
    be_val(w.vec.bits, n as nat)
}

/// No two branches share an output index: what a correctly merged final
/// state is expected to satisfy.
pub open spec fn distinct_indices(s: Seq<World>, n: u32) -> bool {
    forall|j: int, k: int|
        0 <= j < k < s.len() ==> #[trigger] out_index(s[j], n) != #[trigger] out_index(s[k], n)
}

/// Every branch the merge emits keeps its phase in [0, 8) and carries one
/// of the listed basis states.
proof fn lemma_epairs_wf(s: Seq<World>, v: u64, i: int)
    requires
        0 <= i <= 4,
    ensures
        forall|k: int|
            0 <= k < epairs_upto(s, v, i).len() ==> (#[trigger] epairs_upto(s, v, i)[k]).phase < 8
                && epairs_upto(s, v, i)[k].vec.bits == v,
    decreases i,
{
    if i > 0 {
        lemma_epairs_wf(s, v, i - 1);
        assert forall|k: int|
            0 <= k < epairs_upto(s, v, i).len() implies (#[trigger] epairs_upto(s, v, i)[k]).phase
            < 8 && epairs_upto(s, v, i)[k].vec.bits == v by {
            let pre = epairs_upto(s, v, i - 1);
            if k < pre.len() {
                assert(epairs_upto(s, v, i)[k] == pre[k]);
            } else {
                assert(epairs_upto(s, v, i)[k] == epair(s, v, i - 1)[k - pre.len()]);
            }
        }
    }
}

proof fn lemma_merge_groups_wf(s: Seq<World>, vl: Seq<u64>)
    ensures
        forall|k: int|
            0 <= k < merge_groups(s, vl).len() ==> (#[trigger] merge_groups(s, vl)[k]).phase < 8
                && vl.contains(merge_groups(s, vl)[k].vec.bits),
    decreases vl.len(),
{
    if vl.len() > 0 {
        lemma_merge_groups_wf(s, vl.drop_last());
        lemma_epairs_wf(s, vl.last(), 4);
        assert forall|k: int| 0 <= k < merge_groups(s, vl).len() implies (
        #[trigger] merge_groups(s, vl)[k]).phase < 8 && vl.contains(
            merge_groups(s, vl)[k].vec.bits,
        ) by {
            let pre = merge_groups(s, vl.drop_last());
            if k < pre.len() {
                assert(merge_groups(s, vl)[k] == pre[k]);
                let x = pre[k].vec.bits;
                let q = choose|q: int| 0 <= q < vl.drop_last().len() && vl.drop_last()[q] == x;
                assert(vl[q] == x);
            } else {
                assert(merge_groups(s, vl)[k] == epairs_upto(s, vl.last(), 4)[k - pre.len()]);
                assert(vl[vl.len() - 1] == vl.last());
            }
        }
    }
}

/// Every basis state the merge lists comes from some branch of s, so the
/// bound on the used bits carries over.
proof fn lemma_vec_list_bounded(s: Seq<World>, n: u32)
    requires
        vecs_bounded(s, n),
    ensures
        forall|q: int| 0 <= q < vec_list(s).len() ==> #[trigger] vec_list(s)[q] >> n == 0,
    decreases s.len(),
{
    if s.len() > 0 {
        assert(vecs_bounded(s.drop_last(), n)) by {
            assert forall|k: int|
                0 <= k < s.drop_last().len() implies (#[trigger] s.drop_last()[k]).vec.bits >> n
                == 0 by {
                assert(s.drop_last()[k] == s[k]);
            }
        }
        lemma_vec_list_bounded(s.drop_last(), n);
        assert(s[s.len() - 1].vec.bits >> n == 0);
        assert forall|q: int| 0 <= q < vec_list(s).len() implies #[trigger] vec_list(s)[q] >> n
            == 0 by {
            let pre = vec_list(s.drop_last());
            if q < pre.len() {
                assert(vec_list(s)[q] == pre[q]);
            }
        }
    }
}

/// The merge output is well formed: phases in range, basis states within
/// the bound of the input.
pub proof fn lemma_merge_wf(s: Seq<World>, n: u32)
    requires
        vecs_bounded(s, n),
    ensures
        wf_worlds(spec_merge(s)),
        vecs_bounded(spec_merge(s), n),
{
    lemma_merge_groups_wf(s, vec_list(s));
    lemma_vec_list_bounded(s, n);
    assert forall|k: int| 0 <= k < spec_merge(s).len() implies (#[trigger] spec_merge(
        s,
    )[k]).phase_wf() && spec_merge(s)[k].vec.bits >> n == 0 by {
        assert(vec_list(s).contains(spec_merge(s)[k].vec.bits));
        let q = choose|q: int|
            0 <= q < vec_list(s).len() && vec_list(s)[q] == spec_merge(s)[k].vec.bits;
        assert(vec_list(s)[q] >> n == 0);
    }
}

/// The per-branch rewrite touches only qubits below n, so the bound on the
/// used bits carries over.
pub proof fn lemma_step_bounded(s: Seq<World>, ins: Ins, n: u32)
    requires
        vecs_bounded(s, n),
        ins.spec_in_range(n),
        n <= 64,
    ensures
        vecs_bounded(step_branches(s, ins), n),
    decreases s.len(),
{
    if s.len() > 0 {
        assert(vecs_bounded(s.drop_last(), n)) by {
            assert forall|k: int|
                0 <= k < s.drop_last().len() implies (#[trigger] s.drop_last()[k]).vec.bits >> n
                == 0 by {
                assert(s.drop_last()[k] == s[k]);
            }
        }
        lemma_step_bounded(s.drop_last(), ins, n);
        let w = s.last();
        assert(s[s.len() - 1].vec.bits >> n == 0);
        match ins {
            Ins::H(i) => {
                lemma_bit_ops_bounded(w.vec.bits, i, 0, n);
                lemma_bit_ops_bounded(w.vec.bits, i, 1, n);
            },
            Ins::X(i) => {
                lemma_bit_ops_bounded(w.vec.bits, i, 0, n);
            },
            Ins::T(_) => {},
            Ins::Tdg(_) => {},
            Ins::Cx(_, t) => {
                lemma_bit_ops_bounded(w.vec.bits, t, 0, n);
            },
        }
        assert forall|k: int|
            0 <= k < step_branches(s, ins).len() implies (#[trigger] step_branches(s, ins)[k]).vec.bits
            >> n == 0 by {
            let pre = step_branches(s.drop_last(), ins);
            if k < pre.len() {
                assert(step_branches(s, ins)[k] == pre[k]);
            } else {
                assert(step_branches(s, ins)[k] == w.spec_transition(ins)[k - pre.len()]);
            }
        }
    }
}

impl State {
    /// Projects the state onto the dense output vector of length 2^n, in
    /// exact form: entry i holds the amplitude and phase of the one branch
    /// whose basis state reads i big-endian, or the zero entry.  Finding a
    /// second branch on one index means the merge invariant was broken.
    #[verifier::loop_isolation(false)]
    #[verifier::rlimit(100)]
    pub fn to_statevec(&self, n: u32) -> (r: Result<Vec<OutAmp>, SimError>)
        requires
            n <= 63,
        ensures
            r is Ok <==> distinct_indices(self@, n),
            r is Err ==> r->Err_0 == SimError::InternalConsistencyError,
            r is Ok ==> r->Ok_0@.len() == pow2(n as nat),
            r is Ok ==> forall|j: int|
                0 <= j < self@.len() ==> r->Ok_0@[out_index(self@[j], n) as int] == (OutAmp {
                    ampl: self@[j].ampl,
                    phase: self@[j].phase,
                }),
            r is Ok ==> forall|idx: int|
                0 <= idx < r->Ok_0@.len() && (forall|j: int|
                    0 <= j < self@.len() ==> out_index(#[trigger] self@[j], n) != idx)
                    ==> r->Ok_0@[idx] == zero_entry(),
    {
        let sh: u64 = n as u64;
        proof {
            vstd::bits::lemma_u64_pow2_no_overflow(n as nat);
            vstd::bits::lemma_u64_shl_is_mul(1u64, sh);
        }
        let target: u64 = 1u64 << sh;
        let mut entries: Vec<OutAmp> = Vec::new();
        let mut occ: Vec<bool> = Vec::new();
        while (entries.len() as u64) < target
            invariant
                occ@.len() == entries@.len(),
                entries@.len() <= target,
                forall|idx: int| 0 <= idx < entries@.len() ==> #[trigger] entries@[idx] == zero_entry(),
                forall|idx: int| 0 <= idx < occ@.len() ==> #[trigger] occ@[idx] == false,
            decreases target - entries.len(),
        {
            entries.push(OutAmp { ampl: Ampl { a: 0, b: 0 }, phase: 0 });
            occ.push(false);
        }
        let mut j: usize = 0;
        while j < self.worlds.len()
            invariant
                j <= self@.len(),
                entries@.len() == pow2(n as nat),
                occ@.len() == entries@.len(),
                forall|q: int| 0 <= q < j ==> out_index(#[trigger] self@[q], n) < pow2(n as nat),
                forall|q: int|
                    0 <= q < j ==> occ@[out_index(#[trigger] self@[q], n) as int] == true,
                forall|q: int|
                    0 <= q < j ==> entries@[out_index(#[trigger] self@[q], n) as int] == (OutAmp {
                        ampl: self@[q].ampl,
                        phase: self@[q].phase,
                    }),
                forall|idx: int|
                    0 <= idx < entries@.len() && occ@[idx] == false ==> #[trigger] entries@[idx]
                        == zero_entry(),
                forall|idx: int|
                    0 <= idx < occ@.len() && #[trigger] occ@[idx] == true ==> exists|q: int|
                        0 <= q < j && out_index(self@[q], n) == idx,
                forall|q1: int, q2: int|
                    0 <= q1 < q2 < j ==> #[trigger] out_index(self@[q1], n) != #[trigger] out_index(
                        self@[q2],
                        n,
                    ),
            decreases self@.len() - j,
        {
            let w: World = self.worlds[j];
            proof {
                lemma_be_val_bound(w.vec.bits, n as nat);
            }
            let idx64: u64 = w.vec.to_be_u64(n);
            proof {
                assert(idx64 < pow2(n as nat));
                assert(entries@.len() <= usize::MAX);
                assert(idx64 <= usize::MAX);
            }
            let idx: usize = idx64 as usize;
            proof {
                assert(idx as int == idx64 as int);
                assert(idx < entries@.len());
            }
            if occ[idx] {
                proof {
                    let q = choose|q: int| 0 <= q < j && out_index(self@[q], n) == idx as int;
                    assert(out_index(self@[q], n) == out_index(self@[j as int], n));
                    assert(!distinct_indices(self@, n));
                }
                return Err(SimError::InternalConsistencyError);
            }
            let ghost occ0 = occ@;
            let ghost ent0 = entries@;
            occ.set(idx, true);
            entries.set(idx, OutAmp { ampl: w.ampl, phase: w.phase });
            proof {
                assert(occ@ =~= occ0.update(idx as int, true));
                assert(entries@ =~= ent0.update(
                    idx as int,
                    OutAmp { ampl: w.ampl, phase: w.phase },
                ));
                assert(out_index(self@[j as int], n) as int == idx as int);
                assert(out_index(self@[j as int], n) < pow2(n as nat));
                assert(occ0[idx as int] == false);
                assert forall|q: int| 0 <= q < j implies out_index(
                    #[trigger] self@[q],
                    n,
                ) as int != idx as int by {
                    assert(occ0[out_index(self@[q], n) as int] == true);
                }
            }
            j = j + 1;
        }
        Ok(entries)
    }
}

/// Every instruction's qubit indices lie below n.
pub open spec fn all_in_range(instrs: Seq<Ins>, n: u32) -> bool {
    forall|k: int| 0 <= k < instrs.len() ==> (#[trigger] instrs[k]).spec_in_range(n)
}

/// The branch set the engine starts from.
pub open spec fn init_worlds(n: u32) -> Seq<World> {
    seq![World::spec_init(n)]
}

/// Runs the instruction sequence from branch set s, one step (rewrite +
/// merge) per instruction; None where a step fails with an overflow.
pub open spec fn spec_run(s: Seq<World>, instrs: Seq<Ins>) -> Option<Seq<World>>
    decreases instrs.len(),
{
    if instrs.len() == 0 {
        Option::Some(s)
    } else if step_ok(s, instrs[0]) {
        spec_run(spec_step(s, instrs[0]), instrs.skip(1))
    } else {
        Option::None
    }
}

/// Simulates a whole program: applies every instruction in order to the
/// initial state, then projects onto the dense output vector.  The result
/// is an exact function of (n, instrs) alone, so two runs on one program
/// return identical vectors.
#[verifier::loop_isolation(false)]
pub fn simulate(n: u32, instrs: &Vec<Ins>) -> (r: Result<Vec<OutAmp>, SimError>)
    ensures
        (r is Err && r->Err_0 == SimError::CapacityError) <==> n > 63,
        (r is Err && r->Err_0 == SimError::IndexError) <==> (n <= 63 && !all_in_range(instrs@, n)),
        (r is Err && r->Err_0 == SimError::OverflowError) <==> (n <= 63 && all_in_range(instrs@, n)
            && spec_run(init_worlds(n), instrs@) is None),
        (r is Err && r->Err_0 == SimError::InternalConsistencyError) <==> (n <= 63 && all_in_range(
            instrs@,
            n,
        ) && spec_run(init_worlds(n), instrs@) is Some && !distinct_indices(
            spec_run(init_worlds(n), instrs@)->0,
            n,
        )),
        r is Ok <==> (n <= 63 && all_in_range(instrs@, n) && spec_run(init_worlds(n), instrs@) is Some
            && distinct_indices(spec_run(init_worlds(n), instrs@)->0, n)),
        r is Ok ==> r->Ok_0@.len() == pow2(n as nat),
        r is Ok ==> forall|j: int|
            0 <= j < spec_run(init_worlds(n), instrs@)->0.len()
                ==> r->Ok_0@[out_index(#[trigger] spec_run(init_worlds(n), instrs@)->0[j], n) as int]
                == (OutAmp {
                ampl: spec_run(init_worlds(n), instrs@)->0[j].ampl,
                phase: spec_run(init_worlds(n), instrs@)->0[j].phase,
            }),
        r is Ok ==> forall|idx: int|
            0 <= idx < r->Ok_0@.len() && (forall|j: int|
                0 <= j < spec_run(init_worlds(n), instrs@)->0.len() ==> out_index(
                    #[trigger] spec_run(init_worlds(n), instrs@)->0[j],
                    n,
                ) != idx) ==> r->Ok_0@[idx] == zero_entry(),
{
    if n > 63 {
        return Err(SimError::CapacityError);
    }
    let mut k: usize = 0;
    while k < instrs.len()
        invariant
            k <= instrs@.len(),
            n <= 63,
            forall|q: int| 0 <= q < k ==> (#[trigger] instrs@[q]).spec_in_range(n),
        decreases instrs@.len() - k,
    {
        if !instrs[k].in_range(n) {
            proof {
                assert(!all_in_range(instrs@, n));
            }
            return Err(SimError::IndexError);
        }
        k = k + 1;
    }
    let mut st: State = State::init(n);
    proof {
        assert(st@ =~= init_worlds(n));
        assert(0u64 >> n == 0) by (bit_vector);
        assert(vecs_bounded(st@, n));
        assert(wf_worlds(st@));
        assert(instrs@.skip(0) =~= instrs@);
    }
    let mut k2: usize = 0;
    while k2 < instrs.len()
        invariant
            k2 <= instrs@.len(),
            n <= 63,
            all_in_range(instrs@, n),
            wf_worlds(st@),
            vecs_bounded(st@, n),
            spec_run(init_worlds(n), instrs@) == spec_run(st@, instrs@.skip(k2 as int)),
        decreases instrs@.len() - k2,
    {
        let ins: Ins = instrs[k2];
        proof {
            assert(ins.spec_in_range(n));
            assert(ins.spec_in_range(64));
            lemma_step_bounded(st@, ins, n);
            lemma_merge_wf(step_branches(st@, ins), n);
            assert(instrs@.skip(k2 as int)[0] == instrs@[k2 as int]);
            assert(instrs@.skip(k2 as int).skip(1) =~= instrs@.skip(k2 as int + 1));
        }
        match st.apply(ins) {
            Ok(next) => {
                st = next;
            },
            Err(_) => {
                proof {
                    assert(spec_run(init_worlds(n), instrs@) is None);
                }
                return Err(SimError::OverflowError);
            },
        }
        k2 = k2 + 1;
    }
    proof {
        assert(instrs@.skip(instrs@.len() as int) =~= Seq::<Ins>::empty());
        assert(spec_run(init_worlds(n), instrs@) == Option::Some(st@));
    }
    match st.to_statevec(n) {
        Ok(v) => {
            proof {
                let fin = spec_run(init_worlds(n), instrs@)->0;
                assert(fin == st@);
                assert forall|idx: int|
                    0 <= idx < v@.len() && (forall|j: int|
                        0 <= j < fin.len() ==> out_index(#[trigger] fin[j], n) != idx) implies v@[idx]
                    == zero_entry() by {
                    assert forall|j: int| 0 <= j < st@.len() implies out_index(
                        #[trigger] st@[j],
                        n,
                    ) != idx by {
                        assert(out_index(fin[j], n) != idx);
                    }
                }
            }
            Ok(v)
        },
        Err(_) => Err(SimError::InternalConsistencyError),
    }
}

} // verus!
