use vstd::prelude::*;

use crate::ampl::ring_pos;
use crate::bitvec::{spec_bit, spec_flip_bit, spec_set_bit, BitVec};
use crate::prog::Ins;
use crate::sim::{out_index, zero_entry, OutAmp};
use crate::state::{
    contrib_a, contrib_b, emit_group, epair, epairs_upto, lemma_net_off_list, merge_fits,
    merge_groups, net_a, net_b, net_fits, spec_merge, spec_step, step_branches, vec_list, World,
};

verus! {

/// Nets add over concatenation.
proof fn lemma_net_concat(s1: Seq<World>, s2: Seq<World>, v: u64, i: int)
    ensures
        net_a(s1 + s2, v, i) == net_a(s1, v, i) + net_a(s2, v, i),
        net_b(s1 + s2, v, i) == net_b(s1, v, i) + net_b(s2, v, i),
    decreases s2.len(),
{
    if s2.len() == 0 {
        assert(s1 + s2 =~= s1);
    } else {
        lemma_net_concat(s1, s2.drop_last(), v, i);
        assert((s1 + s2).drop_last() =~= s1 + s2.drop_last());
        assert((s1 + s2).last() == s2.last());
    }
}

/// What one emitted pair contributes: exactly the net it stands for, and
/// nothing anywhere else.
proof fn lemma_net_epair(s: Seq<World>, v2: u64, i2: int, v: u64, i: int)
    requires
        0 <= i2 < 4,
        0 <= i < 4,
        net_fits(net_a(s, v2, i2)),
        net_fits(net_b(s, v2, i2)),
    ensures
        net_a(epair(s, v2, i2), v, i) == if v == v2 && i == i2 {
            net_a(s, v, i)
        } else {
            0
        },
        net_b(epair(s, v2, i2), v, i) == if v == v2 && i == i2 {
            net_b(s, v, i)
        } else {
            0
        },
{
    let na = net_a(s, v2, i2);
    let nb = net_b(s, v2, i2);
    let e = epair(s, v2, i2);
    if na == 0 && nb == 0 {
        assert(e.len() == 0);
    } else {
        assert(e.len() == 1);
        assert(e.drop_last() =~= Seq::<World>::empty());
        assert(e.last() == e[0]);
        assert(net_a(e, v, i) == net_a(e.drop_last(), v, i) + contrib_a(e.last(), v, i));
        assert(net_a(Seq::<World>::empty(), v, i) == 0);
        assert(net_a(e.drop_last(), v, i) == 0);
        assert(net_a(e, v, i) == contrib_a(e[0], v, i));
        assert(net_b(e, v, i) == net_b(e.drop_last(), v, i) + contrib_b(e.last(), v, i));
        assert(net_b(Seq::<World>::empty(), v, i) == 0);
        assert(net_b(e.drop_last(), v, i) == 0);
        assert(net_b(e, v, i) == contrib_b(e[0], v, i));
        if ring_pos(na, nb) {
            assert(e[0].phase == i2 as u32);
            assert(e[0].phase % 4 == i2);
            assert(e[0].phase < 4);
            assert(e[0].ampl.a as int == na);
            assert(e[0].ampl.b as int == nb);
        } else {
            assert(e[0].phase == (i2 + 4) as u32);
            assert(e[0].phase % 4 == i2);
            assert(!(e[0].phase < 4));
            assert(e[0].ampl.a as int == -na);
            assert(e[0].ampl.b as int == -nb);
        }
    }
}

/// What the emissions of one group contribute.
proof fn lemma_net_epairs_upto(s: Seq<World>, v2: u64, m: int, v: u64, i: int)
    requires
        0 <= m <= 4,
        0 <= i < 4,
        forall|ii: int| 0 <= ii < 4 ==> net_fits(#[trigger] net_a(s, v2, ii)) && net_fits(
            net_b(s, v2, ii),
        ),
    ensures
        net_a(epairs_upto(s, v2, m), v, i) == if v == v2 && i < m {
            net_a(s, v, i)
        } else {
            0
        },
        net_b(epairs_upto(s, v2, m), v, i) == if v == v2 && i < m {
            net_b(s, v, i)
        } else {
            0
        },
    decreases m,
{
    if m > 0 {
        lemma_net_epairs_upto(s, v2, m - 1, v, i);
        lemma_net_concat(epairs_upto(s, v2, m - 1), epair(s, v2, m - 1), v, i);
        lemma_net_epair(s, v2, m - 1, v, i);
    }
}

/// The listed basis states never repeat.
proof fn lemma_vec_list_distinct(s: Seq<World>)
    ensures
        forall|p: int, q: int|
            0 <= p < q < vec_list(s).len() ==> #[trigger] vec_list(s)[p] != #[trigger] vec_list(s)[q],
    decreases s.len(),
{
    if s.len() > 0 {
        lemma_vec_list_distinct(s.drop_last());
        let pre = vec_list(s.drop_last());
        assert forall|p: int, q: int|
            0 <= p < q < vec_list(s).len() implies #[trigger] vec_list(s)[p] != #[trigger] vec_list(s)[q] by {
            if !pre.contains(s.last().vec.bits) && q == vec_list(s).len() - 1 {
                assert(vec_list(s)[p] == pre[p]);
                assert(pre.contains(pre[p]));
            }
        }
    }
}

/// What the merge output holds at (v, i): the original net where v is
/// listed, zero elsewhere.
proof fn lemma_net_merge_groups(s: Seq<World>, vl: Seq<u64>, v: u64, i: int)
    requires
        0 <= i < 4,
        forall|p: int, q: int| 0 <= p < q < vl.len() ==> #[trigger] vl[p] != #[trigger] vl[q],
        forall|v2: u64, ii: int|
            0 <= ii < 4 ==> net_fits(#[trigger] net_a(s, v2, ii)) && net_fits(net_b(s, v2, ii)),
    ensures
        net_a(merge_groups(s, vl), v, i) == if vl.contains(v) {
            net_a(s, v, i)
        } else {
            0
        },
        net_b(merge_groups(s, vl), v, i) == if vl.contains(v) {
            net_b(s, v, i)
        } else {
            0
        },
    decreases vl.len(),
{
    if vl.len() == 0 {
        assert(!vl.contains(v));
    } else {
        let pre = vl.drop_last();
        assert forall|p: int, q: int| 0 <= p < q < pre.len() implies #[trigger] pre[p] != #[trigger] pre[q] by {
            assert(vl[p] != vl[q]);
        }
        lemma_net_merge_groups(s, pre, v, i);
        lemma_net_concat(merge_groups(s, pre), emit_group(s, vl.last()), v, i);
        lemma_net_epairs_upto(s, vl.last(), 4, v, i);
        if vl.contains(v) {
            let q = choose|q: int| 0 <= q < vl.len() && vl[q] == v;
            if q < vl.len() - 1 {
                assert(pre[q] == v);
                assert(pre.contains(v));
                assert(vl.last() != v);
            } else {
                assert(vl.last() == v);
                if pre.contains(v) {
                    let p = choose|p: int| 0 <= p < pre.len() && pre[p] == v;
                    assert(vl[p] == vl[vl.len() - 1]);
                    assert(false);
                }
            }
        } else {
            assert forall|p: int| 0 <= p < pre.len() implies pre[p] != v by {
                assert(vl[p] == pre[p]);
                if pre[p] == v {
                    assert(vl[p] == v);
                    assert(vl.contains(v));
                }
            }
            assert(!pre.contains(v));
            assert(vl.last() != v) by {
                if vl.last() == v {
                    assert(vl[vl.len() - 1] == v);
                    assert(vl.contains(v));
                }
            }
        }
    }
}

/// Conservation through the merge: for every basis state and phase pair,
/// the merged branch set carries exactly the net amplitude of the unmerged
/// branch set, so cancellation never changes the represented superposition.
pub proof fn lemma_merge_conserves_net(s: Seq<World>, v: u64, i: int)
    requires
        merge_fits(s),
        0 <= i < 4,
    ensures
        net_a(spec_merge(s), v, i) == net_a(s, v, i),
        net_b(spec_merge(s), v, i) == net_b(s, v, i),
{
    lemma_vec_list_distinct(s);
    lemma_net_merge_groups(s, vec_list(s), v, i);
    if !vec_list(s).contains(v) {
        lemma_net_off_list(s, v, i);
    }
}

/// Exact cancellation: two branches with the same basis state, the same
/// phase and exactly opposite ring amplitudes merge to nothing at all.
pub proof fn lemma_exact_cancellation(w1: World, w2: World)
    requires
        w1.vec == w2.vec,
        w1.phase == w2.phase,
        w2.ampl.a as int == -(w1.ampl.a as int),
        w2.ampl.b as int == -(w1.ampl.b as int),
    ensures
        spec_merge(seq![w1, w2]) =~= Seq::<World>::empty(),
{
    let s = seq![w1, w2];
    assert(s.drop_last() =~= seq![w1]);
    assert(seq![w1].drop_last() =~= Seq::<World>::empty());
    assert(s.last() == w2);
    assert(seq![w1].last() == w1);
    assert forall|v: u64, i: int| true implies net_a(s, v, i) == 0 && net_b(s, v, i) == 0 by {
        assert(net_a(s, v, i) == net_a(s.drop_last(), v, i) + contrib_a(s.last(), v, i));
        assert(net_a(s.drop_last(), v, i) == net_a(seq![w1], v, i));
        assert(net_a(seq![w1], v, i) == net_a(seq![w1].drop_last(), v, i) + contrib_a(w1, v, i));
        assert(net_a(Seq::<World>::empty(), v, i) == 0);
        assert(contrib_a(w1, v, i) + contrib_a(w2, v, i) == 0);
        assert(net_b(s, v, i) == net_b(s.drop_last(), v, i) + contrib_b(s.last(), v, i));
        assert(net_b(s.drop_last(), v, i) == net_b(seq![w1], v, i));
        assert(net_b(seq![w1], v, i) == net_b(seq![w1].drop_last(), v, i) + contrib_b(w1, v, i));
        assert(net_b(Seq::<World>::empty(), v, i) == 0);
        assert(contrib_b(w1, v, i) + contrib_b(w2, v, i) == 0);
    }
    let vl = vec_list(s);
    assert forall|k: int| 0 <= k < vl.len() implies emit_group(s, #[trigger] vl[k])
        =~= Seq::<World>::empty() by {
        let v = vl[k];
        assert(net_a(s, v, 0) == 0 && net_b(s, v, 0) == 0);
        assert(net_a(s, v, 1) == 0 && net_b(s, v, 1) == 0);
        assert(net_a(s, v, 2) == 0 && net_b(s, v, 2) == 0);
        assert(net_a(s, v, 3) == 0 && net_b(s, v, 3) == 0);
        assert(epair(s, v, 0) =~= Seq::<World>::empty());
        assert(epair(s, v, 1) =~= Seq::<World>::empty());
        assert(epair(s, v, 2) =~= Seq::<World>::empty());
        assert(epair(s, v, 3) =~= Seq::<World>::empty());
        assert(epairs_upto(s, v, 0) =~= Seq::<World>::empty());
        assert(epairs_upto(s, v, 1) =~= Seq::<World>::empty());
        assert(epairs_upto(s, v, 2) =~= Seq::<World>::empty());
        assert(epairs_upto(s, v, 3) =~= Seq::<World>::empty());
        assert(epairs_upto(s, v, 4) =~= Seq::<World>::empty());
    }
    assert(vec_list(Seq::<World>::empty()) =~= Seq::<u64>::empty());
    assert(!Seq::<u64>::empty().contains(w1.vec.bits));
    let pre = vec_list(seq![w1]);
    assert(pre =~= seq![w1.vec.bits]);
    assert(pre[0] == w2.vec.bits);
    assert(pre.contains(w2.vec.bits));
    assert(vl =~= seq![w1.vec.bits]);
    assert(merge_groups(s, vl.drop_last()) =~= Seq::<World>::empty());
    assert(vl.drop_last() =~= Seq::<u64>::empty());
    assert(vl.last() == w1.vec.bits);
    assert(spec_merge(s) =~= merge_groups(s, vl.drop_last()) + emit_group(s, vl.last()));
}

/// Determinism of the projection: any two output vectors that the
/// projection contract admits for one final branch set are identical.
/// Since `simulate`'s contract pins its output the same way from the
/// program alone, two runs on one program return bit-identical vectors.
pub proof fn lemma_deterministic(fin: Seq<World>, n: u32, r1: Seq<OutAmp>, r2: Seq<OutAmp>)
    requires
        r1.len() == r2.len(),
        forall|j: int|
            0 <= j < fin.len() ==> r1[out_index(#[trigger] fin[j], n) as int] == (OutAmp {
                ampl: fin[j].ampl,
                phase: fin[j].phase,
            }),
        forall|j: int|
            0 <= j < fin.len() ==> r2[out_index(#[trigger] fin[j], n) as int] == (OutAmp {
                ampl: fin[j].ampl,
                phase: fin[j].phase,
            }),
        forall|idx: int|
            0 <= idx < r1.len() && (forall|j: int|
                0 <= j < fin.len() ==> out_index(#[trigger] fin[j], n) != idx) ==> r1[idx]
                == zero_entry(),
        forall|idx: int|
            0 <= idx < r2.len() && (forall|j: int|
                0 <= j < fin.len() ==> out_index(#[trigger] fin[j], n) != idx) ==> r2[idx]
                == zero_entry(),
    ensures
        r1 =~= r2,
{
    assert forall|idx: int| 0 <= idx < r1.len() implies r1[idx] == r2[idx] by {
        if exists|j: int| 0 <= j < fin.len() && out_index(#[trigger] fin[j], n) == idx {
            let j = choose|j: int| 0 <= j < fin.len() && out_index(#[trigger] fin[j], n) == idx;
            assert(r1[out_index(fin[j], n) as int] == (OutAmp {
                ampl: fin[j].ampl,
                phase: fin[j].phase,
            }));
            assert(r2[out_index(fin[j], n) as int] == (OutAmp {
                ampl: fin[j].ampl,
                phase: fin[j].phase,
            }));
        } else {
            assert forall|j: int| 0 <= j < fin.len() implies out_index(
                #[trigger] fin[j],
                n,
            ) != idx by {
                if out_index(fin[j], n) == idx {
                    assert(exists|j2: int|
                        0 <= j2 < fin.len() && out_index(#[trigger] fin[j2], n) == idx);
                }
            }
            assert(r1[idx] == zero_entry());
            assert(r2[idx] == zero_entry());
        }
    }
}

/// The basis states among vl whose group emits at least one branch.
spec fn kept(s: Seq<World>, vl: Seq<u64>) -> Seq<u64>
    decreases vl.len(),
{
    if vl.len() == 0 {
        Seq::empty()
    } else {
        let pre = kept(s, vl.drop_last());
        if emit_group(s, vl.last()).len() == 0 {
            pre
        } else {
            pre.push(vl.last())
        }
    }
}

/// Every kept basis state is one of the listed ones.
proof fn lemma_kept_subset(s: Seq<World>, vl: Seq<u64>)
    ensures
        forall|x: u64| kept(s, vl).contains(x) ==> vl.contains(x),
    decreases vl.len(),
{
    if vl.len() > 0 {
        lemma_kept_subset(s, vl.drop_last());
        assert forall|x: u64| kept(s, vl).contains(x) implies vl.contains(x) by {
            let pre = kept(s, vl.drop_last());
            let k = choose|k: int| 0 <= k < kept(s, vl).len() && kept(s, vl)[k] == x;
            if emit_group(s, vl.last()).len() == 0 || k < pre.len() {
                assert(pre[k] == x);
                assert(pre.contains(x));
                assert(vl.drop_last().contains(x));
                let q = choose|q: int|
                    0 <= q < vl.drop_last().len() && vl.drop_last()[q] == x;
                assert(vl[q] == x);
                assert(vl.contains(x));
            } else {
                assert(kept(s, vl)[k] == vl.last());
                assert(vl[vl.len() - 1] == x);
                assert(vl.contains(x));
            }
        }
    }
}

/// Every branch a group emits carries that group's basis state.
proof fn lemma_epairs_vec(s: Seq<World>, v: u64, i: int)
    requires
        0 <= i <= 4,
    ensures
        forall|k: int|
            0 <= k < epairs_upto(s, v, i).len() ==> (#[trigger] epairs_upto(s, v, i)[k]).vec.bits
                == v,
    decreases i,
{
    if i > 0 {
        lemma_epairs_vec(s, v, i - 1);
        assert forall|k: int|
            0 <= k < epairs_upto(s, v, i).len() implies (#[trigger] epairs_upto(s, v, i)[k]).vec.bits
            == v by {
            let pre = epairs_upto(s, v, i - 1);
            if k < pre.len() {
                assert(epairs_upto(s, v, i)[k] == pre[k]);
            } else {
                assert(epairs_upto(s, v, i)[k] == epair(s, v, i - 1)[k - pre.len()]);
            }
        }
    }
}

/// Appending one group's branches, all on basis state v, extends the
/// state list by v at most.
proof fn lemma_vec_list_append_group(a: Seq<World>, b: Seq<World>, v: u64)
    requires
        forall|k: int| 0 <= k < b.len() ==> (#[trigger] b[k]).vec.bits == v,
    ensures
        vec_list(a + b) == if b.len() == 0 {
            vec_list(a)
        } else if vec_list(a).contains(v) {
            vec_list(a)
        } else {
            vec_list(a).push(v)
        },
    decreases b.len(),
{
    if b.len() == 0 {
        assert(a + b =~= a);
    } else {
        assert((a + b).drop_last() =~= a + b.drop_last());
        assert((a + b).last() == b.last());
        assert(b[b.len() - 1].vec.bits == v);
        assert forall|k: int|
            0 <= k < b.drop_last().len() implies (#[trigger] b.drop_last()[k]).vec.bits == v by {
            assert(b[k].vec.bits == v);
        }
        lemma_vec_list_append_group(a, b.drop_last(), v);
        if b.len() > 1 {
            if !vec_list(a).contains(v) {
                let w = vec_list(a).push(v);
                assert(w[w.len() - 1] == v);
                assert(w.contains(v));
            }
        }
    }
}

/// The merge output lists exactly the basis states whose group is not
/// empty, in list order.
proof fn lemma_vec_list_merge_groups(s: Seq<World>, vl: Seq<u64>)
    requires
        forall|p: int, q: int| 0 <= p < q < vl.len() ==> #[trigger] vl[p] != #[trigger] vl[q],
    ensures
        vec_list(merge_groups(s, vl)) == kept(s, vl),
    decreases vl.len(),
{
    if vl.len() > 0 {
        let pre = vl.drop_last();
        assert forall|p: int, q: int|
            0 <= p < q < pre.len() implies #[trigger] pre[p] != #[trigger] pre[q] by {
            assert(vl[p] != vl[q]);
        }
        lemma_vec_list_merge_groups(s, pre);
        lemma_epairs_vec(s, vl.last(), 4);
        lemma_vec_list_append_group(merge_groups(s, pre), emit_group(s, vl.last()), vl.last());
        if emit_group(s, vl.last()).len() != 0 {
            assert(!vec_list(merge_groups(s, pre)).contains(vl.last())) by {
                if vec_list(merge_groups(s, pre)).contains(vl.last()) {
                    lemma_kept_subset(s, pre);
                    assert(kept(s, pre).contains(vl.last()));
                    assert(pre.contains(vl.last()));
                    let q = choose|q: int| 0 <= q < pre.len() && pre[q] == vl.last();
                    assert(vl[q] == vl[vl.len() - 1]);
                    assert(false);
                }
            }
        }
    }
}

/// Dropping the empty groups changes nothing in what the merge emits.
proof fn lemma_merge_groups_kept(s: Seq<World>, vl: Seq<u64>)
    ensures
        merge_groups(s, kept(s, vl)) == merge_groups(s, vl),
    decreases vl.len(),
{
    if vl.len() > 0 {
        lemma_merge_groups_kept(s, vl.drop_last());
        if emit_group(s, vl.last()).len() == 0 {
            assert(merge_groups(s, vl) =~= merge_groups(s, vl.drop_last()));
        } else {
            assert(kept(s, vl).drop_last() =~= kept(s, vl.drop_last()));
            assert(kept(s, vl).last() == vl.last());
            assert(merge_groups(s, kept(s, vl)) =~= merge_groups(s, kept(s, vl.drop_last()))
                + emit_group(s, vl.last()));
        }
    }
}

/// A group's emissions depend only on the nets at its basis state.
proof fn lemma_emit_congruence(s1: Seq<World>, s2: Seq<World>, v: u64)
    requires
        forall|i: int|
            0 <= i < 4 ==> #[trigger] net_a(s1, v, i) == net_a(s2, v, i) && net_b(s1, v, i)
                == net_b(s2, v, i),
    ensures
        emit_group(s1, v) == emit_group(s2, v),
{
    assert(net_a(s1, v, 0) == net_a(s2, v, 0) && net_b(s1, v, 0) == net_b(s2, v, 0));
    assert(net_a(s1, v, 1) == net_a(s2, v, 1) && net_b(s1, v, 1) == net_b(s2, v, 1));
    assert(net_a(s1, v, 2) == net_a(s2, v, 2) && net_b(s1, v, 2) == net_b(s2, v, 2));
    assert(net_a(s1, v, 3) == net_a(s2, v, 3) && net_b(s1, v, 3) == net_b(s2, v, 3));
    assert(epair(s1, v, 0) =~= epair(s2, v, 0));
    assert(epair(s1, v, 1) =~= epair(s2, v, 1));
    assert(epair(s1, v, 2) =~= epair(s2, v, 2));
    assert(epair(s1, v, 3) =~= epair(s2, v, 3));
    assert(epairs_upto(s1, v, 0) =~= epairs_upto(s2, v, 0));
    assert(epairs_upto(s1, v, 1) =~= epairs_upto(s2, v, 1));
    assert(epairs_upto(s1, v, 2) =~= epairs_upto(s2, v, 2));
    assert(epairs_upto(s1, v, 3) =~= epairs_upto(s2, v, 3));
    assert(epairs_upto(s1, v, 4) =~= epairs_upto(s2, v, 4));
}

/// The merge output over a list depends only on the nets.
proof fn lemma_merge_groups_congruence(s1: Seq<World>, s2: Seq<World>, vl: Seq<u64>)
    requires
        forall|v: u64, i: int|
            0 <= i < 4 ==> #[trigger] net_a(s1, v, i) == net_a(s2, v, i) && net_b(s1, v, i)
                == net_b(s2, v, i),
    ensures
        merge_groups(s1, vl) == merge_groups(s2, vl),
    decreases vl.len(),
{
    if vl.len() > 0 {
        lemma_merge_groups_congruence(s1, s2, vl.drop_last());
        assert forall|i: int|
            0 <= i < 4 implies #[trigger] net_a(s1, vl.last(), i) == net_a(s2, vl.last(), i)
            && net_b(s1, vl.last(), i) == net_b(s2, vl.last(), i) by {}
        lemma_emit_congruence(s1, s2, vl.last());
        assert(merge_groups(s1, vl) =~= merge_groups(s2, vl));
    }
}

/// Idempotence of the merge: re-running the merge step on an already
/// merged branch set returns the identical set.
pub proof fn lemma_merge_idempotent(s: Seq<World>)
    requires
        merge_fits(s),
    ensures
        spec_merge(spec_merge(s)) == spec_merge(s),
{
    let m = spec_merge(s);
    assert forall|v: u64, i: int|
        0 <= i < 4 implies #[trigger] net_a(m, v, i) == net_a(s, v, i) && net_b(m, v, i) == net_b(
        s,
        v,
        i,
    ) by {
        lemma_merge_conserves_net(s, v, i);
    }
    lemma_vec_list_distinct(s);
    lemma_vec_list_merge_groups(s, vec_list(s));
    lemma_merge_groups_congruence(m, s, vec_list(m));
    lemma_merge_groups_kept(s, vec_list(s));
}

/// Flipping the same bit twice restores the word.
proof fn lemma_flip_invol(w: u64, i: u32)
    by (bit_vector)
    requires
        i < 64,
    ensures
        spec_flip_bit(spec_flip_bit(w, i), i) == w,
{
}

/// One branch with qubit i inverted.
spec fn xw(w: World, i: u32) -> World {
    World { vec: BitVec { bits: spec_flip_bit(w.vec.bits, i) }, ..w }
}

/// A whole branch sequence with qubit i inverted.
spec fn xmap(s: Seq<World>, i: u32) -> Seq<World> {
    s.map_values(|w: World| xw(w, i))
}

/// The X rewrite is exactly the elementwise bit flip.
proof fn lemma_step_is_xmap(s: Seq<World>, i: u32)
    ensures
        step_branches(s, Ins::X(i)) == xmap(s, i),
    decreases s.len(),
{
    if s.len() == 0 {
        assert(step_branches(s, Ins::X(i)) =~= xmap(s, i));
    } else {
        lemma_step_is_xmap(s.drop_last(), i);
        assert(xmap(s.drop_last(), i) =~= xmap(s, i).drop_last());
        assert(s.last().spec_transition(Ins::X(i)) =~= seq![xw(s.last(), i)]);
        assert(xmap(s, i).last() == xw(s.last(), i));
        assert(step_branches(s, Ins::X(i)) =~= xmap(s, i));
    }
}

/// The nets of a flipped branch set sit at the flipped basis states.
proof fn lemma_net_xmap(s: Seq<World>, i: u32, v: u64, j: int)
    requires
        i < 64,
    ensures
        net_a(xmap(s, i), v, j) == net_a(s, spec_flip_bit(v, i), j),
        net_b(xmap(s, i), v, j) == net_b(s, spec_flip_bit(v, i), j),
    decreases s.len(),
{
    if s.len() == 0 {
        assert(xmap(s, i) =~= Seq::<World>::empty());
    } else {
        lemma_net_xmap(s.drop_last(), i, v, j);
        assert(xmap(s, i).drop_last() =~= xmap(s.drop_last(), i));
        assert(xmap(s, i).last() == xw(s.last(), i));
        lemma_flip_invol(s.last().vec.bits, i);
        lemma_flip_invol(v, i);
        assert(contrib_a(xw(s.last(), i), v, j) == contrib_a(s.last(), spec_flip_bit(v, i), j));
        assert(contrib_b(xw(s.last(), i), v, j) == contrib_b(s.last(), spec_flip_bit(v, i), j));
    }
}

/// Listing the states of a flipped branch set flips the listed states.
proof fn lemma_vec_list_xmap(s: Seq<World>, i: u32)
    requires
        i < 64,
    ensures
        vec_list(xmap(s, i)) == vec_list(s).map_values(|x: u64| spec_flip_bit(x, i)),
    decreases s.len(),
{
    let f = |x: u64| spec_flip_bit(x, i);
    if s.len() == 0 {
        assert(vec_list(xmap(s, i)) =~= vec_list(s).map_values(f));
    } else {
        lemma_vec_list_xmap(s.drop_last(), i);
        assert(xmap(s, i).drop_last() =~= xmap(s.drop_last(), i));
        assert(xmap(s, i).last() == xw(s.last(), i));
        let pre = vec_list(s.drop_last());
        let fpre = vec_list(xmap(s.drop_last(), i));
        assert(fpre == pre.map_values(f));
        let key = s.last().vec.bits;
        assert(pre.contains(key) == fpre.contains(f(key))) by {
            if pre.contains(key) {
                let q = choose|q: int| 0 <= q < pre.len() && pre[q] == key;
                assert(fpre[q] == f(key));
                assert(fpre.contains(f(key)));
            }
            if fpre.contains(f(key)) {
                let q = choose|q: int| 0 <= q < fpre.len() && fpre[q] == f(key);
                assert(fpre[q] == f(pre[q]));
                lemma_flip_invol(pre[q], i);
                lemma_flip_invol(key, i);
                assert(pre[q] == key);
                assert(pre.contains(key));
            }
        }
        if !pre.contains(key) {
            assert(vec_list(xmap(s, i)) =~= fpre.push(f(key)));
            assert(fpre.push(f(key)) =~= pre.push(key).map_values(f));
            assert(vec_list(s) == pre.push(key));
        } else {
            assert(vec_list(xmap(s, i)) == fpre);
        }
    }
}

/// One emitted group of a flipped branch set is the flipped group.
proof fn lemma_emit_xmap(s: Seq<World>, i: u32, v: u64)
    requires
        i < 64,
    ensures
        emit_group(xmap(s, i), spec_flip_bit(v, i)) == xmap(emit_group(s, v), i),
{
    let fv = spec_flip_bit(v, i);
    lemma_flip_invol(v, i);
    assert forall|j: int| 0 <= j < 4 implies epair(xmap(s, i), fv, j) =~= xmap(
        #[trigger] epair(s, v, j),
        i,
    ) by {
        lemma_net_xmap(s, i, fv, j);
        assert(net_a(xmap(s, i), fv, j) == net_a(s, v, j));
        assert(net_b(xmap(s, i), fv, j) == net_b(s, v, j));
        let e1 = epair(xmap(s, i), fv, j);
        let e2 = epair(s, v, j);
        if e2.len() > 0 {
            assert(xmap(e2, i).len() == 1);
            assert(xmap(e2, i)[0] == xw(e2[0], i));
            assert(e1[0] == xw(e2[0], i));
        } else {
            assert(xmap(e2, i) =~= Seq::<World>::empty());
        }
    }
    assert(epairs_upto(xmap(s, i), fv, 0) =~= xmap(epairs_upto(s, v, 0), i));
    assert(epairs_upto(xmap(s, i), fv, 1) =~= xmap(epairs_upto(s, v, 1), i));
    assert(epairs_upto(xmap(s, i), fv, 2) =~= xmap(epairs_upto(s, v, 2), i));
    assert(epairs_upto(xmap(s, i), fv, 3) =~= xmap(epairs_upto(s, v, 3), i));
    assert(epairs_upto(xmap(s, i), fv, 4) =~= xmap(epairs_upto(s, v, 4), i));
}

/// The merge of a flipped branch set over a flipped list is the flipped
/// merge output.
proof fn lemma_merge_groups_xmap(s: Seq<World>, vl: Seq<u64>, i: u32)
    requires
        i < 64,
    ensures
        merge_groups(xmap(s, i), vl.map_values(|x: u64| spec_flip_bit(x, i))) == xmap(
            merge_groups(s, vl),
            i,
        ),
    decreases vl.len(),
{
    let f = |x: u64| spec_flip_bit(x, i);
    if vl.len() == 0 {
        assert(merge_groups(xmap(s, i), vl.map_values(f)) =~= xmap(merge_groups(s, vl), i));
    } else {
        lemma_merge_groups_xmap(s, vl.drop_last(), i);
        assert(vl.map_values(f).drop_last() =~= vl.drop_last().map_values(f));
        assert(vl.map_values(f).last() == f(vl.last()));
        lemma_emit_xmap(s, i, vl.last());
        assert(merge_groups(xmap(s, i), vl.map_values(f)) =~= xmap(merge_groups(s, vl), i));
    }
}

/// Merging commutes with flipping one qubit everywhere.
proof fn lemma_merge_xmap(s: Seq<World>, i: u32)
    requires
        i < 64,
    ensures
        spec_merge(xmap(s, i)) == xmap(spec_merge(s), i),
{
    lemma_vec_list_xmap(s, i);
    lemma_merge_groups_xmap(s, vec_list(s), i);
}

/// Flipping one qubit of every branch twice restores the branch set.
proof fn lemma_xmap_invol(s: Seq<World>, i: u32)
    requires
        i < 64,
    ensures
        xmap(xmap(s, i), i) == s,
{
    assert forall|k: int| 0 <= k < s.len() implies xmap(xmap(s, i), i)[k] == s[k] by {
        lemma_flip_invol(s[k].vec.bits, i);
    }
    assert(xmap(xmap(s, i), i) =~= s);
}

/// Involution of X: applying X(i), merge included, twice to any merged
/// execution state returns exactly the original state.
pub proof fn lemma_x_involution(s: Seq<World>, i: u32)
    requires
        i < 64,
        spec_merge(s) == s,
    ensures
        spec_step(spec_step(s, Ins::X(i)), Ins::X(i)) == s,
{
    lemma_step_is_xmap(s, i);
    lemma_merge_xmap(s, i);
    let m1 = spec_step(s, Ins::X(i));
    assert(m1 == xmap(s, i));
    lemma_step_is_xmap(m1, i);
    lemma_merge_xmap(m1, i);
    lemma_xmap_invol(s, i);
    assert(spec_step(m1, Ins::X(i)) == xmap(spec_merge(xmap(s, i)), i));
    assert(spec_merge(xmap(s, i)) == xmap(s, i));
    assert(spec_step(m1, Ins::X(i)) == s);
}

/// Dividing a positive ring value by sqrt(2) keeps it positive.
proof fn lemma_ring_pos_div(a: int, b: int)
    requires
        a % 2 == 0,
        ring_pos(a, b),
    ensures
        ring_pos(b, a / 2),
{
    let c = a / 2;
    assert(a == 2 * c);
    assert(a * a == 4 * (c * c)) by (nonlinear_arith)
        requires a == 2 * c;
    if a >= 0 && b >= 0 {
        assert(c >= 0);
    } else if a >= 0 {
        assert(a * a > 2 * (b * b));
        assert(4 * (c * c) > 2 * (b * b));
        assert(2 * (c * c) > b * b);
        assert(b < 0 && c >= 0);
    } else {
        assert(b >= 0);
        assert(2 * (b * b) > a * a);
        assert(2 * (b * b) > 4 * (c * c));
        assert(b * b > 2 * (c * c));
        assert(c < 0);
        assert(2 * (c * c) >= 0) by (nonlinear_arith);
    }
}

/// A positive ring value does not stay positive under negation.
proof fn lemma_ring_pos_neg(a: int, b: int)
    requires
        ring_pos(a, b),
    ensures
        !ring_pos(-a, -b),
{
    assert((-a) * (-a) == a * a) by (nonlinear_arith);
    assert((-b) * (-b) == b * b) by (nonlinear_arith);
    assert(a * a >= 0) by (nonlinear_arith);
    assert(b * b >= 0) by (nonlinear_arith);
}

/// The net of a two-branch sequence, unfolded.
proof fn lemma_net2(w0: World, w1: World, v: u64, j: int)
    ensures
        net_a(seq![w0, w1], v, j) == contrib_a(w0, v, j) + contrib_a(w1, v, j),
        net_b(seq![w0, w1], v, j) == contrib_b(w0, v, j) + contrib_b(w1, v, j),
{
    let s = seq![w0, w1];
    assert(s.drop_last() =~= seq![w0]);
    assert(seq![w0].drop_last() =~= Seq::<World>::empty());
    assert(s.last() == w1);
    assert(seq![w0].last() == w0);
    assert(net_a(s, v, j) == net_a(s.drop_last(), v, j) + contrib_a(s.last(), v, j));
    assert(net_a(seq![w0], v, j) == net_a(Seq::<World>::empty(), v, j) + contrib_a(w0, v, j));
    assert(net_a(Seq::<World>::empty(), v, j) == 0);
    assert(net_b(s, v, j) == net_b(s.drop_last(), v, j) + contrib_b(s.last(), v, j));
    assert(net_b(seq![w0], v, j) == net_b(Seq::<World>::empty(), v, j) + contrib_b(w0, v, j));
    assert(net_b(Seq::<World>::empty(), v, j) == 0);
}

/// The net of a four-branch sequence, unfolded.
proof fn lemma_net4(w0: World, w1: World, w2: World, w3: World, v: u64, j: int)
    ensures
        net_a(seq![w0, w1, w2, w3], v, j) == contrib_a(w0, v, j) + contrib_a(w1, v, j)
            + contrib_a(w2, v, j) + contrib_a(w3, v, j),
        net_b(seq![w0, w1, w2, w3], v, j) == contrib_b(w0, v, j) + contrib_b(w1, v, j)
            + contrib_b(w2, v, j) + contrib_b(w3, v, j),
{
    let s = seq![w0, w1, w2, w3];
    assert(s.drop_last() =~= seq![w0, w1, w2]);
    assert(seq![w0, w1, w2].drop_last() =~= seq![w0, w1]);
    assert(s.last() == w3);
    assert(seq![w0, w1, w2].last() == w2);
    lemma_net2(w0, w1, v, j);
    assert(net_a(s, v, j) == net_a(seq![w0, w1, w2], v, j) + contrib_a(w3, v, j));
    assert(net_a(seq![w0, w1, w2], v, j) == net_a(seq![w0, w1], v, j) + contrib_a(w2, v, j));
    assert(net_b(s, v, j) == net_b(seq![w0, w1, w2], v, j) + contrib_b(w3, v, j));
    assert(net_b(seq![w0, w1, w2], v, j) == net_b(seq![w0, w1], v, j) + contrib_b(w2, v, j));
}

/// The state list of a two-branch sequence over distinct states.
proof fn lemma_vec_list2(w0: World, w1: World)
    requires
        w0.vec.bits != w1.vec.bits,
    ensures
        vec_list(seq![w0, w1]) =~= seq![w0.vec.bits, w1.vec.bits],
{
    let s = seq![w0, w1];
    assert(s.drop_last() =~= seq![w0]);
    assert(seq![w0].drop_last() =~= Seq::<World>::empty());
    assert(vec_list(Seq::<World>::empty()) =~= Seq::<u64>::empty());
    assert(!Seq::<u64>::empty().contains(w0.vec.bits));
    let p1 = vec_list(seq![w0]);
    assert(p1 =~= seq![w0.vec.bits]);
    assert(!p1.contains(w1.vec.bits)) by {
        if p1.contains(w1.vec.bits) {
            let q = choose|q: int| 0 <= q < p1.len() && p1[q] == w1.vec.bits;
            assert(p1[0] == w0.vec.bits);
        }
    }
    assert(s.last() == w1);
}

/// The state list of a four-branch sequence that alternates between two
/// distinct states.
proof fn lemma_vec_list4(w0: World, w1: World, w2: World, w3: World)
    requires
        w0.vec.bits != w1.vec.bits,
        w2.vec.bits == w0.vec.bits,
        w3.vec.bits == w1.vec.bits,
    ensures
        vec_list(seq![w0, w1, w2, w3]) =~= seq![w0.vec.bits, w1.vec.bits],
{
    let s = seq![w0, w1, w2, w3];
    lemma_vec_list2(w0, w1);
    assert(s.drop_last() =~= seq![w0, w1, w2]);
    assert(seq![w0, w1, w2].drop_last() =~= seq![w0, w1]);
    let p2 = vec_list(seq![w0, w1]);
    assert(p2 =~= seq![w0.vec.bits, w1.vec.bits]);
    assert(p2.contains(w2.vec.bits)) by {
        assert(p2[0] == w0.vec.bits);
    }
    assert(seq![w0, w1, w2].last() == w2);
    let p3 = vec_list(seq![w0, w1, w2]);
    assert(p3 == p2);
    assert(p3.contains(w3.vec.bits)) by {
        assert(p3[1] == w1.vec.bits);
    }
    assert(s.last() == w3);
}

/// A group over s whose only occupied pair is fi, carrying exactly the
/// one branch e, emits exactly e.
proof fn lemma_emit_single(s: Seq<World>, v: u64, fi: int, e: World)
    requires
        0 <= fi < 4,
        forall|j: int| 0 <= j < 4 && j != fi ==> #[trigger] epair(s, v, j) =~= Seq::<World>::empty(),
        epair(s, v, fi) =~= seq![e],
    ensures
        emit_group(s, v) =~= seq![e],
{
    assert(epairs_upto(s, v, 0) =~= Seq::<World>::empty());
    assert(epairs_upto(s, v, 1) =~= if fi < 1 {
        seq![e]
    } else {
        Seq::<World>::empty()
    });
    assert(epairs_upto(s, v, 2) =~= if fi < 2 {
        seq![e]
    } else {
        Seq::<World>::empty()
    });
    assert(epairs_upto(s, v, 3) =~= if fi < 3 {
        seq![e]
    } else {
        Seq::<World>::empty()
    });
    assert(epairs_upto(s, v, 4) =~= seq![e]);
}

/// A group over s with no occupied pair emits nothing.
proof fn lemma_emit_empty(s: Seq<World>, v: u64)
    requires
        forall|j: int| 0 <= j < 4 ==> #[trigger] epair(s, v, j) =~= Seq::<World>::empty(),
    ensures
        emit_group(s, v) =~= Seq::<World>::empty(),
{
    assert(epairs_upto(s, v, 0) =~= Seq::<World>::empty());
    assert(epairs_upto(s, v, 1) =~= Seq::<World>::empty());
    assert(epairs_upto(s, v, 2) =~= Seq::<World>::empty());
    assert(epairs_upto(s, v, 3) =~= Seq::<World>::empty());
    assert(epairs_upto(s, v, 4) =~= Seq::<World>::empty());
}

/// Involution of H up to normalization: applying H(i), merge included,
/// twice to a single positive branch with both coefficients even (the
/// normalization headroom the two divisions need) reproduces the branch.
#[verifier::rlimit(100)]
pub proof fn lemma_h_involution(w: World, i: u32)
    requires
        i < 64,
        w.phase < 8,
        w.ampl.a as int % 2 == 0,
        w.ampl.b as int % 2 == 0,
        ring_pos(w.ampl.a as int, w.ampl.b as int),
    ensures
        spec_step(spec_step(seq![w], Ins::H(i)), Ins::H(i)) == seq![w],
{
    let ins = Ins::H(i);
    let aa = w.ampl.a as int;
    let bb = w.ampl.b as int;
    let phi = w.phase;
    let fi = phi as int % 4;
    let wv = w.vec.bits;
    let bit = spec_bit(wv, i);
    let v0 = spec_set_bit(wv, i, 0);
    let v1 = spec_set_bit(wv, i, 1);
    assert(spec_bit(wv, i) == 0 || spec_bit(wv, i) == 1) by (bit_vector);
    assert(spec_set_bit(wv, i, 0) != spec_set_bit(wv, i, 1)) by (bit_vector)
        requires i < 64;
    assert(spec_bit(spec_set_bit(wv, i, 0), i) == 0 && spec_bit(spec_set_bit(wv, i, 1), i) == 1)
        by (bit_vector)
        requires i < 64;
    assert(spec_set_bit(spec_set_bit(wv, i, 0), i, 0) == spec_set_bit(wv, i, 0)
        && spec_set_bit(spec_set_bit(wv, i, 0), i, 1) == spec_set_bit(wv, i, 1)
        && spec_set_bit(spec_set_bit(wv, i, 1), i, 0) == spec_set_bit(wv, i, 0)
        && spec_set_bit(spec_set_bit(wv, i, 1), i, 1) == spec_set_bit(wv, i, 1)) by (bit_vector);
    assert(spec_bit(wv, i) == 0 ==> spec_set_bit(wv, i, 0) == wv) by (bit_vector);
    assert(spec_bit(wv, i) == 1 ==> spec_set_bit(wv, i, 1) == wv) by (bit_vector);
    lemma_ring_pos_div(aa, bb);
    let h = w.ampl.spec_div_sqrt2();
    assert(h.a as int == bb && h.b as int == aa / 2);
    let phib = ((phi + 4 * bit) % 8) as u32;
    let wa = World { ampl: h, phase: phi, vec: BitVec { bits: v0 } };
    let wb = World { ampl: h, phase: phib, vec: BitVec { bits: v1 } };
    let t1 = seq![wa, wb];
    // first rewrite
    assert(seq![w].drop_last() =~= Seq::<World>::empty());
    assert(step_branches(Seq::<World>::empty(), ins) =~= Seq::<World>::empty());
    assert(step_branches(seq![w], ins) =~= w.spec_transition(ins));
    assert(w.spec_transition(ins) =~= t1);
    // first merge: each branch sits alone on its basis state
    lemma_vec_list2(wa, wb);
    assert(phib as int % 4 == fi);
    assert forall|j: int| 0 <= j < 4 && j != fi implies #[trigger] epair(t1, v0, j)
        =~= Seq::<World>::empty() by {
        lemma_net2(wa, wb, v0, j);
    }
    assert forall|j: int| 0 <= j < 4 && j != fi implies #[trigger] epair(t1, v1, j)
        =~= Seq::<World>::empty() by {
        lemma_net2(wa, wb, v1, j);
    }
    lemma_net2(wa, wb, v0, fi);
    lemma_net2(wa, wb, v1, fi);
    lemma_ring_pos_neg(bb, aa / 2);
    assert(epair(t1, v0, fi) =~= seq![wa]);
    assert(epair(t1, v1, fi) =~= seq![wb]);
    lemma_emit_single(t1, v0, fi, wa);
    lemma_emit_single(t1, v1, fi, wb);
    let vl1 = vec_list(t1);
    assert(vl1 =~= seq![v0, v1]);
    assert(vl1.drop_last() =~= seq![v0]);
    assert(seq![v0].drop_last() =~= Seq::<u64>::empty());
    assert(merge_groups(t1, Seq::<u64>::empty()) =~= Seq::<World>::empty());
    assert(merge_groups(t1, seq![v0]) =~= emit_group(t1, v0));
    assert(spec_merge(t1) =~= emit_group(t1, v0) + emit_group(t1, v1));
    let m1 = spec_step(seq![w], ins);
    assert(m1 =~= t1);
    // second rewrite
    let h2 = h.spec_div_sqrt2();
    assert(h2.a as int == aa / 2 && h2.b as int == bb / 2);
    let a0 = World { ampl: h2, phase: phi, vec: BitVec { bits: v0 } };
    let a1 = World { ampl: h2, phase: phi, vec: BitVec { bits: v1 } };
    let b0 = World { ampl: h2, phase: phib, vec: BitVec { bits: v0 } };
    let b1 = World { ampl: h2, phase: ((phib + 4) % 8) as u32, vec: BitVec { bits: v1 } };
    let t2 = seq![a0, a1, b0, b1];
    assert(wa.spec_transition(ins) =~= seq![a0, a1]);
    assert(wb.spec_transition(ins) =~= seq![b0, b1]);
    assert(m1.drop_last() =~= seq![wa]);
    assert(seq![wa].drop_last() =~= Seq::<World>::empty());
    assert(seq![wa].last() == wa);
    assert(m1.last() == wb);
    assert(step_branches(seq![wa], ins) =~= seq![a0, a1]);
    assert(step_branches(m1, ins) =~= seq![a0, a1] + seq![b0, b1]);
    assert(step_branches(m1, ins) =~= t2);
    // second merge
    lemma_vec_list4(a0, a1, b0, b1);
    let vl2 = vec_list(t2);
    assert(vl2 =~= seq![v0, v1]);
    assert forall|j: int| 0 <= j < 4 && j != fi implies #[trigger] epair(t2, v0, j)
        =~= Seq::<World>::empty() by {
        lemma_net4(a0, a1, b0, b1, v0, j);
    }
    assert forall|j: int| 0 <= j < 4 && j != fi implies #[trigger] epair(t2, v1, j)
        =~= Seq::<World>::empty() by {
        lemma_net4(a0, a1, b0, b1, v1, j);
    }
    lemma_net4(a0, a1, b0, b1, v0, fi);
    lemma_net4(a0, a1, b0, b1, v1, fi);
    assert(aa / 2 + aa / 2 == aa);
    assert(bb / 2 + bb / 2 == bb);
    lemma_ring_pos_neg(aa, bb);
    if bit == 0 {
        assert(phib == phi);
        assert(net_a(t2, v0, fi) == if phi < 4 { aa } else { -aa });
        assert(net_b(t2, v0, fi) == if phi < 4 { bb } else { -bb });
        assert(net_a(t2, v1, fi) == 0 && net_b(t2, v1, fi) == 0);
        assert(v0 == wv);
        assert(epair(t2, v0, fi) =~= seq![w]);
        lemma_emit_single(t2, v0, fi, w);
        lemma_emit_empty(t2, v1);
        assert(vl2.drop_last() =~= seq![v0]);
        assert(seq![v0].drop_last() =~= Seq::<u64>::empty());
        assert(merge_groups(t2, Seq::<u64>::empty()) =~= Seq::<World>::empty());
        assert(merge_groups(t2, seq![v0]) =~= emit_group(t2, v0));
        assert(spec_merge(t2) =~= seq![w]);
    } else {
        assert(phib == ((phi + 4) % 8) as u32);
        assert(((phib + 4) % 8) as int == phi);
        assert(net_a(t2, v0, fi) == 0 && net_b(t2, v0, fi) == 0);
        assert(net_a(t2, v1, fi) == if phi < 4 { aa } else { -aa });
        assert(net_b(t2, v1, fi) == if phi < 4 { bb } else { -bb });
        assert(v1 == wv);
        assert(epair(t2, v1, fi) =~= seq![w]);
        lemma_emit_single(t2, v1, fi, w);
        lemma_emit_empty(t2, v0);
        assert(vl2.drop_last() =~= seq![v0]);
        assert(seq![v0].drop_last() =~= Seq::<u64>::empty());
        assert(merge_groups(t2, Seq::<u64>::empty()) =~= Seq::<World>::empty());
        assert(merge_groups(t2, seq![v0]) =~= Seq::<World>::empty());
        assert(spec_merge(t2) =~= seq![w]);
    }
    assert(spec_step(m1, ins) == spec_merge(t2));
    assert(spec_step(m1, ins) =~= seq![w]);
}

/// The net of a one-branch sequence, unfolded.
proof fn lemma_net1(w0: World, v: u64, j: int)
    ensures
        net_a(seq![w0], v, j) == contrib_a(w0, v, j),
        net_b(seq![w0], v, j) == contrib_b(w0, v, j),
{
    assert(seq![w0].drop_last() =~= Seq::<World>::empty());
    assert(seq![w0].last() == w0);
    assert(net_a(seq![w0], v, j) == net_a(Seq::<World>::empty(), v, j) + contrib_a(w0, v, j));
    assert(net_a(Seq::<World>::empty(), v, j) == 0);
    assert(net_b(seq![w0], v, j) == net_b(Seq::<World>::empty(), v, j) + contrib_b(w0, v, j));
    assert(net_b(Seq::<World>::empty(), v, j) == 0);
}

/// A single positive branch with a phase in range is already merged.
pub proof fn lemma_single_branch_merged(w: World)
    requires
        w.phase < 8,
        ring_pos(w.ampl.a as int, w.ampl.b as int),
    ensures
        spec_merge(seq![w]) == seq![w],
{
    let s = seq![w];
    let v = w.vec.bits;
    let fi = w.phase as int % 4;
    assert(s.drop_last() =~= Seq::<World>::empty());
    assert(vec_list(Seq::<World>::empty()) =~= Seq::<u64>::empty());
    assert(!Seq::<u64>::empty().contains(v));
    assert(s.last() == w);
    let vl = vec_list(s);
    assert(vl =~= seq![v]);
    assert forall|j: int| 0 <= j < 4 && j != fi implies #[trigger] epair(s, v, j)
        =~= Seq::<World>::empty() by {
        lemma_net1(w, v, j);
    }
    lemma_net1(w, v, fi);
    lemma_ring_pos_neg(w.ampl.a as int, w.ampl.b as int);
    assert(epair(s, v, fi) =~= seq![w]);
    lemma_emit_single(s, v, fi, w);
    assert(vl.drop_last() =~= Seq::<u64>::empty());
    assert(merge_groups(s, Seq::<u64>::empty()) =~= Seq::<World>::empty());
    assert(vl.last() == v);
    assert(spec_merge(s) =~= seq![w]);
}

/// The state the engine starts from is already merged, so the involution
/// laws apply to it as they do to every later state, each of which is a
/// merge output and a fixpoint by `lemma_merge_idempotent`.
pub proof fn lemma_init_merged(n: u32)
    requires
        n <= 64,
    ensures
        spec_merge(seq![World::spec_init(n)]) == seq![World::spec_init(n)],
{
    let w = World::spec_init(n);
    assert(n / 2 <= 32);
    assert(1i64 << (n / 2) > 0) by (bit_vector)
        requires n / 2 <= 32;
    lemma_single_branch_merged(w);
}

} // verus!
