//! The order in which a sprite's regions are rasterized.
use vstd::prelude::*;

verus! {

/// The positions in `s` that hold `v`, in increasing order.
pub open spec fn positions_of(s: Seq<bool>, v: bool) -> Seq<usize>
    decreases s.len(),
{
    if s.len() == 0 {
        Seq::empty()
    } else if s.last() == v {
        positions_of(s.drop_last(), v).push((s.len() - 1) as usize)
    } else {
        positions_of(s.drop_last(), v)
    }
}

fn push_positions(depends: &[bool], v: bool, out: &mut Vec<usize>)
    ensures
        final(out)@ == old(out)@ + positions_of(depends@, v),
{
    let n = depends.len();
    let mut i: usize = 0;
    let ghost start = out@;
    assert(depends@.take(0) =~= Seq::<bool>::empty());
    assert(start + Seq::<usize>::empty() =~= start);
    while i < n
        invariant
            n == depends@.len(),
            i <= n,
            out@ == start + positions_of(depends@.take(i as int), v),
        decreases n - i,
    {
        assert(depends@.take(i + 1).drop_last() =~= depends@.take(i as int));
        if depends[i] == v {
            out.push(i);
            assert(start + positions_of(depends@.take(i + 1), v) =~= (start + positions_of(
                depends@.take(i as int),
                v,
            )).push(i));
        }
        i = i + 1;
    }
    assert(depends@.take(n as int) =~= depends@);
}

/// The order in which regions are rasterized, given for each region whether it is drawn
/// from other regions (a fill or a shadow): first every region that is not, then every
/// region that is, each group in its given order, so that what a region is drawn from is
/// rasterized before it.
pub fn rasterization_order(depends_on_others: &[bool]) -> (r: Vec<usize>)
    ensures
        r@ == positions_of(depends_on_others@, false) + positions_of(depends_on_others@, true),
{
    let mut order: Vec<usize> = Vec::new();
    push_positions(depends_on_others, false, &mut order);
    assert(Seq::<usize>::empty() + positions_of(depends_on_others@, false) =~= positions_of(depends_on_others@, false));
    push_positions(depends_on_others, true, &mut order);
    order
}

proof fn lemma_positions(s: Seq<bool>, v: bool)
    requires
        s.len() <= usize::MAX,
    ensures
        forall|j: int| 0 <= j < positions_of(s, v).len() ==> (#[trigger] positions_of(s, v)[j]) < s.len()
            && s[positions_of(s, v)[j] as int] == v,
        forall|j: int, k: int| 0 <= j < k < positions_of(s, v).len() ==> #[trigger] positions_of(s, v)[j]
            < #[trigger] positions_of(s, v)[k],
        forall|i: int| 0 <= i < s.len() && s[i] == v ==> #[trigger] positions_of(s, v).contains(i as usize),
    decreases s.len(),
{
    if s.len() > 0 {
        let r = s.drop_last();
        lemma_positions(r, v);
        let p = positions_of(s, v);
        let q = positions_of(r, v);
        assert forall|i: int| 0 <= i < s.len() && s[i] == v implies #[trigger] p.contains(i as usize) by {
            if i < s.len() - 1 {
                assert(r[i] == s[i]);
                assert(q.contains(i as usize));
                let j = choose|j: int| 0 <= j < q.len() && q[j] == i as usize;
                assert(p[j] == q[j]);
            } else {
                assert(p[p.len() - 1] == i as usize);
            }
        }
    }
}

proof fn lemma_positions_len(s: Seq<bool>)
    ensures
        positions_of(s, false).len() + positions_of(s, true).len() == s.len(),
    decreases s.len(),
{
    if s.len() > 0 {
        lemma_positions_len(s.drop_last());
    }
}

/// The rasterization order lists every region exactly once, and no region drawn from
/// others comes before a region that is not.
pub proof fn lemma_rasterization_order_is_a_schedule(depends_on_others: Seq<bool>, order: Seq<usize>)
    requires
        depends_on_others.len() <= usize::MAX,
        order == positions_of(depends_on_others, false) + positions_of(depends_on_others, true),
    ensures
        order.len() == depends_on_others.len(),
        order.no_duplicates(),
        forall|i: int| 0 <= i < depends_on_others.len() ==> #[trigger] order.contains(i as usize),
        forall|j: int, k: int| 0 <= j < k < order.len() && depends_on_others[#[trigger] order[j] as int]
            ==> depends_on_others[#[trigger] order[k] as int],
{
    let s = depends_on_others;
    let f = positions_of(s, false);
    let t = positions_of(s, true);
    lemma_positions(s, false);
    lemma_positions(s, true);
    lemma_positions_len(s);
    assert forall|j: int, k: int| 0 <= j < order.len() && 0 <= k < order.len() && j != k implies order[j]
        != order[k] by {
        if j < f.len() && k < f.len() {
            if j < k {
                assert(f[j] < f[k]);
            } else {
                assert(f[k] < f[j]);
            }
        } else if j >= f.len() && k >= f.len() {
            if j < k {
                assert(t[j - f.len()] < t[k - f.len()]);
            } else {
                assert(t[k - f.len()] < t[j - f.len()]);
            }
        } else if j < f.len() {
            assert(s[f[j] as int] == false);
            assert(s[t[k - f.len()] as int] == true);
        } else {
            assert(s[f[k] as int] == false);
            assert(s[t[j - f.len()] as int] == true);
        }
    }
    assert forall|i: int| 0 <= i < s.len() implies #[trigger] order.contains(i as usize) by {
        if s[i] {
            assert(t.contains(i as usize));
            let j = choose|j: int| 0 <= j < t.len() && t[j] == i as usize;
            assert(order[f.len() + j] == i as usize);
        } else {
            assert(f.contains(i as usize));
            let j = choose|j: int| 0 <= j < f.len() && f[j] == i as usize;
            assert(order[j] == i as usize);
        }
    }
    assert forall|j: int, k: int| 0 <= j < k < order.len() && s[#[trigger] order[j] as int] implies s[
        #[trigger] order[k] as int] by {
        if j < f.len() {
            assert(s[f[j] as int] == false);
        } else {
            assert(order[k] == t[k - f.len()]);
        }
    }
}

} // verus!
