use vstd::prelude::*;
use std::collections::BTreeMap;
use vstd::std_specs::cmp::OrdSpec;
use vstd::std_specs::iter::IteratorSpec;
use crate::matching::ahead;
use crate::order::{Order, Side};

verus! {

broadcast use {vstd::std_specs::btree::group_btree_axioms, vstd::laws_cmp::group_laws_cmp};

/// The prices `ks` stand in strict priority order for the book of `side`.
pub open spec fn priority_sorted(side: Side, ks: Seq<u64>) -> bool {
    forall|i: int, j: int| 0 <= i < j < ks.len() ==> ahead(side, #[trigger] ks[i], #[trigger] ks[j])
}

/// `ks` lists the prices of `s`, each once, in priority order for `side`.
pub open spec fn ranks(side: Side, s: Set<u64>, ks: Seq<u64>) -> bool {
    ks.to_set() == s && priority_sorted(side, ks)
}

/// The prices of `s` in priority order for the book of `side`: lowest first
/// for asks, highest first for bids.
pub open spec fn ranked(side: Side, s: Set<u64>) -> Seq<u64> {
    choose|ks: Seq<u64>| ranks(side, s, ks)
}

/// Two priority listings of the same prices are the same listing.
pub proof fn lemma_ranks_unique(side: Side, s: Set<u64>, a: Seq<u64>, b: Seq<u64>)
    requires
        ranks(side, s, a),
        ranks(side, s, b),
    ensures
        a == b,
    decreases a.len(),
{
    if a.len() == 0 {
        if b.len() > 0 {
            assert(b.contains(b[0]));
            assert(s.contains(b[0]));
            assert(!a.contains(b[0]));
        }
        assert(a =~= b);
    } else {
        assert(a.contains(a[0]));
        assert(a.to_set().contains(a[0]));
        assert(s.contains(a[0]));
        assert(b.to_set().contains(a[0]));
        assert(b.contains(a[0]));
        let jb = choose|j: int| 0 <= j < b.len() && b[j] == a[0];
        assert(b.contains(b[0]));
        assert(b.to_set().contains(b[0]));
        assert(s.contains(b[0]));
        assert(a.to_set().contains(b[0]));
        assert(a.contains(b[0]));
        let ka = choose|k: int| 0 <= k < a.len() && a[k] == b[0];
        if jb > 0 {
            assert(ahead(side, b[0], b[jb]));
            if ka > 0 {
                assert(ahead(side, a[0], a[ka]));
            }
        }
        assert(a[0] == b[0]);
        let x = a[0];
        let a2 = a.drop_first();
        let b2 = b.drop_first();
        assert forall|y: u64| a2.to_set().contains(y) <==> s.remove(x).contains(y) by {
            if a2.contains(y) {
                let i = choose|i: int| 0 <= i < a2.len() && a2[i] == y;
                assert(a[i + 1] == y);
                assert(ahead(side, a[0], a[i + 1]));
                assert(a.contains(y));
            }
            if s.remove(x).contains(y) {
                assert(a.contains(y));
                let i = choose|i: int| 0 <= i < a.len() && a[i] == y;
                assert(i != 0);
                assert(a2[i - 1] == y);
                assert(a2.contains(y));
            }
        }
        assert forall|y: u64| b2.to_set().contains(y) <==> s.remove(x).contains(y) by {
            if b2.contains(y) {
                let i = choose|i: int| 0 <= i < b2.len() && b2[i] == y;
                assert(b[i + 1] == y);
                assert(ahead(side, b[0], b[i + 1]));
                assert(b.contains(y));
            }
            if s.remove(x).contains(y) {
                assert(b.contains(y));
                let i = choose|i: int| 0 <= i < b.len() && b[i] == y;
                assert(i != 0);
                assert(b2[i - 1] == y);
                assert(b2.contains(y));
            }
        }
        assert(a2.to_set() =~= s.remove(x));
        assert(b2.to_set() =~= s.remove(x));
        assert forall|i: int, j: int| 0 <= i < j < a2.len() implies ahead(side, #[trigger] a2[i], #[trigger] a2[j]) by {
            assert(a2[i] == a[i + 1] && a2[j] == a[j + 1]);
        }
        assert forall|i: int, j: int| 0 <= i < j < b2.len() implies ahead(side, #[trigger] b2[i], #[trigger] b2[j]) by {
            assert(b2[i] == b[i + 1] && b2[j] == b[j + 1]);
        }
        lemma_ranks_unique(side, s.remove(x), a2, b2);
        assert(a =~= seq![x] + a2);
        assert(b =~= seq![x] + b2);
    }
}

/// A listing of a set's prices in priority order is the set's ranking.
pub proof fn lemma_ranked(side: Side, s: Set<u64>, ks: Seq<u64>)
    requires
        ranks(side, s, ks),
    ensures
        ranked(side, s) == ks,
{
    let r = ranked(side, s);
    assert(ranks(side, s, r));
    lemma_ranks_unique(side, s, r, ks);
}

/// The keys of `m`, lowest first.
fn ascending_keys(m: &BTreeMap<u64, Vec<Order>>) -> (v: Vec<u64>)
    ensures
        ranks(Side::Sell, m@.dom(), v@),
{
    let ghost all = vstd::std_specs::btree::spec_keys_iter(m).remaining();
    assert(vstd::laws_cmp::obeys_cmp::<u64>());
    assert(vstd::laws_cmp::obeys_cmp::<&u64>());
    assert(vstd::std_specs::btree::increasing_seq(all));
    let mut v: Vec<u64> = Vec::new();
    for k in it: m.keys()
        invariant
            it.seq() == all,
            v@.len() == it.index(),
            forall|i: int| 0 <= i < v@.len() ==> v@[i] == *all[i],
    {
        v.push(*k);
    }
    assert(v@ =~= all.unref());
    assert(all.unref().to_set() == m@.dom());
    assert forall|i: int, j: int| 0 <= i < j < v@.len() implies ahead(Side::Sell, #[trigger] v@[i], #[trigger] v@[j]) by {
        assert(vstd::std_specs::btree::increasing_seq(all));
        vstd::std_specs::btree::axiom_increasing_seq_meaning(all);
        assert(OrdSpec::cmp_spec(&all[i], &all[j]) is Less);
    }
    v
}

/// The keys of `m` in priority order for the book of `side`.
pub fn priority_keys(m: &BTreeMap<u64, Vec<Order>>, side: Side) -> (v: Vec<u64>)
    ensures
        ranks(side, m@.dom(), v@),
        v@ == ranked(side, m@.dom()),
{
    let up = ascending_keys(m);
    let v = match side {
        Side::Sell => up,
        Side::Buy => {
            let mut down: Vec<u64> = Vec::new();
            let mut i: usize = up.len();
            while i > 0
                invariant
                    i <= up@.len(),
                    down@.len() + i == up@.len(),
                    forall|k: int| 0 <= k < down@.len() ==> #[trigger] down@[k] == up@[up@.len() - 1 - k],
                decreases i,
            {
                i = i - 1;
                down.push(up[i]);
            }
            assert forall|y: u64| down@.to_set().contains(y) <==> up@.to_set().contains(y) by {
                if down@.contains(y) {
                    let k = choose|k: int| 0 <= k < down@.len() && down@[k] == y;
                    assert(up@[up@.len() - 1 - k] == y);
                    assert(up@.contains(y));
                }
                if up@.contains(y) {
                    let k = choose|k: int| 0 <= k < up@.len() && up@[k] == y;
                    assert(down@[up@.len() - 1 - k] == y);
                    assert(down@.contains(y));
                }
            }
            assert(down@.to_set() =~= up@.to_set());
            assert forall|a: int, b: int| 0 <= a < b < down@.len() implies ahead(Side::Buy, #[trigger] down@[a], #[trigger] down@[b]) by {
                assert(ahead(Side::Sell, up@[up@.len() - 1 - b], up@[up@.len() - 1 - a]));
            }
            down
        },
    };
    proof {
        lemma_ranked(side, m@.dom(), v@);
    }
    v
}

} // verus!
