//! Chromosomes and their invariant: a chromosome is a permutation of all
//! non-depot node indices, and every operator of the evolutionary loop
//! preserves that. Validity is stated as multiset equality with the
//! canonical ascending chromosome.

use vstd::prelude::*;

use crate::data::{Data, NodeIndex};

verus! {

broadcast use {vstd::seq_lib::group_to_multiset_ensures, vstd::multiset::group_multiset_axioms};

/// The canonical chromosome: every non-depot index, in increasing order.
pub open spec fn base_chromosome(d: Data) -> Seq<NodeIndex> {
    Seq::new(
        (d.n() - 1) as nat,
        |i: int|
            if i < d.depot as int {
                i as usize
            } else {
                (i + 1) as usize
            },
    )
}

/// A chromosome is valid when it holds exactly the non-depot indices of the
/// instance, each exactly once, in any order.
pub open spec fn valid_chromosome(d: Data, c: Seq<NodeIndex>) -> bool {
    c.to_multiset() == base_chromosome(d).to_multiset()
}

/// The canonical chromosome has one slot per customer, no duplicates, and
/// only in-range non-depot indices.
pub proof fn lemma_base_chromosome_facts(d: Data)
    requires
        d.wf(),
    ensures
        base_chromosome(d).len() == d.n() - 1,
        base_chromosome(d).no_duplicates(),
        forall|k: int|
            0 <= k < base_chromosome(d).len() ==> (#[trigger] base_chromosome(d)[k]) < d.n()
                && base_chromosome(d)[k] != d.depot,
{
    let b = base_chromosome(d);
    assert forall|k: int| 0 <= k < b.len() implies (#[trigger] b[k]) < d.n() && b[k]
        != d.depot by {
        if k < d.depot as int {
            assert(b[k] == k as usize);
        } else {
            assert(b[k] == (k + 1) as usize);
        }
    }
    assert forall|i: int, j: int| 0 <= i < b.len() && 0 <= j < b.len() && i != j implies b[i]
        != b[j] by {
        assert(b[i] as int == if i < d.depot as int {
            i
        } else {
            i + 1
        });
        assert(b[j] as int == if j < d.depot as int {
            j
        } else {
            j + 1
        });
    }
}

/// What validity gives about a chromosome: its length, the absence of
/// duplicates, and that every gene is an in-range non-depot index.
pub proof fn lemma_valid_chromosome_facts(d: Data, c: Seq<NodeIndex>)
    requires
        d.wf(),
        valid_chromosome(d, c),
    ensures
        c.len() == d.n() - 1,
        c.no_duplicates(),
        forall|k: int| 0 <= k < c.len() ==> (#[trigger] c[k]) < d.n() && c[k] != d.depot,
        d.valid_path(c),
        d.non_depot_path(c),
{
    lemma_base_chromosome_facts(d);
    let b = base_chromosome(d);
    assert(c.len() == c.to_multiset().len());
    assert(b.len() == b.to_multiset().len());
    b.lemma_multiset_has_no_duplicates();
    assert forall|k: int| 0 <= k < c.len() implies (#[trigger] c[k]) < d.n() && c[k]
        != d.depot by {
        assert(c.contains(c[k]));
        assert(c.to_multiset().count(c[k]) > 0);
        assert(b.to_multiset().count(c[k]) > 0);
        assert(b.contains(c[k]));
        let j = choose|j: int| 0 <= j < b.len() && b[j] == c[k];
        assert(b[j] < d.n() && b[j] != d.depot);
    }
    assert forall|x: NodeIndex| c.to_multiset().contains(x) implies c.to_multiset().count(x)
        == 1 by {
        assert(b.to_multiset().count(x) > 0);
        assert(b.contains(x));
    }
    c.lemma_multiset_has_no_duplicates_conv();
}

/// Updating one slot exchanges exactly that slot's value in the multiset.
pub proof fn lemma_update_to_multiset(s: Seq<NodeIndex>, i: int, v: NodeIndex)
    requires
        0 <= i < s.len(),
    ensures
        s.update(i, v).to_multiset() == s.to_multiset().remove(s[i]).insert(v),
{
    let su = s.update(i, v);
    assert(su.remove(i) =~= s.remove(i));
    assert(su.remove(i).to_multiset() == su.to_multiset().remove(su[i]));
    assert(s.remove(i).to_multiset() == s.to_multiset().remove(s[i]));
    assert(su[i] == v);
    assert(su.contains(v));
    assert(su.to_multiset().count(v) > 0);
    assert(su.to_multiset() =~= s.to_multiset().remove(s[i]).insert(v)) by {
        assert forall|x: NodeIndex| su.to_multiset().count(x) == s.to_multiset().remove(
            s[i],
        ).insert(v).count(x) by {
            assert(su.to_multiset().remove(v).count(x) == s.to_multiset().remove(s[i]).count(x));
        }
    }
}

/// Swapping two slots preserves the multiset of genes.
pub proof fn lemma_swap_to_multiset(s: Seq<NodeIndex>, i: int, j: int)
    requires
        0 <= i < s.len(),
        0 <= j < s.len(),
    ensures
        s.update(i, s[j]).update(j, s[i]).to_multiset() == s.to_multiset(),
{
    if i == j {
        assert(s.update(i, s[j]).update(j, s[i]) =~= s);
    } else {
        let s1 = s.update(i, s[j]);
        let s2 = s1.update(j, s[i]);
        lemma_update_to_multiset(s, i, s[j]);
        lemma_update_to_multiset(s1, j, s[i]);
        assert(s1[j] == s[j]);
        assert(s2.to_multiset() =~= s.to_multiset()) by {
            assert forall|x: NodeIndex| s2.to_multiset().count(x) == s.to_multiset().count(x) by {
                assert(s.contains(s[i]));
                assert(s.contains(s[j]));
                assert(s.to_multiset().count(s[i]) > 0);
                assert(s.to_multiset().count(s[j]) > 0);
            }
        }
    }
}

/// Two duplicate-free sequences over the same element set hold the same
/// multiset.
pub proof fn lemma_nodup_same_set_to_multiset(a: Seq<NodeIndex>, b: Seq<NodeIndex>)
    requires
        a.no_duplicates(),
        b.no_duplicates(),
        a.to_set() == b.to_set(),
    ensures
        a.to_multiset() == b.to_multiset(),
{
    a.lemma_multiset_has_no_duplicates();
    b.lemma_multiset_has_no_duplicates();
    assert(a.to_multiset() =~= b.to_multiset()) by {
        assert forall|x: NodeIndex| a.to_multiset().count(x) == b.to_multiset().count(x) by {
            assert(a.to_set().contains(x) <==> a.contains(x));
            assert(b.to_set().contains(x) <==> b.contains(x));
            if a.contains(x) {
                assert(b.contains(x));
            } else {
                assert(!b.contains(x));
                assert(a.to_multiset().count(x) == 0);
                assert(b.to_multiset().count(x) == 0);
            }
        }
    }
}

/// The ascending vector of all non-depot indices.
#[verifier::loop_isolation(false)]
pub fn non_depot_indices(data: &Data) -> (v: Vec<NodeIndex>)
    requires
        data.wf(),
    ensures
        v@ == base_chromosome(*data),
{
    let n = data.nodes_demand.len();
    let mut v: Vec<NodeIndex> = Vec::new();
    let mut i: usize = 0;
    while i < n
        invariant
            i <= n,
            v@.len() == if i <= data.depot {
                i as int
            } else {
                i - 1
            },
            forall|k: int| 0 <= k < v@.len() ==> v@[k] == #[trigger] base_chromosome(*data)[k],
        decreases n - i,
    {
        if i != data.depot {
            v.push(i);
        }
        i = i + 1;
    }
    proof {
        lemma_base_chromosome_facts(*data);
        assert(v@ =~= base_chromosome(*data));
    }
    v
}

/// A plain element-for-element copy of a chromosome.
#[verifier::loop_isolation(false)]
pub fn clone_chromosome(c: &Vec<NodeIndex>) -> (r: Vec<NodeIndex>)
    ensures
        r@ == c@,
{
    let mut r: Vec<NodeIndex> = Vec::new();
    let mut i: usize = 0;
    while i < c.len()
        invariant
            i <= c@.len(),
            r@ =~= c@.take(i as int),
        decreases c@.len() - i,
    {
        r.push(c[i]);
        proof {
            assert(c@.take(i as int + 1) =~= c@.take(i as int).push(c@[i as int]));
        }
        i = i + 1;
    }
    proof {
        assert(c@.take(i as int) =~= c@);
    }
    r
}

/// Gene-for-gene equality of two chromosomes.
#[verifier::loop_isolation(false)]
pub fn chromosomes_equal(a: &Vec<NodeIndex>, b: &Vec<NodeIndex>) -> (r: bool)
    ensures
        r == (a@ == b@),
{
    if a.len() != b.len() {
        return false;
    }
    let mut i: usize = 0;
    while i < a.len()
        invariant
            i <= a@.len(),
            a@.len() == b@.len(),
            forall|k: int| 0 <= k < i ==> a@[k] == b@[k],
        decreases a@.len() - i,
    {
        if a[i] != b[i] {
            return false;
        }
        i = i + 1;
    }
    proof {
        assert(a@ =~= b@);
    }
    true
}

} // verus!
