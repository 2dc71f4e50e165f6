//! That the order in which blocks are stored does not matter.
//!
//! It matters where the stored blocks leave a choice: where several could
//! start the chain, where one has several children, or where two have one
//! hash. Nothing else depends on it.

use crate::chain::order;
use crate::chain::stream::RawBlock;
use vstd::prelude::*;

verus! {

/// Whether no two blocks have one hash.
pub open spec fn has_distinct_hashes(s: Seq<order::Stored>) -> bool {
    forall|i: int, j: int| 0 <= i < j < s.len() ==> s[i].hash != s[j].hash
}

/// Whether there is exactly one block whose parent is missing.
pub open spec fn has_one_start(s: Seq<order::Stored>) -> bool {
    &&& exists|i: int| order::is_orphan(s, i)
    &&& forall|i: int, j: int|
        #[trigger] order::is_orphan(s, i) && #[trigger] order::is_orphan(s, j) ==> i == j
}

/// Whether no two blocks have one parent.
pub open spec fn has_single_children(s: Seq<order::Stored>) -> bool {
    forall|i: int, j: int|
        0 <= i < j < s.len() ==> (#[trigger] s[i]).prev() != (#[trigger] s[j]).prev()
}

/// Whether step `i` of `path` goes from a parent to its child.
pub open spec fn is_step(s: Seq<order::Stored>, path: Seq<int>, i: int) -> bool {
    s[path[i + 1]].prev() == s[path[i]].hash
}

/// Whether `path` goes from where the chain starts from parent to child.
pub open spec fn is_path(s: Seq<order::Stored>, path: Seq<int>) -> bool {
    &&& path.len() > 0
    &&& order::is_root(s, path[0])
    &&& forall|i: int| 0 <= i < path.len() ==> 0 <= #[trigger] path[i] < s.len()
    &&& forall|i: int| 0 <= i < path.len() - 1 ==> #[trigger] is_step(s, path, i)
}

/// Whether `i` is reached from where the chain starts.
pub open spec fn is_reachable(s: Seq<order::Stored>, i: int) -> bool {
    exists|path: Seq<int>| #[trigger] is_path(s, path) && path.last() == i
}

/// The blocks at the positions of `chain`.
pub open spec fn blocks_along(s: Seq<order::Stored>, chain: Seq<int>) -> Seq<order::Stored> {
    Seq::new(chain.len(), |i: int| s[chain[i]])
}

/// Whether the same blocks were handed out in the same order.
pub open spec fn are_same_blocks(a: Seq<RawBlock>, b: Seq<RawBlock>) -> bool {
    &&& a.len() == b.len()
    &&& forall|i: int|
        0 <= i < a.len() ==> {
            &&& (#[trigger] a[i]).height == b[i].height
            &&& a[i].hash@ == b[i].hash@
            &&& a[i].data@ == b[i].data@
        }
}

/// What stands at a position of a store is somewhere in a store of the same
/// blocks.
proof fn lemma_found(s: Seq<order::Stored>, t: Seq<order::Stored>, i: int) -> (j: int)
    requires
        s.to_multiset() == t.to_multiset(),
        0 <= i < s.len(),
    ensures
        0 <= j < t.len(),
        t[j] == s[i],
{
    broadcast use vstd::seq_lib::group_to_multiset_ensures;

    assert(s.contains(s[i]));
    assert(s.to_multiset().count(s[i]) > 0);
    assert(t.contains(s[i]));
    t.index_of(s[i])
}

/// Stores of the same blocks hold the same hashes.
proof fn lemma_holds(s: Seq<order::Stored>, t: Seq<order::Stored>, hash: Seq<u8>)
    requires
        s.to_multiset() == t.to_multiset(),
    ensures
        order::holds(s, hash) == order::holds(t, hash),
{
    if order::holds(s, hash) {
        let i = choose|i: int| 0 <= i < s.len() && #[trigger] s[i].hash == hash;
        let j = lemma_found(s, t, i);
        assert(t[j].hash == hash);
    }
    if order::holds(t, hash) {
        let i = choose|i: int| 0 <= i < t.len() && #[trigger] t[i].hash == hash;
        let j = lemma_found(t, s, i);
        assert(s[j].hash == hash);
    }
}

/// A store with one start has a root.
proof fn lemma_root_exists(s: Seq<order::Stored>) -> (r: int)
    requires
        has_distinct_hashes(s),
        has_one_start(s),
    ensures
        order::is_root(s, r),
{
    if exists|g: int| order::is_first_genesis(s, g) {
        let g = choose|g: int| order::is_first_genesis(s, g);
        assert(order::is_current(s, g));
        g
    } else {
        let i = choose|i: int| order::is_orphan(s, i);
        assert(order::is_first_orphan(s, i));
        assert(order::is_current(s, i));
        i
    }
}

/// A store with one start holds a chain.
proof fn lemma_chain_exists(s: Seq<order::Stored>)
    requires
        has_distinct_hashes(s),
        has_one_start(s),
    ensures
        order::is_chain(s, order::chain_of(s)),
{
    let r = lemma_root_exists(s);
    order::lemma_walk_on(s, seq![r]);
}

/// A store of the same blocks shares what is said of the blocks.
proof fn lemma_shared(s: Seq<order::Stored>, t: Seq<order::Stored>)
    requires
        s.to_multiset() == t.to_multiset(),
        has_distinct_hashes(s),
        has_one_start(s),
        has_single_children(s),
    ensures
        has_distinct_hashes(t),
        has_one_start(t),
        has_single_children(t),
{
    broadcast use vstd::seq_lib::group_to_multiset_ensures;

    assert(s.no_duplicates());
    s.lemma_multiset_has_no_duplicates();
    t.lemma_multiset_has_no_duplicates_conv();
    assert forall|i: int, j: int| 0 <= i < j < t.len() implies t[i].hash != t[j].hash
        && (#[trigger] t[i]).prev() != (#[trigger] t[j]).prev() by {
        let a = lemma_found(t, s, i);
        let b = lemma_found(t, s, j);
        assert(t[i] != t[j]);
        assert(a != b);
        if a < b {
            assert(s[a].hash != s[b].hash && s[a].prev() != s[b].prev());
        } else {
            assert(s[b].hash != s[a].hash && s[b].prev() != s[a].prev());
        }
    }
    let i = choose|i: int| order::is_orphan(s, i);
    let j = lemma_found(s, t, i);
    lemma_holds(s, t, s[i].prev());
    assert(order::is_orphan(t, j));
    assert forall|k: int, l: int|
        #[trigger] order::is_orphan(t, k) && #[trigger] order::is_orphan(t, l) implies k == l by {
        let a = lemma_found(t, s, k);
        let b = lemma_found(t, s, l);
        lemma_holds(s, t, t[k].prev());
        lemma_holds(s, t, t[l].prev());
        assert(order::is_orphan(s, a) && order::is_orphan(s, b));
        if k < l {
            assert(t[k].hash != t[l].hash);
        } else if l < k {
            assert(t[l].hash != t[k].hash);
        }
    }
}

/// The root of a store is also the root of a store of the same blocks.
proof fn lemma_same_root(s: Seq<order::Stored>, t: Seq<order::Stored>, r: int, q: int)
    requires
        s.to_multiset() == t.to_multiset(),
        has_distinct_hashes(s),
        has_one_start(s),
        has_single_children(s),
        order::is_root(s, r),
        0 <= q < t.len(),
        t[q] == s[r],
    ensures
        order::is_root(t, q),
{
    lemma_shared(s, t);
    assert(order::is_current(t, q));
    if exists|g: int| order::is_first_genesis(s, g) {
        let g = choose|g: int| #[trigger] order::is_first_genesis(s, g) && s[g].hash == s[r].hash;
        if g < r {
            assert(s[g].hash != s[r].hash);
        } else if r < g {
            assert(s[r].hash != s[g].hash);
        }
        assert forall|j: int| 0 <= j < q implies !(#[trigger] t[j]).is_genesis() by {
            assert(t[j].prev() != t[q].prev());
        }
        assert(order::is_first_genesis(t, q));
    } else {
        if exists|g: int| order::is_first_genesis(t, g) {
            let g = choose|g: int| order::is_first_genesis(t, g);
            let h = lemma_found(t, s, g);
            let f = order::lemma_first_genesis(s, h);
        }
        let i = choose|i: int| #[trigger] order::is_first_orphan(s, i) && s[i].hash == s[r].hash;
        if i < r {
            assert(s[i].hash != s[r].hash);
        } else if r < i {
            assert(s[r].hash != s[i].hash);
        }
        lemma_holds(s, t, s[r].prev());
        assert(order::is_orphan(t, q));
        assert(order::is_first_orphan(t, q));
    }
}

/// A step to a child is a step to a child in a store of the same blocks.
proof fn lemma_same_child(
    s: Seq<order::Stored>,
    t: Seq<order::Stored>,
    hash: Seq<u8>,
    c: int,
    d: int,
)
    requires
        has_distinct_hashes(t),
        has_single_children(t),
        order::is_first_child(s, hash, c),
        0 <= d < t.len(),
        t[d] == s[c],
    ensures
        order::is_first_child(t, hash, d),
{
    assert forall|j: int| 0 <= j < d && #[trigger] order::is_current(t, j) implies t[j].prev()
        != hash by {
        assert(t[j].prev() != t[d].prev());
    }
}

/// Where exactly one block has no stored parent and no two blocks have one
/// parent, the order of storage does not matter: stores of the same blocks
/// give the same blocks in the same order, and both do give some.
pub proof fn law_storage_order_does_not_matter(s: Seq<order::Stored>, t: Seq<order::Stored>)
    requires
        s.to_multiset() == t.to_multiset(),
        has_distinct_hashes(s),
        has_one_start(s),
        has_single_children(s),
    ensures
        exists|r: int| order::is_root(s, r),
        exists|r: int| order::is_root(t, r),
        order::is_chain(s, order::chain_of(s)),
        order::is_chain(t, order::chain_of(t)),
        blocks_along(s, order::chain_of(s)) == blocks_along(t, order::chain_of(t)),
        forall|a: Seq<RawBlock>, b: Seq<RawBlock>|
            #[trigger] order::are_chain_blocks(s, order::chain_of(s), a)
                && #[trigger] order::are_chain_blocks(t, order::chain_of(t), b) ==> are_same_blocks(
                a,
                b,
            ),
{
    lemma_shared(s, t);
    lemma_chain_exists(s);
    let chain = order::chain_of(s);
    order::lemma_chain_positions(s, chain);
    let q = Seq::new(
        chain.len(),
        |i: int| choose|j: int| 0 <= j < t.len() && #[trigger] t[j] == s[chain[i]],
    );
    assert forall|i: int| 0 <= i < q.len() implies 0 <= #[trigger] q[i] < t.len() && t[q[i]]
        == s[chain[i]] by {
        let j = lemma_found(s, t, chain[i]);
        assert(0 <= j < t.len() && t[j] == s[chain[i]]);
    }
    lemma_same_root(s, t, chain[0], q[0]);
    assert forall|i: int| 0 <= i < q.len() - 1 implies #[trigger] order::is_link(t, q, i) by {
        assert(order::is_link(s, chain, i));
        assert(t[q[i]] == s[chain[i]]);
        lemma_same_child(s, t, s[chain[i]].hash, chain[i + 1], q[i + 1]);
    }
    assert(q.no_duplicates()) by {
        assert forall|i: int, j: int| 0 <= i < q.len() && 0 <= j < q.len() && i != j implies q[i]
            != q[j] by {
            assert(t[q[i]] == s[chain[i]] && t[q[j]] == s[chain[j]]);
            assert(chain[i] != chain[j]);
            if chain[i] < chain[j] {
                assert(s[chain[i]].hash != s[chain[j]].hash);
            } else {
                assert(s[chain[j]].hash != s[chain[i]].hash);
            }
        }
    }
    assert forall|c: int| #[trigger]
        order::is_first_child(t, t[q.last()].hash, c) implies q.contains(c) by {
        let d = lemma_found(t, s, c);
        let n = chain.len() - 1;
        assert(t[q[n]] == s[chain[n]]);
        lemma_same_child(t, s, t[q.last()].hash, c, d);
        assert(order::is_first_child(s, s[chain.last()].hash, d));
        let k = chain.index_of(d);
        assert(chain.contains(d));
        assert(t[q[k]] == s[d]);
        if q[k] < c {
            assert(t[q[k]].hash != t[c].hash);
        } else if c < q[k] {
            assert(t[c].hash != t[q[k]].hash);
        }
    }
    assert(order::is_chain(t, q));
    order::law_chain_is_unique(t, q, order::chain_of(t));
    assert(blocks_along(s, chain) =~= blocks_along(t, q));
    assert forall|a: Seq<RawBlock>, b: Seq<RawBlock>|
        #[trigger] order::are_chain_blocks(s, chain, a) && #[trigger] order::are_chain_blocks(
            t,
            q,
            b,
        ) implies are_same_blocks(a, b) by {
        assert forall|i: int| 0 <= i < a.len() implies {
            &&& (#[trigger] a[i]).height == b[i].height
            &&& a[i].hash@ == b[i].hash@
            &&& a[i].data@ == b[i].data@
        } by {
            assert(t[q[i]] == s[chain[i]]);
            assert(b[i].height == i);
        }
    }
}

/// Where no two blocks have one hash or one parent, the blocks that are
/// reached from where the chain starts are those of the chain, and none of
/// them comes out twice.
pub proof fn law_reachable_blocks_come_out_once(s: Seq<order::Stored>)
    requires
        exists|chain: Seq<int>| order::is_chain(s, chain),
        has_distinct_hashes(s),
        has_single_children(s),
    ensures
        order::chain_of(s).no_duplicates(),
        forall|i: int| #[trigger] is_reachable(s, i) <==> order::chain_of(s).contains(i),
{
    let chain = order::chain_of(s);
    order::lemma_chain_positions(s, chain);
    assert forall|i: int| #[trigger] is_reachable(s, i) <==> chain.contains(i) by {
        if is_reachable(s, i) {
            let path = choose|path: Seq<int>| #[trigger] is_path(s, path) && path.last() == i;
            lemma_path_stays_on_chain(s, path, path.len() - 1);
        }
        if chain.contains(i) {
            let k = chain.index_of(i);
            let path = chain.take(k + 1);
            assert forall|j: int| 0 <= j < path.len() - 1 implies #[trigger] is_step(
                s,
                path,
                j,
            ) by {
                assert(order::is_link(s, chain, j));
            }
            assert(is_path(s, path) && path.last() == i);
        }
    }
}

/// A path meets only blocks of the chain.
proof fn lemma_path_stays_on_chain(s: Seq<order::Stored>, path: Seq<int>, n: int)
    requires
        order::is_chain(s, order::chain_of(s)),
        has_distinct_hashes(s),
        has_single_children(s),
        is_path(s, path),
        0 <= n < path.len(),
    ensures
        order::chain_of(s).contains(path[n]),
    decreases n,
{
    let chain = order::chain_of(s);
    order::lemma_chain_positions(s, chain);
    if n == 0 {
        order::lemma_root_is_unique(s, path[0], chain[0]);
        assert(chain[0] == path[0]);
    } else {
        lemma_path_stays_on_chain(s, path, n - 1);
        let k = chain.index_of(path[n - 1]);
        let c = path[n];
        assert(is_step(s, path, n - 1));
        assert(order::is_current(s, c));
        assert(order::is_first_child(s, s[chain[k]].hash, c)) by {
            assert forall|j: int| 0 <= j < c && #[trigger] order::is_current(s, j) implies s[j].prev()
                != s[chain[k]].hash by {
                assert(s[j].prev() != s[c].prev());
            }
        }
        if k < chain.len() - 1 {
            assert(order::is_link(s, chain, k));
            order::lemma_first_child_is_unique(s, s[chain[k]].hash, c, chain[k + 1]);
            assert(chain[k + 1] == c);
        } else {
            assert(order::is_first_child(s, s[chain.last()].hash, c));
        }
    }
}

} // verus!
