use vstd::prelude::*;
use vstd::multiset::Multiset;

verus! {

broadcast use vstd::seq_lib::group_to_multiset_ensures;

/// Position of the last point of largest weight: where several points share
/// the largest weight, the one that comes last wins.
pub open spec fn last_max_index(ids: Seq<u8>, w: Seq<u32>) -> int
    decreases ids.len(),
{
    if ids.len() <= 1 {
        0
    } else {
        let j = last_max_index(ids.drop_last(), w);
        if w[ids.last() as int] >= w[ids[j] as int] {
            ids.len() - 1
        } else {
            j
        }
    }
}

/// The sequence left after removing position `i` by moving the last element
/// into its place.
pub open spec fn swap_removed(ids: Seq<u8>, i: int) -> Seq<u8> {
    ids.update(i, ids.last()).drop_last()
}

/// Where `x` goes in a sequence already ordered by `key`: after every element
/// whose key is not larger than the key of `x`.
pub open spec fn insertion_point(sorted: Seq<u8>, x: u8, key: Seq<u32>) -> int
    decreases sorted.len(),
{
    if sorted.len() == 0 {
        0
    } else if key[sorted.last() as int] <= key[x as int] {
        sorted.len() as int
    } else {
        insertion_point(sorted.drop_last(), x, key)
    }
}

/// The points of `s` ordered by ascending `key`, points of equal key keeping
/// the order that they had in `s`.
pub open spec fn stable_sort_by_key(s: Seq<u8>, key: Seq<u32>) -> Seq<u8>
    decreases s.len(),
{
    if s.len() == 0 {
        s
    } else {
        let prefix = stable_sort_by_key(s.drop_last(), key);
        prefix.insert(insertion_point(prefix, s.last(), key), s.last())
    }
}

/// `s` is in ascending order of `key`.
pub open spec fn ascending_by(s: Seq<u8>, key: Seq<u32>) -> bool {
    forall|i: int, j: int| 0 <= i <= j < s.len() ==> key[s[i] as int] <= key[s[j] as int]
}

/// Every point of `s` is below `n`.
pub open spec fn all_below(s: Seq<u8>, n: int) -> bool {
    forall|k: int| 0 <= k < s.len() ==> (s[k] as int) < n
}

/// The chosen position is in range and no point there weighs more than the chosen one.
pub proof fn lemma_last_max_index(ids: Seq<u8>, w: Seq<u32>)
    requires
        ids.len() >= 1,
    ensures
        0 <= last_max_index(ids, w) < ids.len(),
        forall|k: int| 0 <= k < ids.len() ==> w[#[trigger] ids[k] as int] <= w[ids[last_max_index(ids, w)] as int],
    decreases ids.len(),
{
    if ids.len() > 1 {
        lemma_last_max_index(ids.drop_last(), w);
        let j = last_max_index(ids.drop_last(), w);
        assert forall|k: int| 0 <= k < ids.len() implies w[#[trigger] ids[k] as int] <= w[ids[last_max_index(ids, w)] as int] by {
            if k < ids.len() - 1 {
                assert(ids[k] == ids.drop_last()[k]);
            }
        }
    }
}

proof fn lemma_insertion_point(sorted: Seq<u8>, x: u8, key: Seq<u32>)
    ensures
        0 <= insertion_point(sorted, x, key) <= sorted.len(),
        forall|k: int| insertion_point(sorted, x, key) <= k < sorted.len() ==> key[x as int] < key[sorted[k] as int],
        insertion_point(sorted, x, key) > 0 ==> key[sorted[insertion_point(sorted, x, key) - 1] as int] <= key[x as int],
    decreases sorted.len(),
{
    if sorted.len() > 0 && key[sorted.last() as int] > key[x as int] {
        lemma_insertion_point(sorted.drop_last(), x, key);
        let p = insertion_point(sorted, x, key);
        assert forall|k: int| p <= k < sorted.len() implies key[x as int] < key[sorted[k] as int] by {
            if k < sorted.len() - 1 {
                assert(sorted[k] == sorted.drop_last()[k]);
            }
        }
        if p > 0 {
            assert(sorted[p - 1] == sorted.drop_last()[p - 1]);
        }
    }
}

/// The stable sort keeps the points, each as often as before, and orders them by key.
pub proof fn lemma_stable_sort(s: Seq<u8>, key: Seq<u32>)
    ensures
        stable_sort_by_key(s, key).len() == s.len(),
        stable_sort_by_key(s, key).to_multiset() == s.to_multiset(),
        ascending_by(stable_sort_by_key(s, key), key),
    decreases s.len(),
{
    if s.len() > 0 {
        let prefix = stable_sort_by_key(s.drop_last(), key);
        lemma_stable_sort(s.drop_last(), key);
        let x = s.last();
        let p = insertion_point(prefix, x, key);
        lemma_insertion_point(prefix, x, key);
        let r = prefix.insert(p, x);
        assert(s.drop_last().push(x) =~= s);
        assert forall|i: int, j: int| 0 <= i <= j < r.len() implies key[r[i] as int] <= key[r[j] as int] by {
            if j < p {
            } else if i > p {
            } else if i == p && j == p {
            } else if i == p {
                assert(r[j] == prefix[j - 1]);
            } else {
                assert(r[i] == prefix[i]);
                if j > p {
                    assert(r[j] == prefix[j - 1]);
                }
                if i < p - 1 {
                    assert(key[prefix[i] as int] <= key[prefix[p - 1] as int]);
                }
            }
        }
    }
}


/// Position of the last point of largest weight in `ids`.
fn last_max_position(ids: &Vec<u8>, weights: &Vec<u32>) -> (i: usize)
    requires
        ids@.len() >= 1,
        all_below(ids@, weights@.len() as int),
    ensures
        i as int == last_max_index(ids@, weights@),
{
    let mut best: usize = 0;
    let mut k: usize = 1;
    assert(ids@.take(1).len() == 1);
    while k < ids.len()
        invariant
            1 <= k <= ids@.len(),
            all_below(ids@, weights@.len() as int),
            best as int == last_max_index(ids@.take(k as int), weights@),
            best < k,
        decreases ids@.len() - k,
    {
        proof {
            let t = ids@.take(k as int + 1);
            assert(t.drop_last() =~= ids@.take(k as int));
            assert(t.last() == ids@[k as int]);
            assert(t[best as int] == ids@[best as int]);
        }
        if weights[ids[k] as usize] >= weights[ids[best] as usize] {
            best = k;
        }
        k = k + 1;
    }
    assert(ids@.take(k as int) =~= ids@);
    best
}

/// Where `x` goes in `sorted`, which is ordered by `key`: after every point
/// whose key is not larger.
fn insertion_position(sorted: &Vec<u8>, x: u8, key: &Vec<u32>) -> (p: usize)
    requires
        all_below(sorted@, key@.len() as int),
        (x as int) < key@.len(),
    ensures
        p as int == insertion_point(sorted@, x, key@),
{
    let mut p: usize = sorted.len();
    assert(sorted@.take(p as int) =~= sorted@);
    while p > 0 && key[sorted[p - 1] as usize] > key[x as usize]
        invariant
            p <= sorted@.len(),
            all_below(sorted@, key@.len() as int),
            (x as int) < key@.len(),
            insertion_point(sorted@, x, key@) == insertion_point(sorted@.take(p as int), x, key@),
        decreases p,
    {
        assert(sorted@.take(p as int).drop_last() =~= sorted@.take(p as int - 1));
        p = p - 1;
    }
    p
}

/// Sorts `ids` by ascending `key`, stably.
fn stable_sort_by_distance(ids: &Vec<u8>, key: &Vec<u32>) -> (res: Vec<u8>)
    requires
        all_below(ids@, key@.len() as int),
    ensures
        res@ == stable_sort_by_key(ids@, key@),
{
    let mut res: Vec<u8> = Vec::new();
    let mut k: usize = 0;
    assert(ids@.take(0) =~= Seq::<u8>::empty());
    while k < ids.len()
        invariant
            k <= ids@.len(),
            all_below(ids@, key@.len() as int),
            all_below(res@, key@.len() as int),
            res@ == stable_sort_by_key(ids@.take(k as int), key@),
        decreases ids@.len() - k,
    {
        let x = ids[k];
        let p = insertion_position(&res, x, key);
        proof {
            lemma_insertion_point(res@, x, key@);
            let t = ids@.take(k as int + 1);
            assert(t.drop_last() =~= ids@.take(k as int));
            assert(t.last() == x);
        }
        res.insert(p, x);
        k = k + 1;
    }
    assert(ids@.take(k as int) =~= ids@);
    res
}


/// Fewest points, besides the vantage point, that a node splits between a
/// near and a far subtree; fewer stay in the node as its `rest`.
pub const MIN_SPLIT: usize = 7;


/// `a` occurs in `s` before some occurrence of `b`.
pub open spec fn occurs_before(s: Seq<u8>, a: u8, b: u8) -> bool {
    exists|i: int, j: int| 0 <= i < j < s.len() && #[trigger] s[i] == a && #[trigger] s[j] == b
}

/// The sort is stable: of two points with equal keys, the one that comes first
/// in the result also came first in the input.
pub proof fn lemma_stable_sort_keeps_ties(s: Seq<u8>, key: Seq<u32>)
    ensures
        forall|i: int, j: int|
            0 <= i < j < stable_sort_by_key(s, key).len() && key[stable_sort_by_key(s, key)[i] as int]
                == key[stable_sort_by_key(s, key)[j] as int] ==> occurs_before(
                s,
                #[trigger] stable_sort_by_key(s, key)[i],
                #[trigger] stable_sort_by_key(s, key)[j],
            ),
    decreases s.len(),
{
    if s.len() > 0 {
        let init = s.drop_last();
        let prefix = stable_sort_by_key(init, key);
        let x = s.last();
        let p = insertion_point(prefix, x, key);
        let r = stable_sort_by_key(s, key);
        lemma_stable_sort_keeps_ties(init, key);
        lemma_stable_sort(init, key);
        lemma_insertion_point(prefix, x, key);
        assert(r == prefix.insert(p, x));
        assert forall|i: int, j: int|
            0 <= i < j < r.len() && key[r[i] as int] == key[r[j] as int] implies occurs_before(s, #[trigger] r[i], #[trigger] r[j]) by {
            if j < p {
                assert(r[i] == prefix[i] && r[j] == prefix[j]);
                assert(occurs_before(init, prefix[i], prefix[j]));
                let (a, b) = choose|a: int, b: int| 0 <= a < b < init.len() && #[trigger] init[a] == prefix[i] && #[trigger] init[b] == prefix[j];
                assert(s[a] == init[a] && s[b] == init[b]);
            } else if i > p {
                assert(r[i] == prefix[i - 1] && r[j] == prefix[j - 1]);
                assert(occurs_before(init, prefix[i - 1], prefix[j - 1]));
                let (a, b) = choose|a: int, b: int| 0 <= a < b < init.len() && #[trigger] init[a] == prefix[i - 1] && #[trigger] init[b] == prefix[j - 1];
                assert(s[a] == init[a] && s[b] == init[b]);
            } else if i == p {
                assert(r[j] == prefix[j - 1]);
                assert(key[x as int] < key[prefix[j - 1] as int]);
            } else if j == p {
                assert(r[i] == prefix[i]);
                let k = lemma_in_points(init, prefix[i]);
                assert(s[k] == init[k]);
                assert(s[s.len() - 1] == x);
            } else {
                assert(r[i] == prefix[i] && r[j] == prefix[j - 1]);
                assert(occurs_before(init, prefix[i], prefix[j - 1]));
                let (a, b) = choose|a: int, b: int| 0 <= a < b < init.len() && #[trigger] init[a] == prefix[i] && #[trigger] init[b] == prefix[j - 1];
                assert(s[a] == init[a] && s[b] == init[b]);
            }
        }
    }
}

/// A node of the vantage-point tree over points `0..n`, named by their index.
///
/// The radius is the distance from the vantage point to `radius_point`;
/// `near` holds points no farther than that from the vantage point, `far`
/// points no nearer. A node without subtrees holds its remaining points in
/// `rest`, ordered by distance from the vantage point, and has no radius.
pub struct VpNode {
    pub vantage: u8,
    pub near: Option<Box<VpNode>>,
    pub far: Option<Box<VpNode>>,
    pub rest: Vec<u8>,
    pub radius_point: Option<u8>,
}

/// The vantage-point tree: the shape that nearest-neighbour queries walk.
pub struct VpTree {
    pub root: Option<Box<VpNode>>,
}

/// The weight table covers the points `0..count`, and the distance table has
/// a row of at least `count` entries for each of them.
pub open spec fn tables_cover(count: int, w: Seq<u32>, d: Seq<Vec<u32>>) -> bool {
    &&& w.len() >= count
    &&& d.len() >= count
    &&& forall|a: int| 0 <= a < count ==> #[trigger] d[a]@.len() >= count
}

/// The points `0..count` in order.
pub open spec fn points_upto(count: int) -> Seq<u8> {
    Seq::new(count as nat, |k: int| k as u8)
}

/// `node` is the tree that the points `ids`, in this order, give: the point of
/// largest weight (the last of them on a tie) is the vantage point; it is
/// taken out by moving the last point into its place; the others are ordered
/// stably by distance from it. Fewer than `MIN_SPLIT` of them stay in the node;
/// otherwise the first half makes the near subtree, the second half the far
/// subtree, and the first point of the second half fixes the radius.
pub open spec fn built_from(node: Option<Box<VpNode>>, ids: Seq<u8>, w: Seq<u32>, d: Seq<Vec<u32>>) -> bool
    decreases ids.len(),
{
    if ids.len() == 0 {
        node is None
    } else {
        let i = last_max_index(ids, w);
        let vp = ids[i];
        let others = stable_sort_by_key(swap_removed(ids, i), d[vp as int]@);
        let half = others.len() / 2;
        proof {
            lemma_last_max_index(ids, w);
            lemma_stable_sort(swap_removed(ids, i), d[vp as int]@);
            assert(swap_removed(ids, i).len() == ids.len() - 1);
            assert(others.len() == ids.len() - 1);
            assert(others.take(half as int).len() < ids.len());
            assert(others.skip(half as int).len() < ids.len());
        }
        match node {
            None => false,
            Some(n) => {
                &&& n.vantage == vp
                &&& if others.len() < MIN_SPLIT {
                    &&& n.rest@ == others
                    &&& n.near is None
                    &&& n.far is None
                    &&& n.radius_point is None
                } else {
                    &&& n.rest@.len() == 0
                    &&& n.radius_point == Some(others[half as int])
                    &&& built_from(n.near, others.take(half as int), w, d)
                    &&& built_from(n.far, others.skip(half as int), w, d)
                }
            },
        }
    }
}

proof fn lemma_all_below_permutation(s1: Seq<u8>, s2: Seq<u8>, n: int)
    requires
        all_below(s1, n),
        s1.to_multiset() == s2.to_multiset(),
    ensures
        all_below(s2, n),
{
    assert forall|k: int| 0 <= k < s2.len() implies (s2[k] as int) < n by {
        assert(s2.contains(s2[k]));
        assert(s1.to_multiset().count(s2[k]) > 0);
        assert(s1.contains(s2[k]));
    }
}


/// The points that a subtree holds, each counted as often as it occurs.
pub open spec fn node_points(node: Option<Box<VpNode>>) -> Multiset<u8>
    decreases node,
{
    match node {
        None => Multiset::empty(),
        Some(n) => Multiset::singleton(n.vantage).add(n.rest@.to_multiset()).add(
            node_points(n.near),
        ).add(node_points(n.far)),
    }
}

/// The vantage-point property of a subtree, with weights `w` and distances `d`:
/// each vantage point weighs at least as much as every point below it; the
/// points left in a node are ordered by distance from its vantage point and are
/// fewer than `MIN_SPLIT`; in a node that splits, every near point is no
/// farther from the vantage point than the radius point, every far point no
/// nearer, the radius point is a far point, and the far half has as many
/// points as the near half or one more.
pub open spec fn vantage_ordered(node: Option<Box<VpNode>>, w: Seq<u32>, d: Seq<Vec<u32>>) -> bool
    decreases node,
{
    match node {
        None => true,
        Some(n) => {
            let key = d[n.vantage as int]@;
            &&& forall|x: u8| #[trigger] node_points(node).count(x) > 0 ==> w[x as int] <= w[n.vantage as int]
            &&& ascending_by(n.rest@, key)
            &&& match n.radius_point {
                None => {
                    &&& n.near is None
                    &&& n.far is None
                    &&& n.rest@.len() < MIN_SPLIT
                },
                Some(r) => {
                    let near_len = node_points(n.near).len();
                    let far_len = node_points(n.far).len();
                    &&& n.rest@.len() == 0
                    &&& node_points(n.far).count(r) > 0
                    &&& forall|x: u8| #[trigger] node_points(n.near).count(x) > 0 ==> key[x as int] <= key[r as int]
                    &&& forall|x: u8| #[trigger] node_points(n.far).count(x) > 0 ==> key[r as int] <= key[x as int]
                    &&& near_len + far_len >= MIN_SPLIT
                    &&& far_len == near_len || far_len == near_len + 1
                },
            }
            &&& vantage_ordered(n.near, w, d)
            &&& vantage_ordered(n.far, w, d)
        },
    }
}

proof fn lemma_swap_removed_points(ids: Seq<u8>, i: int)
    requires
        0 <= i < ids.len(),
    ensures
        swap_removed(ids, i).to_multiset().insert(ids[i]) == ids.to_multiset(),
        swap_removed(ids, i).len() == ids.len() - 1,
{
    broadcast use vstd::multiset::group_multiset_axioms;
    let t = ids.update(i, ids.last());
    let r = swap_removed(ids, i);
    assert(r.push(t.last()) =~= t);
    assert(t.last() == ids.last());
    assert(ids.to_multiset().count(ids[i]) > 0) by {
        assert(ids.contains(ids[i]));
    }
    assert(t.to_multiset() == ids.to_multiset().insert(ids.last()).remove(ids[i]));
    assert(r.push(ids.last()).to_multiset() == r.to_multiset().insert(ids.last()));
    assert(r.to_multiset().insert(ids.last()) =~= ids.to_multiset().insert(ids.last()).remove(ids[i]));
    assert forall|y: u8| r.to_multiset().insert(ids[i]).count(y) == ids.to_multiset().count(y) by {
        assert(r.to_multiset().insert(ids.last()).count(y) == ids.to_multiset().insert(ids.last()).remove(ids[i]).count(y));
    }
    assert(r.to_multiset().insert(ids[i]) =~= ids.to_multiset());
}

proof fn lemma_split_points(s: Seq<u8>, h: int)
    requires
        0 <= h <= s.len(),
    ensures
        s.take(h).to_multiset().add(s.skip(h).to_multiset()) == s.to_multiset(),
{
    vstd::seq_lib::lemma_multiset_commutative(s.take(h), s.skip(h));
    assert(s.take(h) + s.skip(h) =~= s);
}

proof fn lemma_in_points(s: Seq<u8>, x: u8) -> (k: int)
    requires
        s.to_multiset().count(x) > 0,
    ensures
        0 <= k < s.len(),
        s[k] == x,
{
    assert(s.contains(x));
    choose|k: int| 0 <= k < s.len() && s[k] == x
}

/// A built tree holds exactly the points it was built from, each once per
/// occurrence, and has the vantage-point property.
pub proof fn lemma_built_tree(node: Option<Box<VpNode>>, ids: Seq<u8>, w: Seq<u32>, d: Seq<Vec<u32>>)
    requires
        built_from(node, ids, w, d),
    ensures
        node_points(node) == ids.to_multiset(),
        vantage_ordered(node, w, d),
    decreases ids.len(),
{
    broadcast use vstd::multiset::group_multiset_axioms;
    if ids.len() == 0 {
        assert(ids.to_multiset() =~= Multiset::empty());
    } else {
        let i = last_max_index(ids, w);
        let vp = ids[i];
        let rem = swap_removed(ids, i);
        let key = d[vp as int]@;
        let others = stable_sort_by_key(rem, key);
        let half = others.len() / 2;
        lemma_last_max_index(ids, w);
        lemma_swap_removed_points(ids, i);
        lemma_stable_sort(rem, key);
        let n = node.unwrap();
        assert(ids.to_multiset() =~= Multiset::singleton(vp).add(others.to_multiset()));
        if others.len() < MIN_SPLIT {
            assert(node_points(n.near) =~= Multiset::empty());
            assert(node_points(n.far) =~= Multiset::empty());
            assert(node_points(node) =~= ids.to_multiset());
            assert(vantage_ordered(n.near, w, d));
            assert(vantage_ordered(n.far, w, d));
        } else {
            let near_ids = others.take(half as int);
            let far_ids = others.skip(half as int);
            lemma_built_tree(n.near, near_ids, w, d);
            lemma_built_tree(n.far, far_ids, w, d);
            lemma_split_points(others, half as int);
            assert(n.rest@ =~= Seq::<u8>::empty());
            assert(n.rest@.to_multiset() =~= Multiset::empty());
            assert(node_points(node) =~= ids.to_multiset());
            let r = others[half as int];
            assert(far_ids[0] == r);
            assert(far_ids.contains(r));
            assert(near_ids.to_multiset().len() == near_ids.len());
            assert(far_ids.to_multiset().len() == far_ids.len());
            assert(node_points(n.far).count(r) > 0);
            assert forall|x: u8| #[trigger] node_points(n.near).count(x) > 0 implies key[x as int] <= key[r as int] by {
                let k = lemma_in_points(near_ids, x);
                assert(near_ids[k] == others[k]);
            }
            assert forall|x: u8| #[trigger] node_points(n.far).count(x) > 0 implies key[r as int] <= key[x as int] by {
                let k = lemma_in_points(far_ids, x);
                assert(far_ids[k] == others[half + k]);
            }
        }
        assert forall|x: u8| #[trigger] node_points(node).count(x) > 0 implies w[x as int] <= w[vp as int] by {
            let k = lemma_in_points(ids, x);
        }
    }
}

/// The points `0..count` occur once each, and no other point occurs.
pub proof fn lemma_points_upto_once(count: int)
    requires
        0 <= count <= 256,
    ensures
        forall|p: u8| #[trigger] points_upto(count).to_multiset().count(p) == (if (p as int) < count { 1nat } else { 0nat }),
{
    let s = points_upto(count);
    assert(s.no_duplicates());
    s.lemma_multiset_has_no_duplicates();
    assert forall|p: u8| #[trigger] s.to_multiset().count(p) == (if (p as int) < count { 1nat } else { 0nat }) by {
        if (p as int) < count {
            assert(s[p as int] == p);
            assert(s.contains(p));
        } else {
            if s.contains(p) {
                let k = choose|k: int| 0 <= k < s.len() && s[k] == p;
                assert(s[k] == k as u8);
            }
        }
    }
}

/// Builds the subtree of the points `ids`.
fn build_node(ids: Vec<u8>, weights: &Vec<u32>, dist: &Vec<Vec<u32>>, Ghost(count): Ghost<int>) -> (res: Option<Box<VpNode>>)
    requires
        tables_cover(count, weights@, dist@),
        all_below(ids@, count),
    ensures
        built_from(res, ids@, weights@, dist@),
    decreases ids@.len(),
{
    let mut ids = ids;
    let ghost input = ids@;
    if ids.len() == 0 {
        return None;
    }
    if ids.len() == 1 {
        let v = ids[0];
        let node = VpNode { vantage: v, near: None, far: None, rest: Vec::new(), radius_point: None };
        proof {
            let others = stable_sort_by_key(swap_removed(input, 0), dist@[v as int]@);
            assert(swap_removed(input, 0).len() == 0);
            assert(node.rest@ =~= others);
        }
        return Some(Box::new(node));
    }
    let i = last_max_position(&ids, weights);
    proof {
        lemma_last_max_index(input, weights@);
    }
    let vp = ids.swap_remove(i);
    assert(ids@ == swap_removed(input, i as int));
    let row: &Vec<u32> = &dist[vp as usize];
    assert(all_below(ids@, count));
    let sorted = stable_sort_by_distance(&ids, row);
    proof {
        lemma_stable_sort(ids@, row@);
        lemma_all_below_permutation(ids@, sorted@, count);
    }
    if sorted.len() < MIN_SPLIT {
        let node = VpNode { vantage: vp, near: None, far: None, rest: sorted, radius_point: None };
        return Some(Box::new(node));
    }
    let half = sorted.len() / 2;
    let mut near_ids = sorted;
    let ghost all = near_ids@;
    let far_ids = near_ids.split_off(half);
    let radius_point = far_ids[0];
    assert(near_ids@ =~= all.take(half as int));
    assert(far_ids@ =~= all.skip(half as int));
    assert(all_below(near_ids@, count));
    assert(all_below(far_ids@, count));
    let near = build_node(near_ids, weights, dist, Ghost(count));
    let far = build_node(far_ids, weights, dist, Ghost(count));
    let node = VpNode { vantage: vp, near, far, rest: Vec::new(), radius_point: Some(radius_point) };
    assert(node.rest@ =~= Seq::<u8>::empty());
    Some(Box::new(node))
}

impl VpTree {
    /// Builds the tree over the points `0..count` from the order keys of their
    /// weights (`weights[p]`) and of their pairwise distances (`dist[a][b]`, the
    /// distance from `a` to `b`).
    pub fn build(count: usize, weights: &Vec<u32>, dist: &Vec<Vec<u32>>) -> (tree: VpTree)
        requires
            count <= 256,
            tables_cover(count as int, weights@, dist@),
        ensures
            built_from(tree.root, points_upto(count as int), weights@, dist@),
            forall|p: u8| #[trigger] node_points(tree.root).count(p) == (if (p as int) < count { 1nat } else { 0nat }),
            vantage_ordered(tree.root, weights@, dist@),
    {
        let mut ids: Vec<u8> = Vec::new();
        let mut k: usize = 0;
        while k < count
            invariant
                k <= count <= 256,
                ids@ =~= points_upto(k as int),
            decreases count - k,
        {
            ids.push(k as u8);
            k = k + 1;
        }
        let root = build_node(ids, weights, dist, Ghost(count as int));
        proof {
            lemma_built_tree(root, points_upto(count as int), weights@, dist@);
            lemma_points_upto_once(count as int);
        }
        VpTree { root }
    }
}

} // verus!
