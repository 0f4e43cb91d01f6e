use vstd::prelude::*;

verus! {

// A ray is tested against objects one after another; the outcomes are a
// sequence with one entry per object: `None` where the ray misses it, and
// `Some(d)` where it hits it at distance key `d`. A distance key orders as the
// distance it stands for (for a distance that is not negative, its IEEE-754
// bits read as an unsigned integer).

/// Whether the ray hits at least one of the objects.
pub open spec fn has_hit(hits: Seq<Option<u32>>) -> bool {
    exists|i: int| 0 <= i < hits.len() && (#[trigger] hits[i]) is Some
}

/// Entry `i` is the nearest hit: no other hit is nearer, and every earlier hit
/// is strictly farther (on a tie the first object tested wins).
pub open spec fn is_nearest(hits: Seq<Option<u32>>, i: int) -> bool {
    &&& 0 <= i < hits.len()
    &&& hits[i] is Some
    &&& forall|j: int| 0 <= j < hits.len() && (#[trigger] hits[j]) is Some ==> hits[i]->0 <= hits[j]->0
    &&& forall|j: int| 0 <= j < i && (#[trigger] hits[j]) is Some ==> hits[i]->0 < hits[j]->0
}

/// The index of the nearest hit, if the ray hits anything.
pub open spec fn nearest(hits: Seq<Option<u32>>) -> Option<int> {
    if has_hit(hits) {
        Some(choose|i: int| is_nearest(hits, i))
    } else {
        None
    }
}

/// At most one entry is the nearest hit.
pub proof fn lemma_nearest_unique(hits: Seq<Option<u32>>, i: int, j: int)
    requires
        is_nearest(hits, i),
        is_nearest(hits, j),
    ensures
        i == j,
{
    if i < j {
        assert(hits[i] is Some);
    } else if j < i {
        assert(hits[j] is Some);
    }
}

/// Whenever the ray hits something, some entry is the nearest hit.
pub proof fn lemma_nearest_exists(hits: Seq<Option<u32>>)
    requires
        has_hit(hits),
    ensures
        exists|i: int| is_nearest(hits, i),
    decreases hits.len(),
{
    let n = hits.len() - 1;
    let prefix = hits.drop_last();
    if has_hit(prefix) {
        lemma_nearest_exists(prefix);
        let i0 = choose|i: int| is_nearest(prefix, i);
        assert(prefix[i0] == hits[i0]);
        if hits[n] is Some && hits[n]->0 < hits[i0]->0 {
            assert forall|j: int| 0 <= j < n && (#[trigger] hits[j]) is Some implies hits[n]->0 < hits[j]->0 by {
                assert(prefix[j] == hits[j]);
            }
            assert(is_nearest(hits, n));
        } else {
            assert forall|j: int| 0 <= j < hits.len() && (#[trigger] hits[j]) is Some implies hits[i0]->0 <= hits[j]->0 by {
                if j < n {
                    assert(prefix[j] == hits[j]);
                }
            }
            assert forall|j: int| 0 <= j < i0 && (#[trigger] hits[j]) is Some implies hits[i0]->0 < hits[j]->0 by {
                assert(prefix[j] == hits[j]);
            }
            assert(is_nearest(hits, i0));
        }
    } else {
        let k = choose|i: int| 0 <= i < hits.len() && (#[trigger] hits[i]) is Some;
        if k < n {
            assert(prefix[k] == hits[k]);
        }
        assert forall|j: int| 0 <= j < hits.len() && (#[trigger] hits[j]) is Some implies j == n by {
            if j < n {
                assert(prefix[j] == hits[j]);
            }
        }
        assert(is_nearest(hits, n));
    }
}

/// `nearest` names the nearest hit, and is `None` exactly when nothing is hit.
pub proof fn lemma_nearest_spec(hits: Seq<Option<u32>>)
    ensures
        nearest(hits) is None <==> !has_hit(hits),
        nearest(hits) matches Some(i) ==> is_nearest(hits, i),
        forall|i: int| is_nearest(hits, i) ==> nearest(hits) == Some(i),
{
    if has_hit(hits) {
        lemma_nearest_exists(hits);
        let c = choose|i: int| is_nearest(hits, i);
        assert forall|i: int| is_nearest(hits, i) implies nearest(hits) == Some(i) by {
            lemma_nearest_unique(hits, i, c);
        }
    } else {
        assert forall|i: int| is_nearest(hits, i) implies false by {
            assert(hits[i] is Some);
        }
    }
}

/// The nearest hit is a hit whose distance key is no larger than that of any
/// hit, and strictly smaller than that of every earlier hit; there is none
/// exactly when every entry is a miss.
pub proof fn lemma_nearest_minimal(hits: Seq<Option<u32>>)
    ensures
        nearest(hits) matches Some(i) ==> {
            &&& 0 <= i < hits.len()
            &&& hits[i] is Some
            &&& forall|j: int| 0 <= j < hits.len() && (#[trigger] hits[j]) is Some ==> hits[i]->0 <= hits[j]->0
            &&& forall|j: int| 0 <= j < i && (#[trigger] hits[j]) is Some ==> hits[i]->0 < hits[j]->0
        },
        nearest(hits) is None <==> forall|j: int| 0 <= j < hits.len() ==> (#[trigger] hits[j]) is None,
{
    lemma_nearest_spec(hits);
}

/// The index of the nearest of the hits, the first one on a tie, or `None`
/// when every entry is a miss.
pub fn nearest_hit(hits: &Vec<Option<u32>>) -> (r: Option<usize>)
    ensures
        match r {
            Some(i) => nearest(hits@) == Some(i as int) && is_nearest(hits@, i as int),
            None => nearest(hits@) is None && !has_hit(hits@),
        },
        r matches Some(i) ==> {
            &&& i < hits@.len()
            &&& hits@[i as int] is Some
            &&& forall|j: int|
                0 <= j < hits@.len() && (#[trigger] hits@[j]) is Some ==> hits@[i as int]->0 <= hits@[j]->0
            &&& forall|j: int| 0 <= j < i && (#[trigger] hits@[j]) is Some ==> hits@[i as int]->0 < hits@[j]->0
        },
        r is None ==> forall|j: int| 0 <= j < hits@.len() ==> (#[trigger] hits@[j]) is None,
{
    let mut best: Option<usize> = None;
    let mut best_key: u32 = 0;
    let mut i: usize = 0;
    while i < hits.len()
        invariant
            i <= hits@.len(),
            match best {
                Some(b) => {
                    &&& b < i
                    &&& hits@[b as int] == Some(best_key)
                    &&& forall|j: int| 0 <= j < i && (#[trigger] hits@[j]) is Some ==> best_key <= hits@[j]->0
                    &&& forall|j: int| 0 <= j < b && (#[trigger] hits@[j]) is Some ==> best_key < hits@[j]->0
                },
                None => forall|j: int| 0 <= j < i ==> (#[trigger] hits@[j]) is None,
            },
        decreases hits@.len() - i,
    {
        match hits[i] {
            Some(d) => {
                if best.is_none() || d < best_key {
                    best = Some(i);
                    best_key = d;
                }
            },
            None => {},
        }
        i = i + 1;
    }
    proof {
        lemma_nearest_spec(hits@);
        match best {
            Some(b) => {
                assert(is_nearest(hits@, b as int));
            },
            None => {
                assert(!has_hit(hits@));
            },
        }
    }
    best
}

/// The nearer of the nearest hit of `a` and the nearest hit of `b`, as an index
/// into `a + b`; on a tie the hit of `a` is kept.
pub open spec fn nearer_of(a: Seq<Option<u32>>, b: Seq<Option<u32>>) -> Option<int> {
    match (nearest(a), nearest(b)) {
        (None, None) => None,
        (Some(i), None) => Some(i),
        (None, Some(j)) => Some(a.len() + j),
        (Some(i), Some(j)) => if b[j]->0 < a[i]->0 {
            Some(a.len() + j)
        } else {
            Some(i)
        },
    }
}

/// Searching two lists of objects one after the other picks the same hit as
/// taking the nearest hit of each list and then the nearer of the two, the
/// first list winning a tie.
pub proof fn lemma_nearest_concat(a: Seq<Option<u32>>, b: Seq<Option<u32>>)
    ensures
        nearest(a + b) == nearer_of(a, b),
{
    let ab = a + b;
    lemma_nearest_spec(a);
    lemma_nearest_spec(b);
    lemma_nearest_spec(ab);
    match nearer_of(a, b) {
        None => {
            assert forall|k: int| 0 <= k < ab.len() implies (#[trigger] ab[k]) is None by {
                if k < a.len() {
                    assert(ab[k] == a[k]);
                    assert(a[k] is None);
                } else {
                    assert(ab[k] == b[k - a.len()]);
                    assert(b[k - a.len()] is None);
                }
            }
        },
        Some(c) => {
            assert forall|k: int| 0 <= k < ab.len() && (#[trigger] ab[k]) is Some implies ab[c]->0 <= ab[k]->0 by {
                if k < a.len() {
                    assert(ab[k] == a[k]);
                    assert(a[k] is Some);
                } else {
                    assert(ab[k] == b[k - a.len()]);
                    assert(b[k - a.len()] is Some);
                }
            }
            assert forall|k: int| 0 <= k < c && (#[trigger] ab[k]) is Some implies ab[c]->0 < ab[k]->0 by {
                if k < a.len() {
                    assert(ab[k] == a[k]);
                    assert(a[k] is Some);
                } else {
                    assert(ab[k] == b[k - a.len()]);
                    assert(b[k - a.len()] is Some);
                }
            }
            assert(is_nearest(ab, c));
        },
    }
}

/// The distance key of the nearest hit of a list, if it has one.
pub open spec fn nearest_key(hits: Seq<Option<u32>>) -> Option<u32> {
    match nearest(hits) {
        Some(i) => hits[i],
        None => None,
    }
}

/// For a scene whose objects each report several possible hits (a cube, one
/// per face): the distance key of each object's nearest hit.
pub open spec fn nearest_keys(groups: Seq<Seq<Option<u32>>>) -> Seq<Option<u32>> {
    groups.map_values(|hits: Seq<Option<u32>>| nearest_key(hits))
}

/// Where the hits of object `g` start in the list of all hits of the scene.
pub open spec fn group_offset(groups: Seq<Seq<Option<u32>>>, g: int) -> int {
    groups.take(g).flatten().len() as int
}

proof fn lemma_group_offset_step(groups: Seq<Seq<Option<u32>>>, g: int)
    requires
        groups.len() > 0,
        0 <= g < groups.len(),
    ensures
        group_offset(groups, g + 1) == groups[0].len() + group_offset(groups.drop_first(), g),
{
    let t = groups.take(g + 1);
    assert(t.drop_first() =~= groups.drop_first().take(g));
    assert(t.first() == groups[0]);
}

proof fn lemma_group_index(groups: Seq<Seq<Option<u32>>>, g: int, i: int)
    requires
        0 <= g < groups.len(),
        0 <= i < groups[g].len(),
    ensures
        group_offset(groups, g) + i < groups.flatten().len(),
        groups.flatten()[group_offset(groups, g) + i] == groups[g][i],
    decreases g,
{
    let rest = groups.drop_first();
    assert(groups.flatten() == groups[0] + rest.flatten());
    if g == 0 {
        assert(groups.take(0) =~= Seq::<Seq<Option<u32>>>::empty());
    } else {
        lemma_group_offset_step(groups, g - 1);
        assert(rest[g - 1] == groups[g]);
        lemma_group_index(rest, g - 1, i);
    }
}

/// The nearest hit over a whole scene, searched face by face across every
/// object, is the nearest hit of the object whose nearest hit is the nearest
/// (the first such object on a tie): choosing per object first and then
/// across objects picks the same hit as one search over all of them.
pub proof fn lemma_nearest_of_groups(groups: Seq<Seq<Option<u32>>>)
    ensures
        nearest(groups.flatten()) == (match nearest(nearest_keys(groups)) {
            None => None,
            Some(g) => Some(group_offset(groups, g) + nearest(groups[g])->0),
        }),
    decreases groups.len(),
{
    let keys = nearest_keys(groups);
    if groups.len() == 0 {
        lemma_nearest_spec(groups.flatten());
        lemma_nearest_spec(keys);
    } else {
        let h0 = groups[0];
        let rest = groups.drop_first();
        let rest_keys = nearest_keys(rest);
        let k0 = nearest_key(h0);
        assert(keys =~= seq![k0] + rest_keys);
        assert(groups.flatten() == h0 + rest.flatten());
        lemma_nearest_concat(h0, rest.flatten());
        lemma_nearest_concat(seq![k0], rest_keys);
        lemma_nearest_of_groups(rest);
        lemma_nearest_spec(h0);
        lemma_nearest_spec(seq![k0]);
        lemma_nearest_spec(rest_keys);
        assert(groups.take(0) =~= Seq::<Seq<Option<u32>>>::empty());
        if k0 is Some {
            assert(is_nearest(seq![k0], 0));
        } else {
            assert(!has_hit(seq![k0])) by {
                assert forall|i: int| 0 <= i < 1 implies (#[trigger] seq![k0][i]) is None by {}
            }
        }
        match nearest(rest_keys) {
            None => {},
            Some(g) => {
                lemma_group_offset_step(groups, g);
                assert(groups[g + 1] == rest[g]);
                assert(rest_keys[g] == nearest_key(rest[g]));
                lemma_nearest_spec(rest[g]);
                let j = nearest(rest[g])->0;
                lemma_group_index(rest, g, j);
            },
        }
    }
}

/// Whether object `j` lies on the ray strictly nearer than `limit`.
pub open spec fn occludes(hits: Seq<Option<u32>>, limit: u32, j: int) -> bool {
    &&& 0 <= j < hits.len()
    &&& hits[j] matches Some(d)
    &&& d < limit
}

/// The first object, in the order tested, that the ray hits strictly nearer
/// than `limit`: the first entry if it is such a hit, else the first such
/// object among the rest.
pub open spec fn first_below(hits: Seq<Option<u32>>, limit: u32) -> Option<int>
    decreases hits.len(),
{
    if hits.len() == 0 {
        None
    } else if hits[0] matches Some(d) && d < limit {
        Some(0)
    } else {
        match first_below(hits.drop_first(), limit) {
            Some(i) => Some(i + 1),
            None => None,
        }
    }
}

/// `occludes(hits, limit, j)` holds exactly when entry `j` exists and is a hit
/// strictly nearer than `limit`; the first entry is no exception.
pub proof fn lemma_occludes_iff(hits: Seq<Option<u32>>, limit: u32, j: int)
    ensures
        occludes(hits, limit, j) <==> (0 <= j < hits.len() && hits[j] is Some && hits[j]->0 < limit),
{
}

/// Every object hit strictly nearer than the light is at or after the chosen
/// occluder: whenever some object `j` is hit at `d < limit`, an occluder is
/// found, at an index `i <= j`; the chosen one is itself hit strictly nearer
/// than `limit`, and none before it is.
pub proof fn lemma_first_below_earliest(hits: Seq<Option<u32>>, limit: u32)
    ensures
        forall|j: int|
            0 <= j < hits.len() && (#[trigger] hits[j]) is Some && hits[j]->0 < limit
                ==> (first_below(hits, limit) matches Some(i) && i <= j),
        first_below(hits, limit) matches Some(i) ==> {
            &&& 0 <= i < hits.len()
            &&& hits[i] is Some
            &&& hits[i]->0 < limit
            &&& forall|j: int| 0 <= j < i ==> !((#[trigger] hits[j]) is Some && hits[j]->0 < limit)
        },
        first_below(hits, limit) is None ==> forall|j: int|
            0 <= j < hits.len() ==> !((#[trigger] hits[j]) is Some && hits[j]->0 < limit),
    decreases hits.len(),
{
    if hits.len() > 0 {
        let rest = hits.drop_first();
        lemma_first_below_earliest(rest, limit);
        assert forall|j: int| 0 < j < hits.len() implies #[trigger] hits[j] == rest[j - 1] by {}
        if !(hits[0] matches Some(d) && d < limit) {
            assert forall|j: int|
                0 <= j < hits.len() && (#[trigger] hits[j]) is Some && hits[j]->0 < limit
                    implies (first_below(hits, limit) matches Some(i) && i <= j) by {
                assert(j > 0);
                assert(rest[j - 1] == hits[j]);
            }
            if let Some(i) = first_below(hits, limit) {
                assert forall|j: int| 0 <= j < i implies !((#[trigger] hits[j]) is Some && hits[j]->0 < limit) by {
                    if j > 0 {
                        assert(rest[j - 1] == hits[j]);
                    }
                }
                assert(rest[i - 1] == hits[i]);
            } else {
                assert forall|j: int| 0 <= j < hits.len() implies !((#[trigger] hits[j]) is Some && hits[j]->0 < limit) by {
                    if j > 0 {
                        assert(rest[j - 1] == hits[j]);
                    }
                }
            }
        }
    }
}

/// Raising the limit (moving the light farther away) never makes the
/// occluder come later: anything that occluded still does, or an earlier one.
pub proof fn lemma_first_below_monotone(hits: Seq<Option<u32>>, low: u32, high: u32)
    requires
        low <= high,
    ensures
        first_below(hits, low) matches Some(i) ==> (first_below(hits, high) matches Some(k) && k <= i),
{
    lemma_first_below_earliest(hits, low);
    lemma_first_below_earliest(hits, high);
    if let Some(i) = first_below(hits, low) {
        assert(hits[i] is Some && hits[i]->0 < high);
    }
}

/// Testing the objects of `a` and then those of `b` finds the first occluder
/// of `a` if there is one, and otherwise the first occluder of `b`, shifted
/// past `a`.
pub proof fn lemma_first_below_concat(a: Seq<Option<u32>>, b: Seq<Option<u32>>, limit: u32)
    ensures
        first_below(a + b, limit) == (match first_below(a, limit) {
            Some(i) => Some(i),
            None => match first_below(b, limit) {
                Some(j) => Some(a.len() + j),
                None => None,
            },
        }),
    decreases a.len(),
{
    if a.len() == 0 {
        assert(a + b =~= b);
    } else {
        assert((a + b).drop_first() =~= a.drop_first() + b);
        assert((a + b)[0] == a[0]);
        lemma_first_below_concat(a.drop_first(), b, limit);
    }
}

/// The index of the first object, in the order tested, that the ray hits
/// strictly nearer than `limit` (the light), or `None` when no object does.
pub fn first_occluder(hits: &Vec<Option<u32>>, limit: u32) -> (r: Option<usize>)
    ensures
        match r {
            Some(i) => occludes(hits@, limit, i as int) && forall|j: int|
                0 <= j < i ==> !#[trigger] occludes(hits@, limit, j),
            None => forall|j: int| 0 <= j < hits@.len() ==> !#[trigger] occludes(hits@, limit, j),
        },
        match r {
            Some(i) => first_below(hits@, limit) == Some(i as int),
            None => first_below(hits@, limit) is None,
        },
        r matches Some(i) ==> i < hits@.len() && hits@[i as int] is Some && hits@[i as int]->0 < limit,
        forall|j: int|
            0 <= j < hits@.len() && (#[trigger] hits@[j]) is Some && hits@[j]->0 < limit
                ==> (r matches Some(i) && i <= j),
{
    let mut i: usize = 0;
    while i < hits.len()
        invariant
            i <= hits@.len(),
            forall|j: int| 0 <= j < i ==> !#[trigger] occludes(hits@, limit, j),
        decreases hits@.len() - i,
    {
        if let Some(d) = hits[i] {
            if d < limit {
                proof {
                    lemma_first_below_earliest(hits@, limit);
                    assert(hits@[i as int] is Some && hits@[i as int]->0 < limit);
                    if let Some(f) = first_below(hits@, limit) {
                        if f < i {
                            assert(occludes(hits@, limit, f));
                        }
                    }
                }
                return Some(i);
            }
        }
        i = i + 1;
    }
    proof {
        lemma_first_below_earliest(hits@, limit);
        if let Some(f) = first_below(hits@, limit) {
            assert(occludes(hits@, limit, f));
        }
        assert forall|j: int|
            0 <= j < hits@.len() && (#[trigger] hits@[j]) is Some && hits@[j]->0 < limit implies false by {
            assert(occludes(hits@, limit, j));
        }
    }
    None
}

} // verus!
