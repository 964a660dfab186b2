use vstd::prelude::*;
use crate::routing::names;

verus! {

/// Location `a` goes before location `b`: it is nearer, or as near and
/// supplied earlier.
pub open spec fn ranks_before(keys: Seq<u64>, a: int, b: int) -> bool {
    keys[a] < keys[b] || (keys[a] == keys[b] && a < b)
}

/// `p` lists the indices `0 .. keys.len()` by ascending key, equal keys in
/// the order they were supplied (a stable sort of the indices by key).
pub open spec fn is_proximity_order(keys: Seq<u64>, p: Seq<usize>) -> bool {
    &&& p.len() == keys.len()
    &&& forall|i: int| 0 <= i < p.len() ==> #[trigger] p[i] < keys.len()
    &&& forall|k: int| 0 <= k < keys.len() ==> #[trigger] p.contains(k as usize)
    &&& forall|i: int, j: int|
        0 <= i < j < p.len() ==> ranks_before(keys, #[trigger] p[i] as int, #[trigger] p[j] as int)
}

/// Why a ranking could not be made.
#[derive(Debug, Clone, Copy, PartialEq, Eq)]
pub enum RankError {
    /// The reference location is not among the known locations.
    NotFound,
}

/// The index of the first entry of `ids` equal to `id`, if any.
pub fn position_of(ids: &Vec<String>, id: &String) -> (r: Option<usize>)
    ensures
        match r {
            Some(k) => k < ids@.len() && ids@[k as int]@ == id@ && forall|j: int|
                0 <= j < k ==> ids@[j]@ != id@,
            None => !names(ids@).contains(id@),
        },
{
    let mut k: usize = 0;
    while k < ids.len()
        invariant
            k <= ids@.len(),
            forall|j: int| 0 <= j < k ==> ids@[j]@ != id@,
        decreases ids@.len() - k,
    {
        if ids[k] == *id {
            return Some(k);
        }
        k = k + 1;
    }
    proof {
        if names(ids@).contains(id@) {
            let j = choose|j: int| 0 <= j < names(ids@).len() && names(ids@)[j] == id@;
            assert(ids@[j]@ == id@);
        }
    }
    None
}

/// The indices of `keys` in proximity order: ascending by key, equal keys in
/// the order they were supplied.
pub fn proximity_order(keys: &Vec<u64>) -> (r: Vec<usize>)
    ensures
        is_proximity_order(keys@, r@),
{
    let mut r: Vec<usize> = Vec::new();
    let mut x: usize = 0;
    while x < keys.len()
        invariant
            x <= keys@.len(),
            r@.len() == x,
            forall|i: int| 0 <= i < r@.len() ==> #[trigger] r@[i] < x,
            forall|k: int| 0 <= k < x ==> #[trigger] r@.contains(k as usize),
            forall|i: int, j: int|
                0 <= i < j < r@.len() ==> ranks_before(keys@, #[trigger] r@[i] as int, #[trigger] r@[j] as int),
        decreases keys@.len() - x,
    {
        let kx = keys[x];
        let mut p: usize = 0;
        while p < r.len() && keys[r[p]] <= kx
            invariant
                p <= r@.len(),
                r@.len() == x,
                x < keys@.len(),
                kx == keys@[x as int],
                forall|i: int| 0 <= i < r@.len() ==> #[trigger] r@[i] < x,
                forall|q: int| 0 <= q < p ==> keys@[#[trigger] r@[q] as int] <= kx,
            decreases r@.len() - p,
        {
            p = p + 1;
        }
        let ghost r0 = r@;
        r.insert(p, x);
        assert forall|i: int, j: int| 0 <= i < j < r@.len() implies ranks_before(
            keys@,
            #[trigger] r@[i] as int,
            #[trigger] r@[j] as int,
        ) by {
            if j < p {
                assert(r@[i] == r0[i] && r@[j] == r0[j]);
            } else if j == p {
                assert(r@[i] == r0[i]);
                assert(keys@[r0[i] as int] <= kx);
            } else if i == p {
                assert(r@[j] == r0[j - 1]);
                assert(keys@[r0[p as int] as int] > kx);
                if j - 1 > p {
                    assert(ranks_before(keys@, r0[p as int] as int, r0[j - 1] as int));
                }
            } else if i < p {
                assert(r@[i] == r0[i] && r@[j] == r0[j - 1]);
                assert(ranks_before(keys@, r0[i] as int, r0[j - 1] as int));
            } else {
                assert(r@[i] == r0[i - 1] && r@[j] == r0[j - 1]);
                assert(ranks_before(keys@, r0[i - 1] as int, r0[j - 1] as int));
            }
        }
        assert forall|i: int| 0 <= i < r@.len() implies #[trigger] r@[i] < x + 1 by {
            if i < p {
                assert(r@[i] == r0[i]);
            } else if i > p {
                assert(r@[i] == r0[i - 1]);
            }
        }
        assert forall|k: int| 0 <= k < x + 1 implies #[trigger] r@.contains(k as usize) by {
            if k == x {
                assert(r@[p as int] == x);
            } else {
                assert(r0.contains(k as usize));
                let i = choose|i: int| 0 <= i < r0.len() && r0[i] == k as usize;
                if i < p {
                    assert(r@[i] == r0[i]);
                } else {
                    assert(r@[i + 1] == r0[i]);
                }
            }
        }
        x = x + 1;
    }
    r
}

/// The identifiers of `ids` taken in the order of the indices `p`.
pub open spec fn ids_in_order(ids: Seq<String>, p: Seq<usize>) -> Seq<Seq<char>> {
    p.map_values(|i: usize| ids[i as int]@)
}

/// Ranks the locations `ids`, whose distances from `reference` are
/// `distance_keys` (a smaller key is a smaller distance), by ascending
/// distance; locations at equal distance keep the order they were supplied in.
/// Fails with `NotFound` exactly when `reference` is not among `ids`.
pub fn rank_locations_by_proximity(
    ids: &Vec<String>,
    distance_keys: &Vec<u64>,
    reference: &String,
) -> (r: Result<Vec<String>, RankError>)
    requires
        ids@.len() == distance_keys@.len(),
    ensures
        r is Err <==> !names(ids@).contains(reference@),
        r is Err ==> r == Err::<Vec<String>, RankError>(RankError::NotFound),
        r is Ok ==> exists|p: Seq<usize>|
            is_proximity_order(distance_keys@, p) && #[trigger] ids_in_order(ids@, p) == names(
                r->Ok_0@,
            ),
{
    match position_of(ids, reference) {
        None => Err(RankError::NotFound),
        Some(k) => {
            proof {
                assert(names(ids@)[k as int] == reference@);
            }
            let order = proximity_order(distance_keys);
            let mut out: Vec<String> = Vec::new();
            let mut i: usize = 0;
            while i < order.len()
                invariant
                    i <= order@.len(),
                    is_proximity_order(distance_keys@, order@),
                    ids@.len() == distance_keys@.len(),
                    names(out@) == ids_in_order(ids@, order@.take(i as int)),
                decreases order@.len() - i,
            {
                let j = order[i];
                let ghost before = out@;
                let id = ids[j].clone();
                out.push(id);
                assert(out@ == before.push(ids@[j as int]));
                assert(order@.take(i + 1) =~= order@.take(i as int).push(j));
                assert(names(out@) =~= names(before).push(ids@[j as int]@));
                assert(ids_in_order(ids@, order@.take(i + 1)) =~= ids_in_order(ids@, order@.take(i as int)).push(
                    ids@[j as int]@,
                ));
                i = i + 1;
            }
            assert(order@.take(order@.len() as int) =~= order@);
            Ok(out)
        },
    }
}

/// In a proximity order (of the keys of a vector) the keys never decrease,
/// and a reference location at key zero comes first unless a location also at key zero was supplied before
/// it.
pub proof fn law_reference_first(keys: Seq<u64>, p: Seq<usize>, reference: int)
    requires
        is_proximity_order(keys, p),
        keys.len() <= usize::MAX,
        0 <= reference < keys.len(),
        keys[reference] == 0,
        forall|j: int| 0 <= j < reference ==> keys[j] != 0,
    ensures
        p[0] == reference,
        forall|i: int, j: int| 0 <= i < j < p.len() ==> keys[p[i] as int] <= keys[p[j] as int],
{
    assert(p.contains(reference as usize));
    let m = choose|m: int| 0 <= m < p.len() && p[m] == reference as usize;
    if m != 0 {
        assert(ranks_before(keys, p[0] as int, p[m] as int));
    }
    assert forall|i: int, j: int| 0 <= i < j < p.len() implies keys[p[i] as int] <= keys[p[j] as int] by {
        assert(ranks_before(keys, p[i] as int, p[j] as int));
    }
}

} // verus!
