//! Intersections of rays with objects, and the choice of the visible one.
use vstd::prelude::*;

verus! {

/// Where a ray meets an object: the distance along the ray, the object, and
/// the barycentric coordinates `u` and `v` where the object is a triangle
/// (zero otherwise).
#[derive(Clone, Copy, Debug, PartialEq)]
pub struct Intersection<T> {
    pub distance: i64,
    pub object: T,
    pub u: i64,
    pub v: i64,
}

/// Whether entry `i` of `s` is the hit: the first entry with the least
/// distance among those at a distance of zero or more.
pub open spec fn is_hit<T>(s: Seq<Intersection<T>>, i: int) -> bool {
    &&& 0 <= i < s.len()
    &&& s[i].distance >= 0
    &&& forall|j: int| 0 <= j < s.len() && s[j].distance >= 0 ==> s[i].distance <= #[trigger] s[j].distance
    &&& forall|j: int| 0 <= j < i && s[j].distance >= 0 ==> s[i].distance < #[trigger] s[j].distance
}

/// At most one entry is the hit.
pub proof fn lemma_hit_unique<T>(s: Seq<Intersection<T>>, i: int, k: int)
    requires
        is_hit(s, i),
        is_hit(s, k),
    ensures
        i == k,
{
    if i < k {
        assert(s[k].distance < s[i].distance);
    } else if k < i {
        assert(s[i].distance < s[k].distance);
    }
}

impl<T> Intersection<T> {
    /// An intersection at `distance` with `object`.
    pub fn new(distance: i64, object: T) -> (i: Intersection<T>)
        ensures
            i.distance == distance,
            i.object == object,
            i.u == 0,
            i.v == 0,
    {
        Intersection { distance, object, u: 0, v: 0 }
    }

    /// An intersection at `distance` with `object`, at barycentric
    /// coordinates `u` and `v`.
    pub fn new_with_uv(distance: i64, object: T, u: i64, v: i64) -> (i: Intersection<T>)
        ensures
            i.distance == distance,
            i.object == object,
            i.u == u,
            i.v == v,
    {
        Intersection { distance, object, u, v }
    }

    /// The intersection with the least distance of zero or more (the first
    /// such one when several share it), or `None` when every distance is
    /// negative.
    pub fn hit(intersections: &[Intersection<T>]) -> (r: Option<&Intersection<T>>)
        ensures
            r is None <==> forall|j: int|
                0 <= j < intersections@.len() ==> (#[trigger] intersections@[j]).distance < 0,
            r matches Some(h) ==> exists|i: int| is_hit(intersections@, i) && intersections@[i] == *h,
    {
        let ghost s = intersections@;
        let mut best: Option<usize> = None;
        let mut j: usize = 0;
        while j < intersections.len()
            invariant
                j <= intersections.len(),
                s == intersections@,
                best is None <==> forall|k: int| 0 <= k < j ==> (#[trigger] s[k]).distance < 0,
                best matches Some(b) ==> {
                    &&& b < j
                    &&& s[b as int].distance >= 0
                    &&& forall|k: int|
                        0 <= k < j && s[k].distance >= 0 ==> s[b as int].distance
                            <= #[trigger] s[k].distance
                    &&& forall|k: int|
                        0 <= k < b && s[k].distance >= 0 ==> s[b as int].distance
                            < #[trigger] s[k].distance
                },
            decreases intersections.len() - j,
        {
            let d = intersections[j].distance;
            if d >= 0 {
                match best {
                    None => {
                        best = Some(j);
                    },
                    Some(b) => {
                        if d < intersections[b].distance {
                            best = Some(j);
                        }
                    },
                }
            }
            j = j + 1;
        }
        match best {
            None => None,
            Some(b) => {
                assert(is_hit(s, b as int));
                Some(&intersections[b])
            },
        }
    }
}

} // verus!
