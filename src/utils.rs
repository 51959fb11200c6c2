//! Small helpers: selection by mask and the order in which resolutions are zoomed.
use vstd::prelude::*;

verus! {

/// The elements of `array` whose mask entry is `true`, in order.
pub open spec fn masked(predicate: Seq<bool>, array: Seq<u32>) -> Seq<u32>
    decreases array.len(),
{
    if array.len() == 0 || predicate.len() != array.len() {
        Seq::empty()
    } else {
        let rest = masked(predicate.drop_last(), array.drop_last());
        if predicate.last() {
            rest.push(array.last())
        } else {
            rest
        }
    }
}

/// Keeps the elements of `array` whose entry in `predicate` is `true`.
pub fn get_vec_wrt_predicate(predicate: &[bool], array: &[u32]) -> (r: Vec<u32>)
    requires
        predicate@.len() == array@.len(),
    ensures
        r@ == masked(predicate@, array@),
{
    let mut v: Vec<u32> = Vec::new();
    let mut i: usize = 0;
    while i < array.len()
        invariant
            predicate@.len() == array@.len(),
            i <= array@.len(),
            v@ == masked(predicate@.subrange(0, i as int), array@.subrange(0, i as int)),
        decreases array@.len() - i,
    {
        proof {
            let p1 = predicate@.subrange(0, i + 1);
            let a1 = array@.subrange(0, i + 1);
            assert(p1.drop_last() =~= predicate@.subrange(0, i as int));
            assert(a1.drop_last() =~= array@.subrange(0, i as int));
        }
        if predicate[i] {
            v.push(array[i]);
        }
        i += 1;
    }
    proof {
        assert(predicate@.subrange(0, i as int) =~= predicate@);
        assert(array@.subrange(0, i as int) =~= array@);
    }
    v
}

/// For each resolution, the position of the nearest earlier resolution that
/// divides it, or `-1` when no earlier one does (always `-1` for the first).
pub fn get_zooming_order(resolutions: &[u32]) -> (r: Vec<i32>)
    requires
        resolutions@.len() <= i32::MAX,
        forall|k: int| 0 <= k < resolutions@.len() ==> #[trigger] resolutions@[k] > 0,
    ensures
        r@.len() == resolutions@.len(),
        forall|i: int|
            0 <= i < r@.len() ==> -1 <= #[trigger] r@[i] < i && (r@[i] >= 0 ==> resolutions@[i]
                % resolutions@[r@[i] as int] == 0) && (forall|p: int|
                r@[i] < p < i ==> resolutions@[i] % #[trigger] resolutions@[p] != 0),
{
    let mut pred: Vec<i32> = Vec::new();
    let mut i: usize = 0;
    while i < resolutions.len()
        invariant
            resolutions@.len() <= i32::MAX,
            forall|k: int| 0 <= k < resolutions@.len() ==> #[trigger] resolutions@[k] > 0,
            i <= resolutions@.len(),
            pred@.len() == i,
            forall|i2: int|
                0 <= i2 < i ==> -1 <= #[trigger] pred@[i2] < i2 && (pred@[i2] >= 0
                    ==> resolutions@[i2] % resolutions@[pred@[i2] as int] == 0) && (forall|p: int|
                    pred@[i2] < p < i2 ==> resolutions@[i2] % #[trigger] resolutions@[p] != 0),
        decreases resolutions@.len() - i,
    {
        let res = resolutions[i];
        let mut found: i32 = -1;
        let mut p: usize = i;
        while p > 0
            invariant_except_break
                found == -1,
            invariant
                forall|k: int| 0 <= k < resolutions@.len() ==> #[trigger] resolutions@[k] > 0,
                i < resolutions@.len() <= i32::MAX,
                res == resolutions@[i as int],
                p <= i,
                forall|q: int| p <= q < i ==> res % #[trigger] resolutions@[q] != 0,
            ensures
                -1 <= found < i,
                found >= 0 ==> res % resolutions@[found as int] == 0,
                forall|q: int| found < q < i ==> res % #[trigger] resolutions@[q] != 0,
            decreases p,
        {
            if res % resolutions[p - 1] == 0 {
                found = (p - 1) as i32;
                break;
            }
            p -= 1;
        }
        pred.push(found);
        i += 1;
    }
    pred
}

/// Why no zoom plan could be made.
#[derive(Debug, Clone, Copy, PartialEq, Eq, Structural)]
pub enum ZoomPlanError {
    /// No existing or no new resolution was given.
    Empty,
    /// A resolution was given twice.
    Duplicate,
    /// This new resolution has no smaller resolution that divides it.
    NoPredecessor(u32),
}

/// Some value occurs twice in `c`.
pub open spec fn has_duplicate(c: Seq<u32>) -> bool {
    exists|i: int, j: int| 0 <= i < j < c.len() && c[i] == c[j]
}

/// Some value of `c` below `x` divides `x`.
pub open spec fn has_divisor_below(c: Seq<u32>, x: u32) -> bool {
    exists|y: u32| #[trigger] c.contains(y) && y < x && x % y == 0
}

/// Some step of `plan` is for resolution `y`.
pub open spec fn plan_lists(plan: Seq<(u32, i64)>, y: u32) -> bool {
    exists|i: int| 0 <= i < plan.len() && #[trigger] plan[i].0 == y
}

/// Whether `v` holds `x`.
fn contains_value(v: &Vec<u32>, x: u32) -> (r: bool)
    ensures
        r == v@.contains(x),
{
    let mut i: usize = 0;
    while i < v.len()
        invariant
            i <= v@.len(),
            forall|k: int| 0 <= k < i ==> v@[k] != x,
        decreases v@.len() - i,
    {
        if v[i] == x {
            assert(v@[i as int] == x);
            return true;
        }
        i += 1;
    }
    false
}

/// A strictly increasing sequence of `u32` has at most `2^32` elements.
proof fn lemma_increasing_len(s: Seq<u32>, k: int)
    requires
        forall|p: int, q: int| 0 <= p < q < s.len() ==> s[p] < s[q],
        0 <= k < s.len(),
    ensures
        s[k] >= k,
    decreases k,
{
    if k > 0 {
        lemma_increasing_len(s, k - 1);
    }
}

/// The distinct values of `c` in increasing order.
fn increasing_values(c: &Vec<u32>) -> (s: Vec<u32>)
    ensures
        s@.len() <= u32::MAX + 1,
        forall|p: int, q: int| 0 <= p < q < s@.len() ==> s@[p] < s@[q],
        forall|y: u32| s@.contains(y) <==> c@.contains(y),
{
    let mut s: Vec<u32> = Vec::new();
    loop
        invariant
            forall|p: int, q: int| 0 <= p < q < s@.len() ==> s@[p] < s@[q],
            forall|k: int| 0 <= k < s@.len() ==> c@.contains(#[trigger] s@[k]),
            s@.len() > 0 ==> forall|y: u32| c@.contains(y) && y <= s@.last() ==> s@.contains(y),
        ensures
            forall|p: int, q: int| 0 <= p < q < s@.len() ==> s@[p] < s@[q],
            forall|y: u32| s@.contains(y) <==> c@.contains(y),
        decreases if s@.len() == 0 {
            u32::MAX as int + 1
        } else {
            u32::MAX - s@.last()
        },
    {
        let mut best: Option<u32> = None;
        let mut k: usize = 0;
        while k < c.len()
            invariant
                k <= c@.len(),
                forall|p: int, q: int| 0 <= p < q < s@.len() ==> s@[p] < s@[q],
                best is Some ==> c@.contains(best->Some_0) && (s@.len() == 0 || best->Some_0 > s@.last()),
                forall|m: int|
                    0 <= m < k && (s@.len() == 0 || c@[m] > s@.last()) ==> best is Some && best->Some_0
                        <= #[trigger] c@[m],
            decreases c@.len() - k,
        {
            let y = c[k];
            let above = s.len() == 0 || y > s[s.len() - 1];
            if above {
                match best {
                    Some(b) => {
                        if y < b {
                            best = Some(y);
                        }
                    },
                    None => {
                        best = Some(y);
                    },
                }
            }
            proof {
                assert(c@[k as int] == y);
            }
            k += 1;
        }
        match best {
            None => {
                proof {
                    assert forall|y: u32| c@.contains(y) implies s@.contains(y) by {
                        let m = choose|m: int| 0 <= m < c@.len() && c@[m] == y;
                        assert(s@.len() > 0 && !(c@[m] > s@.last()));
                    }
                }
                proof {
                    if s@.len() > 0 {
                        lemma_increasing_len(s@, s@.len() - 1);
                    }
                }
                return s;
            },
            Some(b) => {
                let ghost old_s = s@;
                s.push(b);
                proof {
                    assert forall|k2: int| 0 <= k2 < s@.len() implies c@.contains(#[trigger] s@[k2]) by {
                        if k2 < old_s.len() {
                            assert(s@[k2] == old_s[k2]);
                        }
                    }
                    assert forall|y: u32| c@.contains(y) && y <= s@.last() implies s@.contains(y) by {
                        if y == b {
                            assert(s@[old_s.len() as int] == b);
                        } else {
                            let m = choose|m: int| 0 <= m < c@.len() && c@[m] == y;
                            if old_s.len() == 0 || y > old_s.last() {
                                assert(b <= c@[m]);
                            } else {
                                assert(old_s.contains(y));
                                let i = choose|i: int| 0 <= i < old_s.len() && old_s[i] == y;
                                assert(s@[i] == y);
                            }
                        }
                    }
                }
            },
        }
    }
}

/// Plan for building new resolutions by zooming: all resolutions, existing
/// and new, in increasing order, each new one paired with the position of
/// the nearest smaller resolution that divides it, each existing one with
/// `-1`.
pub fn get_zooming_plan(resolutions: &Vec<u32>, new_resolutions: &Vec<u32>) -> (r: Result<
    Vec<(u32, i64)>,
    ZoomPlanError,
>)
    requires
        resolutions@.len() + new_resolutions@.len() <= i32::MAX,
        forall|k: int| 0 <= k < resolutions@.len() ==> #[trigger] resolutions@[k] > 0,
        forall|k: int| 0 <= k < new_resolutions@.len() ==> #[trigger] new_resolutions@[k] > 0,
    ensures
        r == Err::<Vec<(u32, i64)>, ZoomPlanError>(ZoomPlanError::Empty) <==> resolutions@.len() == 0
            || new_resolutions@.len() == 0,
        r == Err::<Vec<(u32, i64)>, ZoomPlanError>(ZoomPlanError::Duplicate) <==> resolutions@.len()
            > 0 && new_resolutions@.len() > 0 && has_duplicate(resolutions@ + new_resolutions@),
        r matches Err(ZoomPlanError::NoPredecessor(x)) ==> new_resolutions@.contains(x)
            && !has_divisor_below(resolutions@ + new_resolutions@, x) && !has_duplicate(
            resolutions@ + new_resolutions@,
        ),
        r is Ok ==> !has_duplicate(resolutions@ + new_resolutions@),
        r is Ok ==> forall|x: u32| #[trigger] new_resolutions@.contains(x) ==> has_divisor_below(
            resolutions@ + new_resolutions@,
            x,
        ),
        r is Ok ==> forall|p: int, q: int|
            0 <= p < q < r->Ok_0@.len() ==> r->Ok_0@[p].0 < r->Ok_0@[q].0,
        r is Ok ==> forall|y: u32|
            #[trigger] (resolutions@ + new_resolutions@).contains(y) <==> plan_lists(r->Ok_0@, y),
        r is Ok ==> forall|i: int|
            0 <= i < r->Ok_0@.len() ==> !new_resolutions@.contains((#[trigger] r->Ok_0@[i]).0)
                ==> r->Ok_0@[i].1 == -1,
        r is Ok ==> forall|i: int|
            0 <= i < r->Ok_0@.len() ==> new_resolutions@.contains((#[trigger] r->Ok_0@[i]).0) ==> {
                &&& 0 <= r->Ok_0@[i].1 < i
                &&& r->Ok_0@[i].0 % r->Ok_0@[r->Ok_0@[i].1 as int].0 == 0
                &&& forall|q: int|
                    r->Ok_0@[i].1 < q < i ==> r->Ok_0@[i].0 % #[trigger] r->Ok_0@[q].0 != 0
            },
{
    if resolutions.len() == 0 || new_resolutions.len() == 0 {
        return Err(ZoomPlanError::Empty);
    }
    let mut c: Vec<u32> = Vec::new();
    let mut k: usize = 0;
    while k < resolutions.len()
        invariant
            resolutions@.len() > 0 && new_resolutions@.len() > 0,
            k <= resolutions@.len(),
            c@ == resolutions@.subrange(0, k as int),
        decreases resolutions@.len() - k,
    {
        c.push(resolutions[k]);
        k += 1;
        proof {
            assert(c@ =~= resolutions@.subrange(0, k as int));
        }
    }
    k = 0;
    while k < new_resolutions.len()
        invariant
            resolutions@.len() > 0 && new_resolutions@.len() > 0,
            k <= new_resolutions@.len(),
            c@ == resolutions@ + new_resolutions@.subrange(0, k as int),
        decreases new_resolutions@.len() - k,
    {
        c.push(new_resolutions[k]);
        k += 1;
        proof {
            assert(c@ =~= resolutions@ + new_resolutions@.subrange(0, k as int));
        }
    }
    proof {
        assert(resolutions@.subrange(0, resolutions@.len() as int) =~= resolutions@);
        assert(new_resolutions@.subrange(0, new_resolutions@.len() as int) =~= new_resolutions@);
        assert(c@ =~= resolutions@ + new_resolutions@);
    }
    let ghost cs = c@;
    let mut i: usize = 0;
    while i < c.len()
        invariant
            cs == c@,
            cs == resolutions@ + new_resolutions@,
            resolutions@.len() > 0 && new_resolutions@.len() > 0,
            i <= c@.len(),
            forall|i2: int, j2: int| 0 <= i2 < i && i2 < j2 < c@.len() ==> c@[i2] != c@[j2],
        decreases c@.len() - i,
    {
        let mut j: usize = i + 1;
        while j < c.len()
            invariant
                cs == c@,
                cs == resolutions@ + new_resolutions@,
                resolutions@.len() > 0 && new_resolutions@.len() > 0,
                i < j <= c@.len(),
                forall|j2: int| i < j2 < j ==> c@[i as int] != c@[j2],
            decreases c@.len() - j,
        {
            if c[i] == c[j] {
                proof {
                    assert(has_duplicate(cs));
                }
                return Err(ZoomPlanError::Duplicate);
            }
            j += 1;
        }
        i += 1;
    }
    assert(!has_duplicate(cs));
    let s = increasing_values(&c);
    let mut plan: Vec<(u32, i64)> = Vec::new();
    i = 0;
    while i < s.len()
        invariant
            cs == c@,
            cs == resolutions@ + new_resolutions@,
            !has_duplicate(cs),
            forall|k2: int| 0 <= k2 < cs.len() ==> #[trigger] cs[k2] > 0,
            forall|p: int, q: int| 0 <= p < q < s@.len() ==> s@[p] < s@[q],
            forall|y: u32| s@.contains(y) <==> cs.contains(y),
            s@.len() <= u32::MAX + 1,
            i <= s@.len(),
            resolutions@.len() > 0 && new_resolutions@.len() > 0,
            plan@.len() == i,
            forall|m: int| 0 <= m < i ==> (#[trigger] plan@[m]).0 == s@[m],
            forall|x: u32|
                #[trigger] new_resolutions@.contains(x) && (exists|m: int| 0 <= m < i && s@[m] == x)
                    ==> has_divisor_below(cs, x),
            forall|m: int|
                0 <= m < i ==> {
                    let p = (#[trigger] plan@[m]).1 as int;
                    &&& !new_resolutions@.contains(plan@[m].0) ==> p == -1
                    &&& new_resolutions@.contains(plan@[m].0) ==> 0 <= p < m && plan@[m].0
                        % s@[p] == 0 && forall|q: int| p < q < m ==> plan@[m].0 % #[trigger] s@[q] != 0
                },
        decreases s@.len() - i,
    {
        let x = s[i];
        if !contains_value(new_resolutions, x) {
            plan.push((x, -1));
        } else {
            let mut found: i64 = -1;
            let mut p: usize = i;
            while p > 0
                invariant_except_break
                    found == -1,
                invariant
                    forall|p2: int, q: int| 0 <= p2 < q < s@.len() ==> s@[p2] < s@[q],
                    forall|k2: int| 0 <= k2 < cs.len() ==> #[trigger] cs[k2] > 0,
                    forall|y: u32| s@.contains(y) <==> cs.contains(y),
                    i < s@.len() <= u32::MAX + 1,
                    x == s@[i as int],
                    p <= i,
                    forall|q: int| p <= q < i ==> x % #[trigger] s@[q] != 0,
                ensures
                    -1 <= found < i,
                    found >= 0 ==> x % s@[found as int] == 0,
                    forall|q: int| found < q < i ==> x % #[trigger] s@[q] != 0,
                decreases p,
            {
                proof {
                    assert(s@.contains(s@[p - 1]));
                    assert(cs.contains(s@[p - 1]));
                    let k3 = choose|k3: int| 0 <= k3 < cs.len() && cs[k3] == s@[p - 1];
                    assert(cs[k3] > 0);
                }
                if x % s[p - 1] == 0 {
                    found = (p - 1) as i64;
                    break;
                }
                p -= 1;
            }
            if found < 0 {
                proof {
                    assert forall|y: u32| #[trigger] cs.contains(y) && y < x implies x % y != 0 by {
                        assert(s@.contains(y));
                        let q = choose|q: int| 0 <= q < s@.len() && s@[q] == y;
                        if q >= i {
                            if q > i {
                                assert(s@[i as int] < s@[q]);
                            }
                        }
                    }
                }
                return Err(ZoomPlanError::NoPredecessor(x));
            }
            proof {
                assert(s@.contains(s@[found as int]));
                assert(cs.contains(s@[found as int]));
                assert(s@[found as int] < x);
            }
            plan.push((x, found));
        }
        i += 1;
    }
    proof {
        let pl = plan@;
        assert forall|x: u32| #[trigger] new_resolutions@.contains(x) implies has_divisor_below(cs, x) by {
            assert(cs.contains(x)) by {
                let k4 = choose|k4: int| 0 <= k4 < new_resolutions@.len() && new_resolutions@[k4] == x;
                assert(cs[resolutions@.len() + k4] == x);
            }
            assert(s@.contains(x));
            let m = choose|m: int| 0 <= m < s@.len() && s@[m] == x;
            assert(0 <= m < i && s@[m] == x);
        }
        assert(!has_duplicate(resolutions@ + new_resolutions@));
        assert forall|y: u32| #[trigger] cs.contains(y) <==> plan_lists(pl, y) by {
            if cs.contains(y) {
                assert(s@.contains(y));
                let m = choose|m: int| 0 <= m < s@.len() && s@[m] == y;
                assert(pl[m].0 == y);
            }
            if plan_lists(pl, y) {
                let i2 = choose|i2: int| 0 <= i2 < pl.len() && #[trigger] pl[i2].0 == y;
                assert(s@[i2] == y);
                assert(s@.contains(y));
            }
        }
        assert forall|p2: int, q: int| 0 <= p2 < q < pl.len() implies pl[p2].0 < pl[q].0 by {
            assert(pl[p2].0 == s@[p2] && pl[q].0 == s@[q]);
        }
        assert forall|i2: int| 0 <= i2 < pl.len() implies {
            let p = (#[trigger] pl[i2]).1 as int;
            &&& !new_resolutions@.contains(pl[i2].0) ==> p == -1
            &&& new_resolutions@.contains(pl[i2].0) ==> 0 <= p < i2 && pl[i2].0 % pl[p].0 == 0
                && forall|q: int| p < q < i2 ==> pl[i2].0 % #[trigger] pl[q].0 != 0
        } by {
            let p = pl[i2].1 as int;
            if new_resolutions@.contains(pl[i2].0) {
                assert(pl[p].0 == s@[p]);
                assert forall|q: int| p < q < i2 implies pl[i2].0 % #[trigger] pl[q].0 != 0 by {
                    assert(pl[q].0 == s@[q]);
                }
            }
        }
    }
    Ok(plan)
}

} // verus!
