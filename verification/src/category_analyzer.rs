//! Grouping the invitation stream by program year: the category
//! charts show each year's rounds separately, starting from the first
//! round that carries a year tag.

use crate::invite::Invite;
use std::collections::HashMap;
use vstd::prelude::*;

verus! {

broadcast use vstd::std_specs::hash::group_hash_axioms;

/// Year a round is grouped under: its tagged program year, or zero
/// for untagged rounds inside a tagged run.
pub open spec fn group_year(v: Invite) -> int {
    match v.category.year {
        Option::Some(y) => y as int,
        Option::None => 0,
    }
}

/// Index of the first round at or after `j` with a tagged year.
pub open spec fn first_tagged(s: Seq<Invite>, j: int) -> int
    decreases s.len() - j when 0 <= j <= s.len()
{
    if j < s.len() && s[j].category.year is None {
        first_tagged(s, j + 1)
    } else {
        j
    }
}

/// State of the grouping pass over rounds `f..j`: the groups closed
/// so far, the open group's start, and the open group's year.  A
/// group closes when a strictly larger year appears.
pub open spec fn gy_iter(all: Seq<Invite>, f: int, j: int) -> (Map<int, Seq<Invite>>, int, int)
    decreases j - f when f <= j
{
    if j <= f {
        (Map::<int, Seq<Invite>>::empty(), f, group_year(all[f]))
    } else {
        let st = gy_iter(all, f, j - 1);
        let yn = group_year(all[j - 1]);
        if st.2 < yn {
            (st.0.insert(st.2, all.subrange(st.1, j - 1)), j - 1, yn)
        } else {
            st
        }
    }
}

/// The grouped view of the whole stream: one entry per program year
/// from the first tagged round on, and the whole tagged tail under
/// year zero.  Without any tagged round there is only an empty entry
/// under year zero.
pub open spec fn spec_category_years(all: Seq<Invite>) -> Map<int, Seq<Invite>> {
    let f = first_tagged(all, 0);
    if f == all.len() {
        Map::<int, Seq<Invite>>::empty().insert(0, Seq::<Invite>::empty())
    } else {
        let st = gy_iter(all, f, all.len() as int);
        st.0.insert(st.2, all.subrange(st.1, all.len() as int)).insert(0, all.skip(f))
    }
}

/// The grouping pass keeps its group start inside the processed range
/// and all its keys inside the year type's range.
pub proof fn lemma_gy_bounds(all: Seq<Invite>, f: int, j: int)
    requires
        0 <= f <= j <= all.len(),
    ensures
        f <= gy_iter(all, f, j).1 <= j,
        i32::MIN <= gy_iter(all, f, j).2 <= i32::MAX,
        forall|k: int| gy_iter(all, f, j).0.dom().contains(k) ==> i32::MIN <= k <= i32::MAX,
    decreases j - f,
{
    if j <= f {
    } else {
        lemma_gy_bounds(all, f, j - 1);
    }
}

pub struct CategoryAnalyzer;

impl CategoryAnalyzer {
    /// The rounds from `a` up to `b`, as an owned list.
    fn slice_invites(v: &Vec<Invite>, a: usize, b: usize) -> (r: Vec<Invite>)
        requires
            a <= b <= v@.len(),
        ensures
            r@ == v@.subrange(a as int, b as int),
    {
        let mut r: Vec<Invite> = Vec::new();
        let mut k = a;
        while k < b
            invariant
                a <= k <= b <= v@.len(),
                r@ =~= v@.subrange(a as int, k as int),
            decreases b - k,
        {
            r.push(v[k]);
            proof {
                assert(r@ =~= v@.subrange(a as int, k as int + 1));
            }
            k += 1;
        }
        r
    }

    /// Groups the rounds by program year, as `spec_category_years`
    /// lays them out: every group key present, with exactly that
    /// group's rounds under it.
    pub fn of_category_years(invite_data: &Vec<Invite>) -> (r: HashMap<i32, Vec<Invite>>)
        ensures
            forall|y: i32| #[trigger] r@.contains_key(y) <==> spec_category_years(
                invite_data@,
            ).dom().contains(y as int),
            forall|y: i32| #[trigger] r@.contains_key(y) ==> r@[y]@ == spec_category_years(
                invite_data@,
            )[y as int],
            forall|k: int| #[trigger] spec_category_years(invite_data@).dom().contains(k)
                ==> i32::MIN <= k <= i32::MAX,
    {
        let ghost all = invite_data@;
        let mut map: HashMap<i32, Vec<Invite>> = HashMap::new();
        let n = invite_data.len();

        // find the first round with a tagged year
        let mut f: usize = 0;
        while f < n && invite_data[f].category.year.is_none()
            invariant
                f <= n,
                n == all.len(),
                all == invite_data@,
                first_tagged(all, 0) == first_tagged(all, f as int),
            decreases n - f,
        {
            f += 1;
        }
        proof {
            assert(first_tagged(all, 0) == f as int);
        }

        if f == n {
            let empty: Vec<Invite> = Vec::new();
            map.insert(0, empty);
            return map;
        }

        let mut gi = f;
        let mut year: i32 = match invite_data[f].category.year {
            Option::Some(y) => y,
            Option::None => 0,
        };
        let mut j = f;
        while j < n
            invariant
                f <= gi <= j <= n,
                f < n,
                n == all.len(),
                all == invite_data@,
                gi as int == gy_iter(all, f as int, j as int).1,
                year as int == gy_iter(all, f as int, j as int).2,
                forall|y: i32| #[trigger] map@.contains_key(y) <==> gy_iter(
                    all,
                    f as int,
                    j as int,
                ).0.dom().contains(y as int),
                forall|y: i32| #[trigger] map@.contains_key(y) ==> map@[y]@ == gy_iter(
                    all,
                    f as int,
                    j as int,
                ).0[y as int],
                forall|k: int| gy_iter(all, f as int, j as int).0.dom().contains(k)
                    ==> i32::MIN <= k <= i32::MAX,
            decreases n - j,
        {
            let yn: i32 = match invite_data[j].category.year {
                Option::Some(y) => y,
                Option::None => 0,
            };
            if year < yn {
                let g = Self::slice_invites(invite_data, gi, j);
                map.insert(year, g);
                gi = j;
                year = yn;
            }
            j += 1;
            proof {
                lemma_gy_bounds(all, f as int, j as int);
            }
        }

        let g = Self::slice_invites(invite_data, gi, n);
        map.insert(year, g);
        let tail = Self::slice_invites(invite_data, f, n);
        map.insert(0, tail);
        proof {
            lemma_gy_bounds(all, f as int, n as int);
            assert(all.subrange(f as int, n as int) =~= all.skip(f as int));
        }
        map
    }
}

} // verus!
