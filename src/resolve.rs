use vstd::prelude::*;
use crate::model::{
    count_crates, crate_at, named, names_unique, pos_before, resolves_to, total_crates,
    valid_pos, CrateInfo, Pos, Repository, lemma_resolves_to_unique,
};

verus! {

/// Finds the package called `name`: the first such package in the universe's
/// order, or `None` when no package of the universe has that name.
pub fn find_info(name: &String, infos: &Vec<Repository>) -> (r: Option<Pos>)
    ensures
        match r {
            Some(p) => resolves_to(infos@, name@, p),
            None => forall|p: Pos| !#[trigger] named(infos@, p, name@),
        },
{
    let mut ri: usize = 0;
    while ri < infos.len()
        invariant
            ri <= infos.len(),
            forall|q: Pos| q.0 < ri ==> !#[trigger] named(infos@, q, name@),
        decreases infos.len() - ri,
    {
        let crates = &infos[ri].crates;
        let mut ci: usize = 0;
        while ci < crates.len()
            invariant
                ri < infos.len(),
                crates == &infos@[ri as int].crates,
                ci <= crates.len(),
                forall|q: Pos| q.0 < ri ==> !#[trigger] named(infos@, q, name@),
                forall|q: Pos| q.0 == ri && q.1 < ci ==> !#[trigger] named(infos@, q, name@),
            decreases crates.len() - ci,
        {
            if crates[ci].name == *name {
                let p: Pos = (ri, ci);
                assert forall|q: Pos| #[trigger] pos_before(q, p) implies !named(infos@, q, name@) by {
                    if q.0 < ri {
                    } else {
                    }
                }
                return Some(p);
            }
            ci += 1;
        }
        ri += 1;
    }
    None
}

/// Lists the position of every package of the universe, in the universe's
/// order: repositories in configured order, then packages in discovery order.
pub fn all_crates(infos: &Vec<Repository>) -> (r: Vec<Pos>)
    ensures
        forall|p: Pos| valid_pos(infos@, p) <==> r@.contains(p),
        forall|i: int, j: int|
            0 <= i < j < r@.len() ==> pos_before(#[trigger] r@[i], #[trigger] r@[j]),
        r@.len() == total_crates(infos@),
{
    let mut r: Vec<Pos> = Vec::new();
    let mut ri: usize = 0;
    while ri < infos.len()
        invariant
            ri <= infos.len(),
            forall|p: Pos| (valid_pos(infos@, p) && p.0 < ri) <==> r@.contains(p),
            forall|i: int| 0 <= i < r@.len() ==> (#[trigger] r@[i]).0 < ri,
            forall|i: int, j: int|
                0 <= i < j < r@.len() ==> pos_before(#[trigger] r@[i], #[trigger] r@[j]),
            r@.len() == count_crates(infos@, ri as int),
        decreases infos.len() - ri,
    {
        let n = infos[ri].crates.len();
        let mut ci: usize = 0;
        while ci < n
            invariant
                ri < infos.len(),
                n == infos@[ri as int].crates@.len(),
                ci <= n,
                forall|p: Pos|
                    (valid_pos(infos@, p) && (p.0 < ri || (p.0 == ri && p.1 < ci))) <==> r@.contains(p),
                forall|i: int|
                    0 <= i < r@.len() ==> ((#[trigger] r@[i]).0 < ri || (r@[i].0 == ri && r@[i].1 < ci)),
                forall|i: int, j: int|
                    0 <= i < j < r@.len() ==> pos_before(#[trigger] r@[i], #[trigger] r@[j]),
                r@.len() == count_crates(infos@, ri as int) + ci,
            decreases n - ci,
        {
            let ghost old_r = r@;
            r.push((ri, ci));
            assert forall|p: Pos|
                (valid_pos(infos@, p) && (p.0 < ri || (p.0 == ri && p.1 < ci + 1))) <==> r@.contains(p) by {
                if r@.contains(p) && p != (ri, ci) {
                    let k = choose|k: int| 0 <= k < r@.len() && r@[k] == p;
                    assert(old_r[k] == p);
                }
                if p == (ri, ci) {
                    assert(r@[r@.len() - 1] == p);
                } else if valid_pos(infos@, p) && (p.0 < ri || (p.0 == ri && p.1 < ci)) {
                    assert(old_r.contains(p));
                    let k = choose|k: int| 0 <= k < old_r.len() && old_r[k] == p;
                    assert(r@[k] == p);
                }
            }
            ci += 1;
        }
        ri += 1;
    }
    r
}

/// Two packages of one name. `first_repo` owns the earlier one in the
/// universe's order, `second_repo` the later one.
#[derive(Debug)]
pub struct DuplicateName {
    pub name: String,
    pub first_repo: String,
    pub second_repo: String,
}

/// `e` reports the first repeated name in the universe's order: the package
/// at `q` is the first one whose name an earlier package already has, and
/// `p` is that earlier package, the first of the name. `e.first_repo` owns
/// `p`, `e.second_repo` owns `q`.
pub open spec fn duplicate_report(u: Seq<Repository>, e: DuplicateName) -> bool {
    exists|p: Pos, q: Pos|
        #[trigger] resolves_to(u, e.name@, p) && #[trigger] named(u, q, e.name@) && pos_before(p, q)
            && u[p.0 as int].id@ == e.first_repo@ && u[q.0 as int].id@ == e.second_repo@
            && forall|r: Pos|
            valid_pos(u, r) && #[trigger] pos_before(r, q) ==> resolves_to(u, crate_at(u, r).name@, r)
}

/// Checks that no two packages of the universe share a name. On failure it
/// reports the first package, in the universe's order, whose name was already
/// taken, with the repositories of both packages.
pub fn check_unique_names(infos: &Vec<Repository>) -> (r: Result<(), DuplicateName>)
    ensures
        r is Ok <==> names_unique(infos@),
        r matches Err(e) ==> duplicate_report(infos@, e),
{
    let all = all_crates(infos);
    let mut i: usize = 0;
    while i < all.len()
        invariant
            i <= all.len(),
            forall|p: Pos| valid_pos(infos@, p) <==> all@.contains(p),
            forall|a: int, b: int|
                0 <= a < b < all@.len() ==> pos_before(#[trigger] all@[a], #[trigger] all@[b]),
            forall|k: int|
                0 <= k < i ==> resolves_to(infos@, crate_at(infos@, #[trigger] all@[k]).name@, all@[k]),
        decreases all.len() - i,
    {
        let p = all[i];
        assert(all@.contains(p));
        let c: &CrateInfo = &infos[p.0].crates[p.1];
        match find_info(&c.name, infos) {
            Some(q) => {
                if q.0 != p.0 || q.1 != p.1 {
                    assert(named(infos@, p, c.name@));
                    assert(pos_before(q, p));
                    let e = DuplicateName {
                        name: c.name.clone(),
                        first_repo: infos[q.0].id.clone(),
                        second_repo: infos[p.0].id.clone(),
                    };
                    assert forall|r: Pos| valid_pos(infos@, r) && #[trigger] pos_before(r, p) implies resolves_to(
                        infos@,
                        crate_at(infos@, r).name@,
                        r,
                    ) by {
                        assert(all@.contains(r));
                        let k = choose|k: int| 0 <= k < all@.len() && all@[k] == r;
                        if k > i {
                            assert(pos_before(all@[i as int], all@[k]));
                        }
                    }
                    assert(resolves_to(infos@, e.name@, q) && named(infos@, p, e.name@) && pos_before(q, p)
                        && infos@[q.0 as int].id@ == e.first_repo@ && infos@[p.0 as int].id@ == e.second_repo@);
                    assert(duplicate_report(infos@, e));
                    assert(!names_unique(infos@)) by {
                        assert(crate_at(infos@, p).name@ == crate_at(infos@, q).name@);
                    }
                    return Err(e);
                }
            },
            None => {
                assert(named(infos@, p, c.name@));
            },
        }
        i += 1;
    }
    assert forall|p: Pos, q: Pos|
        valid_pos(infos@, p) && valid_pos(infos@, q) && #[trigger] crate_at(infos@, p).name@
            == #[trigger] crate_at(infos@, q).name@ implies p == q by {
        assert(all@.contains(p));
        assert(all@.contains(q));
        let a = choose|a: int| 0 <= a < all@.len() && all@[a] == p;
        let b = choose|b: int| 0 <= b < all@.len() && all@[b] == q;
        lemma_resolves_to_unique(infos@, crate_at(infos@, p).name@, p, q);
    }
    Ok(())
}

/// Two packages of one name at different positions break uniqueness, so
/// `check_unique_names` fails on such a universe.
pub proof fn lemma_shared_name_not_unique(u: Seq<Repository>, p: Pos, q: Pos)
    requires
        valid_pos(u, p),
        valid_pos(u, q),
        p != q,
        crate_at(u, p).name@ == crate_at(u, q).name@,
    ensures
        !names_unique(u),
{
}

/// With unique names, the name of every package resolves to that package, so
/// `find_info` returns the position, and thus the owning repository, of the
/// package looked up.
pub proof fn lemma_lookup_finds_owner(u: Seq<Repository>, p: Pos)
    requires
        names_unique(u),
        valid_pos(u, p),
    ensures
        resolves_to(u, crate_at(u, p).name@, p),
{
    assert forall|q: Pos| #[trigger] pos_before(q, p) implies !named(u, q, crate_at(u, p).name@) by {
        if named(u, q, crate_at(u, p).name@) {
            assert(crate_at(u, q).name@ == crate_at(u, p).name@);
        }
    }
}

} // verus!
