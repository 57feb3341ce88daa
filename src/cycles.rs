use vstd::prelude::*;
use crate::model::{
    names_unique, count_crates, crate_at, named, pos_before, resolves_to, total_crates, valid_pos, Pos,
    Repository, lemma_resolves_to_unique,
};
use crate::resolve::{all_crates, find_info};

verus! {

/// `b` is what one of the first `k` dependencies of the package at `a`
/// resolves to.
pub open spec fn step_within(u: Seq<Repository>, a: Pos, b: Pos, k: int) -> bool {
    exists|j: int| 0 <= j < k && #[trigger] resolves_to(u, crate_at(u, a).deps@[j].name@, b)
}

/// The package at `a` has a dependency that resolves to the package at `b`.
pub open spec fn dep_step(u: Seq<Repository>, a: Pos, b: Pos) -> bool {
    valid_pos(u, a) && step_within(u, a, b, crate_at(u, a).deps@.len() as int)
}

/// A cross-repository cycle: a walk along resolved dependencies that starts
/// at a package of some repository, leaves that repository at once, visits
/// no package twice and no package of that repository on the way, and ends
/// at a package of that repository.
pub open spec fn valid_cycle(u: Seq<Repository>, w: Seq<Pos>) -> bool {
    &&& w.len() >= 3
    &&& valid_pos(u, w[0])
    &&& w[w.len() - 1].0 == w[0].0
    &&& forall|i: int| 0 < i < w.len() - 1 ==> (#[trigger] w[i]).0 != w[0].0
    &&& forall|i: int| 0 <= i < w.len() - 1 ==> #[trigger] dep_step(u, w[i], w[i + 1])
    &&& forall|i: int, j: int| 0 < i < j < w.len() - 1 ==> #[trigger] w[i] != #[trigger] w[j]
}

/// A partial walk of the search: a root package, then packages of other
/// repositories, each reached from the one before, none twice.
pub open spec fn search_path(u: Seq<Repository>, path: Seq<Pos>) -> bool {
    &&& path.len() >= 2
    &&& valid_pos(u, path[0])
    &&& forall|i: int| 0 < i < path.len() ==> (#[trigger] path[i]).0 != path[0].0
    &&& forall|i: int| 0 < i < path.len() ==> valid_pos(u, #[trigger] path[i])
    &&& forall|i: int| 0 <= i < path.len() - 1 ==> #[trigger] dep_step(u, path[i], path[i + 1])
    &&& forall|i: int, j: int| 0 < i < j < path.len() ==> #[trigger] path[i] != #[trigger] path[j]
}

pub open spec fn prefix_of(path: Seq<Pos>, w: Seq<Pos>) -> bool {
    path.len() <= w.len() && forall|i: int| 0 <= i < path.len() ==> #[trigger] w[i] == path[i]
}

/// `w` is one of the cycles at index `lo` or later.
pub open spec fn found_from(cv: Seq<Vec<Pos>>, lo: int, w: Seq<Pos>) -> bool {
    exists|k: int| lo <= k < cv.len() && (#[trigger] cv[k])@ == w
}

/// Every position of the first `k` repositories, in order.
pub open spec fn positions(u: Seq<Repository>, k: int) -> Seq<Pos>
    decreases k,
{
    if k <= 0 || k > u.len() {
        Seq::empty()
    } else {
        positions(u, k - 1) + Seq::new(
            u[k - 1].crates@.len(),
            |c: int| ((k - 1) as usize, c as usize),
        )
    }
}

proof fn lemma_positions(u: Seq<Repository>, k: int)
    requires
        0 <= k <= u.len(),
    ensures
        positions(u, k).len() == count_crates(u, k),
        forall|p: Pos| valid_pos(u, p) && p.0 < k ==> positions(u, k).contains(p),
    decreases k,
{
    if k > 0 {
        lemma_positions(u, k - 1);
        let prev = positions(u, k - 1);
        let row = Seq::new(u[k - 1].crates@.len(), |c: int| ((k - 1) as usize, c as usize));
        assert(positions(u, k) == prev + row);
        assert forall|p: Pos| valid_pos(u, p) && p.0 < k implies positions(u, k).contains(p) by {
            if p.0 < k - 1 {
                let i = choose|i: int| 0 <= i < prev.len() && prev[i] == p;
                assert((prev + row)[i] == p);
            } else {
                assert((prev + row)[prev.len() + p.1] == p);
            }
        }
    }
}

/// A walk through distinct packages is no longer than the universe has
/// packages.
proof fn lemma_distinct_bound(u: Seq<Repository>, s: Seq<Pos>)
    requires
        s.no_duplicates(),
        forall|i: int| 0 <= i < s.len() ==> valid_pos(u, #[trigger] s[i]),
    ensures
        s.len() <= total_crates(u),
{
    let all = positions(u, u.len() as int);
    lemma_positions(u, u.len() as int);
    s.unique_seq_to_set();
    all.lemma_cardinality_of_set();
    assert(s.to_set().subset_of(all.to_set())) by {
        assert forall|p: Pos| s.to_set().contains(p) implies all.to_set().contains(p) by {
            let i = choose|i: int| 0 <= i < s.len() && s[i] == p;
            assert(valid_pos(u, s[i]));
        }
    }
    vstd::set_lib::lemma_len_subset(s.to_set(), all.to_set());
}

proof fn lemma_path_bound(u: Seq<Repository>, path: Seq<Pos>)
    requires
        search_path(u, path),
    ensures
        path.len() <= total_crates(u),
{
    assert(path.no_duplicates()) by {
        assert forall|i: int, j: int| 0 <= i < path.len() && 0 <= j < path.len() && i != j
            implies path[i] != path[j] by {
            if i > 0 && j > 0 {
                if i < j {
                    assert(path[i] != path[j]);
                } else {
                    assert(path[j] != path[i]);
                }
            } else if i == 0 {
                assert(path[j].0 != path[0].0);
            } else {
                assert(path[i].0 != path[0].0);
            }
        }
    }
    assert forall|i: int| 0 <= i < path.len() implies valid_pos(u, #[trigger] path[i]) by {
        if i > 0 {
            assert(valid_pos(u, path[i]));
        }
    }
    lemma_distinct_bound(u, path);
}

fn copy_path(path: &Vec<Pos>) -> (r: Vec<Pos>)
    ensures
        r@ == path@,
{
    let mut r: Vec<Pos> = Vec::new();
    let mut i: usize = 0;
    while i < path.len()
        invariant
            i <= path.len(),
            r@ == path@.subrange(0, i as int),
        decreases path.len() - i,
    {
        r.push(path[i]);
        i += 1;
        assert(r@ =~= path@.subrange(0, i as int));
    }
    assert(r@ =~= path@);
    r
}

fn on_path(path: &Vec<Pos>, t: Pos) -> (r: bool)
    ensures
        r == path@.contains(t),
{
    let mut i: usize = 0;
    while i < path.len()
        invariant
            i <= path.len(),
            forall|k: int| 0 <= k < i ==> path@[k] != t,
        decreases path.len() - i,
    {
        if path[i].0 == t.0 && path[i].1 == t.1 {
            assert(path@[i as int] == t);
            return true;
        }
        i += 1;
    }
    false
}

/// Depth-first search from the last package `c` of `parents` for every way
/// back into the repository `root_repo` of the walk's first package. Each
/// walk found is appended to `cycles`; `parents` comes back as it was.
pub fn add_cycles_from(
    root_repo: usize,
    c: Pos,
    parents: &mut Vec<Pos>,
    infos: &Vec<Repository>,
    cycles: &mut Vec<Vec<Pos>>,
)
    requires
        search_path(infos@, old(parents)@),
        old(parents)@[old(parents)@.len() - 1] == c,
        old(parents)@[0].0 == root_repo,
    ensures
        final(parents)@ == old(parents)@,
        final(cycles)@.len() >= old(cycles)@.len(),
        forall|k: int| 0 <= k < old(cycles)@.len() ==> (#[trigger] final(cycles)@[k])@ == old(cycles)@[k]@,
        forall|k: int|
            old(cycles)@.len() <= k < final(cycles)@.len() ==> valid_cycle(infos@, (#[trigger] final(cycles)@[k])@)
                && prefix_of(old(parents)@, final(cycles)@[k]@),
        forall|w: Seq<Pos>|
            #[trigger] valid_cycle(infos@, w) && prefix_of(old(parents)@, w) && w.len() > old(parents)@.len()
                ==> found_from(final(cycles)@, old(cycles)@.len() as int, w),
    decreases total_crates(infos@) - old(parents).len(),
{
    let ghost u = infos@;
    let ghost path0 = parents@;
    let ghost cyc0 = cycles@;
    let ghost n = path0.len() as int;
    proof {
        lemma_path_bound(u, path0);
    }
    let deps = &infos[c.0].crates[c.1].deps;
    let mut j: usize = 0;
    while j < deps.len()
        invariant
            u == infos@,
            search_path(u, path0),
            path0[n - 1] == c,
            path0[0].0 == root_repo,
            n == path0.len(),
            n <= total_crates(u),
            deps == &crate_at(u, c).deps,
            parents@ == path0,
            old(parents)@ == path0,
            j <= deps.len(),
            cycles@.len() >= cyc0.len(),
            forall|k: int| 0 <= k < cyc0.len() ==> (#[trigger] cycles@[k])@ == cyc0[k]@,
            forall|k: int|
                cyc0.len() <= k < cycles@.len() ==> valid_cycle(u, (#[trigger] cycles@[k])@)
                    && prefix_of(path0, cycles@[k]@),
            forall|w: Seq<Pos>|
                #[trigger] valid_cycle(u, w) && prefix_of(path0, w) && w.len() > n && step_within(
                    u,
                    c,
                    w[n],
                    j as int,
                ) ==> found_from(cycles@, cyc0.len() as int, w),
        decreases deps.len() - j,
    {
        let ghost cyc1 = cycles@;
        match find_info(&deps[j].name, infos) {
            Some(t) => {
                assert(step_within(u, c, t, j as int + 1));
                assert(dep_step(u, c, t));
                if t.0 == root_repo {
                    parents.push(t);
                    let found = copy_path(parents);
                    let ghost w0 = parents@;
                    parents.pop();
                    cycles.push(found);
                    assert(parents@ =~= path0);
                    assert(valid_cycle(u, w0)) by {
                        assert(w0[n] == t);
                        assert forall|i: int| 0 <= i < w0.len() - 1 implies #[trigger] dep_step(
                            u,
                            w0[i],
                            w0[i + 1],
                        ) by {
                            if i < n - 1 {
                                assert(dep_step(u, path0[i], path0[i + 1]));
                            }
                        }
                        assert forall|i: int| 0 < i < w0.len() - 1 implies (#[trigger] w0[i]).0
                            != w0[0].0 by {
                            assert(path0[i].0 != path0[0].0);
                        }
                        assert forall|a: int, b: int| 0 < a < b < w0.len() - 1 implies #[trigger] w0[a]
                            != #[trigger] w0[b] by {
                            assert(path0[a] != path0[b]);
                        }
                    }
                    assert(cycles@[cycles@.len() - 1]@ == w0);
                    assert forall|w: Seq<Pos>|
                        #[trigger] valid_cycle(u, w) && prefix_of(path0, w) && w.len() > n
                            && step_within(u, c, w[n], j as int + 1) implies found_from(
                        cycles@,
                        cyc0.len() as int,
                        w,
                    ) by {
                        let jj = choose|jj: int|
                            0 <= jj < j + 1 && #[trigger] resolves_to(u, crate_at(u, c).deps@[jj].name@, w[n]);
                        if jj < j {
                            assert(step_within(u, c, w[n], j as int));
                            let k = choose|k: int| cyc0.len() <= k < cyc1.len() && (#[trigger] cyc1[k])@ == w;
                            assert(cycles@[k] == cyc1[k]);
                        } else {
                            lemma_resolves_to_unique(u, deps@[j as int].name@, w[n], t);
                            if w.len() > n + 1 {
                                assert(w[n].0 != w[0].0);
                            }
                            assert(w =~= w0);
                            assert(cycles@[cycles@.len() - 1]@ == w);
                        }
                    }
                } else if !on_path(parents, t) {
                    parents.push(t);
                    let ghost path1 = parents@;
                    assert(search_path(u, path1)) by {
                        assert(path1[n] == t);
                        assert forall|i: int| 0 <= i < path1.len() - 1 implies #[trigger] dep_step(
                            u,
                            path1[i],
                            path1[i + 1],
                        ) by {
                            if i < n - 1 {
                                assert(dep_step(u, path0[i], path0[i + 1]));
                            }
                        }
                        assert forall|i: int| 0 < i < path1.len() implies (#[trigger] path1[i]).0
                            != path1[0].0 by {
                            if i < n {
                                assert(path0[i].0 != path0[0].0);
                            }
                        }
                        assert forall|i: int| 0 < i < path1.len() implies valid_pos(u, #[trigger] path1[i]) by {
                            if i < n {
                                assert(valid_pos(u, path0[i]));
                            }
                        }
                        assert forall|a: int, b: int| 0 < a < b < path1.len() implies #[trigger] path1[a]
                            != #[trigger] path1[b] by {
                            if b < n {
                                assert(path0[a] != path0[b]);
                            } else {
                                assert(path0.contains(path0[a]));
                            }
                        }
                    }
                    proof {
                        lemma_path_bound(u, path1);
                    }
                    assert(total_crates(infos@) - parents.len() < total_crates(infos@) - path0.len());
                    assert(0 <= total_crates(infos@) - parents.len());
                    add_cycles_from(root_repo, t, parents, infos, cycles);
                    let ghost cyc2 = cycles@;
                    parents.pop();
                    assert(parents@ =~= path0);
                    assert forall|k: int|
                        cyc0.len() <= k < cycles@.len() implies valid_cycle(u, (#[trigger] cycles@[k])@)
                            && prefix_of(path0, cycles@[k]@) by {
                        if k < cyc1.len() {
                            assert(cyc1[k]@ == cycles@[k]@);
                        } else {
                            assert(prefix_of(path1, cycles@[k]@));
                            assert forall|i: int| 0 <= i < path0.len() implies #[trigger] cycles@[k]@[i]
                                == path0[i] by {
                                assert(path1[i] == path0[i]);
                            }
                        }
                    }
                    assert forall|w: Seq<Pos>|
                        #[trigger] valid_cycle(u, w) && prefix_of(path0, w) && w.len() > n
                            && step_within(u, c, w[n], j as int + 1) implies found_from(
                        cycles@,
                        cyc0.len() as int,
                        w,
                    ) by {
                        let jj = choose|jj: int|
                            0 <= jj < j + 1 && #[trigger] resolves_to(u, crate_at(u, c).deps@[jj].name@, w[n]);
                        if jj < j {
                            assert(step_within(u, c, w[n], j as int));
                            let k = choose|k: int| cyc0.len() <= k < cyc1.len() && (#[trigger] cyc1[k])@ == w;
                            assert(cycles@[k]@ == cyc1[k]@);
                        } else {
                            lemma_resolves_to_unique(u, deps@[j as int].name@, w[n], t);
                            assert(w.len() > n + 1);
                            assert(prefix_of(path1, w));
                            let k = choose|k: int| cyc1.len() <= k < cyc2.len() && (#[trigger] cyc2[k])@ == w;
                        }
                    }
                } else {
                    assert forall|w: Seq<Pos>|
                        #[trigger] valid_cycle(u, w) && prefix_of(path0, w) && w.len() > n
                            && step_within(u, c, w[n], j as int + 1) implies found_from(
                        cycles@,
                        cyc0.len() as int,
                        w,
                    ) by {
                        let jj = choose|jj: int|
                            0 <= jj < j + 1 && #[trigger] resolves_to(u, crate_at(u, c).deps@[jj].name@, w[n]);
                        if jj < j {
                            assert(step_within(u, c, w[n], j as int));
                        } else {
                            lemma_resolves_to_unique(u, deps@[j as int].name@, w[n], t);
                            let i = choose|i: int| 0 <= i < path0.len() && path0[i] == t;
                            if i == 0 {
                            } else {
                                assert(w[i] == path0[i]);
                                assert(w[n].0 != w[0].0);
                                assert(w.len() > n + 1);
                                assert(w[i] != w[n]);
                            }
                        }
                    }
                }
            },
            None => {
                assert forall|w: Seq<Pos>|
                    #[trigger] valid_cycle(u, w) && prefix_of(path0, w) && w.len() > n && step_within(
                        u,
                        c,
                        w[n],
                        j as int + 1,
                    ) implies found_from(cycles@, cyc0.len() as int, w) by {
                    let jj = choose|jj: int|
                        0 <= jj < j + 1 && #[trigger] resolves_to(u, crate_at(u, c).deps@[jj].name@, w[n]);
                    if jj < j {
                        assert(step_within(u, c, w[n], j as int));
                    } else {
                        assert(named(u, w[n], deps@[j as int].name@));
                    }
                }
            },
        }
        j += 1;
    }
    assert forall|w: Seq<Pos>|
        #[trigger] valid_cycle(u, w) && prefix_of(path0, w) && w.len() > n implies found_from(
        cycles@,
        cyc0.len() as int,
        w,
    ) by {
        assert(w[n - 1] == path0[n - 1]);
        assert(dep_step(u, w[n - 1], w[(n - 1) + 1]));
        assert(step_within(u, c, w[n], deps@.len() as int));
    }
}

/// The universe has a cross-repository cycle.
pub open spec fn has_cycle(u: Seq<Repository>) -> bool {
    exists|w: Seq<Pos>| valid_cycle(u, w)
}

/// `p` is one of the first `i` entries of `all`.
pub open spec fn listed_before(all: Seq<Pos>, i: int, p: Pos) -> bool {
    exists|a: int| 0 <= a < i && #[trigger] all[a] == p
}

/// Finds every cross-repository cycle of the universe: each walk that
/// `valid_cycle` describes appears in the result, and nothing else does. A
/// walk that can be followed through several dependency declarations (the
/// same dependency declared twice) appears once for each. Cycles come grouped
/// by their first package, in the universe's order.
pub fn find_cycles(infos: &Vec<Repository>) -> (cycles: Vec<Vec<Pos>>)
    ensures
        forall|k: int| 0 <= k < cycles@.len() ==> valid_cycle(infos@, (#[trigger] cycles@[k])@),
        forall|w: Seq<Pos>| #[trigger] valid_cycle(infos@, w) ==> found_from(cycles@, 0, w),
        cycles@.len() == 0 <==> !has_cycle(infos@),
        forall|k1: int, k2: int|
            0 <= k1 < k2 < cycles@.len() ==> !pos_before(
                (#[trigger] cycles@[k2])@[0],
                (#[trigger] cycles@[k1])@[0],
            ),
{
    let ghost u = infos@;
    let all = all_crates(infos);
    let mut cycles: Vec<Vec<Pos>> = Vec::new();
    let mut i: usize = 0;
    while i < all.len()
        invariant
            u == infos@,
            i <= all.len(),
            forall|p: Pos| valid_pos(u, p) <==> all@.contains(p),
            forall|a: int, b: int| 0 <= a < b < all@.len() ==> pos_before(#[trigger] all@[a], #[trigger] all@[b]),
            forall|k: int| 0 <= k < cycles@.len() ==> listed_before(all@, i as int, (#[trigger] cycles@[k])@[0]),
            forall|k1: int, k2: int|
                0 <= k1 < k2 < cycles@.len() ==> !pos_before(
                    (#[trigger] cycles@[k2])@[0],
                    (#[trigger] cycles@[k1])@[0],
                ),
            forall|k: int| 0 <= k < cycles@.len() ==> valid_cycle(u, (#[trigger] cycles@[k])@),
            forall|w: Seq<Pos>|
                #[trigger] valid_cycle(u, w) && listed_before(all@, i as int, w[0]) ==> found_from(
                    cycles@,
                    0,
                    w,
                ),
        decreases all.len() - i,
    {
        let root = all[i];
        assert(all@[i as int] == root);
        assert(all@.contains(root));
        assert(valid_pos(u, root));
        let deps = &infos[root.0].crates[root.1].deps;
        let mut j: usize = 0;
        while j < deps.len()
            invariant
                u == infos@,
                i < all.len(),
                root == all@[i as int],
                valid_pos(u, root),
                deps == &crate_at(u, root).deps,
                j <= deps.len(),
                forall|a: int, b: int| 0 <= a < b < all@.len() ==> pos_before(#[trigger] all@[a], #[trigger] all@[b]),
                forall|k: int|
                    0 <= k < cycles@.len() ==> (#[trigger] cycles@[k])@[0] == root || listed_before(
                        all@,
                        i as int,
                        cycles@[k]@[0],
                    ),
                forall|k1: int, k2: int|
                    0 <= k1 < k2 < cycles@.len() ==> !pos_before(
                        (#[trigger] cycles@[k2])@[0],
                        (#[trigger] cycles@[k1])@[0],
                    ),
                forall|k: int| 0 <= k < cycles@.len() ==> valid_cycle(u, (#[trigger] cycles@[k])@),
                forall|w: Seq<Pos>|
                    #[trigger] valid_cycle(u, w) && (listed_before(all@, i as int, w[0]) || (w[0]
                        == root && step_within(u, root, w[1], j as int))) ==> found_from(
                        cycles@,
                        0,
                        w,
                    ),
            decreases deps.len() - j,
        {
            let ghost cyc1 = cycles@;
            match find_info(&deps[j].name, infos) {
                Some(q) => {
                    if q.0 != root.0 {
                        let mut parents: Vec<Pos> = vec![root, q];
                        assert(step_within(u, root, q, j as int + 1));
                        assert(search_path(u, parents@)) by {
                            assert(parents@[0] == root && parents@[1] == q);
                            assert(dep_step(u, parents@[0], parents@[0int + 1]));
                        }
                        add_cycles_from(root.0, q, &mut parents, infos, &mut cycles);
                        let ghost cyc2 = cycles@;
                        assert forall|k: int| 0 <= k < cycles@.len() implies (#[trigger] cycles@[k])@[0] == root
                            || listed_before(all@, i as int, cycles@[k]@[0]) by {
                            if k < cyc1.len() {
                                assert(cycles@[k]@ == cyc1[k]@);
                            } else {
                                assert(prefix_of(seq![root, q], cycles@[k]@));
                                assert(cycles@[k]@[0] == seq![root, q][0]);
                            }
                        }
                        assert forall|k1: int, k2: int| 0 <= k1 < k2 < cycles@.len() implies !pos_before(
                            (#[trigger] cycles@[k2])@[0],
                            (#[trigger] cycles@[k1])@[0],
                        ) by {
                            if k2 < cyc1.len() {
                                assert(cycles@[k1]@ == cyc1[k1]@);
                                assert(cycles@[k2]@ == cyc1[k2]@);
                            } else {
                                assert(prefix_of(seq![root, q], cycles@[k2]@));
                                assert(cycles@[k2]@[0] == seq![root, q][0]);
                                if k1 >= cyc1.len() {
                                    assert(prefix_of(seq![root, q], cycles@[k1]@));
                                    assert(cycles@[k1]@[0] == seq![root, q][0]);
                                } else {
                                    assert(cycles@[k1]@ == cyc1[k1]@);
                                    if cycles@[k1]@[0] != root {
                                        let a = choose|a: int| 0 <= a < i && #[trigger] all@[a] == cycles@[k1]@[0];
                                        assert(pos_before(all@[a], all@[i as int]));
                                    }
                                }
                            }
                        }
                        assert forall|w: Seq<Pos>|
                            #[trigger] valid_cycle(u, w) && (listed_before(all@, i as int, w[0]) || (
                            w[0] == root && step_within(u, root, w[1], j as int + 1))) implies found_from(
                            cycles@,
                            0,
                            w,
                        ) by {
                            if listed_before(all@, i as int, w[0]) || step_within(u, root, w[1], j as int) {
                                let k = choose|k: int| 0 <= k < cyc1.len() && (#[trigger] cyc1[k])@ == w;
                                assert(cycles@[k]@ == cyc1[k]@);
                            } else {
                                let jj = choose|jj: int|
                                    0 <= jj < j + 1 && #[trigger] resolves_to(
                                        u,
                                        crate_at(u, root).deps@[jj].name@,
                                        w[1],
                                    );
                                if jj < j {
                                    assert(step_within(u, root, w[1], j as int));
                                }
                                lemma_resolves_to_unique(u, deps@[j as int].name@, w[1], q);
                                assert(prefix_of(seq![root, q], w));
                                let k = choose|k: int|
                                    cyc1.len() <= k < cyc2.len() && (#[trigger] cyc2[k])@ == w;
                            }
                        }
                    } else {
                        assert forall|w: Seq<Pos>|
                            #[trigger] valid_cycle(u, w) && (listed_before(all@, i as int, w[0]) || (
                            w[0] == root && step_within(u, root, w[1], j as int + 1))) implies found_from(
                            cycles@,
                            0,
                            w,
                        ) by {
                            if !listed_before(all@, i as int, w[0]) && !step_within(u, root, w[1], j as int) {
                                let jj = choose|jj: int|
                                    0 <= jj < j + 1 && #[trigger] resolves_to(
                                        u,
                                        crate_at(u, root).deps@[jj].name@,
                                        w[1],
                                    );
                                if jj < j {
                                    assert(step_within(u, root, w[1], j as int));
                                }
                                lemma_resolves_to_unique(u, deps@[j as int].name@, w[1], q);
                                assert(w[1].0 != w[0].0);
                            }
                        }
                    }
                },
                None => {
                    assert forall|w: Seq<Pos>|
                        #[trigger] valid_cycle(u, w) && (listed_before(all@, i as int, w[0]) || (w[0]
                            == root && step_within(u, root, w[1], j as int + 1))) implies found_from(
                        cycles@,
                        0,
                        w,
                    ) by {
                        if !listed_before(all@, i as int, w[0]) && !step_within(u, root, w[1], j as int) {
                            let jj = choose|jj: int|
                                0 <= jj < j + 1 && #[trigger] resolves_to(
                                    u,
                                    crate_at(u, root).deps@[jj].name@,
                                    w[1],
                                );
                            if jj < j {
                                assert(step_within(u, root, w[1], j as int));
                            }
                            assert(named(u, w[1], deps@[j as int].name@));
                        }
                    }
                },
            }
            j += 1;
        }
        assert forall|k: int| 0 <= k < cycles@.len() implies listed_before(
            all@,
            i as int + 1,
            (#[trigger] cycles@[k])@[0],
        ) by {
            if cycles@[k]@[0] == root {
                assert(all@[i as int] == cycles@[k]@[0]);
            } else {
                let a = choose|a: int| 0 <= a < i && #[trigger] all@[a] == cycles@[k]@[0];
                assert(all@[a] == cycles@[k]@[0]);
            }
        }
        assert forall|w: Seq<Pos>|
            #[trigger] valid_cycle(u, w) && listed_before(all@, i as int + 1, w[0]) implies found_from(
            cycles@,
            0,
            w,
        ) by {
            if !listed_before(all@, i as int, w[0]) {
                let a = choose|a: int| 0 <= a < i + 1 && #[trigger] all@[a] == w[0];
                if a < i {
                    assert(listed_before(all@, i as int, w[0]));
                }
                assert(dep_step(u, w[0], w[0int + 1]));
            }
        }
        i += 1;
    }
    assert forall|w: Seq<Pos>| #[trigger] valid_cycle(infos@, w) implies found_from(cycles@, 0, w) by {
        assert(all@.contains(w[0]));
        let a = choose|a: int| 0 <= a < all@.len() && all@[a] == w[0];
        assert(listed_before(all@, all@.len() as int, w[0]));
    }
    if cycles.len() > 0 {
        assert(valid_cycle(u, cycles@[0]@));
    }
    cycles
}

/// The repository id and the package name of each position of `cycle`.
pub fn cycle_entries(infos: &Vec<Repository>, cycle: &Vec<Pos>) -> (r: Vec<(String, String)>)
    requires
        forall|i: int| 0 <= i < cycle@.len() ==> valid_pos(infos@, #[trigger] cycle@[i]),
    ensures
        r@.len() == cycle@.len(),
        forall|i: int|
            0 <= i < r@.len() ==> (#[trigger] r@[i]).0@ == infos@[cycle@[i].0 as int].id@ && r@[i].1@
                == crate_at(infos@, cycle@[i]).name@,
{
    let mut r: Vec<(String, String)> = Vec::new();
    let mut i: usize = 0;
    while i < cycle.len()
        invariant
            i <= cycle.len(),
            r@.len() == i,
            forall|k: int| 0 <= k < cycle@.len() ==> valid_pos(infos@, #[trigger] cycle@[k]),
            forall|k: int|
                0 <= k < i ==> (#[trigger] r@[k]).0@ == infos@[cycle@[k].0 as int].id@ && r@[k].1@
                    == crate_at(infos@, cycle@[k]).name@,
        decreases cycle.len() - i,
    {
        let p = cycle[i];
        assert(valid_pos(infos@, cycle@[i as int]));
        r.push((infos[p.0].id.clone(), infos[p.0].crates[p.1].name.clone()));
        i += 1;
    }
    r
}

/// A dependency chain that starts at a package, passes through a package of
/// another repository, and ends at a package of the repository it started in.
pub open spec fn returns_to_root(u: Seq<Repository>, w: Seq<Pos>) -> bool {
    &&& w.len() >= 2
    &&& valid_pos(u, w[0])
    &&& w[w.len() - 1].0 == w[0].0
    &&& exists|i: int| 0 < i < w.len() && (#[trigger] w[i]).0 != w[0].0
    &&& forall|i: int| 0 <= i < w.len() - 1 ==> #[trigger] dep_step(u, w[i], w[i + 1])
}

/// A universe with unique package names and no dependency chain that leaves a
/// repository and comes back to it has no cross-repository cycle, so
/// `find_cycles` returns an empty list on it.
pub proof fn lemma_no_return_no_cycle(u: Seq<Repository>)
    requires
        names_unique(u),
        forall|w: Seq<Pos>| !#[trigger] returns_to_root(u, w),
    ensures
        !has_cycle(u),
{
    assert forall|w: Seq<Pos>| !valid_cycle(u, w) by {
        if valid_cycle(u, w) {
            assert(w[1].0 != w[0].0);
            assert(returns_to_root(u, w));
        }
    }
}

/// Removes repeated packages from a walk whose inner packages all lie outside
/// the repository of its first package.
proof fn lemma_erase_loops(u: Seq<Repository>, w: Seq<Pos>)
    requires
        w.len() >= 3,
        valid_pos(u, w[0]),
        w[w.len() - 1].0 == w[0].0,
        forall|i: int| 0 < i < w.len() - 1 ==> (#[trigger] w[i]).0 != w[0].0,
        forall|i: int| 0 <= i < w.len() - 1 ==> #[trigger] dep_step(u, w[i], w[i + 1]),
    ensures
        exists|c: Seq<Pos>| #[trigger] valid_cycle(u, c) && c[0] == w[0],
    decreases w.len(),
{
    if exists|i: int, j: int| 0 < i < j < w.len() - 1 && #[trigger] w[i] == #[trigger] w[j] {
        let (i, j) = choose|i: int, j: int| 0 < i < j < w.len() - 1 && #[trigger] w[i] == #[trigger] w[j];
        let w2 = w.subrange(0, i + 1) + w.subrange(j + 1, w.len() as int);
        assert(w2.len() == w.len() - (j - i));
        assert forall|k: int| 0 <= k < w2.len() implies #[trigger] w2[k] == (if k <= i {
            w[k]
        } else {
            w[k + j - i]
        }) by {}
        assert forall|k: int| 0 < k < w2.len() - 1 implies (#[trigger] w2[k]).0 != w2[0].0 by {
            if k > i {
                assert(w2[k] == w[k + j - i]);
            } else {
                assert(w2[k] == w[k]);
            }
        }
        assert forall|k: int| 0 <= k < w2.len() - 1 implies #[trigger] dep_step(u, w2[k], w2[k + 1]) by {
            if k < i {
                assert(w2[k] == w[k] && w2[k + 1] == w[k + 1]);
            } else if k == i {
                assert(w2[k] == w[j] && w2[k + 1] == w[j + 1]);
            } else {
                assert(w2[k] == w[k + j - i] && w2[k + 1] == w[(k + j - i) + 1]);
            }
        }
        assert(w2[w2.len() - 1] == w[w.len() - 1]);
        lemma_erase_loops(u, w2);
    } else {
        assert(valid_cycle(u, w));
    }
}

/// A walk that leaves the repository of its first package at once and ends
/// in it again.
proof fn lemma_leave_and_return(u: Seq<Repository>, w: Seq<Pos>)
    requires
        w.len() >= 2,
        valid_pos(u, w[0]),
        w[1].0 != w[0].0,
        w[w.len() - 1].0 == w[0].0,
        forall|i: int| 0 <= i < w.len() - 1 ==> #[trigger] dep_step(u, w[i], w[i + 1]),
    ensures
        exists|c: Seq<Pos>| #[trigger] valid_cycle(u, c) && c[0] == w[0],
    decreases w.len(),
{
    if exists|k: int| 0 < k < w.len() - 1 && (#[trigger] w[k]).0 == w[0].0 {
        let k = choose|k: int| 0 < k < w.len() - 1 && (#[trigger] w[k]).0 == w[0].0;
        let w2 = w.subrange(0, k + 1);
        assert forall|i: int| 0 <= i < w2.len() - 1 implies #[trigger] dep_step(u, w2[i], w2[i + 1]) by {
            assert(w2[i] == w[i] && w2[i + 1] == w[i + 1]);
        }
        lemma_leave_and_return(u, w2);
    } else {
        lemma_erase_loops(u, w);
    }
}

/// When a package of repository `A` reaches, through resolved dependencies, a
/// package of another repository, and the chain comes back to a package of
/// `A`, the universe has a cross-repository cycle whose first and last
/// packages belong to `A`; `find_cycles` reports it.
pub proof fn lemma_return_gives_cycle(u: Seq<Repository>, w: Seq<Pos>)
    requires
        returns_to_root(u, w),
    ensures
        exists|c: Seq<Pos>|
            #[trigger] valid_cycle(u, c) && c[0].0 == w[0].0 && c[c.len() - 1].0 == w[0].0,
    decreases w.len(),
{
    let m = choose|i: int| 0 < i < w.len() && (#[trigger] w[i]).0 != w[0].0;
    assert(dep_step(u, w[0], w[0int + 1]));
    let jj = choose|jj: int|
        0 <= jj < crate_at(u, w[0]).deps@.len() && #[trigger] resolves_to(u, crate_at(u, w[0]).deps@[jj].name@, w[1]);
    if w[1].0 == w[0].0 {
        let w1 = w.subrange(1, w.len() as int);
        assert(w1[m - 1] == w[m]);
        assert forall|i: int| 0 <= i < w1.len() - 1 implies #[trigger] dep_step(u, w1[i], w1[i + 1]) by {
            assert(w1[i] == w[i + 1] && w1[i + 1] == w[(i + 1) + 1]);
        }
        assert(returns_to_root(u, w1));
        lemma_return_gives_cycle(u, w1);
    } else {
        lemma_leave_and_return(u, w);
        let c = choose|c: Seq<Pos>| #[trigger] valid_cycle(u, c) && c[0] == w[0];
        assert(valid_cycle(u, c) && c[0].0 == w[0].0 && c[c.len() - 1].0 == w[0].0);
    }
}

} // verus!
