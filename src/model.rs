use vstd::prelude::*;

verus! {

/// Where a package may be published.
#[derive(Debug)]
pub enum Publish {
    /// Publishing is disabled.
    Nowhere,
    /// The default registry.
    Default,
    /// Only the listed registries.
    At(Vec<String>),
}

/// One dependency declaration of a package, as written in its manifest.
/// The same logical dependency may occur several times (normal, dev, build or
/// per-target sections); every occurrence is kept.
#[derive(Debug)]
pub struct Dependency {
    /// Name of the package depended upon.
    pub name: String,
    /// The declaration gives a local path.
    pub has_path: bool,
    /// The explicit registry the declaration pins, if any.
    pub from: Option<String>,
}

/// A package published by a repository.
#[derive(Debug)]
pub struct CrateInfo {
    pub name: String,
    pub published_to: Publish,
    pub deps: Vec<Dependency>,
}

/// A repository and its packages, in manifest discovery order.
#[derive(Debug)]
pub struct Repository {
    pub id: String,
    pub crates: Vec<CrateInfo>,
}

/// A package position in a universe (a `Vec<Repository>`, in configured
/// order): the index of its repository and its index inside that repository.
pub type Pos = (usize, usize);

pub open spec fn valid_pos(u: Seq<Repository>, p: Pos) -> bool {
    p.0 < u.len() && p.1 < u[p.0 as int].crates@.len()
}

pub open spec fn crate_at(u: Seq<Repository>, p: Pos) -> CrateInfo {
    u[p.0 as int].crates@[p.1 as int]
}

/// `a` comes before `b` in the universe's order of repositories, then of
/// packages.
pub open spec fn pos_before(a: Pos, b: Pos) -> bool {
    a.0 < b.0 || (a.0 == b.0 && a.1 < b.1)
}

/// The package at `p` is called `name`.
pub open spec fn named(u: Seq<Repository>, p: Pos, name: Seq<char>) -> bool {
    valid_pos(u, p) && crate_at(u, p).name@ == name
}

/// `name` resolves to the package at `p`: the first one of that name.
pub open spec fn resolves_to(u: Seq<Repository>, name: Seq<char>, p: Pos) -> bool {
    &&& named(u, p, name)
    &&& forall|q: Pos| #[trigger] pos_before(q, p) ==> !named(u, q, name)
}

/// No two packages of the universe share a name.
pub open spec fn names_unique(u: Seq<Repository>) -> bool {
    forall|p: Pos, q: Pos|
        valid_pos(u, p) && valid_pos(u, q) && #[trigger] crate_at(u, p).name@ == #[trigger] crate_at(
            u,
            q,
        ).name@ ==> p == q
}

/// The number of packages of the first `k` repositories.
pub open spec fn count_crates(u: Seq<Repository>, k: int) -> nat
    decreases k,
{
    if k <= 0 {
        0
    } else {
        count_crates(u, k - 1) + u[k - 1].crates@.len()
    }
}

pub open spec fn total_crates(u: Seq<Repository>) -> nat {
    count_crates(u, u.len() as int)
}

/// A name resolves to at most one package.
pub proof fn lemma_resolves_to_unique(u: Seq<Repository>, name: Seq<char>, p: Pos, q: Pos)
    requires
        resolves_to(u, name, p),
        resolves_to(u, name, q),
    ensures
        p == q,
{
    if pos_before(p, q) {
    } else if pos_before(q, p) {
    }
}

} // verus!
