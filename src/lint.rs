use vstd::prelude::*;
use crate::cycles::{find_cycles, found_from, has_cycle, valid_cycle};
use crate::model::{names_unique, pos_before, Pos, Repository};
use crate::resolve::{check_unique_names, duplicate_report, DuplicateName};

verus! {

/// What the lints found on a universe whose package names are unique.
#[derive(Debug)]
pub struct LintReport {
    /// Every cross-repository cycle, grouped by first package in the
    /// universe's order.
    pub cycles: Vec<Vec<Pos>>,
    /// No lint found anything.
    pub all_lints_passed: bool,
}

/// Runs the lints: first the uniqueness of package names, whose failure is
/// fatal, then the search for cross-repository cycles, whose findings are
/// reported.
pub fn sanity_check(infos: &Vec<Repository>) -> (r: Result<LintReport, DuplicateName>)
    ensures
        r is Err <==> !names_unique(infos@),
        r matches Err(e) ==> duplicate_report(infos@, e),
        r matches Ok(rep) ==> {
            &&& forall|k: int|
                0 <= k < rep.cycles@.len() ==> valid_cycle(infos@, (#[trigger] rep.cycles@[k])@)
            &&& forall|w: Seq<Pos>| #[trigger] valid_cycle(infos@, w) ==> found_from(rep.cycles@, 0, w)
            &&& forall|k1: int, k2: int|
                0 <= k1 < k2 < rep.cycles@.len() ==> !pos_before(
                    (#[trigger] rep.cycles@[k2])@[0],
                    (#[trigger] rep.cycles@[k1])@[0],
                )
            &&& rep.all_lints_passed == (rep.cycles@.len() == 0)
            &&& rep.all_lints_passed == !has_cycle(infos@)
        },
{
    match check_unique_names(infos) {
        Err(e) => Err(e),
        Ok(()) => {
            let cycles = find_cycles(infos);
            let all_lints_passed = cycles.len() == 0;
            Ok(LintReport { cycles, all_lints_passed })
        },
    }
}

} // verus!
