//! Choosing which of a batch of paths a clean-up removes.
use vstd::prelude::*;

verus! {

/// What was found at one path handed to a clean-up.
#[derive(Clone, Debug)]
pub struct PathProbe {
    pub path: String,
    /// Whether something exists at the path.
    pub exists: bool,
    /// Whether it is a directory.
    pub is_dir: bool,
}

impl View for PathProbe {
    type V = (Seq<char>, bool, bool);

    open spec fn view(&self) -> (Seq<char>, bool, bool) {
        (self.path@, self.exists, self.is_dir)
    }
}

/// The paths to remove, in the order given: those where a directory exists.
/// Anything else is passed over without error.
pub open spec fn removal_paths(probes: Seq<(Seq<char>, bool, bool)>) -> Seq<Seq<char>>
    decreases probes.len(),
{
    if probes.len() == 0 {
        Seq::empty()
    } else {
        let rest = removal_paths(probes.drop_last());
        let p = probes.last();
        if p.1 && p.2 {
            rest.push(p.0)
        } else {
            rest
        }
    }
}

/// The views of a batch of probed paths.
pub open spec fn probes_view(probes: Seq<PathProbe>) -> Seq<(Seq<char>, bool, bool)> {
    probes.map_values(|p: PathProbe| p@)
}

/// The paths of a batch that a clean-up removes, in the order given: each
/// where a directory exists. Missing paths and paths that are not directories
/// are skipped.
pub fn removal_targets(probes: &Vec<PathProbe>) -> (r: Vec<String>)
    ensures
        r@.map_values(|s: String| s@) == removal_paths(probes_view(probes@)),
{
    let mut r: Vec<String> = Vec::new();
    let mut i: usize = 0;
    while i < probes.len()
        invariant
            i <= probes@.len(),
            r@.map_values(|s: String| s@) == removal_paths(probes_view(probes@.take(i as int))),
        decreases probes@.len() - i,
    {
        proof {
            assert(probes_view(probes@.take(i + 1)).drop_last() =~= probes_view(
                probes@.take(i as int),
            ));
        }
        let p = &probes[i];
        if p.exists && p.is_dir {
            r.push(p.path.clone());
            assert(r@.map_values(|s: String| s@) =~= removal_paths(
                probes_view(probes@.take(i as int)),
            ).push(p.path@));
        }
        i = i + 1;
    }
    assert(probes@.take(probes@.len() as int) =~= probes@);
    r
}

} // verus!
