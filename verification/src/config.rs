//! The parameters of a run, and why a set of them is refused.

use vstd::prelude::*;

verus! {

/// Why a set of parameters is refused.
#[derive(Clone, Copy, Debug, PartialEq, Eq, Structural)]
pub enum ConfigError {
    /// The number of clusters is 0.
    NoClusters,
    /// The number of workers is 0.
    NoThreads,
    /// The box has its left edge beyond its right one, or its bottom above
    /// its top.
    EmptyRegion,
}

/// Whether the loop can be entered with these parameters.
pub open spec fn valid_parameters(
    num_clusters: usize,
    num_threads: usize,
    left: i32,
    right: i32,
    bottom: i32,
    top: i32,
) -> bool {
    num_clusters >= 1 && num_threads >= 1 && left <= right && bottom <= top
}

/// Whether `error` is the fault to report for these parameters. A set with
/// several faults is refused for the first of them, in the order clusters,
/// workers, box.
pub open spec fn refused_for(
    error: ConfigError,
    num_clusters: usize,
    num_threads: usize,
    left: i32,
    right: i32,
    bottom: i32,
    top: i32,
) -> bool {
    match error {
        ConfigError::NoClusters => num_clusters == 0,
        ConfigError::NoThreads => num_clusters >= 1 && num_threads == 0,
        ConfigError::EmptyRegion => num_clusters >= 1 && num_threads >= 1 && (left > right
            || bottom > top),
    }
}

/// Tests the parameters before any work is done. The first fault found, in
/// the order clusters, workers, box, is the one reported.
pub fn check_parameters(
    num_clusters: usize,
    num_threads: usize,
    left: i32,
    right: i32,
    bottom: i32,
    top: i32,
) -> (checked: Result<(), ConfigError>)
    ensures
        checked is Ok <==> valid_parameters(num_clusters, num_threads, left, right, bottom, top),
        checked matches Err(error) ==> refused_for(
            error,
            num_clusters,
            num_threads,
            left,
            right,
            bottom,
            top,
        ),
{
    if num_clusters == 0 {
        Err(ConfigError::NoClusters)
    } else if num_threads == 0 {
        Err(ConfigError::NoThreads)
    } else if left > right || bottom > top {
        Err(ConfigError::EmptyRegion)
    } else {
        Ok(())
    }
}

} // verus!
