//! The checks of a bundle: its manifest, the order of its plan, the graph of
//! its dependencies, and the progress recorded against it.
pub mod graph;
pub mod manifest;
pub mod order;
pub mod record;
pub mod scc;
pub mod violation;

pub use violation::Violation;

use vstd::prelude::*;

use crate::progress::Progress;
use crate::roadmap::Roadmap;
use crate::topic::Topic;
use graph::{order_of, reported, unknown_of};
use manifest::manifest_of;
use order::forward_of;
use record::record_of;

verus! {

/// Everything wrong with a bundle: what its manifest check finds, then each
/// dependency on an undeclared topic, then one cycle for each component of the
/// dependency graph that closes one through its least node.
pub fn validate(roadmap: &Roadmap, topics: &[Topic]) -> (found: Vec<Violation>)
    ensures
        ({
            let head = manifest_of(*roadmap, topics@) + unknown_of(
                roadmap.topics@,
                topics@,
                order_of(roadmap.topics@, topics@),
            );
            &&& found@.len() >= head.len()
            &&& found@.take(head.len() as int) == head
            &&& exists|edges: Seq<Vec<usize>>, parts: Seq<Set<usize>>|
                #[trigger] reported(
                    roadmap.topics@,
                    topics@,
                    edges,
                    parts,
                    found@.skip(head.len() as int),
                )
        }),
{
    let mut found: Vec<Violation> = Vec::new();
    manifest::check(roadmap, topics, &mut found);
    let ghost first = found@;
    graph::check(roadmap, topics, &mut found);
    proof {
        let unknown = unknown_of(roadmap.topics@, topics@, order_of(roadmap.topics@, topics@));
        assert(first == manifest_of(*roadmap, topics@));
        assert(Seq::<Violation>::empty() + first =~= first);
        assert(first + unknown == manifest_of(*roadmap, topics@) + unknown);
    }
    found
}

/// Every dependency of a document on a topic that comes later in the plan.
pub fn ordered(roadmap: &Roadmap, topics: &[Topic]) -> (found: Vec<Violation>)
    ensures
        found@ == forward_of(roadmap.topics@, topics@),
{
    let mut found: Vec<Violation> = Vec::new();
    order::check(roadmap, topics, &mut found);
    assert(found@ =~= forward_of(roadmap.topics@, topics@));
    found
}

/// What is wrong with a progress record against the program it claims.
pub fn tracking(roadmap: &Roadmap, progress: &Progress) -> (found: Vec<Violation>)
    ensures
        found@ == record_of(*roadmap, *progress),
{
    let mut found: Vec<Violation> = Vec::new();
    record::check(roadmap, progress, &mut found);
    assert(found@ =~= record_of(*roadmap, *progress));
    found
}

} // verus!
