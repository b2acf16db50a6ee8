//! The storage rules: which resource kinds each structure subtype can hold.

use vstd::prelude::*;

use crate::world::{ResourceKind, StructureKind};

verus! {

/// The resource kinds a structure of kind `kind` can store, in the order a
/// haul request tries them.  A structure that cannot hold any resource (it
/// has no store) maps to the empty sequence.
pub open spec fn spec_resource_types(kind: StructureKind) -> Seq<ResourceKind> {
    match kind {
        StructureKind::Container => all_resource_kinds(),
        StructureKind::Extension => seq![ResourceKind::Energy],
        StructureKind::Factory => all_resource_kinds(),
        StructureKind::Lab => all_resource_kinds(),
        StructureKind::Link => seq![ResourceKind::Energy],
        StructureKind::Nuker => seq![ResourceKind::Energy, ResourceKind::Ghodium],
        StructureKind::PowerSpawn => seq![ResourceKind::Energy, ResourceKind::Power],
        StructureKind::Spawn => seq![ResourceKind::Energy],
        StructureKind::Storage => all_resource_kinds(),
        StructureKind::Terminal => all_resource_kinds(),
        StructureKind::Tower => seq![ResourceKind::Energy],
        StructureKind::Other => Seq::empty(),
    }
}

/// Every resource kind, for the structures whose store takes them all.
pub open spec fn all_resource_kinds() -> Seq<ResourceKind> {
    seq![ResourceKind::Energy, ResourceKind::Power, ResourceKind::Ghodium, ResourceKind::Other]
}

/// Returns the possible resource types that a structure of kind `kind` can
/// hold; empty if the structure cannot hold any resources.
pub fn resource_types(kind: StructureKind) -> (r: Vec<ResourceKind>)
    ensures
        r@ == spec_resource_types(kind),
{
    let mut v: Vec<ResourceKind> = Vec::new();
    match kind {
        StructureKind::Container | StructureKind::Factory | StructureKind::Lab
        | StructureKind::Storage | StructureKind::Terminal => {
            v.push(ResourceKind::Energy);
            v.push(ResourceKind::Power);
            v.push(ResourceKind::Ghodium);
            v.push(ResourceKind::Other);
            assert(v@ =~= all_resource_kinds());
        },
        StructureKind::Extension | StructureKind::Link | StructureKind::Spawn
        | StructureKind::Tower => {
            v.push(ResourceKind::Energy);
            assert(v@ =~= seq![ResourceKind::Energy]);
        },
        StructureKind::Nuker => {
            v.push(ResourceKind::Energy);
            v.push(ResourceKind::Ghodium);
            assert(v@ =~= seq![ResourceKind::Energy, ResourceKind::Ghodium]);
        },
        StructureKind::PowerSpawn => {
            v.push(ResourceKind::Energy);
            v.push(ResourceKind::Power);
            assert(v@ =~= seq![ResourceKind::Energy, ResourceKind::Power]);
        },
        StructureKind::Other => {
            assert(v@ =~= Seq::<ResourceKind>::empty());
        },
    }
    v
}

} // verus!
