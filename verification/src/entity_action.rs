//! Actions a server connection sends to mutate the client's world.
//!
//! Every variant but `UpdateComponent` is guaranteed: a dropped packet
//! re-enqueues it verbatim. `UpdateComponent` is lossy by design; its mask
//! is reconciled against later in-flight updates instead.

use vstd::prelude::*;

use crate::diff_mask::DiffMask;

verus! {

/// How far a local record has come on the client.
#[derive(Clone, Copy, Debug, PartialEq, Eq, Structural)]
pub enum LocalityStatus {
    /// The create action is queued or in flight.
    Creating,
    /// The create action was acked.
    Created,
    /// The delete action is queued or in flight.
    Deleting,
}

/// Per-connection record of an entity replicated to the client.
#[derive(Clone, Copy, Debug, PartialEq, Eq, Structural)]
pub struct LocalEntityRecord {
    pub local_key: u16,
    pub status: LocalityStatus,
    pub is_prediction: bool,
}

impl LocalEntityRecord {
    pub fn new(local_key: u16) -> (r: LocalEntityRecord)
        ensures
            r == (LocalEntityRecord { local_key, status: LocalityStatus::Creating, is_prediction: false }),
    {
        LocalEntityRecord { local_key, status: LocalityStatus::Creating, is_prediction: false }
    }
}

/// Per-connection record of a component replicated to the client.
#[derive(Clone, Copy, Debug, PartialEq, Eq, Structural)]
pub struct LocalComponentRecord {
    pub local_key: u16,
    pub status: LocalityStatus,
}

impl LocalComponentRecord {
    pub fn new(local_key: u16, status: LocalityStatus) -> (r: LocalComponentRecord)
        ensures
            r == (LocalComponentRecord { local_key, status }),
    {
        LocalComponentRecord { local_key, status }
    }
}

/// Mathematical value of an entity action; masks appear as their bytes.
pub enum ActionView {
    SpawnEntity { entity: u16, components: Seq<(u16, u16)> },
    DespawnEntity { entity: u16 },
    OwnEntity { entity: u16 },
    DisownEntity { entity: u16 },
    InsertComponent { entity: u16, component: u16, kind: u16 },
    RemoveComponent { component: u16 },
    UpdateComponent { entity: u16, component: u16, mask: Seq<u8>, kind: u16 },
}

/// An entity action bound for one client connection. Component lists pair
/// a global component key with its kind.
pub enum EntityAction {
    SpawnEntity { entity: u16, components: Vec<(u16, u16)> },
    DespawnEntity { entity: u16 },
    OwnEntity { entity: u16 },
    DisownEntity { entity: u16 },
    InsertComponent { entity: u16, component: u16, kind: u16 },
    RemoveComponent { component: u16 },
    UpdateComponent { entity: u16, component: u16, mask: DiffMask, kind: u16 },
}

impl View for EntityAction {
    type V = ActionView;

    open spec fn view(&self) -> ActionView {
        match self {
            EntityAction::SpawnEntity { entity, components } => ActionView::SpawnEntity {
                entity: *entity,
                components: components@,
            },
            EntityAction::DespawnEntity { entity } => ActionView::DespawnEntity { entity: *entity },
            EntityAction::OwnEntity { entity } => ActionView::OwnEntity { entity: *entity },
            EntityAction::DisownEntity { entity } => ActionView::DisownEntity { entity: *entity },
            EntityAction::InsertComponent { entity, component, kind } => ActionView::InsertComponent {
                entity: *entity,
                component: *component,
                kind: *kind,
            },
            EntityAction::RemoveComponent { component } => ActionView::RemoveComponent {
                component: *component,
            },
            EntityAction::UpdateComponent { entity, component, mask, kind } => ActionView::UpdateComponent {
                entity: *entity,
                component: *component,
                mask: mask@,
                kind: *kind,
            },
        }
    }
}

impl DeepView for EntityAction {
    type V = ActionView;

    open spec fn deep_view(&self) -> ActionView {
        self.view()
    }
}

/// Whether an action is re-sent verbatim when its packet drops.
pub open spec fn is_guaranteed(a: ActionView) -> bool {
    !(a is UpdateComponent)
}

impl EntityAction {
    /// An identical copy.
    pub fn clone_action(&self) -> (r: EntityAction)
        ensures
            r@ == self@,
    {
        match self {
            EntityAction::SpawnEntity { entity, components } => {
                let mut cs: Vec<(u16, u16)> = Vec::new();
                let mut i: usize = 0;
                while i < components.len()
                    invariant
                        i <= components@.len(),
                        cs@ == components@.take(i as int),
                    decreases components@.len() - i,
                {
                    cs.push(components[i]);
                    i = i + 1;
                    assert(cs@ =~= components@.take(i as int));
                }
                assert(cs@ =~= components@);
                EntityAction::SpawnEntity { entity: *entity, components: cs }
            },
            EntityAction::DespawnEntity { entity } => EntityAction::DespawnEntity {
                entity: *entity,
            },
            EntityAction::OwnEntity { entity } => EntityAction::OwnEntity { entity: *entity },
            EntityAction::DisownEntity { entity } => EntityAction::DisownEntity { entity: *entity },
            EntityAction::InsertComponent { entity, component, kind } => EntityAction::InsertComponent {
                entity: *entity,
                component: *component,
                kind: *kind,
            },
            EntityAction::RemoveComponent { component } => EntityAction::RemoveComponent {
                component: *component,
            },
            EntityAction::UpdateComponent { entity, component, mask, kind } => EntityAction::UpdateComponent {
                entity: *entity,
                component: *component,
                mask: mask.clone_mask(),
                kind: *kind,
            },
        }
    }
}

} // verus!
