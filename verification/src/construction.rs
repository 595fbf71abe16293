//! What a build order builds, and whether work on it may go on.

use vstd::prelude::*;

verus! {

/// What a build order builds: a new tower, or an upgrade of a tower.
#[derive(Clone, Copy, PartialEq, Eq, Structural, Debug)]
pub enum BuildType {
    Tower,
    Upgrade {
        /// False iff the tower for this upgrade is still under initial construction.
        can_build: bool,
        upgrade_flag: u8,
    },
}

impl BuildType {
    /// Work on a new tower may always go on; work on an upgrade only once its
    /// tower stands.
    pub fn can_build(&self) -> (b: bool)
        ensures
            b == may_build(*self),
    {
        match self {
            BuildType::Tower => true,
            BuildType::Upgrade { can_build, .. } => *can_build,
        }
    }

    /// A tower has been put down: an upgrade may now be built, whatever it
    /// upgrades. A new tower is left as it is.
    pub fn allow_upgrade(&mut self)
        ensures
            *final(self) == match *old(self) {
                BuildType::Tower => BuildType::Tower,
                BuildType::Upgrade { upgrade_flag, .. } => BuildType::Upgrade {
                    can_build: true,
                    upgrade_flag,
                },
            },
    {
        if let BuildType::Upgrade { ref mut can_build, .. } = *self {
            *can_build = true;
        }
    }
}

/// What the build queue's decisions read of a build order: where it builds,
/// the tower it builds, what it builds, and three facts that its progress and
/// its neighbours give: whether work on it has started, whether it is
/// complete, and whether a factory stands next to it.
#[derive(Clone, Copy, PartialEq, Eq, Structural, Debug)]
pub struct OrderView {
    pub row: usize,
    pub col: usize,
    pub tower_entity: u32,
    pub build_type: BuildType,
    pub started: bool,
    pub complete: bool,
    pub beside_factory: bool,
}

/// Work on the build type may go on.
pub open spec fn may_build(build_type: BuildType) -> bool {
    match build_type {
        BuildType::Tower => true,
        BuildType::Upgrade { can_build, .. } => can_build,
    }
}

/// The player works on an incomplete order that no factory can work on.
pub open spec fn for_the_player(order: OrderView) -> bool {
    !order.complete && !order.beside_factory && may_build(order.build_type)
}

/// The order that the player works on this tick: the first one meant for the
/// player, so that factories are left the orders beside them. `None` where
/// every order is complete, beside a factory or waiting for its tower.
pub fn player_order(orders: &[OrderView]) -> (choice: Option<usize>)
    ensures
        match choice {
            Some(i) => {
                &&& i < orders@.len()
                &&& for_the_player(orders@[i as int])
                &&& !orders@[i as int].beside_factory
                &&& !orders@[i as int].complete
                &&& forall|j: int| 0 <= j < i ==> !for_the_player(#[trigger] orders@[j])
            },
            None => forall|j: int| 0 <= j < orders@.len() ==> !for_the_player(#[trigger] orders@[j]),
        },
{
    let mut i: usize = 0;
    while i < orders.len()
        invariant
            i <= orders@.len(),
            forall|j: int| 0 <= j < i ==> !for_the_player(#[trigger] orders@[j]),
        decreases orders@.len() - i,
    {
        let order = orders[i];
        if !order.complete && !order.beside_factory && order.build_type.can_build() {
            return Some(i);
        }
        i = i + 1;
    }
    None
}

/// The player works only on an order that is not complete, has no factory
/// beside it (started or not), and is a new tower or an upgrade whose tower
/// stands; every such order is one for the player.
pub proof fn lemma_player_leaves_factory_orders(order: OrderView)
    ensures
        for_the_player(order) ==> !order.beside_factory && !order.complete,
        for_the_player(order) <==> (!order.complete && !order.beside_factory && (
        order.build_type == BuildType::Tower || order.build_type matches BuildType::Upgrade {
            can_build: true,
            ..
        })),
{
}

/// Every order of a non-empty queue is complete: the queue runs empty this
/// tick, and the game pauses itself.
pub fn all_complete(orders: &[OrderView]) -> (b: bool)
    ensures
        b == (orders@.len() > 0 && forall|j: int| 0 <= j < orders@.len() ==> (#[trigger] orders@[j]).complete),
{
    if orders.len() == 0 {
        return false;
    }
    let mut i: usize = 0;
    while i < orders.len()
        invariant
            i <= orders@.len(),
            forall|j: int| 0 <= j < i ==> (#[trigger] orders@[j]).complete,
        decreases orders@.len() - i,
    {
        if !orders[i].complete {
            return false;
        }
        i = i + 1;
    }
    true
}

/// What queueing a tower at a position does to the build queue.
#[derive(Clone, Copy, PartialEq, Eq, Structural, Debug)]
pub enum Placement {
    /// No order builds there: queue the tower.
    New,
    /// An order for a tower there has not started: replace it, and destroy
    /// the tower it was for.
    Replace(u32),
    /// An order there is under way, or upgrades a tower: leave it be.
    Occupied,
}

/// The placement that the first order at `row`, `col` calls for.
pub open spec fn placement_of(order: OrderView) -> Placement {
    if order.build_type == BuildType::Tower && !order.started {
        Placement::Replace(order.tower_entity)
    } else {
        Placement::Occupied
    }
}

/// A new tower replaces only an order for a tower on which work has not
/// started, and then the tower of that order; any other order at its
/// position, started or an upgrade, keeps its place.
pub proof fn lemma_replace_only_unstarted(order: OrderView)
    ensures
        placement_of(order) matches Placement::Replace(entity) ==> order.build_type
            == BuildType::Tower && !order.started && entity == order.tower_entity,
        order.started ==> placement_of(order) == Placement::Occupied,
        order.build_type != BuildType::Tower ==> placement_of(order) == Placement::Occupied,
        placement_of(order) != Placement::New,
{
}

/// Decide what queueing a tower at `row`, `col` does: the first order there,
/// if any, decides.
pub fn placement(orders: &[OrderView], row: usize, col: usize) -> (p: Placement)
    ensures
        match p {
            Placement::New => forall|j: int|
                0 <= j < orders@.len() ==> !((#[trigger] orders@[j]).row == row && orders@[j].col
                    == col),
            _ => exists|i: int|
                {
                    &&& 0 <= i < orders@.len()
                    &&& (#[trigger] orders@[i]).row == row
                    &&& orders@[i].col == col
                    &&& forall|j: int|
                        0 <= j < i ==> !((#[trigger] orders@[j]).row == row && orders@[j].col
                            == col)
                    &&& p == placement_of(orders@[i])
                },
        },
{
    let mut i: usize = 0;
    while i < orders.len()
        invariant
            i <= orders@.len(),
            forall|j: int|
                0 <= j < i ==> !((#[trigger] orders@[j]).row == row && orders@[j].col == col),
        decreases orders@.len() - i,
    {
        let order = orders[i];
        if order.row == row && order.col == col {
            let p = match order.build_type {
                BuildType::Tower if !order.started => Placement::Replace(order.tower_entity),
                _ => Placement::Occupied,
            };
            assert(orders@[i as int] == order);
            return p;
        }
        i = i + 1;
    }
    Placement::New
}

} // verus!
