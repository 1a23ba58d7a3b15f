//! Mobs figuring out what to do on their own: the next single-step action
//! for a standing order, decided from what the mob sees of the world.

use vstd::prelude::*;

use crate::geom::{Cube, IVec2, IVec3};

verus! {

/// Indirect long orders. Entities are named by their ids.
#[derive(Copy, Clone, PartialEq, Eq, Structural, Debug)]
pub enum Goal {
    /// No order.
    Idle,
    /// Standing order for party member NPCs. Cannot be assigned to player.
    FollowPlayer,
    /// Special state at start of autoexploration.
    StartAutoexplore(Cube),
    /// Autoexplore the current sector.
    Autoexplore(Cube),
    /// Move to a location; a zone, or a unit cube for a point.
    GoTo {
        /// Starting point of the move.
        origin: IVec3,
        /// Where to go.
        destination: Cube,
        /// If true, NPC will look for fights along the way.
        is_attack_move: bool,
        /// If true, move is into unexplored terrain.
        is_exploring: bool,
    },
    /// Attack a mob, will complete when target mob is dead.
    Attack(u64),
    /// Escort target mob until it dies.
    Escort(u64),
}

impl Goal {
    pub fn is_some(&self) -> (r: bool)
        ensures
            r == !(*self is Idle),
    {
        !matches!(self, Goal::Idle)
    }
}

/// Atomic single-step actions that a mob decides on by itself.
#[derive(Copy, Clone, PartialEq, Eq, Structural, Debug)]
pub enum Action {
    Pass,
    /// Mixed step and melee attack, picking up what is there.
    Bump(IVec2),
    /// A step that picks nothing up.
    Step(IVec2),
}

/// What a mob sees of another mob.
#[derive(Copy, Clone, PartialEq, Eq, Structural, Debug)]
pub struct Foe {
    pub alive: bool,
    pub loc: Option<IVec3>,
}

/// A cell next to the mob that it can walk to.
#[derive(Copy, Clone, PartialEq, Eq, Structural, Debug)]
pub struct Neighbor {
    /// Direction of the step there.
    pub dir: IVec2,
    /// The cell.
    pub loc: IVec3,
    /// Whether an enemy of the mob stands there.
    pub enemy_there: bool,
}

/// What the mob knows of the world when it decides: its own state and the
/// answers of the queries that deciding makes.
pub struct MobView {
    /// Where the mob is, if anywhere.
    pub loc: Option<IVec3>,
    /// Whether the mob is the player.
    pub is_player: bool,
    /// Whether there is a player, and where it is.
    pub player: Option<Option<IVec3>>,
    /// The first enemy in the mob's field of view, if any.
    pub enemy: Option<Foe>,
    /// The mob named by an attack or escort goal.
    pub target: Foe,
    /// Whether the autoexplore map of the goal's zone has no targets.
    pub explore_empty: bool,
    /// The autoexplore map's downhill step from the mob: the value reached
    /// and the direction, if there is one.
    pub explore_step: Option<(u32, IVec2)>,
    /// The cells the mob can walk to, in the order they are looked at.
    pub neighbors: Vec<Neighbor>,
    /// Directions in which the mob can step right now.
    pub can_step: Vec<IVec2>,
    /// Direction of the first step of the path to the destination, if a
    /// path was found.
    pub path_step: Option<IVec2>,
    /// The other directions, in the order they are tried when the path's
    /// step is blocked.
    pub detours: Vec<IVec2>,
}

/// Where a goal sends the mob: a single cell, or a zone.
pub enum Dest {
    At(IVec3),
    Zone(Cube),
}

/// A unit step along one of the four axes.
pub open spec fn unit_step(d: IVec2) -> bool {
    (d.x == 0 && (d.y == 1 || d.y == -1)) || (d.y == 0 && (d.x == 1 || d.x == -1))
}

/// Every direction the view offers is a unit step along an axis, as the
/// runtime's queries give them.
pub open spec fn view_ok(me: MobView) -> bool {
    &&& forall|i: int| 0 <= i < me.neighbors@.len() ==> unit_step((#[trigger] me.neighbors@[i]).dir)
    &&& forall|i: int| 0 <= i < me.can_step@.len() ==> unit_step(#[trigger] me.can_step@[i])
    &&& forall|i: int| 0 <= i < me.detours@.len() ==> unit_step(#[trigger] me.detours@[i])
    &&& me.path_step matches Some(d) ==> unit_step(d)
    &&& me.explore_step matches Some(s) ==> unit_step(s.1)
}

/// The direction of a step or bump, if the action moves.
pub open spec fn action_dir(a: Option<Action>) -> Option<IVec2> {
    match a {
        Some(Action::Step(d)) => Some(d),
        Some(Action::Bump(d)) => Some(d),
        _ => None,
    }
}

/// The mob has arrived at `p` for destination `d`.
pub open spec fn in_dest(d: Dest, p: IVec3) -> bool {
    match d {
        Dest::At(l) => p == l,
        Dest::Zone(c) => c.spec_contains(p),
    }
}

/// Index of the first neighbor inside the destination.
pub open spec fn first_arrival(ns: Seq<Neighbor>, d: Dest) -> Option<int> {
    if exists|i: int| 0 <= i < ns.len() && in_dest(d, (#[trigger] ns[i]).loc) {
        Some(
            choose|i: int|
                0 <= i < ns.len() && in_dest(d, (#[trigger] ns[i]).loc) && forall|j: int|
                    0 <= j < i ==> !in_dest(d, (#[trigger] ns[j]).loc),
        )
    } else {
        None
    }
}

/// Index of the first detour the mob can step to.
pub open spec fn first_detour(me: MobView) -> Option<int> {
    first_free(me.detours@, me.can_step@)
}

/// Index of the first direction of `ds` that is among the `free` ones.
pub open spec fn first_free(ds: Seq<IVec2>, free: Seq<IVec2>) -> Option<int> {
    if exists|i: int| 0 <= i < ds.len() && free.contains(#[trigger] ds[i]) {
        Some(
            choose|i: int|
                0 <= i < ds.len() && free.contains(#[trigger] ds[i]) && forall|j: int|
                    0 <= j < i ==> !free.contains(#[trigger] ds[j]),
        )
    } else {
        None
    }
}

/// The step along the path: its own direction if free, else the first free
/// detour, else waiting; nothing without a path.
pub open spec fn path_action(me: MobView) -> Option<Action> {
    match me.path_step {
        None => None,
        Some(dir) => if me.can_step@.contains(dir) {
            Some(Action::Step(dir))
        } else {
            match first_detour(me) {
                Some(i) => Some(Action::Step(me.detours@[i])),
                None => Some(Action::Pass),
            }
        },
    }
}

/// The step towards the destination `d` from the mob's cell `loc`: nothing
/// when already there; next to it, a bump into an enemy there, a wait when
/// escorting, or a bump to pick things up where the mob can step;
/// otherwise the step along the path.
pub open spec fn approach(me: MobView, loc: IVec3, d: Dest, escort: bool) -> Option<Action> {
    if in_dest(d, loc) {
        None
    } else {
        match first_arrival(me.neighbors@, d) {
            Some(i) => {
                let n = me.neighbors@[i];
                if n.enemy_there {
                    Some(Action::Bump(n.dir))
                } else if escort {
                    Some(Action::Pass)
                } else if me.can_step@.contains(n.dir) {
                    Some(Action::Bump(n.dir))
                } else {
                    path_action(me)
                }
            },
            None => path_action(me),
        }
    }
}

/// Going after a mob `f`: nothing when it is dead or nowhere, otherwise the
/// approach to its cell.
pub open spec fn chase(me: MobView, loc: IVec3, f: Foe, escort: bool) -> Option<Action> {
    if !f.alive {
        None
    } else {
        match f.loc {
            Some(l) => approach(me, loc, Dest::At(l), escort),
            None => None,
        }
    }
}

/// The action a mob at `loc` decides on for `goal`.
pub open spec fn decide_at(me: MobView, loc: IVec3, goal: Goal) -> Option<Action> {
    match goal {
        Goal::Idle => Some(Action::Pass),
        Goal::FollowPlayer => match me.player {
            None => None,
            Some(player_loc) => if me.is_player {
                None
            } else if me.enemy is Some && me.enemy.unwrap().loc is Some {
                approach(me, loc, Dest::At(me.enemy.unwrap().loc.unwrap()), false)
            } else {
                match player_loc {
                    Some(l) => approach(me, loc, Dest::At(l), false),
                    None => None,
                }
            },
        },
        Goal::Autoexplore(_) | Goal::StartAutoexplore(_) => if !me.is_player && me.enemy is Some {
            chase(me, loc, me.enemy.unwrap(), false)
        } else if me.explore_empty || goal is StartAutoexplore {
            None
        } else {
            match me.explore_step {
                Some((n, step)) => if n == 0 {
                    Some(Action::Bump(step))
                } else {
                    Some(Action::Step(step))
                },
                None => None,
            }
        },
        Goal::GoTo { destination, is_attack_move, .. } => if is_attack_move && me.enemy is Some
            && me.enemy.unwrap().loc is Some {
            approach(me, loc, Dest::At(me.enemy.unwrap().loc.unwrap()), false)
        } else {
            approach(me, loc, Dest::Zone(destination), false)
        },
        Goal::Attack(_) => chase(me, loc, me.target, false),
        Goal::Escort(_) => if me.target.alive && me.is_player {
            None
        } else {
            chase(me, loc, me.target, true)
        },
    }
}

/// The action a mob decides on for `goal`: nothing when it is nowhere.
pub open spec fn spec_decide(me: MobView, goal: Goal) -> Option<Action> {
    match me.loc {
        None => None,
        Some(loc) => decide_at(me, loc, goal),
    }
}

/// The goal that follows `goal` once it is completed.
pub open spec fn spec_next_goal(goal: Goal, is_npc: bool) -> Goal {
    match goal {
        Goal::Idle => Goal::Idle,
        Goal::FollowPlayer => Goal::Idle,
        Goal::StartAutoexplore(zone) => Goal::Autoexplore(zone),
        Goal::GoTo { is_attack_move, .. } => if is_attack_move && is_npc {
            Goal::FollowPlayer
        } else {
            Goal::Idle
        },
        _ => if is_npc {
            Goal::FollowPlayer
        } else {
            Goal::Idle
        },
    }
}

impl Goal {
    /// The goal to take up once this one is completed.
    pub fn next_goal(self, is_npc: bool) -> (r: Goal)
        ensures
            r == spec_next_goal(self, is_npc),
    {
        match self {
            Goal::Idle => Goal::Idle,
            // Becomes invalid when you can't path to player.
            Goal::FollowPlayer => Goal::Idle,
            Goal::StartAutoexplore(zone) => Goal::Autoexplore(zone),
            Goal::GoTo { is_attack_move, .. } => {
                if is_attack_move && is_npc {
                    Goal::FollowPlayer
                } else {
                    Goal::Idle
                }
            },
            _ => {
                if is_npc {
                    Goal::FollowPlayer
                } else {
                    Goal::Idle
                }
            },
        }
    }

    /// Whether a mob with this goal, the player or not, picks a fight with
    /// an enemy it sees.
    pub fn is_looking_for_fight(self, is_player: bool) -> (r: bool)
        ensures
            r == ((self is Idle || self is GoTo || self is Escort) && !is_player),
    {
        matches!(self, Goal::Idle | Goal::GoTo { .. } | Goal::Escort(_)) && !is_player
    }
}

/// Two mobs are enemies when exactly one of them sides with the player.
pub fn is_enemy(aligned: bool, other_aligned: bool) -> (r: bool)
    ensures
        r == (aligned != other_aligned),
{
    aligned != other_aligned
}

/// A follower that sees an enemy with a known location goes for the enemy:
/// where the player is makes no difference to what it decides.
pub proof fn lemma_follower_ignores_player(me: MobView, other: Option<IVec3>)
    requires
        !me.is_player,
        me.player is Some,
        me.enemy matches Some(f) && f.loc is Some,
    ensures
        spec_decide(me, Goal::FollowPlayer) == spec_decide(
            MobView { player: Some(other), ..me },
            Goal::FollowPlayer,
        ),
{
    let me2 = MobView { player: Some(other), ..me };
    assert(me2.detours@ == me.detours@ && me2.can_step@ == me.can_step@);
    assert(first_detour(me2) == first_detour(me));
    assert(path_action(me2) == path_action(me));
    let loc = me.loc.unwrap();
    let d = Dest::At(me.enemy.unwrap().loc.unwrap());
    assert(approach(me2, loc, d, false) == approach(me, loc, d, false));
}

/// A follower that sees an enemy standing on a neighboring cell bumps into
/// it, whatever the path towards the player says.
pub proof fn lemma_follower_bumps_enemy(me: MobView, i: int)
    requires
        !me.is_player,
        me.player is Some,
        me.loc matches Some(loc) && me.enemy matches Some(f) && f.loc matches Some(l) && loc != l,
        0 <= i < me.neighbors@.len(),
        me.neighbors@[i].loc == me.enemy.unwrap().loc.unwrap(),
        me.neighbors@[i].enemy_there,
        forall|j: int| 0 <= j < i ==> (#[trigger] me.neighbors@[j]).loc != me.enemy.unwrap().loc.unwrap(),
    ensures
        spec_decide(me, Goal::FollowPlayer) == Some(Action::Bump(me.neighbors@[i].dir)),
{
    let l = me.enemy.unwrap().loc.unwrap();
    lemma_first_arrival(me.neighbors@, Dest::At(l), i);
}

/// A mob that is somewhere and has no order waits a turn; a mob that is
/// nowhere decides nothing, whatever its order.
pub proof fn lemma_idle_and_nowhere(me: MobView, goal: Goal)
    ensures
        me.loc is Some ==> spec_decide(me, Goal::Idle) == Some(Action::Pass),
        me.loc is None ==> spec_decide(me, goal) is None,
{
}

/// Orders about a dead mob are dropped, and so is any escort order given to
/// the player.
pub proof fn lemma_dead_targets(me: MobView, id: u64)
    ensures
        !me.target.alive ==> spec_decide(me, Goal::Attack(id)) is None && spec_decide(
            me,
            Goal::Escort(id),
        ) is None,
        me.is_player ==> spec_decide(me, Goal::Escort(id)) is None,
{
}

/// Next to the mob it escorts, a mob waits rather than stepping into it;
/// next to the mob it attacks, it bumps into it when it can step there.
pub proof fn lemma_escort_waits_attack_bumps(me: MobView, id: u64, i: int)
    requires
        !me.is_player,
        me.target.alive,
        me.loc matches Some(loc) && me.target.loc matches Some(l) && loc != l,
        0 <= i < me.neighbors@.len(),
        me.neighbors@[i].loc == me.target.loc.unwrap(),
        !me.neighbors@[i].enemy_there,
        forall|j: int| 0 <= j < i ==> (#[trigger] me.neighbors@[j]).loc != me.target.loc.unwrap(),
    ensures
        spec_decide(me, Goal::Escort(id)) == Some(Action::Pass),
        me.can_step@.contains(me.neighbors@[i].dir) ==> spec_decide(me, Goal::Attack(id)) == Some(
            Action::Bump(me.neighbors@[i].dir),
        ),
{
    lemma_first_arrival(me.neighbors@, Dest::At(me.target.loc.unwrap()), i);
}

/// An exploring mob other than the player that sees an enemy goes to fight
/// it, just as if it had been ordered to attack that enemy.
pub proof fn lemma_explorer_fights(me: MobView, zone: Cube, id: u64)
    requires
        !me.is_player,
        me.enemy is Some,
    ensures
        spec_decide(me, Goal::Autoexplore(zone)) == spec_decide(
            MobView { target: me.enemy.unwrap(), ..me },
            Goal::Attack(id),
        ),
        spec_decide(me, Goal::StartAutoexplore(zone)) == spec_decide(
            MobView { target: me.enemy.unwrap(), ..me },
            Goal::Attack(id),
        ),
{
    let me2 = MobView { target: me.enemy.unwrap(), ..me };
    assert(me2.detours@ == me.detours@ && me2.can_step@ == me.can_step@);
    assert(first_detour(me2) == first_detour(me));
    assert(path_action(me2) == path_action(me));
    if let (Some(loc), Some(l)) = (me.loc, me.enemy.unwrap().loc) {
        assert(approach(me2, loc, Dest::At(l), false) == approach(me, loc, Dest::At(l), false));
    }
}

/// Exploring follows the autoexplore map: a step downhill, or a bump where
/// the map has a target; starting an exploration decides nothing yet.
pub proof fn lemma_explore_step(me: MobView, zone: Cube)
    requires
        me.loc is Some,
        me.is_player || me.enemy is None,
        !me.explore_empty,
        me.explore_step is Some,
    ensures
        me.explore_step.unwrap().0 == 0 ==> spec_decide(me, Goal::Autoexplore(zone)) == Some(
            Action::Bump(me.explore_step.unwrap().1),
        ),
        me.explore_step.unwrap().0 != 0 ==> spec_decide(me, Goal::Autoexplore(zone)) == Some(
            Action::Step(me.explore_step.unwrap().1),
        ),
        spec_decide(me, Goal::StartAutoexplore(zone)) is None,
{
}

/// On an attack move, a mob that sees an enemy with a known location goes
/// for it wherever the move was headed, as a follower would.
pub proof fn lemma_attack_move_targets_enemy(
    me: MobView,
    o1: IVec3,
    z1: Cube,
    x1: bool,
    o2: IVec3,
    z2: Cube,
    x2: bool,
)
    requires
        me.enemy matches Some(f) && f.loc is Some,
    ensures
        spec_decide(
            me,
            Goal::GoTo { origin: o1, destination: z1, is_attack_move: true, is_exploring: x1 },
        ) == spec_decide(
            me,
            Goal::GoTo { origin: o2, destination: z2, is_attack_move: true, is_exploring: x2 },
        ),
        !me.is_player && me.player is Some ==> spec_decide(
            me,
            Goal::GoTo { origin: o1, destination: z1, is_attack_move: true, is_exploring: x1 },
        ) == spec_decide(me, Goal::FollowPlayer),
{
}

/// Away from its destination, with no neighboring cell in it, a mob on a
/// move takes the path's step when it is free, else the first free detour,
/// else waits; without a path it decides nothing.
pub proof fn lemma_goto_follows_path(me: MobView, zone: Cube, i: int)
    requires
        me.loc matches Some(loc) && !zone.spec_contains(loc),
        forall|k: int| 0 <= k < me.neighbors@.len() ==> !zone.spec_contains(#[trigger] me.neighbors@[k].loc),
    ensures
        ({
            let g = Goal::GoTo {
                origin: me.loc.unwrap(),
                destination: zone,
                is_attack_move: false,
                is_exploring: false,
            };
            &&& me.path_step is None ==> spec_decide(me, g) is None
            &&& me.path_step is Some && me.can_step@.contains(me.path_step.unwrap()) ==> spec_decide(
                me,
                g,
            ) == Some(Action::Step(me.path_step.unwrap()))
            &&& me.path_step is Some && !me.can_step@.contains(me.path_step.unwrap()) && (forall|k: int|
                0 <= k < me.detours@.len() ==> !me.can_step@.contains(#[trigger] me.detours@[k]))
                ==> spec_decide(me, g) == Some(Action::Pass)
            &&& me.path_step is Some && !me.can_step@.contains(me.path_step.unwrap()) && 0 <= i
                < me.detours@.len() && me.can_step@.contains(me.detours@[i]) && (forall|j: int|
                0 <= j < i ==> !me.can_step@.contains(#[trigger] me.detours@[j])) ==> spec_decide(
                me,
                g,
            ) == Some(Action::Step(me.detours@[i]))
        }),
{
    if 0 <= i < me.detours@.len() && me.can_step@.contains(me.detours@[i]) && (forall|j: int|
        0 <= j < i ==> !me.can_step@.contains(#[trigger] me.detours@[j])) {
        lemma_first_detour(me, i);
    }
    let ns = me.neighbors@;
    let d = Dest::Zone(zone);
    assert(!exists|k: int| 0 <= k < ns.len() && in_dest(d, (#[trigger] ns[k]).loc));
}

/// What comes after a completed order: starting an exploration goes on to
/// exploring the same zone; party members (NPCs) go back to following the
/// player after exploring, attacking, escorting or an attack move, and
/// everyone else, and every other order, ends with no order.
pub proof fn lemma_next_goal(zone: Cube, id: u64, is_npc: bool, o: IVec3, z: Cube, x: bool)
    ensures
        spec_next_goal(Goal::Idle, is_npc) == Goal::Idle,
        spec_next_goal(Goal::FollowPlayer, is_npc) == Goal::Idle,
        spec_next_goal(Goal::StartAutoexplore(zone), is_npc) == Goal::Autoexplore(zone),
        spec_next_goal(
            Goal::GoTo { origin: o, destination: z, is_attack_move: false, is_exploring: x },
            is_npc,
        ) == Goal::Idle,
        ({
            let after = if is_npc {
                Goal::FollowPlayer
            } else {
                Goal::Idle
            };
            &&& spec_next_goal(Goal::Autoexplore(zone), is_npc) == after
            &&& spec_next_goal(Goal::Attack(id), is_npc) == after
            &&& spec_next_goal(Goal::Escort(id), is_npc) == after
            &&& spec_next_goal(
                Goal::GoTo { origin: o, destination: z, is_attack_move: true, is_exploring: x },
                is_npc,
            ) == after
        }),
{
}

/// Over a valid view, a decided move is a single step along an axis.
pub proof fn lemma_decide_unit_step(me: MobView, goal: Goal)
    requires
        view_ok(me),
    ensures
        action_dir(spec_decide(me, goal)) matches Some(d) ==> unit_step(d),
{
    if let Some(loc) = me.loc {
        match goal {
            Goal::FollowPlayer => {
                if me.enemy is Some && me.enemy.unwrap().loc is Some {
                    lemma_approach_unit(me, loc, Dest::At(me.enemy.unwrap().loc.unwrap()), false);
                } else if let Some(Some(l)) = me.player {
                    lemma_approach_unit(me, loc, Dest::At(l), false);
                }
            },
            Goal::GoTo { destination, .. } => {
                lemma_approach_unit(me, loc, Dest::Zone(destination), false);
                if me.enemy is Some && me.enemy.unwrap().loc is Some {
                    lemma_approach_unit(me, loc, Dest::At(me.enemy.unwrap().loc.unwrap()), false);
                }
            },
            Goal::Autoexplore(_) | Goal::StartAutoexplore(_) => {
                if let Some(f) = me.enemy {
                    lemma_chase_unit(me, loc, f, false);
                }
            },
            Goal::Attack(_) => {
                lemma_chase_unit(me, loc, me.target, false);
            },
            Goal::Escort(_) => {
                lemma_chase_unit(me, loc, me.target, true);
            },
            Goal::Idle => {},
        }
    }
}

proof fn lemma_chase_unit(me: MobView, loc: IVec3, f: Foe, escort: bool)
    requires
        view_ok(me),
    ensures
        action_dir(chase(me, loc, f, escort)) matches Some(d) ==> unit_step(d),
{
    if let Some(l) = f.loc {
        lemma_approach_unit(me, loc, Dest::At(l), escort);
    }
}

proof fn lemma_approach_unit(me: MobView, loc: IVec3, dd: Dest, escort: bool)
    requires
        view_ok(me),
    ensures
        action_dir(approach(me, loc, dd, escort)) matches Some(d) ==> unit_step(d),
{
    lemma_path_unit(me);
    let ns = me.neighbors@;
    if exists|i: int| 0 <= i < ns.len() && in_dest(dd, (#[trigger] ns[i]).loc) {
        let k = choose|i: int| 0 <= i < ns.len() && in_dest(dd, (#[trigger] ns[i]).loc);
        lemma_min_arrival(ns, dd, k);
        let i = choose|i: int|
            0 <= i < ns.len() && in_dest(dd, (#[trigger] ns[i]).loc) && forall|j: int|
                0 <= j < i ==> !in_dest(dd, (#[trigger] ns[j]).loc);
        assert(first_arrival(ns, dd) == Some(i));
        assert(unit_step(ns[i].dir));
    }
}

/// Some neighbor inside the destination makes a first one.
proof fn lemma_min_arrival(ns: Seq<Neighbor>, dd: Dest, k: int)
    requires
        0 <= k < ns.len(),
        in_dest(dd, ns[k].loc),
    ensures
        exists|i: int|
            0 <= i < ns.len() && in_dest(dd, (#[trigger] ns[i]).loc) && forall|j: int|
                0 <= j < i ==> !in_dest(dd, (#[trigger] ns[j]).loc),
    decreases k,
{
    if exists|j: int| 0 <= j < k && in_dest(dd, (#[trigger] ns[j]).loc) {
        let j = choose|j: int| 0 <= j < k && in_dest(dd, (#[trigger] ns[j]).loc);
        lemma_min_arrival(ns, dd, j);
    } else {
        assert(in_dest(dd, ns[k].loc));
    }
}

/// Some free detour makes a first one.
proof fn lemma_min_detour(me: MobView, k: int)
    requires
        0 <= k < me.detours@.len(),
        me.can_step@.contains(me.detours@[k]),
    ensures
        exists|i: int|
            0 <= i < me.detours@.len() && me.can_step@.contains(#[trigger] me.detours@[i])
                && forall|j: int| 0 <= j < i ==> !me.can_step@.contains(#[trigger] me.detours@[j]),
    decreases k,
{
    if exists|j: int| 0 <= j < k && me.can_step@.contains(#[trigger] me.detours@[j]) {
        let j = choose|j: int| 0 <= j < k && me.can_step@.contains(#[trigger] me.detours@[j]);
        lemma_min_detour(me, j);
    } else {
        assert(me.can_step@.contains(me.detours@[k]));
    }
}

/// Over a valid view, the step along the path is a unit step.
proof fn lemma_path_unit(me: MobView)
    requires
        view_ok(me),
    ensures
        action_dir(path_action(me)) matches Some(d) ==> unit_step(d),
{
    let ds = me.detours@;
    if exists|i: int| 0 <= i < ds.len() && me.can_step@.contains(#[trigger] ds[i]) {
        let k = choose|i: int| 0 <= i < ds.len() && me.can_step@.contains(#[trigger] ds[i]);
        lemma_min_detour(me, k);
        let i = choose|i: int|
            0 <= i < ds.len() && me.can_step@.contains(#[trigger] ds[i])
                && forall|j: int| 0 <= j < i ==> !me.can_step@.contains(#[trigger] ds[j]);
        assert(first_detour(me) == Some(i));
        assert(unit_step(ds[i]));
    }
}

/// The first detour the mob can step to is the one at `i`.
proof fn lemma_first_detour(me: MobView, i: int)
    requires
        0 <= i < me.detours@.len(),
        me.can_step@.contains(me.detours@[i]),
        forall|j: int| 0 <= j < i ==> !me.can_step@.contains(#[trigger] me.detours@[j]),
    ensures
        first_detour(me) == Some(i),
{
    assert(me.can_step@.contains(me.detours@[i]));
    let k = choose|k: int|
        0 <= k < me.detours@.len() && me.can_step@.contains(#[trigger] me.detours@[k]) && forall|j: int|
            0 <= j < k ==> !me.can_step@.contains(#[trigger] me.detours@[j]);
    if k < i {
        assert(!me.can_step@.contains(me.detours@[k]));
    }
    if k > i {
        assert(!me.can_step@.contains(me.detours@[i]));
    }
}

/// The first neighbor inside the destination is the one at `i`.
proof fn lemma_first_arrival(ns: Seq<Neighbor>, d: Dest, i: int)
    requires
        0 <= i < ns.len(),
        in_dest(d, ns[i].loc),
        forall|j: int| 0 <= j < i ==> !in_dest(d, (#[trigger] ns[j]).loc),
    ensures
        first_arrival(ns, d) == Some(i),
{
    assert(in_dest(d, ns[i].loc));
    let k = choose|k: int|
        0 <= k < ns.len() && in_dest(d, (#[trigger] ns[k]).loc) && forall|j: int|
            0 <= j < k ==> !in_dest(d, (#[trigger] ns[j]).loc);
    if k < i {
        assert(!in_dest(d, ns[k].loc));
    }
    if k > i {
        assert(!in_dest(d, ns[i].loc));
    }
}

fn contains_dir(v: &Vec<IVec2>, d: IVec2) -> (r: bool)
    ensures
        r == v@.contains(d),
{
    let n = v.len();
    let mut i: usize = 0;
    while i < n
        invariant
            n == v@.len(),
            i <= n,
            forall|j: int| 0 <= j < i ==> v@[j] != d,
        decreases n - i,
    {
        if v[i].x == d.x && v[i].y == d.y {
            assert(v@[i as int] == d);
            return true;
        }
        i += 1;
    }
    false
}

fn dest_holds(d: &Dest, p: IVec3) -> (r: bool)
    ensures
        r == in_dest(*d, p),
{
    match d {
        Dest::At(l) => l.x == p.x && l.y == p.y && l.z == p.z,
        Dest::Zone(c) => c.contains(p),
    }
}

fn step_along_path(me: &MobView) -> (r: Option<Action>)
    ensures
        r == path_action(*me),
{
    let dir = match me.path_step {
        None => return None,
        Some(dir) => dir,
    };
    if contains_dir(&me.can_step, dir) {
        return Some(Action::Step(dir));
    }
    // Blocked by an undisplaceable mob, try to go around.
    let n = me.detours.len();
    let mut i: usize = 0;
    while i < n
        invariant
            n == me.detours@.len(),
            i <= n,
            me.path_step == Some(dir),
            !me.can_step@.contains(dir),
            forall|j: int| 0 <= j < i ==> !me.can_step@.contains(#[trigger] me.detours@[j]),
        decreases n - i,
    {
        let d = me.detours[i];
        if contains_dir(&me.can_step, d) {
            proof {
                lemma_first_detour(*me, i as int);
            }
            return Some(Action::Step(d));
        }
        i += 1;
    }
    // Blocked by mobs, who will hopefully move out of the way.
    Some(Action::Pass)
}

fn step_towards(me: &MobView, loc: IVec3, d: Dest, escort: bool) -> (r: Option<Action>)
    ensures
        r == approach(*me, loc, d, escort),
{
    // Drop out if already arrived.
    if dest_holds(&d, loc) {
        return None;
    }
    // Right next to dest, see if we need to watch out for mobs.
    let n = me.neighbors.len();
    let mut i: usize = 0;
    while i < n
        invariant
            n == me.neighbors@.len(),
            i <= n,
            !in_dest(d, loc),
            forall|j: int| 0 <= j < i ==> !in_dest(d, (#[trigger] me.neighbors@[j]).loc),
        decreases n - i,
    {
        let nb = me.neighbors[i];
        if dest_holds(&d, nb.loc) {
            proof {
                lemma_first_arrival(me.neighbors@, d, i as int);
            }
            // There's an enemy, fight it.
            if nb.enemy_there {
                return Some(Action::Bump(nb.dir));
            }
            // Don't try to move into escorted mob's space.
            if escort {
                return Some(Action::Pass);
            }
            // Finish with a bump action to pick up items.
            if contains_dir(&me.can_step, nb.dir) {
                return Some(Action::Bump(nb.dir));
            }
            return step_along_path(me);
        }
        i += 1;
    }
    step_along_path(me)
}

fn go_after(me: &MobView, loc: IVec3, f: Foe, escort: bool) -> (r: Option<Action>)
    ensures
        r == chase(*me, loc, f, escort),
{
    if !f.alive {
        return None;
    }
    match f.loc {
        Some(l) => step_towards(me, loc, Dest::At(l), escort),
        // Target can't be found, abandon goal.
        None => None,
    }
}

/// Decide on the next action given a goal.
pub fn decide(me: &MobView, goal: Goal) -> (r: Option<Action>)
    ensures
        r == spec_decide(*me, goal),
        view_ok(*me) ==> (action_dir(r) matches Some(d) ==> unit_step(d)),
{
    proof {
        if view_ok(*me) {
            lemma_decide_unit_step(*me, goal);
        }
    }
    let loc = match me.loc {
        Some(loc) => loc,
        None => return None,
    };
    match goal {
        Goal::Idle => Some(Action::Pass),
        Goal::FollowPlayer => {
            let player_loc = match me.player {
                Some(p) => p,
                None => return None,
            };
            if me.is_player {
                return None;
            }
            if let Some(f) = me.enemy {
                if let Some(l) = f.loc {
                    // Enemies visible! Go fight them.
                    return step_towards(me, loc, Dest::At(l), false);
                }
            }
            match player_loc {
                // Otherwise follow player.
                Some(l) => step_towards(me, loc, Dest::At(l), false),
                // Follow target can't be found, abandon goal.
                None => None,
            }
        },
        Goal::Autoexplore(_) | Goal::StartAutoexplore(_) => {
            let start = matches!(goal, Goal::StartAutoexplore(_));
            if !me.is_player {
                // Non-players fight when they run into enemies when
                // exploring.
                if let Some(f) = me.enemy {
                    return go_after(me, loc, f, false);
                }
            }
            if me.explore_empty || start {
                return None;
            }
            match me.explore_step {
                Some((n, step)) => {
                    if n == 0 {
                        // Hitting a target point: bump to pick it up.
                        Some(Action::Bump(step))
                    } else {
                        Some(Action::Step(step))
                    }
                },
                None => None,
            }
        },
        Goal::GoTo { destination, is_attack_move, .. } => {
            // Look for targets of opportunity, redirect towards them.
            if is_attack_move {
                if let Some(f) = me.enemy {
                    if let Some(l) = f.loc {
                        return step_towards(me, loc, Dest::At(l), false);
                    }
                }
            }
            step_towards(me, loc, Dest::Zone(destination), false)
        },
        Goal::Attack(_) => go_after(me, loc, me.target, false),
        Goal::Escort(_) => {
            // Player mob rejects all escort goals.
            if me.target.alive && me.is_player {
                return None;
            }
            go_after(me, loc, me.target, true)
        },
    }
}

} // verus!
