use magog::ai::{decide, is_enemy, Action, Foe, Goal, MobView, Neighbor};
use magog::geom::{ivec2, ivec3, Cube, IVec3};

fn view(loc: IVec3) -> MobView {
    MobView {
        loc: Some(loc),
        is_player: false,
        player: Some(None),
        enemy: None,
        target: Foe { alive: true, loc: None },
        explore_empty: false,
        explore_step: None,
        neighbors: vec![],
        can_step: vec![],
        path_step: None,
        detours: vec![],
    }
}

fn unit(p: IVec3) -> Cube {
    Cube::unit(p)
}

#[test]
fn idle_mob_passes_and_a_mob_nowhere_does_nothing() {
    let mut me = view(ivec3(0, 0, 0));
    assert_eq!(decide(&me, Goal::Idle), Some(Action::Pass));
    me.loc = None;
    assert_eq!(decide(&me, Goal::Idle), None);
}

#[test]
fn attack_bumps_an_adjacent_enemy_and_drops_a_dead_one() {
    let mut me = view(ivec3(5, 5, 0));
    me.target = Foe { alive: true, loc: Some(ivec3(6, 5, 0)) };
    me.neighbors = vec![
        Neighbor { dir: ivec2(0, -1), loc: ivec3(5, 4, 0), enemy_there: false },
        Neighbor { dir: ivec2(1, 0), loc: ivec3(6, 5, 0), enemy_there: true },
    ];
    assert_eq!(decide(&me, Goal::Attack(7)), Some(Action::Bump(ivec2(1, 0))));
    me.target.alive = false;
    assert_eq!(decide(&me, Goal::Attack(7)), None);
}

#[test]
fn escort_waits_next_to_its_charge() {
    let mut me = view(ivec3(5, 5, 0));
    me.target = Foe { alive: true, loc: Some(ivec3(5, 6, 0)) };
    me.neighbors = vec![Neighbor { dir: ivec2(0, 1), loc: ivec3(5, 6, 0), enemy_there: false }];
    me.can_step = vec![ivec2(0, 1)];
    assert_eq!(decide(&me, Goal::Escort(3)), Some(Action::Pass));
    // Attacking the same cell bumps into it instead.
    assert_eq!(decide(&me, Goal::Attack(3)), Some(Action::Bump(ivec2(0, 1))));
    me.is_player = true;
    assert_eq!(decide(&me, Goal::Escort(3)), None);
}

#[test]
fn blocked_path_takes_the_first_free_detour() {
    let mut me = view(ivec3(0, 0, 0));
    let goal = Goal::GoTo {
        origin: ivec3(0, 0, 0),
        destination: unit(ivec3(10, 0, 0)),
        is_attack_move: false,
        is_exploring: false,
    };
    assert_eq!(decide(&me, goal), None);
    me.path_step = Some(ivec2(1, 0));
    me.can_step = vec![ivec2(1, 0), ivec2(0, 1)];
    assert_eq!(decide(&me, goal), Some(Action::Step(ivec2(1, 0))));
    me.can_step = vec![ivec2(0, 1)];
    me.detours = vec![ivec2(0, -1), ivec2(0, 1), ivec2(-1, 0)];
    assert_eq!(decide(&me, goal), Some(Action::Step(ivec2(0, 1))));
    me.can_step = vec![];
    assert_eq!(decide(&me, goal), Some(Action::Pass));
    // Already there: nothing to do.
    me.loc = Some(ivec3(10, 0, 0));
    assert_eq!(decide(&me, goal), None);
}

#[test]
fn attack_move_turns_towards_a_visible_enemy() {
    let mut me = view(ivec3(0, 0, 0));
    me.enemy = Some(Foe { alive: true, loc: Some(ivec3(-1, 0, 0)) });
    me.neighbors = vec![Neighbor { dir: ivec2(-1, 0), loc: ivec3(-1, 0, 0), enemy_there: true }];
    let goal = Goal::GoTo {
        origin: ivec3(0, 0, 0),
        destination: unit(ivec3(10, 0, 0)),
        is_attack_move: true,
        is_exploring: false,
    };
    assert_eq!(decide(&me, goal), Some(Action::Bump(ivec2(-1, 0))));
}

#[test]
fn autoexplore_steps_downhill_and_bumps_into_targets() {
    let zone = unit(ivec3(0, 0, 0));
    let mut me = view(ivec3(0, 0, 0));
    me.is_player = true;
    me.explore_step = Some((3, ivec2(0, 1)));
    assert_eq!(decide(&me, Goal::Autoexplore(zone)), Some(Action::Step(ivec2(0, 1))));
    me.explore_step = Some((0, ivec2(0, 1)));
    assert_eq!(decide(&me, Goal::Autoexplore(zone)), Some(Action::Bump(ivec2(0, 1))));
    assert_eq!(decide(&me, Goal::StartAutoexplore(zone)), None);
    me.explore_empty = true;
    assert_eq!(decide(&me, Goal::Autoexplore(zone)), None);
    // A non-player explorer goes after a dead enemy and gives up.
    me.is_player = false;
    me.explore_empty = false;
    me.enemy = Some(Foe { alive: false, loc: Some(ivec3(1, 0, 0)) });
    assert_eq!(decide(&me, Goal::Autoexplore(zone)), None);
}

#[test]
fn follower_needs_a_player_and_is_not_the_player() {
    let mut me = view(ivec3(0, 0, 0));
    me.player = None;
    assert_eq!(decide(&me, Goal::FollowPlayer), None);
    me.player = Some(Some(ivec3(0, 2, 0)));
    me.path_step = Some(ivec2(0, 1));
    me.can_step = vec![ivec2(0, 1)];
    assert_eq!(decide(&me, Goal::FollowPlayer), Some(Action::Step(ivec2(0, 1))));
    me.is_player = true;
    assert_eq!(decide(&me, Goal::FollowPlayer), None);
}

#[test]
fn goals_run_their_course() {
    let zone = unit(ivec3(0, 0, 0));
    assert_eq!(Goal::StartAutoexplore(zone).next_goal(false), Goal::Autoexplore(zone));
    assert_eq!(Goal::Autoexplore(zone).next_goal(true), Goal::FollowPlayer);
    assert_eq!(Goal::Autoexplore(zone).next_goal(false), Goal::Idle);
    assert_eq!(Goal::FollowPlayer.next_goal(true), Goal::Idle);
    let go = |attack| Goal::GoTo {
        origin: ivec3(0, 0, 0),
        destination: zone,
        is_attack_move: attack,
        is_exploring: false,
    };
    assert_eq!(go(true).next_goal(true), Goal::FollowPlayer);
    assert_eq!(go(false).next_goal(true), Goal::Idle);
    assert!(!Goal::Idle.is_some());
    assert!(Goal::Attack(1).is_some());
    assert!(Goal::Escort(1).is_looking_for_fight(false));
    assert!(!Goal::Escort(1).is_looking_for_fight(true));
    assert!(!Goal::Attack(1).is_looking_for_fight(false));
    assert!(is_enemy(true, false));
    assert!(!is_enemy(true, true));
}
