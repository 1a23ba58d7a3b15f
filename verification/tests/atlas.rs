use std::collections::HashSet;

use magog::atlas::BitAtlas;
use magog::geom::{ivec3, IVec3};

const BOB: &str = "\
#########                    ##########
#######      #  #  ## # # # #   #######
#####                  #          #####
####                        ###    ####
####     #########    #########  #  ###
####     ######################  #  ###
####     ####################### #  ###
####     ####################### # ####
####            #######        #    ###
####              ###        # ##  ####
####    #######   #####    ### ##  ####
####   ########## ###############  ####
##### ## #######  #####################
########  ###   ######    #### # ######
########             #####     ########
######## # ##  #       #  ####  #######
######### # ##   ###### #####  ########
##########  #     ##########  #########
###########   #   ## ######  ##########
### ##           ########  ############
##   #     ###           ##############
###      ##############################
#######################################";

fn points_of(art: &str, dx: i32, dy: i32) -> HashSet<IVec3> {
    art.lines()
        .enumerate()
        .flat_map(move |(y, line)| {
            line.chars().enumerate().flat_map(move |(x, c)| {
                (!c.is_whitespace()).then_some(ivec3(x as i32 + dx, y as i32 + dy, 0))
            })
        })
        .collect()
}

#[test]
fn atlas_braille_atlas() {
    for (dx, dy) in [(10, 10), (-20, -10)] {
        let points: HashSet<IVec3> = points_of(BOB, dx, dy);

        let list: Vec<IVec3> = points.iter().cloned().collect();
        let atlas = BitAtlas::from_points(&list);
        let roundtrip: HashSet<IVec3> = atlas.points().into_iter().collect();
        assert!(points == roundtrip);
    }
}

#[test]
fn atlas_single_point_is_one_braille_dot() {
    let atlas = BitAtlas::from_points(&vec![ivec3(5, 6, 2)]);
    let pts = atlas.points();
    assert_eq!(pts, vec![ivec3(5, 6, 2)]);
}

#[test]
fn atlas_points_across_sectors_and_levels() {
    let list = vec![
        ivec3(0, 0, 0),
        ivec3(47, 39, 0),
        ivec3(48, 0, 0),
        ivec3(-1, -1, 0),
        ivec3(3, 3, -2),
        ivec3(3, 3, -2),
    ];
    let atlas = BitAtlas::from_points(&list);
    let got: HashSet<IVec3> = atlas.points().into_iter().collect();
    let want: HashSet<IVec3> = list.into_iter().collect();
    assert_eq!(got, want);
}

#[test]
fn atlas_of_nothing_is_empty() {
    let atlas = BitAtlas::from_points(&Vec::new());
    assert!(atlas.points().is_empty());
}

#[test]
fn atlas_round_trip_near_the_coordinate_limits() {
    let list = vec![
        ivec3(2_147_459_000, -2_147_459_000, 3),
        ivec3(2_147_459_001, -2_147_458_997, 3),
        ivec3(-2_147_459_000, 2_147_459_000, -7),
    ];
    let atlas = BitAtlas::from_points(&list);
    let got: HashSet<IVec3> = atlas.points().into_iter().collect();
    let want: HashSet<IVec3> = list.into_iter().collect();
    assert_eq!(got, want);
}
