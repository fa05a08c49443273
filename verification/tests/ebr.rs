use mon2y_rs::games::ebr::{
    cube_space, find_space, initial_cubes, move_cube, ChoosableAction,
    connected_majors, connected_to, count_track_at, div_ceil, feature_at, get_neighbors, has_port,
    has_town, initial_track, is_private, narrow_cost, neighbors_on_map, owned_cost,
    min_bid, net_revenue, possible_narrow_track, possible_owned_track,
    private_starting_locations, reachable_narrow_track, reward_by_cash, starting_place,
    terrain_at, track_at, Bond, BondDetails, Company, Coordinate, FeatureType, Terrain, Track,
    TrackType,
};
use std::collections::HashSet;

#[test]
fn test_div_ceil() {
    assert_eq!(div_ceil(10, 3), 4);
    assert_eq!(div_ceil(10, 4), 3);
    assert_eq!(div_ceil(10, 5), 2);
}

#[test]
fn div_ceil_of_nothing_and_of_exact_lots() {
    assert_eq!(div_ceil(0, 3), 0);
    assert_eq!(div_ceil(9, 3), 3);
    assert_eq!(div_ceil(1, 1), 1);
}

#[test]
fn test_get_neighbors() {
    let expected1 = vec![(1, 4), (2, 3), (3, 4), (3, 5), (2, 5), (1, 5)];
    let actual1 = get_neighbors((2, 4));
    assert_eq!(
        expected1
            .iter()
            .map(|t| t.clone())
            .collect::<HashSet<Coordinate>>(),
        actual1
            .iter()
            .map(|t| t.clone())
            .collect::<HashSet<Coordinate>>()
    );

    let expected2 = vec![(2, 4), (2, 3), (3, 3), (4, 3), (4, 4), (3, 5)];
    let actual2 = get_neighbors((3, 4));
    assert_eq!(
        expected2
            .iter()
            .map(|t| t.clone())
            .collect::<HashSet<Coordinate>>(),
        actual2
            .iter()
            .map(|t| t.clone())
            .collect::<HashSet<Coordinate>>()
    );
}

#[test]
fn neighbors_come_clockwise_from_above() {
    assert_eq!(
        get_neighbors((3, 4)),
        vec![(3, 3), (4, 3), (4, 4), (3, 5), (2, 4), (2, 3)]
    );
    assert_eq!(
        get_neighbors((2, 4)),
        vec![(2, 3), (3, 4), (3, 5), (2, 5), (1, 5), (1, 4)]
    );
}

#[test]
fn test_connected_to() {
    // Test will break if HQ of GT or EBRC moved
    let mut track = initial_track();
    let hq = starting_place(Company::GT);

    // Assert GT initially connected to EBRC
    assert!(connected_to(&track, hq, Company::EBRC));
    // And not initially connected to LW
    assert!(!connected_to(&track, hq, Company::LW));
    // But connected if we build some track between them
    track.push(Track {
        location: (2, 3),
        track_type: TrackType::Narrow,
    });
    track.push(Track {
        location: (3, 3),
        track_type: TrackType::Narrow,
    });
    track.push(Track {
        location: (4, 3),
        track_type: TrackType::Narrow,
    });
    track.push(Track {
        location: (5, 3),
        track_type: TrackType::Narrow,
    });
    track.push(Track {
        location: (6, 3),
        track_type: TrackType::CompanyOwned(Company::LW),
    });
    track.push(Track {
        location: (7, 3),
        track_type: TrackType::CompanyOwned(Company::LW),
    });
    track.push(Track {
        location: (8, 3),
        track_type: TrackType::CompanyOwned(Company::LW),
    });
    assert!(connected_to(&track, hq, Company::LW));
    assert_eq!(connected_majors(&track, hq), vec![Company::EBRC, Company::LW]);
    // a company without a seat is connected to nothing
    assert!(!connected_to(&track, starting_place(Company::NED), Company::EBRC));
    assert!(connected_majors(&track, None).is_empty());
}

#[test]
fn test_reachable_narrow_track() {
    // Test will break if HQ of GT moved
    let mut track = initial_track();
    let hq = starting_place(Company::GT);

    // Check GT has its HQ initially
    assert!(reachable_narrow_track(&track, hq) == vec![starting_place(Company::GT).unwrap()]);

    // Check that nearby track not connected
    track.push(Track {
        location: (4, 4),
        track_type: TrackType::Narrow,
    });
    assert!(reachable_narrow_track(&track, hq) == vec![starting_place(Company::GT).unwrap()]);

    // Check that once connected, all three are there
    track.push(Track {
        location: (3, 4),
        track_type: TrackType::Narrow,
    });
    assert!(
        reachable_narrow_track(&track, hq)
            .iter()
            .map(|t| t.clone())
            .collect::<HashSet<Coordinate>>()
            == vec![starting_place(Company::GT).unwrap(), (3, 4), (4, 4)]
                .iter()
                .map(|t| t.clone())
                .collect::<HashSet<Coordinate>>()
    );
    assert_eq!(reachable_narrow_track(&track, hq).len(), 3);
    assert!(reachable_narrow_track(&track, None).is_empty());
}

#[test]
fn the_map_holds_ports_towns_and_woods() {
    assert_eq!(terrain_at((0, 0)), Terrain::Nothing);
    assert_eq!(terrain_at((5, 2)), Terrain::Port);
    assert_eq!(terrain_at((6, 2)), Terrain::Town);
    assert_eq!(terrain_at((13, 2)), Terrain::Mountain);
    assert_eq!(terrain_at((9, 4)), Terrain::Port);
    assert_eq!(terrain_at((3, 5)), Terrain::Town);
    assert_eq!(terrain_at((2, 4)), Terrain::Forest);
    assert_eq!(terrain_at((7, 12)), Terrain::Forest);
    assert_eq!(terrain_at((8, 7)), Terrain::Plain);

    let forest = Terrain::Forest.attributes();
    assert_eq!(forest.build_cost, 4);
    assert!(forest.buildable && !forest.multiple_allowed);
    assert_eq!(forest.revenue, [1, 1, 1, 1, 0, 0]);
    let nothing = Terrain::Nothing.attributes();
    assert!(!nothing.buildable);
    assert_eq!(nothing.symbol, None);
    assert_eq!(Terrain::Mountain.attributes().build_cost, 6);
    assert_eq!(Terrain::Plain.attributes().build_cost, 3);
    assert!(Terrain::Port.attributes().multiple_allowed);
    assert_eq!(Terrain::Town.attributes().revenue, [0; 6]);
}

#[test]
fn privates_start_on_forest_or_mountain() {
    let starts = private_starting_locations();
    assert_eq!(starts[0], (2, 1));
    assert!(starts.contains(&(2, 4)));
    assert!(starts.contains(&(13, 2)));
    assert!(!starts.contains(&(9, 4)));
    assert_eq!(*starts.last().unwrap(), (7, 12));
    for place in &starts {
        let terrain = terrain_at(*place);
        assert!(terrain == Terrain::Forest || terrain == Terrain::Mountain);
    }
    let mut woods = 0;
    for y in 0..13 {
        for x in 0..14 {
            let terrain = terrain_at((x, y));
            if terrain == Terrain::Forest || terrain == Terrain::Mountain {
                woods += 1;
            }
        }
    }
    assert_eq!(starts.len(), woods);
}

#[test]
fn neighbours_beyond_the_map_are_left_out() {
    assert_eq!(
        neighbors_on_map((13, 12)),
        vec![(13, 11), (12, 12), (12, 11)]
    );
    assert_eq!(neighbors_on_map((3, 4)).len(), 6);
}

#[test]
fn track_is_found_by_place_and_kind() {
    let track = initial_track();
    assert!(track_at(&track, (9, 4), TrackType::CompanyOwned(Company::TMLC)));
    assert!(!track_at(&track, (9, 4), TrackType::Narrow));
    assert!(track_at(&track, (2, 4), TrackType::Narrow));
    assert!(!track_at(&track, (2, 5), TrackType::Narrow));
    // Launceston is a port, Queenstown a town
    assert!(has_port(&track, Company::LW));
    assert!(!has_town(&track, Company::LW));
    assert!(has_town(&track, Company::EBRC));
    assert!(!has_port(&track, Company::GT));
    assert!(is_private(Company::GT) && is_private(Company::MLM));
    assert!(!is_private(Company::EBRC));
    assert_eq!(starting_place(Company::TMLC), Some((9, 4)));
    assert_eq!(starting_place(Company::NMFT), None);
}

#[test]
fn features_give_names_earnings_and_costs() {
    let burnie = feature_at((2, 5)).unwrap();
    assert_eq!(burnie.feature_type, FeatureType::Port);
    assert_eq!(burnie.location_name, Some("Burnie"));
    assert_eq!(burnie.revenue, [2, 2, 1, 1, 0, 0]);
    assert_eq!(burnie.additional_cost, 0);
    let queenstown = feature_at((3, 5)).unwrap();
    assert_eq!(queenstown.feature_type, FeatureType::Town);
    assert_eq!(queenstown.revenue, [2; 6]);
    let ulverstone = feature_at((2, 6)).unwrap();
    assert_eq!(ulverstone.revenue, [2, 2, 1, 1, 1, 1]);
    // water lies where the town of Hobart would be
    let water = feature_at((10, 9)).unwrap();
    assert_eq!(water.feature_type, FeatureType::Water1);
    assert_eq!(water.location_name, None);
    assert_eq!(water.additional_cost, 1);
    assert_eq!(water.revenue, [0; 6]);
    assert_eq!(feature_at((8, 5)).unwrap().additional_cost, 3);
    assert_eq!(feature_at((8, 5)).unwrap().feature_type, FeatureType::Water2);
    assert_eq!(feature_at((1, 1)), None);
    let mut features = 0;
    for y in 0..13 {
        for x in 0..14 {
            if feature_at((x, y)).is_some() {
                features += 1;
            }
        }
    }
    assert_eq!(features, 6 + 12);
}

#[test]
fn building_costs_the_ground_and_the_water() {
    let track = initial_track();
    // plain with water to cross
    assert_eq!(owned_cost(&track, (8, 3), None), 3 + 1);
    // a port with two pieces of track already
    assert_eq!(count_track_at(&track, (9, 4)), 2);
    assert_eq!(owned_cost(&track, (9, 4), None), 3 * 5);
    assert_eq!(owned_cost(&track, (9, 4), Some(0)), 5);
    // mountain
    assert_eq!(owned_cost(&track, (3, 4), None), 6);
    assert_eq!(narrow_cost((3, 4)), 2);
}

#[test]
fn a_public_company_builds_next_to_its_track() {
    let track = initial_track();
    assert_eq!(
        possible_owned_track(&track, Company::LW, 20),
        vec![(9, 3), (10, 3), (10, 4), (9, 5), (8, 4), (8, 3)]
    );
    // with three in hand only plain without water can be paid
    assert_eq!(
        possible_owned_track(&track, Company::LW, 3),
        vec![(9, 3), (10, 3), (10, 4), (9, 5)]
    );
    assert!(possible_owned_track(&track, Company::LW, 2).is_empty());
    // a company without track builds nowhere
    assert!(possible_owned_track(&track, Company::GT, 100).is_empty());
    // around Queenstown lie mountains, a forest and a port; the forest with
    // the narrow track cannot be shared
    let around_queenstown = possible_owned_track(&track, Company::EBRC, 5);
    assert_eq!(around_queenstown, vec![(3, 6), (2, 5)]);
    assert_eq!(possible_owned_track(&track, Company::EBRC, 4), vec![(3, 6)]);
    assert_eq!(possible_owned_track(&track, Company::EBRC, 6).len(), 5);
}

#[test]
fn narrow_track_grows_from_the_seat() {
    let mut track = initial_track();
    let hq = starting_place(Company::GT);
    assert_eq!(
        possible_narrow_track(&track, hq, 2),
        vec![(2, 3), (2, 5), (3, 4), (3, 5)]
    );
    // without the money only places with track are left
    assert_eq!(possible_narrow_track(&track, hq, 1), vec![(3, 5)]);
    assert!(possible_narrow_track(&track, None, 10).is_empty());
    track.push(Track {
        location: (3, 4),
        track_type: TrackType::Narrow,
    });
    let places = possible_narrow_track(&track, hq, 2);
    assert!(places.contains(&(4, 4)));
    assert!(places.contains(&(2, 4)));
    let mut sorted = places.clone();
    sorted.sort();
    sorted.dedup();
    assert_eq!(places, sorted);
}

#[test]
fn revenue_is_what_the_track_earns_less_the_interest() {
    let mut track = initial_track();
    let no_bonds: Vec<BondDetails> = vec![];
    // Launceston earns three early on, one later, then nothing
    assert_eq!(net_revenue(&track, Company::LW, 0, &no_bonds), 3);
    assert_eq!(net_revenue(&track, Company::LW, 2, &no_bonds), 1);
    assert_eq!(net_revenue(&track, Company::LW, 5, &no_bonds), 0);
    // Queenstown earns two throughout
    assert_eq!(net_revenue(&track, Company::EBRC, 5, &no_bonds), 2);
    // forest earns one at the first four dividends
    track.push(Track {
        location: (8, 4),
        track_type: TrackType::CompanyOwned(Company::LW),
    });
    assert_eq!(net_revenue(&track, Company::LW, 0, &no_bonds), 4);
    assert_eq!(net_revenue(&track, Company::LW, 4, &no_bonds), 0);
    let bonds = vec![
        BondDetails {
            bond: Bond { face_value: 10, coupon: 3 },
            deferred: false,
        },
        BondDetails {
            bond: Bond { face_value: 15, coupon: 5 },
            deferred: true,
        },
    ];
    assert_eq!(net_revenue(&track, Company::LW, 0, &bonds), 4 - 3);
    assert_eq!(net_revenue(&track, Company::LW, 4, &bonds), -3);
    assert_eq!(net_revenue(&track, Company::GT, 0, &bonds), -3);
}

#[test]
fn the_least_bid_is_the_revenue_per_share_rounded_up() {
    assert_eq!(min_bid(10, 2), 4);
    assert_eq!(min_bid(9, 2), 3);
    assert_eq!(min_bid(1, 4), 1);
    assert_eq!(min_bid(0, 0), 1);
    assert_eq!(min_bid(-7, 1), 1);
    assert_eq!(min_bid(7, 0), 7);
}

#[test]
fn the_richest_wins_and_the_poorest_loses() {
    assert_eq!(reward_by_cash(&vec![5, 9, 2], false), vec![0, 0, 0]);
    assert_eq!(
        reward_by_cash(&vec![5, 9, 2], true),
        vec![0, 1_000_000, -1_000_000]
    );
    // of equals the first is the richest and the last the poorest
    assert_eq!(
        reward_by_cash(&vec![4, 4, 4], true),
        vec![1_000_000, 0, -1_000_000]
    );
    assert_eq!(reward_by_cash(&vec![-3], true), vec![1_000_000]);
    assert_eq!(
        reward_by_cash(&vec![7, -1], true),
        vec![1_000_000, -1_000_000]
    );
}

#[test]
fn action_cubes_move_between_the_spaces() {
    let cubes = initial_cubes();
    assert_eq!(
        cubes,
        [false, false, false, false, false, true, true, true, false, false, true]
    );
    assert_eq!(cube_space(0), ChoosableAction::BuildTrack);
    assert_eq!(cube_space(4), ChoosableAction::AuctionShare);
    assert_eq!(cube_space(7), ChoosableAction::TakeResources);
    assert_eq!(cube_space(8), ChoosableAction::IssueBond);
    assert_eq!(cube_space(9), ChoosableAction::Merge);
    assert_eq!(cube_space(10), ChoosableAction::PayDividend);
    assert_eq!(find_space(&cubes, ChoosableAction::TakeResources, true), Some(5));
    assert_eq!(find_space(&cubes, ChoosableAction::TakeResources, false), None);
    assert_eq!(find_space(&cubes, ChoosableAction::BuildTrack, false), Some(0));
    assert_eq!(find_space(&cubes, ChoosableAction::BuildTrack, true), None);

    let moved = move_cube(cubes, ChoosableAction::TakeResources, ChoosableAction::BuildTrack).unwrap();
    assert_eq!(
        moved,
        [true, false, false, false, false, false, true, true, false, false, true]
    );
    // no cube lies on a space to build track
    assert_eq!(
        move_cube(cubes, ChoosableAction::BuildTrack, ChoosableAction::Merge),
        None
    );
    // the only space to pay a dividend is free once its cube is taken up
    assert_eq!(
        move_cube(cubes, ChoosableAction::PayDividend, ChoosableAction::PayDividend),
        Some(cubes)
    );
    // a space that is taken stays taken
    let full = move_cube(moved, ChoosableAction::TakeResources, ChoosableAction::IssueBond).unwrap();
    assert_eq!(
        move_cube(full, ChoosableAction::BuildTrack, ChoosableAction::IssueBond),
        None
    );
}
