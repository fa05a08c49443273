//! Parts of a railway game on a map of hexagons: the map, the track on it,
//! where track can be built, what companies earn, and the action cubes.

pub mod building;
pub mod cubes;
pub mod finance;
pub mod map;
pub mod track;

pub use building::{
    count_track_at, narrow_cost, owned_cost, possible_narrow_track, possible_owned_track,
};
pub use cubes::{cube_space, find_space, initial_cubes, move_cube, ChoosableAction};
pub use finance::{div_ceil, min_bid, net_revenue, reward_by_cash, Bond, BondDetails};
pub use map::{
    feature_at, get_neighbors, neighbors_on_map, private_starting_locations, terrain_at,
    CommonAttributes, Coordinate, Feature, FeatureType, Terrain, HEIGHT, NARROW_TRACK_COST,
    WATER_1_COST, WATER_2_COST, WIDTH,
};
pub use track::{
    connected_majors, connected_to, has_port, has_town, initial_track, is_private,
    reachable_narrow_track, starting_place, track_at, Company, Track, TrackType,
};
