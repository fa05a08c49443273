use vstd::prelude::*;


verus! {

/// A place on the map: column and row.
pub type Coordinate = (usize, usize);

/// The six places around a place. The map is made of hexagons with pointy
/// sides: the places of a row lie by turns higher and lower,
///
/// 1,1        3,1        5,1
///      2,1        4,1
/// 1,2        3,2        5,2
///      2,2        4,2
///
/// so that the neighbours of a place depend on whether its column is odd.
/// They are listed clockwise from the place above. The edge of the map is
/// not taken into account.
pub fn get_neighbors(coord: Coordinate) -> (neighbors: Vec<Coordinate>)
    requires
        1 <= coord.0 < usize::MAX,
        1 <= coord.1 < usize::MAX,
    ensures
        neighbors@ == around(coord),
{
    let (x, y) = coord;
    let neighbors = if x % 2 == 1 {
        vec![(x, y - 1), (x + 1, y - 1), (x + 1, y), (x, y + 1), (x - 1, y), (x - 1, y - 1)]
    } else {
        vec![(x, y - 1), (x + 1, y), (x + 1, y + 1), (x, y + 1), (x - 1, y + 1), (x - 1, y)]
    };
    assert(neighbors@ =~= around(coord));
    neighbors
}

/// The six places around a place, clockwise from the place above.
pub open spec fn around(coord: Coordinate) -> Seq<Coordinate> {
    let (x, y) = coord;
    if x % 2 == 1 {
        seq![
            (x, (y - 1) as usize),
            ((x + 1) as usize, (y - 1) as usize),
            ((x + 1) as usize, y),
            (x, (y + 1) as usize),
            ((x - 1) as usize, y),
            ((x - 1) as usize, (y - 1) as usize),
        ]
    } else {
        seq![
            (x, (y - 1) as usize),
            ((x + 1) as usize, y),
            ((x + 1) as usize, (y + 1) as usize),
            (x, (y + 1) as usize),
            ((x - 1) as usize, (y + 1) as usize),
            ((x - 1) as usize, y),
        ]
    }
}

/// Whether a place has neighbours: it does not lie on the rim of the grid.
pub open spec fn inner(place: Coordinate) -> bool {
    1 <= place.0 < usize::MAX && 1 <= place.1 < usize::MAX
}

/// Whether `to` is one of the six places around `from`.
pub open spec fn next_to(from: Coordinate, to: Coordinate) -> bool {
    around(from).contains(to)
}

/// The kinds of ground on the map.
#[derive(Debug, Clone, Copy, PartialEq, Eq, Structural, Hash)]
pub enum Terrain {
    Nothing,
    Plain,
    Forest,
    Mountain,
    Town,
    Port,
}

/// What holds of a kind of ground wherever it lies.
#[derive(Debug, Clone, Copy, PartialEq)]
pub struct CommonAttributes {
    pub build_cost: u32,
    pub symbol: Option<&'static str>,
    pub buildable: bool,
    pub multiple_allowed: bool,
    /// What track on the ground earns, for each of the six dividends.
    pub revenue: [isize; 6],
}

/// The cost of building on a kind of ground.
pub open spec fn build_cost_of(terrain: Terrain) -> u32 {
    match terrain {
        Terrain::Nothing => 0,
        Terrain::Plain => 3,
        Terrain::Forest => 4,
        Terrain::Mountain => 6,
        Terrain::Town => 4,
        Terrain::Port => 5,
    }
}

/// Whether more than one company may build on a kind of ground.
pub open spec fn shared(terrain: Terrain) -> bool {
    terrain is Plain || terrain is Town || terrain is Port
}

/// What track on a kind of ground earns at a dividend: forest earns one at
/// each of the first four, all else nothing.
pub open spec fn earnings_of(terrain: Terrain, dividend: int) -> int {
    if terrain is Forest && dividend < 4 {
        1
    } else {
        0
    }
}

impl Terrain {
    /// What holds of the kind of ground: on all but `Nothing` track can be
    /// built, at a cost that rises from plain over forest and town and port
    /// to mountain.
    pub fn attributes(&self) -> (attributes: CommonAttributes)
        ensures
            attributes.build_cost == build_cost_of(*self),
            attributes.buildable == !(*self is Nothing),
            attributes.multiple_allowed == shared(*self),
            attributes.symbol is None == (*self is Nothing),
            forall|dividend: int|
                0 <= dividend < 6 ==> #[trigger] attributes.revenue@[dividend] == earnings_of(*self, dividend),
    {
        match self {
            Terrain::Nothing => CommonAttributes {
                build_cost: 0,
                symbol: None,
                buildable: false,
                multiple_allowed: false,
                revenue: [0, 0, 0, 0, 0, 0],
            },
            Terrain::Plain => CommonAttributes {
                build_cost: 3,
                symbol: Some("\u{1B}[37m-"),
                buildable: true,
                multiple_allowed: true,
                revenue: [0, 0, 0, 0, 0, 0],
            },
            Terrain::Forest => CommonAttributes {
                build_cost: 4,
                symbol: Some("\u{1B}[32m="),
                buildable: true,
                multiple_allowed: false,
                revenue: [1, 1, 1, 1, 0, 0],
            },
            Terrain::Mountain => CommonAttributes {
                build_cost: 6,
                symbol: Some("\u{1B}[32m^"),
                multiple_allowed: false,
                buildable: true,
                revenue: [0, 0, 0, 0, 0, 0],
            },
            Terrain::Town => CommonAttributes {
                build_cost: 4,
                symbol: Some("\u{1B}[33mT"),
                buildable: true,
                multiple_allowed: true,
                revenue: [0, 0, 0, 0, 0, 0],
            },
            Terrain::Port => CommonAttributes {
                build_cost: 5,
                symbol: Some("\u{1B}[31mP"),
                buildable: true,
                multiple_allowed: true,
                revenue: [0, 0, 0, 0, 0, 0],
            },
        }
    }
}

pub const HEIGHT: usize = 13;

pub const WIDTH: usize = 14;

/// A row of the map, from the top.
pub open spec fn map_row(y: int) -> Seq<Terrain> {
    let n = Terrain::Nothing;
    let p = Terrain::Plain;
    let f = Terrain::Forest;
    let m = Terrain::Mountain;
    let t = Terrain::Town;
    let r = Terrain::Port;
    if y == 1 {
        seq![n, p, f, p, p, n, n, n, n, n, n, n, p, n]
    } else if y == 2 {
        seq![n, f, f, f, p, r, t, n, p, n, f, f, f, m]
    } else if y == 3 {
        seq![n, f, f, m, p, p, p, r, p, p, p, f, f, f]
    } else if y == 4 {
        seq![n, n, f, m, m, f, f, p, f, r, p, f, f, f]
    } else if y == 5 {
        seq![n, n, r, t, m, m, m, f, p, p, p, p, f, f]
    } else if y == 6 {
        seq![n, n, n, f, m, m, m, f, p, p, p, p, f, f]
    } else if y == 7 {
        seq![n, n, n, m, m, m, m, f, p, p, p, p, p, n]
    } else if y == 8 {
        seq![n, n, n, f, f, m, m, f, p, p, p, p, p, n]
    } else if y == 9 {
        seq![n, n, n, n, f, f, m, f, f, t, r, p, p, n]
    } else if y == 10 {
        seq![n, n, n, n, n, f, m, f, f, f, n, n, n, n]
    } else if y == 11 {
        seq![n, n, n, n, n, f, f, f, f, f, n, n, n, n]
    } else if y == 12 {
        seq![n, n, n, n, n, n, n, f, n, n, n, n, n, n]
    } else {
        seq![n, n, n, n, n, n, n, n, n, n, n, n, n, n]
    }
}

/// A row of the map, from the top.
fn row(y: usize) -> (row: [Terrain; 14])
    requires
        y < 13,
    ensures
        row@ == map_row(y as int),
{
    let n = Terrain::Nothing;
    let p = Terrain::Plain;
    let f = Terrain::Forest;
    let m = Terrain::Mountain;
    let t = Terrain::Town;
    let r = Terrain::Port;
    let row = if y == 1 {
        [n, p, f, p, p, n, n, n, n, n, n, n, p, n]
    } else if y == 2 {
        [n, f, f, f, p, r, t, n, p, n, f, f, f, m]
    } else if y == 3 {
        [n, f, f, m, p, p, p, r, p, p, p, f, f, f]
    } else if y == 4 {
        [n, n, f, m, m, f, f, p, f, r, p, f, f, f]
    } else if y == 5 {
        [n, n, r, t, m, m, m, f, p, p, p, p, f, f]
    } else if y == 6 {
        [n, n, n, f, m, m, m, f, p, p, p, p, f, f]
    } else if y == 7 {
        [n, n, n, m, m, m, m, f, p, p, p, p, p, n]
    } else if y == 8 {
        [n, n, n, f, f, m, m, f, p, p, p, p, p, n]
    } else if y == 9 {
        [n, n, n, n, f, f, m, f, f, t, r, p, p, n]
    } else if y == 10 {
        [n, n, n, n, n, f, m, f, f, f, n, n, n, n]
    } else if y == 11 {
        [n, n, n, n, n, f, f, f, f, f, n, n, n, n]
    } else if y == 12 {
        [n, n, n, n, n, n, n, f, n, n, n, n, n, n]
    } else {
        [n, n, n, n, n, n, n, n, n, n, n, n, n, n]
    };
    assert(row@ =~= map_row(y as int));
    row
}

/// The ground at a place of the map.
pub fn terrain_at(coord: Coordinate) -> (terrain: Terrain)
    requires
        coord.0 < WIDTH,
        coord.1 < HEIGHT,
    ensures
        terrain == map_row(coord.1 as int)[coord.0 as int],
{
    row(coord.1)[coord.0]
}

/// The places on forest or mountain below row `rows`, row by row: where a
/// private company can start.
pub open spec fn starts_below(rows: int) -> Seq<Coordinate>
    decreases rows,
{
    if rows <= 0 {
        Seq::empty()
    } else {
        starts_below(rows - 1) + starts_in_row(rows - 1, 14)
    }
}

/// The places on forest or mountain among the first `columns` of a row.
pub open spec fn starts_in_row(y: int, columns: int) -> Seq<Coordinate>
    decreases columns,
{
    if columns <= 0 {
        Seq::empty()
    } else if map_row(y)[columns - 1] is Mountain || map_row(y)[columns - 1] is Forest {
        starts_in_row(y, columns - 1).push(((columns - 1) as usize, y as usize))
    } else {
        starts_in_row(y, columns - 1)
    }
}

/// Privates can start anywhere on a Forest or Mountain: all such places of
/// the map, row by row.
pub fn private_starting_locations() -> (locations: Vec<Coordinate>)
    ensures
        locations@ == starts_below(13),
{
    let mut locations: Vec<Coordinate> = Vec::new();
    let mut y: usize = 0;
    while y < HEIGHT
        invariant
            y <= 13,
            locations@ == starts_below(y as int),
        decreases 13 - y,
    {
        let ghost above = locations@;
        let mut x: usize = 0;
        while x < WIDTH
            invariant
                x <= 14,
                y < 13,
                locations@ == above + starts_in_row(y as int, x as int),
            decreases 14 - x,
        {
            let cell = terrain_at((x, y));
            match cell {
                Terrain::Mountain => {
                    locations.push((x, y));
                },
                Terrain::Forest => {
                    locations.push((x, y));
                },
                _ => {},
            }
            proof {
                assert(locations@ =~= above + starts_in_row(y as int, x + 1));
            }
            x += 1;
        }
        y += 1;
    }
    locations
}

/// The neighbours of a place that lie on the map.
pub fn neighbors_on_map(coord: Coordinate) -> (neighbors: Vec<Coordinate>)
    requires
        1 <= coord.0 < usize::MAX,
        1 <= coord.1 < usize::MAX,
    ensures
        neighbors@ == on_map(around(coord), 6),
{
    let all = get_neighbors(coord);
    let mut neighbors: Vec<Coordinate> = Vec::new();
    let mut i: usize = 0;
    while i < all.len()
        invariant
            i <= all.len(),
            all@ == around(coord),
            all@.len() == 6,
            neighbors@ == on_map(all@, i as int),
        decreases all.len() - i,
    {
        if all[i].0 < WIDTH && all[i].1 < HEIGHT {
            neighbors.push(all[i]);
        }
        i += 1;
    }
    neighbors
}

/// Those of the first `n` places that lie on the map.
pub open spec fn on_map(places: Seq<Coordinate>, n: int) -> Seq<Coordinate>
    decreases n,
{
    if n <= 0 {
        Seq::empty()
    } else if places[n - 1].0 < WIDTH && places[n - 1].1 < HEIGHT {
        on_map(places, n - 1).push(places[n - 1])
    } else {
        on_map(places, n - 1)
    }
}

pub const WATER_1_COST: usize = 1;

pub const WATER_2_COST: usize = 3;

pub const NARROW_TRACK_COST: usize = 2;

/// What stands or flows at a place of the map.
#[derive(Debug, Clone, Copy, PartialEq, Eq, Structural, Hash)]
pub enum FeatureType {
    Port,
    Town,
    Water1,
    Water2,
}

/// What a place of the map holds besides its ground.
#[derive(Debug, Clone, Copy, PartialEq, Eq)]
pub struct Feature {
    pub feature_type: FeatureType,
    pub location_name: Option<&'static str>,
    /// What track at the place earns, for each of the six dividends.
    pub revenue: [isize; 6],
    pub additional_cost: usize,
}

/// The kind of feature at a place, if it has one.
pub open spec fn feature_kind(place: Coordinate) -> Option<FeatureType> {
    let (x, y) = place;
    if (x == 2 && y == 5) || (x == 7 && y == 3) || (x == 9 && y == 4) {
        Some(FeatureType::Port)
    } else if (x == 9 && y == 9) || (x == 2 && y == 6) || (x == 3 && y == 5) {
        Some(FeatureType::Town)
    } else if (x == 8 && y == 2) || (x == 8 && y == 3) || (x == 9 && y == 6) || (x == 4 && y == 7) || (x == 6
        && y == 8) || (x == 6 && y == 9) || (x == 10 && y == 9) || (x == 6 && y == 11) {
        Some(FeatureType::Water1)
    } else if (x == 8 && y == 5) || (x == 3 && y == 7) || (x == 5 && y == 11) || (x == 9 && y == 11) {
        Some(FeatureType::Water2)
    } else {
        None
    }
}

/// What building at a place costs on top of the ground: what the water there
/// takes to cross, nothing elsewhere.
pub open spec fn crossing_cost(place: Coordinate) -> int {
    match feature_kind(place) {
        Some(FeatureType::Water1) => 1,
        Some(FeatureType::Water2) => 3,
        _ => 0,
    }
}

/// What the feature at a place earns at a dividend: ports and towns earn by
/// their size, early dividends more than late ones; water earns nothing.
pub open spec fn feature_earnings(place: Coordinate, dividend: int) -> int {
    let (x, y) = place;
    if (x == 9 && y == 9) || (x == 3 && y == 5) {
        2
    } else if x == 2 && y == 5 {
        if dividend < 2 {
            2
        } else if dividend < 4 {
            1
        } else {
            0
        }
    } else if x == 2 && y == 6 {
        if dividend < 2 {
            2
        } else {
            1
        }
    } else if (x == 7 && y == 3) || (x == 9 && y == 4) {
        if dividend < 2 {
            3
        } else if dividend < 4 {
            1
        } else {
            0
        }
    } else {
        0
    }
}

/// A stretch of water at a place.
fn water(feature_type: FeatureType, cost: usize) -> (feature: Feature)
    ensures
        feature.feature_type == feature_type,
        feature.additional_cost == cost,
        feature.location_name is None,
        forall|dividend: int| 0 <= dividend < 6 ==> #[trigger] feature.revenue@[dividend] == 0,
{
    Feature { feature_type, location_name: None, revenue: [0, 0, 0, 0, 0, 0], additional_cost: cost }
}

/// A port or a town at a place.
fn settlement(feature_type: FeatureType, name: &'static str, revenue: [isize; 6]) -> (feature: Feature)
    ensures
        feature.feature_type == feature_type,
        feature.additional_cost == 0,
        feature.location_name == Some(name),
        feature.revenue == revenue,
{
    Feature { feature_type, location_name: Some(name), revenue, additional_cost: 0 }
}

/// The feature at a place of the map, if it has one: a port, a town, or
/// water that costs extra to build across.
pub fn feature_at(place: Coordinate) -> (feature: Option<Feature>)
    ensures
        feature is Some == feature_kind(place) is Some,
        feature matches Some(found) ==> {
            &&& Some(found.feature_type) == feature_kind(place)
            &&& found.additional_cost == crossing_cost(place)
            &&& forall|dividend: int|
                0 <= dividend < 6 ==> #[trigger] found.revenue@[dividend] == feature_earnings(place, dividend)
        },
{
    let (x, y) = place;
    if x == 2 && y == 5 {
        Some(settlement(FeatureType::Port, "Burnie", [2, 2, 1, 1, 0, 0]))
    } else if x == 9 && y == 9 {
        Some(settlement(FeatureType::Town, "New Norfolk", [2, 2, 2, 2, 2, 2]))
    } else if x == 2 && y == 6 {
        Some(settlement(FeatureType::Town, "Ulverstone", [2, 2, 1, 1, 1, 1]))
    } else if x == 7 && y == 3 {
        Some(settlement(FeatureType::Port, "Devonport", [3, 3, 1, 1, 0, 0]))
    } else if x == 9 && y == 4 {
        Some(settlement(FeatureType::Port, "Launceston", [3, 3, 1, 1, 0, 0]))
    } else if x == 3 && y == 5 {
        Some(settlement(FeatureType::Town, "Queenstown", [2, 2, 2, 2, 2, 2]))
    } else if (x == 8 && y == 2) || (x == 8 && y == 3) || (x == 9 && y == 6) || (x == 4 && y == 7) || (x == 6
        && y == 8) || (x == 6 && y == 9) || (x == 10 && y == 9) || (x == 6 && y == 11) {
        Some(water(FeatureType::Water1, WATER_1_COST))
    } else if (x == 8 && y == 5) || (x == 3 && y == 7) || (x == 5 && y == 11) || (x == 9 && y == 11) {
        Some(water(FeatureType::Water2, WATER_2_COST))
    } else {
        None
    }
}

} // verus!
