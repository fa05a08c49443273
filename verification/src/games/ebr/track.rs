use vstd::prelude::*;

use super::map::{around, get_neighbors, inner, map_row, next_to, terrain_at, Coordinate, Terrain, HEIGHT, WIDTH};

verus! {

/// The companies of the game: three public ones and four private ones.
#[derive(Debug, Clone, Copy, PartialEq, Eq, Structural, Hash, PartialOrd, Ord)]
pub enum Company {
    EBRC,
    LW,
    TMLC,
    GT,
    NMFT,
    NED,
    MLM,
}

/// What a piece of track is: the standard gauge of a public company, or the
/// narrow gauge that the private companies share.
#[derive(Debug, Clone, Copy, PartialEq, Eq, Structural)]
pub enum TrackType {
    CompanyOwned(Company),
    Narrow,
}

/// A piece of track on the map.
#[derive(Debug, Clone, Copy, PartialEq, Eq)]
pub struct Track {
    pub location: Coordinate,
    pub track_type: TrackType,
}

/// Whether a company is private.
pub fn is_private(company: Company) -> (private: bool)
    ensures
        private == (company is GT || company is NMFT || company is NED || company is MLM),
{
    match company {
        Company::EBRC => false,
        Company::LW => false,
        Company::TMLC => false,
        _ => true,
    }
}

/// Where a company starts, if the place is fixed.
pub fn starting_place(company: Company) -> (place: Option<Coordinate>)
    ensures
        place == (match company {
            Company::EBRC => Some((3usize, 5usize)),
            Company::LW => Some((9usize, 4usize)),
            Company::TMLC => Some((9usize, 4usize)),
            Company::GT => Some((2usize, 4usize)),
            _ => None,
        }),
{
    match company {
        Company::EBRC => Some((3, 5)),
        Company::LW => Some((9, 4)),
        Company::TMLC => Some((9, 4)),
        Company::GT => Some((2, 4)),
        _ => None,
    }
}

/// The track that lies on the map when the game starts.
pub fn initial_track() -> (track: Vec<Track>)
    ensures
        track@ == seq![
            Track { location: (9usize, 4usize), track_type: TrackType::CompanyOwned(Company::LW) },
            Track { location: (9usize, 4usize), track_type: TrackType::CompanyOwned(Company::TMLC) },
            Track { location: (3usize, 5usize), track_type: TrackType::CompanyOwned(Company::EBRC) },
            Track { location: (2usize, 4usize), track_type: TrackType::Narrow },
        ],
{
    let track = vec![
        Track { location: (9, 4), track_type: TrackType::CompanyOwned(Company::LW) },
        Track { location: (9, 4), track_type: TrackType::CompanyOwned(Company::TMLC) },
        Track { location: (3, 5), track_type: TrackType::CompanyOwned(Company::EBRC) },
        Track { location: (2, 4), track_type: TrackType::Narrow },
    ];
    assert(track@ =~= seq![
        Track { location: (9usize, 4usize), track_type: TrackType::CompanyOwned(Company::LW) },
        Track { location: (9usize, 4usize), track_type: TrackType::CompanyOwned(Company::TMLC) },
        Track { location: (3usize, 5usize), track_type: TrackType::CompanyOwned(Company::EBRC) },
        Track { location: (2usize, 4usize), track_type: TrackType::Narrow },
    ]);
    track
}

/// Whether track of a kind lies at a place.
pub open spec fn lies_at(track: Seq<Track>, place: Coordinate, kind: TrackType) -> bool {
    exists|i: int| 0 <= i < track.len() && #[trigger] track[i] == (Track { location: place, track_type: kind })
}

/// Whether track of a kind lies at a place.
pub fn track_at(track: &Vec<Track>, place: Coordinate, kind: TrackType) -> (found: bool)
    ensures
        found == lies_at(track@, place, kind),
{
    let mut i: usize = 0;
    while i < track.len()
        invariant
            i <= track.len(),
            forall|j: int| 0 <= j < i ==> #[trigger] track@[j] != (Track { location: place, track_type: kind }),
        decreases track.len() - i,
    {
        if track[i].location.0 == place.0 && track[i].location.1 == place.1 && track[i].track_type == kind {
            return true;
        }
        i += 1;
    }
    false
}

/// Whether a company has track on a kind of ground.
pub open spec fn built_on(track: Seq<Track>, company: Company, terrain: Terrain) -> bool {
    exists|i: int|
        0 <= i < track.len() && (#[trigger] track[i]).track_type == TrackType::CompanyOwned(company)
            && track[i].location.0 < WIDTH && track[i].location.1 < HEIGHT && map_row(
            track[i].location.1 as int,
        )[track[i].location.0 as int] == terrain
}

/// Whether a company has track on a kind of ground.
fn has_track_on(track: &Vec<Track>, company: Company, terrain: Terrain) -> (found: bool)
    ensures
        found == built_on(track@, company, terrain),
{
    let mut i: usize = 0;
    while i < track.len()
        invariant
            i <= track.len(),
            forall|j: int|
                0 <= j < i ==> !((#[trigger] track@[j]).track_type == TrackType::CompanyOwned(company)
                    && track@[j].location.0 < WIDTH && track@[j].location.1 < HEIGHT && map_row(
                    track@[j].location.1 as int,
                )[track@[j].location.0 as int] == terrain),
        decreases track.len() - i,
    {
        let piece = track[i];
        if piece.track_type == TrackType::CompanyOwned(company) && piece.location.0 < WIDTH
            && piece.location.1 < HEIGHT {
            if terrain_at(piece.location) == terrain {
                return true;
            }
        }
        i += 1;
    }
    false
}

/// Whether a company has track in a port.
pub fn has_port(track: &Vec<Track>, company: Company) -> (found: bool)
    ensures
        found == built_on(track@, company, Terrain::Port),
{
    has_track_on(track, company, Terrain::Port)
}

/// Whether a company has track in a town.
pub fn has_town(track: &Vec<Track>, company: Company) -> (found: bool)
    ensures
        found == built_on(track@, company, Terrain::Town),
{
    has_track_on(track, company, Terrain::Town)
}

/// Whether `route` leads from `start` over narrow track, step by step from a
/// place to one of its neighbours.
pub open spec fn is_route(track: Seq<Track>, start: Coordinate, route: Seq<Coordinate>) -> bool {
    &&& route.len() > 0
    &&& route[0] == start
    &&& forall|k: int|
        0 < k < route.len() ==> next_to(route[k - 1], #[trigger] route[k]) && lies_at(
            track,
            route[k],
            TrackType::Narrow,
        )
}

/// Whether a place can be reached from `start` over narrow track.
pub open spec fn reachable(track: Seq<Track>, start: Coordinate, place: Coordinate) -> bool {
    exists|route: Seq<Coordinate>| #[trigger] is_route(track, start, route) && route.last() == place
}

/// Whether all narrow track lies off the rim of the grid.
pub open spec fn narrow_off_rim(track: Seq<Track>) -> bool {
    forall|i: int| 0 <= i < track.len() && (#[trigger] track[i]).track_type is Narrow ==> inner(track[i].location)
}

/// Whether one place is among the six around another.
fn is_next_to(from: Coordinate, to: Coordinate) -> (near: bool)
    requires
        inner(from),
    ensures
        near == next_to(from, to),
{
    let neighbors = get_neighbors(from);
    let mut i: usize = 0;
    while i < neighbors.len()
        invariant
            i <= neighbors.len(),
            neighbors@ == around(from),
            forall|j: int| 0 <= j < i ==> neighbors@[j] != to,
        decreases neighbors.len() - i,
    {
        if neighbors[i].0 == to.0 && neighbors[i].1 == to.1 {
            return true;
        }
        i += 1;
    }
    false
}

/// Whether a place is in a list.
pub fn listed(places: &Vec<Coordinate>, place: Coordinate) -> (found: bool)
    ensures
        found == places@.contains(place),
{
    let mut i: usize = 0;
    while i < places.len()
        invariant
            i <= places.len(),
            forall|j: int| 0 <= j < i ==> places@[j] != place,
        decreases places.len() - i,
    {
        if places[i].0 == place.0 && places[i].1 == place.1 {
            return true;
        }
        i += 1;
    }
    false
}

/// Whether a place is next to one of a list.
fn touches(places: &Vec<Coordinate>, place: Coordinate) -> (near: bool)
    requires
        forall|j: int| 0 <= j < places@.len() ==> inner(#[trigger] places@[j]),
    ensures
        near == exists|j: int| 0 <= j < places@.len() && next_to(#[trigger] places@[j], place),
{
    let mut i: usize = 0;
    while i < places.len()
        invariant
            i <= places.len(),
            forall|j: int| 0 <= j < places@.len() ==> inner(#[trigger] places@[j]),
            forall|j: int| 0 <= j < i ==> !next_to(#[trigger] places@[j], place),
        decreases places.len() - i,
    {
        if is_next_to(places[i], place) {
            return true;
        }
        i += 1;
    }
    false
}

/// The number of flags among the first `n` that are not set.
pub open spec fn unset(flags: Seq<bool>, n: int) -> int
    decreases n,
{
    if n <= 0 {
        0
    } else {
        unset(flags, n - 1) + (if flags[n - 1] {
            0int
        } else {
            1int
        })
    }
}

/// The number of flags that are not set among the first depends on those
/// flags only.
pub proof fn lemma_unset_same(a: Seq<bool>, b: Seq<bool>, n: int)
    requires
        n <= a.len(),
        n <= b.len(),
        forall|i: int| 0 <= i < n ==> a[i] == b[i],
    ensures
        unset(a, n) == unset(b, n),
    decreases n,
{
    if n > 0 {
        lemma_unset_same(a, b, n - 1);
    }
}

/// The number of flags that are not set is not negative.
pub proof fn lemma_unset_positive(flags: Seq<bool>, n: int)
    ensures
        unset(flags, n) >= 0,
    decreases n,
{
    if n > 0 {
        lemma_unset_positive(flags, n - 1);
    }
}

/// Setting a flag that was not set leaves one flag less that is not set.
pub proof fn lemma_unset_update(flags: Seq<bool>, n: int, at: int)
    requires
        0 <= at < flags.len(),
        0 <= n <= flags.len(),
        !flags[at],
    ensures
        unset(flags.update(at, true), n) == unset(flags, n) - (if at < n {
            1int
        } else {
            0int
        }),
        unset(flags, n) >= 0,
    decreases n,
{
    if n > 0 {
        lemma_unset_update(flags, n - 1, at);
    }
}

/// Where no narrow track next to a found place is left out, every place that
/// a route leads to is found.
pub proof fn lemma_all_found(
    track: Seq<Track>,
    start: Coordinate,
    found: Seq<Coordinate>,
    route: Seq<Coordinate>,
)
    requires
        found.contains(start),
        forall|i: int|
            0 <= i < track.len() && (#[trigger] track[i]).track_type is Narrow && (exists|j: int|
                0 <= j < found.len() && next_to(#[trigger] found[j], track[i].location)) ==> found.contains(
                track[i].location,
            ),
        is_route(track, start, route),
    ensures
        found.contains(route.last()),
    decreases route.len(),
{
    if route.len() > 1 {
        let shorter = route.drop_last();
        let place = route.last();
        assert forall|k: int| 0 < k < shorter.len() implies next_to(shorter[k - 1], #[trigger] shorter[k])
            && lies_at(track, shorter[k], TrackType::Narrow) by {
            assert(shorter[k] == route[k]);
            assert(shorter[k - 1] == route[k - 1]);
        }
        lemma_all_found(track, start, found, shorter);
        let via = shorter.last();
        assert(via == route[route.len() - 2]);
        assert(next_to(route[route.len() - 1 - 1], route[route.len() - 1]));
        let j = choose|j: int| 0 <= j < found.len() && found[j] == via;
        let i = choose|i: int|
            0 <= i < track.len() && #[trigger] track[i] == (Track {
                location: place,
                track_type: TrackType::Narrow,
            });
        assert(next_to(found[j], track[i].location));
    }
}

/// The places that can be reached from the seat of a company over narrow
/// track, the seat first and each place once; none where the company has no
/// seat.
pub fn reachable_narrow_track(track: &Vec<Track>, hq: Option<Coordinate>) -> (reached: Vec<Coordinate>)
    requires
        narrow_off_rim(track@),
        hq matches Some(start) ==> inner(start),
    ensures
        hq is None ==> reached@.len() == 0,
        hq matches Some(start) ==> {
            &&& reached@.no_duplicates()
            &&& reached@.len() > 0 && reached@[0] == start
            &&& forall|place: Coordinate| reached@.contains(place) <==> reachable(track@, start, place)
        },
{
    let start = match hq {
        Some(start) => start,
        None => {
            return Vec::new();
        },
    };
    let mut visited: Vec<Coordinate> = Vec::new();
    visited.push(start);
    let mut done: Vec<bool> = Vec::new();
    let mut k: usize = 0;
    while k < track.len()
        invariant
            k <= track.len(),
            done@.len() == k,
            forall|i: int| 0 <= i < k ==> !done@[i],
            unset(done@, k as int) == k,
        decreases track.len() - k,
    {
        let ghost before = done@;
        done.push(false);
        proof {
            lemma_unset_same(done@, before, k as int);
        }
        k += 1;
    }
    let mut left: usize = track.len();
    proof {
        assert(is_route(track@, start, seq![start]));
        assert(seq![start].last() == start);
    }
    loop
        invariant
            narrow_off_rim(track@),
            inner(start),
            done@.len() == track@.len(),
            visited@.len() > 0,
            visited@[0] == start,
            visited@.no_duplicates(),
            forall|j: int| 0 <= j < visited@.len() ==> inner(#[trigger] visited@[j]),
            forall|j: int| 0 <= j < visited@.len() ==> reachable(track@, start, #[trigger] visited@[j]),
            forall|i: int|
                0 <= i < track@.len() && #[trigger] done@[i] ==> track@[i].track_type is Narrow
                    && visited@.contains(track@[i].location),
            left == unset(done@, done@.len() as int),
        ensures
            forall|i: int|
                0 <= i < track@.len() && (#[trigger] track@[i]).track_type is Narrow && (exists|j: int|
                    0 <= j < visited@.len() && next_to(#[trigger] visited@[j], track@[i].location))
                    ==> done@[i],
        decreases left,
    {
        let mut changed = false;
        let ghost at_start = left;
        let ghost seen = visited@;
        let mut i: usize = 0;
        while i < track.len()
            invariant
                i <= track.len(),
                narrow_off_rim(track@),
                inner(start),
                done@.len() == track@.len(),
                visited@.len() > 0,
                visited@[0] == start,
                visited@.no_duplicates(),
                forall|j: int| 0 <= j < visited@.len() ==> inner(#[trigger] visited@[j]),
                forall|j: int| 0 <= j < visited@.len() ==> reachable(track@, start, #[trigger] visited@[j]),
                forall|j: int|
                    0 <= j < track@.len() && #[trigger] done@[j] ==> track@[j].track_type is Narrow
                        && visited@.contains(track@[j].location),
                left == unset(done@, done@.len() as int),
                left <= at_start,
                changed ==> left < at_start,
                !changed ==> visited@ == seen,
                !changed ==> forall|j: int|
                    0 <= j < i && (#[trigger] track@[j]).track_type is Narrow && (exists|v: int|
                        0 <= v < visited@.len() && next_to(#[trigger] visited@[v], track@[j].location))
                        ==> done@[j],
            decreases track.len() - i,
        {
            let piece = track[i];
            let narrow = match piece.track_type {
                TrackType::Narrow => true,
                TrackType::CompanyOwned(_) => false,
            };
            if narrow && !done[i] && touches(&visited, piece.location) {
                proof {
                    lemma_unset_update(done@, done@.len() as int, i as int);
                    lemma_unset_positive(done@.update(i as int, true), done@.len() as int);
                    let v = choose|v: int|
                        0 <= v < visited@.len() && next_to(#[trigger] visited@[v], piece.location);
                    let route = choose|route: Seq<Coordinate>| #[trigger]
                        is_route(track@, start, route) && route.last() == visited@[v];
                    assert(lies_at(track@, piece.location, TrackType::Narrow)) by {
                        assert(track@[i as int] == (Track {
                            location: piece.location,
                            track_type: TrackType::Narrow,
                        }));
                    }
                    let longer = route.push(piece.location);
                    assert forall|k: int| 0 < k < longer.len() implies next_to(
                        longer[k - 1],
                        #[trigger] longer[k],
                    ) && lies_at(track@, longer[k], TrackType::Narrow) by {
                        if k < route.len() {
                            assert(longer[k] == route[k]);
                            assert(longer[k - 1] == route[k - 1]);
                        }
                    }
                    assert(is_route(track@, start, longer) && longer.last() == piece.location);
                    assert(reachable(track@, start, piece.location));
                }
                done[i] = true;
                left -= 1;
                if !listed(&visited, piece.location) {
                    let ghost earlier = visited@;
                    visited.push(piece.location);
                    proof {
                        assert forall|j: int|
                            0 <= j < track@.len() && #[trigger] done@[j] implies track@[j].track_type is Narrow
                            && visited@.contains(track@[j].location) by {
                            if j != i {
                                let at = choose|at: int|
                                    0 <= at < earlier.len() && earlier[at] == track@[j].location;
                                assert(visited@[at] == track@[j].location);
                            } else {
                                assert(visited@[visited@.len() - 1] == track@[j].location);
                            }
                        }
                    }
                }
                changed = true;
            }
            i += 1;
        }
        if !changed {
            break ;
        }
    }
    proof {
        assert forall|place: Coordinate| visited@.contains(place) <==> reachable(track@, start, place) by {
            if reachable(track@, start, place) {
                let route = choose|route: Seq<Coordinate>| #[trigger]
                    is_route(track@, start, route) && route.last() == place;
                assert(visited@[0] == start);
                assert forall|i: int|
                    0 <= i < track@.len() && (#[trigger] track@[i]).track_type is Narrow && (exists|j: int|
                        0 <= j < visited@.len() && next_to(
                            #[trigger] visited@[j],
                            track@[i].location,
                        )) implies visited@.contains(track@[i].location) by {
                    assert(done@[i]);
                }
                lemma_all_found(track@, start, visited@, route);
            }
        }
    }
    visited
}

/// Whether the narrow track around the seat of a private company touches
/// track of a public company: a place next to one that can be reached from
/// the seat holds track of the public company.
pub open spec fn touches_track(track: Seq<Track>, seat: Coordinate, public_co: Company) -> bool {
    exists|place: Coordinate, neighbor: Coordinate|
        #![trigger next_to(place, neighbor)]
        reachable(track, seat, place) && next_to(place, neighbor) && lies_at(
            track,
            neighbor,
            TrackType::CompanyOwned(public_co),
        )
}

/// Whether a private company with its seat at `hq` is connected to a public
/// company.
pub fn connected_to(track: &Vec<Track>, hq: Option<Coordinate>, public_co: Company) -> (connected: bool)
    requires
        narrow_off_rim(track@),
        hq matches Some(start) ==> inner(start),
    ensures
        connected == (hq matches Some(seat) && touches_track(track@, seat, public_co)),
{
    let reached = reachable_narrow_track(track, hq);
    let seat = match hq {
        Some(seat) => seat,
        None => {
            return false;
        },
    };
    let public_co_track = TrackType::CompanyOwned(public_co);
    let mut i: usize = 0;
    while i < reached.len()
        invariant
            i <= reached.len(),
            inner(seat),
            hq == Some(seat),
            narrow_off_rim(track@),
            public_co_track == TrackType::CompanyOwned(public_co),
            forall|place: Coordinate| reached@.contains(place) <==> reachable(track@, seat, place),
            forall|j: int, neighbor: Coordinate|
                0 <= j < i && #[trigger] next_to(reached@[j], neighbor) ==> !lies_at(
                    track@,
                    neighbor,
                    public_co_track,
                ),
        decreases reached.len() - i,
    {
        assert(reached@.contains(reached@[i as int]));
        proof {
            lemma_reached_inner(track@, seat, reached@[i as int]);
        }
        let neighbors = get_neighbors(reached[i]);
        let mut n: usize = 0;
        while n < neighbors.len()
            invariant
                n <= neighbors.len(),
                i < reached.len(),
                public_co_track == TrackType::CompanyOwned(public_co),
                hq == Some(seat),
                neighbors@ == around(reached@[i as int]),
                reachable(track@, seat, reached@[i as int]),
                forall|m: int| 0 <= m < n ==> !lies_at(track@, #[trigger] neighbors@[m], public_co_track),
            decreases neighbors.len() - n,
        {
            if track_at(track, neighbors[n], public_co_track) {
                assert(next_to(reached@[i as int], neighbors@[n as int]));
                assert(touches_track(track@, seat, public_co));
                return true;
            }
            n += 1;
        }
        assert forall|neighbor: Coordinate| #[trigger] next_to(reached@[i as int], neighbor) implies !lies_at(
            track@,
            neighbor,
            public_co_track,
        ) by {
            let m = choose|m: int| 0 <= m < neighbors@.len() && neighbors@[m] == neighbor;
            assert(!lies_at(track@, neighbors@[m], public_co_track));
        }
        i += 1;
    }
    proof {
        if touches_track(track@, seat, public_co) {
            let (place, neighbor) = choose|place: Coordinate, neighbor: Coordinate|
                #![trigger next_to(place, neighbor)]
                reachable(track@, seat, place) && next_to(place, neighbor) && lies_at(
                    track@,
                    neighbor,
                    TrackType::CompanyOwned(public_co),
                );
            assert(reached@.contains(place));
            let j = choose|j: int| 0 <= j < reached@.len() && reached@[j] == place;
            assert(next_to(reached@[j], neighbor));
        }
    }
    false
}

/// Every place that can be reached over narrow track that lies off the rim,
/// from a seat off the rim, lies off the rim.
pub proof fn lemma_reached_inner(track: Seq<Track>, start: Coordinate, place: Coordinate)
    requires
        narrow_off_rim(track),
        inner(start),
        reachable(track, start, place),
    ensures
        inner(place),
{
    let route = choose|route: Seq<Coordinate>| #[trigger] is_route(track, start, route) && route.last() == place;
    if route.len() > 1 {
        let i = choose|i: int|
            0 <= i < track.len() && #[trigger] track[i] == (Track {
                location: route[route.len() - 1],
                track_type: TrackType::Narrow,
            });
        assert(track[i].track_type is Narrow);
    }
}

/// The public companies that a private company with its seat at `hq` is
/// connected to.
pub fn connected_majors(track: &Vec<Track>, hq: Option<Coordinate>) -> (majors: Vec<Company>)
    requires
        narrow_off_rim(track@),
        hq matches Some(start) ==> inner(start),
    ensures
        majors@ == majors_among(track@, hq, 3),
{
    let public = [Company::EBRC, Company::LW, Company::TMLC];
    let mut majors: Vec<Company> = Vec::new();
    let mut i: usize = 0;
    while i < 3
        invariant
            i <= 3,
            public@ == public_companies(),
            narrow_off_rim(track@),
            hq matches Some(start) ==> inner(start),
            majors@ == majors_among(track@, hq, i as int),
        decreases 3 - i,
    {
        if connected_to(track, hq, public[i]) {
            majors.push(public[i]);
        }
        i += 1;
    }
    majors
}

/// The public companies.
pub open spec fn public_companies() -> Seq<Company> {
    seq![Company::EBRC, Company::LW, Company::TMLC]
}

/// Those of the first `n` public companies that a private company with its
/// seat at `hq` is connected to.
pub open spec fn majors_among(track: Seq<Track>, hq: Option<Coordinate>, n: int) -> Seq<Company>
    decreases n,
{
    if n <= 0 {
        Seq::empty()
    } else if hq matches Some(seat) && touches_track(track, seat, public_companies()[n - 1]) {
        majors_among(track, hq, n - 1).push(public_companies()[n - 1])
    } else {
        majors_among(track, hq, n - 1)
    }
}

} // verus!
