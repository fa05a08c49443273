use vstd::prelude::*;

use super::map::{
    around, build_cost_of, crossing_cost, feature_at, get_neighbors, inner, map_row, next_to, shared,
    terrain_at, Coordinate, HEIGHT, NARROW_TRACK_COST, WIDTH,
};
use super::track::{
    lemma_reached_inner, lies_at, listed, narrow_off_rim, reachable, reachable_narrow_track, track_at,
    Company, Track, TrackType,
};

verus! {

/// The number of pieces of track among the first `n` that lie at a place.
pub open spec fn pieces_at(track: Seq<Track>, place: Coordinate, n: int) -> int
    decreases n,
{
    if n <= 0 {
        0
    } else {
        pieces_at(track, place, n - 1) + (if track[n - 1].location == place {
            1int
        } else {
            0int
        })
    }
}

/// The number of pieces of track that lie at a place.
pub fn count_track_at(track: &Vec<Track>, place: Coordinate) -> (count: usize)
    ensures
        count == pieces_at(track@, place, track@.len() as int),
        count <= track@.len(),
{
    let mut count: usize = 0;
    let mut i: usize = 0;
    while i < track.len()
        invariant
            i <= track.len(),
            count <= i,
            count == pieces_at(track@, place, i as int),
        decreases track.len() - i,
    {
        if track[i].location.0 == place.0 && track[i].location.1 == place.1 {
            count += 1;
        }
        i += 1;
    }
    count
}

/// What a public company pays to build at a place where `others` pieces of
/// track lie: the cost of the ground once for its own track and once more for
/// each piece that lies there, and what the water there takes to cross.
pub open spec fn owned_cost_of(place: Coordinate, others: int) -> int {
    (1 + others) * build_cost_of(map_row(place.1 as int)[place.0 as int]) + crossing_cost(place)
}

/// What a public company pays to build at a place. Where the number of
/// pieces of track at the place is not given, it is counted. The bounds on
/// the pieces keep the cost within a machine word of 32 bits; a game lays
/// a few dozen pieces.
pub fn owned_cost(track: &Vec<Track>, t: Coordinate, other_track_in_location: Option<usize>) -> (cost: usize)
    requires
        t.0 < WIDTH,
        t.1 < HEIGHT,
        track@.len() < 0x1000_0000,
        other_track_in_location matches Some(others) ==> others < 0x1000_0000,
    ensures
        cost == owned_cost_of(
            t,
            match other_track_in_location {
                Some(others) => others as int,
                None => pieces_at(track@, t, track@.len() as int),
            },
        ),
{
    let others = match other_track_in_location {
        Some(others) => others,
        None => count_track_at(track, t),
    };
    let attr = terrain_at(t).attributes();
    let extra = match feature_at(t) {
        Some(feature) => feature.additional_cost,
        None => 0,
    };
    assert((1 + others) * attr.build_cost <= 0x1000_0000 * 6) by (nonlinear_arith)
        requires
            others < 0x1000_0000,
            attr.build_cost <= 6,
    ;
    (1 + others) * (attr.build_cost as usize) + extra
}

/// What it costs to lay narrow track at a place: the same everywhere.
pub fn narrow_cost(_t: Coordinate) -> (cost: usize)
    ensures
        cost == NARROW_TRACK_COST,
{
    NARROW_TRACK_COST
}

/// Whether all track of a company lies off the rim of the grid.
pub open spec fn company_off_rim(track: Seq<Track>, company: Company) -> bool {
    forall|i: int|
        0 <= i < track.len() && (#[trigger] track[i]).track_type == TrackType::CompanyOwned(company) ==> inner(
            track[i].location,
        )
}

/// Whether a public company with `cash` in hand can build at a place: the
/// place lies on the map next to track of the company, track can be built
/// on its ground, no other track lies there unless the ground can be shared,
/// the company has no track there, and it can pay.
pub open spec fn can_build_owned(track: Seq<Track>, company: Company, cash: int, place: Coordinate) -> bool {
    &&& exists|i: int|
        0 <= i < track.len() && (#[trigger] track[i]).track_type == TrackType::CompanyOwned(company)
            && next_to(track[i].location, place)
    &&& place.0 < WIDTH && place.1 < HEIGHT
    &&& site_open(track, company, cash, place)
}

/// Whether a public company with `cash` in hand can build at a place on the
/// map, wherever its own track lies.
pub open spec fn site_open(track: Seq<Track>, company: Company, cash: int, place: Coordinate) -> bool {
    let ground = map_row(place.1 as int)[place.0 as int];
    let others = pieces_at(track, place, track.len() as int);
    &&& !(ground is Nothing)
    &&& others == 0 || shared(ground)
    &&& !lies_at(track, place, TrackType::CompanyOwned(company))
    &&& cash >= owned_cost_of(place, others)
}

/// Whether a public company with `cash` in hand can build at a place on the
/// map, wherever its own track lies.
fn is_site_open(track: &Vec<Track>, company: Company, cash: isize, place: Coordinate) -> (open: bool)
    requires
        place.0 < WIDTH,
        place.1 < HEIGHT,
        track@.len() < 0x1000_0000,
    ensures
        open == site_open(track@, company, cash as int, place),
{
    let attr = terrain_at(place).attributes();
    if !attr.buildable {
        return false;
    }
    let others = count_track_at(track, place);
    // Can't build more track if not permitted
    if others > 0 && !attr.multiple_allowed {
        return false;
    }
    // Company can't own multiple track in location
    if track_at(track, place, TrackType::CompanyOwned(company)) {
        return false;
    }
    // Make sure co can pay
    let cost = owned_cost(track, place, Some(others));
    cash >= cost as isize
}

/// Whether a place lies on the map and a public company with `cash` in hand
/// can build there.
pub open spec fn site_on_map(track: Seq<Track>, company: Company, cash: int, place: Coordinate) -> bool {
    place.0 < WIDTH && place.1 < HEIGHT && site_open(track, company, cash, place)
}

/// Adds to a list the places around `from` at which a public company with
/// `cash` in hand can build, each unless the list holds it.
fn build_around(
    track: &Vec<Track>,
    company: Company,
    cash: isize,
    from: Coordinate,
    places: &mut Vec<Coordinate>,
)
    requires
        inner(from),
        track@.len() < 0x1000_0000,
        old(places)@.no_duplicates(),
    ensures
        final(places)@.no_duplicates(),
        forall|place: Coordinate|
            final(places)@.contains(place) <==> old(places)@.contains(place) || (next_to(from, place)
                && site_on_map(track@, company, cash as int, place)),
{
    let neighbors = get_neighbors(from);
    let mut n: usize = 0;
    while n < neighbors.len()
        invariant
            n <= neighbors.len(),
            neighbors@ == around(from),
            track@.len() < 0x1000_0000,
            places@.no_duplicates(),
            forall|place: Coordinate|
                places@.contains(place) <==> old(places)@.contains(place) || (exists|m: int|
                    0 <= m < n && #[trigger] neighbors@[m] == place && site_on_map(
                        track@,
                        company,
                        cash as int,
                        place,
                    )),
        decreases neighbors.len() - n,
    {
        let place = neighbors[n];
        let ghost earlier = places@;
        let mut added = false;
        if place.0 < WIDTH && place.1 < HEIGHT {
            if is_site_open(track, company, cash, place) && !listed(places, place) {
                places.push(place);
                added = true;
            }
        }
        proof {
            assert forall|other: Coordinate|
                places@.contains(other) <==> old(places)@.contains(other) || (exists|m: int|
                    0 <= m < n + 1 && #[trigger] neighbors@[m] == other && site_on_map(
                        track@,
                        company,
                        cash as int,
                        other,
                    )) by {
                if added {
                    assert(places@ == earlier.push(place));
                    if places@.contains(other) {
                        let at = choose|at: int| 0 <= at < places@.len() && places@[at] == other;
                        if at < earlier.len() {
                            assert(earlier[at] == other);
                            assert(earlier.contains(other));
                        } else {
                            assert(neighbors@[n as int] == other);
                        }
                    }
                    if earlier.contains(other) {
                        let at = choose|at: int| 0 <= at < earlier.len() && earlier[at] == other;
                        assert(places@[at] == other);
                    }
                    if other == place {
                        assert(places@[places@.len() - 1] == other);
                    }
                } else {
                    assert(places@ == earlier);
                }
                if earlier.contains(other) && !old(places)@.contains(other) {
                    let m = choose|m: int|
                        0 <= m < n && #[trigger] neighbors@[m] == other && site_on_map(
                            track@,
                            company,
                            cash as int,
                            other,
                        );
                    assert(0 <= m < n + 1 && neighbors@[m] == other);
                }
                if exists|m: int|
                    0 <= m < n + 1 && #[trigger] neighbors@[m] == other && site_on_map(
                        track@,
                        company,
                        cash as int,
                        other,
                    ) {
                    let m = choose|m: int|
                        0 <= m < n + 1 && #[trigger] neighbors@[m] == other && site_on_map(
                            track@,
                            company,
                            cash as int,
                            other,
                        );
                    if m < n {
                        assert(earlier.contains(other));
                    } else {
                        assert(other == place);
                    }
                }
            }
        }
        n += 1;
    }
    proof {
        assert forall|place: Coordinate|
            places@.contains(place) <==> old(places)@.contains(place) || (next_to(from, place) && site_on_map(
                track@,
                company,
                cash as int,
                place,
            )) by {
            if next_to(from, place) && site_on_map(track@, company, cash as int, place) {
                let m = choose|m: int| 0 <= m < neighbors@.len() && neighbors@[m] == place;
                assert(neighbors@[m] == place);
            }
            if places@.contains(place) && !old(places)@.contains(place) {
                let m = choose|m: int|
                    0 <= m < n && #[trigger] neighbors@[m] == place && site_on_map(
                        track@,
                        company,
                        cash as int,
                        place,
                    );
                assert(around(from).contains(neighbors@[m]));
            }
        }
    }
}

/// Whether a public company with `cash` in hand can build at a place next to
/// one of the first `n` pieces of track, that piece being its own.
pub open spec fn can_build_near(track: Seq<Track>, company: Company, cash: int, place: Coordinate, n: int) -> bool {
    &&& exists|i: int|
        0 <= i < n && (#[trigger] track[i]).track_type == TrackType::CompanyOwned(company) && next_to(
            track[i].location,
            place,
        )
    &&& site_on_map(track, company, cash, place)
}

/// The places at which a public company with `cash` in hand can build: each
/// place once.
pub fn possible_owned_track(track: &Vec<Track>, company: Company, cash: isize) -> (places: Vec<Coordinate>)
    requires
        company_off_rim(track@, company),
        track@.len() < 0x1000_0000,
    ensures
        places@.no_duplicates(),
        forall|place: Coordinate| places@.contains(place) <==> can_build_owned(track@, company, cash as int, place),
{
    let mut places: Vec<Coordinate> = Vec::new();
    let mut i: usize = 0;
    while i < track.len()
        invariant
            i <= track.len(),
            company_off_rim(track@, company),
            track@.len() < 0x1000_0000,
            places@.no_duplicates(),
            forall|place: Coordinate|
                places@.contains(place) <==> can_build_near(track@, company, cash as int, place, i as int),
        decreases track.len() - i,
    {
        let piece = track[i];
        let ghost earlier = places@;
        if piece.track_type == TrackType::CompanyOwned(company) {
            build_around(track, company, cash, piece.location, &mut places);
        }
        proof {
            let own = piece.track_type == TrackType::CompanyOwned(company);
            assert forall|place: Coordinate|
                places@.contains(place) <==> can_build_near(track@, company, cash as int, place, i + 1) by {
                let near = next_to(piece.location, place) && site_on_map(track@, company, cash as int, place);
                assert(places@.contains(place) <==> earlier.contains(place) || (own && near));
                assert(earlier.contains(place) <==> can_build_near(track@, company, cash as int, place, i as int));
                if can_build_near(track@, company, cash as int, place, i + 1) {
                    let j = choose|j: int|
                        0 <= j < i + 1 && (#[trigger] track@[j]).track_type == TrackType::CompanyOwned(company)
                            && next_to(track@[j].location, place);
                    if j < i {
                        assert(can_build_near(track@, company, cash as int, place, i as int));
                    } else {
                        assert(track@[j] == piece);
                        assert(own && near);
                    }
                }
                if earlier.contains(place) {
                    let j = choose|j: int|
                        0 <= j < i && (#[trigger] track@[j]).track_type == TrackType::CompanyOwned(company)
                            && next_to(track@[j].location, place);
                    assert(0 <= j < i + 1 && track@[j].track_type == TrackType::CompanyOwned(company)
                        && next_to(track@[j].location, place));
                    assert(can_build_near(track@, company, cash as int, place, i + 1));
                }
                if own && near {
                    assert(track@[i as int].track_type == TrackType::CompanyOwned(company) && next_to(
                        track@[i as int].location,
                        place,
                    ));
                    assert(can_build_near(track@, company, cash as int, place, i + 1));
                }
            }
        }
        i += 1;
    }
    proof {
        assert forall|place: Coordinate|
            places@.contains(place) <==> can_build_owned(track@, company, cash as int, place) by {
            if can_build_owned(track@, company, cash as int, place) {
                let j = choose|j: int|
                    0 <= j < track@.len() && (#[trigger] track@[j]).track_type == TrackType::CompanyOwned(company)
                        && next_to(track@[j].location, place);
                assert(can_build_near(track@, company, cash as int, place, track@.len() as int));
            }
            if places@.contains(place) {
                assert(can_build_near(track@, company, cash as int, place, track@.len() as int));
            }
        }
    }
    places
}

/// Whether one place comes before another: by its column, then by its row.
pub open spec fn comes_before(a: Coordinate, b: Coordinate) -> bool {
    a.0 < b.0 || (a.0 == b.0 && a.1 < b.1)
}

/// Whether the places are listed by column and row, each once.
pub open spec fn in_order(places: Seq<Coordinate>) -> bool {
    forall|i: int, j: int| 0 <= i < j < places.len() ==> comes_before(#[trigger] places[i], #[trigger] places[j])
}

/// A place put into a list that is in order stands behind the places that
/// come before it, and the list stays in order.
pub proof fn lemma_insert_in_order(earlier: Seq<Coordinate>, at: int, place: Coordinate)
    requires
        in_order(earlier),
        0 <= at <= earlier.len(),
        forall|k: int| 0 <= k < at ==> comes_before(#[trigger] earlier[k], place),
        at < earlier.len() ==> comes_before(place, earlier[at]),
    ensures
        in_order(earlier.insert(at, place)),
        forall|other: Coordinate|
            earlier.insert(at, place).contains(other) <==> earlier.contains(other) || other == place,
{
    let later = earlier.insert(at, place);
    assert forall|i: int, j: int| 0 <= i < j < later.len() implies comes_before(
        #[trigger] later[i],
        #[trigger] later[j],
    ) by {
        if j < at {
            assert(later[i] == earlier[i] && later[j] == earlier[j]);
        } else if j == at {
            assert(later[i] == earlier[i]);
        } else if i < at {
            assert(later[i] == earlier[i] && later[j] == earlier[j - 1]);
        } else if i == at {
            assert(later[j] == earlier[j - 1]);
            if j - 1 > at {
                assert(comes_before(earlier[at], earlier[j - 1]));
            }
        } else {
            assert(later[i] == earlier[i - 1] && later[j] == earlier[j - 1]);
        }
    }
    assert forall|other: Coordinate| later.contains(other) <==> earlier.contains(other) || other
        == place by {
        if later.contains(other) {
            let k = choose|k: int| 0 <= k < later.len() && later[k] == other;
            if k < at {
                assert(earlier[k] == other);
            } else if k > at {
                assert(earlier[k - 1] == other);
            }
        }
        if earlier.contains(other) {
            let k = choose|k: int| 0 <= k < earlier.len() && earlier[k] == other;
            if k < at {
                assert(later[k] == other);
            } else {
                assert(later[k + 1] == other);
            }
        }
        if other == place {
            assert(later[at] == other);
        }
    }
}

/// Where a place goes in a list that is in order: the first position at or
/// after `from` whose place does not come before it.
pub open spec fn order_position(places: Seq<Coordinate>, place: Coordinate, from: int) -> int
    decreases places.len() - from,
{
    if from < 0 || from >= places.len() {
        places.len() as int
    } else if !comes_before(places[from], place) {
        from
    } else {
        order_position(places, place, from + 1)
    }
}

/// The list with a place put where it goes, unless the place stands there.
pub open spec fn placed(places: Seq<Coordinate>, place: Coordinate) -> Seq<Coordinate> {
    let at = order_position(places, place, 0);
    if at < places.len() && places[at] == place {
        places
    } else {
        places.insert(at, place)
    }
}

/// Where a place goes, the places before come before it, and the place
/// there does not.
pub proof fn lemma_order_position(places: Seq<Coordinate>, place: Coordinate, from: int)
    requires
        0 <= from <= places.len(),
    ensures
        from <= order_position(places, place, from) <= places.len(),
        forall|k: int| from <= k < order_position(places, place, from) ==> comes_before(#[trigger] places[k], place),
        order_position(places, place, from) < places.len() ==> !comes_before(
            places[order_position(places, place, from)],
            place,
        ),
    decreases places.len() - from,
{
    if from < places.len() && comes_before(places[from], place) {
        lemma_order_position(places, place, from + 1);
    }
}

/// A list in order with a place put where it goes is in order, and holds the
/// place and what the list held.
pub proof fn lemma_placed(places: Seq<Coordinate>, place: Coordinate)
    requires
        in_order(places),
    ensures
        in_order(placed(places, place)),
        forall|other: Coordinate| placed(places, place).contains(other) <==> places.contains(other) || other == place,
{
    let at = order_position(places, place, 0);
    lemma_order_position(places, place, 0);
    if at < places.len() && places[at] == place {
        assert(places.contains(place));
    } else {
        if at < places.len() {
            assert(comes_before(place, places[at]));
        }
        lemma_insert_in_order(places, at, place);
    }
}

/// Puts a place into a list that is in order, unless the list holds it.
fn insert_in_order(places: &mut Vec<Coordinate>, place: Coordinate)
    ensures
        final(places)@ == placed(old(places)@, place),
{
    let mut at: usize = 0;
    while at < places.len() && (places[at].0 < place.0 || (places[at].0 == place.0 && places[at].1 < place.1))
        invariant
            at <= places.len(),
            places@ == old(places)@,
            order_position(places@, place, 0) == order_position(places@, place, at as int),
        decreases places.len() - at,
    {
        at += 1;
    }
    if at < places.len() && places[at].0 == place.0 && places[at].1 == place.1 {
    } else {
        places.insert(at, place);
    }
}

/// Whether narrow track can be laid at a place by a company with `cash` in
/// hand, wherever its track lies: the place lies on the map, track can be
/// built on its ground, and the company can pay or track lies there already.
pub open spec fn lay_open(track: Seq<Track>, cash: int, place: Coordinate) -> bool {
    &&& place.0 < WIDTH && place.1 < HEIGHT
    &&& !(NARROW_TRACK_COST > cash && pieces_at(track, place, track.len() as int) == 0)
    &&& !(map_row(place.1 as int)[place.0 as int] is Nothing)
}

/// Whether narrow track can be laid at a place by a private company with its
/// seat at `seat` and `cash` in hand: the place is next to a place that the
/// narrow track reaches from the seat, and narrow track can be laid there.
pub open spec fn can_lay_narrow(track: Seq<Track>, seat: Coordinate, cash: int, place: Coordinate) -> bool {
    &&& exists|from: Coordinate| reachable(track, seat, from) && #[trigger] next_to(from, place)
    &&& lay_open(track, cash, place)
}

/// Whether narrow track can be laid at a place next to one of the first `n`
/// of the places `reached`.
pub open spec fn can_lay_near(
    track: Seq<Track>,
    reached: Seq<Coordinate>,
    cash: int,
    place: Coordinate,
    n: int,
) -> bool {
    &&& exists|j: int| 0 <= j < n && next_to(#[trigger] reached[j], place)
    &&& lay_open(track, cash, place)
}

/// Puts into a list in order the places around `from` at which narrow track
/// can be laid.
fn lay_around(track: &Vec<Track>, cash: isize, from: Coordinate, places: &mut Vec<Coordinate>)
    requires
        inner(from),
        in_order(old(places)@),
    ensures
        in_order(final(places)@),
        forall|place: Coordinate|
            final(places)@.contains(place) <==> old(places)@.contains(place) || (next_to(from, place)
                && lay_open(track@, cash as int, place)),
{
    let neighbors = get_neighbors(from);
    let mut n: usize = 0;
    while n < neighbors.len()
        invariant
            n <= neighbors.len(),
            neighbors@ == around(from),
            in_order(places@),
            forall|place: Coordinate|
                places@.contains(place) <==> old(places)@.contains(place) || (exists|m: int|
                    0 <= m < n && #[trigger] neighbors@[m] == place && lay_open(track@, cash as int, place)),
        decreases neighbors.len() - n,
    {
        let place = neighbors[n];
        let ghost earlier = places@;
        let mut added = false;
        if place.0 < WIDTH && place.1 < HEIGHT {
            let unpaid = narrow_cost(place) as isize > cash && count_track_at(track, place) == 0;
            if !unpaid && terrain_at(place).attributes().buildable {
                proof {
                    lemma_placed(places@, place);
                }
                insert_in_order(places, place);
                added = true;
            }
        }
        proof {
            assert(added == lay_open(track@, cash as int, place));
            assert forall|other: Coordinate|
                places@.contains(other) <==> old(places)@.contains(other) || (exists|m: int|
                    0 <= m < n + 1 && #[trigger] neighbors@[m] == other && lay_open(
                        track@,
                        cash as int,
                        other,
                    )) by {
                if added {
                    assert(places@.contains(other) <==> earlier.contains(other) || other == place);
                    if other == place {
                        assert(neighbors@[n as int] == other);
                    }
                } else {
                    assert(places@ == earlier);
                }
                if earlier.contains(other) && !old(places)@.contains(other) {
                    let m = choose|m: int|
                        0 <= m < n && #[trigger] neighbors@[m] == other && lay_open(
                            track@,
                            cash as int,
                            other,
                        );
                    assert(0 <= m < n + 1 && neighbors@[m] == other);
                }
                if exists|m: int|
                    0 <= m < n + 1 && #[trigger] neighbors@[m] == other && lay_open(
                        track@,
                        cash as int,
                        other,
                    ) {
                    let m = choose|m: int|
                        0 <= m < n + 1 && #[trigger] neighbors@[m] == other && lay_open(
                            track@,
                            cash as int,
                            other,
                        );
                    if m < n {
                        assert(earlier.contains(other));
                    } else {
                        assert(other == place);
                    }
                }
            }
        }
        n += 1;
    }
    proof {
        assert forall|place: Coordinate|
            places@.contains(place) <==> old(places)@.contains(place) || (next_to(from, place) && lay_open(
                track@,
                cash as int,
                place,
            )) by {
            if next_to(from, place) && lay_open(track@, cash as int, place) {
                let m = choose|m: int| 0 <= m < neighbors@.len() && neighbors@[m] == place;
                assert(neighbors@[m] == place);
            }
            if places@.contains(place) && !old(places)@.contains(place) {
                let m = choose|m: int|
                    0 <= m < n && #[trigger] neighbors@[m] == place && lay_open(track@, cash as int, place);
                assert(around(from).contains(neighbors@[m]));
            }
        }
    }
}

/// The places at which a private company with its seat at `hq` and `cash` in
/// hand can lay narrow track, by column and row, each once.
pub fn possible_narrow_track(track: &Vec<Track>, hq: Option<Coordinate>, cash: isize) -> (places: Vec<
    Coordinate,
>)
    requires
        narrow_off_rim(track@),
        hq matches Some(start) ==> inner(start),
    ensures
        in_order(places@),
        hq is None ==> places@.len() == 0,
        hq matches Some(seat) ==> forall|place: Coordinate|
            places@.contains(place) <==> can_lay_narrow(track@, seat, cash as int, place),
{
    let reached = reachable_narrow_track(track, hq);
    let mut places: Vec<Coordinate> = Vec::new();
    let seat = match hq {
        Some(seat) => seat,
        None => {
            return places;
        },
    };
    let mut i: usize = 0;
    while i < reached.len()
        invariant
            i <= reached.len(),
            inner(seat),
            narrow_off_rim(track@),
            forall|place: Coordinate| reached@.contains(place) <==> reachable(track@, seat, place),
            in_order(places@),
            forall|place: Coordinate|
                places@.contains(place) <==> can_lay_near(track@, reached@, cash as int, place, i as int),
        decreases reached.len() - i,
    {
        assert(reached@.contains(reached@[i as int]));
        proof {
            lemma_reached_inner(track@, seat, reached@[i as int]);
        }
        let ghost earlier = places@;
        lay_around(track, cash, reached[i], &mut places);
        proof {
            assert forall|place: Coordinate|
                places@.contains(place) <==> can_lay_near(track@, reached@, cash as int, place, i + 1) by {
                let near = next_to(reached@[i as int], place) && lay_open(track@, cash as int, place);
                assert(places@.contains(place) <==> earlier.contains(place) || near);
                assert(earlier.contains(place) <==> can_lay_near(track@, reached@, cash as int, place, i as int));
                if can_lay_near(track@, reached@, cash as int, place, i + 1) {
                    let j = choose|j: int| 0 <= j < i + 1 && next_to(#[trigger] reached@[j], place);
                    if j < i {
                        assert(can_lay_near(track@, reached@, cash as int, place, i as int));
                    } else {
                        assert(near);
                    }
                }
                if earlier.contains(place) {
                    let j = choose|j: int| 0 <= j < i && next_to(#[trigger] reached@[j], place);
                    assert(0 <= j < i + 1 && next_to(reached@[j], place));
                    assert(can_lay_near(track@, reached@, cash as int, place, i + 1));
                }
                if near {
                    assert(0 <= i < i + 1 && next_to(reached@[i as int], place));
                    assert(can_lay_near(track@, reached@, cash as int, place, i + 1));
                }
            }
        }
        i += 1;
    }
    proof {
        assert forall|place: Coordinate|
            places@.contains(place) <==> can_lay_narrow(track@, seat, cash as int, place) by {
            if can_lay_narrow(track@, seat, cash as int, place) {
                let from = choose|from: Coordinate|
                    reachable(track@, seat, from) && #[trigger] next_to(from, place);
                assert(reached@.contains(from));
                let j = choose|j: int| 0 <= j < reached@.len() && reached@[j] == from;
                assert(next_to(reached@[j], place));
            }
            if places@.contains(place) {
                let j = choose|j: int| 0 <= j < reached@.len() && next_to(#[trigger] reached@[j], place);
                assert(reached@.contains(reached@[j]));
                assert(reachable(track@, seat, reached@[j]) && next_to(reached@[j], place));
            }
        }
    }
    places
}

} // verus!
