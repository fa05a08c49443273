use vstd::prelude::*;

use super::map::{earnings_of, feature_at, feature_earnings, map_row, terrain_at, HEIGHT, WIDTH};
use super::track::{Company, Track, TrackType};
use crate::mon2y::{Reward, FIXED_ONE};

verus! {

/// The quotient of `numerator` by `denominator`, rounded up.
pub open spec fn rounded_up(numerator: int, denominator: int) -> int {
    (numerator + denominator - 1) / denominator
}

/// The quotient of a division that is rounded up: the least number of lots of
/// `denominator` that hold `numerator`.
pub fn div_ceil(numerator: isize, denominator: isize) -> (quotient: isize)
    requires
        numerator >= 0,
        denominator > 0,
        numerator + denominator <= isize::MAX,
    ensures
        quotient == rounded_up(numerator as int, denominator as int),
        (quotient - 1) * denominator < numerator <= quotient * denominator,
{
    proof {
        let n = numerator as int;
        let d = denominator as int;
        let q = (n + d - 1) / d;
        vstd::arithmetic::div_mod::lemma_fundamental_div_mod(n + d - 1, d);
        vstd::arithmetic::div_mod::lemma_mod_bound(n + d - 1, d);
        assert(q * d == d * q) by (nonlinear_arith);
        assert((q - 1) * d == q * d - d) by (nonlinear_arith);
    }
    (numerator + denominator - 1) / denominator
}

/// A bond that a company can issue.
#[derive(Debug, Clone, Copy, PartialEq, Eq, Hash)]
pub struct Bond {
    pub face_value: usize,
    pub coupon: usize,
}

/// A bond that a company has issued. Interest is due unless it is deferred.
#[derive(Debug, Clone, Copy, PartialEq, Hash, Eq)]
pub struct BondDetails {
    pub bond: Bond,
    pub deferred: bool,
}

/// What a piece of track earns a company at a dividend: what its ground and
/// the feature at its place earn, nothing if it is not the company's.
pub open spec fn piece_earnings(piece: Track, company: Company, dividend: int) -> int {
    if piece.track_type == TrackType::CompanyOwned(company) && piece.location.0 < WIDTH && piece.location.1
        < HEIGHT {
        earnings_of(map_row(piece.location.1 as int)[piece.location.0 as int], dividend) + feature_earnings(
            piece.location,
            dividend,
        )
    } else {
        0
    }
}

/// What the first `n` pieces of track earn a company at a dividend.
pub open spec fn track_earnings(track: Seq<Track>, company: Company, dividend: int, n: int) -> int
    decreases n,
{
    if n <= 0 {
        0
    } else {
        track_earnings(track, company, dividend, n - 1) + piece_earnings(track[n - 1], company, dividend)
    }
}

/// The interest that is due on the first `n` bonds: the coupons of those
/// that are not deferred.
pub open spec fn interest_due(bonds: Seq<BondDetails>, n: int) -> int
    decreases n,
{
    if n <= 0 {
        0
    } else {
        interest_due(bonds, n - 1) + (if bonds[n - 1].deferred {
            0int
        } else {
            bonds[n - 1].bond.coupon as int
        })
    }
}

/// What a company earns at a dividend: what its track earns, less the
/// interest that is due on its bonds. The bounds on track, bonds and
/// coupons keep the sums within a machine word of 32 bits; the game has
/// seven bonds with coupons up to five and lays a few dozen pieces of track.
pub fn net_revenue(track: &Vec<Track>, company: Company, dividends_paid: usize, bonds: &Vec<BondDetails>) -> (revenue:
    isize)
    requires
        dividends_paid < 6,
        track@.len() < 0x1000_0000,
        bonds@.len() < 0x1000,
        forall|i: int| 0 <= i < bonds@.len() ==> (#[trigger] bonds@[i]).bond.coupon < 0x1000,
        forall|i: int|
            0 <= i < track@.len() && (#[trigger] track@[i]).track_type == TrackType::CompanyOwned(company)
                ==> track@[i].location.0 < WIDTH && track@[i].location.1 < HEIGHT,
    ensures
        revenue == track_earnings(track@, company, dividends_paid as int, track@.len() as int) - interest_due(
            bonds@,
            bonds@.len() as int,
        ),
{
    let mut earned: isize = 0;
    let mut i: usize = 0;
    while i < track.len()
        invariant
            i <= track.len(),
            dividends_paid < 6,
            track@.len() < 0x1000_0000,
            forall|j: int|
                0 <= j < track@.len() && (#[trigger] track@[j]).track_type == TrackType::CompanyOwned(company)
                    ==> track@[j].location.0 < WIDTH && track@[j].location.1 < HEIGHT,
            0 <= earned <= 4 * i,
            earned == track_earnings(track@, company, dividends_paid as int, i as int),
        decreases track.len() - i,
    {
        let piece = track[i];
        if piece.track_type == TrackType::CompanyOwned(company) {
            let ground = terrain_at(piece.location).attributes().revenue[dividends_paid];
            let feature = match feature_at(piece.location) {
                None => 0,
                Some(feature) => feature.revenue[dividends_paid],
            };
            earned += ground + feature;
        }
        i += 1;
    }
    assert(earned == track_earnings(track@, company, dividends_paid as int, track@.len() as int));
    let mut bond_interest: usize = 0;
    let mut b: usize = 0;
    while b < bonds.len()
        invariant
            b <= bonds.len(),
            bonds@.len() < 0x1000,
            forall|j: int| 0 <= j < bonds@.len() ==> (#[trigger] bonds@[j]).bond.coupon < 0x1000,
            bond_interest <= 0x1000 * b,
            bond_interest == interest_due(bonds@, b as int),
        decreases bonds.len() - b,
    {
        if !bonds[b].deferred {
            bond_interest += bonds[b].bond.coupon;
        }
        b += 1;
    }
    earned - bond_interest as isize
}

/// The least bid for a share of a company that earns `revenue` and has sold
/// `shares_held` shares: the revenue per share once one more is sold,
/// rounded up, and one at the least. The bounds keep the division within a
/// machine word of 32 bits; no company has more than five shares.
pub fn min_bid(revenue: isize, shares_held: usize) -> (bid: isize)
    requires
        shares_held < 0x1000_0000,
        revenue < 0x1000_0000,
    ensures
        bid == (if revenue <= 0 || rounded_up(revenue as int, shares_held + 1) < 1 {
            1
        } else {
            rounded_up(revenue as int, shares_held + 1)
        }),
{
    if revenue <= 0 {
        return 1;
    }
    let share = div_ceil(revenue, shares_held as isize + 1);
    if share < 1 {
        1
    } else {
        share
    }
}

/// The player with the most cash among the first `n`, the first of them.
pub open spec fn richest(cash: Seq<isize>, n: int) -> int
    decreases n,
{
    if n <= 1 {
        0
    } else {
        let best = richest(cash, n - 1);
        if cash[n - 1] > cash[best] {
            n - 1
        } else {
            best
        }
    }
}

/// The player with the least cash among the first `n`, the last of them.
pub open spec fn poorest(cash: Seq<isize>, n: int) -> int
    decreases n,
{
    if n <= 1 {
        0
    } else {
        let worst = poorest(cash, n - 1);
        if cash[n - 1] <= cash[worst] {
            n - 1
        } else {
            worst
        }
    }
}

/// The rewards by the cash of the players: nothing while the game goes on;
/// at its end one for the richest, minus one for the poorest if there is
/// more than one player, and nothing for the others.
pub open spec fn rewards_by_cash(cash: Seq<isize>, terminal: bool) -> Seq<Reward> {
    Seq::new(
        cash.len(),
        |player: int|
            if !terminal {
                0i64
            } else if cash.len() > 1 && player == poorest(cash, cash.len() as int) {
                (-FIXED_ONE) as i64
            } else if player == richest(cash, cash.len() as int) {
                FIXED_ONE
            } else {
                0i64
            },
    )
}

/// The rewards by the cash of the players: one for best, minus one for lost,
/// nothing for others.
pub fn reward_by_cash(player_cash: &Vec<isize>, terminal: bool) -> (reward: Vec<Reward>)
    requires
        player_cash@.len() > 0,
    ensures
        reward@ == rewards_by_cash(player_cash@, terminal),
{
    let mut best: usize = 0;
    let mut worst: usize = 0;
    let mut i: usize = 1;
    while i < player_cash.len()
        invariant
            1 <= i <= player_cash.len(),
            best < i,
            worst < i,
            best == richest(player_cash@, i as int),
            worst == poorest(player_cash@, i as int),
        decreases player_cash.len() - i,
    {
        if player_cash[i] > player_cash[best] {
            best = i;
        }
        if player_cash[i] <= player_cash[worst] {
            worst = i;
        }
        i += 1;
    }
    let win: Reward = FIXED_ONE;
    let loss: Reward = -FIXED_ONE;
    let mut reward: Vec<Reward> = Vec::new();
    let mut player: usize = 0;
    while player < player_cash.len()
        invariant
            player <= player_cash.len(),
            best == richest(player_cash@, player_cash@.len() as int),
            worst == poorest(player_cash@, player_cash@.len() as int),
            win == FIXED_ONE,
            loss == -FIXED_ONE,
            reward@.len() == player,
            forall|p: int| 0 <= p < player ==> #[trigger] reward@[p] == rewards_by_cash(player_cash@, terminal)[p],
        decreases player_cash.len() - player,
    {
        if !terminal {
            reward.push(0);
        } else if player_cash.len() > 1 && player == worst {
            reward.push(loss);
        } else if player == best {
            reward.push(win);
        } else {
            reward.push(0);
        }
        player += 1;
    }
    assert(reward@ =~= rewards_by_cash(player_cash@, terminal));
    reward
}

} // verus!
