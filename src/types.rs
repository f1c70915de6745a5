use vstd::prelude::*;

verus! {

/// Which way a player expects the reference price to move over a round.
#[derive(Clone, Copy, Debug, PartialEq, Eq, Structural)]
pub enum Direction {
    Bull,
    Bear,
}

impl Direction {
    pub open spec fn spec_name(self) -> Seq<char> {
        match self {
            Direction::Bull => seq!['b', 'u', 'l', 'l'],
            Direction::Bear => seq!['b', 'e', 'a', 'r'],
        }
    }

    /// The lower-case name of the direction.
    pub fn to_string(&self) -> (r: String)
        ensures
            r@ == self.spec_name(),
    {
        let r = match self {
            Direction::Bull => String::from_str("bull"),
            Direction::Bear => String::from_str("bear"),
        };
        proof {
            reveal_strlit("bull");
            reveal_strlit("bear");
        }
        r
    }
}

/// A fee-distribution target: an address and its share, a fixed-point
/// decimal held as its atomics (`ratio / 10^18`).
pub struct WalletInfo {
    pub address: String,
    pub ratio: u128,
}

/// Governance parameters. Times are whole seconds, amounts raw integers.
pub struct Config {
    pub next_round_seconds: u64,
    pub minimum_bet: u128,
    pub gaming_fee: u128,
    pub token_denom: String,
    pub bet_token_denom: String,
    pub dev_wallet_list: Vec<WalletInfo>,
}

/// The round that is open for bets.
#[derive(Clone, Copy, Debug, PartialEq, Eq, Structural)]
pub struct NextRound {
    pub id: u128,
    pub bid_time: u64,
    pub open_time: u64,
    pub close_time: u64,
    pub bull_amount: u128,
    pub bear_amount: u128,
}

/// The round whose price window is running; it takes no bets.
/// Prices are fixed-point decimals held as their atomics.
#[derive(Clone, Copy, Debug, PartialEq, Eq, Structural)]
pub struct LiveRound {
    pub id: u128,
    pub bid_time: u64,
    pub open_time: u64,
    pub close_time: u64,
    pub open_price: u128,
    pub bull_amount: u128,
    pub bear_amount: u128,
}

/// The archived outcome of a round.
#[derive(Clone, Copy, Debug, PartialEq, Eq, Structural)]
pub struct FinishedRound {
    pub id: u128,
    pub bid_time: u64,
    pub open_time: u64,
    pub close_time: u64,
    pub open_price: u128,
    pub close_price: u128,
    pub winner: Option<Direction>,
    pub bull_amount: u128,
    pub bear_amount: u128,
}

pub struct MigrateMsg {}

/// A deposit attached to a request.
pub struct Coin {
    pub denom: String,
    pub amount: u128,
}

/// One entry of the oracle's answer: a denom and its price, a fixed-point
/// decimal held as its atomics.
pub struct ExchangeRate {
    pub denom: String,
    pub rate: u128,
}

/// An outstanding bet, net of fee.
pub struct BetInfo {
    pub player: String,
    pub round_id: u128,
    pub amount: u128,
    pub direction: Direction,
}

/// The receipt written when a bet is settled.
pub struct ClaimInfo {
    pub player: String,
    pub round_id: u128,
    pub claimed_amount: u128,
}

pub struct BetView {
    pub player: Seq<char>,
    pub round_id: u128,
    pub amount: u128,
    pub direction: Direction,
}

pub struct ClaimView {
    pub player: Seq<char>,
    pub round_id: u128,
    pub claimed_amount: u128,
}

impl View for BetInfo {
    type V = BetView;

    open spec fn view(&self) -> BetView {
        BetView {
            player: self.player@,
            round_id: self.round_id,
            amount: self.amount,
            direction: self.direction,
        }
    }
}

impl View for ClaimInfo {
    type V = ClaimView;

    open spec fn view(&self) -> ClaimView {
        ClaimView { player: self.player@, round_id: self.round_id, claimed_amount: self.claimed_amount }
    }
}

impl BetInfo {
    pub fn duplicate(&self) -> (r: BetInfo)
        ensures
            r@ == self@,
    {
        BetInfo {
            player: self.player.clone(),
            round_id: self.round_id,
            amount: self.amount,
            direction: self.direction,
        }
    }
}

impl ClaimInfo {
    pub fn duplicate(&self) -> (r: ClaimInfo)
        ensures
            r@ == self@,
    {
        ClaimInfo {
            player: self.player.clone(),
            round_id: self.round_id,
            claimed_amount: self.claimed_amount,
        }
    }
}

/// The errors a request can end with; every error leaves the state unchanged.
#[derive(Debug, PartialEq, Eq, Structural)]
pub enum ContractError {
    /// Wrong denom sent.
    InvalidFunds,
    /// The attached deposit does not match the stated amount.
    NotEnoughFunds,
    /// No deposit attached.
    NoFunds,
    /// More than one deposit attached.
    MultipleDenoms,
    /// The caller is not an admin.
    Unauthorized,
    /// The dev-wallet ratios do not sum to exactly one.
    WrongRatio,
    /// The oracle has no price for the configured denom.
    PriceNotFoundInOracle,
    /// Removing this admin would leave none.
    NeedOneAdmin,
    /// The contract is halted.
    Halted,
    /// The bet names a round other than the one open for bets.
    WrongRound { requested: u128, current: u128 },
    /// No round is open for bets.
    NoBiddingRound,
    /// The round stopped taking bets this many seconds ago.
    BiddingClosed { round_id: u128, seconds_ago: u64 },
    /// The player already holds a bet on this round.
    AlreadyBet { direction: Direction, amount: u128 },
    /// Collecting would pay out nothing.
    NothingToClaim,
    /// No finished round has this id.
    RoundNotFound,
    /// An amount or a time left its integer range.
    Overflow,
}

pub struct StatusResponse {
    pub bidding_round: Option<NextRound>,
    pub live_round: Option<LiveRound>,
    pub current_time: u64,
}

pub struct MyCurrentPositionResponse {
    pub live_bear_amount: u128,
    pub live_bull_amount: u128,
    pub next_bear_amount: u128,
    pub next_bull_amount: u128,
}

pub struct MyGameResponse {
    pub my_game_list: Vec<BetInfo>,
}

pub struct RoundUsersResponse {
    pub round_users: Vec<BetInfo>,
}

pub struct ClaimInfoResponse {
    pub claim_info: Vec<ClaimInfo>,
}

pub struct PendingRewardResponse {
    pub pending_reward: u128,
}

pub struct PendingRewardRoundsResponse {
    pub pending_reward_rounds: Vec<(u128, u128)>,
    pub pending_reward_total: u128,
}

pub struct TotalSpentResponse {
    pub total_spent: u128,
}

pub struct AdminsResponse {
    pub admins: Vec<String>,
}

} // verus!
