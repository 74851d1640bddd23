//! Exact solver for multi-stage card wagering games.
//!
//! A game is a chain of decisions. At each decision the player picks a
//! choice, a card is drawn from the cards not yet seen on the current path,
//! and the choice's multiplier turns the pot into a new pot. The solver walks
//! every reachable state and computes the expected value of each choice.
//!
//! * `card`: playing cards, the deck, and card labels.
//! * `decision`: the `Choice` interface that game rules implement, and decisions.
//! * `solver`: the decision tree, and the model it is proved against.
//! * `game`: the rules of Ride the Bus.
pub mod card;
pub mod decision;
pub mod game;
pub mod solver;

pub use card::{InvalidCardError, PlayingCard};
pub use decision::{Choice, DiscreteDecision, Pick, UNIT};
pub use game::{PickColor, PickContained, PickLatitude, PickSuit, RideTheBus};
pub use solver::{ChoiceEval, DiscreteDecisionTree, RandomEventOutcome};
