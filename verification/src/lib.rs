//! Verified codec for the Digimon Card Game 2020 deck-code format.
//!
//! A deck code is a short string carrying a bit-packed binary description of a
//! deck list: a fixed marker, then a URL-safe unpadded base64 payload holding a
//! versioned header, a run of card groups, and the deck name.  The `codec`
//! module holds the data model and the two transforms between deck codes and
//! [`codec::Deck`] values, with machine-checked contracts for both directions.

pub mod codec;
