//! Codec constants, data model, and shared primitives.
//!
//! The wire format packs a deck into a small byte payload: a header, a run of
//! card groups, and the raw name bytes.  This module holds the structs that
//! decode produces and encode consumes, their ghost views, and the primitive
//! helpers (checksum, base36 alphabet) that both directions share.

pub mod decode;
pub mod encode;
pub mod laws;
pub mod model;
pub mod transport;

pub use crate::codec::decode::decode;
pub use crate::codec::encode::encode;

use vstd::prelude::*;
use vstd::arithmetic::div_mod::{lemma_add_mod_noop, lemma_small_mod};

verus! {

/// Highest format version this codec understands.
pub const VERSION: u8 = 5;

/// Deck codes are all prefixed with "DCG".
pub const PREFIX: &'static str = "DCG";

/// Fixed leading payload bytes: version/digi-egg byte, checksum, and name length.
pub const HEADER_SIZE: usize = 3;

/// The marker characters that every deck code starts with.
pub open spec fn prefix_chars() -> Seq<char> {
    seq!['D', 'C', 'G']
}

/// A deck's digi-eggs, main deck, and sideboard are made of `Card` entries.
#[derive(Clone, Debug)]
pub struct Card {
    /// Card number identifier (i.e. "ST1-001").
    pub number: String,
    /// Parallel-id values greater than 0 are alternate arts of the card.
    pub parallel_id: u8,
    /// How many copies of this card the deck holds (1 to 256).
    pub count: u16,
}

/// Ghost image of a `Card`: the number as characters, with art index and count.
#[verifier::ext_equal]
pub struct CardView {
    /// The card number as a character sequence.
    pub number: Seq<char>,
    /// Alternate-art index, 0 for the regular printing.
    pub parallel_id: u8,
    /// Copy count, 1 to 256.
    pub count: u16,
}

impl View for Card {
    type V = CardView;

    open spec fn view(&self) -> CardView {
        CardView {
            number: self.number@,
            parallel_id: self.parallel_id,
            count: self.count,
        }
    }
}

impl PartialEq for Card {
    fn eq(&self, other: &Card) -> (r: bool) {
        self.number == other.number && self.parallel_id == other.parallel_id
            && self.count == other.count
    }
}

impl vstd::std_specs::cmp::PartialEqSpecImpl for Card {
    open spec fn obeys_eq_spec() -> bool {
        true
    }

    open spec fn eq_spec(&self, other: &Card) -> bool {
        self@ == other@
    }
}

/// Deck language.
#[derive(Clone, Copy, Debug, PartialEq, Eq, Structural)]
pub enum Language {
    /// Japanese
    Japanese,
    /// English
    English,
    /// Chinese
    Chinese,
    /// Korean
    Korean,
}

/// A deck: digi-egg cards, the main deck, an optional sideboard, and metadata.
#[derive(Clone, Debug)]
pub struct Deck {
    /// Cards in the digi-egg deck.
    pub digi_eggs: Vec<Card>,
    /// Cards in the main deck.
    pub deck: Vec<Card>,
    /// Cards in the sideboard (empty below version 2).
    pub sideboard: Vec<Card>,
    /// Deck icon (versions 4 and up).
    pub icon: Option<String>,
    /// Deck language (versions 3 and up).
    pub language: Option<Language>,
    /// Deck name.
    pub name: String,
}

/// Ghost image of a `Deck`.
#[verifier::ext_equal]
pub struct DeckView {
    /// Cards in the digi-egg deck.
    pub digi_eggs: Seq<CardView>,
    /// Cards in the main deck.
    pub deck: Seq<CardView>,
    /// Cards in the sideboard.
    pub sideboard: Seq<CardView>,
    /// Deck icon characters, if present.
    pub icon: Option<Seq<char>>,
    /// Deck language, if present.
    pub language: Option<Language>,
    /// Deck name characters.
    pub name: Seq<char>,
}

/// The views of a sequence of cards.
pub open spec fn cards_view(s: Seq<Card>) -> Seq<CardView> {
    s.map_values(|c: Card| c@)
}

impl View for Deck {
    type V = DeckView;

    open spec fn view(&self) -> DeckView {
        DeckView {
            digi_eggs: cards_view(self.digi_eggs@),
            deck: cards_view(self.deck@),
            sideboard: cards_view(self.sideboard@),
            icon: match self.icon {
                Some(s) => Some(s@),
                None => None,
            },
            language: self.language,
            name: self.name@,
        }
    }
}

impl PartialEq for Deck {
    fn eq(&self, other: &Deck) -> (r: bool) {
        let icon_eq = match (&self.icon, &other.icon) {
            (Some(a), Some(b)) => *a == *b,
            (None, None) => true,
            _ => false,
        };
        let lang_eq = match (&self.language, &other.language) {
            (Some(a), Some(b)) => a == b,
            (None, None) => true,
            _ => false,
        };
        icon_eq && lang_eq && self.name == other.name && self.digi_eggs == other.digi_eggs
            && self.deck == other.deck && self.sideboard == other.sideboard
    }
}

impl vstd::std_specs::cmp::PartialEqSpecImpl for Deck {
    open spec fn obeys_eq_spec() -> bool {
        true
    }

    open spec fn eq_spec(&self, other: &Deck) -> bool {
        &&& match (self.icon, other.icon) {
            (Some(a), Some(b)) => a@ == b@,
            (None, None) => true,
            _ => false,
        }
        &&& self.language == other.language
        &&& self.name@ == other.name@
        &&& vstd::std_specs::cmp::PartialEqSpec::eq_spec(&self.digi_eggs, &other.digi_eggs)
        &&& vstd::std_specs::cmp::PartialEqSpec::eq_spec(&self.deck, &other.deck)
        &&& vstd::std_specs::cmp::PartialEqSpec::eq_spec(&self.sideboard, &other.sideboard)
    }
}

/// Why a deck code or a deck could not be converted.
#[derive(Clone, Copy, Debug, PartialEq, Eq, Structural)]
pub enum CodecError {
    /// The deck code does not start with the "DCG" marker.
    InvalidPrefix,
    /// The format version is newer than this codec understands.
    UnsupportedVersion,
    /// The stored checksum does not match the card bytes.
    ChecksumMismatch,
    /// Fewer bytes or cards remain than a declared field needs.
    TruncatedBuffer,
    /// The base64 transport layer rejected the code.
    MalformedTransportEncoding,
    /// Name or icon bytes are not valid UTF-8.
    InvalidText,
    /// A field cannot be represented at encode time.
    OutOfRangeField,
}

/// Sum of the byte values of `s`.
pub open spec fn byte_sum(s: Seq<u8>) -> nat
    decreases s.len(),
{
    if s.len() == 0 {
        0
    } else {
        byte_sum(s.drop_last()) + s.last() as nat
    }
}

/// The checksum of a byte run is its byte sum reduced modulo 256.
pub open spec fn checksum_spec(s: Seq<u8>) -> nat {
    byte_sum(s) % 256
}

/// Compute the checksum over the leading `total_card_bytes` bytes of `deck_bytes`,
/// the region between the header and the trailing deck name.
pub fn compute_checksum(total_card_bytes: usize, deck_bytes: &[u8]) -> (r: u8)
    requires
        total_card_bytes <= deck_bytes@.len(),
    ensures
        r as nat == checksum_spec(deck_bytes@.take(total_card_bytes as int)),
{
    let mut sum: u32 = 0;
    let mut i: usize = 0;
    while i < total_card_bytes
        invariant
            i <= total_card_bytes <= deck_bytes@.len(),
            sum < 256,
            sum as nat == checksum_spec(deck_bytes@.take(i as int)),
        decreases total_card_bytes - i,
    {
        let b = deck_bytes[i];
        proof {
            let pre = deck_bytes@.take(i as int);
            let post = deck_bytes@.take(i + 1);
            assert(post.drop_last() =~= pre);
            assert(byte_sum(post) == byte_sum(pre) + b);
            lemma_small_mod(b as nat, 256);
            lemma_add_mod_noop(byte_sum(pre) as int, b as int, 256);
        }
        sum = (sum + b as u32) % 256;
        i += 1;
    }
    sum as u8
}

/// Value of one base36 alphabet character.
pub open spec fn base36_char(n: u8) -> char
    recommends
        n < 36,
{
    if n < 10 {
        ((n + 48) as u32) as char
    } else {
        ((n + 55) as u32) as char
    }
}

/// What `base36_to_char` returns: one alphabet character for 0 to 35, nothing otherwise.
pub open spec fn base36_str(n: u8) -> Seq<char> {
    if n < 36 {
        seq![base36_char(n)]
    } else {
        Seq::empty()
    }
}

/// Convert a u8 to a base36 character; values past 35 give the empty string.
pub fn base36_to_char(base36: u8) -> (r: &'static str)
    ensures
        r@ == base36_str(base36),
{
    let r: &'static str = match base36 {
        0 => "0",
        1 => "1",
        2 => "2",
        3 => "3",
        4 => "4",
        5 => "5",
        6 => "6",
        7 => "7",
        8 => "8",
        9 => "9",
        10 => "A",
        11 => "B",
        12 => "C",
        13 => "D",
        14 => "E",
        15 => "F",
        16 => "G",
        17 => "H",
        18 => "I",
        19 => "J",
        20 => "K",
        21 => "L",
        22 => "M",
        23 => "N",
        24 => "O",
        25 => "P",
        26 => "Q",
        27 => "R",
        28 => "S",
        29 => "T",
        30 => "U",
        31 => "V",
        32 => "W",
        33 => "X",
        34 => "Y",
        35 => "Z",
        _ => "",
    };
    proof {
        reveal_strlit("0");
        reveal_strlit("1");
        reveal_strlit("2");
        reveal_strlit("3");
        reveal_strlit("4");
        reveal_strlit("5");
        reveal_strlit("6");
        reveal_strlit("7");
        reveal_strlit("8");
        reveal_strlit("9");
        reveal_strlit("A");
        reveal_strlit("B");
        reveal_strlit("C");
        reveal_strlit("D");
        reveal_strlit("E");
        reveal_strlit("F");
        reveal_strlit("G");
        reveal_strlit("H");
        reveal_strlit("I");
        reveal_strlit("J");
        reveal_strlit("K");
        reveal_strlit("L");
        reveal_strlit("M");
        reveal_strlit("N");
        reveal_strlit("O");
        reveal_strlit("P");
        reveal_strlit("Q");
        reveal_strlit("R");
        reveal_strlit("S");
        reveal_strlit("T");
        reveal_strlit("U");
        reveal_strlit("V");
        reveal_strlit("W");
        reveal_strlit("X");
        reveal_strlit("Y");
        reveal_strlit("Z");
        reveal_strlit("");
        assert(r@ =~= base36_str(base36));
    }
    r
}

/// Numeric value of a base36 character; case-insensitive, 0 for anything else.
pub open spec fn char36(c: char) -> u8 {
    if 48 <= c as u32 && c as u32 <= 57 {
        ((c as u32) - 48) as u8
    } else if 65 <= c as u32 && c as u32 <= 90 {
        ((c as u32) - 55) as u8
    } else if 97 <= c as u32 && c as u32 <= 122 {
        ((c as u32) - 87) as u8
    } else {
        0
    }
}

/// Convert a base36 character to its value.
pub fn char_to_base36(chr: &char) -> (r: u8)
    ensures
        r == char36(*chr),
{
    let u = *chr as u32;
    if 48 <= u && u <= 57 {
        (u - 48) as u8
    } else if 65 <= u && u <= 90 {
        (u - 55) as u8
    } else if 97 <= u && u <= 122 {
        (u - 87) as u8
    } else {
        0
    }
}

} // verus!
