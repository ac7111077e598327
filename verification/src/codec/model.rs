//! Ghost model of the wire format.
//!
//! Everything the contracts of `decode` and `encode` say is phrased over the
//! functions in this module: the exact byte sequence a deck encodes to
//! (`payload_of`), the exact result of parsing a payload (`parse_payload`),
//! and the side conditions under which the two invert each other
//! (`encodable`, `canonical`).

use vstd::prelude::*;
use vstd::utf8::{encode_utf8, decode_utf8, valid_utf8, is_char_boundary, is_ascii_chars};
use vstd::relations::sorted_by;
use crate::codec::{
    CardView, DeckView, Language, CodecError, base36_char, base36_str, char36, checksum_spec,
};

verus! {

// ------------------------------------------------------------------
// Characters and trimming
// ------------------------------------------------------------------

/// The whitespace characters that decoding strips from names, icons,
/// and version-0 set codes.
pub open spec fn is_space(c: char) -> bool {
    c == ' ' || c == '\t' || c == '\n' || c == '\r'
}

/// `s` without its leading whitespace.
pub open spec fn trim_front(s: Seq<char>) -> Seq<char>
    decreases s.len(),
{
    if s.len() > 0 && is_space(s[0]) {
        trim_front(s.drop_first())
    } else {
        s
    }
}

/// `s` without its trailing whitespace.
pub open spec fn trim_back(s: Seq<char>) -> Seq<char>
    decreases s.len(),
{
    if s.len() > 0 && is_space(s.last()) {
        trim_back(s.drop_last())
    } else {
        s
    }
}

/// `s` without leading and trailing whitespace.
pub open spec fn trim_chars(s: Seq<char>) -> Seq<char> {
    trim_back(trim_front(s))
}

/// A character of the canonical base36 alphabet: a digit or an upper-case letter.
pub open spec fn canon36(c: char) -> bool {
    (48 <= c as u32 && c as u32 <= 57) || (65 <= c as u32 && c as u32 <= 90)
}

// ------------------------------------------------------------------
// Decimal digits
// ------------------------------------------------------------------

/// An ASCII decimal digit.
pub open spec fn is_digit(c: char) -> bool {
    48 <= c as u32 && c as u32 <= 57
}

/// Every character of `s` is a decimal digit.
pub open spec fn all_digits(s: Seq<char>) -> bool {
    forall|i: int| 0 <= i < s.len() ==> is_digit(#[trigger] s[i])
}

/// Numeric value of one digit character.
pub open spec fn digit_val(c: char) -> nat
    recommends
        is_digit(c),
{
    ((c as u32) - 48) as nat
}

/// Numeric value of a digit string.
pub open spec fn dec_value(s: Seq<char>) -> nat
    decreases s.len(),
{
    if s.len() == 0 {
        0
    } else {
        dec_value(s.drop_last()) * 10 + digit_val(s.last())
    }
}

/// Ten to the `w`.
pub open spec fn pow10(w: nat) -> nat
    decreases w,
{
    if w == 0 {
        1
    } else {
        10 * pow10((w - 1) as nat)
    }
}

/// How many digits the decimal rendering of `n` needs.
pub open spec fn min_digits(n: nat) -> nat
    decreases n,
{
    if n < 10 {
        1
    } else {
        1 + min_digits(n / 10)
    }
}

/// `n` rendered as exactly `w` decimal digits, most significant first.
pub open spec fn dec_render_fixed(n: nat, w: nat) -> Seq<char>
    recommends
        n < pow10(w),
    decreases w,
{
    if w == 0 {
        Seq::empty()
    } else {
        dec_render_fixed(n / 10, (w - 1) as nat).push(base36_char((n % 10) as u8))
    }
}

/// `n` rendered in decimal, zero-padded on the left to at least `w` digits.
pub open spec fn dec_render(n: nat, w: nat) -> Seq<char> {
    if min_digits(n) <= w {
        dec_render_fixed(n, w)
    } else {
        dec_render_fixed(n, min_digits(n))
    }
}

// ------------------------------------------------------------------
// Card numbers: "SET-DIGITS"
// ------------------------------------------------------------------

/// Index of the first '-' in `s`, or `s.len()` when there is none.
pub open spec fn find_dash(s: Seq<char>) -> int
    decreases s.len(),
{
    if s.len() == 0 {
        0
    } else if s[0] == '-' {
        0
    } else {
        1 + find_dash(s.drop_first())
    }
}

/// The set-code part of a card number: everything before the first '-'.
pub open spec fn set_of(number: Seq<char>) -> Seq<char> {
    number.take(find_dash(number))
}

/// The digit part of a card number: everything after the first '-'.
pub open spec fn digits_of(number: Seq<char>) -> Seq<char> {
    number.skip(find_dash(number) + 1)
}

/// The zero-padding width a card number carries: the length of its digit part.
pub open spec fn pad_of(number: Seq<char>) -> nat {
    digits_of(number).len()
}

/// The numeric identifier a card number carries.
pub open spec fn num_of(number: Seq<char>) -> nat {
    dec_value(digits_of(number))
}

/// A card number an encoder can take apart: a nonempty set code, one '-',
/// and one to four digits.
pub open spec fn num_wf(number: Seq<char>) -> bool {
    let i = find_dash(number);
    &&& 1 <= i
    &&& i < number.len()
    &&& number.len() - i - 1 >= 1
    &&& number.len() - i - 1 <= 4
    &&& all_digits(digits_of(number))
}

// ------------------------------------------------------------------
// Ordering of cards
// ------------------------------------------------------------------

/// Strict lexicographic order on character sequences.
pub open spec fn str_lt(a: Seq<char>, b: Seq<char>) -> bool
    decreases a.len(),
{
    if a.len() == 0 {
        b.len() > 0
    } else if b.len() == 0 {
        false
    } else if (a[0] as u32) < (b[0] as u32) {
        true
    } else {
        a[0] == b[0] && str_lt(a.drop_first(), b.drop_first())
    }
}

/// The order encoding sorts cards by: number string, then parallel id, then count.
pub open spec fn card_le(a: CardView, b: CardView) -> bool {
    ||| str_lt(a.number, b.number)
    ||| (a.number == b.number && (a.parallel_id < b.parallel_id || (a.parallel_id
        == b.parallel_id && a.count <= b.count)))
}

/// `card_le` as a first-class function, for `sort_by`.
pub open spec fn card_le_fn() -> spec_fn(CardView, CardView) -> bool {
    |a: CardView, b: CardView| card_le(a, b)
}

// ------------------------------------------------------------------
// Variable-width integers with a carry bit
// ------------------------------------------------------------------

/// The value bits a varint stores in its first, shared byte: the low bits of
/// `value` below `m`, plus `m` itself as the carry flag when more bits follow.
pub open spec fn vfirst(value: nat, m: nat) -> nat
    recommends
        m >= 1,
{
    value % m + if value >= m { m } else { 0 as nat }
}

/// The trailing varint bytes: seven value bits each, bit 7 flagging continuation.
pub open spec fn vtail(rem: nat) -> Seq<u8>
    decreases rem,
{
    if rem == 0 {
        Seq::empty()
    } else {
        seq![(rem % 128 + if rem >= 128 { 128 as nat } else { 0 as nat }) as u8] + vtail(rem / 128)
    }
}

/// Parse the trailing varint bytes at `pos`, having already accumulated `acc`,
/// with the next seven bits weighing `mult`.  Values that do not fit in 32 bits
/// are rejected.
pub open spec fn parse_vtail(p: Seq<u8>, pos: int, limit: int, acc: nat, mult: nat) -> Result<
    (u32, int),
    CodecError,
>
    decreases limit - pos,
{
    if pos >= limit {
        Err(CodecError::TruncatedBuffer)
    } else {
        let b = p[pos];
        if mult > 0xFFFF_FFFF {
            Err(CodecError::OutOfRangeField)
        } else {
            let acc2 = acc + ((b as nat) % 128) * mult;
            if acc2 > 0xFFFF_FFFF {
                Err(CodecError::OutOfRangeField)
            } else if b < 128 {
                Ok((acc2 as u32, pos + 1))
            } else {
                parse_vtail(p, pos + 1, limit, acc2, mult * 128)
            }
        }
    }
}

/// Parse a varint whose first `w` bits sit in `field` (value bits below `m`,
/// carry flag at `m`); continuation bytes start at `pos`.
pub open spec fn parse_varint(p: Seq<u8>, pos: int, limit: int, field: u8, m: u8) -> Result<
    (u32, int),
    CodecError,
> {
    let low = (field as nat) % (m as nat);
    if (field as nat) % (2 * m as nat) < (m as nat) {
        Ok((low as u32, pos))
    } else {
        parse_vtail(p, pos, limit, low, m as nat)
    }
}

// ------------------------------------------------------------------
// Grouping cards by set code and padding width
// ------------------------------------------------------------------

/// One encoded card group: a set code, a zero-padding width, and the cards
/// of a maximal consecutive run sharing both.
#[verifier::ext_equal]
pub struct GroupView {
    /// The shared set code.
    pub set: Seq<char>,
    /// The shared zero-padding width of the numeric part.
    pub pad: nat,
    /// The cards of the run, in order.
    pub cards: Seq<CardView>,
}

/// Length of the prefix of `cards` whose set code and padding are `set` and `pad`.
pub open spec fn run_len(cards: Seq<CardView>, set: Seq<char>, pad: nat) -> nat
    decreases cards.len(),
{
    if cards.len() == 0 {
        0
    } else if set_of(cards[0].number) == set && pad_of(cards[0].number) == pad {
        1 + run_len(cards.drop_first(), set, pad)
    } else {
        0
    }
}

/// Partition `cards` into maximal consecutive runs sharing (set, padding).
pub open spec fn groups_of(cards: Seq<CardView>) -> Seq<GroupView>
    decreases cards.len(),
{
    if cards.len() == 0 {
        Seq::empty()
    } else {
        let set = set_of(cards[0].number);
        let pad = pad_of(cards[0].number);
        let n = 1 + run_len(cards.drop_first(), set, pad);
        let k: int = if n <= cards.len() {
            n as int
        } else {
            cards.len() as int
        };
        seq![GroupView { set, pad, cards: cards.take(k) }] + groups_of(cards.skip(k))
    }
}

/// All cards of a group list, in order.
pub open spec fn flatten_groups(gs: Seq<GroupView>) -> Seq<CardView>
    decreases gs.len(),
{
    if gs.len() == 0 {
        Seq::empty()
    } else {
        gs[0].cards + flatten_groups(gs.drop_first())
    }
}

// ------------------------------------------------------------------
// Payload emission
// ------------------------------------------------------------------

/// The bytes of a set code: version 0 stores four raw ASCII bytes padded with
/// spaces; later versions store one base36 byte per character, bit 7 flagging
/// that more follow.
pub open spec fn set_bytes(set: Seq<char>, version: u8) -> Seq<u8> {
    if version == 0 {
        Seq::new(4, |i: int| if i < set.len() { (set[i] as u32) as u8 } else { 32u8 })
    } else {
        Seq::new(
            set.len(),
            |i: int|
                (char36(set[i]) as nat + if i + 1 < set.len() {
                    128 as nat
                } else {
                    0 as nat
                }) as u8,
        )
    }
}

/// The bytes of one card, relative to the previous card number `prev` of its
/// group.  Version 0 packs count, parallel id, and the delta start into one
/// byte; later versions use a count byte and a parallel-id/delta byte.
pub open spec fn card_bytes(c: CardView, prev: nat, version: u8) -> Seq<u8>
    recommends
        num_of(c.number) >= prev,
{
    let delta = (num_of(c.number) - prev) as nat;
    if version == 0 {
        seq![
            ((((c.count as int - 1) % 4) as nat) * 64 + ((c.parallel_id as nat) % 8) * 8 + vfirst(
                delta,
                4,
            )) as u8,
        ] + vtail(delta / 4)
    } else {
        seq![
            (((c.count as int - 1) % 256) as nat) as u8,
            (((c.parallel_id as nat) % 8) * 32 + vfirst(delta, 16)) as u8,
        ] + vtail(delta / 16)
    }
}

/// The bytes of a run of cards, threading the running card number.
pub open spec fn cards_bytes(cards: Seq<CardView>, prev: nat, version: u8) -> Seq<u8>
    decreases cards.len(),
{
    if cards.len() == 0 {
        Seq::empty()
    } else {
        card_bytes(cards[0], prev, version) + cards_bytes(
            cards.drop_first(),
            num_of(cards[0].number),
            version,
        )
    }
}

/// The field modulus a varint width stands for: two to the width less one.
pub open spec fn m_of(bits: u8) -> nat {
    if bits == 3 {
        4
    } else if bits == 5 {
        16
    } else if bits == 6 {
        32
    } else {
        128
    }
}

/// The low six bits of a group's padding/count byte: the literal count below
/// version 2, the first varint field from version 2 on.
pub open spec fn group_count_field(n: nat, version: u8) -> nat {
    if version >= 2 {
        vfirst(n, 32)
    } else {
        n % 64
    }
}

/// The bytes of one group record.
pub open spec fn group_bytes(g: GroupView, version: u8) -> Seq<u8> {
    let pad1 = (((g.pad as int) - 1) % 4) as nat;
    set_bytes(g.set, version) + seq![(pad1 * 64 + group_count_field(g.cards.len(), version)) as u8]
        + (if version >= 2 {
        vtail(g.cards.len() / 32)
    } else {
        Seq::empty()
    }) + cards_bytes(g.cards, 0, version)
}

/// The bytes of a list of group records.
pub open spec fn groups_bytes(gs: Seq<GroupView>, version: u8) -> Seq<u8>
    decreases gs.len(),
{
    if gs.len() == 0 {
        Seq::empty()
    } else {
        group_bytes(gs[0], version) + groups_bytes(gs.drop_first(), version)
    }
}

/// The number a language encodes to; an absent language encodes as English.
pub open spec fn lang_num(l: Option<Language>) -> nat {
    match l {
        Some(Language::Japanese) => 0,
        Some(Language::English) => 1,
        Some(Language::Chinese) => 2,
        Some(Language::Korean) => 3,
        None => 1,
    }
}

/// The language a number decodes to; unknown numbers fall back to English.
pub open spec fn lang_of(n: nat) -> Language {
    if n == 0 {
        Language::Japanese
    } else if n == 1 {
        Language::English
    } else if n == 2 {
        Language::Chinese
    } else if n == 3 {
        Language::Korean
    } else {
        Language::English
    }
}

/// How many digi-egg cards the header can count: versions 3 and 4 reserve a
/// bit of the nibble for the language.
pub open spec fn egg_cap(version: u8) -> nat {
    if 3 <= version && version <= 4 {
        7
    } else {
        15
    }
}

/// How many sideboard cards the count byte can carry: versions 4 and up
/// reserve its top bit for the icon flag.
pub open spec fn side_cap(version: u8) -> nat {
    if version >= 4 {
        127
    } else {
        255
    }
}

/// The canonical order encode puts a card slice into.
pub open spec fn sorted_cards(s: Seq<CardView>) -> Seq<CardView> {
    s.sort_by(card_le_fn())
}

/// The group records of a deck: each slice sorted, then grouped, in
/// digi-egg, main deck, sideboard order.
pub open spec fn deck_groups(d: DeckView) -> Seq<GroupView> {
    groups_of(sorted_cards(d.digi_eggs)) + groups_of(sorted_cards(d.deck)) + groups_of(
        sorted_cards(d.sideboard),
    )
}

/// Whether this version stores an icon for this deck.
pub open spec fn has_icon_field(d: DeckView, version: u8) -> bool {
    version >= 4 && d.icon is Some
}

/// The icon block: the icon's UTF-8 bytes padded with spaces to exactly
/// eight bytes, or cut to its first eight bytes.
pub open spec fn icon_block(icon: Seq<char>) -> Seq<u8> {
    let ib = encode_utf8(icon);
    if ib.len() >= 8 {
        ib.take(8)
    } else {
        ib + Seq::new((8 - ib.len()) as nat, |i: int| 32u8)
    }
}

/// The name region before truncation: the icon block, when stored, then the
/// name's UTF-8 bytes.
pub open spec fn name_base(d: DeckView, version: u8) -> Seq<u8> {
    if has_icon_field(d, version) {
        icon_block(d.icon.unwrap()) + encode_utf8(d.name)
    } else {
        encode_utf8(d.name)
    }
}

/// The largest character boundary of `bytes` at or below `limit`.
pub open spec fn trunc_idx(bytes: Seq<u8>, limit: int) -> int
    decreases limit,
{
    if limit <= 0 {
        0
    } else if bytes.len() <= limit {
        bytes.len() as int
    } else if is_char_boundary(bytes, limit) {
        limit
    } else {
        trunc_idx(bytes, limit - 1)
    }
}

/// The name bytes a deck encodes: the name region cut at a character
/// boundary to at most 63 bytes.
pub open spec fn name_bytes_of(d: DeckView, version: u8) -> Seq<u8> {
    let base = name_base(d, version);
    base.take(trunc_idx(base, 63))
}

/// The sideboard count byte (versions 2 and up), with the icon flag in its
/// top bit from version 4 on.
pub open spec fn side_byte(d: DeckView, version: u8) -> Seq<u8> {
    if version >= 4 {
        seq![
            ((if has_icon_field(d, version) {
                128 as nat
            } else {
                0 as nat
            }) + d.sideboard.len() % 128) as u8,
        ]
    } else if version >= 2 {
        seq![(d.sideboard.len() % 256) as u8]
    } else {
        Seq::empty()
    }
}

/// The checksummed region of the payload: the sideboard count byte, when
/// present, and all group records.
pub open spec fn body_of(d: DeckView, version: u8) -> Seq<u8> {
    side_byte(d, version) + groups_bytes(deck_groups(d), version)
}

/// Header byte 0: version in the high nibble; digi-egg count, sharing with a
/// language bit in versions 3 and 4, in the low nibble.
pub open spec fn byte0_of(d: DeckView, version: u8) -> u8 {
    if 3 <= version && version <= 4 {
        ((version as nat) * 16 + lang_num(d.language) * 8 + d.digi_eggs.len() % 8) as u8
    } else {
        ((version as nat) * 16 + d.digi_eggs.len() % 16) as u8
    }
}

/// Header byte 2: the name byte length, sharing with the language in
/// versions 5 and up.
pub open spec fn byte2_of(d: DeckView, version: u8) -> u8 {
    ((if version >= 5 {
        lang_num(d.language) * 64
    } else {
        0 as nat
    }) + name_bytes_of(d, version).len()) as u8
}

/// The full binary payload a deck encodes to.
pub open spec fn payload_of(d: DeckView, version: u8) -> Seq<u8> {
    let body = body_of(d, version);
    seq![byte0_of(d, version), checksum_spec(body) as u8, byte2_of(d, version)] + body
        + name_bytes_of(d, version)
}

// ------------------------------------------------------------------
// What encode accepts
// ------------------------------------------------------------------

/// A card the chosen version can represent.
pub open spec fn card_ok(c: CardView, version: u8) -> bool {
    &&& num_wf(c.number)
    &&& c.parallel_id <= 7
    &&& 1 <= c.count
    &&& c.count <= 256
    &&& (version == 0 ==> c.count <= 4 && set_of(c.number).len() <= 4 && is_ascii_chars(
        set_of(c.number),
    ))
}

/// Every card of the slice is representable.
pub open spec fn cards_ok(s: Seq<CardView>, version: u8) -> bool {
    forall|i: int| 0 <= i < s.len() ==> card_ok(#[trigger] s[i], version)
}

/// The icon, when stored, can be cut or padded to exactly eight bytes.
pub open spec fn icon_ok(d: DeckView, version: u8) -> bool {
    has_icon_field(d, version) ==> {
        let ib = encode_utf8(d.icon.unwrap());
        ib.len() <= 8 || is_char_boundary(ib, 8)
    }
}

/// Whether one group's card count fits the version's count field: six bits
/// below version 2, a 32-bit varint from version 2 on.
pub open spec fn group_fits(n: nat, version: u8) -> bool {
    if version < 2 {
        n <= 63
    } else {
        n <= 0xFFFF_FFFF
    }
}

/// Every group of the deck fits the version's count field.
pub open spec fn groups_small(d: DeckView, version: u8) -> bool {
    forall|i: int|
        0 <= i < deck_groups(d).len() ==> group_fits(
            (#[trigger] deck_groups(d)[i]).cards.len(),
            version,
        )
}

/// The per-field conditions `encode` checks before grouping.
pub open spec fn fields_ok(d: DeckView, version: u8) -> bool {
    &&& version <= 5
    &&& d.digi_eggs.len() <= egg_cap(version)
    &&& (version < 2 ==> d.sideboard.len() == 0)
    &&& d.sideboard.len() <= side_cap(version)
    &&& (3 <= version && version <= 4 ==> lang_num(d.language) <= 1)
    &&& icon_ok(d, version)
    &&& cards_ok(d.digi_eggs, version)
    &&& cards_ok(d.deck, version)
    &&& cards_ok(d.sideboard, version)
}

/// The decks `encode` accepts for a version: exactly these return `Ok`.
pub open spec fn encodable(d: DeckView, version: u8) -> bool {
    &&& fields_ok(d, version)
    &&& groups_small(d, version)
}

// ------------------------------------------------------------------
// Payload parsing
// ------------------------------------------------------------------

/// Parse a base36 set code: each byte holds one character in its low six
/// bits, bit 7 flags continuation.  Values past 35 add nothing.
pub open spec fn parse_set36(p: Seq<u8>, pos: int, limit: int, acc: Seq<char>) -> Result<
    (Seq<char>, int),
    CodecError,
>
    decreases limit - pos,
{
    if pos >= limit {
        Err(CodecError::TruncatedBuffer)
    } else {
        let b = p[pos];
        let acc2 = acc + base36_str((((b as nat) % 64) as u8));
        if b >= 128 {
            parse_set36(p, pos + 1, limit, acc2)
        } else {
            Ok((acc2, pos + 1))
        }
    }
}

/// Parse a set code at `pos`: four trimmed ASCII bytes in version 0, a
/// base36 run in later versions.
pub open spec fn parse_set(p: Seq<u8>, pos: int, limit: int, version: u8) -> Result<
    (Seq<char>, int),
    CodecError,
> {
    if version == 0 {
        if pos + 4 > limit {
            Err(CodecError::TruncatedBuffer)
        } else {
            let sb = p.subrange(pos, pos + 4);
            if valid_utf8(sb) {
                Ok((trim_chars(decode_utf8(sb)), pos + 4))
            } else {
                Err(CodecError::InvalidText)
            }
        }
    } else {
        parse_set36(p, pos, limit, Seq::empty())
    }
}

/// Parse a group's set code and its padding/count byte.
#[verifier::opaque]
pub open spec fn parse_group_header(p: Seq<u8>, pos: int, limit: int, version: u8) -> Result<
    ((Seq<char>, nat, u32), int),
    CodecError,
> {
    match parse_set(p, pos, limit, version) {
        Err(e) => Err(e),
        Ok((set, pos2)) => {
            if pos2 >= limit {
                Err(CodecError::TruncatedBuffer)
            } else {
                let pc = p[pos2];
                let pad = (pc as nat) / 64 + 1;
                if version >= 2 {
                    match parse_varint(p, pos2 + 1, limit, (((pc as nat) % 64) as u8), 32) {
                        Err(e) => Err(e),
                        Ok((n, pos3)) => Ok(((set, pad, n), pos3)),
                    }
                } else {
                    Ok(((set, pad, (((pc as nat) % 64) as u32)), pos2 + 1))
                }
            }
        },
    }
}

/// Build the card a parsed record stands for, accumulating the running number.
pub open spec fn mk_card(
    set: Seq<char>,
    pad: nat,
    prev: u32,
    delta: u32,
    cnt: nat,
    pid: u8,
    pos: int,
) -> Result<(CardView, u32, int), CodecError> {
    if prev + delta > 0xFFFF_FFFF {
        Err(CodecError::OutOfRangeField)
    } else {
        let num = (prev + delta) as u32;
        Ok(
            (
                CardView {
                    number: set + seq!['-'] + dec_render(num as nat, pad),
                    parallel_id: pid,
                    count: cnt as u16,
                },
                num,
                pos,
            ),
        )
    }
}

/// Parse one card record.
#[verifier::opaque]
pub open spec fn parse_card(
    p: Seq<u8>,
    pos: int,
    limit: int,
    version: u8,
    set: Seq<char>,
    pad: nat,
    prev: u32,
) -> Result<(CardView, u32, int), CodecError> {
    if version == 0 {
        if pos >= limit {
            Err(CodecError::TruncatedBuffer)
        } else {
            let b = p[pos];
            let cnt = (b as nat) / 64 + 1;
            let pid = (((b as nat) / 8) % 8) as u8;
            match parse_varint(p, pos + 1, limit, (((b as nat) % 8) as u8), 4) {
                Err(e) => Err(e),
                Ok((delta, pos2)) => mk_card(set, pad, prev, delta, cnt, pid, pos2),
            }
        }
    } else {
        if pos + 2 > limit {
            Err(CodecError::TruncatedBuffer)
        } else {
            let b1 = p[pos];
            let b2 = p[pos + 1];
            let cnt = (b1 as nat) + 1;
            let pid = ((b2 as nat) / 32) as u8;
            match parse_varint(p, pos + 2, limit, (((b2 as nat) % 32) as u8), 16) {
                Err(e) => Err(e),
                Ok((delta, pos2)) => mk_card(set, pad, prev, delta, cnt, pid, pos2),
            }
        }
    }
}

/// Parse `count` card records, appending to `acc`.
pub open spec fn parse_cards(
    p: Seq<u8>,
    pos: int,
    limit: int,
    version: u8,
    set: Seq<char>,
    pad: nat,
    count: nat,
    prev: u32,
    acc: Seq<CardView>,
) -> Result<(Seq<CardView>, int), CodecError>
    decreases count,
{
    if count == 0 {
        Ok((acc, pos))
    } else {
        match parse_card(p, pos, limit, version, set, pad, prev) {
            Err(e) => Err(e),
            Ok((c, num, pos2)) => parse_cards(
                p,
                pos2,
                limit,
                version,
                set,
                pad,
                (count - 1) as nat,
                num,
                acc.push(c),
            ),
        }
    }
}

/// Parse group records until the name boundary, collecting all cards.
/// Parsing always advances, so the fallback error is never reached.
pub open spec fn parse_groups(
    p: Seq<u8>,
    pos: int,
    limit: int,
    version: u8,
    acc: Seq<CardView>,
) -> Result<Seq<CardView>, CodecError>
    decreases limit - pos,
{
    if pos >= limit {
        Ok(acc)
    } else {
        match parse_group_header(p, pos, limit, version) {
            Err(e) => Err(e),
            Ok(((set, pad, n), pos2)) => match parse_cards(
                p,
                pos2,
                limit,
                version,
                set,
                pad,
                n as nat,
                0,
                acc,
            ) {
                Err(e) => Err(e),
                Ok((acc2, pos3)) => {
                    if pos < pos3 && pos3 <= limit {
                        parse_groups(p, pos3, limit, version, acc2)
                    } else {
                        Err(CodecError::TruncatedBuffer)
                    }
                },
            },
        }
    }
}

/// Slice the flat card list and attach the name region's fields.
pub open spec fn mk_deck(
    version: u8,
    egg: nat,
    side: nat,
    cards: Seq<CardView>,
    icon: Option<Seq<char>>,
    name: Seq<char>,
    language: Language,
) -> DeckView {
    DeckView {
        digi_eggs: cards.take(egg as int),
        deck: cards.subrange(egg as int, cards.len() - side),
        sideboard: if version >= 2 && side > 0 {
            cards.skip(cards.len() - side)
        } else {
            Seq::empty()
        },
        icon,
        language: if version >= 3 {
            Some(language)
        } else {
            None
        },
        name,
    }
}

/// Turn the trailing name region into icon and name.
pub open spec fn parse_tail(
    version: u8,
    icon_flag: bool,
    egg: nat,
    side: nat,
    cards: Seq<CardView>,
    nr: Seq<u8>,
    language: Language,
) -> Result<DeckView, CodecError> {
    if icon_flag {
        if nr.len() < 8 {
            Err(CodecError::TruncatedBuffer)
        } else if !valid_utf8(nr.take(8)) || !valid_utf8(nr.skip(8)) {
            Err(CodecError::InvalidText)
        } else {
            Ok(
                mk_deck(
                    version,
                    egg,
                    side,
                    cards,
                    Some(trim_chars(decode_utf8(nr.take(8)))),
                    trim_chars(decode_utf8(nr.skip(8))),
                    language,
                ),
            )
        }
    } else {
        if !valid_utf8(nr) {
            Err(CodecError::InvalidText)
        } else {
            Ok(mk_deck(version, egg, side, cards, None, trim_chars(decode_utf8(nr)), language))
        }
    }
}

/// The name-byte length a payload's header declares.
pub open spec fn name_len_spec(p: Seq<u8>) -> nat {
    if p.len() < 3 {
        0
    } else if (p[0] as nat) / 16 >= 5 {
        (p[2] as nat) % 64
    } else {
        p[2] as nat
    }
}

/// Parse a full binary payload into a deck.  This is the exact meaning of
/// `decode` once the transport layer is stripped.
#[verifier::opaque]
pub open spec fn parse_payload(p: Seq<u8>) -> Result<DeckView, CodecError> {
    if p.len() < 3 {
        Err(CodecError::TruncatedBuffer)
    } else {
        let b0 = p[0];
        let version = ((b0 as nat) / 16) as u8;
        if version > 5 {
            Err(CodecError::UnsupportedVersion)
        } else {
            let egg_count = if 3 <= version && version <= 4 {
                (b0 as nat) % 8
            } else {
                (b0 as nat) % 16
            };
            let stored = p[1];
            let nlb = p[2] as nat;
            let name_len = if version >= 5 {
                nlb % 64
            } else {
                nlb
            };
            if name_len > p.len() - 3 {
                Err(CodecError::TruncatedBuffer)
            } else {
                let limit = p.len() - name_len;
                let lnum = if version >= 5 {
                    nlb / 64
                } else {
                    ((b0 as nat) / 8) % 2
                };
                let language = lang_of(lnum);
                if checksum_spec(p.subrange(3, limit as int)) != stored as nat {
                    Err(CodecError::ChecksumMismatch)
                } else if version >= 2 && limit < 4 {
                    Err(CodecError::TruncatedBuffer)
                } else {
                    let sb = if version >= 2 {
                        p[3] as nat
                    } else {
                        0
                    };
                    let side_count = if version >= 4 {
                        sb % 128
                    } else {
                        sb
                    };
                    let icon_flag = version >= 4 && sb >= 128;
                    let pos0: int = if version >= 2 {
                        4
                    } else {
                        3
                    };
                    match parse_groups(p, pos0, limit as int, version, Seq::empty()) {
                        Err(e) => Err(e),
                        Ok(cards) => {
                            if egg_count > cards.len() {
                                Err(CodecError::TruncatedBuffer)
                            } else if side_count > cards.len() - egg_count {
                                Err(CodecError::TruncatedBuffer)
                            } else {
                                parse_tail(
                                    version,
                                    icon_flag,
                                    egg_count,
                                    side_count,
                                    cards,
                                    p.skip(limit as int),
                                    language,
                                )
                            }
                        },
                    }
                }
            }
        }
    }
}

// ------------------------------------------------------------------
// Canonical decks: the ones that round-trip exactly
// ------------------------------------------------------------------

/// A character run with no whitespace at either end; decoding's trims leave
/// it unchanged.
pub open spec fn no_edge_space(s: Seq<char>) -> bool {
    s.len() > 0 ==> !is_space(s[0]) && !is_space(s.last())
}

/// A card whose number survives the trip through the wire format exactly:
/// representable, with a canonical base36 set code.
pub open spec fn card_canon(c: CardView, version: u8) -> bool {
    &&& card_ok(c, version)
    &&& forall|i: int|
        0 <= i < set_of(c.number).len() ==> canon36(#[trigger] set_of(c.number)[i])
}

/// Every card of the slice is canonical.
pub open spec fn cards_canon(s: Seq<CardView>, version: u8) -> bool {
    forall|i: int| 0 <= i < s.len() ==> card_canon(#[trigger] s[i], version)
}

/// The decks the wire format represents exactly, so that decoding their
/// payload gives them back unchanged: encodable, each slice already in
/// canonical order, name and icon already trimmed and short enough, and
/// version-gated fields consistent.
pub open spec fn canonical(d: DeckView, version: u8) -> bool {
    &&& encodable(d, version)
    &&& cards_canon(d.digi_eggs, version)
    &&& cards_canon(d.deck, version)
    &&& cards_canon(d.sideboard, version)
    &&& sorted_by(d.digi_eggs, card_le_fn())
    &&& sorted_by(d.deck, card_le_fn())
    &&& sorted_by(d.sideboard, card_le_fn())
    &&& no_edge_space(d.name)
    &&& encode_utf8(d.name).len() + (if has_icon_field(d, version) {
        8 as nat
    } else {
        0 as nat
    }) <= 63
    &&& (version < 4 ==> d.icon is None)
    &&& (d.icon matches Some(ic) ==> encode_utf8(ic).len() <= 8 && no_edge_space(ic))
    &&& (version < 3 ==> d.language is None)
    &&& (3 <= version && version <= 4 ==> d.language == Some(Language::Japanese) || d.language
        == Some(Language::English))
    &&& (version >= 5 ==> d.language is Some)
}


// ------------------------------------------------------------------
// Properties of the ordering
// ------------------------------------------------------------------

/// Strict lexicographic order is asymmetric.
pub proof fn lemma_str_lt_asym(a: Seq<char>, b: Seq<char>)
    requires
        str_lt(a, b),
    ensures
        !str_lt(b, a),
    decreases a.len(),
{
    if a.len() > 0 && b.len() > 0 && a[0] == b[0] {
        lemma_str_lt_asym(a.drop_first(), b.drop_first());
    }
}

/// Two character runs are lexicographically comparable or equal.
pub proof fn lemma_str_lt_connected(a: Seq<char>, b: Seq<char>)
    ensures
        str_lt(a, b) || str_lt(b, a) || a == b,
    decreases a.len(),
{
    if a.len() == 0 {
        if b.len() == 0 {
            assert(a =~= b);
        }
    } else if b.len() == 0 {
    } else if (a[0] as u32) < (b[0] as u32) || (b[0] as u32) < (a[0] as u32) {
    } else {
        vstd::utf8::char_u32_cast(a[0], a[0] as u32);
        vstd::utf8::char_u32_cast(b[0], b[0] as u32);
        assert(a[0] == b[0]);
        lemma_str_lt_connected(a.drop_first(), b.drop_first());
        if a.drop_first() == b.drop_first() {
            assert(a.drop_first().len() == b.drop_first().len());
            assert(a.len() == b.len());
            assert forall|i: int| 0 <= i < a.len() implies a[i] == b[i] by {
                if i > 0 {
                    assert(a[i] == a.drop_first()[i - 1]);
                    assert(b[i] == b.drop_first()[i - 1]);
                }
            }
            assert(a =~= b);
        }
    }
}

/// Strict lexicographic order is transitive.
pub proof fn lemma_str_lt_trans(a: Seq<char>, b: Seq<char>, c: Seq<char>)
    requires
        str_lt(a, b),
        str_lt(b, c),
    ensures
        str_lt(a, c),
    decreases a.len(),
{
    if a.len() > 0 && b.len() > 0 && c.len() > 0 && a[0] == b[0] && b[0] == c[0] {
        lemma_str_lt_trans(a.drop_first(), b.drop_first(), c.drop_first());
    }
}

/// The card order is a total order, as `sort_by` requires.
pub proof fn lemma_card_le_total()
    ensures
        vstd::relations::total_ordering(card_le_fn()),
{
    let leq = card_le_fn();
    assert forall|x: CardView, y: CardView| #[trigger] leq(x, y) && #[trigger] leq(y, x) implies x
        == y by {
        if str_lt(x.number, y.number) {
            lemma_str_lt_asym(x.number, y.number);
        } else if str_lt(y.number, x.number) {
            lemma_str_lt_asym(y.number, x.number);
        } else {
            assert(x =~= y);
        }
    }
    assert forall|x: CardView, y: CardView, z: CardView|
        #[trigger] leq(x, y) && #[trigger] leq(y, z) implies leq(x, z) by {
        if str_lt(x.number, y.number) && str_lt(y.number, z.number) {
            lemma_str_lt_trans(x.number, y.number, z.number);
        }
    }
    assert forall|x: CardView, y: CardView| #[trigger] leq(x, y) || #[trigger] leq(y, x) by {
        lemma_str_lt_connected(x.number, y.number);
    }
}

/// Appending a common prefix to both sides leaves the order unchanged.
pub proof fn lemma_str_lt_prefix(p: Seq<char>, a: Seq<char>, b: Seq<char>)
    ensures
        str_lt(p + a, p + b) == str_lt(a, b),
    decreases p.len(),
{
    if p.len() == 0 {
        assert(p + a =~= a);
        assert(p + b =~= b);
    } else {
        assert((p + a).drop_first() =~= p.drop_first() + a);
        assert((p + b).drop_first() =~= p.drop_first() + b);
        lemma_str_lt_prefix(p.drop_first(), a, b);
    }
}

// ------------------------------------------------------------------
// Properties of decimal digits
// ------------------------------------------------------------------

/// The value of a digit string fits its width.
pub proof fn lemma_dec_value_bound(s: Seq<char>)
    requires
        all_digits(s),
    ensures
        dec_value(s) < pow10(s.len()),
    decreases s.len(),
{
    if s.len() > 0 {
        assert(all_digits(s.drop_last())) by {
            assert(forall|i: int|
                0 <= i < s.len() - 1 ==> #[trigger] s.drop_last()[i] == s[i]);
        }
        lemma_dec_value_bound(s.drop_last());
    }
}

/// A fixed-width rendering has that width and is all digits.
pub proof fn lemma_render_fixed_shape(n: nat, w: nat)
    ensures
        dec_render_fixed(n, w).len() == w,
        all_digits(dec_render_fixed(n, w)),
    decreases w,
{
    if w > 0 {
        lemma_render_fixed_shape(n / 10, (w - 1) as nat);
    }
}

/// Rendering the value of a digit string at its own width gives it back.
pub proof fn lemma_render_of_value(s: Seq<char>)
    requires
        all_digits(s),
    ensures
        dec_render_fixed(dec_value(s), s.len()) == s,
    decreases s.len(),
{
    if s.len() > 0 {
        let v = dec_value(s);
        let front = s.drop_last();
        assert(all_digits(front)) by {
            assert(forall|i: int| 0 <= i < s.len() - 1 ==> #[trigger] front[i] == s[i]);
        }
        lemma_render_of_value(front);
        assert(v == dec_value(front) * 10 + digit_val(s.last()));
        assert(v / 10 == dec_value(front) && v % 10 == digit_val(s.last())) by (nonlinear_arith)
            requires
                v == dec_value(front) * 10 + digit_val(s.last()),
                digit_val(s.last()) < 10,
        ;
        assert(base36_char((v % 10) as u8) == s.last()) by {
            vstd::utf8::char_u32_cast(s.last(), s.last() as u32);
        }
        assert(dec_render_fixed(v, s.len()) =~= s);
    }
}

/// A number below ten to the `w` needs at most `w` digits.
pub proof fn lemma_min_digits_le(n: nat, w: nat)
    requires
        n < pow10(w),
        w >= 1,
    ensures
        min_digits(n) <= w,
    decreases w,
{
    if n >= 10 {
        assert(pow10(w) == 10 * pow10((w - 1) as nat));
        assert(n / 10 < pow10((w - 1) as nat)) by (nonlinear_arith)
            requires
                n < 10 * pow10((w - 1) as nat),
        ;
        lemma_min_digits_le(n / 10, (w - 1) as nat);
    }
}

/// On equal-width digit strings the lexicographic order is the numeric order.
pub proof fn lemma_str_lt_digits(a: Seq<char>, b: Seq<char>)
    requires
        all_digits(a),
        all_digits(b),
        a.len() == b.len(),
        str_lt(a, b),
    ensures
        dec_value(a) < dec_value(b),
    decreases a.len(),
{
    if a.len() > 0 {
        if a[0] == b[0] {
            let at = a.drop_first();
            let bt = b.drop_first();
            assert(all_digits(at) && all_digits(bt)) by {
                assert(forall|i: int| 0 <= i < at.len() ==> #[trigger] at[i] == a[i + 1]);
                assert(forall|i: int| 0 <= i < bt.len() ==> #[trigger] bt[i] == b[i + 1]);
            }
            lemma_str_lt_digits(at, bt);
            lemma_dec_value_left(a);
            lemma_dec_value_left(b);
        } else {
            lemma_dec_value_left(a);
            lemma_dec_value_left(b);
            let at = a.drop_first();
            let bt = b.drop_first();
            assert(all_digits(at) && all_digits(bt)) by {
                assert(forall|i: int| 0 <= i < at.len() ==> #[trigger] at[i] == a[i + 1]);
                assert(forall|i: int| 0 <= i < bt.len() ==> #[trigger] bt[i] == b[i + 1]);
            }
            lemma_dec_value_bound(at);
            lemma_dec_value_bound(bt);
            assert(digit_val(a[0]) < digit_val(b[0]));
            assert(dec_value(a) < dec_value(b)) by (nonlinear_arith)
                requires
                    dec_value(a) == digit_val(a[0]) * pow10(at.len()) + dec_value(at),
                    dec_value(b) == digit_val(b[0]) * pow10(bt.len()) + dec_value(bt),
                    dec_value(at) < pow10(at.len()),
                    digit_val(a[0]) < digit_val(b[0]),
                    at.len() == bt.len(),
            ;
        }
    }
}

/// The value of a digit string, peeled from the left.
pub proof fn lemma_dec_value_left(s: Seq<char>)
    requires
        s.len() > 0,
    ensures
        dec_value(s) == digit_val(s[0]) * pow10((s.len() - 1) as nat) + dec_value(s.drop_first()),
    decreases s.len(),
{
    if s.len() == 1 {
        assert(s.drop_first() =~= Seq::<char>::empty());
        assert(s.drop_last() =~= Seq::<char>::empty());
        assert(dec_value(Seq::<char>::empty()) == 0);
        assert(dec_value(s) == digit_val(s.last()));
        assert(s.last() == s[0]);
        assert(pow10(0) == 1);
        assert(dec_value(s.drop_first()) == 0);
        assert((s.len() - 1) as nat == 0);
        assert(digit_val(s[0]) * pow10((s.len() - 1) as nat) == digit_val(s[0]))
            by (nonlinear_arith)
            requires
                pow10((s.len() - 1) as nat) == 1,
        ;
        assert(dec_value(s) == digit_val(s[0]) * pow10((s.len() - 1) as nat) + dec_value(
            s.drop_first(),
        ));
    } else {
        let front = s.drop_last();
        lemma_dec_value_left(front);
        assert(front[0] == s[0]);
        assert(s.drop_first().drop_last() =~= front.drop_first());
        assert(s.drop_first().last() == s.last());
        let k = (front.len() - 1) as nat;
        let d0 = digit_val(s[0]);
        let dl = digit_val(s.last());
        let x = dec_value(front.drop_first());
        assert(dec_value(s) == dec_value(front) * 10 + dl);
        assert(dec_value(front) == d0 * pow10(k) + x);
        assert(dec_value(s.drop_first()) == x * 10 + dl);
        assert(pow10((s.len() - 1) as nat) == 10 * pow10(k));
        assert((d0 * pow10(k) + x) * 10 + dl == d0 * (10 * pow10(k)) + (x * 10 + dl))
            by (nonlinear_arith);
        assert(dec_value(s) == d0 * pow10((s.len() - 1) as nat) + dec_value(s.drop_first()));
    }
}

// ------------------------------------------------------------------
// Properties of card numbers
// ------------------------------------------------------------------

/// Where the first dash sits: no dash before it, a dash at it if in range.
pub proof fn lemma_find_dash_props(s: Seq<char>)
    ensures
        0 <= find_dash(s) <= s.len(),
        forall|i: int| 0 <= i < find_dash(s) ==> s[i] != '-',
        find_dash(s) < s.len() ==> s[find_dash(s)] == '-',
    decreases s.len(),
{
    if s.len() > 0 && s[0] != '-' {
        lemma_find_dash_props(s.drop_first());
        assert forall|i: int| 0 <= i < find_dash(s) implies s[i] != '-' by {
            if i >= 1 {
                assert(s[i] == s.drop_first()[i - 1]);
            }
        }
    }
}

/// A well-formed number is its set code, a dash, and its digits.
pub proof fn lemma_number_decomp(number: Seq<char>)
    requires
        num_wf(number),
    ensures
        number == set_of(number) + seq!['-'] + digits_of(number),
        set_of(number).len() == find_dash(number),
        digits_of(number).len() == number.len() - find_dash(number) - 1,
{
    lemma_find_dash_props(number);
    assert(number =~= set_of(number) + seq!['-'] + digits_of(number));
}

// ------------------------------------------------------------------
// Properties of grouping
// ------------------------------------------------------------------

/// A run prefix is no longer than the cards it is drawn from.
pub proof fn lemma_run_len_bound(cards: Seq<CardView>, set: Seq<char>, pad: nat)
    ensures
        run_len(cards, set, pad) <= cards.len(),
    decreases cards.len(),
{
    if cards.len() > 0 && set_of(cards[0].number) == set && pad_of(cards[0].number) == pad {
        lemma_run_len_bound(cards.drop_first(), set, pad);
    }
}

/// What a run prefix means: every card in it keys alike, and the next does not.
pub proof fn lemma_run_len_props(cards: Seq<CardView>, set: Seq<char>, pad: nat)
    ensures
        run_len(cards, set, pad) <= cards.len(),
        forall|i: int|
            0 <= i < run_len(cards, set, pad) ==> set_of(#[trigger] cards[i].number) == set
                && pad_of(cards[i].number) == pad,
        run_len(cards, set, pad) < cards.len() ==> !(set_of(
            cards[run_len(cards, set, pad) as int].number,
        ) == set && pad_of(cards[run_len(cards, set, pad) as int].number) == pad),
    decreases cards.len(),
{
    if cards.len() > 0 && set_of(cards[0].number) == set && pad_of(cards[0].number) == pad {
        lemma_run_len_props(cards.drop_first(), set, pad);
        assert(forall|i: int|
            1 <= i < cards.len() ==> #[trigger] cards[i] == cards.drop_first()[i - 1]);
    }
}

/// The groups of a card list flatten back to the list.
pub proof fn lemma_flatten_groups_of(cards: Seq<CardView>)
    ensures
        flatten_groups(groups_of(cards)) == cards,
    decreases cards.len(),
{
    if cards.len() > 0 {
        let set = set_of(cards[0].number);
        let pad = pad_of(cards[0].number);
        let n = 1 + run_len(cards.drop_first(), set, pad);
        lemma_run_len_bound(cards.drop_first(), set, pad);
        let k: int = n as int;
        lemma_flatten_groups_of(cards.skip(k));
        assert(groups_of(cards).drop_first() =~= groups_of(cards.skip(k)));
        assert(flatten_groups(groups_of(cards)) =~= cards.take(k) + flatten_groups(
            groups_of(cards.skip(k)),
        ));
        assert(cards.take(k) + cards.skip(k) =~= cards);
    }
}

// ------------------------------------------------------------------
// Concatenation lemmas for emitted bytes
// ------------------------------------------------------------------

/// Card bytes of a prefix from any starting number, extended by one card.
pub proof fn lemma_cards_bytes_snoc_from(cards: Seq<CardView>, j: int, prev: nat, version: u8)
    requires
        0 <= j < cards.len(),
    ensures
        cards_bytes(cards.take(j + 1), prev, version) == cards_bytes(cards.take(j), prev, version)
            + card_bytes(
            cards[j],
            if j == 0 {
                prev
            } else {
                num_of(cards[j - 1].number)
            },
            version,
        ),
    decreases j,
{
    if j == 0 {
        assert(cards.take(1).drop_first() =~= Seq::<CardView>::empty());
        assert(cards.take(1)[0] == cards[0]);
        assert(cards.take(0) =~= Seq::<CardView>::empty());
        assert(cards_bytes(Seq::<CardView>::empty(), num_of(cards[0].number), version)
            =~= Seq::<u8>::empty());
        assert(cards_bytes(Seq::<CardView>::empty(), prev, version) =~= Seq::<u8>::empty());
        assert(cards_bytes(cards.take(1), prev, version) =~= card_bytes(cards[0], prev, version));
    } else {
        let t1 = cards.take(j + 1);
        let t0 = cards.take(j);
        lemma_cards_bytes_snoc_from(cards.drop_first(), j - 1, num_of(cards[0].number), version);
        assert(t1.drop_first() =~= cards.drop_first().take(j));
        assert(t0.drop_first() =~= cards.drop_first().take(j - 1));
        assert(cards.drop_first().take(j - 1 + 1) =~= cards.drop_first().take(j));
        assert(t1[0] == cards[0] && t0[0] == cards[0]);
        assert(cards.drop_first()[j - 1] == cards[j]);
        if j >= 2 {
            assert(cards.drop_first()[j - 2] == cards[j - 1]);
        }
        assert(cards_bytes(t1, prev, version) == card_bytes(cards[0], prev, version)
            + cards_bytes(cards.drop_first().take(j), num_of(cards[0].number), version));
        assert(cards_bytes(t0, prev, version) == card_bytes(cards[0], prev, version)
            + cards_bytes(cards.drop_first().take(j - 1), num_of(cards[0].number), version));
        assert(cards_bytes(t1, prev, version) =~= cards_bytes(t0, prev, version) + card_bytes(
            cards[j],
            if j == 1 {
                num_of(cards[0].number)
            } else {
                num_of(cards[j - 1].number)
            },
            version,
        ));
    }
}

/// Group bytes of a prefix, extended by one group.
pub proof fn lemma_groups_bytes_snoc(gs: Seq<GroupView>, j: int, version: u8)
    requires
        0 <= j < gs.len(),
    ensures
        groups_bytes(gs.take(j + 1), version) == groups_bytes(gs.take(j), version) + group_bytes(
            gs[j],
            version,
        ),
    decreases j,
{
    if j == 0 {
        assert(gs.take(1).drop_first() =~= Seq::<GroupView>::empty());
        assert(gs.take(1)[0] == gs[0]);
        assert(gs.take(0) =~= Seq::<GroupView>::empty());
        assert(groups_bytes(Seq::<GroupView>::empty(), version) =~= Seq::<u8>::empty());
        assert(groups_bytes(gs.take(1), version) =~= group_bytes(gs[0], version));
    } else {
        lemma_groups_bytes_snoc(gs.drop_first(), j - 1, version);
        assert(gs.take(j + 1).drop_first() =~= gs.drop_first().take(j));
        assert(gs.take(j).drop_first() =~= gs.drop_first().take(j - 1));
        assert(gs.drop_first().take(j - 1 + 1) =~= gs.drop_first().take(j));
        assert(gs.drop_first()[j - 1] == gs[j]);
        assert(groups_bytes(gs.take(j + 1), version) =~= groups_bytes(gs.take(j), version)
            + group_bytes(gs[j], version));
    }
}

// ------------------------------------------------------------------
// Trimming lemmas
// ------------------------------------------------------------------

/// Dropping a leading whitespace block is all `trim_front` does.
pub proof fn lemma_trim_front_skip(s: Seq<char>, i: int)
    requires
        0 <= i <= s.len(),
        forall|j: int| 0 <= j < i ==> is_space(#[trigger] s[j]),
        i == s.len() || !is_space(s[i]),
    ensures
        trim_front(s) == s.skip(i),
    decreases i,
{
    if i == 0 {
        assert(s.skip(0) =~= s);
    } else {
        let t = s.drop_first();
        assert(forall|j: int| 0 <= j < i - 1 ==> is_space(#[trigger] t[j]));
        lemma_trim_front_skip(t, i - 1);
        assert(t.skip(i - 1) =~= s.skip(i));
    }
}

/// Dropping a trailing whitespace block is all `trim_back` does.
pub proof fn lemma_trim_back_take(s: Seq<char>, j: int)
    requires
        0 <= j <= s.len(),
        forall|k: int| j <= k < s.len() ==> is_space(#[trigger] s[k]),
        j == 0 || !is_space(s[j - 1]),
    ensures
        trim_back(s) == s.take(j),
    decreases s.len(),
{
    if j == s.len() {
        if s.len() == 0 || !is_space(s.last()) {
            assert(s.take(j) =~= s);
        } else {
            assert(false);
        }
    } else {
        let t = s.drop_last();
        assert(forall|k: int| j <= k < t.len() ==> is_space(#[trigger] t[k]));
        lemma_trim_back_take(t, j);
        assert(t.take(j) =~= s.take(j));
    }
}

/// A run without edge whitespace trims to itself.
pub proof fn lemma_trim_id(s: Seq<char>)
    requires
        no_edge_space(s),
    ensures
        trim_chars(s) == s,
{
    lemma_trim_front_skip(s, 0);
    assert(s.skip(0) =~= s);
    lemma_trim_back_take(s, s.len() as int);
    assert(s.take(s.len() as int) =~= s);
}


// ------------------------------------------------------------------
// More properties of grouping and ordering
// ------------------------------------------------------------------

/// The run length of a keyed block followed by a differing card is the
/// block's length.
pub proof fn lemma_run_len_concat(xs: Seq<CardView>, ys: Seq<CardView>, set: Seq<char>, pad: nat)
    requires
        forall|k: int|
            0 <= k < xs.len() ==> set_of(#[trigger] xs[k].number) == set && pad_of(xs[k].number)
                == pad,
        ys.len() == 0 || !(set_of(ys[0].number) == set && pad_of(ys[0].number) == pad),
    ensures
        run_len(xs + ys, set, pad) == xs.len(),
    decreases xs.len(),
{
    let s = xs + ys;
    if xs.len() == 0 {
        assert(s =~= ys);
        if ys.len() > 0 {
            assert(run_len(ys, set, pad) == 0);
        }
    } else {
        assert(s[0] == xs[0]);
        assert(s.drop_first() =~= xs.drop_first() + ys);
        assert(forall|k: int|
            0 <= k < xs.drop_first().len() ==> #[trigger] xs.drop_first()[k] == xs[k + 1]);
        lemma_run_len_concat(xs.drop_first(), ys, set, pad);
    }
}

/// Flushing a finished run: grouping a keyed block before a differing rest
/// yields that block as one group, then the rest's groups.
pub proof fn lemma_groups_of_flush(cur: Seq<CardView>, rest: Seq<CardView>)
    requires
        cur.len() > 0,
        forall|k: int|
            0 <= k < cur.len() ==> set_of(#[trigger] cur[k].number) == set_of(cur[0].number)
                && pad_of(cur[k].number) == pad_of(cur[0].number),
        rest.len() == 0 || !(set_of(rest[0].number) == set_of(cur[0].number) && pad_of(
            rest[0].number,
        ) == pad_of(cur[0].number)),
    ensures
        groups_of(cur + rest) == seq![
            GroupView {
                set: set_of(cur[0].number),
                pad: pad_of(cur[0].number),
                cards: cur,
            },
        ] + groups_of(rest),
{
    let s = cur + rest;
    let set = set_of(cur[0].number);
    let pad = pad_of(cur[0].number);
    assert(s[0] == cur[0]);
    assert(s.drop_first() =~= cur.drop_first() + rest);
    assert(forall|k: int|
        0 <= k < cur.drop_first().len() ==> #[trigger] cur.drop_first()[k] == cur[k + 1]);
    lemma_run_len_concat(cur.drop_first(), rest, set, pad);
    let n = 1 + run_len(s.drop_first(), set, pad);
    assert(n == cur.len());
    assert(s.take(n as int) =~= cur);
    assert(s.skip(n as int) =~= rest);
    assert(groups_of(s) =~= seq![GroupView { set, pad, cards: cur }] + groups_of(rest));
}

/// Among cards sharing a set code and padding, the card order follows the
/// numeric identifier.
pub proof fn lemma_le_same_key_num(a: CardView, b: CardView)
    requires
        card_le(a, b),
        num_wf(a.number),
        num_wf(b.number),
        set_of(a.number) == set_of(b.number),
        pad_of(a.number) == pad_of(b.number),
    ensures
        num_of(a.number) <= num_of(b.number),
{
    if a.number == b.number {
    } else {
        assert(str_lt(a.number, b.number));
        lemma_number_decomp(a.number);
        lemma_number_decomp(b.number);
        let p = set_of(a.number) + seq!['-'];
        let d1 = digits_of(a.number);
        let d2 = digits_of(b.number);
        assert(a.number =~= p + d1);
        assert(b.number =~= p + d2);
        lemma_str_lt_prefix(p, d1, d2);
        lemma_str_lt_digits(d1, d2);
    }
}

/// What grouping a sorted, well-formed card list guarantees: groups are
/// nonempty, their cards carry the group's key, come from the list, and
/// their numbers never decrease.
pub proof fn lemma_groups_of_props(c: Seq<CardView>)
    requires
        sorted_by(c, card_le_fn()),
        forall|j: int| 0 <= j < c.len() ==> num_wf((#[trigger] c[j]).number),
    ensures
        forall|i: int| 0 <= i < groups_of(c).len() ==> (#[trigger] groups_of(c)[i]).cards.len() >= 1,
        forall|i: int, k: int|
            0 <= i < groups_of(c).len() && 0 <= k < groups_of(c)[i].cards.len() ==> {
                &&& set_of((#[trigger] groups_of(c)[i].cards[k]).number) == groups_of(c)[i].set
                &&& pad_of(groups_of(c)[i].cards[k].number) == groups_of(c)[i].pad
                &&& c.contains(groups_of(c)[i].cards[k])
            },
        forall|i: int, k: int|
            0 <= i < groups_of(c).len() && 1 <= k < groups_of(c)[i].cards.len() ==> num_of(
                (#[trigger] groups_of(c)[i].cards[k - 1]).number,
            ) <= num_of(groups_of(c)[i].cards[k].number),
    decreases c.len(),
{
    if c.len() > 0 {
        let gs = groups_of(c);
        let set = set_of(c[0].number);
        let pad = pad_of(c[0].number);
        lemma_run_len_props(c.drop_first(), set, pad);
        lemma_run_len_bound(c.drop_first(), set, pad);
        let n = 1 + run_len(c.drop_first(), set, pad);
        assert(forall|k: int|
            0 <= k < c.drop_first().len() ==> #[trigger] c.drop_first()[k] == c[k + 1]);
        let run = c.take(n as int);
        let tail = c.skip(n as int);
        assert(forall|k: int| 0 <= k < n ==> #[trigger] run[k] == c[k]);
        assert forall|k: int| 0 <= k < run.len() implies set_of(#[trigger] run[k].number) == set
            && pad_of(run[k].number) == pad by {
            assert(run[k] == c[k]);
            if k >= 1 {
                assert(c[k] == c.drop_first()[k - 1]);
                assert(set_of(c.drop_first()[k - 1].number) == set);
                assert(pad_of(c.drop_first()[k - 1].number) == pad);
            }
        }
        assert(forall|i: int, j: int|
            0 <= i < j < tail.len() ==> #[trigger] card_le_fn()(tail[i], tail[j])) by {
            assert(forall|k: int| 0 <= k < tail.len() ==> #[trigger] tail[k] == c[k + n]);
        }
        assert(forall|k: int| 0 <= k < tail.len() ==> #[trigger] tail[k] == c[k + n]);
        lemma_groups_of_props(tail);
        assert(gs =~= seq![GroupView { set, pad, cards: run }] + groups_of(tail));
        assert(forall|k: int|
            1 <= k < run.len() ==> num_of((#[trigger] run[k - 1]).number) <= num_of(
                run[k].number,
            )) by {
            assert forall|k: int| 1 <= k < run.len() implies num_of((#[trigger] run[k - 1]).number)
                <= num_of(run[k].number) by {
                assert(card_le_fn()(c[k - 1], c[k]));
                assert(set_of(run[k].number) == set && pad_of(run[k].number) == pad);
                assert(set_of(run[k - 1].number) == set && pad_of(run[k - 1].number) == pad);
                assert(run[k] == c[k] && run[k - 1] == c[k - 1]);
                lemma_le_same_key_num(c[k - 1], c[k]);
            }
        }
        assert(forall|i: int|
            1 <= i < gs.len() ==> #[trigger] gs[i] == groups_of(tail)[i - 1]);
        assert forall|i: int, k: int|
            0 <= i < gs.len() && 0 <= k < gs[i].cards.len() implies {
            &&& set_of((#[trigger] gs[i].cards[k]).number) == gs[i].set
            &&& pad_of(gs[i].cards[k].number) == gs[i].pad
            &&& c.contains(gs[i].cards[k])
        } by {
            if i == 0 {
                assert(gs[0].cards == run);
                assert(run[k] == c[k]);
                assert(c.contains(c[k]));
            } else {
                assert(gs[i] == groups_of(tail)[i - 1]);
                assert(tail.contains(gs[i].cards[k]));
                let j = choose|j: int| 0 <= j < tail.len() && tail[j] == gs[i].cards[k];
                assert(c[j + n] == tail[j]);
                assert(c.contains(c[j + n]));
            }
        }
    }
}


/// Ten-to-the is monotone.
pub proof fn lemma_pow10_mono(a: nat, b: nat)
    requires
        a <= b,
    ensures
        pow10(a) <= pow10(b),
    decreases b,
{
    if a < b {
        lemma_pow10_mono(a, (b - 1) as nat);
        assert(pow10(b) == 10 * pow10((b - 1) as nat));
    }
}

/// What one sorted slice's groups guarantee, with every card representable.
pub proof fn lemma_slice_groups_props(s: Seq<CardView>, version: u8)
    requires
        cards_ok(s, version),
    ensures
        forall|i: int|
            0 <= i < groups_of(sorted_cards(s)).len() ==> group_props(
                #[trigger] groups_of(sorted_cards(s))[i],
                version,
            ),
{
    broadcast use vstd::seq_lib::group_to_multiset_ensures;

    lemma_card_le_total();
    s.lemma_sort_by_ensures(card_le_fn());
    let c = sorted_cards(s);
    assert forall|j: int| 0 <= j < c.len() implies card_ok(#[trigger] c[j], version) by {
        assert(c.to_multiset().contains(c[j]));
        assert(s.to_multiset().contains(c[j]));
        assert(s.contains(c[j]));
        let t = choose|t: int| 0 <= t < s.len() && s[t] == c[j];
        assert(card_ok(s[t], version));
    }
    assert(forall|j: int| 0 <= j < c.len() ==> num_wf((#[trigger] c[j]).number));
    lemma_groups_of_props(c);
    assert forall|i: int| 0 <= i < groups_of(c).len() implies group_props(
        #[trigger] groups_of(c)[i],
        version,
    ) by {
        let g = groups_of(c)[i];
        assert(g.cards.len() >= 1);
        assert forall|k: int| 0 <= k < g.cards.len() implies {
            &&& set_of((#[trigger] g.cards[k]).number) == g.set
            &&& pad_of(g.cards[k].number) == g.pad
            &&& card_ok(g.cards[k], version)
        } by {
            assert(c.contains(g.cards[k]));
            let t = choose|t: int| 0 <= t < c.len() && c[t] == g.cards[k];
            assert(card_ok(c[t], version));
        }
        assert(set_of(g.cards[0].number) == g.set && pad_of(g.cards[0].number) == g.pad);
        assert(card_ok(g.cards[0], version));
        assert(1 <= g.pad <= 4);
    }
}

/// The facts the group writer needs of one group record.
pub open spec fn group_props(g: GroupView, version: u8) -> bool {
    &&& g.cards.len() >= 1
    &&& 1 <= g.pad <= 4
    &&& forall|k: int|
        0 <= k < g.cards.len() ==> {
            &&& set_of((#[trigger] g.cards[k]).number) == g.set
            &&& pad_of(g.cards[k].number) == g.pad
            &&& card_ok(g.cards[k], version)
        }
    &&& forall|k: int|
        1 <= k < g.cards.len() ==> num_of((#[trigger] g.cards[k - 1]).number) <= num_of(
            g.cards[k].number,
        )
}

/// Every group of a deck meets the writer's expectations.
pub proof fn lemma_deck_groups_props(d: DeckView, version: u8)
    requires
        cards_ok(d.digi_eggs, version),
        cards_ok(d.deck, version),
        cards_ok(d.sideboard, version),
    ensures
        forall|i: int|
            0 <= i < deck_groups(d).len() ==> group_props(#[trigger] deck_groups(d)[i], version),
{
    lemma_slice_groups_props(d.digi_eggs, version);
    lemma_slice_groups_props(d.deck, version);
    lemma_slice_groups_props(d.sideboard, version);
    let ga = groups_of(sorted_cards(d.digi_eggs));
    let gb = groups_of(sorted_cards(d.deck));
    let gc = groups_of(sorted_cards(d.sideboard));
    assert forall|i: int| 0 <= i < deck_groups(d).len() implies group_props(
        #[trigger] deck_groups(d)[i],
        version,
    ) by {
        if i < ga.len() {
            assert(deck_groups(d)[i] == ga[i]);
        } else if i < ga.len() + gb.len() {
            assert(deck_groups(d)[i] == gb[i - ga.len()]);
        } else {
            assert(deck_groups(d)[i] == gc[i - ga.len() - gb.len()]);
        }
    }
}


/// The name region before truncation is valid UTF-8: the icon block is cut
/// at a character boundary or padded with spaces, and the name bytes are a
/// string's own encoding.
pub proof fn lemma_name_base_valid(d: DeckView, version: u8)
    requires
        icon_ok(d, version),
    ensures
        valid_utf8(name_base(d, version)),
{
    vstd::utf8::encode_utf8_valid_utf8(d.name);
    if has_icon_field(d, version) {
        let ic = d.icon.unwrap();
        let ib = encode_utf8(ic);
        vstd::utf8::encode_utf8_valid_utf8(ic);
        if ib.len() >= 8 {
            if ib.len() == 8 {
                assert(ib.take(8) =~= ib);
            } else {
                vstd::utf8::valid_utf8_split(ib, 8);
                assert(ib.take(8) =~= ib.subrange(0, 8));
            }
            assert(valid_utf8(icon_block(ic)));
        } else {
            let k = (8 - ib.len()) as nat;
            let sc = Seq::new(k, |i: int| ' ');
            assert(vstd::utf8::is_ascii_chars(sc));
            vstd::utf8::is_ascii_chars_encode_utf8(sc);
            vstd::utf8::encode_utf8_valid_utf8(sc);
            assert(encode_utf8(sc) =~= Seq::new(k, |i: int| 32u8));
            vstd::utf8::valid_utf8_concat(ib, encode_utf8(sc));
            assert(icon_block(ic) =~= ib + encode_utf8(sc));
        }
        vstd::utf8::valid_utf8_concat(icon_block(ic), encode_utf8(d.name));
    }
}

} // verus!
