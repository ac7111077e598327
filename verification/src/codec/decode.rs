//! Decoder: from a deck-code string to a `Deck`.
//!
//! The executable functions here mirror the ghost parser in `model` step for
//! step; every contract says that the value built equals what `parse_payload`
//! and its helpers yield on the same bytes.

use vstd::prelude::*;
use vstd::utf8::{valid_utf8, decode_utf8};
use vstd::string::{StrSliceExecFns, StringExecFns};
use crate::codec::{
    Card, CardView, Deck, DeckView, CodecError, Language, base36_to_char, checksum_spec,
    cards_view, prefix_chars,
};
use crate::codec::model::{
    is_space, trim_chars, parse_vtail, parse_varint, parse_set36, parse_card, parse_cards,
    parse_groups, parse_payload, mk_deck, parse_group_header, lang_of, dec_render,
    dec_render_fixed, min_digits, pow10, lemma_min_digits_le, lemma_trim_front_skip,
    lemma_trim_back_take,
};
use crate::codec::transport::{b64_decode, string_from_utf8, b64_of};

verus! {

/// How a built result relates to the ghost parser's: same error, or a deck
/// whose view is the parsed one.
pub open spec fn result_matches(r: Result<Deck, CodecError>, p: Result<DeckView, CodecError>) -> bool {
    match (r, p) {
        (Ok(d), Ok(dv)) => d@ == dv,
        (Err(e), Err(e2)) => e == e2,
        _ => false,
    }
}

/// A deck code carries the marker before its payload.
pub open spec fn has_prefix(s: Seq<char>) -> bool {
    s.len() >= 3 && s.subrange(0, 3) == prefix_chars()
}

/// Read one byte at the cursor, which must sit below `limit`.
fn get_u8(deck_bytes: &Vec<u8>, pos: &mut usize, limit: usize) -> (r: Result<u8, CodecError>)
    requires
        *old(pos) <= limit,
        limit <= deck_bytes@.len(),
    ensures
        *old(pos) < limit ==> r == Ok::<u8, CodecError>(deck_bytes@[*old(pos) as int])
            && *final(pos) == *old(pos) + 1,
        *old(pos) >= limit ==> r == Err::<u8, CodecError>(CodecError::TruncatedBuffer)
            && *final(pos) == *old(pos),
{
    if *pos >= limit {
        Err(CodecError::TruncatedBuffer)
    } else {
        let b = deck_bytes[*pos];
        *pos = *pos + 1;
        Ok(b)
    }
}

/// Read the four raw set-code bytes of a version-0 group.
fn get_u32(deck_bytes: &Vec<u8>, pos: &mut usize, limit: usize) -> (r: Result<Vec<u8>, CodecError>)
    requires
        *old(pos) <= limit,
        limit <= deck_bytes@.len(),
    ensures
        *old(pos) + 4 <= limit ==> (r matches Ok(v) && v@ == deck_bytes@.subrange(
            *old(pos) as int,
            *old(pos) + 4,
        ) && *final(pos) == *old(pos) + 4),
        *old(pos) + 4 > limit ==> r == Err::<Vec<u8>, CodecError>(CodecError::TruncatedBuffer)
            && *final(pos) == *old(pos),
{
    if limit - *pos < 4 {
        return Err(CodecError::TruncatedBuffer);
    }
    let mut v: Vec<u8> = Vec::new();
    v.push(deck_bytes[*pos]);
    v.push(deck_bytes[*pos + 1]);
    v.push(deck_bytes[*pos + 2]);
    v.push(deck_bytes[*pos + 3]);
    proof {
        assert(v@ =~= deck_bytes@.subrange(*pos as int, *pos + 4));
    }
    *pos = *pos + 4;
    Ok(v)
}

/// Decode a byte run to text and trim it, as the name region and version-0
/// set codes ask.
fn get_string_from_bytes(card_set_bytes: Vec<u8>) -> (r: Result<String, CodecError>)
    ensures
        match r {
            Ok(s) => valid_utf8(card_set_bytes@) && s@ == trim_chars(decode_utf8(card_set_bytes@)),
            Err(e) => !valid_utf8(card_set_bytes@) && e == CodecError::InvalidText,
        },
{
    match string_from_utf8(card_set_bytes) {
        None => Err(CodecError::InvalidText),
        Some(s) => Ok(trim_string(s.as_str())),
    }
}

/// Whether decoding strips this character at the edges of text.
fn is_space_char(c: char) -> (r: bool)
    ensures
        r == is_space(c),
{
    c == ' ' || c == '\t' || c == '\n' || c == '\r'
}

/// Strip leading and trailing whitespace.
fn trim_string(s: &str) -> (r: String)
    ensures
        r@ == trim_chars(s@),
{
    let n = s.unicode_len();
    let mut i: usize = 0;
    loop
        invariant
            0 <= i <= n,
            n == s@.len(),
            forall|j: int| 0 <= j < i ==> is_space(#[trigger] s@[j]),
        ensures
            0 <= i <= n,
            forall|j: int| 0 <= j < i ==> is_space(#[trigger] s@[j]),
            i == n || !is_space(s@[i as int]),
        decreases n - i,
    {
        if i >= n {
            break;
        }
        if !is_space_char(s.get_char(i)) {
            break;
        }
        i = i + 1;
    }
    let mut j: usize = n;
    loop
        invariant
            i <= j <= n,
            n == s@.len(),
            forall|k: int| j <= k < n ==> is_space(#[trigger] s@[k]),
        ensures
            i <= j <= n,
            n == s@.len(),
            forall|k: int| j <= k < n ==> is_space(#[trigger] s@[k]),
            j == i || !is_space(s@[j - 1]),
        decreases j,
    {
        if j <= i {
            break;
        }
        if !is_space_char(s.get_char(j - 1)) {
            break;
        }
        j = j - 1;
    }
    let t = s.substring_char(i, j);
    proof {
        lemma_trim_front_skip(s@, i as int);
        let m = s@.skip(i as int);
        assert(forall|k: int| j - i <= k < m.len() ==> is_space(#[trigger] m[k]));
        if j > i {
            assert(m[j - i - 1] == s@[j - 1]);
        }
        lemma_trim_back_take(m, j - i);
        assert(m.take(j - i) =~= s@.subrange(i as int, j as int));
    }
    t.to_owned()
}

/// Read the continuation bytes of a varint whose first field is `field`:
/// value bits below `m`, the carry flag at `m` itself.
#[verifier::loop_isolation(false)]
fn read_encoded_u32(
    field: u8,
    m: u8,
    deck_bytes: &Vec<u8>,
    pos: &mut usize,
    limit: usize,
) -> (r: Result<u32, CodecError>)
    requires
        m == 4 || m == 16 || m == 32,
        *old(pos) <= limit,
        limit <= deck_bytes@.len(),
    ensures
        *old(pos) <= *final(pos) <= limit,
        match (r, parse_varint(deck_bytes@, *old(pos) as int, limit as int, field, m)) {
            (Ok(v), Ok(sv)) => v == sv.0 && *final(pos) as int == sv.1,
            (Err(e), Err(e2)) => e == e2,
            _ => false,
        },
{
    let low = field % m;
    if field % (2 * m) < m {
        return Ok(low as u32);
    }
    let ghost pos0 = *pos;
    let mut acc: u64 = low as u64;
    let mut mult: u64 = m as u64;
    loop
        invariant
            pos0 <= *pos <= limit,
            acc <= 0xFFFF_FFFF,
            4 <= mult <= 0x80_0000_0000,
            parse_vtail(deck_bytes@, *pos as int, limit as int, acc as nat, mult as nat)
                == parse_vtail(
                deck_bytes@,
                pos0 as int,
                limit as int,
                (field % m) as nat,
                m as nat,
            ),
        decreases limit - *pos,
    {
        if *pos >= limit {
            return Err(CodecError::TruncatedBuffer);
        }
        let b = deck_bytes[*pos];
        if mult > 0xFFFF_FFFF {
            return Err(CodecError::OutOfRangeField);
        }
        proof {
            assert(((b % 128) as u64) * mult <= 127 * 0x1_0000_0000) by (nonlinear_arith)
                requires
                    mult <= 0xFFFF_FFFF,
                    (b % 128) < 128,
            ;
        }
        let piece = ((b % 128) as u64) * mult;
        let acc2 = acc + piece;
        *pos = *pos + 1;
        if acc2 > 0xFFFF_FFFF {
            return Err(CodecError::OutOfRangeField);
        }
        acc = acc2;
        if b < 128 {
            return Ok(acc as u32);
        }
        mult = mult * 128;
    }
}

/// Exactly `min_digits` of the number, executably.
fn num_digits(n: u32) -> (r: usize)
    ensures
        r == min_digits(n as nat),
        1 <= r <= 10,
    decreases n,
{
    proof {
        reveal_with_fuel(pow10, 11);
        assert(pow10(10) == 10_000_000_000);
        lemma_min_digits_le(n as nat, 10);
    }
    if n < 10 {
        1
    } else {
        1 + num_digits(n / 10)
    }
}

/// Render `n` as exactly `w` decimal digits, most significant first.
fn render_fixed(n: u32, w: usize) -> (r: String)
    ensures
        r@ == dec_render_fixed(n as nat, w as nat),
    decreases w,
{
    if w == 0 {
        let r = String::new();
        proof {
            assert(r@ =~= dec_render_fixed(n as nat, 0));
        }
        r
    } else {
        let mut s = render_fixed(n / 10, w - 1);
        s.append(base36_to_char((n % 10) as u8));
        proof {
            assert(s@ =~= dec_render_fixed(n as nat, w as nat));
        }
        s
    }
}

/// Render `n` in decimal, zero-padded on the left to at least `width` digits.
fn format_number(n: u32, width: usize) -> (r: String)
    ensures
        r@ == dec_render(n as nat, width as nat),
{
    let k = num_digits(n);
    let w = if width > k {
        width
    } else {
        k
    };
    render_fixed(n, w)
}

/// Read one card record and accumulate the running card number.
fn deserialize_card(
    version: u8,
    deck_bytes: &Vec<u8>,
    pos: &mut usize,
    limit: usize,
    card_set: &String,
    card_set_padding: usize,
    prev_card_number: &mut u32,
) -> (r: Result<Card, CodecError>)
    requires
        *old(pos) <= limit,
        limit <= deck_bytes@.len(),
    ensures
        *old(pos) <= *final(pos) <= limit,
        match (r, parse_card(
            deck_bytes@,
            *old(pos) as int,
            limit as int,
            version,
            card_set@,
            card_set_padding as nat,
            *old(prev_card_number),
        )) {
            (Ok(c), Ok(sv)) => c@ == sv.0 && *final(prev_card_number) == sv.1
                && *final(pos) as int == sv.2,
            (Err(e), Err(e2)) => e == e2,
            _ => false,
        },
{
    reveal(parse_card);
    let card_count: u16;
    let pid: u8;
    let field: u8;
    let m: u8;
    if version == 0 {
        let b = match get_u8(deck_bytes, pos, limit) {
            Ok(b) => b,
            Err(e) => {
                return Err(e);
            },
        };
        card_count = (b / 64) as u16 + 1;
        pid = (b / 8) % 8;
        field = b % 8;
        m = 4;
    } else {
        if limit - *pos < 2 {
            return Err(CodecError::TruncatedBuffer);
        }
        let b1 = deck_bytes[*pos];
        let b2 = deck_bytes[*pos + 1];
        *pos = *pos + 2;
        card_count = b1 as u16 + 1;
        pid = b2 / 32;
        field = b2 % 32;
        m = 16;
    }
    let delta = match read_encoded_u32(field, m, deck_bytes, pos, limit) {
        Ok(v) => v,
        Err(e) => {
            return Err(e);
        },
    };
    let num = match prev_card_number.checked_add(delta) {
        Some(n) => n,
        None => {
            return Err(CodecError::OutOfRangeField);
        },
    };
    *prev_card_number = num;
    let mut number: String = card_set.clone();
    number.append("-");
    let digits = format_number(num, card_set_padding);
    number.append(digits.as_str());
    proof {
        reveal_strlit("-");
        assert(number@ =~= card_set@ + seq!['-'] + dec_render(
            num as nat,
            card_set_padding as nat,
        ));
    }
    Ok(Card { number, parallel_id: pid, count: card_count })
}

/// The checksum over `deck_bytes[start..end)`.
fn checksum_range(deck_bytes: &Vec<u8>, start: usize, end: usize) -> (r: u8)
    requires
        start <= end <= deck_bytes@.len(),
    ensures
        r as nat == checksum_spec(deck_bytes@.subrange(start as int, end as int)),
{
    let mut sum: u32 = 0;
    let mut i: usize = start;
    while i < end
        invariant
            start <= i <= end <= deck_bytes@.len(),
            sum < 256,
            sum as nat == checksum_spec(deck_bytes@.subrange(start as int, i as int)),
        decreases end - i,
    {
        let b = deck_bytes[i];
        proof {
            let pre = deck_bytes@.subrange(start as int, i as int);
            let post = deck_bytes@.subrange(start as int, i + 1);
            assert(post.drop_last() =~= pre);
            vstd::arithmetic::div_mod::lemma_small_mod(b as nat, 256);
            vstd::arithmetic::div_mod::lemma_add_mod_noop(
                crate::codec::byte_sum(pre) as int,
                b as int,
                256,
            );
        }
        sum = (sum + b as u32) % 256;
        i = i + 1;
    }
    sum as u8
}

/// Copy `deck_bytes[start..end)` into a fresh buffer.
#[verifier::loop_isolation(false)]
fn copy_range(deck_bytes: &Vec<u8>, start: usize, end: usize) -> (r: Vec<u8>)
    requires
        start <= end <= deck_bytes@.len(),
    ensures
        r@ == deck_bytes@.subrange(start as int, end as int),
{
    let mut v: Vec<u8> = Vec::new();
    let mut i: usize = start;
    while i < end
        invariant
            start <= i <= end,
            v@ =~= deck_bytes@.subrange(start as int, i as int),
        decreases end - i,
    {
        v.push(deck_bytes[i]);
        i = i + 1;
    }
    proof {
        assert(v@ =~= deck_bytes@.subrange(start as int, end as int));
    }
    v
}

/// Read a base36 set code: one character per byte, bit 7 flagging more.
fn read_set36(deck_bytes: &Vec<u8>, pos: &mut usize, limit: usize) -> (r: Result<
    String,
    CodecError,
>)
    requires
        *old(pos) <= limit,
        limit <= deck_bytes@.len(),
    ensures
        *old(pos) <= *final(pos) <= limit,
        match (r, parse_set36(deck_bytes@, *old(pos) as int, limit as int, Seq::empty())) {
            (Ok(s), Ok(sv)) => s@ == sv.0 && *final(pos) as int == sv.1,
            (Err(e), Err(e2)) => e == e2,
            _ => false,
        },
{
    let ghost sstart = *pos as int;
    let mut s = String::new();
    loop
        invariant_except_break
            sstart == *old(pos) as int,
            sstart <= *pos as int <= limit <= deck_bytes@.len(),
            parse_set36(deck_bytes@, *pos as int, limit as int, s@) == parse_set36(
                deck_bytes@,
                sstart,
                limit as int,
                Seq::empty(),
            ),
        ensures
            sstart == *old(pos) as int,
            sstart <= *pos as int <= limit,
            parse_set36(deck_bytes@, sstart, limit as int, Seq::empty()) matches Ok(sv)
                && sv.0 == s@ && sv.1 == *pos as int,
        decreases limit - *pos,
    {
        let b = match get_u8(deck_bytes, pos, limit) {
            Ok(b) => b,
            Err(e) => {
                return Err(e);
            },
        };
        s.append(base36_to_char(b % 64));
        if b < 128 {
            break;
        }
    }
    Ok(s)
}

/// Parse one group record: its set code, its padding/count byte, and its
/// cards, appending them to `cards`.
#[verifier::loop_isolation(false)]
#[verifier::rlimit(100)]
fn parse_group(
    deck_bytes: &Vec<u8>,
    pos: &mut usize,
    limit: usize,
    version: u8,
    cards: &mut Vec<Card>,
) -> (r: Result<(), CodecError>)
    requires
        *old(pos) < limit,
        limit <= deck_bytes@.len(),
    ensures
        *old(pos) <= *final(pos) <= limit,
        match r {
            Ok(_) => *old(pos) < *final(pos) && parse_groups(
                deck_bytes@,
                *old(pos) as int,
                limit as int,
                version,
                cards_view(old(cards)@),
            ) == parse_groups(
                deck_bytes@,
                *final(pos) as int,
                limit as int,
                version,
                cards_view(final(cards)@),
            ),
            Err(e) => parse_groups(
                deck_bytes@,
                *old(pos) as int,
                limit as int,
                version,
                cards_view(old(cards)@),
            ) == Err::<Seq<CardView>, CodecError>(e),
        },
{
    reveal(parse_group_header);
    let ghost p = deck_bytes@;
    let ghost gstart = *pos as int;
    let ghost acc0 = cards_view(cards@);
    // Card set header
    let set: String;
    if version == 0 {
        let sb = match get_u32(deck_bytes, pos, limit) {
            Ok(v) => v,
            Err(e) => {
                return Err(e);
            },
        };
        set = match get_string_from_bytes(sb) {
            Ok(s) => s,
            Err(e) => {
                return Err(e);
            },
        };
    } else {
        set = match read_set36(deck_bytes, pos, limit) {
            Ok(s) => s,
            Err(e) => {
                return Err(e);
            },
        };
    }
    // Padding and group card count
    let pc = match get_u8(deck_bytes, pos, limit) {
        Ok(b) => b,
        Err(e) => {
            return Err(e);
        },
    };
    let card_set_padding: usize = (pc / 64) as usize + 1;
    let card_set_count: u32 = if version >= 2 {
        match read_encoded_u32(pc % 64, 32, deck_bytes, pos, limit) {
            Ok(v) => v,
            Err(e) => {
                return Err(e);
            },
        }
    } else {
        (pc % 64) as u32
    };
    proof {
        assert(parse_group_header(p, gstart, limit as int, version) matches Ok(h) && h.0.0
            == set@ && h.0.1 == card_set_padding as nat && h.0.2 == card_set_count && h.1
            == *pos as int);
    }
    // The cards of the group
    let ghost cstart = *pos as int;
    let mut prev_card_number: u32 = 0;
    let mut j: u32 = 0;
    while j < card_set_count
        invariant
            gstart < *pos as int <= limit,
            j <= card_set_count,
            parse_cards(
                p,
                *pos as int,
                limit as int,
                version,
                set@,
                card_set_padding as nat,
                (card_set_count - j) as nat,
                prev_card_number,
                cards_view(cards@),
            ) == parse_cards(
                p,
                cstart,
                limit as int,
                version,
                set@,
                card_set_padding as nat,
                card_set_count as nat,
                0,
                acc0,
            ),
        decreases card_set_count - j,
    {
        let ghost pos_b = *pos as int;
        let ghost prev_b = prev_card_number;
        let ghost accv_b = cards_view(cards@);
        match deserialize_card(
            version,
            deck_bytes,
            pos,
            limit,
            &set,
            card_set_padding,
            &mut prev_card_number,
        ) {
            Ok(c) => {
                cards.push(c);
                proof {
                    assert(cards_view(cards@) =~= accv_b.push(c@));
                    assert(parse_cards(
                        p,
                        pos_b,
                        limit as int,
                        version,
                        set@,
                        card_set_padding as nat,
                        (card_set_count - j) as nat,
                        prev_b,
                        accv_b,
                    ) == parse_cards(
                        p,
                        *pos as int,
                        limit as int,
                        version,
                        set@,
                        card_set_padding as nat,
                        (card_set_count - j - 1) as nat,
                        prev_card_number,
                        accv_b.push(c@),
                    ));
                }
            },
            Err(e) => {
                return Err(e);
            },
        }
        j = j + 1;
    }
    Ok(())
}

/// Parse a binary payload into a deck, exactly as the ghost parser reads it.
#[verifier::loop_isolation(false)]
#[verifier::rlimit(100)]
pub(crate) fn parse_deck(deck_bytes: &Vec<u8>) -> (r: Result<Deck, CodecError>)
    ensures
        result_matches(r, parse_payload(deck_bytes@)),
{
    reveal(parse_payload);
    let ghost p = deck_bytes@;
    let n = deck_bytes.len();
    if n < 3 {
        return Err(CodecError::TruncatedBuffer);
    }
    let b0 = deck_bytes[0];
    let version = b0 / 16;
    if version > 5 {
        return Err(CodecError::UnsupportedVersion);
    }
    let egg_count: usize = if 3 <= version && version <= 4 {
        (b0 % 8) as usize
    } else {
        (b0 % 16) as usize
    };
    let stored = deck_bytes[1];
    let nlb = deck_bytes[2];
    let name_len: usize = if version >= 5 {
        (nlb % 64) as usize
    } else {
        nlb as usize
    };
    if name_len > n - 3 {
        return Err(CodecError::TruncatedBuffer);
    }
    let limit = n - name_len;
    let lnum: u8 = if version >= 5 {
        nlb / 64
    } else {
        (b0 / 8) % 2
    };
    let language = if lnum == 0 {
        Language::Japanese
    } else if lnum == 1 {
        Language::English
    } else if lnum == 2 {
        Language::Chinese
    } else {
        Language::Korean
    };
    proof {
        assert(language == lang_of(lnum as nat));
    }
    let computed = checksum_range(deck_bytes, 3, limit);
    if computed != stored {
        return Err(CodecError::ChecksumMismatch);
    }
    if version >= 2 && limit < 4 {
        return Err(CodecError::TruncatedBuffer);
    }
    let mut side_count: usize = 0;
    let mut has_icon = false;
    let mut pos: usize = 3;
    if version >= 2 {
        let sb = deck_bytes[3];
        side_count = if version >= 4 {
            (sb % 128) as usize
        } else {
            sb as usize
        };
        has_icon = version >= 4 && sb >= 128;
        pos = 4;
    }
    let ghost pos0 = pos as int;
    let mut cards: Vec<Card> = Vec::new();
    proof {
        assert(cards_view(cards@) =~= Seq::<CardView>::empty());
    }
    while pos < limit
        invariant
            pos0 <= pos as int <= limit,
            parse_groups(p, pos as int, limit as int, version, cards_view(cards@))
                == parse_groups(p, pos0, limit as int, version, Seq::empty()),
        decreases limit - pos,
    {
        match parse_group(deck_bytes, &mut pos, limit, version, &mut cards) {
            Ok(_) => {},
            Err(e) => {
                return Err(e);
            },
        }
    }
    // Slice the flat card list
    proof {
        assert(parse_groups(p, pos as int, limit as int, version, cards_view(cards@))
            == Ok::<Seq<CardView>, CodecError>(cards_view(cards@)));
    }
    let ghost flat = cards_view(cards@);
    if egg_count > cards.len() {
        return Err(CodecError::TruncatedBuffer);
    }
    if side_count > cards.len() - egg_count {
        return Err(CodecError::TruncatedBuffer);
    }
    let side_start = cards.len() - side_count;
    let side_part = cards.split_off(side_start);
    let deck_part = cards.split_off(egg_count);
    let egg_part = cards;
    proof {
        assert(cards_view(egg_part@) =~= flat.take(egg_count as int));
        assert(cards_view(deck_part@) =~= flat.subrange(
            egg_count as int,
            flat.len() - side_count,
        ));
        assert(cards_view(side_part@) =~= flat.skip(flat.len() - side_count));
    }
    let sideboard = if version >= 2 && side_count != 0 {
        side_part
    } else {
        Vec::new()
    };
    let ghost nr = p.skip(limit as int);
    // The trailing name region
    if has_icon {
        if name_len < 8 {
            return Err(CodecError::TruncatedBuffer);
        }
        let icon_vec = copy_range(deck_bytes, limit, limit + 8);
        let rest_vec = copy_range(deck_bytes, limit + 8, n);
        proof {
            assert(icon_vec@ =~= nr.take(8));
            assert(rest_vec@ =~= nr.skip(8));
        }
        let icon_s = match get_string_from_bytes(icon_vec) {
            Ok(s) => s,
            Err(e) => {
                return Err(e);
            },
        };
        let name_s = match get_string_from_bytes(rest_vec) {
            Ok(s) => s,
            Err(e) => {
                return Err(e);
            },
        };
        let d = Deck {
            digi_eggs: egg_part,
            deck: deck_part,
            sideboard,
            icon: Some(icon_s),
            language: if version >= 3 {
                Some(language)
            } else {
                None
            },
            name: name_s,
        };
        proof {
            assert(cards_view(Seq::<Card>::empty()) =~= Seq::<CardView>::empty());
            assert(d@ =~= mk_deck(
                version,
                egg_count as nat,
                side_count as nat,
                flat,
                Some(trim_chars(decode_utf8(nr.take(8)))),
                trim_chars(decode_utf8(nr.skip(8))),
                language,
            ));
        }
        Ok(d)
    } else {
        let name_vec = copy_range(deck_bytes, limit, n);
        proof {
            assert(name_vec@ =~= nr);
        }
        let name_s = match get_string_from_bytes(name_vec) {
            Ok(s) => s,
            Err(e) => {
                return Err(e);
            },
        };
        let d = Deck {
            digi_eggs: egg_part,
            deck: deck_part,
            sideboard,
            icon: None,
            language: if version >= 3 {
                Some(language)
            } else {
                None
            },
            name: name_s,
        };
        proof {
            assert(cards_view(Seq::<Card>::empty()) =~= Seq::<CardView>::empty());
            assert(d@ =~= mk_deck(
                version,
                egg_count as nat,
                side_count as nat,
                flat,
                None,
                trim_chars(decode_utf8(nr)),
                language,
            ));
        }
        Ok(d)
    }
}

/// Decode a deck code: strip the marker, undo the base64 transport, and
/// parse the payload.
pub fn decode(deck_code_str: &str) -> (r: Result<Deck, CodecError>)
    ensures
        !has_prefix(deck_code_str@) ==> r == Err::<Deck, CodecError>(CodecError::InvalidPrefix),
        has_prefix(deck_code_str@) && (forall|b: Seq<u8>| b64_of(b) != deck_code_str@.skip(3))
            ==> r == Err::<Deck, CodecError>(CodecError::MalformedTransportEncoding),
        forall|b: Seq<u8>|
            has_prefix(deck_code_str@) && b64_of(b) == deck_code_str@.skip(3) ==> result_matches(
                r,
                parse_payload(b),
            ),
{
    let n = deck_code_str.unicode_len();
    if n < 3 {
        return Err(CodecError::InvalidPrefix);
    }
    let c0 = deck_code_str.get_char(0);
    let c1 = deck_code_str.get_char(1);
    let c2 = deck_code_str.get_char(2);
    proof {
        assert(deck_code_str@.subrange(0, 3) =~= seq![
            deck_code_str@[0],
            deck_code_str@[1],
            deck_code_str@[2],
        ]);
    }
    if !(c0 == 'D' && c1 == 'C' && c2 == 'G') {
        return Err(CodecError::InvalidPrefix);
    }
    let rest = deck_code_str.substring_char(3, n);
    proof {
        assert(rest@ =~= deck_code_str@.skip(3));
    }
    match b64_decode(rest) {
        None => Err(CodecError::MalformedTransportEncoding),
        Some(deck_bytes) => parse_deck(&deck_bytes),
    }
}

} // verus!
