//! Encoder: from a `Deck` to a deck-code string.
//!
//! Encoding validates the deck, sorts and groups each card slice, emits the
//! group records, computes the checksum, and wraps the payload in the
//! transport envelope.  Every step's contract ties the bytes built to the
//! ghost emitter in `model`, so `encode`'s result is exactly
//! `payload_of(deck@, version)` under the marker and base64 layers.

use vstd::prelude::*;
use vstd::relations::sorted_by;
use vstd::seq_lib::lemma_sorted_unique;
use vstd::string::{StrSliceExecFns, StringExecFns, StringSliceAdditionalSpecFns};
use crate::codec::{
    Card, CardView, Deck, CodecError, Language, char_to_base36, char36, cards_view,
    compute_checksum,
};
use crate::codec::model::{
    vfirst, vtail, m_of, find_dash, set_of, digits_of, pad_of, num_of, num_wf, all_digits,
    is_digit, dec_value, pow10, card_le, card_le_fn, sorted_cards, groups_of, GroupView,
    fields_ok, groups_small, group_fits, encodable, egg_cap, side_cap, lang_num, icon_ok,
    str_lt, lemma_find_dash_props, lemma_card_le_total, lemma_dec_value_bound,
    lemma_groups_of_flush, lemma_pow10_mono, lemma_deck_groups_props, group_props,
    lemma_cards_bytes_snoc_from, lemma_groups_bytes_snoc, set_bytes, card_bytes, cards_bytes,
    group_bytes, groups_bytes, side_byte, body_of, byte0_of, byte2_of, payload_of, name_base,
    name_bytes_of, icon_block, trunc_idx, deck_groups, has_icon_field,
};
use vstd::utf8::is_ascii_chars;

verus! {

/// The ghost image of a built group list.
pub(crate) open spec fn groups_view(s: Seq<(String, usize, Vec<Card>)>) -> Seq<GroupView> {
    s.map_values(
        |t: (String, usize, Vec<Card>)|
            GroupView { set: t.0@, pad: t.1 as nat, cards: cards_view(t.2@) },
    )
}

/// The first field of a varint: the low bits of `value` under the field
/// width, with the width's top bit flagging that more bits follow.
fn bits_with_carry(value: u32, bits: u8) -> (r: u8)
    requires
        bits == 3 || bits == 5 || bits == 6 || bits == 8,
    ensures
        r as nat == vfirst(value as nat, m_of(bits)),
{
    let limit_bit: u32 = if bits == 3 {
        4
    } else if bits == 5 {
        16
    } else if bits == 6 {
        32
    } else {
        128
    };
    let low = value % limit_bit;
    if value >= limit_bit {
        (low + limit_bit) as u8
    } else {
        low as u8
    }
}

/// Push the continuation bytes of a varint whose first
/// `already_written_bits` bits are already placed.
#[verifier::loop_isolation(false)]
fn append_rest_to_deck_bytes(deck_bytes: &mut Vec<u8>, value: u32, already_written_bits: u8)
    requires
        already_written_bits == 3 || already_written_bits == 5 || already_written_bits == 6
            || already_written_bits == 8,
    ensures
        final(deck_bytes)@ == old(deck_bytes)@ + vtail((value as nat) / m_of(already_written_bits)),
{
    let m: u32 = if already_written_bits == 3 {
        4
    } else if already_written_bits == 5 {
        16
    } else if already_written_bits == 6 {
        32
    } else {
        128
    };
    let mut rem = value / m;
    let ghost orig = deck_bytes@;
    let ghost rem0 = rem as nat;
    proof {
        assert(vtail(0) =~= Seq::<u8>::empty());
    }
    while rem > 0
        invariant
            orig + vtail(rem0) =~= deck_bytes@ + vtail(rem as nat),
        decreases rem,
    {
        let b = bits_with_carry(rem, 8);
        let ghost before = deck_bytes@;
        deck_bytes.push(b);
        proof {
            assert(vtail(rem as nat) =~= seq![b] + vtail((rem as nat) / 128));
            assert(before + vtail(rem as nat) =~= deck_bytes@ + vtail((rem / 128) as nat));
            assert(orig + vtail(rem0) =~= deck_bytes@ + vtail((rem / 128) as nat));
        }
        rem = rem / 128;
    }
    proof {
        assert(deck_bytes@ + vtail(0) =~= deck_bytes@);
        assert(deck_bytes@ =~= orig + vtail(rem0));
    }
}

/// Index of the first '-' of the string, or its length when there is none.
fn find_dash_exec(s: &str) -> (r: usize)
    ensures
        r as int == find_dash(s@),
        r <= s@.len(),
{
    let n = s.unicode_len();
    let mut i: usize = 0;
    loop
        invariant_except_break
            0 <= i <= n,
            n == s@.len(),
            forall|j: int| 0 <= j < i ==> s@[j] != '-',
        ensures
            0 <= i <= n,
            n == s@.len(),
            forall|j: int| 0 <= j < i ==> s@[j] != '-',
            i == n || s@[i as int] == '-',
        decreases n - i,
    {
        if i >= n {
            break;
        }
        if s.get_char(i) == '-' {
            break;
        }
        i = i + 1;
    }
    proof {
        lemma_find_dash_props(s@);
        if find_dash(s@) < i {
            assert(s@[find_dash(s@)] == '-');
            assert(false);
        }
        if (i as int) < find_dash(s@) {
            assert(s@[i as int] != '-');
            assert(false);
        }
    }
    i
}

/// Whether every character in `s@[from..to)` is a decimal digit.
fn check_digits(s: &str, from: usize, to: usize) -> (r: bool)
    requires
        from <= to <= s@.len(),
    ensures
        r == all_digits(s@.subrange(from as int, to as int)),
{
    let ghost sub = s@.subrange(from as int, to as int);
    let mut k = from;
    while k < to
        invariant
            from <= k <= to <= s@.len(),
            sub == s@.subrange(from as int, to as int),
            forall|j: int| 0 <= j < k - from ==> is_digit(#[trigger] sub[j]),
        decreases to - k,
    {
        let c = s.get_char(k);
        let u = c as u32;
        if !(48 <= u && u <= 57) {
            proof {
                assert(sub[k - from] == s@[k as int]);
                assert(!is_digit(sub[k - from]));
            }
            return false;
        }
        proof {
            assert(sub[k - from] == s@[k as int]);
        }
        k = k + 1;
    }
    true
}

/// Whether every character in `s@[0..to)` is ASCII.
fn check_ascii(s: &str, to: usize) -> (r: bool)
    requires
        to <= s@.len(),
    ensures
        r == is_ascii_chars(s@.subrange(0, to as int)),
{
    let ghost sub = s@.subrange(0, to as int);
    let mut k: usize = 0;
    while k < to
        invariant
            0 <= k <= to <= s@.len(),
            sub == s@.subrange(0, to as int),
            forall|j: int| 0 <= j < k ==> '\0' <= #[trigger] sub[j] <= '\u{7f}',
        decreases to - k,
    {
        let c = s.get_char(k);
        if (c as u32) > 0x7f {
            proof {
                assert(sub[k as int] == s@[k as int]);
            }
            return false;
        }
        proof {
            assert(sub[k as int] == s@[k as int]);
        }
        k = k + 1;
    }
    true
}

/// Whether the version can represent this card.
fn check_card(card: &Card, version: u8) -> (r: bool)
    ensures
        r == crate::codec::model::card_ok(card@, version),
{
    let s = card.number.as_str();
    let n = s.unicode_len();
    let fd = find_dash_exec(s);
    proof {
        assert(digits_of(card.number@) =~= card.number@.subrange(
            find_dash(card.number@) + 1,
            n as int,
        ));
        assert(set_of(card.number@) =~= card.number@.subrange(0, find_dash(card.number@)));
    }
    if fd < 1 || fd >= n {
        return false;
    }
    let dlen = n - fd - 1;
    if dlen < 1 || dlen > 4 {
        return false;
    }
    if !check_digits(s, fd + 1, n) {
        return false;
    }
    if card.parallel_id > 7 {
        return false;
    }
    if card.count < 1 || card.count > 256 {
        return false;
    }
    if version == 0 {
        if card.count > 4 {
            return false;
        }
        if fd > 4 {
            return false;
        }
        if !check_ascii(s, fd) {
            return false;
        }
    }
    true
}

/// Check everything `encode` demands of a deck apart from group sizes:
/// representable cards, section sizes within the version's fields, no
/// sideboard before version 2, and no Chinese or Korean in the one-bit
/// language field of versions 3 and 4.  Fails with the error `encode`
/// reports.
#[verifier::loop_isolation(false)]
fn validate_deck(deck: &Deck, version: u8) -> (r: Result<(), CodecError>)
    ensures
        r is Ok <==> fields_ok(deck@, version),
        version > 5 ==> r == Err::<(), CodecError>(CodecError::UnsupportedVersion),
        r is Err && version <= 5 ==> r == Err::<(), CodecError>(CodecError::OutOfRangeField),
{
    if version > 5 {
        return Err(CodecError::UnsupportedVersion);
    }
    let egg_cap_v: usize = if 3 <= version && version <= 4 {
        7
    } else {
        15
    };
    if deck.digi_eggs.len() > egg_cap_v {
        return Err(CodecError::OutOfRangeField);
    }
    if version < 2 && deck.sideboard.len() > 0 {
        return Err(CodecError::OutOfRangeField);
    }
    let side_cap_v: usize = if version >= 4 {
        127
    } else {
        255
    };
    if deck.sideboard.len() > side_cap_v {
        return Err(CodecError::OutOfRangeField);
    }
    if 3 <= version && version <= 4 {
        let gated = match deck.language {
            Some(Language::Chinese) => true,
            Some(Language::Korean) => true,
            _ => false,
        };
        if gated {
            return Err(CodecError::OutOfRangeField);
        }
    }
    if version >= 4 {
        match &deck.icon {
            Some(ic) => {
                let icb = ic.as_str();
                let icb_len = icb.as_bytes().len();
                proof {
                    assert(deck@.icon == Some(ic@));
                    assert(icb@ == ic@);
                    assert(icb.spec_bytes() == vstd::utf8::encode_utf8(ic@));
                }
                if icb_len > 8 && !icb.is_char_boundary(8) {
                    return Err(CodecError::OutOfRangeField);
                }
                proof {
                    assert(icon_ok(deck@, version));
                }
            },
            None => {
                proof {
                    assert(icon_ok(deck@, version));
                }
            },
        }
    } else {
        proof {
            assert(icon_ok(deck@, version));
        }
    }
    let mut i: usize = 0;
    while i < deck.digi_eggs.len()
        invariant
            i <= deck.digi_eggs@.len(),
            forall|j: int|
                0 <= j < i ==> crate::codec::model::card_ok(
                    #[trigger] cards_view(deck.digi_eggs@)[j],
                    version,
                ),
        decreases deck.digi_eggs.len() - i,
    {
        proof {
            assert(cards_view(deck.digi_eggs@)[i as int] == deck.digi_eggs@[i as int]@);
        }
        if !check_card(&deck.digi_eggs[i], version) {
            return Err(CodecError::OutOfRangeField);
        }
        i = i + 1;
    }
    let mut i: usize = 0;
    while i < deck.deck.len()
        invariant
            i <= deck.deck@.len(),
            forall|j: int|
                0 <= j < i ==> crate::codec::model::card_ok(
                    #[trigger] cards_view(deck.deck@)[j],
                    version,
                ),
        decreases deck.deck.len() - i,
    {
        proof {
            assert(cards_view(deck.deck@)[i as int] == deck.deck@[i as int]@);
        }
        if !check_card(&deck.deck[i], version) {
            return Err(CodecError::OutOfRangeField);
        }
        i = i + 1;
    }
    let mut i: usize = 0;
    while i < deck.sideboard.len()
        invariant
            i <= deck.sideboard@.len(),
            forall|j: int|
                0 <= j < i ==> crate::codec::model::card_ok(
                    #[trigger] cards_view(deck.sideboard@)[j],
                    version,
                ),
        decreases deck.sideboard.len() - i,
    {
        proof {
            assert(cards_view(deck.sideboard@)[i as int] == deck.sideboard@[i as int]@);
        }
        if !check_card(&deck.sideboard[i], version) {
            return Err(CodecError::OutOfRangeField);
        }
        i = i + 1;
    }
    proof {
        assert(deck@.digi_eggs.len() <= egg_cap(version));
        assert(version < 2 ==> deck@.sideboard.len() == 0);
        assert(deck@.sideboard.len() <= side_cap(version));
        assert(3 <= version && version <= 4 ==> lang_num(deck@.language) <= 1);
        assert(icon_ok(deck@, version));
        assert(crate::codec::model::cards_ok(cards_view(deck.digi_eggs@), version));
        assert(crate::codec::model::cards_ok(cards_view(deck.deck@), version));
        assert(crate::codec::model::cards_ok(cards_view(deck.sideboard@), version));
    }
    Ok(())
}

/// Strict lexicographic comparison of two strings.
fn str_lt_exec(a: &str, b: &str) -> (r: bool)
    ensures
        r == str_lt(a@, b@),
{
    let an = a.unicode_len();
    let bn = b.unicode_len();
    let mut i: usize = 0;
    proof {
        assert(a@.skip(0) =~= a@);
        assert(b@.skip(0) =~= b@);
    }
    loop
        invariant
            0 <= i <= an,
            i <= bn,
            an == a@.len(),
            bn == b@.len(),
            str_lt(a@, b@) == str_lt(a@.skip(i as int), b@.skip(i as int)),
        decreases an - i,
    {
        proof {
            if i < an && i < bn {
                assert(a@.skip(i as int)[0] == a@[i as int]);
                assert(b@.skip(i as int)[0] == b@[i as int]);
                assert(a@.skip(i as int).drop_first() =~= a@.skip(i + 1));
                assert(b@.skip(i as int).drop_first() =~= b@.skip(i + 1));
            }
        }
        if i >= bn {
            return false;
        }
        if i >= an {
            return true;
        }
        let ca = a.get_char(i);
        let cb = b.get_char(i);
        if (ca as u32) < (cb as u32) {
            return true;
        }
        if ca != cb {
            return false;
        }
        i = i + 1;
    }
}

/// The order encoding sorts cards by.
fn card_le_exec(a: &Card, b: &Card) -> (r: bool)
    ensures
        r == card_le(a@, b@),
{
    if str_lt_exec(a.number.as_str(), b.number.as_str()) {
        true
    } else if a.number == b.number {
        if a.parallel_id < b.parallel_id {
            true
        } else {
            a.parallel_id == b.parallel_id && a.count <= b.count
        }
    } else {
        false
    }
}

/// Sort cards into the canonical encoding order.
#[verifier::loop_isolation(false)]
#[verifier::rlimit(60)]
fn sort_cards(cards: Vec<Card>) -> (r: Vec<Card>)
    ensures
        cards_view(r@) == sorted_cards(cards_view(cards@)),
{
    let ghost origv = cards_view(cards@);
    let mut src = cards;
    let mut out: Vec<Card> = Vec::new();
    proof {
        lemma_card_le_total();
        broadcast use vstd::seq_lib::group_to_multiset_ensures;
        broadcast use vstd::multiset::group_multiset_axioms;

        assert(cards_view(out@) =~= Seq::<CardView>::empty());
        assert(cards_view(out@).to_multiset().add(cards_view(src@).to_multiset())
            =~= origv.to_multiset());
    }
    while src.len() > 0
        invariant
            cards_view(out@).to_multiset().add(cards_view(src@).to_multiset())
                == origv.to_multiset(),
            sorted_by(cards_view(out@), card_le_fn()),
            forall|i: int, j: int|
                0 <= i < out@.len() && 0 <= j < src@.len() ==> #[trigger] card_le_fn()(
                    cards_view(out@)[i],
                    cards_view(src@)[j],
                ),
        decreases src.len(),
    {
        let mut m: usize = 0;
        let mut k: usize = 1;
        proof {
            assert(cards_view(src@)[0] == src@[0]@);
            assert(card_le_fn()(cards_view(src@)[0], cards_view(src@)[0]));
        }
        while k < src.len()
            invariant
                m < k <= src@.len(),
                forall|t: int|
                    0 <= t < k ==> #[trigger] card_le_fn()(
                        cards_view(src@)[m as int],
                        cards_view(src@)[t],
                    ),
            decreases src.len() - k,
        {
            let smaller = card_le_exec(&src[k], &src[m]);
            proof {
                assert(cards_view(src@)[k as int] == src@[k as int]@);
                assert(cards_view(src@)[m as int] == src@[m as int]@);
            }
            if smaller {
                proof {
                    assert(card_le_fn()(cards_view(src@)[k as int], cards_view(src@)[m as int]));
                    assert forall|t: int| 0 <= t < k + 1 implies #[trigger] card_le_fn()(
                        cards_view(src@)[k as int],
                        cards_view(src@)[t],
                    ) by {
                        if t < k {
                            assert(card_le_fn()(cards_view(src@)[m as int], cards_view(src@)[t]));
                        } else {
                            assert(cards_view(src@)[t] == cards_view(src@)[k as int]);
                        }
                    }
                }
                m = k;
            } else {
                proof {
                    assert(card_le_fn()(cards_view(src@)[m as int], cards_view(src@)[k as int])
                        || card_le_fn()(cards_view(src@)[k as int], cards_view(src@)[m as int]));
                    assert(card_le_fn()(cards_view(src@)[m as int], cards_view(src@)[k as int]));
                }
            }
            k = k + 1;
        }
        let ghost outv_b = cards_view(out@);
        let ghost srcv_b = cards_view(src@);
        let c = src.remove(m);
        out.push(c);
        proof {
            broadcast use vstd::seq_lib::group_to_multiset_ensures;
            broadcast use vstd::multiset::group_multiset_axioms;

            assert(cards_view(src@) =~= srcv_b.remove(m as int));
            assert(cards_view(out@) =~= outv_b.push(c@));
            assert(srcv_b.remove(m as int).to_multiset() =~= srcv_b.to_multiset().remove(
                srcv_b[m as int],
            ));
            assert(outv_b.push(c@).to_multiset() =~= outv_b.to_multiset().insert(c@));
            assert(srcv_b.to_multiset().count(c@) > 0);
            assert(cards_view(out@).to_multiset().add(cards_view(src@).to_multiset())
                =~= outv_b.to_multiset().add(srcv_b.to_multiset()));
            // the new last element keeps the output sorted
            assert forall|i: int, j: int|
                0 <= i < j < cards_view(out@).len() implies #[trigger] card_le_fn()(
                cards_view(out@)[i],
                cards_view(out@)[j],
            ) by {
                if j < outv_b.len() {
                    assert(card_le_fn()(outv_b[i], outv_b[j]));
                } else {
                    assert(cards_view(out@)[j] == c@);
                    assert(card_le_fn()(outv_b[i], srcv_b[m as int]));
                }
            }
            // everything left is above the new last element
            assert forall|i: int, j: int|
                0 <= i < cards_view(out@).len() && 0 <= j < cards_view(src@).len()
                implies #[trigger] card_le_fn()(
                cards_view(out@)[i],
                cards_view(src@)[j],
            ) by {
                let x = cards_view(src@)[j];
                if j < m {
                    assert(x == srcv_b[j]);
                } else {
                    assert(x == srcv_b[j + 1]);
                }
                assert(card_le_fn()(srcv_b[m as int], x));
                if i < outv_b.len() {
                    assert(card_le_fn()(outv_b[i], srcv_b[m as int]));
                } else {
                    assert(cards_view(out@)[i] == srcv_b[m as int]);
                }
            }
        }
    }
    proof {
        broadcast use vstd::seq_lib::group_to_multiset_ensures;
        broadcast use vstd::multiset::group_multiset_axioms;

        assert(cards_view(src@) =~= Seq::<CardView>::empty());
        assert(cards_view(out@).to_multiset() =~= origv.to_multiset());
        origv.lemma_sort_by_ensures(card_le_fn());
        lemma_sorted_unique(cards_view(out@), origv.sort_by(card_le_fn()), card_le_fn());
    }
    out
}


/// Sort cards, then partition them into maximal consecutive runs sharing
/// set code and padding width.
#[verifier::loop_isolation(false)]
#[verifier::rlimit(100)]
fn group_cards(cards: Vec<Card>) -> (r: Vec<(String, usize, Vec<Card>)>)
    requires
        forall|j: int|
            0 <= j < cards@.len() ==> num_wf((#[trigger] cards_view(cards@)[j]).number),
    ensures
        groups_view(r@) == groups_of(sorted_cards(cards_view(cards@))),
{
    let ghost origv = cards_view(cards@);
    let sorted = sort_cards(cards);
    let ghost sv = cards_view(sorted@);
    proof {
        broadcast use vstd::seq_lib::group_to_multiset_ensures;

        lemma_card_le_total();
        origv.lemma_sort_by_ensures(card_le_fn());
        assert forall|j: int| 0 <= j < sv.len() implies num_wf((#[trigger] sv[j]).number) by {
            assert(sv.to_multiset().contains(sv[j]));
            assert(origv.to_multiset().contains(sv[j]));
            assert(origv.contains(sv[j]));
            let t = choose|t: int| 0 <= t < origv.len() && origv[t] == sv[j];
            assert(num_wf(origv[t].number));
        }
    }
    let mut rest = sorted;
    let mut result: Vec<(String, usize, Vec<Card>)> = Vec::new();
    let mut cur_set: String = String::new();
    let mut cur_pad: usize = 0;
    let mut cur_run: Vec<Card> = Vec::new();
    proof {
        assert(groups_view(result@) =~= Seq::<GroupView>::empty());
        assert(cards_view(cur_run@) + cards_view(rest@) =~= sv);
        assert(groups_view(result@) + groups_of(cards_view(cur_run@) + cards_view(rest@))
            =~= groups_of(sv));
    }
    while rest.len() > 0
        invariant
            forall|k: int|
                0 <= k < rest@.len() ==> num_wf((#[trigger] cards_view(rest@)[k]).number),
            forall|k: int|
                0 <= k < cur_run@.len() ==> num_wf((#[trigger] cards_view(cur_run@)[k]).number)
                    && set_of(cards_view(cur_run@)[k].number) == cur_set@ && pad_of(
                    cards_view(cur_run@)[k].number,
                ) == cur_pad as nat,
            groups_view(result@) + groups_of(cards_view(cur_run@) + cards_view(rest@))
                == groups_of(sv),
        decreases rest.len(),
    {
        let ghost restv_b = cards_view(rest@);
        let ghost curv_b = cards_view(cur_run@);
        let c = rest.remove(0);
        proof {
            assert(cards_view(rest@) =~= restv_b.drop_first());
            assert(c@ == restv_b[0]);
            assert forall|k: int|
                0 <= k < rest@.len() implies num_wf(
                (#[trigger] cards_view(rest@)[k]).number,
            ) by {
                assert(cards_view(rest@)[k] == restv_b[k + 1]);
            }
        }
        let s = c.number.as_str();
        let n = s.unicode_len();
        let fd = find_dash_exec(s);
        proof {
            assert(num_wf(c@.number));
            assert(set_of(c@.number) =~= c.number@.subrange(0, find_dash(c.number@)));
        }
        let c_set = s.substring_char(0, fd).to_owned();
        let c_pad = n - fd - 1;
        proof {
            assert(c_set@ == set_of(c@.number));
            assert(c_pad as nat == pad_of(c@.number));
        }
        let start_new = if cur_run.len() == 0 {
            false
        } else {
            !(c_set == cur_set && c_pad == cur_pad)
        };
        if cur_run.len() == 0 {
            cur_set = c_set;
            cur_pad = c_pad;
            cur_run.push(c);
            proof {
                assert(cards_view(cur_run@) =~= curv_b.push(c@));
                assert(cards_view(cur_run@) + cards_view(rest@) =~= curv_b + restv_b);
            }
        } else if !start_new {
            cur_run.push(c);
            proof {
                assert(cards_view(cur_run@) =~= curv_b.push(c@));
                assert(cards_view(cur_run@) + cards_view(rest@) =~= curv_b + restv_b);
            }
        } else {
            proof {
                assert(set_of(curv_b[0].number) == cur_set@);
                assert(!(set_of(c@.number) == set_of(curv_b[0].number) && pad_of(c@.number)
                    == pad_of(curv_b[0].number)));
                assert(restv_b[0] == c@);
                lemma_groups_of_flush(curv_b, restv_b);
            }
            let ghost resultv_b = groups_view(result@);
            result.push((cur_set, cur_pad, cur_run));
            proof {
                assert(groups_view(result@) =~= resultv_b.push(
                    GroupView {
                        set: set_of(curv_b[0].number),
                        pad: pad_of(curv_b[0].number),
                        cards: curv_b,
                    },
                ));
                assert(groups_view(result@) + groups_of(restv_b) =~= groups_of(sv)) by {
                    assert(resultv_b + (seq![
                        GroupView {
                            set: set_of(curv_b[0].number),
                            pad: pad_of(curv_b[0].number),
                            cards: curv_b,
                        },
                    ] + groups_of(restv_b)) =~= (resultv_b.push(
                        GroupView {
                            set: set_of(curv_b[0].number),
                            pad: pad_of(curv_b[0].number),
                            cards: curv_b,
                        },
                    ) + groups_of(restv_b)));
                }
            }
            cur_set = c_set;
            cur_pad = c_pad;
            cur_run = Vec::new();
            cur_run.push(c);
            proof {
                assert(cards_view(cur_run@) =~= Seq::<CardView>::empty().push(c@));
                assert(cards_view(cur_run@) + cards_view(rest@) =~= restv_b);
            }
        }
    }
    proof {
        assert(cards_view(rest@) =~= Seq::<CardView>::empty());
    }
    if cur_run.len() > 0 {
        let ghost curv_b = cards_view(cur_run@);
        let ghost resultv_b = groups_view(result@);
        proof {
            lemma_groups_of_flush(curv_b, Seq::<CardView>::empty());
            assert(curv_b + cards_view(rest@) =~= curv_b + Seq::<CardView>::empty());
            assert(curv_b + Seq::<CardView>::empty() =~= curv_b);
            assert(groups_of(Seq::<CardView>::empty()) =~= Seq::<GroupView>::empty());
        }
        result.push((cur_set, cur_pad, cur_run));
        proof {
            assert(groups_view(result@) =~= resultv_b.push(
                GroupView {
                    set: set_of(curv_b[0].number),
                    pad: pad_of(curv_b[0].number),
                    cards: curv_b,
                },
            ));
            assert(groups_view(result@) =~= groups_of(sv));
        }
    } else {
        proof {
            assert(cards_view(cur_run@) + cards_view(rest@) =~= Seq::<CardView>::empty());
            assert(groups_of(Seq::<CardView>::empty()) =~= Seq::<GroupView>::empty());
            assert(groups_view(result@) =~= groups_of(sv));
        }
    }
    result
}

/// Numeric value of a run of decimal digits.
fn parse_digits(s: &str) -> (r: u32)
    requires
        all_digits(s@),
        s@.len() <= 9,
    ensures
        r as nat == dec_value(s@),
{
    let n = s.unicode_len();
    let mut acc: u32 = 0;
    let mut i: usize = 0;
    proof {
        assert(s@.take(0) =~= Seq::<char>::empty());
    }
    while i < n
        invariant
            0 <= i <= n,
            n == s@.len() <= 9,
            all_digits(s@),
            acc as nat == dec_value(s@.take(i as int)),
            (acc as nat) < pow10(i as nat),
        decreases n - i,
    {
        let c = s.get_char(i);
        proof {
            let pre = s@.take(i as int);
            let post = s@.take(i + 1);
            assert(post.drop_last() =~= pre);
            assert(post.last() == s@[i as int]);
            assert(is_digit(s@[i as int]));
            lemma_pow10_mono(i as nat, 8);
            reveal_with_fuel(pow10, 10);
            assert(pow10(8) == 100_000_000);
        }
        acc = acc * 10 + (c as u32 - 48);
        i = i + 1;
    }
    proof {
        assert(s@.take(n as int) =~= s@);
    }
    acc
}

/// Write the bytes of one set code.
#[verifier::loop_isolation(false)]
fn write_set(out: &mut Vec<u8>, set: &String, version: u8)
    ensures
        final(out)@ == old(out)@ + crate::codec::model::set_bytes(set@, version),
{
    let ghost base = out@;
    let ghost sb = crate::codec::model::set_bytes(set@, version);
    let s = set.as_str();
    let n = s.unicode_len();
    if version == 0 {
        let mut i: usize = 0;
        proof {
            assert(out@ =~= base + sb.take(0));
        }
        while i < 4
            invariant
                0 <= i <= 4,
                n == set@.len(),
                sb == crate::codec::model::set_bytes(set@, 0),
                out@ =~= base + sb.take(i as int),
            decreases 4 - i,
        {
            if i < n {
                let c = s.get_char(i);
                let b = (c as u32) as u8;
                out.push(b);
            } else {
                out.push(32);
            }
            proof {
                assert(out@ =~= base + sb.take(i + 1));
            }
            i = i + 1;
        }
        proof {
            assert(sb.take(4) =~= sb);
        }
    } else {
        let mut i: usize = 0;
        proof {
            assert(out@ =~= base + sb.take(0));
        }
        while i < n
            invariant
                0 <= i <= n,
                n == set@.len(),
                version != 0,
                sb == crate::codec::model::set_bytes(set@, version),
                out@ =~= base + sb.take(i as int),
            decreases n - i,
        {
            let c = s.get_char(i);
            let b36 = char_to_base36(&c);
            proof {
                assert(char36(set@[i as int]) <= 35);
            }
            let b = if i + 1 < n {
                b36 + 128
            } else {
                b36
            };
            out.push(b);
            proof {
                assert(out@ =~= base + sb.take(i + 1));
            }
            i = i + 1;
        }
        proof {
            assert(sb.take(n as int) =~= sb);
        }
    }
}


/// Write a group's set code, its padding/count byte, and the count's
/// varint tail.
#[verifier::loop_isolation(false)]
fn write_group_header(
    body: &mut Vec<u8>,
    set_s: &String,
    pad: usize,
    count: usize,
    version: u8,
)
    requires
        1 <= pad <= 4,
        group_fits(count as nat, version),
    ensures
        final(body)@ == old(body)@ + set_bytes(set_s@, version) + seq![
            ((((pad as int) - 1) % 4) as nat * 64 + crate::codec::model::group_count_field(
                count as nat,
                version,
            )) as u8,
        ] + (if version >= 2 {
            vtail((count as nat) / 32)
        } else {
            Seq::<u8>::empty()
        }),
{
    write_set(body, set_s, version);
    let ghost mid = body@;
    let pad_m1 = (pad - 1) as u8;
    if version < 2 {
        body.push(pad_m1 * 64 + count as u8);
        proof {
            assert(body@ =~= mid + seq![
                ((((pad as int) - 1) % 4) as nat * 64 + crate::codec::model::group_count_field(
                    count as nat,
                    version,
                )) as u8,
            ] + Seq::<u8>::empty());
        }
    } else {
        let cfield = bits_with_carry(count as u32, 6);
        body.push(pad_m1 * 64 + cfield);
        append_rest_to_deck_bytes(body, count as u32, 6);
        proof {
            assert(body@ =~= mid + seq![
                ((((pad as int) - 1) % 4) as nat * 64 + crate::codec::model::group_count_field(
                    count as nat,
                    version,
                )) as u8,
            ] + vtail((count as nat) / 32));
        }
    }
}

/// Write one card record and return its numeric identifier.
#[verifier::loop_isolation(false)]
fn write_card(body: &mut Vec<u8>, card: &Card, prev: u32, version: u8) -> (value: u32)
    requires
        crate::codec::model::card_ok(card@, version),
        prev as nat <= num_of(card@.number),
    ensures
        value as nat == num_of(card@.number),
        final(body)@ == old(body)@ + card_bytes(card@, prev as nat, version),
{
    let ghost base = body@;
    let s = card.number.as_str();
    let n = s.unicode_len();
    let fd = find_dash_exec(s);
    proof {
        assert(num_wf(card@.number));
        assert(digits_of(card@.number) =~= card.number@.subrange(
            find_dash(card.number@) + 1,
            n as int,
        ));
    }
    let digits = s.substring_char(fd + 1, n);
    proof {
        assert(digits@ == digits_of(card@.number));
        lemma_dec_value_bound(digits@);
        reveal_with_fuel(pow10, 5);
        assert(pow10(4) == 10000);
        lemma_pow10_mono(digits@.len(), 4);
    }
    let value = parse_digits(digits);
    let card_number_offset = value - prev;
    if version == 0 {
        body.push(((card.count - 1) as u8) * 64 + card.parallel_id * 8 + bits_with_carry(
            card_number_offset,
            3,
        ));
        append_rest_to_deck_bytes(body, card_number_offset, 3);
    } else {
        body.push((card.count - 1) as u8);
        body.push(card.parallel_id * 32 + bits_with_carry(card_number_offset, 5));
        append_rest_to_deck_bytes(body, card_number_offset, 5);
    }
    proof {
        assert(body@ =~= base + card_bytes(card@, prev as nat, version));
    }
    value
}

/// Write one group record: its set code, padding/count byte, and cards.
#[verifier::loop_isolation(false)]
#[verifier::rlimit(100)]
fn write_group(
    body: &mut Vec<u8>,
    set_s: &String,
    pad: usize,
    cards_g: &Vec<Card>,
    version: u8,
) -> (r: Result<(), CodecError>)
    requires
        version <= 5,
        group_props(
            GroupView { set: set_s@, pad: pad as nat, cards: cards_view(cards_g@) },
            version,
        ),
    ensures
        match r {
            Ok(_) => group_fits(cards_g@.len(), version) && final(body)@ == old(body)@
                + group_bytes(
                GroupView { set: set_s@, pad: pad as nat, cards: cards_view(cards_g@) },
                version,
            ),
            Err(e) => !group_fits(cards_g@.len(), version) && e == CodecError::OutOfRangeField
                && final(body)@ == old(body)@,
        },
{
    let ghost g = GroupView { set: set_s@, pad: pad as nat, cards: cards_view(cards_g@) };
    let ghost base = body@;
    let count = cards_g.len();
    if version < 2 {
        if count > 63 {
            return Err(CodecError::OutOfRangeField);
        }
    } else {
        if count as u64 > 0xFFFF_FFFF {
            return Err(CodecError::OutOfRangeField);
        }
    }
    write_group_header(body, set_s, pad, count, version);
    let ghost head = body@;
    proof {
        assert(cards_view(cards_g@).take(0) =~= Seq::<CardView>::empty());
        assert(body@ =~= head + cards_bytes(g.cards.take(0), 0, version));
    }
    let mut prev: u32 = 0;
    let mut cj: usize = 0;
    while cj < cards_g.len()
        invariant
            0 <= cj <= cards_g@.len(),
            body@ =~= head + cards_bytes(g.cards.take(cj as int), 0, version),
            prev as nat == (if cj == 0 {
                0
            } else {
                num_of(g.cards[cj as int - 1].number)
            }),
        decreases cards_g.len() - cj,
    {
        let card = &cards_g[cj];
        proof {
            assert(card@ == g.cards[cj as int]);
            assert(crate::codec::model::card_ok(card@, version));
            if cj > 0 {
                assert(num_of(g.cards[cj as int - 1].number) <= num_of(
                    g.cards[cj as int].number,
                ));
            }
        }
        let ghost before_card = body@;
        let value = write_card(body, card, prev, version);
        proof {
            lemma_cards_bytes_snoc_from(g.cards, cj as int, 0, version);
            assert(body@ =~= head + cards_bytes(g.cards.take(cj + 1), 0, version));
        }
        prev = value;
        cj = cj + 1;
    }
    proof {
        assert(g.cards.take(cards_g@.len() as int) =~= g.cards);
        assert(body@ =~= base + group_bytes(g, version));
    }
    Ok(())
}

/// The largest character boundary at or below 63 in an overlong name region.
fn trunc_boundary(name_vec: &Vec<u8>) -> (t: usize)
    requires
        name_vec@.len() > 63,
        vstd::utf8::valid_utf8(name_vec@),
    ensures
        t <= 63,
        t as int == trunc_idx(name_vec@, 63),
{
    let ghost nbase = name_vec@;
    let mut t: usize = 63;
    loop
        invariant_except_break
            0 <= t <= 63,
            63 < nbase.len(),
            nbase == name_vec@,
            vstd::utf8::valid_utf8(nbase),
            trunc_idx(nbase, 63) == trunc_idx(nbase, t as int),
        ensures
            t <= 63,
            trunc_idx(nbase, 63) == t as int,
        decreases t,
    {
        let b = name_vec[t];
        proof {
            vstd::utf8::is_char_boundary_iff_not_is_continuation_byte(nbase, t as int);
        }
        if b < 128 || b >= 192 {
            break;
        }
        proof {
            if t == 0 {
                vstd::utf8::is_char_boundary_start_end_of_seq(nbase);
                assert(false);
            }
        }
        t = t - 1;
    }
    t
}

/// Encode a deck at a format version into a deck-code string.
///
/// Fields the version cannot carry follow an explicit policy: a nonempty
/// sideboard below version 2, and a group too large for the version's count
/// field, are rejected; the language below version 3 and the icon below
/// version 4 are dropped silently, as their header bits do not exist there.
#[verifier::loop_isolation(false)]
#[verifier::rlimit(100)]
pub fn encode(deck: Deck, version: u8) -> (r: Result<String, CodecError>)
    ensures
        r is Ok <==> encodable(deck@, version),
        match r {
            Ok(s) => s@ == crate::codec::prefix_chars() + crate::codec::transport::b64_of(
                payload_of(deck@, version),
            ),
            Err(e) => e == (if version > 5 {
                CodecError::UnsupportedVersion
            } else {
                CodecError::OutOfRangeField
            }),
        },
{
    let ghost dv = deck@;
    match validate_deck(&deck, version) {
        Err(e) => {
            return Err(e);
        },
        Ok(_) => {},
    }
    proof {
        lemma_deck_groups_props(dv, version);
    }
    let Deck { digi_eggs, deck: main_deck, sideboard, icon, language, name } = deck;
    let language_number: u8 = match language {
        Some(Language::Japanese) => 0,
        Some(Language::English) => 1,
        Some(Language::Chinese) => 2,
        Some(Language::Korean) => 3,
        None => 1,
    };
    proof {
        assert(language_number as nat == lang_num(dv.language));
    }
    let egg_len = digi_eggs.len();
    let version_and_digi_egg_count: u8 = if 3 <= version && version <= 4 {
        version * 16 + language_number * 8 + (egg_len % 8) as u8
    } else {
        version * 16 + (egg_len % 16) as u8
    };
    proof {
        assert(dv.digi_eggs.len() == egg_len);
        assert(version_and_digi_egg_count == byte0_of(dv, version));
    }
    // The name region: icon block, then name bytes, cut at a boundary.
    let mut name_vec: Vec<u8> = Vec::new();
    let has_ic = version >= 4 && icon.is_some();
    proof {
        assert(has_ic == has_icon_field(dv, version));
    }
    if version >= 4 {
        match &icon {
            Some(ic) => {
                let mut ib = ic.as_str().as_bytes_vec();
                proof {
                    assert(ib@ == vstd::utf8::encode_utf8(ic@));
                    assert(dv.icon == Some(ic@));
                }
                if ib.len() >= 8 {
                    ib.truncate(8);
                } else {
                    let ghost ibase = ib@;
                    while ib.len() < 8
                        invariant
                            ibase.len() <= ib@.len() <= 8,
                            ib@ =~= ibase + Seq::new((ib@.len() - ibase.len()) as nat, |x: int| 32u8),
                        decreases 8 - ib.len(),
                    {
                        ib.push(32);
                        proof {
                            assert(ib@ =~= ibase + Seq::new(
                                (ib@.len() - ibase.len()) as nat,
                                |x: int| 32u8,
                            ));
                        }
                    }
                }
                proof {
                    assert(ib@ =~= icon_block(ic@));
                }
                name_vec.append(&mut ib);
            },
            None => {},
        }
    }
    let mut nb = name.as_str().as_bytes_vec();
    name_vec.append(&mut nb);
    proof {
        assert(name_vec@ =~= name_base(dv, version));
    }
    let ghost nbase = name_base(dv, version);
    if name_vec.len() > 63 {
        proof {
            crate::codec::model::lemma_name_base_valid(dv, version);
        }
        let t = trunc_boundary(&name_vec);
        name_vec.truncate(t);
        proof {
            assert(name_vec@ =~= name_bytes_of(dv, version));
        }
    } else {
        proof {
            assert(trunc_idx(nbase, 63) == nbase.len());
            assert(name_vec@ =~= name_bytes_of(dv, version));
        }
    }
    let name_length: u8 = if version >= 5 {
        language_number * 64 + name_vec.len() as u8
    } else {
        name_vec.len() as u8
    };
    proof {
        assert(name_length == byte2_of(dv, version));
    }
    // Group the three card slices.
    let side_len = sideboard.len();
    proof {
        assert(forall|j: int|
            0 <= j < digi_eggs@.len() ==> num_wf(
                (#[trigger] cards_view(digi_eggs@)[j]).number,
            ));
        assert(forall|j: int|
            0 <= j < main_deck@.len() ==> num_wf((#[trigger] cards_view(main_deck@)[j]).number));
        assert(forall|j: int|
            0 <= j < sideboard@.len() ==> num_wf((#[trigger] cards_view(sideboard@)[j]).number));
    }
    let mut grouped_decks = group_cards(digi_eggs);
    let mut g2 = group_cards(main_deck);
    let mut g3 = group_cards(sideboard);
    grouped_decks.append(&mut g2);
    grouped_decks.append(&mut g3);
    let ghost gvs = deck_groups(dv);
    proof {
        assert(groups_view(grouped_decks@) =~= gvs);
    }
    // The checksummed body: sideboard byte, then all group records.
    let mut body: Vec<u8> = Vec::new();
    if version >= 2 {
        let sb: u8 = if version >= 4 {
            (if has_ic {
                128
            } else {
                0
            }) + (side_len % 128) as u8
        } else {
            (side_len % 256) as u8
        };
        body.push(sb);
    }
    proof {
        assert(dv.sideboard.len() == side_len);
        assert(body@ =~= side_byte(dv, version));
        assert(gvs.take(0) =~= Seq::<GroupView>::empty());
        assert(body@ =~= side_byte(dv, version) + groups_bytes(gvs.take(0), version));
    }
    let mut gi: usize = 0;
    while gi < grouped_decks.len()
        invariant
            0 <= gi <= grouped_decks@.len(),
            groups_view(grouped_decks@) == gvs,
            body@ =~= side_byte(dv, version) + groups_bytes(gvs.take(gi as int), version),
            forall|t: int| 0 <= t < gi ==> group_fits((#[trigger] gvs[t]).cards.len(), version),
        decreases grouped_decks.len() - gi,
    {
        let entry = &grouped_decks[gi];
        proof {
            assert(gvs[gi as int] == GroupView {
                set: entry.0@,
                pad: entry.1 as nat,
                cards: cards_view(entry.2@),
            });
            assert(group_props(gvs[gi as int], version));
        }
        match write_group(&mut body, &entry.0, entry.1, &entry.2, version) {
            Ok(_) => {},
            Err(e) => {
                proof {
                    assert(!group_fits(gvs[gi as int].cards.len(), version));
                    assert(!groups_small(dv, version));
                }
                return Err(e);
            },
        }
        proof {
            lemma_groups_bytes_snoc(gvs, gi as int, version);
            assert(body@ =~= side_byte(dv, version) + groups_bytes(gvs.take(gi + 1), version));
        }
        gi = gi + 1;
    }
    proof {
        assert(gvs.take(gvs.len() as int) =~= gvs);
        assert(body@ =~= body_of(dv, version));
        assert(groups_small(dv, version));
        assert(encodable(dv, version));
    }
    // Checksum, then the full payload.
    let checksum = compute_checksum(body.len(), body.as_slice());
    proof {
        assert(body@.take(body@.len() as int) =~= body@);
    }
    let mut deck_bytes: Vec<u8> = Vec::new();
    deck_bytes.push(version_and_digi_egg_count);
    deck_bytes.push(checksum);
    deck_bytes.push(name_length);
    deck_bytes.append(&mut body);
    deck_bytes.append(&mut name_vec);
    proof {
        assert(deck_bytes@ =~= payload_of(dv, version));
    }
    // Transport envelope.
    let deck_b64_encoded = crate::codec::transport::b64_encode(&deck_bytes);
    let mut out = crate::codec::PREFIX.to_owned();
    proof {
        reveal_strlit("DCG");
        assert(out@ =~= crate::codec::prefix_chars());
    }
    out.append(deck_b64_encoded.as_str());
    Ok(out)
}

} // verus!
