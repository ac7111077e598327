//! Laws of the codec: what holds across encode and decode.
//!
//! The statements here are phrased over the same ghost functions the
//! contracts of `encode` and `decode` use (`payload_of`, `parse_payload`),
//! so together with those contracts they speak about the executable code.

use vstd::prelude::*;
use vstd::seq_lib::lemma_sorted_unique;
use crate::codec::{CardView, DeckView, CodecError, byte_sum, checksum_spec};
use crate::codec::model::{
    card_le_fn, sorted_cards, deck_groups, payload_of, parse_payload, encodable, fields_ok,
    groups_small, cards_ok, lemma_card_le_total, name_len_spec, vtail, vfirst, parse_vtail,
    parse_varint, parse_set36, parse_set, set_bytes, canon36, trim_chars, trim_front, trim_back,
    is_space, lemma_trim_back_take, card_bytes, cards_bytes, group_bytes, groups_bytes,
    parse_card, parse_cards, parse_groups, parse_group_header, GroupView, group_props,
    card_ok, num_wf, num_of, set_of, digits_of, pad_of, card_canon, cards_canon, canonical,
    dec_render, pow10, lemma_dec_value_bound,
    lemma_render_of_value, lemma_min_digits_le, lemma_number_decomp, group_count_field,
    flatten_groups, lemma_flatten_groups_of, group_fits, side_byte, body_of, byte0_of, byte2_of,
    name_base, name_bytes_of, icon_block, trunc_idx, has_icon_field, lang_num,
    lang_of, mk_deck, lemma_deck_groups_props,
    lemma_pow10_mono, no_edge_space, lemma_trim_id, lemma_trim_front_skip, lemma_groups_of_props,
    groups_of,
};
use crate::codec::{base36_str, base36_char, char36};
use vstd::utf8::{encode_utf8, decode_utf8, valid_utf8, is_ascii_chars};

verus! {

/// The name-length field a payload declares.
pub open spec fn name_len_of(p: Seq<u8>) -> nat {
    name_len_spec(p)
}

/// Where the checksummed card region of a payload ends: the name starts here.
pub open spec fn card_region_end(p: Seq<u8>) -> int {
    p.len() - name_len_of(p)
}

/// A byte with one bit inverted.
pub open spec fn flip_bit(b: u8, k: u8) -> u8
    recommends
        k < 8,
{
    b ^ (1u8 << k)
}

/// Replacing one byte shifts the byte sum by the difference.
proof fn lemma_byte_sum_update(s: Seq<u8>, j: int, x: u8)
    requires
        0 <= j < s.len(),
    ensures
        byte_sum(s.update(j, x)) + s[j] == byte_sum(s) + x,
    decreases s.len(),
{
    let t = s.update(j, x);
    if j == s.len() - 1 {
        assert(t.drop_last() =~= s.drop_last());
        assert(t.last() == x);
    } else {
        assert(t.drop_last() =~= s.drop_last().update(j, x));
        assert(t.last() == s.last());
        lemma_byte_sum_update(s.drop_last(), j, x);
    }
}

/// Checksum sensitivity: flipping any single bit of the checksummed card
/// region of a payload that decodes makes decoding fail with a checksum
/// mismatch.
pub proof fn lemma_checksum_detects_bit_flip(p: Seq<u8>, i: int, k: u8)
    requires
        parse_payload(p) is Ok,
        3 <= i < card_region_end(p),
        k < 8,
    ensures
        parse_payload(p.update(i, flip_bit(p[i], k))) == Err::<DeckView, CodecError>(
            CodecError::ChecksumMismatch,
        ),
{
    reveal(parse_payload);
    let p2 = p.update(i, flip_bit(p[i], k));
    let b = p[i];
    let m = 1u8 << k;
    let limit = card_region_end(p);
    assert(p.len() >= 3);
    assert(p2.len() == p.len() && p2[0] == p[0] && p2[1] == p[1] && p2[2] == p[2]);
    assert(checksum_spec(p.subrange(3, limit)) == p[1] as nat);
    // the flipped byte moves the sum by exactly one power of two
    assert(1 <= m <= 128 && ((b & m) == 0 ==> (b ^ m) == b + m) && ((b & m) != 0 ==> b ^ m
        == b - m)) by (bit_vector)
        requires
            m == 1u8 << k,
            k < 8,
    ;
    let r = p.subrange(3, limit);
    let r2 = p2.subrange(3, limit);
    assert(r2 =~= r.update(i - 3, flip_bit(b, k)));
    assert(r[i - 3] == b);
    lemma_byte_sum_update(r, i - 3, flip_bit(b, k));
    assert(byte_sum(r2) + b == byte_sum(r) + (b ^ m));
    // a shift of 1..128 cannot vanish modulo 256
    assert(byte_sum(r2) % 256 != byte_sum(r) % 256) by {
        if (b & m) == 0 {
            assert(byte_sum(r2) == byte_sum(r) + m);
            vstd::arithmetic::div_mod::lemma_mod_adds(byte_sum(r) as int, m as int, 256);
            vstd::arithmetic::div_mod::lemma_small_mod(m as nat, 256);
        } else {
            assert(byte_sum(r) == byte_sum(r2) + m);
            vstd::arithmetic::div_mod::lemma_mod_adds(byte_sum(r2) as int, m as int, 256);
            vstd::arithmetic::div_mod::lemma_small_mod(m as nat, 256);
        }
    }
    assert(checksum_spec(r2) != p2[1] as nat);
}

/// Order independence of encoding: two decks holding the same multisets of
/// cards, slice for slice, and the same metadata encode to the same payload,
/// and one is encodable exactly when the other is.
pub proof fn lemma_encode_order_independent(d1: DeckView, d2: DeckView, version: u8)
    requires
        d1.digi_eggs.to_multiset() == d2.digi_eggs.to_multiset(),
        d1.deck.to_multiset() == d2.deck.to_multiset(),
        d1.sideboard.to_multiset() == d2.sideboard.to_multiset(),
        d1.icon == d2.icon,
        d1.language == d2.language,
        d1.name == d2.name,
    ensures
        payload_of(d1, version) == payload_of(d2, version),
        encodable(d1, version) == encodable(d2, version),
{
    broadcast use vstd::seq_lib::group_to_multiset_ensures;

    lemma_card_le_total();
    lemma_sorted_slices_eq(d1.digi_eggs, d2.digi_eggs);
    lemma_sorted_slices_eq(d1.deck, d2.deck);
    lemma_sorted_slices_eq(d1.sideboard, d2.sideboard);
    assert(deck_groups(d1) == deck_groups(d2));
    assert(d1.digi_eggs.len() == d2.digi_eggs.len());
    assert(d1.deck.len() == d2.deck.len());
    assert(d1.sideboard.len() == d2.sideboard.len());
    assert(payload_of(d1, version) == payload_of(d2, version));
    lemma_cards_ok_multiset(d1.digi_eggs, d2.digi_eggs, version);
    lemma_cards_ok_multiset(d1.deck, d2.deck, version);
    lemma_cards_ok_multiset(d1.sideboard, d2.sideboard, version);
    assert(fields_ok(d1, version) == fields_ok(d2, version));
    assert(groups_small(d1, version) == groups_small(d2, version));
}

/// Two card slices with the same multiset sort to the same sequence.
proof fn lemma_sorted_slices_eq(a: Seq<CardView>, b: Seq<CardView>)
    requires
        a.to_multiset() == b.to_multiset(),
    ensures
        sorted_cards(a) == sorted_cards(b),
        a.len() == b.len(),
{
    broadcast use vstd::seq_lib::group_to_multiset_ensures;

    lemma_card_le_total();
    a.lemma_sort_by_ensures(card_le_fn());
    b.lemma_sort_by_ensures(card_le_fn());
    lemma_sorted_unique(a.sort_by(card_le_fn()), b.sort_by(card_le_fn()), card_le_fn());
    assert(a.len() == a.to_multiset().len());
    assert(b.len() == b.to_multiset().len());
}

/// Card validity is a property of the multiset.
proof fn lemma_cards_ok_multiset(a: Seq<CardView>, b: Seq<CardView>, version: u8)
    requires
        a.to_multiset() == b.to_multiset(),
    ensures
        cards_ok(a, version) == cards_ok(b, version),
{
    broadcast use vstd::seq_lib::group_to_multiset_ensures;

    if cards_ok(a, version) {
        assert forall|i: int| 0 <= i < b.len() implies crate::codec::model::card_ok(
            #[trigger] b[i],
            version,
        ) by {
            assert(b.to_multiset().contains(b[i]));
            assert(a.to_multiset().contains(b[i]));
            assert(a.contains(b[i]));
            let t = choose|t: int| 0 <= t < a.len() && a[t] == b[i];
            assert(crate::codec::model::card_ok(a[t], version));
        }
    }
    if cards_ok(b, version) {
        assert forall|i: int| 0 <= i < a.len() implies crate::codec::model::card_ok(
            #[trigger] a[i],
            version,
        ) by {
            assert(a.to_multiset().contains(a[i]));
            assert(b.to_multiset().contains(a[i]));
            assert(b.contains(a[i]));
            let t = choose|t: int| 0 <= t < b.len() && b[t] == a[i];
            assert(crate::codec::model::card_ok(b[t], version));
        }
    }
}


// ------------------------------------------------------------------
// Round trip, layer by layer
// ------------------------------------------------------------------

/// Parsing the continuation bytes written for `rem` yields what was encoded.
proof fn lemma_parse_vtail_inverts(p: Seq<u8>, pos: int, limit: int, acc: nat, mult: nat, rem: nat)
    requires
        rem >= 1,
        mult >= 1,
        acc + rem * mult <= 0xFFFF_FFFF,
        0 <= pos,
        pos + vtail(rem).len() <= limit <= p.len(),
        p.subrange(pos, pos + vtail(rem).len()) == vtail(rem),
    ensures
        parse_vtail(p, pos, limit, acc, mult) == Ok::<(u32, int), CodecError>(
            ((acc + rem * mult) as u32, pos + vtail(rem).len()),
        ),
    decreases rem,
{
    let t = vtail(rem);
    let b0v = (rem % 128 + if rem >= 128 {
        128 as nat
    } else {
        0 as nat
    }) as u8;
    assert(t =~= seq![b0v] + vtail(rem / 128));
    assert(t.len() >= 1);
    assert(p[pos] == t[0] && t[0] == b0v);
    assert(mult <= acc + rem * mult) by (nonlinear_arith)
        requires
            rem >= 1,
            mult >= 1,
            acc >= 0,
    ;
    assert((b0v as nat) % 128 == rem % 128);
    let acc2 = acc + (rem % 128) * mult;
    assert((rem % 128) * mult <= rem * mult) by (nonlinear_arith)
        requires
            mult >= 1,
            rem % 128 <= rem,
    ;
    if rem < 128 {
        assert(rem / 128 == 0);
        assert(vtail(0) =~= Seq::<u8>::empty());
        assert(t.len() == 1);
        assert(b0v < 128);
        assert(acc2 == acc + rem * mult);
    } else {
        assert(b0v >= 128);
        let rem2 = rem / 128;
        let mult2 = mult * 128;
        assert(rem2 >= 1);
        assert(acc2 + rem2 * mult2 == acc + rem * mult) by (nonlinear_arith)
            requires
                acc2 == acc + (rem % 128) * mult,
                mult2 == mult * 128,
                rem2 == rem / 128,
                rem == 128 * (rem / 128) + rem % 128,
        ;
        assert(rem == 128 * (rem / 128) + rem % 128) by (nonlinear_arith);
        assert(t.drop_first() =~= vtail(rem2));
        assert(p.subrange(pos + 1, pos + 1 + vtail(rem2).len()) =~= vtail(rem2)) by {
            assert(forall|x: int|
                0 <= x < vtail(rem2).len() ==> p.subrange(
                    pos + 1,
                    pos + 1 + vtail(rem2).len(),
                )[x] == #[trigger] p.subrange(pos, pos + t.len())[x + 1]);
        }
        lemma_parse_vtail_inverts(p, pos + 1, limit, acc2, mult2, rem2);
    }
}

/// Parsing a varint whose first field and tail were written for `value`
/// yields `value`.
proof fn lemma_parse_varint_inverts(p: Seq<u8>, pos: int, limit: int, value: u32, m: u8)
    requires
        m == 4 || m == 16 || m == 32,
        0 <= pos,
        pos + vtail((value as nat) / (m as nat)).len() <= limit <= p.len(),
        p.subrange(pos, pos + vtail((value as nat) / (m as nat)).len()) == vtail(
            (value as nat) / (m as nat),
        ),
    ensures
        parse_varint(p, pos, limit, vfirst(value as nat, m as nat) as u8, m) == Ok::<
            (u32, int),
            CodecError,
        >((value, pos + vtail((value as nat) / (m as nat)).len())),
{
    let v = value as nat;
    let mn = m as nat;
    let field = vfirst(v, mn) as u8;
    assert(vfirst(v, mn) < 2 * mn);
    if v < mn {
        assert(vfirst(v, mn) == v);
        assert((field as nat) % (2 * mn) == v);
        assert((field as nat) % mn == v % mn && v % mn == v);
        assert(v / mn == 0) by (nonlinear_arith)
            requires
                v < mn,
                mn >= 1,
        ;
        assert(vtail(0) =~= Seq::<u8>::empty());
    } else {
        assert(vfirst(v, mn) == v % mn + mn);
        assert((field as nat) % (2 * mn) == v % mn + mn);
        assert((field as nat) % mn == v % mn) by (nonlinear_arith)
            requires
                field as nat == v % mn + mn,
                mn >= 1,
                v % mn < mn,
        ;
        assert(v / mn >= 1) by (nonlinear_arith)
            requires
                v >= mn,
                mn >= 1,
        ;
        vstd::arithmetic::div_mod::lemma_fundamental_div_mod(v as int, mn as int);
        assert(v % mn + (v / mn) * mn == v);
        lemma_parse_vtail_inverts(p, pos, limit, v % mn, mn, v / mn);
    }
}

/// A canonical base36 character survives the value-and-back trip.
proof fn lemma_canon36_roundtrip(c: char)
    requires
        canon36(c),
    ensures
        char36(c) < 36,
        base36_char(char36(c)) == c,
        base36_str(char36(c)) == seq![c],
{
    vstd::utf8::char_u32_cast(c, c as u32);
    assert(base36_str(char36(c)) =~= seq![c]);
}

/// Parsing a base36 set code written for `set` yields `set`.
proof fn lemma_parse_set36_inverts(
    p: Seq<u8>,
    pos: int,
    limit: int,
    set: Seq<char>,
    acc: Seq<char>,
    version: u8,
)
    requires
        version >= 1,
        set.len() >= 1,
        forall|i: int| 0 <= i < set.len() ==> canon36(#[trigger] set[i]),
        0 <= pos,
        pos + set.len() <= limit <= p.len(),
        p.subrange(pos, pos + set.len()) == set_bytes(set, version),
    ensures
        parse_set36(p, pos, limit, acc) == Ok::<(Seq<char>, int), CodecError>(
            (acc + set, pos + set.len()),
        ),
    decreases set.len(),
{
    lemma_canon36_roundtrip(set[0]);
    let b = p[pos];
    assert(b == set_bytes(set, version)[0]);
    assert(b as nat == char36(set[0]) as nat + if 1 < set.len() {
        128 as nat
    } else {
        0 as nat
    });
    assert((b as nat) % 64 == char36(set[0]) as nat);
    let acc2 = acc + base36_str(((b as nat) % 64) as u8);
    assert(acc2 =~= acc + seq![set[0]]);
    if set.len() == 1 {
        assert(b < 128);
        assert(acc2 =~= acc + set);
    } else {
        assert(b >= 128);
        let rest = set.drop_first();
        assert(forall|i: int| 0 <= i < rest.len() ==> canon36(#[trigger] rest[i])) by {
            assert(forall|i: int| 0 <= i < rest.len() ==> #[trigger] rest[i] == set[i + 1]);
        }
        assert forall|x: int|
            0 <= x < rest.len() implies p.subrange(pos + 1, pos + 1 + rest.len())[x]
            == set_bytes(rest, version)[x] by {
            assert(p.subrange(pos + 1, pos + 1 + rest.len())[x] == p[pos + 1 + x]);
            assert(p.subrange(pos, pos + set.len())[x + 1] == p[pos + 1 + x]);
            assert(rest[x] == set[x + 1]);
            assert(set_bytes(set, version)[x + 1] == set_bytes(rest, version)[x]);
        }
        assert(p.subrange(pos + 1, pos + 1 + rest.len()) =~= set_bytes(rest, version));
        lemma_parse_set36_inverts(p, pos + 1, limit, rest, acc2, version);
        assert(acc2 + rest =~= acc + set);
    }
}

/// Parsing a version-0 set record written for `set` yields `set`.
proof fn lemma_parse_set0_inverts(p: Seq<u8>, pos: int, limit: int, set: Seq<char>)
    requires
        set.len() >= 1,
        set.len() <= 4,
        forall|i: int| 0 <= i < set.len() ==> canon36(#[trigger] set[i]),
        0 <= pos,
        pos + 4 <= limit <= p.len(),
        p.subrange(pos, pos + 4) == set_bytes(set, 0),
    ensures
        parse_set(p, pos, limit, 0) == Ok::<(Seq<char>, int), CodecError>((set, pos + 4)),
{
    let sb = p.subrange(pos, pos + 4);
    let padded = set + Seq::new((4 - set.len()) as nat, |j: int| ' ');
    lemma_padded_ascii(set);
    assert(is_ascii_chars(padded));
    vstd::utf8::is_ascii_chars_encode_utf8(padded);
    assert(encode_utf8(padded) =~= sb) by {
        assert(forall|i: int|
            0 <= i < set.len() ==> (#[trigger] padded[i]) == set[i]);
    }
    vstd::utf8::encode_utf8_valid_utf8(padded);
    vstd::utf8::encode_utf8_decode_utf8(padded);
    assert(decode_utf8(sb) == padded);
    assert(trim_chars(padded) == set) by {
        assert(padded[0] == set[0]);
        assert(!is_space(set[0]));
        assert(trim_front(padded) == padded);
        assert(forall|k: int| set.len() <= k < padded.len() ==> is_space(#[trigger] padded[k]));
        assert(padded[set.len() - 1] == set.last() && !is_space(set.last()));
        lemma_trim_back_take(padded, set.len() as int);
        assert(padded.take(set.len() as int) =~= set);
    }
}

proof fn lemma_padded_ascii(set: Seq<char>)
    requires
        set.len() <= 4,
        forall|i: int| 0 <= i < set.len() ==> canon36(#[trigger] set[i]),
    ensures
        is_ascii_chars(set + Seq::new((4 - set.len()) as nat, |j: int| ' ')),
{
    let padded = set + Seq::new((4 - set.len()) as nat, |j: int| ' ');
    assert forall|i: int| 0 <= i < padded.len() implies '\0' <= #[trigger] padded[i]
        <= '\u{7f}' by {
        if i < set.len() {
            assert(padded[i] == set[i]);
            assert(canon36(set[i]));
            vstd::utf8::char_u32_cast(set[i], set[i] as u32);
            assert('\0' <= padded[i] && padded[i] <= '\u{7f}');
        } else {
            assert(padded[i] == ' ');
        }
    }
}


/// Splitting a packed value: quotient and remainder of `hi * k + lo`.
proof fn lemma_pack(hi: nat, lo: nat, k: nat)
    requires
        k >= 1,
        lo < k,
    ensures
        (hi * k + lo) / k == hi,
        (hi * k + lo) % k == lo,
{
    vstd::arithmetic::div_mod::lemma_fundamental_div_mod_converse(
        (hi * k + lo) as int,
        k as int,
        hi as int,
        lo as int,
    );
}

/// UTF-8 encoding distributes over concatenation.
proof fn lemma_encode_utf8_concat(a: Seq<char>, b: Seq<char>)
    ensures
        encode_utf8(a + b) == encode_utf8(a) + encode_utf8(b),
    decreases a.len(),
{
    if a.len() == 0 {
        assert(a + b =~= b);
        assert(encode_utf8(a) =~= Seq::<u8>::empty());
        assert(encode_utf8(a) + encode_utf8(b) =~= encode_utf8(b));
    } else {
        assert((a + b)[0] == a[0]);
        assert((a + b).len() > 0);
        assert((a + b).drop_first() =~= a.drop_first() + b);
        lemma_encode_utf8_concat(a.drop_first(), b);
        assert(encode_utf8(a + b) =~= encode_utf8(a) + encode_utf8(b));
    }
}

/// Parsing a card record written for `c` yields `c` back.
#[verifier::rlimit(100)]
proof fn lemma_parse_card_inverts(p: Seq<u8>, pos: int, limit: int, c: CardView, prev: u32, version: u8)
    requires
        version <= 5,
        card_ok(c, version),
        prev as nat <= num_of(c.number),
        0 <= pos,
        pos + card_bytes(c, prev as nat, version).len() <= limit <= p.len(),
        p.subrange(pos, pos + card_bytes(c, prev as nat, version).len()) == card_bytes(
            c,
            prev as nat,
            version,
        ),
    ensures
        parse_card(p, pos, limit, version, set_of(c.number), pad_of(c.number), prev) == Ok::<
            (CardView, u32, int),
            CodecError,
        >((c, num_of(c.number) as u32, pos + card_bytes(c, prev as nat, version).len())),
{
    reveal(parse_card);
    let cb = card_bytes(c, prev as nat, version);
    let num = num_of(c.number);
    assert(num < 10000) by {
        lemma_number_decomp(c.number);
        lemma_dec_value_bound(digits_of(c.number));
        reveal_with_fuel(pow10, 5);
        lemma_pow10_mono(digits_of(c.number).len(), 4);
    }
    let delta = (num - prev) as nat;
    let cm1 = ((c.count as int - 1) % 4) as nat;
    let cm1w = ((c.count as int - 1) % 256) as nat;
    let pid = (c.parallel_id as nat) % 8;
    assert(pid == c.parallel_id as nat);
    // reconstruct `num` from the canonical digits
    assert(dec_render(num, pad_of(c.number)) == digits_of(c.number) && c.number == set_of(
        c.number,
    ) + seq!['-'] + dec_render(num, pad_of(c.number))) by {
        lemma_number_decomp(c.number);
        lemma_dec_value_bound(digits_of(c.number));
        lemma_min_digits_le(num, pad_of(c.number));
        lemma_render_of_value(digits_of(c.number));
    }
    if version == 0 {
        assert((c.count as int - 1) % 4 == c.count - 1);
        let vf = vfirst(delta, 4);
        assert(vf < 8);
        let b0v = (cm1 * 64 + pid * 8 + vf) as u8;
        assert(cb =~= seq![b0v] + vtail(delta / 4));
        assert(p.subrange(pos, pos + cb.len())[0] == p[pos]);
        assert(p[pos] == b0v);
        assert(b0v as nat == (cm1 * 8 + pid) * 8 + vf);
        lemma_pack(cm1 * 8 + pid, vf, 8);
        lemma_pack(cm1, pid, 8);
        assert(cm1 * 64 + pid * 8 == (cm1 * 8 + pid) * 8) by (nonlinear_arith);
        lemma_pack(cm1, pid * 8 + vf, 64);
        assert(cm1 * 64 + (pid * 8 + vf) == cm1 * 64 + pid * 8 + vf);
        assert((b0v as nat) / 64 == cm1);
        assert(((b0v as nat) / 8) % 8 == pid);
        assert((b0v as nat) % 8 == vf);
        assert forall|x: int|
            0 <= x < vtail(delta / 4).len() implies #[trigger] p.subrange(
            pos + 1,
            pos + 1 + vtail(delta / 4).len(),
        )[x] == vtail(delta / 4)[x] by {
            assert(p.subrange(pos + 1, pos + 1 + vtail(delta / 4).len())[x] == p[pos + 1 + x]);
            assert(p.subrange(pos, pos + cb.len())[x + 1] == p[pos + 1 + x]);
            assert(cb[x + 1] == vtail(delta / 4)[x]);
        }
        assert(p.subrange(pos + 1, pos + 1 + vtail(delta / 4).len()) =~= vtail(delta / 4));
        lemma_parse_varint_inverts(p, pos + 1, limit, delta as u32, 4);
        assert(prev + delta as u32 == num);
    } else {
        assert((c.count as int - 1) % 256 == c.count - 1);
        let vf = vfirst(delta, 16);
        assert(vf < 32);
        let b2v = (pid * 32 + vf) as u8;
        assert(cb =~= seq![cm1w as u8, b2v] + vtail(delta / 16));
        assert(p.subrange(pos, pos + cb.len())[0] == p[pos]);
        assert(p.subrange(pos, pos + cb.len())[1] == p[pos + 1]);
        assert(p[pos] == cm1w as u8 && p[pos + 1] == b2v);
        lemma_pack(pid, vf, 32);
        assert((b2v as nat) / 32 == pid);
        assert((b2v as nat) % 32 == vf);
        assert forall|x: int|
            0 <= x < vtail(delta / 16).len() implies #[trigger] p.subrange(
            pos + 2,
            pos + 2 + vtail(delta / 16).len(),
        )[x] == vtail(delta / 16)[x] by {
            assert(p.subrange(pos + 2, pos + 2 + vtail(delta / 16).len())[x] == p[pos + 2 + x]);
            assert(p.subrange(pos, pos + cb.len())[x + 2] == p[pos + 2 + x]);
            assert(cb[x + 2] == vtail(delta / 16)[x]);
        }
        assert(p.subrange(pos + 2, pos + 2 + vtail(delta / 16).len()) =~= vtail(delta / 16));
        lemma_parse_varint_inverts(p, pos + 2, limit, delta as u32, 16);
        assert(prev + delta as u32 == num);
    }
}

/// Parsing the records written for a run of cards yields them all back.
proof fn lemma_parse_cards_inverts(
    p: Seq<u8>,
    pos: int,
    limit: int,
    cards: Seq<CardView>,
    set: Seq<char>,
    pad: nat,
    prev: u32,
    acc: Seq<CardView>,
    version: u8,
)
    requires
        version <= 5,
        forall|k: int|
            0 <= k < cards.len() ==> card_ok(#[trigger] cards[k], version) && set_of(
                cards[k].number,
            ) == set && pad_of(cards[k].number) == pad,
        forall|k: int|
            1 <= k < cards.len() ==> num_of(cards[k - 1].number) <= num_of(
                (#[trigger] cards[k]).number,
            ),
        cards.len() > 0 ==> prev as nat <= num_of(cards[0].number),
        0 <= pos,
        pos + cards_bytes(cards, prev as nat, version).len() <= limit <= p.len(),
        p.subrange(pos, pos + cards_bytes(cards, prev as nat, version).len()) == cards_bytes(
            cards,
            prev as nat,
            version,
        ),
    ensures
        parse_cards(p, pos, limit, version, set, pad, cards.len(), prev, acc) == Ok::<
            (Seq<CardView>, int),
            CodecError,
        >((acc + cards, pos + cards_bytes(cards, prev as nat, version).len())),
    decreases cards.len(),
{
    if cards.len() == 0 {
        assert(acc + cards =~= acc);
        assert(cards_bytes(cards, prev as nat, version) =~= Seq::<u8>::empty());
    } else {
        let c0 = cards[0];
        let cb0 = card_bytes(c0, prev as nat, version);
        let rest = cards.drop_first();
        let all = cards_bytes(cards, prev as nat, version);
        let num0 = num_of(c0.number);
        assert(all =~= cb0 + cards_bytes(rest, num0, version));
        assert forall|x: int| 0 <= x < cb0.len() implies #[trigger] p.subrange(
            pos,
            pos + cb0.len(),
        )[x] == cb0[x] by {
            assert(p.subrange(pos, pos + cb0.len())[x] == p[pos + x]);
            assert(p.subrange(pos, pos + all.len())[x] == p[pos + x]);
            assert(all[x] == cb0[x]);
        }
        assert(p.subrange(pos, pos + cb0.len()) =~= cb0);
        lemma_parse_card_inverts(p, pos, limit, c0, prev, version);
        let pos2 = pos + cb0.len();
        let rb = cards_bytes(rest, num0, version);
        assert forall|x: int| 0 <= x < rb.len() implies #[trigger] p.subrange(
            pos2,
            pos2 + rb.len(),
        )[x] == rb[x] by {
            assert(p.subrange(pos2, pos2 + rb.len())[x] == p[pos2 + x]);
            assert(p.subrange(pos, pos + all.len())[x + cb0.len()] == p[pos2 + x]);
            assert(all[x + cb0.len()] == rb[x]);
        }
        assert(p.subrange(pos2, pos2 + rb.len()) =~= rb);
        assert(forall|k: int| 0 <= k < rest.len() ==> #[trigger] rest[k] == cards[k + 1]);
        assert forall|k: int|
            1 <= k < rest.len() implies num_of((#[trigger] rest[k - 1]).number) <= num_of(
            rest[k].number,
        ) by {
            assert(rest[k - 1] == cards[k]);
            assert(rest[k] == cards[k + 1]);
            assert(num_of(cards[(k + 1) - 1].number) <= num_of(cards[k + 1].number));
        }
        if rest.len() > 0 {
            assert(rest[0] == cards[1]);
            assert(num_of(cards[1 - 1].number) <= num_of(cards[1].number));
        }
        assert(num0 <= 0xFFFF_FFFF) by {
            lemma_number_decomp(c0.number);
            lemma_dec_value_bound(digits_of(c0.number));
            reveal_with_fuel(pow10, 5);
            lemma_pow10_mono(digits_of(c0.number).len(), 4);
        }
        lemma_parse_cards_inverts(
            p,
            pos2,
            limit,
            rest,
            set,
            pad,
            num0 as u32,
            acc.push(c0),
            version,
        );
        assert(acc.push(c0) + rest =~= acc + cards);
    }
}


/// A chunk of an established region is itself an established region.
proof fn lemma_sub_chunk(p: Seq<u8>, pos: int, all: Seq<u8>, off: int, chunk: Seq<u8>)
    requires
        0 <= pos,
        pos + all.len() <= p.len(),
        p.subrange(pos, pos + all.len()) == all,
        0 <= off,
        off + chunk.len() <= all.len(),
        chunk == all.subrange(off, off + chunk.len()),
    ensures
        p.subrange(pos + off, pos + off + chunk.len()) == chunk,
{
    assert forall|x: int| 0 <= x < chunk.len() implies #[trigger] p.subrange(
        pos + off,
        pos + off + chunk.len(),
    )[x] == chunk[x] by {
        assert(p.subrange(pos + off, pos + off + chunk.len())[x] == p[pos + off + x]);
        assert(p.subrange(pos, pos + all.len())[off + x] == p[pos + off + x]);
        assert(all.subrange(off, off + chunk.len())[x] == all[off + x]);
    }
    assert(p.subrange(pos + off, pos + off + chunk.len()) =~= chunk);
}

/// What the round trip needs of one group: the writer facts, a canonical
/// set code, and a count that fits the version's field.
pub open spec fn group_canon(g: GroupView, version: u8) -> bool {
    &&& group_props(g, version)
    &&& g.set.len() >= 1
    &&& forall|i: int| 0 <= i < g.set.len() ==> canon36(#[trigger] g.set[i])
    &&& group_fits(g.cards.len(), version)
}

/// Parsing a group's set code and padding/count byte yields what was written.
#[verifier::rlimit(100)]
proof fn lemma_parse_group_header_inverts(
    p: Seq<u8>,
    pos: int,
    limit: int,
    g: GroupView,
    version: u8,
)
    requires
        version <= 5,
        group_canon(g, version),
        0 <= pos,
        pos + group_bytes(g, version).len() <= limit <= p.len(),
        p.subrange(pos, pos + group_bytes(g, version).len()) == group_bytes(g, version),
    ensures
        ({
            let sb = set_bytes(g.set, version);
            let tail_len: int = if version >= 2 {
                vtail(g.cards.len() / 32).len() as int
            } else {
                0
            };
            parse_group_header(p, pos, limit, version) == Ok::<
                ((Seq<char>, nat, u32), int),
                CodecError,
            >(((g.set, g.pad, g.cards.len() as u32), pos + sb.len() + 1 + tail_len))
        }),
{
    reveal(parse_group_header);
    let gb = group_bytes(g, version);
    let sb = set_bytes(g.set, version);
    let n = g.cards.len();
    let field = group_count_field(n, version);
    let pcb = ((((g.pad as int) - 1) % 4) as nat * 64 + field) as u8;
    let tailb: Seq<u8> = if version >= 2 {
        vtail(n / 32)
    } else {
        Seq::<u8>::empty()
    };
    let cb = cards_bytes(g.cards, 0, version);
    assert(gb =~= sb + seq![pcb] + tailb + cb);
    assert(((g.pad as int) - 1) % 4 == g.pad - 1);
    assert(field < 64) by {
        if version >= 2 {
            assert(vfirst(n, 32) < 64);
        } else {
            assert(n <= 63);
            assert(n % 64 == n);
        }
    }
    // the set code
    assert(sb =~= gb.subrange(0, sb.len() as int));
    lemma_sub_chunk(p, pos, gb, 0, sb);
    let pos1 = pos + sb.len();
    if version == 0 {
        assert(card_ok(g.cards[0], version));
        assert(set_of(g.cards[0].number) == g.set);
        lemma_parse_set0_inverts(p, pos, limit, g.set);
    } else {
        lemma_parse_set36_inverts(p, pos, limit, g.set, Seq::<char>::empty(), version);
        assert(Seq::<char>::empty() + g.set =~= g.set);
    }
    assert(parse_set(p, pos, limit, version) == Ok::<(Seq<char>, int), CodecError>(
        (g.set, pos1),
    ));
    // the padding and count byte
    assert(p.subrange(pos, pos + gb.len())[pos1 - pos] == p[pos1]);
    assert(gb[pos1 - pos] == pcb);
    assert(p[pos1] == pcb);
    lemma_pack((g.pad - 1) as nat, field, 64);
    assert((pcb as nat) / 64 == g.pad - 1);
    assert((pcb as nat) % 64 == field);
    if version >= 2 {
        assert(tailb =~= gb.subrange(pos1 - pos + 1, pos1 - pos + 1 + tailb.len() as int));
        lemma_sub_chunk(p, pos, gb, pos1 - pos + 1, tailb);
        assert(n <= 0xFFFF_FFFF);
        assert(vfirst(n as u32 as nat, 32) == field);
        lemma_parse_varint_inverts(p, pos1 + 1, limit, n as u32, 32);
    } else {
        assert(n <= 63);
        assert(field == n);
    }
}

/// Parsing the records written for a run of groups that exactly fills the
/// card region yields all their cards.
#[verifier::rlimit(100)]
proof fn lemma_parse_groups_inverts(
    p: Seq<u8>,
    pos: int,
    limit: int,
    gs: Seq<GroupView>,
    acc: Seq<CardView>,
    version: u8,
)
    requires
        version <= 5,
        forall|i: int| 0 <= i < gs.len() ==> group_canon(#[trigger] gs[i], version),
        0 <= pos,
        pos + groups_bytes(gs, version).len() == limit,
        limit <= p.len(),
        p.subrange(pos, limit) == groups_bytes(gs, version),
    ensures
        parse_groups(p, pos, limit, version, acc) == Ok::<Seq<CardView>, CodecError>(
            acc + flatten_groups(gs),
        ),
    decreases gs.len(),
{
    if gs.len() == 0 {
        assert(groups_bytes(gs, version) =~= Seq::<u8>::empty());
        assert(pos == limit);
        assert(flatten_groups(gs) =~= Seq::<CardView>::empty());
        assert(acc + flatten_groups(gs) =~= acc);
    } else {
        let g = gs[0];
        assert(group_canon(g, version));
        let gb = group_bytes(g, version);
        let all = groups_bytes(gs, version);
        let sb = set_bytes(g.set, version);
        let n = g.cards.len();
        let tailb: Seq<u8> = if version >= 2 {
            vtail(n / 32)
        } else {
            Seq::<u8>::empty()
        };
        let cb = cards_bytes(g.cards, 0, version);
        assert(all =~= gb + groups_bytes(gs.drop_first(), version));
        assert(gb =~= sb + seq![((((g.pad as int) - 1) % 4) as nat * 64 + group_count_field(
            n,
            version,
        )) as u8] + tailb + cb);
        assert(gb =~= all.subrange(0, gb.len() as int));
        lemma_sub_chunk(p, pos, all, 0, gb);
        lemma_parse_group_header_inverts(p, pos, limit, g, version);
        let pos2 = pos + sb.len() + 1 + tailb.len();
        // the cards
        assert(cb =~= all.subrange(pos2 - pos, pos2 - pos + cb.len() as int));
        lemma_sub_chunk(p, pos, all, pos2 - pos, cb);
        assert(forall|k: int|
            0 <= k < g.cards.len() ==> card_ok(#[trigger] g.cards[k], version) && set_of(
                g.cards[k].number,
            ) == g.set && pad_of(g.cards[k].number) == g.pad);
        assert forall|k: int|
            1 <= k < g.cards.len() implies num_of(g.cards[k - 1].number) <= num_of(
            (#[trigger] g.cards[k]).number,
        ) by {
            assert(num_of((g.cards[k - 1]).number) <= num_of(g.cards[k].number));
        }
        lemma_parse_cards_inverts(p, pos2, limit, g.cards, g.set, g.pad, 0, acc, version);
        let pos3 = pos2 + cb.len();
        assert(parse_cards(p, pos2, limit, version, g.set, g.pad, n, 0, acc) == Ok::<
            (Seq<CardView>, int),
            CodecError,
        >((acc + g.cards, pos3)));
        // the rest of the groups
        assert(pos3 == pos + gb.len());
        let rest_b = groups_bytes(gs.drop_first(), version);
        assert(rest_b =~= all.subrange(gb.len() as int, all.len() as int));
        lemma_sub_chunk(p, pos, all, gb.len() as int, rest_b);
        assert(p.subrange(pos3, limit) == rest_b) by {
            assert(pos3 + rest_b.len() == limit);
        }
        assert(forall|i: int|
            0 <= i < gs.drop_first().len() ==> #[trigger] gs.drop_first()[i] == gs[i + 1]);
        lemma_parse_groups_inverts(p, pos3, limit, gs.drop_first(), acc + g.cards, version);
        assert(pos < pos3 <= limit);
        assert(flatten_groups(gs) =~= g.cards + flatten_groups(gs.drop_first()));
        assert((acc + g.cards) + flatten_groups(gs.drop_first()) =~= acc + flatten_groups(gs));
    }
}

/// A slice already in canonical order sorts to itself.
proof fn lemma_sorted_cards_id(s: Seq<CardView>)
    requires
        vstd::relations::sorted_by(s, card_le_fn()),
    ensures
        sorted_cards(s) == s,
{
    broadcast use vstd::seq_lib::group_to_multiset_ensures;

    lemma_card_le_total();
    s.lemma_sort_by_ensures(card_le_fn());
    lemma_sorted_unique(s, s.sort_by(card_le_fn()), card_le_fn());
}

/// Flattening distributes over concatenation of group lists.
proof fn lemma_flatten_concat(a: Seq<GroupView>, b: Seq<GroupView>)
    ensures
        flatten_groups(a + b) == flatten_groups(a) + flatten_groups(b),
    decreases a.len(),
{
    if a.len() == 0 {
        assert(a + b =~= b);
        assert(flatten_groups(a) =~= Seq::<CardView>::empty());
        assert(flatten_groups(a) + flatten_groups(b) =~= flatten_groups(b));
    } else {
        assert((a + b)[0] == a[0]);
        assert((a + b).drop_first() =~= a.drop_first() + b);
        lemma_flatten_concat(a.drop_first(), b);
        assert(flatten_groups(a + b) =~= flatten_groups(a) + flatten_groups(b));
    }
}

/// The groups of a canonical slice carry canonical, nonempty set codes.
proof fn lemma_slice_groups_canon(s: Seq<CardView>, version: u8)
    requires
        cards_canon(s, version),
        vstd::relations::sorted_by(s, card_le_fn()),
    ensures
        forall|i: int|
            0 <= i < groups_of(sorted_cards(s)).len() ==> {
                let g = #[trigger] groups_of(sorted_cards(s))[i];
                g.set.len() >= 1 && (forall|j: int|
                    0 <= j < g.set.len() ==> canon36(#[trigger] g.set[j]))
            },
{
    lemma_sorted_cards_id(s);
    assert(forall|j: int| 0 <= j < s.len() ==> num_wf((#[trigger] s[j]).number));
    lemma_groups_of_props(s);
    assert forall|i: int| 0 <= i < groups_of(sorted_cards(s)).len() implies {
        let g = #[trigger] groups_of(sorted_cards(s))[i];
        g.set.len() >= 1 && (forall|j: int| 0 <= j < g.set.len() ==> canon36(#[trigger] g.set[j]))
    } by {
        let g = groups_of(s)[i];
        assert(g.cards.len() >= 1);
        assert(s.contains(g.cards[0]));
        let t = choose|t: int| 0 <= t < s.len() && s[t] == g.cards[0];
        assert(card_canon(s[t], version));
        assert(set_of(g.cards[0].number) == g.set);
        assert(num_wf(g.cards[0].number));
        assert(g.set.len() >= 1);
    }
}

/// The icon block decodes and trims back to the icon itself.
proof fn lemma_icon_block_restores(ic: Seq<char>)
    requires
        encode_utf8(ic).len() <= 8,
        no_edge_space(ic),
    ensures
        valid_utf8(icon_block(ic)),
        trim_chars(decode_utf8(icon_block(ic))) == ic,
        icon_block(ic).len() == 8,
{
    let ib = encode_utf8(ic);
    vstd::utf8::encode_utf8_valid_utf8(ic);
    if ib.len() == 8 {
        assert(icon_block(ic) =~= ib);
        vstd::utf8::encode_utf8_decode_utf8(ic);
        lemma_trim_id(ic);
    } else {
        let k = (8 - ib.len()) as nat;
        let sc = Seq::new(k, |j: int| ' ');
        assert(is_ascii_chars(sc));
        vstd::utf8::is_ascii_chars_encode_utf8(sc);
        assert(encode_utf8(sc) =~= Seq::new(k, |j: int| 32u8));
        lemma_encode_utf8_concat(ic, sc);
        assert(icon_block(ic) =~= encode_utf8(ic + sc));
        vstd::utf8::encode_utf8_valid_utf8(ic + sc);
        vstd::utf8::encode_utf8_decode_utf8(ic + sc);
        assert(decode_utf8(icon_block(ic)) == ic + sc);
        let padded = ic + sc;
        assert(forall|j: int| ic.len() <= j < padded.len() ==> is_space(#[trigger] padded[j]));
        if ic.len() == 0 {
            lemma_trim_front_skip(padded, padded.len() as int);
            assert(padded.skip(padded.len() as int) =~= Seq::<char>::empty());
            assert(trim_back(Seq::<char>::empty()) =~= Seq::<char>::empty());
            assert(trim_chars(padded) =~= ic);
        } else {
            assert(padded[0] == ic[0]);
            assert(!is_space(padded[0]));
            assert(trim_front(padded) == padded);
            assert(padded[ic.len() - 1] == ic.last() && !is_space(ic.last()));
            lemma_trim_back_take(padded, ic.len() as int);
            assert(padded.take(ic.len() as int) =~= ic);
        }
    }
}

/// Name bytes decode and trim back to the name itself.
proof fn lemma_name_restores(name: Seq<char>)
    requires
        no_edge_space(name),
    ensures
        valid_utf8(encode_utf8(name)),
        trim_chars(decode_utf8(encode_utf8(name))) == name,
{
    vstd::utf8::encode_utf8_valid_utf8(name);
    vstd::utf8::encode_utf8_decode_utf8(name);
    lemma_trim_id(name);
}


/// Every group of a canonical deck is fit to write and parse back.
proof fn lemma_deck_groups_canon(d: DeckView, version: u8)
    requires
        canonical(d, version),
    ensures
        forall|i: int|
            0 <= i < deck_groups(d).len() ==> group_canon(#[trigger] deck_groups(d)[i], version),
{
    lemma_deck_groups_props(d, version);
    lemma_slice_groups_canon(d.digi_eggs, version);
    lemma_slice_groups_canon(d.deck, version);
    lemma_slice_groups_canon(d.sideboard, version);
    let ga = groups_of(sorted_cards(d.digi_eggs));
    let gb = groups_of(sorted_cards(d.deck));
    let gc = groups_of(sorted_cards(d.sideboard));
    let gvs = deck_groups(d);
    assert(gvs =~= ga + gb + gc);
    assert forall|i: int| 0 <= i < gvs.len() implies group_canon(#[trigger] gvs[i], version) by {
        assert(group_props(gvs[i], version));
        assert(group_fits(gvs[i].cards.len(), version));
        if i < ga.len() {
            assert(gvs[i] == ga[i]);
        } else if i < ga.len() + gb.len() {
            assert(gvs[i] == gb[i - ga.len()]);
        } else {
            assert(gvs[i] == gc[i - ga.len() - gb.len()]);
        }
    }
}

/// The groups of a canonical deck flatten back to its three slices in order.
proof fn lemma_flatten_deck(d: DeckView, version: u8)
    requires
        canonical(d, version),
    ensures
        flatten_groups(deck_groups(d)) == d.digi_eggs + d.deck + d.sideboard,
{
    let ga = groups_of(sorted_cards(d.digi_eggs));
    let gb = groups_of(sorted_cards(d.deck));
    let gc = groups_of(sorted_cards(d.sideboard));
    lemma_sorted_cards_id(d.digi_eggs);
    lemma_sorted_cards_id(d.deck);
    lemma_sorted_cards_id(d.sideboard);
    lemma_flatten_concat(ga + gb, gc);
    lemma_flatten_concat(ga, gb);
    lemma_flatten_groups_of(d.digi_eggs);
    lemma_flatten_groups_of(d.deck);
    lemma_flatten_groups_of(d.sideboard);
    assert((ga + gb) + gc =~= deck_groups(d));
    assert(flatten_groups(deck_groups(d)) =~= d.digi_eggs + d.deck + d.sideboard);
}

/// A canonical deck's name region is short, valid, and restores the icon
/// and name after trimming.
proof fn lemma_tail_restores(d: DeckView, version: u8)
    requires
        canonical(d, version),
    ensures
        name_base(d, version).len() <= 63,
        name_bytes_of(d, version) == name_base(d, version),
        has_icon_field(d, version) ==> {
            let base = name_base(d, version);
            &&& base.len() >= 8
            &&& valid_utf8(base.take(8))
            &&& valid_utf8(base.skip(8))
            &&& trim_chars(decode_utf8(base.take(8))) == d.icon.unwrap()
            &&& trim_chars(decode_utf8(base.skip(8))) == d.name
        },
        !has_icon_field(d, version) ==> {
            let base = name_base(d, version);
            &&& valid_utf8(base)
            &&& trim_chars(decode_utf8(base)) == d.name
        },
{
    let base = name_base(d, version);
    lemma_name_restores(d.name);
    if has_icon_field(d, version) {
        let ic = d.icon.unwrap();
        lemma_icon_block_restores(ic);
        assert(base =~= icon_block(ic) + encode_utf8(d.name));
        assert(base.take(8) =~= icon_block(ic));
        assert(base.skip(8) =~= encode_utf8(d.name));
    }
    assert(base.len() <= 63);
    assert(trunc_idx(base, 63) == base.len());
    assert(name_bytes_of(d, version) =~= base);
}

/// Round trip: a canonical deck's payload parses back to exactly that deck.
/// Together with the contracts of `encode` and `decode`, decoding an encoded
/// canonical deck returns it unchanged.
#[verifier::rlimit(100)]
pub proof fn lemma_round_trip(d: DeckView, version: u8)
    requires
        canonical(d, version),
    ensures
        encodable(d, version),
        parse_payload(payload_of(d, version)) == Ok::<DeckView, CodecError>(d),
{
    reveal(parse_payload);
    let p = payload_of(d, version);
    let body = body_of(d, version);
    let base = name_base(d, version);
    let nb = name_bytes_of(d, version);
    let b0 = byte0_of(d, version);
    let cs = checksum_spec(body) as u8;
    let b2 = byte2_of(d, version);
    let eggs = d.digi_eggs.len();
    let side = d.sideboard.len();
    let lang = lang_num(d.language);
    lemma_tail_restores(d, version);
    assert(p =~= seq![b0, cs, b2] + body + nb);
    assert(p[0] == b0 && p[1] == cs && p[2] == b2);
    assert(p.len() == 3 + body.len() + nb.len());
    // header byte 0
    assert(lang <= 3);
    if 3 <= version && version <= 4 {
        assert(lang <= 1);
        assert(eggs <= 7);
        assert(b0 as nat == (version as nat) * 16 + (lang * 8 + eggs));
        lemma_pack(version as nat, lang * 8 + eggs, 16);
        assert((version as nat) * 16 + lang * 8 == ((version as nat) * 2 + lang) * 8)
            by (nonlinear_arith);
        lemma_pack((version as nat) * 2 + lang, eggs, 8);
        lemma_pack(version as nat, lang, 2);
        assert((b0 as nat) / 16 == version as nat);
        assert((b0 as nat) % 8 == eggs);
        assert(((b0 as nat) / 8) % 2 == lang);
    } else {
        assert(eggs <= 15);
        assert(b0 as nat == (version as nat) * 16 + eggs);
        lemma_pack(version as nat, eggs, 16);
        assert((b0 as nat) / 16 == version as nat);
        assert((b0 as nat) % 16 == eggs);
    }
    // header byte 2
    assert(nb.len() <= 63);
    if version >= 5 {
        assert(b2 as nat == lang * 64 + nb.len());
        lemma_pack(lang, nb.len(), 64);
        assert((b2 as nat) % 64 == nb.len());
        assert((b2 as nat) / 64 == lang);
    } else {
        assert(b2 as nat == nb.len());
    }
    let name_len = nb.len() as nat;
    assert(name_len <= p.len() - 3);
    let limit = p.len() - name_len;
    assert(limit == 3 + body.len());
    // the checksum matches
    assert(p.subrange(3, limit as int) =~= body);
    assert(cs as nat == checksum_spec(body));
    // the sideboard byte
    let pos0: int = if version >= 2 {
        4
    } else {
        3
    };
    let gvs = deck_groups(d);
    assert(body =~= side_byte(d, version) + groups_bytes(gvs, version));
    if version >= 2 {
        assert(side_byte(d, version).len() == 1);
        assert(limit >= 4);
        let sbv = side_byte(d, version)[0];
        assert(p.subrange(3, limit as int)[0] == p[3]);
        assert(p[3] == sbv);
        if version >= 4 {
            assert(side <= 127);
            assert(side % 128 == side);
            let flag: nat = if has_icon_field(d, version) {
                1
            } else {
                0
            };
            assert(sbv as nat == flag * 128 + side);
            lemma_pack(flag, side, 128);
            assert((sbv as nat) % 128 == side);
            assert(sbv >= 128 <==> has_icon_field(d, version));
        } else {
            assert(side <= 255);
            assert(sbv as nat == side % 256 && side % 256 == side);
        }
    } else {
        assert(side == 0);
        assert(side_byte(d, version) =~= Seq::<u8>::empty());
    }
    // the groups fill the card region exactly and parse back
    assert(groups_bytes(gvs, version) =~= body.subrange(
        pos0 - 3,
        pos0 - 3 + groups_bytes(gvs, version).len() as int,
    ));
    lemma_sub_chunk(p, 3, body, pos0 - 3, groups_bytes(gvs, version));
    assert(p.subrange(pos0, limit as int) == groups_bytes(gvs, version)) by {
        assert(pos0 + groups_bytes(gvs, version).len() == limit);
    }
    lemma_deck_groups_canon(d, version);
    lemma_parse_groups_inverts(p, pos0, limit as int, gvs, Seq::<CardView>::empty(), version);
    let cards = flatten_groups(gvs);
    assert(parse_groups(p, pos0, limit as int, version, Seq::<CardView>::empty()) == Ok::<
        Seq<CardView>,
        CodecError,
    >(cards)) by {
        assert(Seq::<CardView>::empty() + cards =~= cards);
    }
    lemma_flatten_deck(d, version);
    assert(cards.len() == eggs + d.deck.len() + side);
    // the trailing name region
    let nr = p.skip(limit as int);
    assert(nr =~= base);
    let language = lang_of(if version >= 5 {
        (b2 as nat) / 64
    } else {
        ((b0 as nat) / 8) % 2
    });
    if version >= 3 {
        assert(d.language is Some);
        assert(language == d.language.unwrap());
    }
    let parsed: DeckView;
    if has_icon_field(d, version) {
        assert(nr.take(8) =~= base.take(8));
        assert(nr.skip(8) =~= base.skip(8));
        parsed = mk_deck(
            version,
            eggs,
            side,
            cards,
            Some(trim_chars(decode_utf8(nr.take(8)))),
            trim_chars(decode_utf8(nr.skip(8))),
            language,
        );
        assert(trim_chars(decode_utf8(nr.take(8))) == d.icon.unwrap());
        assert(trim_chars(decode_utf8(nr.skip(8))) == d.name);
    } else {
        parsed = mk_deck(version, eggs, side, cards, None, trim_chars(decode_utf8(nr)), language);
        assert(trim_chars(decode_utf8(nr)) == d.name);
        assert(d.icon is None);
    }
    // the parsed deck equals the deck we started from
    assert(parsed =~= d) by {
        assert(cards =~= d.digi_eggs + d.deck + d.sideboard);
        assert(cards.take(eggs as int) =~= d.digi_eggs);
        assert(cards.subrange(eggs as int, cards.len() - side) =~= d.deck);
        if side > 0 {
            assert(cards.skip(cards.len() - side) =~= d.sideboard);
        } else {
            assert(d.sideboard =~= Seq::<CardView>::empty());
        }
    }
}

} // verus!