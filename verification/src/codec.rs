//! The frozen text encodings ("hashes").
//!
//! Bet selections are packed two base-5 fields per character, alphabet a-y.
//! Stake amounts are packed three base-52 characters per stake, alphabet
//! a-z then A-Z, offset by `BET_AMOUNT_MAX` so every encoded value is
//! positive. Both formats are persistent wire formats and must stay
//! byte-for-byte stable.

use vstd::prelude::*;
use vstd::string::*;

use crate::math::nonzero_sel;
use crate::math::sel_mask;
use crate::math::valid_sel;
use crate::math::BET_AMOUNT_MAX;
use crate::math::BET_AMOUNT_MIN;
use crate::math::pirates_binary;

verus! {
/// The character for digit `d` of the 52-symbol alphabet: a-z then A-Z.
pub open spec fn letter52(d: int) -> char {
    if d < 26 {
        (97 + d) as char
    } else {
        (39 + d) as char
    }
}

/// A character of the bet-selection alphabet, a-y.
pub open spec fn is_bets_char(c: char) -> bool {
    97 <= c as int <= 121
}

/// A bet-selection hash: every character in a-y.
pub open spec fn valid_bets_hash(s: Seq<char>) -> bool {
    forall|i: int| 0 <= i < s.len() ==> is_bets_char(#[trigger] s[i])
}

/// The base-5 fields a hash carries: each character's value (0-24) split as
/// quotient and remainder by 5.
pub open spec fn hash_fields(s: Seq<char>) -> Seq<u8> {
    Seq::new(
        2 * s.len(),
        |j: int|
            if j % 2 == 0 {
                ((s[j / 2] as int - 97) / 5) as u8
            } else {
                ((s[j / 2] as int - 97) % 5) as u8
            },
    )
}

/// Fields padded with zeros to a multiple of 5.
pub open spec fn pad_zeros(f: Seq<u8>) -> Seq<u8> {
    f + Seq::new(((5 - f.len() as int % 5) % 5) as nat, |j: int| 0u8)
}

/// A field sequence split into runs of 5, one selection each.
pub open spec fn chunks5(f: Seq<u8>) -> Seq<Seq<u8>> {
    Seq::new((f.len() / 5) as nat, |k: int| f.subrange(5 * k, 5 * k + 5))
}

/// The chunks that encode a real selection; an all-zero chunk is alignment
/// padding, not a bet.
pub open spec fn kept_chunks(cs: Seq<Seq<u8>>) -> Seq<Seq<u8>> {
    cs.filter(|c: Seq<u8>| nonzero_sel(c))
}

/// The selections a bet hash decodes to.
pub open spec fn decoded_bets(s: Seq<char>) -> Seq<Seq<u8>> {
    kept_chunks(chunks5(pad_zeros(hash_fields(s))))
}

/// The selections of a list of selection arrays, as sequences.
pub open spec fn sels_views(v: Seq<[u8; 5]>) -> Seq<Seq<u8>> {
    v.map_values(|a: [u8; 5]| a@)
}

proof fn lemma_kept_chunks_push(cs: Seq<Seq<u8>>, c: Seq<u8>)
    ensures
        nonzero_sel(c) ==> kept_chunks(cs.push(c)) == kept_chunks(cs).push(c),
        !nonzero_sel(c) ==> kept_chunks(cs.push(c)) == kept_chunks(cs),
{
    reveal(Seq::filter);
    assert(cs.push(c).drop_last() =~= cs);
    assert(cs.push(c).last() == c);
}

/// Appends the `d`-th character of the alphabet a-z, A-Z to `out`.
fn append_letter(out: &mut String, d: u8)
    requires
        d < 52,
    ensures
        final(out)@ =~= old(out)@.push(letter52(d as int)),
{
    let alphabet = "abcdefghijklmnopqrstuvwxyzABCDEFGHIJKLMNOPQRSTUVWXYZ";
    proof {
        reveal_strlit("abcdefghijklmnopqrstuvwxyzABCDEFGHIJKLMNOPQRSTUVWXYZ");
        assert(alphabet@.len() == 52);
        assert(alphabet.is_ascii());
        assert(alphabet@[d as int] == letter52(d as int));
    }
    let piece = alphabet.substring_ascii(d as usize, d as usize + 1);
    proof {
        assert(piece@ =~= seq![letter52(d as int)]);
        assert(old(out)@.push(letter52(d as int)) =~= old(out)@ + piece@);
    }
    out.append(piece);
}

/// Checks that a bet hash uses only the characters a-y; the decoders below
/// reject anything else.
pub fn bets_hash_regex_check(bets_hash: &str) -> (r: Result<(), String>)
    ensures
        r is Ok <==> valid_bets_hash(bets_hash@),
{
    let n = bets_hash.unicode_len();
    let mut i: usize = 0;
    while i < n
        invariant
            i <= n,
            n == bets_hash@.len(),
            forall|j: int| 0 <= j < i ==> is_bets_char(#[trigger] bets_hash@[j]),
        decreases n - i,
    {
        let c = bets_hash.get_char(i);
        let v = c as u32;
        if v < 97 || v > 121 {
            return Err(String::from_str("Invalid bet hash. Must contain only characters a-y."));
        }
        i = i + 1;
    }
    Ok(())
}

/// Decodes a bet hash into selections: characters become pairs of base-5
/// fields, runs of five fields form one selection, and all-zero runs (pure
/// padding) are dropped. Fails exactly when a character is outside a-y.
pub fn bets_hash_to_bet_indices(bets_hash: &str) -> (r: Result<Vec<[u8; 5]>, String>)
    ensures
        r is Ok <==> valid_bets_hash(bets_hash@),
        r matches Ok(v) ==> sels_views(v@) =~= decoded_bets(bets_hash@),
        r matches Ok(v) ==> forall|k: int|
            0 <= k < v@.len() ==> valid_sel(#[trigger] v@[k]@) && nonzero_sel(v@[k]@),
{
    match bets_hash_regex_check(bets_hash) {
        Err(e) => {
            return Err(e);
        },
        Ok(u) => u,
    }
    let ghost s = bets_hash@;
    let n = bets_hash.unicode_len();
    let mut fields: Vec<u8> = Vec::new();
    let mut i: usize = 0;
    while i < n
        invariant
            i <= n,
            n == s.len(),
            s == bets_hash@,
            valid_bets_hash(s),
            fields@ =~= hash_fields(s.take(i as int)),
            fields@.len() == 2 * i,
            forall|j: int| 0 <= j < fields@.len() ==> #[trigger] fields@[j] <= 4,
        decreases n - i,
    {
        let c = bets_hash.get_char(i);
        let v = c as u32 - 97;
        fields.push((v / 5) as u8);
        fields.push((v % 5) as u8);
        i = i + 1;
        proof {
            assert(fields@ =~= hash_fields(s.take(i as int)));
        }
    }
    proof {
        assert(s.take(n as int) =~= s);
    }
    // pad the field list out to a multiple of 5
    let rem = fields.len() % 5;
    let ghost padded = pad_zeros(hash_fields(s));
    if rem != 0 {
        let mut pad = 5 - rem;
        while pad > 0
            invariant
                fields@.len() + pad == padded.len(),
                hash_fields(s).len() <= fields@.len(),
                padded == pad_zeros(hash_fields(s)),
                fields@ =~= padded.take(fields@.len() as int),
                forall|j: int| 0 <= j < fields@.len() ==> #[trigger] fields@[j] <= 4,
            decreases pad,
        {
            fields.push(0);
            pad = pad - 1;
            proof {
                assert(fields@ =~= padded.take(fields@.len() as int));
            }
        }
    }
    proof {
        assert(fields@ =~= padded);
        assert(padded.len() % 5 == 0);
    }
    // collect the non-zero selections
    let total = fields.len() / 5;
    let ghost cs = chunks5(padded);
    let mut out: Vec<[u8; 5]> = Vec::new();
    let mut k: usize = 0;
    while k < total
        invariant
            k <= total,
            total == cs.len(),
            fields@ == padded,
            fields@.len() <= usize::MAX,
            fields@.len() == 5 * total,
            cs == chunks5(padded),
            forall|j: int| 0 <= j < fields@.len() ==> #[trigger] fields@[j] <= 4,
            sels_views(out@) =~= kept_chunks(cs.take(k as int)),
            forall|j: int|
                0 <= j < out@.len() ==> valid_sel(#[trigger] out@[j]@) && nonzero_sel(out@[j]@),
        decreases total - k,
    {
        let mut chunk: [u8; 5] = [0u8; 5];
        let mut j: usize = 0;
        let mut any = false;
        while j < 5
            invariant
                j <= 5,
                k < total,
                fields@.len() <= usize::MAX,
                fields@.len() == 5 * total,
                chunk@.len() == 5,
                forall|jj: int| 0 <= jj < j ==> chunk@[jj] == fields@[5 * k + jj],
                forall|jj: int| j <= jj < 5 ==> chunk@[jj] == 0,
                any <==> exists|jj: int| 0 <= jj < j && #[trigger] fields@[5 * k + jj] != 0,
            decreases 5 - j,
        {
            let f = fields[5 * k + j];
            chunk[j] = f;
            proof {
                assert(chunk@[j as int] == f);
                assert(fields@[5 * k + j] == f);
            }
            if f > 0 {
                any = true;
            }
            j = j + 1;
        }
        proof {
            assert(chunk@ =~= cs[k as int]);
            if any {
                let jj0 = choose|jj: int| 0 <= jj < 5 && #[trigger] fields@[5 * k + jj] != 0;
                assert(chunk@[jj0] != 0);
            } else {
                assert forall|a: int| 0 <= a < 5 implies chunk@[a] == 0 by {
                    assert(chunk@[a] == fields@[5 * k + a]);
                }
            }
            assert(any == nonzero_sel(chunk@));
            lemma_kept_chunks_push(cs.take(k as int), cs[k as int]);
            assert(cs.take(k + 1) =~= cs.take(k as int).push(cs[k as int]));
        }
        if any {
            out.push(chunk);
        }
        k = k + 1;
        proof {
            assert(sels_views(out@) =~= kept_chunks(cs.take(k as int)));
        }
    }
    proof {
        assert(cs.take(total as int) =~= cs);
    }
    Ok(out)
}

/// The selection fields of a bet list flattened in order.
pub open spec fn flat_sels(sels: Seq<[u8; 5]>) -> Seq<u8>
    decreases sels.len(),
{
    if sels.len() == 0 {
        Seq::empty()
    } else {
        flat_sels(sels.drop_last()) + sels.last()@
    }
}

/// The flattened fields padded with one zero when the list has odd length,
/// so that they pair up evenly.
pub open spec fn even_padded(sels: Seq<[u8; 5]>) -> Seq<u8> {
    if sels.len() % 2 == 1 {
        flat_sels(sels).push(0u8)
    } else {
        flat_sels(sels)
    }
}

/// Fields paired into characters: value = first * 5 + second, letter a-y.
pub open spec fn paired_chars(f: Seq<u8>) -> Seq<char> {
    Seq::new((f.len() / 2) as nat, |k: int| letter52(f[2 * k] * 5 + f[2 * k + 1]))
}

/// The hash a bet list encodes to.
pub open spec fn bets_chars(sels: Seq<[u8; 5]>) -> Seq<char> {
    paired_chars(even_padded(sels))
}

/// Encodes a list of selections as a bet hash: fields are flattened, padded
/// to an even count, and packed two to a character in a-y.
#[verifier::rlimit(50)]
pub fn bets_hash_value(bets_indices: Vec<[u8; 5]>) -> (r: String)
    requires
        forall|k: int| 0 <= k < bets_indices@.len() ==> valid_sel(#[trigger] bets_indices@[k]@),
    ensures
        r@ =~= bets_chars(bets_indices@),
{
    let ghost sels = bets_indices@;
    let n = bets_indices.len();
    let mut fields: Vec<u8> = Vec::new();
    let mut i: usize = 0;
    while i < n
        invariant
            i <= n,
            n == sels.len(),
            sels == bets_indices@,
            forall|k: int| 0 <= k < sels.len() ==> valid_sel(#[trigger] sels[k]@),
            fields@ =~= flat_sels(sels.take(i as int)),
            fields@.len() == 5 * i,
            forall|j: int| 0 <= j < fields@.len() ==> #[trigger] fields@[j] <= 4,
        decreases n - i,
    {
        let mut j: usize = 0;
        while j < 5
            invariant
                j <= 5,
                i < n,
                n == sels.len(),
                sels == bets_indices@,
                forall|k: int| 0 <= k < sels.len() ==> valid_sel(#[trigger] sels[k]@),
                fields@ =~= flat_sels(sels.take(i as int)) + sels[i as int]@.take(j as int),
                fields@.len() == 5 * i + j,
                forall|jj: int| 0 <= jj < fields@.len() ==> #[trigger] fields@[jj] <= 4,
            decreases 5 - j,
        {
            fields.push(bets_indices[i][j]);
            j = j + 1;
            proof {
                assert(fields@ =~= flat_sels(sels.take(i as int)) + sels[i as int]@.take(j as int));
            }
        }
        i = i + 1;
        proof {
            assert(sels.take(i as int).drop_last() =~= sels.take(i - 1));
            assert(sels[i - 1]@.take(5) =~= sels[i - 1]@);
            assert(fields@ =~= flat_sels(sels.take(i as int)));
        }
    }
    proof {
        assert(sels.take(n as int) =~= sels);
    }
    if n % 2 == 1 {
        fields.push(0);
    }
    proof {
        assert(fields@ =~= even_padded(sels));
        assert(fields@.len() % 2 == 0);
    }
    let pairs = fields.len() / 2;
    let mut result = String::new();
    let mut k: usize = 0;
    while k < pairs
        invariant
            k <= pairs,
            pairs == fields@.len() / 2,
            fields@.len() <= usize::MAX,
            fields@.len() % 2 == 0,
            fields@ == even_padded(sels),
            forall|j: int| 0 <= j < fields@.len() ==> #[trigger] fields@[j] <= 4,
            result@ =~= paired_chars(fields@).take(k as int),
        decreases pairs - k,
    {
        let d = fields[2 * k] * 5 + fields[2 * k + 1];
        append_letter(&mut result, d);
        k = k + 1;
        proof {
            assert(result@ =~= paired_chars(fields@).take(k as int));
        }
    }
    proof {
        assert(paired_chars(fields@).take(pairs as int) =~= paired_chars(fields@));
    }
    result
}

/// Returns how many bets a bet hash holds.
pub fn bets_hash_to_bets_count(bets_hash: &str) -> (r: Result<usize, String>)
    ensures
        r is Ok <==> valid_bets_hash(bets_hash@),
        r matches Ok(c) ==> c == decoded_bets(bets_hash@).len(),
{
    match bets_hash_to_bet_indices(bets_hash) {
        Ok(v) => Ok(v.len()),
        Err(e) => Err(e),
    }
}

/// Returns the masks of the selections a bet hash decodes to.
pub fn bets_hash_to_bet_binaries(bets_hash: &str) -> (r: Result<Vec<u32>, String>)
    ensures
        r is Ok <==> valid_bets_hash(bets_hash@),
        r matches Ok(v) ==> {
            &&& v@.len() == decoded_bets(bets_hash@).len()
            &&& forall|k: int|
                0 <= k < v@.len() ==> #[trigger] v@[k] == sel_mask(decoded_bets(bets_hash@)[k])
        },
{
    let indices = match bets_hash_to_bet_indices(bets_hash) {
        Ok(v) => v,
        Err(e) => {
            return Err(e);
        },
    };
    Ok(bets_indices_to_bet_binaries(indices))
}

/// Returns the masks of a list of selections.
pub fn bets_indices_to_bet_binaries(bets_indices: Vec<[u8; 5]>) -> (r: Vec<u32>)
    ensures
        r@.len() == bets_indices@.len(),
        forall|k: int|
            0 <= k < r@.len() ==> #[trigger] r@[k] == sel_mask(bets_indices@[k]@),
{
    let n = bets_indices.len();
    let mut out: Vec<u32> = Vec::new();
    let mut i: usize = 0;
    while i < n
        invariant
            i <= n,
            n == bets_indices@.len(),
            out@.len() == i,
            forall|k: int| 0 <= k < i ==> #[trigger] out@[k] == sel_mask(bets_indices@[k]@),
        decreases n - i,
    {
        out.push(pirates_binary(bets_indices[i]));
        i = i + 1;
    }
    out
}

/// A character of the 52-symbol stake alphabet, a-z or A-Z.
pub open spec fn is_amounts_char(c: char) -> bool {
    (97 <= c as int <= 122) || (65 <= c as int <= 90)
}

/// A stake-amount hash: alphabet characters only, three per stake.
pub open spec fn valid_amounts_hash(s: Seq<char>) -> bool {
    s.len() % 3 == 0 && forall|i: int| 0 <= i < s.len() ==> is_amounts_char(#[trigger] s[i])
}

/// The digit (0-51) a stake-alphabet character stands for.
pub open spec fn char52_val(c: char) -> int {
    if 97 <= c as int {
        c as int - 97
    } else {
        c as int - 39
    }
}

/// The offset integer a stake encodes as: `(stake mod MAX) + MAX`, with an
/// absent stake treated as 0.
pub open spec fn amount_code(o: Option<u32>) -> int {
    (match o {
        Some(v) => v as int % 70304,
        None => 0,
    }) + 70304
}

/// The three characters of one encoded stake, most significant digit first.
pub open spec fn amount_chars(o: Option<u32>) -> Seq<char> {
    let st = amount_code(o);
    seq![letter52(st / 2704), letter52((st / 52) % 52), letter52(st % 52)]
}

/// The hash a stake list encodes to.
pub open spec fn amounts_chars(am: Seq<Option<u32>>) -> Seq<char>
    decreases am.len(),
{
    if am.len() == 0 {
        Seq::empty()
    } else {
        amounts_chars(am.drop_last()) + amount_chars(am.last())
    }
}

/// The stake one three-character group decodes to: the base-52 value minus
/// the offset (saturating at zero), with anything below the minimum stake
/// reported as absent.
pub open spec fn decoded_amount(c0: char, c1: char, c2: char) -> Option<u32> {
    let value = (char52_val(c0) * 52 + char52_val(c1)) * 52 + char52_val(c2);
    let v = if value >= 70304 {
        value - 70304
    } else {
        0
    };
    if v >= 1 {
        Some(v as u32)
    } else {
        None
    }
}

/// The stake list a hash decodes to.
pub open spec fn decoded_amounts(s: Seq<char>) -> Seq<Option<u32>> {
    Seq::new((s.len() / 3) as nat, |k: int| decoded_amount(s[3 * k], s[3 * k + 1], s[3 * k + 2]))
}

/// Encodes a stake list: each stake becomes exactly three characters of the
/// 52-symbol alphabet, most significant first; absent stakes encode as 0.
pub fn bet_amounts_to_amounts_hash(bet_amounts: &[Option<u32>]) -> (r: String)
    ensures
        r@ =~= amounts_chars(bet_amounts@),
{
    let ghost am = bet_amounts@;
    let n = bet_amounts.len();
    let mut result = String::new();
    let mut i: usize = 0;
    while i < n
        invariant
            i <= n,
            n == am.len(),
            am == bet_amounts@,
            result@ =~= amounts_chars(am.take(i as int)),
        decreases n - i,
    {
        let state: u32 = match bet_amounts[i] {
            Some(v) => v % BET_AMOUNT_MAX + BET_AMOUNT_MAX,
            None => BET_AMOUNT_MAX,
        };
        append_letter(&mut result, (state / 2704) as u8);
        append_letter(&mut result, ((state / 52) % 52) as u8);
        append_letter(&mut result, (state % 52) as u8);
        i = i + 1;
        proof {
            assert(am.take(i as int).drop_last() =~= am.take(i - 1));
            assert(state == amount_code(am[i - 1]));
            assert(result@ =~= amounts_chars(am.take(i as int)));
        }
    }
    proof {
        assert(am.take(n as int) =~= am);
    }
    result
}

/// Decodes a stake-amount hash. Fails exactly when a character is outside
/// a-z, A-Z or the length is not a multiple of three; otherwise each group
/// of three characters yields one stake, `None` standing for a stake below
/// the minimum.
pub fn amounts_hash_to_bet_amounts(amounts_hash: &str) -> (r: Result<Vec<Option<u32>>, String>)
    ensures
        r is Ok <==> valid_amounts_hash(amounts_hash@),
        r matches Ok(v) ==> v@ =~= decoded_amounts(amounts_hash@),
{
    let ghost s = amounts_hash@;
    let n = amounts_hash.unicode_len();
    if n % 3 != 0 {
        return Err(
            String::from_str("Invalid amounts hash. Length must be a multiple of three."),
        );
    }
    let mut i: usize = 0;
    while i < n
        invariant
            i <= n,
            n == s.len(),
            s == amounts_hash@,
            forall|j: int| 0 <= j < i ==> is_amounts_char(#[trigger] s[j]),
        decreases n - i,
    {
        let c = amounts_hash.get_char(i);
        let u = c as u32;
        if !(97 <= u && u <= 122) && !(65 <= u && u <= 90) {
            return Err(
                String::from_str(
                    "Invalid amounts hash. Must contain only characters a-z and A-Z.",
                ),
            );
        }
        i = i + 1;
    }
    let groups = n / 3;
    let mut out: Vec<Option<u32>> = Vec::new();
    let mut k: usize = 0;
    while k < groups
        invariant
            k <= groups,
            groups == n / 3,
            n % 3 == 0,
            n == s.len(),
            s == amounts_hash@,
            valid_amounts_hash(s),
            out@ =~= decoded_amounts(s).take(k as int),
        decreases groups - k,
    {
        let c0 = amounts_hash.get_char(3 * k);
        let c1 = amounts_hash.get_char(3 * k + 1);
        let c2 = amounts_hash.get_char(3 * k + 2);
        let d0 = char52_digit(c0);
        let d1 = char52_digit(c1);
        let d2 = char52_digit(c2);
        let value = (d0 * 52 + d1) * 52 + d2;
        let v = if value >= BET_AMOUNT_MAX {
            value - BET_AMOUNT_MAX
        } else {
            0
        };
        if v >= BET_AMOUNT_MIN {
            out.push(Some(v));
        } else {
            out.push(None);
        }
        k = k + 1;
        proof {
            assert(out@ =~= decoded_amounts(s).take(k as int));
        }
    }
    proof {
        assert(decoded_amounts(s).take(groups as int) =~= decoded_amounts(s));
    }
    Ok(out)
}

#[verifier::rlimit(50)]
proof fn lemma_amounts_chars_index(am: Seq<Option<u32>>)
    ensures
        amounts_chars(am).len() == 3 * am.len(),
        forall|k: int, i: int|
            0 <= k < am.len() && 0 <= i < 3 ==> amounts_chars(am)[3 * k + i] == amount_chars(
                am[k],
            )[i],
    decreases am.len(),
{
    if am.len() > 0 {
        lemma_amounts_chars_index(am.drop_last());
        assert forall|k: int, i: int| 0 <= k < am.len() && 0 <= i < 3 implies amounts_chars(
            am,
        )[3 * k + i] == amount_chars(am[k])[i] by {
            if k < am.len() - 1 {
                assert(am.drop_last()[k] == am[k]);
                assert(amounts_chars(am.drop_last()).len() == 3 * k + i + (3 * (am.len() - 1) - 3
                    * k - i));
                assert(amounts_chars(am)[3 * k + i] == amounts_chars(am.drop_last())[3 * k + i]);
                assert(amounts_chars(am.drop_last())[3 * k + i] == amount_chars(am.drop_last()[k])[i]);
            } else {
                assert(am.last() == am[k]);
                assert(3 * k + i - amounts_chars(am.drop_last()).len() == i);
                assert(amounts_chars(am)[3 * k + i] == amount_chars(am.last())[i]);
            }
        }
    }
}

/// Letters of the 52-symbol alphabet read back as the digit they encode.
proof fn lemma_letter52_val(d: int)
    requires
        0 <= d < 52,
    ensures
        is_amounts_char(letter52(d)),
        char52_val(letter52(d)) == d,
{
}

/// One stake survives the encode/decode round trip, provided it is absent
/// or strictly between zero and the encoding offset.
proof fn lemma_amount_roundtrip_one(o: Option<u32>)
    requires
        o matches Some(v) ==> 1 <= v < 70304,
    ensures
        forall|i: int| 0 <= i < 3 ==> is_amounts_char(#[trigger] amount_chars(o)[i]),
        decoded_amount(amount_chars(o)[0], amount_chars(o)[1], amount_chars(o)[2]) == o,
{
    let st = amount_code(o);
    assert(70304 <= st < 140608);
    let d0 = st / 2704;
    let d1 = (st / 52) % 52;
    let d2 = st % 52;
    vstd::arithmetic::div_mod::lemma_fundamental_div_mod(st, 52);
    vstd::arithmetic::div_mod::lemma_fundamental_div_mod(st / 52, 52);
    vstd::arithmetic::div_mod::lemma_div_denominator(st, 52, 52);
    assert((st / 52) / 52 == st / 2704);
    assert((d0 * 52 + d1) * 52 + d2 == st);
    assert(0 <= d2 < 52 && 0 <= d1 < 52);
    assert(0 <= d0 < 52) by {
        assert(st / 2704 < 52) by (nonlinear_arith)
            requires
                st < 140608,
        ;
        assert(st / 2704 >= 0) by (nonlinear_arith)
            requires
                st >= 0,
        ;
    }
    lemma_letter52_val(d0);
    lemma_letter52_val(d1);
    lemma_letter52_val(d2);
    assert(amount_chars(o)[0] == letter52(d0));
    assert(amount_chars(o)[1] == letter52(d1));
    assert(amount_chars(o)[2] == letter52(d2));
}

/// Round trip: decoding an encoded stake list gives the list back, for
/// stakes that are absent or strictly between 0 and the offset
/// `BET_AMOUNT_MAX`. (A stake equal to the offset itself encodes like an
/// absent one and cannot round-trip.)
pub proof fn lemma_amounts_roundtrip(am: Seq<Option<u32>>)
    requires
        forall|k: int| 0 <= k < am.len() ==> ((#[trigger] am[k]) matches Some(v) ==> 1 <= v < 70304),
    ensures
        valid_amounts_hash(amounts_chars(am)),
        decoded_amounts(amounts_chars(am)) =~= am,
{
    let s = amounts_chars(am);
    lemma_amounts_chars_index(am);
    assert forall|i: int| 0 <= i < s.len() implies is_amounts_char(#[trigger] s[i]) by {
        let k = i / 3;
        vstd::arithmetic::div_mod::lemma_fundamental_div_mod(i, 3);
        lemma_amount_roundtrip_one(am[k]);
        assert(s[3 * k + (i % 3)] == amount_chars(am[k])[i % 3]);
    }
    assert forall|k: int| 0 <= k < am.len() implies decoded_amounts(s)[k] == am[k] by {
        lemma_amount_roundtrip_one(am[k]);
        assert(s[3 * k] == amount_chars(am[k])[0]);
        assert(s[3 * k + 1] == amount_chars(am[k])[1]);
        assert(s[3 * k + 2] == amount_chars(am[k])[2]);
    }
}

proof fn lemma_flat_sels_index(sels: Seq<[u8; 5]>)
    ensures
        flat_sels(sels).len() == 5 * sels.len(),
        forall|k: int, j: int|
            0 <= k < sels.len() && 0 <= j < 5 ==> flat_sels(sels)[5 * k + j] == sels[k]@[j],
    decreases sels.len(),
{
    if sels.len() > 0 {
        lemma_flat_sels_index(sels.drop_last());
        assert forall|k: int, j: int| 0 <= k < sels.len() && 0 <= j < 5 implies flat_sels(
            sels,
        )[5 * k + j] == sels[k]@[j] by {
            if k < sels.len() - 1 {
                assert(sels.drop_last()[k] == sels[k]);
                assert(flat_sels(sels)[5 * k + j] == flat_sels(sels.drop_last())[5 * k + j]);
                assert(flat_sels(sels.drop_last())[5 * k + j] == sels.drop_last()[k]@[j]);
            } else {
                assert(sels.last() == sels[k]);
                assert(5 * k + j - flat_sels(sels.drop_last()).len() == j);
                assert(flat_sels(sels)[5 * k + j] == sels.last()@[j]);
            }
        }
    }
}

/// A chunk list with no all-zero chunk is kept whole by the padding filter.
proof fn lemma_kept_all(cs: Seq<Seq<u8>>)
    requires
        forall|k: int| 0 <= k < cs.len() ==> nonzero_sel(#[trigger] cs[k]),
    ensures
        kept_chunks(cs) == cs,
    decreases cs.len(),
{
    reveal(Seq::filter);
    if cs.len() > 0 {
        lemma_kept_all(cs.drop_last());
        lemma_kept_chunks_push(cs.drop_last(), cs.last());
        assert(cs.drop_last().push(cs.last()) =~= cs);
        assert(kept_chunks(cs.drop_last()).push(cs.last()) =~= cs);
    } else {
        assert(cs =~= Seq::<Seq<u8>>::empty());
        assert(kept_chunks(cs) =~= cs);
    }
}

/// Round trip: decoding an encoded bet list gives the list back, for any
/// list of valid selections that each pick at least one competitor.
#[verifier::rlimit(100)]
pub proof fn lemma_bets_roundtrip(sels: Seq<[u8; 5]>)
    requires
        forall|k: int|
            0 <= k < sels.len() ==> valid_sel(#[trigger] sels[k]@) && nonzero_sel(sels[k]@),
    ensures
        valid_bets_hash(bets_chars(sels)),
        decoded_bets(bets_chars(sels)) =~= sels_views(sels),
{
    let n = sels.len() as int;
    let fl = flat_sels(sels);
    let fe = even_padded(sels);
    let s = bets_chars(sels);
    lemma_flat_sels_index(sels);
    assert(forall|j: int| 0 <= j < fl.len() ==> #[trigger] fl[j] <= 4) by {
        assert forall|j: int| 0 <= j < fl.len() implies #[trigger] fl[j] <= 4 by {
            let k = j / 5;
            vstd::arithmetic::div_mod::lemma_fundamental_div_mod(j, 5);
            assert(fl[5 * k + (j % 5)] == sels[k]@[j % 5]);
        }
    }
    assert(fe.len() % 2 == 0) by {
        if n % 2 == 1 {
            assert(fe.len() == 5 * n + 1);
        } else {
            assert(fe.len() == 5 * n);
        }
    }
    assert(forall|j: int| 0 <= j < fe.len() ==> #[trigger] fe[j] <= 4);
    // each character is a-y and carries its two fields exactly
    assert forall|k: int| 0 <= k < s.len() implies is_bets_char(#[trigger] s[k]) && (s[k] as int
        - 97) / 5 == fe[2 * k] && (s[k] as int - 97) % 5 == fe[2 * k + 1] by {
        let v = fe[2 * k] * 5 + fe[2 * k + 1];
        assert(0 <= v <= 24);
        assert(s[k] == letter52(v as int));
        assert(s[k] as int == 97 + v);
        vstd::arithmetic::div_mod::lemma_fundamental_div_mod_converse(
            v as int,
            5,
            fe[2 * k] as int,
            fe[2 * k + 1] as int,
        );
    }
    assert(hash_fields(s) =~= fe);
    let padded = pad_zeros(hash_fields(s));
    let cs = chunks5(padded);
    let m = if n % 2 == 1 {
        n + 1
    } else {
        n
    };
    assert(padded.len() == 5 * m);
    assert(cs.len() == m);
    assert forall|k: int| 0 <= k < n implies #[trigger] cs[k] =~= sels[k]@ by {
        assert forall|j: int| 0 <= j < 5 implies cs[k][j] == sels[k]@[j] by {
            assert(padded[5 * k + j] == fl[5 * k + j]);
        }
    }
    assert forall|k: int| 0 <= k < n implies nonzero_sel(#[trigger] cs.take(n)[k]) by {
        assert(cs.take(n)[k] == cs[k]);
        assert(cs[k] =~= sels[k]@);
    }
    lemma_kept_all(cs.take(n));
    assert(cs.take(n) =~= sels_views(sels)) by {
        assert forall|k: int| 0 <= k < n implies cs.take(n)[k] == sels_views(sels)[k] by {
            assert(cs[k] =~= sels[k]@);
        }
    }
    if n % 2 == 1 {
        // the trailing all-zero chunk is alignment padding and is dropped
        assert(!nonzero_sel(cs[n])) by {
            assert forall|j: int| 0 <= j < 5 implies cs[n][j] == 0 by {
                if j == 0 {
                    assert(padded[5 * n] == fe[5 * n]);
                } else {
                    assert(padded[5 * n + j] == 0);
                }
            }
        }
        lemma_kept_chunks_push(cs.take(n), cs[n]);
        assert(cs.take(n).push(cs[n]) =~= cs);
        assert(decoded_bets(s) == kept_chunks(cs));
        assert(kept_chunks(cs) == kept_chunks(cs.take(n)));
    } else {
        assert(cs.take(n) =~= cs);
    }
}

/// Returns the digit a stake-alphabet character stands for.
fn char52_digit(c: char) -> (d: u32)
    requires
        is_amounts_char(c),
    ensures
        d == char52_val(c),
        d < 52,
{
    let u = c as u32;
    if u >= 97 {
        u - 97
    } else {
        u - 39
    }
}

} // verus!
