//! The keys that a push's chunks are written under.
//!
//! A session owns the prefix `{storage_key}/sessions/{session_id}` and writes
//! `/chunks/{chunk_id}` under it. What no live session owns is swept.

use vstd::prelude::*;
use vstd::string::*;

use crate::bytes::{be_bytes, be_value, lemma_be_bytes, lemma_byte_ranges, push_be};
use crate::deps::chance::random_number;
use crate::deps::hex::{hex_digit, hex_of};
use crate::ingest::lists::{lemma_filtered, lemma_push_contains};
use crate::ordmap::OrdSet;
use crate::text::{chars_of, padded, push_hex, push_padded, said};

verus! {

/// A session's id: when it was made, in seconds, and a random number behind it.
/// Ids sort by age, and two that are made at once differ.
pub open spec fn id_of(secs: u64, random: u64) -> int {
    secs * 0x1_0000_0000_0000_0000 + random
}

/// The id of a session that was made at `secs` and drew `random`.
pub fn session_id(secs: u64, random: u64) -> (id: u128)
    ensures
        id == id_of(secs, random),
{
    assert(((secs as u128) << 64u32) | (random as u128) == secs * 0x1_0000_0000_0000_0000 + random)
        by (bit_vector);
    ((secs as u128) << 64u32) | (random as u128)
}

/// An id for a session that starts at `secs`.
pub fn new_session_id(secs: u64) -> (id: u128)
    ensures
        exists|random: u64| id == #[trigger] id_of(secs, random),
{
    let random: u64 = random_number();
    session_id(secs, random)
}

/// Sessions sort by when they were made.
pub proof fn an_older_session_sorts_first(
    secs: u64,
    random: u64,
    later_secs: u64,
    later_random: u64,
)
    requires
        secs < later_secs,
    ensures
        id_of(secs, random) < id_of(later_secs, later_random),
{
}

/// What a session writes under.
pub open spec fn prefix_text(storage_key: Seq<char>, session_id: u128) -> Seq<char> {
    storage_key + "/sessions/"@ + hex_of(be_bytes(session_id as nat, 16))
}

/// Where one of a session's chunks is.
pub open spec fn chunk_text(storage_key: Seq<char>, session_id: u128, chunk_id: u32) -> Seq<char> {
    prefix_text(storage_key, session_id) + "/chunks/"@ + padded(chunk_id as nat, 8)
}

/// What a session writes under.
pub fn session_prefix(storage_key: &str, session_id: u128) -> (key: String)
    ensures
        key@ == prefix_text(storage_key@, session_id),
{
    let mut key = storage_key.to_owned();
    key.append("/sessions/");
    let mut bytes: Vec<u8> = Vec::new();
    push_be(&mut bytes, session_id, 16);
    assert(bytes@ =~= be_bytes(session_id as nat, 16));
    push_hex(&mut key, bytes.as_slice());
    key
}

/// Where one of a session's chunks is.
pub fn chunk_key(storage_key: &str, session_id: u128, chunk_id: u32) -> (key: String)
    ensures
        key@ == chunk_text(storage_key@, session_id, chunk_id),
{
    let mut key = session_prefix(storage_key, session_id);
    key.append("/chunks/");
    push_padded(&mut key, chunk_id as u64, 8);
    key
}

/// The value of a hexadecimal digit; none for any other character.
pub open spec fn digit_in(c: char) -> Option<nat> {
    if '0' <= c && c <= '9' {
        Some((c as nat - 0x30) as nat)
    } else if 'a' <= c && c <= 'f' {
        Some((c as nat - 0x57) as nat)
    } else if 'A' <= c && c <= 'F' {
        Some((c as nat - 0x37) as nat)
    } else {
        None
    }
}

/// The value of a hexadecimal digit; none for any other character.
fn digit(c: char) -> (value: Option<u8>)
    ensures
        match value {
            Some(value) => digit_in(c) == Some(value as nat) && value < 16,
            None => digit_in(c) is None,
        },
{
    let code: u32 = c as u32;
    if '0' <= c && c <= '9' {
        Some((code - 0x30) as u8)
    } else if 'a' <= c && c <= 'f' {
        Some((code - 0x57) as u8)
    } else if 'A' <= c && c <= 'F' {
        Some((code - 0x37) as u8)
    } else {
        None
    }
}

/// The number that hexadecimal digits spell; none where one is no digit.
pub open spec fn digits_value(digits: Seq<char>) -> Option<nat>
    decreases digits.len(),
{
    if digits.len() == 0 {
        Some(0)
    } else {
        match (digits_value(digits.drop_last()), digit_in(digits.last())) {
            (Some(value), Some(digit)) => Some(value * 16 + digit),
            _ => None,
        }
    }
}

/// The digits of a number's text: a plus sign may stand before them.
pub open spec fn unsigned(text: Seq<char>) -> Seq<char> {
    if text.len() > 0 && text[0] == '+' {
        text.skip(1)
    } else {
        text
    }
}

/// The number that a text spells in hexadecimal; none for no digits, for
/// anything else, and for a number of more than 128 bits.
pub open spec fn number_in(text: Seq<char>) -> Option<u128> {
    let digits = unsigned(text);
    match digits_value(digits) {
        Some(value) => if digits.len() > 0 && value <= u128::MAX {
            Some(value as u128)
        } else {
            None
        },
        None => None,
    }
}

proof fn lemma_digits_grow(digits: Seq<char>, n: int)
    requires
        0 <= n <= digits.len(),
    ensures
        match (digits_value(digits.take(n)), digits_value(digits)) {
            (Some(front), Some(all)) => front <= all,
            (None, all) => all is None,
            _ => true,
        },
    decreases digits.len() - n,
{
    if n < digits.len() {
        lemma_digits_grow(digits, n + 1);
        assert(digits.take(n + 1).drop_last() =~= digits.take(n));
    } else {
        assert(digits.take(n) =~= digits);
    }
}

/// The number that characters spell in hexadecimal.
fn read_number(chars: &Vec<char>, from: usize, to: usize) -> (number: Option<u128>)
    requires
        from <= to <= chars@.len(),
    ensures
        number == number_in(chars@.subrange(from as int, to as int)),
{
    let ghost text = chars@.subrange(from as int, to as int);
    let ghost digits = unsigned(text);
    let start: usize = if from < to && chars[from] == '+' {
        from + 1
    } else {
        from
    };
    assert(digits =~= chars@.subrange(start as int, to as int));
    if start == to {
        return None;
    }
    let mut value: u128 = 0;
    let mut i: usize = start;
    assert(digits.take(0) =~= Seq::empty());
    while i < to
        invariant
            start <= i <= to <= chars@.len(),
            start < to,
            digits == chars@.subrange(start as int, to as int),
            digits == unsigned(text),
            text == chars@.subrange(from as int, to as int),
            digits_value(digits.take(i - start)) == Some(value as nat),
        decreases to - i,
    {
        proof {
            let longer = digits.take(i + 1 - start);
            assert(longer.drop_last() =~= digits.take(i - start));
            assert(longer.last() == chars@[i as int]);
            lemma_digits_grow(digits, i + 1 - start);
        }
        let digit: u8 = match digit(chars[i]) {
            Some(digit) => digit,
            None => {
                return None;
            },
        };
        value = match value.checked_mul(16) {
            Some(shifted) => match shifted.checked_add(digit as u128) {
                Some(value) => value,
                None => {
                    return None;
                },
            },
            None => {
                return None;
            },
        };
        i += 1;
    }
    assert(digits.take(i - start) =~= digits);
    Some(value)
}

/// How many characters stand before the first slash, or in all.
pub open spec fn before_slash(text: Seq<char>) -> nat
    decreases text.len(),
{
    if text.len() == 0 || text[0] == '/' {
        0
    } else {
        1 + before_slash(text.skip(1))
    }
}

/// What stands before the first slash.
pub open spec fn head(text: Seq<char>) -> Seq<char> {
    text.take(before_slash(text) as int)
}

/// What stands behind the first slash, if there is one.
pub open spec fn rest(text: Seq<char>) -> Option<Seq<char>> {
    if before_slash(text) < text.len() {
        Some(text.skip(before_slash(text) as int + 1))
    } else {
        None
    }
}

/// The session that a key belongs to, if it is one that a session writes. What
/// follows the id does not matter.
pub open spec fn session_named(key: Seq<char>) -> Option<u128> {
    match rest(key) {
        None => None,
        Some(behind) => if head(behind) != "sessions"@ {
            None
        } else {
            match rest(behind) {
                None => None,
                Some(id) => number_in(head(id)),
            }
        },
    }
}

/// Where the first slash stands from `from` on, or the end.
fn find_slash(chars: &Vec<char>, from: usize) -> (at: usize)
    requires
        from <= chars@.len(),
    ensures
        from <= at <= chars@.len(),
        at - from == before_slash(chars@.skip(from as int)),
{
    let mut at: usize = from;
    assert(chars@.skip(from as int) =~= chars@.skip(at as int));
    while at < chars.len() && chars[at] != '/'
        invariant
            from <= at <= chars@.len(),
            before_slash(chars@.skip(from as int)) == at - from + before_slash(
                chars@.skip(at as int),
            ),
        decreases chars@.len() - at,
    {
        assert(chars@.skip(at as int).skip(1) =~= chars@.skip(at as int + 1));
        at += 1;
    }
    at
}

/// The session that a key belongs to, if it is one that a session writes.
pub fn parse_session_id(key: &str) -> (session: Option<u128>)
    ensures
        session == session_named(key@),
{
    let chars = chars_of(key);
    let ghost text = key@;
    assert(text.skip(0) =~= text);
    let first: usize = find_slash(&chars, 0);
    if first == chars.len() {
        return None;
    }
    let ghost behind = text.skip(first as int + 1);
    let second: usize = find_slash(&chars, first + 1);
    assert(head(behind) =~= text.subrange(first as int + 1, second as int));
    if !is_sessions(&chars, first + 1, second) {
        return None;
    }
    if second == chars.len() {
        return None;
    }
    let ghost id = text.skip(second as int + 1);
    assert(behind.skip(before_slash(behind) as int + 1) =~= id);
    let third: usize = find_slash(&chars, second + 1);
    assert(head(id) =~= text.subrange(second as int + 1, third as int));
    read_number(&chars, second + 1, third)
}

/// Whether a part of a key says that sessions are behind it.
fn is_sessions(chars: &Vec<char>, from: usize, to: usize) -> (same: bool)
    requires
        from <= to <= chars@.len(),
    ensures
        same == (chars@.subrange(from as int, to as int) == "sessions"@),
{
    let word = chars_of("sessions");
    let ghost part = chars@.subrange(from as int, to as int);
    if to - from != word.len() {
        return false;
    }
    let mut i: usize = 0;
    while i < word.len()
        invariant
            word@ == "sessions"@,
            part == chars@.subrange(from as int, to as int),
            from <= to <= chars@.len(),
            to - from == word@.len(),
            i <= word@.len(),
            forall|k: int| 0 <= k < i ==> part[k] == word@[k],
        decreases word@.len() - i,
    {
        if chars[from + i] != word[i] {
            assert(part[i as int] != word@[i as int]);
            return false;
        }
        i += 1;
    }
    assert(part =~= word@);
    true
}

proof fn lemma_before_slash(front: Seq<char>, behind: Seq<char>)
    requires
        !front.contains('/'),
        behind.len() == 0 || behind[0] == '/',
    ensures
        before_slash(front + behind) == front.len(),
    decreases front.len(),
{
    let all = front + behind;
    if front.len() > 0 {
        assert(front.contains(front[0]));
        assert(all.skip(1) =~= front.skip(1) + behind);
        assert forall|c: char| front.skip(1).contains(c) implies front.contains(c) by {
            let i = choose|i: int| 0 <= i < front.skip(1).len() && front.skip(1)[i] == c;
            assert(front[i + 1] == c);
        }
        lemma_before_slash(front.skip(1), behind);
    } else {
        assert(all =~= behind);
    }
}

/// Bytes in hexadecimal spell the number that the bytes do.
proof fn lemma_hex_value(bytes: Seq<u8>)
    ensures
        digits_value(hex_of(bytes)) == Some(be_value(bytes)),
    decreases bytes.len(),
{
    let all = hex_of(bytes);
    if bytes.len() == 0 {
        assert(all =~= Seq::empty());
    } else {
        let fewer = bytes.drop_last();
        let last = bytes.last();
        lemma_hex_value(fewer);
        let high = hex_digit(last as nat / 16);
        let low = hex_digit(last as nat % 16);
        assert(all.drop_last().drop_last() =~= hex_of(fewer)) by {
            assert forall|k: int| 0 <= k < 2 * fewer.len() implies #[trigger] all[k] == hex_of(
                fewer,
            )[k] by {
                assert(bytes[k / 2] == fewer[k / 2]);
            }
        }
        assert(all.drop_last().last() == high);
        assert(all.last() == low);
        assert(digit_in(high) == Some(last as nat / 16));
        assert(digit_in(low) == Some(last as nat % 16));
        let value = be_value(fewer);
        assert(digits_value(all.drop_last()) == Some(value * 16 + last as nat / 16));
        assert((value * 16 + last as nat / 16) * 16 + last as nat % 16 == value * 256 + last as nat)
            by (nonlinear_arith);
    }
}

proof fn lemma_hex_is_plain(bytes: Seq<u8>)
    ensures
        !hex_of(bytes).contains('/'),
        bytes.len() > 0 ==> unsigned(hex_of(bytes)) == hex_of(bytes),
{
    let all = hex_of(bytes);
    assert forall|i: int| 0 <= i < all.len() implies all[i] != '/' && all[i] != '+' by {
        let byte = bytes[i / 2] as nat;
        assert(byte / 16 < 16 && byte % 16 < 16);
    }
}

/// A key that a session writes names that session.
pub proof fn a_chunk_names_its_session(storage_key: Seq<char>, session_id: u128, chunk_id: u32)
    requires
        !storage_key.contains('/'),
    ensures
        session_named(chunk_text(storage_key, session_id, chunk_id)) == Some(session_id),
{
    reveal_strlit("/sessions/");
    reveal_strlit("/chunks/");
    reveal_strlit("sessions");
    let bytes = be_bytes(session_id as nat, 16);
    let hex = hex_of(bytes);
    let tail = "/chunks/"@ + padded(chunk_id as nat, 8);
    let key = chunk_text(storage_key, session_id, chunk_id);
    let word = "sessions"@;
    lemma_be_bytes(session_id as nat, 16);
    lemma_byte_ranges();
    lemma_hex_value(bytes);
    lemma_hex_is_plain(bytes);
    let from_word = word + (seq!['/'] + hex + tail);
    assert(key =~= storage_key + (seq!['/'] + from_word));
    lemma_before_slash(storage_key, seq!['/'] + from_word);
    assert(rest(key) == Some(from_word)) by {
        assert(key.skip(storage_key.len() as int + 1) =~= from_word);
    }
    lemma_before_slash(word, seq!['/'] + hex + tail);
    assert(head(from_word) =~= word);
    let from_id = hex + tail;
    assert(from_word.skip(word.len() as int + 1) =~= from_id);
    lemma_before_slash(hex, tail);
    assert(head(from_id) =~= hex);
}

/// Whether a live session owns a key.
pub open spec fn is_live(session: Option<u128>, active: Set<u128>) -> bool {
    session matches Some(id) && active.contains(id)
}

/// What a sweep takes away.
#[derive(Debug)]
pub struct Sweep {
    /// The keys to delete.
    pub keys: Vec<String>,
    /// The sessions they belong to; none is one of them, where a key belongs to
    /// no session.
    pub sessions: Vec<Option<u128>>,
}

/// What no live session owns is deleted, whether or not its key can be read:
/// what is left behind by another layout would else stay for ever.
pub fn sweep(keys: &[String], active: &OrdSet<u128>) -> (sweep: Sweep)
    ensures
        said(sweep.keys@) == said(keys@).filter(
            |key: Seq<char>| !is_live(session_named(key), active@),
        ),
        sweep.sessions@.no_duplicates(),
        forall|session: Option<u128>| #[trigger]
            sweep.sessions@.contains(session) <==> !is_live(session, active@) && exists|i: int|
                0 <= i < keys@.len() && session_named((#[trigger] keys@[i])@) == session,
{
    let ghost dead = |key: Seq<char>| !is_live(session_named(key), active@);
    let ghost all = said(keys@);
    let mut doomed: Vec<String> = Vec::new();
    let mut sessions: Vec<Option<u128>> = Vec::new();
    let mut i: usize = 0;
    proof {
        reveal(Seq::filter);
        assert(said(doomed@) =~= all.take(0).filter(dead));
    }
    while i < keys.len()
        invariant
            i <= keys@.len(),
            all == said(keys@),
            dead == (|key: Seq<char>| !is_live(session_named(key), active@)),
            said(doomed@) == all.take(i as int).filter(dead),
            sessions@.no_duplicates(),
            forall|session: Option<u128>| #[trigger]
                sessions@.contains(session) <==> !is_live(session, active@) && named_by(
                    keys@,
                    i as int,
                    session,
                ),
        decreases keys@.len() - i,
    {
        let ghost before = doomed@;
        let ghost earlier = sessions@;
        let key = &keys[i];
        let session = parse_session_id(key.as_str());
        let live = match session {
            Some(id) => active.contains(&id),
            None => false,
        };
        proof {
            reveal(Seq::filter);
            assert(all.take(i as int + 1).drop_last() =~= all.take(i as int));
            assert(all[i as int] == keys@[i as int]@);
        }
        if !live {
            doomed.push(key.as_str().to_owned());
            assert(said(doomed@) =~= said(before).push(key@));
            if !holds(&sessions, session) {
                sessions.push(session);
            }
        }
        proof {
            assert forall|other: Option<u128>| #[trigger]
                sessions@.contains(other) <==> !is_live(other, active@) && named_by(
                    keys@,
                    i as int + 1,
                    other,
                ) by {
                lemma_named_by(keys@, i as int, other);
                lemma_push_contains(earlier, session, other);
            }
        }
        i += 1;
    }
    proof {
        assert(all.take(i as int) =~= all);
        assert forall|session: Option<u128>| #[trigger]
            sessions@.contains(session) <==> !is_live(session, active@) && exists|k: int|
                0 <= k < keys@.len() && session_named((#[trigger] keys@[k])@) == session by {
            assert(named_by(keys@, i as int, session) == exists|k: int|
                0 <= k < i && session_named((#[trigger] keys@[k])@) == session);
        }
    }
    Sweep { keys: doomed, sessions }
}

/// The sweep leaves what a live session wrote, and takes what any other did.
pub proof fn only_dead_chunks_are_swept(
    keys: Seq<Seq<char>>,
    active: Set<u128>,
    storage_key: Seq<char>,
    session_id: u128,
    chunk_id: u32,
)
    requires
        !storage_key.contains('/'),
        keys.contains(chunk_text(storage_key, session_id, chunk_id)),
    ensures
        keys.filter(|key: Seq<char>| !is_live(session_named(key), active)).contains(
            chunk_text(storage_key, session_id, chunk_id),
        ) <==> !active.contains(session_id),
{
    a_chunk_names_its_session(storage_key, session_id, chunk_id);
    lemma_filtered(keys, |key: Seq<char>| !is_live(session_named(key), active));
}

/// Whether one of the first `n` keys names a session.
spec fn named_by(keys: Seq<String>, n: int, session: Option<u128>) -> bool {
    exists|k: int| 0 <= k < n && session_named((#[trigger] keys[k])@) == session
}

proof fn lemma_named_by(keys: Seq<String>, n: int, session: Option<u128>)
    requires
        0 <= n < keys.len(),
    ensures
        named_by(keys, n + 1, session) <==> named_by(keys, n, session) || session_named(keys[n]@)
            == session,
{
    if named_by(keys, n, session) {
        let k = choose|k: int| 0 <= k < n && session_named((#[trigger] keys[k])@) == session;
        assert(session_named(keys[k]@) == session);
    }
    if session_named(keys[n]@) == session {
        assert(session_named(keys[n]@) == session);
    }
}

/// Whether a list holds a session.
fn holds(list: &Vec<Option<u128>>, session: Option<u128>) -> (found: bool)
    ensures
        found == list@.contains(session),
{
    let mut i: usize = 0;
    while i < list.len()
        invariant
            i <= list@.len(),
            forall|k: int| 0 <= k < i ==> list@[k] != session,
        decreases list@.len() - i,
    {
        let same = match (list[i], session) {
            (None, None) => true,
            (Some(a), Some(b)) => a == b,
            _ => false,
        };
        if same {
            return true;
        }
        i += 1;
    }
    false
}

} // verus!
