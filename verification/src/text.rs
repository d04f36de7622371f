//! Names as keys, and what is asked of their characters.

use vstd::prelude::*;
use vstd::string::*;
use vstd::utf8::{encode_utf8, encode_utf8_decode_utf8};

use crate::deps::hex::{hex_digit, hex_of};
use crate::ordmap::{Order, OrdKey};

verus! {

/// Whether `a` comes before `b`, byte for byte.
pub open spec fn bytes_before(a: Seq<u8>, b: Seq<u8>) -> bool
    decreases a.len(),
{
    if b.len() == 0 {
        false
    } else if a.len() == 0 {
        true
    } else if a[0] != b[0] {
        a[0] < b[0]
    } else {
        bytes_before(a.skip(1), b.skip(1))
    }
}

proof fn lemma_bytes_strict(a: Seq<u8>, b: Seq<u8>)
    ensures
        !(bytes_before(a, b) && bytes_before(b, a)),
        a == b || bytes_before(a, b) || bytes_before(b, a),
        a == b ==> !bytes_before(a, b),
    decreases a.len(),
{
    if a.len() > 0 && b.len() > 0 {
        lemma_bytes_strict(a.skip(1), b.skip(1));
        assert(a =~= seq![a[0]] + a.skip(1));
        assert(b =~= seq![b[0]] + b.skip(1));
    } else if a.len() == 0 && b.len() == 0 {
        assert(a =~= b);
    }
}

proof fn lemma_bytes_transitive(a: Seq<u8>, b: Seq<u8>, c: Seq<u8>)
    requires
        bytes_before(a, b),
        bytes_before(b, c),
    ensures
        bytes_before(a, c),
    decreases a.len(),
{
    if a.len() > 0 && a[0] == b[0] && b[0] == c[0] {
        lemma_bytes_transitive(a.skip(1), b.skip(1), c.skip(1));
    }
}

/// How two byte runs stand to each other.
pub fn order_bytes(a: &[u8], b: &[u8]) -> (order: Order)
    ensures
        match order {
            Order::Before => bytes_before(a@, b@),
            Order::Same => a@ == b@,
            Order::After => bytes_before(b@, a@),
        },
{
    let mut i: usize = 0;
    assert(a@.skip(0) =~= a@);
    assert(b@.skip(0) =~= b@);
    while i < a.len() && i < b.len()
        invariant
            i <= a@.len(),
            i <= b@.len(),
            a@.take(i as int) == b@.take(i as int),
            bytes_before(a@, b@) == bytes_before(a@.skip(i as int), b@.skip(i as int)),
            bytes_before(b@, a@) == bytes_before(b@.skip(i as int), a@.skip(i as int)),
        decreases a@.len() - i,
    {
        if a[i] < b[i] {
            return Order::Before;
        }
        if b[i] < a[i] {
            return Order::After;
        }
        proof {
            assert(a@.skip(i as int).skip(1) =~= a@.skip(i + 1));
            assert(b@.skip(i as int).skip(1) =~= b@.skip(i + 1));
            assert(a@.take(i + 1) =~= a@.take(i as int).push(a@[i as int]));
            assert(b@.take(i + 1) =~= b@.take(i as int).push(b@[i as int]));
        }
        i = i + 1;
    }
    if i < b.len() {
        return Order::Before;
    }
    if i < a.len() {
        return Order::After;
    }
    assert(a@.take(i as int) =~= a@);
    assert(b@.take(i as int) =~= b@);
    Order::Same
}

/// Whether one name comes before another: by the bytes they are written in.
pub open spec fn name_before(a: Seq<char>, b: Seq<char>) -> bool {
    bytes_before(encode_utf8(a), encode_utf8(b))
}

proof fn lemma_same_text(a: Seq<char>, b: Seq<char>)
    ensures
        encode_utf8(a) == encode_utf8(b) ==> a == b,
{
    encode_utf8_decode_utf8(a);
    encode_utf8_decode_utf8(b);
}

impl OrdKey for String {
    type Name = Seq<char>;

    open spec fn name(&self) -> Seq<char> {
        self@
    }

    open spec fn before(a: Seq<char>, b: Seq<char>) -> bool {
        name_before(a, b)
    }

    proof fn before_is_strict(a: Seq<char>, b: Seq<char>) {
        lemma_bytes_strict(encode_utf8(a), encode_utf8(b));
        lemma_same_text(a, b);
    }

    proof fn before_is_transitive(a: Seq<char>, b: Seq<char>, c: Seq<char>) {
        lemma_bytes_transitive(encode_utf8(a), encode_utf8(b), encode_utf8(c));
    }

    fn compare(&self, other: &String) -> (order: Order) {
        proof {
            lemma_same_text(self@, other@);
        }
        order_bytes(self.as_str().as_bytes(), other.as_str().as_bytes())
    }
}

/// The characters of a text.
pub fn chars_of(text: &str) -> (chars: Vec<char>)
    ensures
        chars@ == text@,
{
    let mut chars: Vec<char> = Vec::new();
    for c in it: text.chars()
        invariant
            it.seq() == text@,
            chars@ == text@.take(it.index() as int),
    {
        chars.push(c);
        assert(chars@ =~= text@.take(it.index() as int + 1));
    }
    assert(text@.take(text@.len() as int) =~= text@);
    chars
}

/// Whether `text` starts with `prefix`.
pub fn starts_with(text: &str, prefix: &str) -> (starts: bool)
    ensures
        starts == (prefix@.len() <= text@.len() && text@.take(prefix@.len() as int) == prefix@),
{
    let whole = chars_of(text);
    let front = chars_of(prefix);
    if front.len() > whole.len() {
        return false;
    }
    let mut i: usize = 0;
    while i < front.len()
        invariant
            whole@ == text@,
            front@ == prefix@,
            i <= front@.len() <= whole@.len(),
            forall|j: int| 0 <= j < i ==> whole@[j] == front@[j],
        decreases front@.len() - i,
    {
        if whole[i] != front[i] {
            assert(text@.take(prefix@.len() as int)[i as int] != prefix@[i as int]);
            return false;
        }
        i = i + 1;
    }
    assert(text@.take(prefix@.len() as int) =~= prefix@);
    true
}

/// The text of one hexadecimal digit.
fn digit_text(value: u8) -> (text: &'static str)
    requires
        value < 16,
    ensures
        text@ == seq![hex_digit(value as nat)],
{
    proof {
        reveal_strlit("0");
        reveal_strlit("1");
        reveal_strlit("2");
        reveal_strlit("3");
        reveal_strlit("4");
        reveal_strlit("5");
        reveal_strlit("6");
        reveal_strlit("7");
        reveal_strlit("8");
        reveal_strlit("9");
        reveal_strlit("a");
        reveal_strlit("b");
        reveal_strlit("c");
        reveal_strlit("d");
        reveal_strlit("e");
        reveal_strlit("f");
    }
    let text = match value {
        0 => "0",
        1 => "1",
        2 => "2",
        3 => "3",
        4 => "4",
        5 => "5",
        6 => "6",
        7 => "7",
        8 => "8",
        9 => "9",
        10 => "a",
        11 => "b",
        12 => "c",
        13 => "d",
        14 => "e",
        _ => "f",
    };
    assert(text@ =~= seq![hex_digit(value as nat)]);
    text
}

/// A number in decimal.
pub open spec fn decimal(n: nat) -> Seq<char>
    decreases n,
{
    if n < 10 {
        seq![hex_digit(n)]
    } else {
        decimal(n / 10).push(hex_digit(n % 10))
    }
}

/// Put a number behind a text, in decimal.
pub fn push_decimal(text: &mut String, n: u64)
    ensures
        final(text)@ == old(text)@ + decimal(n as nat),
    decreases n,
{
    if n >= 10 {
        push_decimal(text, n / 10);
    }
    let ghost before = text@;
    text.append(digit_text((n % 10) as u8));
    assert(text@ =~= old(text)@ + decimal(n as nat));
}

/// A number in decimal, with zeros before it up to `width` digits.
pub open spec fn padded(n: nat, width: nat) -> Seq<char>
    decreases width,
{
    if width <= 1 {
        decimal(n)
    } else {
        padded(n / 10, (width - 1) as nat).push(hex_digit(n % 10))
    }
}

/// Put a number behind a text, in decimal with at least `width` digits.
pub fn push_padded(text: &mut String, n: u64, width: usize)
    ensures
        final(text)@ == old(text)@ + padded(n as nat, width as nat),
    decreases width,
{
    if width <= 1 {
        push_decimal(text, n);
    } else {
        push_padded(text, n / 10, width - 1);
        text.append(digit_text((n % 10) as u8));
        assert(text@ =~= old(text)@ + padded(n as nat, width as nat));
    }
}

/// Put bytes behind a text, in lower-case hexadecimal.
pub fn push_hex(text: &mut String, bytes: &[u8])
    ensures
        final(text)@ == old(text)@ + hex_of(bytes@),
{
    let ghost before = text@;
    let mut i: usize = 0;
    assert(text@ =~= before + hex_of(bytes@.take(0)));
    while i < bytes.len()
        invariant
            i <= bytes@.len(),
            text@ == before + hex_of(bytes@.take(i as int)),
        decreases bytes@.len() - i,
    {
        let byte: u8 = bytes[i];
        let ghost longer = bytes@.take(i as int + 1);
        text.append(digit_text(byte / 16));
        text.append(digit_text(byte % 16));
        proof {
            let shorter = bytes@.take(i as int);
            assert(hex_of(longer) =~= hex_of(shorter).push(hex_digit(byte as nat / 16)).push(
                hex_digit(byte as nat % 16),
            )) by {
                assert forall|k: int| 0 <= k < 2 * shorter.len() implies #[trigger] hex_of(
                    longer,
                )[k] == hex_of(shorter)[k] by {
                    assert(longer[k / 2] == shorter[k / 2]);
                }
            }
            assert(text@ =~= before + hex_of(longer));
        }
        i += 1;
    }
    assert(bytes@.take(i as int) =~= bytes@);
}

/// Names one behind the other, with a comma between them.
pub open spec fn joined(names: Seq<Seq<char>>) -> Seq<char>
    decreases names.len(),
{
    if names.len() == 0 {
        Seq::empty()
    } else if names.len() == 1 {
        names[0]
    } else {
        joined(names.drop_last()) + ", "@ + names.last()
    }
}

/// What texts say.
pub open spec fn said(texts: Seq<String>) -> Seq<Seq<char>> {
    texts.map_values(|text: String| text@)
}

/// Put the first `n` names behind a text, with a comma between them.
pub fn push_joined(text: &mut String, names: &[String], n: usize)
    requires
        n <= names@.len(),
    ensures
        final(text)@ == old(text)@ + joined(said(names@).take(n as int)),
{
    let ghost before = text@;
    let mut i: usize = 0;
    assert(text@ =~= before + joined(said(names@).take(0)));
    while i < n
        invariant
            i <= n <= names@.len(),
            text@ == before + joined(said(names@).take(i as int)),
        decreases n - i,
    {
        let ghost longer = said(names@).take(i as int + 1);
        assert(longer.drop_last() =~= said(names@).take(i as int));
        if i > 0 {
            text.append(", ");
        }
        text.append(names[i].as_str());
        assert(text@ =~= before + joined(longer));
        i += 1;
    }
}

} // verus!
