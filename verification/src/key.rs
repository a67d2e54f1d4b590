//! Identities: the values that name a child among its siblings.

use vstd::prelude::*;
use vstd::std_specs::cmp::PartialEqSpecImpl;
use vstd::std_specs::convert::FromSpecImpl;
use vstd::std_specs::convert::IntoSpec;
use vstd::string::StringExecFns;
use vstd::string::StrSliceExecFns;
use std::hash::Hash;
use std::hash::Hasher;
use std::rc::Rc;

verus! {

/// A value that names a child uniquely among its siblings.
#[derive(Debug)]
pub enum Key {
    U64(u64),
    I64(i64),
    String(Rc<String>),
    Str(&'static str),
    Bytes(Rc<Vec<u8>>),
}

/// What a key stands for: owned and static text are one kind.
pub enum KeyView {
    U64(u64),
    I64(i64),
    Text(Seq<char>),
    Bytes(Seq<u8>),
}

impl View for Key {
    type V = KeyView;

    open spec fn view(&self) -> KeyView {
        match *self {
            Key::U64(n) => KeyView::U64(n),
            Key::I64(n) => KeyView::I64(n),
            Key::String(s) => KeyView::Text(s@),
            Key::Str(s) => KeyView::Text(s@),
            Key::Bytes(b) => KeyView::Bytes(b@),
        }
    }
}


/// The character of a digit below sixteen, in lower case.
pub open spec fn digit(d: int) -> char {
    if d == 0 {
        '0'
    } else if d == 1 {
        '1'
    } else if d == 2 {
        '2'
    } else if d == 3 {
        '3'
    } else if d == 4 {
        '4'
    } else if d == 5 {
        '5'
    } else if d == 6 {
        '6'
    } else if d == 7 {
        '7'
    } else if d == 8 {
        '8'
    } else if d == 9 {
        '9'
    } else if d == 10 {
        'a'
    } else if d == 11 {
        'b'
    } else if d == 12 {
        'c'
    } else if d == 13 {
        'd'
    } else if d == 14 {
        'e'
    } else {
        'f'
    }
}

/// The digits of a number in base ten, without leading zeros.
pub open spec fn decimal(n: nat) -> Seq<char>
    decreases n,
{
    if n < 10 {
        seq![digit(n as int)]
    } else {
        decimal(n / 10).push(digit((n % 10) as int))
    }
}

/// The digits of a signed number in base ten, after a minus sign if it is negative.
pub open spec fn signed_decimal(n: int) -> Seq<char> {
    if n < 0 {
        seq!['-'] + decimal((-n) as nat)
    } else {
        decimal(n as nat)
    }
}

/// Two hexadecimal digits for each byte, in order.
pub open spec fn hex(bytes: Seq<u8>) -> Seq<char>
    decreases bytes.len(),
{
    if bytes.len() == 0 {
        Seq::empty()
    } else {
        hex(bytes.drop_last()).push(digit(bytes.last() as int / 16)).push(
            digit(bytes.last() as int % 16),
        )
    }
}

impl KeyView {
    /// The written form of a key: a letter for its kind, then its value.
    pub open spec fn text(self) -> Seq<char> {
        match self {
            KeyView::U64(n) => seq!['u'] + decimal(n as nat),
            KeyView::I64(n) => seq!['i'] + signed_decimal(n as int),
            KeyView::Text(t) => seq!['s'] + t,
            KeyView::Bytes(b) => seq!['0', 'x'] + hex(b),
        }
    }

    /// The form under which a key is filed in a hash index: the kind, the
    /// number, the bytes. Keys that are equal have one form.
    pub open spec fn slot(self) -> (u8, i128, Seq<u8>) {
        match self {
            KeyView::U64(n) => (0u8, n as i128, Seq::empty()),
            KeyView::I64(n) => (1u8, n as i128, Seq::empty()),
            KeyView::Text(t) => (2u8, 0i128, vstd::utf8::encode_utf8(t)),
            KeyView::Bytes(b) => (3u8, 0i128, b),
        }
    }
}

/// Keys with one filed form are equal.
pub proof fn lemma_slot_injective(a: KeyView, b: KeyView)
    ensures
        a.slot() == b.slot() <==> a == b,
{
    if a.slot() == b.slot() {
        match (a, b) {
            (KeyView::Text(s), KeyView::Text(t)) => {
                vstd::utf8::encode_utf8_decode_utf8(s);
                vstd::utf8::encode_utf8_decode_utf8(t);
            },
            _ => {},
        }
    }
}

fn digit_text(d: u8) -> (s: &'static str)
    requires
        d < 16,
    ensures
        s@ == seq![digit(d as int)],
{
    proof {
        reveal_strlit("0");
        reveal_strlit("1");
        reveal_strlit("2");
        reveal_strlit("3");
        reveal_strlit("4");
        reveal_strlit("5");
        reveal_strlit("6");
        reveal_strlit("7");
        reveal_strlit("8");
        reveal_strlit("9");
        reveal_strlit("a");
        reveal_strlit("b");
        reveal_strlit("c");
        reveal_strlit("d");
        reveal_strlit("e");
        reveal_strlit("f");
    }
    let s = match d {
        0 => "0",
        1 => "1",
        2 => "2",
        3 => "3",
        4 => "4",
        5 => "5",
        6 => "6",
        7 => "7",
        8 => "8",
        9 => "9",
        10 => "a",
        11 => "b",
        12 => "c",
        13 => "d",
        14 => "e",
        _ => "f",
    };
    assert(s@ =~= seq![digit(d as int)]);
    s
}

/// Appends the digits of `n` in base ten.
fn push_decimal(out: &mut String, n: u64)
    ensures
        final(out)@ == old(out)@ + decimal(n as nat),
    decreases n,
{
    if n >= 10 {
        push_decimal(out, n / 10);
    }
    out.append(digit_text((n % 10) as u8));
    assert(out@ =~= old(out)@ + decimal(n as nat));
}

/// Appends two hexadecimal digits for each byte.
fn push_hex(out: &mut String, bytes: &[u8])
    ensures
        final(out)@ == old(out)@ + hex(bytes@),
{
    let mut i: usize = 0;
    assert(bytes@.take(0) =~= Seq::<u8>::empty());
    while i < bytes.len()
        invariant
            i <= bytes@.len(),
            out@ == old(out)@ + hex(bytes@.take(i as int)),
        decreases bytes@.len() - i,
    {
        let b = bytes[i];
        out.append(digit_text(b / 16));
        out.append(digit_text(b % 16));
        proof {
            let next = bytes@.take(i + 1);
            assert(next.drop_last() =~= bytes@.take(i as int));
            assert(next.last() == b);
            assert(out@ =~= old(out)@ + hex(next));
        }
        i += 1;
    }
    assert(bytes@.take(i as int) =~= bytes@);
}

/// `Hash::hash` of a tuple of three: feeds the three parts to the hasher.
/// Nothing is claimed of the hasher's state.
pub assume_specification<Kind: Hash, Number: Hash, Tail: Hash, Sink: Hasher>[ <(
    Kind,
    Number,
    Tail,
) as Hash>::hash ](parts: &(Kind, Number, Tail), state: &mut Sink);

/// `Rc::clone`: a second handle to the same value.
#[verifier::external_body]
fn share<T>(r: &Rc<T>) -> (res: Rc<T>)
    ensures
        res == *r,
{
    Rc::clone(r)
}

/// Whether two byte strings hold the same bytes.
pub fn bytes_equal(a: &[u8], b: &[u8]) -> (r: bool)
    ensures
        r == (a@ == b@),
{
    if a.len() != b.len() {
        return false;
    }
    let mut i: usize = 0;
    while i < a.len()
        invariant
            a@.len() == b@.len(),
            i <= a@.len(),
            forall|j: int| 0 <= j < i ==> a@[j] == b@[j],
        decreases a@.len() - i,
    {
        if a[i] != b[i] {
            return false;
        }
        i += 1;
    }
    assert(a@ =~= b@);
    true
}

/// Whether two texts hold the same characters.
pub fn text_equal(a: &str, b: &str) -> (r: bool)
    ensures
        r == (a@ == b@),
{
    let r = bytes_equal(a.as_bytes(), b.as_bytes());
    proof {
        vstd::utf8::encode_utf8_decode_utf8(a@);
        vstd::utf8::encode_utf8_decode_utf8(b@);
    }
    r
}

impl Key {
    /// Whether two keys name the same child.
    pub fn same(&self, other: &Key) -> (r: bool)
        ensures
            r == (self@ == other@),
    {
        match (self, other) {
            (Key::U64(a), Key::U64(b)) => *a == *b,
            (Key::I64(a), Key::I64(b)) => *a == *b,
            (Key::String(a), Key::String(b)) => text_equal(a.as_str(), b.as_str()),
            (Key::String(a), Key::Str(b)) => text_equal(a.as_str(), b),
            (Key::Str(a), Key::String(b)) => text_equal(a, b.as_str()),
            (Key::Str(a), Key::Str(b)) => text_equal(a, b),
            (Key::Bytes(a), Key::Bytes(b)) => bytes_equal(a.as_slice(), b.as_slice()),
            _ => false,
        }
    }

    /// The written form of the key.
    pub fn to_string(&self) -> (out: String)
        ensures
            out@ == self@.text(),
    {
        match self {
            Key::U64(n) => {
                proof {
                    reveal_strlit("u");
                }
                let mut out = String::from_str("u");
                push_decimal(&mut out, *n);
                assert(out@ =~= self@.text());
                out
            },
            Key::I64(n) => {
                proof {
                    reveal_strlit("i");
                    reveal_strlit("-");
                }
                let mut out = String::from_str("i");
                if *n < 0 {
                    out.append("-");
                    let magnitude: u64 = if *n == i64::MIN {
                        0x8000_0000_0000_0000u64
                    } else {
                        (-*n) as u64
                    };
                    push_decimal(&mut out, magnitude);
                } else {
                    push_decimal(&mut out, *n as u64);
                }
                assert(out@ =~= self@.text());
                out
            },
            Key::String(s) => {
                proof {
                    reveal_strlit("s");
                }
                let mut out = String::from_str("s");
                out.append(s.as_str());
                assert(out@ =~= self@.text());
                out
            },
            Key::Str(s) => {
                proof {
                    reveal_strlit("s");
                }
                let mut out = String::from_str("s");
                out.append(s);
                assert(out@ =~= self@.text());
                out
            },
            Key::Bytes(b) => {
                proof {
                    reveal_strlit("0x");
                }
                let mut out = String::from_str("0x");
                push_hex(&mut out, b.as_slice());
                assert(out@ =~= self@.text());
                out
            },
        }
    }

    /// The form under which the key is filed in a hash index.
    pub fn slot(&self) -> (s: (u8, i128, Vec<u8>))
        ensures
            (s.0, s.1, s.2@) == self@.slot(),
    {
        match self {
            Key::U64(n) => (0u8, *n as i128, Vec::new()),
            Key::I64(n) => (1u8, *n as i128, Vec::new()),
            Key::String(s) => (2u8, 0i128, s.as_str().as_bytes_vec()),
            Key::Str(s) => (2u8, 0i128, s.as_bytes_vec()),
            Key::Bytes(b) => (3u8, 0i128, vstd::slice::slice_to_vec(b.as_slice())),
        }
    }
}

impl PartialEq for Key {
    fn eq(&self, other: &Key) -> (r: bool) {
        self.same(other)
    }
}

impl PartialEqSpecImpl for Key {
    open spec fn obeys_eq_spec() -> bool {
        true
    }

    open spec fn eq_spec(&self, other: &Key) -> bool {
        self@ == other@
    }
}

impl Eq for Key {

}

impl Hash for Key {
    /// Hashes the filed form, so that equal keys hash alike.
    fn hash<H: Hasher>(&self, state: &mut H) {
        self.slot().hash(state)
    }
}

impl Clone for Key {
    /// A copy of the key that shares its text or bytes with it.
    fn clone(&self) -> (res: Key)
        ensures
            res == *self,
    {
        match self {
            Key::U64(n) => Key::U64(*n),
            Key::I64(n) => Key::I64(*n),
            Key::String(s) => Key::String(share(s)),
            Key::Str(s) => Key::Str(s),
            Key::Bytes(b) => Key::Bytes(share(b)),
        }
    }
}

impl From<u8> for Key {
    fn from(v: u8) -> (k: Key) {
        Key::U64(v as u64)
    }
}

impl FromSpecImpl<u8> for Key {
    open spec fn obeys_from_spec() -> bool {
        true
    }

    open spec fn from_spec(v: u8) -> Key {
        Key::U64(v as u64)
    }
}

impl From<u16> for Key {
    fn from(v: u16) -> (k: Key) {
        Key::U64(v as u64)
    }
}

impl FromSpecImpl<u16> for Key {
    open spec fn obeys_from_spec() -> bool {
        true
    }

    open spec fn from_spec(v: u16) -> Key {
        Key::U64(v as u64)
    }
}

impl From<u32> for Key {
    fn from(v: u32) -> (k: Key) {
        Key::U64(v as u64)
    }
}

impl FromSpecImpl<u32> for Key {
    open spec fn obeys_from_spec() -> bool {
        true
    }

    open spec fn from_spec(v: u32) -> Key {
        Key::U64(v as u64)
    }
}

impl From<u64> for Key {
    fn from(v: u64) -> (k: Key) {
        Key::U64(v)
    }
}

impl FromSpecImpl<u64> for Key {
    open spec fn obeys_from_spec() -> bool {
        true
    }

    open spec fn from_spec(v: u64) -> Key {
        Key::U64(v)
    }
}

impl From<usize> for Key {
    fn from(v: usize) -> (k: Key) {
        Key::U64(v as u64)
    }
}

impl FromSpecImpl<usize> for Key {
    open spec fn obeys_from_spec() -> bool {
        true
    }

    open spec fn from_spec(v: usize) -> Key {
        Key::U64(v as u64)
    }
}

impl From<i8> for Key {
    fn from(v: i8) -> (k: Key) {
        Key::I64(v as i64)
    }
}

impl FromSpecImpl<i8> for Key {
    open spec fn obeys_from_spec() -> bool {
        true
    }

    open spec fn from_spec(v: i8) -> Key {
        Key::I64(v as i64)
    }
}

impl From<i16> for Key {
    fn from(v: i16) -> (k: Key) {
        Key::I64(v as i64)
    }
}

impl FromSpecImpl<i16> for Key {
    open spec fn obeys_from_spec() -> bool {
        true
    }

    open spec fn from_spec(v: i16) -> Key {
        Key::I64(v as i64)
    }
}

impl From<i32> for Key {
    fn from(v: i32) -> (k: Key) {
        Key::I64(v as i64)
    }
}

impl FromSpecImpl<i32> for Key {
    open spec fn obeys_from_spec() -> bool {
        true
    }

    open spec fn from_spec(v: i32) -> Key {
        Key::I64(v as i64)
    }
}

impl From<i64> for Key {
    fn from(v: i64) -> (k: Key) {
        Key::I64(v)
    }
}

impl FromSpecImpl<i64> for Key {
    open spec fn obeys_from_spec() -> bool {
        true
    }

    open spec fn from_spec(v: i64) -> Key {
        Key::I64(v)
    }
}

impl From<isize> for Key {
    fn from(v: isize) -> (k: Key) {
        Key::I64(v as i64)
    }
}

impl FromSpecImpl<isize> for Key {
    open spec fn obeys_from_spec() -> bool {
        true
    }

    open spec fn from_spec(v: isize) -> Key {
        Key::I64(v as i64)
    }
}

impl From<String> for Key {
    fn from(v: String) -> (k: Key) {
        Key::String(Rc::new(v))
    }
}

impl FromSpecImpl<String> for Key {
    open spec fn obeys_from_spec() -> bool {
        true
    }

    open spec fn from_spec(v: String) -> Key {
        Key::String(Rc::new(v))
    }
}

impl From<Rc<String>> for Key {
    fn from(v: Rc<String>) -> (k: Key) {
        Key::String(v)
    }
}

impl FromSpecImpl<Rc<String>> for Key {
    open spec fn obeys_from_spec() -> bool {
        true
    }

    open spec fn from_spec(v: Rc<String>) -> Key {
        Key::String(v)
    }
}

impl From<&'static str> for Key {
    fn from(v: &'static str) -> (k: Key) {
        Key::Str(v)
    }
}

impl FromSpecImpl<&'static str> for Key {
    open spec fn obeys_from_spec() -> bool {
        true
    }

    open spec fn from_spec(v: &'static str) -> Key {
        Key::Str(v)
    }
}

impl From<Vec<u8>> for Key {
    fn from(v: Vec<u8>) -> (k: Key) {
        Key::Bytes(Rc::new(v))
    }
}

impl FromSpecImpl<Vec<u8>> for Key {
    open spec fn obeys_from_spec() -> bool {
        true
    }

    open spec fn from_spec(v: Vec<u8>) -> Key {
        Key::Bytes(Rc::new(v))
    }
}

impl From<Rc<Vec<u8>>> for Key {
    fn from(v: Rc<Vec<u8>>) -> (k: Key) {
        Key::Bytes(v)
    }
}

impl FromSpecImpl<Rc<Vec<u8>>> for Key {
    open spec fn obeys_from_spec() -> bool {
        true
    }

    open spec fn from_spec(v: Rc<Vec<u8>>) -> Key {
        Key::Bytes(v)
    }
}

/// The key that `key` converts into.
pub fn key<T: Into<Key>>(value: T) -> (k: Key)
    ensures
        T::obeys_into_spec() ==> k == T::into_spec(value),
{
    value.into()
}

} // verus!
