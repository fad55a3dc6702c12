//! The order of keys: by kind first, by what they hold second.
use crate::types::key::{Key, KeyView};
use vstd::prelude::*;
use vstd::utf8::{encode_utf8, encode_utf8_decode_utf8};

verus! {

/// Whether `a` comes before `b` when byte strings are compared byte by
/// byte from the front, a proper prefix before what it is a prefix of.
pub open spec fn bytes_before(a: Seq<u8>, b: Seq<u8>) -> bool
    decreases a.len(),
{
    if b.len() == 0 {
        false
    } else if a.len() == 0 {
        true
    } else if a[0] != b[0] {
        a[0] < b[0]
    } else {
        bytes_before(a.skip(1), b.skip(1))
    }
}

impl KeyView {
    /// Whether this key comes before `other`: a key of an earlier kind
    /// does, and of two keys of one kind the one that holds less; texts are
    /// compared by their bytes.
    pub open spec fn before(self, other: KeyView) -> bool {
        if self.tag() != other.tag() {
            self.tag() < other.tag()
        } else {
            match (self, other) {
                (KeyView::Bool(a), KeyView::Bool(b)) => !a && b,
                (KeyView::Int(a), KeyView::Int(b)) => a < b,
                (KeyView::Uid(a), KeyView::Uid(b)) => a < b,
                (KeyView::Str(a), KeyView::Str(b)) => bytes_before(
                    encode_utf8(a),
                    encode_utf8(b),
                ),
                (KeyView::Text(a), KeyView::Text(b)) => bytes_before(
                    encode_utf8(a),
                    encode_utf8(b),
                ),
                _ => false,
            }
        }
    }

    /// Whether this key is `other` or comes before it.
    pub open spec fn at_most(self, other: KeyView) -> bool {
        self == other || self.before(other)
    }
}

/// No byte string comes before itself.
pub proof fn lemma_bytes_irreflexive(a: Seq<u8>)
    ensures
        !bytes_before(a, a),
    decreases a.len(),
{
    if a.len() > 0 {
        lemma_bytes_irreflexive(a.skip(1));
    }
}

/// Of two different byte strings one comes before the other.
pub proof fn lemma_bytes_total(a: Seq<u8>, b: Seq<u8>)
    ensures
        bytes_before(a, b) || a == b || bytes_before(b, a),
    decreases a.len(),
{
    if a.len() > 0 && b.len() > 0 && a[0] == b[0] {
        lemma_bytes_total(a.skip(1), b.skip(1));
        if a.skip(1) == b.skip(1) {
            assert(a =~= seq![a[0]] + a.skip(1));
        }
    }
}

/// What comes before something that comes before a third comes before the third.
pub proof fn lemma_bytes_transitive(a: Seq<u8>, b: Seq<u8>, c: Seq<u8>)
    requires
        bytes_before(a, b),
        bytes_before(b, c),
    ensures
        bytes_before(a, c),
    decreases a.len(),
{
    if a.len() > 0 && a[0] == b[0] && b[0] == c[0] {
        lemma_bytes_transitive(a.skip(1), b.skip(1), c.skip(1));
    }
}

/// No key comes before itself.
pub proof fn lemma_before_irreflexive(a: KeyView)
    ensures
        !a.before(a),
{
    match a {
        KeyView::Str(s) => lemma_bytes_irreflexive(encode_utf8(s)),
        KeyView::Text(s) => lemma_bytes_irreflexive(encode_utf8(s)),
        _ => {},
    }
}

/// Of two different keys one comes before the other.
pub proof fn lemma_before_total(a: KeyView, b: KeyView)
    ensures
        a.before(b) || a == b || b.before(a),
{
    match (a, b) {
        (KeyView::Str(s), KeyView::Str(t)) => {
            lemma_bytes_total(encode_utf8(s), encode_utf8(t));
            encode_utf8_decode_utf8(s);
            encode_utf8_decode_utf8(t);
        },
        (KeyView::Text(s), KeyView::Text(t)) => {
            lemma_bytes_total(encode_utf8(s), encode_utf8(t));
            encode_utf8_decode_utf8(s);
            encode_utf8_decode_utf8(t);
        },
        _ => {},
    }
}

/// A key that comes before a key that comes before a third comes before the third.
pub proof fn lemma_before_transitive(a: KeyView, b: KeyView, c: KeyView)
    requires
        a.before(b),
        b.before(c),
    ensures
        a.before(c),
{
    match (a, b, c) {
        (KeyView::Str(s), KeyView::Str(t), KeyView::Str(u)) => {
            lemma_bytes_transitive(encode_utf8(s), encode_utf8(t), encode_utf8(u));
        },
        (KeyView::Text(s), KeyView::Text(t), KeyView::Text(u)) => {
            lemma_bytes_transitive(encode_utf8(s), encode_utf8(t), encode_utf8(u));
        },
        _ => {},
    }
}

/// Of two keys at most one comes before the other.
pub proof fn lemma_before_asymmetric(a: KeyView, b: KeyView)
    requires
        a.before(b),
    ensures
        !b.before(a),
{
    if b.before(a) {
        lemma_before_transitive(a, b, a);
        lemma_before_irreflexive(a);
    }
}

/// Whether the bytes of `a` come before those of `b`.
fn slice_before(a: &[u8], b: &[u8]) -> (r: bool)
    ensures
        r == bytes_before(a@, b@),
{
    let mut i: usize = 0;
    assert(a@.skip(0) =~= a@ && b@.skip(0) =~= b@);
    while i < a.len() && i < b.len() && a[i] == b[i]
        invariant
            i <= a.len(),
            i <= b.len(),
            bytes_before(a@, b@) == bytes_before(a@.skip(i as int), b@.skip(i as int)),
        decreases a.len() - i,
    {
        assert(a@.skip(i as int).skip(1) =~= a@.skip(i + 1));
        assert(b@.skip(i as int).skip(1) =~= b@.skip(i + 1));
        i = i + 1;
    }
    if i >= b.len() {
        false
    } else if i >= a.len() {
        true
    } else {
        a[i] < b[i]
    }
}

impl Key {
    /// The discriminant of the key's variant, as the packed form writes it.
    pub fn tag(&self) -> (tag: u8)
        ensures
            tag == self@.tag(),
    {
        match self {
            Key::BOOL(_) => 0,
            Key::INT(_) => 1,
            Key::UID(_) => 2,
            Key::STR(_) => 3,
            Key::TEXT(_) => 4,
        }
    }

    /// Whether this key comes before `other`.
    pub fn before(&self, other: &Key) -> (r: bool)
        ensures
            r == self@.before(other@),
    {
        match (self, other) {
            (Key::BOOL(a), Key::BOOL(b)) => !*a && *b,
            (Key::INT(a), Key::INT(b)) => *a < *b,
            (Key::UID(a), Key::UID(b)) => *a < *b,
            (Key::STR(a), Key::STR(b)) => slice_before(
                a.as_str().as_bytes(),
                b.as_str().as_bytes(),
            ),
            (Key::TEXT(a), Key::TEXT(b)) => slice_before(
                a.as_str().as_bytes(),
                b.as_str().as_bytes(),
            ),
            _ => self.tag() < other.tag(),
        }
    }

    /// Whether this key and `other` are the same key.
    pub fn same(&self, other: &Key) -> (r: bool)
        ensures
            r == (self@ == other@),
    {
        match (self, other) {
            (Key::BOOL(a), Key::BOOL(b)) => *a == *b,
            (Key::INT(a), Key::INT(b)) => *a == *b,
            (Key::UID(a), Key::UID(b)) => *a == *b,
            (Key::STR(a), Key::STR(b)) => *a == *b,
            (Key::TEXT(a), Key::TEXT(b)) => *a == *b,
            _ => false,
        }
    }

    /// Whether this key is `other` or comes before it.
    pub fn at_most(&self, other: &Key) -> (r: bool)
        ensures
            r == self@.at_most(other@),
    {
        self.same(other) || self.before(other)
    }
}

} // verus!
