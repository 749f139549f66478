//! Strings as keys, ordered as the standard library orders them: by the bytes
//! of their UTF-8 encoding.

use vstd::prelude::*;
use vstd::utf8::{encode_utf8, encode_utf8_decode_utf8};
use crate::key::{Key, KeyOrder};

verus! {

/// The dictionary order on byte strings: the first byte in which two strings
/// differ decides; a proper prefix comes first.
pub open spec fn bytes_lt(a: Seq<u8>, b: Seq<u8>) -> bool
    decreases a.len(),
{
    if b.len() == 0 {
        false
    } else if a.len() == 0 {
        true
    } else if a[0] < b[0] {
        true
    } else if a[0] == b[0] {
        bytes_lt(a.drop_first(), b.drop_first())
    } else {
        false
    }
}

/// The order on strings: the dictionary order on their UTF-8 encodings.
pub open spec fn text_lt(a: Seq<char>, b: Seq<char>) -> bool {
    bytes_lt(encode_utf8(a), encode_utf8(b))
}

/// No byte string comes before itself.
pub proof fn lemma_bytes_irreflexive(a: Seq<u8>)
    ensures
        !bytes_lt(a, a),
    decreases a.len(),
{
    if a.len() > 0 {
        lemma_bytes_irreflexive(a.drop_first());
    }
}

/// The dictionary order is transitive.
pub proof fn lemma_bytes_transitive(a: Seq<u8>, b: Seq<u8>, c: Seq<u8>)
    requires
        bytes_lt(a, b),
        bytes_lt(b, c),
    ensures
        bytes_lt(a, c),
    decreases a.len(),
{
    if a.len() > 0 && a[0] == b[0] && b[0] == c[0] {
        lemma_bytes_transitive(a.drop_first(), b.drop_first(), c.drop_first());
    }
}

/// Of two different byte strings one comes before the other.
pub proof fn lemma_bytes_connected(a: Seq<u8>, b: Seq<u8>)
    ensures
        bytes_lt(a, b) || a == b || bytes_lt(b, a),
    decreases a.len(),
{
    if a.len() == 0 || b.len() == 0 {
        if a.len() == 0 && b.len() == 0 {
            assert(a =~= b);
        }
    } else if a[0] == b[0] {
        lemma_bytes_connected(a.drop_first(), b.drop_first());
        if a.drop_first() == b.drop_first() {
            assert(a =~= seq![a[0]] + a.drop_first());
            assert(b =~= seq![b[0]] + b.drop_first());
        }
    }
}

/// Two byte strings that agree in their first `n` bytes are ordered as what
/// follows those bytes.
pub proof fn lemma_bytes_skip_prefix(a: Seq<u8>, b: Seq<u8>, n: int)
    requires
        0 <= n <= a.len(),
        n <= b.len(),
        a.take(n) == b.take(n),
    ensures
        bytes_lt(a, b) == bytes_lt(a.skip(n), b.skip(n)),
        a == b <==> a.skip(n) == b.skip(n),
    decreases n,
{
    if n == 0 {
        assert(a.skip(0) =~= a);
        assert(b.skip(0) =~= b);
    } else {
        assert(a[0] == a.take(n)[0]);
        assert(b[0] == b.take(n)[0]);
        let a1 = a.drop_first();
        let b1 = b.drop_first();
        assert(a1.take(n - 1) =~= a.take(n).drop_first());
        assert(b1.take(n - 1) =~= b.take(n).drop_first());
        lemma_bytes_skip_prefix(a1, b1, n - 1);
        assert(a1.skip(n - 1) =~= a.skip(n));
        assert(b1.skip(n - 1) =~= b.skip(n));
        assert(a =~= seq![a[0]] + a1);
        assert(b =~= seq![b[0]] + b1);
    }
}

/// Compares two byte strings in dictionary order.
pub fn compare_bytes(a: &[u8], b: &[u8]) -> (o: KeyOrder)
    ensures
        match o {
            KeyOrder::Less => bytes_lt(a@, b@),
            KeyOrder::Equal => a@ == b@,
            KeyOrder::Greater => bytes_lt(b@, a@),
        },
{
    let n = if a.len() <= b.len() {
        a.len()
    } else {
        b.len()
    };
    let mut i: usize = 0;
    while i < n
        invariant
            i <= n,
            n <= a@.len(),
            n <= b@.len(),
            a@.take(i as int) == b@.take(i as int),
        decreases n - i,
    {
        if a[i] != b[i] {
            proof {
                lemma_bytes_skip_prefix(a@, b@, i as int);
                lemma_bytes_skip_prefix(b@, a@, i as int);
                assert(a@.skip(i as int)[0] == a@[i as int]);
                assert(b@.skip(i as int)[0] == b@[i as int]);
            }
            if a[i] < b[i] {
                return KeyOrder::Less;
            } else {
                return KeyOrder::Greater;
            }
        }
        proof {
            assert(a@.take(i + 1) =~= a@.take(i as int).push(a@[i as int]));
            assert(b@.take(i + 1) =~= b@.take(i as int).push(b@[i as int]));
        }
        i = i + 1;
    }
    proof {
        lemma_bytes_skip_prefix(a@, b@, n as int);
        lemma_bytes_skip_prefix(b@, a@, n as int);
    }
    if a.len() < b.len() {
        KeyOrder::Less
    } else if a.len() > b.len() {
        KeyOrder::Greater
    } else {
        proof {
            assert(a@.skip(n as int) =~= b@.skip(n as int));
        }
        KeyOrder::Equal
    }
}

impl<'a> Key for &'a str {
    open spec fn lt(a: Seq<char>, b: Seq<char>) -> bool {
        text_lt(a, b)
    }

    proof fn lt_irreflexive(a: Seq<char>) {
        lemma_bytes_irreflexive(encode_utf8(a));
    }

    proof fn lt_transitive(a: Seq<char>, b: Seq<char>, c: Seq<char>) {
        lemma_bytes_transitive(encode_utf8(a), encode_utf8(b), encode_utf8(c));
    }

    proof fn lt_connected(a: Seq<char>, b: Seq<char>) {
        lemma_bytes_connected(encode_utf8(a), encode_utf8(b));
        encode_utf8_decode_utf8(a);
        encode_utf8_decode_utf8(b);
    }

    fn compare(&self, other: &Self) -> (o: KeyOrder) {
        proof {
            encode_utf8_decode_utf8(self@);
            encode_utf8_decode_utf8(other@);
        }
        compare_bytes(self.as_bytes(), other.as_bytes())
    }
}

} // verus!
