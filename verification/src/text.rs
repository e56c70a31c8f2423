//! Text as sequences of characters, and the byte order in which strings sort.
use vstd::prelude::*;
use vstd::utf8::*;

verus! {

/// `String::push` appends the given character to the end of the string.
pub assume_specification[ String::push ](s: &mut String, c: char)
    ensures
        final(s)@ == old(s)@.push(c),
;

/// `String::from_utf8` accepts exactly the valid UTF-8 byte sequences and returns the text that
/// they encode.
#[verifier::external_body]
pub(crate) fn decode_text(bytes: Vec<u8>) -> (r: Option<String>)
    ensures
        match r {
            Some(s) => valid_utf8(bytes@) && s@ == decode_utf8(bytes@),
            None => !valid_utf8(bytes@),
        },
{
    String::from_utf8(bytes).ok()
}

/// The characters of `s`.
pub fn to_chars(s: &str) -> (r: Vec<char>)
    ensures
        r@ == s@,
{
    let mut r: Vec<char> = Vec::new();
    for c in it: s.chars()
        invariant
            r@ == s@.take(it.index() as int),
            it.seq() == s@,
    {
        r.push(c);
    }
    r
}

/// The string made of `chars`.
pub fn from_chars(chars: &[char]) -> (r: String)
    ensures
        r@ == chars@,
{
    let mut r: String = String::new();
    push_chars(&mut r, chars);
    assert(r@ =~= chars@);
    r
}

/// Appends `chars` to `out`.
pub fn push_chars(out: &mut String, chars: &[char])
    ensures
        final(out)@ == old(out)@ + chars@,
{
    let mut i: usize = 0;
    while i < chars.len()
        invariant
            i <= chars.len(),
            out@ == old(out)@ + chars@.take(i as int),
        decreases chars.len() - i,
    {
        out.push(chars[i]);
        i += 1;
        assert(chars@.take(i as int) =~= chars@.take(i - 1).push(chars@[i - 1]));
    }
    assert(chars@.take(i as int) =~= chars@);
}

/// Appends `text` to `out`.
pub fn push_text(out: &mut String, text: &str)
    ensures
        final(out)@ == old(out)@ + text@,
{
    let chars: Vec<char> = to_chars(text);
    push_chars(out, chars.as_slice());
}

/// `i` is the first position at which `a` and `b` differ, and `a` sorts first there: it either
/// ends or holds the smaller byte.
pub open spec fn precedes_at(a: Seq<u8>, b: Seq<u8>, i: int) -> bool {
    &&& 0 <= i <= a.len()
    &&& i < b.len()
    &&& forall|k: int| 0 <= k < i ==> #[trigger] a[k] == b[k]
    &&& i == a.len() || a[i] < b[i]
}

/// Lexicographic order of byte sequences.
pub open spec fn bytes_precede(a: Seq<u8>, b: Seq<u8>) -> bool {
    exists|i: int| #[trigger] precedes_at(a, b, i)
}

/// The order of strings: that of their UTF-8 bytes.
pub open spec fn precedes(a: Seq<char>, b: Seq<char>) -> bool {
    bytes_precede(encode_utf8(a), encode_utf8(b))
}

/// How two strings compare.
#[derive(Debug, Clone, Copy, PartialEq, Eq, Structural)]
pub enum Order {
    Before,
    Same,
    After,
}

/// No string precedes itself.
pub proof fn precedes_irreflexive(a: Seq<char>)
    ensures
        !precedes(a, a),
{
}

/// Precedence carries over from one pair of strings to the next.
pub proof fn precedes_transitive(a: Seq<char>, b: Seq<char>, c: Seq<char>)
    requires
        precedes(a, b),
        precedes(b, c),
    ensures
        precedes(a, c),
{
    let x: Seq<u8> = encode_utf8(a);
    let y: Seq<u8> = encode_utf8(b);
    let z: Seq<u8> = encode_utf8(c);
    let i = choose|i: int| precedes_at(x, y, i);
    let j = choose|j: int| precedes_at(y, z, j);
    if i <= j {
        assert(precedes_at(x, z, i));
    } else {
        assert(precedes_at(x, z, j));
    }
}

/// Two different strings never precede each other mutually.
pub proof fn precedes_asymmetric(a: Seq<char>, b: Seq<char>)
    requires
        precedes(a, b),
    ensures
        !precedes(b, a),
        a != b,
{
    if precedes(b, a) {
        precedes_transitive(a, b, a);
    }
    precedes_irreflexive(a);
}

/// Of two byte sequences that agree so far, one precedes the other or they are the same.
proof fn lemma_bytes_total(x: Seq<u8>, y: Seq<u8>, i: int)
    requires
        0 <= i <= x.len(),
        i <= y.len(),
        forall|k: int| 0 <= k < i ==> #[trigger] x[k] == y[k],
    ensures
        x == y || bytes_precede(x, y) || bytes_precede(y, x),
    decreases x.len() - i,
{
    if i == x.len() && i == y.len() {
        assert(x =~= y);
    } else if i == x.len() {
        assert(precedes_at(x, y, i));
    } else if i == y.len() {
        assert forall|k: int| 0 <= k < i implies #[trigger] y[k] == x[k] by {
            assert(x[k] == y[k]);
        }
        assert(precedes_at(y, x, i));
    } else if x[i] < y[i] {
        assert(precedes_at(x, y, i));
    } else if y[i] < x[i] {
        assert forall|k: int| 0 <= k < i implies #[trigger] y[k] == x[k] by {
            assert(x[k] == y[k]);
        }
        assert(precedes_at(y, x, i));
    } else {
        lemma_bytes_total(x, y, i + 1);
    }
}

/// Of two different strings one precedes the other.
pub proof fn precedes_total(a: Seq<char>, b: Seq<char>)
    requires
        a != b,
    ensures
        precedes(a, b) || precedes(b, a),
{
    broadcast use encode_utf8_decode_utf8;

    lemma_bytes_total(encode_utf8(a), encode_utf8(b), 0);
    assert(decode_utf8(encode_utf8(a)) == a);
    assert(decode_utf8(encode_utf8(b)) == b);
}

/// Texts one after the other are encoded one after the other.
pub proof fn lemma_encode_concat(a: Seq<char>, b: Seq<char>)
    ensures
        encode_utf8(a + b) == encode_utf8(a) + encode_utf8(b),
    decreases a.len(),
{
    if a.len() == 0 {
        assert(a + b =~= b);
        assert(encode_utf8(a) + encode_utf8(b) =~= encode_utf8(b));
    } else {
        lemma_encode_concat(a.drop_first(), b);
        assert((a + b).drop_first() =~= a.drop_first() + b);
        assert(encode_utf8(a + b) =~= encode_utf8(a) + encode_utf8(b));
    }
}

/// A text precedes whatever it is the beginning of.
pub proof fn lemma_prefix_precedes(a: Seq<char>, b: Seq<char>)
    requires
        b.len() > 0,
    ensures
        precedes(a, a + b),
{
    lemma_encode_concat(a, b);
    let x: Seq<u8> = encode_utf8(a);
    let y: Seq<u8> = encode_utf8(a + b);
    encode_utf8_first_scalar(b);
    assert(encode_utf8(b).len() > 0);
    assert(precedes_at(x, y, x.len() as int));
}

/// Compares two strings by their UTF-8 bytes.
pub fn order_of(a: &str, b: &str) -> (r: Order)
    ensures
        r is Same <==> a@ == b@,
        r is Before <==> precedes(a@, b@),
        r is After <==> precedes(b@, a@),
{
    broadcast use encode_utf8_decode_utf8;

    let x = a.as_bytes();
    let y = b.as_bytes();
    proof {
        if precedes(a@, b@) {
            precedes_asymmetric(a@, b@);
        }
        if precedes(b@, a@) {
            precedes_asymmetric(b@, a@);
        }
    }
    let mut i: usize = 0;
    #[verifier::loop_isolation(false)]
    while i < x.len() && i < y.len()
        invariant
            i <= x.len(),
            i <= y.len(),
            forall|k: int| 0 <= k < i ==> x@[k] == y@[k],
        decreases x.len() - i,
    {
        if x[i] < y[i] {
            assert(precedes_at(x@, y@, i as int));
            return Order::Before;
        }
        if y[i] < x[i] {
            assert(precedes_at(y@, x@, i as int));
            return Order::After;
        }
        i += 1;
    }
    if i < y.len() {
        assert(precedes_at(x@, y@, i as int));
        return Order::Before;
    }
    if i < x.len() {
        assert(precedes_at(y@, x@, i as int));
        return Order::After;
    }
    assert(x@ =~= y@);
    assert(decode_utf8(encode_utf8(a@)) == a@);
    assert(decode_utf8(encode_utf8(b@)) == b@);
    Order::Same
}

/// Whether two strings hold the same text.
pub fn same_text(a: &str, b: &str) -> (r: bool)
    ensures
        r == (a@ == b@),
{
    matches!(order_of(a, b), Order::Same)
}

} // verus!
