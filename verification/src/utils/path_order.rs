use vstd::prelude::*;
use vstd::string::StringSliceAdditionalSpecFns;
use vstd::utf8::decode_utf8;
use vstd::utf8::encode_utf8;
use vstd::utf8::encode_utf8_decode_utf8;

verus! {

/// Whether `a` comes before `b` in the lexicographic order of bytes: at the
/// first place where they differ `a` has the smaller byte, or `a` ends
/// there and `b` goes on.
pub open spec fn bytes_before(a: Seq<u8>, b: Seq<u8>) -> bool
    decreases a.len(),
{
    if b.len() == 0 {
        false
    } else if a.len() == 0 {
        true
    } else if a[0] != b[0] {
        a[0] < b[0]
    } else {
        bytes_before(a.drop_first(), b.drop_first())
    }
}

/// Whether the path `a` sorts before the path `b`: the order of their UTF-8
/// bytes, which is the order of their characters by code point.
pub open spec fn path_before(a: Seq<char>, b: Seq<char>) -> bool {
    bytes_before(encode_utf8(a), encode_utf8(b))
}

/// The byte order is a strict total order.
pub proof fn lemma_bytes_before_is_total(a: Seq<u8>, b: Seq<u8>, c: Seq<u8>)
    ensures
        !(bytes_before(a, b) && bytes_before(b, a)),
        bytes_before(a, b) && bytes_before(b, c) ==> bytes_before(a, c),
        !bytes_before(a, b) && !bytes_before(b, a) ==> a == b,
    decreases a.len(),
{
    if a.len() > 0 && b.len() > 0 {
        if c.len() > 0 {
            lemma_bytes_before_is_total(a.drop_first(), b.drop_first(), c.drop_first());
        } else {
            lemma_bytes_before_is_total(a.drop_first(), b.drop_first(), c);
        }
        if a[0] == b[0] && !bytes_before(a, b) && !bytes_before(b, a) {
            assert(a =~= seq![a[0]] + a.drop_first());
            assert(b =~= seq![b[0]] + b.drop_first());
        }
    } else if a.len() == 0 && b.len() == 0 {
        assert(a =~= b);
    }
}

/// The path order is a strict total order.
pub proof fn lemma_path_before_is_total(a: Seq<char>, b: Seq<char>, c: Seq<char>)
    ensures
        !(path_before(a, b) && path_before(b, a)),
        path_before(a, b) && path_before(b, c) ==> path_before(a, c),
        !path_before(a, b) && !path_before(b, a) ==> a == b,
        !path_before(a, b) && !path_before(b, c) ==> !path_before(a, c),
{
    lemma_bytes_before_is_total(encode_utf8(a), encode_utf8(b), encode_utf8(c));
    lemma_bytes_before_is_total(encode_utf8(b), encode_utf8(a), encode_utf8(c));
    lemma_bytes_before_is_total(encode_utf8(b), encode_utf8(c), encode_utf8(a));
    lemma_bytes_before_is_total(encode_utf8(c), encode_utf8(b), encode_utf8(a));
    encode_utf8_decode_utf8(a);
    encode_utf8_decode_utf8(b);
    encode_utf8_decode_utf8(c);
    if encode_utf8(a) == encode_utf8(b) {
        assert(decode_utf8(encode_utf8(a)) == decode_utf8(encode_utf8(b)));
    }
    if encode_utf8(b) == encode_utf8(c) {
        assert(decode_utf8(encode_utf8(b)) == decode_utf8(encode_utf8(c)));
    }
}

/// Decides the byte order of two slices.
pub fn slice_before(a: &[u8], b: &[u8]) -> (before: bool)
    ensures
        before == bytes_before(a@, b@),
{
    let mut i: usize = 0;
    assert(a@.skip(0) =~= a@);
    assert(b@.skip(0) =~= b@);
    loop
        invariant
            i <= a.len(),
            i <= b.len(),
            bytes_before(a@, b@) == bytes_before(a@.skip(i as int), b@.skip(i as int)),
        decreases a.len() - i,
    {
        if i == b.len() {
            return false;
        }
        if i == a.len() {
            return true;
        }
        assert(a@.skip(i as int)[0] == a[i as int]);
        assert(b@.skip(i as int)[0] == b[i as int]);
        if a[i] != b[i] {
            return a[i] < b[i];
        }
        assert(a@.skip(i as int).drop_first() =~= a@.skip(i as int + 1));
        assert(b@.skip(i as int).drop_first() =~= b@.skip(i as int + 1));
        i += 1;
    }
}

/// Decides the order of two paths.
pub fn sorts_before(a: &str, b: &str) -> (before: bool)
    ensures
        before == path_before(a@, b@),
{
    slice_before(a.as_bytes(), b.as_bytes())
}

} // verus!
