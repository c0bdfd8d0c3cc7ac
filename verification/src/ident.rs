//! The order in which identifiers are compared: lexicographic on the bytes of
//! their UTF-8 encoding, which is the order of `str` itself.

use vstd::prelude::*;
use vstd::utf8::*;

verus! {

/// `a` and `b` agree on their first `k` bytes.
pub open spec fn same_prefix(a: Seq<u8>, b: Seq<u8>, k: int) -> bool {
    &&& 0 <= k <= a.len()
    &&& k <= b.len()
    &&& forall|j: int| 0 <= j < k ==> a[j] == b[j]
}

/// `a` comes strictly before `b`: at the first place where they differ, `a`
/// has ended or holds the smaller byte.
pub open spec fn bytes_before(a: Seq<u8>, b: Seq<u8>) -> bool {
    exists|k: int| #[trigger]
        same_prefix(a, b, k) && k < b.len() && (k == a.len() || a[k] < b[k])
}

/// The order of identifiers.
pub open spec fn id_before(a: Seq<char>, b: Seq<char>) -> bool {
    bytes_before(encode_utf8(a), encode_utf8(b))
}

/// No byte string comes before itself.
pub proof fn lemma_bytes_before_irreflexive(a: Seq<u8>)
    ensures
        !bytes_before(a, a),
{
}

/// The order on byte strings is transitive.
pub proof fn lemma_bytes_before_transitive(a: Seq<u8>, b: Seq<u8>, c: Seq<u8>)
    requires
        bytes_before(a, b),
        bytes_before(b, c),
    ensures
        bytes_before(a, c),
{
    let k1 = choose|k: int| #[trigger]
        same_prefix(a, b, k) && k < b.len() && (k == a.len() || a[k] < b[k]);
    let k2 = choose|k: int| #[trigger]
        same_prefix(b, c, k) && k < c.len() && (k == b.len() || b[k] < c[k]);
    let k = if k1 <= k2 { k1 } else { k2 };
    assert(same_prefix(a, c, k));
}

/// Two different byte strings are ordered one way or the other.
pub proof fn lemma_bytes_before_total(a: Seq<u8>, b: Seq<u8>)
    ensures
        a == b || bytes_before(a, b) || bytes_before(b, a),
    decreases a.len(),
{
    if a.len() == 0 {
        if b.len() > 0 {
            assert(same_prefix(a, b, 0));
        } else {
            assert(a =~= b);
        }
    } else if b.len() == 0 {
        assert(same_prefix(b, a, 0));
    } else if a[0] != b[0] {
        assert(same_prefix(a, b, 0));
        assert(same_prefix(b, a, 0));
    } else {
        let ra = a.drop_first();
        let rb = b.drop_first();
        lemma_bytes_before_total(ra, rb);
        if ra == rb {
            assert(a =~= seq![a[0]] + ra);
            assert(b =~= seq![b[0]] + rb);
        } else if bytes_before(ra, rb) {
            let k = choose|k: int| #[trigger]
                same_prefix(ra, rb, k) && k < rb.len() && (k == ra.len() || ra[k] < rb[k]);
            assert forall|j: int| 0 <= j < k + 1 implies a[j] == b[j] by {
                if j > 0 {
                    assert(ra[j - 1] == rb[j - 1]);
                }
            }
            assert(same_prefix(a, b, k + 1));
            assert(k + 1 == a.len() || a[k + 1] == ra[k]);
            assert(b[k + 1] == rb[k]);
        } else {
            let k = choose|k: int| #[trigger]
                same_prefix(rb, ra, k) && k < ra.len() && (k == rb.len() || rb[k] < ra[k]);
            assert forall|j: int| 0 <= j < k + 1 implies b[j] == a[j] by {
                if j > 0 {
                    assert(rb[j - 1] == ra[j - 1]);
                }
            }
            assert(same_prefix(b, a, k + 1));
            assert(k + 1 == b.len() || b[k + 1] == rb[k]);
            assert(a[k + 1] == ra[k]);
        }
    }
}

/// No identifier comes before itself.
pub proof fn lemma_id_before_irreflexive(a: Seq<char>)
    ensures
        !id_before(a, a),
{
    lemma_bytes_before_irreflexive(encode_utf8(a));
}

/// Of two identifiers at most one comes before the other.
pub proof fn lemma_id_before_asymmetric(a: Seq<char>, b: Seq<char>)
    requires
        id_before(a, b),
    ensures
        !id_before(b, a),
{
    if id_before(b, a) {
        lemma_bytes_before_transitive(encode_utf8(a), encode_utf8(b), encode_utf8(a));
        lemma_bytes_before_irreflexive(encode_utf8(a));
    }
}

/// The order of identifiers is transitive.
pub proof fn lemma_id_before_transitive(a: Seq<char>, b: Seq<char>, c: Seq<char>)
    requires
        id_before(a, b),
        id_before(b, c),
    ensures
        id_before(a, c),
{
    lemma_bytes_before_transitive(encode_utf8(a), encode_utf8(b), encode_utf8(c));
}

/// Two different identifiers are ordered one way or the other.
pub proof fn lemma_id_before_total(a: Seq<char>, b: Seq<char>)
    ensures
        a == b || id_before(a, b) || id_before(b, a),
{
    lemma_bytes_before_total(encode_utf8(a), encode_utf8(b));
    if encode_utf8(a) == encode_utf8(b) {
        encode_utf8_decode_utf8(a);
        encode_utf8_decode_utf8(b);
    }
}

/// Whether `a` comes strictly before `b` in the order of byte strings.
pub fn bytes_less(a: &[u8], b: &[u8]) -> (r: bool)
    ensures
        r == bytes_before(a@, b@),
{
    let mut i: usize = 0;
    while i < a.len() && i < b.len()
        invariant
            same_prefix(a@, b@, i as int),
        decreases a.len() - i,
    {
        if a[i] != b[i] {
            let r = a[i] < b[i];
            proof {
                if !r {
                    assert forall|k: int| #[trigger]
                        same_prefix(a@, b@, k) && k < b@.len() implies !(k == a@.len() || a@[k]
                        < b@[k]) by {
                        if k > i {
                            assert(a@[i as int] == b@[i as int]);
                        }
                    }
                }
            }
            return r;
        }
        i += 1;
    }
    proof {
        if i < b.len() {
            assert(same_prefix(a@, b@, i as int));
        } else {
            assert forall|k: int| #[trigger]
                same_prefix(a@, b@, k) && k < b@.len() implies !(k == a@.len() || a@[k] < b@[k]) by {
            }
        }
    }
    i < b.len()
}

/// Whether identifier `a` comes strictly before identifier `b`.
pub fn id_less(a: &str, b: &str) -> (r: bool)
    ensures
        r == id_before(a@, b@),
{
    bytes_less(a.as_bytes(), b.as_bytes())
}

/// Whether two byte strings hold the same bytes.
pub fn bytes_equal(a: &[u8], b: &[u8]) -> (r: bool)
    ensures
        r == (a@ == b@),
{
    if a.len() != b.len() {
        return false;
    }
    let mut i: usize = 0;
    while i < a.len()
        invariant
            a@.len() == b@.len(),
            same_prefix(a@, b@, i as int),
        decreases a.len() - i,
    {
        if a[i] != b[i] {
            return false;
        }
        i += 1;
    }
    assert(a@ =~= b@);
    true
}

/// Whether two texts hold the same characters.
pub fn same_text(a: &str, b: &str) -> (r: bool)
    ensures
        r == (a@ == b@),
{
    proof {
        encode_utf8_decode_utf8(a@);
        encode_utf8_decode_utf8(b@);
    }
    bytes_equal(a.as_bytes(), b.as_bytes())
}

} // verus!
