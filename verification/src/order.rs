use vstd::prelude::*;
use vstd::string::StringSliceAdditionalSpecFns;

verus! {

/// Strict lexicographic order on byte sequences: the order in which output
/// names are emitted (for text, byte order and character order agree).
pub open spec fn lex_lt(a: Seq<u8>, b: Seq<u8>) -> bool
    decreases a.len(),
{
    if b.len() == 0 {
        false
    } else if a.len() == 0 {
        true
    } else if a[0] < b[0] {
        true
    } else if a[0] > b[0] {
        false
    } else {
        lex_lt(a.drop_first(), b.drop_first())
    }
}

pub proof fn lemma_lex_lt_asymmetric(a: Seq<u8>, b: Seq<u8>)
    requires
        lex_lt(a, b),
    ensures
        !lex_lt(b, a),
    decreases a.len(),
{
    if a.len() > 0 && b.len() > 0 && a[0] == b[0] {
        lemma_lex_lt_asymmetric(a.drop_first(), b.drop_first());
    }
}

/// Two byte sequences that neither precede one another are equal.
pub proof fn lemma_lex_lt_connected(a: Seq<u8>, b: Seq<u8>)
    requires
        !lex_lt(a, b),
        !lex_lt(b, a),
    ensures
        a == b,
    decreases a.len(),
{
    if a.len() == 0 || b.len() == 0 {
        assert(a =~= b);
    } else {
        assert(a[0] == b[0]);
        lemma_lex_lt_connected(a.drop_first(), b.drop_first());
        assert(a.drop_first().len() == b.drop_first().len());
        assert(a.len() == b.len());
        assert forall|i: int| 0 <= i < a.len() implies a[i] == b[i] by {
            if i > 0 {
                assert(a[i] == a.drop_first()[i - 1]);
                assert(b[i] == b.drop_first()[i - 1]);
            }
        }
        assert(a =~= b);
    }
}

pub proof fn lemma_lex_lt_transitive(a: Seq<u8>, b: Seq<u8>, c: Seq<u8>)
    requires
        lex_lt(a, b),
        lex_lt(b, c),
    ensures
        lex_lt(a, c),
    decreases a.len(),
{
    if a.len() > 0 && b.len() > 0 && c.len() > 0 && a[0] == b[0] && b[0] == c[0] {
        lemma_lex_lt_transitive(a.drop_first(), b.drop_first(), c.drop_first());
    }
}

/// Compares two strings in the byte-lexicographic order.
#[verifier::loop_isolation(false)]
pub fn str_lt(a: &str, b: &str) -> (r: bool)
    ensures
        r == lex_lt(a.spec_bytes(), b.spec_bytes()),
{
    let ab = a.as_bytes();
    let bb = b.as_bytes();
    let mut i: usize = 0;
    proof {
        assert(ab@.skip(0) =~= ab@);
        assert(bb@.skip(0) =~= bb@);
    }
    loop
        invariant
            i <= ab@.len(),
            i <= bb@.len(),
            lex_lt(a.spec_bytes(), b.spec_bytes()) == lex_lt(
                ab@.skip(i as int),
                bb@.skip(i as int),
            ),
        decreases ab@.len() - i,
    {
        proof {
            assert(ab@.skip(i as int).len() == ab@.len() - i);
            assert(bb@.skip(i as int).len() == bb@.len() - i);
        }
        if i >= ab.len() {
            return i < bb.len();
        }
        if i >= bb.len() {
            proof {
                assert(ab@.skip(i as int)[0] == ab@[i as int]);
            }
            return false;
        }
        let ca = ab[i];
        let cb = bb[i];
        proof {
            assert(ab@.skip(i as int)[0] == ab@[i as int]);
            assert(bb@.skip(i as int)[0] == bb@[i as int]);
        }
        if ca < cb {
            return true;
        }
        if ca > cb {
            return false;
        }
        proof {
            assert(ab@.skip(i as int).drop_first() =~= ab@.skip(i + 1));
            assert(bb@.skip(i as int).drop_first() =~= bb@.skip(i + 1));
        }
        i += 1;
    }
}

/// Two sequences that are strictly sorted by the same asymmetric order and
/// hold the same members are equal: what makes the projection reproducible.
pub proof fn lemma_strictly_sorted_same_members<A>(s1: Seq<A>, s2: Seq<A>, lt: spec_fn(A, A) -> bool)
    requires
        forall|i: int, j: int| 0 <= i < j < s1.len() ==> #[trigger] lt(s1[i], s1[j]),
        forall|i: int, j: int| 0 <= i < j < s2.len() ==> #[trigger] lt(s2[i], s2[j]),
        forall|x: A| s1.contains(x) <==> s2.contains(x),
        forall|x: A, y: A| #[trigger] lt(x, y) ==> !lt(y, x),
    ensures
        s1 =~= s2,
    decreases s1.len(),
{
    if s1.len() == 0 {
        if s2.len() > 0 {
            assert(s2.contains(s2[0]));
            assert(s1.contains(s2[0]));
        }
    } else {
        assert(s1.contains(s1[0]));
        assert(s2.contains(s1[0]));
        let k2 = choose|k: int| 0 <= k < s2.len() && s2[k] == s1[0];
        assert(s2.contains(s2[0]));
        let k1 = choose|k: int| 0 <= k < s1.len() && s1[k] == s2[0];
        if k2 > 0 {
            assert(lt(s2[0], s1[0]));
            if k1 > 0 {
                assert(lt(s1[0], s2[0]));
            }
            assert(false);
        }
        let t1 = s1.drop_first();
        let t2 = s2.drop_first();
        assert forall|i: int, j: int| 0 <= i < j < t1.len() implies #[trigger] lt(t1[i], t1[j]) by {
            assert(t1[i] == s1[i + 1] && t1[j] == s1[j + 1]);
        }
        assert forall|i: int, j: int| 0 <= i < j < t2.len() implies #[trigger] lt(t2[i], t2[j]) by {
            assert(t2[i] == s2[i + 1] && t2[j] == s2[j + 1]);
        }
        assert forall|x: A| t1.contains(x) implies t2.contains(x) by {
            let i = choose|i: int| 0 <= i < t1.len() && t1[i] == x;
            assert(s1[i + 1] == x);
            assert(s1.contains(x));
            assert(s2.contains(x));
            let j = choose|j: int| 0 <= j < s2.len() && s2[j] == x;
            if j == 0 {
                assert(lt(s1[0], s1[i + 1]));
            } else {
                assert(t2[j - 1] == x);
            }
        }
        assert forall|x: A| t2.contains(x) implies t1.contains(x) by {
            let i = choose|i: int| 0 <= i < t2.len() && t2[i] == x;
            assert(s2[i + 1] == x);
            assert(s2.contains(x));
            assert(s1.contains(x));
            let j = choose|j: int| 0 <= j < s1.len() && s1[j] == x;
            if j == 0 {
                assert(lt(s2[0], s2[i + 1]));
            } else {
                assert(t1[j - 1] == x);
            }
        }
        lemma_strictly_sorted_same_members(t1, t2, lt);
        assert forall|i: int| 0 <= i < s1.len() implies s1[i] == s2[i] by {
            if i > 0 {
                assert(t1[i - 1] == t2[i - 1]);
            }
        }
    }
}

} // verus!
