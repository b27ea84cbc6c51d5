//! Identifier helpers: lexicographic ordering of identifiers (used to make
//! scheduling tie-breaks deterministic) and membership tests on identifier
//! lists.

use vstd::prelude::*;
use vstd::string::StrSliceExecFns;

use crate::txn::views_of_ids;

verus! {

/// Lexicographic "strictly less" on character sequences, comparing
/// characters by scalar value; a proper prefix sorts first.
pub open spec fn lex_lt(a: Seq<char>, b: Seq<char>) -> bool
    decreases a.len(),
{
    if b.len() == 0 {
        false
    } else if a.len() == 0 {
        true
    } else if a[0] != b[0] {
        (a[0] as u32) < (b[0] as u32)
    } else {
        lex_lt(a.drop_first(), b.drop_first())
    }
}

/// Comparing two sequences that agree on their first `i` characters is
/// the same as comparing what follows.
proof fn lemma_lex_skip(a: Seq<char>, b: Seq<char>, i: int)
    requires
        0 <= i <= a.len(),
        i <= b.len(),
        forall|j: int| 0 <= j < i ==> a[j] == b[j],
    ensures
        lex_lt(a, b) == lex_lt(a.skip(i), b.skip(i)),
    decreases i,
{
    if i > 0 {
        assert(a[0] == b[0]);
        assert(forall|j: int| 0 <= j < i - 1 ==> a.drop_first()[j] == b.drop_first()[j]);
        lemma_lex_skip(a.drop_first(), b.drop_first(), i - 1);
        assert(a.drop_first().skip(i - 1) =~= a.skip(i));
        assert(b.drop_first().skip(i - 1) =~= b.skip(i));
    } else {
        assert(a.skip(0) =~= a);
        assert(b.skip(0) =~= b);
    }
}

/// Whether `a` sorts strictly before `b` in lexicographic order.
pub fn str_lt(a: &String, b: &String) -> (r: bool)
    ensures
        r == lex_lt(a@, b@),
{
    let la: usize = a.as_str().unicode_len();
    let lb: usize = b.as_str().unicode_len();
    let mut i: usize = 0;
    while i < la && i < lb
        invariant
            la == a@.len(),
            lb == b@.len(),
            i <= la,
            i <= lb,
            forall|j: int| 0 <= j < i ==> a@[j] == b@[j],
        decreases la - i,
    {
        let ca: char = a.as_str().get_char(i);
        let cb: char = b.as_str().get_char(i);
        if ca != cb {
            proof {
                lemma_lex_skip(a@, b@, i as int);
                assert(a@.skip(i as int)[0] == a@[i as int]);
                assert(b@.skip(i as int)[0] == b@[i as int]);
            }
            return (ca as u32) < (cb as u32);
        }
        i = i + 1;
    }
    proof {
        lemma_lex_skip(a@, b@, i as int);
    }
    la < lb
}

/// Whether the identifier `x` occurs in the list `ids`.
pub open spec fn id_in(ids: Seq<Seq<char>>, x: Seq<char>) -> bool {
    exists|i: int| 0 <= i < ids.len() && ids[i] == x
}

/// Linear membership scan over a list of identifiers.
pub fn contains_str(v: &Vec<String>, x: &String) -> (r: bool)
    ensures
        r == id_in(views_of_ids(v@), x@),
{
    let mut i: usize = 0;
    while i < v.len()
        invariant
            i <= v.len(),
            forall|j: int| 0 <= j < i ==> #[trigger] v@[j]@ != x@,
        decreases v.len() - i,
    {
        if v[i] == *x {
            proof {
                assert(views_of_ids(v@)[i as int] == x@);
            }
            return true;
        }
        i = i + 1;
    }
    proof {
        assert forall|j: int| 0 <= j < views_of_ids(v@).len() implies views_of_ids(v@)[j] != x@ by {
            assert(v@[j]@ != x@);
        }
    }
    false
}


} // verus!
