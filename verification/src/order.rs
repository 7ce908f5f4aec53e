//! Dictionary order on words, letters compared by their code points; it keeps the
//! remembered answers in one order whatever order the words were searched in.

use vstd::prelude::*;

verus! {

/// `a` and `b` agree on their first `k` letters, and at `k` either `a` has ended while
/// `b` goes on, or `a`'s letter is the smaller one.
pub open spec fn before_at(a: Seq<char>, b: Seq<char>, k: int) -> bool {
    &&& 0 <= k <= a.len()
    &&& k < b.len()
    &&& forall|i: int| 0 <= i < k ==> a[i] == b[i]
    &&& (k == a.len() || a[k] < b[k])
}

/// `a` comes strictly before `b` in dictionary order.
pub open spec fn word_before(a: Seq<char>, b: Seq<char>) -> bool {
    exists|k: int| #[trigger] before_at(a, b, k)
}

/// No word comes before itself.
pub proof fn lemma_word_before_irreflexive(a: Seq<char>)
    ensures
        !word_before(a, a),
{
    if word_before(a, a) {
        let k = choose|k: int| #[trigger] before_at(a, a, k);
    }
}

/// Dictionary order is transitive.
pub proof fn lemma_word_before_transitive(a: Seq<char>, b: Seq<char>, c: Seq<char>)
    requires
        word_before(a, b),
        word_before(b, c),
    ensures
        word_before(a, c),
{
    let k1 = choose|k: int| #[trigger] before_at(a, b, k);
    let k2 = choose|k: int| #[trigger] before_at(b, c, k);
    if k1 <= k2 {
        if k1 < k2 {
            assert(b[k1] == c[k1]);
        }
        assert(before_at(a, c, k1));
    } else {
        assert(a[k2] == b[k2]);
        assert(before_at(a, c, k2));
    }
}

/// Compares `a` and `b` in dictionary order: negative when `a` comes first, zero when
/// they are the same word, positive when `b` comes first.
pub fn compare_words(a: &Vec<char>, b: &Vec<char>) -> (r: i8)
    ensures
        (r == 0) == (a@ == b@),
        r < 0 ==> word_before(a@, b@),
        r > 0 ==> word_before(b@, a@),
{
    let mut k: usize = 0;
    while k < a.len() && k < b.len() && a[k] == b[k]
        invariant
            k <= a.len(),
            k <= b.len(),
            forall|i: int| 0 <= i < k ==> a@[i] == b@[i],
        decreases a.len() - k,
    {
        k += 1;
    }
    if k == a.len() && k == b.len() {
        assert(a@ =~= b@);
        0
    } else if k == a.len() {
        assert(before_at(a@, b@, k as int));
        -1
    } else if k == b.len() {
        assert(before_at(b@, a@, k as int));
        1
    } else if a[k] < b[k] {
        assert(before_at(a@, b@, k as int));
        -1
    } else {
        assert(a@[k as int] != b@[k as int]);
        assert(before_at(b@, a@, k as int));
        1
    }
}

} // verus!
