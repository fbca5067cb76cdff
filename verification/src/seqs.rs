use vstd::prelude::*;

verus! {

/// One more element of a sequence adds it to the set of elements.
pub proof fn lemma_take_one_more<A>(s: Seq<A>, i: int)
    requires
        0 <= i < s.len(),
    ensures
        s.take(i + 1).to_set() == s.take(i).to_set().insert(s[i]),
        s.no_duplicates() ==> !s.take(i).to_set().contains(s[i]),
{
    assert forall|a: A| #[trigger] s.take(i).to_set().insert(s[i]).contains(a) implies s.take(
        i + 1,
    ).to_set().contains(a) by {
        if a == s[i] {
            assert(s.take(i + 1)[i] == a);
        } else {
            let j = s.take(i).index_of(a);
            assert(s.take(i + 1)[j] == a);
        }
    }
    assert forall|a: A| #[trigger] s.take(i + 1).to_set().contains(a) implies s.take(
        i,
    ).to_set().insert(s[i]).contains(a) by {
        let j = s.take(i + 1).index_of(a);
        if j < i {
            assert(s.take(i)[j] == a);
        }
    }
    assert(s.take(i + 1).to_set() =~= s.take(i).to_set().insert(s[i]));
}

/// Pushing an element adds it to the set of elements.
pub proof fn lemma_push_to_set<A>(s: Seq<A>, a: A)
    ensures
        s.push(a).to_set() == s.to_set().insert(a),
{
    lemma_take_one_more(s.push(a), s.len() as int);
    assert(s.push(a).take(s.len() as int) =~= s);
    assert(s.push(a).take(s.len() as int + 1) =~= s.push(a));
}

} // verus!
