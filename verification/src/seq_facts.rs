//! Small ambient facts about sequence concatenation, used by the proofs that
//! relate loop-built output buffers to their specification text.
use vstd::prelude::*;

verus! {

pub broadcast proof fn concat_assoc<A>(a: Seq<A>, b: Seq<A>, c: Seq<A>)
    ensures
        #[trigger] ((a + b) + c) == a + (b + c),
{
    assert((a + b) + c =~= a + (b + c));
}

pub broadcast proof fn concat_empty_left<A>(a: Seq<A>)
    ensures
        #[trigger] (Seq::<A>::empty() + a) == a,
{
    assert(Seq::<A>::empty() + a =~= a);
}

pub broadcast proof fn concat_empty_right<A>(a: Seq<A>)
    ensures
        #[trigger] (a + Seq::<A>::empty()) == a,
{
    assert(a + Seq::<A>::empty() =~= a);
}

pub broadcast group group_concat {
    concat_assoc,
    concat_empty_left,
    concat_empty_right,
}

} // verus!
