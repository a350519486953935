use vstd::prelude::*;

verus! {

/// Facts about sequences of uniquely named entries, shared by the
/// name-keyed palette and spritesheet stores.

/// Two entry sequences with the same names contain the same names.
pub proof fn lemma_same_names_same_contains<V>(
    e1: Seq<(Seq<char>, V)>,
    e2: Seq<(Seq<char>, V)>,
    n: Seq<char>,
)
    requires
        e1.len() == e2.len(),
        forall|j: int| 0 <= j < e1.len() ==> (#[trigger] e1[j]).0 == e2[j].0,
    ensures
        (exists|i: int| 0 <= i < e1.len() && (#[trigger] e1[i]).0 == n) == (exists|i: int|
            0 <= i < e2.len() && (#[trigger] e2[i]).0 == n),
{
    if exists|i: int| 0 <= i < e1.len() && (#[trigger] e1[i]).0 == n {
        let i = choose|i: int| 0 <= i < e1.len() && (#[trigger] e1[i]).0 == n;
        assert(e2[i].0 == n);
    }
    if exists|i: int| 0 <= i < e2.len() && (#[trigger] e2[i]).0 == n {
        let i = choose|i: int| 0 <= i < e2.len() && (#[trigger] e2[i]).0 == n;
        assert(e1[i].0 == n);
    }
}

/// In a sequence of uniquely named entries, the index chosen for a name is
/// the index that holds it.
pub proof fn lemma_unique_lookup<V>(entries: Seq<(Seq<char>, V)>, i: int)
    requires
        0 <= i < entries.len(),
        forall|a: int, b: int|
            0 <= a < b < entries.len() ==> (#[trigger] entries[a]).0 != (#[trigger] entries[b]).0,
    ensures
        (choose|j: int| 0 <= j < entries.len() && (#[trigger] entries[j]).0 == entries[i].0) == i,
{
    let name = entries[i].0;
    assert(exists|j: int| 0 <= j < entries.len() && (#[trigger] entries[j]).0 == name);
    let j = choose|j: int| 0 <= j < entries.len() && (#[trigger] entries[j]).0 == name;
    if j < i {
        assert((entries[j]).0 != (entries[i]).0);
    } else if i < j {
        assert((entries[i]).0 != (entries[j]).0);
    }
}

} // verus!
