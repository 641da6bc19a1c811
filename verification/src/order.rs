//! Order facts for the ordered std collections keyed by integers.
use vstd::prelude::*;
use vstd::std_specs::cmp::OrdSpec;

verus! {

/// Axioms of ordered maps and sets together with the order laws of integer keys.
pub broadcast group group_key_order {
    vstd::std_specs::btree::group_btree_axioms,
    vstd::laws_cmp::group_laws_cmp,
}

/// Keys of an ordered-map iteration over `i32` keys strictly increase.
pub proof fn lemma_increasing_i32_keys<V>(s: Seq<(&i32, &V)>)
    requires
        vstd::std_specs::btree::increasing_seq(s.map_values(|kv: (&i32, &V)| *kv.0)),
    ensures
        forall|i: int, j: int| 0 <= i < j < s.len() ==> *s[i].0 < *s[j].0,
{
    broadcast use group_key_order;

    let keys = s.map_values(|kv: (&i32, &V)| *kv.0);
    assert forall|i: int, j: int| 0 <= i < j < s.len() implies *s[i].0 < *s[j].0 by {
        assert(keys[i].cmp_spec(&keys[j]) is Less);
    }
}

/// Keys of an ordered-map iteration over `u64` keys strictly increase.
pub proof fn lemma_increasing_u64_keys<V>(s: Seq<(&u64, &V)>)
    requires
        vstd::std_specs::btree::increasing_seq(s.map_values(|kv: (&u64, &V)| *kv.0)),
    ensures
        forall|i: int, j: int| 0 <= i < j < s.len() ==> *s[i].0 < *s[j].0,
{
    broadcast use group_key_order;

    let keys = s.map_values(|kv: (&u64, &V)| *kv.0);
    assert forall|i: int, j: int| 0 <= i < j < s.len() implies *s[i].0 < *s[j].0 by {
        assert(keys[i].cmp_spec(&keys[j]) is Less);
    }
}

/// Elements of an ordered-set iteration over `u64` strictly increase.
pub proof fn lemma_increasing_u64_elements(s: Seq<&u64>)
    requires
        vstd::std_specs::btree::increasing_seq(s),
    ensures
        forall|i: int, j: int| 0 <= i < j < s.len() ==> *s[i] < *s[j],
{
    broadcast use group_key_order;

    assert(vstd::laws_cmp::obeys_cmp::<&u64>());
    assert forall|i: int, j: int| 0 <= i < j < s.len() implies *s[i] < *s[j] by {
        assert(OrdSpec::cmp_spec(&s[i], &s[j]) is Less);
    }
}


/// Lexicographic order of `(offset, session)` pairs.
pub open spec fn pair_lt(a: (u64, u32), b: (u64, u32)) -> bool {
    a.0 < b.0 || (a.0 == b.0 && a.1 < b.1)
}

/// Elements of an ordered-set iteration over `(u64, u32)` pairs strictly increase.
pub proof fn lemma_increasing_pair_elements(s: Seq<&(u64, u32)>)
    requires
        vstd::std_specs::btree::increasing_seq(s),
    ensures
        forall|i: int, j: int| 0 <= i < j < s.len() ==> pair_lt(*s[i], *s[j]),
{
    broadcast use group_key_order;

    assert(vstd::laws_cmp::obeys_cmp::<(u64, u32)>());
    assert(vstd::laws_cmp::obeys_cmp::<&(u64, u32)>());
    assert forall|i: int, j: int| 0 <= i < j < s.len() implies pair_lt(*s[i], *s[j]) by {
        assert(OrdSpec::cmp_spec(&s[i], &s[j]) is Less);
    }
}

} // verus!
