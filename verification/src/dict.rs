//! The native dictionary transform: a pure, synchronous, in-process lookup
//! that replaces each non-null element through an immutable string-to-string
//! table, passes missing keys through unchanged, and never touches nulls.

use crate::column::Column;
use vstd::prelude::*;

verus! {

/// What one element becomes under mapping `m`: a null passes through, a
/// mapped key is replaced by its value, any other value passes through
/// unchanged (a missing key is not an error).
pub open spec fn dict_map_elem(m: Map<Seq<char>, Seq<char>>, e: Option<Seq<char>>) -> Option<
    Seq<char>,
> {
    match e {
        None => None,
        Some(v) => if m.contains_key(v) {
            Some(m[v])
        } else {
            Some(v)
        },
    }
}

/// The whole column mapped element-wise under `m`.
pub open spec fn dict_apply_spec(m: Map<Seq<char>, Seq<char>>, c: Seq<Option<Seq<char>>>) -> Seq<
    Option<Seq<char>>,
> {
    c.map_values(|e: Option<Seq<char>>| dict_map_elem(m, e))
}

/// The mathematical map held by a sequence of key-value pairs, a later pair
/// overriding an earlier one with the same key.
pub open spec fn pairs_to_map(ps: Seq<(Seq<char>, Seq<char>)>) -> Map<Seq<char>, Seq<char>>
    decreases ps.len(),
{
    if ps.len() == 0 {
        Map::empty()
    } else {
        pairs_to_map(ps.drop_last()).insert(ps.last().0, ps.last().1)
    }
}

/// Extending a prefix of `ps` by one pair inserts that pair's binding.
pub proof fn lemma_pairs_to_map_take_step(ps: Seq<(Seq<char>, Seq<char>)>, i: int)
    requires
        0 <= i < ps.len(),
    ensures
        pairs_to_map(ps.take(i + 1)) == pairs_to_map(ps.take(i)).insert(ps[i].0, ps[i].1),
{
    assert(ps.take(i + 1).drop_last() =~= ps.take(i));
    assert(ps.take(i + 1).last() == ps[i]);
}

/// An immutable key-to-value table, built once when the transform is
/// constructed and read-only afterwards, so that a single instance may serve
/// any number of chunk invocations concurrently.
pub struct DictionaryMapper {
    pairs: Vec<(String, String)>,
}

impl DictionaryMapper {
    /// The table as a mathematical map from key to value.
    pub closed spec fn mapping(&self) -> Map<Seq<char>, Seq<char>> {
        pairs_to_map(self.pairs.deep_view())
    }

    /// An empty table: every value passes through unchanged.
    pub fn new() -> (d: DictionaryMapper)
        ensures
            d.mapping() == Map::<Seq<char>, Seq<char>>::empty(),
    {
        let d = DictionaryMapper { pairs: Vec::new() };
        proof {
            assert(d.pairs.deep_view() =~= Seq::<(Seq<char>, Seq<char>)>::empty());
        }
        d
    }

    /// Adds one binding while the table is being built; a key bound twice
    /// keeps the value given last.
    pub fn insert(&mut self, key: String, value: String)
        ensures
            final(self).mapping() == old(self).mapping().insert(key@, value@),
    {
        let ghost kv = key@;
        let ghost vv = value@;
        let ghost before = self.pairs.deep_view();
        self.pairs.push((key, value));
        proof {
            let after = self.pairs.deep_view();
            assert(after.drop_last() =~= before);
            assert(after.last() == (kv, vv));
        }
    }

    /// Looks `key` up in the table: its bound value, or `None` where the
    /// table has no binding for it.
    pub fn get<'a>(&'a self, key: &String) -> (r: Option<&'a String>)
        ensures
            match r {
                Some(v) => self.mapping().contains_key(key@) && v@ == self.mapping()[key@],
                None => !self.mapping().contains_key(key@),
            },
    {
        let ghost ps = self.pairs.deep_view();
        let mut found: Option<&'a String> = None;
        let ghost target = key@;
        let n = self.pairs.len();
        for i in 0..n
            invariant
                n == self.pairs.len(),
                ps == self.pairs.deep_view(),
                target == key@,
                match found {
                    Some(v) => pairs_to_map(ps.take(i as int)).contains_key(target)
                        && v@ == pairs_to_map(ps.take(i as int))[target],
                    None => !pairs_to_map(ps.take(i as int)).contains_key(target),
                },
        {
            proof {
                lemma_pairs_to_map_take_step(ps, i as int);
                assert(ps[i as int] == (self.pairs@[i as int].0@, self.pairs@[i as int].1@));
            }
            if self.pairs[i].0 == *key {
                found = Some(&self.pairs[i].1);
            }
        }
        proof {
            assert(ps.take(n as int) =~= ps);
        }
        found
    }

    /// Applies the table element-wise over a borrowed column, producing a
    /// fresh column: every null stays null, every mapped key is replaced,
    /// every other value passes through unchanged.
    pub fn apply(&self, col: &Column) -> (out: Column)
        ensures
            out.deep_view() == dict_apply_spec(self.mapping(), col.deep_view()),
    {
        let ghost c = col.deep_view();
        let ghost m = self.mapping();
        let mut out: Column = Vec::new();
        let n = col.len();
        for i in 0..n
            invariant
                n == col.len(),
                c == col.deep_view(),
                m == self.mapping(),
                out.len() == i,
                forall|k: int| 0 <= k < i ==> out.deep_view()[k] == dict_map_elem(m, c[k]),
        {
            let elem: Option<String> = match &col[i] {
                None => None,
                Some(v) => match self.get(v) {
                    Some(mapped) => Some(mapped.clone()),
                    None => Some(v.clone()),
                },
            };
            let ghost before = out@;
            let ghost before_dv = out.deep_view();
            proof {
                assert(elem.deep_view() == dict_map_elem(m, c[i as int]));
            }
            out.push(elem);
            proof {
                assert forall|k: int| 0 <= k < i + 1 implies out.deep_view()[k] == dict_map_elem(
                    m,
                    c[k],
                ) by {
                    if k < i {
                        assert(out@[k] == before[k]);
                        assert(before_dv[k] == before[k].deep_view());
                        assert(before_dv[k] == dict_map_elem(m, c[k]));
                    } else {
                        assert(out@[k] == elem);
                    }
                }
            }
        }
        proof {
            assert(out.deep_view() =~= dict_apply_spec(m, c));
        }
        out
    }
}

/// Every non-null value is replaced by its mapped value where the mapping
/// binds it, and passes through unchanged where it does not.
pub proof fn lemma_dict_maps_values(m: Map<Seq<char>, Seq<char>>, c: Seq<Option<Seq<char>>>, i: int)
    requires
        0 <= i < c.len(),
        c[i] is Some,
    ensures
        dict_apply_spec(m, c)[i] == (if m.contains_key(c[i]->Some_0) {
            Some(m[c[i]->Some_0])
        } else {
            Some(c[i]->Some_0)
        }),
{
}

/// Null positions are preserved: an output element is null exactly where the
/// input element is.
pub proof fn lemma_dict_preserves_nulls(m: Map<Seq<char>, Seq<char>>, c: Seq<Option<Seq<char>>>)
    ensures
        dict_apply_spec(m, c).len() == c.len(),
        forall|i: int|
            0 <= i < c.len() ==> (#[trigger] dict_apply_spec(m, c)[i] is None <==> c[i] is None),
{
}

/// An empty mapping is pure pass-through: the column comes back unchanged.
pub proof fn lemma_dict_empty_mapping_identity(c: Seq<Option<Seq<char>>>)
    ensures
        dict_apply_spec(Map::<Seq<char>, Seq<char>>::empty(), c) == c,
{
    let m = Map::<Seq<char>, Seq<char>>::empty();
    assert forall|i: int| 0 <= i < c.len() implies dict_apply_spec(m, c)[i] == c[i] by {
        assert(dict_apply_spec(m, c)[i] == dict_map_elem(m, c[i]));
    }
    assert(dict_apply_spec(m, c) =~= c);
}

/// Applying the same mapping twice equals applying it once, whenever the
/// mapping's image is disjoint from its domain.
pub proof fn lemma_dict_idempotent(m: Map<Seq<char>, Seq<char>>, c: Seq<Option<Seq<char>>>)
    requires
        forall|k: Seq<char>| m.contains_key(k) ==> !m.contains_key(#[trigger] m[k]),
    ensures
        dict_apply_spec(m, dict_apply_spec(m, c)) == dict_apply_spec(m, c),
{
    let once = dict_apply_spec(m, c);
    let twice = dict_apply_spec(m, once);
    assert forall|i: int| 0 <= i < c.len() implies twice[i] == once[i] by {
        assert(once[i] == dict_map_elem(m, c[i]));
        assert(twice[i] == dict_map_elem(m, once[i]));
    }
    assert(twice =~= once);
}

} // verus!
