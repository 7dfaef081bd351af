//! The data model shared by all transforms: a column is an ordered,
//! index-addressable sequence of nullable strings, modelled as
//! `Seq<Option<Seq<char>>>`.

use vstd::prelude::*;

verus! {

/// A borrowed view of a column is `&Column`; transforms produce a freshly
/// owned output column of equal length.
pub type Column = Vec<Option<String>>;

/// The values of the non-null elements of a column, in index order.
pub open spec fn non_null_values(c: Seq<Option<Seq<char>>>) -> Seq<Seq<char>>
    decreases c.len(),
{
    if c.len() == 0 {
        Seq::empty()
    } else {
        match c.last() {
            Some(v) => non_null_values(c.drop_last()).push(v),
            None => non_null_values(c.drop_last()),
        }
    }
}

/// How many elements of the column are non-null.
pub open spec fn count_non_null(c: Seq<Option<Seq<char>>>) -> nat {
    non_null_values(c).len()
}

/// The position of index `i` within the non-null subsequence of `c`.
pub open spec fn rank(c: Seq<Option<Seq<char>>>, i: int) -> nat {
    count_non_null(c.take(i))
}

/// The column obtained by writing `vals` back over the non-null positions
/// of `c`, in order, leaving every null position null.
pub open spec fn scatter_spec(c: Seq<Option<Seq<char>>>, vals: Seq<Seq<char>>) -> Seq<
    Option<Seq<char>>,
> {
    Seq::new(
        c.len(),
        |i: int|
            if c[i] is None {
                None
            } else {
                Some(vals[rank(c, i) as int])
            },
    )
}

/// Extending a prefix of `c` by one element extends its non-null values by
/// that element exactly when it is non-null.
pub proof fn lemma_non_null_values_take_step(c: Seq<Option<Seq<char>>>, i: int)
    requires
        0 <= i < c.len(),
    ensures
        non_null_values(c.take(i + 1)) == match c[i] {
            Some(v) => non_null_values(c.take(i)).push(v),
            None => non_null_values(c.take(i)),
        },
{
    assert(c.take(i + 1).drop_last() =~= c.take(i));
    assert(c.take(i + 1).last() == c[i]);
}

/// A shorter prefix never has more non-null elements than a longer one.
pub proof fn lemma_count_take_le_prefix(c: Seq<Option<Seq<char>>>, a: int, b: int)
    requires
        0 <= a <= b <= c.len(),
    ensures
        count_non_null(c.take(a)) <= count_non_null(c.take(b)),
    decreases b - a,
{
    if a < b {
        lemma_non_null_values_take_step(c, a);
        lemma_count_take_le_prefix(c, a + 1, b);
    }
}

/// A prefix of a column never has more non-null elements than the whole.
pub proof fn lemma_count_take_le(c: Seq<Option<Seq<char>>>, i: int)
    requires
        0 <= i <= c.len(),
    ensures
        count_non_null(c.take(i)) <= count_non_null(c),
{
    lemma_count_take_le_prefix(c, i, c.len() as int);
    assert(c.take(c.len() as int) =~= c);
}

/// At a non-null position, the rank is a valid index into the non-null
/// values of the whole column.
pub proof fn lemma_rank_lt(c: Seq<Option<Seq<char>>>, i: int)
    requires
        0 <= i < c.len(),
        c[i] is Some,
    ensures
        rank(c, i) < count_non_null(c),
{
    lemma_non_null_values_take_step(c, i);
    lemma_count_take_le(c, i + 1);
}

/// A column has no non-null elements exactly when every element is null.
pub proof fn lemma_all_null_iff_count_zero(c: Seq<Option<Seq<char>>>)
    ensures
        (forall|i: int| 0 <= i < c.len() ==> c[i] is None) <==> count_non_null(c) == 0,
    decreases c.len(),
{
    if c.len() > 0 {
        let d = c.drop_last();
        lemma_all_null_iff_count_zero(d);
        assert(forall|i: int| 0 <= i < d.len() ==> d[i] == c[i]);
        if c.last() is None && count_non_null(d) == 0 {
            assert(forall|i: int| 0 <= i < c.len() ==> c[i] is None) by {
                assert(forall|i: int| 0 <= i < c.len() - 1 ==> c[i] == d[i] && d[i] is None);
            }
        }
    }
}

} // verus!
