//! The host-callback transform: bridges a column transform to a
//! caller-supplied function living outside the engine's native execution
//! context, handling marshaling, null preservation, strict index order and
//! fail-fast error propagation. The host callback is reached only through
//! an exclusive borrow, which is the single-owner dispatch discipline: one
//! in-flight call at a time per callback handle.

use crate::column::{
    count_non_null, lemma_all_null_iff_count_zero, lemma_count_take_le_prefix,
    lemma_non_null_values_take_step, lemma_rank_lt, non_null_values, rank, scatter_spec, Column,
};
use vstd::prelude::*;

verus! {

/// What the host reports when an invocation does not produce a batch:
/// the callback raised for a given input, or the crossing timed out.
#[derive(Debug, PartialEq, Eq)]
pub enum HostError {
    Threw { input: String, message: String },
    Timeout,
}

/// Why an `apply` call failed as a whole; no partial column is ever
/// returned alongside one of these.
#[derive(Debug, PartialEq, Eq)]
pub enum MapError {
    /// The host callback reported failure for a given input value.
    CallbackThrew { input: String, message: String },
    /// The host returned something that does not convert back into a
    /// column slot: a batch of the wrong length, or a null for a value.
    TypeMismatch,
    /// The crossing into the host did not return within the configured
    /// timeout.
    BoundaryTimeout,
    /// The engine asked for the query to be abandoned between chunks.
    Cancelled,
}

/// A caller-supplied function living outside the engine: invoked
/// synchronously on an ordered batch of values, it returns one output slot
/// per input value, in the same order, or a host-side error. Nothing is
/// assumed of an implementation; whatever it returns is validated by the
/// verified code around it. The `&mut self` receiver serializes crossings:
/// a handle can carry at most one in-flight call.
pub trait ExternalCallback {
    fn invoke(&mut self, batch: &Vec<String>) -> Result<Vec<Option<String>>, HostError>;
}

/// The engine's cancellation signal, polled between chunk invocations and
/// never mid-chunk, so a chunk's host-side effects are all or nothing.
pub trait CancelSignal {
    fn is_cancelled(&mut self) -> bool;
}

/// How many boundary crossings an `apply` call makes: one per non-null
/// element, or one for the whole chunk.
#[derive(Debug, Clone, Copy, PartialEq, Eq)]
pub enum Granularity {
    PerElement,
    PerChunk,
}

/// Translates a host-side error into the transform's failure taxonomy.
pub open spec fn host_error_to_map_error(e: HostError) -> MapError {
    match e {
        HostError::Threw { input, message } => MapError::CallbackThrew { input, message },
        HostError::Timeout => MapError::BoundaryTimeout,
    }
}

fn map_host_error(e: HostError) -> (r: MapError)
    ensures
        r == host_error_to_map_error(e),
{
    match e {
        HostError::Threw { input, message } => MapError::CallbackThrew { input, message },
        HostError::Timeout => MapError::BoundaryTimeout,
    }
}

/// Converts what the host returned for a single value into that value's
/// output slot: exactly one non-null slot converts back, any other shape
/// is a `TypeMismatch`.
fn single_slot(returned: Vec<Option<String>>) -> (r: Result<String, MapError>)
    ensures
        r is Ok <==> (returned.deep_view().len() == 1 && returned.deep_view()[0] is Some),
        r matches Ok(s) ==> Some(s@) == returned.deep_view()[0],
        r matches Err(e) ==> e is TypeMismatch,
{
    if returned.len() != 1 {
        return Err(MapError::TypeMismatch);
    }
    match &returned[0] {
        Some(s) => Ok(s.clone()),
        None => Err(MapError::TypeMismatch),
    }
}

/// The non-null subsequence of a column: what is marshaled across the
/// boundary under per-chunk batching.
pub fn gather_non_null(col: &Column) -> (batch: Vec<String>)
    ensures
        batch.deep_view() == non_null_values(col.deep_view()),
{
    let ghost c = col.deep_view();
    let mut batch: Vec<String> = Vec::new();
    let n = col.len();
    for i in 0..n
        invariant
            n == col.len(),
            c == col.deep_view(),
            batch.deep_view() == non_null_values(c.take(i as int)),
    {
        let ghost before = batch.deep_view();
        proof {
            lemma_non_null_values_take_step(c, i as int);
        }
        match &col[i] {
            None => {},
            Some(v) => {
                batch.push(v.clone());
                proof {
                    assert(batch.deep_view() =~= before.push(v@));
                }
            },
        }
    }
    proof {
        assert(c.take(n as int) =~= c);
    }
    batch
}

/// Scatters a returned batch back over the non-null positions of the input
/// column. Succeeds exactly when the batch has one non-null slot per
/// non-null input element; any other shape is a `TypeMismatch`, and
/// nothing partial is returned.
pub fn scatter(col: &Column, results: Vec<Option<String>>) -> (r: Result<Column, MapError>)
    ensures
        r is Ok <==> (results.deep_view().len() == count_non_null(col.deep_view()) && (forall|
            j: int,
        |
            0 <= j < results.deep_view().len() ==> results.deep_view()[j] is Some)),
        r matches Ok(out) ==> out.deep_view() == scatter_spec(
            col.deep_view(),
            results.deep_view().map_values(
                |e: Option<Seq<char>>|
                    match e {
                        Some(v) => v,
                        None => Seq::empty(),
                    },
            ),
        ),
        r matches Err(e) ==> e is TypeMismatch,
{
    let ghost c = col.deep_view();
    let ghost rs = results.deep_view();
    let ghost vals = rs.map_values(
        |e: Option<Seq<char>>|
            match e {
                Some(v) => v,
                None => Seq::empty(),
            },
    );
    let n = col.len();

    let mut cnt: usize = 0;
    for i in 0..n
        invariant
            n == col.len(),
            c == col.deep_view(),
            cnt == count_non_null(c.take(i as int)),
            cnt <= i,
    {
        proof {
            lemma_non_null_values_take_step(c, i as int);
        }
        if col[i].is_some() {
            cnt = cnt + 1;
        }
    }
    proof {
        assert(c.take(n as int) =~= c);
    }
    if results.len() != cnt {
        return Err(MapError::TypeMismatch);
    }
    let mut out: Column = Vec::new();
    let mut j: usize = 0;
    for i in 0..n
        invariant
            n == col.len(),
            c == col.deep_view(),
            rs == results.deep_view(),
            vals == rs.map_values(
                |e: Option<Seq<char>>|
                    match e {
                        Some(v) => v,
                        None => Seq::empty(),
                    },
            ),
            rs.len() == count_non_null(c),
            j == count_non_null(c.take(i as int)),
            out.len() == i,
            forall|k: int| 0 <= k < j ==> rs[k] is Some,
            forall|k: int| 0 <= k < i ==> out.deep_view()[k] == scatter_spec(c, vals)[k],
    {
        let ghost before = out@;
        let ghost before_dv = out.deep_view();
        proof {
            lemma_non_null_values_take_step(c, i as int);
        }
        let ghost j0 = j as int;
        let elem: Option<String> = match &col[i] {
            None => None,
            Some(_) => {
                proof {
                    assert(c[i as int] is Some);
                    lemma_rank_lt(c, i as int);
                    assert(j < results.len());
                }
                match &results[j] {
                    None => {
                        proof {
                            assert(0 <= j0 < rs.len() && rs[j0] is None);
                        }
                        return Err(MapError::TypeMismatch);
                    },
                    Some(s) => {
                        proof {
                            assert(rs[j0] is Some);
                        }
                        j = j + 1;
                        Some(s.clone())
                    },
                }
            },
        };
        proof {
            assert(elem.deep_view() == scatter_spec(c, vals)[i as int]);
        }
        out.push(elem);
        proof {
            assert forall|k: int| 0 <= k < i + 1 implies out.deep_view()[k] == scatter_spec(
                c,
                vals,
            )[k] by {
                if k < i {
                    assert(out@[k] == before[k]);
                    assert(before_dv[k] == before[k].deep_view());
                    assert(before_dv[k] == scatter_spec(c, vals)[k]);
                } else {
                    assert(out@[k] == elem);
                }
            }
        }
    }
    proof {
        assert(c.take(n as int) =~= c);
        assert(out.deep_view() =~= scatter_spec(c, vals));
    }
    Ok(out)
}

/// The output column is the input with some ordered sequence of values, one
/// per non-null input element, written back over its non-null positions:
/// all that a successful `apply` can promise while nothing is assumed of
/// the callback itself.
pub open spec fn scattered_from(c: Seq<Option<Seq<char>>>, o: Seq<Option<Seq<char>>>) -> bool {
    exists|vals: Seq<Seq<char>>|
        vals.len() == count_non_null(c) && o == scatter_spec(c, vals)
}

/// Bridges a column transform to an external callback: gathers the non-null
/// values, crosses the boundary at the configured granularity, validates
/// whatever came back, and scatters it over the original null layout.
pub struct CallbackMapper {
    pub granularity: Granularity,
}

impl CallbackMapper {
    pub fn new(granularity: Granularity) -> (m: CallbackMapper)
        ensures
            m.granularity == granularity,
    {
        CallbackMapper { granularity }
    }

    /// Applies the callback over one chunk: every null stays null and is
    /// never marshaled; on success the output is the input's null layout
    /// filled, in strict index order, with what the callback returned; a
    /// chunk with no non-null element succeeds unchanged with no crossing;
    /// on any failure the whole call fails with no partial column.
    pub fn apply<C: ExternalCallback>(&self, col: &Column, cb: &mut C) -> (r: Result<
        Column,
        MapError,
    >)
        ensures
            r matches Ok(out) ==> scattered_from(col.deep_view(), out.deep_view()),
            count_non_null(col.deep_view()) == 0 ==> (r matches Ok(out) && out.deep_view()
                == col.deep_view()),
            r matches Err(e) ==> !(e is Cancelled),
    {
        match self.granularity {
            Granularity::PerChunk => self.apply_per_chunk(col, cb),
            Granularity::PerElement => self.apply_per_element(col, cb),
        }
    }

    fn apply_per_chunk<C: ExternalCallback>(&self, col: &Column, cb: &mut C) -> (r: Result<
        Column,
        MapError,
    >)
        ensures
            r matches Ok(out) ==> scattered_from(col.deep_view(), out.deep_view()),
            count_non_null(col.deep_view()) == 0 ==> (r matches Ok(out) && out.deep_view()
                == col.deep_view()),
            r matches Err(e) ==> !(e is Cancelled),
    {
        let ghost c = col.deep_view();
        let batch = gather_non_null(col);
        let results: Vec<Option<String>> = if batch.len() == 0 {
            Vec::new()
        } else {
            match cb.invoke(&batch) {
                Ok(rs) => rs,
                Err(e) => {
                    proof {
                        assert(count_non_null(c) != 0);
                    }
                    return Err(map_host_error(e));
                },
            }
        };
        let r = scatter(col, results);
        proof {
            if r is Ok {
                let vals = results.deep_view().map_values(
                    |e: Option<Seq<char>>|
                        match e {
                            Some(v) => v,
                            None => Seq::empty(),
                        },
                );
                assert(vals.len() == results.deep_view().len());
                assert(vals.len() == count_non_null(c));
                assert(r->Ok_0.deep_view() == scatter_spec(c, vals));
                assert(scattered_from(c, r->Ok_0.deep_view()));
            }
            if count_non_null(c) == 0 {
                assert(results.deep_view() =~= Seq::<Option<Seq<char>>>::empty());
                assert(r is Ok);
                lemma_all_null_iff_count_zero(c);
                assert(r->Ok_0.deep_view() =~= c);
            }
        }
        r
    }

    fn apply_per_element<C: ExternalCallback>(&self, col: &Column, cb: &mut C) -> (r: Result<
        Column,
        MapError,
    >)
        ensures
            r matches Ok(out) ==> scattered_from(col.deep_view(), out.deep_view()),
            count_non_null(col.deep_view()) == 0 ==> (r matches Ok(out) && out.deep_view()
                == col.deep_view()),
            r matches Err(e) ==> !(e is Cancelled),
    {
        let ghost c = col.deep_view();
        let mut out: Column = Vec::new();
        let ghost mut vals: Seq<Seq<char>> = Seq::empty();
        let n = col.len();
        for i in 0..n
            invariant
                n == col.len(),
                c == col.deep_view(),
                out.len() == i,
                vals.len() == count_non_null(c.take(i as int)),
                forall|k: int|
                    0 <= k < i ==> out.deep_view()[k] == (if c[k] is None {
                        None
                    } else {
                        Some(vals[rank(c, k) as int])
                    }),
        {
            let ghost before = out@;
            let ghost before_dv = out.deep_view();
            proof {
                lemma_non_null_values_take_step(c, i as int);
            }
            let elem: Option<String> = match &col[i] {
                None => None,
                Some(v) => {
                    let mut single: Vec<String> = Vec::new();
                    single.push(v.clone());
                    let returned = match cb.invoke(&single) {
                        Ok(rs) => rs,
                        Err(e) => {
                            proof {
                                lemma_rank_lt(c, i as int);
                            }
                            return Err(map_host_error(e));
                        },
                    };
                    match single_slot(returned) {
                        Err(e) => {
                            proof {
                                lemma_rank_lt(c, i as int);
                            }
                            return Err(e);
                        },
                        Ok(mapped) => {
                            proof {
                                vals = vals.push(mapped@);
                            }
                            Some(mapped)
                        },
                    }
                },
            };
            out.push(elem);
            proof {
                assert forall|k: int| 0 <= k < i + 1 implies out.deep_view()[k] == (if c[k]
                    is None {
                    None
                } else {
                    Some(vals[rank(c, k) as int])
                }) by {
                    if k < i {
                        assert(out@[k] == before[k]);
                        assert(before_dv[k] == before[k].deep_view());
                        if c[k] is Some {
                            lemma_rank_stable_in_prefix(c, k, i as int);
                        }
                    } else {
                        assert(out@[k] == elem);
                    }
                }
            }
        }
        proof {
            assert(c.take(n as int) =~= c);
            assert(out.deep_view() =~= scatter_spec(c, vals));
            assert(scattered_from(c, out.deep_view()));
            if count_non_null(c) == 0 {
                lemma_all_null_iff_count_zero(c);
                assert(out.deep_view() =~= c);
            }
        }
        Ok(out)
    }
}

impl CallbackMapper {
    /// Drives a whole column chunk by chunk: the cancellation signal is
    /// polled before each chunk and never mid-chunk, so a chunk's host-side
    /// effects are all or nothing; the first failure aborts the whole call
    /// with no partial output.
    pub fn apply_chunks<C: ExternalCallback, S: CancelSignal>(
        &self,
        chunks: &Vec<Column>,
        cb: &mut C,
        cancel: &mut S,
    ) -> (r: Result<Vec<Column>, MapError>)
        ensures
            r matches Ok(outs) ==> outs.len() == chunks.len() && forall|ci: int|
                0 <= ci < chunks.len() ==> scattered_from(
                    chunks@[ci].deep_view(),
                    #[trigger] outs@[ci].deep_view(),
                ),
            chunks@.len() == 0 ==> (r matches Ok(outs) && outs@.len() == 0),
    {
        let mut outs: Vec<Column> = Vec::new();
        let n = chunks.len();
        for i in 0..n
            invariant
                n == chunks.len(),
                outs.len() == i,
                forall|ci: int|
                    0 <= ci < i ==> scattered_from(
                        chunks@[ci].deep_view(),
                        #[trigger] outs@[ci].deep_view(),
                    ),
        {
            if cancel.is_cancelled() {
                return Err(MapError::Cancelled);
            }
            let ghost before = outs@;
            match self.apply(&chunks[i], cb) {
                Ok(out) => {
                    outs.push(out);
                    proof {
                        assert(forall|ci: int| 0 <= ci < i ==> outs@[ci] == before[ci]);
                    }
                },
                Err(e) => {
                    return Err(e);
                },
            }
        }
        Ok(outs)
    }
}

/// Whatever sequence the callback returned, a successful output has the
/// input's length and exactly the input's null positions.
pub proof fn lemma_scattered_shape(c: Seq<Option<Seq<char>>>, o: Seq<Option<Seq<char>>>)
    requires
        scattered_from(c, o),
    ensures
        o.len() == c.len(),
        forall|i: int| 0 <= i < c.len() ==> (o[i] is None <==> c[i] is None),
{
    let vals = choose|vals: Seq<Seq<char>>|
        vals.len() == count_non_null(c) && o == scatter_spec(c, vals);
    assert(o == scatter_spec(c, vals));
}

/// Order preservation: reading the non-null positions of a scattered column
/// left to right gives back exactly the sequence that was written into it.
pub proof fn lemma_scatter_order(c: Seq<Option<Seq<char>>>, vals: Seq<Seq<char>>)
    requires
        vals.len() == count_non_null(c),
    ensures
        non_null_values(scatter_spec(c, vals)) == vals,
    decreases c.len(),
{
    let o = scatter_spec(c, vals);
    if c.len() == 0 {
        assert(o =~= Seq::<Option<Seq<char>>>::empty());
        assert(vals =~= Seq::<Seq<char>>::empty());
    } else {
        let d = c.drop_last();
        let m = count_non_null(d);
        assert(c.take(c.len() - 1) =~= d);
        assert forall|i: int| 0 <= i < d.len() implies rank(c, i) == rank(d, i) by {
            assert(c.take(i) =~= d.take(i));
        }
        match c.last() {
            Some(v) => {
                let vals2 = vals.take(m as int);
                lemma_scatter_order(d, vals2);
                assert forall|i: int| 0 <= i < d.len() implies o.drop_last()[i] == scatter_spec(
                    d,
                    vals2,
                )[i] by {
                    if d[i] is Some {
                        lemma_rank_lt(d, i);
                    }
                }
                assert(o.drop_last() =~= scatter_spec(d, vals2));
                assert(o.last() == Some(vals[m as int]));
                assert(non_null_values(o) == vals2.push(vals[m as int]));
                assert(vals2.push(vals[m as int]) =~= vals);
            },
            None => {
                lemma_scatter_order(d, vals);
                assert forall|i: int| 0 <= i < d.len() implies o.drop_last()[i] == scatter_spec(
                    d,
                    vals,
                )[i] by {
                    assert(rank(c, i) == rank(d, i));
                }
                assert(o.drop_last() =~= scatter_spec(d, vals));
                assert(o.last() is None);
                assert(non_null_values(o) == non_null_values(o.drop_last()));
            },
        }
    }
}

/// The rank of a non-null position within a prefix is already final: later
/// elements cannot change it.
proof fn lemma_rank_stable_in_prefix(c: Seq<Option<Seq<char>>>, k: int, i: int)
    requires
        0 <= k < i <= c.len(),
        c[k] is Some,
    ensures
        rank(c, k) < count_non_null(c.take(i)),
{
    lemma_non_null_values_take_step(c, k);
    if k + 1 < i {
        lemma_count_take_le_prefix(c, k + 1, i);
    }
}

} // verus!
