use column_transform::callback::{
    gather_non_null, scatter, CallbackMapper, CancelSignal, ExternalCallback, Granularity,
    HostError, MapError,
};

fn s(x: &str) -> Option<String> {
    Some(x.to_string())
}

/// Records every batch that crosses the boundary and applies a
/// string-to-string function to each value.
struct RecordingCallback<F: Fn(&str) -> String> {
    f: F,
    batches: Vec<Vec<String>>,
}

impl<F: Fn(&str) -> String> RecordingCallback<F> {
    fn new(f: F) -> Self {
        RecordingCallback { f, batches: Vec::new() }
    }

    fn crossings(&self) -> usize {
        self.batches.len()
    }
}

impl<F: Fn(&str) -> String> ExternalCallback for RecordingCallback<F> {
    fn invoke(&mut self, batch: &Vec<String>) -> Result<Vec<Option<String>>, HostError> {
        self.batches.push(batch.clone());
        Ok(batch.iter().map(|v| Some((self.f)(v))).collect())
    }
}

/// Reports failure for one poisoned input value, as a host callback that
/// throws would.
struct ThrowingCallback {
    poison: String,
}

impl ExternalCallback for ThrowingCallback {
    fn invoke(&mut self, batch: &Vec<String>) -> Result<Vec<Option<String>>, HostError> {
        for v in batch {
            if *v == self.poison {
                return Err(HostError::Threw {
                    input: v.clone(),
                    message: "host callback raised".to_string(),
                });
            }
        }
        Ok(batch.iter().map(|v| Some(v.clone())).collect())
    }
}

/// Returns a batch of the wrong length.
struct ShortCallback;

impl ExternalCallback for ShortCallback {
    fn invoke(&mut self, _batch: &Vec<String>) -> Result<Vec<Option<String>>, HostError> {
        Ok(vec![])
    }
}

/// Returns a null slot for every value.
struct NullingCallback;

impl ExternalCallback for NullingCallback {
    fn invoke(&mut self, batch: &Vec<String>) -> Result<Vec<Option<String>>, HostError> {
        Ok(batch.iter().map(|_| None).collect())
    }
}

/// Never answers in time.
struct TimingOutCallback;

impl ExternalCallback for TimingOutCallback {
    fn invoke(&mut self, _batch: &Vec<String>) -> Result<Vec<Option<String>>, HostError> {
        Err(HostError::Timeout)
    }
}

/// Cancels once a given number of chunks have been admitted.
struct CancelAfter {
    remaining: usize,
}

impl CancelSignal for CancelAfter {
    fn is_cancelled(&mut self) -> bool {
        if self.remaining == 0 {
            true
        } else {
            self.remaining -= 1;
            false
        }
    }
}

#[test]
fn per_chunk_uppercase_single_crossing() {
    let mut cb = RecordingCallback::new(|v: &str| v.to_uppercase());
    let mapper = CallbackMapper::new(Granularity::PerChunk);
    let input = vec![s("ab"), None, s("cd")];
    let output = mapper.apply(&input, &mut cb).unwrap();
    assert_eq!(output, vec![s("AB"), None, s("CD")]);
    // One crossing for the whole chunk, and none for the null element:
    // the marshaled batch holds only the two non-null values.
    assert_eq!(cb.crossings(), 1);
    assert_eq!(cb.batches[0], vec!["ab".to_string(), "cd".to_string()]);
}

#[test]
fn per_element_one_crossing_per_value() {
    let mut cb = RecordingCallback::new(|v: &str| v.to_uppercase());
    let mapper = CallbackMapper::new(Granularity::PerElement);
    let input = vec![s("ab"), None, s("cd")];
    let output = mapper.apply(&input, &mut cb).unwrap();
    assert_eq!(output, vec![s("AB"), None, s("CD")]);
    assert_eq!(cb.crossings(), 2);
    assert_eq!(cb.batches[0], vec!["ab".to_string()]);
    assert_eq!(cb.batches[1], vec!["cd".to_string()]);
}

#[test]
fn order_and_length_preserved_with_reversing_callback() {
    let mut cb = RecordingCallback::new(|v: &str| v.chars().rev().collect());
    let mapper = CallbackMapper::new(Granularity::PerChunk);
    let input = vec![s("abc"), None, s("de"), s("f")];
    let output = mapper.apply(&input, &mut cb).unwrap();
    assert_eq!(output.len(), input.len());
    assert_eq!(output, vec![s("cba"), None, s("ed"), s("f")]);
}

#[test]
fn throwing_callback_fails_whole_apply() {
    let mut cb = ThrowingCallback { poison: "z".to_string() };
    let mapper = CallbackMapper::new(Granularity::PerChunk);
    let input = vec![s("y"), s("z"), s("w")];
    let r = mapper.apply(&input, &mut cb);
    // The whole call fails; no partial column is observable.
    assert_eq!(
        r,
        Err(MapError::CallbackThrew {
            input: "z".to_string(),
            message: "host callback raised".to_string(),
        })
    );
}

#[test]
fn throwing_callback_fails_per_element_too() {
    let mut cb = ThrowingCallback { poison: "z".to_string() };
    let mapper = CallbackMapper::new(Granularity::PerElement);
    let input = vec![s("y"), s("z"), s("w")];
    let r = mapper.apply(&input, &mut cb);
    assert!(matches!(r, Err(MapError::CallbackThrew { .. })));
}

#[test]
fn wrong_length_batch_is_a_type_mismatch() {
    let mut cb = ShortCallback;
    let mapper = CallbackMapper::new(Granularity::PerChunk);
    let input = vec![s("a"), s("b")];
    assert_eq!(mapper.apply(&input, &mut cb), Err(MapError::TypeMismatch));
}

#[test]
fn null_for_a_value_is_a_type_mismatch() {
    let mut cb = NullingCallback;
    let mapper = CallbackMapper::new(Granularity::PerChunk);
    let input = vec![s("a")];
    assert_eq!(mapper.apply(&input, &mut cb), Err(MapError::TypeMismatch));
    let mut cb = NullingCallback;
    let mapper = CallbackMapper::new(Granularity::PerElement);
    assert_eq!(mapper.apply(&input, &mut cb), Err(MapError::TypeMismatch));
}

#[test]
fn timeout_is_reported_as_boundary_timeout() {
    let mut cb = TimingOutCallback;
    let mapper = CallbackMapper::new(Granularity::PerChunk);
    let input = vec![s("a")];
    assert_eq!(mapper.apply(&input, &mut cb), Err(MapError::BoundaryTimeout));
}

#[test]
fn all_null_chunk_never_crosses_the_boundary() {
    let mut cb = RecordingCallback::new(|v: &str| v.to_uppercase());
    let mapper = CallbackMapper::new(Granularity::PerChunk);
    let input = vec![None, None, None];
    let output = mapper.apply(&input, &mut cb).unwrap();
    assert_eq!(output, input);
    assert_eq!(cb.crossings(), 0);
}

#[test]
fn empty_chunk_never_crosses_the_boundary() {
    let mut cb = RecordingCallback::new(|v: &str| v.to_uppercase());
    let mapper = CallbackMapper::new(Granularity::PerElement);
    let input: Vec<Option<String>> = vec![];
    let output = mapper.apply(&input, &mut cb).unwrap();
    assert_eq!(output, Vec::<Option<String>>::new());
    assert_eq!(cb.crossings(), 0);
}

#[test]
fn apply_chunks_maps_every_chunk() {
    let mut cb = RecordingCallback::new(|v: &str| v.to_uppercase());
    let mut cancel = CancelAfter { remaining: usize::MAX };
    let mapper = CallbackMapper::new(Granularity::PerChunk);
    let chunks = vec![vec![s("a"), None], vec![s("b")]];
    let outs = mapper.apply_chunks(&chunks, &mut cb, &mut cancel).unwrap();
    assert_eq!(outs, vec![vec![s("A"), None], vec![s("B")]]);
    assert_eq!(cb.crossings(), 2);
}

#[test]
fn empty_chunk_list_succeeds_without_polling() {
    let mut cb = RecordingCallback::new(|v: &str| v.to_uppercase());
    // A signal that would report cancellation at the first poll: an empty
    // chunk list is owed success before anything is polled or invoked.
    let mut cancel = CancelAfter { remaining: 0 };
    let mapper = CallbackMapper::new(Granularity::PerChunk);
    let chunks: Vec<Vec<Option<String>>> = vec![];
    let outs = mapper.apply_chunks(&chunks, &mut cb, &mut cancel).unwrap();
    assert_eq!(outs, Vec::<Vec<Option<String>>>::new());
    assert_eq!(cb.crossings(), 0);
}

#[test]
fn cancellation_between_chunks() {
    let mut cb = RecordingCallback::new(|v: &str| v.to_uppercase());
    let mut cancel = CancelAfter { remaining: 1 };
    let mapper = CallbackMapper::new(Granularity::PerChunk);
    let chunks = vec![vec![s("a")], vec![s("b")]];
    let r = mapper.apply_chunks(&chunks, &mut cb, &mut cancel);
    assert_eq!(r, Err(MapError::Cancelled));
    // The first chunk crossed before the signal was raised; the second
    // never did.
    assert_eq!(cb.crossings(), 1);
}

#[test]
fn gather_collects_non_null_values_in_order() {
    let input = vec![None, s("a"), s("b"), None, s("c")];
    assert_eq!(
        gather_non_null(&input),
        vec!["a".to_string(), "b".to_string(), "c".to_string()]
    );
}

#[test]
fn scatter_restores_null_layout() {
    let input = vec![None, s("a"), s("b"), None];
    let results = vec![s("x"), s("y")];
    let out = scatter(&input, results).unwrap();
    assert_eq!(out, vec![None, s("x"), s("y"), None]);
}

#[test]
fn scatter_rejects_wrong_length() {
    let input = vec![s("a")];
    let results = vec![s("x"), s("y")];
    assert_eq!(scatter(&input, results), Err(MapError::TypeMismatch));
}
