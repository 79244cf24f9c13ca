//! Small decisions of the command-line tools: which setting wins, what a model
//! argument names, and which score normalization is asked for.

use vstd::prelude::*;
use crate::text::{all_digits, chars_of, digits_value, equal_chars, parse_usize};

verus! {

/// A setting from the command line, or else from the configuration file; the message
/// names what is missing when neither gives it.
pub fn resolve_setting(cli: Option<String>, config: Option<String>, missing: &str) -> (r: Result<String, String>)
    ensures
        cli matches Some(c) ==> (r matches Ok(v) && v@ == c@),
        cli is None ==> (config matches Some(c) ==> (r matches Ok(v) && v@ == c@)),
        cli is None && config is None ==> (r matches Err(e) && e@ == missing@),
{
    match cli {
        Some(c) => Ok(c),
        None => match config {
            Some(c) => Ok(c),
            None => Err(missing.to_string()),
        },
    }
}

/// What a model argument names: a position in the model list when it is all digits,
/// otherwise a model name.
pub enum ModelChoice {
    /// The model at this position of the list, newest first.
    Index(usize),
    /// All digits, but not a position `usize` can hold (or empty).
    BadIndex,
    /// A model named directly.
    Name(String),
}

/// The model that a `pin` argument names.
pub fn model_choice(model: &str) -> (r: ModelChoice)
    ensures
        !all_digits(model@) ==> (r matches ModelChoice::Name(n) && n@ == model@),
        all_digits(model@) && model@.len() > 0 && digits_value(model@) <= usize::MAX ==> r == ModelChoice::Index(
            digits_value(model@) as usize,
        ),
        all_digits(model@) && (model@.len() == 0 || digits_value(model@) > usize::MAX) ==> r is BadIndex,
{
    let c = chars_of(model);
    let mut k: usize = 0;
    while k < c.len()
        invariant
            k <= c.len(),
            c@ == model@,
            forall|q: int| 0 <= q < k ==> crate::text::is_digit(#[trigger] c@[q]),
        decreases c.len() - k,
    {
        if !('0' <= c[k] && c[k] <= '9') {
            assert(!crate::text::is_digit(c@[k as int]));
            return ModelChoice::Name(model.to_string());
        }
        k = k + 1;
    }
    match parse_usize(&c) {
        Some(n) => ModelChoice::Index(n),
        None => ModelChoice::BadIndex,
    }
}

/// The sort key of a model created at `created`: the creation time read as an `i32`
/// (wrapping past `i32::MAX`) and negated, so newer models come first.
pub open spec fn model_key(created: u32) -> int {
    if created <= i32::MAX {
        -(created as int)
    } else {
        4294967296 - created as int
    }
}

/// `order` lists each model index once, by key, models with equal keys in the order
/// listed: the order a stable sort by `model_key` gives.
pub open spec fn newest_first_order(created: Seq<u32>, order: Seq<usize>) -> bool {
    &&& order.len() == created.len()
    &&& forall|i: int| 0 <= i < order.len() ==> order[i] < created.len()
    &&& forall|i: int, j: int| 0 <= i < j < order.len() ==> order[i] != order[j]
    &&& forall|i: int, j: int|
        0 <= i < j < order.len() ==> model_key(created[order[i] as int]) < model_key(created[order[j] as int]) || (
        model_key(created[order[i] as int]) == model_key(created[order[j] as int]) && order[i] < order[j])
}

fn model_key_exec(created: u32) -> (k: i64)
    ensures
        k == model_key(created),
{
    if created <= 2147483647 {
        -(created as i64)
    } else {
        4294967296i64 - created as i64
    }
}

/// The positions of the models in the order they are listed and picked from: newest
/// first, models created at the same time in the order given. A creation time of
/// exactly 2^31 has no key (negating it overflows), so none may have it.
pub fn newest_first(created: &Vec<u32>) -> (order: Vec<usize>)
    requires
        forall|k: int| 0 <= k < created.len() ==> created[k] != 2147483648u32,
    ensures
        newest_first_order(created@, order@),
{
    let mut order: Vec<usize> = Vec::new();
    let mut i: usize = 0;
    while i < created.len()
        invariant
            i <= created.len(),
            order.len() == i,
            forall|q: int| 0 <= q < order.len() ==> order[q] < i,
            forall|q: int, r: int| 0 <= q < r < order.len() ==> order[q] != order[r],
            forall|q: int, r: int|
                0 <= q < r < order.len() ==> model_key(created@[order[q] as int]) < model_key(created@[order[r] as int])
                    || (model_key(created@[order[q] as int]) == model_key(created@[order[r] as int]) && order[q] < order[r]),
        decreases created.len() - i,
    {
        let k = model_key_exec(created[i]);
        let mut p: usize = order.len();
        while p > 0 && model_key_exec(created[order[p - 1]]) > k
            invariant
                p <= order.len(),
                order.len() == i,
                i < created.len(),
                k == model_key(created@[i as int]),
                forall|q: int| 0 <= q < order.len() ==> order[q] < i,
                forall|q: int| p <= q < order.len() ==> model_key(created@[order[q] as int]) > k,
            decreases p,
        {
            p = p - 1;
        }
        proof {
            assert forall|q: int| 0 <= q < p implies model_key(created@[order[q] as int]) <= k by {
                if q < p - 1 {
                    assert(model_key(created@[order[q] as int]) <= model_key(created@[order[p - 1] as int]));
                }
            }
        }
        let ghost old_order = order@;
        order.insert(p, i);
        proof {
            assert forall|q: int| 0 <= q < order.len() implies order[q] < i + 1 by {
                if q < p {
                    assert(order[q] == old_order[q]);
                } else if q > p {
                    assert(order[q] == old_order[q - 1]);
                }
            }
            assert forall|q: int, r: int| 0 <= q < r < order.len() implies order[q] != order[r] && (model_key(
                created@[order[q] as int],
            ) < model_key(created@[order[r] as int]) || (model_key(created@[order[q] as int]) == model_key(
                created@[order[r] as int],
            ) && order[q] < order[r])) by {
                if q < p && r < p {
                    assert(order[q] == old_order[q] && order[r] == old_order[r]);
                } else if q < p && r == p {
                    assert(order[q] == old_order[q]);
                } else if q < p && r > p {
                    assert(order[q] == old_order[q] && order[r] == old_order[r - 1]);
                    if q < r - 1 {
                    }
                } else if q == p {
                    assert(order[r] == old_order[r - 1]);
                } else {
                    assert(order[q] == old_order[q - 1] && order[r] == old_order[r - 1]);
                }
            }
        }
        i = i + 1;
    }
    order
}

/// How the cluster scores are normalized.
#[derive(Clone, Copy, Debug, PartialEq, Eq, Structural)]
pub enum NormMethod {
    Probability,
    MinMax,
    Scale,
    ZScore,
}

/// The method a name selects.
pub open spec fn norm_named(name: Seq<char>) -> Option<NormMethod> {
    if name == "probability"@ {
        Some(NormMethod::Probability)
    } else if name == "minmax"@ {
        Some(NormMethod::MinMax)
    } else if name == "scale"@ {
        Some(NormMethod::Scale)
    } else if name == "zscore"@ {
        Some(NormMethod::ZScore)
    } else {
        None
    }
}

/// The normalization method called `name`; none for an unsupported name.
pub fn parse_norm_method(name: &str) -> (r: Option<NormMethod>)
    ensures
        r == norm_named(name@),
{
    let n = chars_of(name);
    if equal_chars(&n, &chars_of("probability")) {
        Some(NormMethod::Probability)
    } else if equal_chars(&n, &chars_of("minmax")) {
        Some(NormMethod::MinMax)
    } else if equal_chars(&n, &chars_of("scale")) {
        Some(NormMethod::Scale)
    } else if equal_chars(&n, &chars_of("zscore")) {
        Some(NormMethod::ZScore)
    } else {
        None
    }
}

} // verus!
