use vstd::prelude::*;
use crate::error::Error;
use crate::heap::Heap;
use crate::library::Library;
use crate::machine::Bindings;
use crate::pod::evaluate;
use crate::pod::evaluate_cost;
use crate::reduce::bindings_of;
use crate::reduce::reduce;
use crate::syntax::parse_text;
use crate::syntax::text_of;
use crate::text::Numeral;

verus! {

/// Evaluates the given source text without a dictionary, in a heap of its
/// own, and appends the text of the result to `target`.
///
/// The text is evaluated exactly when its brackets match and a heap of
/// the given capacity has room for what it costs; else `target` stays as
/// it is.
pub fn eval(
    source: &String,
    numerals: &Vec<Numeral>,
    target: &mut String,
    space_quota: usize,
    time_quota: usize,
) -> (r: Result<(), Error>)
    ensures
        r is Ok <==> parse_text(source@, numerals@) is Some && space_quota >= evaluate_cost(
            Map::empty(),
            source@,
            numerals@,
            time_quota as nat,
        ),
        match r {
            Ok(_) => Some(final(target)@) == match evaluate(
                Map::empty(),
                source@,
                numerals@,
                time_quota as nat,
            ) {
                Some(t) => Some(old(target)@ + text_of(t)),
                None => None,
            },
            Err(e) => {
                &&& final(target)@ == old(target)@
                &&& e == crate::pod::evaluate_error(source@, numerals@, space_quota as nat)
            },
        },
{
    let mut heap = Heap::with_capacity(space_quota);
    let dictionary = Library::new();
    let ghost none: Bindings = Map::empty();
    proof {
        assert(bindings_of(heap@, dictionary@) =~= none);
    }
    let lhs = match heap.parse(source.as_str(), numerals) {
        Ok(p) => p,
        Err(e) => {
            return Err(e);
        },
    };
    proof {
        assert(bindings_of(heap@, dictionary@) =~= none);
    }
    let rhs = match reduce(lhs, &mut heap, &dictionary, time_quota as u64) {
        Ok(p) => p,
        Err(e) => {
            return Err(e);
        },
    };
    heap.quote(rhs, target)
}

} // verus!
