//! The arguments of an evaluation: what the caller hands to every node.

use crate::param::TIME;
use crate::value::{self, Number, Val, ValView};
use vstd::prelude::*;

verus! {

/// Arguments with the given firing time.
pub open spec fn at(secs: Number) -> ValView {
    ValView::Record(seq![(TIME@, ValView::Num(secs))])
}

/// The arguments of an evaluation that fires at the given time, in seconds.
pub fn time(secs: Number) -> (r: Val)
    ensures
        r@ == at(secs),
{
    let mut m: Vec<(String, Val)> = Vec::new();
    m.push((String::from_str(TIME), Val::Num(secs)));
    proof {
        value::lemma_val_map(m, m@.len());
        assert(value::val_map(m, m@.len()) =~= seq![(TIME@, ValView::Num(secs))]);
    }
    Val::Record(m)
}

/// The arguments before any caller has set them: the time is zero.
pub fn default() -> (r: Val)
    ensures
        r@ == at(Number::Float(0)),
{
    time(Number::Float(0))
}

/// The time of an evaluation can be read from its arguments.
pub proof fn law_arguments_tell_the_time(secs: Number)
    ensures
        value::found(at(secs)->Record_0, TIME@) == Some(ValView::Num(secs)),
{
    reveal_with_fuel(value::found, 2);
}

} // verus!
