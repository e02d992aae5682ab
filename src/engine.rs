//! The fused analysis-and-effect stage hands colour maps on as lists of
//! updates.
use crate::models::LightState;
use crate::protocol::{channel_order, ids_below};
use std::collections::HashMap;
use vstd::prelude::*;

verus! {

broadcast use vstd::std_specs::hash::group_hash_axioms;

/// The update that sets channel `k` to its colour in `m`.
pub open spec fn update_for(m: Map<u8, (u8, u8, u8)>, k: u8) -> LightState {
    LightState { id: k, r: m[k].0, g: m[k].1, b: m[k].2 }
}

/// One update per channel of `m`, ascending by id.
pub open spec fn updates_of(m: Map<u8, (u8, u8, u8)>) -> Seq<LightState> {
    channel_order(m).map_values(|k: u8| update_for(m, k))
}

/// The colour map as a list of updates, ascending by channel id.
pub fn colours_to_states(colours: &HashMap<u8, (u8, u8, u8)>) -> (r: Vec<LightState>)
    ensures
        r@ == updates_of(colours@),
{
    let mut out: Vec<LightState> = Vec::new();
    let mut id: u16 = 0;
    while id < 256
        invariant
            id <= 256,
            out@ == ids_below(colours@, id as nat).map_values(|k: u8| update_for(colours@, k)),
        decreases 256 - id,
    {
        let k = id as u8;
        match colours.get(&k) {
            Some(c) => {
                out.push(LightState { id: k, r: c.0, g: c.1, b: c.2 });
            },
            None => {},
        }
        assert(out@ =~= ids_below(colours@, (id + 1) as nat).map_values(
            |k: u8| update_for(colours@, k),
        ));
        id = id + 1;
    }
    out
}

} // verus!
