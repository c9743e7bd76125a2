//! Ordered map and ordered set kept in one sorted vector.

mod float;
mod laws;
mod map;
mod order;
mod set;

pub use float::{
    float_order, float_total_order, lemma_float_order_self, lemma_float_total_order_self,
    resolve_float_order, resolve_float_total_order,
};
pub use laws::{
    lemma_get_after_insert, lemma_get_after_remove, lemma_inserts_enumeration, lemma_inserts_step,
    lemma_to_map_keys,
};
pub use map::{
    bound_holds, entries_in, entry_in_bounds, has_key, in_bounds, kept, lemma_bounds_convex,
    lemma_entries_in_sorted, lemma_enumeration_determined, lemma_to_map_sorted, sorted_by_key,
    to_map, KeyBound, VecMap,
};
pub use order::KeyOrder;
pub use set::{keys_in, keys_of, sorted_keys, VecSet};
