//! A fixed-capacity cache with strict least-recently-used eviction, whose
//! lookups and inserts are gated by a scoped capability protocol: every
//! value-returning or mutating operation presents a permission token minted
//! together with the handle it is used on, a read borrows the token
//! shared, and a structural mutation borrows it exclusively, so a
//! reference handed out by a lookup can never survive into an insert that
//! could overwrite the storage behind it.

mod cache;
mod handle;
mod key;
mod laws;
mod model;

pub use cache::{ConfigurationError, LruCache};
pub use handle::{CacheHandle, ValuePerm};
pub use key::CacheKey;
pub use laws::{
    after_puts, inserted_keys, lemma_capacity_bound, lemma_capacity_bound_from,
    lemma_inserted_keys, lemma_lru_eviction, lemma_puts_keep_order, lemma_touch_on_read,
    lemma_update_in_place, older_than,
};
pub use model::{
    after_get, after_put, has_key, key_index, keys_distinct, lemma_after_get_wf,
    lemma_after_put_keys, lemma_after_put_wf, lemma_key_index_unique, put_returns, value_of,
};
