//! Recyclable integer identifiers: a pool mints small dense slot numbers,
//! hands each out in a shared handle, and takes the slot back once the last
//! handle that refers to it is released.

mod generator;
mod laws;
mod pool;

pub use generator::{
    decimal, id_text, slot_of, Config, ConfigError, Generator, GeneratorBuilder, Id,
    DEFAULT_CHUNK_SIZE, DEFAULT_SIZE,
};
pub use laws::{
    law_generate_spares_held_slots, law_growth, law_held_slot_not_reissued,
    law_released_slots_reused, law_takes_are_distinct, lemma_give_back_all_held,
    lemma_give_back_all_step, lemma_give_back_step, lemma_take_from_free, lemma_take_many_split,
    lemma_take_step, values, PoolOp,
};
pub use pool::{Pool, PoolView};
