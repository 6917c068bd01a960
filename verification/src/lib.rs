//! Resolves a 48-bit hardware (MAC) address to the organization that
//! registered its address block, using a reference table of
//! address-range-to-owner assignments, and supports the inverse lookup from
//! an organization name to all address ranges it owns.

mod block;
mod db;
mod errors;
mod mac;
mod manu_index;
mod range_index;
mod record;

pub use block::{DecodeFault, DecodedBlock, MAX_ADDR, decode_block_notation,
    lemma_decode_ok_bounds, lemma_default_mask_width, lemma_mask_width, spec_decode};
pub use db::{Oui, covers, distinct_names, distinct_ouis, first_bad, lemma_load_deterministic,
    lemma_query_covered, name_indices, read_into_db, spec_entries, winner};
pub use errors::OuiError;
pub use mac::{mac_bytes_of, mac_to_u64, parse_mac_text, spec_mac_int};
pub use record::{Entry, EntryV, RawRow, RawRowV, entry_of_row, spec_entry_of_row,
    spec_private_flag, string_to_bool};
