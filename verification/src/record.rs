use vstd::prelude::*;
use vstd::string::StrSliceExecFns;

verus! {

/// One reference-table row as it leaves the tabular decoder, every column
/// still in its raw textual form.
pub struct RawRow {
    /// Address-block notation, e.g. `"70:B3:D5"` or `"70:B3:D5:20/28"`.
    pub oui: String,
    /// Raw private-flag column text; the exact text `"1"` means private.
    pub is_private: String,
    pub company_name: String,
    pub company_address: String,
    pub country_code: String,
    /// One of `MA-L`, `MA-M`, `MA-S`, `IAB`.
    pub assignment_block_size: String,
    /// `YYYY-MM-DD`, kept as text.
    pub date_created: String,
    /// `YYYY-MM-DD`, kept as text.
    pub date_updated: String,
}

/// The mathematical image of a [`RawRow`]: each column as a character
/// sequence.
pub struct RawRowV {
    pub oui: Seq<char>,
    pub is_private: Seq<char>,
    pub company_name: Seq<char>,
    pub company_address: Seq<char>,
    pub country_code: Seq<char>,
    pub assignment_block_size: Seq<char>,
    pub date_created: Seq<char>,
    pub date_updated: Seq<char>,
}

impl View for RawRow {
    type V = RawRowV;

    open spec fn view(&self) -> RawRowV {
        RawRowV {
            oui: self.oui@,
            is_private: self.is_private@,
            company_name: self.company_name@,
            company_address: self.company_address@,
            country_code: self.country_code@,
            assignment_block_size: self.assignment_block_size@,
            date_created: self.date_created@,
            date_updated: self.date_updated@,
        }
    }
}

/// One loaded reference-table row, immutable once the database is built.
pub struct Entry {
    /// Organization Unique Identifier: the original address-block notation.
    pub oui: String,
    /// True when the identifying fields below are redacted by the data
    /// provider.
    pub is_private: bool,
    /// Name of the organization which registered the address block.
    pub company_name: String,
    /// Organization's full address.
    pub company_address: String,
    /// Organization's country code in ISO 3166 format.
    pub country_code: String,
    /// 'MA-L' for MAC Address Block Large, or
    /// 'MA-M' for MAC Address Block Medium, or
    /// 'MA-S' for MAC Address Block Small, or
    /// 'IAB' for Individual Address Block.
    pub assignment_block_size: String,
    /// Date when the range was allocated, in YYYY-MM-DD format.
    pub date_created: String,
    /// Date when the range was last updated, in YYYY-MM-DD format.
    pub date_updated: String,
}

/// The mathematical image of an [`Entry`].
pub struct EntryV {
    pub oui: Seq<char>,
    pub is_private: bool,
    pub company_name: Seq<char>,
    pub company_address: Seq<char>,
    pub country_code: Seq<char>,
    pub assignment_block_size: Seq<char>,
    pub date_created: Seq<char>,
    pub date_updated: Seq<char>,
}

impl View for Entry {
    type V = EntryV;

    open spec fn view(&self) -> EntryV {
        EntryV {
            oui: self.oui@,
            is_private: self.is_private,
            company_name: self.company_name@,
            company_address: self.company_address@,
            country_code: self.country_code@,
            assignment_block_size: self.assignment_block_size@,
            date_created: self.date_created@,
            date_updated: self.date_updated@,
        }
    }
}

impl Clone for Entry {
    /// An entry clones to an equal value.
    fn clone(&self) -> (r: Self)
        ensures
            r == *self,
    {
        Entry {
            oui: self.oui.clone(),
            is_private: self.is_private,
            company_name: self.company_name.clone(),
            company_address: self.company_address.clone(),
            country_code: self.country_code.clone(),
            assignment_block_size: self.assignment_block_size.clone(),
            date_created: self.date_created.clone(),
            date_updated: self.date_updated.clone(),
        }
    }
}

/// What the raw private-flag column means: the exact text `"1"`.
pub open spec fn spec_private_flag(s: Seq<char>) -> bool {
    s =~= seq!['1']
}

/// The [`Entry`] that a raw row denotes: the private flag coerced, every
/// other column carried over unchanged.
pub open spec fn spec_entry_of_row(r: RawRowV) -> EntryV {
    EntryV {
        oui: r.oui,
        is_private: spec_private_flag(r.is_private),
        company_name: r.company_name,
        company_address: r.company_address,
        country_code: r.country_code,
        assignment_block_size: r.assignment_block_size,
        date_created: r.date_created,
        date_updated: r.date_updated,
    }
}

/// Coerces the raw private-flag column text to a boolean: the exact text
/// `"1"` means private, every other value (including malformed ones) means
/// public. This is deliberately a total function, not strict boolean
/// parsing, so legacy rows are never rejected on this column.
pub fn string_to_bool(s: &str) -> (r: bool)
    ensures
        r == spec_private_flag(s@),
{
    if s.unicode_len() == 1 {
        let c = s.get_char(0);
        proof {
            assert(spec_private_flag(s@) == (s@[0] == '1'));
        }
        c == '1'
    } else {
        proof {
            assert(!spec_private_flag(s@));
        }
        false
    }
}

/// Builds the loaded [`Entry`] for one raw row.
pub fn entry_of_row(r: &RawRow) -> (e: Entry)
    ensures
        e@ == spec_entry_of_row(r@),
{
    Entry {
        oui: r.oui.clone(),
        is_private: string_to_bool(r.is_private.as_str()),
        company_name: r.company_name.clone(),
        company_address: r.company_address.clone(),
        country_code: r.country_code.clone(),
        assignment_block_size: r.assignment_block_size.clone(),
        date_created: r.date_created.clone(),
        date_updated: r.date_updated.clone(),
    }
}

} // verus!
