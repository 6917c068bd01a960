use vstd::prelude::*;
use crate::block::{DecodeFault, DecodedBlock, MAX_ADDR, decode_block_notation, spec_decode};
use crate::errors::OuiError;
use crate::mac::{mac_bytes_of, mac_to_u64, parse_mac_text, spec_mac_int};
use crate::manu_index::{mm_contents, mm_get_vec, mm_insert, mm_new};
use crate::range_index::{range_contents, rm_get, rm_insert, rm_new};
use crate::record::{Entry, EntryV, RawRow, entry_of_row, spec_entry_of_row};

verus! {

/// Whether the decoded block of an entry covers a 48-bit point.
pub open spec fn covers(e: EntryV, q: u64) -> bool {
    match spec_decode(e.oui) {
        Ok(d) => d.start <= q <= d.end,
        Err(_) => false,
    }
}

/// The index of the entry a point query resolves to: the last entry of the
/// table whose decoded range covers the point, or -1 when none does. This
/// is the database's overlap policy: among overlapping ranges, the most
/// recently inserted matching entry wins.
pub open spec fn winner(s: Seq<EntryV>, q: u64) -> int
    decreases s.len(),
{
    if s.len() == 0 {
        -1
    } else if covers(s.last(), q) {
        s.len() - 1
    } else {
        winner(s.drop_last(), q)
    }
}

/// The indices of the entries registered under a name, in table order.
pub open spec fn name_indices(s: Seq<EntryV>, name: Seq<char>) -> Seq<usize>
    decreases s.len(),
{
    if s.len() == 0 {
        Seq::<usize>::empty()
    } else if s.last().company_name == name {
        name_indices(s.drop_last(), name).push((s.len() - 1) as usize)
    } else {
        name_indices(s.drop_last(), name)
    }
}

/// The distinct organization names of a table, first occurrence first.
pub open spec fn distinct_names(s: Seq<EntryV>) -> Seq<Seq<char>>
    decreases s.len(),
{
    if s.len() == 0 {
        Seq::<Seq<char>>::empty()
    } else if distinct_names(s.drop_last()).contains(s.last().company_name) {
        distinct_names(s.drop_last())
    } else {
        distinct_names(s.drop_last()).push(s.last().company_name)
    }
}

/// The distinct block notations of a table, first occurrence first.
pub open spec fn distinct_ouis(s: Seq<EntryV>) -> Seq<Seq<char>>
    decreases s.len(),
{
    if s.len() == 0 {
        Seq::<Seq<char>>::empty()
    } else if distinct_ouis(s.drop_last()).contains(s.last().oui) {
        distinct_ouis(s.drop_last())
    } else {
        distinct_ouis(s.drop_last()).push(s.last().oui)
    }
}

/// The entries that a row table denotes.
pub open spec fn spec_entries(rows: Seq<RawRow>) -> Seq<EntryV> {
    rows.map_values(|r: RawRow| spec_entry_of_row(r@))
}

/// The index of the first row whose block notation does not decode, or
/// `s.len()` when every row decodes.
pub open spec fn first_bad(s: Seq<EntryV>) -> int
    decreases s.len(),
{
    if s.len() == 0 {
        0
    } else if first_bad(s.drop_last()) < s.len() - 1 {
        first_bad(s.drop_last())
    } else if spec_decode(s[s.len() - 1].oui) is Err {
        s.len() - 1
    } else {
        s.len() as int
    }
}

/// The query policy's defining properties: a point has a winning entry if
/// and only if some entry covers it, and the winner is the last entry that
/// covers it.
pub proof fn lemma_winner_props(s: Seq<EntryV>, q: u64)
    ensures
        (winner(s, q) >= 0) <==> exists|i: int| 0 <= i < s.len() && covers(#[trigger] s[i], q),
        winner(s, q) >= 0 ==> winner(s, q) < s.len() && covers(s[winner(s, q)], q),
        winner(s, q) >= 0 ==> forall|j: int|
            winner(s, q) < j < s.len() ==> !covers(#[trigger] s[j], q),
    decreases s.len(),
{
    if s.len() > 0 {
        lemma_winner_props(s.drop_last(), q);
        assert(forall|i: int| 0 <= i < s.len() - 1 ==> s.drop_last()[i] == #[trigger] s[i]);
        if !covers(s.last(), q) {
            if exists|i: int| 0 <= i < s.len() && covers(#[trigger] s[i], q) {
                let i = choose|i: int| 0 <= i < s.len() && covers(#[trigger] s[i], q);
                assert(i < s.len() - 1);
                assert(covers(s.drop_last()[i], q));
            }
        }
    }
}

/// Every index registered under a name points into the table.
pub proof fn lemma_name_indices_bounds(s: Seq<EntryV>, name: Seq<char>)
    requires
        s.len() <= usize::MAX,
    ensures
        forall|k: int|
            0 <= k < name_indices(s, name).len() ==> #[trigger] name_indices(s, name)[k]
                < s.len(),
    decreases s.len(),
{
    if s.len() > 0 {
        lemma_name_indices_bounds(s.drop_last(), name);
        let ni = name_indices(s, name);
        let nd = name_indices(s.drop_last(), name);
        assert forall|k: int| 0 <= k < ni.len() implies ni[k] < s.len() by {
            if s.last().company_name == name {
                if k < nd.len() {
                    assert(ni[k] == nd[k]);
                } else {
                    assert(ni[k] == s.len() - 1);
                }
            } else {
                assert(ni[k] == nd[k]);
            }
        }
    }
}

/// The loaded reference database: a range index resolving 48-bit keys to
/// their owning entry, a manufacturer index resolving an organization name
/// to its entries, and the distinct-value summaries, all built in one pass
/// and immutable afterwards.
///
/// Overlap policy: the reference table is not guaranteed disjoint, so two
/// stored ranges may cover the same point. A point query deterministically
/// returns the most recently inserted matching entry, that is the lowest
/// matching row of the table.
pub struct Oui {
    db: rangemap::RangeInclusiveMap<u64, usize>,
    manufacturer_map: multimap::MultiMap<String, usize>,
    entries: Vec<Entry>,
    manufacturers: Vec<String>,
    ouis: Vec<String>,
    records: i32,
}

impl View for Oui {
    type V = Seq<EntryV>;

    closed spec fn view(&self) -> Seq<EntryV> {
        self.entries@.map_values(|e: Entry| e@)
    }
}

impl Oui {
    /// Everything observable is derived from the entry table: the range
    /// index holds exactly the covered points with the last covering entry
    /// as the winner, the manufacturer index holds exactly the per-name
    /// index lists, and the summaries list the distinct values.
    #[verifier::type_invariant]
    spec fn wf(self) -> bool {
        &&& self.records == self@.len()
        &&& self@.len() <= 0x7fff_ffff
        &&& forall|i: int| 0 <= i < self@.len() ==> spec_decode(#[trigger] self@[i].oui) is Ok
        &&& forall|q: u64|
            #![auto]
            range_contents(self.db).contains_key(q) <==> exists|i: int|
                0 <= i < self@.len() && covers(#[trigger] self@[i], q)
        &&& forall|q: u64|
            #![auto]
            range_contents(self.db).contains_key(q) ==> ({
                let w = range_contents(self.db)[q];
                &&& w < self@.len()
                &&& covers(self@[w as int], q)
                &&& forall|j: int| w < j < self@.len() ==> !covers(#[trigger] self@[j], q)
            })
        &&& forall|name: Seq<char>|
            #![auto]
            mm_contents(self.manufacturer_map).contains_key(name) <==> name_indices(
                self@,
                name,
            ).len() > 0
        &&& forall|name: Seq<char>|
            #![auto]
            mm_contents(self.manufacturer_map).contains_key(name) ==> mm_contents(
                self.manufacturer_map,
            )[name] == name_indices(self@, name)
        &&& self.manufacturers.deep_view() == distinct_names(self@)
        &&& self.ouis.deep_view() == distinct_ouis(self@)
    }
}

/// Whether a vector of strings holds one with the given text.
fn vec_contains_string(v: &Vec<String>, s: &String) -> (r: bool)
    ensures
        r == v.deep_view().contains(s@),
{
    let mut k: usize = 0;
    let mut found = false;
    while k < v.len()
        invariant
            k <= v@.len(),
            found == exists|j: int| 0 <= j < k && #[trigger] v@[j]@ == s@,
        decreases v@.len() - k,
    {
        if v[k] == *s {
            found = true;
        }
        k = k + 1;
    }
    proof {
        assert(forall|j: int| 0 <= j < v@.len() ==> v.deep_view()[j] == #[trigger] v@[j]@);
        if found {
            let j = choose|j: int| 0 <= j < v@.len() && #[trigger] v@[j]@ == s@;
            assert(v.deep_view()[j] == s@);
        }
        if v.deep_view().contains(s@) {
            let j = choose|j: int| 0 <= j < v.deep_view().len() && #[trigger] v.deep_view()[j]
                == s@;
            assert(v@[j]@ == s@);
        }
    }
    found
}

/// Builds the database from the parsed rows of a reference table, feeding
/// both indexes and the summaries in a single pass. The first row whose
/// block notation does not decode aborts the whole load with its fault; no
/// partially built database is ever returned.
#[verifier::rlimit(100)]
pub fn read_into_db(rows: &Vec<RawRow>) -> (r: Result<Oui, OuiError>)
    requires
        rows@.len() <= 0x7fff_ffff,
    ensures
        (match r {
            Ok(db) => db@ == spec_entries(rows@) && forall|i: int|
                0 <= i < rows@.len() ==> spec_decode(
                    #[trigger] spec_entries(rows@)[i].oui,
                ) is Ok,
            Err(e) => ({
                let rv = spec_entries(rows@);
                let b = first_bad(rv);
                &&& b < rv.len()
                &&& match e {
                    OuiError::MalformedBlockNotation(t) => spec_decode(rv[b].oui) == Err::<
                        DecodedBlock,
                        DecodeFault,
                    >(DecodeFault::Malformed) && t@ == rv[b].oui,
                    OuiError::InvalidMask(t) => spec_decode(rv[b].oui) == Err::<
                        DecodedBlock,
                        DecodeFault,
                    >(DecodeFault::BadMask) && t@ == rv[b].oui,
                    _ => false,
                }
            }),
        }),
{
    let ghost rv = spec_entries(rows@);
    let mut db = rm_new();
    let mut manufacturer_map = mm_new();
    let mut entries: Vec<Entry> = Vec::new();
    let mut manufacturers: Vec<String> = Vec::new();
    let mut ouis: Vec<String> = Vec::new();
    let mut idx: usize = 0;
    while idx < rows.len()
        invariant
            idx <= rows@.len(),
            rows@.len() <= 0x7fff_ffff,
            rv == spec_entries(rows@),
            rv.len() == rows@.len(),
            entries@.len() == idx,
            entries@.map_values(|e: Entry| e@) == rv.take(idx as int),
            forall|i: int| 0 <= i < idx ==> spec_decode(#[trigger] rv[i].oui) is Ok,
            first_bad(rv.take(idx as int)) == idx,
            forall|q: u64|
                #![auto]
                range_contents(db).contains_key(q) <==> exists|i: int|
                    0 <= i < idx && covers(#[trigger] rv[i], q),
            forall|q: u64|
                #![auto]
                range_contents(db).contains_key(q) ==> ({
                    let w = range_contents(db)[q];
                    &&& w < idx
                    &&& covers(rv[w as int], q)
                    &&& forall|j: int| w < j < idx ==> !covers(#[trigger] rv[j], q)
                }),
            forall|name: Seq<char>|
                #![auto]
                mm_contents(manufacturer_map).contains_key(name) <==> name_indices(
                    rv.take(idx as int),
                    name,
                ).len() > 0,
            forall|name: Seq<char>|
                #![auto]
                mm_contents(manufacturer_map).contains_key(name) ==> mm_contents(
                    manufacturer_map,
                )[name] == name_indices(rv.take(idx as int), name),
            manufacturers.deep_view() == distinct_names(rv.take(idx as int)),
            ouis.deep_view() == distinct_ouis(rv.take(idx as int)),
        decreases rows@.len() - idx,
    {
        let row = &rows[idx];
        proof {
            assert(rv[idx as int] == spec_entry_of_row(rows@[idx as int]@));
            assert(rv[idx as int].oui == row.oui@);
        }
        let d = match decode_block_notation(row.oui.as_str()) {
            Ok(d) => d,
            Err(e) => {
                proof {
                    let pre = rv.take(idx as int);
                    let pre1 = rv.take(idx as int + 1);
                    assert(pre1.drop_last() =~= pre);
                    assert(pre1.last() == rv[idx as int]);
                    assert(first_bad(pre1) == idx);
                    lemma_first_bad_stable(rv, idx as int + 1);
                }
                return Err(e);
            },
        };
        let e = entry_of_row(row);
        proof {
            assert(spec_decode(rv[idx as int].oui) == Ok::<DecodedBlock, DecodeFault>(d));
            crate::block::lemma_decode_ok_bounds(rv[idx as int].oui);
            assert(forall|q: u64| #![auto] covers(rv[idx as int], q) <==> (d.start <= q
                <= d.end));
        }
        let ghost old_rc = range_contents(db);
        rm_insert(&mut db, d.start, d.end, idx);
        let ghost old_mm = mm_contents(manufacturer_map);
        mm_insert(&mut manufacturer_map, e.company_name.clone(), idx);
        let in_manu = vec_contains_string(&manufacturers, &e.company_name);
        if !in_manu {
            manufacturers.push(e.company_name.clone());
        }
        let in_ouis = vec_contains_string(&ouis, &e.oui);
        if !in_ouis {
            ouis.push(e.oui.clone());
        }
        entries.push(e);
        proof {
            let pre = rv.take(idx as int);
            let pre1 = rv.take(idx as int + 1);
            let nm = rv[idx as int].company_name;
            let rc = range_contents(db);
            let mmc = mm_contents(manufacturer_map);
            assert(pre1.drop_last() =~= pre);
            assert(pre1.last() == rv[idx as int]);
            assert(entries@.map_values(|e: Entry| e@) =~= pre1);
            assert(first_bad(pre1) == idx + 1);
            // Range index: the new entry wins on its own range, everything
            // else is untouched.
            assert forall|q: u64| #![auto]
                rc.contains_key(q) <==> exists|i: int|
                    0 <= i < idx + 1 && covers(#[trigger] rv[i], q) by {
                if d.start <= q <= d.end {
                    assert(rc.contains_key(q));
                    assert(covers(rv[idx as int], q));
                } else {
                    assert(!covers(rv[idx as int], q));
                    assert(rc.contains_key(q) == old_rc.contains_key(q));
                    if rc.contains_key(q) {
                        assert(exists|i: int| 0 <= i < idx && covers(#[trigger] rv[i], q));
                    }
                    if exists|i: int| 0 <= i < idx + 1 && covers(#[trigger] rv[i], q) {
                        let i = choose|i: int| 0 <= i < idx + 1 && covers(#[trigger] rv[i], q);
                        assert(i < idx);
                        assert(old_rc.contains_key(q));
                    }
                }
            }
            assert forall|q: u64| #![auto] rc.contains_key(q) implies ({
                let w = rc[q];
                &&& w < idx + 1
                &&& covers(rv[w as int], q)
                &&& forall|j: int| w < j < idx + 1 ==> !covers(#[trigger] rv[j], q)
            }) by {
                if d.start <= q <= d.end {
                    assert(rc[q] == idx);
                    assert(covers(rv[idx as int], q));
                } else {
                    assert(!covers(rv[idx as int], q));
                    assert(rc.contains_key(q) == old_rc.contains_key(q));
                    assert(rc[q] == old_rc[q]);
                    let w = rc[q];
                    assert(w < idx && covers(rv[w as int], q));
                    assert forall|j: int| w < j < idx + 1 implies !covers(
                        #[trigger] rv[j],
                        q,
                    ) by {
                        if j < idx {
                            assert(!covers(rv[j], q));
                        } else {
                            assert(!covers(rv[idx as int], q));
                        }
                    }
                }
            }
            // Manufacturer index: one more entry under this name.
            assert forall|name: Seq<char>| #![auto]
                name_indices(pre1, name) == (if nm == name {
                    name_indices(pre, name).push(idx as usize)
                } else {
                    name_indices(pre, name)
                }) by {}
            assert(Seq::<usize>::empty().push(idx as usize) =~= seq![idx as usize]);
            assert forall|name: Seq<char>| #![auto]
                mmc.contains_key(name) <==> name_indices(pre1, name).len() > 0 by {
                if name == nm {
                    assert(mmc.contains_key(name));
                    assert(name_indices(pre1, name).len() > 0);
                } else {
                    assert(mmc.contains_key(name) == old_mm.contains_key(name));
                    assert(name_indices(pre1, name) == name_indices(pre, name));
                }
            }
            assert forall|name: Seq<char>| #![auto] mmc.contains_key(name) implies mmc[name]
                == name_indices(pre1, name) by {
                if name == nm {
                    if old_mm.contains_key(name) {
                        assert(mmc[name] == old_mm[name].push(idx as usize));
                        assert(old_mm[name] == name_indices(pre, name));
                    } else {
                        assert(name_indices(pre, name).len() == 0);
                        assert(name_indices(pre, name) =~= Seq::<usize>::empty());
                        assert(mmc[name] == seq![idx as usize]);
                        assert(name_indices(pre1, name) == Seq::<usize>::empty().push(
                            idx as usize,
                        ));
                    }
                } else {
                    assert(mmc.contains_key(name) == old_mm.contains_key(name));
                    assert(mmc[name] == old_mm[name]);
                    assert(name_indices(pre1, name) == name_indices(pre, name));
                }
            }
            // Summaries: a fresh name or notation is appended, a seen one
            // leaves them unchanged.
            assert(distinct_names(pre1) == (if distinct_names(pre).contains(nm) {
                distinct_names(pre)
            } else {
                distinct_names(pre).push(nm)
            }));
            assert(distinct_ouis(pre1) == (if distinct_ouis(pre).contains(rv[idx as int].oui) {
                distinct_ouis(pre)
            } else {
                distinct_ouis(pre).push(rv[idx as int].oui)
            }));
            if !in_manu {
                assert(manufacturers.deep_view() =~= distinct_names(pre1));
            } else {
                assert(manufacturers.deep_view() == distinct_names(pre1));
            }
            if !in_ouis {
                assert(ouis.deep_view() =~= distinct_ouis(pre1));
            } else {
                assert(ouis.deep_view() == distinct_ouis(pre1));
            }
        }
        idx = idx + 1;
    }
    proof {
        assert(rv.take(rows@.len() as int) =~= rv);
    }
    let oui = Oui {
        db,
        manufacturer_map,
        entries,
        manufacturers,
        ouis,
        records: idx as i32,
    };
    Ok(oui)
}

/// Once a prefix of the table holds a bad row, the whole table's first bad
/// row is that one.
proof fn lemma_first_bad_stable(s: Seq<EntryV>, i: int)
    requires
        0 <= i <= s.len(),
        first_bad(s.take(i)) < i,
    ensures
        first_bad(s) == first_bad(s.take(i)),
    decreases s.len() - i,
{
    if i == s.len() {
        assert(s.take(i) =~= s);
    } else {
        assert(s.take(i + 1).drop_last() =~= s.take(i));
        lemma_first_bad_stable(s, i + 1);
    }
}

/// Makes an equal vector of the same strings.
fn clone_string_vec(v: &Vec<String>) -> (r: Vec<String>)
    ensures
        r@ == v@,
{
    let mut r: Vec<String> = Vec::new();
    let mut k: usize = 0;
    while k < v.len()
        invariant
            k <= v@.len(),
            r@.len() == k,
            forall|t: int| 0 <= t < k ==> #[trigger] r@[t] == v@[t],
        decreases v@.len() - k,
    {
        r.push(v[k].clone());
        k = k + 1;
    }
    proof {
        assert(r@ =~= v@);
    }
    r
}

impl Oui {
    /// Resolves a 48-bit integer key to its owning entry. A key outside
    /// every loaded range is no error: the result is `Ok(None)`. Among
    /// overlapping ranges the most recently inserted matching entry wins.
    fn query(&self, query: &u64) -> (r: Result<Option<&Entry>, OuiError>)
        ensures
            (match r {
                Ok(Some(e)) => winner(self@, *query) >= 0 && e@ == self@[winner(self@, *query)],
                Ok(None) => winner(self@, *query) < 0,
                Err(_) => false,
            }),
    {
        proof {
            use_type_invariant(&*self);
            lemma_winner_props(self@, *query);
        }
        match rm_get(&self.db, *query) {
            Some(i) => {
                proof {
                    let w = winner(self@, *query);
                    assert(covers(self@[i as int], *query));
                    assert(w >= 0);
                    if w > i as int {
                        assert(!covers(self@[w], *query));
                    }
                    if w < i as int {
                        assert(!covers(self@[i as int], *query));
                    }
                    assert(w == i as int);
                    assert(self@[i as int] == self.entries@.map_values(|e: Entry| e@)[i as int]);
                }
                Ok(Some(&self.entries[i]))
            },
            None => Ok(None),
        }
    }

    /// Resolves a textual MAC address to the entry owning the block it
    /// belongs to. An unparsable address fails; an address outside every
    /// loaded range is `Ok(None)`.
    pub fn lookup_by_mac(&self, mac_addr: &str) -> (r: Result<Option<&Entry>, OuiError>)
        ensures
            (match mac_bytes_of(mac_addr@) {
                Some(b) => match r {
                    Ok(Some(e)) => winner(self@, spec_mac_int(b) as u64) >= 0 && e@ == self@[winner(
                        self@,
                        spec_mac_int(b) as u64,
                    )],
                    Ok(None) => winner(self@, spec_mac_int(b) as u64) < 0,
                    Err(_) => false,
                },
                None => match r {
                    Err(OuiError::AddressParseError(t)) => t@ == mac_addr@,
                    _ => false,
                },
            }),
    {
        match parse_mac_text(mac_addr) {
            Some(bytes) => {
                let q = mac_to_u64(&bytes);
                self.query(&q)
            },
            None => Err(OuiError::AddressParseError(mac_addr.to_owned())),
        }
    }

    /// All entries registered under an organization name, compared exactly
    /// (case-sensitive, no normalization), in table order; `Ok(None)` when
    /// the name is absent.
    pub fn lookup_by_manufacturer(&self, manufacturer_name: &str) -> (r: Result<
        Option<Vec<Entry>>,
        OuiError,
    >)
        ensures
            (match r {
                Ok(Some(v)) => ({
                    let idxs = name_indices(self@, manufacturer_name@);
                    &&& idxs.len() > 0
                    &&& v@.len() == idxs.len()
                    &&& forall|k: int|
                        0 <= k < idxs.len() ==> (#[trigger] v@[k])@ == self@[idxs[k] as int]
                }),
                Ok(None) => name_indices(self@, manufacturer_name@).len() == 0,
                Err(_) => false,
            }),
    {
        proof {
            use_type_invariant(&*self);
        }
        match mm_get_vec(&self.manufacturer_map, manufacturer_name) {
            Some(iv) => {
                proof {
                    lemma_name_indices_bounds(self@, manufacturer_name@);
                }
                let ghost idxs = name_indices(self@, manufacturer_name@);
                let mut out: Vec<Entry> = Vec::new();
                let mut k: usize = 0;
                while k < iv.len()
                    invariant
                        k <= iv@.len(),
                        iv@ == idxs,
                        idxs == name_indices(self@, manufacturer_name@),
                        self@ == self.entries@.map_values(|e: Entry| e@),
                        forall|t: int| 0 <= t < idxs.len() ==> #[trigger] idxs[t] < self@.len(),
                        out@.len() == k,
                        forall|t: int|
                            0 <= t < k ==> (#[trigger] out@[t])@ == self@[idxs[t] as int],
                    decreases iv@.len() - k,
                {
                    let i = iv[k];
                    out.push(self.entries[i].clone());
                    k = k + 1;
                }
                Ok(Some(out))
            },
            None => Ok(None),
        }
    }

    /// The distinct organization names present in the database, in order
    /// of first appearance in the table.
    pub fn get_unique_manufacturers(&self) -> (r: Result<Vec<String>, OuiError>)
        ensures
            (match r {
                Ok(v) => v.deep_view() == distinct_names(self@),
                Err(_) => false,
            }),
    {
        proof {
            use_type_invariant(&*self);
        }
        let v = clone_string_vec(&self.manufacturers);
        proof {
            assert(v.deep_view() =~= self.manufacturers.deep_view());
        }
        Ok(v)
    }

    /// The distinct block notations present in the database, in order of
    /// first appearance in the table.
    pub fn get_unique_ouis(&self) -> (r: Result<Vec<String>, OuiError>)
        ensures
            (match r {
                Ok(v) => v.deep_view() == distinct_ouis(self@),
                Err(_) => false,
            }),
    {
        proof {
            use_type_invariant(&*self);
        }
        let v = clone_string_vec(&self.ouis);
        proof {
            assert(v.deep_view() =~= self.ouis.deep_view());
        }
        Ok(v)
    }

    /// The number of records loaded into the database.
    pub fn get_total_records(&self) -> (r: i32)
        ensures
            r == self@.len(),
    {
        proof {
            use_type_invariant(&*self);
        }
        self.records
    }
}

/// Round trip: a 48-bit key that lies inside the decoded range of any
/// loaded entry is always found. The winning entry exists, covers the key,
/// and is never an earlier row than the covering one.
pub proof fn lemma_query_covered(s: Seq<EntryV>, q: u64, i: int)
    requires
        0 <= i < s.len(),
        covers(s[i], q),
    ensures
        i <= winner(s, q) < s.len(),
        covers(s[winner(s, q)], q),
{
    lemma_winner_props(s, q);
    if winner(s, q) < i {
        assert(!covers(s[i], q));
    }
}

/// Loading the same table twice yields observably identical databases:
/// every query observable is a function of the entry table alone, and the
/// entry table is a function of the rows alone.
pub proof fn lemma_load_deterministic(db1: Oui, db2: Oui, q: u64, name: Seq<char>)
    requires
        db1@ == db2@,
    ensures
        db1@.len() == db2@.len(),
        winner(db1@, q) == winner(db2@, q),
        name_indices(db1@, name) == name_indices(db2@, name),
        distinct_names(db1@) == distinct_names(db2@),
        distinct_ouis(db1@) == distinct_ouis(db2@),
{
}

} // verus!
