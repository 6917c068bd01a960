use vstd::prelude::*;
use vstd::string::StrSliceExecFns;
use crate::errors::OuiError;

verus! {

/// Largest 48-bit address value.
pub const MAX_ADDR: u64 = 0xFFFF_FFFF_FFFF;

/// A decoded address block: the closed interval `[start, end]` of 48-bit
/// values it covers, and the bit length of its fixed prefix.
#[derive(Clone, Copy, Debug, PartialEq, Eq, Structural)]
pub struct DecodedBlock {
    pub start: u64,
    pub end: u64,
    pub mask: u8,
}

/// Which of the two decode failures a block notation exhibits.
#[derive(Clone, Copy, Debug, PartialEq, Eq, Structural)]
pub enum DecodeFault {
    /// The notation cannot be parsed into a value plus mask.
    Malformed,
    /// The mask parsed, but lies outside `[8, 48]`.
    BadMask,
}

/// The separator characters that are stripped from the value part:
/// `:`, `-` and `.`.
pub open spec fn is_sep(c: char) -> bool {
    c as u32 == 58 || c as u32 == 45 || c as u32 == 46
}

/// The value part with every separator character removed.
pub open spec fn stripped(s: Seq<char>) -> Seq<char>
    decreases s.len(),
{
    if s.len() == 0 {
        Seq::<char>::empty()
    } else if is_sep(s.last()) {
        stripped(s.drop_last())
    } else {
        stripped(s.drop_last()) + seq![s.last()]
    }
}

pub open spec fn is_hex_digit(c: char) -> bool {
    (48 <= c as u32 && c as u32 <= 57)  // '0' ..= '9'
    || (97 <= c as u32 && c as u32 <= 102)  // 'a' ..= 'f'
    || (65 <= c as u32 && c as u32 <= 70)  // 'A' ..= 'F'
}

/// The numeric value of one hex digit (0 for characters that are none).
pub open spec fn hex_digit_val(c: char) -> nat {
    if 48 <= c as u32 && c as u32 <= 57 {
        (c as u32 - 48) as nat
    } else if 97 <= c as u32 && c as u32 <= 102 {
        (c as u32 - 87) as nat
    } else if 65 <= c as u32 && c as u32 <= 70 {
        (c as u32 - 55) as nat
    } else {
        0
    }
}

pub open spec fn all_hex(s: Seq<char>) -> bool {
    forall|i: int| 0 <= i < s.len() ==> is_hex_digit(#[trigger] s[i])
}

/// The value of a hex digit string, most significant digit first.
pub open spec fn hex_value(s: Seq<char>) -> nat
    decreases s.len(),
{
    if s.len() == 0 {
        0
    } else {
        hex_value(s.drop_last()) * 16 + hex_digit_val(s.last())
    }
}

pub open spec fn is_dec_digit(c: char) -> bool {
    48 <= c as u32 && c as u32 <= 57
}

pub open spec fn all_dec(s: Seq<char>) -> bool {
    forall|i: int| 0 <= i < s.len() ==> is_dec_digit(#[trigger] s[i])
}

/// The value of a decimal digit string, most significant digit first.
pub open spec fn dec_value(s: Seq<char>) -> nat
    decreases s.len(),
{
    if s.len() == 0 {
        0
    } else {
        dec_value(s.drop_last()) * 10 + hex_digit_val(s.last())
    }
}

/// How many `/` characters the notation holds.
pub open spec fn slash_count(s: Seq<char>) -> nat
    decreases s.len(),
{
    if s.len() == 0 {
        0
    } else {
        slash_count(s.drop_last()) + if s.last() == '/' {
            1nat
        } else {
            0nat
        }
    }
}

/// The index of the first `/` in the notation, or `s.len()` if there is
/// none.
pub open spec fn first_slash(s: Seq<char>) -> int
    decreases s.len(),
{
    if s.len() == 0 {
        0
    } else if first_slash(s.drop_last()) < s.len() - 1 {
        first_slash(s.drop_last())
    } else if s[s.len() - 1] == '/' {
        s.len() - 1
    } else {
        s.len() as int
    }
}

/// Decodes the value part of a block notation against a given mask:
/// separators are stripped, the rest must be non-empty hex whose value fits
/// the 48-bit address space; a 24-bit mask shifts the value into the top 24
/// bits, every other mask takes the value as the full prefix as given.
pub open spec fn spec_decode_with_mask(value_part: Seq<char>, mask: int) -> Result<
    DecodedBlock,
    DecodeFault,
> {
    let st = stripped(value_part);
    if st.len() == 0 || !all_hex(st) {
        Err(DecodeFault::Malformed)
    } else if mask == 24 {
        if hex_value(st) >= 0x100_0000 {
            Err(DecodeFault::Malformed)
        } else {
            let start = (hex_value(st) * 0x100_0000) as u64;
            Ok(DecodedBlock { start, end: start | (MAX_ADDR >> 24u64), mask: 24u8 })
        }
    } else {
        if hex_value(st) > MAX_ADDR as nat {
            Err(DecodeFault::Malformed)
        } else {
            let start = hex_value(st) as u64;
            Ok(DecodedBlock { start, end: start | (MAX_ADDR >> mask as u64), mask: mask as u8 })
        }
    }
}

/// What decoding a block notation yields: split on `/`, an absent mask
/// defaults to 24, an explicit one must be a decimal number in `[8, 48]`.
pub open spec fn spec_decode(s: Seq<char>) -> Result<DecodedBlock, DecodeFault> {
    if slash_count(s) == 0 {
        spec_decode_with_mask(s, 24)
    } else if slash_count(s) == 1 {
        let mp = s.skip(first_slash(s) + 1);
        if mp.len() == 0 || !all_dec(mp) {
            Err(DecodeFault::Malformed)
        } else if 8 <= dec_value(mp) <= 48 {
            spec_decode_with_mask(s.take(first_slash(s)), dec_value(mp) as int)
        } else {
            Err(DecodeFault::BadMask)
        }
    } else {
        Err(DecodeFault::Malformed)
    }
}

/// The stripped form of a prefix is a prefix of the stripped whole.
proof fn lemma_stripped_prefix(s: Seq<char>, i: int)
    requires
        0 <= i <= s.len(),
    ensures
        stripped(s.take(i)).len() <= stripped(s).len(),
        forall|k: int|
            0 <= k < stripped(s.take(i)).len() ==> stripped(s)[k] == #[trigger] stripped(
                s.take(i),
            )[k],
    decreases s.len() - i,
{
    if i == s.len() {
        assert(s.take(i) =~= s);
    } else {
        assert(s.take(i + 1).drop_last() =~= s.take(i));
        assert(s.take(i + 1).last() == s[i]);
        lemma_stripped_prefix(s, i + 1);
        let st_i = stripped(s.take(i));
        let st_i1 = stripped(s.take(i + 1));
        if is_sep(s[i]) {
            assert(st_i1 == st_i);
        } else {
            assert(st_i1 == st_i + seq![s[i]]);
        }
        assert forall|k: int| 0 <= k < st_i.len() implies stripped(s)[k] == st_i[k] by {
            assert(st_i[k] == st_i1[k]);
            assert(stripped(s)[k] == st_i1[k]);
        }
    }
}

/// Appending digits can only grow the value of a hex string.
proof fn lemma_hex_value_prefix_le(s: Seq<char>, i: int)
    requires
        0 <= i <= s.len(),
    ensures
        hex_value(s.take(i)) <= hex_value(s),
    decreases s.len() - i,
{
    if i == s.len() {
        assert(s.take(i) =~= s);
    } else {
        assert(s.take(i + 1).drop_last() =~= s.take(i));
        lemma_hex_value_prefix_le(s, i + 1);
    }
}

/// Appending digits can only grow the value of a decimal string.
proof fn lemma_dec_value_prefix_le(s: Seq<char>, i: int)
    requires
        0 <= i <= s.len(),
    ensures
        dec_value(s.take(i)) <= dec_value(s),
    decreases s.len() - i,
{
    if i == s.len() {
        assert(s.take(i) =~= s);
    } else {
        assert(s.take(i + 1).drop_last() =~= s.take(i));
        lemma_dec_value_prefix_le(s, i + 1);
    }
}

/// Finds the `/` structure of a notation: how many slashes there are and
/// where the first one stands (`s.len()` when there is none).
fn scan_slash(s: &str) -> (r: (usize, usize))
    ensures
        r.0 == slash_count(s@),
        r.0 == 0 ==> r.1 == s@.len() && first_slash(s@) == s@.len(),
        r.0 > 0 ==> r.1 == first_slash(s@) && r.1 < s@.len(),
{
    let n = s.unicode_len();
    let mut slash_i: usize = 0;
    let mut slash_cnt: usize = 0;
    let mut i: usize = 0;
    while i < n
        invariant
            i <= n,
            n == s@.len(),
            slash_cnt <= i,
            slash_cnt == slash_count(s@.take(i as int)),
            slash_cnt == 0 ==> slash_i == i && first_slash(s@.take(i as int)) == i,
            slash_cnt > 0 ==> slash_i < i && first_slash(s@.take(i as int)) == slash_i,
        decreases n - i,
    {
        let c = s.get_char(i);
        proof {
            assert(s@.take(i as int + 1).drop_last() =~= s@.take(i as int));
            assert(s@.take(i as int + 1).last() == s@[i as int]);
        }
        if c == '/' {
            if slash_cnt == 0 {
                slash_i = i;
            }
            slash_cnt = slash_cnt + 1;
        } else {
            if slash_cnt == 0 {
                slash_i = i + 1;
            }
        }
        i = i + 1;
    }
    proof {
        assert(s@.take(n as int) =~= s@);
    }
    (slash_cnt, slash_i)
}

/// Parses an explicit mask text, the part of the notation after its `/`.
fn parse_mask(s: &str, from: usize) -> (r: Result<u64, OuiError>)
    requires
        from <= s@.len(),
    ensures
        ({
            let mp = s@.skip(from as int);
            match r {
                Ok(m) => mp.len() > 0 && all_dec(mp) && 8 <= dec_value(mp) <= 48 && m as nat
                    == dec_value(mp),
                Err(e) => match e {
                    OuiError::MalformedBlockNotation(t) => (mp.len() == 0 || !all_dec(mp)) && t@
                        == s@,
                    OuiError::InvalidMask(t) => mp.len() > 0 && all_dec(mp) && !(8 <= dec_value(mp)
                        <= 48) && t@ == s@,
                    _ => false,
                },
            }
        }),
{
    let n = s.unicode_len();
    let ghost mp = s@.skip(from as int);
    if from >= n {
        proof {
            assert(mp.len() == 0);
        }
        return Err(OuiError::MalformedBlockNotation(s.to_owned()));
    }
    // First pass: every mask character must be a decimal digit.
    let mut j: usize = from;
    while j < n
        invariant
            from <= j <= n,
            n == s@.len(),
            mp == s@.skip(from as int),
            all_dec(mp.take(j - from)),
        decreases n - j,
    {
        let c = s.get_char(j);
        proof {
            assert(mp[j - from] == s@[j as int]);
            assert(forall|k: int| 0 <= k < (j - from + 1) ==> #[trigger] mp.take(j - from + 1)[k]
                == mp[k]);
        }
        let cv = c as u32;
        if !(48 <= cv && cv <= 57) {
            proof {
                assert(!is_dec_digit(mp[j - from]));
                assert(!all_dec(mp));
            }
            return Err(OuiError::MalformedBlockNotation(s.to_owned()));
        }
        j = j + 1;
    }
    proof {
        assert(mp.take(n - from) =~= mp);
    }
    // Second pass: accumulate the value, stopping once it exceeds 48.
    let mut acc: u64 = 0;
    j = from;
    while j < n
        invariant
            from <= j <= n,
            n == s@.len(),
            mp == s@.skip(from as int),
            all_dec(mp),
            acc as nat == dec_value(mp.take(j - from)),
            acc <= 48,
        decreases n - j,
    {
        let c = s.get_char(j);
        proof {
            assert(mp[j - from] == s@[j as int]);
            assert(mp.take(j - from + 1).drop_last() =~= mp.take(j - from));
            assert(mp.take(j - from + 1).last() == mp[j - from]);
        }
        let d = (c as u32 - 48) as u64;
        let next = acc * 10 + d;
        if next > 48 {
            proof {
                lemma_dec_value_prefix_le(mp, j - from + 1);
            }
            return Err(OuiError::InvalidMask(s.to_owned()));
        }
        acc = next;
        j = j + 1;
    }
    proof {
        assert(mp.take(n - from) =~= mp);
    }
    if acc < 8 {
        return Err(OuiError::InvalidMask(s.to_owned()));
    }
    Ok(acc)
}

/// Parses the value part of a notation, the first `to` characters: strips
/// the separators and reads the rest as hex that must fit the 48-bit
/// address space.
fn parse_value_part(s: &str, to: usize) -> (r: Result<u64, OuiError>)
    requires
        to <= s@.len(),
    ensures
        ({
            let st = stripped(s@.take(to as int));
            match r {
                Ok(v) => st.len() > 0 && all_hex(st) && v as nat == hex_value(st) && v <= MAX_ADDR,
                Err(e) => match e {
                    OuiError::MalformedBlockNotation(t) => (st.len() == 0 || !all_hex(st)
                        || hex_value(st) > MAX_ADDR as nat) && t@ == s@,
                    _ => false,
                },
            }
        }),
{
    let ghost vps = s@.take(to as int);
    let mut acc: u64 = 0;
    let mut cnt_hex: usize = 0;
    let mut j: usize = 0;
    while j < to
        invariant
            j <= to,
            to <= s@.len(),
            vps == s@.take(to as int),
            cnt_hex <= j,
            cnt_hex == stripped(vps.take(j as int)).len(),
            all_hex(stripped(vps.take(j as int))),
            acc as nat == hex_value(stripped(vps.take(j as int))),
            acc <= MAX_ADDR,
        decreases to - j,
    {
        let c = s.get_char(j);
        proof {
            assert(vps[j as int] == s@[j as int]);
            assert(vps.take(j as int + 1).drop_last() =~= vps.take(j as int));
            assert(vps.take(j as int + 1).last() == vps[j as int]);
        }
        let cv = c as u32;
        if cv == 58 || cv == 45 || cv == 46 {
            proof {
                assert(is_sep(vps[j as int]));
                assert(stripped(vps.take(j as int + 1)) == stripped(vps.take(j as int)));
            }
            j = j + 1;
            continue ;
        }
        let d: u64;
        if 48 <= cv && cv <= 57 {
            d = (cv - 48) as u64;
        } else if 97 <= cv && cv <= 102 {
            d = (cv - 87) as u64;
        } else if 65 <= cv && cv <= 70 {
            d = (cv - 55) as u64;
        } else {
            proof {
                let st = stripped(vps.take(j as int));
                let st_pre = stripped(vps.take(j as int + 1));
                let st_all = stripped(vps);
                assert(!is_sep(vps[j as int]));
                assert(st_pre == st + seq![vps[j as int]]);
                assert(st_pre[st_pre.len() - 1] == vps[j as int]);
                lemma_stripped_prefix(vps, j as int + 1);
                assert(st_all[st_pre.len() - 1] == vps[j as int]);
                assert(!is_hex_digit(vps[j as int]));
                assert(!all_hex(st_all));
            }
            return Err(OuiError::MalformedBlockNotation(s.to_owned()));
        }
        proof {
            let st = stripped(vps.take(j as int));
            let st1 = stripped(vps.take(j as int + 1));
            assert(!is_sep(vps[j as int]));
            assert(is_hex_digit(vps[j as int]));
            assert(st1 == st + seq![vps[j as int]]);
            assert(st1.drop_last() =~= st);
            assert(st1.last() == vps[j as int]);
            assert(hex_value(st1) == hex_value(st) * 16 + hex_digit_val(vps[j as int]));
            assert(hex_digit_val(vps[j as int]) == d as nat);
            assert forall|k: int| 0 <= k < st1.len() implies is_hex_digit(st1[k]) by {
                if k < st.len() {
                    assert(st1[k] == st[k]);
                }
            }
        }
        let next = acc * 16 + d;
        if next > MAX_ADDR {
            proof {
                let st = stripped(vps.take(j as int));
                let st_pre = stripped(vps.take(j as int + 1));
                let st_all = stripped(vps);
                assert(hex_value(st_pre) == next as nat);
                lemma_stripped_prefix(vps, j as int + 1);
                assert(st_pre =~= st_all.take(st_pre.len() as int));
                lemma_hex_value_prefix_le(st_all, st_pre.len() as int);
                assert(hex_value(st_all) > MAX_ADDR as nat);
            }
            return Err(OuiError::MalformedBlockNotation(s.to_owned()));
        }
        acc = next;
        cnt_hex = cnt_hex + 1;
        j = j + 1;
    }
    proof {
        assert(vps.take(to as int) =~= vps);
    }
    if cnt_hex == 0 {
        return Err(OuiError::MalformedBlockNotation(s.to_owned()));
    }
    Ok(acc)
}

/// A successfully decoded block is a well-formed interval inside the
/// 48-bit address space, with a mask in `[8, 48]`.
pub proof fn lemma_decode_with_mask_bounds(vp: Seq<char>, m: int)
    requires
        8 <= m <= 48,
        spec_decode_with_mask(vp, m) is Ok,
    ensures
        ({
            let d = spec_decode_with_mask(vp, m)->Ok_0;
            &&& d.start <= d.end
            &&& d.end <= MAX_ADDR
            &&& d.mask == m
            &&& d.end == d.start | (MAX_ADDR >> m as u64)
        }),
{
    let d = spec_decode_with_mask(vp, m)->Ok_0;
    let v = hex_value(stripped(vp));
    if m == 24 {
        assert(v < 0x100_0000);
        assert(d.start == (v * 0x100_0000) as u64);
        assert(v * 0x100_0000 <= 0xFFFFFF * 0x100_0000) by (nonlinear_arith)
            requires
                v < 0x100_0000,
        ;
    }
    let sx = d.start;
    let mk = m as u64;
    assert(sx <= (sx | (0xFFFF_FFFF_FFFFu64 >> mk))) by (bit_vector);
    assert((sx | (0xFFFF_FFFF_FFFFu64 >> mk)) <= 0xFFFF_FFFF_FFFFu64) by (bit_vector)
        requires
            sx <= 0xFFFF_FFFF_FFFFu64,
    ;
}

/// A successfully decoded block notation always yields a well-formed
/// interval inside the 48-bit address space, with a mask in `[8, 48]`.
pub proof fn lemma_decode_ok_bounds(s: Seq<char>)
    requires
        spec_decode(s) is Ok,
    ensures
        ({
            let d = spec_decode(s)->Ok_0;
            &&& d.start <= d.end
            &&& d.end <= MAX_ADDR
            &&& 8 <= d.mask <= 48
            &&& d.end == (d.start | (MAX_ADDR >> (d.mask as u64)))
        }),
{
    if slash_count(s) == 0 {
        lemma_decode_with_mask_bounds(s, 24);
    } else {
        let mp = s.skip(first_slash(s) + 1);
        lemma_decode_with_mask_bounds(s.take(first_slash(s)), dec_value(mp) as int);
    }
}

/// Decodes one block notation into its closed 48-bit interval, exactly as
/// [`spec_decode`] states it. Any failure carries the whole notation as its
/// context.
pub fn decode_block_notation(s: &str) -> (r: Result<DecodedBlock, OuiError>)
    ensures
        (match r {
            Ok(d) => spec_decode(s@) == Ok::<DecodedBlock, DecodeFault>(d),
            Err(e) => match e {
                OuiError::MalformedBlockNotation(t) => spec_decode(s@) == Err::<
                    DecodedBlock,
                    DecodeFault,
                >(DecodeFault::Malformed) && t@ == s@,
                OuiError::InvalidMask(t) => spec_decode(s@) == Err::<DecodedBlock, DecodeFault>(
                    DecodeFault::BadMask,
                ) && t@ == s@,
                _ => false,
            },
        }),
{
    let n = s.unicode_len();
    let (slash_cnt, slash_i) = scan_slash(s);
    if slash_cnt >= 2 {
        return Err(OuiError::MalformedBlockNotation(s.to_owned()));
    }
    let mask: u64;
    if slash_cnt == 0 {
        mask = 24;
    } else {
        mask = match parse_mask(s, slash_i + 1) {
            Ok(m) => m,
            Err(e) => {
                return Err(e);
            },
        };
    }
    let vp_end: usize = if slash_cnt == 0 {
        n
    } else {
        slash_i
    };
    proof {
        if slash_cnt == 0 {
            assert(s@.take(n as int) =~= s@);
        }
    }
    let v = match parse_value_part(s, vp_end) {
        Ok(v) => v,
        Err(e) => {
            return Err(e);
        },
    };
    if mask == 24 {
        if v >= 0x100_0000 {
            return Err(OuiError::MalformedBlockNotation(s.to_owned()));
        }
        let start = v * 0x100_0000;
        Ok(DecodedBlock { start, end: start | (MAX_ADDR >> 24u64), mask: 24 })
    } else {
        Ok(DecodedBlock { start: v, end: v | (MAX_ADDR >> mask), mask: mask as u8 })
    }
}

/// Every valid block notation without an explicit mask decodes with the
/// default 24-bit mask to the interval that starts at its hex value
/// shifted into the top 24 bits and spans exactly 2^24 addresses.
pub proof fn lemma_default_mask_width(s: Seq<char>)
    requires
        slash_count(s) == 0,
        spec_decode(s) is Ok,
    ensures
        ({
            let d = spec_decode(s)->Ok_0;
            &&& d.mask == 24
            &&& d.start == hex_value(stripped(s)) * 0x100_0000
            &&& d.end + 1 - d.start == 0x100_0000
        }),
{
    let d = spec_decode(s)->Ok_0;
    let v = hex_value(stripped(s));
    assert(v < 0x100_0000);
    assert(v * 0x100_0000 <= 0xFFFFFF * 0x100_0000) by (nonlinear_arith)
        requires
            v < 0x100_0000,
    ;
    let st = d.start;
    assert(st as nat == v * 0x100_0000);
    assert(st % 0x100_0000 == 0) by (nonlinear_arith)
        requires
            st as nat == v * 0x100_0000,
    ;
    assert(MAX_ADDR >> 24u64 == 0xFFFFFFu64) by (bit_vector);
    assert((st | 0xFFFFFFu64) == st + 0xFFFFFF) by (bit_vector)
        requires
            st % 0x100_0000u64 == 0 && st <= 0xFFFFFF000000u64,
    ;
}

/// For every accepted mask, a block whose start is aligned to the block
/// size decodes to an interval exactly 2^(48 - mask) addresses wide, with
/// end == start | (width - 1).
pub proof fn lemma_mask_width(s: Seq<char>)
    requires
        spec_decode(s) is Ok,
        spec_decode(s)->Ok_0.start & (MAX_ADDR >> (spec_decode(s)->Ok_0.mask as u64)) == 0,
    ensures
        ({
            let d = spec_decode(s)->Ok_0;
            let wbits = MAX_ADDR >> (d.mask as u64);
            &&& 8 <= d.mask <= 48
            &&& d.end == (d.start | wbits)
            &&& wbits + 1 == (1u64 << ((48 - d.mask) as u64))
            &&& d.end + 1 - d.start == (1u64 << ((48 - d.mask) as u64))
        }),
{
    lemma_decode_ok_bounds(s);
    if slash_count(s) == 0 {
        lemma_decode_with_mask_bounds(s, 24);
    } else {
        let mp = s.skip(first_slash(s) + 1);
        lemma_decode_with_mask_bounds(s.take(first_slash(s)), dec_value(mp) as int);
    }
    let d = spec_decode(s)->Ok_0;
    let st = d.start;
    let mk = d.mask as u64;
    assert(d.end == (st | (0xFFFF_FFFF_FFFFu64 >> mk)));
    assert((st & (0xFFFF_FFFF_FFFFu64 >> mk)) == 0 ==> (st | (0xFFFF_FFFF_FFFFu64 >> mk)) == st
        + (0xFFFF_FFFF_FFFFu64 >> mk)) by (bit_vector);
    assert(8 <= mk <= 48 ==> (0xFFFF_FFFF_FFFFu64 >> mk) + 1 == (1u64 << (((48u64 - mk) as u64))))
        by (bit_vector);
    assert((1u64 << ((48 - d.mask) as u64)) == (1u64 << (((48u64 - mk) as u64))));
}

} // verus!
