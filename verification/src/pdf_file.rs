//! The file-level structural reader: header sniff, trailer location through
//! the `startxref` footer, cross-reference table load, and indirect-object
//! resolution.

use vstd::prelude::*;
use vstd::slice::slice_subrange;

use crate::bytes::{is_newline, is_digit};
use crate::error::{Error, SpecError};
use crate::grammar::{
    spec_parse_whitespace, spec_parse_keyword, spec_parse_number, digits_only, dec_value,
    lemma_skip_ws_bounds, lemma_parse_number_consumes, lemma_dec_value_step,
};
use crate::keywords::{
    kw_header, kw_eof_marker, kw_startxref, kw_xref, kw_trailer, kw_endobj,
    header_prefix, eof_marker, startxref_keyword, xref_keyword, trailer_keyword, endobj_keyword,
};
use crate::objects::{IndirectRef, Object, SpecObject};
use crate::parser::{spec_parse_object_until, parse_object_until_keyword};
use crate::scan::{last_match, last_position_of_sequence, lemma_last_match_until, bytes_eq};
use crate::tokens::{tail, parse_whitespace, parse_keyword, parse_number};

verus! {

/// One row of the cross-reference table: which reference it is for, and the
/// byte offset of its object, or nothing when the entry is free.
pub struct XrefEntry {
    pub reference: IndirectRef,
    pub offset: Option<u64>,
}

/// The mapping a list of rows builds: a later row for the same reference
/// shadows an earlier one.
pub open spec fn table_view(t: Seq<XrefEntry>) -> Map<IndirectRef, Option<u64>>
    decreases t.len(),
{
    if t.len() == 0 {
        Map::empty()
    } else {
        table_view(t.drop_last()).insert(t.last().reference, t.last().offset)
    }
}

/// A row appended to the table inserts its mapping.
proof fn lemma_table_push(t: Seq<XrefEntry>, e: XrefEntry)
    ensures
        table_view(t.push(e)) == table_view(t).insert(e.reference, e.offset),
{
    assert(t.push(e).drop_last() =~= t);
}

/// `s` ends with `pat`.
pub open spec fn ends_with(s: Seq<u8>, pat: Seq<u8>) -> bool {
    s.len() >= pat.len() && s.skip(s.len() - pat.len()) == pat
}

/// The index of the first newline byte at or after `i`.
pub open spec fn find_newline(s: Seq<u8>, i: int) -> Option<int>
    recommends
        0 <= i,
    decreases s.len() - i + 1,
{
    if i < 0 || i >= s.len() {
        None
    } else if is_newline(s[i]) {
        Some(i)
    } else {
        find_newline(s, i + 1)
    }
}

// ---------------------------------------------------------------------------
// The file-level grammar
// ---------------------------------------------------------------------------

/// The version named in the header: the file must start with `%PDF-`, and the
/// version runs from there to the first newline.
pub open spec fn spec_version(s: Seq<u8>) -> Result<Seq<u8>, SpecError> {
    if !(s.len() >= 5 && s.take(5) == kw_header()) {
        Err(SpecError::Syntax)
    } else {
        match find_newline(s, 5) {
            None => Err(SpecError::Syntax),
            Some(j) => Ok(s.subrange(5, j)),
        }
    }
}

/// The offset named after the last `startxref` keyword. The file must end
/// with `%%EOF`, optionally followed by a single newline.
pub open spec fn spec_last_xref_offset(s: Seq<u8>) -> Result<u64, SpecError> {
    let proper_end = ends_with(s, kw_eof_marker()) || (s.len() >= 1 && s.last() == 0x0a
        && ends_with(s.drop_last(), kw_eof_marker()));
    if !proper_end {
        Err(SpecError::Syntax)
    } else {
        match last_match(s, kw_startxref()) {
            None => Err(SpecError::Syntax),
            Some(p) => {
                let r = s.skip(p);
                match spec_parse_keyword(r) {
                    Err(e) => Err(e),
                    Ok((kw, r2)) => {
                        if kw != kw_startxref() {
                            Err(SpecError::Syntax)
                        } else {
                            match spec_parse_number(r2) {
                                Err(e) => Err(e),
                                Ok((v, _)) => Ok(v),
                            }
                        }
                    },
                }
            },
        }
    }
}

/// The rows of one cross-reference subsection: `count` fixed-width lines of
/// twenty bytes each, numbering objects upward from `first`. Each line holds
/// a ten-digit offset, a five-digit generation, and `n` for a live entry.
pub open spec fn spec_xref_lines(
    s: Seq<u8>,
    first: int,
    count: int,
    m: Map<IndirectRef, Option<u64>>,
) -> Result<(Map<IndirectRef, Option<u64>>, Seq<u8>), SpecError>
    decreases count,
{
    if count <= 0 {
        Ok((m, s))
    } else if s.len() < 20 {
        Err(SpecError::Eof)
    } else {
        let off_t = s.subrange(0, 10);
        let gen_t = s.subrange(11, 16);
        if !digits_only(off_t) || !digits_only(gen_t) {
            Err(SpecError::ParseInt)
        } else if dec_value(gen_t) > u16::MAX {
            Err(SpecError::ParseInt)
        } else if first > u32::MAX {
            Err(SpecError::Syntax)
        } else {
            let reference = IndirectRef {
                number: first as u32,
                generation: dec_value(gen_t) as u16,
            };
            let offset = if s[17] == 0x6e {
                Some(dec_value(off_t) as u64)
            } else {
                None::<u64>
            };
            spec_xref_lines(s.skip(20), first + 1, count - 1, m.insert(reference, offset))
        }
    }
}

/// One cross-reference subsection: two whitespace-separated numbers, the
/// first object number and the row count, then exactly that many rows.
pub open spec fn spec_xref_subsection(s: Seq<u8>, m: Map<IndirectRef, Option<u64>>) -> Result<
    (Map<IndirectRef, Option<u64>>, Seq<u8>),
    SpecError,
> {
    match spec_parse_number(s) {
        Err(e) => Err(e),
        Ok((first, r1)) => match spec_parse_number(r1) {
            Err(e) => Err(e),
            Ok((count, r2)) => match spec_parse_whitespace(r2) {
                Err(e) => Err(e),
                Ok(r3) => spec_xref_lines(r3, first as int, count as int, m),
            },
        },
    }
}

/// A subsection consumes at least one byte.
proof fn lemma_xref_lines_len(s: Seq<u8>, first: int, count: int, m: Map<IndirectRef, Option<u64>>)
    ensures
        spec_xref_lines(s, first, count, m) matches Ok((m2, r)) ==> r.len() <= s.len(),
    decreases count,
{
    if count > 0 && s.len() >= 20 {
        let off_t = s.subrange(0, 10);
        let gen_t = s.subrange(11, 16);
        if digits_only(off_t) && digits_only(gen_t) && dec_value(gen_t) <= u16::MAX && first
            <= u32::MAX {
            let reference = IndirectRef {
                number: first as u32,
                generation: dec_value(gen_t) as u16,
            };
            let offset = if s[17] == 0x6e {
                Some(dec_value(off_t) as u64)
            } else {
                None::<u64>
            };
            lemma_xref_lines_len(s.skip(20), first + 1, count - 1, m.insert(reference, offset));
            }
    }
}

/// A subsection consumes at least one byte.
pub(crate) proof fn lemma_xref_subsection_len(s: Seq<u8>, m: Map<IndirectRef, Option<u64>>)
    ensures
        spec_xref_subsection(s, m) matches Ok((m2, r)) ==> r.len() < s.len(),
{
    lemma_parse_number_consumes(s);
    match spec_parse_number(s) {
        Err(_) => (),
        Ok((first, r1)) => {
            lemma_parse_number_consumes(r1);
            match spec_parse_number(r1) {
                Err(_) => (),
                Ok((count, r2)) => {
                    lemma_skip_ws_bounds(r2, false);
                    match spec_parse_whitespace(r2) {
                        Err(_) => (),
                        Ok(r3) => {
                            lemma_xref_lines_len(r3, first as int, count as int, m);
                        },
                    }
                },
            }
        },
    }
}

/// The subsections that follow the first one, ended by the `trailer` keyword.
pub open spec fn spec_xref_sections(s: Seq<u8>, m: Map<IndirectRef, Option<u64>>) -> Result<
    Map<IndirectRef, Option<u64>>,
    SpecError,
>
    decreases s.len(),
    via spec_xref_sections_decreases
{
    match spec_parse_whitespace(s) {
        Err(e) => Err(e),
        Ok(r) => {
            if is_digit(r[0]) {
                match spec_xref_subsection(s, m) {
                    Err(e) => Err(e),
                    Ok((m2, rest)) => spec_xref_sections(rest, m2),
                }
            } else {
                match spec_parse_keyword(r) {
                    Err(e) => Err(e),
                    Ok((kw, _)) => {
                        if kw == kw_trailer() {
                            Ok(m)
                        } else {
                            Err(SpecError::Syntax)
                        }
                    },
                }
            }
        },
    }
}

#[via_fn]
proof fn spec_xref_sections_decreases(s: Seq<u8>, m: Map<IndirectRef, Option<u64>>) {
    lemma_skip_ws_bounds(s, false);
    match spec_parse_whitespace(s) {
        Err(_) => (),
        Ok(r) => {
            lemma_xref_subsection_len(s, m);
        },
    }
}

/// The whole cross-reference table: found through the last `startxref`
/// offset, introduced by the `xref` keyword, holding at least one subsection,
/// and ended by the `trailer` keyword.
pub open spec fn spec_load_xref_table(s: Seq<u8>) -> Result<
    Map<IndirectRef, Option<u64>>,
    SpecError,
> {
    match spec_last_xref_offset(s) {
        Err(e) => Err(e),
        Ok(off) => {
            if off > s.len() {
                Err(SpecError::Syntax)
            } else {
                let r = s.skip(off as int);
                match spec_parse_keyword(r) {
                    Err(e) => Err(e),
                    Ok((kw, r1)) => {
                        if kw != kw_xref() {
                            Err(SpecError::Syntax)
                        } else {
                            match spec_xref_subsection(r1, Map::empty()) {
                                Err(e) => Err(e),
                                Ok((m, rest)) => spec_xref_sections(rest, m),
                            }
                        }
                    },
                }
            }
        },
    }
}

/// The trailer dictionary: the object after the last `trailer` keyword,
/// ended by `startxref`. It must be a dictionary.
pub open spec fn spec_trailer(s: Seq<u8>) -> Result<SpecObject, SpecError> {
    match last_match(s, kw_trailer()) {
        None => Err(SpecError::Syntax),
        Some(p) => {
            let r = s.skip(p + kw_trailer().len());
            match spec_parse_object_until(r, kw_startxref()) {
                Err(e) => Err(e),
                Ok(((envl, o), _)) => {
                    if o is Dictionary {
                        Ok(o)
                    } else {
                        Err(SpecError::Syntax)
                    }
                },
            }
        },
    }
}

/// Resolution of one object against the table. Anything that is not an
/// indirect reference comes back unchanged. A reference is looked up, the
/// object at the recorded offset is parsed up to `endobj`, and its envelope
/// identity must equal the reference that reached it.
pub open spec fn spec_resolve(
    s: Seq<u8>,
    table: Option<Map<IndirectRef, Option<u64>>>,
    o: SpecObject,
) -> Result<SpecObject, SpecError> {
    match o {
        SpecObject::Indirect(ind) => match table {
            None => Err(SpecError::NotLoaded),
            Some(m) => {
                if !m.contains_key(ind) {
                    Err(SpecError::ObjectNotFound(ind))
                } else {
                    match m[ind] {
                        None => Err(SpecError::ObjectNotFound(ind)),
                        Some(off) => {
                            if off > s.len() {
                                Err(SpecError::Syntax)
                            } else {
                                match spec_parse_object_until(s.skip(off as int), kw_endobj()) {
                                    Err(e) => Err(e),
                                    Ok(((envl, inner), _)) => match envl {
                                        None => Err(SpecError::Syntax),
                                        Some(id) => {
                                            if id == ind {
                                                Ok(inner)
                                            } else {
                                                Err(SpecError::Syntax)
                                            }
                                        },
                                    },
                                }
                            }
                        },
                    }
                }
            },
        },
        _ => Ok(o),
    }
}

// ---------------------------------------------------------------------------
// Fixed-width digit fields
// ---------------------------------------------------------------------------

/// The powers of ten.
pub open spec fn pow10(n: nat) -> int
    decreases n,
{
    if n == 0 {
        1
    } else {
        10 * pow10((n - 1) as nat)
    }
}

/// A digit string's value is bounded by the power of ten of its length.
proof fn lemma_dec_value_digits_bound(t: Seq<u8>)
    requires
        digits_only(t),
    ensures
        0 <= dec_value(t) < pow10(t.len() as nat),
    decreases t.len(),
{
    if t.len() > 0 {
        assert(digits_only(t.take(t.len() - 1)));
        lemma_dec_value_digits_bound(t.take(t.len() - 1));
    }
}

/// The powers of ten grow.
proof fn lemma_pow10_mono(a: nat, b: nat)
    requires
        a <= b,
    ensures
        1 <= pow10(a) <= pow10(b),
    decreases b,
{
    if a < b {
        lemma_pow10_mono(a, (b - 1) as nat);
    } else {
        lemma_pow10_pos(a);
    }
}

/// The powers of ten are positive.
proof fn lemma_pow10_pos(n: nat)
    ensures
        pow10(n) >= 1,
    decreases n,
{
    if n > 0 {
        lemma_pow10_pos((n - 1) as nat);
    }
}

/// The powers of ten this reader needs, written out.
proof fn lemma_pow10_concrete()
    ensures
        pow10(9) == 1_000_000_000,
        pow10(10) == 10_000_000_000,
{
    reveal_with_fuel(pow10, 12);
}

/// Reads a fixed-width decimal field of `count` bytes at index `start`: every
/// byte must be a digit.
#[verifier::loop_isolation(false)]
fn parse_fixed_digits(raw: &[u8], start: usize, count: usize) -> (r: Result<u64, Error>)
    requires
        start + count <= raw@.len(),
        count <= 10,
    ensures
        match r {
            Ok(v) => digits_only(raw@.subrange(start as int, start + count))
                && v == dec_value(raw@.subrange(start as int, start + count)),
            Err(e) => !digits_only(raw@.subrange(start as int, start + count))
                && e@ is ParseInt,
        },
{
    let rn = raw.len();
    let ghost d = raw@.subrange(start as int, start + count);
    let mut val: u64 = 0;
    let mut j: usize = 0;
    proof {
        assert(d.take(0) =~= Seq::<u8>::empty());
        lemma_pow10_concrete();
    }
    while j < count
        invariant
            0 <= j <= count <= 10,
            start + count <= rn == raw@.len(),
            d == raw@.subrange(start as int, start + count),
            digits_only(d.take(j as int)),
            val == dec_value(d.take(j as int)),
            val < pow10(j as nat),
        decreases count - j,
    {
        let c = raw[start + j];
        proof {
            assert(d[j as int] == c);
        }
        if !(0x30 <= c && c <= 0x39) {
            proof {
                assert(!is_digit(d[j as int]));
            }
            return Err(Error::ParseInt);
        }
        proof {
            lemma_dec_value_step(d, j as int);
            lemma_pow10_mono(j as nat, 9);
            assert(digits_only(d.take(j + 1)));
        }
        val = val * 10 + ((c - 0x30) as u64);
        j = j + 1;
    }
    proof {
        assert(d.take(count as int) =~= d);
    }
    Ok(val)
}

/// Reads one cross-reference subsection, appending its rows to the table.
#[verifier::loop_isolation(false)]
fn read_subsection<'a>(r: &'a [u8], tbl: &mut Vec<XrefEntry>) -> (res: Result<&'a [u8], Error>)
    ensures
        match res {
            Ok(rest) => spec_xref_subsection(r@, table_view(old(tbl)@)) == Ok::<
                (Map<IndirectRef, Option<u64>>, Seq<u8>),
                SpecError,
            >((table_view(final(tbl)@), rest@)),
            Err(e) => spec_xref_subsection(r@, table_view(old(tbl)@)) == Err::<
                (Map<IndirectRef, Option<u64>>, Seq<u8>),
                SpecError,
            >(e@),
        },
{
    let (first, r1) = match parse_number(r) {
        Ok(x) => x,
        Err(e) => {
            return Err(e);
        },
    };
    let (count, r2) = match parse_number(r1) {
        Ok(x) => x,
        Err(e) => {
            return Err(e);
        },
    };
    let (_, r3) = match parse_whitespace(r2) {
        Ok(x) => x,
        Err(e) => {
            return Err(e);
        },
    };
    let mut cur = r3;
    let mut i: u64 = 0;
    let mut num: u64 = first;
    proof {
        lemma_pow10_concrete();
    }
    loop
        invariant
            0 <= i <= count,
            num == first + i,
            spec_xref_lines(r3@, first as int, count as int, table_view(old(tbl)@))
                == spec_xref_lines(cur@, first + i, count - i, table_view(tbl@)),
        decreases count - i,
    {
        if i == count {
            return Ok(cur);
        }
        let n = cur.len();
        if n < 20 {
            return Err(Error::EOF);
        }
        let off_v = match parse_fixed_digits(cur, 0, 10) {
            Ok(v) => v,
            Err(e) => {
                return Err(e);
            },
        };
        let gen_v = match parse_fixed_digits(cur, 11, 5) {
            Ok(v) => v,
            Err(e) => {
                return Err(e);
            },
        };
        if gen_v > 0xffff {
            return Err(Error::ParseInt);
        }
        if num > 0xffff_ffff {
            return Err(Error::Syntax("an object number is out of range"));
        }
        let in_use = cur[17] == 0x6e;
        let reference = IndirectRef { number: num as u32, generation: gen_v as u16 };
        let offset: Option<u64> = if in_use {
            Some(off_v)
        } else {
            None
        };
        proof {
            let off_t = cur@.subrange(0, 10);
            lemma_dec_value_digits_bound(off_t);
            assert(dec_value(off_t) < pow10(10));
            lemma_table_push(tbl@, XrefEntry { reference, offset });
        }
        tbl.push(XrefEntry { reference, offset });
        let next = tail(cur, 20);
        proof {
            assert(next@ =~= cur@.skip(20));
        }
        cur = next;
        i = i + 1;
        num = num + 1;
    }
}

// ---------------------------------------------------------------------------
// The reader
// ---------------------------------------------------------------------------

/// A reader over the bytes of one PDF file. The cross-reference table is
/// loaded once, on request, and is read-only thereafter.
pub struct PdfFile {
    pub raw: Vec<u8>,
    pub xref_table: Option<Vec<XrefEntry>>,
}

impl PdfFile {
    /// The mapping the loaded table holds, or nothing before the load.
    pub open spec fn table_model(&self) -> Option<Map<IndirectRef, Option<u64>>> {
        match self.xref_table {
            Some(t) => Some(table_view(t@)),
            None => None,
        }
    }

    /// Wraps the bytes of a PDF file. Nothing is parsed yet.
    pub fn from_raw(raw: Vec<u8>) -> (r: Self)
        ensures
            r.raw@ == raw@,
            r.xref_table is None,
    {
        PdfFile { raw, xref_table: None }
    }

    /// The version named in the file's header: the bytes between `%PDF-` and
    /// the first newline.
    #[verifier::loop_isolation(false)]
    pub fn version(&self) -> (r: Result<Vec<u8>, Error>)
        ensures
            match r {
                Ok(v) => spec_version(self.raw@) == Ok::<Seq<u8>, SpecError>(v@),
                Err(e) => spec_version(self.raw@) == Err::<Seq<u8>, SpecError>(e@),
            },
    {
        let n = self.raw.len();
        let header = header_prefix();
        if n < 5 {
            return Err(Error::Syntax("could not find the file header"));
        }
        proof {
            assert(self.raw@.subrange(0, 5) =~= self.raw@.take(5));
        }
        if !bytes_eq(slice_subrange(self.raw.as_slice(), 0, 5), header.as_slice()) {
            return Err(Error::Syntax("could not find the file header"));
        }
        let mut i: usize = 5;
        while i < n && !(self.raw[i] == 0x0a || self.raw[i] == 0x0d)
            invariant
                5 <= i <= n,
                n == self.raw@.len(),
                find_newline(self.raw@, 5) == find_newline(self.raw@, i as int),
            decreases n - i,
        {
            i = i + 1;
        }
        if i == n {
            return Err(Error::Syntax("could not find the end of the header line"));
        }
        Ok(vstd::slice::slice_to_vec(slice_subrange(self.raw.as_slice(), 5, i)))
    }

    /// The offset of the last cross-reference section, read from the number
    /// after the last `startxref` keyword. The file must end with `%%EOF`,
    /// optionally followed by a single newline.
    pub fn last_xref_offset(&self) -> (r: Result<u64, Error>)
        ensures
            match r {
                Ok(v) => spec_last_xref_offset(self.raw@) == Ok::<u64, SpecError>(v),
                Err(e) => spec_last_xref_offset(self.raw@) == Err::<u64, SpecError>(e@),
            },
    {
        let n = self.raw.len();
        let marker = eof_marker();
        let mut proper_end = false;
        if n >= 5 {
            proof {
                assert(self.raw@.subrange(n - 5, n as int) =~= self.raw@.skip(n - 5));
            }
            if bytes_eq(slice_subrange(self.raw.as_slice(), n - 5, n), marker.as_slice()) {
                proper_end = true;
            }
        }
        if !proper_end && n >= 6 && self.raw[n - 1] == 0x0a {
            proof {
                assert(self.raw@.drop_last().skip(n - 6) =~= self.raw@.subrange(n - 6, n - 1));
            }
            if bytes_eq(slice_subrange(self.raw.as_slice(), n - 6, n - 1), marker.as_slice()) {
                proper_end = true;
            }
        }
        if !proper_end {
            return Err(Error::Syntax("could not find the end-of-file marker"));
        }
        let sxk = startxref_keyword();
        let p = match last_position_of_sequence(self.raw.as_slice(), sxk.as_slice()) {
            None => {
                return Err(Error::Syntax("could not find the startxref keyword"));
            },
            Some(p) => p,
        };
        proof {
            lemma_last_match_until(self.raw@, kw_startxref(), self.raw@.len() - 9);
        }
        let r = tail(self.raw.as_slice(), p);
        let (kw, r2) = match parse_keyword(r) {
            Ok(x) => x,
            Err(e) => {
                return Err(e);
            },
        };
        if !bytes_eq(kw, sxk.as_slice()) {
            return Err(Error::Syntax("could not read the startxref keyword"));
        }
        match parse_number(r2) {
            Ok((v, _)) => Ok(v),
            Err(e) => Err(e),
        }
    }

    /// Loads the cross-reference table, once: the `xref` keyword at the
    /// recorded offset, one or more subsections, then the `trailer` keyword.
    /// A second call is a no-op.
    #[verifier::loop_isolation(false)]
    pub fn load_xref_table(&mut self) -> (res: Result<(), Error>)
        ensures
            final(self).raw@ == old(self).raw@,
            old(self).xref_table is Some ==> res is Ok && final(self).xref_table
                == old(self).xref_table,
            old(self).xref_table is None ==> match res {
                Ok(u) => {
                    &&& spec_load_xref_table(old(self).raw@) matches Ok(m)
                    &&& final(self).table_model() == Some(m)
                },
                Err(e) => spec_load_xref_table(old(self).raw@) == Err::<
                    Map<IndirectRef, Option<u64>>,
                    SpecError,
                >(e@) && final(self).xref_table is None,
            },
    {
        if self.xref_table.is_some() {
            return Ok(());
        }
        let off = match self.last_xref_offset() {
            Ok(v) => v,
            Err(e) => {
                return Err(e);
            },
        };
        if off > self.raw.len() as u64 {
            return Err(Error::Syntax("the startxref offset points past the end of the file"));
        }
        let r = tail(self.raw.as_slice(), off as usize);
        let (kw, r1) = match parse_keyword(r) {
            Ok(x) => x,
            Err(e) => {
                return Err(e);
            },
        };
        let xk = xref_keyword();
        if !bytes_eq(kw, xk.as_slice()) {
            return Err(Error::Syntax("could not find the xref keyword"));
        }
        let mut tbl: Vec<XrefEntry> = Vec::new();
        proof {
            assert(table_view(tbl@) =~= Map::<IndirectRef, Option<u64>>::empty());
        }
        let mut rest = match read_subsection(r1, &mut tbl) {
            Ok(x) => x,
            Err(e) => {
                return Err(e);
            },
        };
        loop
            invariant
                spec_load_xref_table(self.raw@) == spec_xref_sections(rest@, table_view(tbl@)),
                self.raw@ == old(self).raw@,
                self.xref_table is None,
            decreases rest@.len(),
        {
            proof {
                lemma_skip_ws_bounds(rest@, false);
            }
            let (_, r2) = match parse_whitespace(rest) {
                Ok(x) => x,
                Err(e) => {
                    return Err(e);
                },
            };
            let c = r2[0];
            if 0x30 <= c && c <= 0x39 {
                proof {
                    lemma_xref_subsection_len(rest@, table_view(tbl@));
                }
                rest = match read_subsection(rest, &mut tbl) {
                    Ok(x) => x,
                    Err(e) => {
                        return Err(e);
                    },
                };
            } else {
                let (kw2, _) = match parse_keyword(r2) {
                    Ok(x) => x,
                    Err(e) => {
                        return Err(e);
                    },
                };
                let tk = trailer_keyword();
                if bytes_eq(kw2, tk.as_slice()) {
                    self.xref_table = Some(tbl);
                    return Ok(());
                }
                return Err(
                    Error::Syntax("expected the trailer after the cross-reference table"),
                );
            }
        }
    }

    /// The byte offset recorded for the reference. `NotLoaded` before the
    /// table is loaded; `ObjectNotFound` on a missing or free entry. Once the
    /// table is loaded, every lookup answers with an offset or with
    /// `ObjectNotFound`, never with `NotLoaded`.
    #[verifier::loop_isolation(false)]
    pub fn indirect_object_offset(&self, reference: IndirectRef) -> (r: Result<u64, Error>)
        ensures
            match self.table_model() {
                None => r == Err::<u64, Error>(Error::NotLoaded),
                Some(m) => match r {
                    Ok(off) => m.contains_key(reference) && m[reference] == Some(off),
                    Err(e) => {
                        &&& e@ == SpecError::ObjectNotFound(reference)
                        &&& !(m.contains_key(reference) && m[reference] is Some)
                    },
                },
            },
    {
        let tbl = match &self.xref_table {
            None => {
                return Err(Error::NotLoaded);
            },
            Some(t) => t,
        };
        let ghost m = table_view(tbl@);
        let mut k = tbl.len();
        proof {
            assert(tbl@.take(tbl@.len() as int) =~= tbl@);
        }
        loop
            invariant
                0 <= k <= tbl@.len(),
                m == table_view(tbl@),
                self.table_model() == Some(m),
                m.contains_key(reference) == table_view(tbl@.take(k as int)).contains_key(
                    reference,
                ),
                m.contains_key(reference) ==> m[reference] == table_view(
                    tbl@.take(k as int),
                )[reference],
            decreases k,
        {
            if k == 0 {
                proof {
                    assert(tbl@.take(0).len() == 0);
                    assert(!table_view(tbl@.take(0)).contains_key(reference));
                }
                return Err(Error::ObjectNotFound(reference));
            }
            k = k - 1;
            proof {
                assert(tbl@.take(k + 1).drop_last() =~= tbl@.take(k as int));
                assert(tbl@.take(k + 1).last() == tbl@[k as int]);
            }
            let entry = &tbl[k];
            if entry.reference.number == reference.number && entry.reference.generation
                == reference.generation {
                proof {
                    assert(entry.reference == reference);
                }
                match entry.offset {
                    Some(off) => {
                        return Ok(off);
                    },
                    None => {
                        return Err(Error::ObjectNotFound(reference));
                    },
                }
                }
        }
    }

    /// The trailer dictionary: the object after the last `trailer` keyword,
    /// ended by `startxref`.
    pub fn trailer(&self) -> (r: Result<Object, Error>)
        ensures
            match r {
                Ok(o) => spec_trailer(self.raw@) == Ok::<SpecObject, SpecError>(o@),
                Err(e) => spec_trailer(self.raw@) == Err::<SpecObject, SpecError>(e@),
            },
    {
        let tk = trailer_keyword();
        let p = match last_position_of_sequence(self.raw.as_slice(), tk.as_slice()) {
            None => {
                return Err(Error::Syntax("could not find the trailer keyword"));
            },
            Some(p) => p,
        };
        let n = self.raw.len();
        proof {
            lemma_last_match_until(self.raw@, kw_trailer(), self.raw@.len() - 7);
            assert(p + 7 <= n);
        }
        let r = tail(self.raw.as_slice(), p + 7);
        let sxk = startxref_keyword();
        let ((envl, obj), _) = match parse_object_until_keyword(r, sxk.as_slice()) {
            Ok(x) => x,
            Err(e) => {
                return Err(e);
            },
        };
        match &obj {
            Object::Dictionary(_) => Ok(obj),
            _ => Err(Error::Syntax("the trailer must hold a dictionary")),
        }
    }

    /// Resolves one object. Anything that is not an indirect reference comes
    /// back unchanged, as a fresh copy. A reference is looked up in the
    /// table, the object at the recorded offset is parsed up to `endobj`, and
    /// its envelope identity must equal the reference that reached it.
    pub fn resolve(&self, object: &Object) -> (res: Result<Object, Error>)
        ensures
            match res {
                Ok(o) => spec_resolve(self.raw@, self.table_model(), object@)
                    == Ok::<SpecObject, SpecError>(o@),
                Err(e) => spec_resolve(self.raw@, self.table_model(), object@)
                    == Err::<SpecObject, SpecError>(e@),
            },
    {
        let ind = match object {
            Object::Indirect(ind) => *ind,
            _ => {
                return Ok(object.duplicate());
            },
        };
        let off = match self.indirect_object_offset(ind) {
            Ok(v) => v,
            Err(e) => {
                return Err(e);
            },
        };
        if off > self.raw.len() as u64 {
            return Err(Error::Syntax("an object offset points past the end of the file"));
        }
        let r = tail(self.raw.as_slice(), off as usize);
        let ek = endobj_keyword();
        let ((envl, obj), _) = match parse_object_until_keyword(r, ek.as_slice()) {
            Ok(x) => x,
            Err(e) => {
                return Err(e);
            },
        };
        match envl {
            None => Err(Error::Syntax("could not find the object envelope")),
            Some(id) => {
                if id.number == ind.number && id.generation == ind.generation {
                    proof {
                        assert(id == ind);
                    }
                    Ok(obj)
                } else {
                    Err(
                        Error::Syntax(
                            "the object and generation numbers do not match the table",
                        ),
                    )
                }
            },
        }
    }
}

} // verus!
