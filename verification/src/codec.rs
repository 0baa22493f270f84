//! The file codec: the strictly sequential decode pipeline over a byte
//! buffer, and the byte-exact encoder.

use crate::bb_table::spec_bb_payload;
use crate::bb_table::spec_decode_bbs;
use crate::model::CoverageData;
use crate::model::CoverageDataView;
use crate::model::Error;
use crate::model::FileHeader;
use crate::model::ModuleEntry;
use crate::model::ModuleEntryView;
use crate::model::ModuleTableVersion;
use crate::model::SUPPORTED_FILE_VERSION;
use crate::model::spec_entries_view;
use crate::module_table::Col;
use crate::module_table::col_of;
use crate::module_table::parse_module_entry;
use crate::module_table::spec_col_of;
use crate::module_table::spec_entry_of_line;
use crate::module_table::spec_module_line;
use crate::module_table::write_module_line;
use crate::numeric::parse_u32_dec;
use crate::numeric::parse_usize_dec;
use crate::numeric::spec_dec_digits;
use crate::numeric::spec_parse_uint;
use crate::strutil::lemma_encode_utf8_concat;
use crate::strutil::push_dec_chars;
use crate::strutil::push_str_bytes;
use crate::text::first_token;
use crate::text::spec_first_token;
use crate::text::spec_has_prefix;
use crate::text::spec_split;
use crate::text::spec_trim;
use crate::text::split_all;
use crate::text::strip_prefix;
use crate::text::trim;
use vstd::prelude::*;
use vstd::string::StringExecFns;
use vstd::slice::slice_subrange;
use vstd::utf8::decode_utf8;
use vstd::utf8::encode_utf8;
use vstd::utf8::valid_utf8;

verus! {

/// The variant of [`Error`] that a decode outcome carries, with the
/// rejected version value where one is carried.
pub enum ErrorKind {
    Io,
    Format,
    Unsupported(u32),
    ModuleTable,
    BbTable,
    Validation,
}

/// Which [`ErrorKind`] an error value belongs to.
pub open spec fn spec_err_kind(e: Error) -> ErrorKind {
    match e {
        Error::Io(_) => ErrorKind::Io,
        Error::InvalidFormat(_) => ErrorKind::Format,
        Error::UnsupportedVersion(v) => ErrorKind::Unsupported(v),
        Error::InvalidModuleTable(_) => ErrorKind::ModuleTable,
        Error::InvalidBbTable(_) => ErrorKind::BbTable,
        Error::ValidationError(_) => ErrorKind::Validation,
    }
}

/// Index of the first occurrence of byte `b`, or the length.
pub open spec fn spec_find_byte(s: Seq<u8>, b: u8) -> int
    decreases s.len(),
{
    if s.len() == 0 {
        0
    } else if s[0] == b {
        0
    } else {
        1 + spec_find_byte(s.drop_first(), b)
    }
}

pub proof fn lemma_find_byte_at(s: Seq<u8>, b: u8, k: int)
    requires
        0 <= k <= s.len(),
        forall|j: int| 0 <= j < k ==> s[j] != b,
        k < s.len() ==> s[k] == b,
    ensures
        spec_find_byte(s, b) == k,
    decreases k,
{
    if s.len() == 0 {
    } else if k == 0 {
    } else {
        lemma_find_byte_at(s.drop_first(), b, k - 1);
    }
}

pub proof fn lemma_find_byte_properties(s: Seq<u8>, b: u8)
    ensures
        0 <= spec_find_byte(s, b) <= s.len(),
        spec_find_byte(s, b) < s.len() ==> s[spec_find_byte(s, b)] == b,
    decreases s.len(),
{
    if s.len() == 0 {
    } else if s[0] == b {
    } else {
        lemma_find_byte_properties(s.drop_first(), b);
    }
}

/// The bytes of the next text line: everything up to (not including) the
/// first newline byte, or the whole remainder when no newline follows.
pub open spec fn spec_line_bytes(s: Seq<u8>) -> Seq<u8> {
    s.take(spec_find_byte(s, 10))
}

/// What follows the next text line: everything after its newline byte, or
/// nothing when the line ends the input.
pub open spec fn spec_after_line(s: Seq<u8>) -> Seq<u8> {
    let k = spec_find_byte(s, 10);
    if k < s.len() {
        s.skip(k + 1)
    } else {
        Seq::<u8>::empty()
    }
}

/// Reads the next text line, decoding it from UTF-8, and returns the
/// cursor past its newline.
fn read_line_str<'a>(data: &'a Vec<u8>, pos: usize) -> (r: Result<(&'a str, usize), Error>)
    requires
        pos <= data@.len(),
    ensures
        ({
            let rest = data@.skip(pos as int);
            match r {
                Ok((line, p2)) => {
                    &&& valid_utf8(spec_line_bytes(rest))
                    &&& line@ == decode_utf8(spec_line_bytes(rest))
                    &&& pos <= p2 <= data@.len()
                    &&& data@.skip(p2 as int) == spec_after_line(rest)
                },
                Err(e) => !valid_utf8(spec_line_bytes(rest)) && e is Io,
            }
        }),
{
    let ghost rest = data@.skip(pos as int);
    let dlen = data.len();
    let mut j: usize = pos;
    while j < dlen && *vstd::slice::slice_index_get(data.as_slice(), j) != 10
        invariant
            dlen == data@.len(),
            pos <= j <= dlen,
            forall|k: int| pos <= k < j ==> data@[k] != 10,
        decreases dlen - j,
    {
        j = j + 1;
    }
    proof {
        assert forall|q: int| 0 <= q < j - pos implies rest[q] != 10 by {
            assert(rest[q] == data@[q + pos]);
        }
        if j < dlen {
            assert(rest[j - pos] == data@[j as int]);
        }
        lemma_find_byte_at(rest, 10, j - pos);
        assert(spec_line_bytes(rest) =~= data@.subrange(pos as int, j as int));
    }
    let sl = slice_subrange(data.as_slice(), pos, j);
    match core::str::from_utf8(sl) {
        Ok(line) => {
            let p2 = if j < dlen {
                j + 1
            } else {
                j
            };
            proof {
                if j < dlen {
                    assert(data@.skip(j + 1) =~= rest.skip(j - pos + 1));
                } else {
                    assert(data@.skip(j as int) =~= Seq::<u8>::empty());
                }
            }
            Ok((line, p2))
        },
        Err(_) => Err(Error::Io("a text line is not valid UTF-8".to_owned())),
    }
}

/// One mandatory header line: it must exist and carry the literal prefix;
/// its remainder is the line's content.
pub open spec fn spec_header_content(s: Seq<u8>, prefix: Seq<char>) -> Result<Seq<char>, ErrorKind> {
    if s.len() == 0 {
        Err(ErrorKind::Format)
    } else {
        let lb = spec_line_bytes(s);
        if !valid_utf8(lb) {
            Err(ErrorKind::Io)
        } else {
            let cs = decode_utf8(lb);
            if spec_has_prefix(cs, prefix) {
                Ok(cs.skip(prefix.len() as int))
            } else {
                Err(ErrorKind::Format)
            }
        }
    }
}

/// The diagnostic when the input ends where a header line was expected.
pub open spec fn spec_missing_header_msg(prefix: Seq<char>) -> Seq<char> {
    "expected a header line with prefix "@ + prefix + ", found end of input"@
}

/// The diagnostic when a header line does not carry its required prefix.
pub open spec fn spec_bad_prefix_msg(prefix: Seq<char>) -> Seq<char> {
    "header line lacks its required prefix: "@ + prefix
}

/// Reads one mandatory header line and strips its literal prefix, as
/// [`spec_header_content`] describes; an invalid-format failure names the
/// expected prefix.
pub fn parse_header_line<'a>(data: &'a Vec<u8>, pos: usize, prefix: &str) -> (r: Result<
    (&'a str, usize),
    Error,
>)
    requires
        pos <= data@.len(),
    ensures
        ({
            let rest = data@.skip(pos as int);
            match r {
                Ok((content, p2)) => {
                    &&& spec_header_content(rest, prefix@) == Ok::<Seq<char>, ErrorKind>(content@)
                    &&& pos <= p2 <= data@.len()
                    &&& data@.skip(p2 as int) == spec_after_line(rest)
                },
                Err(e) => ({
                    &&& spec_header_content(rest, prefix@) matches Err(k) && spec_err_kind(e)
                        == k
                    &&& e matches Error::InvalidFormat(msg) ==> msg@ == (if rest.len() == 0 {
                        spec_missing_header_msg(prefix@)
                    } else {
                        spec_bad_prefix_msg(prefix@)
                    })
                }),
            }
        }),
{
    if pos == data.len() {
        proof {
            assert(data@.skip(pos as int).len() == 0);
        }
        let mut msg = String::from_str("expected a header line with prefix ");
        msg.append(prefix);
        msg.append(", found end of input");
        return Err(Error::InvalidFormat(msg));
    }
    let (line, p2) = match read_line_str(data, pos) {
        Ok(v) => v,
        Err(e) => {
            return Err(e);
        },
    };
    match strip_prefix(line, prefix) {
        Some(content) => Ok((content, p2)),
        None => {
            let mut msg = String::from_str("header line lacks its required prefix: ");
            msg.append(prefix);
            Err(Error::InvalidFormat(msg))
        },
    }
}

/// The records of the module table: `remaining` lines, each decoded under
/// the declared columns and required to carry the next sequential id.
pub open spec fn spec_records(
    s: Seq<u8>,
    cols: Seq<Col>,
    remaining: nat,
    next_id: nat,
) -> Result<(Seq<ModuleEntryView>, Seq<u8>), ErrorKind>
    decreases remaining,
{
    if remaining == 0 {
        Ok((Seq::<ModuleEntryView>::empty(), s))
    } else {
        let lb = spec_line_bytes(s);
        if !valid_utf8(lb) {
            Err(ErrorKind::Io)
        } else {
            let t = spec_trim(decode_utf8(lb));
            match spec_entry_of_line(t, cols) {
                None => Err(ErrorKind::ModuleTable),
                Some(m) => if m.id as nat != next_id {
                    Err(ErrorKind::ModuleTable)
                } else {
                    match spec_records(spec_after_line(s), cols, (remaining - 1) as nat, next_id + 1) {
                        Err(k) => Err(k),
                        Ok(p) => Ok((seq![m] + p.0, p.1)),
                    }
                },
            }
        }
    }
}

/// The whole module-table section: its header line (legacy or versioned),
/// the columns line for versioned tables, and the records.
pub open spec fn spec_module_table_stage(s: Seq<u8>) -> Result<
    (ModuleTableVersion, Seq<ModuleEntryView>, Seq<u8>),
    ErrorKind,
> {
    let lb = spec_line_bytes(s);
    if !valid_utf8(lb) {
        Err(ErrorKind::Io)
    } else {
        let t = spec_trim(decode_utf8(lb));
        if !spec_has_prefix(t, "Module Table: "@) {
            Err(ErrorKind::ModuleTable)
        } else {
            let content = t.skip("Module Table: "@.len() as int);
            let s1 = spec_after_line(s);
            if spec_has_prefix(content, "version "@) {
                let vp = content.skip("version "@.len() as int);
                let parts = spec_split(vp, ',');
                if parts.len() != 2 {
                    Err(ErrorKind::ModuleTable)
                } else {
                    match spec_parse_uint(spec_trim(parts[0]), 10, u32::MAX as nat) {
                        None => Err(ErrorKind::ModuleTable),
                        Some(vn) => if vn != 2 && vn != 3 && vn != 4 {
                            Err(ErrorKind::ModuleTable)
                        } else {
                            let mv = if vn == 2 {
                                ModuleTableVersion::V2
                            } else if vn == 3 {
                                ModuleTableVersion::V3
                            } else {
                                ModuleTableVersion::V4
                            };
                            let c1 = spec_trim(parts[1]);
                            if !spec_has_prefix(c1, "count "@) {
                                Err(ErrorKind::ModuleTable)
                            } else {
                                match spec_parse_uint(
                                    c1.skip("count "@.len() as int),
                                    10,
                                    usize::MAX as nat,
                                ) {
                                    None => Err(ErrorKind::ModuleTable),
                                    Some(count) => spec_versioned_records(s1, mv, count),
                                }
                            }
                        },
                    }
                }
            } else {
                match spec_parse_uint(content, 10, usize::MAX as nat) {
                    None => Err(ErrorKind::ModuleTable),
                    Some(count) => match spec_records(s1, spec_legacy_cols(), count, 0) {
                        Err(k) => Err(k),
                        Ok(p) => Ok((ModuleTableVersion::Legacy, p.0, p.1)),
                    },
                }
            }
        }
    }
}

/// The implicit layout of a legacy module table.
pub open spec fn spec_legacy_cols() -> Seq<Col> {
    seq![Col::Id, Col::Base, Col::End, Col::Entry, Col::Path]
}

/// The columns line and records of a versioned module table.
pub open spec fn spec_versioned_records(s: Seq<u8>, mv: ModuleTableVersion, count: nat) -> Result<
    (ModuleTableVersion, Seq<ModuleEntryView>, Seq<u8>),
    ErrorKind,
> {
    let lb = spec_line_bytes(s);
    if !valid_utf8(lb) {
        Err(ErrorKind::Io)
    } else {
        let t = spec_trim(decode_utf8(lb));
        if !spec_has_prefix(t, "Columns: "@) {
            Err(ErrorKind::ModuleTable)
        } else {
            let names = spec_split(t.skip("Columns: "@.len() as int), ',');
            let cols = names.map_values(|n: Seq<char>| spec_col_of(spec_trim(n)));
            match spec_records(spec_after_line(s), cols, count, 0) {
                Err(k) => Err(k),
                Ok(p) => Ok((mv, p.0, p.1)),
            }
        }
    }
}

/// Among `remaining` record lines, whether the first anomaly is a record
/// that parses but carries an out-of-sequence id, and with which expected
/// slot and actual id.
pub open spec fn spec_records_bad_id(
    s: Seq<u8>,
    cols: Seq<Col>,
    remaining: nat,
    next_id: nat,
) -> Option<(nat, u32)>
    decreases remaining,
{
    if remaining == 0 {
        None
    } else {
        let lb = spec_line_bytes(s);
        if !valid_utf8(lb) {
            None
        } else {
            match spec_entry_of_line(spec_trim(decode_utf8(lb)), cols) {
                None => None,
                Some(m) => if m.id as nat != next_id {
                    Some((next_id, m.id))
                } else {
                    spec_records_bad_id(
                        spec_after_line(s),
                        cols,
                        (remaining - 1) as nat,
                        next_id + 1,
                    )
                },
            }
        }
    }
}

/// Whether the first failure of a versioned table's columns line and
/// records is an out-of-sequence record.
pub open spec fn spec_mt_versioned_bad_id(s: Seq<u8>, count: nat) -> Option<(nat, u32)> {
    let lb = spec_line_bytes(s);
    if !valid_utf8(lb) {
        None
    } else {
        let t = spec_trim(decode_utf8(lb));
        if !spec_has_prefix(t, "Columns: "@) {
            None
        } else {
            let names = spec_split(t.skip("Columns: "@.len() as int), ',');
            let cols = names.map_values(|n: Seq<char>| spec_col_of(spec_trim(n)));
            spec_records_bad_id(spec_after_line(s), cols, count, 0)
        }
    }
}

/// Whether the first failure of the whole module-table section is an
/// out-of-sequence record, and with which expected slot and actual id.
pub open spec fn spec_mt_stage_bad_id(s: Seq<u8>) -> Option<(nat, u32)> {
    let lb = spec_line_bytes(s);
    if !valid_utf8(lb) {
        None
    } else {
        let t = spec_trim(decode_utf8(lb));
        if !spec_has_prefix(t, "Module Table: "@) {
            None
        } else {
            let content = t.skip("Module Table: "@.len() as int);
            let s1 = spec_after_line(s);
            if spec_has_prefix(content, "version "@) {
                let vp = content.skip("version "@.len() as int);
                let parts = spec_split(vp, ',');
                if parts.len() != 2 {
                    None
                } else {
                    match spec_parse_uint(spec_trim(parts[0]), 10, u32::MAX as nat) {
                        None => None,
                        Some(vn) => if vn != 2 && vn != 3 && vn != 4 {
                            None
                        } else {
                            let c1 = spec_trim(parts[1]);
                            if !spec_has_prefix(c1, "count "@) {
                                None
                            } else {
                                match spec_parse_uint(
                                    c1.skip("count "@.len() as int),
                                    10,
                                    usize::MAX as nat,
                                ) {
                                    None => None,
                                    Some(count) => spec_mt_versioned_bad_id(s1, count),
                                }
                            }
                        },
                    }
                }
            } else {
                match spec_parse_uint(content, 10, usize::MAX as nat) {
                    None => None,
                    Some(count) => spec_records_bad_id(s1, spec_legacy_cols(), count, 0),
                }
            }
        }
    }
}

/// The diagnostic for a record whose id is not the next sequential slot.
pub open spec fn spec_bad_record_id_msg(expected: nat, actual: u32) -> Seq<char> {
    "module record id is out of sequence: expected "@ + spec_dec_digits(expected) + ", got "@
        + spec_dec_digits(actual as nat)
}

/// The basic-block section: absent at end of input, else a header line
/// with a count and exactly `count` eight-byte records.
pub open spec fn spec_bb_stage(s: Seq<u8>) -> Result<Seq<crate::model::BasicBlock>, ErrorKind> {
    if s.len() == 0 {
        Ok(Seq::<crate::model::BasicBlock>::empty())
    } else {
        let lb = spec_line_bytes(s);
        if !valid_utf8(lb) {
            Err(ErrorKind::Io)
        } else {
            let t = spec_trim(decode_utf8(lb));
            if !spec_has_prefix(t, "BB Table: "@) {
                Err(ErrorKind::BbTable)
            } else {
                let tok = spec_first_token(t.skip("BB Table: "@.len() as int));
                let count_opt = if tok.len() == 0 {
                    Some(0nat)
                } else {
                    spec_parse_uint(tok, 10, usize::MAX as nat)
                };
                match count_opt {
                    None => Err(ErrorKind::BbTable),
                    Some(count) => if count == 0 {
                        Ok(Seq::<crate::model::BasicBlock>::empty())
                    } else {
                        let rest = spec_after_line(s);
                        if rest.len() < count * 8 {
                            Err(ErrorKind::Io)
                        } else {
                            Ok(spec_decode_bbs(rest, count))
                        }
                    },
                }
            }
        }
    }
}

/// How a whole byte buffer decodes: version line, flavor line, module
/// table, basic-block table, then the aggregate's two global invariants.
pub open spec fn spec_decode(s: Seq<u8>) -> Result<CoverageDataView, ErrorKind> {
    match spec_header_content(s, "DRCOV VERSION: "@) {
        Err(k) => Err(k),
        Ok(vstr) => match spec_parse_uint(vstr, 10, u32::MAX as nat) {
            None => Err(ErrorKind::Format),
            Some(v) => if v != SUPPORTED_FILE_VERSION as nat {
                Err(ErrorKind::Unsupported(v as u32))
            } else {
                let s1 = spec_after_line(s);
                match spec_header_content(s1, "DRCOV FLAVOR: "@) {
                    Err(k) => Err(k),
                    Ok(flavor) => {
                        let s2 = spec_after_line(s1);
                        match spec_module_table_stage(s2) {
                            Err(k) => Err(k),
                            Ok(mt) => match spec_bb_stage(mt.2) {
                                Err(k) => Err(k),
                                Ok(blocks) => {
                                    let d = CoverageDataView {
                                        version: v as u32,
                                        flavor: flavor,
                                        module_version: mt.0,
                                        modules: mt.1,
                                        basic_blocks: blocks,
                                    };
                                    if d.spec_valid() {
                                        Ok(d)
                                    } else {
                                        Err(ErrorKind::Validation)
                                    }
                                },
                            },
                        }
                    },
                }
            },
        },
    }
}

/// Reads `count` module record lines, enforcing sequential ids.
fn parse_records(data: &Vec<u8>, pos: usize, cols: &Vec<Col>, count: usize) -> (r: Result<
    (Vec<ModuleEntry>, usize),
    Error,
>)
    requires
        pos <= data@.len(),
    ensures
        ({
            let rest = data@.skip(pos as int);
            match r {
                Ok((mods, p2)) => {
                    &&& spec_records(rest, cols@, count as nat, 0) matches Ok(p) && p.0
                        == spec_entries_view(mods@) && data@.skip(p2 as int) == p.1
                    &&& pos <= p2 <= data@.len()
                },
                Err(e) => ({
                    &&& spec_records(rest, cols@, count as nat, 0) matches Err(k)
                        && spec_err_kind(e) == k
                    &&& e matches Error::InvalidModuleTable(msg)
                        ==> match spec_records_bad_id(rest, cols@, count as nat, 0) {
                        Some(info) => msg@ == spec_bad_record_id_msg(info.0, info.1),
                        None => true,
                    }
                }),
            }
        }),
{
    let ghost rest0 = data@.skip(pos as int);
    let ghost full = spec_records(rest0, cols@, count as nat, 0);
    let mut mods: Vec<ModuleEntry> = Vec::new();
    let mut cur: usize = pos;
    let mut i: usize = 0;
    proof {
        if full is Ok {
            assert(spec_entries_view(mods@) + full->Ok_0.0 =~= full->Ok_0.0);
        }
    }
    while i < count
        invariant
            pos <= cur <= data@.len(),
            0 <= i <= count,
            mods@.len() == i,
            full == spec_records(rest0, cols@, count as nat, 0),
            rest0 == data@.skip(pos as int),
            spec_records_bad_id(rest0, cols@, count as nat, 0) == spec_records_bad_id(
                data@.skip(cur as int),
                cols@,
                (count - i) as nat,
                i as nat,
            ),
            ({
                let tail = spec_records(
                    data@.skip(cur as int),
                    cols@,
                    (count - i) as nat,
                    i as nat,
                );
                match tail {
                    Ok(p) => full matches Ok(q) && q.0 == spec_entries_view(mods@) + p.0 && q.1
                        == p.1,
                    Err(k) => full matches Err(k2) && k2 == k,
                }
            }),
        decreases count - i,
    {
        let ghost cur_rest = data@.skip(cur as int);
        let ghost tail = spec_records(cur_rest, cols@, (count - i) as nat, i as nat);
        let (line, p2) = match read_line_str(data, cur) {
            Ok(v) => v,
            Err(e) => {
                return Err(e);
            },
        };
        let t = trim(line);
        let m = match parse_module_entry(t, cols) {
            Ok(m) => m,
            Err(e) => {
                proof {
                    assert(spec_records_bad_id(cur_rest, cols@, (count - i) as nat, i as nat)
                        is None);
                }
                return Err(e);
            },
        };
        if m.id as usize != i {
            proof {
                assert(spec_records_bad_id(cur_rest, cols@, (count - i) as nat, i as nat)
                    == Some((i as nat, m@.id)));
            }
            let mut msg = String::from_str("module record id is out of sequence: expected ");
            let expected_str = crate::strutil::dec_u64_string(i as u64);
            msg.append(expected_str.as_str());
            msg.append(", got ");
            let actual_str = crate::strutil::dec_u64_string(m.id as u64);
            msg.append(actual_str.as_str());
            return Err(Error::InvalidModuleTable(msg));
        }
        let ghost old_mods = mods@;
        mods.push(m);
        proof {
            assert(spec_records_bad_id(cur_rest, cols@, (count - i) as nat, i as nat)
                == spec_records_bad_id(
                data@.skip(p2 as int),
                cols@,
                (count - i - 1) as nat,
                (i + 1) as nat,
            ));
            let ntail = spec_records(
                data@.skip(p2 as int),
                cols@,
                (count - i - 1) as nat,
                (i + 1) as nat,
            );
            assert(spec_entries_view(mods@) =~= spec_entries_view(old_mods) + seq![m@]);
            if ntail is Ok {
                let p = ntail->Ok_0;
                assert(tail == Ok::<(Seq<ModuleEntryView>, Seq<u8>), ErrorKind>(
                    (seq![m@] + p.0, p.1),
                ));
                assert(spec_entries_view(old_mods) + (seq![m@] + p.0) =~= (spec_entries_view(
                    old_mods,
                ) + seq![m@]) + p.0);
            }
        }
        cur = p2;
        i = i + 1;
    }
    proof {
        let tail = spec_records(data@.skip(cur as int), cols@, 0, i as nat);
        assert(tail == Ok::<(Seq<ModuleEntryView>, Seq<u8>), ErrorKind>(
            (Seq::<ModuleEntryView>::empty(), data@.skip(cur as int)),
        ));
        assert(spec_entries_view(mods@) + Seq::<ModuleEntryView>::empty() =~= spec_entries_view(
            mods@,
        ));
    }
    Ok((mods, cur))
}

/// Reads the module-table section: its header line, the columns line for
/// versioned schemas, and the records, as [`spec_module_table_stage`]
/// describes.
pub fn parse_module_table(data: &Vec<u8>, pos: usize) -> (r: Result<
    (Vec<ModuleEntry>, ModuleTableVersion, usize),
    Error,
>)
    requires
        pos <= data@.len(),
    ensures
        ({
            let rest = data@.skip(pos as int);
            match r {
                Ok((mods, mv, p2)) => {
                    &&& spec_module_table_stage(rest) matches Ok(t) && t.0 == mv && t.1
                        == spec_entries_view(mods@) && data@.skip(p2 as int) == t.2
                    &&& pos <= p2 <= data@.len()
                },
                Err(e) => ({
                    &&& spec_module_table_stage(rest) matches Err(k) && spec_err_kind(e) == k
                    &&& e matches Error::InvalidModuleTable(msg)
                        ==> match spec_mt_stage_bad_id(rest) {
                        Some(info) => msg@ == spec_bad_record_id_msg(info.0, info.1),
                        None => true,
                    }
                }),
            }
        }),
{
    let ghost rest = data@.skip(pos as int);
    let (line, p1) = match read_line_str(data, pos) {
        Ok(v) => v,
        Err(e) => {
            return Err(e);
        },
    };
    let t = trim(line);
    let content = match strip_prefix(t, "Module Table: ") {
        Some(c) => c,
        None => {
            return Err(
                Error::InvalidModuleTable("missing or malformed module table header".to_owned()),
            );
        },
    };
    match strip_prefix(content, "version ") {
        Some(vp) => {
            let parts = split_all(vp, ',');
            if parts.len() != 2 {
                return Err(
                    Error::InvalidModuleTable("malformed versioned table header".to_owned()),
                );
            }
            let vn = match parse_u32_dec(trim(parts[0].as_str())) {
                Some(v) => v,
                None => {
                    return Err(
                        Error::InvalidModuleTable("malformed schema version number".to_owned()),
                    );
                },
            };
            if vn != 2 && vn != 3 && vn != 4 {
                return Err(
                    Error::InvalidModuleTable("unsupported module table schema version".to_owned()),
                );
            }
            let mv = if vn == 2 {
                ModuleTableVersion::V2
            } else if vn == 3 {
                ModuleTableVersion::V3
            } else {
                ModuleTableVersion::V4
            };
            let c1 = trim(parts[1].as_str());
            let count_str = match strip_prefix(c1, "count ") {
                Some(c) => c,
                None => {
                    return Err(
                        Error::InvalidModuleTable("missing module count".to_owned()),
                    );
                },
            };
            let count = match parse_usize_dec(count_str) {
                Some(c) => c,
                None => {
                    return Err(
                        Error::InvalidModuleTable("malformed module count".to_owned()),
                    );
                },
            };
            let (cline, p2) = match read_line_str(data, p1) {
                Ok(v) => v,
                Err(e) => {
                    return Err(e);
                },
            };
            let t2 = trim(cline);
            let cstr = match strip_prefix(t2, "Columns: ") {
                Some(c) => c,
                None => {
                    return Err(
                        Error::InvalidModuleTable("missing columns header".to_owned()),
                    );
                },
            };
            let names = split_all(cstr, ',');
            let ghost spec_cols = spec_split(cstr@, ',').map_values(
                |n: Seq<char>| spec_col_of(spec_trim(n)),
            );
            let mut cols: Vec<Col> = Vec::new();
            let mut i: usize = 0;
            while i < names.len()
                invariant
                    0 <= i <= names@.len(),
                    cols@.len() == i,
                    spec_cols == spec_split(cstr@, ',').map_values(
                        |n: Seq<char>| spec_col_of(spec_trim(n)),
                    ),
                    names@.len() == spec_split(cstr@, ',').len(),
                    forall|j: int|
                        0 <= j < names@.len() ==> #[trigger] names@[j]@ == spec_split(
                            cstr@,
                            ',',
                        )[j],
                    forall|j: int| 0 <= j < i ==> #[trigger] cols@[j] == spec_cols[j],
                decreases names@.len() - i,
            {
                cols.push(col_of(trim(names[i].as_str())));
                i = i + 1;
            }
            proof {
                assert(cols@ =~= spec_cols);
            }
            proof {
                assert(spec_mt_stage_bad_id(rest) == spec_records_bad_id(
                    data@.skip(p2 as int),
                    cols@,
                    count as nat,
                    0,
                ));
            }
            match parse_records(data, p2, &cols, count) {
                Ok((mods, p3)) => Ok((mods, mv, p3)),
                Err(e) => Err(e),
            }
        },
        None => {
            let count = match parse_usize_dec(content) {
                Some(c) => c,
                None => {
                    return Err(
                        Error::InvalidModuleTable("malformed legacy module count".to_owned()),
                    );
                },
            };
            let mut cols: Vec<Col> = Vec::new();
            cols.push(Col::Id);
            cols.push(Col::Base);
            cols.push(Col::End);
            cols.push(Col::Entry);
            cols.push(Col::Path);
            proof {
                assert(cols@ =~= spec_legacy_cols());
            }
            proof {
                assert(spec_mt_stage_bad_id(rest) == spec_records_bad_id(
                    data@.skip(p1 as int),
                    spec_legacy_cols(),
                    count as nat,
                    0,
                ));
            }
            match parse_records(data, p1, &cols, count) {
                Ok((mods, p3)) => Ok((mods, ModuleTableVersion::Legacy, p3)),
                Err(e) => Err(e),
            }
        },
    }
}

/// Reads the basic-block section, as [`spec_bb_stage`] describes: a
/// missing section is an empty table, a declared count with too few bytes
/// behind it is fatal truncation.
pub fn parse_bb_table(data: &Vec<u8>, pos: usize) -> (r: Result<
    Vec<crate::model::BasicBlock>,
    Error,
>)
    requires
        pos <= data@.len(),
    ensures
        ({
            let rest = data@.skip(pos as int);
            match r {
                Ok(blocks) => spec_bb_stage(rest) == Ok::<
                    Seq<crate::model::BasicBlock>,
                    ErrorKind,
                >(blocks@),
                Err(e) => spec_bb_stage(rest) matches Err(k) && spec_err_kind(e) == k,
            }
        }),
{
    if pos == data.len() {
        let blocks: Vec<crate::model::BasicBlock> = Vec::new();
        proof {
            assert(data@.skip(pos as int).len() == 0);
            assert(blocks@ =~= Seq::<crate::model::BasicBlock>::empty());
        }
        return Ok(blocks);
    }
    let (line, p1) = match read_line_str(data, pos) {
        Ok(v) => v,
        Err(e) => {
            return Err(e);
        },
    };
    let t = trim(line);
    let after = match strip_prefix(t, "BB Table: ") {
        Some(c) => c,
        None => {
            return Err(
                Error::InvalidBbTable("missing or malformed basic block table header".to_owned()),
            );
        },
    };
    let tok = first_token(after);
    let count: usize = if tok.unicode_len() == 0 {
        0
    } else {
        match parse_usize_dec(tok) {
            Some(c) => c,
            None => {
                return Err(
                    Error::InvalidBbTable("malformed basic block count".to_owned()),
                );
            },
        }
    };
    if count == 0 {
        let blocks: Vec<crate::model::BasicBlock> = Vec::new();
        proof {
            assert(blocks@ =~= Seq::<crate::model::BasicBlock>::empty());
        }
        return Ok(blocks);
    }
    let remaining = data.len() - p1;
    if count > remaining / 8 {
        proof {
            assert(count * 8 > remaining);
            assert(data@.skip(p1 as int).len() == remaining);
        }
        return Err(Error::Io("basic block table is truncated".to_owned()));
    }
    proof {
        assert(8 * count <= remaining);
    }
    let blocks = crate::bb_table::parse_bb_payload(data, p1, count);
    Ok(blocks)
}

/// Decodes a whole coverage file from bytes, as [`spec_decode`] describes:
/// the outcome, success or failure kind alike, is pinned by the input.
pub fn from_bytes(data: &Vec<u8>) -> (r: Result<CoverageData, Error>)
    ensures
        match spec_decode(data@) {
            Ok(dv) => r matches Ok(d) && d@ == dv,
            Err(k) => r matches Err(e) && spec_err_kind(e) == k,
        },
{
    proof {
        assert(data@.skip(0) =~= data@);
    }
    let (vstr, p1) = match parse_header_line(data, 0, "DRCOV VERSION: ") {
        Ok(v) => v,
        Err(e) => {
            return Err(e);
        },
    };
    let version = match parse_u32_dec(vstr) {
        Some(v) => v,
        None => {
            return Err(Error::InvalidFormat("malformed version number".to_owned()));
        },
    };
    if version != SUPPORTED_FILE_VERSION {
        return Err(Error::UnsupportedVersion(version));
    }
    let (flavor_str, p2) = match parse_header_line(data, p1, "DRCOV FLAVOR: ") {
        Ok(v) => v,
        Err(e) => {
            return Err(e);
        },
    };
    let flavor = flavor_str.to_owned();
    let (modules, module_version, p3) = match parse_module_table(data, p2) {
        Ok(v) => v,
        Err(e) => {
            return Err(e);
        },
    };
    let basic_blocks = match parse_bb_table(data, p3) {
        Ok(v) => v,
        Err(e) => {
            return Err(e);
        },
    };
    let d = CoverageData {
        header: FileHeader { version, flavor },
        module_version,
        modules,
        basic_blocks,
    };
    match d.validate() {
        Ok(()) => Ok(d),
        Err(e) => Err(e),
    }
}

/// Some module in the set carries a checksum or timestamp; the writer
/// then emits both columns for every module.
pub open spec fn spec_win_flag(modules: Seq<ModuleEntryView>) -> bool {
    exists|i: int|
        0 <= i < modules.len() && ((#[trigger] modules[i]).checksum is Some
            || modules[i].timestamp is Some)
}

/// One emitted text line: its characters in UTF-8, then a newline byte.
pub open spec fn spec_line_enc(cs: Seq<char>) -> Seq<u8> {
    encode_utf8(cs) + seq![10u8]
}

/// The column list the writer declares for a versioned table.
pub open spec fn spec_columns_header(version: ModuleTableVersion, win: bool) -> Seq<char> {
    match version {
        ModuleTableVersion::Legacy => "id, base, end, entry, path"@,
        ModuleTableVersion::V2 => if win {
            "id, base, end, entry, checksum, timestamp, path"@
        } else {
            "id, base, end, entry, path"@
        },
        ModuleTableVersion::V3 => if win {
            "id, containing_id, start, end, entry, checksum, timestamp, path"@
        } else {
            "id, containing_id, start, end, entry, path"@
        },
        ModuleTableVersion::V4 => if win {
            "id, containing_id, start, end, entry, offset, checksum, timestamp, path"@
        } else {
            "id, containing_id, start, end, entry, offset, path"@
        },
    }
}

/// The module-table header line the writer emits.
pub open spec fn spec_mt_header(d: CoverageDataView) -> Seq<char> {
    if d.module_version == ModuleTableVersion::Legacy {
        "Module Table: "@ + spec_dec_digits(d.modules.len())
    } else {
        "Module Table: version "@ + spec_dec_digits(d.module_version.spec_rank() as nat)
            + ", count "@ + spec_dec_digits(d.modules.len())
    }
}

/// All module record lines, in order, newline-terminated.
pub open spec fn spec_module_lines(
    modules: Seq<ModuleEntryView>,
    version: ModuleTableVersion,
    win: bool,
) -> Seq<u8>
    decreases modules.len(),
{
    if modules.len() == 0 {
        Seq::<u8>::empty()
    } else {
        spec_module_lines(modules.drop_last(), version, win) + spec_line_enc(
            spec_module_line(modules.last(), version, win),
        )
    }
}

/// The exact bytes the writer emits for a coverage aggregate: version and
/// flavor lines, the module table in the aggregate's schema version, and
/// the basic-block table.
pub open spec fn spec_encode(d: CoverageDataView) -> Seq<u8> {
    let win = d.module_version != ModuleTableVersion::Legacy && spec_win_flag(d.modules);
    spec_line_enc("DRCOV VERSION: "@ + spec_dec_digits(d.version as nat)) + spec_line_enc(
        "DRCOV FLAVOR: "@ + d.flavor,
    ) + spec_line_enc(spec_mt_header(d)) + (if d.module_version != ModuleTableVersion::Legacy {
        spec_line_enc("Columns: "@ + spec_columns_header(d.module_version, win))
    } else {
        Seq::<u8>::empty()
    }) + spec_module_lines(d.modules, d.module_version, win) + spec_line_enc(
        "BB Table: "@ + spec_dec_digits(d.basic_blocks.len()) + " bbs"@,
    ) + spec_bb_payload(d.basic_blocks)
}

proof fn lemma_bytes_assoc(x: Seq<u8>, a: Seq<u8>, b: Seq<u8>)
    ensures
        (x + a) + b == x + (a + b),
{
    assert((x + a) + b =~= x + (a + b));
}

/// Whether any module carries a checksum or timestamp.
fn compute_win_flag(modules: &Vec<ModuleEntry>) -> (r: bool)
    ensures
        r == spec_win_flag(spec_entries_view(modules@)),
{
    let n = modules.len();
    let mut i: usize = 0;
    while i < n
        invariant
            n == modules@.len(),
            0 <= i <= n,
            forall|j: int|
                0 <= j < i ==> !((#[trigger] spec_entries_view(modules@)[j]).checksum is Some
                    || spec_entries_view(modules@)[j].timestamp is Some),
        decreases n - i,
    {
        if modules[i].checksum.is_some() || modules[i].timestamp.is_some() {
            proof {
                assert(spec_entries_view(modules@)[i as int].checksum is Some
                    || spec_entries_view(modules@)[i as int].timestamp is Some);
            }
            return true;
        }
        i = i + 1;
    }
    false
}

/// Writes the version line.
fn write_version_line(out: &mut Vec<u8>, v: u32)
    ensures
        final(out)@ == old(out)@ + spec_line_enc("DRCOV VERSION: "@ + spec_dec_digits(v as nat)),
{
    push_str_bytes(out, "DRCOV VERSION: ");
    push_dec_chars(out, v as u64);
    out.push(10);
    proof {
        lemma_encode_utf8_concat("DRCOV VERSION: "@, spec_dec_digits(v as nat));
        assert(out@ =~= old(out)@ + spec_line_enc("DRCOV VERSION: "@ + spec_dec_digits(v as nat)));
    }
}

/// Writes the flavor line.
fn write_flavor_line(out: &mut Vec<u8>, flavor: &str)
    ensures
        final(out)@ == old(out)@ + spec_line_enc("DRCOV FLAVOR: "@ + flavor@),
{
    push_str_bytes(out, "DRCOV FLAVOR: ");
    push_str_bytes(out, flavor);
    out.push(10);
    proof {
        lemma_encode_utf8_concat("DRCOV FLAVOR: "@, flavor@);
        assert(out@ =~= old(out)@ + spec_line_enc("DRCOV FLAVOR: "@ + flavor@));
    }
}

/// Writes the module-table header line.
fn write_mt_header(out: &mut Vec<u8>, data: &CoverageData)
    ensures
        final(out)@ == old(out)@ + spec_line_enc(spec_mt_header(data@)),
{
    if data.module_version == ModuleTableVersion::Legacy {
        push_str_bytes(out, "Module Table: ");
        push_dec_chars(out, data.modules.len() as u64);
        out.push(10);
        proof {
            lemma_encode_utf8_concat("Module Table: "@, spec_dec_digits(data@.modules.len()));
            assert(out@ =~= old(out)@ + spec_line_enc(spec_mt_header(data@)));
        }
    } else {
        push_str_bytes(out, "Module Table: version ");
        push_dec_chars(out, data.module_version.rank() as u64);
        push_str_bytes(out, ", count ");
        push_dec_chars(out, data.modules.len() as u64);
        out.push(10);
        proof {
            let a = "Module Table: version "@;
            let b = spec_dec_digits(data@.module_version.spec_rank() as nat);
            let c = ", count "@;
            let d = spec_dec_digits(data@.modules.len());
            lemma_encode_utf8_concat(a, b);
            lemma_encode_utf8_concat(a + b, c);
            lemma_encode_utf8_concat(a + b + c, d);
            assert(out@ =~= old(out)@ + spec_line_enc(spec_mt_header(data@)));
        }
    }
}

/// Writes the columns line of a versioned table.
fn write_columns_line(out: &mut Vec<u8>, version: ModuleTableVersion, win: bool)
    ensures
        final(out)@ == old(out)@ + spec_line_enc(
            "Columns: "@ + spec_columns_header(version, win),
        ),
{
    push_str_bytes(out, "Columns: ");
    let header: &str = match version {
        ModuleTableVersion::Legacy => "id, base, end, entry, path",
        ModuleTableVersion::V2 => if win {
            "id, base, end, entry, checksum, timestamp, path"
        } else {
            "id, base, end, entry, path"
        },
        ModuleTableVersion::V3 => if win {
            "id, containing_id, start, end, entry, checksum, timestamp, path"
        } else {
            "id, containing_id, start, end, entry, path"
        },
        ModuleTableVersion::V4 => if win {
            "id, containing_id, start, end, entry, offset, checksum, timestamp, path"
        } else {
            "id, containing_id, start, end, entry, offset, path"
        },
    };
    push_str_bytes(out, header);
    out.push(10);
    proof {
        lemma_encode_utf8_concat("Columns: "@, spec_columns_header(version, win));
        assert(out@ =~= old(out)@ + spec_line_enc(
            "Columns: "@ + spec_columns_header(version, win),
        ));
    }
}

/// Writes the basic-block table header line.
fn write_bb_header(out: &mut Vec<u8>, count: usize)
    ensures
        final(out)@ == old(out)@ + spec_line_enc(
            "BB Table: "@ + spec_dec_digits(count as nat) + " bbs"@,
        ),
{
    push_str_bytes(out, "BB Table: ");
    push_dec_chars(out, count as u64);
    push_str_bytes(out, " bbs");
    out.push(10);
    proof {
        let a = "BB Table: "@;
        let b = spec_dec_digits(count as nat);
        let c = " bbs"@;
        lemma_encode_utf8_concat(a, b);
        lemma_encode_utf8_concat(a + b, c);
        assert(out@ =~= old(out)@ + spec_line_enc(a + b + c));
    }
}

/// Serializes a coverage aggregate into `out`, exactly as [`spec_encode`]
/// lays the bytes out.  The aggregate is validated first; an invalid one
/// is rejected with the validator's first-violation diagnostic and
/// nothing is written.  Equal aggregates always produce identical bytes.
pub fn to_writer(data: &CoverageData, out: &mut Vec<u8>) -> (r: Result<(), Error>)
    ensures
        r is Ok <==> data@.spec_valid(),
        r is Ok ==> final(out)@ == old(out)@ + spec_encode(data@),
        r matches Err(e) ==> ({
            &&& final(out)@ == old(out)@
            &&& e matches Error::ValidationError(msg) && msg@ == crate::model::spec_validation_msg(
                data@,
            )
        }),
{
    match data.validate() {
        Ok(()) => {},
        Err(e) => {
            return Err(e);
        },
    }
    let ghost base0 = out@;
    let win = if data.module_version == ModuleTableVersion::Legacy {
        false
    } else {
        compute_win_flag(&data.modules)
    };
    write_version_line(out, data.header.version);
    let ghost mut done: Seq<u8> = spec_line_enc(
        "DRCOV VERSION: "@ + spec_dec_digits(data@.version as nat),
    );
    write_flavor_line(out, data.header.flavor.as_str());
    proof {
        lemma_bytes_assoc(base0, done, spec_line_enc("DRCOV FLAVOR: "@ + data@.flavor));
        done = done + spec_line_enc("DRCOV FLAVOR: "@ + data@.flavor);
    }
    write_mt_header(out, data);
    proof {
        lemma_bytes_assoc(base0, done, spec_line_enc(spec_mt_header(data@)));
        done = done + spec_line_enc(spec_mt_header(data@));
    }
    let ghost cols_chunk = if data@.module_version != ModuleTableVersion::Legacy {
        spec_line_enc("Columns: "@ + spec_columns_header(data@.module_version, win))
    } else {
        Seq::<u8>::empty()
    };
    if data.module_version != ModuleTableVersion::Legacy {
        write_columns_line(out, data.module_version, win);
        proof {
            lemma_bytes_assoc(base0, done, cols_chunk);
            done = done + cols_chunk;
        }
    } else {
        proof {
            assert(done + cols_chunk =~= done);
            done = done + cols_chunk;
        }
    }
    let ghost base_ml = out@;
    let n = data.modules.len();
    let mut i: usize = 0;
    proof {
        assert(spec_entries_view(data.modules@).take(0) =~= Seq::<ModuleEntryView>::empty());
        assert(out@ =~= base_ml + spec_module_lines(
            spec_entries_view(data.modules@).take(0),
            data@.module_version,
            win,
        ));
    }
    while i < n
        invariant
            n == data.modules@.len(),
            0 <= i <= n,
            win == (data@.module_version != ModuleTableVersion::Legacy && spec_win_flag(
                data@.modules,
            )),
            out@ == base_ml + spec_module_lines(
                spec_entries_view(data.modules@).take(i as int),
                data@.module_version,
                win,
            ),
        decreases n - i,
    {
        write_module_line(out, &data.modules[i], data.module_version, win);
        proof {
            let mv = spec_entries_view(data.modules@);
            let p = mv.take(i as int);
            let q = mv.take(i + 1);
            assert(q.drop_last() =~= p);
            assert(q.last() == mv[i as int]);
            assert(mv[i as int] == data.modules@[i as int]@);
            lemma_bytes_assoc(
                base_ml + spec_module_lines(p, data@.module_version, win),
                encode_utf8(spec_module_line(mv[i as int], data@.module_version, win)),
                seq![10u8],
            );
            assert(out@ =~= base_ml + spec_module_lines(q, data@.module_version, win));
        }
        i = i + 1;
    }
    proof {
        assert(spec_entries_view(data.modules@).take(n as int) =~= spec_entries_view(
            data.modules@,
        ));
        lemma_bytes_assoc(
            base0,
            done,
            spec_module_lines(data@.modules, data@.module_version, win),
        );
        done = done + spec_module_lines(data@.modules, data@.module_version, win);
        assert(out@ == base0 + done);
    }
    write_bb_header(out, data.basic_blocks.len());
    proof {
        lemma_bytes_assoc(
            base0,
            done,
            spec_line_enc("BB Table: "@ + spec_dec_digits(data@.basic_blocks.len()) + " bbs"@),
        );
        done = done + spec_line_enc(
            "BB Table: "@ + spec_dec_digits(data@.basic_blocks.len()) + " bbs"@,
        );
    }
    crate::bb_table::write_bb_payload(out, &data.basic_blocks);
    proof {
        lemma_bytes_assoc(base0, done, spec_bb_payload(data@.basic_blocks));
        done = done + spec_bb_payload(data@.basic_blocks);
        assert(done == spec_encode(data@));
    }
    Ok(())
}

} // verus!
