//! The laws the codec obeys, chief among them: decoding an encoded
//! aggregate restores it, up to the normalization its schema version
//! applies to optional fields.

use crate::codec::spec_after_line;
use crate::codec::spec_columns_header;
use crate::codec::spec_find_byte;
use crate::codec::spec_line_bytes;
use crate::codec::spec_line_enc;
use crate::codec::spec_module_lines;
use crate::codec::spec_records;
use crate::model::CoverageDataView;
use crate::model::ModuleEntryView;
use crate::model::ModuleTableVersion;
use crate::model::spec_sequential_ids;
use crate::model::spec_valid_references;
use crate::module_table::Col;
use crate::module_table::spec_ci_value;
use crate::module_table::spec_col_of;
use crate::module_table::spec_entry_of_line;
use crate::module_table::spec_entry_of_values;
use crate::module_table::spec_lookup;
use crate::module_table::spec_module_line;
use crate::module_table::spec_or_zero_u32;
use crate::module_table::spec_or_zero_u64;
use crate::numeric::spec_dec_digits;
use crate::numeric::spec_hex_digits;
use crate::numeric::spec_int_digits;
use crate::numeric::spec_parse_hex;
use crate::numeric::spec_parse_i32;
use crate::numeric::spec_parse_uint;
use crate::numeric::spec_zero_pad;
use crate::strutil::lemma_encode_ascii_byte_absent;
use crate::text::lemma_join_push;
use crate::text::spec_first_token;
use crate::text::spec_is_ws;
use crate::text::spec_join_fields;
use crate::text::spec_split;
use crate::text::spec_splitn;
use crate::text::spec_trim;
use crate::text::spec_trim_end;
use crate::text::spec_trim_start;
use vstd::prelude::*;
use vstd::utf8::decode_utf8;
use vstd::utf8::encode_utf8;
use vstd::utf8::valid_utf8;

verus! {

/// Reading a line from an encoded newline-terminated line followed by
/// anything: the line's characters come back and the rest is untouched.
proof fn lemma_read_enc_line(cs: Seq<char>, rest: Seq<u8>)
    requires
        forall|i: int| 0 <= i < cs.len() ==> ((#[trigger] cs[i]) as u32) != 10,
    ensures
        spec_line_bytes(spec_line_enc(cs) + rest) == encode_utf8(cs),
        spec_after_line(spec_line_enc(cs) + rest) == rest,
        valid_utf8(spec_line_bytes(spec_line_enc(cs) + rest)),
        decode_utf8(spec_line_bytes(spec_line_enc(cs) + rest)) == cs,
        (spec_line_enc(cs) + rest).len() > 0,
{
    let eb = encode_utf8(cs);
    lemma_encode_ascii_byte_absent(cs, 10);
    let s = spec_line_enc(cs) + rest;
    assert(s =~= eb + seq![10u8] + rest);
    assert forall|j: int| 0 <= j < eb.len() implies s[j] != 10 by {
        assert(s[j] == eb[j]);
    }
    assert(s[eb.len() as int] == 10);
    crate::codec::lemma_find_byte_at(s, 10, eb.len() as int);
    assert(spec_line_bytes(s) =~= eb);
    assert(spec_after_line(s) =~= rest);
    vstd::utf8::encode_utf8_valid_utf8(cs);
    vstd::utf8::encode_utf8_decode_utf8(cs);
}

/// The first whitespace-delimited token of digits followed by text that
/// starts with a space is exactly the digits.
proof fn lemma_first_token_of_count(n: nat)
    ensures
        spec_first_token(spec_dec_digits(n) + " bbs"@) == spec_dec_digits(n),
{
    reveal_strlit(" bbs");
    crate::numeric::lemma_dec_digits_plain(n);
    let d = spec_dec_digits(n);
    let s = d + " bbs"@;
    crate::text::lemma_trim_start_no_ws(s);
    assert(!spec_is_ws(s[0]));
    assert(spec_trim_start(s) == s);
    assert forall|j: int| 0 <= j < d.len() implies !spec_is_ws(s[j]) by {
        assert(s[j] == d[j]);
    }
    assert(s[d.len() as int] == ' ');
    assert(spec_is_ws(s[d.len() as int]));
    crate::text::lemma_find_ws_at(s, d.len() as int);
    assert(s.take(d.len() as int) =~= d);
}

/// The comma-separated fields of one emitted module record, in order.
pub open spec fn spec_record_fields(
    m: ModuleEntryView,
    version: ModuleTableVersion,
    win: bool,
) -> Seq<Seq<char>> {
    seq![spec_dec_digits(m.id as nat)] + (if version.spec_rank() >= 3 {
        seq![spec_int_digits(spec_ci_value(m))]
    } else {
        Seq::<Seq<char>>::empty()
    }) + seq![
        "0x"@ + spec_zero_pad(spec_hex_digits(m.base as nat), 16),
        "0x"@ + spec_zero_pad(spec_hex_digits(m.end as nat), 16),
        "0x"@ + spec_zero_pad(spec_hex_digits(m.entry as nat), 16),
    ] + (if version.spec_rank() >= 4 {
        seq!["0x"@ + spec_hex_digits(spec_or_zero_u64(m.offset) as nat)]
    } else {
        Seq::<Seq<char>>::empty()
    }) + (if win {
        seq![
            "0x"@ + spec_zero_pad(spec_hex_digits(spec_or_zero_u32(m.checksum) as nat), 8),
            "0x"@ + spec_zero_pad(spec_hex_digits(spec_or_zero_u32(m.timestamp) as nat), 8),
        ]
    } else {
        Seq::<Seq<char>>::empty()
    }) + seq![m.path]
}

/// The record line is its fields joined with comma-and-space.
proof fn lemma_module_line_is_join(m: ModuleEntryView, version: ModuleTableVersion, win: bool)
    ensures
        spec_module_line(m, version, win) == spec_join_fields(
            spec_record_fields(m, version, win),
        ),
{
    if version.spec_rank() >= 4 {
        if win {
            lemma_line_join_v4_win(m, version);
        } else {
            lemma_line_join_v4_plain(m, version);
        }
    } else if version.spec_rank() >= 3 {
        if win {
            lemma_line_join_v3_win(m, version);
        } else {
            lemma_line_join_v3_plain(m, version);
        }
    } else {
        if win {
            lemma_line_join_low_win(m, version);
        } else {
            lemma_line_join_low_plain(m, version);
        }
    }
}

#[verifier::rlimit(100)]
#[verifier::spinoff_prover]
proof fn lemma_line_join_v4_win(m: ModuleEntryView, version: ModuleTableVersion)
    requires
        version.spec_rank() >= 4,
    ensures
        spec_module_line(m, version, true) == spec_join_fields(
            spec_record_fields(m, version, true),
        ),
{
    reveal_strlit(", ");
    reveal_strlit("0x");
    let fs = spec_record_fields(m, version, true);
    let f_id = spec_dec_digits(m.id as nat);
    let f_ci = spec_int_digits(spec_ci_value(m));
    let f_base = "0x"@ + spec_zero_pad(spec_hex_digits(m.base as nat), 16);
    let f_end = "0x"@ + spec_zero_pad(spec_hex_digits(m.end as nat), 16);
    let f_entry = "0x"@ + spec_zero_pad(spec_hex_digits(m.entry as nat), 16);
    let f_off = "0x"@ + spec_hex_digits(spec_or_zero_u64(m.offset) as nat);
    let f_ck = "0x"@ + spec_zero_pad(spec_hex_digits(spec_or_zero_u32(m.checksum) as nat), 8);
    let f_ts = "0x"@ + spec_zero_pad(spec_hex_digits(spec_or_zero_u32(m.timestamp) as nat), 8);
    let s1 = seq![f_id];
    assert(spec_join_fields(s1) == f_id);
    let s2 = s1.push(f_ci);
    lemma_join_push(s1, f_ci);
    let s3 = s2.push(f_base);
    lemma_join_push(s2, f_base);
    let s4 = s3.push(f_end);
    lemma_join_push(s3, f_end);
    let s5 = s4.push(f_entry);
    lemma_join_push(s4, f_entry);
    let s6 = s5.push(f_off);
    lemma_join_push(s5, f_off);
    let s7 = s6.push(f_ck);
    lemma_join_push(s6, f_ck);
    let s8 = s7.push(f_ts);
    lemma_join_push(s7, f_ts);
    let s9 = s8.push(m.path);
    lemma_join_push(s8, m.path);
    assert(fs =~= s9);
    assert(spec_join_fields(fs) == spec_join_fields(s9));
    assert(spec_join_fields(s9) =~= spec_module_line(m, version, true));
}

#[verifier::rlimit(100)]
#[verifier::spinoff_prover]
proof fn lemma_line_join_v4_plain(m: ModuleEntryView, version: ModuleTableVersion)
    requires
        version.spec_rank() >= 4,
    ensures
        spec_module_line(m, version, false) == spec_join_fields(
            spec_record_fields(m, version, false),
        ),
{
    reveal_strlit(", ");
    reveal_strlit("0x");
    let fs = spec_record_fields(m, version, false);
    let f_id = spec_dec_digits(m.id as nat);
    let f_ci = spec_int_digits(spec_ci_value(m));
    let f_base = "0x"@ + spec_zero_pad(spec_hex_digits(m.base as nat), 16);
    let f_end = "0x"@ + spec_zero_pad(spec_hex_digits(m.end as nat), 16);
    let f_entry = "0x"@ + spec_zero_pad(spec_hex_digits(m.entry as nat), 16);
    let f_off = "0x"@ + spec_hex_digits(spec_or_zero_u64(m.offset) as nat);
    let f_ck = "0x"@ + spec_zero_pad(spec_hex_digits(spec_or_zero_u32(m.checksum) as nat), 8);
    let f_ts = "0x"@ + spec_zero_pad(spec_hex_digits(spec_or_zero_u32(m.timestamp) as nat), 8);
    let s1 = seq![f_id];
    assert(spec_join_fields(s1) == f_id);
    let s2 = s1.push(f_ci);
    lemma_join_push(s1, f_ci);
    let s3 = s2.push(f_base);
    lemma_join_push(s2, f_base);
    let s4 = s3.push(f_end);
    lemma_join_push(s3, f_end);
    let s5 = s4.push(f_entry);
    lemma_join_push(s4, f_entry);
    let s6 = s5.push(f_off);
    lemma_join_push(s5, f_off);
    let s7 = s6.push(m.path);
    lemma_join_push(s6, m.path);
    assert(fs =~= s7);
    assert(spec_join_fields(fs) == spec_join_fields(s7));
    assert(spec_join_fields(s7) =~= spec_module_line(m, version, false));
}

#[verifier::rlimit(100)]
#[verifier::spinoff_prover]
proof fn lemma_line_join_v3_win(m: ModuleEntryView, version: ModuleTableVersion)
    requires
        version.spec_rank() == 3,
    ensures
        spec_module_line(m, version, true) == spec_join_fields(
            spec_record_fields(m, version, true),
        ),
{
    reveal_strlit(", ");
    reveal_strlit("0x");
    let fs = spec_record_fields(m, version, true);
    let f_id = spec_dec_digits(m.id as nat);
    let f_ci = spec_int_digits(spec_ci_value(m));
    let f_base = "0x"@ + spec_zero_pad(spec_hex_digits(m.base as nat), 16);
    let f_end = "0x"@ + spec_zero_pad(spec_hex_digits(m.end as nat), 16);
    let f_entry = "0x"@ + spec_zero_pad(spec_hex_digits(m.entry as nat), 16);
    let f_off = "0x"@ + spec_hex_digits(spec_or_zero_u64(m.offset) as nat);
    let f_ck = "0x"@ + spec_zero_pad(spec_hex_digits(spec_or_zero_u32(m.checksum) as nat), 8);
    let f_ts = "0x"@ + spec_zero_pad(spec_hex_digits(spec_or_zero_u32(m.timestamp) as nat), 8);
    let s1 = seq![f_id];
    assert(spec_join_fields(s1) == f_id);
    let s2 = s1.push(f_ci);
    lemma_join_push(s1, f_ci);
    let s3 = s2.push(f_base);
    lemma_join_push(s2, f_base);
    let s4 = s3.push(f_end);
    lemma_join_push(s3, f_end);
    let s5 = s4.push(f_entry);
    lemma_join_push(s4, f_entry);
    let s6 = s5.push(f_ck);
    lemma_join_push(s5, f_ck);
    let s7 = s6.push(f_ts);
    lemma_join_push(s6, f_ts);
    let s8 = s7.push(m.path);
    lemma_join_push(s7, m.path);
    assert(fs =~= s8);
    assert(spec_join_fields(fs) == spec_join_fields(s8));
    assert(spec_join_fields(s8) =~= spec_module_line(m, version, true));
}

#[verifier::rlimit(100)]
#[verifier::spinoff_prover]
proof fn lemma_line_join_v3_plain(m: ModuleEntryView, version: ModuleTableVersion)
    requires
        version.spec_rank() == 3,
    ensures
        spec_module_line(m, version, false) == spec_join_fields(
            spec_record_fields(m, version, false),
        ),
{
    reveal_strlit(", ");
    reveal_strlit("0x");
    let fs = spec_record_fields(m, version, false);
    let f_id = spec_dec_digits(m.id as nat);
    let f_ci = spec_int_digits(spec_ci_value(m));
    let f_base = "0x"@ + spec_zero_pad(spec_hex_digits(m.base as nat), 16);
    let f_end = "0x"@ + spec_zero_pad(spec_hex_digits(m.end as nat), 16);
    let f_entry = "0x"@ + spec_zero_pad(spec_hex_digits(m.entry as nat), 16);
    let f_off = "0x"@ + spec_hex_digits(spec_or_zero_u64(m.offset) as nat);
    let f_ck = "0x"@ + spec_zero_pad(spec_hex_digits(spec_or_zero_u32(m.checksum) as nat), 8);
    let f_ts = "0x"@ + spec_zero_pad(spec_hex_digits(spec_or_zero_u32(m.timestamp) as nat), 8);
    let s1 = seq![f_id];
    assert(spec_join_fields(s1) == f_id);
    let s2 = s1.push(f_ci);
    lemma_join_push(s1, f_ci);
    let s3 = s2.push(f_base);
    lemma_join_push(s2, f_base);
    let s4 = s3.push(f_end);
    lemma_join_push(s3, f_end);
    let s5 = s4.push(f_entry);
    lemma_join_push(s4, f_entry);
    let s6 = s5.push(m.path);
    lemma_join_push(s5, m.path);
    assert(fs =~= s6);
    assert(spec_join_fields(fs) == spec_join_fields(s6));
    assert(spec_join_fields(s6) =~= spec_module_line(m, version, false));
}

#[verifier::rlimit(100)]
#[verifier::spinoff_prover]
proof fn lemma_line_join_low_win(m: ModuleEntryView, version: ModuleTableVersion)
    requires
        version.spec_rank() < 3,
    ensures
        spec_module_line(m, version, true) == spec_join_fields(
            spec_record_fields(m, version, true),
        ),
{
    reveal_strlit(", ");
    reveal_strlit("0x");
    let fs = spec_record_fields(m, version, true);
    let f_id = spec_dec_digits(m.id as nat);
    let f_ci = spec_int_digits(spec_ci_value(m));
    let f_base = "0x"@ + spec_zero_pad(spec_hex_digits(m.base as nat), 16);
    let f_end = "0x"@ + spec_zero_pad(spec_hex_digits(m.end as nat), 16);
    let f_entry = "0x"@ + spec_zero_pad(spec_hex_digits(m.entry as nat), 16);
    let f_off = "0x"@ + spec_hex_digits(spec_or_zero_u64(m.offset) as nat);
    let f_ck = "0x"@ + spec_zero_pad(spec_hex_digits(spec_or_zero_u32(m.checksum) as nat), 8);
    let f_ts = "0x"@ + spec_zero_pad(spec_hex_digits(spec_or_zero_u32(m.timestamp) as nat), 8);
    let s1 = seq![f_id];
    assert(spec_join_fields(s1) == f_id);
    let s2 = s1.push(f_base);
    lemma_join_push(s1, f_base);
    let s3 = s2.push(f_end);
    lemma_join_push(s2, f_end);
    let s4 = s3.push(f_entry);
    lemma_join_push(s3, f_entry);
    let s5 = s4.push(f_ck);
    lemma_join_push(s4, f_ck);
    let s6 = s5.push(f_ts);
    lemma_join_push(s5, f_ts);
    let s7 = s6.push(m.path);
    lemma_join_push(s6, m.path);
    assert(fs =~= s7);
    assert(spec_join_fields(fs) == spec_join_fields(s7));
    assert(spec_join_fields(s7) =~= spec_module_line(m, version, true));
}

#[verifier::rlimit(100)]
#[verifier::spinoff_prover]
proof fn lemma_line_join_low_plain(m: ModuleEntryView, version: ModuleTableVersion)
    requires
        version.spec_rank() < 3,
    ensures
        spec_module_line(m, version, false) == spec_join_fields(
            spec_record_fields(m, version, false),
        ),
{
    reveal_strlit(", ");
    reveal_strlit("0x");
    let fs = spec_record_fields(m, version, false);
    let f_id = spec_dec_digits(m.id as nat);
    let f_ci = spec_int_digits(spec_ci_value(m));
    let f_base = "0x"@ + spec_zero_pad(spec_hex_digits(m.base as nat), 16);
    let f_end = "0x"@ + spec_zero_pad(spec_hex_digits(m.end as nat), 16);
    let f_entry = "0x"@ + spec_zero_pad(spec_hex_digits(m.entry as nat), 16);
    let f_off = "0x"@ + spec_hex_digits(spec_or_zero_u64(m.offset) as nat);
    let f_ck = "0x"@ + spec_zero_pad(spec_hex_digits(spec_or_zero_u32(m.checksum) as nat), 8);
    let f_ts = "0x"@ + spec_zero_pad(spec_hex_digits(spec_or_zero_u32(m.timestamp) as nat), 8);
    let s1 = seq![f_id];
    assert(spec_join_fields(s1) == f_id);
    let s2 = s1.push(f_base);
    lemma_join_push(s1, f_base);
    let s3 = s2.push(f_end);
    lemma_join_push(s2, f_end);
    let s4 = s3.push(f_entry);
    lemma_join_push(s3, f_entry);
    let s5 = s4.push(m.path);
    lemma_join_push(s4, m.path);
    assert(fs =~= s5);
    assert(spec_join_fields(fs) == spec_join_fields(s5));
    assert(spec_join_fields(s5) =~= spec_module_line(m, version, false));
}

/// A plain field: nonempty, and free of whitespace, commas and newlines.
pub open spec fn spec_plain_field(f: Seq<char>) -> bool {
    f.len() > 0 && (forall|i: int|
        0 <= i < f.len() ==> {
            let c = #[trigger] f[i];
            &&& !spec_is_ws(c)
            &&& c != ','
            &&& (c as u32) != 10
        })
}

/// Every field of a record but the path is plain, and the path is last.
proof fn lemma_record_fields_shape(m: ModuleEntryView, version: ModuleTableVersion, win: bool)
    ensures
        ({
            let fs = spec_record_fields(m, version, win);
            &&& fs.len() >= 5
            &&& fs.len() == 5 + (if version.spec_rank() >= 3 { 1int } else { 0 })
                + (if version.spec_rank() >= 4 { 1int } else { 0 })
                + (if win { 2int } else { 0 })
            &&& fs[0] == spec_dec_digits(m.id as nat)
            &&& fs.last() == m.path
            &&& forall|j: int| 0 <= j < fs.len() - 1 ==> spec_plain_field(#[trigger] fs[j])
        }),
{
    let fs = spec_record_fields(m, version, win);
    let f_id = spec_dec_digits(m.id as nat);
    let f_ci = spec_int_digits(spec_ci_value(m));
    let f_base = "0x"@ + spec_zero_pad(spec_hex_digits(m.base as nat), 16);
    let f_end = "0x"@ + spec_zero_pad(spec_hex_digits(m.end as nat), 16);
    let f_entry = "0x"@ + spec_zero_pad(spec_hex_digits(m.entry as nat), 16);
    let f_off = "0x"@ + spec_hex_digits(spec_or_zero_u64(m.offset) as nat);
    let f_ck = "0x"@ + spec_zero_pad(spec_hex_digits(spec_or_zero_u32(m.checksum) as nat), 8);
    let f_ts = "0x"@ + spec_zero_pad(spec_hex_digits(spec_or_zero_u32(m.timestamp) as nat), 8);
    assert(spec_plain_field(f_id)) by {
        crate::numeric::lemma_dec_digits_plain(m.id as nat);
    }
    assert(spec_plain_field(f_ci)) by {
        crate::numeric::lemma_int_digits_plain(spec_ci_value(m));
    }
    assert(spec_plain_field(f_base)) by {
        crate::numeric::lemma_hex_field_plain(m.base as nat, 16);
    }
    assert(spec_plain_field(f_end)) by {
        crate::numeric::lemma_hex_field_plain(m.end as nat, 16);
    }
    assert(spec_plain_field(f_entry)) by {
        crate::numeric::lemma_hex_field_plain(m.entry as nat, 16);
    }
    assert(spec_plain_field(f_off)) by {
        crate::numeric::lemma_hex_field_plain(spec_or_zero_u64(m.offset) as nat, 0);
        assert(spec_zero_pad(spec_hex_digits(spec_or_zero_u64(m.offset) as nat), 0)
            == spec_hex_digits(spec_or_zero_u64(m.offset) as nat));
    }
    assert(spec_plain_field(f_ck)) by {
        crate::numeric::lemma_hex_field_plain(spec_or_zero_u32(m.checksum) as nat, 8);
    }
    assert(spec_plain_field(f_ts)) by {
        crate::numeric::lemma_hex_field_plain(spec_or_zero_u32(m.timestamp) as nat, 8);
    }
    if version.spec_rank() >= 4 {
        if win {
            assert(fs =~= seq![f_id, f_ci, f_base, f_end, f_entry, f_off, f_ck, f_ts, m.path]);
        } else {
            assert(fs =~= seq![f_id, f_ci, f_base, f_end, f_entry, f_off, m.path]);
        }
    } else if version.spec_rank() >= 3 {
        if win {
            assert(fs =~= seq![f_id, f_ci, f_base, f_end, f_entry, f_ck, f_ts, m.path]);
        } else {
            assert(fs =~= seq![f_id, f_ci, f_base, f_end, f_entry, m.path]);
        }
    } else {
        if win {
            assert(fs =~= seq![f_id, f_base, f_end, f_entry, f_ck, f_ts, m.path]);
        } else {
            assert(fs =~= seq![f_id, f_base, f_end, f_entry, m.path]);
        }
    }
}

/// The writer never puts a newline inside a record line.
proof fn lemma_module_line_no_newline(m: ModuleEntryView, version: ModuleTableVersion, win: bool)
    requires
        forall|i: int| 0 <= i < m.path.len() ==> ((#[trigger] m.path[i]) as u32) != 10,
    ensures
        forall|k: int|
            0 <= k < spec_module_line(m, version, win).len() ==> ((
            #[trigger] spec_module_line(m, version, win)[k]) as u32) != 10,
{
    lemma_module_line_is_join(m, version, win);
    lemma_record_fields_shape(m, version, win);
    let fs = spec_record_fields(m, version, win);
    assert forall|j: int, i: int|
        0 <= j < fs.len() && 0 <= i < fs[j].len() implies ((#[trigger] fs[j][i]) as u32)
        != 10 by {
        if j < fs.len() - 1 {
            assert(spec_plain_field(fs[j]));
        } else {
            assert(fs[j] == m.path);
        }
    }
    crate::text::lemma_join_no_newline(fs);
}

/// Splitting a trimmed record line by its column count and trimming each
/// piece restores exactly the record's fields.
proof fn lemma_record_values(m: ModuleEntryView, version: ModuleTableVersion, win: bool)
    requires
        m.path.len() > 0 ==> !spec_is_ws(m.path[0]),
        m.path.len() > 0 ==> !spec_is_ws(m.path.last()),
    ensures
        ({
            let fs = spec_record_fields(m, version, win);
            let t = spec_trim(spec_module_line(m, version, win));
            spec_splitn(t, fs.len(), ',').map_values(|v: Seq<char>| spec_trim(v)) =~= fs
        }),
{
    lemma_module_line_is_join(m, version, win);
    lemma_record_fields_shape(m, version, win);
    let fs = spec_record_fields(m, version, win);
    let line = spec_module_line(m, version, win);
    crate::text::lemma_join_first(fs);
    crate::text::lemma_trim_start_no_ws(line);
    if m.path.len() > 0 {
        crate::text::lemma_join_last(fs);
        crate::text::lemma_trim_end_no_ws(line);
        assert(spec_trim(line) == line);
        crate::text::lemma_splitn_join(Seq::<char>::empty(), fs);
        let parts = spec_splitn(line, fs.len(), ',');
        assert(Seq::<char>::empty() + fs[0] =~= fs[0]);
        let vals = parts.map_values(|v: Seq<char>| spec_trim(v));
        assert forall|j: int| 0 <= j < fs.len() implies vals[j] == #[trigger] fs[j] by {
            if j == 0 {
                assert(parts[0] == fs[0]);
                crate::text::lemma_trim_of_trim_free(fs[0]);
            } else {
                assert(parts[j] == seq![' '] + fs[j]);
                crate::text::lemma_trim_drop_leading_ws(' ', fs[j]);
                crate::text::lemma_trim_of_trim_free(fs[j]);
            }
        }
        assert(vals =~= fs);
    } else {
        let front = fs.drop_last();
        crate::text::lemma_join_drop_empty_last(fs);
        reveal_strlit(", ");
        assert(line =~= spec_join_fields(front) + ", "@);
        crate::text::lemma_join_first(front);
        let trimmed = spec_join_fields(front) + seq![','];
        assert(line =~= trimmed + seq![' ']);
        assert(spec_trim_start(line) == line);
        assert(line.last() == ' ');
        assert(spec_is_ws(' '));
        assert(line.drop_last() =~= trimmed);
        assert(trimmed.last() == ',');
        assert(!spec_is_ws(','));
        assert(spec_trim_end(line) == spec_trim_end(trimmed));
        assert(spec_trim_end(trimmed) == trimmed);
        assert(spec_trim(line) == trimmed);
        crate::text::lemma_splitn_join_trailing_comma(Seq::<char>::empty(), front);
        let parts = spec_splitn(trimmed, fs.len(), ',');
        assert(parts.len() == fs.len());
        assert(Seq::<char>::empty() + front[0] =~= front[0]);
        let vals = parts.map_values(|v: Seq<char>| spec_trim(v));
        assert forall|j: int| 0 <= j < fs.len() implies vals[j] == #[trigger] fs[j] by {
            if j == 0 {
                assert(parts[0] == front[0]);
                assert(front[0] == fs[0]);
                crate::text::lemma_trim_of_trim_free(fs[0]);
            } else if j < fs.len() - 1 {
                assert(parts[j] == seq![' '] + front[j]);
                assert(front[j] == fs[j]);
                crate::text::lemma_trim_drop_leading_ws(' ', fs[j]);
                crate::text::lemma_trim_of_trim_free(fs[j]);
            } else {
                assert(parts[j] == Seq::<char>::empty());
                assert(spec_trim(Seq::<char>::empty()) =~= Seq::<char>::empty());
                assert(fs[j] == m.path);
                assert(m.path =~= Seq::<char>::empty());
            }
        }
        assert(vals =~= fs);
    }
}

/// The column layout the decoder sees for each schema version and
/// platform-field flag: the implicit legacy layout, or the declared one.
pub open spec fn spec_expected_cols(version: ModuleTableVersion, win: bool) -> Seq<Col> {
    match version {
        ModuleTableVersion::Legacy => seq![Col::Id, Col::Base, Col::End, Col::Entry, Col::Path],
        ModuleTableVersion::V2 => if win {
            seq![Col::Id, Col::Base, Col::End, Col::Entry, Col::Checksum, Col::Timestamp, Col::Path]
        } else {
            seq![Col::Id, Col::Base, Col::End, Col::Entry, Col::Path]
        },
        ModuleTableVersion::V3 => if win {
            seq![
                Col::Id,
                Col::ContainingId,
                Col::Start,
                Col::End,
                Col::Entry,
                Col::Checksum,
                Col::Timestamp,
                Col::Path,
            ]
        } else {
            seq![Col::Id, Col::ContainingId, Col::Start, Col::End, Col::Entry, Col::Path]
        },
        ModuleTableVersion::V4 => if win {
            seq![
                Col::Id,
                Col::ContainingId,
                Col::Start,
                Col::End,
                Col::Entry,
                Col::Offset,
                Col::Checksum,
                Col::Timestamp,
                Col::Path,
            ]
        } else {
            seq![
                Col::Id,
                Col::ContainingId,
                Col::Start,
                Col::End,
                Col::Entry,
                Col::Offset,
                Col::Path,
            ]
        },
    }
}

/// What one module comes back as after encoding under a schema version
/// and decoding again: fields the version cannot carry are absent, and
/// absent optional fields the version does carry come back as their
/// written placeholders.
pub open spec fn spec_normalize_module(
    m: ModuleEntryView,
    version: ModuleTableVersion,
    win: bool,
) -> ModuleEntryView {
    ModuleEntryView {
        id: m.id,
        base: m.base,
        end: m.end,
        entry: m.entry,
        path: m.path,
        containing_id: if version.spec_rank() >= 3 {
            Some(spec_ci_value(m) as i32)
        } else {
            None
        },
        offset: if version.spec_rank() >= 4 {
            Some(spec_or_zero_u64(m.offset))
        } else {
            None
        },
        checksum: if win {
            Some(spec_or_zero_u32(m.checksum))
        } else {
            None
        },
        timestamp: if win {
            Some(spec_or_zero_u32(m.timestamp))
        } else {
            None
        },
    }
}

/// Field extraction from a record's own fields under its own columns
/// restores the normalized module.
proof fn lemma_entry_of_fields(m: ModuleEntryView, version: ModuleTableVersion, win: bool)
    requires
        version.spec_rank() == 1 ==> !win,
    ensures
        spec_entry_of_values(
            spec_expected_cols(version, win),
            spec_record_fields(m, version, win),
        ) == Some(spec_normalize_module(m, version, win)),
{
    crate::numeric::lemma_parse_uint_of_dec(m.id as nat, u32::MAX as nat);
    crate::numeric::lemma_parse_hex_of_formatted(m.base as nat, 16, u64::MAX as nat);
    crate::numeric::lemma_parse_hex_of_formatted(m.end as nat, 16, u64::MAX as nat);
    crate::numeric::lemma_parse_hex_of_formatted(m.entry as nat, 16, u64::MAX as nat);
    crate::numeric::lemma_parse_hex_of_formatted(spec_or_zero_u64(m.offset) as nat, 0, u64::MAX as nat);
    assert(spec_zero_pad(spec_hex_digits(spec_or_zero_u64(m.offset) as nat), 0)
        == spec_hex_digits(spec_or_zero_u64(m.offset) as nat));
    crate::numeric::lemma_parse_hex_of_formatted(spec_or_zero_u32(m.checksum) as nat, 8, u32::MAX as nat);
    crate::numeric::lemma_parse_hex_of_formatted(spec_or_zero_u32(m.timestamp) as nat, 8, u32::MAX as nat);
    crate::numeric::lemma_parse_i32_of_int_digits(spec_ci_value(m));
    if version.spec_rank() >= 4 {
        if win {
            lemma_entry_fields_v4_win(m, version);
        } else {
            lemma_entry_fields_v4_plain(m, version);
        }
    } else if version.spec_rank() >= 3 {
        if win {
            lemma_entry_fields_v3_win(m, version);
        } else {
            lemma_entry_fields_v3_plain(m, version);
        }
    } else {
        if win {
            lemma_entry_fields_v2_win(m, version);
        } else {
            lemma_entry_fields_low_plain(m, version);
        }
    }
}

#[verifier::rlimit(100)]
#[verifier::spinoff_prover]
proof fn lemma_entry_fields_v4_win(m: ModuleEntryView, version: ModuleTableVersion)
    requires
        version.spec_rank() >= 4,
        spec_parse_uint(spec_dec_digits(m.id as nat), 10, u32::MAX as nat) == Some(m.id as nat),
        spec_parse_hex("0x"@ + spec_zero_pad(spec_hex_digits(m.base as nat), 16), u64::MAX as nat)
            == Some(m.base as nat),
        spec_parse_hex("0x"@ + spec_zero_pad(spec_hex_digits(m.end as nat), 16), u64::MAX as nat)
            == Some(m.end as nat),
        spec_parse_hex("0x"@ + spec_zero_pad(spec_hex_digits(m.entry as nat), 16), u64::MAX as nat)
            == Some(m.entry as nat),
        spec_parse_hex("0x"@ + spec_hex_digits(spec_or_zero_u64(m.offset) as nat), u64::MAX as nat)
            == Some(spec_or_zero_u64(m.offset) as nat),
        spec_parse_hex(
            "0x"@ + spec_zero_pad(spec_hex_digits(spec_or_zero_u32(m.checksum) as nat), 8),
            u32::MAX as nat,
        ) == Some(spec_or_zero_u32(m.checksum) as nat),
        spec_parse_hex(
            "0x"@ + spec_zero_pad(spec_hex_digits(spec_or_zero_u32(m.timestamp) as nat), 8),
            u32::MAX as nat,
        ) == Some(spec_or_zero_u32(m.timestamp) as nat),
        spec_parse_i32(spec_int_digits(spec_ci_value(m))) == Some(spec_ci_value(m)),
    ensures
        spec_entry_of_values(
            spec_expected_cols(version, true),
            spec_record_fields(m, version, true),
        ) == Some(spec_normalize_module(m, version, true)),
{
    reveal_with_fuel(crate::module_table::spec_lookup, 12);
    let cols = spec_expected_cols(version, true);
    let vals = spec_record_fields(m, version, true);
    let f_id = spec_dec_digits(m.id as nat);
    let f_ci = spec_int_digits(spec_ci_value(m));
    let f_base = "0x"@ + spec_zero_pad(spec_hex_digits(m.base as nat), 16);
    let f_end = "0x"@ + spec_zero_pad(spec_hex_digits(m.end as nat), 16);
    let f_entry = "0x"@ + spec_zero_pad(spec_hex_digits(m.entry as nat), 16);
    let f_off = "0x"@ + spec_hex_digits(spec_or_zero_u64(m.offset) as nat);
    let f_ck = "0x"@ + spec_zero_pad(spec_hex_digits(spec_or_zero_u32(m.checksum) as nat), 8);
    let f_ts = "0x"@ + spec_zero_pad(spec_hex_digits(spec_or_zero_u32(m.timestamp) as nat), 8);
    assert(cols =~= seq![Col::Id, Col::ContainingId, Col::Start, Col::End, Col::Entry, Col::Offset, Col::Checksum, Col::Timestamp, Col::Path]);
    assert(vals =~= seq![f_id, f_ci, f_base, f_end, f_entry, f_off, f_ck, f_ts, m.path]);
    assert(spec_entry_of_values(cols, vals) == Some(spec_normalize_module(m, version, true)));
}

#[verifier::rlimit(100)]
#[verifier::spinoff_prover]
proof fn lemma_entry_fields_v4_plain(m: ModuleEntryView, version: ModuleTableVersion)
    requires
        version.spec_rank() >= 4,
        spec_parse_uint(spec_dec_digits(m.id as nat), 10, u32::MAX as nat) == Some(m.id as nat),
        spec_parse_hex("0x"@ + spec_zero_pad(spec_hex_digits(m.base as nat), 16), u64::MAX as nat)
            == Some(m.base as nat),
        spec_parse_hex("0x"@ + spec_zero_pad(spec_hex_digits(m.end as nat), 16), u64::MAX as nat)
            == Some(m.end as nat),
        spec_parse_hex("0x"@ + spec_zero_pad(spec_hex_digits(m.entry as nat), 16), u64::MAX as nat)
            == Some(m.entry as nat),
        spec_parse_hex("0x"@ + spec_hex_digits(spec_or_zero_u64(m.offset) as nat), u64::MAX as nat)
            == Some(spec_or_zero_u64(m.offset) as nat),
        spec_parse_hex(
            "0x"@ + spec_zero_pad(spec_hex_digits(spec_or_zero_u32(m.checksum) as nat), 8),
            u32::MAX as nat,
        ) == Some(spec_or_zero_u32(m.checksum) as nat),
        spec_parse_hex(
            "0x"@ + spec_zero_pad(spec_hex_digits(spec_or_zero_u32(m.timestamp) as nat), 8),
            u32::MAX as nat,
        ) == Some(spec_or_zero_u32(m.timestamp) as nat),
        spec_parse_i32(spec_int_digits(spec_ci_value(m))) == Some(spec_ci_value(m)),
    ensures
        spec_entry_of_values(
            spec_expected_cols(version, false),
            spec_record_fields(m, version, false),
        ) == Some(spec_normalize_module(m, version, false)),
{
    reveal_with_fuel(crate::module_table::spec_lookup, 12);
    let cols = spec_expected_cols(version, false);
    let vals = spec_record_fields(m, version, false);
    let f_id = spec_dec_digits(m.id as nat);
    let f_ci = spec_int_digits(spec_ci_value(m));
    let f_base = "0x"@ + spec_zero_pad(spec_hex_digits(m.base as nat), 16);
    let f_end = "0x"@ + spec_zero_pad(spec_hex_digits(m.end as nat), 16);
    let f_entry = "0x"@ + spec_zero_pad(spec_hex_digits(m.entry as nat), 16);
    let f_off = "0x"@ + spec_hex_digits(spec_or_zero_u64(m.offset) as nat);
    let f_ck = "0x"@ + spec_zero_pad(spec_hex_digits(spec_or_zero_u32(m.checksum) as nat), 8);
    let f_ts = "0x"@ + spec_zero_pad(spec_hex_digits(spec_or_zero_u32(m.timestamp) as nat), 8);
    assert(cols =~= seq![Col::Id, Col::ContainingId, Col::Start, Col::End, Col::Entry, Col::Offset, Col::Path]);
    assert(vals =~= seq![f_id, f_ci, f_base, f_end, f_entry, f_off, m.path]);
    assert(spec_entry_of_values(cols, vals) == Some(spec_normalize_module(m, version, false)));
}

#[verifier::rlimit(100)]
#[verifier::spinoff_prover]
proof fn lemma_entry_fields_v3_win(m: ModuleEntryView, version: ModuleTableVersion)
    requires
        version.spec_rank() == 3,
        spec_parse_uint(spec_dec_digits(m.id as nat), 10, u32::MAX as nat) == Some(m.id as nat),
        spec_parse_hex("0x"@ + spec_zero_pad(spec_hex_digits(m.base as nat), 16), u64::MAX as nat)
            == Some(m.base as nat),
        spec_parse_hex("0x"@ + spec_zero_pad(spec_hex_digits(m.end as nat), 16), u64::MAX as nat)
            == Some(m.end as nat),
        spec_parse_hex("0x"@ + spec_zero_pad(spec_hex_digits(m.entry as nat), 16), u64::MAX as nat)
            == Some(m.entry as nat),
        spec_parse_hex("0x"@ + spec_hex_digits(spec_or_zero_u64(m.offset) as nat), u64::MAX as nat)
            == Some(spec_or_zero_u64(m.offset) as nat),
        spec_parse_hex(
            "0x"@ + spec_zero_pad(spec_hex_digits(spec_or_zero_u32(m.checksum) as nat), 8),
            u32::MAX as nat,
        ) == Some(spec_or_zero_u32(m.checksum) as nat),
        spec_parse_hex(
            "0x"@ + spec_zero_pad(spec_hex_digits(spec_or_zero_u32(m.timestamp) as nat), 8),
            u32::MAX as nat,
        ) == Some(spec_or_zero_u32(m.timestamp) as nat),
        spec_parse_i32(spec_int_digits(spec_ci_value(m))) == Some(spec_ci_value(m)),
    ensures
        spec_entry_of_values(
            spec_expected_cols(version, true),
            spec_record_fields(m, version, true),
        ) == Some(spec_normalize_module(m, version, true)),
{
    reveal_with_fuel(crate::module_table::spec_lookup, 12);
    let cols = spec_expected_cols(version, true);
    let vals = spec_record_fields(m, version, true);
    let f_id = spec_dec_digits(m.id as nat);
    let f_ci = spec_int_digits(spec_ci_value(m));
    let f_base = "0x"@ + spec_zero_pad(spec_hex_digits(m.base as nat), 16);
    let f_end = "0x"@ + spec_zero_pad(spec_hex_digits(m.end as nat), 16);
    let f_entry = "0x"@ + spec_zero_pad(spec_hex_digits(m.entry as nat), 16);
    let f_off = "0x"@ + spec_hex_digits(spec_or_zero_u64(m.offset) as nat);
    let f_ck = "0x"@ + spec_zero_pad(spec_hex_digits(spec_or_zero_u32(m.checksum) as nat), 8);
    let f_ts = "0x"@ + spec_zero_pad(spec_hex_digits(spec_or_zero_u32(m.timestamp) as nat), 8);
    assert(cols =~= seq![Col::Id, Col::ContainingId, Col::Start, Col::End, Col::Entry, Col::Checksum, Col::Timestamp, Col::Path]);
    assert(vals =~= seq![f_id, f_ci, f_base, f_end, f_entry, f_ck, f_ts, m.path]);
    assert(spec_entry_of_values(cols, vals) == Some(spec_normalize_module(m, version, true)));
}

#[verifier::rlimit(100)]
#[verifier::spinoff_prover]
proof fn lemma_entry_fields_v3_plain(m: ModuleEntryView, version: ModuleTableVersion)
    requires
        version.spec_rank() == 3,
        spec_parse_uint(spec_dec_digits(m.id as nat), 10, u32::MAX as nat) == Some(m.id as nat),
        spec_parse_hex("0x"@ + spec_zero_pad(spec_hex_digits(m.base as nat), 16), u64::MAX as nat)
            == Some(m.base as nat),
        spec_parse_hex("0x"@ + spec_zero_pad(spec_hex_digits(m.end as nat), 16), u64::MAX as nat)
            == Some(m.end as nat),
        spec_parse_hex("0x"@ + spec_zero_pad(spec_hex_digits(m.entry as nat), 16), u64::MAX as nat)
            == Some(m.entry as nat),
        spec_parse_hex("0x"@ + spec_hex_digits(spec_or_zero_u64(m.offset) as nat), u64::MAX as nat)
            == Some(spec_or_zero_u64(m.offset) as nat),
        spec_parse_hex(
            "0x"@ + spec_zero_pad(spec_hex_digits(spec_or_zero_u32(m.checksum) as nat), 8),
            u32::MAX as nat,
        ) == Some(spec_or_zero_u32(m.checksum) as nat),
        spec_parse_hex(
            "0x"@ + spec_zero_pad(spec_hex_digits(spec_or_zero_u32(m.timestamp) as nat), 8),
            u32::MAX as nat,
        ) == Some(spec_or_zero_u32(m.timestamp) as nat),
        spec_parse_i32(spec_int_digits(spec_ci_value(m))) == Some(spec_ci_value(m)),
    ensures
        spec_entry_of_values(
            spec_expected_cols(version, false),
            spec_record_fields(m, version, false),
        ) == Some(spec_normalize_module(m, version, false)),
{
    reveal_with_fuel(crate::module_table::spec_lookup, 12);
    let cols = spec_expected_cols(version, false);
    let vals = spec_record_fields(m, version, false);
    let f_id = spec_dec_digits(m.id as nat);
    let f_ci = spec_int_digits(spec_ci_value(m));
    let f_base = "0x"@ + spec_zero_pad(spec_hex_digits(m.base as nat), 16);
    let f_end = "0x"@ + spec_zero_pad(spec_hex_digits(m.end as nat), 16);
    let f_entry = "0x"@ + spec_zero_pad(spec_hex_digits(m.entry as nat), 16);
    let f_off = "0x"@ + spec_hex_digits(spec_or_zero_u64(m.offset) as nat);
    let f_ck = "0x"@ + spec_zero_pad(spec_hex_digits(spec_or_zero_u32(m.checksum) as nat), 8);
    let f_ts = "0x"@ + spec_zero_pad(spec_hex_digits(spec_or_zero_u32(m.timestamp) as nat), 8);
    assert(cols =~= seq![Col::Id, Col::ContainingId, Col::Start, Col::End, Col::Entry, Col::Path]);
    assert(vals =~= seq![f_id, f_ci, f_base, f_end, f_entry, m.path]);
    assert(spec_entry_of_values(cols, vals) == Some(spec_normalize_module(m, version, false)));
}

#[verifier::rlimit(100)]
#[verifier::spinoff_prover]
proof fn lemma_entry_fields_v2_win(m: ModuleEntryView, version: ModuleTableVersion)
    requires
        version.spec_rank() == 2,
        spec_parse_uint(spec_dec_digits(m.id as nat), 10, u32::MAX as nat) == Some(m.id as nat),
        spec_parse_hex("0x"@ + spec_zero_pad(spec_hex_digits(m.base as nat), 16), u64::MAX as nat)
            == Some(m.base as nat),
        spec_parse_hex("0x"@ + spec_zero_pad(spec_hex_digits(m.end as nat), 16), u64::MAX as nat)
            == Some(m.end as nat),
        spec_parse_hex("0x"@ + spec_zero_pad(spec_hex_digits(m.entry as nat), 16), u64::MAX as nat)
            == Some(m.entry as nat),
        spec_parse_hex("0x"@ + spec_hex_digits(spec_or_zero_u64(m.offset) as nat), u64::MAX as nat)
            == Some(spec_or_zero_u64(m.offset) as nat),
        spec_parse_hex(
            "0x"@ + spec_zero_pad(spec_hex_digits(spec_or_zero_u32(m.checksum) as nat), 8),
            u32::MAX as nat,
        ) == Some(spec_or_zero_u32(m.checksum) as nat),
        spec_parse_hex(
            "0x"@ + spec_zero_pad(spec_hex_digits(spec_or_zero_u32(m.timestamp) as nat), 8),
            u32::MAX as nat,
        ) == Some(spec_or_zero_u32(m.timestamp) as nat),
        spec_parse_i32(spec_int_digits(spec_ci_value(m))) == Some(spec_ci_value(m)),
    ensures
        spec_entry_of_values(
            spec_expected_cols(version, true),
            spec_record_fields(m, version, true),
        ) == Some(spec_normalize_module(m, version, true)),
{
    reveal_with_fuel(crate::module_table::spec_lookup, 12);
    let cols = spec_expected_cols(version, true);
    let vals = spec_record_fields(m, version, true);
    let f_id = spec_dec_digits(m.id as nat);
    let f_ci = spec_int_digits(spec_ci_value(m));
    let f_base = "0x"@ + spec_zero_pad(spec_hex_digits(m.base as nat), 16);
    let f_end = "0x"@ + spec_zero_pad(spec_hex_digits(m.end as nat), 16);
    let f_entry = "0x"@ + spec_zero_pad(spec_hex_digits(m.entry as nat), 16);
    let f_off = "0x"@ + spec_hex_digits(spec_or_zero_u64(m.offset) as nat);
    let f_ck = "0x"@ + spec_zero_pad(spec_hex_digits(spec_or_zero_u32(m.checksum) as nat), 8);
    let f_ts = "0x"@ + spec_zero_pad(spec_hex_digits(spec_or_zero_u32(m.timestamp) as nat), 8);
    assert(cols =~= seq![Col::Id, Col::Base, Col::End, Col::Entry, Col::Checksum, Col::Timestamp, Col::Path]);
    assert(vals =~= seq![f_id, f_base, f_end, f_entry, f_ck, f_ts, m.path]);
    assert(spec_entry_of_values(cols, vals) == Some(spec_normalize_module(m, version, true)));
}

#[verifier::rlimit(100)]
#[verifier::spinoff_prover]
proof fn lemma_entry_fields_low_plain(m: ModuleEntryView, version: ModuleTableVersion)
    requires
        version.spec_rank() < 3,
        spec_parse_uint(spec_dec_digits(m.id as nat), 10, u32::MAX as nat) == Some(m.id as nat),
        spec_parse_hex("0x"@ + spec_zero_pad(spec_hex_digits(m.base as nat), 16), u64::MAX as nat)
            == Some(m.base as nat),
        spec_parse_hex("0x"@ + spec_zero_pad(spec_hex_digits(m.end as nat), 16), u64::MAX as nat)
            == Some(m.end as nat),
        spec_parse_hex("0x"@ + spec_zero_pad(spec_hex_digits(m.entry as nat), 16), u64::MAX as nat)
            == Some(m.entry as nat),
        spec_parse_hex("0x"@ + spec_hex_digits(spec_or_zero_u64(m.offset) as nat), u64::MAX as nat)
            == Some(spec_or_zero_u64(m.offset) as nat),
        spec_parse_hex(
            "0x"@ + spec_zero_pad(spec_hex_digits(spec_or_zero_u32(m.checksum) as nat), 8),
            u32::MAX as nat,
        ) == Some(spec_or_zero_u32(m.checksum) as nat),
        spec_parse_hex(
            "0x"@ + spec_zero_pad(spec_hex_digits(spec_or_zero_u32(m.timestamp) as nat), 8),
            u32::MAX as nat,
        ) == Some(spec_or_zero_u32(m.timestamp) as nat),
        spec_parse_i32(spec_int_digits(spec_ci_value(m))) == Some(spec_ci_value(m)),
    ensures
        spec_entry_of_values(
            spec_expected_cols(version, false),
            spec_record_fields(m, version, false),
        ) == Some(spec_normalize_module(m, version, false)),
{
    reveal_with_fuel(crate::module_table::spec_lookup, 12);
    let cols = spec_expected_cols(version, false);
    let vals = spec_record_fields(m, version, false);
    let f_id = spec_dec_digits(m.id as nat);
    let f_ci = spec_int_digits(spec_ci_value(m));
    let f_base = "0x"@ + spec_zero_pad(spec_hex_digits(m.base as nat), 16);
    let f_end = "0x"@ + spec_zero_pad(spec_hex_digits(m.end as nat), 16);
    let f_entry = "0x"@ + spec_zero_pad(spec_hex_digits(m.entry as nat), 16);
    let f_off = "0x"@ + spec_hex_digits(spec_or_zero_u64(m.offset) as nat);
    let f_ck = "0x"@ + spec_zero_pad(spec_hex_digits(spec_or_zero_u32(m.checksum) as nat), 8);
    let f_ts = "0x"@ + spec_zero_pad(spec_hex_digits(spec_or_zero_u32(m.timestamp) as nat), 8);
    assert(cols =~= (if version.spec_rank() == 1 { seq![Col::Id, Col::Base, Col::End, Col::Entry, Col::Path] } else { seq![Col::Id, Col::Base, Col::End, Col::Entry, Col::Path] }));
    assert(vals =~= seq![f_id, f_base, f_end, f_entry, m.path]);
    assert(spec_entry_of_values(cols, vals) == Some(spec_normalize_module(m, version, false)));
}

/// The columns line a versioned table declares parses back to the very
/// column layout the writer chose.
proof fn lemma_columns_parse(version: ModuleTableVersion, win: bool)
    requires
        version != ModuleTableVersion::Legacy,
    ensures
        spec_split(spec_columns_header(version, win), ',').map_values(
            |n: Seq<char>| spec_col_of(spec_trim(n)),
        ) == spec_expected_cols(version, win),
{
    match version {
        ModuleTableVersion::Legacy => {},
        ModuleTableVersion::V2 => if win {
            lemma_columns_parse_v2_win(version);
        } else {
            lemma_columns_parse_v2_plain(version);
        },
        ModuleTableVersion::V3 => if win {
            lemma_columns_parse_v3_win(version);
        } else {
            lemma_columns_parse_v3_plain(version);
        },
        ModuleTableVersion::V4 => if win {
            lemma_columns_parse_v4_win(version);
        } else {
            lemma_columns_parse_v4_plain(version);
        },
    }
}

#[verifier::rlimit(100)]
#[verifier::spinoff_prover]
proof fn lemma_columns_parse_v2_win(version: ModuleTableVersion)
    requires
        version == ModuleTableVersion::V2,
    ensures
        spec_split(spec_columns_header(version, true), ',').map_values(
            |n: Seq<char>| spec_col_of(spec_trim(n)),
        ) == spec_expected_cols(version, true),
{
    reveal_strlit(", ");
    reveal_strlit("base");
    reveal_strlit("id");
    reveal_strlit("path");
    reveal_strlit("entry");
    reveal_strlit("timestamp");
    reveal_strlit("checksum");
    reveal_strlit("end");
    reveal_strlit("id, base, end, entry, checksum, timestamp, path");
    reveal_with_fuel(spec_join_fields, 11);
    reveal_strlit("id");
    reveal_strlit("base");
    reveal_strlit("start");
    reveal_strlit("end");
    reveal_strlit("entry");
    reveal_strlit("path");
    reveal_strlit("containing_id");
    reveal_strlit("offset");
    reveal_strlit("checksum");
    reveal_strlit("timestamp");
    let names: Seq<Seq<char>> = seq!["id"@, "base"@, "end"@, "entry"@, "checksum"@, "timestamp"@, "path"@];
    let hdr = spec_columns_header(version, true);
    assert(hdr =~= spec_join_fields(names));
    assert forall|j: int, i: int|
        0 <= j < names.len() && 0 <= i < names[j].len() implies #[trigger] names[j][i]
        != ',' by {}
    crate::text::lemma_split_join(Seq::<char>::empty(), names);
    assert(Seq::<char>::empty() + spec_join_fields(names) =~= hdr);
    let parts = spec_split(hdr, ',');
    assert(Seq::<char>::empty() + names[0] =~= names[0]);
    let cols = parts.map_values(|n: Seq<char>| spec_col_of(spec_trim(n)));
    assert forall|j: int| 0 <= j < names.len() implies cols[j] == spec_expected_cols(
        version,
        true,
    )[j] by {
        if j == 0 {
            crate::text::lemma_trim_of_trim_free(names[0]);
        } else {
            assert(parts[j] == seq![' '] + names[j]);
            crate::text::lemma_trim_drop_leading_ws(' ', names[j]);
            crate::text::lemma_trim_of_trim_free(names[j]);
        }
    }
    assert(cols =~= spec_expected_cols(version, true));
}

#[verifier::rlimit(100)]
#[verifier::spinoff_prover]
proof fn lemma_columns_parse_v2_plain(version: ModuleTableVersion)
    requires
        version == ModuleTableVersion::V2,
    ensures
        spec_split(spec_columns_header(version, false), ',').map_values(
            |n: Seq<char>| spec_col_of(spec_trim(n)),
        ) == spec_expected_cols(version, false),
{
    reveal_strlit(", ");
    reveal_strlit("base");
    reveal_strlit("id");
    reveal_strlit("path");
    reveal_strlit("entry");
    reveal_strlit("end");
    reveal_strlit("id, base, end, entry, path");
    reveal_with_fuel(spec_join_fields, 11);
    reveal_strlit("id");
    reveal_strlit("base");
    reveal_strlit("start");
    reveal_strlit("end");
    reveal_strlit("entry");
    reveal_strlit("path");
    reveal_strlit("containing_id");
    reveal_strlit("offset");
    reveal_strlit("checksum");
    reveal_strlit("timestamp");
    let names: Seq<Seq<char>> = seq!["id"@, "base"@, "end"@, "entry"@, "path"@];
    let hdr = spec_columns_header(version, false);
    assert(hdr =~= spec_join_fields(names));
    assert forall|j: int, i: int|
        0 <= j < names.len() && 0 <= i < names[j].len() implies #[trigger] names[j][i]
        != ',' by {}
    crate::text::lemma_split_join(Seq::<char>::empty(), names);
    assert(Seq::<char>::empty() + spec_join_fields(names) =~= hdr);
    let parts = spec_split(hdr, ',');
    assert(Seq::<char>::empty() + names[0] =~= names[0]);
    let cols = parts.map_values(|n: Seq<char>| spec_col_of(spec_trim(n)));
    assert forall|j: int| 0 <= j < names.len() implies cols[j] == spec_expected_cols(
        version,
        false,
    )[j] by {
        if j == 0 {
            crate::text::lemma_trim_of_trim_free(names[0]);
        } else {
            assert(parts[j] == seq![' '] + names[j]);
            crate::text::lemma_trim_drop_leading_ws(' ', names[j]);
            crate::text::lemma_trim_of_trim_free(names[j]);
        }
    }
    assert(cols =~= spec_expected_cols(version, false));
}

#[verifier::rlimit(100)]
#[verifier::spinoff_prover]
proof fn lemma_columns_parse_v3_win(version: ModuleTableVersion)
    requires
        version == ModuleTableVersion::V3,
    ensures
        spec_split(spec_columns_header(version, true), ',').map_values(
            |n: Seq<char>| spec_col_of(spec_trim(n)),
        ) == spec_expected_cols(version, true),
{
    reveal_strlit(", ");
    reveal_strlit("start");
    reveal_strlit("id");
    reveal_strlit("containing_id");
    reveal_strlit("path");
    reveal_strlit("entry");
    reveal_strlit("timestamp");
    reveal_strlit("checksum");
    reveal_strlit("end");
    reveal_strlit("id, containing_id, start, end, entry, checksum, timestamp, path");
    reveal_with_fuel(spec_join_fields, 11);
    reveal_strlit("id");
    reveal_strlit("base");
    reveal_strlit("start");
    reveal_strlit("end");
    reveal_strlit("entry");
    reveal_strlit("path");
    reveal_strlit("containing_id");
    reveal_strlit("offset");
    reveal_strlit("checksum");
    reveal_strlit("timestamp");
    let names: Seq<Seq<char>> = seq!["id"@, "containing_id"@, "start"@, "end"@, "entry"@, "checksum"@, "timestamp"@, "path"@];
    let hdr = spec_columns_header(version, true);
    assert(hdr =~= spec_join_fields(names));
    assert forall|j: int, i: int|
        0 <= j < names.len() && 0 <= i < names[j].len() implies #[trigger] names[j][i]
        != ',' by {}
    crate::text::lemma_split_join(Seq::<char>::empty(), names);
    assert(Seq::<char>::empty() + spec_join_fields(names) =~= hdr);
    let parts = spec_split(hdr, ',');
    assert(Seq::<char>::empty() + names[0] =~= names[0]);
    let cols = parts.map_values(|n: Seq<char>| spec_col_of(spec_trim(n)));
    assert forall|j: int| 0 <= j < names.len() implies cols[j] == spec_expected_cols(
        version,
        true,
    )[j] by {
        if j == 0 {
            crate::text::lemma_trim_of_trim_free(names[0]);
        } else {
            assert(parts[j] == seq![' '] + names[j]);
            crate::text::lemma_trim_drop_leading_ws(' ', names[j]);
            crate::text::lemma_trim_of_trim_free(names[j]);
        }
    }
    assert(cols =~= spec_expected_cols(version, true));
}

#[verifier::rlimit(100)]
#[verifier::spinoff_prover]
proof fn lemma_columns_parse_v3_plain(version: ModuleTableVersion)
    requires
        version == ModuleTableVersion::V3,
    ensures
        spec_split(spec_columns_header(version, false), ',').map_values(
            |n: Seq<char>| spec_col_of(spec_trim(n)),
        ) == spec_expected_cols(version, false),
{
    reveal_strlit(", ");
    reveal_strlit("start");
    reveal_strlit("id");
    reveal_strlit("containing_id");
    reveal_strlit("path");
    reveal_strlit("entry");
    reveal_strlit("end");
    reveal_strlit("id, containing_id, start, end, entry, path");
    reveal_with_fuel(spec_join_fields, 11);
    reveal_strlit("id");
    reveal_strlit("base");
    reveal_strlit("start");
    reveal_strlit("end");
    reveal_strlit("entry");
    reveal_strlit("path");
    reveal_strlit("containing_id");
    reveal_strlit("offset");
    reveal_strlit("checksum");
    reveal_strlit("timestamp");
    let names: Seq<Seq<char>> = seq!["id"@, "containing_id"@, "start"@, "end"@, "entry"@, "path"@];
    let hdr = spec_columns_header(version, false);
    assert(hdr =~= spec_join_fields(names));
    assert forall|j: int, i: int|
        0 <= j < names.len() && 0 <= i < names[j].len() implies #[trigger] names[j][i]
        != ',' by {}
    crate::text::lemma_split_join(Seq::<char>::empty(), names);
    assert(Seq::<char>::empty() + spec_join_fields(names) =~= hdr);
    let parts = spec_split(hdr, ',');
    assert(Seq::<char>::empty() + names[0] =~= names[0]);
    let cols = parts.map_values(|n: Seq<char>| spec_col_of(spec_trim(n)));
    assert forall|j: int| 0 <= j < names.len() implies cols[j] == spec_expected_cols(
        version,
        false,
    )[j] by {
        if j == 0 {
            crate::text::lemma_trim_of_trim_free(names[0]);
        } else {
            assert(parts[j] == seq![' '] + names[j]);
            crate::text::lemma_trim_drop_leading_ws(' ', names[j]);
            crate::text::lemma_trim_of_trim_free(names[j]);
        }
    }
    assert(cols =~= spec_expected_cols(version, false));
}

#[verifier::rlimit(100)]
#[verifier::spinoff_prover]
proof fn lemma_columns_parse_v4_win(version: ModuleTableVersion)
    requires
        version == ModuleTableVersion::V4,
    ensures
        spec_split(spec_columns_header(version, true), ',').map_values(
            |n: Seq<char>| spec_col_of(spec_trim(n)),
        ) == spec_expected_cols(version, true),
{
    reveal_strlit(", ");
    reveal_strlit("offset");
    reveal_strlit("start");
    reveal_strlit("id");
    reveal_strlit("containing_id");
    reveal_strlit("path");
    reveal_strlit("entry");
    reveal_strlit("timestamp");
    reveal_strlit("checksum");
    reveal_strlit("end");
    reveal_strlit("id, containing_id, start, end, entry, offset, checksum, timestamp, path");
    reveal_with_fuel(spec_join_fields, 11);
    reveal_strlit("id");
    reveal_strlit("base");
    reveal_strlit("start");
    reveal_strlit("end");
    reveal_strlit("entry");
    reveal_strlit("path");
    reveal_strlit("containing_id");
    reveal_strlit("offset");
    reveal_strlit("checksum");
    reveal_strlit("timestamp");
    let names: Seq<Seq<char>> = seq!["id"@, "containing_id"@, "start"@, "end"@, "entry"@, "offset"@, "checksum"@, "timestamp"@, "path"@];
    let hdr = spec_columns_header(version, true);
    assert(hdr =~= spec_join_fields(names));
    assert forall|j: int, i: int|
        0 <= j < names.len() && 0 <= i < names[j].len() implies #[trigger] names[j][i]
        != ',' by {}
    crate::text::lemma_split_join(Seq::<char>::empty(), names);
    assert(Seq::<char>::empty() + spec_join_fields(names) =~= hdr);
    let parts = spec_split(hdr, ',');
    assert(Seq::<char>::empty() + names[0] =~= names[0]);
    let cols = parts.map_values(|n: Seq<char>| spec_col_of(spec_trim(n)));
    assert forall|j: int| 0 <= j < names.len() implies cols[j] == spec_expected_cols(
        version,
        true,
    )[j] by {
        if j == 0 {
            crate::text::lemma_trim_of_trim_free(names[0]);
        } else {
            assert(parts[j] == seq![' '] + names[j]);
            crate::text::lemma_trim_drop_leading_ws(' ', names[j]);
            crate::text::lemma_trim_of_trim_free(names[j]);
        }
    }
    assert(cols =~= spec_expected_cols(version, true));
}

#[verifier::rlimit(100)]
#[verifier::spinoff_prover]
proof fn lemma_columns_parse_v4_plain(version: ModuleTableVersion)
    requires
        version == ModuleTableVersion::V4,
    ensures
        spec_split(spec_columns_header(version, false), ',').map_values(
            |n: Seq<char>| spec_col_of(spec_trim(n)),
        ) == spec_expected_cols(version, false),
{
    reveal_strlit(", ");
    reveal_strlit("offset");
    reveal_strlit("start");
    reveal_strlit("id");
    reveal_strlit("containing_id");
    reveal_strlit("path");
    reveal_strlit("entry");
    reveal_strlit("end");
    reveal_strlit("id, containing_id, start, end, entry, offset, path");
    reveal_with_fuel(spec_join_fields, 11);
    reveal_strlit("id");
    reveal_strlit("base");
    reveal_strlit("start");
    reveal_strlit("end");
    reveal_strlit("entry");
    reveal_strlit("path");
    reveal_strlit("containing_id");
    reveal_strlit("offset");
    reveal_strlit("checksum");
    reveal_strlit("timestamp");
    let names: Seq<Seq<char>> = seq!["id"@, "containing_id"@, "start"@, "end"@, "entry"@, "offset"@, "path"@];
    let hdr = spec_columns_header(version, false);
    assert(hdr =~= spec_join_fields(names));
    assert forall|j: int, i: int|
        0 <= j < names.len() && 0 <= i < names[j].len() implies #[trigger] names[j][i]
        != ',' by {}
    crate::text::lemma_split_join(Seq::<char>::empty(), names);
    assert(Seq::<char>::empty() + spec_join_fields(names) =~= hdr);
    let parts = spec_split(hdr, ',');
    assert(Seq::<char>::empty() + names[0] =~= names[0]);
    let cols = parts.map_values(|n: Seq<char>| spec_col_of(spec_trim(n)));
    assert forall|j: int| 0 <= j < names.len() implies cols[j] == spec_expected_cols(
        version,
        false,
    )[j] by {
        if j == 0 {
            crate::text::lemma_trim_of_trim_free(names[0]);
        } else {
            assert(parts[j] == seq![' '] + names[j]);
            crate::text::lemma_trim_drop_leading_ws(' ', names[j]);
            crate::text::lemma_trim_of_trim_free(names[j]);
        }
    }
    assert(cols =~= spec_expected_cols(version, false));
}

/// The declared column count always matches the emitted field count.
proof fn lemma_cols_len(version: ModuleTableVersion, win: bool)
    requires
        version.spec_rank() == 1 ==> !win,
    ensures
        spec_expected_cols(version, win).len() == 5 + (if version.spec_rank() >= 3 {
            1int
        } else {
            0
        }) + (if version.spec_rank() >= 4 {
            1int
        } else {
            0
        }) + (if win {
            2int
        } else {
            0
        }),
{
    match version {
        ModuleTableVersion::Legacy => {},
        ModuleTableVersion::V2 => {},
        ModuleTableVersion::V3 => {},
        ModuleTableVersion::V4 => {},
    }
}

/// The trimmed characters of one encoded record line decode, under the
/// writer's own column layout, to the normalized module.
#[verifier::rlimit(100)]
#[verifier::spinoff_prover]
proof fn lemma_record_line_decodes(m: ModuleEntryView, version: ModuleTableVersion, win: bool)
    requires
        version.spec_rank() == 1 ==> !win,
        forall|i: int| 0 <= i < m.path.len() ==> ((#[trigger] m.path[i]) as u32) != 10,
        m.path.len() > 0 ==> !spec_is_ws(m.path[0]),
        m.path.len() > 0 ==> !spec_is_ws(m.path.last()),
    ensures
        spec_entry_of_line(
            spec_trim(spec_module_line(m, version, win)),
            spec_expected_cols(version, win),
        ) == Some(spec_normalize_module(m, version, win)),
{
    let cols = spec_expected_cols(version, win);
    let fs = spec_record_fields(m, version, win);
    let t = spec_trim(spec_module_line(m, version, win));
    let vals = spec_splitn(t, cols.len(), ',').map_values(|v: Seq<char>| spec_trim(v));
    assert(cols.len() == fs.len()) by {
        lemma_cols_len(version, win);
        lemma_record_fields_shape(m, version, win);
    }
    assert(vals =~= fs) by {
        lemma_record_values(m, version, win);
    }
    assert(spec_entry_of_values(cols, fs) == Some(spec_normalize_module(m, version, win))) by {
        lemma_entry_of_fields(m, version, win);
    }
    assert(spec_entry_of_line(t, cols) == spec_entry_of_values(cols, vals));
}

/// Module lines peel off from the front one encoded line at a time.
#[verifier::rlimit(100)]
#[verifier::spinoff_prover]
proof fn lemma_module_lines_first(
    mods: Seq<ModuleEntryView>,
    version: ModuleTableVersion,
    win: bool,
)
    requires
        mods.len() > 0,
    ensures
        spec_module_lines(mods, version, win) == spec_line_enc(
            spec_module_line(mods[0], version, win),
        ) + spec_module_lines(mods.drop_first(), version, win),
    decreases mods.len(),
{
    if mods.len() == 1 {
        assert(mods.drop_last() =~= Seq::<ModuleEntryView>::empty());
        assert(mods.drop_first() =~= Seq::<ModuleEntryView>::empty());
        let x = spec_line_enc(spec_module_line(mods[0], version, win));
        assert(Seq::<u8>::empty() + x =~= x);
        assert(x + Seq::<u8>::empty() =~= x);
        assert(mods.last() == mods[0]);
    } else {
        lemma_module_lines_first(mods.drop_last(), version, win);
        assert(mods.drop_last()[0] == mods[0]);
        assert(mods.drop_last().drop_first() =~= mods.drop_first().drop_last());
        assert(mods.drop_first().last() == mods.last());
        assert(mods.drop_first().len() > 0);
        let a = spec_line_enc(spec_module_line(mods[0], version, win));
        let b = spec_module_lines(mods.drop_first().drop_last(), version, win);
        let c = spec_line_enc(spec_module_line(mods.last(), version, win));
        assert(spec_module_lines(mods, version, win) == (a + b) + c);
        assert((a + b) + c =~= a + (b + c));
        assert(spec_module_lines(mods.drop_first(), version, win) == b + c);
    }
}

/// Decoding the writer's record lines restores every module, normalized,
/// and leaves the bytes after the table untouched.
#[verifier::rlimit(100)]
#[verifier::spinoff_prover]
proof fn lemma_records_decode(
    mods: Seq<ModuleEntryView>,
    version: ModuleTableVersion,
    win: bool,
    k: nat,
    tail: Seq<u8>,
)
    requires
        version.spec_rank() == 1 ==> !win,
        k + mods.len() <= u32::MAX as nat + 1,
        forall|j: int| 0 <= j < mods.len() ==> (#[trigger] mods[j].id as nat) == k + j,
        forall|j: int, i: int|
            0 <= j < mods.len() && 0 <= i < mods[j].path.len() ==> ((
            #[trigger] mods[j].path[i]) as u32) != 10,
        forall|j: int|
            0 <= j < mods.len() && #[trigger] mods[j].path.len() > 0 ==> !spec_is_ws(
                mods[j].path[0],
            ) && !spec_is_ws(mods[j].path.last()),
    ensures
        spec_records(
            spec_module_lines(mods, version, win) + tail,
            spec_expected_cols(version, win),
            mods.len() as nat,
            k,
        ) == Ok::<(Seq<ModuleEntryView>, Seq<u8>), crate::codec::ErrorKind>(
            (
                mods.map_values(|mm: ModuleEntryView| spec_normalize_module(mm, version, win)),
                tail,
            ),
        ),
    decreases mods.len(),
{
    let cols = spec_expected_cols(version, win);
    let norm = |mm: ModuleEntryView| spec_normalize_module(mm, version, win);
    if mods.len() == 0 {
        assert(spec_module_lines(mods, version, win) =~= Seq::<u8>::empty());
        assert(spec_module_lines(mods, version, win) + tail =~= tail);
        assert(mods.map_values(norm) =~= Seq::<ModuleEntryView>::empty());
    } else {
        let m0 = mods[0];
        lemma_module_lines_first(mods, version, win);
        let line0 = spec_module_line(m0, version, win);
        let rest_lines = spec_module_lines(mods.drop_first(), version, win);
        let s = spec_module_lines(mods, version, win) + tail;
        assert(s =~= spec_line_enc(line0) + (rest_lines + tail));
        lemma_module_line_no_newline(m0, version, win);
        lemma_read_enc_line(line0, rest_lines + tail);
        lemma_record_line_decodes(m0, version, win);
        assert(spec_line_bytes(s) == spec_line_bytes(spec_line_enc(line0) + (rest_lines
            + tail)));
        assert(decode_utf8(spec_line_bytes(s)) == line0);
        assert(spec_after_line(s) == rest_lines + tail);
        let nm0 = spec_normalize_module(m0, version, win);
        assert(nm0.id == m0.id);
        assert(m0.id as nat == k);
        let sub = mods.drop_first();
        assert forall|j: int| 0 <= j < sub.len() implies (#[trigger] sub[j].id as nat) == k + 1
            + j by {
            assert(sub[j] == mods[j + 1]);
        }
        assert forall|j: int, i: int|
            0 <= j < sub.len() && 0 <= i < sub[j].path.len() implies ((
        #[trigger] sub[j].path[i]) as u32) != 10 by {
            assert(sub[j] == mods[j + 1]);
        }
        assert forall|j: int|
            0 <= j < sub.len() && #[trigger] sub[j].path.len() > 0 implies !spec_is_ws(
            sub[j].path[0],
        ) && !spec_is_ws(sub[j].path.last()) by {
            assert(sub[j] == mods[j + 1]);
        }
        lemma_records_decode(sub, version, win, k + 1, tail);
        assert(spec_records(rest_lines + tail, cols, sub.len() as nat, k + 1) == Ok::<
            (Seq<ModuleEntryView>, Seq<u8>),
            crate::codec::ErrorKind,
        >((sub.map_values(norm), tail)));
        assert(mods.map_values(norm) =~= seq![nm0] + sub.map_values(norm));
    }
}

/// Reading one prefixed header line out of its encoding yields its
/// content and leaves the rest.
proof fn lemma_header_stage(pref: Seq<char>, cs: Seq<char>, rest: Seq<u8>)
    requires
        forall|i: int| 0 <= i < pref.len() ==> ((#[trigger] pref[i]) as u32) != 10,
        forall|i: int| 0 <= i < cs.len() ==> ((#[trigger] cs[i]) as u32) != 10,
    ensures
        crate::codec::spec_header_content(spec_line_enc(pref + cs) + rest, pref)
            == Ok::<Seq<char>, crate::codec::ErrorKind>(cs),
        spec_after_line(spec_line_enc(pref + cs) + rest) == rest,
{
    let whole = pref + cs;
    assert forall|i: int| 0 <= i < whole.len() implies ((#[trigger] whole[i]) as u32)
        != 10 by {
        if i < pref.len() {
            assert(whole[i] == pref[i]);
        } else {
            assert(whole[i] == cs[i - pref.len()]);
        }
    }
    lemma_read_enc_line(whole, rest);
    crate::text::lemma_prefix_content(pref, cs);
}

/// No character of a literal header prefix is a newline, and the first
/// and last characters of the lines built from them are not whitespace.
proof fn lemma_literals_plain()
    ensures
        forall|i: int|
            0 <= i < "DRCOV VERSION: "@.len() ==> ((#[trigger] "DRCOV VERSION: "@[i]) as u32)
                != 10,
        forall|i: int|
            0 <= i < "DRCOV FLAVOR: "@.len() ==> ((#[trigger] "DRCOV FLAVOR: "@[i]) as u32) != 10,
        forall|i: int|
            0 <= i < "Module Table: "@.len() ==> ((#[trigger] "Module Table: "@[i]) as u32) != 10
                && !spec_is_ws("Module Table: "@[0]),
        forall|i: int|
            0 <= i < "Module Table: version "@.len() ==> ((
            #[trigger] "Module Table: version "@[i]) as u32) != 10,
        forall|i: int|
            0 <= i < "Columns: "@.len() ==> ((#[trigger] "Columns: "@[i]) as u32) != 10,
        forall|i: int|
            0 <= i < "BB Table: "@.len() ==> ((#[trigger] "BB Table: "@[i]) as u32) != 10,
        forall|i: int|
            0 <= i < ", count "@.len() ==> ((#[trigger] ", count "@[i]) as u32) != 10,
        forall|i: int| 0 <= i < " bbs"@.len() ==> ((#[trigger] " bbs"@[i]) as u32) != 10,
{
    reveal_strlit("DRCOV VERSION: ");
    reveal_strlit("DRCOV FLAVOR: ");
    reveal_strlit("Module Table: ");
    reveal_strlit("Module Table: version ");
    reveal_strlit("Columns: ");
    reveal_strlit("BB Table: ");
    reveal_strlit(", count ");
    reveal_strlit(" bbs");
}

/// The column header line for each versioned layout is plain text: no
/// newline, and non-whitespace at both ends.
proof fn lemma_columns_header_plain(version: ModuleTableVersion, win: bool)
    ensures
        ({
            let h = spec_columns_header(version, win);
            &&& h.len() > 0
            &&& !spec_is_ws(h[0])
            &&& !spec_is_ws(h.last())
            &&& forall|i: int| 0 <= i < h.len() ==> ((#[trigger] h[i]) as u32) != 10
        }),
{
    reveal_strlit("id, base, end, entry, path");
    reveal_strlit("id, base, end, entry, checksum, timestamp, path");
    reveal_strlit("id, containing_id, start, end, entry, checksum, timestamp, path");
    reveal_strlit("id, containing_id, start, end, entry, path");
    reveal_strlit("id, containing_id, start, end, entry, offset, checksum, timestamp, path");
    reveal_strlit("id, containing_id, start, end, entry, offset, path");
    match version {
        ModuleTableVersion::Legacy => {},
        ModuleTableVersion::V2 => {},
        ModuleTableVersion::V3 => {},
        ModuleTableVersion::V4 => {},
    }
}

/// Decoding the whole encoded module-table section restores the schema
/// version and the normalized modules, and leaves the bytes after it.
proof fn lemma_module_table_stage_decodes(d: CoverageDataView, tail: Seq<u8>)
    requires
        d.spec_valid(),
        d.modules.len() <= usize::MAX as nat,
        forall|j: int, i: int|
            0 <= j < d.modules.len() && 0 <= i < d.modules[j].path.len() ==> ((
            #[trigger] d.modules[j].path[i]) as u32) != 10,
        forall|j: int|
            0 <= j < d.modules.len() && #[trigger] d.modules[j].path.len() > 0 ==> !spec_is_ws(
                d.modules[j].path[0],
            ) && !spec_is_ws(d.modules[j].path.last()),
    ensures
        ({
            let win = d.module_version != ModuleTableVersion::Legacy && crate::codec::spec_win_flag(
                d.modules,
            );
            let s = spec_line_enc(crate::codec::spec_mt_header(d)) + ((if d.module_version
                != ModuleTableVersion::Legacy {
                spec_line_enc("Columns: "@ + spec_columns_header(d.module_version, win))
            } else {
                Seq::<u8>::empty()
            }) + (spec_module_lines(d.modules, d.module_version, win) + tail));
            crate::codec::spec_module_table_stage(s) == Ok::<
                (ModuleTableVersion, Seq<ModuleEntryView>, Seq<u8>),
                crate::codec::ErrorKind,
            >(
                (
                    d.module_version,
                    d.modules.map_values(
                        |mm: ModuleEntryView| spec_normalize_module(mm, d.module_version, win),
                    ),
                    tail,
                ),
            )
        }),
{
    if d.module_version == ModuleTableVersion::Legacy {
        lemma_mt_stage_legacy(d, tail);
    } else {
        lemma_mt_stage_versioned(d, tail);
    }
}

#[verifier::rlimit(100)]
#[verifier::spinoff_prover]
proof fn lemma_mt_stage_legacy(d: CoverageDataView, tail: Seq<u8>)
    requires
        d.module_version == ModuleTableVersion::Legacy,
        d.spec_valid(),
        d.modules.len() <= usize::MAX as nat,
        forall|j: int, i: int|
            0 <= j < d.modules.len() && 0 <= i < d.modules[j].path.len() ==> ((
            #[trigger] d.modules[j].path[i]) as u32) != 10,
        forall|j: int|
            0 <= j < d.modules.len() && #[trigger] d.modules[j].path.len() > 0 ==> !spec_is_ws(
                d.modules[j].path[0],
            ) && !spec_is_ws(d.modules[j].path.last()),
    ensures
        ({
            let win = d.module_version != ModuleTableVersion::Legacy && crate::codec::spec_win_flag(
                d.modules,
            );
            let s = spec_line_enc(crate::codec::spec_mt_header(d)) + ((if d.module_version
                != ModuleTableVersion::Legacy {
                spec_line_enc("Columns: "@ + spec_columns_header(d.module_version, win))
            } else {
                Seq::<u8>::empty()
            }) + (spec_module_lines(d.modules, d.module_version, win) + tail));
            crate::codec::spec_module_table_stage(s) == Ok::<
                (ModuleTableVersion, Seq<ModuleEntryView>, Seq<u8>),
                crate::codec::ErrorKind,
            >(
                (
                    d.module_version,
                    d.modules.map_values(
                        |mm: ModuleEntryView| spec_normalize_module(mm, d.module_version, win),
                    ),
                    tail,
                ),
            )
        }),
{
    lemma_literals_plain();
    reveal_strlit("DRCOV VERSION: ");
    reveal_strlit("Module Table: ");
    reveal_strlit("Module Table: version ");
    reveal_strlit("version ");
    reveal_strlit(", count ");
    reveal_strlit(" count ");
    reveal_strlit("count ");
    reveal_strlit("Columns: ");
    let win = d.module_version != ModuleTableVersion::Legacy && crate::codec::spec_win_flag(
        d.modules,
    );
    let mt = crate::codec::spec_mt_header(d);
    let n = d.modules.len();
    crate::numeric::lemma_dec_digits_plain(n);
    crate::numeric::lemma_dec_digits_plain(d.module_version.spec_rank() as nat);
    let rest1 = (if d.module_version != ModuleTableVersion::Legacy {
        spec_line_enc("Columns: "@ + spec_columns_header(d.module_version, win))
    } else {
        Seq::<u8>::empty()
    }) + (spec_module_lines(d.modules, d.module_version, win) + tail);
    let s = spec_line_enc(mt) + rest1;
    assert(n <= u32::MAX as nat + 1) by {
        if n > u32::MAX as nat + 1 {
            assert(d.modules[u32::MAX as int + 1].id as nat == u32::MAX as nat + 1);
        }
    }
        assert(mt == "Module Table: "@ + spec_dec_digits(n));
        assert forall|i: int| 0 <= i < mt.len() implies ((#[trigger] mt[i]) as u32) != 10 by {
            if i < "Module Table: "@.len() {
                assert(mt[i] == "Module Table: "@[i]);
            } else {
                assert(mt[i] == spec_dec_digits(n)[i - "Module Table: "@.len()]);
            }
        }
        lemma_read_enc_line(mt, rest1);
        assert(!spec_is_ws(mt[0]));
        assert(mt.last() == spec_dec_digits(n).last());
        assert(!spec_is_ws(mt.last()));
        crate::text::lemma_trim_of_trim_free(mt);
        crate::text::lemma_prefix_content("Module Table: "@, spec_dec_digits(n));
        let content = spec_dec_digits(n);
        assert(!crate::text::spec_has_prefix(content, "version "@)) by {
            if crate::text::spec_has_prefix(content, "version "@) {
                crate::numeric::lemma_dec_digits_ascii(n);
                assert(content[0] == "version "@[0]);
                assert(("version "@[0]) == 'v');
                assert(48 <= (content[0] as u32) <= 57);
            }
        }
        crate::numeric::lemma_parse_uint_of_dec(n, usize::MAX as nat);
        assert(rest1 =~= spec_module_lines(d.modules, d.module_version, win) + tail);
        lemma_records_decode(d.modules, d.module_version, win, 0, tail);
        assert(crate::codec::spec_legacy_cols() == spec_expected_cols(d.module_version, win));
}

#[verifier::rlimit(100)]
#[verifier::spinoff_prover]
proof fn lemma_mt_stage_versioned(d: CoverageDataView, tail: Seq<u8>)
    requires
        d.module_version != ModuleTableVersion::Legacy,
        d.spec_valid(),
        d.modules.len() <= usize::MAX as nat,
        forall|j: int, i: int|
            0 <= j < d.modules.len() && 0 <= i < d.modules[j].path.len() ==> ((
            #[trigger] d.modules[j].path[i]) as u32) != 10,
        forall|j: int|
            0 <= j < d.modules.len() && #[trigger] d.modules[j].path.len() > 0 ==> !spec_is_ws(
                d.modules[j].path[0],
            ) && !spec_is_ws(d.modules[j].path.last()),
    ensures
        ({
            let win = d.module_version != ModuleTableVersion::Legacy && crate::codec::spec_win_flag(
                d.modules,
            );
            let s = spec_line_enc(crate::codec::spec_mt_header(d)) + ((if d.module_version
                != ModuleTableVersion::Legacy {
                spec_line_enc("Columns: "@ + spec_columns_header(d.module_version, win))
            } else {
                Seq::<u8>::empty()
            }) + (spec_module_lines(d.modules, d.module_version, win) + tail));
            crate::codec::spec_module_table_stage(s) == Ok::<
                (ModuleTableVersion, Seq<ModuleEntryView>, Seq<u8>),
                crate::codec::ErrorKind,
            >(
                (
                    d.module_version,
                    d.modules.map_values(
                        |mm: ModuleEntryView| spec_normalize_module(mm, d.module_version, win),
                    ),
                    tail,
                ),
            )
        }),
{
    lemma_literals_plain();
    reveal_strlit("DRCOV VERSION: ");
    reveal_strlit("Module Table: ");
    reveal_strlit("Module Table: version ");
    reveal_strlit("version ");
    reveal_strlit(", count ");
    reveal_strlit(" count ");
    reveal_strlit("count ");
    reveal_strlit("Columns: ");
    let win = d.module_version != ModuleTableVersion::Legacy && crate::codec::spec_win_flag(
        d.modules,
    );
    let mt = crate::codec::spec_mt_header(d);
    let n = d.modules.len();
    crate::numeric::lemma_dec_digits_plain(n);
    crate::numeric::lemma_dec_digits_plain(d.module_version.spec_rank() as nat);
    let rest1 = (if d.module_version != ModuleTableVersion::Legacy {
        spec_line_enc("Columns: "@ + spec_columns_header(d.module_version, win))
    } else {
        Seq::<u8>::empty()
    }) + (spec_module_lines(d.modules, d.module_version, win) + tail);
    let s = spec_line_enc(mt) + rest1;
    assert(n <= u32::MAX as nat + 1) by {
        if n > u32::MAX as nat + 1 {
            assert(d.modules[u32::MAX as int + 1].id as nat == u32::MAX as nat + 1);
        }
    }
        let a = spec_dec_digits(d.module_version.spec_rank() as nat);
        let b = spec_dec_digits(n);
        assert(mt == "Module Table: version "@ + a + ", count "@ + b);
        assert forall|i: int| 0 <= i < mt.len() implies ((#[trigger] mt[i]) as u32) != 10 by {
            let l0 = "Module Table: version "@.len() as int;
            let l1 = l0 + a.len() as int;
            let l2 = l1 + ", count "@.len() as int;
            if i < l0 {
                assert(mt[i] == "Module Table: version "@[i]);
            } else if i < l1 {
                assert(mt[i] == a[i - l0]);
            } else if i < l2 {
                assert(mt[i] == ", count "@[i - l1]);
            } else {
                assert(mt[i] == b[i - l2]);
            }
        }
        lemma_read_enc_line(mt, rest1);
        assert(!spec_is_ws(mt[0])) by {
            assert(mt[0] == "Module Table: version "@[0]);
        }
        assert(mt.last() == b.last());
        assert(!spec_is_ws(mt.last()));
        crate::text::lemma_trim_of_trim_free(mt);
        let x = "version "@ + (a + (", count "@ + b));
        assert(mt =~= "Module Table: "@ + x);
        crate::text::lemma_prefix_content("Module Table: "@, x);
        let y = a + (", count "@ + b);
        assert(x =~= "version "@ + y);
        crate::text::lemma_prefix_content("version "@, y);
        // y holds exactly one comma: right after the schema version digits
        assert forall|i: int| 0 <= i < a.len() implies y[i] != ',' by {
            assert(y[i] == a[i]);
        }
        assert(y[a.len() as int] == ',');
        crate::text::lemma_find_char_at(y, ',', a.len() as int);
        let z = " count "@ + b;
        assert(y.skip(a.len() as int + 1) =~= z);
        assert forall|i: int| 0 <= i < z.len() implies z[i] != ',' by {
            if i < " count "@.len() {
                assert(z[i] == " count "@[i]);
            } else {
                assert(z[i] == b[i - " count "@.len()]);
            }
        }
        crate::text::lemma_split_whole(z, ',');
        assert(spec_split(y, ',') == seq![y.take(a.len() as int)] + seq![z]);
        assert(y.take(a.len() as int) =~= a);
        let parts = spec_split(y, ',');
        assert(parts.len() == 2);
        assert(parts[0] == a);
        assert(parts[1] == z);
        crate::text::lemma_trim_of_trim_free(a);
        crate::numeric::lemma_parse_uint_of_dec(
            d.module_version.spec_rank() as nat,
            u32::MAX as nat,
        );
        assert(z =~= seq![' '] + ("count "@ + b));
        crate::text::lemma_trim_drop_leading_ws(' ', "count "@ + b);
        assert(("count "@ + b)[0] == 'c') by {
            assert(("count "@ + b)[0] == "count "@[0]);
        }
        assert(("count "@ + b).last() == b.last());
        crate::text::lemma_trim_of_trim_free("count "@ + b);
        crate::text::lemma_prefix_content("count "@, b);
        crate::numeric::lemma_parse_uint_of_dec(n, usize::MAX as nat);
        // the columns line
        let hdr = spec_columns_header(d.module_version, win);
        lemma_columns_header_plain(d.module_version, win);
        let cline = "Columns: "@ + hdr;
        assert forall|i: int| 0 <= i < cline.len() implies ((#[trigger] cline[i]) as u32)
            != 10 by {
            if i < "Columns: "@.len() {
                assert(cline[i] == "Columns: "@[i]);
            } else {
                assert(cline[i] == hdr[i - "Columns: "@.len()]);
            }
        }
        let rest2 = spec_module_lines(d.modules, d.module_version, win) + tail;
        assert(rest1 =~= spec_line_enc(cline) + rest2);
        lemma_read_enc_line(cline, rest2);
        assert(!spec_is_ws(cline[0])) by {
            assert(cline[0] == "Columns: "@[0]);
            reveal_strlit("Columns: ");
        }
        assert(cline.last() == hdr.last());
        crate::text::lemma_trim_of_trim_free(cline);
        crate::text::lemma_prefix_content("Columns: "@, hdr);
        lemma_columns_parse(d.module_version, win);
        lemma_records_decode(d.modules, d.module_version, win, 0, tail);
}

/// Decoding the encoded basic-block section restores the blocks exactly.
#[verifier::rlimit(100)]
#[verifier::spinoff_prover]
proof fn lemma_bb_stage_decodes(blocks: Seq<crate::model::BasicBlock>)
    requires
        blocks.len() <= usize::MAX as nat,
    ensures
        crate::codec::spec_bb_stage(
            spec_line_enc("BB Table: "@ + spec_dec_digits(blocks.len()) + " bbs"@)
                + crate::bb_table::spec_bb_payload(blocks),
        ) == Ok::<Seq<crate::model::BasicBlock>, crate::codec::ErrorKind>(blocks),
{
    lemma_literals_plain();
    reveal_strlit("BB Table: ");
    reveal_strlit(" bbs");
    let bn = blocks.len();
    let g = crate::bb_table::spec_bb_payload(blocks);
    crate::numeric::lemma_dec_digits_plain(bn);
    let cs = "BB Table: "@ + spec_dec_digits(bn) + " bbs"@;
    assert forall|i: int| 0 <= i < cs.len() implies ((#[trigger] cs[i]) as u32) != 10 by {
        let l0 = "BB Table: "@.len() as int;
        let l1 = l0 + spec_dec_digits(bn).len() as int;
        if i < l0 {
            assert(cs[i] == "BB Table: "@[i]);
        } else if i < l1 {
            assert(cs[i] == spec_dec_digits(bn)[i - l0]);
        } else {
            assert(cs[i] == " bbs"@[i - l1]);
        }
    }
    lemma_read_enc_line(cs, g);
    let s = spec_line_enc(cs) + g;
    assert(!spec_is_ws(cs[0])) by {
        assert(cs[0] == "BB Table: "@[0]);
    }
    assert(cs.last() == " bbs"@[3]);
    assert(!spec_is_ws(cs.last()));
    crate::text::lemma_trim_of_trim_free(cs);
    assert(cs =~= "BB Table: "@ + (spec_dec_digits(bn) + " bbs"@));
    crate::text::lemma_prefix_content("BB Table: "@, spec_dec_digits(bn) + " bbs"@);
    lemma_first_token_of_count(bn);
    crate::numeric::lemma_parse_uint_of_dec(bn, usize::MAX as nat);
    crate::numeric::lemma_dec_digits_ascii(bn);
    crate::bb_table::lemma_bb_payload_len(blocks);
    if bn == 0 {
        assert(blocks =~= Seq::<crate::model::BasicBlock>::empty());
    } else {
        assert(spec_after_line(s) == g);
        assert(g.len() == 8 * bn);
        crate::bb_table::lemma_bb_payload_round_trip(blocks, Seq::<u8>::empty());
        assert(g + Seq::<u8>::empty() =~= g);
        assert(crate::bb_table::spec_decode_bbs(g, bn) == blocks);
    }
}

/// What an aggregate must look like for its encoding to decode at all:
/// the supported outer version, newline-free flavor and paths, paths that
/// carry no surrounding whitespace, and counts a decoder can hold.
pub open spec fn spec_encodable(d: CoverageDataView) -> bool {
    &&& d.version == crate::model::SUPPORTED_FILE_VERSION
    &&& d.modules.len() <= usize::MAX as nat
    &&& d.basic_blocks.len() <= usize::MAX as nat
    &&& forall|i: int| 0 <= i < d.flavor.len() ==> ((#[trigger] d.flavor[i]) as u32) != 10
    &&& forall|j: int, i: int|
        0 <= j < d.modules.len() && 0 <= i < d.modules[j].path.len() ==> ((
        #[trigger] d.modules[j].path[i]) as u32) != 10
    &&& forall|j: int|
        0 <= j < d.modules.len() && #[trigger] d.modules[j].path.len() > 0 ==> !spec_is_ws(
            d.modules[j].path[0],
        ) && !spec_is_ws(d.modules[j].path.last())
}

/// What an aggregate comes back as after a round trip: every module
/// normalized by the schema version and the set-wide platform-field flag,
/// everything else unchanged.
pub open spec fn spec_normalize(d: CoverageDataView) -> CoverageDataView {
    let win = d.module_version != ModuleTableVersion::Legacy && crate::codec::spec_win_flag(
        d.modules,
    );
    CoverageDataView {
        version: d.version,
        flavor: d.flavor,
        module_version: d.module_version,
        modules: d.modules.map_values(
            |mm: ModuleEntryView| spec_normalize_module(mm, d.module_version, win),
        ),
        basic_blocks: d.basic_blocks,
    }
}

/// Round trip: decoding the encoding of any valid, encodable aggregate
/// succeeds and returns the aggregate with its optional module fields
/// normalized; everything representable under the aggregate's schema
/// version survives unchanged.
#[verifier::rlimit(100)]
#[verifier::spinoff_prover]
pub proof fn lemma_encode_decode_round_trip(d: CoverageDataView)
    requires
        d.spec_valid(),
        spec_encodable(d),
    ensures
        crate::codec::spec_decode(crate::codec::spec_encode(d)) == Ok::<
            CoverageDataView,
            crate::codec::ErrorKind,
        >(spec_normalize(d)),
        spec_normalize(d).spec_valid(),
{
    lemma_literals_plain();
    let win = d.module_version != ModuleTableVersion::Legacy && crate::codec::spec_win_flag(
        d.modules,
    );
    let ca = spec_line_enc("DRCOV VERSION: "@ + spec_dec_digits(d.version as nat));
    let cb = spec_line_enc("DRCOV FLAVOR: "@ + d.flavor);
    let cc = spec_line_enc(crate::codec::spec_mt_header(d));
    let cd = if d.module_version != ModuleTableVersion::Legacy {
        spec_line_enc("Columns: "@ + spec_columns_header(d.module_version, win))
    } else {
        Seq::<u8>::empty()
    };
    let ce = spec_module_lines(d.modules, d.module_version, win);
    let cf = spec_line_enc("BB Table: "@ + spec_dec_digits(d.basic_blocks.len()) + " bbs"@);
    let cg = crate::bb_table::spec_bb_payload(d.basic_blocks);
    let s = crate::codec::spec_encode(d);
    assert(s =~= ca + (cb + (cc + (cd + (ce + (cf + cg))))));
    crate::numeric::lemma_dec_digits_plain(d.version as nat);
    lemma_header_stage(
        "DRCOV VERSION: "@,
        spec_dec_digits(d.version as nat),
        cb + (cc + (cd + (ce + (cf + cg)))),
    );
    crate::numeric::lemma_parse_uint_of_dec(d.version as nat, u32::MAX as nat);
    lemma_header_stage("DRCOV FLAVOR: "@, d.flavor, cc + (cd + (ce + (cf + cg))));
    lemma_module_table_stage_decodes(d, cf + cg);
    assert(cc + (cd + (ce + (cf + cg))) == spec_line_enc(crate::codec::spec_mt_header(d)) + (cd
        + (ce + (cf + cg))));
    lemma_bb_stage_decodes(d.basic_blocks);
    let nd = spec_normalize(d);
    assert(spec_sequential_ids(nd.modules)) by {
        assert forall|j: int| 0 <= j < nd.modules.len() implies (#[trigger] nd.modules[j].id)
            == j by {
            assert(nd.modules[j] == spec_normalize_module(d.modules[j], d.module_version, win));
        }
    }
    assert(spec_valid_references(nd.modules, nd.basic_blocks));
    assert(nd.spec_valid());
    assert(crate::codec::spec_decode(s) == Ok::<CoverageDataView, crate::codec::ErrorKind>(nd));
}

/// Column order is irrelevant to decoding: two records whose
/// column-name-to-value mappings agree field for field decode to the
/// same module entry, whatever order their columns were declared in.
pub proof fn lemma_column_order_independent(
    cols1: Seq<Col>,
    vals1: Seq<Seq<char>>,
    cols2: Seq<Col>,
    vals2: Seq<Seq<char>>,
)
    requires
        forall|c: Col| spec_lookup(cols1, vals1, c) == spec_lookup(cols2, vals2, c),
    ensures
        spec_entry_of_values(cols1, vals1) == spec_entry_of_values(cols2, vals2),
{
    assert(spec_lookup(cols1, vals1, Col::Id) == spec_lookup(cols2, vals2, Col::Id));
    assert(spec_lookup(cols1, vals1, Col::Base) == spec_lookup(cols2, vals2, Col::Base));
    assert(spec_lookup(cols1, vals1, Col::Start) == spec_lookup(cols2, vals2, Col::Start));
    assert(spec_lookup(cols1, vals1, Col::End) == spec_lookup(cols2, vals2, Col::End));
    assert(spec_lookup(cols1, vals1, Col::Entry) == spec_lookup(cols2, vals2, Col::Entry));
    assert(spec_lookup(cols1, vals1, Col::Path) == spec_lookup(cols2, vals2, Col::Path));
    assert(spec_lookup(cols1, vals1, Col::ContainingId) == spec_lookup(
        cols2,
        vals2,
        Col::ContainingId,
    ));
    assert(spec_lookup(cols1, vals1, Col::Offset) == spec_lookup(cols2, vals2, Col::Offset));
    assert(spec_lookup(cols1, vals1, Col::Checksum) == spec_lookup(cols2, vals2, Col::Checksum));
    assert(spec_lookup(cols1, vals1, Col::Timestamp) == spec_lookup(
        cols2,
        vals2,
        Col::Timestamp,
    ));
}

/// A legacy record and a versioned record that declares exactly the five
/// implicit legacy columns decode to the same entry, and in both every
/// optional field comes out absent.
pub proof fn lemma_legacy_versioned_equivalent(line: Seq<char>)
    ensures
        spec_entry_of_line(line, crate::codec::spec_legacy_cols()) == spec_entry_of_line(
            line,
            spec_split("id, base, end, entry, path"@, ',').map_values(
                |n: Seq<char>| spec_col_of(spec_trim(n)),
            ),
        ),
        spec_entry_of_line(line, crate::codec::spec_legacy_cols()) matches Some(m) ==> {
            &&& m.containing_id is None
            &&& m.offset is None
            &&& m.checksum is None
            &&& m.timestamp is None
        },
{
    lemma_columns_parse(ModuleTableVersion::V2, false);
    assert(spec_columns_header(ModuleTableVersion::V2, false) == "id, base, end, entry, path"@);
    assert(spec_expected_cols(ModuleTableVersion::V2, false) == crate::codec::spec_legacy_cols());
    let cols = crate::codec::spec_legacy_cols();
    let vals = spec_splitn(line, cols.len(), ',').map_values(|v: Seq<char>| spec_trim(v));
    if vals.len() == cols.len() {
        reveal_with_fuel(crate::module_table::spec_lookup, 7);
        assert(spec_lookup(cols, vals, Col::ContainingId) is None);
        assert(spec_lookup(cols, vals, Col::Offset) is None);
        assert(spec_lookup(cols, vals, Col::Checksum) is None);
        assert(spec_lookup(cols, vals, Col::Timestamp) is None);
    }
}

} // verus!
