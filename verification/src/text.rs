//! Character-level text utilities: whitespace trimming, prefix stripping,
//! comma splitting and tokenizing, specified over `Seq<char>` and executed
//! on `&str`.

use vstd::prelude::*;

verus! {

/// The Unicode `White_Space` characters, as trimming and tokenizing treat
/// them.
pub open spec fn spec_is_ws(c: char) -> bool {
    let u = c as u32;
    ||| (0x09 <= u && u <= 0x0d)
    ||| u == 0x20
    ||| u == 0x85
    ||| u == 0xa0
    ||| u == 0x1680
    ||| (0x2000 <= u && u <= 0x200a)
    ||| u == 0x2028
    ||| u == 0x2029
    ||| u == 0x202f
    ||| u == 0x205f
    ||| u == 0x3000
}

/// Executable twin of [`spec_is_ws`].
pub fn is_ws(c: char) -> (r: bool)
    ensures
        r == spec_is_ws(c),
{
    let u = c as u32;
    (0x09 <= u && u <= 0x0d) || u == 0x20 || u == 0x85 || u == 0xa0 || u == 0x1680 || (0x2000 <= u
        && u <= 0x200a) || u == 0x2028 || u == 0x2029 || u == 0x202f || u == 0x205f || u == 0x3000
}

/// `s` with leading whitespace removed.
pub open spec fn spec_trim_start(s: Seq<char>) -> Seq<char>
    decreases s.len(),
{
    if s.len() == 0 {
        s
    } else if spec_is_ws(s[0]) {
        spec_trim_start(s.drop_first())
    } else {
        s
    }
}

/// `s` with trailing whitespace removed.
pub open spec fn spec_trim_end(s: Seq<char>) -> Seq<char>
    decreases s.len(),
{
    if s.len() == 0 {
        s
    } else if spec_is_ws(s.last()) {
        spec_trim_end(s.drop_last())
    } else {
        s
    }
}

/// `s` with surrounding whitespace removed.
pub open spec fn spec_trim(s: Seq<char>) -> Seq<char> {
    spec_trim_end(spec_trim_start(s))
}

pub proof fn lemma_trim_start_subrange(s: Seq<char>, a: int)
    requires
        0 <= a <= s.len(),
        forall|j: int| 0 <= j < a ==> spec_is_ws(#[trigger] s[j]),
        a < s.len() ==> !spec_is_ws(s[a]),
    ensures
        spec_trim_start(s) =~= s.subrange(a, s.len() as int),
    decreases a,
{
    if a == 0 {
    } else {
        lemma_trim_start_subrange(s.drop_first(), a - 1);
    }
}

pub proof fn lemma_trim_end_subrange(s: Seq<char>, b: int)
    requires
        0 <= b <= s.len(),
        forall|j: int| b <= j < s.len() ==> spec_is_ws(#[trigger] s[j]),
        b > 0 ==> !spec_is_ws(s[b - 1]),
    ensures
        spec_trim_end(s) =~= s.subrange(0, b),
    decreases s.len() - b,
{
    if b == s.len() {
    } else {
        lemma_trim_end_subrange(s.drop_last(), b);
    }
}

/// A trimmed sequence neither starts nor ends with whitespace.
pub proof fn lemma_trim_of_trim_free(s: Seq<char>)
    requires
        s.len() > 0 ==> !spec_is_ws(s[0]),
        s.len() > 0 ==> !spec_is_ws(s.last()),
    ensures
        spec_trim(s) == s,
{
    lemma_trim_start_subrange(s, 0);
    assert(spec_trim_start(s) =~= s);
    lemma_trim_end_subrange(s, s.len() as int);
    assert(spec_trim_end(s) =~= s);
}

/// Removes surrounding whitespace, as `str::trim` does.
pub fn trim(s: &str) -> (r: &str)
    ensures
        r@ == spec_trim(s@),
{
    let n = s.unicode_len();
    let mut a: usize = 0;
    while a < n && is_ws(s.get_char(a))
        invariant
            n == s@.len(),
            0 <= a <= n,
            forall|j: int| 0 <= j < a ==> spec_is_ws(#[trigger] s@[j]),
        decreases n - a,
    {
        a = a + 1;
    }
    let mut b: usize = n;
    while b > a && is_ws(s.get_char(b - 1))
        invariant
            n == s@.len(),
            0 <= a <= b <= n,
            forall|j: int| 0 <= j < a ==> spec_is_ws(#[trigger] s@[j]),
            a < n ==> !spec_is_ws(s@[a as int]),
            forall|j: int| b <= j < n ==> spec_is_ws(#[trigger] s@[j]),
        decreases b,
    {
        b = b - 1;
    }
    let r = s.substring_char(a, b);
    proof {
        lemma_trim_start_subrange(s@, a as int);
        let t = s@.subrange(a as int, n as int);
        if b == a {
            lemma_trim_end_subrange(t, 0);
        } else {
            lemma_trim_end_subrange(t, b - a);
        }
        assert(t.subrange(0, b - a) =~= s@.subrange(a as int, b as int));
    }
    r
}

/// `p` is a prefix of `s`.
pub open spec fn spec_has_prefix(s: Seq<char>, p: Seq<char>) -> bool {
    p.len() <= s.len() && (forall|i: int| 0 <= i < p.len() ==> s[i] == #[trigger] p[i])
}

/// Strips the literal prefix `p` from `s`, or reports that it is absent.
pub fn strip_prefix<'a>(s: &'a str, p: &str) -> (r: Option<&'a str>)
    ensures
        r is Some <==> spec_has_prefix(s@, p@),
        r matches Some(t) ==> t@ == s@.skip(p@.len() as int),
{
    let n = s.unicode_len();
    let m = p.unicode_len();
    if m > n {
        return None;
    }
    let mut i: usize = 0;
    while i < m
        invariant
            n == s@.len(),
            m == p@.len(),
            m <= n,
            0 <= i <= m,
            forall|j: int| 0 <= j < i ==> s@[j] == #[trigger] p@[j],
        decreases m - i,
    {
        if s.get_char(i) != p.get_char(i) {
            return None;
        }
        i = i + 1;
    }
    let t = s.substring_char(m, n);
    proof {
        assert(t@ =~= s@.skip(m as int));
    }
    Some(t)
}

/// Index of the first occurrence of `c` in `s`, or `s.len()` when absent.
pub open spec fn spec_find_char(s: Seq<char>, c: char) -> int
    decreases s.len(),
{
    if s.len() == 0 {
        0
    } else if s[0] == c {
        0
    } else {
        1 + spec_find_char(s.drop_first(), c)
    }
}

pub proof fn lemma_find_char_at(s: Seq<char>, c: char, k: int)
    requires
        0 <= k <= s.len(),
        forall|j: int| 0 <= j < k ==> s[j] != c,
        k < s.len() ==> s[k] == c,
    ensures
        spec_find_char(s, c) == k,
    decreases k,
{
    if s.len() == 0 {
    } else if k == 0 {
    } else {
        lemma_find_char_at(s.drop_first(), c, k - 1);
    }
}

pub proof fn lemma_find_char_properties(s: Seq<char>, c: char)
    ensures
        0 <= spec_find_char(s, c) <= s.len(),
        forall|j: int| 0 <= j < spec_find_char(s, c) ==> s[j] != c,
        spec_find_char(s, c) < s.len() ==> s[spec_find_char(s, c)] == c,
    decreases s.len(),
{
    if s.len() == 0 {
    } else if s[0] == c {
    } else {
        lemma_find_char_properties(s.drop_first(), c);
        assert forall|j: int| 0 <= j < spec_find_char(s, c) implies s[j] != c by {
            if j > 0 {
                assert(s.drop_first()[j - 1] == s[j]);
            }
        }
    }
}

/// Splits `s` at `c` into at most `n` pieces; the last piece keeps any
/// further separators, as `str::splitn` does.
pub open spec fn spec_splitn(s: Seq<char>, n: nat, c: char) -> Seq<Seq<char>>
    decreases n,
{
    if n <= 1 {
        seq![s]
    } else {
        let k = spec_find_char(s, c);
        if k == s.len() {
            seq![s]
        } else {
            seq![s.take(k)] + spec_splitn(s.skip(k + 1), (n - 1) as nat, c)
        }
    }
}

/// Splits `s` at every occurrence of `c`, as `str::split` does.
pub open spec fn spec_split(s: Seq<char>, c: char) -> Seq<Seq<char>>
    decreases s.len(),
    via spec_split_decreases
{
    let k = spec_find_char(s, c);
    if k == s.len() {
        seq![s]
    } else {
        seq![s.take(k)] + spec_split(s.skip(k + 1), c)
    }
}

#[via_fn]
proof fn spec_split_decreases(s: Seq<char>, c: char) {
    lemma_find_char_properties(s, c);
}

/// Finds the first occurrence of `c` at or after `start`, or the length.
fn find_char_from(s: &str, start: usize, c: char) -> (r: usize)
    requires
        start <= s@.len(),
    ensures
        start <= r <= s@.len(),
        r - start == spec_find_char(s@.skip(start as int), c),
        forall|j: int| start <= j < r ==> s@[j] != c,
        r < s@.len() ==> s@[r as int] == c,
    decreases s@.len() - start,
{
    let n = s.unicode_len();
    let mut i: usize = start;
    while i < n && s.get_char(i) != c
        invariant
            n == s@.len(),
            start <= i <= n,
            forall|j: int| start <= j < i ==> s@[j] != c,
        decreases n - i,
    {
        i = i + 1;
    }
    proof {
        let t = s@.skip(start as int);
        assert forall|j: int| 0 <= j < i - start implies t[j] != c by {
            assert(t[j] == s@[j + start]);
        }
        lemma_find_char_at(t, c, i - start);
    }
    i
}

/// The character sequences of a sequence of strings.
pub open spec fn views_of(v: Seq<String>) -> Seq<Seq<char>> {
    Seq::new(v.len(), |i: int| v[i]@)
}

/// Splits into at most `n` pieces at `c`; matches [`spec_splitn`].
pub fn splitn(s: &str, n: usize, c: char) -> (r: Vec<String>)
    requires
        n >= 1,
    ensures
        views_of(r@) == spec_splitn(s@, n as nat, c),
{
    let slen = s.unicode_len();
    let mut pieces: Vec<String> = Vec::new();
    let mut start: usize = 0;
    proof {
        assert(s@.skip(0) =~= s@);
        assert(views_of(pieces@) + spec_splitn(s@, n as nat, c) =~= spec_splitn(
            s@,
            n as nat,
            c,
        ));
    }
    loop
        invariant
            slen == s@.len(),
            0 <= start <= slen,
            pieces@.len() < n,
            spec_splitn(s@, n as nat, c) == views_of(pieces@) + spec_splitn(
                s@.skip(start as int),
                (n - pieces@.len()) as nat,
                c,
            ),
        decreases n - pieces@.len(),
    {
        let ghost t = s@.skip(start as int);
        let ghost old_pieces = pieces@;
        let k = pieces.len();
        if k == n - 1 {
            pieces.push(s.substring_char(start, slen).to_owned());
            proof {
                assert(spec_splitn(t, (n - k) as nat, c) == seq![t]);
                assert(pieces@.last()@ == t) by {
                    assert(s@.subrange(start as int, slen as int) =~= t);
                }
                assert(views_of(pieces@) =~= views_of(old_pieces) + seq![t]);
            }
            return pieces;
        }
        let f = find_char_from(s, start, c);
        if f == slen {
            pieces.push(s.substring_char(start, slen).to_owned());
            proof {
                assert(spec_find_char(t, c) == t.len());
                assert(spec_splitn(t, (n - k) as nat, c) == seq![t]);
                assert(pieces@.last()@ == t) by {
                    assert(s@.subrange(start as int, slen as int) =~= t);
                }
                assert(views_of(pieces@) =~= views_of(old_pieces) + seq![t]);
            }
            return pieces;
        }
        pieces.push(s.substring_char(start, f).to_owned());
        proof {
            let fk = spec_find_char(t, c);
            assert(fk == f - start);
            assert(fk < t.len());
            assert(t.take(fk) =~= s@.subrange(start as int, f as int));
            assert(t.skip(fk + 1) =~= s@.skip(f + 1));
            assert(spec_splitn(t, (n - k) as nat, c) == seq![t.take(fk)] + spec_splitn(
                s@.skip(f + 1),
                (n - k - 1) as nat,
                c,
            ));
            assert(views_of(pieces@) =~= views_of(old_pieces) + seq![t.take(fk)]);
            assert(views_of(pieces@) + spec_splitn(s@.skip(f + 1), (n - k - 1) as nat, c)
                =~= views_of(old_pieces) + spec_splitn(t, (n - k) as nat, c));
        }
        start = f + 1;
    }
}

/// Splits at every `c`; matches [`spec_split`].
pub fn split_all(s: &str, c: char) -> (r: Vec<String>)
    ensures
        views_of(r@) == spec_split(s@, c),
{
    let slen = s.unicode_len();
    let mut pieces: Vec<String> = Vec::new();
    let mut start: usize = 0;
    proof {
        assert(s@.skip(0) =~= s@);
        assert(views_of(pieces@) + spec_split(s@, c) =~= spec_split(s@, c));
    }
    loop
        invariant
            slen == s@.len(),
            0 <= start <= slen,
            spec_split(s@, c) == views_of(pieces@) + spec_split(s@.skip(start as int), c),
        decreases slen - start,
    {
        let ghost t = s@.skip(start as int);
        let ghost old_pieces = pieces@;
        let f = find_char_from(s, start, c);
        if f == slen {
            pieces.push(s.substring_char(start, slen).to_owned());
            proof {
                assert(spec_find_char(t, c) == t.len());
                assert(spec_split(t, c) == seq![t]);
                assert(pieces@.last()@ == t) by {
                    assert(s@.subrange(start as int, slen as int) =~= t);
                }
                assert(views_of(pieces@) =~= views_of(old_pieces) + seq![t]);
            }
            return pieces;
        }
        pieces.push(s.substring_char(start, f).to_owned());
        proof {
            let fk = spec_find_char(t, c);
            assert(fk == f - start);
            assert(fk < t.len());
            assert(t.take(fk) =~= s@.subrange(start as int, f as int));
            assert(t.skip(fk + 1) =~= s@.skip(f + 1));
            assert(spec_split(t, c) == seq![t.take(fk)] + spec_split(s@.skip(f + 1), c));
            assert(views_of(pieces@) =~= views_of(old_pieces) + seq![t.take(fk)]);
            assert(views_of(pieces@) + spec_split(s@.skip(f + 1), c) =~= views_of(
                old_pieces,
            ) + spec_split(t, c));
        }
        start = f + 1;
    }
}

/// Trimming does nothing to a sequence that does not start with whitespace.
pub proof fn lemma_trim_start_no_ws(s: Seq<char>)
    requires
        s.len() > 0 ==> !spec_is_ws(s[0]),
    ensures
        spec_trim_start(s) == s,
{
}

/// A leading whitespace character falls away under `trim`.
pub proof fn lemma_trim_drop_leading_ws(c: char, s: Seq<char>)
    requires
        spec_is_ws(c),
    ensures
        spec_trim(seq![c] + s) == spec_trim(s),
{
    assert((seq![c] + s).drop_first() =~= s);
    assert(spec_trim_start(seq![c] + s) == spec_trim_start(s));
}

/// A sequence ending in a non-whitespace character loses nothing at the end.
pub proof fn lemma_trim_end_no_ws(s: Seq<char>)
    requires
        s.len() > 0 ==> !spec_is_ws(s.last()),
    ensures
        spec_trim_end(s) == s,
{
}

/// A concatenation starts with its first part and continues with the rest.
pub proof fn lemma_prefix_content(a: Seq<char>, b: Seq<char>)
    ensures
        spec_has_prefix(a + b, a),
        (a + b).skip(a.len() as int) == b,
{
    assert((a + b).skip(a.len() as int) =~= b);
}

/// A sequence without the separator splits into itself alone.
pub proof fn lemma_split_whole(s: Seq<char>, c: char)
    requires
        forall|i: int| 0 <= i < s.len() ==> s[i] != c,
    ensures
        spec_split(s, c) == seq![s],
        forall|n: nat| n >= 1 ==> spec_splitn(s, n, c) == seq![s],
{
    lemma_find_char_at(s, c, s.len() as int);
    assert forall|n: nat| n >= 1 implies spec_splitn(s, n, c) == seq![s] by {}
}

/// Comma-and-space joined fields, the way module records and column lists
/// are laid out.
pub open spec fn spec_join_fields(fs: Seq<Seq<char>>) -> Seq<char>
    decreases fs.len(),
{
    if fs.len() == 0 {
        Seq::<char>::empty()
    } else if fs.len() == 1 {
        fs[0]
    } else {
        fs[0] + ", "@ + spec_join_fields(fs.drop_first())
    }
}

/// Joining one more field appends a separator and the field.
pub proof fn lemma_join_push(fs: Seq<Seq<char>>, y: Seq<char>)
    requires
        fs.len() >= 1,
    ensures
        spec_join_fields(fs.push(y)) == spec_join_fields(fs) + ", "@ + y,
    decreases fs.len(),
{
    if fs.len() == 1 {
        assert(fs.push(y).drop_first() =~= seq![y]);
        assert(spec_join_fields(seq![y]) == y);
        assert(fs.push(y)[0] == fs[0]);
    } else {
        assert(fs.push(y).drop_first() =~= fs.drop_first().push(y));
        lemma_join_push(fs.drop_first(), y);
        assert(fs.push(y)[0] == fs[0]);
        assert(fs[0] + ", "@ + (spec_join_fields(fs.drop_first()) + ", "@ + y) =~= (fs[0] + ", "@
            + spec_join_fields(fs.drop_first())) + ", "@ + y);
    }
}

/// A joined record starts with its first field's first character.
pub proof fn lemma_join_first(fs: Seq<Seq<char>>)
    requires
        fs.len() >= 1,
        fs[0].len() > 0,
    ensures
        spec_join_fields(fs).len() > 0,
        spec_join_fields(fs)[0] == fs[0][0],
{
    reveal_strlit(", ");
    if fs.len() == 1 {
    } else {
        assert((fs[0] + ", "@ + spec_join_fields(fs.drop_first()))[0] == fs[0][0]);
    }
}

/// A joined record whose last field is nonempty ends with that field's
/// last character.
pub proof fn lemma_join_last(fs: Seq<Seq<char>>)
    requires
        fs.len() >= 1,
        fs.last().len() > 0,
    ensures
        spec_join_fields(fs).len() > 0,
        spec_join_fields(fs).last() == fs.last().last(),
    decreases fs.len(),
{
    reveal_strlit(", ");
    if fs.len() == 1 {
    } else {
        assert(fs.drop_first().last() == fs.last());
        lemma_join_last(fs.drop_first());
        let j = spec_join_fields(fs.drop_first());
        assert((fs[0] + ", "@ + j).last() == j.last());
    }
}

/// A joined record whose last field is empty is the join of the rest
/// followed by a bare separator.
pub proof fn lemma_join_drop_empty_last(fs: Seq<Seq<char>>)
    requires
        fs.len() >= 2,
        fs.last().len() == 0,
    ensures
        spec_join_fields(fs) == spec_join_fields(fs.drop_last()) + ", "@,
    decreases fs.len(),
{
    reveal_strlit(", ");
    if fs.len() == 2 {
        assert(fs.drop_first() =~= seq![fs[1]]);
        assert(spec_join_fields(fs.drop_first()) == fs[1]);
        assert(fs[1] =~= Seq::<char>::empty());
        assert(fs.drop_last() =~= seq![fs[0]]);
        assert(fs[0] + ", "@ + fs[1] =~= fs[0] + ", "@);
    } else {
        assert(fs.drop_first().last() == fs.last());
        lemma_join_drop_empty_last(fs.drop_first());
        assert(fs.drop_first().drop_last() =~= fs.drop_last().drop_first());
        assert(fs.drop_last()[0] == fs[0]);
        assert(fs[0] + ", "@ + (spec_join_fields(fs.drop_last().drop_first()) + ", "@) =~= (fs[0]
            + ", "@ + spec_join_fields(fs.drop_last().drop_first())) + ", "@);
    }
}

/// No character of a joined record is a newline when no field holds one.
pub proof fn lemma_join_no_newline(fs: Seq<Seq<char>>)
    requires
        forall|j: int, i: int|
            0 <= j < fs.len() && 0 <= i < fs[j].len() ==> ((#[trigger] fs[j][i]) as u32) != 10,
    ensures
        forall|k: int|
            0 <= k < spec_join_fields(fs).len() ==> ((#[trigger] spec_join_fields(fs)[k]) as u32)
                != 10,
    decreases fs.len(),
{
    reveal_strlit(", ");
    if fs.len() <= 1 {
    } else {
        lemma_join_no_newline(fs.drop_first());
        let j = spec_join_fields(fs.drop_first());
        let whole = fs[0] + ", "@ + j;
        assert forall|k: int| 0 <= k < whole.len() implies ((#[trigger] whole[k]) as u32)
            != 10 by {
            if k < fs[0].len() {
                assert(whole[k] == fs[0][k]);
            } else if k < fs[0].len() + 2 {
                assert(whole[k] == ", "@[k - fs[0].len()]);
                assert(whole[k] == ',' || whole[k] == ' ');
            } else {
                assert(whole[k] == j[k - fs[0].len() - 2]);
            }
        }
    }
}

/// How a bounded split takes a joined record apart: the first piece is the
/// first field, every later piece is its field with the separator's space
/// still in front, and the last field keeps any commas of its own.
pub proof fn lemma_splitn_join(pre: Seq<char>, fs: Seq<Seq<char>>)
    requires
        fs.len() >= 1,
        forall|i: int| 0 <= i < pre.len() ==> pre[i] != ',',
        forall|j: int, i: int|
            0 <= j < fs.len() - 1 && 0 <= i < fs[j].len() ==> #[trigger] fs[j][i] != ',',
    ensures
        ({
            let parts = spec_splitn(pre + spec_join_fields(fs), fs.len(), ',');
            &&& parts.len() == fs.len()
            &&& parts[0] == pre + fs[0]
            &&& forall|j: int| 1 <= j < fs.len() ==> parts[j] == seq![' '] + #[trigger] fs[j]
        }),
    decreases fs.len(),
{
    reveal_strlit(", ");
    let s = pre + spec_join_fields(fs);
    if fs.len() == 1 {
        assert(spec_splitn(s, 1, ',') == seq![s]);
    } else {
        let k: int = pre.len() as int + fs[0].len() as int;
        assert(s =~= (pre + fs[0]) + (", "@ + spec_join_fields(fs.drop_first())));
        assert forall|i: int| 0 <= i < k implies s[i] != ',' by {
            if i < pre.len() {
                assert(s[i] == pre[i]);
            } else {
                assert(s[i] == fs[0][i - pre.len()]);
            }
        }
        assert(s[k as int] == ", "@[0]);
        assert(s[k as int] == ',');
        lemma_find_char_at(s, ',', k as int);
        let rest = s.skip(k + 1);
        assert(rest =~= seq![' '] + spec_join_fields(fs.drop_first()));
        lemma_splitn_join(seq![' '], fs.drop_first());
        let sub = spec_splitn(rest, (fs.len() - 1) as nat, ',');
        assert(spec_splitn(s, fs.len(), ',') == seq![s.take(k as int)] + sub);
        assert(s.take(k as int) =~= pre + fs[0]);
        assert forall|j: int| 1 <= j < fs.len() implies spec_splitn(s, fs.len(), ',')[j]
            == seq![' '] + #[trigger] fs[j] by {
            if j == 1 {
                assert(sub[0] == seq![' '] + fs.drop_first()[0]);
            } else {
                assert(sub[j - 1] == seq![' '] + fs.drop_first()[j - 1]);
            }
            assert(fs.drop_first()[j - 1] == fs[j]);
        }
    }
}

/// The unbounded split of a joined record whose every field is comma-free.
pub proof fn lemma_split_join(pre: Seq<char>, fs: Seq<Seq<char>>)
    requires
        fs.len() >= 1,
        forall|i: int| 0 <= i < pre.len() ==> pre[i] != ',',
        forall|j: int, i: int|
            0 <= j < fs.len() && 0 <= i < fs[j].len() ==> #[trigger] fs[j][i] != ',',
    ensures
        ({
            let parts = spec_split(pre + spec_join_fields(fs), ',');
            &&& parts.len() == fs.len()
            &&& parts[0] == pre + fs[0]
            &&& forall|j: int| 1 <= j < fs.len() ==> parts[j] == seq![' '] + #[trigger] fs[j]
        }),
    decreases fs.len(),
{
    reveal_strlit(", ");
    let s = pre + spec_join_fields(fs);
    if fs.len() == 1 {
        assert forall|i: int| 0 <= i < s.len() implies s[i] != ',' by {
            if i < pre.len() {
                assert(s[i] == pre[i]);
            } else {
                assert(s[i] == fs[0][i - pre.len()]);
            }
        }
        lemma_split_whole(s, ',');
    } else {
        let k: int = pre.len() as int + fs[0].len() as int;
        assert(s =~= (pre + fs[0]) + (", "@ + spec_join_fields(fs.drop_first())));
        assert forall|i: int| 0 <= i < k implies s[i] != ',' by {
            if i < pre.len() {
                assert(s[i] == pre[i]);
            } else {
                assert(s[i] == fs[0][i - pre.len()]);
            }
        }
        assert(s[k as int] == ", "@[0]);
        assert(s[k as int] == ',');
        lemma_find_char_at(s, ',', k as int);
        let rest = s.skip(k + 1);
        assert(rest =~= seq![' '] + spec_join_fields(fs.drop_first()));
        lemma_split_join(seq![' '], fs.drop_first());
        let sub = spec_split(rest, ',');
        assert(spec_split(s, ',') == seq![s.take(k as int)] + sub);
        assert(s.take(k as int) =~= pre + fs[0]);
        assert forall|j: int| 1 <= j < fs.len() implies spec_split(s, ',')[j] == seq![' ']
            + #[trigger] fs[j] by {
            if j == 1 {
                assert(sub[0] == seq![' '] + fs.drop_first()[0]);
            } else {
                assert(sub[j - 1] == seq![' '] + fs.drop_first()[j - 1]);
            }
            assert(fs.drop_first()[j - 1] == fs[j]);
        }
    }
}

/// A bounded split of comma-free fields followed by a bare trailing comma:
/// the final piece is empty.
pub proof fn lemma_splitn_join_trailing_comma(pre: Seq<char>, fs: Seq<Seq<char>>)
    requires
        fs.len() >= 1,
        forall|i: int| 0 <= i < pre.len() ==> pre[i] != ',',
        forall|j: int, i: int|
            0 <= j < fs.len() && 0 <= i < fs[j].len() ==> #[trigger] fs[j][i] != ',',
    ensures
        ({
            let parts = spec_splitn(
                pre + spec_join_fields(fs) + seq![','],
                (fs.len() + 1) as nat,
                ',',
            );
            &&& parts.len() == fs.len() + 1
            &&& parts[0] == pre + fs[0]
            &&& forall|j: int| 1 <= j < fs.len() ==> parts[j] == seq![' '] + #[trigger] fs[j]
            &&& parts[fs.len() as int] == Seq::<char>::empty()
        }),
    decreases fs.len(),
{
    reveal_strlit(", ");
    let s = pre + spec_join_fields(fs) + seq![','];
    if fs.len() == 1 {
        let k: int = pre.len() as int + fs[0].len() as int;
        assert forall|i: int| 0 <= i < k implies s[i] != ',' by {
            if i < pre.len() {
                assert(s[i] == pre[i]);
            } else {
                assert(s[i] == fs[0][i - pre.len()]);
            }
        }
        assert(s[k as int] == ',');
        lemma_find_char_at(s, ',', k as int);
        let rest = s.skip(k + 1);
        assert(rest =~= Seq::<char>::empty());
        assert(spec_splitn(s, 2, ',') == seq![s.take(k as int)] + spec_splitn(rest, 1, ','));
        assert(s.take(k as int) =~= pre + fs[0]);
        assert(spec_splitn(rest, 1, ',') == seq![rest]);
    } else {
        let k: int = pre.len() as int + fs[0].len() as int;
        assert(s =~= (pre + fs[0]) + (", "@ + spec_join_fields(fs.drop_first()) + seq![',']));
        assert forall|i: int| 0 <= i < k implies s[i] != ',' by {
            if i < pre.len() {
                assert(s[i] == pre[i]);
            } else {
                assert(s[i] == fs[0][i - pre.len()]);
            }
        }
        assert(s[k as int] == ", "@[0]);
        assert(s[k as int] == ',');
        lemma_find_char_at(s, ',', k as int);
        let rest = s.skip(k + 1);
        assert(rest =~= seq![' '] + spec_join_fields(fs.drop_first()) + seq![',']);
        lemma_splitn_join_trailing_comma(seq![' '], fs.drop_first());
        let sub = spec_splitn(rest, fs.len() as nat, ',');
        assert(spec_splitn(s, (fs.len() + 1) as nat, ',') == seq![s.take(k as int)] + sub);
        assert(s.take(k as int) =~= pre + fs[0]);
        assert forall|j: int| 1 <= j < fs.len() implies spec_splitn(
            s,
            (fs.len() + 1) as nat,
            ',',
        )[j] == seq![' '] + #[trigger] fs[j] by {
            assert(sub[j - 1] == seq![' '] + fs.drop_first()[j - 1]);
            assert(fs.drop_first()[j - 1] == fs[j]);
        }
        assert(sub[(fs.len() - 1) as int] == Seq::<char>::empty());
    }
}

/// Index of the first whitespace character, or the length.
pub open spec fn spec_find_ws(s: Seq<char>) -> int
    decreases s.len(),
{
    if s.len() == 0 {
        0
    } else if spec_is_ws(s[0]) {
        0
    } else {
        1 + spec_find_ws(s.drop_first())
    }
}

pub proof fn lemma_find_ws_at(s: Seq<char>, k: int)
    requires
        0 <= k <= s.len(),
        forall|j: int| 0 <= j < k ==> !spec_is_ws(#[trigger] s[j]),
        k < s.len() ==> spec_is_ws(s[k]),
    ensures
        spec_find_ws(s) == k,
    decreases k,
{
    if s.len() == 0 {
    } else if k == 0 {
    } else {
        lemma_find_ws_at(s.drop_first(), k - 1);
    }
}

/// The first whitespace-delimited token of `s`, or the empty sequence when
/// `s` is empty or all whitespace.
pub open spec fn spec_first_token(s: Seq<char>) -> Seq<char> {
    let t = spec_trim_start(s);
    t.take(spec_find_ws(t))
}

/// Executable twin of [`spec_first_token`].
pub fn first_token(s: &str) -> (r: &str)
    ensures
        r@ == spec_first_token(s@),
{
    let n = s.unicode_len();
    let mut a: usize = 0;
    while a < n && is_ws(s.get_char(a))
        invariant
            n == s@.len(),
            0 <= a <= n,
            forall|j: int| 0 <= j < a ==> spec_is_ws(#[trigger] s@[j]),
        decreases n - a,
    {
        a = a + 1;
    }
    let mut b: usize = a;
    while b < n && !is_ws(s.get_char(b))
        invariant
            n == s@.len(),
            0 <= a <= b <= n,
            forall|j: int| a <= j < b ==> !spec_is_ws(#[trigger] s@[j]),
        decreases n - b,
    {
        b = b + 1;
    }
    let r = s.substring_char(a, b);
    proof {
        lemma_trim_start_subrange(s@, a as int);
        let t = s@.subrange(a as int, n as int);
        assert forall|j: int| 0 <= j < b - a implies !spec_is_ws(t[j]) by {
            assert(t[j] == s@[j + a]);
        }
        lemma_find_ws_at(t, b - a);
        assert(t.take(b - a) =~= s@.subrange(a as int, b as int));
    }
    r
}

} // verus!
