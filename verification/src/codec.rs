//! The on-disk line format: one record per line, key and value separated by
//! a single comma, one line break after every line.

use vstd::prelude::*;
use vstd::string::{StrSliceExecFns, StringExecFns};

verus! {

/// Number of occurrences of `c` in `s`.
pub open spec fn count_char(s: Seq<char>, c: char) -> nat
    decreases s.len(),
{
    if s.len() == 0 {
        0
    } else {
        (if s[0] == c {
            1nat
        } else {
            0nat
        }) + count_char(s.drop_first(), c)
    }
}

/// Index of the first occurrence of `c` in `s`; `s.len()` when `c` is absent.
pub open spec fn find_char(s: Seq<char>, c: char) -> nat
    decreases s.len(),
{
    if s.len() == 0 {
        0
    } else if s[0] == c {
        0
    } else {
        1nat + find_char(s.drop_first(), c)
    }
}

/// Where the first occurrence sits: never past the end, on `c` when inside,
/// with nothing but other characters before it.
pub proof fn lemma_find_char_le(s: Seq<char>, c: char)
    ensures
        find_char(s, c) <= s.len(),
        find_char(s, c) < s.len() ==> s[find_char(s, c) as int] == c,
        forall|j: int| 0 <= j < find_char(s, c) ==> s[j] != c,
    decreases s.len(),
{
    if s.len() == 0 {
    } else if s[0] == c {
    } else {
        lemma_find_char_le(s.drop_first(), c);
        assert forall|j: int| 0 <= j < find_char(s, c) implies s[j] != c by {
            if j > 0 {
                assert(s.drop_first()[j - 1] != c);
            }
        }
    }
}

/// A witness pins the first occurrence down: `c` at `f` with none before
/// means the first occurrence is at `f`.
pub proof fn lemma_find_char_at(s: Seq<char>, c: char, f: int)
    requires
        0 <= f < s.len(),
        s[f] == c,
        forall|j: int| 0 <= j < f ==> s[j] != c,
    ensures
        find_char(s, c) == f,
    decreases f,
{
    if f > 0 {
        assert forall|j: int| 0 <= j < f - 1 implies s.drop_first()[j] != c by {
            assert(s[j + 1] != c);
        }
        lemma_find_char_at(s.drop_first(), c, f - 1);
    }
}

/// Occurrences add up over concatenation.
pub proof fn lemma_count_char_concat(a: Seq<char>, b: Seq<char>, c: char)
    ensures
        count_char(a + b, c) == count_char(a, c) + count_char(b, c),
    decreases a.len(),
{
    if a.len() == 0 {
        assert(a + b =~= b);
    } else {
        lemma_count_char_concat(a.drop_first(), b, c);
        assert((a + b).drop_first() =~= a.drop_first() + b);
        assert((a + b)[0] == a[0]);
    }
}

/// Counting over a single character.
pub proof fn lemma_count_char_singleton(c0: char, c: char)
    ensures
        count_char(seq![c0], c) == if c0 == c {
            1nat
        } else {
            0nat
        },
{
    assert(seq![c0].drop_first() =~= Seq::<char>::empty());
    assert(count_char(Seq::<char>::empty(), c) == 0);
}

/// No occurrences means no position holds `c`, and the other way round.
pub proof fn lemma_count_char_zero(s: Seq<char>, c: char)
    ensures
        (count_char(s, c) == 0) <==> (forall|j: int| 0 <= j < s.len() ==> s[j] != c),
    decreases s.len(),
{
    if s.len() > 0 {
        lemma_count_char_zero(s.drop_first(), c);
        if count_char(s, c) == 0 {
            assert forall|j: int| 0 <= j < s.len() implies s[j] != c by {
                if j > 0 {
                    assert(s.drop_first()[j - 1] != c);
                }
            }
        }
        if forall|j: int| 0 <= j < s.len() ==> s[j] != c {
            assert forall|j: int| 0 <= j < s.drop_first().len() implies s.drop_first()[j] != c by {
                assert(s[j + 1] != c);
            }
            assert(count_char(s.drop_first(), c) == 0);
        }
    }
}

/// A well-formed log line: exactly one delimiter.
pub open spec fn line_well_formed(s: Seq<char>) -> bool {
    count_char(s, ',') == 1
}

/// The encoded line of a record: key, delimiter, value.
pub open spec fn line_of(key: Seq<char>, value: Seq<char>) -> Seq<char> {
    key + seq![','] + value
}

/// What loading reads out of one line: the two fields either side of the
/// single delimiter, or nothing for a malformed line.
pub open spec fn parse_line_spec(s: Seq<char>) -> Option<(Seq<char>, Seq<char>)> {
    if line_well_formed(s) {
        Some((s.take(find_char(s, ',') as int), s.skip(find_char(s, ',') as int + 1)))
    } else {
        None
    }
}

/// The key field of a line, the part before the first delimiter.
pub open spec fn line_key(s: Seq<char>) -> Seq<char> {
    s.take(find_char(s, ',') as int)
}

/// Free of the delimiter and of line breaks: safe to stand as one field of
/// one line.
pub open spec fn clean(s: Seq<char>) -> bool {
    forall|j: int| 0 <= j < s.len() ==> s[j] != ',' && s[j] != '\n'
}

/// Free of line breaks: fits on one line.
pub open spec fn no_newline(s: Seq<char>) -> bool {
    forall|j: int| 0 <= j < s.len() ==> s[j] != '\n'
}

/// Encoding then parsing gives the record back, as long as both fields are
/// free of the delimiter.
pub proof fn lemma_parse_line_of(key: Seq<char>, value: Seq<char>)
    requires
        clean(key),
        clean(value),
    ensures
        parse_line_spec(line_of(key, value)) == Some((key, value)),
        line_key(line_of(key, value)) == key,
{
    let s = line_of(key, value);
    let d: Seq<char> = seq![','];
    lemma_count_char_singleton(',', ',');
    assert(count_char(d, ',') == 1);
    lemma_count_char_concat(key + d, value, ',');
    lemma_count_char_concat(key, d, ',');
    lemma_count_char_zero(key, ',');
    lemma_count_char_zero(value, ',');
    assert(s =~= (key + d) + value);
    assert(count_char(s, ',') == 1);
    assert(s[key.len() as int] == ',');
    assert forall|j: int| 0 <= j < key.len() implies s[j] != ',' by {
        assert(s[j] == key[j]);
    }
    lemma_find_char_at(s, ',', key.len() as int);
    assert(s.take(key.len() as int) =~= key);
    assert(s.skip(key.len() as int + 1) =~= value);
}

/// A well-formed, line-break-free line parses into two clean fields.
pub proof fn lemma_parse_fields_clean(s: Seq<char>)
    requires
        no_newline(s),
    ensures
        match parse_line_spec(s) {
            Some(kv) => clean(kv.0) && clean(kv.1),
            None => true,
        },
{
    if line_well_formed(s) {
        let f = find_char(s, ',') as int;
        lemma_find_char_le(s, ',');
        lemma_count_char_zero(s, ',');
        assert(f < s.len());
        let key = s.take(f);
        let value = s.skip(f + 1);
        assert forall|j: int| 0 <= j < key.len() implies key[j] != ',' && key[j] != '\n' by {
            assert(key[j] == s[j]);
        }
        assert(s =~= s.take(f + 1) + value);
        lemma_count_char_concat(s.take(f + 1), value, ',');
        assert(s.take(f + 1) =~= s.take(f) + seq![s[f]]);
        lemma_count_char_concat(s.take(f), seq![s[f]], ',');
        lemma_count_char_zero(s.take(f), ',');
        lemma_count_char_singleton(s[f], ',');
        assert(count_char(seq![s[f]], ',') == 1);
        assert forall|j: int| 0 <= j < s.take(f).len() implies s.take(f)[j] != ',' by {
            assert(s.take(f)[j] == s[j]);
        }
        assert(count_char(s.take(f), ',') == 0);
        assert(count_char(value, ',') == 0);
        lemma_count_char_zero(value, ',');
        assert forall|j: int| 0 <= j < value.len() implies value[j] != ',' && value[j] != '\n' by {
            assert(value[j] == s[j + f + 1]);
        }
    }
}

/// Parse one log line: the two fields either side of the single delimiter,
/// or nothing when the line holds no delimiter or more than one.
pub fn parse_line(line: &str) -> (r: Option<(String, String)>)
    ensures
        match r {
            Some(kv) => parse_line_spec(line@) == Some((kv.0@, kv.1@)),
            None => parse_line_spec(line@) is None,
        },
{
    let n = line.unicode_len();
    let mut i: usize = 0;
    let mut delims: usize = 0;
    let mut first: usize = 0;
    while i < n
        invariant
            i <= n,
            n == line@.len(),
            delims <= i,
            delims == count_char(line@.take(i as int), ','),
            delims > 0 ==> first < i && line@[first as int] == ',' && (forall|j: int|
                0 <= j < first ==> line@[j] != ','),
            delims == 0 ==> (forall|j: int| 0 <= j < i ==> line@[j] != ','),
        decreases n - i,
    {
        let c = line.get_char(i);
        proof {
            assert(line@.take(i as int + 1) =~= line@.take(i as int) + seq![line@[i as int]]);
            lemma_count_char_concat(line@.take(i as int), seq![line@[i as int]], ',');
            lemma_count_char_singleton(line@[i as int], ',');
        }
        if c == ',' {
            if delims == 0 {
                first = i;
            }
            delims = delims + 1;
        }
        i = i + 1;
    }
    proof {
        assert(line@.take(n as int) =~= line@);
    }
    if delims == 1 {
        proof {
            lemma_find_char_at(line@, ',', first as int);
        }
        let key = line.substring_char(0, first);
        let value = line.substring_char(first + 1, n);
        proof {
            assert(key@ =~= line@.take(first as int));
            assert(value@ =~= line@.skip(first as int + 1));
        }
        Some((String::from_str(key), String::from_str(value)))
    } else {
        None
    }
}

/// Encode one record as its log line.
pub fn encode_line(key: &str, value: &str) -> (r: String)
    ensures
        r@ == line_of(key@, value@),
{
    let mut s = String::from_str(key);
    s.append(",");
    s.append(value);
    proof {
        reveal_strlit(",");
        assert(","@ =~= seq![',']);
        assert(s@ =~= line_of(key@, value@));
    }
    s
}

/// A line as the loader keeps it: one trailing carriage return, left behind
/// by a CRLF line break, is dropped.
pub open spec fn strip_cr(s: Seq<char>) -> Seq<char> {
    if s.len() > 0 && s.last() == '\r' {
        s.drop_last()
    } else {
        s
    }
}

/// Splitting text into lines at each line break, dropping one trailing
/// carriage return per line; the final line needs no trailing break.
pub open spec fn split_lines_spec(s: Seq<char>) -> Seq<Seq<char>>
    decreases s.len(),
{
    if s.len() == 0 {
        Seq::empty()
    } else if find_char(s, '\n') >= s.len() {
        seq![strip_cr(s)]
    } else {
        seq![strip_cr(s.take(find_char(s, '\n') as int))] + split_lines_spec(
            s.skip(find_char(s, '\n') as int + 1),
        )
    }
}

/// Joining lines back into text, one line break after each line.
pub open spec fn join_lines(ls: Seq<Seq<char>>) -> Seq<char>
    decreases ls.len(),
{
    if ls.len() == 0 {
        Seq::empty()
    } else {
        ls.first() + seq!['\n'] + join_lines(ls.drop_first())
    }
}

/// Joining one more line appends it and a line break.
pub proof fn lemma_join_lines_push(ls: Seq<Seq<char>>, l: Seq<char>)
    ensures
        join_lines(ls.push(l)) == join_lines(ls) + l + seq!['\n'],
    decreases ls.len(),
{
    if ls.len() == 0 {
        assert(ls.push(l).drop_first() =~= Seq::<Seq<char>>::empty());
        assert(ls.push(l).first() == l);
        assert(join_lines(Seq::<Seq<char>>::empty()) =~= Seq::<char>::empty());
        assert(join_lines(ls.push(l)) =~= join_lines(ls) + l + seq!['\n']);
    } else {
        lemma_join_lines_push(ls.drop_first(), l);
        assert(ls.push(l).drop_first() =~= ls.drop_first().push(l));
        assert(ls.push(l).first() == ls.first());
        assert(join_lines(ls.push(l)) =~= join_lines(ls) + l + seq!['\n']);
    }
}

/// Splitting undoes joining, as long as no line holds a line break or ends
/// with a carriage return (which splitting would drop).
pub proof fn lemma_split_join(ls: Seq<Seq<char>>)
    requires
        forall|i: int|
            0 <= i < ls.len() ==> no_newline(#[trigger] ls[i]) && (ls[i].len() == 0 || ls[i].last()
                != '\r'),
    ensures
        split_lines_spec(join_lines(ls)) == ls,
    decreases ls.len(),
{
    if ls.len() == 0 {
    } else {
        let l0 = ls.first();
        let rest = ls.drop_first();
        let s = join_lines(ls);
        assert(no_newline(l0));
        assert(s =~= (l0 + seq!['\n']) + join_lines(rest));
        assert(s.len() == l0.len() + 1 + join_lines(rest).len());
        assert(s[l0.len() as int] == '\n');
        assert forall|j: int| 0 <= j < l0.len() implies s[j] != '\n' by {
            assert(s[j] == l0[j]);
        }
        lemma_find_char_at(s, '\n', l0.len() as int);
        assert(s.take(l0.len() as int) =~= l0);
        assert(strip_cr(l0) == l0);
        assert(s.skip(l0.len() as int + 1) =~= join_lines(rest));
        assert forall|i: int| 0 <= i < rest.len() implies no_newline(#[trigger] rest[i]) && (
        rest[i].len() == 0 || rest[i].last() != '\r') by {
            assert(rest[i] == ls[i + 1]);
        }
        lemma_split_join(rest);
        assert(split_lines_spec(s) =~= ls);
    }
}

/// Every line that splitting yields is free of line breaks.
pub proof fn lemma_split_lines_no_newline(s: Seq<char>)
    ensures
        forall|i: int| 0 <= i < split_lines_spec(s).len() ==> no_newline(
            #[trigger] split_lines_spec(s)[i],
        ),
    decreases s.len(),
{
    lemma_find_char_le(s, '\n');
    if s.len() == 0 {
    } else if find_char(s, '\n') >= s.len() {
        assert(no_newline(s));
        assert forall|j: int| 0 <= j < strip_cr(s).len() implies strip_cr(s)[j] != '\n' by {
            assert(strip_cr(s)[j] == s[j]);
        }
        assert(no_newline(strip_cr(s)));
    } else {
        let f = find_char(s, '\n') as int;
        lemma_split_lines_no_newline(s.skip(f + 1));
        assert forall|j: int| 0 <= j < strip_cr(s.take(f)).len() implies strip_cr(s.take(f))[j]
            != '\n' by {
            assert(strip_cr(s.take(f))[j] == s.take(f)[j]);
            assert(s.take(f)[j] == s[j]);
        }
        assert(no_newline(strip_cr(s.take(f))));
        assert forall|i: int| 0 <= i < split_lines_spec(s).len() implies no_newline(
            #[trigger] split_lines_spec(s)[i],
        ) by {
            if i > 0 {
                assert(split_lines_spec(s)[i] == split_lines_spec(s.skip(f + 1))[i - 1]);
            }
        }
    }
}

/// Split text into its lines, line breaks removed.
pub fn split_lines(text: &str) -> (r: Vec<String>)
    ensures
        r.deep_view() == split_lines_spec(text@),
{
    let n = text.unicode_len();
    let mut out: Vec<String> = Vec::new();
    let mut start: usize = 0;
    let mut i: usize = 0;
    proof {
        assert(text@.skip(0) =~= text@);
        assert(out.deep_view() =~= Seq::<Seq<char>>::empty());
    }
    while i < n
        invariant
            start <= i <= n,
            n == text@.len(),
            split_lines_spec(text@) == out.deep_view() + split_lines_spec(
                text@.skip(start as int),
            ),
            forall|j: int| start <= j < i ==> text@[j] != '\n',
        decreases n - i,
    {
        let c = text.get_char(i);
        if c == '\n' {
            let line_end = if i > start && text.get_char(i - 1) == '\r' {
                i - 1
            } else {
                i
            };
            let line = text.substring_char(start, line_end);
            proof {
                let tail = text@.skip(start as int);
                assert(tail.len() == n - start);
                assert(tail[i - start as int] == '\n');
                assert forall|j: int| 0 <= j < i - start as int implies tail[j] != '\n' by {
                    assert(tail[j] == text@[j + start]);
                }
                lemma_find_char_at(tail, '\n', i - start as int);
                let raw = tail.take(i - start as int);
                if i > start && text@[i - 1] == '\r' {
                    assert(raw.len() > 0 && raw.last() == '\r');
                    assert(strip_cr(raw) =~= line@);
                } else {
                    assert(raw.len() == 0 || raw.last() != '\r');
                    assert(strip_cr(raw) =~= line@);
                }
                assert(tail.skip(i - start as int + 1) =~= text@.skip(i as int + 1));
                assert(split_lines_spec(tail) == seq![line@] + split_lines_spec(
                    text@.skip(i as int + 1),
                ));
            }
            let ghost pre = out.deep_view();
            let owned = String::from_str(line);
            out.push(owned);
            proof {
                assert(out.deep_view() =~= pre.push(line@));
                assert(pre.push(line@) + split_lines_spec(text@.skip(i as int + 1)) =~= pre + (
                seq![line@] + split_lines_spec(text@.skip(i as int + 1))));
            }
            start = i + 1;
        }
        i = i + 1;
    }
    if start < n {
        let line_end = if text.get_char(n - 1) == '\r' {
            n - 1
        } else {
            n
        };
        let line = text.substring_char(start, line_end);
        proof {
            let tail = text@.skip(start as int);
            assert(tail.len() == n - start);
            assert forall|j: int| 0 <= j < tail.len() implies tail[j] != '\n' by {
                assert(tail[j] == text@[j + start]);
            }
            lemma_find_char_le(tail, '\n');
            assert(find_char(tail, '\n') == tail.len());
            assert(split_lines_spec(tail) == seq![strip_cr(tail)]);
            if text@[n - 1] == '\r' {
                assert(tail.len() > 0 && tail.last() == '\r');
                assert(strip_cr(tail) =~= line@);
            } else {
                assert(tail.last() != '\r');
                assert(strip_cr(tail) =~= line@);
            }
        }
        let ghost pre = out.deep_view();
        let owned = String::from_str(line);
        out.push(owned);
        proof {
            assert(out.deep_view() =~= pre.push(strip_cr(text@.skip(start as int))));
            assert(pre.push(strip_cr(text@.skip(start as int))) =~= pre + seq![
                strip_cr(text@.skip(start as int)),
            ]);
        }
    } else {
        proof {
            assert(text@.skip(start as int).len() == 0);
            assert(split_lines_spec(text@.skip(start as int)) =~= Seq::<Seq<char>>::empty());
            assert(out.deep_view() + split_lines_spec(text@.skip(start as int)) =~= out.deep_view());
        }
    }
    out
}

} // verus!
