//! Walks one record's JSON object and lists every field occurrence in it,
//! with the byte range of its value.
use vstd::prelude::*;
use crate::index_file::IndexKey;
use crate::json_tokenizer::{
    elements_end, is_scalar_token, is_structural, is_ws, json_string_value, key_start,
    lemma_skip_ws_at_token, lemma_skip_ws_le, members_end, scalar_end, skip_ws, token_spans,
    value_end, JSONTokenizer, Token,
};
use crate::protocol::IndexRecord;
use crate::text::ascii_chars;

verus! {

/// One value found in a record, under its dotted field name.
pub struct FieldOccurrence {
    pub field_name: String,
    pub key: IndexKey,
    pub record: IndexRecord,
}

/// Why a record could not be indexed; offsets are relative to the record.
#[derive(PartialEq, Eq, Structural, Clone, Copy, Debug)]
pub enum RecordError {
    /// The bytes at this offset are not valid JSON where they stand.
    Parse(usize),
    /// The record's top-level value, starting at this offset, is not an object.
    InvalidShape(usize),
}

/// Whether `k` is the key of the JSON value whose first token is at `p` and
/// which ends at `e`: a string key holds the decoded text, a number key the
/// digits as written, and array and object keys hold the keys of their
/// elements and members, in order.
pub open spec fn key_describes(s: Seq<u8>, k: IndexKey, p: int, e: int) -> bool
    decreases k, 0int,
{
    match k {
        IndexKey::String(t) => s[p] == 34 && json_string_value(s.subrange(p, e)) == Some(t@),
        IndexKey::Number(t) => (s[p] == 45 || (48 <= s[p] <= 57)) && t@ == ascii_chars(s.subrange(p, e)),
        IndexKey::Boolean(b) => s[p] == (if b {
            116u8
        } else {
            102u8
        }),
        IndexKey::Null => s[p] == 110,
        IndexKey::Array(xs) => s[p] == 91 && match elements_after(s, xs@, xs@.len() as int, p + 1) {
            Some(q0) => skip_ws(s, q0) < s.len() && s[skip_ws(s, q0)] == 93 && e == skip_ws(s, q0) + 1,
            None => false,
        },
        IndexKey::Object(ms) => s[p] == 123 && match members_after(s, ms@, ms@.len() as int, p + 1) {
            Some(q0) => skip_ws(s, q0) < s.len() && s[skip_ws(s, q0)] == 125 && e == skip_ws(s, q0) + 1,
            None => false,
        },
    }
}

/// Where the first token of the next element or member stands, given the
/// position `q0` after the previous one (`first` when there is none).
pub open spec fn next_item(s: Seq<u8>, q0: int, first: bool) -> int {
    let q = skip_ws(s, q0);
    if first {
        q
    } else if 0 <= q < s.len() && s[q] == 44 {
        skip_ws(s, q + 1)
    } else {
        -1
    }
}

/// The position just after the first `n` elements of an array that starts
/// after its `[` at `p`, when they are the values whose keys are `xs`.
pub open spec fn elements_after(s: Seq<u8>, xs: Seq<IndexKey>, n: int, p: int) -> Option<int>
    decreases xs, n,
{
    if n <= 0 || n > xs.len() {
        if n == 0 {
            Some(p)
        } else {
            None
        }
    } else {
        match elements_after(s, xs, n - 1, p) {
            Some(q0) => {
                let v = next_item(s, q0, n == 1);
                match value_end(s, v) {
                    Some(e) => if key_describes(s, xs[n - 1], v, e) {
                        Some(e)
                    } else {
                        None
                    },
                    None => None,
                }
            },
            None => None,
        }
    }
}

/// The position just after the first `n` members of an object that starts
/// after its `{` at `p`, when they are the members `ms` (name and key).
pub open spec fn members_after(s: Seq<u8>, ms: Seq<(String, IndexKey)>, n: int, p: int) -> Option<int>
    decreases ms, n,
{
    if n <= 0 || n > ms.len() {
        if n == 0 {
            Some(p)
        } else {
            None
        }
    } else {
        match members_after(s, ms, n - 1, p) {
            Some(q0) => {
                let k = next_item(s, q0, n == 1);
                match scalar_end(s, k) {
                    Some(ke) => {
                        let c = skip_ws(s, ke);
                        let v = skip_ws(s, c + 1);
                        if 0 <= k < s.len() && s[k] == 34 && json_string_value(s.subrange(k, ke)) == Some(
                            ms[n - 1].0@,
                        ) && 0 <= c < s.len() && s[c] == 58 {
                            match value_end(s, v) {
                                Some(e) => if key_describes(s, ms[n - 1].1, v, e) {
                                    Some(e)
                                } else {
                                    None
                                },
                                None => None,
                            }
                        } else {
                            None
                        }
                    },
                    None => None,
                }
            },
            None => None,
        }
    }
}

proof fn lemma_elements_after_prefix(s: Seq<u8>, xs: Seq<IndexKey>, ys: Seq<IndexKey>, n: int, p: int)
    requires
        0 <= n <= xs.len(),
        n <= ys.len(),
        xs.take(n) == ys.take(n),
    ensures
        elements_after(s, xs, n, p) == elements_after(s, ys, n, p),
    decreases n,
{
    if n > 0 {
        assert(xs.take(n - 1) =~= xs.take(n).take(n - 1));
        assert(ys.take(n - 1) =~= ys.take(n).take(n - 1));
        lemma_elements_after_prefix(s, xs, ys, n - 1, p);
        assert(xs[n - 1] == xs.take(n)[n - 1]);
        assert(ys[n - 1] == ys.take(n)[n - 1]);
    }
}

proof fn lemma_members_after_prefix(
    s: Seq<u8>,
    xs: Seq<(String, IndexKey)>,
    ys: Seq<(String, IndexKey)>,
    n: int,
    p: int,
)
    requires
        0 <= n <= xs.len(),
        n <= ys.len(),
        xs.take(n) == ys.take(n),
    ensures
        members_after(s, xs, n, p) == members_after(s, ys, n, p),
    decreases n,
{
    if n > 0 {
        assert(xs.take(n - 1) =~= xs.take(n).take(n - 1));
        assert(ys.take(n - 1) =~= ys.take(n).take(n - 1));
        lemma_members_after_prefix(s, xs, ys, n - 1, p);
        assert(xs[n - 1] == xs.take(n)[n - 1]);
        assert(ys[n - 1] == ys.take(n)[n - 1]);
    }
}

/// What an occurrence found in record `d`, whose bytes are `line` and start at
/// absolute offset `base`, says of that record.
pub open spec fn occurrence_in(o: FieldOccurrence, line: Seq<u8>, d: u64, base: u64) -> bool {
    &&& o.record.data_number == d
    &&& base <= o.record.field_start_byte_offset
    &&& o.record.field_length > 0
    &&& o.record.field_start_byte_offset + o.record.field_length <= base + line.len()
    &&& !is_ws(line[o.record.field_start_byte_offset - base])
    &&& value_end(line, o.record.field_start_byte_offset - base) == Some(
        o.record.field_start_byte_offset - base + o.record.field_length,
    )
}

/// Whether the key of each occurrence of `out` from position `from` on is
/// the key of the value it points at.
#[verifier::opaque]
pub open spec fn keys_in(out: Seq<FieldOccurrence>, from: int, line: Seq<u8>, base: u64) -> bool {
    forall|i: int|
        from <= i < out.len() ==> key_describes(
            line,
            (#[trigger] out[i]).key,
            out[i].record.field_start_byte_offset - base,
            out[i].record.field_start_byte_offset - base + out[i].record.field_length,
        )
}

/// The dotted name of member `key` of an object reached under `prefix`
/// (`None` for the record's own object).
pub open spec fn dotted(prefix: Option<Seq<char>>, key: Seq<char>) -> Seq<char> {
    match prefix {
        None => key,
        Some(p) => p + "."@ + key,
    }
}

/// The fields that the members of an object give, from `p` on (just after
/// `{` when `first`, else after a member): for each, its dotted name and the
/// start and end of its value. A member whose value is an object gives the
/// fields of that object under its own name instead.
pub open spec fn member_fields(s: Seq<u8>, p: int, first: bool, prefix: Option<Seq<char>>) -> Seq<
    (Seq<char>, int, int),
>
    decreases s.len() - p,
{
    let q = skip_ws(s, p);
    if p < 0 || p > s.len() || q < p || q >= s.len() || s[q] == 125 {
        seq![]
    } else {
        let k = key_start(s, q, first);
        if !(0 <= k < s.len()) || s[k] != 34 {
            seq![]
        } else {
            match scalar_end(s, k) {
                Some(ke) => {
                    let c = skip_ws(s, ke);
                    let v = skip_ws(s, c + 1);
                    if c < p || !(0 <= c < s.len()) || s[c] != 58 || v <= c || v >= s.len() {
                        seq![]
                    } else {
                        match value_end(s, c + 1) {
                            Some(e) => if p < e <= s.len() {
                                let name = dotted(prefix, json_string_value(s.subrange(k, ke)).unwrap());
                                let here = if s[v] == 123 {
                                    member_fields(s, v + 1, true, Some(name))
                                } else {
                                    seq![(name, v, e)]
                                };
                                here + member_fields(s, e, false, prefix)
                            } else {
                                seq![]
                            },
                            None => seq![],
                        }
                    }
                },
                None => seq![],
            }
        }
    }
}

/// An occurrence as a field name and the value's start and end within its record.
pub open spec fn field_view(o: FieldOccurrence, base: u64) -> (Seq<char>, int, int) {
    (
        o.field_name@,
        o.record.field_start_byte_offset - base,
        o.record.field_start_byte_offset + o.record.field_length - base,
    )
}

/// The occurrences of `out` from position `from` on, as fields.
pub open spec fn fields_of(out: Seq<FieldOccurrence>, from: int, base: u64) -> Seq<(Seq<char>, int, int)> {
    out.subrange(from, out.len() as int).map_values(|o: FieldOccurrence| field_view(o, base))
}

pub open spec fn opt_view(prefix: Option<String>) -> Option<Seq<char>> {
    match prefix {
        Some(p) => Some(p@),
        None => None,
    }
}

/// Every occurrence of `out` from position `from` on lies in the record.
pub open spec fn all_in(out: Seq<FieldOccurrence>, from: int, line: Seq<u8>, d: u64, base: u64) -> bool {
    forall|i: int| from <= i < out.len() ==> occurrence_in(#[trigger] out[i], line, d, base)
}

/// The name of member `key` of an object reached under `prefix`.
fn child_name(prefix: &Option<String>, key: &String) -> (r: String)
    ensures
        r@ == match prefix {
            None => key@,
            Some(p) => p@ + "."@ + key@,
        },
{
    match prefix {
        None => key.clone(),
        Some(p) => {
            let mut r = p.clone();
            r.append(".");
            r.append(key.as_str());
            r
        },
    }
}

/// What the first token of a value, read by the tokenizer, says of it.
pub open spec fn first_token(s: Seq<u8>, tok: Token, start: int, end: int) -> bool {
    &&& 0 <= start < end <= s.len()
    &&& !is_ws(s[start])
    &&& token_spans(s, tok, start, end)
    &&& is_scalar_token(tok) ==> scalar_end(s, start) == Some(end)
}

/// Reads the value whose first token `first`, at `start`, was just read, and
/// returns it as a key, with the offset just past it.
#[verifier::rlimit(100)]
fn parse_key(tz: &mut JSONTokenizer, first: Token, start: usize) -> (r: Result<(IndexKey, usize), usize>)
    requires
        old(tz).wf(),
        first_token(old(tz).input_spec(), first, start as int, old(tz).position_spec()),
    ensures
        final(tz).wf(),
        final(tz).input_spec() == old(tz).input_spec(),
        old(tz).position_spec() <= final(tz).position_spec(),
        (r is Ok) == (value_end(old(tz).input_spec(), start as int) is Some),
        r matches Ok((_, end)) ==> end == final(tz).position_spec() && value_end(
            old(tz).input_spec(),
            start as int,
        ) == Some(end as int),
        r matches Ok((k, end)) ==> key_describes(old(tz).input_spec(), k, start as int, end as int),
        r matches Err(p) ==> p <= old(tz).input_spec().len(),
    decreases old(tz).input_spec().len() - old(tz).position_spec(),
{
    let ghost s = tz.input_spec();
    proof {
        lemma_skip_ws_at_token(s, start as int);
    }
    match first {
        Token::String(t) => Ok((IndexKey::String(t), tz.position())),
        Token::Number(t) => Ok((IndexKey::Number(t), tz.position())),
        Token::Boolean(b) => Ok((IndexKey::Boolean(b), tz.position())),
        Token::Null => Ok((IndexKey::Null, tz.position())),
        Token::OpenArray => {
            let ghost pos0 = tz.position_spec();
            let mut elements: Vec<IndexKey> = Vec::new();
            assert(value_end(s, start as int) == elements_end(s, pos0, true));
            loop
                invariant
                    tz.wf(),
                    tz.input_spec() == s,
                    s == old(tz).input_spec(),
                    pos0 == old(tz).position_spec(),
                    start < pos0 <= tz.position_spec(),
                    elements_end(s, tz.position_spec(), elements@.len() == 0) == value_end(s, start as int),
                    s[start as int] == 91,
                    elements_after(s, elements@, elements@.len() as int, start + 1) == Some(tz.position_spec()),
                decreases tz.input_spec().len() - tz.position_spec(),
            {
                let ghost pos = tz.position_spec();
                proof {
                    lemma_skip_ws_le(s, pos);
                }
                let (tok, at) = match tz.next_token() {
                    Ok(Some(t)) => t,
                    Ok(None) => return Err(tz.position()),
                    Err(p) => {
                        proof {
                            lemma_skip_ws_at_token(s, p as int);
                            assert(value_end(s, p as int) is None);
                        }
                        return Err(p);
                    },
                };
                proof {
                    lemma_skip_ws_at_token(s, at as int);
                }
                match tok {
                    Token::CloseArray => {
                        return Ok((IndexKey::Array(elements), tz.position()));
                    },
                    Token::Comma => {
                        if elements.len() == 0 {
                            assert(value_end(s, at as int) is None);
                            return Err(at);
                        }
                        let ghost after = tz.position_spec();
                        proof {
                            lemma_skip_ws_le(s, after);
                        }
                        let (t2, at2) = match tz.next_token() {
                            Ok(Some(t)) => t,
                            Ok(None) => return Err(tz.position()),
                            Err(p) => {
                                proof {
                                    lemma_skip_ws_at_token(s, p as int);
                                }
                                return Err(p);
                            },
                        };
                        proof {
                            lemma_skip_ws_at_token(s, at2 as int);
                            assert(value_end(s, after) == value_end(s, at2 as int));
                        }
                        let (k, end) = parse_key(tz, t2, at2)?;
                        let ghost before = elements@;
                        elements.push(k);
                        proof {
                            assert(next_item(s, pos, false) == at2);
                            assert(elements@.take(before.len() as int) =~= before.take(before.len() as int));
                            lemma_elements_after_prefix(s, elements@, before, before.len() as int, start + 1);
                            assert(elements@[before.len() as int] == k);
                            assert(elements_after(s, elements@, before.len() as int, start + 1) == Some(pos));
                            assert(value_end(s, at2 as int) == Some(end as int));
                            assert(key_describes(s, k, at2 as int, end as int));
                            assert(elements_after(s, elements@, elements@.len() as int, start + 1) == Some(
                                end as int,
                            ));
                        }
                    },
                    _ => {
                        if elements.len() != 0 {
                            return Err(at);
                        }
                        let (k, end) = parse_key(tz, tok, at)?;
                        let ghost before = elements@;
                        elements.push(k);
                        proof {
                            assert(next_item(s, pos, true) == at);
                            assert(elements@[0] == k);
                            assert(before.len() == 0);
                            assert(elements_after(s, elements@, 0, start + 1) == Some(start + 1));
                            assert(pos == start + 1);
                            assert(value_end(s, at as int) == Some(end as int));
                            assert(key_describes(s, k, at as int, end as int));
                            assert(elements_after(s, elements@, 1, start + 1) == Some(end as int));
                        }
                    },
                }
            }
        },
        Token::OpenBracket => {
            let ghost pos0 = tz.position_spec();
            let mut members: Vec<(String, IndexKey)> = Vec::new();
            assert(value_end(s, start as int) == members_end(s, pos0, true));
            loop
                invariant
                    tz.wf(),
                    tz.input_spec() == s,
                    s == old(tz).input_spec(),
                    pos0 == old(tz).position_spec(),
                    start < pos0 <= tz.position_spec(),
                    members_end(s, tz.position_spec(), members@.len() == 0) == value_end(s, start as int),
                    s[start as int] == 123,
                    members_after(s, members@, members@.len() as int, start + 1) == Some(tz.position_spec()),
                decreases tz.input_spec().len() - tz.position_spec(),
            {
                let ghost pos = tz.position_spec();
                let ghost was_first = members@.len() == 0;
                proof {
                    lemma_skip_ws_le(s, pos);
                }
                let name = match read_member_key(tz, members.len() == 0) {
                    Ok(Some(t)) => t,
                    Ok(None) => return Ok((IndexKey::Object(members), tz.position())),
                    Err(p) => return Err(p),
                };
                let ghost colon_end = tz.position_spec();
                proof {
                    lemma_skip_ws_le(s, colon_end);
                }
                let (t2, at2) = match tz.next_token() {
                    Ok(Some(t)) => t,
                    Ok(None) => return Err(tz.position()),
                    Err(p) => {
                        proof {
                            lemma_skip_ws_at_token(s, p as int);
                        }
                        return Err(p);
                    },
                };
                proof {
                    lemma_skip_ws_at_token(s, at2 as int);
                    assert(value_end(s, colon_end) == value_end(s, at2 as int));
                }
                let ghost name_view = name@;
                let (k, end) = parse_key(tz, t2, at2)?;
                let ghost before = members@;
                members.push((name, k));
                proof {
                    let q = skip_ws(s, pos);
                    let kq = key_start(s, q, was_first);
                    let ke = scalar_end(s, kq).unwrap();
                    let c = skip_ws(s, ke);
                    assert(colon_end == c + 1);
                    assert(next_item(s, pos, was_first) == kq);
                    assert(members_end(s, pos, was_first) == members_end(s, end as int, false));
                    assert(members@.take(before.len() as int) =~= before.take(before.len() as int));
                    lemma_members_after_prefix(s, members@, before, before.len() as int, start + 1);
                    assert(members@[before.len() as int].0@ == name_view);
                    assert(members@[before.len() as int].1 == k);
                }
            }
        },
        _ => Err(start),
    }
}

/// Reads the key of the next member and the colon after it, or the `}` that
/// closes the object (`None`); `first` when no member was read yet.
fn read_member_key(tz: &mut JSONTokenizer, first: bool) -> (r: Result<Option<String>, usize>)
    requires
        old(tz).wf(),
    ensures
        final(tz).wf(),
        final(tz).input_spec() == old(tz).input_spec(),
        old(tz).position_spec() <= final(tz).position_spec(),
        ({
            let s = old(tz).input_spec();
            let q = skip_ws(s, old(tz).position_spec());
            let k = key_start(s, q, first);
            match r {
                Ok(None) => q < s.len() && s[q] == 125 && final(tz).position_spec() == q + 1,
                Ok(Some(key)) => {
                    &&& old(tz).position_spec() < final(tz).position_spec()
                    &&& old(tz).position_spec() <= q < s.len()
                    &&& s[q] != 125
                    &&& 0 <= k < s.len()
                    &&& s[k] == 34
                    &&& scalar_end(s, k) is Some
                    &&& json_string_value(s.subrange(k, scalar_end(s, k).unwrap())) == Some(key@)
                    &&& skip_ws(s, scalar_end(s, k).unwrap()) < s.len()
                    &&& s[skip_ws(s, scalar_end(s, k).unwrap())] == 58
                    &&& final(tz).position_spec() == skip_ws(s, scalar_end(s, k).unwrap()) + 1
                },
                Err(e) => e <= s.len() && members_end(s, old(tz).position_spec(), first) is None,
            }
        }),
{
    let ghost input = tz.input_spec();
    let ghost pos = tz.position_spec();
    proof {
        lemma_skip_ws_le(input, pos);
    }
    let (tok, at) = match tz.next_token() {
        Ok(Some(t)) => t,
        Ok(None) => return Err(tz.position()),
        Err(p) => return Err(p),
    };
    proof {
        lemma_skip_ws_at_token(input, at as int);
    }
    let key = match tok {
        Token::CloseBracket => {
            return Ok(None);
        },
        Token::Comma => {
            if first {
                return Err(at);
            }
            let ghost after = tz.position_spec();
            proof {
                lemma_skip_ws_le(input, after);
            }
            match tz.next_token() {
                Ok(Some((Token::String(s), _))) => s,
                Ok(Some((_, a))) => return Err(a),
                Ok(None) => return Err(tz.position()),
                Err(p) => return Err(p),
            }
        },
        Token::String(s) => {
            if !first {
                return Err(at);
            }
            s
        },
        _ => return Err(at),
    };
    let ghost key_end = tz.position_spec();
    proof {
        lemma_skip_ws_le(input, key_end);
    }
    match tz.next_token() {
        Ok(Some((Token::Colon, _))) => {},
        Ok(Some((_, a))) => return Err(a),
        Ok(None) => return Err(tz.position()),
        Err(p) => return Err(p),
    }
    Ok(Some(key))
}

/// Indexes the members of an object whose `{` was just read, naming each
/// under `prefix`; nested objects are walked in turn, any other value is
/// one occurrence. Returns the offset of the byte that fails, if one does.
#[verifier::rlimit(40)]
fn walk_object(
    tz: &mut JSONTokenizer,
    prefix: Option<String>,
    d: u64,
    base: u64,
    out: &mut Vec<FieldOccurrence>,
) -> (r: Result<(), usize>)
    requires
        old(tz).wf(),
        base + old(tz).input_spec().len() <= u64::MAX,
    ensures
        final(tz).wf(),
        final(tz).input_spec() == old(tz).input_spec(),
        old(tz).position_spec() <= final(tz).position_spec(),
        old(out)@.len() <= final(out)@.len(),
        final(out)@.subrange(0, old(out)@.len() as int) == old(out)@,
        all_in(final(out)@, old(out)@.len() as int, old(tz).input_spec(), d, base),
        keys_in(final(out)@, old(out)@.len() as int, old(tz).input_spec(), base),
        r matches Err(p) ==> p <= old(tz).input_spec().len(),
        (r is Ok) == (members_end(old(tz).input_spec(), old(tz).position_spec(), true) is Some),
        r is Ok ==> fields_of(final(out)@, old(out)@.len() as int, base) == member_fields(
            old(tz).input_spec(),
            old(tz).position_spec(),
            true,
            opt_view(prefix),
        ),
        r is Ok ==> members_end(old(tz).input_spec(), old(tz).position_spec(), true) == Some(
            final(tz).position_spec(),
        ),
    decreases old(tz).input_spec().len() - old(tz).position_spec(),
{
    proof {
        reveal(keys_in);
    }
    let ghost input = tz.input_spec();
    let ghost pos0 = tz.position_spec();
    let ghost out0 = out@;
    let mut first = true;
    loop
        invariant
            tz.wf(),
            tz.input_spec() == input,
            input == old(tz).input_spec(),
            pos0 == old(tz).position_spec(),
            pos0 <= tz.position_spec(),
            out0 == old(out)@,
            base + input.len() <= u64::MAX,
            out0.len() <= out@.len(),
            out@.subrange(0, out0.len() as int) == out0,
            all_in(out@, out0.len() as int, input, d, base),
            keys_in(out@, out0.len() as int, input, base),
            members_end(input, tz.position_spec(), first) == members_end(input, pos0, true),
            member_fields(input, pos0, true, opt_view(prefix)) == fields_of(out@, out0.len() as int, base)
                + member_fields(input, tz.position_spec(), first, opt_view(prefix)),
        decreases tz.input_spec().len() - tz.position_spec(),
    {
        let ghost pos = tz.position_spec();
        let ghost was_first = first;
        proof {
            lemma_skip_ws_le(input, pos);
        }
        let key = match read_member_key(tz, first) {
            Ok(Some(k)) => k,
            Ok(None) => return Ok(()),
            Err(p) => return Err(p),
        };
        first = false;
        let name = child_name(&prefix, &key);
        let ghost colon_end = tz.position_spec();
        let ghost mid = out@;
        let ghost nm = name@;
        let ghost key_view = key@;
        let res = walk_member_value(tz, name, d, base, out);
        proof {
            if res is Ok {
                let q = skip_ws(input, pos);
                let k = key_start(input, q, was_first);
                let ke = scalar_end(input, k).unwrap();
                let c = skip_ws(input, ke);
                let v = skip_ws(input, c + 1);
                let e = tz.position_spec();
                assert(colon_end == c + 1);
                assert(nm == dotted(opt_view(prefix), key_view));
                let here = if input[v] == 123 {
                    member_fields(input, v + 1, true, Some(nm))
                } else {
                    seq![(nm, v, e)]
                };
                assert(member_fields(input, pos, was_first, opt_view(prefix)) == here + member_fields(
                    input,
                    e,
                    false,
                    opt_view(prefix),
                ));
                assert(members_end(input, pos, was_first) == members_end(input, e, false));
                assert(fields_of(out@, mid.len() as int, base) == here);
            }
            assert forall|i: int| out0.len() <= i < out@.len() implies occurrence_in(
                #[trigger] out@[i],
                input,
                d,
                base,
            ) by {
                if i < mid.len() {
                    assert(out@[i] == out@.subrange(0, mid.len() as int)[i]);
                }
            }
            reveal(keys_in);
            assert forall|i: int| out0.len() <= i < out@.len() implies key_describes(
                input,
                (#[trigger] out@[i]).key,
                out@[i].record.field_start_byte_offset - base,
                out@[i].record.field_start_byte_offset - base + out@[i].record.field_length,
            ) by {
                if i < mid.len() {
                    assert(out@[i] == out@.subrange(0, mid.len() as int)[i]);
                }
            }
            assert(out@.subrange(0, out0.len() as int) =~= out@.subrange(0, mid.len() as int).subrange(
                0,
                out0.len() as int,
            ));
            assert(fields_of(out@, out0.len() as int, base) =~= fields_of(mid, out0.len() as int, base)
                + fields_of(out@, mid.len() as int, base)) by {
                assert(out@.subrange(out0.len() as int, mid.len() as int) =~= mid.subrange(
                    out0.len() as int,
                    mid.len() as int,
                )) by {
                    assert(out@.subrange(0, mid.len() as int) == mid);
                    assert forall|i: int| out0.len() <= i < mid.len() implies out@[i] == mid[i] by {
                        assert(out@.subrange(0, mid.len() as int)[i] == out@[i]);
                    }
                }
            }
            if res is Ok {
                let e = tz.position_spec();
                assert(member_fields(input, pos0, true, opt_view(prefix)) =~= fields_of(out@, out0.len() as int, base)
                    + member_fields(input, e, false, opt_view(prefix)));
            }
        }
        if let Err(p) = res {
            return Err(p);
        }
    }
}

/// Indexes the value of the member named `name`, which starts at the cursor:
/// an object's members are walked under `name`, any other value is one
/// occurrence.
fn walk_member_value(
    tz: &mut JSONTokenizer,
    name: String,
    d: u64,
    base: u64,
    out: &mut Vec<FieldOccurrence>,
) -> (r: Result<(), usize>)
    requires
        old(tz).wf(),
        base + old(tz).input_spec().len() <= u64::MAX,
    ensures
        final(tz).wf(),
        final(tz).input_spec() == old(tz).input_spec(),
        old(tz).position_spec() <= final(tz).position_spec(),
        old(out)@.len() <= final(out)@.len(),
        final(out)@.subrange(0, old(out)@.len() as int) == old(out)@,
        all_in(final(out)@, old(out)@.len() as int, old(tz).input_spec(), d, base),
        keys_in(final(out)@, old(out)@.len() as int, old(tz).input_spec(), base),
        r matches Err(p) ==> p <= old(tz).input_spec().len(),
        (r is Ok) == (value_end(old(tz).input_spec(), old(tz).position_spec()) is Some),
        r is Ok ==> ({
            let s = old(tz).input_spec();
            let v = skip_ws(s, old(tz).position_spec());
            &&& value_end(s, old(tz).position_spec()) == Some(final(tz).position_spec())
            &&& old(tz).position_spec() <= v < s.len()
            &&& fields_of(final(out)@, old(out)@.len() as int, base) == if s[v] == 123 {
                member_fields(s, v + 1, true, Some(name@))
            } else {
                seq![(name@, v, final(tz).position_spec())]
            }
        }),
    decreases old(tz).input_spec().len() - old(tz).position_spec(),
{
    proof {
        reveal(keys_in);
    }
    let ghost input = tz.input_spec();
    let ghost pos0 = tz.position_spec();
    proof {
        lemma_skip_ws_le(input, pos0);
    }
    let (t2, at2) = match tz.next_token() {
        Ok(Some(t)) => t,
        Ok(None) => return Err(tz.position()),
        Err(p) => {
            proof {
                lemma_skip_ws_at_token(input, p as int);
            }
            return Err(p);
        },
    };
    proof {
        lemma_skip_ws_at_token(input, at2 as int);
        assert(value_end(input, pos0) == value_end(input, at2 as int));
    }
    match t2 {
        Token::OpenBracket => {
            assert(value_end(input, at2 as int) == members_end(input, at2 + 1, true));
            walk_object(tz, Some(name), d, base, out)
        },
        _ => walk_value(tz, name, t2, at2, d, base, out),
    }
}

/// Indexes the value of a member named `name`, whose first token `first`
/// at `start` was just read and does not open an object, as one occurrence.
fn walk_value(
    tz: &mut JSONTokenizer,
    name: String,
    first: Token,
    start: usize,
    d: u64,
    base: u64,
    out: &mut Vec<FieldOccurrence>,
) -> (r: Result<(), usize>)
    requires
        old(tz).wf(),
        base + old(tz).input_spec().len() <= u64::MAX,
        first_token(old(tz).input_spec(), first, start as int, old(tz).position_spec()),
        old(tz).input_spec()[start as int] != 123,
    ensures
        final(tz).wf(),
        final(tz).input_spec() == old(tz).input_spec(),
        old(tz).position_spec() <= final(tz).position_spec(),
        old(out)@.len() <= final(out)@.len(),
        final(out)@.subrange(0, old(out)@.len() as int) == old(out)@,
        all_in(final(out)@, old(out)@.len() as int, old(tz).input_spec(), d, base),
        keys_in(final(out)@, old(out)@.len() as int, old(tz).input_spec(), base),
        r matches Err(p) ==> p <= old(tz).input_spec().len(),
        (r is Ok) == (value_end(old(tz).input_spec(), start as int) is Some),
        r is Ok ==> value_end(old(tz).input_spec(), start as int) == Some(final(tz).position_spec()),
        r is Ok ==> fields_of(final(out)@, old(out)@.len() as int, base) == seq![
            (name@, start as int, final(tz).position_spec()),
        ],
{
    proof {
        reveal(keys_in);
    }
    let ghost input = tz.input_spec();
    proof {
        lemma_skip_ws_at_token(input, start as int);
    }
    let (k, end) = parse_key(tz, first, start)?;
    let record = IndexRecord {
        data_number: d,
        field_start_byte_offset: base + start as u64,
        field_length: (end - start) as u64,
    };
    let ghost before = out@;
    out.push(FieldOccurrence { field_name: name, key: k, record });
    proof {
        reveal(keys_in);
        assert(out@.subrange(0, before.len() as int) =~= before);
        assert(fields_of(out@, before.len() as int, base) =~= seq![(name@, start as int, end as int)]);
    }
    Ok(())
}

/// Whether `line` is one JSON object with only whitespace around it.
pub open spec fn record_ok(line: Seq<u8>) -> bool {
    let q = skip_ws(line, 0);
    &&& q < line.len()
    &&& line[q] == 123
    &&& members_end(line, q + 1, true) matches Some(e) && skip_ws(line, e) >= line.len()
}

/// Whether the first token of `line` reads but does not open an object.
pub open spec fn shape_invalid(line: Seq<u8>) -> bool {
    let q = skip_ws(line, 0);
    &&& q < line.len()
    &&& line[q] != 123
    &&& (is_structural(line[q]) || scalar_end(line, q) is Some)
}

/// Lists the field occurrences of one record: `json_line` holds its bytes,
/// `data_index` is its ordinal and `data_offset` the absolute offset of its
/// first byte. The record must be one JSON object, with only whitespace
/// around it.
pub fn handle_json_object(json_line: Vec<u8>, data_index: u64, data_offset: u64) -> (r: Result<
    Vec<FieldOccurrence>,
    RecordError,
>)
    requires
        json_line@.len() < usize::MAX,
        data_offset + json_line@.len() <= u64::MAX,
    ensures
        (r is Ok) == record_ok(json_line@),
        (r matches Err(RecordError::InvalidShape(_))) == shape_invalid(json_line@),
        r matches Ok(out) ==> all_in(out@, 0, json_line@, data_index, data_offset),
        r matches Ok(out) ==> keys_in(out@, 0, json_line@, data_offset),
        r matches Ok(out) ==> fields_of(out@, 0, data_offset) == member_fields(
            json_line@,
            skip_ws(json_line@, 0) + 1,
            true,
            None,
        ),
        r matches Err(RecordError::Parse(p)) ==> p <= json_line@.len(),
        r matches Err(RecordError::InvalidShape(p)) ==> p == skip_ws(json_line@, 0),
{
    let ghost input = json_line@;
    proof {
        lemma_skip_ws_le(input, 0);
    }
    let mut tz = JSONTokenizer::new(json_line);
    let mut out: Vec<FieldOccurrence> = Vec::new();
    match tz.next_token() {
        Ok(Some((Token::OpenBracket, _))) => {},
        Ok(Some((_, a))) => return Err(RecordError::InvalidShape(a)),
        Ok(None) => return Err(RecordError::Parse(tz.position())),
        Err(p) => return Err(RecordError::Parse(p)),
    }
    match walk_object(&mut tz, None, data_index, data_offset, &mut out) {
        Ok(()) => {},
        Err(p) => return Err(RecordError::Parse(p)),
    }
    let ghost e = tz.position_spec();
    proof {
        lemma_skip_ws_le(input, e);
    }
    match tz.next_token() {
        Ok(None) => Ok(out),
        Ok(Some((_, a))) => Err(RecordError::Parse(a)),
        Err(p) => Err(RecordError::Parse(p)),
    }
}

} // verus!
