//! The in-memory index: one `Index` per dotted field name, plus the
//! per-record end offsets and checksums.
use vstd::prelude::*;
use crate::field_type::{bit_mask, FieldFlags, FieldType};
use crate::handler::JSONLHandler;
use crate::protocol::{IndexRecord, Version};
use crate::scanner::{
    checksum, ends_from, lemma_ends_from_none, lemma_ends_from_step, next_newline, record_start,
    xxh3_64_of,
};
use crate::json_tokenizer::skip_ws;
use crate::walker::{
    all_in, fields_of, handle_json_object, keys_in, member_fields, record_ok, shape_invalid,
    FieldOccurrence, RecordError,
};

verus! {

pub const CURRENT_VERSION: Version = 1;

/// The value of a field, used as a grouping key.
///
/// Numbers keep their original decimal text; object members keep document
/// order, which equality ignores.
#[derive(Debug)]
pub enum IndexKey {
    String(String),
    Number(String),
    Boolean(bool),
    Null,
    Array(Vec<IndexKey>),
    Object(Vec<(String, IndexKey)>),
}

/// Whether some member of `ys` has the name of `x` and a value equal to it.
pub open spec fn member_in(x: (String, IndexKey), ys: Seq<(String, IndexKey)>) -> bool
    decreases x.1, 1int,
{
    exists|j: int| 0 <= j < ys.len() && x.0@ == (#[trigger] ys[j]).0@ && key_eq(x.1, ys[j].1)
}

/// Whether some member of `xs` has the name of `y` and a value equal to it.
pub open spec fn member_of(xs: Seq<(String, IndexKey)>, y: (String, IndexKey)) -> bool
    decreases xs, 1int,
{
    exists|i: int| 0 <= i < xs.len() && (#[trigger] xs[i]).0@ == y.0@ && key_eq(xs[i].1, y.1)
}

/// Structural equality of keys; the members of two objects are matched by
/// name, whatever their order.
pub open spec fn key_eq(a: IndexKey, b: IndexKey) -> bool
    decreases a, 0int,
{
    match a {
        IndexKey::String(x) => b matches IndexKey::String(y) && x@ == y@,
        IndexKey::Number(x) => b matches IndexKey::Number(y) && x@ == y@,
        IndexKey::Boolean(x) => b matches IndexKey::Boolean(y) && x == y,
        IndexKey::Null => b is Null,
        IndexKey::Array(xs) => match b {
            IndexKey::Array(ys) => xs@.len() == ys@.len() && forall|i: int|
                0 <= i < xs@.len() ==> key_eq(#[trigger] xs@[i], ys@[i]),
            _ => false,
        },
        IndexKey::Object(xs) => match b {
            IndexKey::Object(ys) => {
                &&& xs@.len() == ys@.len()
                &&& forall|i: int| 0 <= i < xs@.len() ==> member_in(#[trigger] xs@[i], ys@)
                &&& forall|j: int| 0 <= j < ys@.len() ==> member_of(xs@, #[trigger] ys@[j])
            },
            _ => false,
        },
    }
}

impl PartialEq for IndexKey {
    fn eq(&self, other: &IndexKey) -> (r: bool) {
        keys_equal(self, other)
    }
}

impl vstd::std_specs::cmp::PartialEqSpecImpl for IndexKey {
    open spec fn obeys_eq_spec() -> bool {
        true
    }

    open spec fn eq_spec(&self, other: &IndexKey) -> bool {
        key_eq(*self, *other)
    }
}

/// Whether some member of `ys` has the name of `x` and a value equal to it.
fn has_matching_member(x: &(String, IndexKey), ys: &Vec<(String, IndexKey)>) -> (r: bool)
    ensures
        r == member_in(*x, ys@),
    decreases x.1, 1int,
{
    let mut j: usize = 0;
    while j < ys.len()
        invariant
            j <= ys@.len(),
            forall|jj: int| 0 <= jj < j ==> !(x.0@ == (#[trigger] ys@[jj]).0@ && key_eq(x.1, ys@[jj].1)),
        decreases ys@.len() - j,
    {
        if x.0 == ys[j].0 && keys_equal(&x.1, &ys[j].1) {
            return true;
        }
        j += 1;
    }
    false
}

/// Whether some member of `xs` has the name of `y` and a value equal to it.
fn has_member_matching(xs: &Vec<(String, IndexKey)>, y: &(String, IndexKey)) -> (r: bool)
    ensures
        r == member_of(xs@, *y),
    decreases xs, 1int,
{
    let mut i: usize = 0;
    while i < xs.len()
        invariant
            i <= xs@.len(),
            forall|ii: int| 0 <= ii < i ==> !((#[trigger] xs@[ii]).0@ == y.0@ && key_eq(xs@[ii].1, y.1)),
        decreases xs@.len() - i,
    {
        proof {
            assert(decreases_to!(*xs => xs[i as int]));
            assert(decreases_to!(xs[i as int] => xs[i as int].1));
            assert(decreases_to!(*xs => xs[i as int].1));
        }
        if xs[i].0 == y.0 && keys_equal(&xs[i].1, &y.1) {
            return true;
        }
        i += 1;
    }
    false
}

/// Structural equality of two keys, object members matched by name.
pub fn keys_equal(a: &IndexKey, b: &IndexKey) -> (r: bool)
    ensures
        r == key_eq(*a, *b),
    decreases a, 0int,
{
    match a {
        IndexKey::String(x) => match b {
            IndexKey::String(y) => {
                *x == *y
            },
            _ => false,
        },
        IndexKey::Number(x) => match b {
            IndexKey::Number(y) => {
                *x == *y
            },
            _ => false,
        },
        IndexKey::Boolean(x) => match b {
            IndexKey::Boolean(y) => {
                *x == *y
            },
            _ => false,
        },
        IndexKey::Null => match b {
            IndexKey::Null => true,
            _ => false,
        },
        IndexKey::Array(xs) => {
            let ys = match b {
                IndexKey::Array(ys) => ys,
                _ => return false,
            };
            if xs.len() != ys.len() {
                return false;
            }
            let mut i: usize = 0;
            while i < xs.len()
                invariant
                    i <= xs@.len(),
                    xs@.len() == ys@.len(),
                    *a == IndexKey::Array(*xs),
                    *b == IndexKey::Array(*ys),
                    forall|ii: int| 0 <= ii < i ==> key_eq(#[trigger] xs@[ii], ys@[ii]),
                decreases xs@.len() - i,
            {
                proof {
                    assert(decreases_to!(*a => (*a)->Array_0));
                    assert((*a)->Array_0 == *xs);
                    assert(decreases_to!(*xs => xs[i as int]));
                    assert(decreases_to!(*a => xs[i as int]));
                }
                if !keys_equal(&xs[i], &ys[i]) {
                    assert(!key_eq(xs@[i as int], ys@[i as int]));
                    return false;
                }
                i += 1;
            }
            true
        },
        IndexKey::Object(xs) => {
            let ys = match b {
                IndexKey::Object(ys) => ys,
                _ => return false,
            };
            if xs.len() != ys.len() {
                return false;
            }
            let mut i: usize = 0;
            while i < xs.len()
                invariant
                    i <= xs@.len(),
                    xs@.len() == ys@.len(),
                    *a == IndexKey::Object(*xs),
                    *b == IndexKey::Object(*ys),
                    forall|ii: int| 0 <= ii < i ==> member_in(#[trigger] xs@[ii], ys@),
                decreases xs@.len() - i,
            {
                proof {
                    assert(decreases_to!(*a => (*a)->Object_0));
                    assert((*a)->Object_0 == *xs);
                    assert(decreases_to!(*xs => xs[i as int]));
                    assert(decreases_to!(xs[i as int] => xs[i as int].1));
                    assert(decreases_to!(*a => xs[i as int].1));
                }
                if !has_matching_member(&xs[i], ys) {
                    assert(!member_in(xs@[i as int], ys@));
                    return false;
                }
                i += 1;
            }
            assert(i == xs@.len());
            let mut j: usize = 0;
            while j < ys.len()
                invariant
                    j <= ys@.len(),
                    xs@.len() == ys@.len(),
                    *a == IndexKey::Object(*xs),
                    *b == IndexKey::Object(*ys),
                    forall|ii: int| 0 <= ii < xs@.len() ==> member_in(#[trigger] xs@[ii], ys@),
                    forall|jj: int| 0 <= jj < j ==> member_of(xs@, #[trigger] ys@[jj]),
                decreases ys@.len() - j,
            {
                proof {
                    assert(decreases_to!(*a => (*a)->Object_0));
                    assert((*a)->Object_0 == *xs);
                }
                if !has_member_matching(xs, &ys[j]) {
                    assert(!member_of(xs@, ys@[j as int]));
                    return false;
                }
                j += 1;
            }
            true
        },
    }
}

/// How a key is shown: strings and numbers as their text, arrays as
/// `[a, b]`, objects as `{name: value, ...}` in member order.
pub open spec fn key_text(k: IndexKey) -> Seq<char>
    decreases k, 0int,
{
    match k {
        IndexKey::String(t) => t@,
        IndexKey::Number(t) => t@,
        IndexKey::Boolean(b) => if b {
            "true"@
        } else {
            "false"@
        },
        IndexKey::Null => "null"@,
        IndexKey::Array(xs) => "["@ + items_text(xs@, xs@.len() as int) + "]"@,
        IndexKey::Object(ms) => "{"@ + members_text(ms@, ms@.len() as int) + "}"@,
    }
}

/// The first `n` keys of `xs` shown and joined by `", "`.
pub open spec fn items_text(xs: Seq<IndexKey>, n: int) -> Seq<char>
    decreases xs, n,
{
    if n <= 0 || n > xs.len() {
        seq![]
    } else if n == 1 {
        key_text(xs[0])
    } else {
        items_text(xs, n - 1) + ", "@ + key_text(xs[n - 1])
    }
}

/// The first `n` members of `ms` shown as `name: value` and joined by `", "`.
pub open spec fn members_text(ms: Seq<(String, IndexKey)>, n: int) -> Seq<char>
    decreases ms, n,
{
    if n <= 0 || n > ms.len() {
        seq![]
    } else if n == 1 {
        ms[0].0@ + ": "@ + key_text(ms[0].1)
    } else {
        members_text(ms, n - 1) + ", "@ + ms[n - 1].0@ + ": "@ + key_text(ms[n - 1].1)
    }
}

/// Appends the text of `k` to `out`.
fn append_key_text(k: &IndexKey, out: &mut String)
    ensures
        final(out)@ == old(out)@ + key_text(*k),
    decreases k,
{
    match k {
        IndexKey::String(t) => out.append(t.as_str()),
        IndexKey::Number(t) => out.append(t.as_str()),
        IndexKey::Boolean(b) => if *b {
            out.append("true")
        } else {
            out.append("false")
        },
        IndexKey::Null => out.append("null"),
        IndexKey::Array(xs) => {
            let ghost start = out@;
            out.append("[");
            let mut i: usize = 0;
            while i < xs.len()
                invariant
                    i <= xs@.len(),
                    *k == IndexKey::Array(*xs),
                    out@ == start + "["@ + items_text(xs@, i as int),
                decreases xs@.len() - i,
            {
                proof {
                    assert(decreases_to!(*k => (*k)->Array_0));
                    assert((*k)->Array_0 == *xs);
                    assert(decreases_to!(*xs => xs[i as int]));
                    assert(decreases_to!(*k => xs[i as int]));
                }
                if i > 0 {
                    out.append(", ");
                }
                append_key_text(&xs[i], out);
                i += 1;
                proof {
                    assert(out@ =~= start + "["@ + items_text(xs@, i as int));
                }
            }
            out.append("]");
            assert(out@ =~= start + key_text(*k));
        },
        IndexKey::Object(ms) => {
            let ghost start = out@;
            out.append("{");
            let mut i: usize = 0;
            while i < ms.len()
                invariant
                    i <= ms@.len(),
                    *k == IndexKey::Object(*ms),
                    out@ == start + "{"@ + members_text(ms@, i as int),
                decreases ms@.len() - i,
            {
                proof {
                    assert(decreases_to!(*k => (*k)->Object_0));
                    assert((*k)->Object_0 == *ms);
                    assert(decreases_to!(*ms => ms[i as int]));
                    assert(decreases_to!(ms[i as int] => ms[i as int].1));
                    assert(decreases_to!(*k => ms[i as int].1));
                }
                if i > 0 {
                    out.append(", ");
                }
                out.append(ms[i].0.as_str());
                out.append(": ");
                append_key_text(&ms[i].1, out);
                i += 1;
                proof {
                    assert(out@ =~= start + "{"@ + members_text(ms@, i as int));
                }
            }
            out.append("}");
            assert(out@ =~= start + key_text(*k));
        },
    }
}

/// The kind of JSON value a key holds.
pub open spec fn kind_of(k: IndexKey) -> FieldType {
    match k {
        IndexKey::String(_) => FieldType::String,
        IndexKey::Number(_) => FieldType::Number,
        IndexKey::Boolean(_) => FieldType::Boolean,
        IndexKey::Null => FieldType::Null,
        IndexKey::Array(_) => FieldType::Array,
        IndexKey::Object(_) => FieldType::Object,
    }
}

impl IndexKey {
    /// The key shown as text (see `key_text`).
    pub fn to_string(&self) -> (r: String)
        ensures
            r@ == key_text(*self),
    {
        let mut out = String::new();
        append_key_text(self, &mut out);
        assert(out@ =~= key_text(*self));
        out
    }

    pub fn field_type(&self) -> (r: FieldType)
        ensures
            r == kind_of(*self),
    {
        match self {
            IndexKey::String(_) => FieldType::String,
            IndexKey::Number(_) => FieldType::Number,
            IndexKey::Boolean(_) => FieldType::Boolean,
            IndexKey::Null => FieldType::Null,
            IndexKey::Array(_) => FieldType::Array,
            IndexKey::Object(_) => FieldType::Object,
        }
    }
}

/// Everything known of one dotted field name.
///
/// `index_records` holds each occurrence with its value, in scan order; the
/// occurrences of one value are those entries whose key is that value.
pub struct Index {
    pub field_name: String,
    pub field_type: FieldFlags,
    pub index_records: Vec<(IndexKey, IndexRecord)>,
}

/// The whole index over one data file.
pub struct IndexFile {
    version: Version,
    indexes: Vec<Index>,
    end_byte_offsets: Vec<u64>,
    checksums: Vec<u64>,
    tail: u64,
}

/// Why a synchronize call stopped; offsets are absolute byte offsets in the
/// data file, `data_number` the ordinal of the record that failed.
#[derive(PartialEq, Eq, Structural, Clone, Copy, Debug)]
pub enum SyncError {
    /// The data source is shorter than the part already indexed.
    Io { offset: u64 },
    /// The record holds bytes that are not valid JSON, or is not complete.
    Parse { data_number: u64, offset: u64 },
    /// The record's top-level value is not an object.
    InvalidRecordShape { data_number: u64, offset: u64 },
}

/// Whether an entry lies within the value bytes of the record it names.
pub open spec fn within_record(r: IndexRecord, ends: Seq<u64>) -> bool {
    &&& r.data_number < ends.len()
    &&& record_start(ends, r.data_number as int) <= r.field_start_byte_offset
    &&& r.field_length > 0
    &&& r.field_start_byte_offset + r.field_length <= ends[r.data_number as int]
}

/// The end offsets from position `n` on, as integers.
pub open spec fn ends_after(ends: Seq<u64>, n: int) -> Seq<int> {
    ends.skip(n).map_values(|x: u64| x as int)
}

/// The bytes of the `k`-th record found in `data` from offset `t` on.
pub open spec fn record_bytes(data: Seq<u8>, t: int, k: int) -> Seq<u8> {
    let ends = ends_from(data, t);
    data.subrange(if k == 0 { t } else { ends[k - 1] }, ends[k])
}

/// Whether everything in `data` from offset `t` on is complete, valid records.
pub open spec fn records_ok(data: Seq<u8>, t: int) -> bool {
    &&& t == data.len() || data.last() == 10
    &&& forall|k: int| 0 <= k < ends_from(data, t).len() ==> record_ok(#[trigger] record_bytes(data, t, k))
}

/// Whether `s` is strictly increasing.
pub open spec fn strictly_increasing(s: Seq<u64>) -> bool {
    forall|i: int, j: int| 0 <= i < j < s.len() ==> s[i] < s[j]
}

/// Whether no two indexes share a field name.
pub open spec fn names_unique(ix: Seq<Index>) -> bool {
    forall|i: int, j: int|
        0 <= i < j < ix.len() ==> (#[trigger] ix[i]).field_name@ != (#[trigger] ix[j]).field_name@
}

/// Whether `new_ix` extends `old_ix`: every old index keeps its name, its
/// recorded kinds and its entries, and only gains entries after them.
pub open spec fn indexes_grow(old_ix: Seq<Index>, new_ix: Seq<Index>) -> bool {
    &&& old_ix.len() <= new_ix.len()
    &&& forall|i: int|
        #![trigger new_ix[i]]
        0 <= i < old_ix.len() ==> {
            &&& new_ix[i].field_name@ == old_ix[i].field_name@
            &&& old_ix[i].index_records@.len() <= new_ix[i].index_records@.len()
            &&& new_ix[i].index_records@.subrange(0, old_ix[i].index_records@.len() as int)
                == old_ix[i].index_records@
            &&& forall|t: FieldType| old_ix[i].field_type.has(t) ==> #[trigger] new_ix[i].field_type.has(t)
            &&& new_ix[i].index_records@.len() == old_ix[i].index_records@.len() ==> new_ix[i] == old_ix[i]
        }
}

proof fn lemma_indexes_grow_refl(ix: Seq<Index>)
    ensures
        indexes_grow(ix, ix),
{
    assert forall|i: int| 0 <= i < ix.len() implies ix[i].index_records@.subrange(
        0,
        ix[i].index_records@.len() as int,
    ) == ix[i].index_records@ by {
        assert(ix[i].index_records@.subrange(0, ix[i].index_records@.len() as int) =~= ix[i].index_records@);
    }
}

/// Whether entry `j` of index `i` is one that `old_ix` did not hold.
pub open spec fn is_new_entry(old_ix: Seq<Index>, i: int, j: int) -> bool {
    i >= old_ix.len() || j >= old_ix[i].index_records@.len()
}

/// Whether every entry of `new_ix` that `old_ix` did not hold meets `p`.
pub open spec fn new_entries_meet(
    old_ix: Seq<Index>,
    new_ix: Seq<Index>,
    p: spec_fn(IndexRecord) -> bool,
) -> bool {
    forall|i: int, j: int|
        0 <= i < new_ix.len() && 0 <= j < new_ix[i].index_records@.len() && is_new_entry(old_ix, i, j)
            ==> p(#[trigger] new_ix[i].index_records@[j].1)
}

/// The field names of the indexes, in order.
pub open spec fn names_of(ix: Seq<Index>) -> Seq<Seq<char>> {
    ix.map_values(|x: Index| x.field_name@)
}

/// The names after adding occurrences `occ` in order: each name not seen
/// before is appended the first time it occurs.
pub open spec fn names_after(names: Seq<Seq<char>>, occ: Seq<FieldOccurrence>) -> Seq<Seq<char>>
    decreases occ.len(),
{
    if occ.len() == 0 {
        names
    } else {
        let prev = names_after(names, occ.drop_last());
        if prev.contains(occ.last().field_name@) {
            prev
        } else {
            prev.push(occ.last().field_name@)
        }
    }
}

/// The entries that occurrences `occ` give to the field `name`, in order.
pub open spec fn entries_for(occ: Seq<FieldOccurrence>, name: Seq<char>) -> Seq<(IndexKey, IndexRecord)>
    decreases occ.len(),
{
    if occ.len() == 0 {
        seq![]
    } else {
        let prev = entries_for(occ.drop_last(), name);
        if occ.last().field_name@ == name {
            prev.push((occ.last().key, occ.last().record))
        } else {
            prev
        }
    }
}

/// Whether some occurrence of `occ` gives the field `name` a value of kind `t`.
pub open spec fn kind_seen(occ: Seq<FieldOccurrence>, name: Seq<char>, t: FieldType) -> bool
    decreases occ.len(),
{
    occ.len() > 0 && (kind_seen(occ.drop_last(), name, t) || (occ.last().field_name@ == name && kind_of(
        occ.last().key,
    ) == t))
}

/// The entries index `i` of `ix` holds; none when there is no such index.
pub open spec fn entries_before(ix: Seq<Index>, i: int) -> Seq<(IndexKey, IndexRecord)> {
    if 0 <= i < ix.len() {
        ix[i].index_records@
    } else {
        seq![]
    }
}

/// Whether `new_ix` is `old_ix` with occurrences `occ` added in order.
pub open spec fn occurrences_added(old_ix: Seq<Index>, new_ix: Seq<Index>, occ: Seq<FieldOccurrence>) -> bool {
    &&& names_of(new_ix) == names_after(names_of(old_ix), occ)
    &&& forall|i: int|
        0 <= i < new_ix.len() ==> (#[trigger] new_ix[i]).index_records@ == entries_before(old_ix, i) + entries_for(
            occ,
            new_ix[i].field_name@,
        )
    &&& forall|i: int, t: FieldType|
        0 <= i < new_ix.len() ==> (#[trigger] new_ix[i].field_type.has(t) == ((i < old_ix.len()
            && old_ix[i].field_type.has(t)) || kind_seen(occ, new_ix[i].field_name@, t)))
}

/// A name that occurrences never gave gets no entry and no kind from them.
proof fn lemma_name_absent(names: Seq<Seq<char>>, occ: Seq<FieldOccurrence>, name: Seq<char>)
    requires
        !names_after(names, occ).contains(name),
    ensures
        entries_for(occ, name) == Seq::<(IndexKey, IndexRecord)>::empty(),
        forall|t: FieldType| !kind_seen(occ, name, t),
    decreases occ.len(),
{
    if occ.len() > 0 {
        let prev = names_after(names, occ.drop_last());
        let cur = names_after(names, occ);
        assert(!prev.contains(name)) by {
            if prev.contains(name) {
                let j = choose|j: int| 0 <= j < prev.len() && prev[j] == name;
                assert(cur[j] == name);
            }
        }
        assert(occ.last().field_name@ != name) by {
            if occ.last().field_name@ == name {
                assert(cur[cur.len() - 1] == name);
            }
        }
        lemma_name_absent(names, occ.drop_last(), name);
        assert forall|t: FieldType| !kind_seen(occ, name, t) by {
            assert(!kind_seen(occ.drop_last(), name, t));
        }
    }
}

proof fn lemma_concat_drop_last(o1: Seq<FieldOccurrence>, o2: Seq<FieldOccurrence>)
    requires
        o2.len() > 0,
    ensures
        (o1 + o2).drop_last() == o1 + o2.drop_last(),
        (o1 + o2).last() == o2.last(),
{
    assert((o1 + o2).drop_last() =~= o1 + o2.drop_last());
}

/// Adding `o1` then `o2` names, fills and marks the fields as adding `o1 + o2`.
proof fn lemma_occurrences_concat(names: Seq<Seq<char>>, o1: Seq<FieldOccurrence>, o2: Seq<FieldOccurrence>)
    ensures
        names_after(names, o1 + o2) == names_after(names_after(names, o1), o2),
        forall|name: Seq<char>| #[trigger] entries_for(o1 + o2, name) == entries_for(o1, name) + entries_for(o2, name),
        forall|name: Seq<char>, t: FieldType| #[trigger] kind_seen(o1 + o2, name, t) == (kind_seen(o1, name, t) || kind_seen(o2, name, t)),
    decreases o2.len(),
{
    if o2.len() == 0 {
        assert(o1 + o2 =~= o1);
        assert forall|name: Seq<char>| #[trigger] entries_for(o1 + o2, name) == entries_for(o1, name) + entries_for(o2, name) by {
            assert(entries_for(o1, name) + entries_for(o2, name) =~= entries_for(o1, name));
        }
    } else {
        lemma_concat_drop_last(o1, o2);
        lemma_occurrences_concat(names, o1, o2.drop_last());
        assert forall|name: Seq<char>| #[trigger] entries_for(o1 + o2, name) == entries_for(o1, name) + entries_for(o2, name) by {
            assert(entries_for(o1 + o2.drop_last(), name) == entries_for(o1, name) + entries_for(o2.drop_last(), name));
            if o2.last().field_name@ == name {
                assert((entries_for(o1, name) + entries_for(o2.drop_last(), name)).push((o2.last().key, o2.last().record))
                    =~= entries_for(o1, name) + entries_for(o2.drop_last(), name).push((o2.last().key, o2.last().record)));
            }
        }
        assert forall|name: Seq<char>, t: FieldType| #[trigger] kind_seen(o1 + o2, name, t) == (kind_seen(o1, name, t)
            || kind_seen(o2, name, t)) by {
            assert(kind_seen(o1 + o2.drop_last(), name, t) == (kind_seen(o1, name, t) || kind_seen(o2.drop_last(), name, t)));
        }
    }
}

/// Adding occurrences only appends names.
proof fn lemma_names_after_prefix(names: Seq<Seq<char>>, occ: Seq<FieldOccurrence>)
    ensures
        names.len() <= names_after(names, occ).len(),
        names_after(names, occ).take(names.len() as int) == names,
    decreases occ.len(),
{
    if occ.len() == 0 {
        assert(names.take(names.len() as int) =~= names);
    } else {
        lemma_names_after_prefix(names, occ.drop_last());
        let prev = names_after(names, occ.drop_last());
        if !prev.contains(occ.last().field_name@) {
            assert(prev.push(occ.last().field_name@).take(names.len() as int) =~= prev.take(names.len() as int));
        }
    }
}

/// Adding `o1` to `a` giving `b`, then `o2` to `b` giving `c`, adds `o1 + o2` to `a`.
proof fn lemma_occurrences_added_trans(
    a: Seq<Index>,
    b: Seq<Index>,
    c: Seq<Index>,
    o1: Seq<FieldOccurrence>,
    o2: Seq<FieldOccurrence>,
)
    requires
        occurrences_added(a, b, o1),
        occurrences_added(b, c, o2),
        names_unique(c),
    ensures
        occurrences_added(a, c, o1 + o2),
{
    lemma_occurrences_concat(names_of(a), o1, o2);
    lemma_names_after_prefix(names_of(a), o1);
    lemma_names_after_prefix(names_of(b), o2);
    assert(a.len() <= b.len() && b.len() <= c.len()) by {
        assert(names_of(a).len() == a.len());
        assert(names_of(b).len() == b.len());
        assert(names_of(c).len() == c.len());
    }
    assert forall|i: int| 0 <= i < c.len() implies (#[trigger] c[i]).index_records@ == entries_before(a, i) + entries_for(
        o1 + o2,
        c[i].field_name@,
    ) by {
        let name = c[i].field_name@;
        if i < b.len() {
            assert(names_of(c)[i] == names_of(b)[i]);
            assert(b[i].field_name@ == name);
            assert(b[i].index_records@ == entries_before(a, i) + entries_for(o1, name));
            assert(entries_before(a, i) + entries_for(o1 + o2, name) =~= entries_before(a, i) + entries_for(o1, name)
                + entries_for(o2, name));
        } else {
            assert(!names_of(b).contains(name)) by {
                if names_of(b).contains(name) {
                    let w = choose|w: int| 0 <= w < names_of(b).len() && names_of(b)[w] == name;
                    assert(names_of(c)[w] == names_of(b)[w]);
                    assert(c[w].field_name@ == c[i].field_name@);
                }
            }
            lemma_name_absent(names_of(a), o1, name);
            assert(entries_before(a, i) + entries_for(o1 + o2, name) =~= entries_before(b, i) + entries_for(o2, name));
        }
    }
    assert forall|i: int, t: FieldType| 0 <= i < c.len() implies #[trigger] c[i].field_type.has(t) == ((i < a.len()
        && a[i].field_type.has(t)) || kind_seen(o1 + o2, c[i].field_name@, t)) by {
        let name = c[i].field_name@;
        if i < b.len() {
            assert(names_of(c)[i] == names_of(b)[i]);
            assert(b[i].field_name@ == name);
            assert(b[i].field_type.has(t) == ((i < a.len() && a[i].field_type.has(t)) || kind_seen(o1, name, t)));
        } else {
            assert(!names_of(b).contains(name)) by {
                if names_of(b).contains(name) {
                    let w = choose|w: int| 0 <= w < names_of(b).len() && names_of(b)[w] == name;
                    assert(names_of(c)[w] == names_of(b)[w]);
                    assert(c[w].field_name@ == c[i].field_name@);
                }
            }
            lemma_name_absent(names_of(a), o1, name);
        }
    }
}

/// Whether `occ` lists the fields of the `k`-th record of `data` from
/// offset `t` on, numbered `n0 + k`: each lies in the record with the key of
/// its value, and their names and value ranges are those the record's object
/// gives.
#[verifier::opaque]
pub open spec fn record_fields(occ: Seq<FieldOccurrence>, data: Seq<u8>, t: int, k: int, n0: int) -> bool {
    let line = record_bytes(data, t, k);
    let start = if k == 0 {
        t
    } else {
        ends_from(data, t)[k - 1]
    };
    &&& all_in(occ, 0, line, (n0 + k) as u64, start as u64)
    &&& keys_in(occ, 0, line, start as u64)
    &&& fields_of(occ, 0, start as u64) == member_fields(line, skip_ws(line, 0) + 1, true, None)
}

proof fn lemma_record_fields(
    occ: Seq<FieldOccurrence>,
    data: Seq<u8>,
    t: int,
    k: int,
    n0: int,
    line: Seq<u8>,
    start: int,
)
    requires
        line == record_bytes(data, t, k),
        start == (if k == 0 {
            t
        } else {
            ends_from(data, t)[k - 1]
        }),
        all_in(occ, 0, line, (n0 + k) as u64, start as u64),
        keys_in(occ, 0, line, start as u64),
        fields_of(occ, 0, start as u64) == member_fields(line, skip_ws(line, 0) + 1, true, None),
    ensures
        record_fields(occ, data, t, k, n0),
{
    reveal(record_fields);
}

/// The occurrences of all records, in order.
pub open spec fn flatten(occs: Seq<Seq<FieldOccurrence>>) -> Seq<FieldOccurrence>
    decreases occs.len(),
{
    if occs.len() == 0 {
        seq![]
    } else {
        flatten(occs.drop_last()) + occs.last()
    }
}

proof fn lemma_occurrences_added_none(ix: Seq<Index>)
    ensures
        occurrences_added(ix, ix, Seq::empty()),
{
    assert forall|i: int| 0 <= i < ix.len() implies (#[trigger] ix[i]).index_records@ == entries_before(ix, i)
        + entries_for(Seq::empty(), ix[i].field_name@) by {
        assert(ix[i].index_records@ =~= ix[i].index_records@ + Seq::<(IndexKey, IndexRecord)>::empty());
    }
}

/// What a synchronize call from the committed tail of `old_f` over source
/// bytes `data` leaves: `new_f` and result `r`.
///
/// A tail past the end of `data` is an I/O error and changes nothing. Else
/// the records found from the tail on are committed in order, each with its
/// end offset, its checksum and its fields, until one is not a valid record;
/// the call succeeds exactly when all of them are valid and `data` ends with
/// a complete record.
pub open spec fn synchronized(old_f: IndexFile, new_f: IndexFile, data: Seq<u8>, r: Result<(), SyncError>) -> bool {
    &&& new_f.wf()
    &&& old_f.tail_spec() > data.len() ==> r == Err::<(), SyncError>(
        SyncError::Io { offset: old_f.tail_spec() },
    ) && new_f == old_f
    &&& old_f.tail_spec() == data.len() ==> r is Ok && new_f == old_f
    &&& old_f.tail_spec() <= data.len() ==> {
        let n0 = old_f.ends_spec().len() as int;
        let added = ends_after(new_f.ends_spec(), n0);
        &&& n0 <= new_f.ends_spec().len()
        &&& new_f.ends_spec().subrange(0, n0) == old_f.ends_spec()
        &&& new_f.checksums_spec().subrange(0, n0) == old_f.checksums_spec()
        &&& added.len() <= ends_from(data, old_f.tail_spec() as int).len()
        &&& added == ends_from(data, old_f.tail_spec() as int).subrange(0, added.len() as int)
        &&& forall|i: int|
            n0 <= i < new_f.ends_spec().len() ==> #[trigger] new_f.checksums_spec()[i]
                == xxh3_64_of(data.subrange(record_start(new_f.ends_spec(), i), new_f.ends_spec()[i] as int))
        &&& indexes_grow(old_f.indexes_spec(), new_f.indexes_spec())
        &&& new_entries_meet(
            old_f.indexes_spec(),
            new_f.indexes_spec(),
            |e: IndexRecord| n0 <= e.data_number && within_record(e, new_f.ends_spec()),
        )
        &&& new_f.ends_spec().len() == n0 ==> new_f.indexes_spec() == old_f.indexes_spec()
        &&& exists|occs: Seq<Seq<FieldOccurrence>>| {
            &&& occs.len() == added.len()
            &&& forall|k: int| 0 <= k < occs.len() ==> record_fields(#[trigger] occs[k], data, old_f.tail_spec() as int, k, n0)
            &&& occurrences_added(old_f.indexes_spec(), new_f.indexes_spec(), flatten(occs))
        }
        &&& (r is Ok) == records_ok(data, old_f.tail_spec() as int)
        &&& r is Ok ==> added == ends_from(data, old_f.tail_spec() as int)
            && new_f.tail_spec() == data.len()
        &&& r matches Err(SyncError::InvalidRecordShape { .. }) ==> added.len() < ends_from(data, old_f.tail_spec() as int).len()
            && shape_invalid(record_bytes(data, old_f.tail_spec() as int, added.len() as int))
        &&& r matches Err(SyncError::Parse { .. }) ==> (added.len() == ends_from(data, old_f.tail_spec() as int).len()
            && new_f.tail_spec() < data.len()) || (added.len() < ends_from(data, old_f.tail_spec() as int).len()
            && !record_ok(record_bytes(data, old_f.tail_spec() as int, added.len() as int))
            && !shape_invalid(record_bytes(data, old_f.tail_spec() as int, added.len() as int)))
        &&& r matches Err(e) ==> match e {
            SyncError::Io { .. } => false,
            SyncError::Parse { data_number, offset } => data_number == new_f.ends_spec().len()
                && new_f.tail_spec() <= offset <= data.len() && new_f.tail_spec() < data.len(),
            SyncError::InvalidRecordShape { data_number, offset } => data_number == new_f.ends_spec().len()
                && new_f.tail_spec() <= offset < data.len(),
        }
    }
}

/// Whether some index among `ix` is named `name`.
pub open spec fn has_name(ix: Seq<Index>, name: Seq<char>) -> bool {
    exists|i: int| 0 <= i < ix.len() && (#[trigger] ix[i]).field_name@ == name
}

impl IndexFile {
    pub closed spec fn version_spec(&self) -> Version {
        self.version
    }

    pub closed spec fn indexes_spec(&self) -> Seq<Index> {
        self.indexes@
    }

    pub closed spec fn ends_spec(&self) -> Seq<u64> {
        self.end_byte_offsets@
    }

    pub closed spec fn checksums_spec(&self) -> Seq<u64> {
        self.checksums@
    }

    pub closed spec fn tail_spec(&self) -> u64 {
        self.tail
    }

    /// The invariant every index file keeps.
    pub open spec fn wf(&self) -> bool {
        &&& self.version_spec() == CURRENT_VERSION
        &&& self.ends_spec().len() == self.checksums_spec().len()
        &&& strictly_increasing(self.ends_spec())
        &&& self.tail_spec() == (if self.ends_spec().len() == 0 {
            0
        } else {
            self.ends_spec().last()
        })
        &&& names_unique(self.indexes_spec())
    }

    /// An index file that has indexed nothing.
    pub fn empty() -> (r: Self)
        ensures
            r.wf(),
            r.indexes_spec().len() == 0,
            r.ends_spec().len() == 0,
            r.tail_spec() == 0,
    {
        IndexFile {
            version: CURRENT_VERSION,
            indexes: Vec::new(),
            end_byte_offsets: Vec::new(),
            checksums: Vec::new(),
            tail: 0,
        }
    }

    pub fn version(&self) -> (r: Version)
        ensures
            r == self.version_spec(),
    {
        self.version
    }

    pub fn indexes(&self) -> (r: &Vec<Index>)
        ensures
            r@ == self.indexes_spec(),
    {
        &self.indexes
    }

    pub fn end_byte_offsets(&self) -> (r: &Vec<u64>)
        ensures
            r@ == self.ends_spec(),
    {
        &self.end_byte_offsets
    }

    pub fn checksums(&self) -> (r: &Vec<u64>)
        ensures
            r@ == self.checksums_spec(),
    {
        &self.checksums
    }

    pub fn tail(&self) -> (r: u64)
        ensures
            r == self.tail_spec(),
    {
        self.tail
    }

    /// Number of data records indexed.
    pub fn data_count(&self) -> (r: usize)
        ensures
            r == self.ends_spec().len(),
    {
        self.end_byte_offsets.len()
    }

    /// Position of the index named `name`, if there is one.
    pub fn position_of(&self, name: &String) -> (r: Option<usize>)
        ensures
            match r {
                Some(p) => p < self.indexes_spec().len() && self.indexes_spec()[p as int].field_name@
                    == name@,
                None => !has_name(self.indexes_spec(), name@),
            },
    {
        let mut i: usize = 0;
        while i < self.indexes.len()
            invariant
                i <= self.indexes@.len(),
                forall|j: int| 0 <= j < i ==> (#[trigger] self.indexes@[j]).field_name@ != name@,
            decreases self.indexes@.len() - i,
        {
            if self.indexes[i].field_name == *name {
                return Some(i);
            }
            i += 1;
        }
        None
    }

    /// Returns the position of the index named `name`, widening its kinds to
    /// include `field_type`; creates it at the end, with only that kind, when
    /// no index has that name.
    pub fn find_index_of_type(&mut self, name: &String, field_type: FieldType) -> (r: usize)
        requires
            old(self).wf(),
        ensures
            final(self).wf(),
            r < final(self).indexes_spec().len(),
            final(self).indexes_spec()[r as int].field_name@ == name@,
            final(self).ends_spec() == old(self).ends_spec(),
            final(self).checksums_spec() == old(self).checksums_spec(),
            final(self).tail_spec() == old(self).tail_spec(),
            has_name(old(self).indexes_spec(), name@) ==> {
                &&& r < old(self).indexes_spec().len()
                &&& final(self).indexes_spec().len() == old(self).indexes_spec().len()
                &&& final(self).indexes_spec()[r as int].index_records
                    == old(self).indexes_spec()[r as int].index_records
                &&& forall|t: FieldType|
                    #[trigger] final(self).indexes_spec()[r as int].field_type.has(t)
                        == (old(self).indexes_spec()[r as int].field_type.has(t) || t == field_type)
                &&& final(self).indexes_spec()[r as int].field_type.bits()
                    == old(self).indexes_spec()[r as int].field_type.bits() | bit_mask(field_type)
            },
            !has_name(old(self).indexes_spec(), name@) ==> {
                &&& r == old(self).indexes_spec().len()
                &&& final(self).indexes_spec().len() == old(self).indexes_spec().len() + 1
                &&& final(self).indexes_spec()[r as int].index_records@.len() == 0
                &&& forall|t: FieldType|
                    #[trigger] final(self).indexes_spec()[r as int].field_type.has(t)
                        == (t == field_type)
                &&& final(self).indexes_spec()[r as int].field_type.bits() == bit_mask(field_type)
            },
            forall|i: int|
                0 <= i < old(self).indexes_spec().len() && i != r ==> final(self).indexes_spec()[i]
                    == old(self).indexes_spec()[i],
    {
        match self.position_of(name) {
            Some(p) => {
                let mut index = self.indexes.remove(p);
                index.field_type.set(field_type);
                self.indexes.insert(p, index);
                proof {
                    assert forall|i: int, j: int|
                        0 <= i < j < self.indexes@.len() implies (#[trigger] self.indexes@[i]).field_name@
                        != (#[trigger] self.indexes@[j]).field_name@ by {
                        if i != p && j != p {
                            assert(self.indexes@[i] == old(self).indexes@[i]);
                            assert(self.indexes@[j] == old(self).indexes@[j]);
                        } else if i == p {
                            assert(self.indexes@[j] == old(self).indexes@[j]);
                        } else {
                            assert(self.indexes@[i] == old(self).indexes@[i]);
                        }
                    }
                }
                p
            },
            None => {
                let mut flags = FieldFlags::new();
                flags.set(field_type);
                proof {
                    let m = bit_mask(field_type);
                    assert(0u64 | m == m) by (bit_vector);
                }
                let index = Index { field_name: name.clone(), field_type: flags, index_records: Vec::new() };
                self.indexes.push(index);
                proof {
                    assert forall|i: int, j: int|
                        0 <= i < j < self.indexes@.len() implies (#[trigger] self.indexes@[i]).field_name@
                        != (#[trigger] self.indexes@[j]).field_name@ by {
                        if j == old(self).indexes@.len() {
                            assert(self.indexes@[i] == old(self).indexes@[i]);
                        } else {
                            assert(self.indexes@[i] == old(self).indexes@[i]);
                            assert(self.indexes@[j] == old(self).indexes@[j]);
                        }
                    }
                }
                self.indexes.len() - 1
            },
        }
    }

    /// Builds the index of every record that `data_handler` holds.
    pub fn new(data_handler: &JSONLHandler) -> (r: Result<Self, SyncError>)
        requires
            data_handler.data_spec().len() < usize::MAX,
        ensures
            ({
                let d = data_handler.data_spec();
                &&& (r is Ok) == records_ok(d, 0)
                &&& r matches Ok(f) ==> {
                    &&& f.wf()
                    &&& ends_after(f.ends_spec(), 0) == ends_from(d, 0)
                    &&& f.tail_spec() == d.len()
                    &&& forall|i: int|
                        0 <= i < f.ends_spec().len() ==> #[trigger] f.checksums_spec()[i] == xxh3_64_of(
                            d.subrange(record_start(f.ends_spec(), i), f.ends_spec()[i] as int),
                        )
                    &&& new_entries_meet(
                        Seq::empty(),
                        f.indexes_spec(),
                        |e: IndexRecord| within_record(e, f.ends_spec()),
                    )
                    &&& exists|occs: Seq<Seq<FieldOccurrence>>| {
                        &&& occs.len() == f.ends_spec().len()
                        &&& forall|k: int| 0 <= k < occs.len() ==> record_fields(#[trigger] occs[k], d, 0, k, 0)
                        &&& occurrences_added(Seq::empty(), f.indexes_spec(), flatten(occs))
                    }
                }
                &&& r matches Err(e) ==> match e {
                    SyncError::Io { .. } => false,
                    SyncError::Parse { data_number, offset } => {
                        &&& offset <= d.len()
                        &&& data_number == ends_from(d, 0).len() || (
                        data_number < ends_from(d, 0).len() && !record_ok(record_bytes(d, 0, data_number as int))
                            && !shape_invalid(record_bytes(d, 0, data_number as int)))
                    },
                    SyncError::InvalidRecordShape { data_number, offset } => {
                        &&& offset < d.len()
                        &&& data_number < ends_from(d, 0).len()
                        &&& shape_invalid(record_bytes(d, 0, data_number as int))
                    },
                }
            }),
    {
        let mut file = IndexFile::empty();
        let ghost f0 = file;
        proof {
            assert(f0.indexes_spec() =~= Seq::<Index>::empty());
        }
        let res = file.synchronize_from(data_handler.data());
        proof {
            assert(ends_after(file.ends_spec(), 0).len() == file.ends_spec().len());
        }
        match res {
            Ok(()) => {
                proof {
                    let ix = file.indexes@;
                    assert forall|i: int, j: int|
                        0 <= i < ix.len() && 0 <= j < ix[i].index_records@.len() && is_new_entry(Seq::empty(), i, j)
                            implies within_record(#[trigger] ix[i].index_records@[j].1, file.end_byte_offsets@) by {
                        assert(is_new_entry(Seq::<Index>::empty(), i, j));
                    }
                }
                Ok(file)
            },
            Err(e) => Err(e),
        }
    }

    /// Indexes every complete record of `data` from the committed tail on.
    ///
    /// Each record found is committed in turn: its end offset and checksum
    /// are appended, its fields added, and the tail moved past it. A record
    /// that fails stops the call and leaves everything before it in place.
    #[verifier::rlimit(100)]
    pub fn synchronize_from(&mut self, data: &[u8]) -> (r: Result<(), SyncError>)
        requires
            old(self).wf(),
            data@.len() < usize::MAX,
        ensures
            final(self).wf(),
            old(self).tail_spec() > data@.len() ==> r == Err::<(), SyncError>(
                SyncError::Io { offset: old(self).tail_spec() },
            ) && *final(self) == *old(self),
            old(self).tail_spec() == data@.len() ==> r is Ok && *final(self) == *old(self),
            old(self).tail_spec() <= data@.len() ==> {
                let n0 = old(self).ends_spec().len() as int;
                let added = ends_after(final(self).ends_spec(), n0);
                &&& n0 <= final(self).ends_spec().len()
                &&& final(self).ends_spec().subrange(0, n0) == old(self).ends_spec()
                &&& final(self).checksums_spec().subrange(0, n0) == old(self).checksums_spec()
                &&& added.len() <= ends_from(data@, old(self).tail_spec() as int).len()
                &&& added == ends_from(data@, old(self).tail_spec() as int).subrange(0, added.len() as int)
                &&& forall|i: int|
                    n0 <= i < final(self).ends_spec().len() ==> #[trigger] final(self).checksums_spec()[i]
                        == xxh3_64_of(data@.subrange(record_start(final(self).ends_spec(), i), final(self).ends_spec()[i] as int))
                &&& indexes_grow(old(self).indexes_spec(), final(self).indexes_spec())
                &&& new_entries_meet(
                    old(self).indexes_spec(),
                    final(self).indexes_spec(),
                    |e: IndexRecord| n0 <= e.data_number && within_record(e, final(self).ends_spec()),
                )
                &&& final(self).ends_spec().len() == n0 ==> final(self).indexes_spec() == old(self).indexes_spec()
                &&& exists|occs: Seq<Seq<FieldOccurrence>>| {
                    &&& occs.len() == added.len()
                    &&& forall|k: int| 0 <= k < occs.len() ==> record_fields(#[trigger] occs[k], data@, old(self).tail_spec() as int, k, n0)
                    &&& occurrences_added(old(self).indexes_spec(), final(self).indexes_spec(), flatten(occs))
                }
                &&& (r is Ok) == records_ok(data@, old(self).tail_spec() as int)
                &&& r is Ok ==> added == ends_from(data@, old(self).tail_spec() as int)
                    && final(self).tail_spec() == data@.len()
                &&& r matches Err(SyncError::InvalidRecordShape { .. }) ==> added.len() < ends_from(data@, old(self).tail_spec() as int).len()
                    && shape_invalid(record_bytes(data@, old(self).tail_spec() as int, added.len() as int))
                &&& r matches Err(SyncError::Parse { .. }) ==> (added.len() == ends_from(data@, old(self).tail_spec() as int).len()
                    && final(self).tail_spec() < data@.len()) || (added.len() < ends_from(data@, old(self).tail_spec() as int).len()
                    && !record_ok(record_bytes(data@, old(self).tail_spec() as int, added.len() as int))
                    && !shape_invalid(record_bytes(data@, old(self).tail_spec() as int, added.len() as int)))
                &&& r matches Err(e) ==> match e {
                    SyncError::Io { .. } => false,
                    SyncError::Parse { data_number, offset } => data_number == final(self).ends_spec().len()
                        && final(self).tail_spec() <= offset <= data@.len() && final(self).tail_spec() < data@.len(),
                    SyncError::InvalidRecordShape { data_number, offset } => data_number == final(self).ends_spec().len()
                        && final(self).tail_spec() <= offset < data@.len(),
                }
            },
    {
        if self.tail > data.len() as u64 {
            return Err(SyncError::Io { offset: self.tail });
        }
        let ghost n0 = self.end_byte_offsets@.len() as int;
        let ghost t0 = self.tail as int;
        let ghost ix0 = self.indexes@;
        let ghost e0 = self.end_byte_offsets@;
        let ghost c0 = self.checksums@;
        let mut pos: usize = self.tail as usize;
        let ghost mut occs: Seq<Seq<FieldOccurrence>> = Seq::empty();
        proof {
            lemma_occurrences_added_none(ix0);
            lemma_indexes_grow_refl(ix0);
            assert(self.end_byte_offsets@.subrange(0, n0) =~= e0);
            assert(self.checksums@.subrange(0, n0) =~= c0);
            assert(ends_after(self.end_byte_offsets@, n0) =~= Seq::<int>::empty());
            assert(ends_from(data@, t0) =~= ends_after(self.end_byte_offsets@, n0) + ends_from(data@, pos as int));
        }
        while pos < data.len()
            invariant
                self.wf(),
                data@.len() < usize::MAX,
                pos as int == self.tail as int,
                pos <= data@.len(),
                n0 == old(self).ends_spec().len(),
                t0 == old(self).tail_spec(),
                t0 <= data@.len(),
                t0 <= pos,
                t0 == data@.len() ==> *self == *old(self),
                ix0 == old(self).indexes_spec(),
                e0 == old(self).ends_spec(),
                c0 == old(self).checksums_spec(),
                n0 <= self.end_byte_offsets@.len(),
                self.end_byte_offsets@.subrange(0, n0) == e0,
                self.checksums@.subrange(0, n0) == c0,
                ends_from(data@, t0) == ends_after(self.end_byte_offsets@, n0) + ends_from(data@, pos as int),
                forall|i: int|
                    n0 <= i < self.end_byte_offsets@.len() ==> #[trigger] self.checksums@[i]
                        == xxh3_64_of(data@.subrange(record_start(self.end_byte_offsets@, i), self.end_byte_offsets@[i] as int)),
                indexes_grow(ix0, self.indexes@),
                new_entries_meet(
                    ix0,
                    self.indexes@,
                    |e: IndexRecord| n0 <= e.data_number && within_record(e, self.end_byte_offsets@),
                ),
                self.end_byte_offsets@.len() == n0 ==> self.indexes@ == ix0,
                pos > t0 ==> data@[pos - 1] == 10,
                self.end_byte_offsets@.len() == n0 ==> pos == t0,
                occs.len() == self.end_byte_offsets@.len() - n0,
                forall|kk: int| 0 <= kk < occs.len() ==> record_fields(#[trigger] occs[kk], data@, t0, kk, n0),
                occurrences_added(ix0, self.indexes@, flatten(occs)),
                forall|k: int| 0 <= k < self.end_byte_offsets@.len() - n0 ==> record_ok(#[trigger] record_bytes(data@, t0, k)),
            decreases data@.len() - pos,
        {
            let d = self.end_byte_offsets.len() as u64;
            let k = next_newline(data, pos);
            let ghost na = self.end_byte_offsets@.len() - n0;
            if k == data.len() {
                proof {
                    lemma_ends_from_none(data@, pos as int);
                    assert(ends_from(data@, t0) =~= ends_after(self.end_byte_offsets@, n0));
                    if data@.last() == 10 {
                        assert(data@[data@.len() - 1] == 10);
                    }
                }
                return Err(SyncError::Parse { data_number: d, offset: pos as u64 });
            }
            let end = k + 1;
            let mut line: Vec<u8> = Vec::new();
            let mut i = pos;
            while i < end
                invariant
                    pos <= i <= end,
                    end <= data@.len(),
                    line@ == data@.subrange(pos as int, i as int),
                decreases end - i,
            {
                line.push(data[i]);
                i += 1;
                assert(line@ =~= data@.subrange(pos as int, i as int));
            }
            proof {
                lemma_ends_from_step(data@, pos as int, k as int);
                let all = ends_from(data@, t0);
                assert(all[na] == end);
                if na > 0 {
                    assert(all[na - 1] == self.end_byte_offsets@.last());
                    assert(self.end_byte_offsets@.last() == pos);
                }
                assert(record_bytes(data@, t0, na) == line@);
            }
            let ghost line_view = line@;
            let ghost start_of = if na == 0 {
                t0
            } else {
                ends_from(data@, t0)[na - 1]
            };
            assert(start_of == pos);
            match handle_json_object(line, d, pos as u64) {
                Err(RecordError::Parse(p)) => {
                    return Err(SyncError::Parse { data_number: d, offset: (pos + p) as u64 });
                },
                Err(RecordError::InvalidShape(p)) => {
                    return Err(SyncError::InvalidRecordShape { data_number: d, offset: (pos + p) as u64 });
                },
                Ok(occurrences) => {
                    let c = checksum(data, pos, end);
                    let ghost ends_before = self.end_byte_offsets@;
                    let ghost ix_before = self.indexes@;
                    proof {
                        lemma_ends_from_step(data@, pos as int, k as int);
                        if ends_before.len() > 0 {
                            assert(ends_before.last() == pos);
                        }
                    }
                    self.end_byte_offsets.push(end as u64);
                    self.checksums.push(c);
                    self.tail = end as u64;
                    let ghost ends_now = self.end_byte_offsets@;
                    proof {
                        assert forall|a: int, b: int| 0 <= a < b < ends_now.len() implies ends_now[a] < ends_now[b] by {
                            if b < ends_before.len() {
                                assert(ends_now[a] == ends_before[a]);
                                assert(ends_now[b] == ends_before[b]);
                            } else {
                                assert(ends_now[a] == ends_before[a]);
                                assert(ends_before[a] <= ends_before.last());
                            }
                        }
                        assert(record_start(ends_now, d as int) == pos);
                        assert forall|i: int| 0 <= i < occurrences@.len() implies ({
                            let e = (#[trigger] occurrences@[i]).record;
                            e.data_number == d && pos <= e.field_start_byte_offset && e.field_length > 0
                                && e.field_start_byte_offset + e.field_length <= end
                        }) by {
                            assert(all_in(occurrences@, 0, data@.subrange(pos as int, end as int), d, pos as u64));
                        }
                    }
                    let ghost occ = occurrences@;
                    let ghost ix_mid = self.indexes@;
                    self.add_occurrences(
                        occurrences,
                        Ghost(|e: IndexRecord| e.data_number == d && pos <= e.field_start_byte_offset && e.field_length > 0
                            && e.field_start_byte_offset + e.field_length <= end),
                    );
                    pos = end;
                    proof {
                        assert(ix_mid == ix_before);
                        lemma_occurrences_added_trans(ix0, ix_before, self.indexes@, flatten(occs), occ);
                        let grown = occs.push(occ);
                        assert(grown.drop_last() =~= occs);
                        assert(flatten(grown) == flatten(occs) + occ);
                        lemma_record_fields(occ, data@, t0, na, n0, line_view, start_of);
                        assert forall|kk: int| 0 <= kk < grown.len() implies record_fields(#[trigger] grown[kk], data@, t0, kk, n0) by {
                            if kk < occs.len() {
                                assert(grown[kk] == occs[kk]);
                            }
                        }
                        occs = grown;
                        let now = self.indexes@;
                        assert(self.end_byte_offsets@.subrange(0, n0) =~= ends_before.subrange(0, n0));
                        assert(self.checksums@.subrange(0, n0) =~= self.checksums@.subrange(0, ends_before.len() as int).subrange(0, n0));
                        assert(ends_after(self.end_byte_offsets@, n0) =~= ends_after(ends_before, n0).push(end as int));
                        assert(ends_from(data@, t0) =~= ends_after(self.end_byte_offsets@, n0) + ends_from(data@, pos as int));
                        assert forall|kk: int| 0 <= kk < self.end_byte_offsets@.len() - n0 implies record_ok(
                            #[trigger] record_bytes(data@, t0, kk),
                        ) by {
                            if kk < na {
                            } else {
                                assert(kk == na);
                            }
                        }
                        assert forall|i: int|
                            n0 <= i < ends_now.len() implies #[trigger] self.checksums@[i]
                                == xxh3_64_of(data@.subrange(record_start(ends_now, i), ends_now[i] as int)) by {
                            if i < ends_before.len() {
                                assert(record_start(ends_now, i) == record_start(ends_before, i));
                            }
                        }
                        assert forall|i: int, j: int|
                            0 <= i < now.len() && 0 <= j < now[i].index_records@.len() && is_new_entry(ix0, i, j)
                                implies (n0 <= (#[trigger] now[i].index_records@[j].1).data_number
                                && within_record(now[i].index_records@[j].1, ends_now)) by {
                            let e = now[i].index_records@[j].1;
                            if is_new_entry(ix_before, i, j) {
                            } else {
                                assert(now[i].index_records@[j] == now[i].index_records@.subrange(0, ix_before[i].index_records@.len() as int)[j]);
                                assert(ix_before[i].index_records@[j].1 == e);
                                assert(within_record(e, ends_before));
                                assert(record_start(ends_now, e.data_number as int) == record_start(ends_before, e.data_number as int));
                            }
                        }
                        assert forall|i: int| 0 <= i < ix0.len() implies {
                            &&& (#[trigger] now[i]).field_name@ == ix0[i].field_name@
                            &&& ix0[i].index_records@.len() <= now[i].index_records@.len()
                            &&& now[i].index_records@.subrange(0, ix0[i].index_records@.len() as int)
                                == ix0[i].index_records@
                            &&& forall|t: FieldType| ix0[i].field_type.has(t) ==> #[trigger] now[i].field_type.has(t)
                            &&& now[i].index_records@.len() == ix0[i].index_records@.len() ==> now[i] == ix0[i]
                        } by {
                            assert(ix_before[i].field_name@ == ix0[i].field_name@);
                            assert(now[i].index_records@.subrange(0, ix0[i].index_records@.len() as int)
                                =~= now[i].index_records@.subrange(0, ix_before[i].index_records@.len() as int).subrange(0, ix0[i].index_records@.len() as int));
                        }
                    }
                },
            }
        }
        proof {
            lemma_ends_from_none(data@, pos as int);
            assert(ends_from(data@, t0) =~= ends_after(self.end_byte_offsets@, n0));
            if pos > t0 {
                assert(data@.last() == 10);
            }
            assert(occs.len() == ends_after(self.end_byte_offsets@, n0).len());
        }
        Ok(())
    }

    /// Adds each occurrence, in order, to the index of its field name.
    pub fn add_occurrences(&mut self, occurrences: Vec<FieldOccurrence>, p: Ghost<spec_fn(IndexRecord) -> bool>)
        requires
            old(self).wf(),
            forall|i: int| 0 <= i < occurrences@.len() ==> p@((#[trigger] occurrences@[i]).record),
        ensures
            final(self).wf(),
            final(self).ends_spec() == old(self).ends_spec(),
            final(self).checksums_spec() == old(self).checksums_spec(),
            final(self).tail_spec() == old(self).tail_spec(),
            indexes_grow(old(self).indexes_spec(), final(self).indexes_spec()),
            new_entries_meet(old(self).indexes_spec(), final(self).indexes_spec(), p@),
            occurrences@.len() == 0 ==> final(self).indexes_spec() == old(self).indexes_spec(),
            occurrences_added(old(self).indexes_spec(), final(self).indexes_spec(), occurrences@),
    {
        let ghost ix0 = self.indexes@;
        let ghost all = occurrences@;
        let mut rest = occurrences;
        let ghost mut done: int = 0;
        proof {
            lemma_indexes_grow_refl(ix0);
            assert(all.take(0) =~= Seq::<FieldOccurrence>::empty());
            assert(names_of(ix0) == names_after(names_of(ix0), all.take(0)));
            assert forall|i: int| 0 <= i < ix0.len() implies (#[trigger] ix0[i]).index_records@ == entries_before(
                ix0,
                i,
            ) + entries_for(all.take(0), ix0[i].field_name@) by {
                assert(ix0[i].index_records@ =~= ix0[i].index_records@ + Seq::<(IndexKey, IndexRecord)>::empty());
            }
        }
        while rest.len() > 0
            invariant
                self.wf(),
                self.ends_spec() == old(self).ends_spec(),
                self.checksums_spec() == old(self).checksums_spec(),
                self.tail_spec() == old(self).tail_spec(),
                ix0 == old(self).indexes_spec(),
                0 <= done <= all.len(),
                rest@ == all.skip(done),
                forall|i: int| 0 <= i < all.len() ==> p@((#[trigger] all[i]).record),
                indexes_grow(ix0, self.indexes@),
                new_entries_meet(ix0, self.indexes@, p@),
                done == 0 ==> self.indexes@ == ix0,
                occurrences_added(ix0, self.indexes@, all.take(done)),
            decreases rest@.len(),
        {
            let occ = rest.remove(0);
            assert(occ == all[done]);
            let ghost prefix = all.take(done);
            let ghost name = occ.field_name@;
            let ghost existed = has_name(self.indexes@, name);
            let ghost before = self.indexes@;
            let pos = self.find_index(&occ.field_name, &occ.key);
            let ghost mid = self.indexes@;
            let mut index = self.indexes.remove(pos);
            index.index_records.push((occ.key, occ.record));
            self.indexes.insert(pos, index);
            proof {
                let now = self.indexes@;
                let grown = all.take(done + 1);
                assert(grown.drop_last() =~= prefix);
                assert(grown.last() == occ);
                assert(names_of(before).contains(name) == existed) by {
                    if existed {
                        let w = choose|w: int| 0 <= w < before.len() && (#[trigger] before[w]).field_name@ == name;
                        assert(names_of(before)[w] == name);
                    }
                    if names_of(before).contains(name) {
                        let w = choose|w: int| 0 <= w < names_of(before).len() && names_of(before)[w] == name;
                        assert(before[w].field_name@ == name);
                    }
                }
                if !existed {
                    lemma_name_absent(names_of(ix0), prefix, name);
                }
                assert(names_of(now) =~= names_after(names_of(ix0), grown)) by {
                    if existed {
                        assert forall|i: int| 0 <= i < now.len() implies names_of(now)[i] == names_of(before)[i] by {
                            if i != pos {
                                assert(now[i] == mid[i]);
                            }
                        }
                    } else {
                        assert forall|i: int| 0 <= i < now.len() implies names_of(now)[i] == names_of(before).push(
                            name,
                        )[i] by {
                            if i != pos {
                                assert(now[i] == mid[i]);
                            }
                        }
                    }
                }
                assert forall|i: int| 0 <= i < now.len() implies (#[trigger] now[i]).index_records@ == entries_before(
                    ix0,
                    i,
                ) + entries_for(grown, now[i].field_name@) by {
                    if i == pos {
                        assert(now[i].index_records@ =~= mid[i].index_records@.push((occ.key, occ.record)));
                        if existed {
                            assert(mid[i].index_records@ == before[i].index_records@);
                        } else {
                            assert(entries_before(ix0, i) =~= Seq::<(IndexKey, IndexRecord)>::empty());
                        }
                        assert(entries_before(ix0, i) + entries_for(grown, name) =~= (entries_before(ix0, i)
                            + entries_for(prefix, name)).push((occ.key, occ.record)));
                    } else {
                        assert(now[i] == mid[i]);
                        assert(mid[i] == before[i]);
                        assert(now[i].field_name@ != name);
                    }
                }
                assert forall|i: int, t: FieldType| 0 <= i < now.len() implies #[trigger] now[i].field_type.has(t) == ((i
                    < ix0.len() && ix0[i].field_type.has(t)) || kind_seen(grown, now[i].field_name@, t)) by {
                    if i == pos {
                        assert(now[i].field_type == mid[i].field_type);
                        if existed {
                            assert(before[i].field_type.has(t) == ((i < ix0.len() && ix0[i].field_type.has(t))
                                || kind_seen(prefix, name, t)));
                        } else {
                            assert(!kind_seen(prefix, name, t));
                        }
                    } else {
                        assert(now[i] == mid[i]);
                        assert(mid[i] == before[i]);
                        assert(now[i].field_name@ != name);
                    }
                }
                done = done + 1;
                assert(rest@ =~= all.skip(done));
                assert(now[pos as int].index_records@.subrange(0, mid[pos as int].index_records@.len() as int)
                    =~= mid[pos as int].index_records@);
                assert forall|i: int, j: int|
                    0 <= i < now.len() && 0 <= j < now[i].index_records@.len() && is_new_entry(ix0, i, j)
                        implies p@(#[trigger] now[i].index_records@[j].1) by {
                    if i == pos {
                        if j == now[i].index_records@.len() - 1 {
                        } else {
                            assert(now[i].index_records@[j] == mid[i].index_records@[j]);
                            if i < before.len() {
                                assert(mid[i].index_records@ == before[i].index_records@);
                            }
                        }
                    } else {
                        assert(now[i] == mid[i]);
                        if i < before.len() {
                            assert(mid[i] == before[i]);
                        }
                    }
                }
                assert forall|i: int| 0 <= i < ix0.len() implies {
                    &&& (#[trigger] now[i]).field_name@ == ix0[i].field_name@
                    &&& ix0[i].index_records@.len() <= now[i].index_records@.len()
                    &&& now[i].index_records@.subrange(0, ix0[i].index_records@.len() as int)
                        == ix0[i].index_records@
                    &&& forall|t: FieldType| ix0[i].field_type.has(t) ==> #[trigger] now[i].field_type.has(t)
                    &&& now[i].index_records@.len() == ix0[i].index_records@.len() ==> now[i] == ix0[i]
                } by {
                    assert(i < before.len());
                    if i == pos {
                        assert(now[i].index_records@.subrange(0, ix0[i].index_records@.len() as int)
                            =~= before[i].index_records@.subrange(0, ix0[i].index_records@.len() as int));
                    } else {
                        assert(now[i] == mid[i]);
                        assert(mid[i] == before[i]);
                    }
                }
                assert forall|i: int, j: int|
                    0 <= i < j < now.len() implies (#[trigger] now[i]).field_name@ != (#[trigger] now[j]).field_name@ by {
                    if i != pos {
                        assert(now[i] == mid[i]);
                    }
                    if j != pos {
                        assert(now[j] == mid[j]);
                    }
                }
            }
        }
        proof {
            assert(all.take(done) =~= all);
        }
    }

    /// `find_index_of_type` with the kind of `value`.
    pub fn find_index(&mut self, name: &String, value: &IndexKey) -> (r: usize)
        requires
            old(self).wf(),
        ensures
            final(self).wf(),
            r < final(self).indexes_spec().len(),
            final(self).indexes_spec()[r as int].field_name@ == name@,
            final(self).ends_spec() == old(self).ends_spec(),
            final(self).checksums_spec() == old(self).checksums_spec(),
            final(self).tail_spec() == old(self).tail_spec(),
            has_name(old(self).indexes_spec(), name@) ==> {
                &&& r < old(self).indexes_spec().len()
                &&& final(self).indexes_spec().len() == old(self).indexes_spec().len()
                &&& final(self).indexes_spec()[r as int].index_records
                    == old(self).indexes_spec()[r as int].index_records
                &&& forall|t: FieldType|
                    #[trigger] final(self).indexes_spec()[r as int].field_type.has(t)
                        == (old(self).indexes_spec()[r as int].field_type.has(t) || t == kind_of(*value))
                &&& final(self).indexes_spec()[r as int].field_type.bits()
                    == old(self).indexes_spec()[r as int].field_type.bits() | bit_mask(kind_of(*value))
            },
            !has_name(old(self).indexes_spec(), name@) ==> {
                &&& r == old(self).indexes_spec().len()
                &&& final(self).indexes_spec().len() == old(self).indexes_spec().len() + 1
                &&& final(self).indexes_spec()[r as int].index_records@.len() == 0
                &&& forall|t: FieldType|
                    #[trigger] final(self).indexes_spec()[r as int].field_type.has(t)
                        == (t == kind_of(*value))
                &&& final(self).indexes_spec()[r as int].field_type.bits() == bit_mask(kind_of(*value))
            },
            forall|i: int|
                0 <= i < old(self).indexes_spec().len() && i != r ==> final(self).indexes_spec()[i]
                    == old(self).indexes_spec()[i],
    {
        let t = value.field_type();
        self.find_index_of_type(name, t)
    }
}

} // verus!
