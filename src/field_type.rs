//! JSON value kinds and the bitset recording which kinds a field has shown.
use vstd::prelude::*;

verus! {

/// The kind of a JSON value observed for a field.
#[derive(PartialEq, Eq, Structural, Clone, Copy, Debug)]
pub enum FieldType {
    String,
    Number,
    Object,
    Array,
    Boolean,
    Null,
}

/// Bit position assigned to each kind.
pub open spec fn bit_index(t: FieldType) -> u64 {
    match t {
        FieldType::String => 0,
        FieldType::Number => 1,
        FieldType::Object => 2,
        FieldType::Array => 3,
        FieldType::Boolean => 4,
        FieldType::Null => 5,
    }
}

pub open spec fn bit_mask(t: FieldType) -> u64 {
    1u64 << bit_index(t)
}

fn mask_of(t: FieldType) -> (r: u64)
    ensures
        r == bit_mask(t),
{
    match t {
        FieldType::String => 1u64 << 0u64,
        FieldType::Number => 1u64 << 1u64,
        FieldType::Object => 1u64 << 2u64,
        FieldType::Array => 1u64 << 3u64,
        FieldType::Boolean => 1u64 << 4u64,
        FieldType::Null => 1u64 << 5u64,
    }
}

proof fn lemma_mask_distinct(t: FieldType, u: FieldType)
    ensures
        (bit_mask(t) & bit_mask(u) != 0) == (t == u),
{
    let i = bit_index(t);
    let j = bit_index(u);
    assert(((1u64 << i) & (1u64 << j) != 0) == (i == j)) by (bit_vector)
        requires
            i < 64,
            j < 64,
    ;
}

proof fn lemma_or_and(a: u64, b: u64, c: u64)
    ensures
        ((a | b) & c != 0) == ((a & c != 0) || (b & c != 0)),
{
    assert(((a | b) & c != 0) == ((a & c != 0) || (b & c != 0))) by (bit_vector);
}

/// Set of observed kinds, one bit per `FieldType`, kept in 64 bits so that
/// other kinds can be added to the format later.
#[derive(Clone, Copy, Debug)]
pub struct FieldFlags {
    flags: u64,
}

impl FieldFlags {
    /// The raw bits.
    pub closed spec fn bits(self) -> u64 {
        self.flags
    }

    /// Whether kind `t` has been recorded.
    pub open spec fn has(self, t: FieldType) -> bool {
        self.bits() & bit_mask(t) != 0
    }

    /// The empty set.
    pub fn new() -> (r: Self)
        ensures
            r.bits() == 0,
            forall|t: FieldType| !r.has(t),
    {
        let r = FieldFlags { flags: 0 };
        assert forall|t: FieldType| !r.has(t) by {
            let m = bit_mask(t);
            assert(0u64 & m == 0) by (bit_vector);
        }
        r
    }

    /// The raw bits, as stored in the binary layout.
    pub fn to_bits(&self) -> (r: u64)
        ensures
            r == self.bits(),
    {
        self.flags
    }

    /// Adds kind `field` to the set.
    pub fn set(&mut self, field: FieldType)
        ensures
            final(self).bits() == old(self).bits() | bit_mask(field),
            forall|t: FieldType| #[trigger] final(self).has(t) == (old(self).has(t) || t == field),
    {
        let m = mask_of(field);
        self.flags = self.flags | m;
        proof {
            assert forall|t: FieldType| #[trigger] self.has(t) == (old(self).has(t) || t == field) by {
                lemma_or_and(old(self).flags, m, bit_mask(t));
                lemma_mask_distinct(field, t);
            }
        }
    }

    /// Whether kind `field` has been recorded.
    pub fn contains(&self, field: FieldType) -> (r: bool)
        ensures
            r == self.has(field),
    {
        (self.flags & mask_of(field)) != 0
    }

    /// Renders the set as a TypeScript union type, or `unknown` when empty.
    pub fn typescript_type(&self) -> (r: String)
        ensures
            r@ == typescript_of(*self),
    {
        let mut r = String::new();
        let ghost mut parts: Seq<Seq<char>> = seq![];
        let mut any = false;
        if self.contains(FieldType::String) {
            push_part(&mut r, Ghost(parts), any, "string");
            proof { parts = parts.push("string"@); }
            any = true;
        }
        if self.contains(FieldType::Number) {
            push_part(&mut r, Ghost(parts), any, "number");
            proof { parts = parts.push("number"@); }
            any = true;
        }
        if self.contains(FieldType::Object) {
            push_part(&mut r, Ghost(parts), any, "Record");
            proof { parts = parts.push("Record"@); }
            any = true;
        }
        if self.contains(FieldType::Array) {
            push_part(&mut r, Ghost(parts), any, "any[]");
            proof { parts = parts.push("any[]"@); }
            any = true;
        }
        if self.contains(FieldType::Boolean) {
            push_part(&mut r, Ghost(parts), any, "boolean");
            proof { parts = parts.push("boolean"@); }
            any = true;
        }
        if self.contains(FieldType::Null) {
            push_part(&mut r, Ghost(parts), any, "null");
            proof { parts = parts.push("null"@); }
            any = true;
        }
        assert(parts =~= type_names(*self));
        if !any {
            r.append("unknown");
        }
        r
    }
}

/// One part if `present`, else none.
pub open spec fn part_if(present: bool, name: Seq<char>) -> Seq<Seq<char>> {
    if present {
        seq![name]
    } else {
        seq![]
    }
}

/// The TypeScript names of the recorded kinds, in bit order.
pub open spec fn type_names(f: FieldFlags) -> Seq<Seq<char>> {
    part_if(f.has(FieldType::String), "string"@) + part_if(f.has(FieldType::Number), "number"@)
        + part_if(f.has(FieldType::Object), "Record"@) + part_if(f.has(FieldType::Array), "any[]"@)
        + part_if(f.has(FieldType::Boolean), "boolean"@) + part_if(f.has(FieldType::Null), "null"@)
}

/// The parts joined by `" | "`.
pub open spec fn join_union(parts: Seq<Seq<char>>) -> Seq<char>
    decreases parts.len(),
{
    if parts.len() == 0 {
        seq![]
    } else if parts.len() == 1 {
        parts[0]
    } else {
        join_union(parts.drop_last()) + " | "@ + parts.last()
    }
}

/// The union type of a flag set; `unknown` when no kind was recorded.
pub open spec fn typescript_of(f: FieldFlags) -> Seq<char> {
    if type_names(f).len() == 0 {
        "unknown"@
    } else {
        join_union(type_names(f))
    }
}

/// A union of more parts starts with the union of the first ones.
proof fn lemma_join_prefix(parts: Seq<Seq<char>>, n: int)
    requires
        1 <= n <= parts.len(),
    ensures
        join_union(parts.take(n)).len() <= join_union(parts).len(),
        join_union(parts.take(n)) == join_union(parts).take(join_union(parts.take(n)).len() as int),
    decreases parts.len(),
{
    if n < parts.len() {
        assert(parts.drop_last().take(n) =~= parts.take(n));
        lemma_join_prefix(parts.drop_last(), n);
        let a = join_union(parts.take(n));
        let b = join_union(parts.drop_last());
        assert(join_union(parts) == b + " | "@ + parts.last());
        assert((b + " | "@ + parts.last()).take(a.len() as int) =~= b.take(a.len() as int));
    } else {
        assert(parts.take(n) =~= parts);
        assert(join_union(parts).take(join_union(parts).len() as int) =~= join_union(parts));
    }
}

/// A field seen both as a string and as a number renders as a union that
/// starts with `string | number`.
pub proof fn law_string_and_number_union(f: FieldFlags)
    requires
        f.has(FieldType::String),
        f.has(FieldType::Number),
    ensures
        typescript_of(f).len() >= "string | number"@.len(),
        typescript_of(f).take("string | number"@.len() as int) == "string | number"@,
{
    let parts = type_names(f);
    assert(parts.take(2) =~= seq!["string"@, "number"@]);
    assert(seq!["string"@, "number"@].drop_last() =~= seq!["string"@]);
    assert(join_union(seq!["string"@]) == "string"@);
    assert(join_union(parts.take(2)) == "string"@ + " | "@ + "number"@);
    reveal_strlit("string");
    reveal_strlit("number");
    reveal_strlit(" | ");
    reveal_strlit("string | number");
    assert("string"@ + " | "@ + "number"@ =~= "string | number"@);
    lemma_join_prefix(parts, 2);
    assert(typescript_of(f) == join_union(parts));
}

fn push_part(r: &mut String, parts: Ghost<Seq<Seq<char>>>, any: bool, part: &str)
    requires
        any == (parts@.len() > 0),
        old(r)@ == join_union(parts@),
    ensures
        final(r)@ == join_union(parts@.push(part@)),
{
    let ghost p = parts@.push(part@);
    assert(p.drop_last() =~= parts@);
    if any {
        r.append(" | ");
    }
    r.append(part);
}

} // verus!
