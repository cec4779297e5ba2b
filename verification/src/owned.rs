//! The decoded value tree: payloads, homogeneous lists, and compounds,
//! together with the spec-level model of each.
//!
//! A compound is a name-to-payload mapping; its model is a `Map` over the
//! name's bytes.  A list is keyed by its element tag and holds a sequence
//! of homogeneously-typed elements; a list whose element tag was `End` is
//! the distinguished untyped empty list.  Float and double payloads hold
//! the raw bits of their wire representation.

use vstd::prelude::*;

use crate::DecodeError;
use crate::Edition;
use crate::cursor::cursor_data;
use crate::prim::deserialize_i8;
use crate::prim::deserialize_i32;
use crate::prim::deserialize_i64;
use crate::tag::Tag;

verus! {

/// The model of a payload.
pub ghost enum PayloadV {
    Byte(i8),
    Short(i16),
    Int(i32),
    Long(i64),
    Float(u32),
    Double(u64),
    ByteArray(Seq<i8>),
    String(Seq<u8>),
    List(ListV),
    Compound(Map<Seq<u8>, PayloadV>),
    IntArray(Seq<i32>),
    LongArray(Seq<i64>),
}

/// The model of a list: untyped empty, or one sequence per element kind.
pub ghost enum ListV {
    Empty,
    Byte(Seq<i8>),
    Short(Seq<i16>),
    Int(Seq<i32>),
    Long(Seq<i64>),
    Float(Seq<u32>),
    Double(Seq<u64>),
    ByteArray(Seq<Seq<i8>>),
    String(Seq<Seq<u8>>),
    List(Seq<ListV>),
    Compound(Seq<Map<Seq<u8>, PayloadV>>),
    IntArray(Seq<Seq<i32>>),
    LongArray(Seq<Seq<i64>>),
}

/// An owned payload: one variant per tag kind other than `End`.
/// `Float` and `Double` hold raw wire bits.
#[derive(Debug, PartialEq)]
pub enum OwnedPayload {
    Byte(i8),
    Short(i16),
    Int(i32),
    Long(i64),
    Float(u32),
    Double(u64),
    ByteArray(Vec<i8>),
    String(Vec<u8>),
    List(OwnedList),
    Compound(OwnedCompound),
    IntArray(Vec<i32>),
    LongArray(Vec<i64>),
}

/// An owned homogeneous list.
#[derive(Debug, PartialEq)]
pub enum OwnedList {
    /// The untyped empty list: its element-tag byte was `End`.
    Empty,
    Byte(Vec<i8>),
    Short(Vec<i16>),
    Int(Vec<i32>),
    Long(Vec<i64>),
    Float(Vec<u32>),
    Double(Vec<u64>),
    ByteArray(Vec<Vec<i8>>),
    String(Vec<Vec<u8>>),
    List(Vec<OwnedList>),
    Compound(Vec<OwnedCompound>),
    IntArray(Vec<Vec<i32>>),
    LongArray(Vec<Vec<i64>>),
}

/// An owned name-to-payload mapping with unique names.
#[derive(Debug, PartialEq)]
pub struct OwnedCompound {
    entries: Vec<(Vec<u8>, OwnedPayload)>,
}

/// The root decode result: a name and a payload.
pub type OwnedNamedTag = (Vec<u8>, OwnedPayload);

/// The mapping described by a sequence of entries; a later entry under the
/// same name wins.
pub open spec fn map_of_entries(s: Seq<(Vec<u8>, OwnedPayload)>) -> Map<Seq<u8>, PayloadV>
    decreases s,
{
    if s.len() == 0 {
        Map::empty()
    } else {
        map_of_entries(s.drop_last()).insert(s.last().0@, s.last().1@)
    }
}

/// The models of a sequence of lists.
pub open spec fn views_of_lists(s: Seq<OwnedList>) -> Seq<ListV>
    decreases s,
{
    if s.len() == 0 {
        Seq::empty()
    } else {
        views_of_lists(s.drop_last()).push(s.last()@)
    }
}

/// The models of a sequence of compounds.
pub open spec fn views_of_compounds(s: Seq<OwnedCompound>) -> Seq<Map<Seq<u8>, PayloadV>>
    decreases s,
{
    if s.len() == 0 {
        Seq::empty()
    } else {
        views_of_compounds(s.drop_last()).push(s.last()@)
    }
}

impl View for OwnedPayload {
    type V = PayloadV;

    closed spec fn view(&self) -> PayloadV
        decreases self,
    {
        match self {
            OwnedPayload::Byte(v) => PayloadV::Byte(*v),
            OwnedPayload::Short(v) => PayloadV::Short(*v),
            OwnedPayload::Int(v) => PayloadV::Int(*v),
            OwnedPayload::Long(v) => PayloadV::Long(*v),
            OwnedPayload::Float(v) => PayloadV::Float(*v),
            OwnedPayload::Double(v) => PayloadV::Double(*v),
            OwnedPayload::ByteArray(v) => PayloadV::ByteArray(v@),
            OwnedPayload::String(v) => PayloadV::String(v@),
            OwnedPayload::List(l) => PayloadV::List(l@),
            OwnedPayload::Compound(c) => PayloadV::Compound(c@),
            OwnedPayload::IntArray(v) => PayloadV::IntArray(v@),
            OwnedPayload::LongArray(v) => PayloadV::LongArray(v@),
        }
    }
}

impl View for OwnedList {
    type V = ListV;

    closed spec fn view(&self) -> ListV
        decreases self,
    {
        match self {
            OwnedList::Empty => ListV::Empty,
            OwnedList::Byte(v) => ListV::Byte(v@),
            OwnedList::Short(v) => ListV::Short(v@),
            OwnedList::Int(v) => ListV::Int(v@),
            OwnedList::Long(v) => ListV::Long(v@),
            OwnedList::Float(v) => ListV::Float(v@),
            OwnedList::Double(v) => ListV::Double(v@),
            OwnedList::ByteArray(v) => ListV::ByteArray(v@.map_values(|x: Vec<i8>| x@)),
            OwnedList::String(v) => ListV::String(v@.map_values(|x: Vec<u8>| x@)),
            OwnedList::List(v) => ListV::List(views_of_lists(v@)),
            OwnedList::Compound(v) => ListV::Compound(views_of_compounds(v@)),
            OwnedList::IntArray(v) => ListV::IntArray(v@.map_values(|x: Vec<i32>| x@)),
            OwnedList::LongArray(v) => ListV::LongArray(v@.map_values(|x: Vec<i64>| x@)),
        }
    }
}

impl OwnedList {
    /// Whether this is the untyped empty list, whose element-tag byte was
    /// `End`: a state distinct from a typed list with zero elements.
    pub fn is_untyped_empty(&self) -> (r: bool)
        ensures
            r == (self@ is Empty),
    {
        match self {
            OwnedList::Empty => true,
            _ => false,
        }
    }
}

impl View for OwnedCompound {
    type V = Map<Seq<u8>, PayloadV>;

    closed spec fn view(&self) -> Map<Seq<u8>, PayloadV>
        decreases self,
    {
        map_of_entries(self.entries@)
    }
}

/// No two entries share a name.
pub open spec fn unique_names(s: Seq<(Vec<u8>, OwnedPayload)>) -> bool {
    forall|i: int, j: int| 0 <= i < j < s.len() ==> s[i].0@ != s[j].0@
}

impl OwnedCompound {
    /// The entries are a well-formed mapping: names are unique.
    pub closed spec fn wf(&self) -> bool {
        unique_names(self.entries@)
    }

    /// The number of entries.
    pub closed spec fn spec_len(&self) -> nat {
        self.entries@.len()
    }

    /// A new, empty compound.
    pub fn new() -> (r: OwnedCompound)
        ensures
            r@ == Map::<Seq<u8>, PayloadV>::empty(),
            r.wf(),
            r.spec_len() == 0,
    {
        OwnedCompound { entries: Vec::new() }
    }

    /// The number of entries, which with unique names is the size of the
    /// mapping.
    pub fn len(&self) -> (r: usize)
        ensures
            r == self.spec_len(),
    {
        self.entries.len()
    }

    /// Whether the mapping is empty.
    pub fn is_empty(&self) -> (r: bool)
        ensures
            r == (self@ == Map::<Seq<u8>, PayloadV>::empty()),
    {
        proof {
            let s = self.entries@;
            if s.len() != 0 {
                assert(map_of_entries(s) == map_of_entries(s.drop_last()).insert(
                    s.last().0@,
                    s.last().1@,
                ));
                assert(map_of_entries(s).contains_key(s.last().0@));
                assert(!Map::<Seq<u8>, PayloadV>::empty().contains_key(s.last().0@));
            } else {
                assert(self@ =~= Map::<Seq<u8>, PayloadV>::empty());
            }
        }
        self.entries.len() == 0
    }

    /// Insert a payload under a name; a prior entry under the same name is
    /// replaced.
    pub fn insert(&mut self, name: Vec<u8>, value: OwnedPayload)
        requires
            old(self).wf(),
        ensures
            final(self).wf(),
            final(self)@ == old(self)@.insert(name@, value@),
    {
        let ghost s0 = self.entries@;
        let n = self.entries.len();
        let mut i: usize = 0;
        while i < n
            invariant
                s0 == self.entries@,
                s0 == old(self).entries@,
                n == s0.len(),
                i <= n,
                unique_names(s0),
                forall|j: int| 0 <= j < i ==> s0[j].0@ != name@,
            decreases n - i,
        {
            if bytes_eq(&self.entries[i].0, name.as_slice()) {
                let _ = self.entries.remove(i);
                self.entries.push((name, value));
                proof {
                    lemma_remove_keeps_unique(s0, i as int);
                    assert forall|j: int| 0 <= j < s0.remove(i as int).len() implies s0.remove(
                        i as int,
                    )[j].0@ != s0[i as int].0@ by {
                        if j < i {
                            assert(s0.remove(i as int)[j] == s0[j]);
                        } else {
                            assert(s0.remove(i as int)[j] == s0[j + 1]);
                        }
                    }
                    lemma_push_unique(s0.remove(i as int), self.entries@.last());
                    lemma_map_of_entries_remove(s0, i as int);
                    assert(self.entries@.drop_last() =~= s0.remove(i as int));
                    assert(map_of_entries(self.entries@) == map_of_entries(
                        s0.remove(i as int),
                    ).insert(name@, value@));
                    assert(map_of_entries(s0).remove(name@).insert(name@, value@)
                        =~= map_of_entries(s0).insert(name@, value@));
                }
                return ;
            }
            i = i + 1;
        }
        self.entries.push((name, value));
        proof {
            lemma_push_unique(s0, self.entries@.last());
            assert(self.entries@.drop_last() =~= s0);
            assert(map_of_entries(self.entries@) =~= map_of_entries(s0).insert(name@, value@));
        }
    }

    /// Look a name up in the mapping.
    pub fn get(&self, name: &[u8]) -> (r: Option<&OwnedPayload>)
        requires
            self.wf(),
        ensures
            match r {
                Some(p) => self@.contains_key(name@) && p@ == self@[name@],
                None => !self@.contains_key(name@),
            },
    {
        let n = self.entries.len();
        let mut i: usize = 0;
        while i < n
            invariant
                n == self.entries@.len(),
                i <= n,
                self.wf(),
                forall|j: int| 0 <= j < i ==> self.entries@[j].0@ != name@,
            decreases n - i,
        {
            if bytes_eq(&self.entries[i].0, name) {
                proof {
                    lemma_map_of_entries_has(self.entries@, i as int);
                }
                return Some(&self.entries[i].1);
            }
            i = i + 1;
        }
        proof {
            lemma_map_of_entries_misses(self.entries@, name@);
        }
        None
    }
}

/// Compare a byte vector with a byte slice.
fn bytes_eq(a: &Vec<u8>, b: &[u8]) -> (r: bool)
    ensures
        r == (a@ == b@),
{
    if a.len() != b.len() {
        proof {
            assert(a@ != b@);
        }
        return false;
    }
    let n = a.len();
    let mut i: usize = 0;
    while i < n
        invariant
            n == a@.len() == b@.len(),
            i <= n,
            forall|j: int| 0 <= j < i ==> a@[j] == b@[j],
        decreases n - i,
    {
        if a[i] != b[i] {
            return false;
        }
        i = i + 1;
    }
    proof {
        assert(a@ =~= b@);
    }
    true
}

/// An entry's name is in the mapping, bound to that entry's payload, when
/// names are unique.
pub proof fn lemma_map_of_entries_has(s: Seq<(Vec<u8>, OwnedPayload)>, i: int)
    requires
        unique_names(s),
        0 <= i < s.len(),
    ensures
        map_of_entries(s).contains_key(s[i].0@),
        map_of_entries(s)[s[i].0@] == s[i].1@,
    decreases s.len(),
{
    assert(map_of_entries(s) == map_of_entries(s.drop_last()).insert(s.last().0@, s.last().1@));
    if i == s.len() - 1 {
        assert(s[i] == s.last());
    } else {
        assert(forall|j: int| 0 <= j < s.drop_last().len() ==> s.drop_last()[j] == s[j]);
        assert(unique_names(s.drop_last()));
        lemma_map_of_entries_has(s.drop_last(), i);
        assert(s[i].0@ != s.last().0@);
    }
}

/// A name no entry carries is not in the mapping.
pub proof fn lemma_map_of_entries_misses(s: Seq<(Vec<u8>, OwnedPayload)>, k: Seq<u8>)
    requires
        forall|i: int| 0 <= i < s.len() ==> s[i].0@ != k,
    ensures
        !map_of_entries(s).contains_key(k),
    decreases s.len(),
{
    if s.len() > 0 {
        assert(map_of_entries(s) == map_of_entries(s.drop_last()).insert(
            s.last().0@,
            s.last().1@,
        ));
        assert(forall|j: int| 0 <= j < s.drop_last().len() ==> s.drop_last()[j] == s[j]);
        lemma_map_of_entries_misses(s.drop_last(), k);
        assert(s[s.len() - 1].0@ != k);
    }
}

/// Removing an entry keeps the remaining names unique.
proof fn lemma_remove_keeps_unique(s: Seq<(Vec<u8>, OwnedPayload)>, i: int)
    requires
        unique_names(s),
        0 <= i < s.len(),
    ensures
        unique_names(s.remove(i)),
{
    let t = s.remove(i);
    assert forall|p: int, q: int| 0 <= p < q < t.len() implies t[p].0@ != t[q].0@ by {
        let p0 = if p < i {
            p
        } else {
            p + 1
        };
        let q0 = if q < i {
            q
        } else {
            q + 1
        };
        assert(t[p] == s[p0]);
        assert(t[q] == s[q0]);
    }
}

/// Appending an entry under a fresh name keeps names unique.
proof fn lemma_push_unique(s: Seq<(Vec<u8>, OwnedPayload)>, e: (Vec<u8>, OwnedPayload))
    requires
        unique_names(s),
        forall|j: int| 0 <= j < s.len() ==> s[j].0@ != e.0@,
    ensures
        unique_names(s.push(e)),
{
    let t = s.push(e);
    assert forall|p: int, q: int| 0 <= p < q < t.len() implies t[p].0@ != t[q].0@ by {
        assert(t[p] == s[p]);
        if q < s.len() {
            assert(t[q] == s[q]);
        } else {
            assert(t[q] == e);
        }
    }
}

/// Removing the one entry that carries a name takes that name out of the
/// mapping.
proof fn lemma_map_of_entries_remove(s: Seq<(Vec<u8>, OwnedPayload)>, i: int)
    requires
        unique_names(s),
        0 <= i < s.len(),
    ensures
        map_of_entries(s.remove(i)) == map_of_entries(s).remove(s[i].0@),
    decreases s.len(),
{
    let k = s[i].0@;
    if i == s.len() - 1 {
        assert(s.remove(i) =~= s.drop_last());
        lemma_map_of_entries_misses_of_unique(s.drop_last(), s, k);
        assert(map_of_entries(s) == map_of_entries(s.drop_last()).insert(k, s.last().1@));
        assert(map_of_entries(s.drop_last()).insert(k, s.last().1@).remove(k) =~= map_of_entries(
            s.drop_last(),
        ).remove(k));
        assert(map_of_entries(s.drop_last()).remove(k) =~= map_of_entries(s.drop_last()));
    } else {
        lemma_remove_keeps_unique(s, i);
        let t = s.remove(i);
        assert(t.drop_last() =~= s.drop_last().remove(i));
        assert(t.last() == s.last());
        assert(forall|j: int|
            0 <= j < s.drop_last().len() ==> s.drop_last()[j] == s[j]);
        lemma_map_of_entries_remove(s.drop_last(), i);
        assert(s.last().0@ != k);
        assert(map_of_entries(t) == map_of_entries(s.drop_last()).remove(k).insert(
            s.last().0@,
            s.last().1@,
        ));
        assert(map_of_entries(s.drop_last()).remove(k).insert(s.last().0@, s.last().1@)
            =~= map_of_entries(s.drop_last()).insert(s.last().0@, s.last().1@).remove(k));
    }
}

/// Decode `n` consecutive `i8` values, extending `acc`; `used` counts the
/// bytes consumed so far.
pub open spec fn spec_decode_i8_seq(b: Seq<u8>, n: nat, acc: Seq<i8>, used: nat) -> Result<
    (Seq<i8>, nat),
    (DecodeError, nat),
>
    decreases n,
{
    if n == 0 {
        Ok((acc, used))
    } else {
        match crate::prim::spec_decode_i8(b) {
            Err(e) => Err((e.0, used + e.1)),
            Ok((v, k)) => spec_decode_i8_seq(
                b.skip(k as int),
                (n - 1) as nat,
                acc.push(v),
                used + k,
            ),
        }
    }
}

/// Decode `n` consecutive `i32` values, extending `acc`.
pub open spec fn spec_decode_i32_seq(b: Seq<u8>, ed: Edition, n: nat, acc: Seq<i32>, used: nat) -> Result<
    (Seq<i32>, nat),
    (DecodeError, nat),
>
    decreases n,
{
    if n == 0 {
        Ok((acc, used))
    } else {
        match crate::prim::spec_decode_i32(b, ed) {
            Err(e) => Err((e.0, used + e.1)),
            Ok((v, k)) => spec_decode_i32_seq(
                b.skip(k as int),
                ed,
                (n - 1) as nat,
                acc.push(v),
                used + k,
            ),
        }
    }
}

/// Decode `n` consecutive `i64` values, extending `acc`.
pub open spec fn spec_decode_i64_seq(b: Seq<u8>, ed: Edition, n: nat, acc: Seq<i64>, used: nat) -> Result<
    (Seq<i64>, nat),
    (DecodeError, nat),
>
    decreases n,
{
    if n == 0 {
        Ok((acc, used))
    } else {
        match crate::prim::spec_decode_i64(b, ed) {
            Err(e) => Err((e.0, used + e.1)),
            Ok((v, k)) => spec_decode_i64_seq(
                b.skip(k as int),
                ed,
                (n - 1) as nat,
                acc.push(v),
                used + k,
            ),
        }
    }
}

/// Decode an array payload's length: an `i32` in the edition's integer
/// mode; a negative length is an invalid-length failure.
pub open spec fn spec_decode_len(b: Seq<u8>, ed: Edition) -> Result<(nat, nat), (DecodeError, nat)> {
    match crate::prim::spec_decode_i32(b, ed) {
        Err(e) => Err(e),
        Ok((v, k)) => if v < 0 {
            Err((DecodeError::InvalidLength, k))
        } else {
            Ok((v as nat, k))
        },
    }
}

/// The list a decoded element sequence forms, keyed by the element tag.
pub open spec fn spec_list_of(t: Tag, ps: Seq<PayloadV>) -> ListV {
    match t {
        Tag::Byte => ListV::Byte(ps.map_values(|p: PayloadV| p->Byte_0)),
        Tag::Short => ListV::Short(ps.map_values(|p: PayloadV| p->Short_0)),
        Tag::Int => ListV::Int(ps.map_values(|p: PayloadV| p->Int_0)),
        Tag::Long => ListV::Long(ps.map_values(|p: PayloadV| p->Long_0)),
        Tag::Float => ListV::Float(ps.map_values(|p: PayloadV| p->Float_0)),
        Tag::Double => ListV::Double(ps.map_values(|p: PayloadV| p->Double_0)),
        Tag::ByteArray => ListV::ByteArray(ps.map_values(|p: PayloadV| p->ByteArray_0)),
        Tag::String => ListV::String(ps.map_values(|p: PayloadV| p->String_0)),
        Tag::List => ListV::List(ps.map_values(|p: PayloadV| p->List_0)),
        Tag::Compound => ListV::Compound(ps.map_values(|p: PayloadV| p->Compound_0)),
        Tag::IntArray => ListV::IntArray(ps.map_values(|p: PayloadV| p->IntArray_0)),
        Tag::LongArray => ListV::LongArray(ps.map_values(|p: PayloadV| p->LongArray_0)),
        Tag::End => ListV::Empty,
    }
}

/// Decode a payload of an already-known tag.  `depth` is the remaining
/// nesting budget: every payload spends one unit, so nesting deeper than
/// the budget is a depth-limit failure.  An `End` tag never names a
/// payload.
pub open spec fn spec_decode_payload(t: Tag, b: Seq<u8>, ed: Edition, depth: nat) -> Result<
    (PayloadV, nat),
    (DecodeError, nat),
>
    decreases depth, 0nat, 0nat, 0nat,
{
    if depth == 0 {
        Err((DecodeError::DepthLimitExceeded, 0))
    } else {
        let d = (depth - 1) as nat;
        match t {
            Tag::End => Err((DecodeError::InvalidDiscriminant, 0)),
            Tag::Byte => match crate::prim::spec_decode_i8(b) {
                Err(e) => Err(e),
                Ok((v, k)) => Ok((PayloadV::Byte(v), k)),
            },
            Tag::Short => match crate::prim::spec_decode_i16(b, ed) {
                Err(e) => Err(e),
                Ok((v, k)) => Ok((PayloadV::Short(v), k)),
            },
            Tag::Int => match crate::prim::spec_decode_i32(b, ed) {
                Err(e) => Err(e),
                Ok((v, k)) => Ok((PayloadV::Int(v), k)),
            },
            Tag::Long => match crate::prim::spec_decode_i64(b, ed) {
                Err(e) => Err(e),
                Ok((v, k)) => Ok((PayloadV::Long(v), k)),
            },
            Tag::Float => match crate::prim::spec_decode_f32_bits(b, ed) {
                Err(e) => Err(e),
                Ok((v, k)) => Ok((PayloadV::Float(v), k)),
            },
            Tag::Double => match crate::prim::spec_decode_f64_bits(b, ed) {
                Err(e) => Err(e),
                Ok((v, k)) => Ok((PayloadV::Double(v), k)),
            },
            Tag::ByteArray => match spec_decode_len(b, ed) {
                Err(e) => Err(e),
                Ok((n, k)) => match spec_decode_i8_seq(b.skip(k as int), n, Seq::empty(), 0) {
                    Err(e) => Err((e.0, k + e.1)),
                    Ok((s, used)) => Ok((PayloadV::ByteArray(s), k + used)),
                },
            },
            Tag::String => match crate::prim::spec_decode_string(b, ed) {
                Err(e) => Err(e),
                Ok((s, k)) => Ok((PayloadV::String(s), k)),
            },
            Tag::List => match spec_decode_list(b, ed, d) {
                Err(e) => Err(e),
                Ok((l, k)) => Ok((PayloadV::List(l), k)),
            },
            Tag::Compound => match spec_decode_compound(b, ed, d, Map::empty(), 0) {
                Err(e) => Err(e),
                Ok((m, k)) => Ok((PayloadV::Compound(m), k)),
            },
            Tag::IntArray => match spec_decode_len(b, ed) {
                Err(e) => Err(e),
                Ok((n, k)) => match spec_decode_i32_seq(b.skip(k as int), ed, n, Seq::empty(), 0) {
                    Err(e) => Err((e.0, k + e.1)),
                    Ok((s, used)) => Ok((PayloadV::IntArray(s), k + used)),
                },
            },
            Tag::LongArray => match spec_decode_len(b, ed) {
                Err(e) => Err(e),
                Ok((n, k)) => match spec_decode_i64_seq(b.skip(k as int), ed, n, Seq::empty(), 0) {
                    Err(e) => Err((e.0, k + e.1)),
                    Ok((s, used)) => Ok((PayloadV::LongArray(s), k + used)),
                },
            },
        }
    }
}

/// Decode `n` consecutive payloads of one tag, extending `acc`.
pub open spec fn spec_decode_payload_seq(
    t: Tag,
    n: nat,
    b: Seq<u8>,
    ed: Edition,
    depth: nat,
    acc: Seq<PayloadV>,
    used: nat,
) -> Result<(Seq<PayloadV>, nat), (DecodeError, nat)>
    decreases depth, 1nat, n, 0nat,
{
    if n == 0 {
        Ok((acc, used))
    } else {
        match spec_decode_payload(t, b, ed, depth) {
            Err(e) => Err((e.0, used + e.1)),
            Ok((p, k)) => spec_decode_payload_seq(
                t,
                (n - 1) as nat,
                b.skip(k as int),
                ed,
                depth,
                acc.push(p),
                used + k,
            ),
        }
    }
}

/// Decode a list: one element-tag discriminant; `End` means the untyped
/// empty list and nothing more is read, else a length and that many
/// elements of the declared tag follow.
pub open spec fn spec_decode_list(b: Seq<u8>, ed: Edition, depth: nat) -> Result<
    (ListV, nat),
    (DecodeError, nat),
>
    decreases depth, 2nat, 0nat, 0nat,
{
    match crate::tag::spec_decode_tag(b) {
        Err(e) => Err(e),
        Ok((t, kt)) => if t == Tag::End {
            Ok((ListV::Empty, kt))
        } else {
            match spec_decode_len(b.skip(kt as int), ed) {
                Err(e) => Err((e.0, kt + e.1)),
                Ok((n, kn)) => match spec_decode_payload_seq(
                    t,
                    n,
                    b.skip(kt as int + kn as int),
                    ed,
                    depth,
                    Seq::empty(),
                    0,
                ) {
                    Err(e) => Err((e.0, kt + kn + e.1)),
                    Ok((ps, kp)) => Ok((spec_list_of(t, ps), kt + kn + kp)),
                },
            }
        },
    }
}

/// Decode a compound body: (tag, name, payload) entries into `acc`, a
/// later entry under the same name winning, until a lone `End` tag.
/// A successful decode consumes no more than the input holds (shown by
/// [`lemma_decode_consumes_within`]); the final branch only bounds the
/// recursion.
pub open spec fn spec_decode_compound(
    b: Seq<u8>,
    ed: Edition,
    depth: nat,
    acc: Map<Seq<u8>, PayloadV>,
    used: nat,
) -> Result<(Map<Seq<u8>, PayloadV>, nat), (DecodeError, nat)>
    decreases depth, 2nat, 0nat, b.len(),
{
    match crate::tag::spec_decode_tag(b) {
        Err(e) => Err((e.0, used + e.1)),
        Ok((t, kt)) => if t == Tag::End {
            Ok((acc, used + kt))
        } else {
            match crate::prim::spec_decode_string(b.skip(kt as int), ed) {
                Err(e) => Err((e.0, used + kt + e.1)),
                Ok((name, kn)) => match spec_decode_payload(
                    t,
                    b.skip(kt as int + kn as int),
                    ed,
                    depth,
                ) {
                    Err(e) => Err((e.0, used + kt + kn + e.1)),
                    Ok((p, kp)) => if kt + kn + kp <= b.len() {
                        spec_decode_compound(
                            b.skip(kt as int + kn as int + kp as int),
                            ed,
                            depth,
                            acc.insert(name, p),
                            used + kt + kn + kp,
                        )
                    } else {
                        Err((DecodeError::InsufficientData, used + kt + kn + kp))
                    },
                },
            }
        },
    }
}

/// Decode a root document: one tag discriminant, which must not be `End`,
/// then a name and a payload of that tag.
pub open spec fn spec_decode_named_tag(b: Seq<u8>, ed: Edition, depth: nat) -> Result<
    ((Seq<u8>, PayloadV), nat),
    (DecodeError, nat),
> {
    match crate::tag::spec_decode_tag(b) {
        Err(e) => Err(e),
        Ok((t, kt)) => if t == Tag::End {
            Err((DecodeError::InvalidDiscriminant, kt))
        } else {
            match crate::prim::spec_decode_string(b.skip(kt as int), ed) {
                Err(e) => Err((e.0, kt + e.1)),
                Ok((name, kn)) => match spec_decode_payload(
                    t,
                    b.skip(kt as int + kn as int),
                    ed,
                    depth,
                ) {
                    Err(e) => Err((e.0, kt + kn + e.1)),
                    Ok((p, kp)) => Ok(((name, p), kt + kn + kp)),
                },
            }
        },
    }
}

/// An `i32` field decode consumes no more than the input holds.
pub proof fn lemma_decode_i32_within(b: Seq<u8>, ed: Edition)
    ensures
        crate::prim::spec_decode_i32(b, ed) matches Ok((v, k)) ==> k <= b.len(),
        crate::prim::spec_decode_i32(b, ed) matches Err(e) ==> e.1 <= b.len(),
{
    if ed.variable_length_ints {
        crate::prim::lemma_varint_within(b, 0, 0, 5);
    }
}

/// An `i64` field decode consumes no more than the input holds.
pub proof fn lemma_decode_i64_within(b: Seq<u8>, ed: Edition)
    ensures
        crate::prim::spec_decode_i64(b, ed) matches Ok((v, k)) ==> k <= b.len(),
        crate::prim::spec_decode_i64(b, ed) matches Err(e) ==> e.1 <= b.len(),
{
    if ed.variable_length_ints {
        crate::prim::lemma_varint_within(b, 0, 0, 10);
    }
}

/// A length field decode consumes no more than the input holds.
pub proof fn lemma_decode_len_within(b: Seq<u8>, ed: Edition)
    ensures
        spec_decode_len(b, ed) matches Ok((n, k)) ==> k <= b.len(),
        spec_decode_len(b, ed) matches Err(e) ==> e.1 <= b.len(),
{
    lemma_decode_i32_within(b, ed);
}

/// An `i8` sequence decode consumes no more than the input holds, and
/// yields as many elements as asked.
pub proof fn lemma_i8_seq_within(b: Seq<u8>, n: nat, acc: Seq<i8>, used: nat)
    ensures
        spec_decode_i8_seq(b, n, acc, used) matches Ok((s, k)) ==> used <= k && k - used
            <= b.len() && s.len() == acc.len() + n,
        spec_decode_i8_seq(b, n, acc, used) matches Err(e) ==> used <= e.1 && e.1 - used
            <= b.len(),
    decreases n,
{
    if n > 0 {
        match crate::prim::spec_decode_i8(b) {
            Err(e) => {},
            Ok((v, k)) => {
                lemma_i8_seq_within(b.skip(k as int), (n - 1) as nat, acc.push(v), used + k);
            },
        }
    }
}

/// An `i32` sequence decode consumes no more than the input holds, and
/// yields as many elements as asked.
pub proof fn lemma_i32_seq_within(b: Seq<u8>, ed: Edition, n: nat, acc: Seq<i32>, used: nat)
    ensures
        spec_decode_i32_seq(b, ed, n, acc, used) matches Ok((s, k)) ==> used <= k && k - used
            <= b.len() && s.len() == acc.len() + n,
        spec_decode_i32_seq(b, ed, n, acc, used) matches Err(e) ==> used <= e.1 && e.1 - used
            <= b.len(),
    decreases n,
{
    if n > 0 {
        lemma_decode_i32_within(b, ed);
        match crate::prim::spec_decode_i32(b, ed) {
            Err(e) => {},
            Ok((v, k)) => {
                lemma_i32_seq_within(b.skip(k as int), ed, (n - 1) as nat, acc.push(v), used + k);
            },
        }
    }
}

/// An `i64` sequence decode consumes no more than the input holds, and
/// yields as many elements as asked.
pub proof fn lemma_i64_seq_within(b: Seq<u8>, ed: Edition, n: nat, acc: Seq<i64>, used: nat)
    ensures
        spec_decode_i64_seq(b, ed, n, acc, used) matches Ok((s, k)) ==> used <= k && k - used
            <= b.len() && s.len() == acc.len() + n,
        spec_decode_i64_seq(b, ed, n, acc, used) matches Err(e) ==> used <= e.1 && e.1 - used
            <= b.len(),
    decreases n,
{
    if n > 0 {
        lemma_decode_i64_within(b, ed);
        match crate::prim::spec_decode_i64(b, ed) {
            Err(e) => {},
            Ok((v, k)) => {
                lemma_i64_seq_within(b.skip(k as int), ed, (n - 1) as nat, acc.push(v), used + k);
            },
        }
    }
}

/// A payload decode consumes no more than the input holds.
pub proof fn lemma_payload_within(t: Tag, b: Seq<u8>, ed: Edition, depth: nat)
    ensures
        spec_decode_payload(t, b, ed, depth) matches Ok((p, k)) ==> k <= b.len(),
        spec_decode_payload(t, b, ed, depth) matches Err(e) ==> e.1 <= b.len(),
    decreases depth, 0nat, 0nat, 0nat,
{
    if depth == 0 {
    } else {
        let d = (depth - 1) as nat;
        match t {
            Tag::ByteArray => {
                lemma_decode_len_within(b, ed);
                if let Ok((n, k)) = spec_decode_len(b, ed) {
                    lemma_i8_seq_within(b.skip(k as int), n, Seq::empty(), 0);
                }
            },
            Tag::IntArray => {
                lemma_decode_len_within(b, ed);
                if let Ok((n, k)) = spec_decode_len(b, ed) {
                    lemma_i32_seq_within(b.skip(k as int), ed, n, Seq::empty(), 0);
                }
            },
            Tag::LongArray => {
                lemma_decode_len_within(b, ed);
                if let Ok((n, k)) = spec_decode_len(b, ed) {
                    lemma_i64_seq_within(b.skip(k as int), ed, n, Seq::empty(), 0);
                }
            },
            Tag::Long => {
                lemma_decode_i64_within(b, ed);
            },
            Tag::Int => {
                lemma_decode_i32_within(b, ed);
            },
            Tag::List => {
                lemma_list_within(b, ed, d);
            },
            Tag::Compound => {
                lemma_compound_within(b, ed, d, Map::empty(), 0);
            },
            _ => {},
        }
    }
}

/// A payload-sequence decode consumes no more than the input holds.
pub proof fn lemma_payload_seq_within(
    t: Tag,
    n: nat,
    b: Seq<u8>,
    ed: Edition,
    depth: nat,
    acc: Seq<PayloadV>,
    used: nat,
)
    ensures
        spec_decode_payload_seq(t, n, b, ed, depth, acc, used) matches Ok((s, k)) ==> used <= k
            && k - used <= b.len() && s.len() == acc.len() + n,
        spec_decode_payload_seq(t, n, b, ed, depth, acc, used) matches Err(e) ==> used <= e.1
            && e.1 - used <= b.len(),
    decreases depth, 1nat, n, 0nat,
{
    if n > 0 {
        lemma_payload_within(t, b, ed, depth);
        match spec_decode_payload(t, b, ed, depth) {
            Err(e) => {},
            Ok((p, k)) => {
                lemma_payload_seq_within(
                    t,
                    (n - 1) as nat,
                    b.skip(k as int),
                    ed,
                    depth,
                    acc.push(p),
                    used + k,
                );
            },
        }
    }
}

/// A list decode consumes no more than the input holds.
pub proof fn lemma_list_within(b: Seq<u8>, ed: Edition, depth: nat)
    ensures
        spec_decode_list(b, ed, depth) matches Ok((l, k)) ==> k <= b.len(),
        spec_decode_list(b, ed, depth) matches Err(e) ==> e.1 <= b.len(),
    decreases depth, 2nat, 0nat, 0nat,
{
    match crate::tag::spec_decode_tag(b) {
        Err(e) => {},
        Ok((t, kt)) => {
            if t != Tag::End {
                lemma_decode_len_within(b.skip(kt as int), ed);
                match spec_decode_len(b.skip(kt as int), ed) {
                    Err(e) => {},
                    Ok((n, kn)) => {
                        lemma_payload_seq_within(
                            t,
                            n,
                            b.skip(kt as int + kn as int),
                            ed,
                            depth,
                            Seq::empty(),
                            0,
                        );
                    },
                }
            }
        },
    }
}

/// A compound decode consumes no more than the input holds, past `used`.
pub proof fn lemma_compound_within(
    b: Seq<u8>,
    ed: Edition,
    depth: nat,
    acc: Map<Seq<u8>, PayloadV>,
    used: nat,
)
    ensures
        spec_decode_compound(b, ed, depth, acc, used) matches Ok((m, k)) ==> used <= k && k - used
            <= b.len(),
        spec_decode_compound(b, ed, depth, acc, used) matches Err(e) ==> used <= e.1 && e.1 - used
            <= b.len(),
    decreases depth, 2nat, 0nat, b.len(),
{
    match crate::tag::spec_decode_tag(b) {
        Err(e) => {},
        Ok((t, kt)) => {
            if t != Tag::End {
                match crate::prim::spec_decode_string(b.skip(kt as int), ed) {
                    Err(e) => {},
                    Ok((name, kn)) => {
                        lemma_payload_within(t, b.skip(kt as int + kn as int), ed, depth);
                        match spec_decode_payload(t, b.skip(kt as int + kn as int), ed, depth) {
                            Err(e) => {},
                            Ok((p, kp)) => {
                                if kt + kn + kp <= b.len() {
                                    lemma_compound_within(
                                        b.skip(kt as int + kn as int + kp as int),
                                        ed,
                                        depth,
                                        acc.insert(name, p),
                                        used + kt + kn + kp,
                                    );
                                }
                            },
                        }
                    },
                }
            }
        },
    }
}

/// A root document decode consumes no more than the input holds.
pub proof fn lemma_decode_consumes_within(b: Seq<u8>, ed: Edition, depth: nat)
    ensures
        spec_decode_named_tag(b, ed, depth) matches Ok((v, k)) ==> k <= b.len(),
        spec_decode_named_tag(b, ed, depth) matches Err(e) ==> e.1 <= b.len(),
{
    match crate::tag::spec_decode_tag(b) {
        Err(e) => {},
        Ok((t, kt)) => {
            if t != Tag::End {
                match crate::prim::spec_decode_string(b.skip(kt as int), ed) {
                    Err(e) => {},
                    Ok((name, kn)) => {
                        lemma_payload_within(t, b.skip(kt as int + kn as int), ed, depth);
                    },
                }
            }
        },
    }
}

/// The payload variant that a tag's decode produces.
pub open spec fn pv_matches(t: Tag, p: PayloadV) -> bool {
    match t {
        Tag::End => false,
        Tag::Byte => p is Byte,
        Tag::Short => p is Short,
        Tag::Int => p is Int,
        Tag::Long => p is Long,
        Tag::Float => p is Float,
        Tag::Double => p is Double,
        Tag::ByteArray => p is ByteArray,
        Tag::String => p is String,
        Tag::List => p is List,
        Tag::Compound => p is Compound,
        Tag::IntArray => p is IntArray,
        Tag::LongArray => p is LongArray,
    }
}

/// A successful payload decode yields the variant its tag names.
pub proof fn lemma_payload_variant(t: Tag, b: Seq<u8>, ed: Edition, depth: nat)
    ensures
        spec_decode_payload(t, b, ed, depth) matches Ok((p, k)) ==> pv_matches(t, p),
{
}

/// Decode `n` consecutive `i8` values from the cursor.
fn deserialize_i8_vec(u: &mut arbitrary::Unstructured, n: usize) -> (r: Result<
    Vec<i8>,
    DecodeError,
>)
    ensures
        match spec_decode_i8_seq(cursor_data(*old(u)), n as nat, Seq::empty(), 0) {
            Ok((s, k)) => r is Ok && r->Ok_0@ == s && cursor_data(*final(u)) == cursor_data(
                *old(u),
            ).skip(k as int),
            Err(e) => r == Err::<Vec<i8>, DecodeError>(e.0) && cursor_data(*final(u))
                == cursor_data(*old(u)).skip(e.1 as int),
        },
{
    let ghost b0 = cursor_data(*u);
    let mut out: Vec<i8> = Vec::new();
    let ghost mut used: int = 0;
    let mut i: usize = 0;
    while i < n
        invariant
            b0 == cursor_data(*old(u)),
            i <= n,
            out@.len() == i,
            0 <= used <= b0.len(),
            cursor_data(*u) == b0.skip(used),
            spec_decode_i8_seq(b0, n as nat, Seq::empty(), 0) == spec_decode_i8_seq(
                cursor_data(*u),
                (n - i) as nat,
                out@,
                used as nat,
            ),
        decreases n - i,
    {
        let ghost prev = cursor_data(*u);
        match deserialize_i8(u) {
            Ok(v) => {
                out.push(v);
                proof {
                    assert(cursor_data(*u) =~= b0.skip(used + 1));
                    used = used + 1;
                }
                i = i + 1;
            },
            Err(e) => {
                proof {
                    assert(cursor_data(*u) == b0.skip(used));
                }
                return Err(e);
            },
        }
    }
    Ok(out)
}

/// Decode `n` consecutive `i32` values from the cursor.
fn deserialize_i32_vec(ed: Edition, u: &mut arbitrary::Unstructured, n: usize) -> (r: Result<
    Vec<i32>,
    DecodeError,
>)
    ensures
        match spec_decode_i32_seq(cursor_data(*old(u)), ed, n as nat, Seq::empty(), 0) {
            Ok((s, k)) => r is Ok && r->Ok_0@ == s && cursor_data(*final(u)) == cursor_data(
                *old(u),
            ).skip(k as int),
            Err(e) => r == Err::<Vec<i32>, DecodeError>(e.0) && cursor_data(*final(u))
                == cursor_data(*old(u)).skip(e.1 as int),
        },
{
    let ghost b0 = cursor_data(*u);
    let mut out: Vec<i32> = Vec::new();
    let ghost mut used: int = 0;
    let mut i: usize = 0;
    while i < n
        invariant
            b0 == cursor_data(*old(u)),
            i <= n,
            out@.len() == i,
            0 <= used <= b0.len(),
            cursor_data(*u) == b0.skip(used),
            spec_decode_i32_seq(b0, ed, n as nat, Seq::empty(), 0) == spec_decode_i32_seq(
                cursor_data(*u),
                ed,
                (n - i) as nat,
                out@,
                used as nat,
            ),
        decreases n - i,
    {
        let ghost prev = cursor_data(*u);
        match deserialize_i32(ed, u) {
            Ok(v) => {
                out.push(v);
                proof {
                    let k = crate::prim::spec_decode_i32(prev, ed)->Ok_0.1;
                    lemma_decode_i32_within(prev, ed);
                    assert(cursor_data(*u) =~= b0.skip(used + k));
                    used = used + k;
                }
                i = i + 1;
            },
            Err(e) => {
                proof {
                    let ke = crate::prim::spec_decode_i32(prev, ed)->Err_0.1 as int;
                    lemma_decode_i32_within(prev, ed);
                    assert(cursor_data(*u) =~= b0.skip(used + ke));
                }
                return Err(e);
            },
        }
    }
    Ok(out)
}

/// Decode `n` consecutive `i64` values from the cursor.
fn deserialize_i64_vec(ed: Edition, u: &mut arbitrary::Unstructured, n: usize) -> (r: Result<
    Vec<i64>,
    DecodeError,
>)
    ensures
        match spec_decode_i64_seq(cursor_data(*old(u)), ed, n as nat, Seq::empty(), 0) {
            Ok((s, k)) => r is Ok && r->Ok_0@ == s && cursor_data(*final(u)) == cursor_data(
                *old(u),
            ).skip(k as int),
            Err(e) => r == Err::<Vec<i64>, DecodeError>(e.0) && cursor_data(*final(u))
                == cursor_data(*old(u)).skip(e.1 as int),
        },
{
    let ghost b0 = cursor_data(*u);
    let mut out: Vec<i64> = Vec::new();
    let ghost mut used: int = 0;
    let mut i: usize = 0;
    while i < n
        invariant
            b0 == cursor_data(*old(u)),
            i <= n,
            out@.len() == i,
            0 <= used <= b0.len(),
            cursor_data(*u) == b0.skip(used),
            spec_decode_i64_seq(b0, ed, n as nat, Seq::empty(), 0) == spec_decode_i64_seq(
                cursor_data(*u),
                ed,
                (n - i) as nat,
                out@,
                used as nat,
            ),
        decreases n - i,
    {
        let ghost prev = cursor_data(*u);
        match deserialize_i64(ed, u) {
            Ok(v) => {
                out.push(v);
                proof {
                    let k = crate::prim::spec_decode_i64(prev, ed)->Ok_0.1;
                    lemma_decode_i64_within(prev, ed);
                    assert(cursor_data(*u) =~= b0.skip(used + k));
                    used = used + k;
                }
                i = i + 1;
            },
            Err(e) => {
                proof {
                    let ke = crate::prim::spec_decode_i64(prev, ed)->Err_0.1 as int;
                    lemma_decode_i64_within(prev, ed);
                    assert(cursor_data(*u) =~= b0.skip(used + ke));
                }
                return Err(e);
            },
        }
    }
    Ok(out)
}

/// Take each element's value out of a decoded `Byte` list.
fn elems_to_byte(elems: Vec<OwnedPayload>) -> (r: Vec<i8>)
    requires
        forall|j: int| 0 <= j < elems@.len() ==> (#[trigger] elems@[j]@) is Byte,
    ensures
        r@.len() == elems@.len(),
        forall|j: int| 0 <= j < elems@.len() ==> r@[j] == (#[trigger] elems@[j]@)->Byte_0,
{
    let ghost s0 = elems@;
    let mut elems = elems;
    let mut out: Vec<i8> = Vec::new();
    while elems.len() > 0
        invariant
            out@.len() + elems@.len() == s0.len(),
            elems@ == s0.skip(out@.len() as int),
            forall|j: int| 0 <= j < s0.len() ==> (#[trigger] s0[j]@) is Byte,
            forall|j: int| 0 <= j < out@.len() ==> out@[j] == (#[trigger] s0[j]@)->Byte_0,
        decreases elems@.len(),
    {
        let ghost j = out@.len() as int;
        let p = elems.remove(0);
        proof {
            assert(p == s0[j]);
        }
        match p {
            OwnedPayload::Byte(x) => {
                out.push(x);
                proof {
                    assert(elems@ =~= s0.skip(j + 1));
                    assert(out@[j] == (s0[j]@)->Byte_0);
                }
            },
            _ => {
                proof {
                    assert(s0[j]@ is Byte);
                    assert(false);
                }
            },
        }
    }
    out
}

/// Take each element's value out of a decoded `Short` list.
fn elems_to_short(elems: Vec<OwnedPayload>) -> (r: Vec<i16>)
    requires
        forall|j: int| 0 <= j < elems@.len() ==> (#[trigger] elems@[j]@) is Short,
    ensures
        r@.len() == elems@.len(),
        forall|j: int| 0 <= j < elems@.len() ==> r@[j] == (#[trigger] elems@[j]@)->Short_0,
{
    let ghost s0 = elems@;
    let mut elems = elems;
    let mut out: Vec<i16> = Vec::new();
    while elems.len() > 0
        invariant
            out@.len() + elems@.len() == s0.len(),
            elems@ == s0.skip(out@.len() as int),
            forall|j: int| 0 <= j < s0.len() ==> (#[trigger] s0[j]@) is Short,
            forall|j: int| 0 <= j < out@.len() ==> out@[j] == (#[trigger] s0[j]@)->Short_0,
        decreases elems@.len(),
    {
        let ghost j = out@.len() as int;
        let p = elems.remove(0);
        proof {
            assert(p == s0[j]);
        }
        match p {
            OwnedPayload::Short(x) => {
                out.push(x);
                proof {
                    assert(elems@ =~= s0.skip(j + 1));
                    assert(out@[j] == (s0[j]@)->Short_0);
                }
            },
            _ => {
                proof {
                    assert(s0[j]@ is Short);
                    assert(false);
                }
            },
        }
    }
    out
}

/// Take each element's value out of a decoded `Int` list.
fn elems_to_int(elems: Vec<OwnedPayload>) -> (r: Vec<i32>)
    requires
        forall|j: int| 0 <= j < elems@.len() ==> (#[trigger] elems@[j]@) is Int,
    ensures
        r@.len() == elems@.len(),
        forall|j: int| 0 <= j < elems@.len() ==> r@[j] == (#[trigger] elems@[j]@)->Int_0,
{
    let ghost s0 = elems@;
    let mut elems = elems;
    let mut out: Vec<i32> = Vec::new();
    while elems.len() > 0
        invariant
            out@.len() + elems@.len() == s0.len(),
            elems@ == s0.skip(out@.len() as int),
            forall|j: int| 0 <= j < s0.len() ==> (#[trigger] s0[j]@) is Int,
            forall|j: int| 0 <= j < out@.len() ==> out@[j] == (#[trigger] s0[j]@)->Int_0,
        decreases elems@.len(),
    {
        let ghost j = out@.len() as int;
        let p = elems.remove(0);
        proof {
            assert(p == s0[j]);
        }
        match p {
            OwnedPayload::Int(x) => {
                out.push(x);
                proof {
                    assert(elems@ =~= s0.skip(j + 1));
                    assert(out@[j] == (s0[j]@)->Int_0);
                }
            },
            _ => {
                proof {
                    assert(s0[j]@ is Int);
                    assert(false);
                }
            },
        }
    }
    out
}

/// Take each element's value out of a decoded `Long` list.
fn elems_to_long(elems: Vec<OwnedPayload>) -> (r: Vec<i64>)
    requires
        forall|j: int| 0 <= j < elems@.len() ==> (#[trigger] elems@[j]@) is Long,
    ensures
        r@.len() == elems@.len(),
        forall|j: int| 0 <= j < elems@.len() ==> r@[j] == (#[trigger] elems@[j]@)->Long_0,
{
    let ghost s0 = elems@;
    let mut elems = elems;
    let mut out: Vec<i64> = Vec::new();
    while elems.len() > 0
        invariant
            out@.len() + elems@.len() == s0.len(),
            elems@ == s0.skip(out@.len() as int),
            forall|j: int| 0 <= j < s0.len() ==> (#[trigger] s0[j]@) is Long,
            forall|j: int| 0 <= j < out@.len() ==> out@[j] == (#[trigger] s0[j]@)->Long_0,
        decreases elems@.len(),
    {
        let ghost j = out@.len() as int;
        let p = elems.remove(0);
        proof {
            assert(p == s0[j]);
        }
        match p {
            OwnedPayload::Long(x) => {
                out.push(x);
                proof {
                    assert(elems@ =~= s0.skip(j + 1));
                    assert(out@[j] == (s0[j]@)->Long_0);
                }
            },
            _ => {
                proof {
                    assert(s0[j]@ is Long);
                    assert(false);
                }
            },
        }
    }
    out
}

/// Take each element's value out of a decoded `Float` list.
fn elems_to_float(elems: Vec<OwnedPayload>) -> (r: Vec<u32>)
    requires
        forall|j: int| 0 <= j < elems@.len() ==> (#[trigger] elems@[j]@) is Float,
    ensures
        r@.len() == elems@.len(),
        forall|j: int| 0 <= j < elems@.len() ==> r@[j] == (#[trigger] elems@[j]@)->Float_0,
{
    let ghost s0 = elems@;
    let mut elems = elems;
    let mut out: Vec<u32> = Vec::new();
    while elems.len() > 0
        invariant
            out@.len() + elems@.len() == s0.len(),
            elems@ == s0.skip(out@.len() as int),
            forall|j: int| 0 <= j < s0.len() ==> (#[trigger] s0[j]@) is Float,
            forall|j: int| 0 <= j < out@.len() ==> out@[j] == (#[trigger] s0[j]@)->Float_0,
        decreases elems@.len(),
    {
        let ghost j = out@.len() as int;
        let p = elems.remove(0);
        proof {
            assert(p == s0[j]);
        }
        match p {
            OwnedPayload::Float(x) => {
                out.push(x);
                proof {
                    assert(elems@ =~= s0.skip(j + 1));
                    assert(out@[j] == (s0[j]@)->Float_0);
                }
            },
            _ => {
                proof {
                    assert(s0[j]@ is Float);
                    assert(false);
                }
            },
        }
    }
    out
}

/// Take each element's value out of a decoded `Double` list.
fn elems_to_double(elems: Vec<OwnedPayload>) -> (r: Vec<u64>)
    requires
        forall|j: int| 0 <= j < elems@.len() ==> (#[trigger] elems@[j]@) is Double,
    ensures
        r@.len() == elems@.len(),
        forall|j: int| 0 <= j < elems@.len() ==> r@[j] == (#[trigger] elems@[j]@)->Double_0,
{
    let ghost s0 = elems@;
    let mut elems = elems;
    let mut out: Vec<u64> = Vec::new();
    while elems.len() > 0
        invariant
            out@.len() + elems@.len() == s0.len(),
            elems@ == s0.skip(out@.len() as int),
            forall|j: int| 0 <= j < s0.len() ==> (#[trigger] s0[j]@) is Double,
            forall|j: int| 0 <= j < out@.len() ==> out@[j] == (#[trigger] s0[j]@)->Double_0,
        decreases elems@.len(),
    {
        let ghost j = out@.len() as int;
        let p = elems.remove(0);
        proof {
            assert(p == s0[j]);
        }
        match p {
            OwnedPayload::Double(x) => {
                out.push(x);
                proof {
                    assert(elems@ =~= s0.skip(j + 1));
                    assert(out@[j] == (s0[j]@)->Double_0);
                }
            },
            _ => {
                proof {
                    assert(s0[j]@ is Double);
                    assert(false);
                }
            },
        }
    }
    out
}

/// Take each element's value out of a decoded `ByteArray` list.
fn elems_to_byte_array(elems: Vec<OwnedPayload>) -> (r: Vec<Vec<i8>>)
    requires
        forall|j: int| 0 <= j < elems@.len() ==> (#[trigger] elems@[j]@) is ByteArray,
    ensures
        r@.len() == elems@.len(),
        forall|j: int| 0 <= j < elems@.len() ==> r@[j]@ == (#[trigger] elems@[j]@)->ByteArray_0,
{
    let ghost s0 = elems@;
    let mut elems = elems;
    let mut out: Vec<Vec<i8>> = Vec::new();
    while elems.len() > 0
        invariant
            out@.len() + elems@.len() == s0.len(),
            elems@ == s0.skip(out@.len() as int),
            forall|j: int| 0 <= j < s0.len() ==> (#[trigger] s0[j]@) is ByteArray,
            forall|j: int| 0 <= j < out@.len() ==> out@[j]@ == (#[trigger] s0[j]@)->ByteArray_0,
        decreases elems@.len(),
    {
        let ghost j = out@.len() as int;
        let p = elems.remove(0);
        proof {
            assert(p == s0[j]);
        }
        match p {
            OwnedPayload::ByteArray(x) => {
                proof {
                    assert(p@ == PayloadV::ByteArray(x@));
                }
                out.push(x);
                proof {
                    assert(elems@ =~= s0.skip(j + 1));
                    assert(out@[j]@ == (s0[j]@)->ByteArray_0);
                }
            },
            _ => {
                proof {
                    assert(s0[j]@ is ByteArray);
                    assert(false);
                }
            },
        }
    }
    out
}

/// Take each element's value out of a decoded `String` list.
fn elems_to_string(elems: Vec<OwnedPayload>) -> (r: Vec<Vec<u8>>)
    requires
        forall|j: int| 0 <= j < elems@.len() ==> (#[trigger] elems@[j]@) is String,
    ensures
        r@.len() == elems@.len(),
        forall|j: int| 0 <= j < elems@.len() ==> r@[j]@ == (#[trigger] elems@[j]@)->String_0,
{
    let ghost s0 = elems@;
    let mut elems = elems;
    let mut out: Vec<Vec<u8>> = Vec::new();
    while elems.len() > 0
        invariant
            out@.len() + elems@.len() == s0.len(),
            elems@ == s0.skip(out@.len() as int),
            forall|j: int| 0 <= j < s0.len() ==> (#[trigger] s0[j]@) is String,
            forall|j: int| 0 <= j < out@.len() ==> out@[j]@ == (#[trigger] s0[j]@)->String_0,
        decreases elems@.len(),
    {
        let ghost j = out@.len() as int;
        let p = elems.remove(0);
        proof {
            assert(p == s0[j]);
        }
        match p {
            OwnedPayload::String(x) => {
                proof {
                    assert(p@ == PayloadV::String(x@));
                }
                out.push(x);
                proof {
                    assert(elems@ =~= s0.skip(j + 1));
                    assert(out@[j]@ == (s0[j]@)->String_0);
                }
            },
            _ => {
                proof {
                    assert(s0[j]@ is String);
                    assert(false);
                }
            },
        }
    }
    out
}

/// Take each element's value out of a decoded `IntArray` list.
fn elems_to_int_array(elems: Vec<OwnedPayload>) -> (r: Vec<Vec<i32>>)
    requires
        forall|j: int| 0 <= j < elems@.len() ==> (#[trigger] elems@[j]@) is IntArray,
    ensures
        r@.len() == elems@.len(),
        forall|j: int| 0 <= j < elems@.len() ==> r@[j]@ == (#[trigger] elems@[j]@)->IntArray_0,
{
    let ghost s0 = elems@;
    let mut elems = elems;
    let mut out: Vec<Vec<i32>> = Vec::new();
    while elems.len() > 0
        invariant
            out@.len() + elems@.len() == s0.len(),
            elems@ == s0.skip(out@.len() as int),
            forall|j: int| 0 <= j < s0.len() ==> (#[trigger] s0[j]@) is IntArray,
            forall|j: int| 0 <= j < out@.len() ==> out@[j]@ == (#[trigger] s0[j]@)->IntArray_0,
        decreases elems@.len(),
    {
        let ghost j = out@.len() as int;
        let p = elems.remove(0);
        proof {
            assert(p == s0[j]);
        }
        match p {
            OwnedPayload::IntArray(x) => {
                proof {
                    assert(p@ == PayloadV::IntArray(x@));
                }
                out.push(x);
                proof {
                    assert(elems@ =~= s0.skip(j + 1));
                    assert(out@[j]@ == (s0[j]@)->IntArray_0);
                }
            },
            _ => {
                proof {
                    assert(s0[j]@ is IntArray);
                    assert(false);
                }
            },
        }
    }
    out
}

/// Take each element's value out of a decoded `LongArray` list.
fn elems_to_long_array(elems: Vec<OwnedPayload>) -> (r: Vec<Vec<i64>>)
    requires
        forall|j: int| 0 <= j < elems@.len() ==> (#[trigger] elems@[j]@) is LongArray,
    ensures
        r@.len() == elems@.len(),
        forall|j: int| 0 <= j < elems@.len() ==> r@[j]@ == (#[trigger] elems@[j]@)->LongArray_0,
{
    let ghost s0 = elems@;
    let mut elems = elems;
    let mut out: Vec<Vec<i64>> = Vec::new();
    while elems.len() > 0
        invariant
            out@.len() + elems@.len() == s0.len(),
            elems@ == s0.skip(out@.len() as int),
            forall|j: int| 0 <= j < s0.len() ==> (#[trigger] s0[j]@) is LongArray,
            forall|j: int| 0 <= j < out@.len() ==> out@[j]@ == (#[trigger] s0[j]@)->LongArray_0,
        decreases elems@.len(),
    {
        let ghost j = out@.len() as int;
        let p = elems.remove(0);
        proof {
            assert(p == s0[j]);
        }
        match p {
            OwnedPayload::LongArray(x) => {
                proof {
                    assert(p@ == PayloadV::LongArray(x@));
                }
                out.push(x);
                proof {
                    assert(elems@ =~= s0.skip(j + 1));
                    assert(out@[j]@ == (s0[j]@)->LongArray_0);
                }
            },
            _ => {
                proof {
                    assert(s0[j]@ is LongArray);
                    assert(false);
                }
            },
        }
    }
    out
}

/// Take each element's value out of a decoded `List` list.
fn elems_to_list(elems: Vec<OwnedPayload>) -> (r: Vec<OwnedList>)
    requires
        forall|j: int| 0 <= j < elems@.len() ==> (#[trigger] elems@[j]@) is List,
    ensures
        r@.len() == elems@.len(),
        forall|j: int| 0 <= j < elems@.len() ==> r@[j]@ == (#[trigger] elems@[j]@)->List_0,
{
    let ghost s0 = elems@;
    let mut elems = elems;
    let mut out: Vec<OwnedList> = Vec::new();
    while elems.len() > 0
        invariant
            out@.len() + elems@.len() == s0.len(),
            elems@ == s0.skip(out@.len() as int),
            forall|j: int| 0 <= j < s0.len() ==> (#[trigger] s0[j]@) is List,
            forall|j: int| 0 <= j < out@.len() ==> out@[j]@ == (#[trigger] s0[j]@)->List_0,
        decreases elems@.len(),
    {
        let ghost j = out@.len() as int;
        let p = elems.remove(0);
        proof {
            assert(p == s0[j]);
        }
        match p {
            OwnedPayload::List(x) => {
                proof {
                    assert(p@ == PayloadV::List(x@));
                }
                out.push(x);
                proof {
                    assert(elems@ =~= s0.skip(j + 1));
                    assert(out@[j]@ == (s0[j]@)->List_0);
                }
            },
            _ => {
                proof {
                    assert(s0[j]@ is List);
                    assert(false);
                }
            },
        }
    }
    out
}

/// Take each element's value out of a decoded `Compound` list.
fn elems_to_compound(elems: Vec<OwnedPayload>) -> (r: Vec<OwnedCompound>)
    requires
        forall|j: int| 0 <= j < elems@.len() ==> (#[trigger] elems@[j]@) is Compound,
    ensures
        r@.len() == elems@.len(),
        forall|j: int| 0 <= j < elems@.len() ==> r@[j]@ == (#[trigger] elems@[j]@)->Compound_0,
{
    let ghost s0 = elems@;
    let mut elems = elems;
    let mut out: Vec<OwnedCompound> = Vec::new();
    while elems.len() > 0
        invariant
            out@.len() + elems@.len() == s0.len(),
            elems@ == s0.skip(out@.len() as int),
            forall|j: int| 0 <= j < s0.len() ==> (#[trigger] s0[j]@) is Compound,
            forall|j: int| 0 <= j < out@.len() ==> out@[j]@ == (#[trigger] s0[j]@)->Compound_0,
        decreases elems@.len(),
    {
        let ghost j = out@.len() as int;
        let p = elems.remove(0);
        proof {
            assert(p == s0[j]);
        }
        match p {
            OwnedPayload::Compound(x) => {
                proof {
                    assert(p@ == PayloadV::Compound(x@));
                }
                out.push(x);
                proof {
                    assert(elems@ =~= s0.skip(j + 1));
                    assert(out@[j]@ == (s0[j]@)->Compound_0);
                }
            },
            _ => {
                proof {
                    assert(s0[j]@ is Compound);
                    assert(false);
                }
            },
        }
    }
    out
}

/// The models of a sequence of lists, element by element.
pub proof fn lemma_views_of_lists(s: Seq<OwnedList>)
    ensures
        views_of_lists(s).len() == s.len(),
        forall|i: int| 0 <= i < s.len() ==> views_of_lists(s)[i] == (#[trigger] s[i])@,
    decreases s.len(),
{
    if s.len() > 0 {
        lemma_views_of_lists(s.drop_last());
        assert(views_of_lists(s) == views_of_lists(s.drop_last()).push(s.last()@));
        assert forall|i: int| 0 <= i < s.len() implies views_of_lists(s)[i] == (#[trigger] s[i])@ by {
            if i < s.len() - 1 {
                assert(s.drop_last()[i] == s[i]);
                assert(views_of_lists(s)[i] == views_of_lists(s.drop_last())[i]);
            } else {
                assert(s[i] == s.last());
            }
        }
    }
}

/// The models of a sequence of compounds, element by element.
pub proof fn lemma_views_of_compounds(s: Seq<OwnedCompound>)
    ensures
        views_of_compounds(s).len() == s.len(),
        forall|i: int| 0 <= i < s.len() ==> views_of_compounds(s)[i] == (#[trigger] s[i])@,
    decreases s.len(),
{
    if s.len() > 0 {
        lemma_views_of_compounds(s.drop_last());
        assert(views_of_compounds(s) == views_of_compounds(s.drop_last()).push(s.last()@));
        assert forall|i: int| 0 <= i < s.len() implies views_of_compounds(s)[i] == (#[trigger] s[i])@ by {
            if i < s.len() - 1 {
                assert(s.drop_last()[i] == s[i]);
                assert(views_of_compounds(s)[i] == views_of_compounds(s.drop_last())[i]);
            } else {
                assert(s[i] == s.last());
            }
        }
    }
}

/// Build the typed list that a sequence of uniform elements forms.
fn list_from_elems(t: Tag, elems: Vec<OwnedPayload>) -> (r: OwnedList)
    requires
        t != Tag::End,
        forall|j: int| 0 <= j < elems@.len() ==> pv_matches(t, #[trigger] elems@[j]@),
    ensures
        r@ == spec_list_of(t, elems@.map_values(|p: OwnedPayload| p@)),
{
    let ghost ps = elems@.map_values(|p: OwnedPayload| p@);
    match t {
        Tag::End => vstd::pervasive::unreached(),
        Tag::Byte => {
            let out = elems_to_byte(elems);
            proof {
                assert((OwnedList::Byte(out))@ =~~= spec_list_of(t, ps)) by {
                    assert(out@ =~= ps.map_values(|q: PayloadV| q->Byte_0));
                }
            }
            OwnedList::Byte(out)
        },
        Tag::Short => {
            let out = elems_to_short(elems);
            proof {
                assert((OwnedList::Short(out))@ =~~= spec_list_of(t, ps)) by {
                    assert(out@ =~= ps.map_values(|q: PayloadV| q->Short_0));
                }
            }
            OwnedList::Short(out)
        },
        Tag::Int => {
            let out = elems_to_int(elems);
            proof {
                assert((OwnedList::Int(out))@ =~~= spec_list_of(t, ps)) by {
                    assert(out@ =~= ps.map_values(|q: PayloadV| q->Int_0));
                }
            }
            OwnedList::Int(out)
        },
        Tag::Long => {
            let out = elems_to_long(elems);
            proof {
                assert((OwnedList::Long(out))@ =~~= spec_list_of(t, ps)) by {
                    assert(out@ =~= ps.map_values(|q: PayloadV| q->Long_0));
                }
            }
            OwnedList::Long(out)
        },
        Tag::Float => {
            let out = elems_to_float(elems);
            proof {
                assert((OwnedList::Float(out))@ =~~= spec_list_of(t, ps)) by {
                    assert(out@ =~= ps.map_values(|q: PayloadV| q->Float_0));
                }
            }
            OwnedList::Float(out)
        },
        Tag::Double => {
            let out = elems_to_double(elems);
            proof {
                assert((OwnedList::Double(out))@ =~~= spec_list_of(t, ps)) by {
                    assert(out@ =~= ps.map_values(|q: PayloadV| q->Double_0));
                }
            }
            OwnedList::Double(out)
        },
        Tag::ByteArray => {
            let out = elems_to_byte_array(elems);
            proof {
                assert((OwnedList::ByteArray(out))@ =~~= spec_list_of(t, ps)) by {
                    assert(out@.map_values(|x: Vec<i8>| x@) =~= ps.map_values(
                        |q: PayloadV| q->ByteArray_0,
                    ));
                }
            }
            OwnedList::ByteArray(out)
        },
        Tag::String => {
            let out = elems_to_string(elems);
            proof {
                assert((OwnedList::String(out))@ =~~= spec_list_of(t, ps)) by {
                    assert(out@.map_values(|x: Vec<u8>| x@) =~= ps.map_values(
                        |q: PayloadV| q->String_0,
                    ));
                }
            }
            OwnedList::String(out)
        },
        Tag::List => {
            let out = elems_to_list(elems);
            proof {
                lemma_views_of_lists(out@);
                assert((OwnedList::List(out))@ =~~= spec_list_of(t, ps)) by {
                    assert(views_of_lists(out@) =~= ps.map_values(|q: PayloadV| q->List_0));
                }
            }
            OwnedList::List(out)
        },
        Tag::Compound => {
            let out = elems_to_compound(elems);
            proof {
                lemma_views_of_compounds(out@);
                assert((OwnedList::Compound(out))@ =~~= spec_list_of(t, ps)) by {
                    assert(views_of_compounds(out@) =~= ps.map_values(|q: PayloadV| q->Compound_0));
                }
            }
            OwnedList::Compound(out)
        },
        Tag::IntArray => {
            let out = elems_to_int_array(elems);
            proof {
                assert((OwnedList::IntArray(out))@ =~~= spec_list_of(t, ps)) by {
                    assert(out@.map_values(|x: Vec<i32>| x@) =~= ps.map_values(
                        |q: PayloadV| q->IntArray_0,
                    ));
                }
            }
            OwnedList::IntArray(out)
        },
        Tag::LongArray => {
            let out = elems_to_long_array(elems);
            proof {
                assert((OwnedList::LongArray(out))@ =~~= spec_list_of(t, ps)) by {
                    assert(out@.map_values(|x: Vec<i64>| x@) =~= ps.map_values(
                        |q: PayloadV| q->LongArray_0,
                    ));
                }
            }
            OwnedList::LongArray(out)
        },
    }
}

/// Decode a byte array payload: a length, then that many elements.
fn deserialize_byte_array(ed: Edition, u: &mut arbitrary::Unstructured) -> (r: Result<
    Vec<i8>,
    DecodeError,
>)
    ensures
        match spec_decode_len(cursor_data(*old(u)), ed) {
            Err(e) => r == Err::<Vec<i8>, DecodeError>(e.0) && cursor_data(*final(u))
                == cursor_data(*old(u)).skip(e.1 as int),
            Ok((n, k)) => match spec_decode_i8_seq(
                cursor_data(*old(u)).skip(k as int),
                n,
                Seq::empty(),
                0,
            ) {
                Ok((s, k2)) => r is Ok && r->Ok_0@ == s && cursor_data(*final(u)) == cursor_data(
                    *old(u),
                ).skip(k as int + k2 as int),
                Err(e) => r == Err::<Vec<i8>, DecodeError>(e.0) && cursor_data(*final(u))
                    == cursor_data(*old(u)).skip(k as int + e.1 as int),
            },
        },
{
    let ghost b0 = cursor_data(*u);
    let n = match deserialize_i32(ed, u) {
        Ok(v) => v,
        Err(e) => {
            return Err(e);
        },
    };
    let ghost k1 = crate::prim::spec_decode_i32(b0, ed)->Ok_0.1 as int;
    proof {
        lemma_decode_i32_within(b0, ed);
    }
    if n < 0 {
        proof {
            assert(cursor_data(*u) == b0.skip(k1));
        }
        return Err(DecodeError::InvalidLength);
    }
    match deserialize_i8_vec(u, n as usize) {
        Ok(v) => {
            proof {
                let k2 = spec_decode_i8_seq(b0.skip(k1), n as nat, Seq::empty(), 0)
                    ->Ok_0.1 as int;
                lemma_i8_seq_within(b0.skip(k1), n as nat, Seq::empty(), 0);
                assert(cursor_data(*u) =~= b0.skip(k1 + k2));
            }
            Ok(v)
        },
        Err(e) => {
            proof {
                let ke = spec_decode_i8_seq(b0.skip(k1), n as nat, Seq::empty(), 0)
                    ->Err_0.1 as int;
                lemma_i8_seq_within(b0.skip(k1), n as nat, Seq::empty(), 0);
                assert(cursor_data(*u) =~= b0.skip(k1 + ke));
            }
            Err(e)
        },
    }
}

/// Decode a int array payload: a length, then that many elements.
fn deserialize_int_array(ed: Edition, u: &mut arbitrary::Unstructured) -> (r: Result<
    Vec<i32>,
    DecodeError,
>)
    ensures
        match spec_decode_len(cursor_data(*old(u)), ed) {
            Err(e) => r == Err::<Vec<i32>, DecodeError>(e.0) && cursor_data(*final(u))
                == cursor_data(*old(u)).skip(e.1 as int),
            Ok((n, k)) => match spec_decode_i32_seq(
                cursor_data(*old(u)).skip(k as int),
                ed, n,
                Seq::empty(),
                0,
            ) {
                Ok((s, k2)) => r is Ok && r->Ok_0@ == s && cursor_data(*final(u)) == cursor_data(
                    *old(u),
                ).skip(k as int + k2 as int),
                Err(e) => r == Err::<Vec<i32>, DecodeError>(e.0) && cursor_data(*final(u))
                    == cursor_data(*old(u)).skip(k as int + e.1 as int),
            },
        },
{
    let ghost b0 = cursor_data(*u);
    let n = match deserialize_i32(ed, u) {
        Ok(v) => v,
        Err(e) => {
            return Err(e);
        },
    };
    let ghost k1 = crate::prim::spec_decode_i32(b0, ed)->Ok_0.1 as int;
    proof {
        lemma_decode_i32_within(b0, ed);
    }
    if n < 0 {
        proof {
            assert(cursor_data(*u) == b0.skip(k1));
        }
        return Err(DecodeError::InvalidLength);
    }
    match deserialize_i32_vec(ed, u, n as usize) {
        Ok(v) => {
            proof {
                let k2 = spec_decode_i32_seq(b0.skip(k1), ed, n as nat, Seq::empty(), 0)
                    ->Ok_0.1 as int;
                lemma_i32_seq_within(b0.skip(k1), ed, n as nat, Seq::empty(), 0);
                assert(cursor_data(*u) =~= b0.skip(k1 + k2));
            }
            Ok(v)
        },
        Err(e) => {
            proof {
                let ke = spec_decode_i32_seq(b0.skip(k1), ed, n as nat, Seq::empty(), 0)
                    ->Err_0.1 as int;
                lemma_i32_seq_within(b0.skip(k1), ed, n as nat, Seq::empty(), 0);
                assert(cursor_data(*u) =~= b0.skip(k1 + ke));
            }
            Err(e)
        },
    }
}

/// Decode a long array payload: a length, then that many elements.
fn deserialize_long_array(ed: Edition, u: &mut arbitrary::Unstructured) -> (r: Result<
    Vec<i64>,
    DecodeError,
>)
    ensures
        match spec_decode_len(cursor_data(*old(u)), ed) {
            Err(e) => r == Err::<Vec<i64>, DecodeError>(e.0) && cursor_data(*final(u))
                == cursor_data(*old(u)).skip(e.1 as int),
            Ok((n, k)) => match spec_decode_i64_seq(
                cursor_data(*old(u)).skip(k as int),
                ed, n,
                Seq::empty(),
                0,
            ) {
                Ok((s, k2)) => r is Ok && r->Ok_0@ == s && cursor_data(*final(u)) == cursor_data(
                    *old(u),
                ).skip(k as int + k2 as int),
                Err(e) => r == Err::<Vec<i64>, DecodeError>(e.0) && cursor_data(*final(u))
                    == cursor_data(*old(u)).skip(k as int + e.1 as int),
            },
        },
{
    let ghost b0 = cursor_data(*u);
    let n = match deserialize_i32(ed, u) {
        Ok(v) => v,
        Err(e) => {
            return Err(e);
        },
    };
    let ghost k1 = crate::prim::spec_decode_i32(b0, ed)->Ok_0.1 as int;
    proof {
        lemma_decode_i32_within(b0, ed);
    }
    if n < 0 {
        proof {
            assert(cursor_data(*u) == b0.skip(k1));
        }
        return Err(DecodeError::InvalidLength);
    }
    match deserialize_i64_vec(ed, u, n as usize) {
        Ok(v) => {
            proof {
                let k2 = spec_decode_i64_seq(b0.skip(k1), ed, n as nat, Seq::empty(), 0)
                    ->Ok_0.1 as int;
                lemma_i64_seq_within(b0.skip(k1), ed, n as nat, Seq::empty(), 0);
                assert(cursor_data(*u) =~= b0.skip(k1 + k2));
            }
            Ok(v)
        },
        Err(e) => {
            proof {
                let ke = spec_decode_i64_seq(b0.skip(k1), ed, n as nat, Seq::empty(), 0)
                    ->Err_0.1 as int;
                lemma_i64_seq_within(b0.skip(k1), ed, n as nat, Seq::empty(), 0);
                assert(cursor_data(*u) =~= b0.skip(k1 + ke));
            }
            Err(e)
        },
    }
}

/// Decode a payload whose tag names no nested list or compound: the
/// scalars, strings and scalar arrays.  `depth` only instantiates the
/// model; no nesting budget is spent beyond the one unit every payload
/// costs.
#[verifier::rlimit(100)]
fn deserialize_flat_payload(
    t: Tag,
    ed: Edition,
    u: &mut arbitrary::Unstructured,
    Ghost(depth): Ghost<nat>,
) -> (r: Result<OwnedPayload, DecodeError>)
    requires
        depth >= 1,
        !(t is End || t is List || t is Compound),
    ensures
        match spec_decode_payload(t, cursor_data(*old(u)), ed, depth) {
            Ok((p, k)) => r is Ok && r->Ok_0@ == p && cursor_data(*final(u)) == cursor_data(
                *old(u),
            ).skip(k as int),
            Err(e) => r == Err::<OwnedPayload, DecodeError>(e.0) && cursor_data(*final(u))
                == cursor_data(*old(u)).skip(e.1 as int),
        },
{
    let ghost b0 = cursor_data(*u);
    match t {
        Tag::End => vstd::pervasive::unreached(),
        Tag::List => vstd::pervasive::unreached(),
        Tag::Compound => vstd::pervasive::unreached(),
        Tag::Byte => {
            match deserialize_i8(u) {
                Ok(v) => Ok(OwnedPayload::Byte(v)),
                Err(e) => {
                    proof {
                        assert(cursor_data(*u) =~= b0.skip(0));
                    }
                    Err(e)
                },
            }
        },
        Tag::Short => {
            match crate::prim::deserialize_i16(ed, u) {
                Ok(v) => Ok(OwnedPayload::Short(v)),
                Err(e) => {
                    proof {
                        assert(cursor_data(*u) =~= b0.skip(0));
                    }
                    Err(e)
                },
            }
        },
        Tag::Int => {
            match deserialize_i32(ed, u) {
                Ok(v) => Ok(OwnedPayload::Int(v)),
                Err(e) => Err(e),
            }
        },
        Tag::Long => {
            match deserialize_i64(ed, u) {
                Ok(v) => Ok(OwnedPayload::Long(v)),
                Err(e) => Err(e),
            }
        },
        Tag::Float => {
            match crate::prim::deserialize_f32_bits(ed, u) {
                Ok(v) => Ok(OwnedPayload::Float(v)),
                Err(e) => {
                    proof {
                        assert(cursor_data(*u) =~= b0.skip(0));
                    }
                    Err(e)
                },
            }
        },
        Tag::Double => {
            match crate::prim::deserialize_f64_bits(ed, u) {
                Ok(v) => Ok(OwnedPayload::Double(v)),
                Err(e) => {
                    proof {
                        assert(cursor_data(*u) =~= b0.skip(0));
                    }
                    Err(e)
                },
            }
        },
        Tag::ByteArray => {
            match deserialize_byte_array(ed, u) {
                Ok(v) => Ok(OwnedPayload::ByteArray(v)),
                Err(e) => Err(e),
            }
        },
        Tag::String => {
            match crate::prim::deserialize_string(ed, u) {
                Ok(v) => Ok(OwnedPayload::String(v)),
                Err(e) => Err(e),
            }
        },
        Tag::IntArray => {
            match deserialize_int_array(ed, u) {
                Ok(v) => Ok(OwnedPayload::IntArray(v)),
                Err(e) => Err(e),
            }
        },
        Tag::LongArray => {
            match deserialize_long_array(ed, u) {
                Ok(v) => Ok(OwnedPayload::LongArray(v)),
                Err(e) => Err(e),
            }
        },
    }
}

/// Decode a payload of an already-known tag from the cursor.  `depth` is
/// the remaining nesting budget: every payload spends one unit, and a
/// nested list or compound decodes under a budget one smaller.
pub fn deserialize_payload(
    t: Tag,
    ed: Edition,
    u: &mut arbitrary::Unstructured,
    depth: usize,
) -> (r: Result<OwnedPayload, DecodeError>)
    ensures
        match spec_decode_payload(t, cursor_data(*old(u)), ed, depth as nat) {
            Ok((p, k)) => r is Ok && r->Ok_0@ == p && cursor_data(*final(u)) == cursor_data(
                *old(u),
            ).skip(k as int),
            Err(e) => r == Err::<OwnedPayload, DecodeError>(e.0) && cursor_data(*final(u))
                == cursor_data(*old(u)).skip(e.1 as int),
        },
    decreases depth, 0int,
{
    let ghost b0 = cursor_data(*u);
    if depth == 0 {
        proof {
            assert(cursor_data(*u) =~= b0.skip(0));
        }
        return Err(DecodeError::DepthLimitExceeded);
    }
    let d = depth - 1;
    match t {
        Tag::End => {
            proof {
                assert(cursor_data(*u) =~= b0.skip(0));
            }
            Err(DecodeError::InvalidDiscriminant)
        },
        Tag::List => {
            match deserialize_list(ed, u, d) {
                Ok(l) => Ok(OwnedPayload::List(l)),
                Err(e) => Err(e),
            }
        },
        Tag::Compound => {
            match deserialize_compound(ed, u, d) {
                Ok(c) => Ok(OwnedPayload::Compound(c)),
                Err(e) => Err(e),
            }
        },
        _ => deserialize_flat_payload(t, ed, u, Ghost(depth as nat)),
    }
}

/// Decode a list from the cursor: an element tag, and unless that tag is
/// `End`, a length and that many elements.
pub fn deserialize_list(ed: Edition, u: &mut arbitrary::Unstructured, depth: usize) -> (r: Result<
    OwnedList,
    DecodeError,
>)
    ensures
        match spec_decode_list(cursor_data(*old(u)), ed, depth as nat) {
            Ok((l, k)) => r is Ok && r->Ok_0@ == l && cursor_data(*final(u)) == cursor_data(
                *old(u),
            ).skip(k as int),
            Err(e) => r == Err::<OwnedList, DecodeError>(e.0) && cursor_data(*final(u))
                == cursor_data(*old(u)).skip(e.1 as int),
        },
    decreases depth, 2int,
{
    let ghost b0 = cursor_data(*u);
    let t = match Tag::deserialize(u) {
        Ok(t) => t,
        Err(e) => {
            return Err(e);
        },
    };
    if t == Tag::End {
        return Ok(OwnedList::Empty);
    }
    let n = match deserialize_i32(ed, u) {
        Ok(v) => v,
        Err(e) => {
            proof {
                let ke = crate::prim::spec_decode_i32(b0.skip(1), ed)->Err_0.1 as int;
                lemma_decode_i32_within(b0.skip(1), ed);
                assert(cursor_data(*u) =~= b0.skip(1 + ke));
            }
            return Err(e);
        },
    };
    let ghost kn = crate::prim::spec_decode_i32(b0.skip(1), ed)->Ok_0.1 as int;
    proof {
        lemma_decode_i32_within(b0.skip(1), ed);
    }
    if n < 0 {
        proof {
            assert(cursor_data(*u) =~= b0.skip(1 + kn));
        }
        return Err(DecodeError::InvalidLength);
    }
    let n = n as usize;
    let ghost b1 = b0.skip(1 + kn);
    proof {
        assert(cursor_data(*u) =~= b1);
    }
    let mut elems: Vec<OwnedPayload> = Vec::new();
    let ghost mut used: int = 0;
    let mut i: usize = 0;
    proof {
        assert(elems@.map_values(|p: OwnedPayload| p@) =~= Seq::<PayloadV>::empty());
    }
    while i < n
        invariant
            b0 == cursor_data(*old(u)),
            b1 == b0.skip(1 + kn),
            0 <= kn,
            1 + kn <= b0.len(),
            crate::tag::spec_decode_tag(b0) == Ok::<(Tag, nat), (DecodeError, nat)>((t, 1nat)),
            t != Tag::End,
            spec_decode_len(b0.skip(1), ed) == Ok::<(nat, nat), (DecodeError, nat)>((n as nat, kn as nat)),
            i <= n,
            elems@.len() == i,
            0 <= used <= b1.len(),
            cursor_data(*u) == b1.skip(used),
            forall|j: int| 0 <= j < i ==> pv_matches(t, #[trigger] elems@[j]@),
            spec_decode_payload_seq(t, n as nat, b1, ed, depth as nat, Seq::empty(), 0)
                == spec_decode_payload_seq(
                t,
                (n - i) as nat,
                cursor_data(*u),
                ed,
                depth as nat,
                elems@.map_values(|p: OwnedPayload| p@),
                used as nat,
            ),
        decreases n - i,
    {
        let ghost prev = cursor_data(*u);
        match deserialize_payload(t, ed, u, depth) {
            Ok(p) => {
                proof {
                    let k = spec_decode_payload(t, prev, ed, depth as nat)->Ok_0.1 as int;
                    lemma_payload_within(t, prev, ed, depth as nat);
                    lemma_payload_variant(t, prev, ed, depth as nat);
                    assert(cursor_data(*u) =~= b1.skip(used + k));
                    assert(elems@.push(p).map_values(|p: OwnedPayload| p@) =~= elems@.map_values(
                        |p: OwnedPayload| p@,
                    ).push(p@));
                    used = used + k;
                }
                elems.push(p);
                i = i + 1;
            },
            Err(e) => {
                proof {
                    let ke = spec_decode_payload(t, prev, ed, depth as nat)->Err_0.1 as int;
                    lemma_payload_within(t, prev, ed, depth as nat);
                    assert(cursor_data(*u) =~= b1.skip(used + ke));
                    assert(cursor_data(*u) =~= b0.skip(1 + kn + used + ke));
                }
                return Err(e);
            },
        }
    }
    let l = list_from_elems(t, elems);
    proof {
        assert(cursor_data(*u) =~= b0.skip(1 + kn + used));
    }
    Ok(l)
}

/// Decode a compound body from the cursor: entries until a lone `End`
/// tag, a later entry under the same name replacing an earlier one.
#[verifier::rlimit(100)]
pub fn deserialize_compound(ed: Edition, u: &mut arbitrary::Unstructured, depth: usize) -> (r:
    Result<OwnedCompound, DecodeError>)
    ensures
        match spec_decode_compound(cursor_data(*old(u)), ed, depth as nat, Map::empty(), 0) {
            Ok((m, k)) => r is Ok && r->Ok_0@ == m && r->Ok_0.wf() && cursor_data(*final(u))
                == cursor_data(*old(u)).skip(k as int),
            Err(e) => r == Err::<OwnedCompound, DecodeError>(e.0) && cursor_data(*final(u))
                == cursor_data(*old(u)).skip(e.1 as int),
        },
    decreases depth, 1int,
{
    let ghost b0 = cursor_data(*u);
    let mut out = OwnedCompound::new();
    let ghost mut used: int = 0;
    loop
        invariant
            b0 == cursor_data(*old(u)),
            0 <= used <= b0.len(),
            cursor_data(*u) == b0.skip(used),
            out.wf(),
            spec_decode_compound(b0, ed, depth as nat, Map::empty(), 0) == spec_decode_compound(
                cursor_data(*u),
                ed,
                depth as nat,
                out@,
                used as nat,
            ),
        decreases b0.len() - used,
    {
        let ghost prev = cursor_data(*u);
        let t = match Tag::deserialize(u) {
            Ok(t) => t,
            Err(e) => {
                proof {
                    let ke = crate::tag::spec_decode_tag(prev)->Err_0.1 as int;
                    assert(cursor_data(*u) =~= b0.skip(used + ke));
                }
                return Err(e);
            },
        };
        if t == Tag::End {
            proof {
                assert(cursor_data(*u) =~= b0.skip(used + 1));
            }
            return Ok(out);
        }
        let name = match crate::prim::deserialize_string(ed, u) {
            Ok(v) => v,
            Err(e) => {
                proof {
                    let ke = crate::prim::spec_decode_string(prev.skip(1), ed)->Err_0.1 as int;
                    assert(cursor_data(*u) == prev.skip(1).skip(ke));
                    assert(cursor_data(*u) =~= b0.skip(used + 1 + ke));
                }
                return Err(e);
            },
        };
        let ghost kn = crate::prim::spec_decode_string(prev.skip(1), ed)->Ok_0.1 as int;
        let ghost prev2 = cursor_data(*u);
        let p = match deserialize_payload(t, ed, u, depth) {
            Ok(p) => p,
            Err(e) => {
                proof {
                    let ke = spec_decode_payload(t, prev2, ed, depth as nat)->Err_0.1 as int;
                    lemma_payload_within(t, prev2, ed, depth as nat);
                    assert(prev2 =~= prev.skip(1 + kn));
                    assert(cursor_data(*u) =~= b0.skip(used + 1 + kn + ke));
                }
                return Err(e);
            },
        };
        let ghost kp = spec_decode_payload(t, prev2, ed, depth as nat)->Ok_0.1 as int;
        proof {
            lemma_payload_within(t, prev2, ed, depth as nat);
            assert(prev2 =~= prev.skip(1 + kn));
            assert(cursor_data(*u) =~= prev.skip(1 + kn + kp));
            assert(cursor_data(*u) =~= b0.skip(used + 1 + kn + kp));
            used = used + 1 + kn + kp;
        }
        out.insert(name, p);
    }
}

/// Decode a root document from the cursor: one tag discriminant, which
/// must not be `End`, then a name and a payload of that tag.
pub fn deserialize_named_tag(ed: Edition, u: &mut arbitrary::Unstructured, depth: usize) -> (r:
    Result<OwnedNamedTag, DecodeError>)
    ensures
        match spec_decode_named_tag(cursor_data(*old(u)), ed, depth as nat) {
            Ok((v, k)) => r is Ok && r->Ok_0.0@ == v.0 && r->Ok_0.1@ == v.1 && cursor_data(
                *final(u),
            ) == cursor_data(*old(u)).skip(k as int),
            Err(e) => r == Err::<OwnedNamedTag, DecodeError>(e.0) && cursor_data(*final(u))
                == cursor_data(*old(u)).skip(e.1 as int),
        },
{
    let ghost b0 = cursor_data(*u);
    let t = match Tag::deserialize(u) {
        Ok(t) => t,
        Err(e) => {
            return Err(e);
        },
    };
    if t == Tag::End {
        proof {
            assert(cursor_data(*u) == b0.skip(1));
        }
        return Err(DecodeError::InvalidDiscriminant);
    }
    let name = match crate::prim::deserialize_string(ed, u) {
        Ok(v) => v,
        Err(e) => {
            proof {
                let ke = crate::prim::spec_decode_string(b0.skip(1), ed)->Err_0.1 as int;
                assert(cursor_data(*u) == b0.skip(1).skip(ke));
                assert(cursor_data(*u) =~= b0.skip(1 + ke));
            }
            return Err(e);
        },
    };
    let ghost kn = crate::prim::spec_decode_string(b0.skip(1), ed)->Ok_0.1 as int;
    let ghost prev2 = cursor_data(*u);
    let p = match deserialize_payload(t, ed, u, depth) {
        Ok(p) => p,
        Err(e) => {
            proof {
                let ke = spec_decode_payload(t, prev2, ed, depth as nat)->Err_0.1 as int;
                lemma_payload_within(t, prev2, ed, depth as nat);
                assert(prev2 =~= b0.skip(1 + kn));
                assert(cursor_data(*u) =~= b0.skip(1 + kn + ke));
            }
            return Err(e);
        },
    };
    proof {
        let kp = spec_decode_payload(t, prev2, ed, depth as nat)->Ok_0.1 as int;
        lemma_payload_within(t, prev2, ed, depth as nat);
        assert(prev2 =~= b0.skip(1 + kn));
        assert(cursor_data(*u) =~= b0.skip(1 + kn + kp));
    }
    Ok((name, p))
}

/// Helper: with unique names, the last entry's name is absent from the
/// mapping of the entries before it.
proof fn lemma_map_of_entries_misses_of_unique(
    front: Seq<(Vec<u8>, OwnedPayload)>,
    s: Seq<(Vec<u8>, OwnedPayload)>,
    k: Seq<u8>,
)
    requires
        unique_names(s),
        s.len() > 0,
        front == s.drop_last(),
        k == s[s.len() - 1].0@,
    ensures
        !map_of_entries(front).contains_key(k),
{
    assert(forall|j: int| 0 <= j < front.len() ==> front[j] == s[j]);
    lemma_map_of_entries_misses(front, k);
}

} // verus!
