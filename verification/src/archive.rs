use vstd::prelude::*;

use crate::array::lemma_array_index_decreases;
use crate::array::lemma_obj_models;
use crate::array::lemma_object_index_decreases;
use crate::array::lemma_seq_models;
use crate::array::IArray;
use crate::array::IObject;
use crate::array::IValue;
use crate::array::ObjectEntry;
use crate::model::canon_entries;
use crate::model::entries_floats_finite_char;
use crate::model::insert_entry;
use crate::model::lemma_canon_floats_finite;
use crate::model::lemma_canon_idempotent;
use crate::model::lemma_canon_seq;
use crate::model::lemma_normal_canon;
use crate::model::lemma_insert_entry_at;
use crate::model::lemma_insert_entry_sorted;
use crate::model::lemma_normal_entries;
use crate::model::lemma_normal_seq;
use crate::model::entries_sorted;
use crate::model::seq_floats_finite_char;
use crate::model::EntryModel;
use crate::model::JsonModel;
use crate::value::key_lt;
use crate::value::key_lt_str;
use crate::value::INumber;
use crate::value::IString;

verus! {

broadcast use vstd::seq::axiom_seq_index_decreases, vstd::std_specs::vec::axiom_vec_decreases_to_view;

/// The numeric sub-representation of the canonical archive.  A whole
/// number representable as signed 64-bit always archives as `NegInt`;
/// `PosInt` is reserved for values above the signed range; `Float` carries
/// the IEEE 754 bit pattern of a double.
#[derive(Debug, PartialEq, Eq, Structural)]
pub enum JsonNumber {
    PosInt(u64),
    NegInt(i64),
    Float(u64),
}

impl JsonNumber {
    /// The number this archive variant stands for.
    pub open spec fn model(&self) -> INumber {
        match self {
            JsonNumber::PosInt(u) => INumber::Unsigned(*u),
            JsonNumber::NegInt(i) => INumber::Signed(*i),
            JsonNumber::Float(bits) => INumber::Float(*bits),
        }
    }
}

/// One key/value entry of an archived object.
#[derive(Debug, PartialEq, Eq)]
pub struct ArchivedEntry {
    pub key: String,
    pub value: ArchivableJson,
}

/// The canonical archive representation: a closed enumerated mirror of a
/// value tree, independent of the in-memory tagged-handle layout.  Variant
/// order and field order are part of the schema contract.  In an archive
/// produced by `from_value`, every object's entries are key-unique and
/// sorted by the canonical key order, not insertion order.
#[derive(Debug, PartialEq, Eq)]
pub enum ArchivableJson {
    Null,
    Bool(bool),
    Number(JsonNumber),
    String(String),
    Array(Vec<ArchivableJson>),
    Object(Vec<ArchivedEntry>),
}

impl ArchivableJson {
    /// The mathematical model of this archived tree.
    pub open spec fn model(&self) -> JsonModel
        decreases self,
    {
        match self {
            ArchivableJson::Null => JsonModel::Null,
            ArchivableJson::Bool(b) => JsonModel::Bool(*b),
            ArchivableJson::Number(n) => JsonModel::Number(n.model()),
            ArchivableJson::String(s) => JsonModel::Text(s@),
            ArchivableJson::Array(elems) => JsonModel::Array(aj_seq_models(elems@)),
            ArchivableJson::Object(es) => JsonModel::Object(aj_obj_models(es@)),
        }
    }
}

/// The models of a sequence of archived values, element by element.
pub open spec fn aj_seq_models(s: Seq<ArchivableJson>) -> Seq<JsonModel>
    decreases s,
{
    if s.len() == 0 {
        Seq::empty()
    } else {
        aj_seq_models(s.drop_last()).push(s.last().model())
    }
}

/// The models of a sequence of archived entries, entry by entry.
pub open spec fn aj_obj_models(es: Seq<ArchivedEntry>) -> Seq<EntryModel>
    decreases es,
{
    if es.len() == 0 {
        Seq::empty()
    } else {
        aj_obj_models(es.drop_last()).push(
            EntryModel { key: es.last().key@, value: es.last().value.model() },
        )
    }
}

/// `aj_seq_models` maps the sequence pointwise.
pub proof fn lemma_aj_seq_models(s: Seq<ArchivableJson>)
    ensures
        aj_seq_models(s).len() == s.len(),
        forall|i: int| 0 <= i < s.len() ==> aj_seq_models(s)[i] == s[i].model(),
    decreases s,
{
    if s.len() > 0 {
        lemma_aj_seq_models(s.drop_last());
        assert forall|i: int| 0 <= i < s.len() implies aj_seq_models(s)[i] == s[i].model() by {
            if i < s.len() - 1 {
                assert(s.drop_last()[i] == s[i]);
            }
        }
    }
}

/// `aj_obj_models` maps the entries pointwise.
pub proof fn lemma_aj_obj_models(es: Seq<ArchivedEntry>)
    ensures
        aj_obj_models(es).len() == es.len(),
        forall|i: int| 0 <= i < es.len() ==> aj_obj_models(es)[i]
            == (EntryModel { key: es[i].key@, value: es[i].value.model() }),
    decreases es,
{
    if es.len() > 0 {
        lemma_aj_obj_models(es.drop_last());
        assert forall|i: int| 0 <= i < es.len() implies aj_obj_models(es)[i]
            == (EntryModel { key: es[i].key@, value: es[i].value.model() }) by {
            if i < es.len() - 1 {
                assert(es.drop_last()[i] == es[i]);
            }
        }
    }
}

/// Archive a number by the deterministic rule: a fractional representation
/// becomes `Float`; a whole number that fits the signed range becomes
/// `NegInt`, also when it is non-negative; only values above the signed
/// range become `PosInt`.
fn archive_number(n: &INumber) -> (r: JsonNumber)
    ensures
        r.model() == n.normal(),
{
    if n.has_decimal_point() {
        let bits = n.to_f64_bits().unwrap();
        JsonNumber::Float(bits)
    } else {
        match n.to_i64() {
            Some(i) => JsonNumber::NegInt(i),
            None => {
                let u = n.to_u64().unwrap();
                JsonNumber::PosInt(u)
            },
        }
    }
}

/// Reconstruct a number from its archive variant, normalizing: `PosInt`
/// and `NegInt` go through the whole-number constructors, `Float` through
/// the fallible double constructor, which accepts every finite value the
/// forward direction produces.
fn unarchive_number(n: &JsonNumber) -> (r: INumber)
    requires
        n.model().float_finite(),
    ensures
        r == n.model().normal(),
{
    match n {
        JsonNumber::PosInt(u) => INumber::from_u64(*u),
        JsonNumber::NegInt(i) => INumber::from_i64(*i),
        JsonNumber::Float(bits) => {
            match INumber::from_f64_bits(*bits) {
                Some(x) => x,
                None => {
                    proof {
                        assert(false);
                    }
                    INumber::Signed(0)
                },
            }
        },
    }
}

impl ArchivableJson {
    /// Convert a value tree into its canonical archive representation.
    /// The result's model is the canonical form of the value's model:
    /// numbers normalized, and each object's entries key-unique and sorted
    /// by the canonical key order, the last occurrence of a duplicate key
    /// kept — at every depth, as `lemma_canon_objects_sorted` states of the
    /// canonical form.  For a well-formed value the two models coincide.
    #[verifier::loop_isolation(false)]
    pub fn from_value(v: &IValue) -> (r: ArchivableJson)
        ensures
            r.model() == v.model().canon(),
        decreases v,
    {
        match v {
            IValue::Null => ArchivableJson::Null,
            IValue::Bool(b) => ArchivableJson::Bool(*b),
            IValue::Number(n) => ArchivableJson::Number(archive_number(n)),
            IValue::String(s) => ArchivableJson::String(s.to_text()),
            IValue::Array(arr) => {
                let len = arr.len();
                let mut out: Vec<ArchivableJson> = Vec::new();
                let mut i: usize = 0;
                while i < len
                    invariant
                        i <= len,
                        out@.len() == i,
                        forall|j: int| 0 <= j < i ==> (#[trigger] out@[j]).model()
                            == arr@[j].model().canon(),
                    decreases len - i,
                {
                    let e = arr.get(i);
                    proof {
                        lemma_array_index_decreases(arr, i as int);
                    }
                    out.push(Self::from_value(e));
                    i += 1;
                }
                proof {
                    lemma_aj_seq_models(out@);
                    lemma_seq_models(arr@);
                    lemma_canon_seq(crate::array::seq_models(arr@));
                    assert(aj_seq_models(out@) =~= crate::model::canon_seq(
                        crate::array::seq_models(arr@),
                    ));
                }
                ArchivableJson::Array(out)
            },
            IValue::Object(o) => {
                let len = o.len();
                proof {
                    lemma_obj_models(o@);
                }
                let ghost src = crate::array::obj_models(o@);
                let mut out: Vec<ArchivedEntry> = Vec::new();
                let mut i: usize = 0;
                while i < len
                    invariant
                        i <= len,
                        aj_obj_models(out@) == canon_entries(src.take(i as int)),
                        entries_sorted(aj_obj_models(out@)),
                    decreases len - i,
                {
                    let e = o.get(i);
                    proof {
                        lemma_object_index_decreases(o, i as int);
                        assert(decreases_to!(o@[i as int] => o@[i as int].value));
                    }
                    let key = e.key.to_text();
                    let value = Self::from_value(&e.value);
                    let ghost em = EntryModel { key: key@, value: value.model() };
                    let ghost cur = aj_obj_models(out@);
                    proof {
                        lemma_aj_obj_models(out@);
                        assert(em == (EntryModel { key: src[i as int].key, value: src[i as int].value.canon() }));
                        assert(src.take(i + 1).drop_last() =~= src.take(i as int));
                        assert(src.take(i + 1).last() == src[i as int]);
                        lemma_insert_entry_sorted(cur, em);
                    }
                    let mut pos: usize = 0;
                    while pos < out.len() && key_lt_str(out[pos].key.as_str(), key.as_str())
                        invariant
                            pos <= out@.len(),
                            forall|j: int| 0 <= j < pos ==> key_lt((#[trigger] out@[j]).key@, key@),
                        decreases out@.len() - pos,
                    {
                        pos += 1;
                    }
                    proof {
                        assert forall|j: int| 0 <= j < pos implies key_lt(
                            (#[trigger] cur[j]).key,
                            em.key,
                        ) by {
                            assert(cur[j].key == out@[j].key@);
                        }
                        lemma_insert_entry_at(cur, em, pos as int);
                    }
                    if pos < out.len() && out[pos].key == key {
                        let ghost before = out@;
                        out.remove(pos);
                        out.insert(pos, ArchivedEntry { key, value });
                        proof {
                            assert(out@ =~= before.update(pos as int, ArchivedEntry { key, value }));
                            lemma_aj_obj_models(out@);
                            assert(aj_obj_models(out@) =~= cur.update(pos as int, em));
                            assert(aj_obj_models(out@) == insert_entry(cur, em));
                        }
                    } else {
                        let ghost before = out@;
                        out.insert(pos, ArchivedEntry { key, value });
                        proof {
                            lemma_aj_obj_models(out@);
                            assert(aj_obj_models(out@) =~= cur.take(pos as int) + seq![em]
                                + cur.skip(pos as int));
                            assert(aj_obj_models(out@) == insert_entry(cur, em));
                        }
                    }
                    i += 1;
                }
                proof {
                    assert(src.take(o@.len() as int) =~= src);
                }
                ArchivableJson::Object(out)
            },
        }
    }

    /// True when every double in the archived tree is finite, which is
    /// exactly when `IValue::from_archived` accepts it.
    #[verifier::loop_isolation(false)]
    pub fn floats_finite(&self) -> (r: bool)
        ensures
            r == self.model().floats_finite(),
        decreases self,
    {
        match self {
            ArchivableJson::Null => true,
            ArchivableJson::Bool(_) => true,
            ArchivableJson::String(_) => true,
            ArchivableJson::Number(n) => match n {
                JsonNumber::Float(bits) => (*bits >> 52) & 0x7ff != 0x7ff,
                _ => true,
            },
            ArchivableJson::Array(elems) => {
                let len = elems.len();
                proof {
                    lemma_aj_seq_models(elems@);
                    seq_floats_finite_char(aj_seq_models(elems@));
                }
                let mut i: usize = 0;
                while i < len
                    invariant
                        i <= len,
                        forall|j: int| 0 <= j < i ==> (#[trigger] elems@[j]).model().floats_finite(),
                    decreases len - i,
                {
                    let e = &elems[i];
                    proof {
                        assert(decreases_to!(*self => *elems));
                        assert(decreases_to!(*elems => elems@[i as int]));
                    }
                    if !e.floats_finite() {
                        proof {
                            assert(aj_seq_models(elems@)[i as int] == elems@[i as int].model());
                            assert(!aj_seq_models(elems@)[i as int].floats_finite());
                        }
                        return false;
                    }
                    i += 1;
                }
                true
            },
            ArchivableJson::Object(es) => {
                let len = es.len();
                proof {
                    lemma_aj_obj_models(es@);
                    entries_floats_finite_char(aj_obj_models(es@));
                }
                let mut i: usize = 0;
                while i < len
                    invariant
                        i <= len,
                        forall|j: int| 0 <= j < i ==> (#[trigger] es@[j]).value.model().floats_finite(),
                    decreases len - i,
                {
                    let e = &es[i];
                    proof {
                        assert(decreases_to!(*self => *es));
                        assert(decreases_to!(*es => es@[i as int]));
                        assert(decreases_to!(es@[i as int] => es@[i as int].value));
                    }
                    if !e.value.floats_finite() {
                        proof {
                            assert(aj_obj_models(es@)[i as int]
                                == (EntryModel { key: es@[i as int].key@, value: es@[i as int].value.model() }));
                            assert(!aj_obj_models(es@)[i as int].value.floats_finite());
                        }
                        return false;
                    }
                    i += 1;
                }
                true
            },
        }
    }
}

impl IValue {
    /// Reconstruct a value tree from its canonical archive representation.
    /// A non-finite double is a precondition violation (the original treats
    /// it as fatal); `ArchivableJson::floats_finite` tests for it.  The
    /// result's model is the normal form of the archived tree's model; for
    /// a well-formed archive the two coincide.
    #[verifier::loop_isolation(false)]
    pub fn from_archived(a: ArchivableJson) -> (r: IValue)
        requires
            a.model().floats_finite(),
        ensures
            r.model() == a.model().normal(),
        decreases a,
    {
        match a {
            ArchivableJson::Null => IValue::Null,
            ArchivableJson::Bool(b) => IValue::Bool(b),
            ArchivableJson::Number(n) => IValue::Number(unarchive_number(&n)),
            ArchivableJson::String(s) => IValue::String(IString::from(s)),
            ArchivableJson::Array(elems) => {
                let ghost orig_vec = elems;
                let ghost orig = elems@;
                proof {
                    lemma_aj_seq_models(orig);
                    seq_floats_finite_char(aj_seq_models(orig));
                    lemma_normal_seq(aj_seq_models(orig));
                }
                let mut elems = elems;
                let mut out: Vec<IValue> = Vec::new();
                while elems.len() > 0
                    invariant
                        out@.len() + elems@.len() == orig.len(),
                        elems@ == orig.skip(out@.len() as int),
                        forall|j: int| 0 <= j < out@.len() ==> (#[trigger] out@[j]).model()
                            == orig[j].model().normal(),
                    decreases elems@.len(),
                {
                    let ghost k = out@.len() as int;
                    let x = elems.remove(0);
                    proof {
                        assert(x == orig[k]);
                        assert(elems@ =~= orig.skip(k + 1));
                        assert(decreases_to!(a => orig_vec));
                        assert(decreases_to!(orig_vec => orig[k]));
                        assert(aj_seq_models(orig)[k].floats_finite());
                        assert(x.model().floats_finite());
                    }
                    out.push(IValue::from_archived(x));
                }
                proof {
                    lemma_seq_models(out@);
                    assert(crate::array::seq_models(out@) =~= crate::model::normal_seq(
                        aj_seq_models(orig),
                    ));
                }
                IValue::Array(IArray::from_vec(out))
            },
            ArchivableJson::Object(es) => {
                let ghost orig_vec = es;
                let ghost orig = es@;
                proof {
                    lemma_aj_obj_models(orig);
                    entries_floats_finite_char(aj_obj_models(orig));
                    lemma_normal_entries(aj_obj_models(orig));
                }
                let mut es = es;
                let mut out: Vec<ObjectEntry> = Vec::new();
                while es.len() > 0
                    invariant
                        out@.len() + es@.len() == orig.len(),
                        es@ == orig.skip(out@.len() as int),
                        forall|j: int| 0 <= j < out@.len() ==> (#[trigger] out@[j]).key@
                            == orig[j].key@ && out@[j].value.model()
                            == orig[j].value.model().normal(),
                    decreases es@.len(),
                {
                    let ghost k = out@.len() as int;
                    let x = es.remove(0);
                    proof {
                        assert(x == orig[k]);
                        assert(es@ =~= orig.skip(k + 1));
                        assert(decreases_to!(a => orig_vec));
                        assert(decreases_to!(orig_vec => orig[k]));
                        assert(decreases_to!(orig[k] => orig[k].value));
                        assert(aj_obj_models(orig)[k].value.floats_finite());
                        assert(x.value.model().floats_finite());
                    }
                    let key = IString::from(x.key);
                    let value = IValue::from_archived(x.value);
                    out.push(ObjectEntry { key, value });
                }
                proof {
                    lemma_obj_models(out@);
                    assert(crate::array::obj_models(out@) =~= crate::model::normal_entries(
                        aj_obj_models(orig),
                    ));
                }
                IValue::Object(IObject::from_entries(out))
            },
        }
    }
}

/// Each archived kind maps to the matching model constructor.
proof fn lemma_aj_model_kind(a: &ArchivableJson)
    ensures
        (a.model() is Null <==> *a is Null),
        (a.model() is Bool <==> *a is Bool),
        (a.model() is Number <==> *a is Number),
        (a.model() is Text <==> *a is String),
        (a.model() is Array <==> *a is Array),
        (a.model() is Object <==> *a is Object),
{
}

/// Structural equality of archived trees: equality of their models, entry
/// by entry.
#[verifier::loop_isolation(false)]
#[verifier::rlimit(50)]
pub(crate) fn archived_eq(a: &ArchivableJson, b: &ArchivableJson) -> (r: bool)
    ensures
        r == (a.model() == b.model()),
    decreases a,
{
    proof {
        lemma_aj_model_kind(a);
        lemma_aj_model_kind(b);
    }
    match a {
        ArchivableJson::Null => match b {
            ArchivableJson::Null => true,
            _ => false,
        },
        ArchivableJson::Bool(x) => match b {
            ArchivableJson::Bool(y) => *x == *y,
            _ => false,
        },
        ArchivableJson::Number(x) => match b {
            ArchivableJson::Number(y) => *x == *y,
            _ => false,
        },
        ArchivableJson::String(x) => match b {
            ArchivableJson::String(y) => *x == *y,
            _ => false,
        },
        ArchivableJson::Array(x) => match b {
            ArchivableJson::Array(y) => {
                let xlen = x.len();
                let ylen = y.len();
                proof {
                    lemma_aj_seq_models(x@);
                    lemma_aj_seq_models(y@);
                }
                if xlen != ylen {
                    return false;
                }
                let mut i: usize = 0;
                while i < xlen
                    invariant
                        i <= xlen,
                        forall|j: int| 0 <= j < i ==> #[trigger] aj_seq_models(x@)[j]
                            == aj_seq_models(y@)[j],
                    decreases xlen - i,
                {
                    let ex = &x[i];
                    let ey = &y[i];
                    proof {
                        assert(decreases_to!(*a => *x));
                        assert(decreases_to!(*x => x@[i as int]));
                    }
                    if !archived_eq(ex, ey) {
                        proof {
                            assert(aj_seq_models(x@)[i as int] != aj_seq_models(y@)[i as int]);
                        }
                        return false;
                    }
                    i += 1;
                }
                proof {
                    assert(aj_seq_models(x@) =~= aj_seq_models(y@));
                }
                true
            },
            _ => false,
        },
        ArchivableJson::Object(x) => match b {
            ArchivableJson::Object(y) => {
                let xlen = x.len();
                let ylen = y.len();
                proof {
                    lemma_aj_obj_models(x@);
                    lemma_aj_obj_models(y@);
                }
                if xlen != ylen {
                    return false;
                }
                let mut i: usize = 0;
                while i < xlen
                    invariant
                        i <= xlen,
                        forall|j: int| 0 <= j < i ==> #[trigger] aj_obj_models(x@)[j]
                            == aj_obj_models(y@)[j],
                    decreases xlen - i,
                {
                    let ex = &x[i];
                    let ey = &y[i];
                    proof {
                        assert(decreases_to!(*a => *x));
                        assert(decreases_to!(*x => x@[i as int]));
                        assert(decreases_to!(x@[i as int] => x@[i as int].value));
                    }
                    if !(ex.key == ey.key) {
                        proof {
                            assert(aj_obj_models(x@)[i as int] != aj_obj_models(y@)[i as int]);
                        }
                        return false;
                    }
                    if !archived_eq(&ex.value, &ey.value) {
                        proof {
                            assert(aj_obj_models(x@)[i as int] != aj_obj_models(y@)[i as int]);
                        }
                        return false;
                    }
                    i += 1;
                }
                proof {
                    assert(aj_obj_models(x@) =~= aj_obj_models(y@));
                }
                true
            },
            _ => false,
        },
    }
}

/// The archive round trip is the identity up to structural (canonical)
/// equality, with no hypothesis on the tree: `from_value` archives the
/// canonical form of the value's model, every finite-float tree stays
/// finite-float, `from_archived` returns the number-normal form of the
/// archive's model — the canonical form itself — and canonicalizing that
/// gives back the canonical form of the original.  In particular every
/// key-unique object, in any entry order, round-trips to a value equal to
/// the original.
pub proof fn lemma_archive_round_trip(m: JsonModel)
    ensures
        m.floats_finite() ==> m.canon().floats_finite(),
        m.canon().normal() == m.canon(),
        m.canon().normal().canon() == m.canon(),
{
    if m.floats_finite() {
        lemma_canon_floats_finite(m);
    }
    lemma_normal_canon(m);
    lemma_canon_idempotent(m);
}


} // verus!
