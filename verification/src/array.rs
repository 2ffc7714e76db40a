use vstd::prelude::*;

use crate::model::canon_seq;
use crate::model::lemma_canon_seq;
use crate::model::EntryModel;
use crate::model::JsonModel;
use crate::value::INumber;
use crate::value::IString;

verus! {

broadcast use vstd::seq::axiom_seq_index_decreases, vstd::std_specs::vec::axiom_vec_decreases_to_view;

/// One key/value entry of a JSON object.
#[derive(Debug)]
pub struct ObjectEntry {
    pub key: IString,
    pub value: IValue,
}

/// The object collaborator: key/value entries kept in insertion order.
/// Key uniqueness is a well-formedness property of the model, not enforced
/// by construction.
#[derive(Debug)]
pub struct IObject {
    entries: Vec<ObjectEntry>,
}

/// The tagged JSON value handle: exactly one of the six runtime kinds.
///
/// Arrays hold an `IArray`, whose elements are again values, so the array,
/// the object and the value types are mutually recursive and live in this
/// module together.
#[derive(Debug)]
pub enum IValue {
    Null,
    Bool(bool),
    Number(INumber),
    String(IString),
    Array(IArray),
    Object(IObject),
}

impl IValue {
    /// The mathematical model of this value tree.
    pub open spec fn model(&self) -> JsonModel
        decreases self,
    {
        match self {
            IValue::Null => JsonModel::Null,
            IValue::Bool(b) => JsonModel::Bool(*b),
            IValue::Number(n) => JsonModel::Number(*n),
            IValue::String(s) => JsonModel::Text(s@),
            IValue::Array(arr) => JsonModel::Array(seq_models(arr@)),
            IValue::Object(o) => JsonModel::Object(obj_models(o@)),
        }
    }
}

impl View for IObject {
    type V = Seq<ObjectEntry>;

    closed spec fn view(&self) -> Seq<ObjectEntry> {
        self.entries@
    }
}

impl IObject {
    /// The models of the entries.
    pub open spec fn models(&self) -> Seq<EntryModel> {
        obj_models(self@)
    }

    /// An object holding exactly the given entries, in order.
    pub fn from_entries(entries: Vec<ObjectEntry>) -> (r: IObject)
        ensures
            r@ == entries@,
    {
        IObject { entries }
    }

    /// The number of entries.
    pub fn len(&self) -> (r: usize)
        ensures
            r == self@.len(),
    {
        self.entries.len()
    }

    /// Borrow the entry at `index`.
    pub fn get(&self, index: usize) -> (r: &ObjectEntry)
        requires
            index < self@.len(),
        ensures
            *r == self@[index as int],
    {
        &self.entries[index]
    }
}

/// The models of a sequence of values, element by element.
pub open spec fn seq_models(s: Seq<IValue>) -> Seq<JsonModel>
    decreases s,
{
    if s.len() == 0 {
        Seq::empty()
    } else {
        seq_models(s.drop_last()).push(s.last().model())
    }
}

/// The models of a sequence of object entries, entry by entry.
pub open spec fn obj_models(es: Seq<ObjectEntry>) -> Seq<EntryModel>
    decreases es,
{
    if es.len() == 0 {
        Seq::empty()
    } else {
        obj_models(es.drop_last()).push(
            EntryModel { key: es.last().key@, value: es.last().value.model() },
        )
    }
}

/// `seq_models` maps the sequence pointwise.
pub proof fn lemma_seq_models(s: Seq<IValue>)
    ensures
        seq_models(s).len() == s.len(),
        forall|i: int| 0 <= i < s.len() ==> seq_models(s)[i] == s[i].model(),
    decreases s,
{
    if s.len() > 0 {
        lemma_seq_models(s.drop_last());
        assert forall|i: int| 0 <= i < s.len() implies seq_models(s)[i] == s[i].model() by {
            if i < s.len() - 1 {
                assert(s.drop_last()[i] == s[i]);
            }
        }
    }
}

/// `obj_models` maps the entries pointwise.
pub proof fn lemma_obj_models(es: Seq<ObjectEntry>)
    ensures
        obj_models(es).len() == es.len(),
        forall|i: int| 0 <= i < es.len() ==> obj_models(es)[i]
            == (EntryModel { key: es[i].key@, value: es[i].value.model() }),
    decreases es,
{
    if es.len() > 0 {
        lemma_obj_models(es.drop_last());
        assert forall|i: int| 0 <= i < es.len() implies obj_models(es)[i]
            == (EntryModel { key: es[i].key@, value: es[i].value.model() }) by {
            if i < es.len() - 1 {
                assert(es.drop_last()[i] == es[i]);
            }
        }
    }
}

/// Capacity after a growth step: at least double the old capacity (clamped
/// to the address space) and at least the immediate requirement.
pub open spec fn grown_capacity(cap: usize, desired: int) -> int {
    let doubled: int = if 2 * cap <= usize::MAX { 2 * cap } else { usize::MAX as int };
    if desired > doubled {
        desired
    } else {
        doubled
    }
}

/// Capacity after `reserve` brings it to at least `desired`.
pub open spec fn reserved_capacity(cap: usize, desired: int) -> int {
    if cap >= desired {
        cap as int
    } else {
        grown_capacity(cap, desired)
    }
}

/// The growable array: a sequence of values plus an explicit capacity.
///
/// Capacity 0 is the static representation, which owns no storage; a
/// positive capacity stands for one owned allocation with room for that
/// many elements, of which the first `len` are initialized.  The header
/// invariant `len <= cap` holds at all times.
#[derive(Debug)]
pub struct IArray {
    items: Vec<IValue>,
    cap: usize,
}

impl View for IArray {
    type V = Seq<IValue>;

    closed spec fn view(&self) -> Seq<IValue> {
        self.items@
    }
}

impl IArray {
    /// The header invariant: never more initialized elements than capacity.
    #[verifier::type_invariant]
    spec fn inv(self) -> bool {
        self.items@.len() <= self.cap
    }

    /// The array's capacity.
    pub closed spec fn spec_capacity(&self) -> usize {
        self.cap
    }

    /// The static representation owns no storage; it is recognized solely
    /// by its capacity being 0.
    pub open spec fn spec_is_static(&self) -> bool {
        self.spec_capacity() == 0
    }

    /// The models of the stored values.
    pub open spec fn models(&self) -> Seq<JsonModel> {
        seq_models(self@)
    }

    /// The empty array in its static representation; never allocates.
    pub fn new() -> (r: IArray)
        ensures
            r@ == Seq::<IValue>::empty(),
            r.spec_capacity() == 0,
    {
        IArray { items: Vec::new(), cap: 0 }
    }

    /// An empty array with room for exactly `cap` elements; the static
    /// array when `cap == 0`.
    pub fn with_capacity(cap: usize) -> (r: IArray)
        ensures
            r@ == Seq::<IValue>::empty(),
            r.spec_capacity() == cap,
    {
        if cap == 0 {
            Self::new()
        } else {
            IArray { items: Vec::with_capacity(cap), cap }
        }
    }

    /// An array holding exactly the given values, sized to fit them.
    pub fn from_vec(items: Vec<IValue>) -> (r: IArray)
        ensures
            r@ == items@,
            r.spec_capacity() == items@.len(),
    {
        let cap = items.len();
        IArray { items, cap }
    }

    fn is_static(&self) -> (r: bool)
        ensures
            r == self.spec_is_static(),
    {
        self.cap == 0
    }

    /// The array's capacity, which the header invariant keeps at or above
    /// the length.
    pub fn capacity(&self) -> (r: usize)
        ensures
            r == self.spec_capacity(),
            self@.len() <= r,
    {
        proof {
            use_type_invariant(&*self);
        }
        self.cap
    }

    /// The number of stored elements, which the header invariant keeps at
    /// or below the capacity; in particular a static array is empty.
    pub fn len(&self) -> (r: usize)
        ensures
            r == self@.len(),
            r <= self.spec_capacity(),
    {
        proof {
            use_type_invariant(&*self);
        }
        self.items.len()
    }

    /// True when no elements are stored.
    pub fn is_empty(&self) -> (r: bool)
        ensures
            r == (self@.len() == 0),
    {
        self.items.is_empty()
    }

    /// Borrow the stored elements.
    pub fn as_slice(&self) -> (r: &[IValue])
        ensures
            r@ == self@,
    {
        self.items.as_slice()
    }

    /// Borrow the element at `index`.
    pub fn get(&self, index: usize) -> (r: &IValue)
        requires
            index < self@.len(),
        ensures
            *r == self@[index as int],
    {
        &self.items[index]
    }

    /// Ensure capacity for at least `additional` more elements.  If the
    /// capacity already suffices nothing changes; otherwise the capacity
    /// at least doubles (amortized-doubling policy) and in any case reaches
    /// the exact requirement in this single call.
    pub fn reserve(&mut self, additional: usize)
        requires
            old(self)@.len() + additional <= usize::MAX,
        ensures
            final(self)@ == old(self)@,
            final(self).spec_capacity()
                == reserved_capacity(old(self).spec_capacity(), old(self)@.len() + additional as int),
            final(self).spec_capacity() >= old(self).spec_capacity(),
            final(self).spec_capacity() >= old(self)@.len() + additional,
    {
        proof {
            use_type_invariant(&*self);
        }
        let len = self.items.len();
        let desired = len + additional;
        if self.cap >= desired {
            return ;
        }
        let doubled = if self.cap <= usize::MAX / 2 {
            self.cap * 2
        } else {
            usize::MAX
        };
        let newcap = if desired > doubled {
            desired
        } else {
            doubled
        };
        self.resize_internal(newcap);
    }

    /// Set the capacity record to exactly `cap`, which must cover the
    /// current length.  In the model every capacity change is this one
    /// field update; no allocator state is kept.
    fn resize_internal(&mut self, cap: usize)
        requires
            old(self)@.len() <= cap,
        ensures
            final(self)@ == old(self)@,
            final(self).spec_capacity() == cap,
    {
        self.cap = cap;
    }

    /// Pop elements until at most `len` remain; capacity is unchanged.
    pub fn truncate(&mut self, len: usize)
        ensures
            final(self)@ == old(self)@.take(
                if len <= old(self)@.len() {
                    len as int
                } else {
                    old(self)@.len() as int
                },
            ),
            final(self).spec_capacity() == old(self).spec_capacity(),
    {
        proof {
            use_type_invariant(&*self);
        }
        if self.is_static() {
            proof {
                assert(self.items@ =~= old(self)@.take(0));
            }
            return ;
        }
        let ghost orig = self.items@;
        let mut items: Vec<IValue> = Vec::new();
        std::mem::swap(&mut items, &mut self.items);
        while items.len() > len
            invariant
                items@ == orig.take(items@.len() as int),
                items@.len() >= len || items@.len() == orig.len(),
                items@.len() <= orig.len(),
            decreases items@.len(),
        {
            proof {
                assert(orig.take(items@.len() - 1) =~= orig.take(
                    items@.len() as int,
                ).subrange(0, items@.len() - 1));
            }
            items.pop();
        }
        std::mem::swap(&mut items, &mut self.items);
        proof {
            assert(orig.take(orig.len() as int) =~= orig);
        }
    }

    /// Remove every element; capacity is unchanged.
    pub fn clear(&mut self)
        ensures
            final(self)@ == Seq::<IValue>::empty(),
            final(self).spec_capacity() == old(self).spec_capacity(),
    {
        self.truncate(0);
        proof {
            assert(old(self)@.take(0) =~= Seq::<IValue>::empty());
        }
    }

    /// Append `item`, growing the capacity by the doubling policy if it is
    /// exhausted.
    pub fn push(&mut self, item: IValue)
        requires
            old(self)@.len() < usize::MAX,
        ensures
            final(self)@ == old(self)@.push(item),
            final(self).spec_capacity()
                == reserved_capacity(old(self).spec_capacity(), old(self)@.len() + 1 as int),
    {
        proof {
            use_type_invariant(&*self);
        }
        self.reserve(1);
        let mut items: Vec<IValue> = Vec::new();
        std::mem::swap(&mut items, &mut self.items);
        items.push(item);
        std::mem::swap(&mut items, &mut self.items);
    }

    /// Append every element of `items`, in order.
    pub fn extend_from_vec(&mut self, items: Vec<IValue>)
        requires
            old(self)@.len() + items@.len() <= usize::MAX,
        ensures
            final(self)@ == old(self)@ + items@,
            final(self).spec_capacity() >= old(self).spec_capacity(),
    {
        let ghost given = items@;
        let mut items = items;
        while items.len() > 0
            invariant
                items@.len() <= given.len(),
                items@ == given.skip(given.len() - items@.len()),
                self@ == old(self)@ + given.take(given.len() - items@.len()),
                self@.len() + items@.len() <= usize::MAX,
                self.spec_capacity() >= old(self).spec_capacity(),
            decreases items@.len(),
        {
            let ghost k: int = given.len() - items@.len();
            let x = items.remove(0);
            proof {
                assert(x == given[k]);
                assert(items@ =~= given.skip(k + 1));
            }
            self.push(x);
            proof {
                assert(self@ =~= old(self)@ + given.take(k + 1));
            }
        }
        proof {
            assert(self@ =~= old(self)@ + given);
        }
    }

    /// Remove and return the last element, if any.  The static array always
    /// answers `None` without touching memory.
    pub fn pop(&mut self) -> (r: Option<IValue>)
        ensures
            old(self)@.len() == 0 ==> r is None && final(self)@ == old(self)@,
            old(self)@.len() > 0 ==> r == Some(old(self)@.last()) && final(self)@
                == old(self)@.drop_last(),
            final(self).spec_capacity() == old(self).spec_capacity(),
    {
        proof {
            use_type_invariant(&*self);
        }
        if self.is_static() {
            return None;
        }
        let mut items: Vec<IValue> = Vec::new();
        std::mem::swap(&mut items, &mut self.items);
        let r = items.pop();
        std::mem::swap(&mut items, &mut self.items);
        r
    }

    /// Insert `item` at `index`, shifting the following elements up by one.
    /// An out-of-range index is a precondition violation.
    pub fn insert(&mut self, index: usize, item: IValue)
        requires
            index <= old(self)@.len(),
            old(self)@.len() < usize::MAX,
        ensures
            final(self)@ == old(self)@.insert(index as int, item),
            final(self).spec_capacity()
                == reserved_capacity(old(self).spec_capacity(), old(self)@.len() + 1 as int),
    {
        proof {
            use_type_invariant(&*self);
        }
        self.reserve(1);
        let mut items: Vec<IValue> = Vec::new();
        std::mem::swap(&mut items, &mut self.items);
        items.insert(index, item);
        std::mem::swap(&mut items, &mut self.items);
    }

    /// Remove and return the element at `index`, shifting the following
    /// elements down by one.  An out-of-range index is a precondition
    /// violation.
    pub fn remove(&mut self, index: usize) -> (r: IValue)
        requires
            index < old(self)@.len(),
        ensures
            r == old(self)@[index as int],
            final(self)@ == old(self)@.remove(index as int),
            final(self).spec_capacity() == old(self).spec_capacity(),
    {
        proof {
            use_type_invariant(&*self);
        }
        let mut items: Vec<IValue> = Vec::new();
        std::mem::swap(&mut items, &mut self.items);
        let r = items.remove(index);
        std::mem::swap(&mut items, &mut self.items);
        r
    }

    /// Remove and return the element at `index`, moving the last element
    /// into its place; O(1), does not preserve order.
    pub fn swap_remove(&mut self, index: usize) -> (r: IValue)
        requires
            index < old(self)@.len(),
        ensures
            r == old(self)@[index as int],
            final(self)@ == old(self)@.update(index as int, old(self)@.last()).drop_last(),
            final(self).spec_capacity() == old(self).spec_capacity(),
    {
        proof {
            use_type_invariant(&*self);
        }
        let mut items: Vec<IValue> = Vec::new();
        std::mem::swap(&mut items, &mut self.items);
        let r = items.swap_remove(index);
        std::mem::swap(&mut items, &mut self.items);
        r
    }

    /// Replace the element at `index`: the in-place mutation step of the
    /// original's mutable element access, which cannot hand out a mutable
    /// slice here.  An out-of-range index is a precondition violation.
    pub fn set(&mut self, index: usize, value: IValue)
        requires
            index < old(self)@.len(),
        ensures
            final(self)@ == old(self)@.update(index as int, value),
            final(self).spec_capacity() == old(self).spec_capacity(),
    {
        proof {
            use_type_invariant(&*self);
        }
        let mut items: Vec<IValue> = Vec::new();
        std::mem::swap(&mut items, &mut self.items);
        let ghost before = items@;
        items.remove(index);
        items.insert(index, value);
        std::mem::swap(&mut items, &mut self.items);
        proof {
            assert(self.items@ =~= before.update(index as int, value));
        }
    }

    /// Shrink the capacity to the current length; an emptied array returns
    /// to the static representation.
    pub fn shrink_to_fit(&mut self)
        ensures
            final(self)@ == old(self)@,
            final(self).spec_capacity() == old(self)@.len(),
    {
        let len = self.items.len();
        self.resize_internal(len);
    }
}

/// Inserting at a valid index and removing at the same index restores the
/// original sequence.  With the contracts of `IArray::insert` and
/// `IArray::remove`, the pair of calls restores the array's contents.
pub proof fn lemma_insert_remove(s: Seq<IValue>, i: int, x: IValue)
    requires
        0 <= i <= s.len(),
    ensures
        s.insert(i, x).remove(i) == s,
{
    assert(s.insert(i, x).remove(i) =~= s);
}

/// A consuming cursor over an array being dismantled: it owns exactly the
/// elements not yet produced and yields them in order.  Once the last
/// element is out the iterator is exhausted and produces nothing, so it is
/// safe to stop pulling at any point; whatever remains is released with
/// the iterator.
#[derive(Debug)]
pub struct IntoIter {
    rest: Vec<IValue>,
}

impl View for IntoIter {
    type V = Seq<IValue>;

    closed spec fn view(&self) -> Seq<IValue> {
        self.rest@.reverse()
    }
}

impl IArray {
    /// Convert the array into a consuming iterator over its elements,
    /// transferring ownership of the storage.
    pub fn into_iter(self) -> (r: IntoIter)
        ensures
            r@ == self@,
    {
        let mut this = self;
        let mut items: Vec<IValue> = Vec::new();
        std::mem::swap(&mut items, &mut this.items);
        let ghost orig = items@;
        let mut rest: Vec<IValue> = Vec::new();
        while items.len() > 0
            invariant
                items@.len() <= orig.len(),
                items@ == orig.take(items@.len() as int),
                rest@ == orig.skip(items@.len() as int).reverse(),
            decreases items@.len(),
        {
            let ghost k = items@.len() as int;
            let x = items.pop().unwrap();
            rest.push(x);
            proof {
                assert(x == orig[k - 1]);
                assert(items@ =~= orig.take(k - 1));
                assert(rest@ =~= orig.skip(k - 1).reverse());
            }
        }
        proof {
            assert(rest@.reverse() =~= orig);
        }
        IntoIter { rest }
    }
}

impl IntoIter {
    /// Produce the next element, or nothing once exhausted.
    pub fn next(&mut self) -> (r: Option<IValue>)
        ensures
            old(self)@.len() == 0 ==> r is None && final(self)@ == old(self)@,
            old(self)@.len() > 0 ==> r == Some(old(self)@.first()) && final(self)@
                == old(self)@.drop_first(),
    {
        let r = self.rest.pop();
        proof {
            if old(self)@.len() > 0 {
                assert(self.rest@.reverse() =~= old(self)@.drop_first());
            }
        }
        r
    }
}

/// Deep clone of a value tree: the copy has the same model as the source.
#[verifier::loop_isolation(false)]
fn clone_value(v: &IValue) -> (r: IValue)
    ensures
        r.model() == v.model(),
    decreases v,
{
    match v {
        IValue::Null => IValue::Null,
        IValue::Bool(b) => IValue::Bool(*b),
        IValue::Number(n) => IValue::Number(*n),
        IValue::String(s) => IValue::String(s.clone()),
        IValue::Array(arr) => {
            proof {
                assert(decreases_to!(*v => *arr));
            }
            IValue::Array(clone_array(arr))
        },
        IValue::Object(o) => {
            let len = o.len();
            let mut out: Vec<ObjectEntry> = Vec::new();
            let mut i: usize = 0;
            while i < len
                invariant
                    i <= len,
                    len == o@.len(),
                    out@.len() == i,
                    forall|j: int| 0 <= j < i ==> (#[trigger] out@[j]).key@ == o@[j].key@
                        && out@[j].value.model() == o@[j].value.model(),
                decreases len - i,
            {
                let e = o.get(i);
                proof {
                    assert(decreases_to!(*v => *o));
                    assert(decreases_to!(*o => o.entries));
                    assert(decreases_to!(o.entries => o.entries@[i as int]));
                    assert(*e == o.entries@[i as int]);
                }
                let key = e.key.clone();
                let value = clone_value(&e.value);
                out.push(ObjectEntry { key, value });
                i += 1;
            }
            proof {
                lemma_obj_models(out@);
                lemma_obj_models(o@);
                assert(obj_models(out@) =~= obj_models(o@));
            }
            IValue::Object(IObject::from_entries(out))
        },
    }
}

/// Deep clone of an array, sized to its length as a fresh clone is.
fn clone_array(a: &IArray) -> (r: IArray)
    ensures
        r.models() == a.models(),
        r.spec_capacity() == a@.len(),
    decreases a,
{
    let len = a.len();
    let mut out: Vec<IValue> = Vec::new();
    let mut i: usize = 0;
    while i < len
        invariant
            i <= len,
            len == a@.len(),
            out@.len() == i,
            forall|j: int| 0 <= j < i ==> (#[trigger] out@[j]).model() == a@[j].model(),
        decreases len - i,
    {
        let e = a.get(i);
        proof {
            assert(decreases_to!(*a => a.items));
            assert(decreases_to!(a.items => a.items@[i as int]));
            assert(*e == a.items@[i as int]);
        }
        out.push(clone_value(e));
        i += 1;
    }
    proof {
        lemma_seq_models(out@);
        lemma_seq_models(a@);
        assert(seq_models(out@) =~= seq_models(a@));
    }
    IArray::from_vec(out)
}

impl Clone for IValue {
    /// Deep, element-wise clone: the copy has the same model.
    fn clone(&self) -> (r: Self)
        ensures
            r.model() == self.model(),
    {
        clone_value(self)
    }
}

impl Clone for IArray {
    /// Deep, element-wise clone into a freshly sized allocation: a value
    /// type, never shared by reference, so later operations on either
    /// array cannot affect the other.
    fn clone(&self) -> (r: Self)
        ensures
            r.models() == self.models(),
            r.spec_capacity() == self@.len(),
    {
        clone_array(self)
    }
}

/// Structural equality of value trees: equality of their canonical
/// models.  Object entries compare as a key-unique mapping — entry order
/// does not matter, and a duplicated key counts by its last occurrence —
/// computed by comparing the canonical archive forms of the two trees.
fn value_eq(a: &IValue, b: &IValue) -> (r: bool)
    ensures
        r == (a.model().canon() == b.model().canon()),
{
    let x = crate::archive::ArchivableJson::from_value(a);
    let y = crate::archive::ArchivableJson::from_value(b);
    crate::archive::archived_eq(&x, &y)
}

/// Structural equality of arrays: equality of their elements' canonical
/// models, in order.
fn arrays_eq(a: &IArray, b: &IArray) -> (r: bool)
    ensures
        r == (canon_seq(a.models()) == canon_seq(b.models())),
{
    let alen = a.len();
    let blen = b.len();
    proof {
        lemma_seq_models(a@);
        lemma_seq_models(b@);
        lemma_canon_seq(seq_models(a@));
        lemma_canon_seq(seq_models(b@));
    }
    if alen != blen {
        return false;
    }
    let mut i: usize = 0;
    while i < alen
        invariant
            i <= alen,
            alen == a@.len(),
            alen == b@.len(),
            seq_models(a@).len() == a@.len(),
            seq_models(b@).len() == b@.len(),
            canon_seq(seq_models(a@)).len() == a@.len(),
            canon_seq(seq_models(b@)).len() == b@.len(),
            forall|j: int| 0 <= j < a@.len() ==> #[trigger] canon_seq(seq_models(a@))[j]
                == a@[j].model().canon(),
            forall|j: int| 0 <= j < b@.len() ==> #[trigger] canon_seq(seq_models(b@))[j]
                == b@[j].model().canon(),
            forall|j: int| 0 <= j < i ==> #[trigger] canon_seq(seq_models(a@))[j] == canon_seq(
                seq_models(b@),
            )[j],
        decreases alen - i,
    {
        let ea = a.get(i);
        let eb = b.get(i);
        if !value_eq(ea, eb) {
            proof {
                assert(canon_seq(seq_models(a@))[i as int] != canon_seq(seq_models(b@))[
                    i as int]);
            }
            return false;
        }
        i += 1;
    }
    proof {
        assert(canon_seq(seq_models(a@)) =~= canon_seq(seq_models(b@)));
    }
    true
}

/// An array is structurally larger than each of its elements, so
/// recursion over a value tree may descend into them.
pub proof fn lemma_array_index_decreases(a: &IArray, i: int)
    requires
        0 <= i < a@.len(),
    ensures
        decreases_to!(*a => a@[i]),
{
    assert(decreases_to!(*a => a.items));
    assert(decreases_to!(a.items => a.items@[i]));
}

/// An object is structurally larger than each of its entries, so recursion
/// over a value tree may descend into them.
pub proof fn lemma_object_index_decreases(o: &IObject, i: int)
    requires
        0 <= i < o@.len(),
    ensures
        decreases_to!(*o => o@[i]),
{
    assert(decreases_to!(*o => o.entries));
    assert(decreases_to!(o.entries => o.entries@[i]));
}

impl PartialEq for IValue {
    fn eq(&self, other: &IValue) -> bool {
        value_eq(self, other)
    }
}

impl vstd::std_specs::cmp::PartialEqSpecImpl for IValue {
    open spec fn obeys_eq_spec() -> bool {
        true
    }

    open spec fn eq_spec(&self, other: &IValue) -> bool {
        self.model().canon() == other.model().canon()
    }
}

impl PartialEq for IArray {
    fn eq(&self, other: &IArray) -> bool {
        arrays_eq(self, other)
    }
}

impl vstd::std_specs::cmp::PartialEqSpecImpl for IArray {
    open spec fn obeys_eq_spec() -> bool {
        true
    }

    open spec fn eq_spec(&self, other: &IArray) -> bool {
        canon_seq(self.models()) == canon_seq(other.models())
    }
}


} // verus!
