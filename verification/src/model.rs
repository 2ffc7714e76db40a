use vstd::prelude::*;

use crate::value::key_lt;
use crate::value::lemma_key_lt_irreflexive;
use crate::value::lemma_key_lt_transitive;
use crate::value::lemma_key_lt_trichotomy;
use crate::value::INumber;

verus! {

broadcast use vstd::seq::axiom_seq_index_decreases, vstd::seq::axiom_seq_subrange_decreases;

/// One key/value entry of an object, at the model level.
pub struct EntryModel {
    pub key: Seq<char>,
    pub value: JsonModel,
}

/// The mathematical model shared by the value handle and the canonical
/// archive representation: a closed recursive sum over the six JSON kinds.
/// Object entries are kept as a sequence, so the model also records their
/// order.
pub enum JsonModel {
    Null,
    Bool(bool),
    Number(INumber),
    Text(Seq<char>),
    Array(Seq<JsonModel>),
    Object(Seq<EntryModel>),
}

/// No two entries share a key.
pub open spec fn keys_distinct(es: Seq<EntryModel>) -> bool {
    forall|i: int, j: int| 0 <= i < j < es.len() ==> es[i].key != es[j].key
}

/// Entries strictly sorted by the canonical key order.
pub open spec fn entries_sorted(es: Seq<EntryModel>) -> bool {
    forall|i: int, j: int| 0 <= i < j < es.len() ==> key_lt(es[i].key, es[j].key)
}

/// Strictly sorted entries form a key-unique mapping.
pub proof fn lemma_sorted_keys_distinct(es: Seq<EntryModel>)
    requires
        entries_sorted(es),
    ensures
        keys_distinct(es),
{
    assert forall|i: int, j: int| 0 <= i < j < es.len() implies es[i].key != es[j].key by {
        lemma_key_lt_trichotomy(es[i].key, es[j].key);
    }
}

impl JsonModel {
    /// Well-formed trees: numbers are in normal form with finite doubles,
    /// and object entries stand in canonical form — strictly sorted by
    /// key, hence key-unique (`lemma_sorted_keys_distinct`) — recursively.
    pub open spec fn wf(self) -> bool
        decreases self,
    {
        match self {
            JsonModel::Null => true,
            JsonModel::Bool(_) => true,
            JsonModel::Number(n) => n.wf(),
            JsonModel::Text(_) => true,
            JsonModel::Array(s) => seq_wf(s),
            JsonModel::Object(es) => entries_sorted(es) && entries_wf(es),
        }
    }

    /// The canonical form of the tree: numbers in normal form, and every
    /// object's entries key-unique and sorted by the canonical key order,
    /// the last occurrence of a duplicate key kept — what the forward
    /// conversion archives.
    pub open spec fn canon(self) -> JsonModel
        decreases self,
    {
        match self {
            JsonModel::Number(n) => JsonModel::Number(n.normal()),
            JsonModel::Array(s) => JsonModel::Array(canon_seq(s)),
            JsonModel::Object(es) => JsonModel::Object(canon_entries(es)),
            _ => self,
        }
    }

    /// Every object in the tree, at every depth, has entries strictly
    /// sorted by the canonical key order — and therefore key-unique.
    pub open spec fn objects_sorted(self) -> bool
        decreases self,
    {
        match self {
            JsonModel::Array(s) => seq_objects_sorted(s),
            JsonModel::Object(es) => entries_sorted(es) && entries_objects_sorted(es),
            _ => true,
        }
    }

    /// Every double in the tree is finite.
    pub open spec fn floats_finite(self) -> bool
        decreases self,
    {
        match self {
            JsonModel::Number(n) => n.float_finite(),
            JsonModel::Array(s) => seq_floats_finite(s),
            JsonModel::Object(es) => entries_floats_finite(es),
            _ => true,
        }
    }

    /// The tree with every number brought to normal form and object entry
    /// order untouched: what the reverse conversion returns, which rebuilds
    /// objects in archived order.
    pub open spec fn normal(self) -> JsonModel
        decreases self,
    {
        match self {
            JsonModel::Number(n) => JsonModel::Number(n.normal()),
            JsonModel::Array(s) => JsonModel::Array(normal_seq(s)),
            JsonModel::Object(es) => JsonModel::Object(normal_entries(es)),
            _ => self,
        }
    }
}

/// Every element of the sequence is well-formed.
pub open spec fn seq_wf(s: Seq<JsonModel>) -> bool
    decreases s,
{
    s.len() == 0 || (seq_wf(s.drop_last()) && s.last().wf())
}

/// Every entry's value is well-formed.
pub open spec fn entries_wf(es: Seq<EntryModel>) -> bool
    decreases es,
{
    es.len() == 0 || (entries_wf(es.drop_last()) && es.last().value.wf())
}

/// Every element has all its objects in canonical order.
pub open spec fn seq_objects_sorted(s: Seq<JsonModel>) -> bool
    decreases s,
{
    s.len() == 0 || (seq_objects_sorted(s.drop_last()) && s.last().objects_sorted())
}

/// Every entry's value has all its objects in canonical order.
pub open spec fn entries_objects_sorted(es: Seq<EntryModel>) -> bool
    decreases es,
{
    es.len() == 0 || (entries_objects_sorted(es.drop_last())
        && es.last().value.objects_sorted())
}

/// Every element holds only finite doubles.
pub open spec fn seq_floats_finite(s: Seq<JsonModel>) -> bool
    decreases s,
{
    s.len() == 0 || (seq_floats_finite(s.drop_last()) && s.last().floats_finite())
}

/// Every entry's value holds only finite doubles.
pub open spec fn entries_floats_finite(es: Seq<EntryModel>) -> bool
    decreases es,
{
    es.len() == 0 || (entries_floats_finite(es.drop_last()) && es.last().value.floats_finite())
}



/// `seq_floats_finite` holds exactly when each element holds only finite
/// doubles.
pub proof fn seq_floats_finite_char(s: Seq<JsonModel>)
    ensures
        seq_floats_finite(s) <==> (forall|i: int|
            0 <= i < s.len() ==> #[trigger] s[i].floats_finite()),
    decreases s,
{
    if s.len() > 0 {
        seq_floats_finite_char(s.drop_last());
        if seq_floats_finite(s) {
            assert forall|i: int| 0 <= i < s.len() implies #[trigger] s[i].floats_finite() by {
                if i < s.len() - 1 {
                    assert(s.drop_last()[i] == s[i]);
                    assert(s.drop_last()[i].floats_finite());
                } else {
                    assert(s[i] == s.last());
                }
            }
        }
        if forall|i: int| 0 <= i < s.len() ==> #[trigger] s[i].floats_finite() {
            assert forall|i: int| 0 <= i < s.drop_last().len() implies #[trigger] s.drop_last()[i].floats_finite() by {
                assert(s.drop_last()[i] == s[i]);
                assert(s[i].floats_finite());
            }
            assert(s[s.len() - 1].floats_finite());
            assert(s.last().floats_finite());
        }
    }
}

/// `entries_floats_finite` holds exactly when each entry's value holds only
/// finite doubles.
pub proof fn entries_floats_finite_char(es: Seq<EntryModel>)
    ensures
        entries_floats_finite(es) <==> (forall|i: int|
            0 <= i < es.len() ==> #[trigger] es[i].value.floats_finite()),
    decreases es,
{
    if es.len() > 0 {
        entries_floats_finite_char(es.drop_last());
        if entries_floats_finite(es) {
            assert forall|i: int| 0 <= i < es.len() implies #[trigger] es[i].value.floats_finite() by {
                if i < es.len() - 1 {
                    assert(es.drop_last()[i] == es[i]);
                    assert(es.drop_last()[i].value.floats_finite());
                } else {
                    assert(es[i] == es.last());
                }
            }
        }
        if forall|i: int| 0 <= i < es.len() ==> #[trigger] es[i].value.floats_finite() {
            assert forall|i: int| 0 <= i < es.drop_last().len() implies #[trigger] es.drop_last()[i].value.floats_finite() by {
                assert(es.drop_last()[i] == es[i]);
                assert(es[i].value.floats_finite());
            }
            assert(es[es.len() - 1].value.floats_finite());
            assert(es.last().value.floats_finite());
        }
    }
}

/// `normal`, element by element.
pub open spec fn normal_seq(s: Seq<JsonModel>) -> Seq<JsonModel>
    decreases s,
{
    if s.len() == 0 {
        Seq::empty()
    } else {
        normal_seq(s.drop_last()).push(s.last().normal())
    }
}

/// `normal` on each entry's value; keys are untouched.
pub open spec fn normal_entries(es: Seq<EntryModel>) -> Seq<EntryModel>
    decreases es,
{
    if es.len() == 0 {
        Seq::empty()
    } else {
        normal_entries(es.drop_last()).push(
            EntryModel { key: es.last().key, value: es.last().value.normal() },
        )
    }
}

/// `normal_seq` maps the sequence pointwise.
pub proof fn lemma_normal_seq(s: Seq<JsonModel>)
    ensures
        normal_seq(s).len() == s.len(),
        forall|i: int| 0 <= i < s.len() ==> normal_seq(s)[i] == s[i].normal(),
    decreases s,
{
    if s.len() > 0 {
        lemma_normal_seq(s.drop_last());
        assert forall|i: int| 0 <= i < s.len() implies normal_seq(s)[i] == s[i].normal() by {
            if i < s.len() - 1 {
                assert(s.drop_last()[i] == s[i]);
            }
        }
    }
}

/// `normal_entries` maps the entries pointwise.
pub proof fn lemma_normal_entries(es: Seq<EntryModel>)
    ensures
        normal_entries(es).len() == es.len(),
        forall|i: int| 0 <= i < es.len() ==> normal_entries(es)[i]
            == (EntryModel { key: es[i].key, value: es[i].value.normal() }),
    decreases es,
{
    if es.len() > 0 {
        lemma_normal_entries(es.drop_last());
        assert forall|i: int| 0 <= i < es.len() implies normal_entries(es)[i]
            == (EntryModel { key: es[i].key, value: es[i].value.normal() }) by {
            if i < es.len() - 1 {
                assert(es.drop_last()[i] == es[i]);
            }
        }
    }
}

/// A well-formed tree is a fixed point of `normal`: its numbers are
/// already in normal form.
pub proof fn lemma_wf_normal(m: JsonModel)
    requires
        m.wf(),
    ensures
        m.normal() == m,
    decreases m,
{
    match m {
        JsonModel::Array(s) => {
            lemma_seq_wf_normal(s);
        },
        JsonModel::Object(es) => {
            lemma_entries_wf_normal(es);
        },
        _ => {},
    }
}

/// `lemma_wf_normal`, for each element of a sequence.
pub proof fn lemma_seq_wf_normal(s: Seq<JsonModel>)
    requires
        seq_wf(s),
    ensures
        normal_seq(s) == s,
    decreases s,
{
    if s.len() > 0 {
        lemma_seq_wf_normal(s.drop_last());
        lemma_wf_normal(s.last());
        assert(normal_seq(s) =~= s);
    } else {
        assert(normal_seq(s) =~= s);
    }
}

/// `lemma_wf_normal`, for each entry of an object.
pub proof fn lemma_entries_wf_normal(es: Seq<EntryModel>)
    requires
        entries_wf(es),
    ensures
        normal_entries(es) == es,
    decreases es,
{
    if es.len() > 0 {
        lemma_entries_wf_normal(es.drop_last());
        lemma_wf_normal(es.last().value);
        assert(normal_entries(es) =~= es);
    } else {
        assert(normal_entries(es) =~= es);
    }
}

/// Well-formed trees hold only finite doubles.
pub proof fn lemma_wf_floats_finite(m: JsonModel)
    requires
        m.wf(),
    ensures
        m.floats_finite(),
    decreases m,
{
    match m {
        JsonModel::Array(s) => {
            lemma_seq_wf_floats_finite(s);
        },
        JsonModel::Object(es) => {
            lemma_entries_wf_floats_finite(es);
        },
        _ => {},
    }
}

/// `lemma_wf_floats_finite`, for each element of a sequence.
pub proof fn lemma_seq_wf_floats_finite(s: Seq<JsonModel>)
    requires
        seq_wf(s),
    ensures
        seq_floats_finite(s),
    decreases s,
{
    if s.len() > 0 {
        lemma_seq_wf_floats_finite(s.drop_last());
        lemma_wf_floats_finite(s.last());
    }
}

/// `lemma_wf_floats_finite`, for each entry of an object.
pub proof fn lemma_entries_wf_floats_finite(es: Seq<EntryModel>)
    requires
        entries_wf(es),
    ensures
        entries_floats_finite(es),
    decreases es,
{
    if es.len() > 0 {
        lemma_entries_wf_floats_finite(es.drop_last());
        lemma_wf_floats_finite(es.last().value);
    }
}

/// Insert an entry into a key-sorted entry list: before the first entry
/// whose key is not below the new key, replacing that entry when the keys
/// are equal.
pub open spec fn insert_entry(es: Seq<EntryModel>, e: EntryModel) -> Seq<EntryModel>
    decreases es.len(),
{
    if es.len() == 0 {
        seq![e]
    } else if key_lt(e.key, es[0].key) {
        seq![e] + es
    } else if e.key == es[0].key {
        seq![e] + es.drop_first()
    } else {
        seq![es[0]] + insert_entry(es.drop_first(), e)
    }
}

/// `canon`, element by element.
pub open spec fn canon_seq(s: Seq<JsonModel>) -> Seq<JsonModel>
    decreases s,
{
    if s.len() == 0 {
        Seq::empty()
    } else {
        canon_seq(s.drop_last()).push(s.last().canon())
    }
}

/// `canon` on the entries: each value brought to canonical form and the
/// entry inserted in key order, later entries overwriting earlier ones
/// with the same key.
pub open spec fn canon_entries(es: Seq<EntryModel>) -> Seq<EntryModel>
    decreases es,
{
    if es.len() == 0 {
        Seq::empty()
    } else {
        insert_entry(
            canon_entries(es.drop_last()),
            EntryModel { key: es.last().key, value: es.last().value.canon() },
        )
    }
}

/// `canon_seq` maps the sequence pointwise.
pub proof fn lemma_canon_seq(s: Seq<JsonModel>)
    ensures
        canon_seq(s).len() == s.len(),
        forall|i: int| 0 <= i < s.len() ==> canon_seq(s)[i] == s[i].canon(),
    decreases s,
{
    if s.len() > 0 {
        lemma_canon_seq(s.drop_last());
        assert forall|i: int| 0 <= i < s.len() implies canon_seq(s)[i] == s[i].canon() by {
            if i < s.len() - 1 {
                assert(s.drop_last()[i] == s[i]);
            }
        }
    }
}

/// Where an entry lands: at the first position `pos` whose key is not
/// below the new key — replacing the entry there when the keys are equal,
/// standing between its neighbours otherwise.
pub proof fn lemma_insert_entry_at(es: Seq<EntryModel>, e: EntryModel, pos: int)
    requires
        0 <= pos <= es.len(),
        forall|i: int| 0 <= i < pos ==> key_lt((#[trigger] es[i]).key, e.key),
        pos < es.len() ==> !key_lt(es[pos].key, e.key),
    ensures
        pos < es.len() && es[pos].key == e.key ==> insert_entry(es, e) == es.update(pos, e),
        !(pos < es.len() && es[pos].key == e.key) ==> insert_entry(es, e) == es.take(pos)
            + seq![e] + es.skip(pos),
    decreases es.len(),
{
    if es.len() == 0 {
        assert(insert_entry(es, e) =~= es.take(0) + seq![e] + es.skip(0));
    } else if pos == 0 {
        if es[0].key == e.key {
            lemma_key_lt_irreflexive(e.key);
            assert(insert_entry(es, e) =~= es.update(0, e));
        } else {
            lemma_key_lt_trichotomy(es[0].key, e.key);
            assert(insert_entry(es, e) =~= es.take(0) + seq![e] + es.skip(0));
        }
    } else {
        assert(key_lt(es[0].key, e.key));
        lemma_key_lt_trichotomy(es[0].key, e.key);
        let front = es.drop_first();
        assert forall|i: int| 0 <= i < pos - 1 implies key_lt((#[trigger] front[i]).key, e.key) by {
            assert(front[i] == es[i + 1]);
        }
        if pos - 1 < front.len() {
            assert(front[pos - 1] == es[pos]);
        }
        lemma_insert_entry_at(front, e, pos - 1);
        if pos < es.len() && es[pos].key == e.key {
            assert(seq![es[0]] + front.update(pos - 1, e) =~= es.update(pos, e));
        } else {
            assert(seq![es[0]] + (front.take(pos - 1) + seq![e] + front.skip(pos - 1)) =~= es.take(
                pos,
            ) + seq![e] + es.skip(pos));
        }
    }
}

/// Inserting into a sorted entry list keeps it sorted; every entry of the
/// result is the inserted one or one of the originals.
pub proof fn lemma_insert_entry_sorted(es: Seq<EntryModel>, e: EntryModel)
    requires
        entries_sorted(es),
    ensures
        entries_sorted(insert_entry(es, e)),
        forall|j: int| 0 <= j < insert_entry(es, e).len() ==> #[trigger] insert_entry(es, e)[j]
            == e || es.contains(insert_entry(es, e)[j]),
    decreases es.len(),
{
    let res = insert_entry(es, e);
    if es.len() == 0 {
    } else if key_lt(e.key, es[0].key) {
        assert forall|i: int, j: int| 0 <= i < j < res.len() implies key_lt(
            res[i].key,
            res[j].key,
        ) by {
            if i == 0 {
                assert(res[j] == es[j - 1]);
                if j - 1 > 0 {
                    lemma_key_lt_transitive(e.key, es[0].key, es[j - 1].key);
                }
            } else {
                assert(res[i] == es[i - 1]);
                assert(res[j] == es[j - 1]);
            }
        }
        assert forall|j: int| 0 <= j < res.len() implies #[trigger] res[j] == e || es.contains(
            res[j],
        ) by {
            if j > 0 {
                assert(es[j - 1] == res[j]);
            }
        }
    } else if e.key == es[0].key {
        assert forall|i: int, j: int| 0 <= i < j < res.len() implies key_lt(
            res[i].key,
            res[j].key,
        ) by {
            if i == 0 {
                assert(res[j] == es.drop_first()[j - 1]);
                assert(res[j] == es[j]);
            } else {
                assert(res[i] == es[i]);
                assert(res[j] == es[j]);
            }
        }
        assert forall|j: int| 0 <= j < res.len() implies #[trigger] res[j] == e || es.contains(
            res[j],
        ) by {
            if j > 0 {
                assert(es[j] == res[j]);
            }
        }
    } else {
        lemma_key_lt_trichotomy(e.key, es[0].key);
        assert(key_lt(es[0].key, e.key));
        let front = es.drop_first();
        assert forall|i: int, j: int| 0 <= i < j < front.len() implies key_lt(
            (#[trigger] front[i]).key,
            (#[trigger] front[j]).key,
        ) by {
            assert(front[i] == es[i + 1]);
            assert(front[j] == es[j + 1]);
        }
        lemma_insert_entry_sorted(front, e);
        let rest = insert_entry(front, e);
        assert forall|i: int, j: int| 0 <= i < j < res.len() implies key_lt(
            res[i].key,
            res[j].key,
        ) by {
            if i == 0 {
                assert(res[j] == rest[j - 1]);
                if rest[j - 1] == e {
                } else {
                    assert(front.contains(rest[j - 1]));
                    let k = choose|k: int| 0 <= k < front.len() && front[k] == rest[j - 1];
                    assert(es[k + 1] == rest[j - 1]);
                }
            } else {
                assert(res[i] == rest[i - 1]);
                assert(res[j] == rest[j - 1]);
            }
        }
        assert forall|j: int| 0 <= j < res.len() implies #[trigger] res[j] == e || es.contains(
            res[j],
        ) by {
            if j == 0 {
                assert(es[0] == res[j]);
            } else {
                assert(res[j] == rest[j - 1]);
                if rest[j - 1] != e {
                    assert(front.contains(rest[j - 1]));
                    let k = choose|k: int| 0 <= k < front.len() && front[k] == rest[j - 1];
                    assert(es[k + 1] == res[j]);
                }
            }
        }
    }
}

/// The canonical entries of any entry list are sorted.
pub proof fn lemma_canon_entries_sorted(es: Seq<EntryModel>)
    ensures
        entries_sorted(canon_entries(es)),
    decreases es,
{
    if es.len() > 0 {
        lemma_canon_entries_sorted(es.drop_last());
        lemma_insert_entry_sorted(
            canon_entries(es.drop_last()),
            EntryModel { key: es.last().key, value: es.last().value.canon() },
        );
    }
}

/// A well-formed tree is already canonical.
pub proof fn lemma_wf_canon(m: JsonModel)
    requires
        m.wf(),
    ensures
        m.canon() == m,
    decreases m,
{
    match m {
        JsonModel::Array(s) => {
            lemma_seq_wf_canon(s);
        },
        JsonModel::Object(es) => {
            lemma_entries_wf_canon(es);
        },
        _ => {},
    }
}

/// `lemma_wf_canon`, for each element of a sequence.
pub proof fn lemma_seq_wf_canon(s: Seq<JsonModel>)
    requires
        seq_wf(s),
    ensures
        canon_seq(s) == s,
    decreases s,
{
    if s.len() > 0 {
        lemma_seq_wf_canon(s.drop_last());
        lemma_wf_canon(s.last());
        assert(canon_seq(s) =~= s);
    } else {
        assert(canon_seq(s) =~= s);
    }
}

/// `lemma_wf_canon`, for sorted, well-formed entries: each one keeps its
/// place.
pub proof fn lemma_entries_wf_canon(es: Seq<EntryModel>)
    requires
        entries_sorted(es),
        entries_wf(es),
    ensures
        canon_entries(es) == es,
    decreases es,
{
    if es.len() > 0 {
        let front = es.drop_last();
        assert forall|i: int, j: int| 0 <= i < j < front.len() implies key_lt(
            (#[trigger] front[i]).key,
            (#[trigger] front[j]).key,
        ) by {
            assert(front[i] == es[i]);
            assert(front[j] == es[j]);
        }
        lemma_entries_wf_canon(front);
        lemma_wf_canon(es.last().value);
        let e = EntryModel { key: es.last().key, value: es.last().value.canon() };
        assert(e == es.last());
        assert forall|i: int| 0 <= i < front.len() implies key_lt(
            (#[trigger] front[i]).key,
            e.key,
        ) by {
            assert(front[i] == es[i]);
            assert(key_lt(es[i].key, es[es.len() - 1].key));
        }
        lemma_insert_entry_at(front, e, front.len() as int);
        assert(canon_entries(es) =~= es);
    } else {
        assert(canon_entries(es) =~= Seq::<EntryModel>::empty());
    }
}

/// `seq_objects_sorted` holds exactly when it holds of each element.
pub proof fn seq_objects_sorted_char(s: Seq<JsonModel>)
    ensures
        seq_objects_sorted(s) <==> (forall|i: int|
            0 <= i < s.len() ==> #[trigger] s[i].objects_sorted()),
    decreases s,
{
    if s.len() > 0 {
        seq_objects_sorted_char(s.drop_last());
        if seq_objects_sorted(s) {
            assert forall|i: int| 0 <= i < s.len() implies #[trigger] s[i].objects_sorted() by {
                if i < s.len() - 1 {
                    assert(s.drop_last()[i] == s[i]);
                    assert(s.drop_last()[i].objects_sorted());
                } else {
                    assert(s[i] == s.last());
                }
            }
        }
        if forall|i: int| 0 <= i < s.len() ==> #[trigger] s[i].objects_sorted() {
            assert forall|i: int|
                0 <= i < s.drop_last().len() implies #[trigger] s.drop_last()[i].objects_sorted() by {
                assert(s.drop_last()[i] == s[i]);
                assert(s[i].objects_sorted());
            }
            assert(s[s.len() - 1].objects_sorted());
            assert(s.last().objects_sorted());
        }
    }
}

/// `entries_objects_sorted` holds exactly when it holds of each entry's
/// value.
pub proof fn entries_objects_sorted_char(es: Seq<EntryModel>)
    ensures
        entries_objects_sorted(es) <==> (forall|i: int|
            0 <= i < es.len() ==> #[trigger] es[i].value.objects_sorted()),
    decreases es,
{
    if es.len() > 0 {
        entries_objects_sorted_char(es.drop_last());
        if entries_objects_sorted(es) {
            assert forall|i: int|
                0 <= i < es.len() implies #[trigger] es[i].value.objects_sorted() by {
                if i < es.len() - 1 {
                    assert(es.drop_last()[i] == es[i]);
                    assert(es.drop_last()[i].value.objects_sorted());
                } else {
                    assert(es[i] == es.last());
                }
            }
        }
        if forall|i: int| 0 <= i < es.len() ==> #[trigger] es[i].value.objects_sorted() {
            assert forall|i: int|
                0 <= i < es.drop_last().len()
                    implies #[trigger] es.drop_last()[i].value.objects_sorted() by {
                assert(es.drop_last()[i] == es[i]);
                assert(es[i].value.objects_sorted());
            }
            assert(es[es.len() - 1].value.objects_sorted());
            assert(es.last().value.objects_sorted());
        }
    }
}

/// Canonicalization does what it promises: in `canon` of any tree, every
/// object's entries are strictly sorted by key, and so key-unique, at
/// every depth.
pub proof fn lemma_canon_objects_sorted(m: JsonModel)
    ensures
        m.canon().objects_sorted(),
    decreases m,
{
    match m {
        JsonModel::Array(s) => {
            lemma_seq_canon_objects_sorted(s);
        },
        JsonModel::Object(es) => {
            lemma_canon_entries_sorted(es);
            lemma_entries_canon_objects_sorted(es);
        },
        _ => {},
    }
}

/// `lemma_canon_objects_sorted`, for each element of a sequence.
pub proof fn lemma_seq_canon_objects_sorted(s: Seq<JsonModel>)
    ensures
        seq_objects_sorted(canon_seq(s)),
    decreases s,
{
    seq_objects_sorted_char(canon_seq(s));
    lemma_canon_seq(s);
    assert forall|i: int| 0 <= i < canon_seq(s).len() implies #[trigger] canon_seq(
        s,
    )[i].objects_sorted() by {
        lemma_canon_objects_sorted(s[i]);
    }
}

/// `lemma_canon_objects_sorted`, for the entries of an object.
pub proof fn lemma_entries_canon_objects_sorted(es: Seq<EntryModel>)
    ensures
        entries_objects_sorted(canon_entries(es)),
    decreases es,
{
    if es.len() > 0 {
        let front = canon_entries(es.drop_last());
        let e = EntryModel { key: es.last().key, value: es.last().value.canon() };
        lemma_entries_canon_objects_sorted(es.drop_last());
        lemma_canon_objects_sorted(es.last().value);
        lemma_canon_entries_sorted(es.drop_last());
        lemma_insert_entry_sorted(front, e);
        entries_objects_sorted_char(front);
        entries_objects_sorted_char(insert_entry(front, e));
        assert forall|i: int|
            0 <= i < insert_entry(front, e).len() implies #[trigger] insert_entry(
            front,
            e,
        )[i].value.objects_sorted() by {
            if insert_entry(front, e)[i] != e {
                assert(front.contains(insert_entry(front, e)[i]));
                let k = choose|k: int|
                    0 <= k < front.len() && front[k] == insert_entry(front, e)[i];
                assert(front[k].value.objects_sorted());
            }
        }
    }
}

/// Every value in `canon_entries(es)` is the canonical form of some
/// entry's value in `es`.
pub proof fn lemma_canon_entries_values(es: Seq<EntryModel>)
    ensures
        forall|j: int| 0 <= j < canon_entries(es).len() ==> exists|i: int|
            0 <= i < es.len() && (#[trigger] canon_entries(es)[j]).value == es[i].value.canon(),
    decreases es,
{
    if es.len() > 0 {
        let front = canon_entries(es.drop_last());
        let e = EntryModel { key: es.last().key, value: es.last().value.canon() };
        lemma_canon_entries_values(es.drop_last());
        lemma_canon_entries_sorted(es.drop_last());
        lemma_insert_entry_sorted(front, e);
        assert forall|j: int| 0 <= j < canon_entries(es).len() implies exists|i: int|
            0 <= i < es.len() && (#[trigger] canon_entries(es)[j]).value
            == es[i].value.canon() by {
            if canon_entries(es)[j] == e {
                assert(es[es.len() - 1] == es.last());
                assert(canon_entries(es)[j].value == es[es.len() - 1].value.canon());
            } else {
                assert(front.contains(canon_entries(es)[j]));
                let k = choose|k: int| 0 <= k < front.len() && front[k] == canon_entries(es)[j];
                assert(front[k].value == canon_entries(es)[j].value);
                let i = choose|i: int|
                    0 <= i < es.drop_last().len() && front[k].value == es.drop_last()[i].value.canon();
                assert(es.drop_last()[i] == es[i]);
                assert(canon_entries(es)[j].value == es[i].value.canon());
            }
        }
    }
}

/// Sorted entries whose values `canon` leaves unchanged are a fixed point
/// of `canon_entries`.
pub proof fn lemma_canon_entries_fixed(es: Seq<EntryModel>)
    requires
        entries_sorted(es),
        forall|i: int| 0 <= i < es.len() ==> (#[trigger] es[i]).value.canon() == es[i].value,
    ensures
        canon_entries(es) == es,
    decreases es,
{
    if es.len() > 0 {
        let front = es.drop_last();
        assert forall|i: int, j: int| 0 <= i < j < front.len() implies key_lt(
            (#[trigger] front[i]).key,
            (#[trigger] front[j]).key,
        ) by {
            assert(front[i] == es[i]);
            assert(front[j] == es[j]);
        }
        assert forall|i: int| 0 <= i < front.len() implies (#[trigger] front[i]).value.canon()
            == front[i].value by {
            assert(front[i] == es[i]);
            assert(es[i].value.canon() == es[i].value);
        }
        lemma_canon_entries_fixed(front);
        assert(es[es.len() - 1].value.canon() == es[es.len() - 1].value);
        let e = EntryModel { key: es.last().key, value: es.last().value.canon() };
        assert(e == es.last());
        assert forall|i: int| 0 <= i < front.len() implies key_lt(
            (#[trigger] front[i]).key,
            e.key,
        ) by {
            assert(front[i] == es[i]);
            assert(key_lt(es[i].key, es[es.len() - 1].key));
        }
        lemma_insert_entry_at(front, e, front.len() as int);
        assert(canon_entries(es) =~= es);
    } else {
        assert(canon_entries(es) =~= Seq::<EntryModel>::empty());
    }
}

/// The canonical form is already number-normal: `normal` leaves it
/// unchanged.
pub proof fn lemma_normal_canon(m: JsonModel)
    ensures
        m.canon().normal() == m.canon(),
    decreases m,
{
    match m {
        JsonModel::Array(s) => {
            lemma_canon_seq(s);
            lemma_normal_seq(canon_seq(s));
            assert forall|i: int| 0 <= i < canon_seq(s).len() implies normal_seq(canon_seq(s))[i]
                == canon_seq(s)[i] by {
                lemma_normal_canon(s[i]);
            }
            assert(normal_seq(canon_seq(s)) =~= canon_seq(s));
        },
        JsonModel::Object(es) => {
            let ces = canon_entries(es);
            lemma_canon_entries_values(es);
            lemma_normal_entries(ces);
            assert forall|j: int| 0 <= j < ces.len() implies normal_entries(ces)[j] == ces[j] by {
                let i = choose|i: int| 0 <= i < es.len() && ces[j].value == es[i].value.canon();
                lemma_normal_canon(es[i].value);
            }
            assert(normal_entries(ces) =~= ces);
        },
        _ => {},
    }
}

/// Canonicalizing twice is the same as canonicalizing once.
pub proof fn lemma_canon_idempotent(m: JsonModel)
    ensures
        m.canon().canon() == m.canon(),
    decreases m,
{
    match m {
        JsonModel::Array(s) => {
            lemma_canon_seq(s);
            lemma_canon_seq(canon_seq(s));
            assert forall|i: int| 0 <= i < canon_seq(s).len() implies canon_seq(canon_seq(s))[i]
                == canon_seq(s)[i] by {
                lemma_canon_idempotent(s[i]);
            }
            assert(canon_seq(canon_seq(s)) =~= canon_seq(s));
        },
        JsonModel::Object(es) => {
            let ces = canon_entries(es);
            lemma_canon_entries_sorted(es);
            lemma_canon_entries_values(es);
            assert forall|j: int| 0 <= j < ces.len() implies (#[trigger] ces[j]).value.canon()
                == ces[j].value by {
                let i = choose|i: int| 0 <= i < es.len() && ces[j].value == es[i].value.canon();
                lemma_canon_idempotent(es[i].value);
            }
            lemma_canon_entries_fixed(ces);
        },
        _ => {},
    }
}

/// Canonicalization keeps every double as it is, so it preserves
/// finiteness.
pub proof fn lemma_canon_floats_finite(m: JsonModel)
    requires
        m.floats_finite(),
    ensures
        m.canon().floats_finite(),
    decreases m,
{
    match m {
        JsonModel::Array(s) => {
            lemma_canon_seq(s);
            seq_floats_finite_char(s);
            seq_floats_finite_char(canon_seq(s));
            assert forall|i: int|
                0 <= i < canon_seq(s).len() implies (#[trigger] canon_seq(
                s,
            )[i]).floats_finite() by {
                assert(s[i].floats_finite());
                lemma_canon_floats_finite(s[i]);
            }
        },
        JsonModel::Object(es) => {
            let ces = canon_entries(es);
            lemma_canon_entries_values(es);
            entries_floats_finite_char(es);
            entries_floats_finite_char(ces);
            assert forall|j: int|
                0 <= j < ces.len() implies (#[trigger] ces[j]).value.floats_finite() by {
                let i = choose|i: int| 0 <= i < es.len() && ces[j].value == es[i].value.canon();
                assert(es[i].value.floats_finite());
                lemma_canon_floats_finite(es[i].value);
            }
        },
        _ => {},
    }
}

} // verus!
