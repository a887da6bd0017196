//! Records: the JSON objects that adapters return, held as a sequence of
//! top-level fields. Each field's value is kept as the serialized JSON text
//! the backend produced, with `null` distinguished so that lookups can
//! answer the way the wire protocol needs.

use vstd::prelude::*;

verus! {

/// One top-level value of a record: JSON `null`, or any other JSON value
/// held as its serialized text.
pub enum RecordValue {
    Null,
    Json(String),
}

/// The model of a record value.
pub ghost enum ValueModel {
    VNull,
    VJson(Seq<char>),
}

impl View for RecordValue {
    type V = ValueModel;

    open spec fn view(&self) -> ValueModel {
        match self {
            RecordValue::Null => ValueModel::VNull,
            RecordValue::Json(t) => ValueModel::VJson(t@),
        }
    }
}

/// The JSON text of a value: `null` or the held text.
pub open spec fn value_text(v: ValueModel) -> Seq<char> {
    match v {
        ValueModel::VNull => "null"@,
        ValueModel::VJson(t) => t,
    }
}

impl Clone for RecordValue {
    fn clone(&self) -> (r: Self)
        ensures
            r@ == self@,
    {
        match self {
            RecordValue::Null => RecordValue::Null,
            RecordValue::Json(t) => RecordValue::Json(t.clone()),
        }
    }
}

impl RecordValue {
    /// True on JSON `null`.
    pub fn is_null(&self) -> (r: bool)
        ensures
            r == (self@ is VNull),
    {
        match self {
            RecordValue::Null => true,
            RecordValue::Json(_) => false,
        }
    }

    /// The JSON text of the value.
    pub fn to_text(&self) -> (r: String)
        ensures
            r@ == value_text(self@),
    {
        match self {
            RecordValue::Null => String::from_str("null"),
            RecordValue::Json(t) => t.clone(),
        }
    }
}

struct RecordField {
    key: String,
    value: RecordValue,
}

/// A record: the top-level fields of a JSON object, in serialization order.
pub struct Record {
    fields: Vec<RecordField>,
}

/// The model of a record: its fields as (key, value) pairs in order.
pub type RecordModel = Seq<(Seq<char>, ValueModel)>;

impl View for Record {
    type V = RecordModel;

    closed spec fn view(&self) -> RecordModel {
        Seq::new(
            self.fields@.len(),
            |i: int|
                if 0 <= i < self.fields@.len() {
                    (self.fields@[i].key@, self.fields@[i].value@)
                } else {
                    (Seq::empty(), ValueModel::VNull)
                },
        )
    }
}

/// No two fields share a key.
pub open spec fn keys_unique(fs: RecordModel) -> bool {
    forall|i: int, j: int| 0 <= i < j < fs.len() ==> (#[trigger] fs[i]).0 != (#[trigger] fs[j]).0
}

/// The value of the first field named `k`, if any.
pub open spec fn record_get(fs: RecordModel, k: Seq<char>) -> Option<ValueModel>
    decreases fs.len(),
{
    if fs.len() == 0 {
        None
    } else if fs[0].0 == k {
        Some(fs[0].1)
    } else {
        record_get(fs.drop_first(), k)
    }
}

/// The record with field `k` set to `v`: the first field named `k` is
/// replaced in place, else a new field is appended.
pub open spec fn record_set(fs: RecordModel, k: Seq<char>, v: ValueModel) -> RecordModel
    decreases fs.len(),
{
    if fs.len() == 0 {
        seq![(k, v)]
    } else if fs[0].0 == k {
        seq![(k, v)] + fs.drop_first()
    } else {
        seq![fs[0]] + record_set(fs.drop_first(), k, v)
    }
}

proof fn lemma_record_set_found(fs: RecordModel, k: Seq<char>, v: ValueModel, i: int)
    requires
        0 <= i < fs.len(),
        fs[i].0 == k,
        forall|j: int| 0 <= j < i ==> (#[trigger] fs[j]).0 != k,
    ensures
        record_set(fs, k, v) == fs.update(i, (k, v)),
    decreases i,
{
    if i == 0 {
        assert(record_set(fs, k, v) == seq![(k, v)] + fs.drop_first());
        assert(seq![(k, v)] + fs.drop_first() =~= fs.update(0, (k, v)));
    } else {
        assert(fs[0].0 != k);
        assert forall|j: int| 0 <= j < i - 1 implies (#[trigger] fs.drop_first()[j]).0 != k by {
            assert(fs.drop_first()[j] == fs[j + 1]);
        }
        assert(fs.drop_first()[i - 1] == fs[i]);
        lemma_record_set_found(fs.drop_first(), k, v, i - 1);
        assert(seq![fs[0]] + fs.drop_first().update(i - 1, (k, v)) =~= fs.update(i, (k, v)));
    }
}

proof fn lemma_record_set_absent(fs: RecordModel, k: Seq<char>, v: ValueModel)
    requires
        forall|j: int| 0 <= j < fs.len() ==> (#[trigger] fs[j]).0 != k,
    ensures
        record_set(fs, k, v) == fs.push((k, v)),
    decreases fs.len(),
{
    if fs.len() == 0 {
        assert(seq![(k, v)] =~= fs.push((k, v)));
    } else {
        assert forall|j: int| 0 <= j < fs.drop_first().len() implies (#[trigger] fs.drop_first()[j]).0
            != k by {
            assert(fs.drop_first()[j] == fs[j + 1]);
        }
        lemma_record_set_absent(fs.drop_first(), k, v);
        assert(seq![fs[0]] + fs.drop_first().push((k, v)) =~= fs.push((k, v)));
    }
}

/// The JSON text of one field: `"key":value`.
pub open spec fn render_field(f: (Seq<char>, ValueModel)) -> Seq<char> {
    "\""@ + f.0 + "\":"@ + value_text(f.1)
}

/// The comma-led JSON text of every field after the first.
pub open spec fn render_rest(fs: RecordModel) -> Seq<char>
    decreases fs.len(),
{
    if fs.len() == 0 {
        Seq::empty()
    } else {
        ","@ + render_field(fs[0]) + render_rest(fs.drop_first())
    }
}

/// The JSON text of a record: `{"k":v,...}` in field order.
pub open spec fn render_record(fs: RecordModel) -> Seq<char> {
    if fs.len() == 0 {
        "{}"@
    } else {
        "{"@ + render_field(fs[0]) + render_rest(fs.drop_first()) + "}"@
    }
}

/// Peeling one field off the front of `render_rest`.
proof fn lemma_render_rest_take_succ(fs: RecordModel, i: int)
    requires
        0 <= i < fs.len(),
    ensures
        render_rest(fs.take(i + 1)) == render_rest(fs.take(i)) + (","@ + render_field(fs[i])),
    decreases i,
{
    if i == 0 {
        assert(fs.take(1)[0] == fs[0]);
        assert(fs.take(1).drop_first() =~= Seq::<(Seq<char>, ValueModel)>::empty());
        assert(fs.take(0) =~= Seq::<(Seq<char>, ValueModel)>::empty());
        assert(render_rest(fs.take(1)) == ","@ + render_field(fs[0]) + render_rest(
            Seq::<(Seq<char>, ValueModel)>::empty(),
        ));
        assert((","@ + render_field(fs[0])) + Seq::<char>::empty() =~= ","@ + render_field(fs[0]));
        assert(render_rest(fs.take(1)) =~= Seq::<char>::empty() + (","@ + render_field(fs[0])));
    } else {
        let ys = fs.drop_first();
        lemma_render_rest_take_succ(ys, i - 1);
        assert(fs.take(i + 1)[0] == fs[0]);
        assert(fs.take(i)[0] == fs[0]);
        assert(fs.take(i + 1).drop_first() =~= ys.take(i));
        assert(fs.take(i).drop_first() =~= ys.take(i - 1));
        assert(ys[i - 1] == fs[i]);
        let head = ","@ + render_field(fs[0]);
        assert(render_rest(fs.take(i + 1)) == head + render_rest(ys.take(i)));
        assert(render_rest(fs.take(i)) == head + render_rest(ys.take(i - 1)));
        assert(head + (render_rest(ys.take(i - 1)) + (","@ + render_field(fs[i]))) =~= (head
            + render_rest(ys.take(i - 1))) + (","@ + render_field(fs[i])));
    }
}

impl Clone for Record {
    fn clone(&self) -> (r: Self)
        ensures
            r@ == self@,
    {
        let mut fields: Vec<RecordField> = Vec::new();
        let mut i: usize = 0;
        while i < self.fields.len()
            invariant
                i <= self.fields.len(),
                fields@.len() == i,
                forall|k: int|
                    0 <= k < i ==> (#[trigger] fields@[k]).key@ == self.fields@[k].key@
                        && fields@[k].value@ == self.fields@[k].value@,
            decreases self.fields.len() - i,
        {
            let f = &self.fields[i];
            fields.push(RecordField { key: f.key.clone(), value: f.value.clone() });
            i = i + 1;
        }
        let r = Record { fields };
        proof {
            assert(r@ =~= self@);
        }
        r
    }
}

impl Record {
    /// A record with no fields.
    pub fn new() -> (r: Self)
        ensures
            r@ == Seq::<(Seq<char>, ValueModel)>::empty(),
    {
        let r = Record { fields: Vec::new() };
        proof {
            assert(r@ =~= Seq::<(Seq<char>, ValueModel)>::empty());
        }
        r
    }

    /// Sets the field `key` to `value`: replaces the value of an existing
    /// field in place, else appends a new field.
    #[verifier::loop_isolation(false)]
    pub fn insert(&mut self, key: String, value: RecordValue)
        ensures
            final(self)@ == record_set(old(self)@, key@, value@),
            keys_unique(old(self)@) ==> keys_unique(final(self)@),
    {
        let ghost old_model = self@;
        let mut i: usize = 0;
        while i < self.fields.len()
            invariant
                i <= self.fields.len(),
                self@ == old_model,
                old_model.len() == self.fields@.len(),
                forall|k: int| 0 <= k < i ==> (#[trigger] old_model[k]).0 != key@,
            decreases self.fields.len() - i,
        {
            if self.fields[i].key == key {
                proof {
                    assert(old_model[i as int].0 == key@);
                    lemma_record_set_found(old_model, key@, value@, i as int);
                }
                self.fields.remove(i);
                self.fields.insert(i, RecordField { key, value });
                proof {
                    assert(self@ =~= old_model.update(i as int, (key@, value@)));
                    assert(keys_unique(old_model) ==> keys_unique(self@)) by {
                        if keys_unique(old_model) {
                            assert forall|a: int, b: int| 0 <= a < b < self@.len()
                                implies (#[trigger] self@[a]).0 != (#[trigger] self@[b]).0 by {
                                assert(old_model[a].0 != old_model[b].0);
                                assert(self@[a].0 == if a == i {
                                    key@
                                } else {
                                    old_model[a].0
                                });
                                assert(self@[b].0 == if b == i {
                                    key@
                                } else {
                                    old_model[b].0
                                });
                                if a == i {
                                    assert(old_model[b].0 != key@) by {
                                        if old_model[b].0 == key@ {
                                            assert(old_model[i as int].0 == old_model[b].0);
                                        }
                                    }
                                } else if b == i {
                                    assert(old_model[a].0 != key@);
                                }
                            }
                        }
                    }
                }
                return ;
            }
            i = i + 1;
        }
        proof {
            lemma_record_set_absent(old_model, key@, value@);
        }
        self.fields.push(RecordField { key, value });
        proof {
            assert(self@ =~= old_model.push((key@, value@)));
            assert(keys_unique(old_model) ==> keys_unique(self@)) by {
                if keys_unique(old_model) {
                    assert forall|a: int, b: int| 0 <= a < b < self@.len() implies (
                    #[trigger] self@[a]).0 != (#[trigger] self@[b]).0 by {
                        if b < old_model.len() {
                            assert(old_model[a].0 != old_model[b].0);
                        } else {
                            assert(self@[b].0 == key@);
                            assert(old_model[a].0 != key@);
                        }
                    }
                }
            }
        }
    }

    /// The value of the field named `key`, if the record has one.
    pub fn get(&self, key: &String) -> (r: Option<&RecordValue>)
        ensures
            match r {
                Some(v) => record_get(self@, key@) == Some(v@),
                None => record_get(self@, key@) is None,
            },
    {
        let mut i: usize = 0;
        while i < self.fields.len()
            invariant
                i <= self.fields.len(),
                self@.len() == self.fields@.len(),
                forall|k: int| 0 <= k < i ==> (#[trigger] self@[k]).0 != key@,
            decreases self.fields.len() - i,
        {
            if self.fields[i].key == *key {
                proof {
                    lemma_record_get_found(self@, key@, i as int);
                }
                return Some(&self.fields[i].value);
            }
            i = i + 1;
        }
        proof {
            lemma_record_get_absent(self@, key@);
        }
        None
    }

    /// The record's JSON text: `{"k":v,...}` in field order.
    pub fn to_json_text(&self) -> (r: String)
        ensures
            r@ == render_record(self@),
    {
        let ghost model = self@;
        let mut out = String::from_str("{");
        if self.fields.len() == 0 {
            out.append("}");
            proof {
                reveal_strlit("{");
                reveal_strlit("}");
                reveal_strlit("{}");
                assert(out@ =~= render_record(model));
            }
            return out;
        }
        self.push_field_text(0, &mut out);
        proof {
            assert(model.drop_first().take(0) =~= Seq::<(Seq<char>, ValueModel)>::empty());
            assert(("{"@ + render_field(model[0])) + render_rest(
                Seq::<(Seq<char>, ValueModel)>::empty(),
            ) =~= "{"@ + render_field(model[0]));
        }
        let mut i: usize = 1;
        while i < self.fields.len()
            invariant
                1 <= i <= self.fields.len(),
                model == self@,
                model.len() == self.fields@.len(),
                out@ == "{"@ + render_field(model[0]) + render_rest(model.drop_first().take(
                    i - 1,
                )),
            decreases self.fields.len() - i,
        {
            out.append(",");
            self.push_field_text(i, &mut out);
            proof {
                lemma_render_rest_take_succ(model.drop_first(), i - 1);
                assert(model.drop_first()[i - 1] == model[i as int]);
                assert(("{"@ + render_field(model[0]) + render_rest(model.drop_first().take(i - 1))
                    + ","@ + render_field(model[i as int])) =~= "{"@ + render_field(model[0]) + (
                render_rest(model.drop_first().take(i - 1)) + (","@ + render_field(
                    model[i as int],
                ))));
            }
            i = i + 1;
        }
        out.append("}");
        proof {
            assert(model.drop_first().take(i - 1) =~= model.drop_first());
            assert(out@ =~= render_record(model));
        }
        out
    }

    /// Appends `"key":value` for field `i` to `out`.
    fn push_field_text(&self, i: usize, out: &mut String)
        requires
            i < self.fields@.len(),
            self@.len() == self.fields@.len(),
        ensures
            final(out)@ == old(out)@ + render_field(self@[i as int]),
    {
        out.append("\"");
        out.append(self.fields[i].key.as_str());
        out.append("\":");
        let t = self.fields[i].value.to_text();
        out.append(t.as_str());
        assert(final(out)@ =~= old(out)@ + render_field(self@[i as int]));
    }
}

proof fn lemma_record_get_found(fs: RecordModel, k: Seq<char>, i: int)
    requires
        0 <= i < fs.len(),
        fs[i].0 == k,
        forall|j: int| 0 <= j < i ==> (#[trigger] fs[j]).0 != k,
    ensures
        record_get(fs, k) == Some(fs[i].1),
    decreases i,
{
    if i == 0 {
    } else {
        assert(fs[0].0 != k);
        assert forall|j: int| 0 <= j < i - 1 implies (#[trigger] fs.drop_first()[j]).0 != k by {
            assert(fs.drop_first()[j] == fs[j + 1]);
        }
        assert(fs.drop_first()[i - 1] == fs[i]);
        lemma_record_get_found(fs.drop_first(), k, i - 1);
    }
}

proof fn lemma_record_get_absent(fs: RecordModel, k: Seq<char>)
    requires
        forall|j: int| 0 <= j < fs.len() ==> (#[trigger] fs[j]).0 != k,
    ensures
        record_get(fs, k) is None,
    decreases fs.len(),
{
    if fs.len() > 0 {
        assert forall|j: int| 0 <= j < fs.drop_first().len() implies (#[trigger] fs.drop_first()[j]).0
            != k by {
            assert(fs.drop_first()[j] == fs[j + 1]);
        }
        lemma_record_get_absent(fs.drop_first(), k);
    }
}

} // verus!
