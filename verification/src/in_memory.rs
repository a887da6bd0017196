//! A field-oriented in-memory store: entity name to record id to a
//! string-to-string field table. Used directly as a development adapter and
//! as the simulated data of the SQL adapter.

use vstd::prelude::*;

use crate::config::SettingsMap;
use crate::config::SettingsModel;
use crate::config::settings_get;
use crate::config::settings_set;
use crate::storage::StorageError;
use crate::text::str_eq;

verus! {

/// The model of a field table: entities to rows to fields.
pub type TableModel = Seq<(Seq<char>, Seq<(Seq<char>, SettingsModel)>)>;

/// The rows of `entity`, if it is known.
pub open spec fn table_entity(m: TableModel, entity: Seq<char>) -> Option<
    Seq<(Seq<char>, SettingsModel)>,
>
    decreases m.len(),
{
    if m.len() == 0 {
        None
    } else if m[0].0 == entity {
        Some(m[0].1)
    } else {
        table_entity(m.drop_first(), entity)
    }
}

/// The fields of row `id`, if it is present.
pub open spec fn table_row(rows: Seq<(Seq<char>, SettingsModel)>, id: Seq<char>) -> Option<
    SettingsModel,
>
    decreases rows.len(),
{
    if rows.len() == 0 {
        None
    } else if rows[0].0 == id {
        Some(rows[0].1)
    } else {
        table_row(rows.drop_first(), id)
    }
}

/// The rows with row `id` set to `fields`: replaced in place, else appended.
pub open spec fn rows_set(
    rows: Seq<(Seq<char>, SettingsModel)>,
    id: Seq<char>,
    fields: SettingsModel,
) -> Seq<(Seq<char>, SettingsModel)>
    decreases rows.len(),
{
    if rows.len() == 0 {
        seq![(id, fields)]
    } else if rows[0].0 == id {
        seq![(id, fields)] + rows.drop_first()
    } else {
        seq![rows[0]] + rows_set(rows.drop_first(), id, fields)
    }
}

/// The table with `(entity, id)` set to `fields`: the entity's rows are
/// updated in place, or a new entity is appended.
pub open spec fn table_set(
    m: TableModel,
    entity: Seq<char>,
    id: Seq<char>,
    fields: SettingsModel,
) -> TableModel
    decreases m.len(),
{
    if m.len() == 0 {
        seq![(entity, seq![(id, fields)])]
    } else if m[0].0 == entity {
        seq![(m[0].0, rows_set(m[0].1, id, fields))] + m.drop_first()
    } else {
        seq![m[0]] + table_set(m.drop_first(), entity, id, fields)
    }
}

/// The requested keys projected out of a field table, later requests
/// overriding earlier ones; absent keys are skipped.
pub open spec fn project_fields(sm: SettingsModel, keys: Seq<Seq<char>>, acc: SettingsModel) -> SettingsModel
    decreases keys.len(),
{
    if keys.len() == 0 {
        acc
    } else {
        let acc2 = match settings_get(sm, keys[0]) {
            Some(v) => settings_set(acc, keys[0], v),
            None => acc,
        };
        project_fields(sm, keys.drop_first(), acc2)
    }
}

struct TableEntity {
    entity: String,
    rows: Vec<(String, SettingsMap)>,
}

/// An in-memory adapter over field tables; data lives for the process and
/// is lost on restart.
pub struct InMemoryAdapter {
    data: Vec<TableEntity>,
}

impl View for InMemoryAdapter {
    type V = TableModel;

    closed spec fn view(&self) -> TableModel {
        Seq::new(
            self.data@.len(),
            |i: int|
                if 0 <= i < self.data@.len() {
                    (
                        self.data@[i].entity@,
                        Seq::new(
                            self.data@[i].rows@.len(),
                            |j: int|
                                if 0 <= j < self.data@[i].rows@.len() {
                                    (self.data@[i].rows@[j].0@, self.data@[i].rows@[j].1@)
                                } else {
                                    (Seq::empty(), Seq::empty())
                                },
                        ),
                    )
                } else {
                    (Seq::empty(), Seq::empty())
                },
        )
    }
}

/// The development fixture: one user and one product.
pub open spec fn memory_fixture() -> TableModel {
    seq![
        (
            "users"@,
            seq![
                (
                    "user1"@,
                    seq![
                        ("name"@, "John Doe"@),
                        ("email"@, "john@example.com"@),
                    ],
                ),
            ],
        ),
        (
            "products"@,
            seq![
                (
                    "prod1"@,
                    seq![
                        ("name"@, "Test Product"@),
                        ("price"@, "19.99"@),
                    ],
                ),
            ],
        ),
    ]
}

/// Builds the field map of one fixture row from its key-value pairs.
fn fixture_fields(k1: &str, v1: &str, k2: &str, v2: &str) -> (r: SettingsMap)
    requires
        k1@ != k2@,
    ensures
        r@ == seq![(k1@, v1@), (k2@, v2@)],
{
    let mut m = SettingsMap::new();
    m.insert(String::from_str(k1), String::from_str(v1));
    proof {
        reveal_with_fuel(crate::config::settings_set, 4);
        assert(m@ =~= seq![(k1@, v1@)]);
    }
    m.insert(String::from_str(k2), String::from_str(v2));
    proof {
        reveal_with_fuel(crate::config::settings_set, 4);
        assert(m@ =~= seq![(k1@, v1@), (k2@, v2@)]);
    }
    m
}

impl InMemoryAdapter {
    /// An adapter seeded with the development fixture.
    pub fn new() -> (r: Self)
        ensures
            r@ == memory_fixture(),
    {
        proof {
            reveal_strlit("name");
            reveal_strlit("email");
            reveal_strlit("price");
            assert("name"@.len() == 4 && "email"@.len() == 5 && "price"@.len() == 5);
            assert("name"@[0] == 'n' && "price"@[0] == 'p');
            assert("name"@ != "email"@ && "name"@ != "price"@);
        }
        let user_fields = fixture_fields("name", "John Doe", "email", "john@example.com");
        let product_fields = fixture_fields("name", "Test Product", "price", "19.99");
        let mut users: Vec<(String, SettingsMap)> = Vec::new();
        users.push((String::from_str("user1"), user_fields));
        let mut products: Vec<(String, SettingsMap)> = Vec::new();
        products.push((String::from_str("prod1"), product_fields));
        let mut data: Vec<TableEntity> = Vec::new();
        data.push(TableEntity { entity: String::from_str("users"), rows: users });
        data.push(TableEntity { entity: String::from_str("products"), rows: products });
        let r = InMemoryAdapter { data };
        proof {
            assert(r@ =~= memory_fixture()) by {
                assert(r@[0].1 =~= memory_fixture()[0].1);
                assert(r@[1].1 =~= memory_fixture()[1].1);
            }
        }
        r
    }

    /// An adapter with no data at all.
    pub fn new_empty() -> (r: Self)
        ensures
            r@ == Seq::<(Seq<char>, Seq<(Seq<char>, SettingsModel)>)>::empty(),
    {
        let r = InMemoryAdapter { data: Vec::new() };
        proof {
            assert(r@ =~= Seq::<(Seq<char>, Seq<(Seq<char>, SettingsModel)>)>::empty());
        }
        r
    }

    /// Adds or replaces the row `(entity, id)` with the given fields.
    #[verifier::loop_isolation(false)]
    pub fn set_entity(&mut self, entity: &str, id: &str, entity_data: SettingsMap) -> (r: Result<
        (),
        StorageError,
    >)
        ensures
            r is Ok,
            final(self)@ == table_set(old(self)@, entity@, id@, entity_data@),
    {
        let ghost old_model = self@;
        let mut i: usize = 0;
        while i < self.data.len()
            invariant
                i <= self.data@.len(),
                self@ == old_model,
                old_model.len() == self.data@.len(),
                forall|k: int| 0 <= k < i ==> (#[trigger] old_model[k]).0 != entity@,
            decreases self.data@.len() - i,
        {
            if str_eq(self.data[i].entity.as_str(), entity) {
                proof {
                    lemma_table_set_found(old_model, entity@, id@, entity_data@, i as int);
                }
                let ghost rows_model = old_model[i as int].1;
                let rows = &mut self.data[i].rows;
                let ghost rows0 = rows@;
                let mut j: usize = 0;
                let mut replaced = false;
                while j < rows.len()
                    invariant
                        j <= rows@.len(),
                        !replaced ==> rows@ == rows0,
                        !replaced ==> forall|k: int|
                            0 <= k < j ==> (#[trigger] rows_model[k]).0 != id@,
                        rows_model.len() == rows0.len(),
                        forall|k: int|
                            0 <= k < rows0.len() ==> (#[trigger] rows_model[k]) == (
                            rows0[k].0@,
                            rows0[k].1@,
                        ),
                        replaced ==> views_of(rows@) =~= rows_set(rows_model, id@, entity_data@),
                    decreases rows@.len() - j + (if replaced {
                        0int
                    } else {
                        1int
                    }),
                {
                    if replaced {
                        break ;
                    }
                    if str_eq(rows[j].0.as_str(), id) {
                        proof {
                            lemma_rows_set_found(rows_model, id@, entity_data@, j as int);
                        }
                        rows.remove(j);
                        rows.insert(j, (String::from_str(id), entity_data.clone()));
                        replaced = true;
                        proof {
                            assert(views_of(rows@) =~= rows_model.update(
                                j as int,
                                (id@, entity_data@),
                            ));
                        }
                        break ;
                    }
                    j = j + 1;
                }
                if !replaced {
                    proof {
                        lemma_rows_set_absent(rows_model, id@, entity_data@);
                    }
                    rows.push((String::from_str(id), entity_data));
                    proof {
                        assert(views_of(rows@) =~= rows_model.push((id@, entity_data@)));
                    }
                } else {
                }
                proof {
                    assert(self@ =~= old_model.update(
                        i as int,
                        (entity@, rows_set(rows_model, id@, entity_data@)),
                    )) by {
                        assert forall|k: int| 0 <= k < self@.len() implies self@[k] == old_model.update(
                            i as int,
                            (entity@, rows_set(rows_model, id@, entity_data@)),
                        )[k] by {
                            if k == i as int {
                                assert(self@[k].1 =~= views_of(self.data@[k].rows@));
                            }
                        }
                    }
                    assert(seq![(old_model[i as int].0, rows_set(rows_model, id@, entity_data@))]
                        + old_model.drop_first().skip(i as int) =~= old_model.update(
                        i as int,
                        (entity@, rows_set(rows_model, id@, entity_data@)),
                    ).skip(i as int));
                }
                return Ok(());
            }
            i = i + 1;
        }
        proof {
            lemma_table_set_absent(old_model, entity@, id@, entity_data@);
        }
        let mut rows: Vec<(String, SettingsMap)> = Vec::new();
        rows.push((String::from_str(id), entity_data));
        self.data.push(TableEntity { entity: String::from_str(entity), rows });
        proof {
            assert(self@ =~= old_model.push((entity@, seq![(id@, entity_data@)]))) by {
                assert forall|k: int| 0 <= k < self@.len() implies self@[k] == old_model.push(
                    (entity@, seq![(id@, entity_data@)]),
                )[k] by {
                    if k == old_model.len() {
                        assert(self@[k].1 =~= seq![(id@, entity_data@)]);
                    }
                }
            }
        }
        Ok(())
    }

    /// The requested fields of row `(entity, id)`: every stored field when
    /// `fields` is empty, else the present ones among those named.
    #[verifier::loop_isolation(false)]
    pub fn fetch_fields(&self, entity: &str, id: &str, fields: &[&str]) -> (r: Result<
        SettingsMap,
        StorageError,
    >)
        ensures
            match table_entity(self@, entity@) {
                None => r matches Err(e) && e is EntityNotFound,
                Some(rows) => match table_row(rows, id@) {
                    None => r matches Err(e) && e is EntityNotFound,
                    Some(sm) => r matches Ok(m) && m@ == (if fields@.len() == 0 {
                        sm
                    } else {
                        project_fields(
                            sm,
                            fields@.map_values(|k: &str| k@),
                            Seq::<(Seq<char>, Seq<char>)>::empty(),
                        )
                    }),
                },
            },
    {
        let mut i: usize = 0;
        while i < self.data.len()
            invariant
                i <= self.data@.len(),
                self@.len() == self.data@.len(),
                forall|k: int| 0 <= k < i ==> (#[trigger] self@[k]).0 != entity@,
            decreases self.data@.len() - i,
        {
            if str_eq(self.data[i].entity.as_str(), entity) {
                proof {
                    lemma_table_entity_found(self@, entity@, i as int);
                }
                let ghost rows_model = self@[i as int].1;
                let rows = &self.data[i].rows;
                let mut j: usize = 0;
                while j < rows.len()
                    invariant
                        j <= rows@.len(),
                        i < self.data@.len(),
                        rows == &self.data@[i as int].rows,
                        self@.len() == self.data@.len(),
                        rows_model == self@[i as int].1,
                        rows_model.len() == rows@.len(),
                        forall|k: int| 0 <= k < j ==> (#[trigger] rows_model[k]).0 != id@,
                    decreases rows@.len() - j,
                {
                    if str_eq(rows[j].0.as_str(), id) {
                        proof {
                            assert(rows_model[j as int] == (rows@[j as int].0@, rows@[j as int].1@));
                            lemma_table_row_found(rows_model, id@, j as int);
                        }
                        let sm = &rows[j].1;
                        if fields.len() == 0 {
                            return Ok(sm.clone());
                        }
                        let ghost kv = fields@.map_values(|k: &str| k@);
                        let mut result = SettingsMap::new();
                        let mut t: usize = 0;
                        proof {
                            assert(kv.skip(0) =~= kv);
                        }
                        while t < fields.len()
                            invariant
                                t <= fields@.len(),
                                kv.len() == fields@.len(),
                                project_fields(sm@, kv, Seq::<(Seq<char>, Seq<char>)>::empty())
                                    == project_fields(sm@, kv.skip(t as int), result@),
                            decreases fields@.len() - t,
                        {
                            proof {
                                assert(kv.skip(t as int)[0] == kv[t as int]);
                                assert(kv[t as int] == fields@[t as int]@);
                                assert(kv.skip(t as int).drop_first() =~= kv.skip(t + 1));
                            }
                            match sm.get(fields[t]) {
                                Some(v) => {
                                    result.insert(
                                        String::from_str(fields[t]),
                                        v.clone(),
                                    );
                                },
                                None => {},
                            }
                            t = t + 1;
                        }
                        proof {
                            assert(kv.skip(t as int) =~= Seq::<Seq<char>>::empty());
                        }
                        return Ok(result);
                    }
                    proof {
                        assert(rows_model[j as int] == (rows@[j as int].0@, rows@[j as int].1@));
                    }
                    j = j + 1;
                }
                proof {
                    lemma_table_row_absent(rows_model, id@);
                }
                return Err(
                    StorageError::EntityNotFound(String::from_str("Row not found in table")),
                );
            }
            i = i + 1;
        }
        proof {
            lemma_table_entity_absent(self@, entity@);
        }
        Err(StorageError::EntityNotFound(String::from_str("Entity not found in table")))
    }
}

/// The views of a row vector, elementwise.
pub open spec fn views_of(rows: Seq<(String, SettingsMap)>) -> Seq<(Seq<char>, SettingsModel)> {
    Seq::new(
        rows.len(),
        |j: int|
            if 0 <= j < rows.len() {
                (rows[j].0@, rows[j].1@)
            } else {
                (Seq::empty(), Seq::empty())
            },
    )
}

proof fn lemma_table_entity_found(m: TableModel, entity: Seq<char>, i: int)
    requires
        0 <= i < m.len(),
        m[i].0 == entity,
        forall|j: int| 0 <= j < i ==> (#[trigger] m[j]).0 != entity,
    ensures
        table_entity(m, entity) == Some(m[i].1),
    decreases i,
{
    if i > 0 {
        assert forall|j: int| 0 <= j < i - 1 implies (#[trigger] m.drop_first()[j]).0 != entity by {
            assert(m.drop_first()[j] == m[j + 1]);
        }
        assert(m.drop_first()[i - 1] == m[i]);
        lemma_table_entity_found(m.drop_first(), entity, i - 1);
    }
}

proof fn lemma_table_entity_absent(m: TableModel, entity: Seq<char>)
    requires
        forall|j: int| 0 <= j < m.len() ==> (#[trigger] m[j]).0 != entity,
    ensures
        table_entity(m, entity) is None,
    decreases m.len(),
{
    if m.len() > 0 {
        assert forall|j: int| 0 <= j < m.drop_first().len() implies (#[trigger] m.drop_first()[j]).0
            != entity by {
            assert(m.drop_first()[j] == m[j + 1]);
        }
        lemma_table_entity_absent(m.drop_first(), entity);
    }
}

proof fn lemma_table_row_found(rows: Seq<(Seq<char>, SettingsModel)>, id: Seq<char>, j: int)
    requires
        0 <= j < rows.len(),
        rows[j].0 == id,
        forall|k: int| 0 <= k < j ==> (#[trigger] rows[k]).0 != id,
    ensures
        table_row(rows, id) == Some(rows[j].1),
    decreases j,
{
    if j > 0 {
        assert forall|k: int| 0 <= k < j - 1 implies (#[trigger] rows.drop_first()[k]).0 != id by {
            assert(rows.drop_first()[k] == rows[k + 1]);
        }
        assert(rows.drop_first()[j - 1] == rows[j]);
        lemma_table_row_found(rows.drop_first(), id, j - 1);
    }
}

proof fn lemma_table_row_absent(rows: Seq<(Seq<char>, SettingsModel)>, id: Seq<char>)
    requires
        forall|k: int| 0 <= k < rows.len() ==> (#[trigger] rows[k]).0 != id,
    ensures
        table_row(rows, id) is None,
    decreases rows.len(),
{
    if rows.len() > 0 {
        assert forall|k: int| 0 <= k < rows.drop_first().len() implies (
        #[trigger] rows.drop_first()[k]).0 != id by {
            assert(rows.drop_first()[k] == rows[k + 1]);
        }
        lemma_table_row_absent(rows.drop_first(), id);
    }
}

proof fn lemma_rows_set_found(
    rows: Seq<(Seq<char>, SettingsModel)>,
    id: Seq<char>,
    fields: SettingsModel,
    j: int,
)
    requires
        0 <= j < rows.len(),
        rows[j].0 == id,
        forall|k: int| 0 <= k < j ==> (#[trigger] rows[k]).0 != id,
    ensures
        rows_set(rows, id, fields) == rows.update(j, (id, fields)),
    decreases j,
{
    if j == 0 {
        assert(seq![(id, fields)] + rows.drop_first() =~= rows.update(0, (id, fields)));
    } else {
        assert forall|k: int| 0 <= k < j - 1 implies (#[trigger] rows.drop_first()[k]).0 != id by {
            assert(rows.drop_first()[k] == rows[k + 1]);
        }
        assert(rows.drop_first()[j - 1] == rows[j]);
        lemma_rows_set_found(rows.drop_first(), id, fields, j - 1);
        assert(seq![rows[0]] + rows.drop_first().update(j - 1, (id, fields)) =~= rows.update(
            j,
            (id, fields),
        ));
    }
}

proof fn lemma_rows_set_absent(
    rows: Seq<(Seq<char>, SettingsModel)>,
    id: Seq<char>,
    fields: SettingsModel,
)
    requires
        forall|k: int| 0 <= k < rows.len() ==> (#[trigger] rows[k]).0 != id,
    ensures
        rows_set(rows, id, fields) == rows.push((id, fields)),
    decreases rows.len(),
{
    if rows.len() == 0 {
        assert(seq![(id, fields)] =~= rows.push((id, fields)));
    } else {
        assert forall|k: int| 0 <= k < rows.drop_first().len() implies (
        #[trigger] rows.drop_first()[k]).0 != id by {
            assert(rows.drop_first()[k] == rows[k + 1]);
        }
        lemma_rows_set_absent(rows.drop_first(), id, fields);
        assert(seq![rows[0]] + rows.drop_first().push((id, fields)) =~= rows.push((id, fields)));
    }
}

proof fn lemma_table_set_found(
    m: TableModel,
    entity: Seq<char>,
    id: Seq<char>,
    fields: SettingsModel,
    i: int,
)
    requires
        0 <= i < m.len(),
        m[i].0 == entity,
        forall|j: int| 0 <= j < i ==> (#[trigger] m[j]).0 != entity,
    ensures
        table_set(m, entity, id, fields) == m.update(i, (entity, rows_set(m[i].1, id, fields))),
    decreases i,
{
    if i == 0 {
        assert(seq![(m[0].0, rows_set(m[0].1, id, fields))] + m.drop_first() =~= m.update(
            0,
            (entity, rows_set(m[0].1, id, fields)),
        ));
    } else {
        assert forall|j: int| 0 <= j < i - 1 implies (#[trigger] m.drop_first()[j]).0 != entity by {
            assert(m.drop_first()[j] == m[j + 1]);
        }
        assert(m.drop_first()[i - 1] == m[i]);
        lemma_table_set_found(m.drop_first(), entity, id, fields, i - 1);
        assert(seq![m[0]] + m.drop_first().update(i - 1, (entity, rows_set(m[i].1, id, fields)))
            =~= m.update(i, (entity, rows_set(m[i].1, id, fields))));
    }
}

proof fn lemma_table_set_absent(
    m: TableModel,
    entity: Seq<char>,
    id: Seq<char>,
    fields: SettingsModel,
)
    requires
        forall|j: int| 0 <= j < m.len() ==> (#[trigger] m[j]).0 != entity,
    ensures
        table_set(m, entity, id, fields) == m.push((entity, seq![(id, fields)])),
    decreases m.len(),
{
    if m.len() == 0 {
        assert(seq![(entity, seq![(id, fields)])] =~= m.push((entity, seq![(id, fields)])));
    } else {
        assert forall|j: int| 0 <= j < m.drop_first().len() implies (#[trigger] m.drop_first()[j]).0
            != entity by {
            assert(m.drop_first()[j] == m[j + 1]);
        }
        lemma_table_set_absent(m.drop_first(), entity, id, fields);
        assert(seq![m[0]] + m.drop_first().push((entity, seq![(id, fields)])) =~= m.push(
            (entity, seq![(id, fields)]),
        ));
    }
}

} // verus!
