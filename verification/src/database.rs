//! Backend adapters: the in-memory mock, the SQL stub, and the Delta-table
//! adapter whose queries a remote engine must run. Each provider registered
//! in the service owns one adapter.

use vstd::prelude::*;

use crate::config::DatabaseProvider;
use crate::config::SettingsMap;
use crate::config::SettingsModel;
use crate::config::settings_get;
use crate::record::Record;
use crate::record::RecordModel;
use crate::record::RecordValue;
use crate::record::ValueModel;
use crate::storage::StorageError;
use crate::storage::assert_required_settings;
use crate::text::str_eq;

verus! {

/// The seeded data of a mock adapter: entity name to (id, record) pairs.
pub type MockModel = Seq<(Seq<char>, Seq<(Seq<char>, RecordModel)>)>;

/// One record model of the mock fixture.
pub open spec fn fixture_user(id: Seq<char>, name: Seq<char>, email: Seq<char>, age: Seq<char>) -> RecordModel {
    seq![
        ("age"@, ValueModel::VJson(age)),
        ("email"@, ValueModel::VJson(email)),
        ("id"@, ValueModel::VJson(id)),
        ("name"@, ValueModel::VJson(name)),
    ]
}

/// One product model of the mock fixture.
pub open spec fn fixture_product(id: Seq<char>, name: Seq<char>, price: Seq<char>, stock: Seq<char>) -> RecordModel {
    seq![
        ("id"@, ValueModel::VJson(id)),
        ("name"@, ValueModel::VJson(name)),
        ("price"@, ValueModel::VJson(price)),
        ("stock"@, ValueModel::VJson(stock)),
    ]
}

/// The mock adapter's built-in fixture: three users and two products.
pub open spec fn mock_fixture() -> MockModel {
    seq![
        (
            "users"@,
            seq![
                ("1"@, fixture_user("\"1\""@, "\"John Doe\""@, "\"john@example.com\""@, "30"@)),
                ("2"@, fixture_user("\"2\""@, "\"Jane Smith\""@, "\"jane@example.com\""@, "25"@)),
                ("3"@, fixture_user("\"3\""@, "\"Sam Lee\""@, "\"sam@example.com\""@, "41"@)),
            ],
        ),
        (
            "products"@,
            seq![
                ("789"@, fixture_product("\"789\""@, "\"Laptop\""@, "999.99"@, "10"@)),
                ("101"@, fixture_product("\"101\""@, "\"Smartphone\""@, "499.99"@, "20"@)),
            ],
        ),
    ]
}

/// The record stored under `entity` and `id` in mock data, if any.
pub open spec fn mock_lookup(m: MockModel, entity: Seq<char>, id: Seq<char>) -> Option<RecordModel>
    decreases m.len(),
{
    if m.len() == 0 {
        None
    } else if m[0].0 == entity {
        mock_lookup_records(m[0].1, id)
    } else {
        mock_lookup(m.drop_first(), entity, id)
    }
}

/// The record under `id` in one entity's rows, if any.
pub open spec fn mock_lookup_records(rows: Seq<(Seq<char>, RecordModel)>, id: Seq<char>) -> Option<
    RecordModel,
>
    decreases rows.len(),
{
    if rows.len() == 0 {
        None
    } else if rows[0].0 == id {
        Some(rows[0].1)
    } else {
        mock_lookup_records(rows.drop_first(), id)
    }
}

struct MockEntity {
    entity: String,
    rows: Vec<(String, Record)>,
}

/// The in-memory mock adapter, seeded with a fixed fixture; a test double
/// for the read path.
pub struct MockAdapter {
    data: Vec<MockEntity>,
}

impl View for MockAdapter {
    type V = MockModel;

    closed spec fn view(&self) -> MockModel {
        Seq::new(
            self.data@.len(),
            |i: int|
                if 0 <= i < self.data@.len() {
                    (
                        self.data@[i].entity@,
                        Seq::new(
                            self.data@[i].rows@.len(),
                            |j: int|
                                if 0 <= j < self.data@[i].rows@.len() {
                                    (self.data@[i].rows@[j].0@, self.data@[i].rows@[j].1@)
                                } else {
                                    (Seq::empty(), Seq::empty())
                                },
                        ),
                    )
                } else {
                    (Seq::empty(), Seq::empty())
                },
        )
    }
}

fn fixture_user_record(id: &str, name: &str, email: &str, age: &str) -> (r: Record)
    ensures
        r@ == fixture_user(id@, name@, email@, age@),
{
    proof {
        reveal_strlit("age");
        reveal_strlit("email");
        reveal_strlit("id");
        reveal_strlit("name");
        assert("age"@.len() == 3 && "email"@.len() == 5 && "id"@.len() == 2 && "name"@.len() == 4);
        assert("age"@ != "email"@ && "age"@ != "id"@ && "age"@ != "name"@ && "email"@ != "id"@
            && "email"@ != "name"@ && "id"@ != "name"@);
    }
    let mut rec = Record::new();
    rec.insert(String::from_str("age"), RecordValue::Json(String::from_str(age)));
    proof {
        reveal_with_fuel(crate::record::record_set, 6);
        assert(rec@ =~= seq![("age"@, ValueModel::VJson(age@))]);
    }
    rec.insert(String::from_str("email"), RecordValue::Json(String::from_str(email)));
    proof {
        reveal_with_fuel(crate::record::record_set, 6);
        assert(rec@ =~= seq![
            ("age"@, ValueModel::VJson(age@)),
            ("email"@, ValueModel::VJson(email@)),
        ]);
    }
    rec.insert(String::from_str("id"), RecordValue::Json(String::from_str(id)));
    proof {
        reveal_with_fuel(crate::record::record_set, 6);
        assert(rec@ =~= seq![
            ("age"@, ValueModel::VJson(age@)),
            ("email"@, ValueModel::VJson(email@)),
            ("id"@, ValueModel::VJson(id@)),
        ]);
    }
    rec.insert(String::from_str("name"), RecordValue::Json(String::from_str(name)));
    proof {
        reveal_with_fuel(crate::record::record_set, 6);
        assert(rec@ =~= fixture_user(id@, name@, email@, age@));
    }
    rec
}

fn fixture_product_record(id: &str, name: &str, price: &str, stock: &str) -> (r: Record)
    ensures
        r@ == fixture_product(id@, name@, price@, stock@),
{
    proof {
        reveal_strlit("id");
        reveal_strlit("name");
        reveal_strlit("price");
        reveal_strlit("stock");
        assert("id"@.len() == 2 && "name"@.len() == 4 && "price"@.len() == 5 && "stock"@.len()
            == 5);
        assert("price"@[0] == 'p' && "stock"@[0] == 's');
        assert("id"@ != "name"@ && "id"@ != "price"@ && "id"@ != "stock"@ && "name"@ != "price"@
            && "name"@ != "stock"@ && "price"@ != "stock"@);
    }
    let mut rec = Record::new();
    rec.insert(String::from_str("id"), RecordValue::Json(String::from_str(id)));
    proof {
        reveal_with_fuel(crate::record::record_set, 6);
        assert(rec@ =~= seq![("id"@, ValueModel::VJson(id@))]);
    }
    rec.insert(String::from_str("name"), RecordValue::Json(String::from_str(name)));
    proof {
        reveal_with_fuel(crate::record::record_set, 6);
        assert(rec@ =~= seq![
            ("id"@, ValueModel::VJson(id@)),
            ("name"@, ValueModel::VJson(name@)),
        ]);
    }
    rec.insert(String::from_str("price"), RecordValue::Json(String::from_str(price)));
    proof {
        reveal_with_fuel(crate::record::record_set, 6);
        assert(rec@ =~= seq![
            ("id"@, ValueModel::VJson(id@)),
            ("name"@, ValueModel::VJson(name@)),
            ("price"@, ValueModel::VJson(price@)),
        ]);
    }
    rec.insert(String::from_str("stock"), RecordValue::Json(String::from_str(stock)));
    proof {
        reveal_with_fuel(crate::record::record_set, 6);
        assert(rec@ =~= fixture_product(id@, name@, price@, stock@));
    }
    rec
}

impl MockAdapter {
    /// A mock adapter seeded with the built-in fixture. Settings are
    /// accepted for interface parity and ignored.
    pub fn new(_settings: SettingsMap) -> (r: Self)
        ensures
            r@ == mock_fixture(),
    {
        let mut users: Vec<(String, Record)> = Vec::new();
        users.push(
            (
                String::from_str("1"),
                fixture_user_record("\"1\"", "\"John Doe\"", "\"john@example.com\"", "30"),
            ),
        );
        users.push(
            (
                String::from_str("2"),
                fixture_user_record("\"2\"", "\"Jane Smith\"", "\"jane@example.com\"", "25"),
            ),
        );
        users.push(
            (
                String::from_str("3"),
                fixture_user_record("\"3\"", "\"Sam Lee\"", "\"sam@example.com\"", "41"),
            ),
        );
        let mut products: Vec<(String, Record)> = Vec::new();
        products.push(
            (
                String::from_str("789"),
                fixture_product_record("\"789\"", "\"Laptop\"", "999.99", "10"),
            ),
        );
        products.push(
            (
                String::from_str("101"),
                fixture_product_record("\"101\"", "\"Smartphone\"", "499.99", "20"),
            ),
        );
        let mut data: Vec<MockEntity> = Vec::new();
        data.push(MockEntity { entity: String::from_str("users"), rows: users });
        data.push(MockEntity { entity: String::from_str("products"), rows: products });
        let r = MockAdapter { data };
        proof {
            assert(r@ =~= mock_fixture()) by {
                assert(r@.len() == 2);
                assert(r@[0].0 =~= "users"@);
                assert(r@[0].1 =~= mock_fixture()[0].1);
                assert(r@[1].0 =~= "products"@);
                assert(r@[1].1 =~= mock_fixture()[1].1);
            }
        }
        r
    }

    /// A mock adapter that insists on its settings: `data_source` and
    /// `max_records` must be present.
    pub fn with_required_settings(settings: SettingsMap) -> (r: Result<Self, StorageError>)
        ensures
            match r {
                Ok(a) => a@ == mock_fixture() && settings_get(settings@, "data_source"@) is Some
                    && settings_get(settings@, "max_records"@) is Some,
                Err(e) => e is ConfigError && (settings_get(settings@, "data_source"@) is None
                    || settings_get(settings@, "max_records"@) is None),
            },
    {
        let required_keys: Vec<&str> = {
            let mut v: Vec<&str> = Vec::new();
            v.push("data_source");
            v.push("max_records");
            v
        };
        proof {
            assert(crate::storage::key_views(required_keys@) =~= seq![
                "data_source"@,
                "max_records"@,
            ]);
        }
        let check = assert_required_settings(&settings, required_keys.as_slice());
        proof {
            crate::storage::lemma_missing_list_presence(
                settings@,
                crate::storage::key_views(required_keys@),
            );
        }
        match check {
            Ok(_) => Ok(MockAdapter::new(settings)),
            Err(e) => Err(e),
        }
    }

    /// The records for `id` in `entity`: one record when the fixture has
    /// it, the not-found error when it does not.
    #[verifier::loop_isolation(false)]
    pub fn fetch_record(&self, entity: &str, id: &str) -> (r: Result<Vec<Record>, StorageError>)
        ensures
            match mock_lookup(self@, entity@, id@) {
                Some(rm) => r matches Ok(v) && v@.len() == 1 && v@[0]@ == rm,
                None => r matches Err(e) && e is RecordNotInDatabase,
            },
    {
        let mut i: usize = 0;
        while i < self.data.len()
            invariant
                i <= self.data.len(),
                self@.len() == self.data@.len(),
                forall|k: int| 0 <= k < i ==> (#[trigger] self@[k]).0 != entity@,
            decreases self.data.len() - i,
        {
            if str_eq(self.data[i].entity.as_str(), entity) {
                proof {
                    lemma_mock_lookup_found(self@, entity@, id@, i as int);
                }
                let rows = &self.data[i].rows;
                let mut j: usize = 0;
                while j < rows.len()
                    invariant
                        j <= rows.len(),
                        i < self.data@.len(),
                        rows == &self.data@[i as int].rows,
                        self@.len() == self.data@.len(),
                        self@[i as int].1.len() == rows@.len(),
                        forall|k: int| 0 <= k < j ==> (#[trigger] self@[i as int].1[k]).0 != id@,
                    decreases rows.len() - j,
                {
                    if str_eq(rows[j].0.as_str(), id) {
                        proof {
                            assert(self@[i as int].1[j as int].0 == id@);
                            lemma_mock_rows_found(self@[i as int].1, id@, j as int);
                        }
                        let mut out: Vec<Record> = Vec::new();
                        out.push(rows[j].1.clone());
                        return Ok(out);
                    }
                    proof {
                        assert(self@[i as int].1[j as int].0 == rows@[j as int].0@);
                    }
                    j = j + 1;
                }
                proof {
                    lemma_mock_rows_absent(self@[i as int].1, id@);
                }
                return Err(
                    StorageError::RecordNotInDatabase(
                        String::from_str("Record not found in mock data"),
                    ),
                );
            }
            i = i + 1;
        }
        proof {
            lemma_mock_lookup_absent(self@, entity@, id@);
        }
        Err(StorageError::RecordNotInDatabase(String::from_str("Entity not found in mock data")))
    }
}

proof fn lemma_mock_lookup_found(m: MockModel, entity: Seq<char>, id: Seq<char>, i: int)
    requires
        0 <= i < m.len(),
        m[i].0 == entity,
        forall|j: int| 0 <= j < i ==> (#[trigger] m[j]).0 != entity,
    ensures
        mock_lookup(m, entity, id) == mock_lookup_records(m[i].1, id),
    decreases i,
{
    if i > 0 {
        assert forall|j: int| 0 <= j < i - 1 implies (#[trigger] m.drop_first()[j]).0 != entity by {
            assert(m.drop_first()[j] == m[j + 1]);
        }
        assert(m.drop_first()[i - 1] == m[i]);
        lemma_mock_lookup_found(m.drop_first(), entity, id, i - 1);
    }
}

proof fn lemma_mock_lookup_absent(m: MockModel, entity: Seq<char>, id: Seq<char>)
    requires
        forall|j: int| 0 <= j < m.len() ==> (#[trigger] m[j]).0 != entity,
    ensures
        mock_lookup(m, entity, id) is None,
    decreases m.len(),
{
    if m.len() > 0 {
        assert forall|j: int| 0 <= j < m.drop_first().len() implies (#[trigger] m.drop_first()[j]).0
            != entity by {
            assert(m.drop_first()[j] == m[j + 1]);
        }
        lemma_mock_lookup_absent(m.drop_first(), entity, id);
    }
}

proof fn lemma_mock_rows_found(rows: Seq<(Seq<char>, RecordModel)>, id: Seq<char>, j: int)
    requires
        0 <= j < rows.len(),
        rows[j].0 == id,
        forall|k: int| 0 <= k < j ==> (#[trigger] rows[k]).0 != id,
    ensures
        mock_lookup_records(rows, id) == Some(rows[j].1),
    decreases j,
{
    if j > 0 {
        assert forall|k: int| 0 <= k < j - 1 implies (#[trigger] rows.drop_first()[k]).0 != id by {
            assert(rows.drop_first()[k] == rows[k + 1]);
        }
        assert(rows.drop_first()[j - 1] == rows[j]);
        lemma_mock_rows_found(rows.drop_first(), id, j - 1);
    }
}

proof fn lemma_mock_rows_absent(rows: Seq<(Seq<char>, RecordModel)>, id: Seq<char>)
    requires
        forall|k: int| 0 <= k < rows.len() ==> (#[trigger] rows[k]).0 != id,
    ensures
        mock_lookup_records(rows, id) is None,
    decreases rows.len(),
{
    if rows.len() > 0 {
        assert forall|k: int| 0 <= k < rows.drop_first().len() implies (
        #[trigger] rows.drop_first()[k]).0 != id by {
            assert(rows.drop_first()[k] == rows[k + 1]);
        }
        lemma_mock_rows_absent(rows.drop_first(), id);
    }
}

/// The SQL adapter. Its query path is not wired to a live database: every
/// lookup reports no rows, which the storage service maps to the missing
/// record error.
pub struct PostgresAdapter {
    id_field: String,
    fields: String,
}

impl PostgresAdapter {
    /// Builds the adapter after checking that the connection settings are
    /// complete: `user`, `password`, `host`, `port`, `dbname`, `fields`.
    pub fn new(settings: &SettingsMap) -> (r: Result<Self, StorageError>)
        ensures
            match r {
                Ok(a) => settings_get(settings@, "fields"@) == Some(a.spec_fields())
                    && a.spec_id_field() == "employee_id"@ && settings_get(
                    settings@,
                    "user"@,
                ) is Some && settings_get(
                    settings@,
                    "password"@,
                ) is Some && settings_get(settings@, "host"@) is Some && settings_get(
                    settings@,
                    "port"@,
                ) is Some && settings_get(settings@, "dbname"@) is Some && settings_get(
                    settings@,
                    "fields"@,
                ) is Some,
                Err(e) => e is ConfigError && (settings_get(settings@, "user"@) is None
                    || settings_get(settings@, "password"@) is None || settings_get(
                    settings@,
                    "host"@,
                ) is None || settings_get(settings@, "port"@) is None || settings_get(
                    settings@,
                    "dbname"@,
                ) is None || settings_get(settings@, "fields"@) is None),
            },
    {
        let required_keys: Vec<&str> = {
            let mut v: Vec<&str> = Vec::new();
            v.push("user");
            v.push("password");
            v.push("host");
            v.push("port");
            v.push("dbname");
            v.push("fields");
            v
        };
        proof {
            assert(crate::storage::key_views(required_keys@) =~= seq![
                "user"@,
                "password"@,
                "host"@,
                "port"@,
                "dbname"@,
                "fields"@,
            ]);
        }
        let check = assert_required_settings(settings, required_keys.as_slice());
        proof {
            crate::storage::lemma_missing_list_presence(
                settings@,
                crate::storage::key_views(required_keys@),
            );
        }
        match check {
            Err(e) => Err(e),
            Ok(_) => {
                let fields = match settings.get("fields") {
                    Some(f) => f.clone(),
                    None => {
                        return Err(
                            StorageError::ConfigError(String::from_str("fields setting missing")),
                        );
                    },
                };
                Ok(PostgresAdapter { id_field: String::from_str("employee_id"), fields })
            },
        }
    }

    /// The identifier column the templated query filters on.
    pub closed spec fn spec_id_field(&self) -> Seq<char> {
        self.id_field@
    }

    /// The selected columns, as configured.
    pub closed spec fn spec_fields(&self) -> Seq<char> {
        self.fields@
    }

    /// The rows for `id` in `entity`: none, from the unwired query path.
    pub fn fetch_record(&self, _entity: &str, _id: &str) -> (r: Result<Vec<Record>, StorageError>)
        ensures
            r matches Ok(v) && v@.len() == 0,
    {
        let out: Vec<Record> = Vec::new();
        Ok(out)
    }
}

/// The template text with every `{}` replaced by `v`.
pub open spec fn subst_braces(s: Seq<char>, v: Seq<char>) -> Seq<char>
    decreases s.len(),
{
    if s.len() >= 2 && s[0] == '{' && s[1] == '}' {
        v + subst_braces(s.skip(2), v)
    } else if s.len() == 0 {
        Seq::empty()
    } else {
        seq![s[0]] + subst_braces(s.drop_first(), v)
    }
}

/// Replaces every `{}` in `s` with `v`.
#[verifier::loop_isolation(false)]
pub fn replace_braces(s: &str, v: &str) -> (r: String)
    ensures
        r@ == subst_braces(s@, v@),
{
    let n = s.unicode_len();
    let mut out = String::new();
    let mut i: usize = 0;
    proof {
        assert(s@.skip(0) =~= s@);
        assert(Seq::<char>::empty() + subst_braces(s@, v@) =~= subst_braces(s@, v@));
    }
    while i < n
        invariant
            i <= n,
            n == s@.len(),
            subst_braces(s@, v@) == out@ + subst_braces(s@.skip(i as int), v@),
        decreases n - i,
    {
        let c = s.get_char(i);
        if c == '{' && i + 1 < n && s.get_char(i + 1) == '}' {
            proof {
                assert(s@.skip(i as int)[0] == '{');
                assert(s@.skip(i as int)[1] == '}');
                assert(s@.skip(i as int).skip(2) =~= s@.skip(i + 2));
            }
            out.append(v);
            i = i + 2;
        } else {
            proof {
                assert(s@.skip(i as int)[0] == c);
                if s@.skip(i as int).len() >= 2 && s@.skip(i as int)[0] == '{' && s@.skip(
                    i as int,
                )[1] == '}' {
                    assert(s@[i + 1] == '}');
                    assert(false);
                }
                assert(s@.skip(i as int).drop_first() =~= s@.skip(i + 1));
            }
            out.push(c);
            i = i + 1;
        }
    }
    proof {
        assert(s@.skip(n as int) =~= Seq::<char>::empty());
        assert(out@ + Seq::<char>::empty() =~= out@);
    }
    out
}

/// The Delta-table adapter: holds what a remote query engine needs. The
/// engine itself lives outside the library; the service hands it the
/// substituted query text.
pub struct AzDeltaAdapter {
    pub table_name: String,
    pub table_path: String,
    pub record_query: String,
    pub bearer_token: Option<String>,
}

impl AzDeltaAdapter {
    /// Builds the adapter after checking that `delta_table_name`,
    /// `delta_table_path` and `delta_record_query` are configured;
    /// `azure_bearer_token` stays optional.
    pub fn new(settings: SettingsMap) -> (r: Result<Self, StorageError>)
        ensures
            match r {
                Ok(a) => settings_get(settings@, "delta_table_name"@) == Some(a.table_name@)
                    && settings_get(settings@, "delta_table_path"@) == Some(a.table_path@)
                    && settings_get(settings@, "delta_record_query"@) == Some(a.record_query@) && (
                match a.bearer_token {
                    Some(t) => settings_get(settings@, "azure_bearer_token"@) == Some(t@),
                    None => settings_get(settings@, "azure_bearer_token"@) is None,
                }),
                Err(e) => e is ConfigError && (settings_get(settings@, "delta_table_name"@) is None
                    || settings_get(settings@, "delta_table_path"@) is None || settings_get(
                    settings@,
                    "delta_record_query"@,
                ) is None),
            },
    {
        let required_keys: Vec<&str> = {
            let mut v: Vec<&str> = Vec::new();
            v.push("delta_table_name");
            v.push("delta_table_path");
            v.push("delta_record_query");
            v
        };
        proof {
            assert(crate::storage::key_views(required_keys@) =~= seq![
                "delta_table_name"@,
                "delta_table_path"@,
                "delta_record_query"@,
            ]);
        }
        let check = assert_required_settings(&settings, required_keys.as_slice());
        proof {
            crate::storage::lemma_missing_list_presence(
                settings@,
                crate::storage::key_views(required_keys@),
            );
        }
        match check {
            Err(e) => {
                return Err(e);
            },
            Ok(_) => {},
        }
        let table_name = match settings.get("delta_table_name") {
            Some(s) => s.clone(),
            None => {
                return Err(StorageError::ConfigError(String::from_str("delta_table_name missing")));
            },
        };
        let table_path = match settings.get("delta_table_path") {
            Some(s) => s.clone(),
            None => {
                return Err(StorageError::ConfigError(String::from_str("delta_table_path missing")));
            },
        };
        let record_query = match settings.get("delta_record_query") {
            Some(s) => s.clone(),
            None => {
                return Err(
                    StorageError::ConfigError(String::from_str("delta_record_query missing")),
                );
            },
        };
        let bearer_token = match settings.get("azure_bearer_token") {
            Some(s) => Some(s.clone()),
            None => None,
        };
        Ok(AzDeltaAdapter { table_name, table_path, record_query, bearer_token })
    }

    /// The SQL text for one record: the query template with `{}` replaced
    /// by the record id.
    pub fn build_query(&self, id: &str) -> (r: String)
        ensures
            r@ == subst_braces(self.record_query@, id@),
    {
        replace_braces(self.record_query.as_str(), id)
    }
}

/// One column value of a fetched row, as the query engine hands it over.
/// A float column arrives already rendered: its text is the engine's.
pub enum ColumnValue {
    Utf8(String),
    Int32(i32),
    Int64(i64),
    Boolean(bool),
    Rendered(String),
    Unsupported,
}

/// The model of a column value.
pub ghost enum ColumnModel {
    CUtf8(Seq<char>),
    CInt32(int),
    CInt64(int),
    CBool(bool),
    CRendered(Seq<char>),
    CUnsupported,
}

impl View for ColumnValue {
    type V = ColumnModel;

    open spec fn view(&self) -> ColumnModel {
        match self {
            ColumnValue::Utf8(s) => ColumnModel::CUtf8(s@),
            ColumnValue::Int32(i) => ColumnModel::CInt32(*i as int),
            ColumnValue::Int64(i) => ColumnModel::CInt64(*i as int),
            ColumnValue::Boolean(b) => ColumnModel::CBool(*b),
            ColumnValue::Rendered(s) => ColumnModel::CRendered(s@),
            ColumnValue::Unsupported => ColumnModel::CUnsupported,
        }
    }
}

/// The stringified form of a column value: text stays, numbers render in
/// decimal, booleans as `true`/`false`, anything else as the sentinel.
pub open spec fn column_text(c: ColumnModel) -> Seq<char> {
    match c {
        ColumnModel::CUtf8(s) => s,
        ColumnModel::CInt32(i) => crate::redis_protocol::dec_chars(i),
        ColumnModel::CInt64(i) => crate::redis_protocol::dec_chars(i),
        ColumnModel::CBool(b) => if b {
            "true"@
        } else {
            "false"@
        },
        ColumnModel::CRendered(s) => s,
        ColumnModel::CUnsupported => "Unsupported type"@,
    }
}

/// Text under JSON string escaping: quotes and backslashes are escaped, as
/// are tab, newline and carriage return; other characters are kept.
pub open spec fn json_escaped(s: Seq<char>) -> Seq<char>
    decreases s.len(),
{
    if s.len() == 0 {
        Seq::empty()
    } else {
        let head = if s[0] == '"' {
            seq!['\\', '"']
        } else if s[0] == '\\' {
            seq!['\\', '\\']
        } else if s[0] == '\n' {
            seq!['\\', 'n']
        } else if s[0] == '\r' {
            seq!['\\', 'r']
        } else if s[0] == '\t' {
            seq!['\\', 't']
        } else {
            seq![s[0]]
        };
        head + json_escaped(s.drop_first())
    }
}

/// The JSON text of a column value: its stringified form as a JSON string.
pub open spec fn column_json(c: ColumnModel) -> Seq<char> {
    "\""@ + json_escaped(column_text(c)) + "\""@
}

/// The record a fetched row projects to, column by column.
pub open spec fn columns_record(cols: Seq<(Seq<char>, ColumnModel)>, acc: RecordModel) -> RecordModel
    decreases cols.len(),
{
    if cols.len() == 0 {
        acc
    } else {
        columns_record(
            cols.drop_first(),
            crate::record::record_set(acc, cols[0].0, ValueModel::VJson(column_json(cols[0].1))),
        )
    }
}

/// Escapes text for a JSON string body.
#[verifier::loop_isolation(false)]
fn json_escape(s: &str) -> (r: String)
    ensures
        r@ == json_escaped(s@),
{
    let n = s.unicode_len();
    let mut out = String::new();
    let mut i: usize = 0;
    proof {
        assert(s@.skip(0) =~= s@);
        assert(Seq::<char>::empty() + json_escaped(s@) =~= json_escaped(s@));
    }
    while i < n
        invariant
            i <= n,
            n == s@.len(),
            json_escaped(s@) == out@ + json_escaped(s@.skip(i as int)),
        decreases n - i,
    {
        let c = s.get_char(i);
        proof {
            assert(s@.skip(i as int)[0] == c);
            assert(s@.skip(i as int).drop_first() =~= s@.skip(i + 1));
        }
        if c == '"' {
            out.push('\\');
            out.push('"');
        } else if c == '\\' {
            out.push('\\');
            out.push('\\');
        } else if c == '\n' {
            out.push('\\');
            out.push('n');
        } else if c == '\r' {
            out.push('\\');
            out.push('r');
        } else if c == '\t' {
            out.push('\\');
            out.push('t');
        } else {
            out.push(c);
        }
        i = i + 1;
    }
    proof {
        assert(s@.skip(n as int) =~= Seq::<char>::empty());
        assert(out@ + Seq::<char>::empty() =~= out@);
    }
    out
}

/// The JSON string text of one column value.
fn column_json_text(c: &ColumnValue) -> (r: String)
    ensures
        r@ == column_json(c@),
{
    let body = match c {
        ColumnValue::Utf8(s) => json_escape(s.as_str()),
        ColumnValue::Int32(i) => {
            let t = crate::redis_protocol::decimal_string(*i as i64);
            proof {
                lemma_decimal_needs_no_escape(*i as int);
            }
            t
        },
        ColumnValue::Int64(i) => {
            let t = crate::redis_protocol::decimal_string(*i);
            proof {
                lemma_decimal_needs_no_escape(*i as int);
            }
            t
        },
        ColumnValue::Boolean(b) => {
            if *b {
                proof {
                    reveal_strlit("true");
                    lemma_plain_needs_no_escape("true"@);
                }
                String::from_str("true")
            } else {
                proof {
                    reveal_strlit("false");
                    lemma_plain_needs_no_escape("false"@);
                }
                String::from_str("false")
            }
        },
        ColumnValue::Rendered(s) => json_escape(s.as_str()),
        ColumnValue::Unsupported => {
            proof {
                reveal_strlit("Unsupported type");
                lemma_plain_needs_no_escape("Unsupported type"@);
            }
            String::from_str("Unsupported type")
        },
    };
    String::from_str("\"").concat(body.as_str()).concat("\"")
}

/// Text of plain characters passes JSON escaping unchanged.
proof fn lemma_plain_needs_no_escape(s: Seq<char>)
    requires
        forall|j: int|
            0 <= j < s.len() ==> #[trigger] s[j] != '"' && s[j] != '\\' && s[j] != '\n' && s[j]
                != '\r' && s[j] != '\t',
    ensures
        json_escaped(s) == s,
    decreases s.len(),
{
    if s.len() > 0 {
        assert forall|j: int| 0 <= j < s.drop_first().len() implies #[trigger] s.drop_first()[j]
            != '"' && s.drop_first()[j] != '\\' && s.drop_first()[j] != '\n' && s.drop_first()[j]
            != '\r' && s.drop_first()[j] != '\t' by {
            assert(s.drop_first()[j] == s[j + 1]);
        }
        lemma_plain_needs_no_escape(s.drop_first());
        assert(seq![s[0]] + s.drop_first() =~= s);
    }
}

/// Decimal text holds only digits and a sign, which escaping keeps.
proof fn lemma_decimal_needs_no_escape(i: int)
    ensures
        json_escaped(crate::redis_protocol::dec_chars(i)) == crate::redis_protocol::dec_chars(i),
{
    let mag: nat = if i < 0 {
        (-i) as nat
    } else {
        i as nat
    };
    lemma_dec_rep_chars_plain(mag);
    let dc = crate::redis_protocol::dec_chars(i);
    assert forall|j: int| 0 <= j < dc.len() implies #[trigger] dc[j] != '"' && dc[j] != '\\'
        && dc[j] != '\n' && dc[j] != '\r' && dc[j] != '\t' by {
        if i < 0 {
            if j == 0 {
                assert(crate::redis_protocol::int_rep(i)[0] == 45u8);
                assert(dc[0] == (45u8 as char));
            } else {
                assert(crate::redis_protocol::int_rep(i)[j] == crate::redis_protocol::dec_rep(
                    mag,
                )[j - 1]);
                assert(dc[j] == (crate::redis_protocol::dec_rep(mag)[j - 1] as char));
                assert(crate::redis_protocol::is_digit(crate::redis_protocol::dec_rep(mag)[j - 1]));
            }
        } else {
            assert(crate::redis_protocol::int_rep(i)[j] == crate::redis_protocol::dec_rep(mag)[j]);
            assert(dc[j] == (crate::redis_protocol::dec_rep(mag)[j] as char));
            assert(crate::redis_protocol::is_digit(crate::redis_protocol::dec_rep(mag)[j]));
        }
    }
    lemma_plain_needs_no_escape(dc);
}

proof fn lemma_dec_rep_chars_plain(n: nat)
    ensures
        crate::redis_protocol::all_digits(crate::redis_protocol::dec_rep(n)),
    decreases n,
{
    if n < 10 {
    } else {
        lemma_dec_rep_chars_plain(n / 10);
        let ds = crate::redis_protocol::dec_rep(n / 10);
        let d = (48 + n % 10) as u8;
        assert forall|j: int| 0 <= j < ds.push(d).len() implies crate::redis_protocol::is_digit(
            #[trigger] ds.push(d)[j],
        ) by {
            if j < ds.len() {
                assert(ds.push(d)[j] == ds[j]);
            } else {
                assert(ds.push(d)[j] == d);
            }
        }
    }
}

/// Projects one fetched row into a record: each column's name maps to its
/// stringified value as a JSON string, later duplicates replacing earlier
/// ones.
#[verifier::loop_isolation(false)]
pub fn record_from_columns(columns: &Vec<(String, ColumnValue)>) -> (r: Record)
    ensures
        r@ == columns_record(
            Seq::new(
                columns@.len(),
                |i: int|
                    if 0 <= i < columns@.len() {
                        (columns@[i].0@, columns@[i].1@)
                    } else {
                        (Seq::empty(), ColumnModel::CUnsupported)
                    },
            ),
            Seq::empty(),
        ),
{
    let ghost cols = Seq::new(
        columns@.len(),
        |i: int|
            if 0 <= i < columns@.len() {
                (columns@[i].0@, columns@[i].1@)
            } else {
                (Seq::empty(), ColumnModel::CUnsupported)
            },
    );
    let mut rec = Record::new();
    let mut i: usize = 0;
    proof {
        assert(cols.skip(0) =~= cols);
    }
    while i < columns.len()
        invariant
            i <= columns@.len(),
            cols.len() == columns@.len(),
            forall|k: int|
                0 <= k < columns@.len() ==> #[trigger] cols[k] == (
                    columns@[k].0@,
                    columns@[k].1@,
                ),
            columns_record(cols, Seq::empty()) == columns_record(cols.skip(i as int), rec@),
        decreases columns@.len() - i,
    {
        proof {
            assert(cols.skip(i as int)[0] == cols[i as int]);
            assert(cols.skip(i as int).drop_first() =~= cols.skip(i + 1));
        }
        let name = columns[i].0.clone();
        let text = column_json_text(&columns[i].1);
        rec.insert(name, RecordValue::Json(text));
        i = i + 1;
    }
    proof {
        assert(cols.skip(i as int) =~= Seq::<(Seq<char>, ColumnModel)>::empty());
    }
    rec
}

/// The model of an adapter, as the service contracts see it.
pub ghost enum AdapterModel {
    MockM(MockModel),
    PostgresM,
    AzDeltaM { record_query: Seq<char> },
}

/// One registered backend adapter.
pub enum DatabaseType {
    Mock(MockAdapter),
    Postgres(PostgresAdapter),
    AzDelta(AzDeltaAdapter),
}

impl View for DatabaseType {
    type V = AdapterModel;

    open spec fn view(&self) -> AdapterModel {
        match self {
            DatabaseType::Mock(a) => AdapterModel::MockM(a@),
            DatabaseType::Postgres(_) => AdapterModel::PostgresM,
            DatabaseType::AzDelta(a) => AdapterModel::AzDeltaM { record_query: a.record_query@ },
        }
    }
}

/// What one adapter does for a lookup without leaving the process.
pub enum AdapterStep {
    /// The adapter answered with these records.
    Rows(Vec<Record>),
    /// The adapter answered: no such record.
    NoRecord,
    /// A remote engine must run this query; the service completes the
    /// lookup from its rows.
    RemoteQuery(String),
}

/// What a lookup on an adapter model must produce.
pub open spec fn adapter_step_model(am: AdapterModel, entity: Seq<char>, id: Seq<char>, r: &AdapterStep) -> bool {
    match am {
        AdapterModel::MockM(data) => match mock_lookup(data, entity, id) {
            Some(rm) => r matches AdapterStep::Rows(v) && v@.len() == 1 && v@[0]@ == rm,
            None => r is NoRecord,
        },
        AdapterModel::PostgresM => r matches AdapterStep::Rows(v) && v@.len() == 0,
        AdapterModel::AzDeltaM { record_query } => r matches AdapterStep::RemoteQuery(q) && q@
            == subst_braces(record_query, id),
    }
}

impl DatabaseType {
    /// One lookup step against this adapter: rows or a missing record from
    /// the local kinds, a query for the remote kind.
    pub fn fetch_record(&self, entity: &str, id: &str) -> (r: AdapterStep)
        ensures
            adapter_step_model(self@, entity@, id@, &r),
    {
        match self {
            DatabaseType::Mock(a) => match a.fetch_record(entity, id) {
                Ok(rows) => AdapterStep::Rows(rows),
                Err(_) => AdapterStep::NoRecord,
            },
            DatabaseType::Postgres(a) => match a.fetch_record(entity, id) {
                Ok(rows) => AdapterStep::Rows(rows),
                Err(_) => AdapterStep::NoRecord,
            },
            DatabaseType::AzDelta(a) => AdapterStep::RemoteQuery(a.build_query(id)),
        }
    }
}

/// The adapter model that a provider kind and settings build, when the
/// settings are complete for that kind.
pub open spec fn built_adapter(kind: DatabaseProvider, s: SettingsModel) -> Option<AdapterModel> {
    match kind {
        DatabaseProvider::Mock => Some(AdapterModel::MockM(mock_fixture())),
        DatabaseProvider::Postgres => if settings_get(s, "user"@) is Some && settings_get(
            s,
            "password"@,
        ) is Some && settings_get(s, "host"@) is Some && settings_get(s, "port"@) is Some
            && settings_get(s, "dbname"@) is Some && settings_get(s, "fields"@) is Some {
            Some(AdapterModel::PostgresM)
        } else {
            None
        },
        DatabaseProvider::AzDelta => if settings_get(s, "delta_table_name"@) is Some
            && settings_get(s, "delta_table_path"@) is Some && settings_get(
            s,
            "delta_record_query"@,
        ) is Some {
            Some(
                AdapterModel::AzDeltaM {
                    record_query: settings_get(s, "delta_record_query"@)->Some_0,
                },
            )
        } else {
            None
        },
    }
}

/// Builds the adapter a provider configuration names.
pub fn create_database(provider: &DatabaseProvider, settings: SettingsMap) -> (r: Result<
    DatabaseType,
    StorageError,
>)
    ensures
        match r {
            Ok(db) => built_adapter(*provider, settings@) == Some(db@),
            Err(e) => built_adapter(*provider, settings@) is None && e is ConfigError,
        },
{
    match provider {
        DatabaseProvider::Mock => Ok(DatabaseType::Mock(MockAdapter::new(settings))),
        DatabaseProvider::Postgres => match PostgresAdapter::new(&settings) {
            Ok(a) => Ok(DatabaseType::Postgres(a)),
            Err(e) => Err(e),
        },
        DatabaseProvider::AzDelta => match AzDeltaAdapter::new(settings) {
            Ok(a) => Ok(DatabaseType::AzDelta(a)),
            Err(e) => Err(e),
        },
    }
}

} // verus!
