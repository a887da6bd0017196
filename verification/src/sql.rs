//! The standalone SQL adapter: holds a connection string and simulated
//! data, answering lookups from the latter. The connection string parser
//! reads `key=value` pairs separated by semicolons, with keys lowercased
//! and both sides trimmed.

use vstd::prelude::*;

use crate::config::SettingsMap;
use crate::config::SettingsModel;
use crate::config::settings_set;
use crate::in_memory::InMemoryAdapter;
use crate::in_memory::TableModel;
use crate::in_memory::project_fields;
use crate::in_memory::table_entity;
use crate::in_memory::table_row;
use crate::storage::StorageError;
use crate::text::lower_of;
use crate::text::to_ascii_lower;

verus! {

/// ASCII whitespace, as trimming understands it.
pub open spec fn is_ws_char(c: char) -> bool {
    c == ' ' || c == '\t' || c == '\n' || c == '\r'
}

/// The sequence without its leading whitespace.
pub open spec fn ltrim(s: Seq<char>) -> Seq<char>
    decreases s.len(),
{
    if s.len() > 0 && is_ws_char(s[0]) {
        ltrim(s.drop_first())
    } else {
        s
    }
}

/// The sequence without its trailing whitespace.
pub open spec fn rtrim(s: Seq<char>) -> Seq<char>
    decreases s.len(),
{
    if s.len() > 0 && is_ws_char(s.last()) {
        rtrim(s.drop_last())
    } else {
        s
    }
}

/// The sequence without leading or trailing whitespace.
pub open spec fn trimmed(s: Seq<char>) -> Seq<char> {
    rtrim(ltrim(s))
}

proof fn lemma_ltrim_skip(s: Seq<char>, a: int)
    requires
        0 <= a <= s.len(),
        forall|j: int| 0 <= j < a ==> is_ws_char(#[trigger] s[j]),
        a < s.len() ==> !is_ws_char(s[a]),
    ensures
        ltrim(s) == s.skip(a),
    decreases a,
{
    if a == 0 {
        assert(s.skip(0) =~= s);
    } else {
        assert(is_ws_char(s[0]));
        assert forall|j: int| 0 <= j < a - 1 implies is_ws_char(#[trigger] s.drop_first()[j]) by {
            assert(s.drop_first()[j] == s[j + 1]);
        }
        assert(a - 1 < s.drop_first().len() ==> !is_ws_char(s.drop_first()[a - 1]));
        lemma_ltrim_skip(s.drop_first(), a - 1);
        assert(s.drop_first().skip(a - 1) =~= s.skip(a));
    }
}

proof fn lemma_rtrim_take(s: Seq<char>, b: int)
    requires
        0 <= b <= s.len(),
        forall|j: int| b <= j < s.len() ==> is_ws_char(#[trigger] s[j]),
        b > 0 ==> !is_ws_char(s[b - 1]),
    ensures
        rtrim(s) == s.take(b),
    decreases s.len() - b,
{
    if b == s.len() {
        assert(s.take(b) =~= s);
    } else {
        assert(is_ws_char(s.last()));
        assert forall|j: int| b <= j < s.drop_last().len() implies is_ws_char(
            #[trigger] s.drop_last()[j],
        ) by {
            assert(s.drop_last()[j] == s[j]);
        }
        assert(b > 0 ==> !is_ws_char(s.drop_last()[b - 1]));
        lemma_rtrim_take(s.drop_last(), b);
        assert(s.drop_last().take(b) =~= s.take(b));
    }
}

fn ws_char(c: char) -> (r: bool)
    ensures
        r == is_ws_char(c),
{
    c == ' ' || c == '\t' || c == '\n' || c == '\r'
}

/// Strips leading and trailing whitespace.
#[verifier::loop_isolation(false)]
pub fn trim(s: &str) -> (r: String)
    ensures
        r@ == trimmed(s@),
{
    let n = s.unicode_len();
    let mut a: usize = 0;
    while a < n && ws_char(s.get_char(a))
        invariant
            a <= n,
            n == s@.len(),
            forall|j: int| 0 <= j < a ==> is_ws_char(#[trigger] s@[j]),
        decreases n - a,
    {
        a = a + 1;
    }
    proof {
        lemma_ltrim_skip(s@, a as int);
    }
    let mut b: usize = n;
    while b > a && ws_char(s.get_char(b - 1))
        invariant
            a <= b <= n,
            n == s@.len(),
            forall|j: int| b <= j < n ==> is_ws_char(#[trigger] s@[j]),
        decreases b,
    {
        b = b - 1;
    }
    proof {
        let lt = s@.skip(a as int);
        assert forall|j: int| (b - a) <= j < lt.len() implies is_ws_char(#[trigger] lt[j]) by {
            assert(lt[j] == s@[a + j]);
        }
        if b > a {
            assert(!is_ws_char(s@[b - 1]));
            assert(lt[b - a - 1] == s@[b - 1]);
        }
        lemma_rtrim_take(lt, b - a);
        assert(lt.take(b - a) =~= s@.subrange(a as int, b as int));
    }
    s.substring_char(a, b).to_owned()
}

/// The first index of `c` in `s` at or after `i`, or the length.
pub open spec fn find_char(s: Seq<char>, i: int, c: char) -> int
    decreases s.len() - i,
        when 0 <= i <= s.len()
{
    if i >= s.len() {
        i
    } else if s[i] == c {
        i
    } else {
        find_char(s, i + 1, c)
    }
}

/// Finds the first `c` at or after `i`, or the end.
#[verifier::loop_isolation(false)]
fn find_char_at(s: &str, i: usize, c: char) -> (r: usize)
    requires
        i <= s@.len(),
    ensures
        r == find_char(s@, i as int, c),
        i <= r <= s@.len(),
        r < s@.len() ==> s@[r as int] == c,
        forall|j: int| i <= j < r ==> s@[j] != c,
    decreases s@.len() - i,
{
    let n = s.unicode_len();
    let mut k = i;
    while k < n
        invariant
            i <= k <= n,
            n == s@.len(),
            find_char(s@, i as int, c) == find_char(s@, k as int, c),
            forall|j: int| i <= j < k ==> s@[j] != c,
        decreases n - k,
    {
        if s.get_char(k) == c {
            return k;
        }
        k = k + 1;
    }
    n
}

/// The `key=value` pairs of a connection string, read segment by segment:
/// segments are split on `;`, a segment without `=` is skipped, keys are
/// lowercased and both sides trimmed, later keys overriding earlier ones.
pub open spec fn conn_pairs(s: Seq<char>, i: int, acc: SettingsModel) -> SettingsModel
    decreases s.len() - i,
        when 0 <= i <= s.len()
{
    if i >= s.len() {
        acc
    } else {
        let semi0 = find_char(s, i, ';');
        let semi = if semi0 < i {
            i
        } else if semi0 > s.len() {
            s.len() as int
        } else {
            semi0
        };
        let eq = find_char(s, i, '=');
        let acc2 = if i <= eq && eq < semi {
            settings_set(
                acc,
                lower_of(trimmed(s.subrange(i, eq))),
                trimmed(s.subrange(eq + 1, semi)),
            )
        } else {
            acc
        };
        if semi >= s.len() {
            acc2
        } else {
            conn_pairs(s, semi + 1, acc2)
        }
    }
}

/// The SQL adapter: a connection string and the simulated data that stands
/// in for a live database.
pub struct SqlAdapter {
    connection_string: String,
    mock_data: InMemoryAdapter,
}

impl SqlAdapter {
    /// The configured connection string.
    pub closed spec fn spec_connection_string(&self) -> Seq<char> {
        self.connection_string@
    }

    /// The simulated data.
    pub closed spec fn data(&self) -> TableModel {
        self.mock_data@
    }

    /// An adapter remembering the connection string, seeded with the same
    /// fixture rows the in-memory adapter carries, under SQL-flavored ids.
    pub fn new(connection_string: &str) -> (r: Self)
        ensures
            r.spec_connection_string() == connection_string@,
            r.data() == sql_fixture(),
    {
        let mut data = InMemoryAdapter::new_empty();
        proof {
            reveal_strlit("name");
            reveal_strlit("email");
            reveal_strlit("price");
            assert("name"@.len() == 4 && "email"@.len() == 5 && "price"@.len() == 5);
            assert("name"@[0] == 'n' && "price"@[0] == 'p');
            assert("name"@ != "email"@ && "name"@ != "price"@);
        }
        let mut user_fields = SettingsMap::new();
        user_fields.insert(String::from_str("name"), String::from_str("SQL User"));
        proof {
            reveal_with_fuel(crate::config::settings_set, 4);
            assert(user_fields@ =~= seq![("name"@, "SQL User"@)]);
        }
        user_fields.insert(String::from_str("email"), String::from_str("sql_user@example.com"));
        proof {
            reveal_with_fuel(crate::config::settings_set, 4);
            assert(user_fields@ =~= seq![("name"@, "SQL User"@), ("email"@, "sql_user@example.com"@)]);
        }
        let _ = data.set_entity("users", "sql1", user_fields);
        let mut product_fields = SettingsMap::new();
        product_fields.insert(String::from_str("name"), String::from_str("SQL Product"));
        proof {
            reveal_with_fuel(crate::config::settings_set, 4);
            assert(product_fields@ =~= seq![("name"@, "SQL Product"@)]);
        }
        product_fields.insert(String::from_str("price"), String::from_str("29.99"));
        proof {
            reveal_with_fuel(crate::config::settings_set, 4);
            assert(product_fields@ =~= seq![("name"@, "SQL Product"@), ("price"@, "29.99"@)]);
        }
        let _ = data.set_entity("products", "sql_prod1", product_fields);
        let r = SqlAdapter { connection_string: connection_string.to_owned(), mock_data: data };
        proof {
            reveal_with_fuel(crate::in_memory::table_set, 4);
            reveal_with_fuel(crate::in_memory::rows_set, 4);
            reveal_strlit("users");
            reveal_strlit("products");
            assert("users"@.len() == 5 && "products"@.len() == 8);
            assert("users"@ != "products"@);
            assert(r.data() =~= sql_fixture()) by {
                assert(r.data()[0].1 =~= sql_fixture()[0].1);
                assert(r.data()[1].1 =~= sql_fixture()[1].1);
            }
        }
        r
    }

    /// Reads the connection string's `key=value;...` pairs.
    #[verifier::loop_isolation(false)]
    pub fn parse_connection_string(&self) -> (r: Result<SettingsMap, StorageError>)
        ensures
            r matches Ok(m) && m@ == conn_pairs(
                self.spec_connection_string(),
                0,
                Seq::<(Seq<char>, Seq<char>)>::empty(),
            ),
    {
        let s = self.connection_string.as_str();
        let n = s.unicode_len();
        let mut result = SettingsMap::new();
        let mut i: usize = 0;
        let ghost sv = s@;
        while i < n
            invariant
                i <= n,
                n == sv.len(),
                sv == self.spec_connection_string(),
                conn_pairs(sv, 0, Seq::<(Seq<char>, Seq<char>)>::empty()) == conn_pairs(
                    sv,
                    i as int,
                    result@,
                ),
            decreases n - i,
        {
            let semi = find_char_at(s, i, ';');
            let eq = find_char_at(s, i, '=');
            if eq < semi {
                let key_raw = s.substring_char(i, eq).to_owned();
                let key_trimmed = trim(key_raw.as_str());
                let key = to_ascii_lower(key_trimmed.as_str());
                let val_raw = s.substring_char(eq + 1, semi).to_owned();
                let value = trim(val_raw.as_str());
                result.insert(key, value);
            }
            i = if semi < n {
                semi + 1
            } else {
                n
            };
        }
        Ok(result)
    }

    /// The requested fields of row `(entity, id)` in the simulated data.
    pub fn fetch_fields(&self, entity: &str, id: &str, fields: &[&str]) -> (r: Result<
        SettingsMap,
        StorageError,
    >)
        ensures
            match table_entity(self.data(), entity@) {
                None => r matches Err(e) && e is EntityNotFound,
                Some(rows) => match table_row(rows, id@) {
                    None => r matches Err(e) && e is EntityNotFound,
                    Some(sm) => r matches Ok(m) && m@ == (if fields@.len() == 0 {
                        sm
                    } else {
                        project_fields(
                            sm,
                            fields@.map_values(|k: &str| k@),
                            Seq::<(Seq<char>, Seq<char>)>::empty(),
                        )
                    }),
                },
            },
    {
        self.mock_data.fetch_fields(entity, id, fields)
    }
}

/// The SQL adapter's simulated rows.
pub open spec fn sql_fixture() -> TableModel {
    seq![
        (
            "users"@,
            seq![
                (
                    "sql1"@,
                    seq![
                        ("name"@, "SQL User"@),
                        ("email"@, "sql_user@example.com"@),
                    ],
                ),
            ],
        ),
        (
            "products"@,
            seq![
                (
                    "sql_prod1"@,
                    seq![
                        ("name"@, "SQL Product"@),
                        ("price"@, "29.99"@),
                    ],
                ),
            ],
        ),
    ]
}

} // verus!
