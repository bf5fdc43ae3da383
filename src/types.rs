//! The data model: column values and types, names, table schemas, tuples,
//! records and filter expressions.
use vstd::prelude::*;

verus! {

/// What a column value stands for: a text is its characters.
pub enum Value {
    Integer(u64),
    Boolean(bool),
    Text(Seq<char>),
}

/// The declared type of a column.
#[derive(Debug, Clone, Copy, PartialEq, Eq, Structural)]
pub enum ColumnType {
    Integer,
    Float,
    Text,
    Boolean,
}

/// A typed value held in a column.
#[derive(Debug, Clone)]
pub enum ColumnValue {
    Integer(u64),
    Boolean(bool),
    Text(String),
}

impl View for ColumnValue {
    type V = Value;

    open spec fn view(&self) -> Value {
        match self {
            ColumnValue::Integer(n) => Value::Integer(*n),
            ColumnValue::Boolean(b) => Value::Boolean(*b),
            ColumnValue::Text(s) => Value::Text(s@),
        }
    }
}

/// The type of the column that a value fits.
pub open spec fn value_type(v: Value) -> ColumnType {
    match v {
        Value::Integer(_) => ColumnType::Integer,
        Value::Boolean(_) => ColumnType::Boolean,
        Value::Text(_) => ColumnType::Text,
    }
}

/// `-1`, `0` or `1` as `a` is below, equal to or above `b`, comparing bytes
/// from the first on; a proper prefix comes first.
pub open spec fn lex_cmp(a: Seq<u8>, b: Seq<u8>) -> int
    decreases a.len(),
{
    if a.len() == 0 {
        if b.len() == 0 {
            0
        } else {
            -1
        }
    } else if b.len() == 0 {
        1
    } else if a[0] < b[0] {
        -1
    } else if a[0] > b[0] {
        1
    } else {
        lex_cmp(a.drop_first(), b.drop_first())
    }
}

/// `-1`, `0` or `1` as `a` is below, equal to or above `b`.
pub open spec fn int_cmp(a: int, b: int) -> int {
    if a < b {
        -1
    } else if a > b {
        1
    } else {
        0
    }
}

/// Position of a value's kind in the order of values: integers first, then
/// booleans, then texts.
pub open spec fn kind_rank(v: Value) -> int {
    match v {
        Value::Integer(_) => 0,
        Value::Boolean(_) => 1,
        Value::Text(_) => 2,
    }
}

/// The total order of values: by kind first; integers by number, `false`
/// before `true`, texts by their UTF-8 bytes.
pub open spec fn value_cmp(a: Value, b: Value) -> int {
    match (a, b) {
        (Value::Integer(x), Value::Integer(y)) => int_cmp(x as int, y as int),
        (Value::Boolean(x), Value::Boolean(y)) => int_cmp(
            if x {
                1
            } else {
                0
            },
            if y {
                1
            } else {
                0
            },
        ),
        (Value::Text(x), Value::Text(y)) => lex_cmp(
            vstd::utf8::encode_utf8(x),
            vstd::utf8::encode_utf8(y),
        ),
        _ => int_cmp(kind_rank(a), kind_rank(b)),
    }
}

impl ColumnValue {
    /// The type of the column that this value fits.
    pub fn to_type(&self) -> (r: ColumnType)
        ensures
            r == value_type(self@),
    {
        match self {
            ColumnValue::Integer(_) => ColumnType::Integer,
            ColumnValue::Boolean(_) => ColumnType::Boolean,
            ColumnValue::Text(_) => ColumnType::Text,
        }
    }

    /// A copy of this value.
    pub fn duplicate(&self) -> (r: ColumnValue)
        ensures
            r@ == self@,
    {
        match self {
            ColumnValue::Integer(n) => ColumnValue::Integer(*n),
            ColumnValue::Boolean(b) => ColumnValue::Boolean(*b),
            ColumnValue::Text(s) => ColumnValue::Text(s.clone()),
        }
    }

    /// `-1`, `0` or `1` as this value is below, equal to or above `other`.
    pub fn compare(&self, other: &ColumnValue) -> (r: i8)
        ensures
            r as int == value_cmp(self@, other@),
    {
        match (self, other) {
            (ColumnValue::Integer(x), ColumnValue::Integer(y)) => {
                if *x < *y {
                    -1
                } else if *x > *y {
                    1
                } else {
                    0
                }
            },
            (ColumnValue::Boolean(x), ColumnValue::Boolean(y)) => {
                if !*x && *y {
                    -1
                } else if *x && !*y {
                    1
                } else {
                    0
                }
            },
            (ColumnValue::Text(x), ColumnValue::Text(y)) => compare_bytes(
                x.as_str().as_bytes(),
                y.as_str().as_bytes(),
            ),
            _ => {
                let a = self.kind_rank();
                let b = other.kind_rank();
                if a < b {
                    -1
                } else {
                    1
                }
            },
        }
    }

    fn kind_rank(&self) -> (r: u8)
        ensures
            r as int == kind_rank(self@),
    {
        match self {
            ColumnValue::Integer(_) => 0,
            ColumnValue::Boolean(_) => 1,
            ColumnValue::Text(_) => 2,
        }
    }
}

/// Compares two byte strings from the first byte on.
fn compare_bytes(a: &[u8], b: &[u8]) -> (r: i8)
    ensures
        r as int == lex_cmp(a@, b@),
{
    let mut i: usize = 0;
    assert(a@.skip(0) =~= a@ && b@.skip(0) =~= b@);
    while i < a.len() && i < b.len()
        invariant
            i <= a@.len(),
            i <= b@.len(),
            lex_cmp(a@, b@) == lex_cmp(a@.skip(i as int), b@.skip(i as int)),
        decreases a@.len() - i,
    {
        let ghost sa = a@.skip(i as int);
        let ghost sb = b@.skip(i as int);
        assert(sa[0] == a@[i as int] && sb[0] == b@[i as int]);
        if a[i] < b[i] {
            return -1;
        }
        if a[i] > b[i] {
            return 1;
        }
        assert(sa.drop_first() =~= a@.skip(i + 1));
        assert(sb.drop_first() =~= b@.skip(i + 1));
        i = i + 1;
    }
    if i < a.len() {
        1
    } else if i < b.len() {
        -1
    } else {
        0
    }
}

impl PartialEq for ColumnValue {
    fn eq(&self, other: &ColumnValue) -> (r: bool) {
        match (self, other) {
            (ColumnValue::Integer(x), ColumnValue::Integer(y)) => *x == *y,
            (ColumnValue::Boolean(x), ColumnValue::Boolean(y)) => *x == *y,
            (ColumnValue::Text(x), ColumnValue::Text(y)) => x.eq(y),
            _ => false,
        }
    }
}

impl vstd::std_specs::cmp::PartialEqSpecImpl for ColumnValue {
    open spec fn obeys_eq_spec() -> bool {
        true
    }

    open spec fn eq_spec(&self, other: &ColumnValue) -> bool {
        self@ == other@
    }
}

impl Eq for ColumnValue {

}

/// The bytes are all ASCII digits.
pub open spec fn all_digits(d: Seq<u8>) -> bool {
    forall|i: int| 0 <= i < d.len() ==> 48 <= #[trigger] d[i] <= 57
}

/// The number that ASCII digits `d` write in decimal.
pub open spec fn decimal_value(d: Seq<u8>) -> nat
    decreases d.len(),
{
    if d.len() == 0 {
        0
    } else {
        decimal_value(d.drop_last()) * 10 + (d.last() - 48) as nat
    }
}

/// The digits of an unsigned number's text: all of it, but a leading `+`.
pub open spec fn unsigned_digits(b: Seq<u8>) -> Seq<u8> {
    if b.len() > 0 && b[0] == 43 {
        b.drop_first()
    } else {
        b
    }
}

/// The `u64` that a text (as UTF-8 bytes) writes: an optional `+`, then at
/// least one decimal digit and nothing else, of a value that fits.
pub open spec fn parse_u64(b: Seq<u8>) -> Option<u64> {
    let d = unsigned_digits(b);
    if d.len() > 0 && all_digits(d) && decimal_value(d) <= u64::MAX {
        Some(decimal_value(d) as u64)
    } else {
        None
    }
}

/// The boolean that a text (as UTF-8 bytes) writes: exactly `true` or `false`.
pub open spec fn parse_bool(b: Seq<u8>) -> Option<bool> {
    if b == seq![116u8, 114u8, 117u8, 101u8] {
        Some(true)
    } else if b == seq![102u8, 97u8, 108u8, 115u8, 101u8] {
        Some(false)
    } else {
        None
    }
}

/// The value that a text stands for: an unsigned integer where it writes
/// one, else a boolean where it writes one, else the text itself.
pub open spec fn value_of_text(v: String) -> ColumnValue {
    let b = vstd::utf8::encode_utf8(v@);
    match parse_u64(b) {
        Some(n) => ColumnValue::Integer(n),
        None => match parse_bool(b) {
            Some(x) => ColumnValue::Boolean(x),
            None => ColumnValue::Text(v),
        },
    }
}

/// The `u64` that the text with UTF-8 bytes `b` writes, if any.
fn parse_decimal(b: &[u8]) -> (r: Option<u64>)
    ensures
        r == parse_u64(b@),
{
    let len = b.len();
    let start: usize = if len > 0 && b[0] == 43 {
        1
    } else {
        0
    };
    let ghost d = unsigned_digits(b@);
    assert(d =~= b@.subrange(start as int, len as int));
    if start >= len {
        return None;
    }
    let mut acc: u64 = 0;
    let mut overflow = false;
    let mut i: usize = start;
    assert(d.take(0) =~= Seq::<u8>::empty());
    while i < len
        invariant
            start <= i <= len,
            len == b@.len(),
            d == b@.subrange(start as int, len as int),
            d == unsigned_digits(b@),
            all_digits(d.take(i - start)),
            !overflow ==> acc == decimal_value(d.take(i - start)),
            overflow ==> decimal_value(d.take(i - start)) > u64::MAX,
        decreases len - i,
    {
        let c = b[i];
        let ghost p = d.take(i - start);
        let ghost q = d.take(i - start + 1);
        assert(q.drop_last() =~= p);
        assert(q.last() == c);
        if c < 48 || c > 57 {
            assert(!all_digits(d)) by {
                assert(d[i - start] == c);
            }
            return None;
        }
        let x = (c - 48) as u64;
        if !overflow {
            if acc > (u64::MAX - x) / 10 {
                assert(acc * 10 + x > u64::MAX) by (nonlinear_arith)
                    requires
                        acc > (u64::MAX - x) / 10,
                        x <= 9,
                ;
                overflow = true;
            } else {
                assert(acc * 10 + x <= u64::MAX) by (nonlinear_arith)
                    requires
                        acc <= (u64::MAX - x) / 10,
                        x <= 9,
                ;
                acc = acc * 10 + x;
            }
        } else {
            assert(decimal_value(p) * 10 + x > u64::MAX) by (nonlinear_arith)
                requires
                    decimal_value(p) > u64::MAX,
            ;
        }
        assert(all_digits(q)) by {
            assert forall|j: int| 0 <= j < q.len() implies 48 <= #[trigger] q[j] <= 57 by {
                if j < p.len() {
                    assert(q[j] == p[j]);
                }
            }
        }
        i = i + 1;
    }
    assert(d.take(len - start) =~= d);
    if overflow {
        None
    } else {
        Some(acc)
    }
}

/// The boolean that the text with UTF-8 bytes `b` writes, if any.
fn parse_boolean(b: &[u8]) -> (r: Option<bool>)
    ensures
        r == parse_bool(b@),
{
    if b.len() == 4 && b[0] == 116 && b[1] == 114 && b[2] == 117 && b[3] == 101 {
        assert(b@ =~= seq![116u8, 114u8, 117u8, 101u8]);
        Some(true)
    } else if b.len() == 5 && b[0] == 102 && b[1] == 97 && b[2] == 108 && b[3] == 115 && b[4]
        == 101 {
        assert(b@ =~= seq![102u8, 97u8, 108u8, 115u8, 101u8]);
        Some(false)
    } else {
        proof {
            if b@ == seq![116u8, 114u8, 117u8, 101u8] {
                assert(b@[0] == 116u8 && b@[1] == 114u8 && b@[2] == 117u8 && b@[3] == 101u8);
            }
            if b@ == seq![102u8, 97u8, 108u8, 115u8, 101u8] {
                assert(b@[0] == 102u8 && b@[1] == 97u8 && b@[2] == 108u8 && b@[3] == 115u8);
                assert(b@[4] == 101u8);
            }
        }
        None
    }
}

impl ColumnValue {
    /// The value that a text stands for: an unsigned integer where it writes
    /// one, else a boolean where it writes one, else the text itself.
    pub fn from_text(value: String) -> (r: ColumnValue)
        ensures
            r == value_of_text(value),
    {
        let (n, x) = {
            let b = value.as_str().as_bytes();
            (parse_decimal(b), parse_boolean(b))
        };
        match n {
            Some(n) => ColumnValue::Integer(n),
            None => match x {
                Some(x) => ColumnValue::Boolean(x),
                None => ColumnValue::Text(value),
            },
        }
    }
}

impl From<String> for ColumnValue {
    fn from(value: String) -> (r: ColumnValue) {
        ColumnValue::from_text(value)
    }
}

impl vstd::std_specs::convert::FromSpecImpl<String> for ColumnValue {
    open spec fn obeys_from_spec() -> bool {
        true
    }

    open spec fn from_spec(v: String) -> ColumnValue {
        value_of_text(v)
    }
}

/// The name of a column.
#[derive(Debug, Clone)]
pub struct ColumnName(pub String);

impl View for ColumnName {
    type V = Seq<char>;

    open spec fn view(&self) -> Seq<char> {
        self.0@
    }
}

impl ColumnName {
    pub fn new(value: &str) -> (r: ColumnName)
        ensures
            r@ == value@,
    {
        ColumnName(value.to_owned())
    }

    /// A copy of this name.
    pub fn duplicate(&self) -> (r: ColumnName)
        ensures
            r@ == self@,
    {
        ColumnName(self.0.clone())
    }

    pub fn as_str(&self) -> (r: &str)
        ensures
            r@ == self@,
    {
        self.0.as_str()
    }
}

impl PartialEq for ColumnName {
    fn eq(&self, other: &ColumnName) -> (r: bool) {
        self.0.eq(&other.0)
    }
}

impl vstd::std_specs::cmp::PartialEqSpecImpl for ColumnName {
    open spec fn obeys_eq_spec() -> bool {
        true
    }

    open spec fn eq_spec(&self, other: &ColumnName) -> bool {
        self@ == other@
    }
}

impl Eq for ColumnName {

}

/// The name of a table.
#[derive(Debug, Clone)]
pub struct TableName(pub String);

impl View for TableName {
    type V = Seq<char>;

    open spec fn view(&self) -> Seq<char> {
        self.0@
    }
}

impl TableName {
    pub fn new(value: &str) -> (r: TableName)
        ensures
            r@ == value@,
    {
        TableName(value.to_owned())
    }

    /// A copy of this name.
    pub fn duplicate(&self) -> (r: TableName)
        ensures
            r@ == self@,
    {
        TableName(self.0.clone())
    }

    pub fn as_str(&self) -> (r: &str)
        ensures
            r@ == self@,
    {
        self.0.as_str()
    }
}

impl PartialEq for TableName {
    fn eq(&self, other: &TableName) -> (r: bool) {
        self.0.eq(&other.0)
    }
}

impl vstd::std_specs::cmp::PartialEqSpecImpl for TableName {
    open spec fn obeys_eq_spec() -> bool {
        true
    }

    open spec fn eq_spec(&self, other: &TableName) -> bool {
        self@ == other@
    }
}

impl Eq for TableName {

}

/// A column of a schema: its name and declared type.
#[derive(Debug, Clone)]
pub struct ColumnDefinition {
    pub name: ColumnName,
    pub column_type: ColumnType,
}

/// The schema of a table: its name, its columns in order, and the name of
/// the primary-key column.
#[derive(Debug, Clone)]
pub struct TableDefinition {
    pub name: TableName,
    pub columns: Vec<ColumnDefinition>,
    pub primary_key: ColumnName,
}

/// The names of a list of columns, in order.
pub open spec fn column_names(columns: Seq<ColumnDefinition>) -> Seq<Seq<char>> {
    columns.map_values(|c: ColumnDefinition| c.name@)
}

/// `i` is the first position at which `name` stands in `names`.
pub open spec fn is_first_index(names: Seq<Seq<char>>, name: Seq<char>, i: int) -> bool {
    &&& 0 <= i < names.len()
    &&& names[i] == name
    &&& forall|j: int| 0 <= j < i ==> names[j] != name
}

/// The first position at which `name` stands in `names`, if any.
pub open spec fn first_index(names: Seq<Seq<char>>, name: Seq<char>) -> Option<int> {
    if exists|i: int| is_first_index(names, name, i) {
        Some(choose|i: int| is_first_index(names, name, i))
    } else {
        None
    }
}

/// The first position of a name is the only one with nothing equal before it.
pub proof fn lemma_first_index(names: Seq<Seq<char>>, name: Seq<char>, i: int)
    requires
        is_first_index(names, name, i),
    ensures
        first_index(names, name) == Some(i),
{
    let k = choose|k: int| is_first_index(names, name, k);
    assert(is_first_index(names, name, k));
    if k < i {
        assert(names[k] != name);
    } else if k > i {
        assert(names[i] != name);
    }
}

/// A name that stands nowhere in `names` has no first position.
pub proof fn lemma_no_index(names: Seq<Seq<char>>, name: Seq<char>)
    requires
        forall|j: int| 0 <= j < names.len() ==> names[j] != name,
    ensures
        first_index(names, name) is None,
{
}

/// A name absent from all but the last of `names` stands first, if anywhere,
/// at the last position.
pub proof fn lemma_no_index_prefix(names: Seq<Seq<char>>, name: Seq<char>)
    requires
        names.len() > 0,
        first_index(names.drop_last(), name) is None,
    ensures
        forall|j: int| 0 <= j < names.len() - 1 ==> names[j] != name,
{
    if exists|j: int| 0 <= j < names.len() - 1 && names[j] == name {
        let j = choose|j: int| 0 <= j < names.len() - 1 && names[j] == name;
        let prev = names.drop_last();
        assert(prev[j] == name);
        first_match_exists(prev, name, j);
    }
}

/// Where a name stands somewhere, it has a first position.
pub proof fn first_match_exists(names: Seq<Seq<char>>, name: Seq<char>, j: int)
    requires
        0 <= j < names.len(),
        names[j] == name,
    ensures
        first_index(names, name) is Some,
    decreases j,
{
    if exists|k: int| 0 <= k < j && names[k] == name {
        let k = choose|k: int| 0 <= k < j && names[k] == name;
        first_match_exists(names, name, k);
    } else {
        assert(is_first_index(names, name, j));
    }
}

/// The position of the primary-key column in a schema, if it is one of the
/// columns.
pub open spec fn pk_index(def: TableDefinition) -> Option<int> {
    first_index(column_names(def.columns@), def.primary_key@)
}

/// A row of a table: one optional value for each column of the schema, in
/// the schema's order.
pub type Tuple = Vec<Option<ColumnValue>>;

/// What an optional value stands for.
pub open spec fn opt_view(o: Option<ColumnValue>) -> Option<Value> {
    match o {
        Some(v) => Some(v@),
        None => None,
    }
}

/// What a tuple stands for.
pub open spec fn tuple_view(t: Seq<Option<ColumnValue>>) -> Seq<Option<Value>> {
    t.map_values(|o: Option<ColumnValue>| opt_view(o))
}

/// A copy of an optional value.
pub fn duplicate_opt(o: &Option<ColumnValue>) -> (r: Option<ColumnValue>)
    ensures
        opt_view(r) == opt_view(*o),
{
    match o {
        Some(v) => Some(v.duplicate()),
        None => None,
    }
}

/// A row as its users see it: each column's name with its optional value.
#[derive(Debug, Clone)]
pub struct Record {
    pub fields: Vec<(ColumnName, Option<ColumnValue>)>,
}

impl View for Record {
    type V = Seq<(Seq<char>, Option<Value>)>;

    open spec fn view(&self) -> Seq<(Seq<char>, Option<Value>)> {
        self.fields@.map_values(|f: (ColumnName, Option<ColumnValue>)| (f.0@, opt_view(f.1)))
    }
}

impl Record {
    /// The value held under the column `name`, if the record has that column.
    pub fn get(&self, name: &ColumnName) -> (r: Option<&Option<ColumnValue>>)
        ensures
            match first_index(self@.map_values(|f: (Seq<char>, Option<Value>)| f.0), name@) {
                Some(i) => r is Some && opt_view(*r->Some_0) == self@[i].1,
                None => r is None,
            },
    {
        let ghost names = self@.map_values(|f: (Seq<char>, Option<Value>)| f.0);
        let mut i: usize = 0;
        while i < self.fields.len()
            invariant
                i <= self.fields@.len(),
                names == self@.map_values(|f: (Seq<char>, Option<Value>)| f.0),
                names.len() == self.fields@.len(),
                forall|j: int| 0 <= j < i ==> names[j] != name@,
            decreases self.fields@.len() - i,
        {
            assert(names[i as int] == self.fields@[i as int].0@);
            if self.fields[i].0.eq(name) {
                proof {
                    lemma_first_index(names, name@, i as int);
                }
                return Some(&self.fields[i].1);
            }
            i = i + 1;
        }
        proof {
            lemma_no_index(names, name@);
        }
        None
    }

    /// Number of columns in the record.
    pub fn len(&self) -> (r: usize)
        ensures
            r == self@.len(),
    {
        self.fields.len()
    }
}

/// A comparison operator of a filter.
#[derive(Debug, Clone, Copy, PartialEq, Eq, Structural)]
pub enum Operator {
    Eq,
    Neq,
    Gt,
    Lt,
    Gte,
    Lte,
}

/// Whether `op` holds between `a` and `b`.
pub open spec fn op_holds(op: Operator, a: Value, b: Value) -> bool {
    match op {
        Operator::Eq => a == b,
        Operator::Neq => a != b,
        Operator::Gt => value_cmp(a, b) > 0,
        Operator::Lt => value_cmp(a, b) < 0,
        Operator::Gte => value_cmp(a, b) >= 0,
        Operator::Lte => value_cmp(a, b) <= 0,
    }
}

/// A filter leaf: the value in `column` compared with `value` by `operator`.
#[derive(Debug, Clone)]
pub struct ColumnComparison {
    pub column: ColumnName,
    pub operator: Operator,
    pub value: ColumnValue,
}

/// A boolean filter over the rows of a table.
#[derive(Debug)]
pub enum Expression {
    And(Vec<Expression>),
    Or(Vec<Expression>),
    Not(Box<Expression>),
    ColumnComparison(ColumnComparison),
}

/// Whether a comparison holds of a row: the compared column must be in the
/// schema and the row must hold a value there; a missing column or a null
/// value makes every comparison false.
pub open spec fn comparison_holds(
    columns: Seq<ColumnDefinition>,
    c: ColumnComparison,
    t: Seq<Option<ColumnValue>>,
) -> bool {
    match first_index(column_names(columns), c.column@) {
        Some(i) => i < t.len() && t[i] is Some && op_holds(c.operator, t[i]->Some_0@, c.value@),
        None => false,
    }
}

/// Whether an expression holds of a row: `And` of all its parts (true when
/// there are none), `Or` of any (false when there are none), `Not` the
/// negation.
pub open spec fn expression_holds(
    columns: Seq<ColumnDefinition>,
    e: Expression,
    t: Seq<Option<ColumnValue>>,
) -> bool
    decreases e,
{
    match e {
        Expression::And(es) => forall|i: int|
            0 <= i < es@.len() ==> expression_holds(columns, #[trigger] es@[i], t),
        Expression::Or(es) => exists|i: int|
            0 <= i < es@.len() && expression_holds(columns, #[trigger] es@[i], t),
        Expression::Not(b) => !expression_holds(columns, *b, t),
        Expression::ColumnComparison(c) => comparison_holds(columns, c, t),
    }
}

} // verus!
