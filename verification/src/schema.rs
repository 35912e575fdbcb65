//! The schema model: a flat, ordered list of typed columns.

use crate::error::Error;
use vstd::prelude::*;

verus! {

/// The primitive types that a column can hold. Plain 32-bit signed integers
/// are the only one so far; a new type is a new variant.
#[derive(Clone, Copy, Debug, PartialEq, Eq, Structural)]
pub enum PhysicalType {
    /// 32-bit signed integer, stored in four bytes.
    Int32,
}

impl PhysicalType {
    /// The byte that stands for the type in a footer.
    pub open spec fn tag_of(self) -> u8 {
        1
    }

    /// How many bytes one value of the type takes in a column chunk.
    pub open spec fn width_of(self) -> nat {
        4
    }

    /// The byte that stands for the type in a footer.
    pub fn tag(self) -> (t: u8)
        ensures
            t == self.tag_of(),
    {
        1
    }

    /// The type that a footer byte stands for, if any.
    pub fn from_tag(tag: u8) -> (r: Option<PhysicalType>)
        ensures
            r == type_of_tag(tag),
    {
        if tag == 1 {
            Some(PhysicalType::Int32)
        } else {
            None
        }
    }

    /// How many bytes one value of the type takes in a column chunk.
    pub fn width(self) -> (w: usize)
        ensures
            w == self.width_of(),
    {
        4
    }
}

/// The type whose tag is `tag`: the inverse of [`PhysicalType::tag_of`].
pub open spec fn type_of_tag(tag: u8) -> Option<PhysicalType> {
    if tag == 1 {
        Some(PhysicalType::Int32)
    } else {
        None
    }
}

/// What a column definition says, as mathematics.
pub struct ColumnView {
    pub name: Seq<char>,
    pub physical: PhysicalType,
    pub required: bool,
}

/// The definition of one column: its name, its type and whether every row
/// must hold a value. It does not change once it is built.
#[derive(Debug)]
pub struct ColumnDef {
    name: String,
    physical: PhysicalType,
    required: bool,
}

impl View for ColumnDef {
    type V = ColumnView;

    closed spec fn view(&self) -> ColumnView {
        ColumnView { name: self.name@, physical: self.physical, required: self.required }
    }
}

impl Clone for ColumnDef {
    fn clone(&self) -> (r: Self)
        ensures
            r@ == self@,
    {
        ColumnDef { name: self.name.clone(), physical: self.physical, required: self.required }
    }
}

impl ColumnDef {
    /// The column's name.
    pub fn name(&self) -> (r: &str)
        ensures
            r@ == self@.name,
    {
        self.name.as_str()
    }

    /// The column's primitive type.
    pub fn physical_type(&self) -> (r: PhysicalType)
        ensures
            r == self@.physical,
    {
        self.physical
    }

    /// Whether every row must hold a value.
    pub fn is_required(&self) -> (r: bool)
        ensures
            r == self@.required,
    {
        self.required
    }
}

/// Builds a column definition from its three parts.
pub fn define_column(name: &str, physical: PhysicalType, required: bool) -> (r: ColumnDef)
    ensures
        r@ == (ColumnView { name: name@, physical, required }),
{
    ColumnDef { name: name.to_owned(), physical, required }
}

/// The views of a list of column definitions, in order.
pub open spec fn columns_view(defs: Seq<ColumnDef>) -> Seq<ColumnView> {
    Seq::new(defs.len(), |i: int| defs[i]@)
}

/// No two columns share a name.
pub open spec fn names_unique(cols: Seq<ColumnView>) -> bool {
    forall|i: int, j: int|
        #![trigger cols[i], cols[j]]
        0 <= i < j < cols.len() ==> cols[i].name != cols[j].name
}

/// Every column is required.
pub open spec fn all_required(cols: Seq<ColumnView>) -> bool {
    forall|i: int| 0 <= i < cols.len() ==> (#[trigger] cols[i]).required
}

/// What makes a list of columns a schema: there is at least one column, every
/// column is required, and no name occurs twice.
pub open spec fn valid_columns(cols: Seq<ColumnView>) -> bool {
    &&& cols.len() > 0
    &&& all_required(cols)
    &&& names_unique(cols)
}

/// An ordered list of columns that satisfies [`valid_columns`]. A schema is
/// immutable: there is no way to change one after [`build_schema`] made it.
#[derive(Debug)]
pub struct Schema {
    columns: Vec<ColumnDef>,
}

impl View for Schema {
    type V = Seq<ColumnView>;

    closed spec fn view(&self) -> Seq<ColumnView> {
        columns_view(self.columns@)
    }
}

impl Clone for Schema {
    fn clone(&self) -> (r: Self)
        ensures
            r@ == self@,
    {
        proof {
            use_type_invariant(self);
        }
        let mut columns: Vec<ColumnDef> = Vec::new();
        let mut i: usize = 0;
        while i < self.columns.len()
            invariant
                i <= self.columns@.len(),
                columns@.len() == i,
                forall|k: int| 0 <= k < i ==> (#[trigger] columns@[k])@ == self.columns@[k]@,
            decreases self.columns@.len() - i,
        {
            columns.push(self.columns[i].clone());
            i += 1;
        }
        assert(columns_view(columns@) =~= columns_view(self.columns@));
        Schema { columns }
    }
}

impl Schema {
    #[verifier::type_invariant]
    spec fn valid(self) -> bool {
        valid_columns(columns_view(self.columns@))
    }

    /// How many columns the schema has; never zero, since the columns of a
    /// schema always satisfy [`valid_columns`].
    pub fn num_columns(&self) -> (n: usize)
        ensures
            n == self@.len(),
            valid_columns(self@),
    {
        proof {
            use_type_invariant(self);
        }
        self.columns.len()
    }

    /// The definition of the column at `index`, in schema order.
    pub fn column(&self, index: usize) -> (r: Option<&ColumnDef>)
        ensures
            index < self@.len() ==> r.is_some() && r.unwrap()@ == self@[index as int],
            index >= self@.len() ==> r.is_none(),
    {
        if index < self.columns.len() {
            Some(&self.columns[index])
        } else {
            None
        }
    }
}

/// Makes a schema of the given column definitions, in their order.
///
/// Fails with [`Error::Schema`] exactly when the list is empty, holds a column
/// that is not required, or holds a name twice.
pub fn build_schema(descriptors: Vec<ColumnDef>) -> (r: Result<Schema, Error>)
    ensures
        match r {
            Ok(schema) => valid_columns(columns_view(descriptors@)) && schema@ == columns_view(
                descriptors@,
            ),
            Err(e) => e == Error::Schema && !valid_columns(columns_view(descriptors@)),
        },
{
    let ghost cols = columns_view(descriptors@);
    let n: usize = descriptors.len();
    if n == 0 {
        return Err(Error::Schema);
    }
    let mut i: usize = 0;
    while i < n
        invariant
            n == descriptors@.len(),
            cols == columns_view(descriptors@),
            i <= n,
            forall|k: int| 0 <= k < i ==> (#[trigger] cols[k]).required,
            forall|a: int, b: int|
                #![trigger cols[a], cols[b]]
                0 <= a < b < i ==> cols[a].name != cols[b].name,
        decreases n - i,
    {
        if !descriptors[i].is_required() {
            assert(!cols[i as int].required);
            return Err(Error::Schema);
        }
        let mut j: usize = 0;
        while j < i
            invariant
                n == descriptors@.len(),
                cols == columns_view(descriptors@),
                i < n,
                j <= i,
                forall|a: int| 0 <= a < j ==> (#[trigger] cols[a]).name != cols[i as int].name,
            decreases i - j,
        {
            if descriptors[j].name == descriptors[i].name {
                assert(cols[j as int].name == cols[i as int].name);
                return Err(Error::Schema);
            }
            j += 1;
        }
        i += 1;
    }
    Ok(Schema { columns: descriptors })
}

} // verus!
