//! The dBase attribute table that goes beside the shapes: its field
//! layout, kept in step with dbase's table builder, and the outside items
//! that the writer hands its records to.
use crate::error::Error;
use vstd::prelude::*;

verus! {

#[verifier::external_type_specification]
#[verifier::external_body]
pub struct ExDbaseRecord(dbase::Record);

#[verifier::external_type_specification]
#[verifier::external_body]
pub struct ExTableWriterBuilder(dbase::TableWriterBuilder);

#[verifier::external_type_specification]
#[verifier::external_body]
pub struct ExFieldName(dbase::FieldName);

/// The kind of a field of the table, with its length in bytes where the
/// kind does not fix it (and the number of decimals of a numeric field).
#[derive(Debug, Clone, Copy, PartialEq, Eq, Structural)]
pub enum FieldKind {
    Character(u8),
    Numeric(u8, u8),
    Logical,
    Date,
    Integer,
    Double,
}

/// Bytes that a field takes in a record.
pub open spec fn field_size(k: FieldKind) -> nat {
    match k {
        FieldKind::Character(l) => l as nat,
        FieldKind::Numeric(l, _) => l as nat,
        FieldKind::Logical => 1,
        FieldKind::Date => 8,
        FieldKind::Integer => 4,
        FieldKind::Double => 8,
    }
}

/// Bytes of a record: the deletion flag, then the fields.
pub open spec fn record_size(ks: Seq<FieldKind>) -> nat
    decreases ks.len(),
{
    if ks.len() == 0 {
        1
    } else {
        record_size(ks.drop_last()) + field_size(ks.last())
    }
}

/// The largest record dBase can describe: its size is a 16-bit word.
pub const MAX_RECORD_SIZE: u32 = 65535;

/// The field layout of an attribute table. Its records always fit the
/// 16-bit record size of the format.
pub struct Table {
    builder: dbase::TableWriterBuilder,
    kinds: Vec<FieldKind>,
    size: u32,
}

/// Relies on `dbase::TableWriterBuilder::new`: a table without fields.
#[verifier::external_body]
fn empty_builder() -> dbase::TableWriterBuilder {
    dbase::TableWriterBuilder::new()
}

/// Relies on `dbase::FieldName::try_from`, which refuses names too long
/// for the format; its message is handed on.
#[verifier::external_body]
fn field_name(name: &str) -> Result<dbase::FieldName, String> {
    dbase::FieldName::try_from(name).map_err(|e| e.to_string())
}

/// Relies on `TableWriterBuilder::add_character_field`: a field of `length` bytes.
#[verifier::external_body]
fn add_character(b: dbase::TableWriterBuilder, n: dbase::FieldName, length: u8) -> dbase::TableWriterBuilder {
    b.add_character_field(n, length)
}

/// Relies on `TableWriterBuilder::add_numeric_field`: a field of `length` bytes.
#[verifier::external_body]
fn add_numeric(b: dbase::TableWriterBuilder, n: dbase::FieldName, length: u8, decimals: u8) -> dbase::TableWriterBuilder {
    b.add_numeric_field(n, length, decimals)
}

/// Relies on `TableWriterBuilder::add_logical_field`: a field of 1 byte.
#[verifier::external_body]
fn add_logical(b: dbase::TableWriterBuilder, n: dbase::FieldName) -> dbase::TableWriterBuilder {
    b.add_logical_field(n)
}

/// Relies on `TableWriterBuilder::add_date_field`: a field of 8 bytes.
#[verifier::external_body]
fn add_date(b: dbase::TableWriterBuilder, n: dbase::FieldName) -> dbase::TableWriterBuilder {
    b.add_date_field(n)
}

/// Relies on `TableWriterBuilder::add_integer_field`: a field of 4 bytes.
#[verifier::external_body]
fn add_integer(b: dbase::TableWriterBuilder, n: dbase::FieldName) -> dbase::TableWriterBuilder {
    b.add_integer_field(n)
}

/// Relies on `TableWriterBuilder::add_double_field`: a field of 8 bytes.
#[verifier::external_body]
fn add_double(b: dbase::TableWriterBuilder, n: dbase::FieldName) -> dbase::TableWriterBuilder {
    b.add_double_field(n)
}

impl Table {
    #[verifier::type_invariant]
    spec fn inv(&self) -> bool {
        &&& self.size as nat == record_size(self.kinds@)
        &&& self.size <= MAX_RECORD_SIZE
    }

    /// The kinds of the fields, in order.
    pub closed spec fn fields(&self) -> Seq<FieldKind> {
        self.kinds@
    }

    /// A table without fields.
    pub fn new() -> (r: Table)
        ensures
            r.fields() == Seq::<FieldKind>::empty(),
    {
        let kinds: Vec<FieldKind> = Vec::new();
        proof {
            assert(kinds@ =~= Seq::<FieldKind>::empty());
        }
        Table { builder: empty_builder(), kinds, size: 1 }
    }

    /// Bytes of a record of the table.
    pub fn record_size(&self) -> (r: u32)
        ensures
            r as nat == record_size(self.fields()),
            r <= MAX_RECORD_SIZE,
    {
        proof {
            use_type_invariant(self);
        }
        self.size
    }

    /// The table with one more field, named `name`. Fails with
    /// `RecordTooLarge` when a record would no longer fit in 65535 bytes,
    /// and with dbase's message when dbase refuses the name.
    pub fn add_field(self, name: &str, kind: FieldKind) -> (r: Result<Table, Error>)
        ensures
            record_size(self.fields().push(kind)) > MAX_RECORD_SIZE <==> r matches Err(
                Error::RecordTooLarge,
            ),
            match r {
                Ok(t) => t.fields() == self.fields().push(kind),
                Err(e) => e is RecordTooLarge || e is DbaseError,
            },
    {
        proof {
            use_type_invariant(&self);
        }
        let add: u32 = match kind {
            FieldKind::Character(l) => l as u32,
            FieldKind::Numeric(l, _) => l as u32,
            FieldKind::Logical => 1,
            FieldKind::Date => 8,
            FieldKind::Integer => 4,
            FieldKind::Double => 8,
        };
        let ghost pushed = self.kinds@.push(kind);
        proof {
            assert(pushed.drop_last() =~= self.kinds@);
        }
        if self.size + add > MAX_RECORD_SIZE {
            return Err(Error::RecordTooLarge);
        }
        let n = match field_name(name) {
            Ok(n) => n,
            Err(msg) => {
                return Err(Error::DbaseError(msg));
            },
        };
        let Table { builder, kinds, size } = self;
        let builder = match kind {
            FieldKind::Character(l) => add_character(builder, n, l),
            FieldKind::Numeric(l, d) => add_numeric(builder, n, l, d),
            FieldKind::Logical => add_logical(builder, n),
            FieldKind::Date => add_date(builder, n),
            FieldKind::Integer => add_integer(builder, n),
            FieldKind::Double => add_double(builder, n),
        };
        let mut kinds = kinds;
        kinds.push(kind);
        Ok(Table { builder, kinds, size: size + add })
    }
}

/// Relies on dbase's `TableWriterBuilder::build_with_dest` and
/// `TableWriter::write_records`: the records encoded as a dBase table
/// with the fields of `table`, written into a byte buffer; a failure
/// is handed on as dbase's message. `build_with_dest` sums the field
/// lengths into a 16-bit record size, which the bound keeps from
/// overflowing.
#[verifier::external_body]
pub(crate) fn encode_table(table: Table, records: &Vec<dbase::Record>) -> (r: Result<Vec<u8>, String>)
    requires
        record_size(table.fields()) <= MAX_RECORD_SIZE,
{
    let mut out = std::io::Cursor::new(Vec::new());
    let written = table.builder.build_with_dest(&mut out).write_records(records);
    written.map(|_| out.into_inner()).map_err(|e| e.to_string())
}

} // verus!
