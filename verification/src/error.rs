//! What a call can be refused with.

use vstd::prelude::*;

use crate::text::{decimal, push_decimal, push_numeral};

verus! {

/// The reasons a call is refused.
#[derive(Debug)]
pub enum Error {
    /// The caller's identity for a document is empty or only white space.
    BlankExternalId,
    /// No document has this identity.
    UnknownDocument { external_id: String },
    /// Another document already has the identity that was to be stored.
    DuplicateExternalId,
    /// A row refers to another one that does not exist.
    ForeignKey,
    /// The vector's length does not match the declared dimension.
    VectorLength { bytes: usize, dimension: i64, expected: u64 },
    /// The model is registered with another dimension.
    ModelDimension { dimension: i64, registered: i64 },
    /// The chunk has no stored embedding.
    NoEmbedding { chunk_id: i64 },
    /// The system clock reads a time before the epoch.
    ClockBeforeEpoch,
    /// Two results cannot be ordered, because one of them is not a number.
    NotComparable,
}

/// The wording of an error.
pub open spec fn message_of(e: Error) -> Seq<char> {
    match e {
        Error::BlankExternalId => "external_id no puede ser una cadena vacía"@,
        Error::UnknownDocument { external_id } => "no existe ningún documento con external_id '"@
            + external_id@ + "'"@,
        Error::DuplicateExternalId => "UNIQUE constraint failed: documents.external_id"@,
        Error::ForeignKey => "FOREIGN KEY constraint failed"@,
        Error::VectorLength { bytes, dimension, expected } => "vector de "@ + decimal(bytes as int)
            + " bytes no coincide con dimension "@ + decimal(dimension as int)
            + " (se esperaban "@ + decimal(expected as int) + " bytes, 4 por componente f32)"@,
        Error::ModelDimension { dimension, registered } => "la dimension "@ + decimal(
            dimension as int,
        ) + " no coincide con la del modelo registrado ("@ + decimal(registered as int) + ")"@,
        Error::NoEmbedding { chunk_id } => "el chunk "@ + decimal(chunk_id as int)
            + " no tiene un embedding guardado"@,
        Error::ClockBeforeEpoch => "system clock before unix epoch"@,
        Error::NotComparable => "a score or distance is not a number"@,
    }
}

impl Error {
    /// The message that the caller is shown.
    pub fn message(&self) -> (r: String)
        ensures
            r@ == message_of(*self),
    {
        let mut r = String::new();
        match self {
            Error::BlankExternalId => {
                r.append("external_id no puede ser una cadena vacía");
            },
            Error::UnknownDocument { external_id } => {
                r.append("no existe ningún documento con external_id '");
                r.append(external_id.as_str());
                r.append("'");
            },
            Error::DuplicateExternalId => {
                r.append("UNIQUE constraint failed: documents.external_id");
            },
            Error::ForeignKey => {
                r.append("FOREIGN KEY constraint failed");
            },
            Error::VectorLength { bytes, dimension, expected } => {
                r.append("vector de ");
                push_numeral(&mut r, *bytes as u64, 10);
                r.append(" bytes no coincide con dimension ");
                push_decimal(&mut r, *dimension);
                r.append(" (se esperaban ");
                push_numeral(&mut r, *expected, 10);
                r.append(" bytes, 4 por componente f32)");
            },
            Error::ModelDimension { dimension, registered } => {
                r.append("la dimension ");
                push_decimal(&mut r, *dimension);
                r.append(" no coincide con la del modelo registrado (");
                push_decimal(&mut r, *registered);
                r.append(")");
            },
            Error::NoEmbedding { chunk_id } => {
                r.append("el chunk ");
                push_decimal(&mut r, *chunk_id);
                r.append(" no tiene un embedding guardado");
            },
            Error::ClockBeforeEpoch => {
                r.append("system clock before unix epoch");
            },
            Error::NotComparable => {
                r.append("a score or distance is not a number");
            },
        }
        proof {
            assert(r@ =~= message_of(*self));
        }
        r
    }
}

} // verus!
