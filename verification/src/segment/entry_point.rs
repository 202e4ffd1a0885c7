//! Failures of operations on a single segment.

use vstd::prelude::*;
use vstd::string::*;
use crate::segment::types::PointIdType;
use crate::text::{append_decimal, decimal};

verus! {

/// Why a segment refused or could not complete an operation.
#[derive(Debug, Clone, PartialEq, Eq)]
pub enum OperationError {
    /// A vector of the wrong dimensionality was offered.
    WrongVector { expected_dim: usize, received_dim: usize },
    /// The operation names a point that the segment does not hold.
    PointIdError { missed_point_id: PointIdType },
    /// A payload value does not have the type recorded for its field.
    TypeError { field_name: String, expected_type: String },
    /// The segment failed internally.
    ServiceError { description: String },
    /// The operation was abandoned before it completed.
    Cancelled { description: String },
}

impl OperationError {
    /// The human-readable message of this error.
    pub open spec fn message_spec(self) -> Seq<char> {
        match self {
            OperationError::WrongVector { expected_dim, received_dim } => {
                "Vector inserting error: expected dim: "@ + decimal(expected_dim as nat) + ", got "@
                    + decimal(received_dim as nat)
            },
            OperationError::PointIdError { missed_point_id } => {
                "No point with id "@ + decimal(missed_point_id as nat) + " found"@
            },
            OperationError::TypeError { field_name, expected_type } => {
                "Payload type does not match with previously given for field "@ + field_name@
                    + ". Expected: "@ + expected_type@
            },
            OperationError::ServiceError { description } => {
                "Service runtime error: "@ + description@
            },
            OperationError::Cancelled { description } => {
                "Operation cancelled: "@ + description@
            },
        }
    }

    /// Renders the message of this error.
    pub fn message(&self) -> (s: String)
        ensures
            s@ == self.message_spec(),
    {
        match self {
            OperationError::WrongVector { expected_dim, received_dim } => {
                let mut s = String::from_str("Vector inserting error: expected dim: ");
                append_decimal(&mut s, *expected_dim as u64);
                s.append(", got ");
                append_decimal(&mut s, *received_dim as u64);
                s
            },
            OperationError::PointIdError { missed_point_id } => {
                let mut s = String::from_str("No point with id ");
                append_decimal(&mut s, *missed_point_id);
                s.append(" found");
                s
            },
            OperationError::TypeError { field_name, expected_type } => {
                let mut s = String::from_str(
                    "Payload type does not match with previously given for field ",
                );
                s.append(field_name.as_str());
                s.append(". Expected: ");
                s.append(expected_type.as_str());
                s
            },
            OperationError::ServiceError { description } => {
                let mut s = String::from_str("Service runtime error: ");
                s.append(description.as_str());
                s
            },
            OperationError::Cancelled { description } => {
                let mut s = String::from_str("Operation cancelled: ");
                s.append(description.as_str());
                s
            },
        }
    }
}

} // verus!
