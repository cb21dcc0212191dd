use vstd::prelude::*;
use crate::bytecode_serializer::BytecodeSerializer;
use crate::bytecode_serializer::spec_frame;

verus! {

/// A typed store operation. `GET` is never written to the WAL.
#[derive(Debug, Clone, PartialEq, Eq, Hash)]
pub enum Op {
    SET { timestamp: i64, key: String, value: String },
    GET { timestamp: i64, key: String },
    DEL { timestamp: i64, key: String },
}

/// The operation code carried in the low nibble of a frame's header byte.
pub open spec fn op_code(op: Op) -> u8 {
    match op {
        Op::SET { .. } => 1,
        Op::GET { .. } => 2,
        Op::DEL { .. } => 4,
    }
}

pub open spec fn op_timestamp(op: Op) -> i64 {
    match op {
        Op::SET { timestamp, .. } => timestamp,
        Op::GET { timestamp, .. } => timestamp,
        Op::DEL { timestamp, .. } => timestamp,
    }
}

pub open spec fn op_key(op: Op) -> Seq<char> {
    match op {
        Op::SET { key, .. } => key@,
        Op::GET { key, .. } => key@,
        Op::DEL { key, .. } => key@,
    }
}

/// The value, present exactly on `SET`.
pub open spec fn op_value(op: Op) -> Option<Seq<char>> {
    match op {
        Op::SET { value, .. } => Some(value@),
        Op::GET { .. } => None,
        Op::DEL { .. } => None,
    }
}

/// The plain-value content of an operation: code, timestamp, key, and the
/// value where the kind carries one.
pub open spec fn op_tuple(op: Op) -> (u8, i64, Seq<char>, Option<Seq<char>>) {
    (op_code(op), op_timestamp(op), op_key(op), op_value(op))
}

/// Equality of operations up to the view of their strings.
pub open spec fn op_like(a: Op, b: Op) -> bool {
    op_tuple(a) == op_tuple(b)
}

impl Op {
    pub fn new_set(timestamp: i64, key: String, value: String) -> (r: Self)
        ensures
            r == (Op::SET { timestamp, key, value }),
    {
        Op::SET { timestamp, key, value }
    }

    pub fn new_get(timestamp: i64, key: String) -> (r: Self)
        ensures
            r == (Op::GET { timestamp, key }),
    {
        Op::GET { timestamp, key }
    }

    pub fn new_del(timestamp: i64, key: String) -> (r: Self)
        ensures
            r == (Op::DEL { timestamp, key }),
    {
        Op::DEL { timestamp, key }
    }

    /// The complete on-disk frame for this operation.
    pub fn into_bytes(&self) -> (r: Vec<u8>)
        ensures
            r@ == spec_frame(*self),
    {
        BytecodeSerializer::op_to_bytes(self)
    }
}

#[derive(Debug, Clone, PartialEq, Eq, Hash)]
pub enum OpType {
    SET,
    GET,
    DEL,
}

/// Builds an operation incrementally as the parser walks a statement.
#[derive(Debug, Clone, PartialEq, Eq, Hash)]
pub struct OpBuilder {
    pub timestamp: i64,
    pub op_type: Option<OpType>,
    pub key: Option<String>,
    pub value: Option<String>,
}

impl OpBuilder {
    pub open spec fn spec_op_type(self) -> Option<OpType> {
        self.op_type
    }

    pub open spec fn spec_key(self) -> Option<Seq<char>> {
        match self.key {
            Some(k) => Some(k@),
            None => None,
        }
    }

    pub open spec fn spec_value(self) -> Option<Seq<char>> {
        match self.value {
            Some(v) => Some(v@),
            None => None,
        }
    }

    pub open spec fn spec_timestamp(self) -> i64 {
        self.timestamp
    }

    /// What `build` yields: `Some` exactly when the fields that the
    /// operation kind needs are present.
    pub open spec fn spec_build(self) -> Option<Op> {
        match self.op_type {
            Some(OpType::SET) => match (self.key, self.value) {
                (Some(k), Some(v)) => Some(
                    Op::SET { timestamp: self.timestamp, key: k, value: v },
                ),
                _ => None,
            },
            Some(OpType::GET) => match self.key {
                Some(k) => Some(Op::GET { timestamp: self.timestamp, key: k }),
                _ => None,
            },
            Some(OpType::DEL) => match self.key {
                Some(k) => Some(Op::DEL { timestamp: self.timestamp, key: k }),
                _ => None,
            },
            None => None,
        }
    }

    pub fn new() -> (r: Self)
        ensures
            r.spec_op_type() is None,
            r.spec_key() is None,
            r.spec_value() is None,
            r.spec_timestamp() == 0i64,
    {
        OpBuilder { timestamp: 0i64, op_type: None, key: None, value: None }
    }

    pub fn set_op_type(&mut self, op_type: OpType)
        ensures
            *final(self) == (OpBuilder { op_type: Some(op_type), ..*old(self) }),
    {
        self.op_type = Some(op_type);
    }

    pub fn set_key(&mut self, key: String)
        ensures
            *final(self) == (OpBuilder { key: Some(key), ..*old(self) }),
    {
        self.key = Some(key);
    }

    pub fn set_value(&mut self, value: String)
        ensures
            *final(self) == (OpBuilder { value: Some(value), ..*old(self) }),
    {
        self.value = Some(value);
    }

    pub fn build(&self) -> (r: Option<Op>)
        ensures
            r == self.spec_build(),
    {
        match &self.op_type {
            Some(OpType::SET) => match (&self.key, &self.value) {
                (Some(k), Some(v)) => Some(Op::new_set(self.timestamp, k.clone(), v.clone())),
                _ => None,
            },
            Some(OpType::GET) => match &self.key {
                Some(k) => Some(Op::new_get(self.timestamp, k.clone())),
                _ => None,
            },
            Some(OpType::DEL) => match &self.key {
                Some(k) => Some(Op::new_del(self.timestamp, k.clone())),
                _ => None,
            },
            None => None,
        }
    }
}

} // verus!
