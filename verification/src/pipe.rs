use vstd::prelude::*;

use std::collections::HashMap;

verus! {

/// A number, kept as the text it was written as.
#[derive(Clone, PartialEq, Debug)]
pub struct Number {
    n: String,
}

/// An interpolation, kept as its source text.
pub struct Interpolation {
    n: String,
}

/// A value of a pipeline description.
#[derive(PartialEq, Debug)]
pub enum Value {
    Object(Vec<(String, Value)>),
    Array(Vec<Value>),
    String(String),
    Number(Number),
    Boolean(bool),
    Interpolation(String),
    Null,
}

/// A pipe: its pipelines.
#[derive(Debug, PartialEq, Default)]
pub struct Pipe {
    pub pipeline: Vec<Pipeline>,
}

/// A pipeline: its modules, in order.
#[derive(Debug, PartialEq, Default)]
pub struct Pipeline {
    pub modules: Vec<Module>,
}

/// A module step of a pipeline.
#[derive(Debug, PartialEq, Default)]
pub struct Module {
    pub module: String,
    pub name: String,
    pub params: HashMap<String, Value>,
    pub attach: String,
}

} // verus!
