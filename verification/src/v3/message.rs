//! What the v3 errors say.

use vstd::prelude::*;
use crate::text::{decimal, push_decimal, push_str, text_of};
use crate::v3::container::{CactError, V3GeometryError};
use crate::v3::engine::V3EngineError;
use crate::v3::layout::V3LayoutError;
use crate::v3::slice::V3LoadError;

verus! {

impl CactError {
    pub open spec fn text(&self) -> Seq<char> {
        match self {
            CactError::Truncated { need, got } => "file is truncated: need "@ + decimal(
                *need as nat,
            ) + " bytes, got "@ + decimal(*got as nat),
            CactError::BadTag { tag } => "not a v3 container: tag "@ + decimal(*tag as nat),
            CactError::BadCount { what, got } => "too many "@ + what@ + ": "@ + decimal(
                *got as nat,
            ),
            CactError::OutOfBounds { index } => "tensor "@ + decimal(*index as nat)
                + " lies outside the file"@,
            CactError::NotFloats { index } => "tensor "@ + decimal(*index as nat)
                + " does not hold plain numbers"@,
        }
    }

    /// The error in words.
    pub fn message(&self) -> (s: String)
        ensures
            s@ == self.text(),
    {
        let mut out: Vec<char> = Vec::new();
        match self {
            CactError::Truncated { need, got } => {
                push_str(&mut out, "file is truncated: need ");
                push_decimal(&mut out, *need);
                push_str(&mut out, " bytes, got ");
                push_decimal(&mut out, *got);
            },
            CactError::BadTag { tag } => {
                push_str(&mut out, "not a v3 container: tag ");
                push_decimal(&mut out, *tag as usize);
            },
            CactError::BadCount { what, got } => {
                push_str(&mut out, "too many ");
                push_str(&mut out, what);
                push_str(&mut out, ": ");
                push_decimal(&mut out, *got);
            },
            CactError::OutOfBounds { index } => {
                push_str(&mut out, "tensor ");
                push_decimal(&mut out, *index);
                push_str(&mut out, " lies outside the file");
            },
            CactError::NotFloats { index } => {
                push_str(&mut out, "tensor ");
                push_decimal(&mut out, *index);
                push_str(&mut out, " does not hold plain numbers");
            },
        }
        assert(out@ =~= self.text());
        text_of(&out)
    }
}

impl V3GeometryError {
    pub open spec fn text(&self) -> Seq<char> {
        match self {
            V3GeometryError::NoEngramOrders => "container declares no engram orders"@,
            V3GeometryError::TableCountNotDivisible { tables, orders } => "engram tables "@
                + decimal(*tables as nat) + " is not a multiple of "@ + decimal(*orders as nat)
                + " orders, so the per-order head count is undefined"@,
            V3GeometryError::SubDimMismatch { declared, derived } => "engram sub_dim "@ + decimal(
                *declared as nat,
            ) + " disagrees with d_model / (orders * heads) = "@ + decimal(*derived as nat),
            V3GeometryError::HeadsNotDivisible { heads, kv_heads } => decimal(*heads as nat)
                + " query heads do not divide into "@ + decimal(*kv_heads as nat) + " kv heads"@,
        }
    }

    /// The error in words.
    pub fn message(&self) -> (s: String)
        ensures
            s@ == self.text(),
    {
        let mut out: Vec<char> = Vec::new();
        match self {
            V3GeometryError::NoEngramOrders => push_str(
                &mut out,
                "container declares no engram orders",
            ),
            V3GeometryError::TableCountNotDivisible { tables, orders } => {
                push_str(&mut out, "engram tables ");
                push_decimal(&mut out, *tables);
                push_str(&mut out, " is not a multiple of ");
                push_decimal(&mut out, *orders);
                push_str(&mut out, " orders, so the per-order head count is undefined");
            },
            V3GeometryError::SubDimMismatch { declared, derived } => {
                push_str(&mut out, "engram sub_dim ");
                push_decimal(&mut out, *declared);
                push_str(&mut out, " disagrees with d_model / (orders * heads) = ");
                push_decimal(&mut out, *derived);
            },
            V3GeometryError::HeadsNotDivisible { heads, kv_heads } => {
                push_decimal(&mut out, *heads);
                push_str(&mut out, " query heads do not divide into ");
                push_decimal(&mut out, *kv_heads);
                push_str(&mut out, " kv heads");
            },
        }
        assert(out@ =~= self.text());
        text_of(&out)
    }
}

impl V3LayoutError {
    pub open spec fn text(&self) -> Seq<char> {
        match self {
            V3LayoutError::TooFewTensors { need, got } => "canon needs at least "@ + decimal(
                *need as nat,
            ) + " tensors, directory has "@ + decimal(*got as nat),
            V3LayoutError::BadShape { index, what, want, got } => "slot "@ + decimal(
                *index as nat,
            ) + " ("@ + what@ + "): want "@ + decimal(want[0] as nat) + "x"@ + decimal(
                want[1] as nat,
            ) + ", got "@ + decimal(got[0] as nat) + "x"@ + decimal(got[1] as nat),
        }
    }

    /// The error in words.
    pub fn message(&self) -> (s: String)
        ensures
            s@ == self.text(),
    {
        let mut out: Vec<char> = Vec::new();
        match self {
            V3LayoutError::TooFewTensors { need, got } => {
                push_str(&mut out, "canon needs at least ");
                push_decimal(&mut out, *need);
                push_str(&mut out, " tensors, directory has ");
                push_decimal(&mut out, *got);
            },
            V3LayoutError::BadShape { index, what, want, got } => {
                push_str(&mut out, "slot ");
                push_decimal(&mut out, *index);
                push_str(&mut out, " (");
                push_str(&mut out, what);
                push_str(&mut out, "): want ");
                push_decimal(&mut out, want[0]);
                push_str(&mut out, "x");
                push_decimal(&mut out, want[1]);
                push_str(&mut out, ", got ");
                push_decimal(&mut out, got[0]);
                push_str(&mut out, "x");
                push_decimal(&mut out, got[1]);
            },
        }
        assert(out@ =~= self.text());
        text_of(&out)
    }
}

impl V3LoadError {
    pub open spec fn text(&self) -> Seq<char> {
        match self {
            V3LoadError::Cact(e) => "container: "@ + e.text(),
            V3LoadError::Geometry(e) => "geometry: "@ + e.text(),
            V3LoadError::Layout(e) => "layout: "@ + e.text(),
            V3LoadError::EmptyScalar(what) => what@ + " tensor is empty"@,
            V3LoadError::Shape(what) => what@,
        }
    }

    /// The error in words.
    pub fn message(&self) -> (s: String)
        ensures
            s@ == self.text(),
    {
        let mut out: Vec<char> = Vec::new();
        match self {
            V3LoadError::Cact(e) => {
                push_str(&mut out, "container: ");
                push_str(&mut out, e.message().as_str());
            },
            V3LoadError::Geometry(e) => {
                push_str(&mut out, "geometry: ");
                push_str(&mut out, e.message().as_str());
            },
            V3LoadError::Layout(e) => {
                push_str(&mut out, "layout: ");
                push_str(&mut out, e.message().as_str());
            },
            V3LoadError::EmptyScalar(what) => {
                push_str(&mut out, what);
                push_str(&mut out, " tensor is empty");
            },
            V3LoadError::Shape(what) => push_str(&mut out, what),
        }
        assert(out@ =~= self.text());
        text_of(&out)
    }
}

impl V3EngineError {
    pub open spec fn text(&self) -> Seq<char> {
        match self {
            V3EngineError::Io(what) => what@,
            V3EngineError::Load(e) => e.text(),
            V3EngineError::NoTokenizer => "container carries no tokenizer"@,
            V3EngineError::BadTokenizer => "embedded tokenizer did not decode"@,
        }
    }

    /// The error in words.
    pub fn message(&self) -> (s: String)
        ensures
            s@ == self.text(),
    {
        let mut out: Vec<char> = Vec::new();
        match self {
            V3EngineError::Io(what) => push_str(&mut out, what.as_str()),
            V3EngineError::Load(e) => push_str(&mut out, e.message().as_str()),
            V3EngineError::NoTokenizer => push_str(&mut out, "container carries no tokenizer"),
            V3EngineError::BadTokenizer => push_str(
                &mut out,
                "embedded tokenizer did not decode",
            ),
        }
        assert(out@ =~= self.text());
        text_of(&out)
    }
}

} // verus!
