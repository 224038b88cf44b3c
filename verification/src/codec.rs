//! The argument codec: the literals of a call are checked against the
//! signature of the function and coerced to their binary form.

use vstd::prelude::*;
use crate::abi::{FunctionAbi, FunctionModel};
use crate::literal::{encode_value, value_encoding, ValueFault};
use crate::type_tag::{
    tag_encoding, tag_models, write_type_tag, TypeModel, TypeTag, MAX_TYPE_DEPTH,
};
use crate::type_text::{parse_type_tag, type_of_text};

verus! {

/// Why the literals of a call do not fit the function.
#[derive(Clone, Copy, Debug, PartialEq, Eq)]
pub enum CodecError {
    /// The number of value literals is not the number of parameters.
    ArityMismatch { expected: usize, found: usize },
    /// The number of type literals is not the number of type parameters.
    GenericArityMismatch { expected: usize, found: usize },
    /// The value literal at `index` is neither `true` nor `false`.
    InvalidBool { index: usize },
    /// The value literal at `index` is no number.
    InvalidNumber { index: usize },
    /// The value literal at `index` is a number that its type cannot hold.
    OutOfRange { index: usize },
    /// The value literal at `index` is no address.
    InvalidAddress { index: usize },
    /// The value literal at `index` is not enclosed in `[` and `]`.
    InvalidVector { index: usize },
    /// The parameter at `index` is of a type that no literal stands for.
    UnsupportedType { index: usize },
    /// The type literal at `index` names no type.
    InvalidTypeTag { index: usize },
}

/// The encoded arguments of a call: type arguments and values, each in the
/// order of its literals.
#[derive(Clone, Debug, PartialEq, Eq)]
pub struct EncodedArguments {
    pub type_args: Vec<Vec<u8>>,
    pub args: Vec<Vec<u8>>,
}

/// Encoded arguments as a mathematical value.
pub struct EncodedModel {
    pub type_args: Seq<Seq<u8>>,
    pub args: Seq<Seq<u8>>,
}

/// The byte strings that a sequence of vectors holds.
pub open spec fn byte_strings(v: Seq<Vec<u8>>) -> Seq<Seq<u8>> {
    Seq::new(v.len(), |i: int| v[i]@)
}

impl View for EncodedArguments {
    type V = EncodedModel;

    open spec fn view(&self) -> EncodedModel {
        EncodedModel { type_args: byte_strings(self.type_args@), args: byte_strings(self.args@) }
    }
}

/// The fault of the value literal at `index`, as an error of the codec.
pub open spec fn fault_at(index: usize, fault: ValueFault) -> CodecError {
    match fault {
        ValueFault::InvalidBool => CodecError::InvalidBool { index },
        ValueFault::InvalidNumber => CodecError::InvalidNumber { index },
        ValueFault::OutOfRange => CodecError::OutOfRange { index },
        ValueFault::InvalidAddress => CodecError::InvalidAddress { index },
        ValueFault::InvalidVector => CodecError::InvalidVector { index },
        ValueFault::UnsupportedType => CodecError::UnsupportedType { index },
    }
}

/// The least index below `upto` whose literal is no value of its
/// parameter's type.
pub open spec fn first_fault(params: Seq<TypeModel>, literals: Seq<Seq<u8>>, upto: int) -> Option<
    int,
>
    decreases upto,
{
    if upto <= 0 {
        None
    } else {
        match first_fault(params, literals, upto - 1) {
            Some(i) => Some(i),
            None => if value_encoding(params[upto - 1], literals[upto - 1]) is Err {
                Some(upto - 1)
            } else {
                None
            },
        }
    }
}

/// The least index below `upto` whose literal names no type.
pub open spec fn first_untyped(literals: Seq<Seq<u8>>, upto: int) -> Option<int>
    decreases upto,
{
    if upto <= 0 {
        None
    } else {
        match first_untyped(literals, upto - 1) {
            Some(i) => Some(i),
            None => if type_of_text(literals[upto - 1], MAX_TYPE_DEPTH as nat) is None {
                Some(upto - 1)
            } else {
                None
            },
        }
    }
}

/// The encoded values of a call whose literals are as many as the
/// parameters: each literal coerced to its parameter's type, or the error
/// of the first literal that cannot be.
pub open spec fn values_encoding(params: Seq<TypeModel>, literals: Seq<Seq<u8>>) -> Result<
    Seq<Seq<u8>>,
    CodecError,
> {
    match first_fault(params, literals, literals.len() as int) {
        Some(i) => Err(fault_at(i as usize, value_encoding(params[i], literals[i])->Err_0)),
        None => Ok(
            Seq::new(literals.len(), |i: int| value_encoding(params[i], literals[i])->Ok_0),
        ),
    }
}

/// The binary form of the type that a literal names.
pub open spec fn type_bytes(literal: Seq<u8>) -> Seq<u8> {
    tag_encoding(type_of_text(literal, MAX_TYPE_DEPTH as nat)->Some_0)
}

/// The encoded type arguments of a call: the binary form of the type that
/// each literal names, or the error of the first literal that names none.
pub open spec fn types_encoding(literals: Seq<Seq<u8>>) -> Result<Seq<Seq<u8>>, CodecError> {
    match first_untyped(literals, literals.len() as int) {
        Some(i) => Err(CodecError::InvalidTypeTag { index: i as usize }),
        None => Ok(Seq::new(literals.len(), |i: int| type_bytes(literals[i]))),
    }
}

/// What the codec makes of the literals of a call to `function`: the
/// counts are checked first, then the values are coerced, then the types.
pub open spec fn call_arguments(
    function: FunctionModel,
    arguments: Seq<Seq<u8>>,
    type_parameters: Seq<Seq<u8>>,
) -> Result<EncodedModel, CodecError> {
    if arguments.len() != function.parameters.len() {
        Err(
            CodecError::ArityMismatch {
                expected: function.parameters.len() as usize,
                found: arguments.len() as usize,
            },
        )
    } else if type_parameters.len() != function.generic_arity() {
        Err(
            CodecError::GenericArityMismatch {
                expected: function.generic_arity() as usize,
                found: type_parameters.len() as usize,
            },
        )
    } else {
        match values_encoding(function.parameters, arguments) {
            Ok(args) => match types_encoding(type_parameters) {
                Ok(type_args) => Ok(EncodedModel { type_args, args }),
                Err(e) => Err(e),
            },
            Err(e) => Err(e),
        }
    }
}

/// The first faulty literal among some is the first among more.
pub proof fn lemma_first_fault_stays(
    params: Seq<TypeModel>,
    literals: Seq<Seq<u8>>,
    k: int,
    upto: int,
)
    requires
        k <= upto,
        first_fault(params, literals, k) is Some,
    ensures
        first_fault(params, literals, upto) == first_fault(params, literals, k),
    decreases upto - k,
{
    if k < upto {
        lemma_first_fault_stays(params, literals, k, upto - 1);
    }
}

/// The first literal without a type among some is the first among more.
pub proof fn lemma_first_untyped_stays(literals: Seq<Seq<u8>>, k: int, upto: int)
    requires
        k <= upto,
        first_untyped(literals, k) is Some,
    ensures
        first_untyped(literals, upto) == first_untyped(literals, k),
    decreases upto - k,
{
    if k < upto {
        lemma_first_untyped_stays(literals, k, upto - 1);
    }
}

/// The fault of the value literal at `index`, as an error of the codec.
pub fn codec_fault(index: usize, fault: ValueFault) -> (res: CodecError)
    ensures
        res == fault_at(index, fault),
{
    match fault {
        ValueFault::InvalidBool => CodecError::InvalidBool { index },
        ValueFault::InvalidNumber => CodecError::InvalidNumber { index },
        ValueFault::OutOfRange => CodecError::OutOfRange { index },
        ValueFault::InvalidAddress => CodecError::InvalidAddress { index },
        ValueFault::InvalidVector => CodecError::InvalidVector { index },
        ValueFault::UnsupportedType => CodecError::UnsupportedType { index },
    }
}

/// Coerces each value literal to the type of its parameter.
pub fn encode_values(parameters: &Vec<TypeTag>, literals: &Vec<Vec<u8>>) -> (res: Result<
    Vec<Vec<u8>>,
    CodecError,
>)
    requires
        parameters@.len() == literals@.len(),
    ensures
        match values_encoding(tag_models(parameters@), byte_strings(literals@)) {
            Ok(values) => res matches Ok(v) && byte_strings(v@) == values,
            Err(e) => res matches Err(found) && found == e,
        },
{
    let ghost params = tag_models(parameters@);
    let ghost texts = byte_strings(literals@);
    let mut out: Vec<Vec<u8>> = Vec::new();
    let mut i: usize = 0;
    while i < literals.len()
        invariant
            i <= literals.len(),
            parameters@.len() == literals@.len(),
            params == tag_models(parameters@),
            texts == byte_strings(literals@),
            first_fault(params, texts, i as int) is None,
            out@.len() == i,
            forall|k: int|
                0 <= k < i ==> value_encoding(params[k], texts[k]) == Ok::<Seq<u8>, ValueFault>(
                    (#[trigger] out@[k])@,
                ),
        decreases literals.len() - i,
    {
        match encode_value(&parameters[i], literals[i].as_slice()) {
            Ok(bytes) => {
                out.push(bytes);
            },
            Err(fault) => {
                proof {
                    assert(first_fault(params, texts, i + 1) == Some(i as int));
                    lemma_first_fault_stays(params, texts, i + 1, texts.len() as int);
                }
                return Err(codec_fault(i, fault));
            },
        }
        i = i + 1;
    }
    assert(byte_strings(out@) =~= values_encoding(params, texts)->Ok_0);
    Ok(out)
}

/// Parses each type literal and writes the binary form of its type.
pub fn encode_types(literals: &Vec<Vec<u8>>) -> (res: Result<Vec<Vec<u8>>, CodecError>)
    ensures
        match types_encoding(byte_strings(literals@)) {
            Ok(types) => res matches Ok(v) && byte_strings(v@) == types,
            Err(e) => res matches Err(found) && found == e,
        },
{
    let ghost texts = byte_strings(literals@);
    let mut out: Vec<Vec<u8>> = Vec::new();
    let mut i: usize = 0;
    while i < literals.len()
        invariant
            i <= literals.len(),
            texts == byte_strings(literals@),
            first_untyped(texts, i as int) is None,
            out@.len() == i,
            forall|k: int| 0 <= k < i ==> (#[trigger] out@[k])@ == type_bytes(texts[k]),
        decreases literals.len() - i,
    {
        assert(texts[i as int] == literals@[i as int]@);
        match parse_type_tag(literals[i].as_slice(), MAX_TYPE_DEPTH) {
            Some(tag) => {
                let mut bytes: Vec<u8> = Vec::new();
                write_type_tag(&mut bytes, &tag);
                assert(bytes@ =~= tag_encoding(tag@));
                let ghost before = out@;
                out.push(bytes);
                assert(out@[i as int]@ == type_bytes(texts[i as int]));
                assert(forall|k: int| 0 <= k < i ==> out@[k] == before[k]);
            },
            None => {
                proof {
                    assert(first_untyped(texts, i + 1) == Some(i as int));
                    lemma_first_untyped_stays(texts, i + 1, texts.len() as int);
                }
                return Err(CodecError::InvalidTypeTag { index: i });
            },
        }
        i = i + 1;
    }
    assert(byte_strings(out@) =~= types_encoding(texts)->Ok_0);
    Ok(out)
}

/// Checks the literals of a call against the signature of `function` and
/// encodes them: the values against the parameters, the type literals as
/// type tags.
pub fn encode_arguments(
    function: &FunctionAbi,
    arguments: &Vec<Vec<u8>>,
    type_parameters: &Vec<Vec<u8>>,
) -> (res: Result<EncodedArguments, CodecError>)
    ensures
        match call_arguments(function@, byte_strings(arguments@), byte_strings(type_parameters@)) {
            Ok(model) => res matches Ok(encoded) && encoded@ == model,
            Err(e) => res matches Err(found) && found == e,
        },
        res matches Ok(encoded) ==> encoded.args@.len() == function.parameters@.len()
            && encoded.type_args@.len() == function.generic_constraints@.len(),
{
    if arguments.len() != function.parameters.len() {
        return Err(
            CodecError::ArityMismatch {
                expected: function.parameters.len(),
                found: arguments.len(),
            },
        );
    }
    if type_parameters.len() != function.generic_arity() {
        return Err(
            CodecError::GenericArityMismatch {
                expected: function.generic_arity(),
                found: type_parameters.len(),
            },
        );
    }
    let args: Vec<Vec<u8>> = match encode_values(&function.parameters, arguments) {
        Ok(values) => values,
        Err(e) => {
            return Err(e);
        },
    };
    let type_args: Vec<Vec<u8>> = match encode_types(type_parameters) {
        Ok(types) => types,
        Err(e) => {
            return Err(e);
        },
    };
    assert(byte_strings(args@).len() == args@.len());
    assert(byte_strings(type_args@).len() == type_args@.len());
    Ok(EncodedArguments { type_args, args })
}

} // verus!
