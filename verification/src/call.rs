//! The call encoder: a reference and the encoded arguments become one
//! byte string, the call payload.

use vstd::prelude::*;
use crate::abi::{FunctionAbi, FunctionModel};
use crate::address::AccountAddress;
use crate::bytes::{append_bytes, copy_range};
use crate::codec::{byte_strings, EncodedArguments, EncodedModel};
use crate::reference::{FunctionReference, ReferenceModel};
use crate::varint::{uleb_encoding, write_uleb};
use crate::wire::{length_prefixed, write_length_prefixed};

verus! {

/// Why a function cannot be the target of a call.
#[derive(Clone, Copy, Debug, PartialEq, Eq)]
pub enum EncodingError {
    /// The function is not an entry function.
    NotCallable,
}

/// One call: the function and its encoded arguments.
#[derive(Clone, Debug, PartialEq, Eq)]
pub struct CallPayload {
    pub module_address: AccountAddress,
    pub module_name: Vec<u8>,
    pub function_name: Vec<u8>,
    pub type_args: Vec<Vec<u8>>,
    pub args: Vec<Vec<u8>>,
}

/// A call payload as a mathematical value.
pub struct PayloadModel {
    pub module_address: Seq<u8>,
    pub module_name: Seq<u8>,
    pub function_name: Seq<u8>,
    pub type_args: Seq<Seq<u8>>,
    pub args: Seq<Seq<u8>>,
}

impl View for CallPayload {
    type V = PayloadModel;

    open spec fn view(&self) -> PayloadModel {
        PayloadModel {
            module_address: self.module_address@,
            module_name: self.module_name@,
            function_name: self.function_name@,
            type_args: byte_strings(self.type_args@),
            args: byte_strings(self.args@),
        }
    }
}

impl PayloadModel {
    /// Whether the payload has as many type arguments and arguments as
    /// the function has type parameters and parameters.
    pub open spec fn fits(self, function: FunctionModel) -> bool {
        self.type_args.len() == function.generic_arity() && self.args.len()
            == function.parameters.len()
    }
}

/// The byte strings, one after the other.
pub open spec fn flattened(parts: Seq<Seq<u8>>) -> Seq<u8>
    decreases parts.len(),
{
    if parts.len() == 0 {
        Seq::empty()
    } else {
        flattened(parts.drop_last()) + parts.last()
    }
}

/// The payload of a call to the function that `reference` names.
pub open spec fn payload_of(reference: ReferenceModel, encoded: EncodedModel) -> PayloadModel {
    PayloadModel {
        module_address: reference.module_address,
        module_name: reference.module_name,
        function_name: reference.function_name,
        type_args: encoded.type_args,
        args: encoded.args,
    }
}

/// The bytes of a payload: the address; the module name and the function
/// name, each behind its length; the number of type arguments and the type
/// arguments; the number of arguments and the arguments.
pub open spec fn payload_bytes(payload: PayloadModel) -> Seq<u8> {
    payload.module_address + length_prefixed(payload.module_name) + length_prefixed(
        payload.function_name,
    ) + uleb_encoding(payload.type_args.len()) + flattened(payload.type_args) + uleb_encoding(
        payload.args.len(),
    ) + flattened(payload.args)
}

/// What the call encoder returns for a function and encoded arguments.
pub open spec fn call_encoding(
    reference: ReferenceModel,
    function: FunctionModel,
    encoded: EncodedModel,
) -> Result<Seq<u8>, EncodingError> {
    if function.is_entry {
        Ok(payload_bytes(payload_of(reference, encoded)))
    } else {
        Err(EncodingError::NotCallable)
    }
}

/// Appends the number of the byte strings and then each of them.
pub fn write_counted(out: &mut Vec<u8>, parts: &Vec<Vec<u8>>)
    ensures
        final(out)@ == old(out)@ + uleb_encoding(parts@.len()) + flattened(byte_strings(parts@)),
{
    let ghost before = out@;
    let ghost all = byte_strings(parts@);
    write_uleb(out, parts.len() as u64);
    let ghost head = out@;
    let mut i: usize = 0;
    assert(all.take(0) =~= Seq::<Seq<u8>>::empty());
    assert(head + flattened(all.take(0)) =~= head);
    while i < parts.len()
        invariant
            i <= parts.len(),
            all == byte_strings(parts@),
            out@ == head + flattened(all.take(i as int)),
        decreases parts.len() - i,
    {
        append_bytes(out, parts[i].as_slice());
        proof {
            let upto = all.take(i + 1);
            assert(upto.drop_last() =~= all.take(i as int));
            assert(upto.last() == parts@[i as int]@);
            assert(out@ =~= head + flattened(upto));
        }
        i = i + 1;
    }
    assert(all.take(parts.len() as int) =~= all);
    assert(out@ =~= before + uleb_encoding(parts@.len()) + flattened(all));
}

/// A copy of each byte string.
pub fn copy_byte_strings(parts: &Vec<Vec<u8>>) -> (res: Vec<Vec<u8>>)
    ensures
        byte_strings(res@) == byte_strings(parts@),
{
    let mut out: Vec<Vec<u8>> = Vec::new();
    let mut i: usize = 0;
    while i < parts.len()
        invariant
            i <= parts.len(),
            out@.len() == i,
            forall|k: int| 0 <= k < i ==> (#[trigger] out@[k])@ == parts@[k]@,
        decreases parts.len() - i,
    {
        let item: Vec<u8> = copy_range(parts[i].as_slice(), 0, parts[i].len());
        assert(item@ =~= parts@[i as int]@);
        out.push(item);
        i = i + 1;
    }
    assert(byte_strings(out@) =~= byte_strings(parts@));
    out
}

impl CallPayload {
    /// The payload as one byte string.
    pub fn to_bytes(&self) -> (res: Vec<u8>)
        ensures
            res@ == payload_bytes(self@),
    {
        let mut out: Vec<u8> = Vec::new();
        append_bytes(&mut out, self.module_address.bytes.as_slice());
        write_length_prefixed(&mut out, self.module_name.as_slice());
        write_length_prefixed(&mut out, self.function_name.as_slice());
        write_counted(&mut out, &self.type_args);
        write_counted(&mut out, &self.args);
        assert(out@ =~= payload_bytes(self@));
        out
    }
}

/// Builds the payload of a call to an entry function from arguments that
/// were encoded against its signature.
pub fn build_call(
    reference: &FunctionReference,
    function: &FunctionAbi,
    encoded: &EncodedArguments,
) -> (res: Result<CallPayload, EncodingError>)
    requires
        encoded@.type_args.len() == function@.generic_arity(),
        encoded@.args.len() == function@.parameters.len(),
    ensures
        function.is_entry ==> (res matches Ok(payload) && payload@ == payload_of(
            reference@,
            encoded@,
        ) && payload@.fits(function@)),
        !function.is_entry ==> (res matches Err(e) && e == EncodingError::NotCallable),
{
    if !function.is_entry {
        return Err(EncodingError::NotCallable);
    }
    let module_name: Vec<u8> = copy_range(
        reference.module_name.as_slice(),
        0,
        reference.module_name.len(),
    );
    let function_name: Vec<u8> = copy_range(
        reference.function_name.as_slice(),
        0,
        reference.function_name.len(),
    );
    assert(module_name@ =~= reference.module_name@);
    assert(function_name@ =~= reference.function_name@);
    Ok(
        CallPayload {
            module_address: reference.module_address,
            module_name,
            function_name,
            type_args: copy_byte_strings(&encoded.type_args),
            args: copy_byte_strings(&encoded.args),
        },
    )
}

/// Encodes a call to an entry function as one byte string.
pub fn encode_call(
    reference: &FunctionReference,
    function: &FunctionAbi,
    encoded: &EncodedArguments,
) -> (res: Result<Vec<u8>, EncodingError>)
    requires
        encoded@.type_args.len() == function@.generic_arity(),
        encoded@.args.len() == function@.parameters.len(),
    ensures
        match call_encoding(reference@, function@, encoded@) {
            Ok(bytes) => res matches Ok(v) && v@ == bytes,
            Err(e) => res matches Err(found) && found == e,
        },
{
    match build_call(reference, function, encoded) {
        Ok(payload) => Ok(payload.to_bytes()),
        Err(e) => Err(e),
    }
}

} // verus!
