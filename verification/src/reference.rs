//! References to functions: `<address>::<module>::<function>`.

use vstd::prelude::*;
use crate::address::{address_of_text, is_address_text, AccountAddress};
use crate::ascii::COLON;
use crate::bytes::{append_bytes, bytes_equal, copy_range};
use crate::hex::{encode_hex, hex_text};
use vstd::slice::slice_subrange;

verus! {

/// Why a descriptor names no function.
#[derive(Clone, Copy, Debug, PartialEq, Eq)]
pub enum ParseError {
    /// The descriptor is not three non-empty parts with `::` between them.
    Malformed,
    /// The first part is no address.
    InvalidAddress,
    /// The module named beside the descriptor is not the one it names.
    InconsistentModuleName,
    /// The function named beside the descriptor is not the one it names.
    InconsistentFunctionName,
}

/// A function of a module of an account.
#[derive(Clone, Debug, PartialEq, Eq)]
pub struct FunctionReference {
    pub module_address: AccountAddress,
    pub module_name: Vec<u8>,
    pub function_name: Vec<u8>,
}

/// A function reference as a mathematical value.
pub struct ReferenceModel {
    pub module_address: Seq<u8>,
    pub module_name: Seq<u8>,
    pub function_name: Seq<u8>,
}

impl View for FunctionReference {
    type V = ReferenceModel;

    open spec fn view(&self) -> ReferenceModel {
        ReferenceModel {
            module_address: self.module_address@,
            module_name: self.module_name@,
            function_name: self.function_name@,
        }
    }
}

/// The separator between the parts of a path: `::`.
pub open spec fn separator() -> Seq<u8> {
    seq![COLON, COLON]
}

/// Whether a separator starts at `i`.
pub open spec fn separator_at(s: Seq<u8>, i: int) -> bool {
    0 <= i && i + 1 < s.len() && s[i] == COLON && s[i + 1] == COLON
}

/// Where the first separator at or after `from` starts; the length of the
/// text where there is none.
pub open spec fn first_separator(s: Seq<u8>, from: int) -> int
    decreases s.len() - from,
{
    if from < 0 || from + 1 >= s.len() {
        s.len() as int
    } else if separator_at(s, from) {
        from
    } else {
        first_separator(s, from + 1)
    }
}

/// The parts of a path: what stands before, between and after its
/// separators, taken from the left.
pub open spec fn split_path(s: Seq<u8>) -> Seq<Seq<u8>>
    decreases s.len(),
{
    let at = first_separator(s, 0);
    if 0 <= at && at + 2 <= s.len() {
        seq![s.subrange(0, at)] + split_path(s.skip(at + 2))
    } else {
        seq![s]
    }
}

/// The function that a descriptor names, checked against the module name
/// that was given beside it.
pub open spec fn reference_of_text(descriptor: Seq<u8>, module_name: Seq<u8>) -> Result<
    ReferenceModel,
    ParseError,
> {
    let parts = split_path(descriptor);
    if parts.len() != 3 || parts[0].len() == 0 || parts[1].len() == 0 || parts[2].len() == 0 {
        Err(ParseError::Malformed)
    } else if !is_address_text(parts[0]) {
        Err(ParseError::InvalidAddress)
    } else if parts[1] != module_name {
        Err(ParseError::InconsistentModuleName)
    } else {
        Ok(
            ReferenceModel {
                module_address: address_of_text(parts[0]),
                module_name: parts[1],
                function_name: parts[2],
            },
        )
    }
}

/// The first separator is found inside the text or not at all.
pub proof fn lemma_first_separator_bounds(s: Seq<u8>, from: int)
    requires
        0 <= from <= s.len(),
    ensures
        from <= first_separator(s, from) <= s.len(),
        first_separator(s, from) < s.len() ==> separator_at(s, first_separator(s, from)),
        forall|k: int| from <= k < first_separator(s, from) ==> !separator_at(s, k),
    decreases s.len() - from,
{
    if from + 1 < s.len() && !separator_at(s, from) {
        lemma_first_separator_bounds(s, from + 1);
    }
}

/// Searching in a text without its first `k` bytes is searching in the
/// text from `k` on.
pub proof fn lemma_first_separator_skip(s: Seq<u8>, k: int, from: int)
    requires
        0 <= k <= s.len(),
        0 <= from,
    ensures
        first_separator(s.skip(k), from) + k == first_separator(s, k + from),
    decreases s.len() - k - from,
{
    let t = s.skip(k);
    if from + 1 < t.len() {
        assert(separator_at(t, from) == separator_at(s, k + from));
        if !separator_at(t, from) {
            lemma_first_separator_skip(s, k, from + 1);
        }
    }
}

/// Every path has a part.
pub proof fn lemma_split_path_nonempty(s: Seq<u8>)
    ensures
        split_path(s).len() >= 1,
    decreases s.len(),
{
    let at = first_separator(s, 0);
    if 0 <= at && at + 2 <= s.len() {
        lemma_split_path_nonempty(s.skip(at + 2));
    }
}

/// Finds the first separator at or after `from`.
pub fn find_separator(text: &[u8], from: usize) -> (res: usize)
    requires
        from <= text.len(),
    ensures
        res == first_separator(text@, from as int),
        from <= res <= text.len(),
{
    let mut i: usize = from;
    while i < text.len() && text.len() - i >= 2
        invariant
            from <= i <= text.len(),
            first_separator(text@, from as int) == first_separator(text@, i as int),
        decreases text.len() - i,
    {
        if text[i] == COLON && text[i + 1] == COLON {
            return i;
        }
        i = i + 1;
    }
    text.len()
}

/// Finds the two separators of a path of three parts.
pub fn three_parts(text: &[u8]) -> (res: Option<(usize, usize)>)
    ensures
        res.is_some() == (split_path(text@).len() == 3),
        res matches Some((first, second)) ==> first + 2 <= second && second + 2 <= text@.len()
            && split_path(text@) == seq![
            text@.subrange(0, first as int),
            text@.subrange(first + 2, second as int),
            text@.subrange(second + 2, text@.len() as int),
        ],
{
    let ghost s = text@;
    let len: usize = text.len();
    let first: usize = find_separator(text, 0);
    proof {
        lemma_first_separator_bounds(s, 0);
    }
    if first >= len {
        return None;
    }
    let second: usize = find_separator(text, first + 2);
    proof {
        lemma_first_separator_bounds(s, first + 2);
        lemma_first_separator_skip(s, first + 2, 0);
        lemma_first_separator_bounds(s.skip(first + 2), 0);
    }
    if second >= len {
        assert(split_path(s.skip(first + 2)) == seq![s.skip(first + 2)]);
        assert(split_path(s).len() == 2);
        return None;
    }
    let third: usize = find_separator(text, second + 2);
    proof {
        lemma_first_separator_bounds(s, second + 2);
        lemma_first_separator_skip(s, second + 2, 0);
        lemma_first_separator_bounds(s.skip(second + 2), 0);
        assert(s.skip(first + 2).skip(second - first) =~= s.skip(second + 2));
        assert(s.skip(first + 2).subrange(0, second - first - 2) =~= s.subrange(
            first + 2,
            second as int,
        ));
        assert(split_path(s.skip(first + 2)) == seq![s.subrange(first + 2, second as int)]
            + split_path(s.skip(second + 2)));
    }
    if third < len {
        proof {
            let rest = s.skip(second + 2);
            lemma_split_path_nonempty(rest.skip(third - second));
        }
        assert(split_path(s.skip(second + 2)).len() >= 2);
        assert(split_path(s).len() >= 4);
        return None;
    }
    proof {
        assert(split_path(s.skip(second + 2)) == seq![s.skip(second + 2)]);
        assert(s.skip(second + 2) =~= s.subrange(second + 2, len as int));
        assert(split_path(s) =~= seq![
            s.subrange(0, first as int),
            s.subrange(first + 2, second as int),
            s.subrange(second + 2, len as int),
        ]);
    }
    Some((first, second))
}

/// The descriptor of a function, with the address written out in full:
/// `0x` and 64 digits, `::`, the module name, `::`, the function name.
pub open spec fn reference_text(reference: ReferenceModel) -> Seq<u8> {
    hex_text(reference.module_address) + separator() + reference.module_name + separator()
        + reference.function_name
}

impl FunctionReference {
    /// The descriptor of the function, with the address written out in
    /// full.
    pub fn to_text(&self) -> (res: Vec<u8>)
        ensures
            res@ == reference_text(self@),
    {
        let mut out: Vec<u8> = encode_hex(self.module_address.bytes.as_slice());
        out.push(COLON);
        out.push(COLON);
        append_bytes(&mut out, self.module_name.as_slice());
        out.push(COLON);
        out.push(COLON);
        append_bytes(&mut out, self.function_name.as_slice());
        assert(out@ =~= reference_text(self@));
        out
    }
}

/// Parses a function descriptor `<address>::<module>::<function>` and
/// checks it against the module name given beside it.
pub fn parse_function_string(descriptor: &[u8], module_name: &[u8]) -> (res: Result<
    FunctionReference,
    ParseError,
>)
    ensures
        match reference_of_text(descriptor@, module_name@) {
            Ok(model) => res matches Ok(found) && found@ == model,
            Err(e) => res matches Err(found) && found == e,
        },
{
    let len: usize = descriptor.len();
    let (first, second) = match three_parts(descriptor) {
        Some(found) => found,
        None => {
            return Err(ParseError::Malformed);
        },
    };
    if first == 0 || second == first + 2 || second + 2 == len {
        return Err(ParseError::Malformed);
    }
    let module_address = match AccountAddress::from_hex(slice_subrange(descriptor, 0, first)) {
        Some(address) => address,
        None => {
            return Err(ParseError::InvalidAddress);
        },
    };
    if !bytes_equal(slice_subrange(descriptor, first + 2, second), module_name) {
        return Err(ParseError::InconsistentModuleName);
    }
    Ok(
        FunctionReference {
            module_address,
            module_name: copy_range(descriptor, first + 2, second),
            function_name: copy_range(descriptor, second + 2, len),
        },
    )
}

} // verus!
