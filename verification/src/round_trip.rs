//! Reading back what was written: every binary form, found at a position
//! in some bytes, is decoded there to the value it was made from.

use vstd::prelude::*;
use crate::abi::{
    abilities_decoding, flag_of, function_decoding, function_encoding, functions_decoding,
    functions_encoding, header_valid, magic, module_decoding, module_encoding, structs_end,
    FunctionModel, ModuleModel, ABILITY_ALL, VERSION_MAX, VERSION_MIN,
};
use crate::type_tag::{
    lemma_tag_decoding_bounds, lemma_tags_decoding_bounds, tag_decoding, tag_encoding, tag_fits,
    tags_decoding, tags_encoding, tags_fit, TypeModel, MAX_TYPE_DEPTH, TAG_STRUCT, TAG_VECTOR,
};
use crate::varint::{
    lemma_uleb_decoding_bounds, lemma_uleb_round_trip, uleb_decoding, uleb_encoding, uleb_read,
};
use crate::wire::{
    byte_range, bytes_decoding, le_bytes, lemma_le_bytes_len, lemma_le_round_trip,
    length_prefixed,
};

verus! {

/// Whether `part` stands in `s` at `pos`.
pub open spec fn spans(s: Seq<u8>, pos: int, part: Seq<u8>) -> bool {
    0 <= pos && pos + part.len() <= s.len() && s.subrange(pos, pos + part.len()) == part
}

/// Where two parts stand one after the other, each stands in its place.
pub proof fn lemma_spans_split(s: Seq<u8>, pos: int, first: Seq<u8>, second: Seq<u8>)
    requires
        spans(s, pos, first + second),
    ensures
        spans(s, pos, first),
        spans(s, pos + first.len(), second),
{
    let whole = first + second;
    assert(s.subrange(pos, pos + first.len()) =~= first) by {
        assert forall|k: int| 0 <= k < first.len() implies s[pos + k] == first[k] by {
            assert(s.subrange(pos, pos + whole.len())[k] == whole[k]);
        }
    }
    assert(s.subrange(pos + first.len(), pos + first.len() + second.len()) =~= second) by {
        assert forall|k: int| 0 <= k < second.len() implies s[pos + first.len() + k]
            == second[k] by {
            assert(s.subrange(pos, pos + whole.len())[first.len() + k] == whole[first.len() + k]);
        }
    }
}

/// An integer of 64 bits is read where its encoding stands.
pub proof fn lemma_uleb_read_back(s: Seq<u8>, pos: int, v: nat)
    requires
        spans(s, pos, uleb_encoding(v)),
        v <= u64::MAX,
    ensures
        uleb_read(s, pos) == Some((v as u64, pos + uleb_encoding(v).len())),
{
    lemma_uleb_round_trip(s, pos, v);
}

/// A byte string is read where it stands behind its length.
pub proof fn lemma_bytes_read_back(s: Seq<u8>, pos: int, b: Seq<u8>)
    requires
        spans(s, pos, length_prefixed(b)),
        b.len() <= u64::MAX,
    ensures
        bytes_decoding(s, pos) == Some((b, pos + length_prefixed(b).len())),
{
    lemma_spans_split(s, pos, uleb_encoding(b.len()), b);
    lemma_uleb_read_back(s, pos, b.len());
}

/// The binary forms of some tags are that of the first and then those of
/// the others.
pub proof fn lemma_tags_encoding_first(ts: Seq<TypeModel>)
    requires
        ts.len() > 0,
    ensures
        tags_encoding(ts) == tag_encoding(ts[0]) + tags_encoding(ts.drop_first()),
    decreases ts.len(),
{
    if ts.len() == 1 {
        assert(ts.drop_last() =~= Seq::<TypeModel>::empty());
        assert(ts.drop_first() =~= Seq::<TypeModel>::empty());
        assert(tags_encoding(ts) =~= tag_encoding(ts[0]) + tags_encoding(ts.drop_first()));
    } else {
        lemma_tags_encoding_first(ts.drop_last());
        assert(ts.drop_last().drop_first() =~= ts.drop_first().drop_last());
        assert(ts.drop_last()[0] == ts[0]);
        assert(ts.drop_first().last() == ts.last());
        assert(tags_encoding(ts) =~= tag_encoding(ts[0]) + tags_encoding(ts.drop_first()));
    }
}

/// A tag is read where its binary form stands.
pub proof fn lemma_tag_read_back(s: Seq<u8>, pos: int, t: TypeModel, depth: nat)
    requires
        spans(s, pos, tag_encoding(t)),
        tag_fits(t, depth),
    ensures
        tag_decoding(s, pos, depth) == Some((t, pos + tag_encoding(t).len())),
    decreases t, 0nat,
{
    let enc = tag_encoding(t);
    assert(s[pos] == enc[0]) by {
        assert(s.subrange(pos, pos + enc.len())[0] == enc[0]);
    }
    match t {
        TypeModel::Vector(inner) => {
            lemma_spans_split(s, pos, seq![TAG_VECTOR], tag_encoding(*inner));
            lemma_tag_read_back(s, pos + 1, *inner, (depth - 1) as nat);
        },
        TypeModel::Struct { address, module, name, type_args } => {
            let a = seq![TAG_STRUCT] + address;
            let b = a + length_prefixed(module);
            let c = b + length_prefixed(name);
            let d = c + uleb_encoding(type_args.len());
            assert(enc == d + tags_encoding(type_args));
            lemma_spans_split(s, pos, d, tags_encoding(type_args));
            lemma_spans_split(s, pos, c, uleb_encoding(type_args.len()));
            lemma_spans_split(s, pos, b, length_prefixed(name));
            lemma_spans_split(s, pos, a, length_prefixed(module));
            lemma_spans_split(s, pos, seq![TAG_STRUCT], address);
            assert(s.subrange(pos + 1, pos + 33) == address);
            lemma_bytes_read_back(s, pos + 33, module);
            lemma_bytes_read_back(s, pos + b.len(), name);
            lemma_uleb_read_back(s, pos + c.len(), type_args.len());
            lemma_tags_read_back(s, pos + d.len(), type_args, (depth - 1) as nat);
        },
        _ => {},
    }
}

/// Tags are read where their binary forms stand one after the other.
pub proof fn lemma_tags_read_back(s: Seq<u8>, pos: int, ts: Seq<TypeModel>, depth: nat)
    requires
        spans(s, pos, tags_encoding(ts)),
        tags_fit(ts, depth),
    ensures
        tags_decoding(s, pos, ts.len(), depth) == Some((ts, pos + tags_encoding(ts).len())),
    decreases ts, 1nat,
{
    if ts.len() == 0 {
        assert(ts =~= Seq::<TypeModel>::empty());
    } else {
        let rest = ts.drop_first();
        lemma_tags_encoding_first(ts);
        lemma_spans_split(s, pos, tag_encoding(ts[0]), tags_encoding(rest));
        lemma_tag_read_back(s, pos, ts[0], depth);
        assert(tags_fit(rest, depth)) by {
            assert forall|i: int| 0 <= i < rest.len() implies tag_fits(
                #[trigger] rest[i],
                depth,
            ) by {
                assert(rest[i] == ts[i + 1]);
            }
        }
        lemma_tags_read_back(s, pos + tag_encoding(ts[0]).len(), rest, depth);
        assert(seq![ts[0]] + rest =~= ts);
    }
}

/// Ability sets are read where they stand.
pub proof fn lemma_abilities_read_back(s: Seq<u8>, pos: int, bits: Seq<u8>)
    requires
        spans(s, pos, bits),
        forall|i: int| 0 <= i < bits.len() ==> #[trigger] bits[i] <= ABILITY_ALL,
    ensures
        abilities_decoding(s, pos, bits.len()) == Some((bits, pos + bits.len())),
{
    assert forall|i: int| pos <= i < pos + bits.len() implies #[trigger] s[i] <= ABILITY_ALL by {
        assert(s.subrange(pos, pos + bits.len())[i - pos] == bits[i - pos]);
    }
}

/// The definition of a function is read where it stands.
pub proof fn lemma_function_read_back(s: Seq<u8>, pos: int, f: FunctionModel)
    requires
        spans(s, pos, function_encoding(f)),
        f.well_formed(),
    ensures
        function_decoding(s, pos) == Some((f, pos + function_encoding(f).len())),
{
    let depth = MAX_TYPE_DEPTH as nat;
    let a = length_prefixed(f.name);
    let b = a + seq![flag_of(f.is_entry)];
    let c = b + uleb_encoding(f.generic_constraints.len());
    let d = c + f.generic_constraints;
    let e = d + uleb_encoding(f.parameters.len());
    let g = e + tags_encoding(f.parameters);
    let h = g + uleb_encoding(f.returns.len());
    assert(function_encoding(f) == h + tags_encoding(f.returns));
    lemma_spans_split(s, pos, h, tags_encoding(f.returns));
    lemma_spans_split(s, pos, g, uleb_encoding(f.returns.len()));
    lemma_spans_split(s, pos, e, tags_encoding(f.parameters));
    lemma_spans_split(s, pos, d, uleb_encoding(f.parameters.len()));
    lemma_spans_split(s, pos, c, f.generic_constraints);
    lemma_spans_split(s, pos, b, uleb_encoding(f.generic_constraints.len()));
    lemma_spans_split(s, pos, a, seq![flag_of(f.is_entry)]);
    lemma_bytes_read_back(s, pos, f.name);
    assert(s[pos + a.len()] == flag_of(f.is_entry)) by {
        assert(s.subrange(pos + a.len(), pos + a.len() + 1)[0] == seq![flag_of(f.is_entry)][0]);
    }
    lemma_uleb_read_back(s, pos + b.len(), f.generic_constraints.len());
    lemma_abilities_read_back(s, pos + c.len(), f.generic_constraints);
    lemma_uleb_read_back(s, pos + d.len(), f.parameters.len());
    lemma_tags_read_back(s, pos + e.len(), f.parameters, depth);
    lemma_uleb_read_back(s, pos + g.len(), f.returns.len());
    lemma_tags_read_back(s, pos + h.len(), f.returns, depth);
}

/// The definitions of some functions are that of the first and then those
/// of the others.
pub proof fn lemma_functions_encoding_first(fs: Seq<FunctionModel>)
    requires
        fs.len() > 0,
    ensures
        functions_encoding(fs) == function_encoding(fs[0]) + functions_encoding(fs.drop_first()),
    decreases fs.len(),
{
    if fs.len() == 1 {
        assert(fs.drop_last() =~= Seq::<FunctionModel>::empty());
        assert(fs.drop_first() =~= Seq::<FunctionModel>::empty());
        assert(functions_encoding(fs) =~= function_encoding(fs[0]) + functions_encoding(
            fs.drop_first(),
        ));
    } else {
        lemma_functions_encoding_first(fs.drop_last());
        assert(fs.drop_last().drop_first() =~= fs.drop_first().drop_last());
        assert(fs.drop_last()[0] == fs[0]);
        assert(fs.drop_first().last() == fs.last());
        assert(functions_encoding(fs) =~= function_encoding(fs[0]) + functions_encoding(
            fs.drop_first(),
        ));
    }
}

/// The definitions of functions are read where they stand one after the
/// other.
pub proof fn lemma_functions_read_back(s: Seq<u8>, pos: int, fs: Seq<FunctionModel>)
    requires
        spans(s, pos, functions_encoding(fs)),
        forall|i: int| 0 <= i < fs.len() ==> (#[trigger] fs[i]).well_formed(),
    ensures
        functions_decoding(s, pos, fs.len()) == Some((fs, pos + functions_encoding(fs).len())),
    decreases fs.len(),
{
    if fs.len() == 0 {
        assert(fs =~= Seq::<FunctionModel>::empty());
    } else {
        let rest = fs.drop_first();
        lemma_functions_encoding_first(fs);
        lemma_spans_split(s, pos, function_encoding(fs[0]), functions_encoding(rest));
        lemma_function_read_back(s, pos, fs[0]);
        assert forall|i: int| 0 <= i < rest.len() implies (#[trigger] rest[i]).well_formed() by {
            assert(rest[i] == fs[i + 1]);
        }
        lemma_functions_read_back(s, pos + function_encoding(fs[0]).len(), rest);
        assert(seq![fs[0]] + rest =~= fs);
    }
}

/// Reading is the inverse of writing: the bytes of a module that are made
/// from a well-formed interface, in a version that is read, give that
/// interface back.
pub proof fn law_module_round_trip(m: ModuleModel, version: u32)
    requires
        m.well_formed(),
        VERSION_MIN <= version <= VERSION_MAX,
    ensures
        module_decoding(module_encoding(m, version)) == Some(m),
{
    let s = module_encoding(m, version);
    let a = magic() + le_bytes(version as nat, 4);
    let b = a + m.address;
    let c = b + length_prefixed(m.name);
    let d = c + uleb_encoding(0);
    let e = d + uleb_encoding(m.functions.len());
    assert(s == e + functions_encoding(m.functions));
    assert(s.subrange(0, s.len() as int) =~= s);
    lemma_spans_split(s, 0, e, functions_encoding(m.functions));
    lemma_spans_split(s, 0, d, uleb_encoding(m.functions.len()));
    lemma_spans_split(s, 0, c, uleb_encoding(0));
    lemma_spans_split(s, 0, b, length_prefixed(m.name));
    lemma_spans_split(s, 0, a, m.address);
    lemma_spans_split(s, 0, magic(), le_bytes(version as nat, 4));
    lemma_le_bytes_len(version as nat, 4);
    assert(byte_range(4) == 0x1_0000_0000) by {
        reveal_with_fuel(byte_range, 5);
    }
    lemma_le_round_trip(version as nat, 4);
    assert(header_valid(s));
    lemma_bytes_read_back(s, 40, m.name);
    lemma_uleb_read_back(s, c.len() as int, 0);
    assert(structs_end(s, d.len() as int, 0) == Some(d.len() as int));
    lemma_uleb_read_back(s, d.len() as int, m.functions.len());
    lemma_functions_read_back(s, e.len() as int, m.functions);
    assert(s.subrange(8, 40) == m.address);
}

/// A tag that was read can be written and read back.
pub proof fn lemma_decoded_tag_fits(s: Seq<u8>, pos: int, depth: nat)
    ensures
        tag_decoding(s, pos, depth) matches Some((t, _)) ==> tag_fits(t, depth),
    decreases depth, 0nat,
{
    if depth > 0 && 0 <= pos < s.len() {
        if s[pos] == TAG_VECTOR {
            lemma_decoded_tag_fits(s, pos + 1, (depth - 1) as nat);
        } else if s[pos] == TAG_STRUCT && pos + 33 <= s.len() {
            lemma_uleb_decoding_bounds(s, pos + 33);
            if let Some((module, after_module)) = bytes_decoding(s, pos + 33) {
                lemma_uleb_decoding_bounds(s, after_module);
                if let Some((name, after_name)) = bytes_decoding(s, after_module) {
                    lemma_uleb_decoding_bounds(s, after_name);
                    if let Some((count, after_count)) = uleb_read(s, after_name) {
                        lemma_decoded_tags_fit(s, after_count, count as nat, (depth - 1) as nat);
                        lemma_tags_decoding_bounds(
                            s,
                            after_count,
                            count as nat,
                            (depth - 1) as nat,
                        );
                    }
                }
            }
        }
    }
}

/// Tags that were read can be written and read back.
pub proof fn lemma_decoded_tags_fit(s: Seq<u8>, pos: int, count: nat, depth: nat)
    requires
        0 <= pos <= s.len(),
    ensures
        tags_decoding(s, pos, count, depth) matches Some((ts, _)) ==> tags_fit(ts, depth),
    decreases depth, count,
{
    if count > 0 {
        lemma_decoded_tag_fits(s, pos, depth);
        lemma_tag_decoding_bounds(s, pos, depth);
        if let Some((first, next)) = tag_decoding(s, pos, depth) {
            lemma_decoded_tags_fit(s, next, (count - 1) as nat, depth);
            if let Some((rest, end)) = tags_decoding(s, next, (count - 1) as nat, depth) {
                let ts = seq![first] + rest;
                assert forall|i: int| 0 <= i < ts.len() implies tag_fits(
                    #[trigger] ts[i],
                    depth,
                ) by {
                    if i > 0 {
                        assert(ts[i] == rest[i - 1]);
                    }
                }
            }
        }
    }
}

/// A function definition that was read is well formed, and ends inside
/// the bytes.
pub proof fn lemma_decoded_function_is_well_formed(s: Seq<u8>, pos: int)
    ensures
        function_decoding(s, pos) matches Some((f, next)) ==> f.well_formed() && pos < next
            <= s.len(),
{
    let depth = MAX_TYPE_DEPTH as nat;
    lemma_uleb_decoding_bounds(s, pos);
    if let Some((name, at_flag)) = bytes_decoding(s, pos) {
        lemma_uleb_decoding_bounds(s, at_flag + 1);
        if let Some((generics, at_abilities)) = uleb_read(s, at_flag + 1) {
            if let Some((bits, at_params)) = abilities_decoding(s, at_abilities, generics as nat) {
                assert forall|i: int| 0 <= i < bits.len() implies #[trigger] bits[i]
                    <= ABILITY_ALL by {
                    assert(bits[i] == s[at_abilities + i]);
                }
                lemma_uleb_decoding_bounds(s, at_params);
                if let Some((param_count, at_param_tags)) = uleb_read(s, at_params) {
                    lemma_decoded_tags_fit(s, at_param_tags, param_count as nat, depth);
                    lemma_tags_decoding_bounds(s, at_param_tags, param_count as nat, depth);
                    if let Some((parameters, at_returns)) = tags_decoding(
                        s,
                        at_param_tags,
                        param_count as nat,
                        depth,
                    ) {
                        lemma_uleb_decoding_bounds(s, at_returns);
                        if let Some((return_count, at_return_tags)) = uleb_read(s, at_returns) {
                            lemma_decoded_tags_fit(s, at_return_tags, return_count as nat, depth);
                            lemma_tags_decoding_bounds(
                                s,
                                at_return_tags,
                                return_count as nat,
                                depth,
                            );
                        }
                    }
                }
            }
        }
    }
}

/// Function definitions that were read are well formed, and as many as
/// were asked for.
pub proof fn lemma_decoded_functions_are_well_formed(s: Seq<u8>, pos: int, count: nat)
    ensures
        functions_decoding(s, pos, count) matches Some((fs, _)) ==> fs.len() == count && forall|
            i: int,
        |
            0 <= i < fs.len() ==> (#[trigger] fs[i]).well_formed(),
    decreases count,
{
    if count > 0 {
        lemma_decoded_function_is_well_formed(s, pos);
        if let Some((first, next)) = function_decoding(s, pos) {
            lemma_decoded_functions_are_well_formed(s, next, (count - 1) as nat);
            if let Some((rest, end)) = functions_decoding(s, next, (count - 1) as nat) {
                let fs = seq![first] + rest;
                assert forall|i: int| 0 <= i < fs.len() implies (
                #[trigger] fs[i]).well_formed() by {
                    if i > 0 {
                        assert(fs[i] == rest[i - 1]);
                    }
                }
            }
        }
    }
}

/// What is read from a module's bytes is a well-formed interface.
pub proof fn law_decoded_module_is_well_formed(s: Seq<u8>)
    ensures
        module_decoding(s) matches Some(m) ==> m.well_formed(),
{
    if header_valid(s) && s.len() >= 40 {
        lemma_uleb_decoding_bounds(s, 40);
        if let Some((name, at_structs)) = bytes_decoding(s, 40) {
            if let Some((struct_count, first_struct)) = uleb_read(s, at_structs) {
                if let Some(at_functions) = structs_end(s, first_struct, struct_count as nat) {
                    if let Some((function_count, first_function)) = uleb_read(s, at_functions) {
                        lemma_decoded_functions_are_well_formed(
                            s,
                            first_function,
                            function_count as nat,
                        );
                    }
                }
            }
        }
    }
}

/// Where an integer was read, its encoding stands: no other bytes are
/// read as that integer.
pub proof fn lemma_uleb_written_back(s: Seq<u8>, pos: int)
    ensures
        uleb_decoding(s, pos) matches Some((v, next)) ==> s.subrange(pos, next) == uleb_encoding(
            v,
        ),
    decreases s.len() - pos,
{
    lemma_uleb_decoding_bounds(s, pos);
    if let Some((v, next)) = uleb_decoding(s, pos) {
        if s[pos] < 128 {
            assert(s.subrange(pos, next) =~= uleb_encoding(v));
        } else {
            lemma_uleb_written_back(s, pos + 1);
            lemma_uleb_decoding_bounds(s, pos + 1);
            let high = uleb_decoding(s, pos + 1)->Some_0.0;
            assert(v == s[pos] - 128 + 128 * high);
            assert(v % 128 == s[pos] - 128 && v / 128 == high) by (nonlinear_arith)
                requires
                    v == s[pos] - 128 + 128 * high,
                    0 <= s[pos] - 128 < 128,
            ;
            assert(s.subrange(pos, next) =~= seq![s[pos]] + s.subrange(pos + 1, next));
        }
    }
}

/// Where a byte string was read, it stands behind its length.
pub proof fn lemma_bytes_written_back(s: Seq<u8>, pos: int)
    ensures
        bytes_decoding(s, pos) matches Some((b, next)) ==> s.subrange(pos, next)
            == length_prefixed(b),
{
    lemma_uleb_decoding_bounds(s, pos);
    lemma_uleb_written_back(s, pos);
    if let Some((b, next)) = bytes_decoding(s, pos) {
        let start = uleb_read(s, pos)->Some_0.1;
        assert(s.subrange(pos, next) =~= s.subrange(pos, start) + s.subrange(start, next));
    }
}

/// Where a tag was read, its binary form stands: reading and writing tags
/// agree on one form.
pub proof fn lemma_tag_written_back(s: Seq<u8>, pos: int, depth: nat)
    ensures
        tag_decoding(s, pos, depth) matches Some((t, next)) ==> s.subrange(pos, next)
            == tag_encoding(t),
    decreases depth, 0nat,
{
    lemma_tag_decoding_bounds(s, pos, depth);
    if let Some((t, next)) = tag_decoding(s, pos, depth) {
        if s[pos] == TAG_VECTOR {
            lemma_tag_written_back(s, pos + 1, (depth - 1) as nat);
            lemma_tag_decoding_bounds(s, pos + 1, (depth - 1) as nat);
            assert(s.subrange(pos, next) =~= seq![s[pos]] + s.subrange(pos + 1, next));
        } else if s[pos] == TAG_STRUCT {
            let (module, after_module) = bytes_decoding(s, pos + 33)->Some_0;
            let (name, after_name) = bytes_decoding(s, after_module)->Some_0;
            let (count, after_count) = uleb_read(s, after_name)->Some_0;
            lemma_uleb_decoding_bounds(s, pos + 33);
            lemma_uleb_decoding_bounds(s, after_module);
            lemma_uleb_decoding_bounds(s, after_name);
            lemma_bytes_written_back(s, pos + 33);
            lemma_bytes_written_back(s, after_module);
            lemma_uleb_written_back(s, after_name);
            lemma_tags_written_back(s, after_count, count as nat, (depth - 1) as nat);
            lemma_tags_decoding_bounds(s, after_count, count as nat, (depth - 1) as nat);
            assert(s.subrange(pos, next) =~= seq![s[pos]] + s.subrange(pos + 1, pos + 33)
                + s.subrange(pos + 33, after_module) + s.subrange(after_module, after_name)
                + s.subrange(after_name, after_count) + s.subrange(after_count, next));
        } else {
            assert(s.subrange(pos, next) =~= seq![s[pos]]);
        }
    }
}

/// Where tags were read, their binary forms stand one after the other.
pub proof fn lemma_tags_written_back(s: Seq<u8>, pos: int, count: nat, depth: nat)
    requires
        0 <= pos <= s.len(),
    ensures
        tags_decoding(s, pos, count, depth) matches Some((ts, next)) ==> s.subrange(pos, next)
            == tags_encoding(ts),
    decreases depth, count,
{
    lemma_tags_decoding_bounds(s, pos, count, depth);
    if let Some((ts, next)) = tags_decoding(s, pos, count, depth) {
        if count == 0 {
            assert(s.subrange(pos, next) =~= tags_encoding(ts));
        } else {
            let (first, after_first) = tag_decoding(s, pos, depth)->Some_0;
            lemma_tag_decoding_bounds(s, pos, depth);
            lemma_tag_written_back(s, pos, depth);
            lemma_tags_written_back(s, after_first, (count - 1) as nat, depth);
            lemma_tags_decoding_bounds(s, after_first, (count - 1) as nat, depth);
            let rest = tags_decoding(s, after_first, (count - 1) as nat, depth)->Some_0.0;
            assert(ts == seq![first] + rest);
            lemma_tags_encoding_first(ts);
            assert(ts.drop_first() =~= rest);
            assert(s.subrange(pos, next) =~= s.subrange(pos, after_first) + s.subrange(
                after_first,
                next,
            ));
        }
    }
}

} // verus!
