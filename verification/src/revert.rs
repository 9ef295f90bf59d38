//! ABI revert decoder: matches the four-byte selector of failure bytes
//! against a registry of known custom errors, decodes the argument words and
//! renders each with its type, and rebuilds the canonical error signature.

use vstd::prelude::*;
use vstd::string::StringExecFns;
use crate::abi::{lemma_be_val_injective, read_word_at, word_at};
use crate::bytes32::{be_val, eq_bytes, lemma_word64_val, word64, Word256};
use crate::text::{hex_of, hex_render, hex_string};

verus! {

/// The argument types the decoder understands; all are single static words.
#[derive(Clone, Copy, Debug, PartialEq, Eq, Structural)]
pub enum ArgKind {
    Uint256,
    Address,
    Bool,
}

/// One known custom error: its four-byte selector, name and argument types.
pub struct RegistryEntry {
    pub selector: u32,
    pub name: String,
    pub args: Vec<ArgKind>,
}

/// A registry of known custom errors, searched in order.
pub struct SelectorRegistry {
    pub entries: Vec<RegistryEntry>,
}

/// A decoded revert: error name, rendered arguments, canonical signature.
#[derive(Debug)]
pub struct AbiDecodedError {
    pub name: String,
    pub args: Vec<String>,
    pub sig: String,
}

/// Why failure bytes could not be decoded.
#[derive(Clone, Copy, Debug, PartialEq, Eq, Structural)]
pub enum RevertDecodeError {
    /// Fewer than four bytes: no selector to match.
    TooShort,
    /// No registry entry carries this selector.
    UnknownSelector,
    /// The payload does not hold exactly the declared argument words, or a
    /// word is not a strict encoding of its declared type.
    MalformedArguments,
}

/// The Solidity name of an argument type.
pub open spec fn type_text(kind: ArgKind) -> Seq<char> {
    match kind {
        ArgKind::Uint256 => "uint256"@,
        ArgKind::Address => "address"@,
        ArgKind::Bool => "bool"@,
    }
}

/// The argument list inside a canonical signature: types joined by commas.
pub open spec fn args_sig_text(kinds: Seq<ArgKind>) -> Seq<char>
    decreases kinds.len(),
{
    if kinds.len() == 0 {
        Seq::<char>::empty()
    } else if kinds.len() == 1 {
        type_text(kinds[0])
    } else {
        args_sig_text(kinds.drop_last()) + ","@ + type_text(kinds.last())
    }
}

/// The canonical signature of an error: `name(type,...)`.
pub open spec fn sig_text(name: Seq<char>, kinds: Seq<ArgKind>) -> Seq<char> {
    name + "("@ + args_sig_text(kinds) + ")"@
}

/// Whether a word is a strict encoding of the given argument type.
pub open spec fn arg_ok(kind: ArgKind, w: Seq<u8>) -> bool {
    match kind {
        ArgKind::Uint256 => true,
        ArgKind::Address => forall|i: int| 0 <= i < 12 ==> w[i] == 0u8,
        ArgKind::Bool => w == word64(0u64) || w == word64(1u64),
    }
}

/// The rendering of a well-formed argument word, tagged with its type.
pub open spec fn arg_text(kind: ArgKind, w: Seq<u8>) -> Seq<char> {
    match kind {
        ArgKind::Uint256 => type_text(kind) + " "@ + hex_render(w),
        ArgKind::Address => type_text(kind) + " "@ + hex_render(w.subrange(12, 32)),
        ArgKind::Bool => type_text(kind) + " "@ + if w == word64(1u64) {
            "true"@
        } else {
            "false"@
        },
    }
}

/// The first registry entry whose selector matches, searched front to back.
pub open spec fn first_match(entries: Seq<RegistryEntry>, sel: nat) -> Option<RegistryEntry>
    decreases entries.len(),
{
    if entries.len() == 0 {
        None
    } else if entries[0].selector == sel {
        Some(entries[0])
    } else {
        first_match(entries.subrange(1, entries.len() as int), sel)
    }
}

/// The selector of failure bytes: the value of their first four bytes.
pub open spec fn selector_of(data: Seq<u8>) -> nat {
    be_val(data.subrange(0, 4))
}

/// What decoding failure bytes against a registry yields: the entry's name,
/// the rendered arguments and the signature, or the reason none could be
/// produced.
pub open spec fn revert_decode_spec(data: Seq<u8>, entries: Seq<RegistryEntry>) -> Result<
    (Seq<char>, Seq<Seq<char>>, Seq<char>),
    RevertDecodeError,
> {
    if data.len() < 4 {
        Err(RevertDecodeError::TooShort)
    } else {
        match first_match(entries, selector_of(data)) {
            None => Err(RevertDecodeError::UnknownSelector),
            Some(e) => {
                let n = e.args@.len();
                if data.len() != 4 + 32 * n {
                    Err(RevertDecodeError::MalformedArguments)
                } else if exists|i: int|
                    0 <= i < n && !arg_ok(e.args@[i], word_at(data, 4 + 32 * i)) {
                    Err(RevertDecodeError::MalformedArguments)
                } else {
                    Ok(
                        (
                            e.name@,
                            Seq::new(n, |i: int| arg_text(e.args@[i], word_at(data, 4 + 32 * i))),
                            sig_text(e.name@, e.args@),
                        ),
                    )
                }
            },
        }
    }
}

/// Whether a decoded error value carries exactly the given name, rendered
/// arguments and signature.
pub open spec fn decoded_matches(
    e: AbiDecodedError,
    v: (Seq<char>, Seq<Seq<char>>, Seq<char>),
) -> bool {
    &&& e.name@ == v.0
    &&& e.args@.len() == v.1.len()
    &&& forall|i: int| 0 <= i < v.1.len() ==> e.args@[i]@ == v.1[i]
    &&& e.sig@ == v.2
}

/// The Solidity name of an argument type, as a string slice.
fn type_str(kind: &ArgKind) -> (r: &'static str)
    ensures
        r@ == type_text(*kind),
{
    match kind {
        ArgKind::Uint256 => "uint256",
        ArgKind::Address => "address",
        ArgKind::Bool => "bool",
    }
}

/// Builds the canonical signature of an error from its name and types.
pub fn error_signature(name: &String, kinds: &Vec<ArgKind>) -> (r: String)
    ensures
        r@ == sig_text(name@, kinds@),
{
    let mut out = name.clone();
    out.append("(");
    let mut i: usize = 0;
    while i < kinds.len()
        invariant
            i <= kinds@.len(),
            out@ == name@ + "("@ + args_sig_text(kinds@.subrange(0, i as int)),
        decreases kinds@.len() - i,
    {
        if i > 0 {
            out.append(",");
        }
        out.append(type_str(&kinds[i]));
        proof {
            let pre = kinds@.subrange(0, i as int);
            let cur = kinds@.subrange(0, i + 1);
            assert(cur.drop_last() =~= pre);
            assert(cur.last() == kinds@[i as int]);
            if i == 0 {
                assert(args_sig_text(cur) =~= type_text(kinds@[0]));
                assert(out@ =~= name@ + "("@ + args_sig_text(cur));
            } else {
                assert(args_sig_text(cur) == args_sig_text(pre) + ","@ + type_text(
                    kinds@[i as int],
                ));
                assert(out@ =~= name@ + "("@ + args_sig_text(cur));
            }
        }
        i += 1;
    }
    out.append(")");
    proof {
        assert(kinds@.subrange(0, kinds@.len() as int) =~= kinds@);
        assert(out@ =~= sig_text(name@, kinds@));
    }
    out
}

/// Renders one argument word as its type-tagged text, or nothing where the
/// word is not a strict encoding of the type.
#[verifier::loop_isolation(false)]
fn render_arg(kind: &ArgKind, w: &Word256) -> (r: Option<String>)
    ensures
        match r {
            Some(s) => arg_ok(*kind, w@) && s@ == arg_text(*kind, w@),
            None => !arg_ok(*kind, w@),
        },
{
    match kind {
        ArgKind::Uint256 => {
            let mut out = String::from_str(type_str(kind));
            out.append(" ");
            let h = hex_string(w.as_bytes());
            out.append(h.as_str());
            proof {
                assert(out@ =~= arg_text(*kind, w@));
            }
            Some(out)
        },
        ArgKind::Address => {
            let bytes = w.as_bytes();
            let mut i: usize = 0;
            while i < 12
                invariant
                    i <= 12,
                    bytes@ == w@,
                    bytes@.len() == 32,
                    forall|j: int| 0 <= j < i ==> w@[j] == 0u8,
                decreases 12 - i,
            {
                if bytes[i] != 0 {
                    proof {
                        assert(w@[i as int] != 0u8);
                    }
                    return None;
                }
                i += 1;
            }
            let tail = crate::abi::vec_slice(bytes, 12, 32);
            let mut out = String::from_str(type_str(kind));
            out.append(" ");
            let h = hex_string(&tail);
            out.append(h.as_str());
            proof {
                assert(out@ =~= arg_text(*kind, w@));
            }
            Some(out)
        },
        ArgKind::Bool => {
            let one = Word256::from_u64(1);
            let nil = Word256::from_u64(0);
            let mut out = String::from_str(type_str(kind));
            out.append(" ");
            if eq_bytes(w.as_bytes(), one.as_bytes()) {
                out.append("true");
                proof {
                    assert(out@ =~= arg_text(*kind, w@));
                }
                Some(out)
            } else if eq_bytes(w.as_bytes(), nil.as_bytes()) {
                out.append("false");
                proof {
                    assert(out@ =~= arg_text(*kind, w@));
                }
                Some(out)
            } else {
                None
            }
        },
    }
}

/// The selector carried by failure bytes that hold at least four bytes.
fn read_selector(data: &Vec<u8>) -> (r: u32)
    requires
        data@.len() >= 4,
    ensures
        r == selector_of(data@),
{
    let ghost head = data@.subrange(0, 4);
    let mut acc: u32 = 0;
    let mut i: usize = 0;
    while i < 4
        invariant
            i <= 4,
            data@.len() >= 4,
            head == data@.subrange(0, 4),
            acc as nat == be_val(head.subrange(0, i as int)),
            (acc as nat) < crate::bytes32::pow256(i as nat),
        decreases 4 - i,
    {
        let byte = data[i];
        proof {
            let pre = head.subrange(0, i as int);
            let cur = head.subrange(0, i + 1);
            assert(cur.drop_last() =~= pre);
            assert(cur.last() == data@[i as int]);
            assert((acc as nat) * 256 + byte < crate::bytes32::pow256((i as nat) + 1))
                by (nonlinear_arith)
                requires
                    (acc as nat) < crate::bytes32::pow256(i as nat),
                    byte < 256,
                    crate::bytes32::pow256((i as nat) + 1) == 256 * crate::bytes32::pow256(
                        i as nat,
                    ),
            ;
            crate::bytes32::lemma_pow256_increases((i as nat) + 1, 4);
            assert(crate::bytes32::pow256(4) == 0x1_0000_0000) by {
                reveal_with_fuel(crate::bytes32::pow256, 5);
            }
        }
        acc = acc * 256 + (byte as u32);
        i += 1;
    }
    proof {
        assert(head.subrange(0, 4) =~= head);
    }
    acc
}

impl SelectorRegistry {
    /// An empty registry.
    pub fn new() -> (r: SelectorRegistry)
        ensures
            r.entries@.len() == 0,
    {
        SelectorRegistry { entries: Vec::new() }
    }

    /// Adds a known error at the end of the search order.
    pub fn register(&mut self, selector: u32, name: String, args: Vec<ArgKind>)
        ensures
            final(self).entries@ == old(self).entries@.push(
                RegistryEntry { selector, name, args },
            ),
    {
        self.entries.push(RegistryEntry { selector, name, args });
    }
}

/// Decodes revert bytes against the registry: the first entry whose selector
/// matches the first four bytes gives the name and argument types; the rest
/// of the bytes must hold exactly the declared argument words.
#[verifier::loop_isolation(false)]
pub fn decode_revert(data: &Vec<u8>, registry: &SelectorRegistry) -> (r: Result<
    AbiDecodedError,
    RevertDecodeError,
>)
    ensures
        match r {
            Ok(e) => revert_decode_spec(data@, registry.entries@) matches Ok(v) && decoded_matches(
                e,
                v,
            ),
            Err(err) => revert_decode_spec(data@, registry.entries@) == Err::<
                (Seq<char>, Seq<Seq<char>>, Seq<char>),
                RevertDecodeError,
            >(err),
        },
{
    let dlen = data.len();
    if dlen < 4 {
        return Err(RevertDecodeError::TooShort);
    }
    let sel = read_selector(data);
    let mut idx: usize = 0;
    let elen = registry.entries.len();
    let ghost entries = registry.entries@;
    proof {
        assert(entries.subrange(0, elen as int) =~= entries);
    }
    while idx < elen
        invariant
            idx <= elen,
            elen == entries.len(),
            entries == registry.entries@,
            sel == selector_of(data@),
            dlen == data@.len(),
            dlen >= 4,
            first_match(entries, sel as nat) == first_match(
                entries.subrange(idx as int, elen as int),
                sel as nat,
            ),
        decreases elen - idx,
    {
        let entry = &registry.entries[idx];
        proof {
            assert(entries.subrange(idx as int, elen as int)[0] == entries[idx as int]);
        }
        if entry.selector == sel {
            proof {
                let rest = entries.subrange(idx as int, elen as int);
                assert(first_match(entries, sel as nat) == Some(entries[idx as int]));
            }
            let n = entry.args.len();
            if (dlen - 4) % 32 != 0 || (dlen - 4) / 32 != n {
                return Err(RevertDecodeError::MalformedArguments);
            }
            proof {
                assert(dlen == 4 + 32 * n);
            }
            let mut rendered: Vec<String> = Vec::new();
            let mut i: usize = 0;
            let ghost spec_args = Seq::new(n as nat, |k: int| arg_text(entry.args@[k], word_at(
                data@,
                4 + 32 * k,
            )));
            while i < n
                invariant
                    i <= n,
                    n == entry.args@.len(),
                    dlen == data@.len(),
                    dlen == 4 + 32 * n,
                    spec_args == Seq::new(n as nat, |k: int| arg_text(entry.args@[k], word_at(
                        data@,
                        4 + 32 * k,
                    ))),
                    rendered@.len() == i,
                    forall|k: int| 0 <= k < i ==> rendered@[k]@ == spec_args[k],
                    forall|k: int| 0 <= k < i ==> arg_ok(entry.args@[k], word_at(data@, 4 + 32 * k)),
                decreases n - i,
            {
                let w = read_word_at(data, 4 + 32 * i);
                match render_arg(&entry.args[i], &w) {
                    Some(s) => {
                        rendered.push(s);
                    },
                    None => {
                        proof {
                            assert(!arg_ok(entry.args@[i as int], word_at(data@, 4 + 32 * i)));
                        }
                        return Err(RevertDecodeError::MalformedArguments);
                    },
                }
                i += 1;
            }
            let sig = error_signature(&entry.name, &entry.args);
            return Ok(AbiDecodedError { name: entry.name.clone(), args: rendered, sig });
        }
        proof {
            let rest = entries.subrange(idx as int, elen as int);
            assert(rest.subrange(1, rest.len() as int) =~= entries.subrange(
                idx + 1,
                elen as int,
            ));
        }
        idx += 1;
    }
    proof {
        assert(entries.subrange(elen as int, elen as int).len() == 0);
    }
    Err(RevertDecodeError::UnknownSelector)
}

} // verus!
