//! On-chain metadata decoding: the pragma-address list a parser contract
//! returns for a composed script, and the authoring metadata payload — an
//! ordered list of (word, description) pairs — published for a contract.

use vstd::prelude::*;
use crate::abi::{
    lemma_be_val_injective, pad32, push_bytes, push_pad32, push_word_u64, read_u64_at,
    read_word_at, vec_slice, word_at, zeros,
};
use crate::quote::{push_selector, selector_bytes};
use crate::address::Address;
use crate::bytes32::{be_val, is_small_word, lemma_word64_val, word64};
use crate::text::{ascii_string, chars_of};

verus! {

/// The four-byte selector under which a parser contract extracts the
/// pragma addresses of a script.
pub const PARSE_PRAGMA_SELECTOR: u32 = 0x5514ca20;

/// The parser call for a composed script: the selector, then the script
/// bytes as a length-prefixed, padded string argument.
pub open spec fn parse_pragma_call_bytes(text: Seq<u8>) -> Seq<u8> {
    selector_bytes(PARSE_PRAGMA_SELECTOR) + word64(0x20) + word64(text.len() as u64) + text
        + zeros((pad32(text.len()) - text.len()) as nat)
}

/// Builds the parser call for a composed script.
pub fn encode_parse_pragma_call(text: &Vec<u8>) -> (r: Vec<u8>)
    ensures
        r@ == parse_pragma_call_bytes(text@),
{
    let mut out: Vec<u8> = Vec::new();
    push_selector(&mut out, PARSE_PRAGMA_SELECTOR);
    push_word_u64(&mut out, 0x20);
    push_word_u64(&mut out, text.len() as u64);
    push_bytes(&mut out, text);
    push_pad32(&mut out, text.len());
    proof {
        assert(out@ =~= parse_pragma_call_bytes(text@));
    }
    out
}

/// One word a contract exposes: its name and description.
#[derive(Debug)]
pub struct AuthoringMetaItem {
    pub word: String,
    pub description: String,
}

/// The ordered list of words a contract exposes to scripts.
#[derive(Debug)]
pub struct AuthoringMetaV2 {
    pub words: Vec<AuthoringMetaItem>,
}

/// The address word at position `i` of a pragma array has its twelve
/// leading bytes zero.
pub open spec fn pragma_word_ok(b: Seq<u8>, i: int) -> bool {
    forall|j: int| 0 <= j < 12 ==> #[trigger] word_at(b, 64 + 32 * i)[j] == 0u8
}

/// Parses a strict address array: the fixed array offset, a small length
/// word, then one word per address, each with twelve leading zero bytes.
pub open spec fn parse_pragma_addresses(b: Seq<u8>) -> Option<Seq<Seq<u8>>> {
    if b.len() < 64 {
        None
    } else if word_at(b, 0) != word64(0x20) {
        None
    } else if !is_small_word(word_at(b, 32)) {
        None
    } else {
        let n = be_val(word_at(b, 32));
        if b.len() != 64 + 32 * n {
            None
        } else if exists|i: int| 0 <= i < n && !(#[trigger] pragma_word_ok(b, i)) {
            None
        } else {
            Some(Seq::new(n, |i: int| word_at(b, 64 + 32 * i).subrange(12, 32)))
        }
    }
}

/// The 20-byte views of a list of addresses.
pub open spec fn address_views(s: Seq<Address>) -> Seq<Seq<u8>> {
    s.map_values(|a: Address| a@)
}

/// Decodes the parser contract's pragma response into the addresses it
/// names, exactly where the response is a strict address array.
#[verifier::loop_isolation(false)]
pub fn decode_pragma_addresses(b: &Vec<u8>) -> (r: Option<Vec<Address>>)
    ensures
        match r {
            Some(v) => parse_pragma_addresses(b@) == Some(address_views(v@)),
            None => parse_pragma_addresses(b@) is None,
        },
{
    let blen = b.len();
    if blen < 64 {
        return None;
    }
    match read_u64_at(b, 0) {
        Some(32u64) => {
            proof {
                lemma_word64_val(0x20u64);
                lemma_be_val_injective(word_at(b@, 0), word64(0x20u64));
            }
        },
        Some(_) => {
            proof {
                lemma_word64_val(0x20u64);
            }
            return None;
        },
        None => {
            proof {
                lemma_word64_val(0x20u64);
            }
            return None;
        },
    }
    let n64 = match read_u64_at(b, 32) {
        Some(v) => v,
        None => {
            return None;
        },
    };
    if n64 > ((blen - 64) / 32) as u64 || blen - 64 != 32 * (n64 as usize) {
        proof {
            assert(b@.len() != 64 + 32 * be_val(word_at(b@, 32)));
        }
        return None;
    }
    let n = n64 as usize;
    let ghost nn = be_val(word_at(b@, 32));
    let mut out: Vec<Address> = Vec::new();
    let mut i: usize = 0;
    while i < n
        invariant
            i <= n,
            out@.len() == i,
            forall|k: int| 0 <= k < i ==> #[trigger] pragma_word_ok(b@, k),
            forall|k: int|
                0 <= k < i ==> (#[trigger] out@[k])@ == word_at(b@, 64 + 32 * k).subrange(
                    12,
                    32,
                ),
        decreases n - i,
    {
        let mut j: usize = 0;
        while j < 12
            invariant
                j <= 12,
                i < n,
                forall|t: int| 0 <= t < j ==> #[trigger] word_at(b@, 64 + 32 * (i as int))[t] == 0u8,
            decreases 12 - j,
        {
            if b[64 + 32 * i + j] != 0 {
                proof {
                    assert(word_at(b@, 64 + 32 * i)[j as int] == b@[64 + 32 * i + j]);
                    assert(!pragma_word_ok(b@, i as int));
                }
                return None;
            }
            proof {
                assert(word_at(b@, 64 + 32 * i)[j as int] == b@[64 + 32 * i + j]);
            }
            j += 1;
        }
        let bytes = vec_slice(b, 64 + 32 * i + 12, 64 + 32 * i + 32);
        proof {
            assert(bytes@ =~= word_at(b@, 64 + 32 * (i as int)).subrange(12, 32));
        }
        out.push(Address::from_bytes(bytes));
        proof {
            assert(pragma_word_ok(b@, i as int));
            assert((out@[i as int])@ == word_at(b@, 64 + 32 * (i as int)).subrange(12, 32));
        }
        i += 1;
    }
    proof {
        assert(b@.len() == 64 + 32 * nn);
        assert(!(exists|k: int| 0 <= k < nn && !(#[trigger] pragma_word_ok(b@, k))));
        assert forall|k: int| 0 <= k < nn implies address_views(out@)[k] == word_at(
            b@,
            64 + 32 * k,
        ).subrange(12, 32) by {
            assert((out@[k])@ == word_at(b@, 64 + 32 * k).subrange(12, 32));
        }
        assert(address_views(out@) =~= Seq::new(nn, |i: int| word_at(b@, 64 + 32 * i).subrange(
            12,
            32,
        )));
    }
    Some(out)
}

/// The leading bytes of a word up to its first zero byte: the name a
/// 32-byte word field carries.
pub open spec fn name_bytes(w: Seq<u8>) -> Seq<u8>
    decreases w.len(),
{
    if w.len() == 0 || w[0] == 0u8 {
        Seq::<u8>::empty()
    } else {
        seq![w[0]] + name_bytes(w.subrange(1, w.len() as int))
    }
}

/// Whether every byte is an ASCII code point.
pub open spec fn all_ascii(s: Seq<u8>) -> bool {
    forall|i: int| 0 <= i < s.len() ==> s[i] < 128
}

/// Parses authoring-metadata items `i` to `n`, the next tail at `tail`:
/// each offset word points at its tail, which holds the item's name word,
/// the fixed inner offset, and its length-prefixed padded description.
pub open spec fn parse_meta_items(b: Seq<u8>, n: nat, i: nat, tail: nat) -> Option<
    Seq<(Seq<u8>, Seq<u8>)>,
>
    decreases n - i,
{
    if i >= n {
        if tail == b.len() {
            Some(Seq::<(Seq<u8>, Seq<u8>)>::empty())
        } else {
            None
        }
    } else if word_at(b, 64 + 32 * i as int) != word64((tail - 64) as u64) {
        None
    } else if tail + 96 > b.len() {
        None
    } else if word_at(b, tail as int + 32) != word64(0x40) {
        None
    } else if !is_small_word(word_at(b, tail as int + 64)) {
        None
    } else {
        let len = be_val(word_at(b, tail as int + 64));
        if tail + 96 + pad32(len) > b.len() {
            None
        } else if b.subrange((tail + 96 + len) as int, (tail + 96 + pad32(len)) as int) != zeros(
            (pad32(len) - len) as nat,
        ) {
            None
        } else {
            let item = (
                word_at(b, tail as int),
                b.subrange((tail + 96) as int, (tail + 96 + len) as int),
            );
            match parse_meta_items(b, n, i + 1, (tail + 96 + pad32(len)) as nat) {
                Some(rest) => Some(seq![item] + rest),
                None => None,
            }
        }
    }
}

/// Parses an authoring-metadata payload: the fixed array offset, a small
/// length word, and one (name word, description bytes) item per entry.
pub open spec fn parse_meta_payload(b: Seq<u8>) -> Option<Seq<(Seq<u8>, Seq<u8>)>> {
    if b.len() < 64 {
        None
    } else if word_at(b, 0) != word64(0x20) {
        None
    } else if !is_small_word(word_at(b, 32)) {
        None
    } else {
        let n = be_val(word_at(b, 32));
        if 64 + 32 * n > b.len() {
            None
        } else {
            parse_meta_items(b, n, 0, (64 + 32 * n) as nat)
        }
    }
}

/// What a decoded item list must render to: each name is the word's prefix
/// before its first zero byte, read as ASCII text, and each description its
/// bytes read as ASCII text.
pub open spec fn meta_renders(items: Seq<(Seq<u8>, Seq<u8>)>, m: AuthoringMetaV2) -> bool {
    &&& m.words@.len() == items.len()
    &&& forall|i: int|
        0 <= i < items.len() ==> {
            &&& (#[trigger] m.words@[i]).word@ == chars_of(name_bytes(items[i].0))
            &&& m.words@[i].description@ == chars_of(items[i].1)
        }
}

/// Whether every item's name and description is ASCII text.
pub open spec fn meta_ascii(items: Seq<(Seq<u8>, Seq<u8>)>) -> bool {
    forall|i: int|
        0 <= i < items.len() ==> all_ascii(#[trigger] name_bytes(items[i].0)) && all_ascii(
            items[i].1,
        )
}

/// Joins an already parsed prefix with what the rest parses to.
pub open spec fn meta_prepend(
    pre: Seq<(Seq<u8>, Seq<u8>)>,
    o: Option<Seq<(Seq<u8>, Seq<u8>)>>,
) -> Option<Seq<(Seq<u8>, Seq<u8>)>> {
    match o {
        Some(r) => Some(pre + r),
        None => None,
    }
}

/// Reads one authoring-metadata item and the position of the next tail.
#[verifier::loop_isolation(false)]
#[verifier::rlimit(100)]
#[verifier::spinoff_prover]
fn decode_meta_item(b: &Vec<u8>, blen: usize, n: usize, i: usize, tail: usize) -> (r: Option<
    (Vec<u8>, Vec<u8>, usize),
>)
    requires
        blen == b@.len(),
        i < n,
        64 + 32 * n <= tail <= blen,
    ensures
        match r {
            Some(p) => {
                &&& tail <= p.2 <= blen
                &&& p.0@.len() == 32
                &&& parse_meta_items(b@, n as nat, i as nat, tail as nat) == meta_prepend(
                    seq![(p.0@, p.1@)],
                    parse_meta_items(b@, n as nat, (i + 1) as nat, p.2 as nat),
                )
            },
            None => parse_meta_items(b@, n as nat, i as nat, tail as nat) is None,
        },
{
    match read_u64_at(b, 64 + 32 * i) {
        Some(off) => {
            if off != (tail - 64) as u64 {
                proof {
                    lemma_word64_val((tail - 64) as u64);
                }
                return None;
            }
            proof {
                lemma_word64_val((tail - 64) as u64);
                lemma_be_val_injective(
                    word_at(b@, 64 + 32 * i as int),
                    word64((tail - 64) as u64),
                );
            }
        },
        None => {
            proof {
                lemma_word64_val((tail - 64) as u64);
            }
            return None;
        },
    }
    if blen - tail < 96 {
        return None;
    }
    let word = read_word_at(b, tail);
    match read_u64_at(b, tail + 32) {
        Some(0x40u64) => {
            proof {
                lemma_word64_val(0x40u64);
                lemma_be_val_injective(word_at(b@, tail as int + 32), word64(0x40u64));
            }
        },
        Some(_) => {
            proof {
                lemma_word64_val(0x40u64);
            }
            return None;
        },
        None => {
            proof {
                lemma_word64_val(0x40u64);
            }
            return None;
        },
    }
    let len64 = match read_u64_at(b, tail + 64) {
        Some(v) => v,
        None => {
            return None;
        },
    };
    let remaining = blen - tail - 96;
    let ghost slen = be_val(word_at(b@, tail as int + 64));
    if len64 > remaining as u64 {
        proof {
            assert(pad32(slen) >= slen);
        }
        return None;
    }
    let dlen = len64 as usize;
    let rem: usize = dlen % 32;
    let pad_amt: usize = if rem == 0 {
        0
    } else {
        32 - rem
    };
    proof {
        assert(pad32(slen) == slen + pad_amt);
    }
    if pad_amt > remaining - dlen {
        return None;
    }
    let mut j: usize = 0;
    while j < pad_amt
        invariant
            j <= pad_amt,
            forall|k: int| 0 <= k < j ==> #[trigger] b@[tail + 96 + dlen + k] == 0u8,
        decreases pad_amt - j,
    {
        if b[tail + 96 + dlen + j] != 0 {
            proof {
                let padding = b@.subrange(
                    (tail + 96 + dlen) as int,
                    (tail + 96 + dlen + pad_amt) as int,
                );
                assert(padding[j as int] == b@[tail + 96 + dlen + j]);
                assert(padding != zeros((pad32(slen) - slen) as nat));
            }
            return None;
        }
        j += 1;
    }
    proof {
        let padding = b@.subrange(
            (tail + 96 + dlen) as int,
            (tail + 96 + dlen + pad_amt) as int,
        );
        assert(forall|k: int|
            0 <= k < pad_amt ==> #[trigger] padding[k] == b@[tail + 96 + dlen + k]);
        assert(padding =~= zeros((pad32(slen) - slen) as nat));
    }
    let data = vec_slice(b, tail + 96, tail + 96 + dlen);
    let word_bytes = crate::bytes32::copy_bytes(word.as_bytes());
    proof {
        assert(word_bytes@ == word_at(b@, tail as int));
        assert((word_bytes@, data@) == (
            word_at(b@, tail as int),
            b@.subrange((tail + 96) as int, (tail + 96 + slen) as int),
        ));
    }
    Some((word_bytes, data, tail + 96 + dlen + pad_amt))
}

/// The name a word field carries: its bytes before the first zero byte.
#[verifier::loop_isolation(false)]
fn word_name(w: &Vec<u8>) -> (r: Vec<u8>)
    ensures
        r@ == name_bytes(w@),
{
    let mut out: Vec<u8> = Vec::new();
    let mut i: usize = 0;
    while i < w.len()
        invariant
            i <= w@.len(),
            out@.len() == i,
            forall|j: int| 0 <= j < i ==> w@[j] != 0u8,
            out@ == w@.subrange(0, i as int),
        decreases w@.len() - i,
    {
        if w[i] == 0 {
            proof {
                lemma_name_bytes_prefix(w@, i as int);
            }
            return out;
        }
        out.push(w[i]);
        proof {
            assert(out@ =~= w@.subrange(0, i + 1));
        }
        i += 1;
    }
    proof {
        assert(out@ =~= w@);
        lemma_name_bytes_all(w@);
    }
    out
}

/// Where a zero byte ends the name, `name_bytes` is the prefix before it.
proof fn lemma_name_bytes_prefix(w: Seq<u8>, i: int)
    requires
        0 <= i < w.len(),
        w[i] == 0u8,
        forall|j: int| 0 <= j < i ==> w[j] != 0u8,
    ensures
        name_bytes(w) == w.subrange(0, i),
    decreases i,
{
    if i == 0 {
        assert(name_bytes(w) =~= w.subrange(0, 0));
    } else {
        let rest = w.subrange(1, w.len() as int);
        lemma_name_bytes_prefix(rest, i - 1);
        assert(rest.subrange(0, i - 1) =~= w.subrange(1, i));
        assert(name_bytes(w) == seq![w[0]] + w.subrange(1, i));
        assert(seq![w[0]] + w.subrange(1, i) =~= w.subrange(0, i));
    }
}

/// Without a zero byte the whole word is the name.
proof fn lemma_name_bytes_all(w: Seq<u8>)
    requires
        forall|j: int| 0 <= j < w.len() ==> w[j] != 0u8,
    ensures
        name_bytes(w) == w,
    decreases w.len(),
{
    if w.len() > 0 {
        let rest = w.subrange(1, w.len() as int);
        lemma_name_bytes_all(rest);
        assert(seq![w[0]] + rest =~= w);
    }
}

/// Whether every byte of `v` is an ASCII code point.
fn check_ascii(v: &Vec<u8>) -> (r: bool)
    ensures
        r == all_ascii(v@),
{
    let mut i: usize = 0;
    while i < v.len()
        invariant
            i <= v@.len(),
            forall|j: int| 0 <= j < i ==> v@[j] < 128,
        decreases v@.len() - i,
    {
        if v[i] >= 128 {
            return false;
        }
        i += 1;
    }
    true
}

/// Why an authoring-metadata payload was rejected.
#[derive(Clone, Copy, Debug, PartialEq, Eq, Structural)]
pub enum MetaDecodeError {
    /// The payload is not a strict item array.
    MalformedPayload,
    /// A word name or description holds a byte outside ASCII.
    NonAsciiText,
}

/// Reads the payload header: the fixed array offset and the item count.
#[verifier::loop_isolation(false)]
fn decode_meta_header(b: &Vec<u8>, blen: usize) -> (r: Option<usize>)
    requires
        blen == b@.len(),
    ensures
        match r {
            Some(n) => 64 + 32 * n <= blen && parse_meta_payload(b@) == parse_meta_items(
                b@,
                n as nat,
                0,
                (64 + 32 * n) as nat,
            ),
            None => parse_meta_payload(b@) is None,
        },
{
    if blen < 64 {
        return None;
    }
    match read_u64_at(b, 0) {
        Some(32u64) => {
            proof {
                lemma_word64_val(0x20u64);
                lemma_be_val_injective(word_at(b@, 0), word64(0x20u64));
            }
        },
        Some(_) => {
            proof {
                lemma_word64_val(0x20u64);
            }
            return None;
        },
        None => {
            proof {
                lemma_word64_val(0x20u64);
            }
            return None;
        },
    }
    let n64 = match read_u64_at(b, 32) {
        Some(v) => v,
        None => {
            return None;
        },
    };
    if n64 > ((blen - 64) / 32) as u64 {
        proof {
            assert(64 + 32 * be_val(word_at(b@, 32)) > b@.len());
        }
        return None;
    }
    Some(n64 as usize)
}

/// The byte views of raw decoded items.
pub open spec fn raw_item_views(s: Seq<(Vec<u8>, Vec<u8>)>) -> Seq<(Seq<u8>, Seq<u8>)> {
    s.map_values(|p: (Vec<u8>, Vec<u8>)| (p.0@, p.1@))
}

/// Decodes the payload into its raw items: exactly where it is a strict
/// item array.
#[verifier::loop_isolation(false)]
#[verifier::rlimit(100)]
fn decode_meta_raw(b: &Vec<u8>) -> (r: Option<Vec<(Vec<u8>, Vec<u8>)>>)
    ensures
        match r {
            Some(v) => parse_meta_payload(b@) == Some(raw_item_views(v@)),
            None => parse_meta_payload(b@) is None,
        },
{
    let blen = b.len();
    let n = match decode_meta_header(b, blen) {
        Some(n) => n,
        None => {
            return None;
        },
    };
    let ghost nn = n as nat;
    let mut tail: usize = 64 + 32 * n;
    let mut acc: Vec<(Vec<u8>, Vec<u8>)> = Vec::new();
    proof {
        match parse_meta_items(b@, nn, 0, (64 + 32 * nn) as nat) {
            Some(rest) => {
                assert(raw_item_views(acc@) + rest =~= rest);
            },
            None => {},
        }
    }
    let mut i: usize = 0;
    while i < n
        invariant
            i <= n,
            64 + 32 * n <= tail <= blen,
            blen == b@.len(),
            parse_meta_payload(b@) == meta_prepend(
                raw_item_views(acc@),
                parse_meta_items(b@, nn, i as nat, tail as nat),
            ),
        decreases n - i,
    {
        let (word, desc, next_tail) = match decode_meta_item(b, blen, n, i, tail) {
            Some(p) => p,
            None => {
                return None;
            },
        };
        let ghost old_acc = acc@;
        let ghost item = (word@, desc@);
        acc.push((word, desc));
        proof {
            assert(raw_item_views(acc@) =~= raw_item_views(old_acc).push(item));
            match parse_meta_items(b@, nn, (i + 1) as nat, next_tail as nat) {
                Some(rest) => {
                    assert(raw_item_views(old_acc).push(item) + rest =~= raw_item_views(old_acc)
                        + (seq![item] + rest));
                },
                None => {},
            }
        }
        tail = next_tail;
        i += 1;
    }
    if tail != blen {
        return None;
    }
    proof {
        match parse_meta_items(b@, nn, nn, tail as nat) {
            Some(rest) => {
                assert(raw_item_views(acc@) + rest =~= raw_item_views(acc@));
            },
            None => {},
        }
    }
    Some(acc)
}

/// Decodes an authoring-metadata payload into its ordered word list: it
/// succeeds exactly on a strict item array whose names and descriptions are
/// ASCII, and renders each name from its word's prefix before the first
/// zero byte.
#[verifier::loop_isolation(false)]
#[verifier::rlimit(100)]
pub fn decode_authoring_meta(b: &Vec<u8>) -> (r: Result<AuthoringMetaV2, MetaDecodeError>)
    ensures
        match r {
            Ok(m) => parse_meta_payload(b@) matches Some(items) && meta_ascii(items)
                && meta_renders(items, m),
            Err(MetaDecodeError::MalformedPayload) => parse_meta_payload(b@) is None,
            Err(MetaDecodeError::NonAsciiText) => parse_meta_payload(b@) matches Some(items)
                && !meta_ascii(items),
        },
{
    let raw = match decode_meta_raw(b) {
        Some(v) => v,
        None => {
            return Err(MetaDecodeError::MalformedPayload);
        },
    };
    let ghost items = raw_item_views(raw@);
    let mut words: Vec<AuthoringMetaItem> = Vec::new();
    let mut i: usize = 0;
    while i < raw.len()
        invariant
            i <= raw@.len(),
            items == raw_item_views(raw@),
            words@.len() == i,
            forall|k: int| 0 <= k < i ==> #[trigger] all_ascii(name_bytes(items[k].0)),
            forall|k: int| 0 <= k < i ==> #[trigger] all_ascii(items[k].1),
            forall|k: int|
                0 <= k < i ==> {
                    &&& (#[trigger] words@[k]).word@ == chars_of(name_bytes(items[k].0))
                    &&& words@[k].description@ == chars_of(items[k].1)
                },
        decreases raw@.len() - i,
    {
        let pair = &raw[i];
        let name = word_name(&pair.0);
        proof {
            assert(items[i as int] == (raw@[i as int].0@, raw@[i as int].1@));
            assert(pair.0@ == items[i as int].0 && pair.1@ == items[i as int].1);
        }
        if !check_ascii(&name) {
            proof {
                assert(!meta_ascii(items)) by {
                    assert(!all_ascii(name_bytes(items[i as int].0)));
                }
            }
            return Err(MetaDecodeError::NonAsciiText);
        }
        if !check_ascii(&pair.1) {
            proof {
                assert(!meta_ascii(items)) by {
                    assert(name@ == name_bytes(items[i as int].0));
                    assert(!all_ascii(items[i as int].1));
                }
            }
            return Err(MetaDecodeError::NonAsciiText);
        }
        let word_text = ascii_string(&name);
        let desc_text = ascii_string(&pair.1);
        words.push(AuthoringMetaItem { word: word_text, description: desc_text });
        proof {
            assert forall|k: int|
                0 <= k < i + 1 implies #[trigger] all_ascii(name_bytes(items[k].0))
                && #[trigger] all_ascii(items[k].1) by {
                if k == i {
                    assert(name@ == name_bytes(items[k].0));
                }
            }
            assert(words@[i as int].word@ == chars_of(name_bytes(items[i as int].0)));
            assert(words@[i as int].description@ == chars_of(items[i as int].1));
        }
        i += 1;
    }
    proof {
        assert(meta_ascii(items)) by {
            assert forall|k: int|
                0 <= k < items.len() implies all_ascii(#[trigger] name_bytes(items[k].0))
                && all_ascii(items[k].1) by {
                assert(all_ascii(name_bytes(items[k].0)));
                assert(all_ascii(items[k].1));
            }
        }
    }
    Ok(AuthoringMetaV2 { words })
}

/// The magic number and decompressed payload of each document of a
/// metadata envelope, or the decoder's rendered error.
pub uninterp spec fn unwrapped_envelope(b: Seq<u8>) -> Result<Seq<(u64, Seq<u8>)>, Seq<char>>;

/// Relies on rain_metadata's RainMetaDocumentV1Item::cbor_decode and, per
/// document, unpack: an envelope decodes to its documents' magic numbers
/// and decompressed payloads, a function of the envelope bytes alone; the
/// decoder refuses an envelope that holds no document.
#[verifier::external_body]
fn unwrap_meta_envelope(bytes: &Vec<u8>) -> (r: Result<Vec<(u64, Vec<u8>)>, String>)
    ensures
        match r {
            Ok(v) => unwrapped_envelope(bytes@) == Ok::<Seq<(u64, Seq<u8>)>, Seq<char>>(
                v@.map_values(|p: (u64, Vec<u8>)| (p.0, p.1@)),
            ) && v@.len() >= 1,
            Err(e) => unwrapped_envelope(bytes@) == Err::<Seq<(u64, Seq<u8>)>, Seq<char>>(e@),
        },
{
    let items = rain_metadata::RainMetaDocumentV1Item::cbor_decode(bytes)
        .map_err(|e| e.to_string())?;
    let mut out: Vec<(u64, Vec<u8>)> = Vec::new();
    for item in items {
        let payload = item.unpack().map_err(|e| e.to_string())?;
        out.push((item.magic as u64, payload));
    }
    Ok(out)
}

/// Why an envelope yielded no authoring metadata.
#[derive(Debug)]
pub enum EnvelopeError {
    /// The envelope is not a metadata document sequence; the decoder's
    /// message.
    MalformedEnvelope(String),
    /// No document of the envelope carries the given magic number.
    NoAuthoringDocument,
    /// The authoring document's payload was rejected.
    Payload(MetaDecodeError),
}

/// Unwraps a metadata envelope and decodes the first document that carries
/// the given authoring magic number into its ordered word list.
#[verifier::loop_isolation(false)]
pub fn authoring_meta_from_envelope(envelope: &Vec<u8>, magic: u64) -> (r: Result<
    AuthoringMetaV2,
    EnvelopeError,
>)
    ensures
        match r {
            Ok(m) => unwrapped_envelope(envelope@) matches Ok(docs) && (exists|i: int|
                0 <= i < docs.len() && (#[trigger] docs[i]).0 == magic && (forall|j: int|
                    0 <= j < i ==> docs[j].0 != magic) && (parse_meta_payload(docs[i].1)
                    matches Some(items) && meta_ascii(items) && meta_renders(items, m))),
            Err(EnvelopeError::MalformedEnvelope(e)) => unwrapped_envelope(envelope@)
                matches Err(msg) && e@ == msg,
            Err(EnvelopeError::NoAuthoringDocument) => unwrapped_envelope(envelope@)
                matches Ok(docs) && (forall|i: int|
                0 <= i < docs.len() ==> (#[trigger] docs[i]).0 != magic),
            Err(EnvelopeError::Payload(e)) => unwrapped_envelope(envelope@) matches Ok(docs)
                && (exists|i: int|
                0 <= i < docs.len() && (#[trigger] docs[i]).0 == magic && (forall|j: int|
                    0 <= j < i ==> docs[j].0 != magic) && (match e {
                    MetaDecodeError::MalformedPayload => parse_meta_payload(docs[i].1) is None,
                    MetaDecodeError::NonAsciiText => parse_meta_payload(docs[i].1) matches Some(
                        items,
                    ) && !meta_ascii(items),
                })),
        },
{
    let docs = match unwrap_meta_envelope(envelope) {
        Ok(v) => v,
        Err(e) => {
            return Err(EnvelopeError::MalformedEnvelope(e));
        },
    };
    let ghost dviews = docs@.map_values(|p: (u64, Vec<u8>)| (p.0, p.1@));
    let n = docs.len();
    let mut i: usize = 0;
    while i < n
        invariant
            i <= n,
            n == docs@.len(),
            forall|j: int| 0 <= j < i ==> (#[trigger] dviews[j]).0 != magic,
        decreases n - i,
    {
        if docs[i].0 == magic {
            proof {
                let sdocs = unwrapped_envelope(envelope@)->Ok_0;
                assert(dviews[i as int] == (docs@[i as int].0, docs@[i as int].1@));
                assert(sdocs == dviews);
                assert(sdocs[i as int].0 == magic);
                assert forall|j: int| 0 <= j < i implies (#[trigger] sdocs[j]).0 != magic by {
                    assert(dviews[j].0 != magic);
                }
            }
            return match decode_authoring_meta(&docs[i].1) {
                Ok(m) => {
                    proof {
                        let sdocs = unwrapped_envelope(envelope@)->Ok_0;
                        assert(sdocs[i as int].1 == docs@[i as int].1@);
                    }
                    Ok(m)
                },
                Err(e) => {
                    proof {
                        let sdocs = unwrapped_envelope(envelope@)->Ok_0;
                        assert(sdocs[i as int].1 == docs@[i as int].1@);
                    }
                    Err(EnvelopeError::Payload(e))
                },
            };
        }
        proof {
            assert(dviews[i as int] == (docs@[i as int].0, docs@[i as int].1@));
        }
        i += 1;
    }
    proof {
        let sdocs = unwrapped_envelope(envelope@)->Ok_0;
        assert(sdocs == dviews);
        assert forall|k: int| 0 <= k < sdocs.len() implies (#[trigger] sdocs[k]).0 != magic by {
            assert(dviews[k].0 != magic);
        }
    }
    Err(EnvelopeError::NoAuthoringDocument)
}

} // verus!
