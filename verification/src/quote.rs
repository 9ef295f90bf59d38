//! Multicall quote batcher: builds one aggregated read call for a list of
//! quote targets, parses the aggregator's response, and classifies every
//! sub-result into exactly one outcome, in input order.

use vstd::prelude::*;
use vstd::string::StringExecFns;
use crate::abi::{
    pad32, push_bytes, push_pad32, push_word, push_word_u64, read_bool_at, read_u64_at,
    read_word_at, vec_slice, word_at, zeros,
};
use crate::address::Address;
use crate::bytes32::{
    be_val, is_small_word, lemma_word64_val, pow256, word64, Word256,
};
use crate::revert::{
    decoded_matches, revert_decode_spec, AbiDecodedError, RevertDecodeError, SelectorRegistry,
};

verus! {

/// The four-byte selector of the aggregator's batching call.
pub const AGGREGATE3_SELECTOR: u32 = 0x82ad56cb;

/// The four-byte selector of the orderbook's quote call.
pub const QUOTE_SELECTOR: u32 = 0xe0e530b7;

/// The 20 bytes of the well-known aggregator contract deployed at one
/// address across chains.
pub open spec fn multicall3_address_bytes() -> Seq<u8> {
    seq![
        0xcau8, 0x11, 0xbd, 0xe0, 0x59, 0x77, 0xb3, 0x63, 0x11, 0x67, 0x02, 0x88, 0x62, 0xbe,
        0x2a, 0x17, 0x39, 0x76, 0xca, 0x11,
    ]
}

/// One order to price: the orderbook that holds it and the quote
/// configuration payload.
#[derive(Debug)]
pub struct QuoteTarget {
    /// The orderbook contract to ask.
    pub orderbook: Address,
    /// The hash identifying the order.
    pub order_hash: Word256,
    /// Index of the input vault to quote.
    pub input_io_index: u8,
    /// Index of the output vault to quote.
    pub output_io_index: u8,
    /// Optional signed context words handed through to the order.
    pub signed_context: Vec<Word256>,
}

/// A priced quote: the maximum output and the input/output ratio.
#[derive(Debug)]
pub struct OrderQuote {
    pub max_output: Word256,
    pub ratio: Word256,
}

/// Why one target yielded no price.
#[derive(Debug)]
pub enum FailedQuote {
    /// The order does not exist on the orderbook.
    NonExistent,
    /// The sub-call succeeded but its return bytes do not decode.
    CorruptReturnData(String),
    /// The sub-call reverted with a known custom error.
    RevertError(AbiDecodedError),
    /// The sub-call reverted and the failure bytes could not be decoded.
    RevertErrorDecodeFailed(RevertDecodeError),
}

/// The outcome for one quote target.
pub type QuoteResult = Result<OrderQuote, FailedQuote>;

/// Why the whole batch failed: the aggregator's response does not parse or
/// does not carry one sub-result per target.
#[derive(Clone, Copy, Debug, PartialEq, Eq, Structural)]
pub enum MultiQuoteError {
    InvalidResponse,
}

/// One sub-result of the aggregated call.
pub struct SubResult {
    /// Whether the sub-call succeeded on chain.
    pub success: bool,
    /// The sub-call's raw return or failure bytes.
    pub return_data: Vec<u8>,
}

/// One sub-call of the aggregated call.
pub struct Call3 {
    /// The contract to call.
    pub target: Address,
    /// Whether the aggregate tolerates this sub-call failing.
    pub allow_failure: bool,
    /// The encoded sub-call.
    pub calldata: Vec<u8>,
}

/// The default aggregator: the well-known multicall contract, asked where
/// a caller overrides nothing.
pub fn default_multicall_address() -> (r: Address)
    ensures
        r@ == multicall3_address_bytes(),
{
    let mut b: Vec<u8> = Vec::new();
    b.push(0xca);
    b.push(0x11);
    b.push(0xbd);
    b.push(0xe0);
    b.push(0x59);
    b.push(0x77);
    b.push(0xb3);
    b.push(0x63);
    b.push(0x11);
    b.push(0x67);
    b.push(0x02);
    b.push(0x88);
    b.push(0x62);
    b.push(0xbe);
    b.push(0x2a);
    b.push(0x17);
    b.push(0x39);
    b.push(0x76);
    b.push(0xca);
    b.push(0x11);
    proof {
        assert(b@ =~= multicall3_address_bytes());
    }
    Address::from_bytes(b)
}

/// The word that carries a boolean.
pub open spec fn bool_word(b: bool) -> Seq<u8> {
    word64(if b {
        1u64
    } else {
        0u64
    })
}

/// The word that carries an address: twelve zero bytes, then the address.
pub open spec fn address_word(a: Seq<u8>) -> Seq<u8> {
    zeros(12) + a
}

/// The four big-endian bytes of a selector.
pub open spec fn selector_bytes(s: u32) -> Seq<u8> {
    Seq::new(4, |i: int| (s as nat / pow256((3 - i) as nat) % 256) as u8)
}

/// Appends the four bytes of a selector.
pub fn push_selector(out: &mut Vec<u8>, s: u32)
    ensures
        final(out)@ == old(out)@ + selector_bytes(s),
{
    let mut i: usize = 0;
    while i < 4
        invariant
            i <= 4,
            out@ == old(out)@ + selector_bytes(s).subrange(0, i as int),
        decreases 4 - i,
    {
        let weight = crate::bytes32::pow256_u64(3 - i);
        let b: u8 = ((s as u64 / weight) % 256) as u8;
        out.push(b);
        proof {
            assert(out@ =~= old(out)@ + selector_bytes(s).subrange(0, i + 1));
        }
        i += 1;
    }
    proof {
        assert(selector_bytes(s).subrange(0, 4) =~= selector_bytes(s));
    }
}

/// The concatenated words of a signed context.
pub open spec fn context_words(ws: Seq<Word256>) -> Seq<u8>
    decreases ws.len(),
{
    if ws.len() == 0 {
        Seq::<u8>::empty()
    } else {
        context_words(ws.drop_last()) + ws.last()@
    }
}

/// The encoded quote call for one target: selector, order hash, the two
/// vault indices, then the signed context as a trailing word array.
pub open spec fn quote_calldata(t: QuoteTarget) -> Seq<u8> {
    selector_bytes(QUOTE_SELECTOR) + t.order_hash@ + word64(t.input_io_index as u64) + word64(
        t.output_io_index as u64,
    ) + word64(0x80) + word64(t.signed_context@.len() as u64) + context_words(t.signed_context@)
}

/// Builds the encoded quote call for one target.
#[verifier::loop_isolation(false)]
pub fn encode_quote_call(t: &QuoteTarget) -> (r: Vec<u8>)
    ensures
        r@ == quote_calldata(*t),
{
    let mut out: Vec<u8> = Vec::new();
    push_selector(&mut out, QUOTE_SELECTOR);
    push_word(&mut out, &t.order_hash);
    push_word_u64(&mut out, t.input_io_index as u64);
    push_word_u64(&mut out, t.output_io_index as u64);
    push_word_u64(&mut out, 0x80);
    push_word_u64(&mut out, t.signed_context.len() as u64);
    let ghost head = out@;
    let mut i: usize = 0;
    while i < t.signed_context.len()
        invariant
            i <= t.signed_context@.len(),
            out@ == head + context_words(t.signed_context@.subrange(0, i as int)),
        decreases t.signed_context@.len() - i,
    {
        push_word(&mut out, &t.signed_context[i]);
        proof {
            let pre = t.signed_context@.subrange(0, i as int);
            let cur = t.signed_context@.subrange(0, i + 1);
            assert(cur.drop_last() =~= pre);
            assert(out@ =~= head + context_words(cur));
        }
        i += 1;
    }
    proof {
        assert(t.signed_context@.subrange(0, t.signed_context@.len() as int)
            =~= t.signed_context@);
        assert(out@ =~= quote_calldata(*t));
    }
    out
}

/// The tail bytes of one sub-call: address and failure-tolerance words, the
/// offset of its calldata, then the calldata, length-prefixed and padded.
pub open spec fn call3_bytes(c: Call3) -> Seq<u8> {
    address_word(c.target@) + bool_word(c.allow_failure) + word64(0x60) + word64(
        c.calldata@.len() as u64,
    ) + c.calldata@ + zeros((pad32(c.calldata@.len()) - c.calldata@.len()) as nat)
}

/// The size of one sub-call's tail.
pub open spec fn call3_size(c: Call3) -> nat {
    128 + pad32(c.calldata@.len())
}

/// The concatenated tails of the sub-calls.
pub open spec fn calls_tails(calls: Seq<Call3>) -> Seq<u8>
    decreases calls.len(),
{
    if calls.len() == 0 {
        Seq::<u8>::empty()
    } else {
        calls_tails(calls.drop_last()) + call3_bytes(calls.last())
    }
}

/// The summed size of the sub-call tails.
pub open spec fn calls_tails_size(calls: Seq<Call3>) -> nat
    decreases calls.len(),
{
    if calls.len() == 0 {
        0nat
    } else {
        calls_tails_size(calls.drop_last()) + call3_size(calls.last())
    }
}

/// The offset table of the sub-call array: each entry points at its
/// sub-call's tail, relative to the start of the array data.
pub open spec fn calls_offsets(n: nat, calls: Seq<Call3>) -> Seq<u8>
    decreases calls.len(),
{
    if calls.len() == 0 {
        Seq::<u8>::empty()
    } else {
        calls_offsets(n, calls.drop_last()) + word64(
            (32 * n + calls_tails_size(calls.drop_last())) as u64,
        )
    }
}

/// The whole aggregated calldata: the aggregator selector, the offset of the
/// array, its length, the offset table and the tails.
pub open spec fn aggregate3_calldata(calls: Seq<Call3>) -> Seq<u8> {
    selector_bytes(AGGREGATE3_SELECTOR) + word64(0x20) + word64(calls.len() as u64) + calls_offsets(
        calls.len(),
        calls,
    ) + calls_tails(calls)
}

/// Prefixes of the tail sum never exceed the whole.
proof fn lemma_tails_size_take(calls: Seq<Call3>, i: int)
    requires
        0 <= i <= calls.len(),
    ensures
        calls_tails_size(calls.subrange(0, i)) <= calls_tails_size(calls),
    decreases calls.len() - i,
{
    if i == calls.len() {
        assert(calls.subrange(0, i) =~= calls);
    } else {
        lemma_tails_size_take(calls, i + 1);
        let a = calls.subrange(0, i);
        let b = calls.subrange(0, i + 1);
        assert(b.drop_last() =~= a);
        assert(calls_tails_size(b) == calls_tails_size(a) + call3_size(calls[i]));
    }
}

/// Builds the aggregated calldata for the sub-calls.
#[verifier::loop_isolation(false)]
#[verifier::rlimit(100)]
pub fn encode_aggregate3(calls: &Vec<Call3>) -> (r: Vec<u8>)
    requires
        calls@.len() < 0x100_0000,
        calls_tails_size(calls@) + 32 * calls@.len() < 0x4000_0000,
    ensures
        r@ == aggregate3_calldata(calls@),
{
    let n = calls.len();
    let mut out: Vec<u8> = Vec::new();
    push_selector(&mut out, AGGREGATE3_SELECTOR);
    push_word_u64(&mut out, 0x20);
    push_word_u64(&mut out, n as u64);
    let ghost head = out@;
    let mut tail_sum: usize = 0;
    let mut i: usize = 0;
    while i < n
        invariant
            i <= n,
            out@ == head + calls_offsets(n as nat, calls@.subrange(0, i as int)),
            tail_sum == calls_tails_size(calls@.subrange(0, i as int)),
        decreases n - i,
    {
        proof {
            lemma_tails_size_take(calls@, i as int);
            let pre = calls@.subrange(0, i as int);
            let cur = calls@.subrange(0, i + 1);
            assert(cur.drop_last() =~= pre);
            lemma_tails_size_take(calls@, i + 1);
        }
        push_word_u64(&mut out, (32 * n + tail_sum) as u64);
        let clen = calls[i].calldata.len();
        let rem: usize = clen % 32;
        let padded: usize = if rem == 0 {
            clen
        } else {
            clen + (32 - rem)
        };
        proof {
            assert(padded == pad32(clen as nat));
            assert(call3_size(calls@[i as int]) == 128 + padded);
        }
        tail_sum = tail_sum + 128 + padded;
        proof {
            assert(out@ =~= head + calls_offsets(n as nat, calls@.subrange(0, i + 1)));
        }
        i += 1;
    }
    proof {
        assert(calls@.subrange(0, n as int) =~= calls@);
    }
    let ghost mid = out@;
    let mut i: usize = 0;
    while i < n
        invariant
            i <= n,
            out@ == mid + calls_tails(calls@.subrange(0, i as int)),
        decreases n - i,
    {
        let c = &calls[i];
        let ghost before = out@;
        let mut j: usize = 0;
        while j < 12
            invariant
                j <= 12,
                out@ == before + zeros(j as nat),
            decreases 12 - j,
        {
            out.push(0u8);
            proof {
                assert(out@ =~= before + zeros((j + 1) as nat));
            }
            j += 1;
        }
        push_bytes(&mut out, c.target.as_bytes());
        push_word_u64(&mut out, if c.allow_failure {
            1
        } else {
            0
        });
        push_word_u64(&mut out, 0x60);
        proof {
            lemma_tails_size_take(calls@, i + 1);
            let pre = calls@.subrange(0, i as int);
            let cur = calls@.subrange(0, i + 1);
            assert(cur.drop_last() =~= pre);
            assert(calls_tails_size(cur) == calls_tails_size(pre) + call3_size(calls@[i as int]));
        }
        push_word_u64(&mut out, c.calldata.len() as u64);
        push_bytes(&mut out, &c.calldata);
        push_pad32(&mut out, c.calldata.len());
        proof {
            let pre = calls@.subrange(0, i as int);
            let cur = calls@.subrange(0, i + 1);
            assert(cur.drop_last() =~= pre);
            assert(before == mid + calls_tails(pre));
            assert(out@ =~= before + call3_bytes(calls@[i as int]));
            assert(out@ =~= mid + calls_tails(cur));
        }
        i += 1;
    }
    proof {
        assert(calls@.subrange(0, n as int) =~= calls@);
        assert(out@ =~= aggregate3_calldata(calls@));
    }
    out
}

/// Builds one failure-tolerant sub-call per quote target, in input order.
#[verifier::loop_isolation(false)]
pub fn build_quote_calls(targets: &Vec<QuoteTarget>) -> (r: Vec<Call3>)
    ensures
        r@.len() == targets@.len(),
        forall|i: int|
            0 <= i < r@.len() ==> {
                &&& r@[i].target@ == targets@[i].orderbook@
                &&& r@[i].allow_failure == true
                &&& r@[i].calldata@ == quote_calldata(targets@[i])
            },
{
    let mut out: Vec<Call3> = Vec::new();
    let mut i: usize = 0;
    while i < targets.len()
        invariant
            i <= targets@.len(),
            out@.len() == i,
            forall|k: int|
                0 <= k < i ==> {
                    &&& out@[k].target@ == targets@[k].orderbook@
                    &&& out@[k].allow_failure == true
                    &&& out@[k].calldata@ == quote_calldata(targets@[k])
                },
        decreases targets@.len() - i,
    {
        let t = &targets[i];
        let calldata = encode_quote_call(t);
        out.push(Call3 { target: t.orderbook.clone(), allow_failure: true, calldata });
        i += 1;
    }
    out
}

/// The tail bytes of one sub-result: its success word, the offset of its
/// return bytes, then those bytes, length-prefixed and padded.
pub open spec fn sub_bytes(s: (bool, Seq<u8>)) -> Seq<u8> {
    bool_word(s.0) + word64(0x40) + word64(s.1.len() as u64) + s.1 + zeros(
        (pad32(s.1.len()) - s.1.len()) as nat,
    )
}

/// The size of one sub-result's tail.
pub open spec fn sub_size(s: (bool, Seq<u8>)) -> nat {
    96 + pad32(s.1.len())
}

/// The concatenated tails of the sub-results.
pub open spec fn subs_tails(rs: Seq<(bool, Seq<u8>)>) -> Seq<u8>
    decreases rs.len(),
{
    if rs.len() == 0 {
        Seq::<u8>::empty()
    } else {
        subs_tails(rs.drop_last()) + sub_bytes(rs.last())
    }
}

/// The summed size of the sub-result tails.
pub open spec fn subs_tails_size(rs: Seq<(bool, Seq<u8>)>) -> nat
    decreases rs.len(),
{
    if rs.len() == 0 {
        0nat
    } else {
        subs_tails_size(rs.drop_last()) + sub_size(rs.last())
    }
}

/// The offset table of the sub-result array.
pub open spec fn subs_offsets(n: nat, rs: Seq<(bool, Seq<u8>)>) -> Seq<u8>
    decreases rs.len(),
{
    if rs.len() == 0 {
        Seq::<u8>::empty()
    } else {
        subs_offsets(n, rs.drop_last()) + word64(
            (32 * n + subs_tails_size(rs.drop_last())) as u64,
        )
    }
}

/// The aggregator's whole response: the offset of the sub-result array, its
/// length, the offset table and the tails.
pub open spec fn response_bytes(rs: Seq<(bool, Seq<u8>)>) -> Seq<u8> {
    word64(0x20) + word64(rs.len() as u64) + subs_offsets(rs.len(), rs) + subs_tails(rs)
}

/// Parses sub-results `i` to `n` of a response whose next tail stands at
/// `tail`: each offset word must point at its tail, each tail must hold a
/// strict success word, the fixed inner offset, a length and the padded
/// return bytes, and the last tail must end the response.
pub open spec fn parse_items(b: Seq<u8>, n: nat, i: nat, tail: nat) -> Option<
    Seq<(bool, Seq<u8>)>,
>
    decreases n - i,
{
    if i >= n {
        if tail == b.len() {
            Some(Seq::<(bool, Seq<u8>)>::empty())
        } else {
            None
        }
    } else if word_at(b, 64 + 32 * i as int) != word64((tail - 64) as u64) {
        None
    } else if tail + 96 > b.len() {
        None
    } else if word_at(b, tail as int) != word64(0) && word_at(b, tail as int) != word64(1) {
        None
    } else if word_at(b, tail as int + 32) != word64(0x40) {
        None
    } else if !is_small_word(word_at(b, tail as int + 64)) {
        None
    } else {
        let len = be_val(word_at(b, tail as int + 64));
        if tail + 96 + pad32(len) > b.len() {
            None
        } else if b.subrange((tail + 96 + len) as int, (tail + 96 + pad32(len)) as int) != zeros(
            (pad32(len) - len) as nat,
        ) {
            None
        } else {
            let item = (
                word_at(b, tail as int) == word64(1),
                b.subrange((tail + 96) as int, (tail + 96 + len) as int),
            );
            match parse_items(b, n, i + 1, (tail + 96 + pad32(len)) as nat) {
                Some(rest) => Some(seq![item] + rest),
                None => None,
            }
        }
    }
}

/// Parses a whole response: the fixed array offset, a small length word, and
/// the sub-results.
pub open spec fn parse_response(b: Seq<u8>) -> Option<Seq<(bool, Seq<u8>)>> {
    if b.len() < 64 {
        None
    } else if word_at(b, 0) != word64(0x20) {
        None
    } else if !is_small_word(word_at(b, 32)) {
        None
    } else {
        let n = be_val(word_at(b, 32));
        if 64 + 32 * n > b.len() {
            None
        } else {
            parse_items(b, n, 0, (64 + 32 * n) as nat)
        }
    }
}

/// The success flag and return bytes of each sub-result.
pub open spec fn subs_views(s: Seq<SubResult>) -> Seq<(bool, Seq<u8>)> {
    s.map_values(|x: SubResult| (x.success, x.return_data@))
}

/// Prefixes of the sub-result tail sum never exceed the whole.
proof fn lemma_subs_tails_size_take(rs: Seq<(bool, Seq<u8>)>, i: int)
    requires
        0 <= i <= rs.len(),
    ensures
        subs_tails_size(rs.subrange(0, i)) <= subs_tails_size(rs),
    decreases rs.len() - i,
{
    if i == rs.len() {
        assert(rs.subrange(0, i) =~= rs);
    } else {
        lemma_subs_tails_size_take(rs, i + 1);
        let a = rs.subrange(0, i);
        let b = rs.subrange(0, i + 1);
        assert(b.drop_last() =~= a);
        assert(subs_tails_size(b) == subs_tails_size(a) + sub_size(rs[i]));
    }
}

/// Builds the canonical response bytes for the given sub-results.
#[verifier::loop_isolation(false)]
pub fn encode_multicall_response(subs: &Vec<SubResult>) -> (r: Vec<u8>)
    requires
        subs@.len() < 0x100_0000,
        subs_tails_size(subs_views(subs@)) + 32 * subs@.len() < 0x4000_0000,
    ensures
        r@ == response_bytes(subs_views(subs@)),
{
    let ghost views = subs_views(subs@);
    let n = subs.len();
    let mut out: Vec<u8> = Vec::new();
    push_word_u64(&mut out, 0x20);
    push_word_u64(&mut out, n as u64);
    let ghost head = out@;
    let mut tail_sum: usize = 0;
    let mut i: usize = 0;
    while i < n
        invariant
            i <= n,
            out@ == head + subs_offsets(n as nat, views.subrange(0, i as int)),
            tail_sum == subs_tails_size(views.subrange(0, i as int)),
        decreases n - i,
    {
        proof {
            lemma_subs_tails_size_take(views, i as int);
            lemma_subs_tails_size_take(views, i + 1);
            let pre = views.subrange(0, i as int);
            let cur = views.subrange(0, i + 1);
            assert(cur.drop_last() =~= pre);
        }
        push_word_u64(&mut out, (32 * n + tail_sum) as u64);
        let clen = subs[i].return_data.len();
        let rem: usize = clen % 32;
        let padded: usize = if rem == 0 {
            clen
        } else {
            clen + (32 - rem)
        };
        proof {
            assert(views[i as int].1 == subs@[i as int].return_data@);
            assert(padded == pad32(clen as nat));
            assert(sub_size(views[i as int]) == 96 + padded);
        }
        tail_sum = tail_sum + 96 + padded;
        proof {
            assert(out@ =~= head + subs_offsets(n as nat, views.subrange(0, i + 1)));
        }
        i += 1;
    }
    proof {
        assert(views.subrange(0, n as int) =~= views);
    }
    let ghost mid = out@;
    let mut i: usize = 0;
    while i < n
        invariant
            i <= n,
            out@ == mid + subs_tails(views.subrange(0, i as int)),
        decreases n - i,
    {
        let s = &subs[i];
        let ghost before = out@;
        push_word_u64(&mut out, if s.success {
            1
        } else {
            0
        });
        push_word_u64(&mut out, 0x40);
        push_word_u64(&mut out, s.return_data.len() as u64);
        push_bytes(&mut out, &s.return_data);
        push_pad32(&mut out, s.return_data.len());
        proof {
            let pre = views.subrange(0, i as int);
            let cur = views.subrange(0, i + 1);
            assert(cur.drop_last() =~= pre);
            assert(views[i as int] == (s.success, s.return_data@));
            assert(out@ =~= before + sub_bytes(views[i as int]));
            assert(out@ =~= mid + subs_tails(cur));
        }
        i += 1;
    }
    proof {
        assert(views.subrange(0, n as int) =~= views);
        assert(out@ =~= response_bytes(views));
    }
    out
}

/// Joins an already parsed prefix with what the rest of the response parses
/// to.
pub open spec fn opt_prepend(
    pre: Seq<(bool, Seq<u8>)>,
    o: Option<Seq<(bool, Seq<u8>)>>,
) -> Option<Seq<(bool, Seq<u8>)>> {
    match o {
        Some(r) => Some(pre + r),
        None => None,
    }
}

/// Reads one sub-result of the response: its offset word, its tail, and the
/// position of the next tail.
#[verifier::loop_isolation(false)]
#[verifier::rlimit(100)]
fn decode_sub(b: &Vec<u8>, blen: usize, n: usize, i: usize, tail: usize) -> (r: Option<
    (SubResult, usize),
>)
    requires
        blen == b@.len(),
        i < n,
        64 + 32 * n <= tail <= blen,
    ensures
        match r {
            Some(p) => {
                &&& tail <= p.1 <= blen
                &&& parse_items(b@, n as nat, i as nat, tail as nat) == opt_prepend(
                    seq![(p.0.success, p.0.return_data@)],
                    parse_items(b@, n as nat, (i + 1) as nat, p.1 as nat),
                )
            },
            None => parse_items(b@, n as nat, i as nat, tail as nat) is None,
        },
{
    // the offset word must point at the running tail
    match read_u64_at(b, 64 + 32 * i) {
        Some(off) => {
            if off != (tail - 64) as u64 {
                proof {
                    lemma_word64_val((tail - 64) as u64);
                }
                return None;
            }
            proof {
                lemma_word64_val((tail - 64) as u64);
                crate::abi::lemma_be_val_injective(
                    word_at(b@, 64 + 32 * i as int),
                    word64((tail - 64) as u64),
                );
            }
        },
        None => {
            proof {
                lemma_word64_val((tail - 64) as u64);
            }
            return None;
        },
    }
    if blen - tail < 96 {
        return None;
    }
    let succ = match read_bool_at(b, tail) {
        Some(v) => v,
        None => {
            return None;
        },
    };
    match read_u64_at(b, tail + 32) {
        Some(0x40u64) => {
            proof {
                lemma_word64_val(0x40u64);
                crate::abi::lemma_be_val_injective(
                    word_at(b@, tail as int + 32),
                    word64(0x40u64),
                );
            }
        },
        Some(_) => {
            proof {
                lemma_word64_val(0x40u64);
            }
            return None;
        },
        None => {
            proof {
                lemma_word64_val(0x40u64);
            }
            return None;
        },
    }
    let len64 = match read_u64_at(b, tail + 64) {
        Some(v) => v,
        None => {
            return None;
        },
    };
    let remaining = blen - tail - 96;
    let ghost slen = be_val(word_at(b@, tail as int + 64));
    if len64 > remaining as u64 {
        proof {
            assert(pad32(slen) >= slen);
        }
        return None;
    }
    let dlen = len64 as usize;
    let rem: usize = dlen % 32;
    let pad_amt: usize = if rem == 0 {
        0
    } else {
        32 - rem
    };
    proof {
        assert(pad32(slen) == slen + pad_amt);
    }
    if pad_amt > remaining - dlen {
        return None;
    }
    // padding bytes must be zero
    let mut j: usize = 0;
    while j < pad_amt
        invariant
            j <= pad_amt,
            forall|k: int| 0 <= k < j ==> #[trigger] b@[tail + 96 + dlen + k] == 0u8,
        decreases pad_amt - j,
    {
        if b[tail + 96 + dlen + j] != 0 {
            proof {
                let padding = b@.subrange(
                    (tail + 96 + dlen) as int,
                    (tail + 96 + dlen + pad_amt) as int,
                );
                assert(padding[j as int] == b@[tail + 96 + dlen + j]);
                assert(padding != zeros((pad32(slen) - slen) as nat));
            }
            return None;
        }
        j += 1;
    }
    proof {
        let padding = b@.subrange(
            (tail + 96 + dlen) as int,
            (tail + 96 + dlen + pad_amt) as int,
        );
        assert(forall|k: int|
            0 <= k < pad_amt ==> #[trigger] padding[k] == b@[tail + 96 + dlen + k]);
        assert(padding =~= zeros((pad32(slen) - slen) as nat));
    }
    let data = vec_slice(b, tail + 96, tail + 96 + dlen);
    proof {
        let item = (
            word_at(b@, tail as int) == word64(1),
            b@.subrange((tail + 96) as int, (tail + 96 + slen) as int),
        );
        assert(word64(0u64) != word64(1u64)) by {
            lemma_word64_val(0u64);
            lemma_word64_val(1u64);
        }
        assert((succ, data@) == item);
    }
    Some((SubResult { success: succ, return_data: data }, tail + 96 + dlen + pad_amt))
}

/// Parses the aggregator's response into its sub-results: exactly the
/// sub-result lists whose canonical encoding the response is.
#[verifier::loop_isolation(false)]
pub fn decode_multicall_response(b: &Vec<u8>) -> (r: Option<Vec<SubResult>>)
    ensures
        match r {
            Some(v) => parse_response(b@) == Some(subs_views(v@)),
            None => parse_response(b@) is None,
        },
{
    let blen = b.len();
    if blen < 64 {
        return None;
    }
    match read_u64_at(b, 0) {
        Some(32u64) => {
            proof {
                lemma_word64_val(0x20u64);
                crate::abi::lemma_be_val_injective(word_at(b@, 0), word64(0x20u64));
            }
        },
        Some(_) => {
            proof {
                lemma_word64_val(0x20u64);
            }
            return None;
        },
        None => {
            proof {
                lemma_word64_val(0x20u64);
            }
            return None;
        },
    }
    let n64 = match read_u64_at(b, 32) {
        Some(v) => v,
        None => {
            return None;
        },
    };
    if n64 > ((blen - 64) / 32) as u64 {
        proof {
            assert(64 + 32 * be_val(word_at(b@, 32)) > b@.len());
        }
        return None;
    }
    let n = n64 as usize;
    proof {
        assert(64 + 32 * (n as nat) <= b@.len());
    }
    let mut tail: usize = 64 + 32 * n;
    let mut acc: Vec<SubResult> = Vec::new();
    let ghost nn = n as nat;
    proof {
        match parse_items(b@, nn, 0, (64 + 32 * nn) as nat) {
            Some(rest) => {
                assert(subs_views(acc@) + rest =~= rest);
            },
            None => {},
        }
        assert(parse_response(b@) == opt_prepend(
            subs_views(acc@),
            parse_items(b@, nn, 0, (64 + 32 * nn) as nat),
        ));
    }
    let mut i: usize = 0;
    while i < n
        invariant
            i <= n,
            64 + 32 * n <= tail <= blen,
            blen == b@.len(),
            parse_response(b@) == opt_prepend(
                subs_views(acc@),
                parse_items(b@, nn, i as nat, tail as nat),
            ),
        decreases n - i,
    {
        let (sub, next_tail) = match decode_sub(b, blen, n, i, tail) {
            Some(p) => p,
            None => {
                return None;
            },
        };
        let ghost old_acc = acc@;
        let ghost item = (sub.success, sub.return_data@);
        acc.push(sub);
        proof {
            assert(subs_views(acc@) =~= subs_views(old_acc).push(item));
            match parse_items(b@, nn, (i + 1) as nat, next_tail as nat) {
                Some(rest) => {
                    assert(subs_views(old_acc).push(item) + rest =~= subs_views(old_acc) + (seq![
                        item,
                    ] + rest));
                },
                None => {},
            }
        }
        tail = next_tail;
        i += 1;
    }
    if tail != blen {
        return None;
    }
    proof {
        match parse_items(b@, nn, nn, tail as nat) {
            Some(rest) => {
                assert(subs_views(acc@) + rest =~= subs_views(acc@));
            },
            None => {},
        }
    }
    Some(acc)
}

/// What the return bytes of one successful quote sub-call carry: a strict
/// existence flag and the two price words.
pub open spec fn quote_ret_parse(b: Seq<u8>) -> Option<(bool, Seq<u8>, Seq<u8>)> {
    if b.len() == 96 && (word_at(b, 0) == word64(0) || word_at(b, 0) == word64(1)) {
        Some((word_at(b, 0) == word64(1), word_at(b, 32), word_at(b, 64)))
    } else {
        None
    }
}

/// Law: the canonical return bytes of a quote sub-call parse back to
/// exactly the existence flag and the two price words they were built
/// from — an existing order's flag and prices are never misread, and a
/// missing order's flag never reads as existing.
pub proof fn lemma_quote_return_round_trip(
    exists_flag: bool,
    max_output: Seq<u8>,
    ratio: Seq<u8>,
)
    requires
        max_output.len() == 32,
        ratio.len() == 32,
    ensures
        quote_ret_parse(bool_word(exists_flag) + max_output + ratio) == Some(
            (exists_flag, max_output, ratio),
        ),
{
    let b = bool_word(exists_flag) + max_output + ratio;
    lemma_word64_val(0u64);
    lemma_word64_val(1u64);
    assert(b.len() == 96);
    assert(word_at(b, 0) =~= bool_word(exists_flag));
    assert(word_at(b, 32) =~= max_output);
    assert(word_at(b, 64) =~= ratio);
    if exists_flag {
        assert(word_at(b, 0) == word64(1));
        assert(word64(0) != word64(1));
    } else {
        assert(word_at(b, 0) == word64(0));
        assert(word64(0) != word64(1));
    }
}

/// The detail attached to a successful sub-call whose bytes do not decode.
pub open spec fn corrupt_text() -> Seq<char> {
    "invalid quote return data"@
}

/// The one outcome owed for a sub-result: a price for a successful call on
/// an existing order, and a tagged failure for everything else.
pub open spec fn outcome_ok(
    success: bool,
    data: Seq<u8>,
    entries: Seq<crate::revert::RegistryEntry>,
    r: QuoteResult,
) -> bool {
    if success {
        match quote_ret_parse(data) {
            Some(t) => if t.0 {
                match r {
                    Ok(q) => q.max_output@ == t.1 && q.ratio@ == t.2,
                    Err(_) => false,
                }
            } else {
                r matches Err(FailedQuote::NonExistent)
            },
            None => r matches Err(FailedQuote::CorruptReturnData(m)) && m@ == corrupt_text(),
        }
    } else {
        match revert_decode_spec(data, entries) {
            Ok(v) => r matches Err(FailedQuote::RevertError(e)) && decoded_matches(e, v),
            Err(err) => r matches Err(FailedQuote::RevertErrorDecodeFailed(x)) && x == err,
        }
    }
}

/// Builds the canonical return bytes of one quote sub-call.
pub fn encode_quote_return(exists: bool, max_output: &Word256, ratio: &Word256) -> (r: Vec<u8>)
    ensures
        r@ == bool_word(exists) + max_output@ + ratio@,
{
    let mut out: Vec<u8> = Vec::new();
    push_word_u64(&mut out, if exists {
        1
    } else {
        0
    });
    push_word(&mut out, max_output);
    push_word(&mut out, ratio);
    out
}

/// Classifies one sub-result into its outcome.
fn classify_sub(s: &SubResult, registry: &SelectorRegistry) -> (r: QuoteResult)
    ensures
        outcome_ok(s.success, s.return_data@, registry.entries@, r),
{
    proof {
        assert(word64(0u64) != word64(1u64)) by {
            lemma_word64_val(0u64);
            lemma_word64_val(1u64);
        }
    }
    if s.success {
        if s.return_data.len() != 96 {
            return Err(FailedQuote::CorruptReturnData(String::from_str(
                "invalid quote return data",
            )));
        }
        match read_bool_at(&s.return_data, 0) {
            None => Err(FailedQuote::CorruptReturnData(String::from_str(
                "invalid quote return data",
            ))),
            Some(exists_flag) => {
                if exists_flag {
                    let max_output = read_word_at(&s.return_data, 32);
                    let ratio = read_word_at(&s.return_data, 64);
                    Ok(OrderQuote { max_output, ratio })
                } else {
                    Err(FailedQuote::NonExistent)
                }
            },
        }
    } else {
        match crate::revert::decode_revert(&s.return_data, registry) {
            Ok(e) => Err(FailedQuote::RevertError(e)),
            Err(err) => Err(FailedQuote::RevertErrorDecodeFailed(err)),
        }
    }
}

/// Classifies the aggregator's response for the given targets: the whole
/// batch fails only where the response itself does not parse or does not
/// carry one sub-result per target; otherwise every target gets exactly one
/// outcome, in input order.
#[verifier::loop_isolation(false)]
pub fn multi_quote(
    quote_targets: &Vec<QuoteTarget>,
    response: &Vec<u8>,
    registry: &SelectorRegistry,
) -> (r: Result<Vec<QuoteResult>, MultiQuoteError>)
    ensures
        match r {
            Ok(v) => parse_response(response@) matches Some(subs) && subs.len()
                == quote_targets@.len() && v@.len() == quote_targets@.len() && forall|i: int|
                0 <= i < v@.len() ==> #[trigger] outcome_ok(
                    subs[i].0,
                    subs[i].1,
                    registry.entries@,
                    v@[i],
                ),
            Err(_) => !(parse_response(response@) matches Some(subs) && subs.len()
                == quote_targets@.len()),
        },
{
    let subs = match decode_multicall_response(response) {
        Some(v) => v,
        None => {
            return Err(MultiQuoteError::InvalidResponse);
        },
    };
    if subs.len() != quote_targets.len() {
        return Err(MultiQuoteError::InvalidResponse);
    }
    let mut out: Vec<QuoteResult> = Vec::new();
    let mut i: usize = 0;
    while i < subs.len()
        invariant
            i <= subs@.len(),
            out@.len() == i,
            forall|k: int|
                0 <= k < i ==> #[trigger] outcome_ok(
                    subs@[k].success,
                    subs@[k].return_data@,
                    registry.entries@,
                    out@[k],
                ),
        decreases subs@.len() - i,
    {
        let outcome = classify_sub(&subs[i], registry);
        out.push(outcome);
        i += 1;
    }
    proof {
        let views = subs_views(subs@);
        assert(forall|k: int|
            0 <= k < views.len() ==> views[k] == (subs@[k].success, subs@[k].return_data@));
    }
    Ok(out)
}

/// Padding rounds up by less than a word.
proof fn lemma_pad32_bounds(n: nat)
    ensures
        n <= pad32(n) < n + 32,
{
    vstd::arithmetic::div_mod::lemma_fundamental_div_mod((n + 31) as int, 32);
}

/// One sub-result tail is as long as its size says.
proof fn lemma_sub_bytes_len(s: (bool, Seq<u8>))
    ensures
        sub_bytes(s).len() == sub_size(s),
{
    lemma_pad32_bounds(s.1.len());
}

/// The concatenated tails are as long as their summed size.
proof fn lemma_subs_tails_len(rs: Seq<(bool, Seq<u8>)>)
    ensures
        subs_tails(rs).len() == subs_tails_size(rs),
    decreases rs.len(),
{
    if rs.len() > 0 {
        lemma_subs_tails_len(rs.drop_last());
        lemma_sub_bytes_len(rs.last());
    }
}

/// The offset table holds one word per sub-result.
proof fn lemma_subs_offsets_len(n: nat, rs: Seq<(bool, Seq<u8>)>)
    ensures
        subs_offsets(n, rs).len() == 32 * rs.len(),
    decreases rs.len(),
{
    if rs.len() > 0 {
        lemma_subs_offsets_len(n, rs.drop_last());
    }
}

/// Entry `i` of the offset table points at tail `i`.
proof fn lemma_subs_offsets_entry(n: nat, rs: Seq<(bool, Seq<u8>)>, i: int)
    requires
        0 <= i < rs.len(),
    ensures
        subs_offsets(n, rs).subrange(32 * i, 32 * i + 32) =~= word64(
            (32 * n + subs_tails_size(rs.subrange(0, i))) as u64,
        ),
    decreases rs.len(),
{
    lemma_subs_offsets_len(n, rs.drop_last());
    if i == rs.len() - 1 {
        assert(rs.drop_last() =~= rs.subrange(0, i));
        assert(subs_offsets(n, rs).subrange(32 * i, 32 * i + 32) =~= word64(
            (32 * n + subs_tails_size(rs.drop_last())) as u64,
        ));
    } else {
        lemma_subs_offsets_entry(n, rs.drop_last(), i);
        assert(rs.drop_last().subrange(0, i) =~= rs.subrange(0, i));
        assert(subs_offsets(n, rs).subrange(32 * i, 32 * i + 32) =~= subs_offsets(
            n,
            rs.drop_last(),
        ).subrange(32 * i, 32 * i + 32));
    }
}

/// Block `i` of the concatenated tails is sub-result `i`'s tail.
proof fn lemma_subs_tails_block(rs: Seq<(bool, Seq<u8>)>, i: int)
    requires
        0 <= i < rs.len(),
    ensures
        subs_tails(rs).subrange(
            subs_tails_size(rs.subrange(0, i)) as int,
            (subs_tails_size(rs.subrange(0, i)) + sub_size(rs[i])) as int,
        ) =~= sub_bytes(rs[i]),
    decreases rs.len(),
{
    lemma_subs_tails_len(rs.drop_last());
    lemma_sub_bytes_len(rs.last());
    if i == rs.len() - 1 {
        assert(rs.drop_last() =~= rs.subrange(0, i));
        assert(subs_tails(rs).subrange(
            subs_tails_size(rs.drop_last()) as int,
            (subs_tails_size(rs.drop_last()) + sub_size(rs.last())) as int,
        ) =~= sub_bytes(rs.last()));
    } else {
        lemma_subs_tails_block(rs.drop_last(), i);
        assert(rs.drop_last().subrange(0, i) =~= rs.subrange(0, i));
        lemma_subs_tails_size_take(rs.drop_last(), i + 1);
        assert(rs.drop_last().subrange(0, i + 1) =~= rs.subrange(0, i + 1));
        assert(subs_tails_size(rs.subrange(0, i)) + sub_size(rs[i]) == subs_tails_size(
            rs.subrange(0, i + 1),
        )) by {
            assert(rs.subrange(0, i + 1).drop_last() =~= rs.subrange(0, i));
        }
        assert(subs_tails(rs).subrange(
            subs_tails_size(rs.subrange(0, i)) as int,
            (subs_tails_size(rs.subrange(0, i)) + sub_size(rs[i])) as int,
        ) =~= subs_tails(rs.drop_last()).subrange(
            subs_tails_size(rs.subrange(0, i)) as int,
            (subs_tails_size(rs.subrange(0, i)) + sub_size(rs[i])) as int,
        ));
    }
}

/// Items `i` on of a canonical response parse back to the sub-results they
/// were built from.
#[verifier::rlimit(100)]
proof fn lemma_parse_items_round(m: Seq<(bool, Seq<u8>)>, i: int)
    requires
        0 <= i <= m.len(),
        m.len() < 0x100_0000,
        subs_tails_size(m) + 32 * m.len() < 0x4000_0000,
    ensures
        parse_items(
            response_bytes(m),
            m.len() as nat,
            i as nat,
            (64 + 32 * m.len() + subs_tails_size(m.subrange(0, i))) as nat,
        ) == Some(m.subrange(i, m.len() as int)),
    decreases m.len() - i,
{
    let b = response_bytes(m);
    let n = m.len() as int;
    let head = word64(0x20) + word64(m.len() as u64);
    let offsets = subs_offsets(m.len() as nat, m);
    let tails = subs_tails(m);
    lemma_subs_offsets_len(m.len() as nat, m);
    lemma_subs_tails_len(m);
    assert(m.subrange(0, n) =~= m);
    lemma_subs_tails_size_take(m, i);
    assert(b =~= head + offsets + tails);
    assert(b.len() == 64 + 32 * n + subs_tails_size(m));
    let tail = 64 + 32 * n + subs_tails_size(m.subrange(0, i)) as int;
    if i == n {
        assert(tail == b.len());
        assert(m.subrange(n, n) =~= Seq::<(bool, Seq<u8>)>::empty());
    } else {
        // the offset word for item i
        lemma_subs_offsets_entry(m.len() as nat, m, i);
        assert(word_at(b, 64 + 32 * i) =~= offsets.subrange(32 * i, 32 * i + 32));
        assert(word_at(b, 64 + 32 * i) == word64((tail - 64) as u64));
        // this item's block of the tails
        lemma_subs_tails_block(m, i);
        lemma_sub_bytes_len(m[i]);
        lemma_subs_tails_size_take(m, i + 1);
        assert(subs_tails_size(m.subrange(0, i)) + sub_size(m[i]) == subs_tails_size(
            m.subrange(0, i + 1),
        )) by {
            assert(m.subrange(0, i + 1).drop_last() =~= m.subrange(0, i));
        }
        let ts = subs_tails_size(m.subrange(0, i)) as int;
        let block = tails.subrange(ts, ts + sub_size(m[i]) as int);
        let len = m[i].1.len();
        lemma_pad32_bounds(len);
        assert(tail + 96 + pad32(len) <= b.len());
        // the block's own words
        assert(word_at(b, tail) =~= block.subrange(0, 32));
        assert(block.subrange(0, 32) =~= bool_word(m[i].0));
        assert(word_at(b, tail + 32) =~= block.subrange(32, 64));
        assert(block.subrange(32, 64) =~= word64(0x40));
        assert(word_at(b, tail + 64) =~= block.subrange(64, 96));
        assert(block.subrange(64, 96) =~= word64(len as u64));
        lemma_word64_val(0u64);
        lemma_word64_val(1u64);
        lemma_word64_val(0x40u64);
        lemma_word64_val(len as u64);
        assert(word64(0u64) != word64(1u64));
        assert(b.subrange(tail + 96, tail + 96 + len as int) =~= block.subrange(
            96,
            96 + len as int,
        ));
        assert(block.subrange(96, 96 + len as int) =~= m[i].1);
        assert(b.subrange(tail + 96 + len as int, tail + 96 + pad32(len) as int) =~= block.subrange(
            96 + len as int,
            96 + pad32(len) as int,
        ));
        assert(block.subrange(96 + len as int, 96 + pad32(len) as int) =~= zeros(
            (pad32(len) - len) as nat,
        ));
        let item = (
            word_at(b, tail) == word64(1),
            b.subrange(tail + 96, tail + 96 + len as int),
        );
        assert(item == m[i]);
        lemma_parse_items_round(m, i + 1);
        assert(tail + 96 + pad32(len) == 64 + 32 * n + subs_tails_size(m.subrange(0, i + 1)));
        assert(seq![m[i]] + m.subrange(i + 1, n) =~= m.subrange(i, n));
    }
}

/// Law: a canonical response parses back to exactly the sub-results it was
/// built from — one per target, in input order, whatever mix of successes
/// and failures they carry.
pub proof fn lemma_response_round_trip(m: Seq<(bool, Seq<u8>)>)
    requires
        m.len() < 0x100_0000,
        subs_tails_size(m) + 32 * m.len() < 0x4000_0000,
    ensures
        parse_response(response_bytes(m)) == Some(m),
{
    let b = response_bytes(m);
    let n = m.len() as int;
    let head = word64(0x20) + word64(m.len() as u64);
    let offsets = subs_offsets(m.len() as nat, m);
    let tails = subs_tails(m);
    lemma_subs_offsets_len(m.len() as nat, m);
    lemma_subs_tails_len(m);
    assert(b =~= head + offsets + tails);
    assert(b.len() == 64 + 32 * n + subs_tails_size(m));
    assert(word_at(b, 0) =~= word64(0x20));
    assert(word_at(b, 32) =~= word64(m.len() as u64));
    lemma_word64_val(0x20u64);
    lemma_word64_val(m.len() as u64);
    assert(m.subrange(0, 0) =~= Seq::<(bool, Seq<u8>)>::empty());
    lemma_parse_items_round(m, 0);
    assert(m.subrange(0, n) =~= m);
}

} // verus!
