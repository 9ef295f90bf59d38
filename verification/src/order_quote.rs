//! Batch order pricing: enumerates every input/output pair of each order,
//! builds the quote targets from the order's hash and orderbook address, and
//! assembles one response per pair from the batch outcomes, in input order.

use vstd::prelude::*;
use vstd::arithmetic::div_mod::lemma_fundamental_div_mod_converse;
use vstd::string::{StrSliceExecFns, StringExecFns};
use crate::address::Address;
use crate::bytes32::Word256;
use crate::quote::{FailedQuote, OrderQuote, QuoteResult, QuoteTarget};
use crate::subgraph::Order;

verus! {

/// One priced pair for the caller: the pair's name and either its quote or
/// the failure, as data.
#[derive(Debug)]
pub struct BatchOrderQuotesResponse {
    pub pair_name: String,
    pub data: Option<OrderQuote>,
    pub success: bool,
    pub error: Option<String>,
}

/// Whether a character is a hexadecimal digit.
pub open spec fn is_hex_digit(c: char) -> bool {
    ('0' <= c && c <= '9') || ('a' <= c && c <= 'f') || ('A' <= c && c <= 'F')
}

/// The value of a hexadecimal digit.
pub open spec fn hex_val(c: char) -> nat {
    if '0' <= c && c <= '9' {
        (c as nat - '0' as nat) as nat
    } else if 'a' <= c && c <= 'f' {
        (c as nat - 'a' as nat + 10) as nat
    } else {
        (c as nat - 'A' as nat + 10) as nat
    }
}

/// A well-formed order hash rendering: `0x`, then 1 to 64 hex digits.
pub open spec fn valid_hex_hash(s: Seq<char>) -> bool {
    &&& 3 <= s.len() <= 66
    &&& s[0] == '0'
    &&& s[1] == 'x'
    &&& forall|i: int| 2 <= i < s.len() ==> is_hex_digit(#[trigger] s[i])
}

/// A well-formed address rendering: `0x`, then exactly 40 hex digits.
pub open spec fn valid_hex_address(s: Seq<char>) -> bool {
    &&& s.len() == 42
    &&& s[0] == '0'
    &&& s[1] == 'x'
    &&& forall|i: int| 2 <= i < s.len() ==> is_hex_digit(#[trigger] s[i])
}

/// Nibble `j` of the 64-nibble value a hash rendering carries, the digits
/// right-aligned and the rest zero.
pub open spec fn hash_nibble(s: Seq<char>, j: int) -> nat {
    let m = s.len() - 2;
    if j < 64 - m {
        0nat
    } else {
        hex_val(s[2 + j - (64 - m)])
    }
}

/// The 32 bytes a hash rendering carries.
pub open spec fn hash_word_bytes(s: Seq<char>) -> Seq<u8> {
    Seq::new(32, |i: int| (hash_nibble(s, 2 * i) * 16 + hash_nibble(s, 2 * i + 1)) as u8)
}

/// The 20 bytes an address rendering carries.
pub open spec fn address_bytes_of(s: Seq<char>) -> Seq<u8> {
    Seq::new(20, |i: int| (hex_val(s[2 + 2 * i]) * 16 + hex_val(s[2 + 2 * i + 1])) as u8)
}

/// The value of a hexadecimal digit, or nothing for another character.
fn nibble_of(c: char) -> (r: Option<u8>)
    ensures
        match r {
            Some(v) => is_hex_digit(c) && v == hex_val(c) && v < 16,
            None => !is_hex_digit(c),
        },
{
    if '0' <= c && c <= '9' {
        Some((c as u8) - ('0' as u8))
    } else if 'a' <= c && c <= 'f' {
        Some((c as u8) - ('a' as u8) + 10)
    } else if 'A' <= c && c <= 'F' {
        Some((c as u8) - ('A' as u8) + 10)
    } else {
        None
    }
}

/// Reads the hex digits after the `0x` prefix, or nothing where the text is
/// not a prefixed digit string of an accepted length.
#[verifier::loop_isolation(false)]
fn read_hex_digits(s: &String, min_len: usize, max_len: usize) -> (r: Option<Vec<u8>>)
    requires
        3 <= min_len,
        min_len <= max_len,
    ensures
        match r {
            Some(v) => {
                &&& min_len <= s@.len() <= max_len
                &&& s@[0] == '0'
                &&& s@[1] == 'x'
                &&& v@.len() == s@.len() - 2
                &&& forall|i: int|
                    2 <= i < s@.len() ==> is_hex_digit(#[trigger] s@[i]) && v@[i - 2] == hex_val(
                        s@[i],
                    ) && v@[i - 2] < 16
            },
            None => !(min_len <= s@.len() <= max_len && s@[0] == '0' && s@[1] == 'x' && forall|
                i: int,
            | 2 <= i < s@.len() ==> is_hex_digit(#[trigger] s@[i])),
        },
{
    let st = s.as_str();
    let n = st.unicode_len();
    if n < min_len || n > max_len {
        return None;
    }
    if st.get_char(0) != '0' || st.get_char(1) != 'x' {
        return None;
    }
    let mut v: Vec<u8> = Vec::new();
    let mut i: usize = 2;
    while i < n
        invariant
            2 <= i <= n,
            v@.len() == i - 2,
            forall|k: int|
                2 <= k < i ==> is_hex_digit(#[trigger] s@[k]) && v@[k - 2] == hex_val(s@[k])
                    && v@[k - 2] < 16,
        decreases n - i,
    {
        let c = st.get_char(i);
        match nibble_of(c) {
            Some(d) => {
                v.push(d);
                proof {
                    assert(s@[i as int] == c);
                    assert(v@[i as int - 2] == d);
                }
            },
            None => {
                return None;
            },
        }
        i += 1;
    }
    Some(v)
}

/// Parses an order hash rendering into its 32-byte word.
#[verifier::loop_isolation(false)]
pub fn parse_order_hash(s: &String) -> (r: Option<Word256>)
    ensures
        match r {
            Some(w) => valid_hex_hash(s@) && w@ == hash_word_bytes(s@),
            None => !valid_hex_hash(s@),
        },
{
    let digits = match read_hex_digits(s, 3, 66) {
        Some(v) => v,
        None => {
            return None;
        },
    };
    let m = digits.len();
    let pad: usize = 64 - m;
    let mut bytes: Vec<u8> = Vec::new();
    let mut i: usize = 0;
    while i < 32
        invariant
            i <= 32,
            m == digits@.len() == s@.len() - 2,
            pad == 64 - m,
            bytes@.len() == i,
            forall|k: int| 0 <= k < i ==> bytes@[k] == hash_word_bytes(s@)[k],
        decreases 32 - i,
    {
        let hi: u8 = if 2 * i < pad {
            0
        } else {
            digits[2 * i - pad]
        };
        let lo: u8 = if 2 * i + 1 < pad {
            0
        } else {
            digits[2 * i + 1 - pad]
        };
        proof {
            let mi = s@.len() - 2;
            if 2 * i >= pad {
                assert(digits@[2 * (i as int) - pad] == hex_val(s@[2 * (i as int) - pad + 2]));
                assert(2 + 2 * (i as int) - (64 - mi) == 2 * (i as int) - pad + 2);
            }
            if 2 * i + 1 >= pad {
                assert(digits@[2 * (i as int) + 1 - pad] == hex_val(
                    s@[2 * (i as int) + 1 - pad + 2],
                ));
                assert(2 + (2 * (i as int) + 1) - (64 - mi) == 2 * (i as int) + 1 - pad + 2);
            }
            assert(hi == hash_nibble(s@, 2 * (i as int)) && hi < 16);
            assert(lo == hash_nibble(s@, 2 * (i as int) + 1) && lo < 16);
        }
        bytes.push(hi * 16 + lo);
        proof {
            assert(bytes@[i as int] == hash_word_bytes(s@)[i as int]);
        }
        i += 1;
    }
    proof {
        assert(bytes@ =~= hash_word_bytes(s@));
    }
    Some(Word256::from_bytes(bytes))
}

/// Parses an address rendering into its 20 bytes.
#[verifier::loop_isolation(false)]
pub fn parse_hex_address(s: &String) -> (r: Option<Address>)
    ensures
        match r {
            Some(a) => valid_hex_address(s@) && a@ == address_bytes_of(s@),
            None => !valid_hex_address(s@),
        },
{
    let digits = match read_hex_digits(s, 42, 42) {
        Some(v) => v,
        None => {
            return None;
        },
    };
    let mut bytes: Vec<u8> = Vec::new();
    let mut i: usize = 0;
    while i < 20
        invariant
            i <= 20,
            digits@.len() == 40,
            s@.len() == 42,
            bytes@.len() == i,
            forall|k: int| 0 <= k < i ==> bytes@[k] == address_bytes_of(s@)[k],
        decreases 20 - i,
    {
        let hi = digits[2 * i];
        let lo = digits[2 * i + 1];
        proof {
            assert(hi == hex_val(s@[2 + 2 * (i as int)]) && hi < 16);
            assert(lo == hex_val(s@[2 + 2 * (i as int) + 1]) && lo < 16);
        }
        bytes.push(hi * 16 + lo);
        proof {
            assert(bytes@[i as int] == address_bytes_of(s@)[i as int]);
        }
        i += 1;
    }
    proof {
        assert(bytes@ =~= address_bytes_of(s@));
    }
    Some(Address::from_bytes(bytes))
}

/// The display name of a token: its symbol, or a fixed placeholder.
pub open spec fn symbol_text(sym: Option<String>) -> Seq<char> {
    match sym {
        Some(x) => x@,
        None => "UNKNOWN"@,
    }
}

/// The pair name for input `i` against output `j` of an order.
pub open spec fn pair_text(o: Order, i: int, j: int) -> Seq<char> {
    symbol_text(o.inputs@[i].token.symbol) + "/"@ + symbol_text(o.outputs@[j].token.symbol)
}

/// One input/output pair of an order, named.
#[derive(Debug)]
pub struct QuotePair {
    pub pair_name: String,
    pub input_index: usize,
    pub output_index: usize,
}

/// The pair at position `k` of the input-major enumeration.
pub open spec fn pair_ok(o: Order, k: int, p: QuotePair) -> bool {
    let m = o.outputs@.len() as int;
    &&& p.input_index == k / m
    &&& p.output_index == k % m
    &&& p.pair_name@ == pair_text(o, k / m, k % m)
}

/// Enumerates every input/output pair of an order, input-major: each input's
/// pairs against every output, in output order.
#[verifier::loop_isolation(false)]
pub fn order_pairs(order: &Order) -> (r: Vec<QuotePair>)
    requires
        order.inputs@.len() * order.outputs@.len() < 0x4000_0000,
    ensures
        r@.len() == order.inputs@.len() * order.outputs@.len(),
        forall|k: int| 0 <= k < r@.len() ==> pair_ok(*order, k, #[trigger] r@[k]),
{
    let n = order.inputs.len();
    let m = order.outputs.len();
    let mut out: Vec<QuotePair> = Vec::new();
    let mut i: usize = 0;
    while i < n
        invariant
            i <= n,
            n == order.inputs@.len(),
            m == order.outputs@.len(),
            out@.len() == i * m,
            forall|k: int| 0 <= k < out@.len() ==> pair_ok(*order, k, #[trigger] out@[k]),
        decreases n - i,
    {
        let mut j: usize = 0;
        proof {
            assert((i + 1) * m == i * m + m) by (nonlinear_arith);
            assert(i * m + m <= n * m) by (nonlinear_arith)
                requires
                    i < n,
                    0 <= m,
            ;
        }
        while j < m
            invariant
                j <= m,
                i < n,
                n == order.inputs@.len(),
                m == order.outputs@.len(),
                out@.len() == i * m + j,
                forall|k: int| 0 <= k < out@.len() ==> pair_ok(*order, k, #[trigger] out@[k]),
            decreases m - j,
        {
            let input_sym: String = match &order.inputs[i].token.symbol {
                Some(x) => x.clone(),
                None => String::from_str("UNKNOWN"),
            };
            let output_sym: String = match &order.outputs[j].token.symbol {
                Some(x) => x.clone(),
                None => String::from_str("UNKNOWN"),
            };
            let mut pair_name = input_sym;
            pair_name.append("/");
            pair_name.append(output_sym.as_str());
            proof {
                assert(pair_name@ == pair_text(*order, i as int, j as int));
            }
            let ghost k = out@.len() as int;
            out.push(QuotePair { pair_name, input_index: i, output_index: j });
            proof {
                lemma_fundamental_div_mod_converse(k, m as int, i as int, j as int);
                assert(pair_ok(*order, k, out@[k]));
            }
            j += 1;
        }
        i += 1;
    }
    proof {
        assert(out@.len() == n * m);
    }
    out
}

/// Why a batch could not even be built.
#[derive(Clone, Copy, Debug, PartialEq, Eq, Structural)]
pub enum BatchQuoteError {
    /// An order's orderbook field is not an address rendering.
    InvalidOrderbookAddress,
    /// An order's hash field is not a hash rendering.
    InvalidOrderHash,
}

/// Builds the quote target for each pair of an order: the orderbook address
/// and order hash parsed from the order's fields, the pair's vault indices,
/// and no signed context.
#[verifier::loop_isolation(false)]
pub fn order_quote_targets(order: &Order, pairs: &Vec<QuotePair>) -> (r: Result<
    Vec<QuoteTarget>,
    BatchQuoteError,
>)
    ensures
        match r {
            Ok(v) => {
                &&& valid_hex_address(order.orderbook.id.0@)
                &&& valid_hex_hash(order.order_hash.0@)
                &&& v@.len() == pairs@.len()
                &&& forall|k: int|
                    0 <= k < v@.len() ==> {
                        &&& (#[trigger] v@[k]).orderbook@ == address_bytes_of(
                            order.orderbook.id.0@,
                        )
                        &&& v@[k].order_hash@ == hash_word_bytes(order.order_hash.0@)
                        &&& v@[k].input_io_index == (pairs@[k].input_index % 256) as u8
                        &&& v@[k].output_io_index == (pairs@[k].output_index % 256) as u8
                        &&& v@[k].signed_context@.len() == 0
                    }
            },
            Err(BatchQuoteError::InvalidOrderbookAddress) => !valid_hex_address(
                order.orderbook.id.0@,
            ),
            Err(BatchQuoteError::InvalidOrderHash) => valid_hex_address(order.orderbook.id.0@)
                && !valid_hex_hash(order.order_hash.0@),
        },
{
    let orderbook = match parse_hex_address(&order.orderbook.id.0) {
        Some(a) => a,
        None => {
            return Err(BatchQuoteError::InvalidOrderbookAddress);
        },
    };
    let order_hash = match parse_order_hash(&order.order_hash.0) {
        Some(w) => w,
        None => {
            return Err(BatchQuoteError::InvalidOrderHash);
        },
    };
    let mut out: Vec<QuoteTarget> = Vec::new();
    let n = pairs.len();
    let mut k: usize = 0;
    while k < n
        invariant
            k <= n,
            n == pairs@.len(),
            orderbook@ == address_bytes_of(order.orderbook.id.0@),
            order_hash@ == hash_word_bytes(order.order_hash.0@),
            out@.len() == k,
            forall|t: int|
                0 <= t < k ==> {
                    &&& (#[trigger] out@[t]).orderbook@ == address_bytes_of(order.orderbook.id.0@)
                    &&& out@[t].order_hash@ == hash_word_bytes(order.order_hash.0@)
                    &&& out@[t].input_io_index == (pairs@[t].input_index % 256) as u8
                    &&& out@[t].output_io_index == (pairs@[t].output_index % 256) as u8
                    &&& out@[t].signed_context@.len() == 0
                },
        decreases n - k,
    {
        let p = &pairs[k];
        out.push(
            QuoteTarget {
                orderbook: orderbook.clone(),
                order_hash: order_hash.clone(),
                input_io_index: (p.input_index % 256) as u8,
                output_io_index: (p.output_index % 256) as u8,
                signed_context: Vec::new(),
            },
        );
        k += 1;
    }
    Ok(out)
}

/// The message attached to one failed quote.
pub open spec fn failed_quote_text(e: FailedQuote) -> Seq<char> {
    match e {
        FailedQuote::NonExistent => "order does not exist"@,
        FailedQuote::CorruptReturnData(m) => "corrupt quote return data: "@ + m@,
        FailedQuote::RevertError(err) => "quote reverted: "@ + err.sig@,
        FailedQuote::RevertErrorDecodeFailed(_) => "quote reverted undecodably"@,
    }
}

impl FailedQuote {
    /// Renders the failure for the caller.
    pub fn message(self) -> (r: String)
        ensures
            r@ == failed_quote_text(self),
    {
        match self {
            FailedQuote::NonExistent => String::from_str("order does not exist"),
            FailedQuote::CorruptReturnData(m) => {
                let mut out = String::from_str("corrupt quote return data: ");
                out.append(m.as_str());
                out
            },
            FailedQuote::RevertError(err) => {
                let mut out = String::from_str("quote reverted: ");
                out.append(err.sig.as_str());
                out
            },
            FailedQuote::RevertErrorDecodeFailed(_) => String::from_str(
                "quote reverted undecodably",
            ),
        }
    }
}

/// The one response owed for pair `k` given its own outcome.
pub open spec fn response_ok(
    o: Order,
    k: int,
    outcome: QuoteResult,
    resp: BatchOrderQuotesResponse,
) -> bool {
    let m = o.outputs@.len() as int;
    &&& resp.pair_name@ == pair_text(o, k / m, k % m)
    &&& match outcome {
        Ok(q) => resp.success == true && resp.data == Some(q) && resp.error is None,
        Err(e) => resp.success == false && resp.data is None && (resp.error matches Some(msg)
            && msg@ == failed_quote_text(e)),
    }
}

/// The one response owed for pair `k` where the order's whole batch failed.
pub open spec fn failed_response_ok(
    o: Order,
    k: int,
    message: Seq<char>,
    resp: BatchOrderQuotesResponse,
) -> bool {
    let m = o.outputs@.len() as int;
    &&& resp.pair_name@ == pair_text(o, k / m, k % m)
    &&& resp.success == false
    &&& resp.data is None
    &&& resp.error matches Some(msg) && msg@ == message
}

/// Assembles an order's responses: one per pair, in pair order, each built
/// from its own outcome; where the whole round trip failed, every pair gets
/// the failure as data.
#[verifier::loop_isolation(false)]
pub fn order_quote_responses(
    order: &Order,
    pairs: Vec<QuotePair>,
    outcomes: Result<Vec<QuoteResult>, String>,
) -> (r: Vec<BatchOrderQuotesResponse>)
    requires
        forall|k: int| 0 <= k < pairs@.len() ==> pair_ok(*order, k, #[trigger] pairs@[k]),
        outcomes matches Ok(v) ==> v@.len() == pairs@.len(),
    ensures
        r@.len() == pairs@.len(),
        forall|k: int|
            0 <= k < r@.len() ==> match outcomes {
                Ok(v) => response_ok(*order, k, v@[k], #[trigger] r@[k]),
                Err(e) => failed_response_ok(*order, k, e@, r@[k]),
            },
{
    let ghost pairs0 = pairs@;
    let mut rest = pairs;
    let mut out: Vec<BatchOrderQuotesResponse> = Vec::new();
    let n = rest.len();
    match outcomes {
        Ok(values) => {
            let ghost values0 = values@;
            let mut vrest = values;
            let mut k: usize = 0;
            while k < n
                invariant
                    k <= n,
                    n == pairs0.len(),
                    values0.len() == pairs0.len(),
                    rest@ =~= pairs0.subrange(k as int, n as int),
                    vrest@ =~= values0.subrange(k as int, n as int),
                    out@.len() == k,
                    forall|t: int|
                        0 <= t < k ==> response_ok(*order, t, values0[t], #[trigger] out@[t]),
                decreases n - k,
            {
                let p = rest.remove(0);
                let v = vrest.remove(0);
                proof {
                    assert(p == pairs0[k as int]);
                    assert(v == values0[k as int]);
                    assert(rest@ =~= pairs0.subrange(k + 1, n as int));
                    assert(vrest@ =~= values0.subrange(k + 1, n as int));
                }
                let resp = match v {
                    Ok(q) => BatchOrderQuotesResponse {
                        pair_name: p.pair_name,
                        data: Some(q),
                        success: true,
                        error: None,
                    },
                    Err(e) => BatchOrderQuotesResponse {
                        pair_name: p.pair_name,
                        data: None,
                        success: false,
                        error: Some(e.message()),
                    },
                };
                out.push(resp);
                k += 1;
            }
            out
        },
        Err(message) => {
            let mut k: usize = 0;
            while k < n
                invariant
                    k <= n,
                    n == pairs0.len(),
                    rest@ =~= pairs0.subrange(k as int, n as int),
                    out@.len() == k,
                    forall|t: int|
                        0 <= t < k ==> failed_response_ok(
                            *order,
                            t,
                            message@,
                            #[trigger] out@[t],
                        ),
                decreases n - k,
            {
                let p = rest.remove(0);
                proof {
                    assert(p == pairs0[k as int]);
                    assert(rest@ =~= pairs0.subrange(k + 1, n as int));
                }
                out.push(
                    BatchOrderQuotesResponse {
                        pair_name: p.pair_name,
                        data: None,
                        success: false,
                        error: Some(message.clone()),
                    },
                );
                k += 1;
            }
            out
        },
    }
}

/// The number of pairs the first `i` orders hold together.
pub open spec fn pairs_total(orders: Seq<Order>, i: int) -> nat
    decreases i,
{
    if i <= 0 {
        0nat
    } else {
        pairs_total(orders, i - 1) + orders[i - 1].inputs@.len() * orders[i - 1].outputs@.len()
    }
}

/// The prefix totals never decrease.
proof fn lemma_pairs_total_mono(orders: Seq<Order>, i: int, j: int)
    requires
        0 <= i <= j,
    ensures
        pairs_total(orders, i) <= pairs_total(orders, j),
    decreases j - i,
{
    if i < j {
        lemma_pairs_total_mono(orders, i, j - 1);
    }
}

/// Whether an order's fields cannot be parsed into a quote target.
pub open spec fn order_unquotable(o: Order) -> bool {
    !valid_hex_address(o.orderbook.id.0@) || !valid_hex_hash(o.order_hash.0@)
}

/// Prices every pair of every order from the per-order batch outcomes: the
/// responses come in order-major, pair-minor order, one per pair; an order's
/// failed round trip marks only that order's pairs. The whole call fails
/// only where an order's own fields cannot be parsed.
#[verifier::loop_isolation(false)]
#[verifier::rlimit(100)]
pub fn batch_order_quotes(
    orders: &Vec<Order>,
    per_order: Vec<Result<Vec<QuoteResult>, String>>,
) -> (r: Result<Vec<BatchOrderQuotesResponse>, BatchQuoteError>)
    requires
        per_order@.len() == orders@.len(),
        pairs_total(orders@, orders@.len() as int) < 0x4000_0000,
        forall|i: int|
            0 <= i < orders@.len() ==> (#[trigger] per_order@[i] matches Ok(v) ==> v@.len()
                == orders@[i].inputs@.len() * orders@[i].outputs@.len()),
    ensures
        match r {
            Ok(v) => {
                &&& forall|i: int| 0 <= i < orders@.len() ==> !order_unquotable(#[trigger] orders@[i])
                &&& v@.len() == pairs_total(orders@, orders@.len() as int)
                &&& forall|i: int|
                    0 <= i < orders@.len() ==> order_block_ok(
                        #[trigger] orders@[i],
                        per_order@[i],
                        v@.subrange(
                            pairs_total(orders@, i) as int,
                            pairs_total(orders@, i + 1) as int,
                        ),
                    )
            },
            Err(_) => exists|i: int|
                0 <= i < orders@.len() && order_unquotable(#[trigger] orders@[i]),
        },
{
    let ghost per0 = per_order@;
    let mut rest = per_order;
    let mut out: Vec<BatchOrderQuotesResponse> = Vec::new();
    let n = orders.len();
    let mut i: usize = 0;
    while i < n
        invariant
            i <= n,
            n == orders@.len(),
            per0.len() == n,
            rest@ =~= per0.subrange(i as int, n as int),
            out@.len() == pairs_total(orders@, i as int),
            forall|j: int| 0 <= j < i ==> !order_unquotable(#[trigger] orders@[j]),
            forall|j: int|
                0 <= j < i ==> order_block_ok(
                    #[trigger] orders@[j],
                    per0[j],
                    out@.subrange(
                        pairs_total(orders@, j) as int,
                        pairs_total(orders@, j + 1) as int,
                    ),
                ),
        decreases n - i,
    {
        let order = &orders[i];
        proof {
            lemma_pairs_total_mono(orders@, i as int, n as int);
            lemma_pairs_total_mono(orders@, i + 1, n as int);
            assert(pairs_total(orders@, i + 1) == pairs_total(orders@, i as int)
                + order.inputs@.len() * order.outputs@.len());
        }
        if parse_hex_address(&order.orderbook.id.0).is_none() {
            proof {
                assert(order_unquotable(orders@[i as int]));
            }
            return Err(BatchQuoteError::InvalidOrderbookAddress);
        }
        if parse_order_hash(&order.order_hash.0).is_none() {
            proof {
                assert(order_unquotable(orders@[i as int]));
            }
            return Err(BatchQuoteError::InvalidOrderHash);
        }
        let pairs = order_pairs(order);
        let outcomes = rest.remove(0);
        proof {
            assert(outcomes == per0[i as int]);
            assert(rest@ =~= per0.subrange(i + 1, n as int));
        }
        let block = order_quote_responses(order, pairs, outcomes);
        let ghost out_before = out@;
        let ghost block_view = block@;
        let mut block = block;
        crate::order_quote::append_responses(&mut out, &mut block);
        proof {
            assert(out@ =~= out_before + block_view);
            lemma_blocks_extend(orders@, per0, out_before, block_view, i as int);
        }
        i += 1;
    }
    Ok(out)
}

/// One order's slot of the batch: a response per pair, each from its own
/// outcome, or all marked with the order's failed round trip.
pub open spec fn order_block_ok(
    o: Order,
    outcome: Result<Vec<QuoteResult>, String>,
    rs: Seq<BatchOrderQuotesResponse>,
) -> bool {
    &&& rs.len() == o.inputs@.len() * o.outputs@.len()
    &&& forall|k: int|
        0 <= k < rs.len() ==> match outcome {
            Ok(v) => k < v@.len() && response_ok(o, k, v@[k], #[trigger] rs[k]),
            Err(e) => failed_response_ok(o, k, e@, rs[k]),
        }
}

/// Appending the block of order `i` keeps every earlier block in place and
/// puts the new one in its own slot.
#[verifier::rlimit(100)]
proof fn lemma_blocks_extend(
    orders: Seq<Order>,
    per0: Seq<Result<Vec<QuoteResult>, String>>,
    out_before: Seq<BatchOrderQuotesResponse>,
    block: Seq<BatchOrderQuotesResponse>,
    i: int,
)
    requires
        0 <= i < orders.len(),
        out_before.len() == pairs_total(orders, i),
        block.len() == orders[i].inputs@.len() * orders[i].outputs@.len(),
        forall|j: int|
            0 <= j < i ==> order_block_ok(
                #[trigger] orders[j],
                per0[j],
                out_before.subrange(
                    pairs_total(orders, j) as int,
                    pairs_total(orders, j + 1) as int,
                ),
            ),
        order_block_ok(orders[i], per0[i], block),
    ensures
        forall|j: int|
            0 <= j < i + 1 ==> order_block_ok(
                #[trigger] orders[j],
                per0[j],
                (out_before + block).subrange(
                    pairs_total(orders, j) as int,
                    pairs_total(orders, j + 1) as int,
                ),
            ),
{
    let out = out_before + block;
    assert forall|j: int|
        0 <= j < i + 1 implies order_block_ok(
        #[trigger] orders[j],
        per0[j],
        out.subrange(pairs_total(orders, j) as int, pairs_total(orders, j + 1) as int),
    ) by {
        assert(pairs_total(orders, i + 1) == pairs_total(orders, i) + orders[i].inputs@.len()
            * orders[i].outputs@.len());
        if j < i {
            lemma_pairs_total_mono(orders, j, i);
            lemma_pairs_total_mono(orders, j + 1, i);
            assert(out.subrange(
                pairs_total(orders, j) as int,
                pairs_total(orders, j + 1) as int,
            ) =~= out_before.subrange(
                pairs_total(orders, j) as int,
                pairs_total(orders, j + 1) as int,
            ));
        } else {
            assert(out.subrange(
                pairs_total(orders, j) as int,
                pairs_total(orders, j + 1) as int,
            ) =~= block);
        }
    }
}

/// Moves all responses of `src` to the end of `dst`, in order.
pub fn append_responses(dst: &mut Vec<BatchOrderQuotesResponse>, src: &mut Vec<
    BatchOrderQuotesResponse,
>)
    ensures
        final(dst)@ == old(dst)@ + old(src)@,
{
    dst.append(src);
}

} // verus!
