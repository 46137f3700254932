//! What a client's answers are made of, request by request.
use crate::provider::{
    joined, nth_number, or_empty_list, serves, serves_body, serves_from_hash, serves_headers,
    serves_proof, serves_receipts, BlockId, Bytes, HashOrNumber, Headers, ProvingBlockChainClient,
    StateProof,
};
use crate::rlp_list::rlp_list;
use crate::uint::H256;
use vstd::prelude::*;

verus! {

/// The number that is `i` steps of `skip + 1` from `start`: downward in reverse, else upward.
pub open spec fn steps(start: u64, skip: u64, reverse: bool, i: int) -> int {
    if reverse {
        start - i * (skip + 1)
    } else {
        start + i * (skip + 1)
    }
}

/// Whether a header of this number may be served: upward up to the best block, in reverse down to the
/// first one after the genesis block.
pub open spec fn within(n: int, best: u64, reverse: bool) -> bool {
    if reverse {
        n >= 1
    } else {
        n <= best
    }
}

/// The header of rank `i` is `i` steps from the start, as long as that may be served.
pub proof fn lemma_number_of_rank(start: u64, best: u64, skip: u64, reverse: bool, i: nat)
    ensures
        nth_number(start, best, skip, reverse, i) is Some <==> within(
            steps(start, skip, reverse, i as int),
            best,
            reverse,
        ),
        nth_number(start, best, skip, reverse, i) matches Some(n) ==> n == steps(
            start,
            skip,
            reverse,
            i as int,
        ),
{
    assert(i * (skip + 1) >= 0) by (nonlinear_arith);
}

/// Whether `r` are headers that `client` has for the numbers that are 0, 1, 2 and so on steps from
/// `start`: at most `max` of them, and fewer only where the next number may not be served or `client` has
/// no header for it.
pub open spec fn headers_in_steps<T: ProvingBlockChainClient + ?Sized>(
    client: &T,
    start: u64,
    best: u64,
    max: usize,
    skip: u64,
    reverse: bool,
    r: Seq<Bytes>,
) -> bool {
    let next = steps(start, skip, reverse, r.len() as int);
    &&& r.len() <= max
    &&& forall|i: int|
        0 <= i < r.len() ==> within(#[trigger] steps(start, skip, reverse, i), best, reverse)
    &&& forall|i: int|
        0 <= i < r.len() ==> call_ensures(
            T::block_header,
            (client, BlockId::Number(steps(start, skip, reverse, i) as u64)),
            Some(#[trigger] r[i]),
        )
    &&& r.len() < max ==> !within(next, best, reverse) || call_ensures(
        T::block_header,
        (client, BlockId::Number(next as u64)),
        None,
    )
}

/// A request that starts at a number is answered with the headers in steps from that number, as many as
/// were asked for, spaced and directed as was asked.
pub proof fn lemma_headers_from_number<T: ProvingBlockChainClient + ?Sized>(
    client: &T,
    start: u64,
    best: u64,
    req: Headers,
    r: Seq<Bytes>,
)
    requires
        req.start == HashOrNumber::Number(start),
        serves_headers(client, best, req, r),
    ensures
        headers_in_steps(client, start, best, req.max, req.skip, req.reverse, r),
{
    lemma_served_in_steps(client, start, best, req, r);
}

proof fn lemma_served_in_steps<T: ProvingBlockChainClient + ?Sized>(
    client: &T,
    start: u64,
    best: u64,
    req: Headers,
    r: Seq<Bytes>,
)
    requires
        serves(client, start, best, req, r),
    ensures
        headers_in_steps(client, start, best, req.max, req.skip, req.reverse, r),
{
    assert forall|i: int| 0 <= i < r.len() implies within(
        #[trigger] steps(start, req.skip, req.reverse, i),
        best,
        req.reverse,
    ) by {
        lemma_number_of_rank(start, best, req.skip, req.reverse, i as nat);
        assert(crate::provider::gives(client, start, best, req, i as nat, Some(r[i])));
    }
    assert forall|i: int| 0 <= i < r.len() implies call_ensures(
        T::block_header,
        (client, BlockId::Number(steps(start, req.skip, req.reverse, i) as u64)),
        Some(#[trigger] r[i]),
    ) by {
        lemma_number_of_rank(start, best, req.skip, req.reverse, i as nat);
        assert(crate::provider::gives(client, start, best, req, i as nat, Some(r[i])));
    }
    lemma_number_of_rank(start, best, req.skip, req.reverse, r.len());
}

/// A request that starts at the hash of a block is answered as one that starts at its number, with the
/// same number of headers, the same spacing and the same direction, where the block is on the canonical
/// chain and more than one header is asked for. A block off that chain is served alone, and so is a
/// block where it alone is asked for. For an unknown block there is nothing.
pub proof fn lemma_headers_from_hash<T: ProvingBlockChainClient + ?Sized>(
    client: &T,
    hash: H256,
    best: u64,
    req: Headers,
    r: Seq<Bytes>,
)
    requires
        req.start == HashOrNumber::Hash(hash),
        serves_headers(client, best, req, r),
    ensures
        exists|found: Option<Bytes>| #[trigger]
            call_ensures(T::block_header, (client, BlockId::Hash(hash)), found) && match found {
                None => r.len() == 0,
                Some(header) => exists|number: u64| #[trigger]
                    call_ensures(T::header_number, (client, &header), number) && {
                        &&& req.max == 0 ==> r.len() == 0
                        &&& req.max == 1 ==> r == seq![header]
                        &&& req.max > 1 ==> exists|there: Option<H256>| #[trigger]
                            call_ensures(T::block_hash, (client, BlockId::Number(number)), there) && {
                                &&& there != Some(hash) ==> r == seq![header]
                                &&& there == Some(hash) ==> headers_in_steps(
                                    client,
                                    number,
                                    best,
                                    req.max,
                                    req.skip,
                                    req.reverse,
                                    r,
                                )
                            }
                    },
            },
{
    let found = choose|found: Option<Bytes>| #[trigger]
        call_ensures(T::block_header, (client, BlockId::Hash(hash)), found) && match found {
            None => r == Seq::<Bytes>::empty(),
            Some(header) => serves_from_hash(client, hash, header, best, req, r),
        };
    if let Some(header) = found {
        assert(serves_from_hash(client, hash, header, best, req, r));
        let number = choose|number: u64| #[trigger]
            call_ensures(T::header_number, (client, &header), number) && {
                if req.max == 0 {
                    r == Seq::<Bytes>::empty()
                } else if req.max == 1 {
                    r == seq![header]
                } else {
                    exists|canonical: Option<H256>| #[trigger]
                        call_ensures(T::block_hash, (client, BlockId::Number(number)), canonical)
                            && if canonical != Some(hash) {
                            r == seq![header]
                        } else {
                            serves(client, number, best, req, r)
                        }
                }
            };
        assert(call_ensures(T::header_number, (client, &header), number));
        if req.max > 1 {
            let there = choose|canonical: Option<H256>| #[trigger]
                call_ensures(T::block_hash, (client, BlockId::Number(number)), canonical)
                    && if canonical != Some(hash) {
                    r == seq![header]
                } else {
                    serves(client, number, best, req, r)
                };
            assert(call_ensures(T::block_hash, (client, BlockId::Number(number)), there));
            if there == Some(hash) {
                lemma_served_in_steps(client, number, best, req, r);
            }
        }
    }
}

/// The list without items is one byte.
pub proof fn lemma_empty_list()
    ensures
        rlp_list(Seq::empty()) == seq![0xc0u8],
{
    assert(rlp_list(Seq::empty()) =~= seq![0xc0u8]);
}

/// For the body of a block, and for its receipts, stands what the client has under the block's hash, or
/// the list without items where it has nothing.
pub proof fn lemma_bodies_and_receipts<T: ProvingBlockChainClient + ?Sized>(
    client: &T,
    hash: H256,
    r: Bytes,
)
    ensures
        serves_body(client, hash, r) ==> exists|found: Option<Bytes>| #[trigger]
            call_ensures(T::block_body, (client, BlockId::Hash(hash)), found) && match found {
                Some(body) => r == body,
                None => r@ == seq![0xc0u8],
            },
        serves_receipts(client, hash, r) ==> exists|found: Option<Bytes>| #[trigger]
            call_ensures(T::block_receipts, (client, &hash), found) && match found {
                Some(receipts) => r == receipts,
                None => r@ == seq![0xc0u8],
            },
{
    lemma_empty_list();
    if serves_body(client, hash, r) {
        let found = choose|found: Option<Bytes>| #[trigger]
            call_ensures(T::block_body, (client, BlockId::Hash(hash)), found) && or_empty_list(found, r);
        assert(call_ensures(T::block_body, (client, BlockId::Hash(hash)), found));
    }
    if serves_receipts(client, hash, r) {
        let found = choose|found: Option<Bytes>| #[trigger]
            call_ensures(T::block_receipts, (client, &hash), found) && or_empty_list(found, r);
        assert(call_ensures(T::block_receipts, (client, &hash), found));
    }
}

/// Nodes are joined one after the other, each once and in their order.
pub proof fn lemma_nodes_are_joined(nodes: Seq<Bytes>, n: nat)
    requires
        n <= nodes.len(),
    ensures
        joined(nodes, n) == nodes.take(n as int).map_values(|node: Bytes| node@).flatten(),
    decreases n,
{
    let parts = nodes.take(n as int).map_values(|node: Bytes| node@);
    parts.lemma_flatten_and_flatten_alt_are_equivalent();
    if n > 0 {
        lemma_nodes_are_joined(nodes, (n - 1) as nat);
        let front = nodes.take(n - 1).map_values(|node: Bytes| node@);
        front.lemma_flatten_and_flatten_alt_are_equivalent();
        assert(parts.drop_last() =~= front);
        assert(parts.last() == nodes[n - 1]@);
    }
}

/// A proof is the list of all nodes that the client gives for the state of the named block: from the level
/// that is asked for, for an entry in the storage of an account where one is named, else for the account.
pub proof fn lemma_proofs<T: ProvingBlockChainClient + ?Sized>(client: &T, req: StateProof, r: Bytes)
    requires
        serves_proof(client, req, r),
    ensures
        exists|nodes: Vec<Bytes>|
            #![trigger nodes@]
            r@ == rlp_list(nodes@.map_values(|node: Bytes| node@).flatten()) && match req.key2 {
                Some(key2) => call_ensures(
                    T::prove_storage,
                    (client, req.key1, key2, req.from_level, BlockId::Hash(req.block)),
                    nodes,
                ),
                None => call_ensures(
                    T::prove_account,
                    (client, req.key1, req.from_level, BlockId::Hash(req.block)),
                    nodes,
                ),
            },
{
    let nodes = choose|nodes: Vec<Bytes>| #[trigger]
        crate::provider::proves(client, req, nodes) && r@ == rlp_list(joined(nodes@, nodes@.len()));
    lemma_nodes_are_joined(nodes@, nodes@.len());
    assert(nodes@.take(nodes@.len() as int) =~= nodes@);
}

} // verus!
