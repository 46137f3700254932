//! A provider for the LES protocol. This is typically a full node, who can
//! give as much data as necessary to its peers.
use crate::rlp_list::{append_item, empty_list, finish, list_items, list_open, new_list, rlp_list};
use crate::transaction::SignedTransaction;
use crate::uint::{H256, U256};
use vstd::prelude::*;

verus! {

/// Encoded data.
pub type Bytes = Vec<u8>;

/// Names a block.
#[derive(Clone, Copy, Debug, PartialEq, Eq, Structural)]
pub enum BlockId {
    /// Block hash.
    Hash(H256),
    /// Block number within canon blockchain.
    Number(u64),
}

/// Where a request for headers starts.
#[derive(Clone, Copy, Debug, PartialEq, Eq, Structural)]
pub enum HashOrNumber {
    /// At the block of this hash.
    Hash(H256),
    /// At the block of this number.
    Number(u64),
}

/// A request for block headers.
#[derive(Clone, Copy, Debug, PartialEq, Eq, Structural)]
pub struct Headers {
    /// Starting block number or hash.
    pub start: HashOrNumber,
    /// The maximum amount of headers which can be returned.
    pub max: usize,
    /// The amount of headers to skip between each response entry.
    pub skip: u64,
    /// Whether the headers should proceed in falling number from the initial block.
    pub reverse: bool,
}

/// A request for specific block bodies.
#[derive(Debug)]
pub struct Bodies {
    /// Hashes which bodies are being requested for.
    pub block_hashes: Vec<H256>,
}

/// A request for transaction receipts.
#[derive(Debug)]
pub struct Receipts {
    /// Block hashes to return receipts for.
    pub block_hashes: Vec<H256>,
}

/// A request for a state proof
#[derive(Clone, Copy, Debug, PartialEq, Eq, Structural)]
pub struct StateProof {
    /// Block hash to query state from.
    pub block: H256,
    /// Key of the state trie -- corresponds to account hash.
    pub key1: H256,
    /// Key in that account's storage trie; if empty, then the account RLP should be returned.
    pub key2: Option<H256>,
    /// if greater than zero, trie nodes beyond this level may be omitted.
    pub from_level: u32,
}

/// A request for state proofs.
#[derive(Debug)]
pub struct StateProofs {
    /// All the proof requests.
    pub requests: Vec<StateProof>,
}

/// A request for contract code.
#[derive(Clone, Copy, Debug, PartialEq, Eq, Structural)]
pub struct ContractCode {
    /// Block hash
    pub block_hash: H256,
    /// Account key
    pub account_key: H256,
}

/// A request for contract code.
#[derive(Debug)]
pub struct ContractCodes {
    /// Block hash and account key (== sha3(address)) pairs to fetch code for.
    pub code_requests: Vec<ContractCode>,
}

/// A request for a header proof from the Canonical Hash Trie.
#[derive(Clone, Copy, Debug, PartialEq, Eq, Structural)]
pub struct HeaderProof {
    /// Number of the CHT.
    pub cht_number: u64,
    /// Block number requested.
    pub block_number: u64,
    /// If greater than zero, trie nodes beyond this level may be omitted.
    pub from_level: u32,
}

/// A request for header proofs from the CHT.
#[derive(Debug)]
pub struct HeaderProofs {
    /// All the proof requests.
    pub requests: Vec<HeaderProof>,
}

/// Information about the blockchain.
#[derive(Clone, Copy, Debug, PartialEq, Eq, Structural)]
pub struct BlockChainInfo {
    /// Blockchain difficulty.
    pub total_difficulty: U256,
    /// Genesis block hash.
    pub genesis_hash: H256,
    /// Best blockchain block hash.
    pub best_block_hash: H256,
    /// Best blockchain block number.
    pub best_block_number: u64,
}

/// The way from one block to another.
#[derive(Debug)]
pub struct TreeRoute {
    /// The blocks between them.
    pub blocks: Vec<H256>,
    /// Their best common ancestor.
    pub ancestor: H256,
    /// The place of the ancestor among the blocks.
    pub index: usize,
}

/// What has been pruned.
#[derive(Clone, Copy, Debug, PartialEq, Eq, Structural)]
pub struct PruningInfo {
    /// The first block which everything can be served after.
    pub earliest_chain: u64,
    /// The first block where state requests may be served.
    pub earliest_state: u64,
}

/// A client that keeps a blockchain and can prove parts of its state.
pub trait ProvingBlockChainClient: Sync + Send {
    /// Get blockchain information.
    fn chain_info(&self) -> BlockChainInfo;

    /// Get a tree route between two blocks.
    fn tree_route(&self, from: &H256, to: &H256) -> Option<TreeRoute>;

    /// Get information about pruning.
    fn pruning_info(&self) -> PruningInfo;

    /// Get raw block header data by block id.
    fn block_header(&self, id: BlockId) -> Option<Bytes>;

    /// Get the block number that a raw header holds.
    fn header_number(&self, header: &Bytes) -> u64;

    /// Get block hash by id.
    fn block_hash(&self, id: BlockId) -> Option<H256>;

    /// Get raw block body data by block id.
    fn block_body(&self, id: BlockId) -> Option<Bytes>;

    /// Get raw block receipts data by block header hash.
    fn block_receipts(&self, hash: &H256) -> Option<Bytes>;

    /// Prove account storage at a specific block id.
    fn prove_storage(&self, key1: H256, key2: H256, from_level: u32, id: BlockId) -> Vec<Bytes>;

    /// Prove account existence at a specific block id.
    fn prove_account(&self, key1: H256, from_level: u32, id: BlockId) -> Vec<Bytes>;

    /// Get code by address hash.
    fn code_by_hash(&self, account_key: H256, id: BlockId) -> Bytes;

    /// List all transactions that are allowed into the next block.
    fn pending_transactions(&self) -> Vec<SignedTransaction>;
}

/// Defines the operations that a provider for `LES` must fulfill.
///
/// Requests which can't be fulfilled should return either an empty RLP list
/// or empty vector where appropriate.
pub trait Provider: Send + Sync {
    /// Provide current blockchain info.
    fn chain_info(&self) -> BlockChainInfo;

    /// Find the depth of a common ancestor between two blocks.
    /// If either block is unknown or an ancestor can't be found
    /// then return `None`.
    fn reorg_depth(&self, a: &H256, b: &H256) -> Option<u64>;

    /// Earliest block where state queries are available.
    /// If `None`, no state queries are servable.
    fn earliest_state(&self) -> Option<u64>;

    /// Provide a list of headers starting at the requested block,
    /// possibly in reverse and skipping `skip` at a time.
    ///
    /// The returned vector may have any length in the range [0, `max`], but the
    /// results within must adhere to the `skip` and `reverse` parameters.
    fn block_headers(&self, req: Headers) -> Vec<Bytes>;

    /// Provide as many as possible of the requested blocks (minus the headers) encoded
    /// in RLP format.
    fn block_bodies(&self, req: Bodies) -> Vec<Bytes>;

    /// Provide the receipts as many as possible of the requested blocks.
    /// Returns a vector of RLP-encoded lists of receipts.
    fn receipts(&self, req: Receipts) -> Vec<Bytes>;

    /// Provide a set of merkle proofs, as requested. Each request is a
    /// block hash and request parameters.
    ///
    /// Returns a vector of RLP-encoded lists satisfying the requests.
    fn proofs(&self, req: StateProofs) -> Vec<Bytes>;

    /// Provide contract code for the specified (block_hash, account_hash) pairs.
    /// Each item in the resulting vector is either the raw bytecode or empty.
    fn contract_code(&self, req: ContractCodes) -> Vec<Bytes>;

    /// Provide header proofs from the Canonical Hash Tries as well as the headers
    /// they correspond to -- each element in the returned vector is a 2-tuple.
    /// The first element is a block header and the second a merkle proof of
    /// the header in a requested CHT.
    fn header_proofs(&self, req: HeaderProofs) -> Vec<Bytes>;

    /// Provide pending transactions.
    fn pending_transactions(&self) -> Vec<SignedTransaction>;
}

/// The number of the header of rank `i`, counted from `start`. Upward it is at most the best number,
/// downward at least 1.
pub open spec fn nth_number(start: u64, best: u64, skip: u64, reverse: bool, i: nat) -> Option<u64> {
    if reverse && i * (skip + 1) < start {
        Some((start - i * (skip + 1)) as u64)
    } else if !reverse && start + i * (skip + 1) <= best {
        Some((start + i * (skip + 1)) as u64)
    } else {
        None
    }
}

/// The number of the header of rank `i`, counted from `start`.
pub fn header_at(start: u64, best: u64, skip: u64, reverse: bool, i: u64) -> (r: Option<u64>)
    ensures
        r == nth_number(start, best, skip, reverse, i as nat),
{
    let x: u64 = match skip.checked_add(1) {
        Some(step) => match i.checked_mul(step) {
            Some(x) => x,
            None => {
                return None;
            },
        },
        None => {
            proof {
                assert(i * (skip + 1) == 0 || i * (skip + 1) > u64::MAX) by (nonlinear_arith)
                    requires
                        skip == u64::MAX,
                ;
                assert(i == 0 ==> i * (skip + 1) == 0) by (nonlinear_arith);
                assert(i > 0 ==> i * (skip + 1) > 0) by (nonlinear_arith);
            }
            if i == 0 {
                0
            } else {
                return None;
            }
        },
    };
    if reverse {
        if x < start {
            Some(start - x)
        } else {
            None
        }
    } else if start <= best && x <= best - start {
        Some(start + x)
    } else {
        None
    }
}

/// The numbers of the headers adhere to `skip` and `reverse`: the first is the start, and each one
/// after it is `skip + 1` further on, without a gap among the ranks.
pub proof fn lemma_numbers_are_spaced(start: u64, best: u64, skip: u64, reverse: bool, i: nat)
    ensures
        nth_number(start, best, skip, reverse, 0) is Some ==> nth_number(start, best, skip, reverse, 0)
            == Some(start),
        nth_number(start, best, skip, reverse, i + 1) is Some ==> {
            let near = nth_number(start, best, skip, reverse, i);
            let far = nth_number(start, best, skip, reverse, i + 1);
            &&& near is Some
            &&& reverse ==> far.unwrap() + skip + 1 == near.unwrap()
            &&& !reverse ==> far.unwrap() == near.unwrap() + skip + 1
        },
{
    assert((i + 1) * (skip + 1) == i * (skip + 1) + skip + 1) by (nonlinear_arith);
    assert(0 * (skip + 1) == 0) by (nonlinear_arith);
    assert(i * (skip + 1) >= 0) by (nonlinear_arith);
}

/// Whether `answer` is what `client` gives for the header of rank `i`. Out of its range it is not asked.
pub open spec fn gives<T: ProvingBlockChainClient + ?Sized>(
    client: &T,
    start: u64,
    best: u64,
    req: Headers,
    i: nat,
    answer: Option<Bytes>,
) -> bool {
    match nth_number(start, best, req.skip, req.reverse, i) {
        Some(number) => call_ensures(T::block_header, (client, BlockId::Number(number)), answer),
        None => answer is None,
    }
}

/// Whether `r` is what `client` gives for a request that starts at the number `start`: the headers of
/// rank 0, 1 and so on, until there are enough, or the numbers end, or a header is missing.
pub open spec fn serves<T: ProvingBlockChainClient + ?Sized>(
    client: &T,
    start: u64,
    best: u64,
    req: Headers,
    r: Seq<Bytes>,
) -> bool {
    &&& r.len() <= req.max
    &&& forall|i: nat| i < r.len() ==> #[trigger] gives(client, start, best, req, i, Some(r[i as int]))
    &&& r.len() == req.max || gives(client, start, best, req, r.len(), None)
}

/// Whether `r` is what `client` gives for a request that starts at the block `hash`, for which it has
/// `header`. A single header, or one off the canonical chain, is served alone.
pub open spec fn serves_from_hash<T: ProvingBlockChainClient + ?Sized>(
    client: &T,
    hash: H256,
    header: Bytes,
    best: u64,
    req: Headers,
    r: Seq<Bytes>,
) -> bool {
    exists|number: u64| #[trigger]
        call_ensures(T::header_number, (client, &header), number) && {
            if req.max == 0 {
                r == Seq::<Bytes>::empty()
            } else if req.max == 1 {
                r == seq![header]
            } else {
                exists|canonical: Option<H256>| #[trigger]
                    call_ensures(
                        T::block_hash,
                        (client, BlockId::Number(number)),
                        canonical,
                    ) && if canonical != Some(hash) {
                        r == seq![header]
                    } else {
                        serves(client, number, best, req, r)
                    }
            }
        }
}

/// Fetches the headers of rank 0, 1 and so on from `client`, as far as they go.
fn headers_from<T: ProvingBlockChainClient + ?Sized>(client: &T, start: u64, best: u64, req: &Headers) -> (r: Vec<
    Bytes,
>)
    ensures
        serves(client, start, best, *req, r@),
{
    let mut headers: Vec<Bytes> = Vec::new();
    let mut i: usize = 0;
    while i < req.max
        invariant
            i == headers@.len(),
            i <= req.max,
            forall|j: nat|
                j < headers@.len() ==> #[trigger] gives(
                    client,
                    start,
                    best,
                    *req,
                    j,
                    Some(headers@[j as int]),
                ),
        decreases req.max - i,
    {
        let number = match header_at(start, best, req.skip, req.reverse, i as u64) {
            Some(number) => number,
            None => {
                return headers;
            },
        };
        match client.block_header(BlockId::Number(number)) {
            Some(header) => {
                headers.push(header);
            },
            None => {
                return headers;
            },
        }
        i = i + 1;
    }
    headers
}

/// Whether `r` is what `client` gives for the request `req`, when its best block has the number `best`.
pub open spec fn serves_headers<T: ProvingBlockChainClient + ?Sized>(
    client: &T,
    best: u64,
    req: Headers,
    r: Seq<Bytes>,
) -> bool {
    match req.start {
        HashOrNumber::Number(start) => serves(client, start, best, req, r),
        HashOrNumber::Hash(hash) => exists|found: Option<Bytes>| #[trigger]
            call_ensures(T::block_header, (client, BlockId::Hash(hash)), found) && match found {
                None => r == Seq::<Bytes>::empty(),
                Some(header) => serves_from_hash(client, hash, header, best, req, r),
            },
    }
}

/// What stands for a thing that the client may lack: an empty list takes its place.
pub open spec fn or_empty_list(found: Option<Bytes>, r: Bytes) -> bool {
    match found {
        Some(data) => r == data,
        None => r@ == rlp_list(Seq::empty()),
    }
}

/// Gives what was found, or else an empty list.
fn found_or_empty_list(found: Option<Bytes>) -> (r: Bytes)
    ensures
        or_empty_list(found, r),
{
    match found {
        Some(data) => data,
        None => empty_list(),
    }
}

/// Whether `r` stands for the body of the block `hash`.
pub open spec fn serves_body<T: ProvingBlockChainClient + ?Sized>(client: &T, hash: H256, r: Bytes) -> bool {
    exists|found: Option<Bytes>| #[trigger]
        call_ensures(T::block_body, (client, BlockId::Hash(hash)), found) && or_empty_list(found, r)
}

/// Whether `r` stands for the receipts of the block `hash`.
pub open spec fn serves_receipts<T: ProvingBlockChainClient + ?Sized>(client: &T, hash: H256, r: Bytes) -> bool {
    exists|found: Option<Bytes>| #[trigger]
        call_ensures(T::block_receipts, (client, &hash), found) && or_empty_list(found, r)
}

/// Whether `nodes` is a proof that `client` gives for the request `req`: of an entry in the storage of an
/// account, or of the account itself.
pub open spec fn proves<T: ProvingBlockChainClient + ?Sized>(
    client: &T,
    req: StateProof,
    nodes: Vec<Bytes>,
) -> bool {
    match req.key2 {
        Some(key2) => call_ensures(
            T::prove_storage,
            (client, req.key1, key2, req.from_level, BlockId::Hash(req.block)),
            nodes,
        ),
        None => call_ensures(
            T::prove_account,
            (client, req.key1, req.from_level, BlockId::Hash(req.block)),
            nodes,
        ),
    }
}

/// The bytes of the first `n` nodes, one after the other.
pub open spec fn joined(nodes: Seq<Bytes>, n: nat) -> Seq<u8>
    decreases n,
{
    if n == 0 {
        Seq::empty()
    } else {
        joined(nodes, (n - 1) as nat) + nodes[n - 1]@
    }
}

/// Whether `r` is the list of the nodes of a proof for the request `req`.
pub open spec fn serves_proof<T: ProvingBlockChainClient + ?Sized>(
    client: &T,
    req: StateProof,
    r: Bytes,
) -> bool {
    exists|nodes: Vec<Bytes>| #[trigger]
        proves(client, req, nodes) && r@ == rlp_list(joined(nodes@, nodes@.len()))
}

/// Encodes the nodes as a list.
pub fn encode_proof(nodes: &Vec<Bytes>) -> (r: Bytes)
    ensures
        r@ == rlp_list(joined(nodes@, nodes@.len())),
{
    let mut stream = new_list(nodes.len());
    let mut i: usize = 0;
    while i < nodes.len()
        invariant
            i <= nodes@.len(),
            list_items(stream) == joined(nodes@, i as nat),
            list_open(stream) == nodes@.len() - i,
        decreases nodes@.len() - i,
    {
        append_item(&mut stream, &nodes[i]);
        i = i + 1;
    }
    finish(stream)
}

/// A client is a provider.
impl<T: ProvingBlockChainClient + ?Sized> Provider for T {
    fn chain_info(&self) -> (r: BlockChainInfo)
        ensures
            call_ensures(<T as ProvingBlockChainClient>::chain_info, (self,), r),
    {
        ProvingBlockChainClient::chain_info(self)
    }

    fn reorg_depth(&self, a: &H256, b: &H256) -> (r: Option<u64>)
        ensures
            exists|route: Option<TreeRoute>| #[trigger]
                call_ensures(T::tree_route, (self, a, b), route) && match route {
                    Some(route) => r == Some(route.index as u64),
                    None => r is None,
                },
    {
        match self.tree_route(a, b) {
            Some(route) => Some(route.index as u64),
            None => None,
        }
    }

    fn earliest_state(&self) -> (r: Option<u64>)
        ensures
            exists|info: PruningInfo| #[trigger]
                call_ensures(T::pruning_info, (self,), info) && r == Some(info.earliest_state),
    {
        Some(self.pruning_info().earliest_state)
    }

    fn block_headers(&self, req: Headers) -> (r: Vec<Bytes>)
        ensures
            r@.len() <= req.max,
            exists|info: BlockChainInfo| #[trigger]
                call_ensures(<T as ProvingBlockChainClient>::chain_info, (self,), info)
                    && serves_headers(self, info.best_block_number, req, r@),
    {
        let best = ProvingBlockChainClient::chain_info(self).best_block_number;
        let start = match req.start {
            HashOrNumber::Number(number) => number,
            HashOrNumber::Hash(hash) => match self.block_header(BlockId::Hash(hash)) {
                None => {
                    return Vec::new();
                },
                Some(header) => {
                    let number = self.header_number(&header);
                    if req.max == 0 {
                        return Vec::new();
                    }
                    if req.max == 1 || self.block_hash(BlockId::Number(number)) != Some(hash) {
                        // Non-canonical header or single header requested.
                        let mut headers: Vec<Bytes> = Vec::new();
                        headers.push(header);
                        return headers;
                    }
                    number
                },
            },
        };
        headers_from(self, start, best, &req)
    }

    fn block_bodies(&self, req: Bodies) -> (r: Vec<Bytes>)
        ensures
            r@.len() == req.block_hashes@.len(),
            forall|i: int|
                0 <= i < r@.len() ==> serves_body(self, req.block_hashes@[i], #[trigger] r@[i]),
    {
        let mut bodies: Vec<Bytes> = Vec::new();
        let mut i: usize = 0;
        while i < req.block_hashes.len()
            invariant
                i == bodies@.len(),
                i <= req.block_hashes@.len(),
                forall|j: int|
                    0 <= j < i ==> serves_body(self, req.block_hashes@[j], #[trigger] bodies@[j]),
            decreases req.block_hashes@.len() - i,
        {
            bodies.push(found_or_empty_list(self.block_body(BlockId::Hash(req.block_hashes[i]))));
            i = i + 1;
        }
        bodies
    }

    fn receipts(&self, req: Receipts) -> (r: Vec<Bytes>)
        ensures
            r@.len() == req.block_hashes@.len(),
            forall|i: int|
                0 <= i < r@.len() ==> serves_receipts(self, req.block_hashes@[i], #[trigger] r@[i]),
    {
        let mut receipts: Vec<Bytes> = Vec::new();
        let mut i: usize = 0;
        while i < req.block_hashes.len()
            invariant
                i == receipts@.len(),
                i <= req.block_hashes@.len(),
                forall|j: int|
                    0 <= j < i ==> serves_receipts(self, req.block_hashes@[j], #[trigger] receipts@[j]),
            decreases req.block_hashes@.len() - i,
        {
            receipts.push(found_or_empty_list(self.block_receipts(&req.block_hashes[i])));
            i = i + 1;
        }
        receipts
    }

    fn proofs(&self, req: StateProofs) -> (r: Vec<Bytes>)
        ensures
            r@.len() == req.requests@.len(),
            forall|i: int|
                0 <= i < r@.len() ==> serves_proof(self, req.requests@[i], #[trigger] r@[i]),
    {
        let mut results: Vec<Bytes> = Vec::with_capacity(req.requests.len());
        let mut i: usize = 0;
        while i < req.requests.len()
            invariant
                i == results@.len(),
                i <= req.requests@.len(),
                forall|j: int|
                    0 <= j < i ==> serves_proof(self, req.requests@[j], #[trigger] results@[j]),
            decreases req.requests@.len() - i,
        {
            let request = req.requests[i];
            let proof_nodes = match request.key2 {
                Some(key2) => self.prove_storage(
                    request.key1,
                    key2,
                    request.from_level,
                    BlockId::Hash(request.block),
                ),
                None => self.prove_account(
                    request.key1,
                    request.from_level,
                    BlockId::Hash(request.block),
                ),
            };
            assert(proves(self, req.requests@[i as int], proof_nodes));
            results.push(encode_proof(&proof_nodes));
            i = i + 1;
        }
        results
    }

    fn contract_code(&self, req: ContractCodes) -> (r: Vec<Bytes>)
        ensures
            r@.len() == req.code_requests@.len(),
            forall|i: int|
                0 <= i < r@.len() ==> call_ensures(
                    T::code_by_hash,
                    (
                        self,
                        req.code_requests@[i].account_key,
                        BlockId::Hash(req.code_requests@[i].block_hash),
                    ),
                    #[trigger] r@[i],
                ),
    {
        let mut codes: Vec<Bytes> = Vec::new();
        let mut i: usize = 0;
        while i < req.code_requests.len()
            invariant
                i == codes@.len(),
                i <= req.code_requests@.len(),
                forall|j: int|
                    0 <= j < i ==> call_ensures(
                        T::code_by_hash,
                        (
                            self,
                            req.code_requests@[j].account_key,
                            BlockId::Hash(req.code_requests@[j].block_hash),
                        ),
                        #[trigger] codes@[j],
                    ),
            decreases req.code_requests@.len() - i,
        {
            let request = req.code_requests[i];
            codes.push(self.code_by_hash(request.account_key, BlockId::Hash(request.block_hash)));
            i = i + 1;
        }
        codes
    }

    fn header_proofs(&self, req: HeaderProofs) -> (r: Vec<Bytes>)
        ensures
            r@.len() == req.requests@.len(),
            forall|i: int| 0 <= i < r@.len() ==> (#[trigger] r@[i])@ == rlp_list(Seq::empty()),
    {
        let mut proofs: Vec<Bytes> = Vec::new();
        let mut i: usize = 0;
        while i < req.requests.len()
            invariant
                i == proofs@.len(),
                i <= req.requests@.len(),
                forall|j: int| 0 <= j < i ==> (#[trigger] proofs@[j])@ == rlp_list(Seq::empty()),
            decreases req.requests@.len() - i,
        {
            proofs.push(empty_list());
            i = i + 1;
        }
        proofs
    }

    fn pending_transactions(&self) -> (r: Vec<SignedTransaction>)
        ensures
            call_ensures(<T as ProvingBlockChainClient>::pending_transactions, (self,), r),
    {
        ProvingBlockChainClient::pending_transactions(self)
    }
}

} // verus!
