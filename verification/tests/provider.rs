use txqueue::provider::{
    encode_proof, header_at, BlockChainInfo, BlockId, Bodies, ContractCode, ContractCodes, HashOrNumber,
    HeaderProof, HeaderProofs, Headers, Provider, ProvingBlockChainClient, PruningInfo, Receipts,
    StateProof, StateProofs, TreeRoute,
};
use txqueue::transaction::SignedTransaction;
use txqueue::uint::{Address, H256, U256};

fn h(lo: u128) -> H256 {
    H256 { hi: 0, lo }
}

/// A chain with the blocks 0 to 20. The header of block n is the byte n, and its hash is h(n). There is
/// also a block off the chain, with the hash h(107) and the header 7, 7.
struct Chain;

impl ProvingBlockChainClient for Chain {
    fn chain_info(&self) -> BlockChainInfo {
        BlockChainInfo {
            total_difficulty: U256::from(99),
            genesis_hash: h(0),
            best_block_hash: h(20),
            best_block_number: 20,
        }
    }

    fn tree_route(&self, from: &H256, to: &H256) -> Option<TreeRoute> {
        if *from == h(107) && *to == h(8) {
            Some(TreeRoute { blocks: vec![h(107), h(7), h(8)], ancestor: h(6), index: 1 })
        } else {
            None
        }
    }

    fn pruning_info(&self) -> PruningInfo {
        PruningInfo { earliest_chain: 0, earliest_state: 12 }
    }

    fn block_header(&self, id: BlockId) -> Option<Vec<u8>> {
        match id {
            BlockId::Number(n) if n <= 20 && n != 16 => Some(vec![n as u8]),
            BlockId::Hash(hash) if hash == h(107) => Some(vec![7, 7]),
            BlockId::Hash(hash) if hash.lo <= 20 => Some(vec![hash.lo as u8]),
            _ => None,
        }
    }

    fn header_number(&self, header: &Vec<u8>) -> u64 {
        header[0] as u64
    }

    fn block_hash(&self, id: BlockId) -> Option<H256> {
        match id {
            BlockId::Number(n) if n <= 20 => Some(h(n as u128)),
            _ => None,
        }
    }

    fn block_body(&self, id: BlockId) -> Option<Vec<u8>> {
        if id == BlockId::Hash(h(3)) {
            Some(vec![0xc1, 3])
        } else {
            None
        }
    }

    fn block_receipts(&self, hash: &H256) -> Option<Vec<u8>> {
        if *hash == h(4) {
            Some(vec![0xc1, 4])
        } else {
            None
        }
    }

    fn prove_storage(&self, key1: H256, key2: H256, from_level: u32, _id: BlockId) -> Vec<Vec<u8>> {
        vec![vec![key1.lo as u8], vec![key2.lo as u8, from_level as u8]]
    }

    fn prove_account(&self, key1: H256, _from_level: u32, id: BlockId) -> Vec<Vec<u8>> {
        if id == BlockId::Hash(h(1)) {
            Vec::new()
        } else {
            vec![vec![key1.lo as u8; 60]]
        }
    }

    fn code_by_hash(&self, account_key: H256, id: BlockId) -> Vec<u8> {
        if id == BlockId::Hash(h(2)) {
            vec![account_key.lo as u8]
        } else {
            Vec::new()
        }
    }

    fn pending_transactions(&self) -> Vec<SignedTransaction> {
        vec![SignedTransaction {
            nonce: U256::one(),
            gas_price: U256::one(),
            gas: U256::one(),
            value: U256::one(),
            hash: h(77),
            signer: Some(Address::default()),
            low_s: true,
        }]
    }
}

fn headers(start: HashOrNumber, max: usize, skip: u64, reverse: bool) -> Vec<Vec<u8>> {
    Chain.block_headers(Headers { start, max, skip, reverse })
}

fn bytes(numbers: &[u8]) -> Vec<Vec<u8>> {
    numbers.iter().map(|n| vec![*n]).collect()
}

#[test]
fn headers_go_up() {
    assert_eq!(headers(HashOrNumber::Number(5), 3, 0, false), bytes(&[5, 6, 7]));
    assert_eq!(headers(HashOrNumber::Number(5), 3, 2, false), bytes(&[5, 8, 11]));
    assert_eq!(headers(HashOrNumber::Number(18), 9, 0, false), bytes(&[18, 19, 20]));
    assert_eq!(headers(HashOrNumber::Number(18), 9, 1, false), bytes(&[18, 20]));
    assert_eq!(headers(HashOrNumber::Number(18), 9, u64::MAX, false), bytes(&[18]));
}

#[test]
fn headers_go_down() {
    assert_eq!(headers(HashOrNumber::Number(5), 3, 0, true), bytes(&[5, 4, 3]));
    assert_eq!(headers(HashOrNumber::Number(5), 9, 1, true), bytes(&[5, 3, 1]));
    assert_eq!(headers(HashOrNumber::Number(2), 9, 0, true), bytes(&[2, 1]));
    assert_eq!(headers(HashOrNumber::Number(0), 9, 0, true), bytes(&[]));
}

#[test]
fn headers_end_at_a_missing_one() {
    assert_eq!(headers(HashOrNumber::Number(14), 9, 0, false), bytes(&[14, 15]));
    assert_eq!(headers(HashOrNumber::Number(14), 9, 2, false), bytes(&[14, 17, 20]));
    assert_eq!(headers(HashOrNumber::Number(21), 9, 0, false), bytes(&[]));
}

#[test]
fn headers_from_a_hash() {
    assert_eq!(headers(HashOrNumber::Hash(h(5)), 3, 0, false), bytes(&[5, 6, 7]));
    assert_eq!(headers(HashOrNumber::Hash(h(5)), 1, 0, false), bytes(&[5]));
    assert_eq!(headers(HashOrNumber::Hash(h(5)), 0, 0, false), bytes(&[]));
    assert_eq!(headers(HashOrNumber::Hash(h(999)), 3, 0, false), bytes(&[]));
    assert_eq!(headers(HashOrNumber::Hash(h(107)), 3, 0, false), vec![vec![7, 7]]);
    assert_eq!(headers(HashOrNumber::Hash(h(107)), 0, 0, false), bytes(&[]));
}

#[test]
fn numbers_of_headers() {
    assert_eq!(header_at(10, 20, 1, false, 5), Some(20));
    assert_eq!(header_at(10, 20, 1, false, 6), None);
    assert_eq!(header_at(10, 20, 1, true, 4), Some(2));
    assert_eq!(header_at(10, 20, 1, true, 5), None);
    assert_eq!(header_at(0, u64::MAX, 1 << 40, false, 1 << 40), None);
    assert_eq!(header_at(3, u64::MAX, u64::MAX, false, 0), Some(3));
    assert_eq!(header_at(3, u64::MAX, u64::MAX, false, 1), None);
}

#[test]
fn bodies_and_receipts() {
    assert_eq!(
        Chain.block_bodies(Bodies { block_hashes: vec![h(3), h(4)] }),
        vec![vec![0xc1, 3], vec![0xc0]]
    );
    assert_eq!(
        Chain.receipts(Receipts { block_hashes: vec![h(3), h(4)] }),
        vec![vec![0xc0], vec![0xc1, 4]]
    );
}

#[test]
fn state_proofs() {
    let request = |block: u128, key2: Option<H256>| StateProof {
        block: h(block),
        key1: h(9),
        key2,
        from_level: 5,
    };
    let mut long = vec![0xf8, 60];
    long.extend(vec![9u8; 60]);
    assert_eq!(
        Chain.proofs(StateProofs {
            requests: vec![request(1, Some(h(8))), request(1, None), request(2, None)]
        }),
        vec![vec![0xc3, 9, 8, 5], vec![0xc0], long]
    );
}

#[test]
fn long_lists() {
    let mut expected = vec![0xf7 + 2, 1, 44];
    expected.extend(vec![1u8; 300]);
    assert_eq!(encode_proof(&vec![vec![1u8; 100], vec![1u8; 200]]), expected);
    let mut expected = vec![0xc0 + 55];
    expected.extend(vec![1u8; 55]);
    assert_eq!(encode_proof(&vec![vec![1u8; 55]]), expected);
}

#[test]
fn code_and_header_proofs() {
    let code = |block: u128| ContractCode { block_hash: h(block), account_key: h(6) };
    assert_eq!(
        Chain.contract_code(ContractCodes { code_requests: vec![code(2), code(3)] }),
        vec![vec![6], vec![]]
    );
    let asked = HeaderProof { cht_number: 0, block_number: 1, from_level: 0 };
    assert_eq!(
        Chain.header_proofs(HeaderProofs { requests: vec![asked, asked] }),
        vec![vec![0xc0], vec![0xc0]]
    );
}

#[test]
fn what_the_client_knows() {
    assert_eq!(Chain.reorg_depth(&h(107), &h(8)), Some(1));
    assert_eq!(Chain.reorg_depth(&h(8), &h(107)), None);
    assert_eq!(Chain.earliest_state(), Some(12));
    assert_eq!(Provider::chain_info(&Chain).best_block_number, 20);
    assert_eq!(Provider::pending_transactions(&Chain)[0].hash, h(77));
}
