//! Lists in RLP, the recursive length prefix encoding.
use rlp::RlpStream;
use vstd::prelude::*;

verus! {

/// `rlp::RlpStream`: an encoder.
#[verifier::external_type_specification]
#[verifier::external_body]
pub struct ExRlpStream(rlp::RlpStream);

/// The encoded items that the list of a stream has so far, one after the other.
pub uninterp spec fn list_items(s: RlpStream) -> Seq<u8>;

/// How many items the list of a stream still waits for.
pub uninterp spec fn list_open(s: RlpStream) -> nat;

/// The bytes of `n`, the highest first, without leading zeros.
pub open spec fn big_endian(n: nat) -> Seq<u8>
    decreases n,
{
    if n == 0 {
        Seq::empty()
    } else {
        big_endian(n / 256).push((n % 256) as u8)
    }
}

/// A list whose encoded items are `items`. The length of a long list is written in 32 bits: of a longer
/// one, only its lowest 32 bits.
pub open spec fn rlp_list(items: Seq<u8>) -> Seq<u8> {
    if items.len() <= 55 {
        seq![(0xc0 + items.len()) as u8] + items
    } else {
        let len = big_endian(items.len() % 0x1_0000_0000);
        seq![(0xf7 + len.len()) as u8] + len + items
    }
}

/// `RlpStream::new_list`: a stream with a list of `len` items, all of them to come.
#[verifier::external_body]
pub(crate) fn new_list(len: usize) -> (r: RlpStream)
    ensures
        list_items(r) == Seq::<u8>::empty(),
        list_open(r) == len,
{
    RlpStream::new_list(len)
}

/// `RlpStream::append_raw` with one item: the bytes go to the end of the list, which waits for one item
/// less.
#[verifier::external_body]
pub(crate) fn append_item(s: &mut RlpStream, item: &Vec<u8>)
    requires
        list_open(*old(s)) > 0,
    ensures
        list_items(*final(s)) == list_items(*old(s)) + item@,
        list_open(*final(s)) == list_open(*old(s)) - 1,
{
    s.append_raw(item, 1);
}

/// `RlpStream::out`: the encoded list, once all its items are there. In front of items of more than 55
/// bytes stands their length, which is cut to 32 bits.
#[verifier::external_body]
pub(crate) fn finish(s: RlpStream) -> (r: Vec<u8>)
    requires
        list_open(s) == 0,
    ensures
        r@ == rlp_list(list_items(s)),
{
    s.out().to_vec()
}

/// `rlp::EMPTY_LIST_RLP`: the encoded list without items.
#[verifier::external_body]
pub(crate) fn empty_list() -> (r: Vec<u8>)
    ensures
        r@ == rlp_list(Seq::empty()),
{
    rlp::EMPTY_LIST_RLP.to_vec()
}

} // verus!
