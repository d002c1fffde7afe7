//! How page ids and adjacency lists are laid out as bytes in the store.
//!
//! A page id is four bytes, least significant first. An adjacency list is the
//! concatenation of its ids; its length is the value's size divided by four.

use crate::error::Error;
use vstd::arithmetic::div_mod::lemma_fundamental_div_mod_converse;
use vstd::prelude::*;

verus! {

/// The four bytes of `id`, least significant first.
pub open spec fn id_bytes(id: u32) -> Seq<u8> {
    seq![
        (id % 256) as u8,
        (id / 256 % 256) as u8,
        (id / 65536 % 256) as u8,
        (id / 16777216) as u8,
    ]
}

/// The id whose four bytes, least significant first, are `b0` to `b3`.
pub open spec fn id_of(b0: u8, b1: u8, b2: u8, b3: u8) -> u32 {
    (b0 + 256 * b1 + 65536 * b2 + 16777216 * b3) as u32
}

/// The stored form of an adjacency list: byte `i` is byte `i % 4` of id `i / 4`.
pub open spec fn list_bytes(list: Seq<u32>) -> Seq<u8> {
    Seq::new(4 * list.len(), |i: int| id_bytes(list[i / 4])[i % 4])
}

/// The adjacency list that a value of a whole number of ids stands for.
pub open spec fn bytes_list(bytes: Seq<u8>) -> Seq<u32> {
    Seq::new(
        bytes.len() / 4,
        |i: int| id_of(bytes[4 * i], bytes[4 * i + 1], bytes[4 * i + 2], bytes[4 * i + 3]),
    )
}

/// Reading back the bytes of an id gives the id.
pub proof fn lemma_id_round_trip(id: u32)
    ensures
        id_bytes(id).len() == 4,
        id_of(id_bytes(id)[0], id_bytes(id)[1], id_bytes(id)[2], id_bytes(id)[3]) == id,
{
}

/// Writing the id that four bytes stand for gives the four bytes.
pub proof fn lemma_bytes_round_trip(b0: u8, b1: u8, b2: u8, b3: u8)
    ensures
        id_bytes(id_of(b0, b1, b2, b3)) == seq![b0, b1, b2, b3],
{
    let high: int = b1 + 256 * b2 + 65536 * b3;
    let id = id_of(b0, b1, b2, b3);
    assert(id == high * 256 + b0);
    lemma_fundamental_div_mod_converse(id as int, 256, high, b0 as int);
    let higher: int = b2 + 256 * b3;
    assert(high == higher * 256 + b1);
    lemma_fundamental_div_mod_converse(high, 256, higher, b1 as int);
    lemma_fundamental_div_mod_converse(higher, 256, b3 as int, b2 as int);
    assert(id / 65536 == higher) by {
        lemma_fundamental_div_mod_converse(id as int, 65536, higher, b0 + 256 * b1);
    }
    assert(id / 16777216 == b3) by {
        lemma_fundamental_div_mod_converse(
            id as int,
            16777216,
            b3 as int,
            b0 + 256 * b1 + 65536 * b2,
        );
    }
    assert(id_bytes(id) =~= seq![b0, b1, b2, b3]);
}

/// Decoding the stored form of any adjacency list gives the list back, so in
/// particular a sorted list without duplicates survives the store unchanged.
pub proof fn lemma_list_round_trip(list: Seq<u32>)
    ensures
        list_bytes(list).len() == 4 * list.len(),
        bytes_list(list_bytes(list)) == list,
{
    let bytes = list_bytes(list);
    assert forall|i: int| 0 <= i < list.len() implies #[trigger] bytes_list(bytes)[i] == list[i] by {
        lemma_id_round_trip(list[i]);
        assert((4 * i) / 4 == i && (4 * i) % 4 == 0);
        assert((4 * i + 1) / 4 == i && (4 * i + 1) % 4 == 1);
        assert((4 * i + 2) / 4 == i && (4 * i + 2) % 4 == 2);
        assert((4 * i + 3) / 4 == i && (4 * i + 3) % 4 == 3);
    }
    assert(bytes_list(bytes) =~= list);
}

/// Encoding the list that a well-sized value decodes to gives the value back.
pub proof fn lemma_value_round_trip(bytes: Seq<u8>)
    requires
        bytes.len() % 4 == 0,
    ensures
        list_bytes(bytes_list(bytes)) == bytes,
{
    let list = bytes_list(bytes);
    assert forall|i: int| 0 <= i < bytes.len() implies #[trigger] list_bytes(list)[i] == bytes[i] by {
        let q = i / 4;
        lemma_bytes_round_trip(bytes[4 * q], bytes[4 * q + 1], bytes[4 * q + 2], bytes[4 * q + 3]);
        assert(i == 4 * q + i % 4);
    }
    assert(list_bytes(list) =~= bytes);
}

/// The stored form of one page id, as a redirect's value has it.
pub fn encode_id(id: u32) -> (bytes: Vec<u8>)
    ensures
        bytes@ == id_bytes(id),
{
    let mut bytes: Vec<u8> = Vec::new();
    bytes.push((id % 256) as u8);
    bytes.push((id / 256 % 256) as u8);
    bytes.push((id / 65536 % 256) as u8);
    bytes.push((id / 16777216) as u8);
    assert(bytes@ =~= id_bytes(id));
    bytes
}

/// The page id that a redirect's value holds. A value of any other size than
/// four bytes is corrupt.
pub fn decode_id(bytes: &[u8]) -> (id: Result<u32, Error>)
    ensures
        bytes@.len() == 4 <==> id is Ok,
        id matches Ok(v) ==> v == id_of(bytes@[0], bytes@[1], bytes@[2], bytes@[3]) && id_bytes(v)
            == bytes@,
        id matches Err(e) ==> e == Error::CorruptArtifact,
{
    if bytes.len() != 4 {
        return Err(Error::CorruptArtifact);
    }
    let v: u32 = read_id(bytes, 0);
    proof {
        lemma_bytes_round_trip(bytes@[0], bytes@[1], bytes@[2], bytes@[3]);
        assert(bytes@ =~= seq![bytes@[0], bytes@[1], bytes@[2], bytes@[3]]);
    }
    Ok(v)
}

/// The id stored in the four bytes of `bytes` that start at `at`.
fn read_id(bytes: &[u8], at: usize) -> (id: u32)
    requires
        at + 4 <= bytes@.len(),
    ensures
        id == id_of(bytes@[at as int], bytes@[at + 1], bytes@[at + 2], bytes@[at + 3]),
{
    let b0: u32 = bytes[at] as u32;
    let b1: u32 = bytes[at + 1] as u32;
    let b2: u32 = bytes[at + 2] as u32;
    let b3: u32 = bytes[at + 3] as u32;
    b0 + 256 * b1 + 65536 * b2 + 16777216 * b3
}

/// The stored form of an adjacency list.
pub fn encode_adjacency(list: &Vec<u32>) -> (bytes: Vec<u8>)
    ensures
        bytes@ == list_bytes(list@),
{
    let mut bytes: Vec<u8> = Vec::new();
    let mut i: usize = 0;
    while i < list.len()
        invariant
            i <= list.len(),
            bytes@.len() == 4 * i,
            forall|j: int| 0 <= j < 4 * i ==> #[trigger] bytes@[j] == id_bytes(list@[j / 4])[j % 4],
        decreases list.len() - i,
    {
        let id: u32 = list[i];
        bytes.push((id % 256) as u8);
        bytes.push((id / 256 % 256) as u8);
        bytes.push((id / 65536 % 256) as u8);
        bytes.push((id / 16777216) as u8);
        i = i + 1;
    }
    assert(bytes@ =~= list_bytes(list@));
    bytes
}

/// The adjacency list that a stored value holds. A value whose size is not a
/// multiple of four is corrupt.
pub fn decode_adjacency(bytes: &[u8]) -> (list: Result<Vec<u32>, Error>)
    ensures
        bytes@.len() % 4 == 0 <==> list is Ok,
        list matches Ok(v) ==> v@ == bytes_list(bytes@) && list_bytes(v@) == bytes@,
        list matches Err(e) ==> e == Error::CorruptArtifact,
{
    if bytes.len() % 4 != 0 {
        return Err(Error::CorruptArtifact);
    }
    let count: usize = bytes.len() / 4;
    let mut list: Vec<u32> = Vec::new();
    let mut i: usize = 0;
    while i < count
        invariant
            i <= count,
            count == bytes@.len() / 4,
            bytes@.len() % 4 == 0,
            bytes@.len() <= usize::MAX,
            list@.len() == i,
            forall|j: int| 0 <= j < i ==> #[trigger] list@[j] == bytes_list(bytes@)[j],
        decreases count - i,
    {
        assert(4 * i + 4 <= bytes@.len());
        let id: u32 = read_id(bytes, 4 * i);
        list.push(id);
        i = i + 1;
    }
    proof {
        assert(list@ =~= bytes_list(bytes@));
        lemma_value_round_trip(bytes@);
    }
    Ok(list)
}

} // verus!
