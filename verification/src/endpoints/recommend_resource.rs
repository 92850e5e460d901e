//! The recommendation endpoint: its parameters and how a visit extends the evolving
//! session.

use vstd::prelude::*;

verus! {

/// The parameters of a recommendation request.
pub struct V1QueryParams {
    pub item_id: u64,
    pub session_id: String,
    pub user_consent: bool,
}

/// The MD5 digest of bytes.
pub uninterp spec fn md5_digest(data: Seq<u8>) -> Seq<u8>;

/// `md5::compute`: the digest of the data, 16 bytes.
#[verifier::external_body]
fn compute_digest(data: &[u8]) -> (digest: Vec<u8>)
    ensures
        digest@ == md5_digest(data@),
        digest@.len() == 16,
{
    md5::compute(data).0.to_vec()
}

/// The number that bytes write, the first byte being the most significant.
pub open spec fn big_endian(bytes: Seq<u8>) -> nat
    decreases bytes.len(),
{
    if bytes.len() == 0 {
        0
    } else {
        big_endian(bytes.drop_last()) * 256 + bytes.last() as nat
    }
}

/// The number of numbers that `n` bytes can write.
pub open spec fn numbers_of(n: nat) -> nat
    decreases n,
{
    if n == 0 {
        1
    } else {
        numbers_of((n - 1) as nat) * 256
    }
}

/// Sixteen bytes write a number of 128 bits.
pub proof fn lemma_numbers_of_sixteen()
    ensures
        numbers_of(16) == 0x1_0000_0000_0000_0000_0000_0000_0000_0000,
{
    reveal_with_fuel(numbers_of, 17);
}

/// The number that up to 16 bytes write, the first byte being the most significant.
pub fn number_of(bytes: &[u8]) -> (number: u128)
    requires
        bytes@.len() <= 16,
    ensures
        number == big_endian(bytes@),
{
    let n: usize = bytes.len();
    let mut number: u128 = 0;
    let mut i: usize = 0;
    proof {
        assert(bytes@.take(0) =~= Seq::<u8>::empty());
        lemma_numbers_of_sixteen();
    }
    while i < n
        invariant
            0 <= i <= n,
            n == bytes@.len(),
            n <= 16,
            number == big_endian(bytes@.take(i as int)),
            number < numbers_of(i as nat),
            numbers_of(16) == 0x1_0000_0000_0000_0000_0000_0000_0000_0000,
        decreases n - i,
    {
        proof {
            assert(bytes@.take(i + 1).drop_last() =~= bytes@.take(i as int));
            assert(bytes@.take(i + 1).last() == bytes@[i as int]);
            lemma_numbers_of_grow((i + 1) as nat, 16);
        }
        number = number * 256 + bytes[i] as u128;
        i = i + 1;
    }
    proof {
        assert(bytes@.take(n as int) =~= bytes@);
    }
    number
}

/// More bytes write more numbers.
pub proof fn lemma_numbers_of_grow(few: nat, many: nat)
    requires
        few <= many,
    ensures
        numbers_of(few) <= numbers_of(many),
        numbers_of(few) >= 1,
    decreases many,
{
    if few < many {
        lemma_numbers_of_grow(few, (many - 1) as nat);
    } else if few > 0 {
        lemma_numbers_of_grow((few - 1) as nat, (few - 1) as nat);
    }
}

/// The key under which the evolving session of a visitor is stored: the MD5 digest
/// of the session identifier, read as a number of 128 bits.
pub fn evolving_session_id(session_id: &[u8]) -> (key: u128)
    ensures
        key == big_endian(md5_digest(session_id@)),
{
    let digest = compute_digest(session_id);
    number_of(digest.as_slice())
}

/// The evolving session after a visit to `most_recent_item`, from what was stored.
pub open spec fn extended_session(stored: Seq<u64>, most_recent_item: u64, max_items: nat) -> Seq<u64> {
    if stored.len() == 0 {
        seq![most_recent_item]
    } else if stored.last() == most_recent_item {
        stored
    } else if stored.len() + 1 > max_items {
        stored.push(most_recent_item).drop_first()
    } else {
        stored.push(most_recent_item)
    }
}

/// Extends the stored evolving session by the item just visited: an item that is
/// already the newest is not added again, and when the session grows beyond
/// `max_items_in_session` its oldest item leaves.
pub fn extend_session(stored: Vec<u64>, most_recent_item: u64, max_items_in_session: usize) -> (items: Vec<
    u64,
>)
    ensures
        items@ == extended_session(stored@, most_recent_item, max_items_in_session as nat),
        items@.len() > 0,
        items@.last() == most_recent_item,
{
    let mut items = stored;
    let n: usize = items.len();
    if n == 0 {
        items.push(most_recent_item);
        assert(items@ =~= seq![most_recent_item]);
    } else if items[n - 1] != most_recent_item {
        if n >= max_items_in_session {
            let _ = items.remove(0);
            items.push(most_recent_item);
            assert(items@ =~= stored@.push(most_recent_item).drop_first());
        } else {
            items.push(most_recent_item);
        }
    }
    items
}

/// The evolving session of a request: the stored one extended by the visited item
/// for a visitor who consents, the visited item alone for one who does not.
pub fn session_items_for(
    params: &V1QueryParams,
    stored: Vec<u64>,
    max_items_in_session: usize,
) -> (items: Vec<u64>)
    ensures
        items@ == (if params.user_consent {
            extended_session(stored@, params.item_id, max_items_in_session as nat)
        } else {
            seq![params.item_id]
        }),
{
    if params.user_consent {
        extend_session(stored, params.item_id, max_items_in_session)
    } else {
        let mut items: Vec<u64> = Vec::new();
        items.push(params.item_id);
        assert(items@ =~= seq![params.item_id]);
        items
    }
}

} // verus!
