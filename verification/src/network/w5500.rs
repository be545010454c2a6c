//! What the Ethernet bring-up derives from the address of the board.

use vstd::prelude::*;

verus! {

/// How many packets the driver queues in each direction.
pub const PACKET_QUEUE_DEPTH: usize = 4;

/// How many sockets the network stack provides: four for the API, one for DHCP, and a spare.
pub const SOCKET_COUNT: usize = 6;

/// The number that a string of bytes writes in base 256, the most significant byte first.
pub open spec fn big_endian(bytes: Seq<u8>) -> nat
    decreases bytes.len(),
{
    if bytes.len() == 0 {
        0
    } else {
        big_endian(bytes.drop_last()) * 256 + bytes.last() as nat
    }
}

/// A string of `n` bytes writes a number below `256` to the power `n`.
proof fn lemma_big_endian_bound(bytes: Seq<u8>)
    ensures
        big_endian(bytes) < vstd::arithmetic::power::pow(256, bytes.len()),
    decreases bytes.len(),
{
    reveal(vstd::arithmetic::power::pow);
    if bytes.len() > 0 {
        lemma_big_endian_bound(bytes.drop_last());
    }
}

/// The seed of the network stack: the address of the board, read as a number.
pub fn network_seed(mac: [u8; 6]) -> (seed: u64)
    ensures
        seed == big_endian(mac@),
        seed == mac@[0] * 0x100_0000_0000 + mac@[1] * 0x1_0000_0000 + mac@[2] * 0x100_0000 + mac@[3]
            * 0x1_0000 + mac@[4] * 0x100 + mac@[5],
        seed < 0x1_0000_0000_0000,
{
    let mut seed: u64 = 0;
    let mut i: usize = 0;
    assert(big_endian(mac@.take(0)) == 0);
    assert(vstd::arithmetic::power::pow(256, 6) == 0x1_0000_0000_0000) by {
        reveal_with_fuel(vstd::arithmetic::power::pow, 7);
    }
    while i < 6
        invariant
            i <= 6,
            mac@.len() == 6,
            seed == big_endian(mac@.take(i as int)),
            seed <= 0x1_0000_0000_0000,
            vstd::arithmetic::power::pow(256, 6) == 0x1_0000_0000_0000,
        decreases 6 - i,
    {
        proof {
            assert(mac@.take(i + 1).drop_last() =~= mac@.take(i as int));
            lemma_big_endian_bound(mac@.take(i + 1));
            vstd::arithmetic::power::lemma_pow_increases(256, (i + 1) as nat, 6);
        }
        seed = seed * 256 + mac[i] as u64;
        i = i + 1;
    }
    proof {
        assert(mac@.take(6) =~= mac@);
        lemma_big_endian_bound(mac@);
        address_bytes_count_by_their_place(mac@);
    }
    seed
}

/// Boards with different addresses seed their network stacks differently.
pub proof fn different_addresses_give_different_seeds(left: Seq<u8>, right: Seq<u8>)
    requires
        left.len() == right.len(),
        left != right,
    ensures
        big_endian(left) != big_endian(right),
    decreases left.len(),
{
    if left.len() == 0 {
        assert(left =~= right);
    } else if left.drop_last() == right.drop_last() {
        assert(left =~= left.drop_last().push(left.last()));
        assert(right =~= right.drop_last().push(right.last()));
    } else {
        different_addresses_give_different_seeds(left.drop_last(), right.drop_last());
    }
}

/// Each byte of an address counts 256 times as much as the one after it.
pub proof fn address_bytes_count_by_their_place(mac: Seq<u8>)
    requires
        mac.len() == 6,
    ensures
        big_endian(mac) == mac[0] * 0x100_0000_0000 + mac[1] * 0x1_0000_0000 + mac[2] * 0x100_0000
            + mac[3] * 0x1_0000 + mac[4] * 0x100 + mac[5],
{
    assert(mac.drop_last() =~= mac.take(5));
    assert(mac.take(5).drop_last() =~= mac.take(4));
    assert(mac.take(4).drop_last() =~= mac.take(3));
    assert(mac.take(3).drop_last() =~= mac.take(2));
    assert(mac.take(2).drop_last() =~= mac.take(1));
    assert(mac.take(1).drop_last() =~= mac.take(0));
    assert(big_endian(mac.take(0)) == 0);
    assert(big_endian(mac.take(1)) == mac[0]);
    assert(big_endian(mac.take(2)) == mac[0] * 0x100 + mac[1]);
    assert(big_endian(mac.take(3)) == mac[0] * 0x1_0000 + mac[1] * 0x100 + mac[2]);
    assert(big_endian(mac.take(4)) == mac[0] * 0x100_0000 + mac[1] * 0x1_0000 + mac[2] * 0x100
        + mac[3]);
    assert(big_endian(mac.take(5)) == mac[0] * 0x1_0000_0000 + mac[1] * 0x100_0000 + mac[2]
        * 0x1_0000 + mac[3] * 0x100 + mac[4]);
}

} // verus!
