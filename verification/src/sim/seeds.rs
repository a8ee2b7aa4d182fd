//! The streams of nodes are told apart by node and by seed.

use vstd::arithmetic::div_mod::{lemma_mod_multiples_vanish, lemma_mul_mod_noop_left};
use vstd::bytes::{
    lemma_auto_spec_u64_to_from_le_bytes, spec_u64_from_le_bytes, spec_u64_to_le_bytes,
};
use vstd::prelude::*;

use crate::config::NodeId;
use crate::sim::{node_seed, rotated_left, rotated_right, splitmix};

verus! {

/// Multiplying by a number that has an inverse is undone by the inverse.
proof fn lemma_undone(x: u64, c: u64, d: u64, q: int)
    requires
        c * d == q * 0x1_0000_0000_0000_0000 + 1,
    ensures
        ((x * c) % 0x1_0000_0000_0000_0000) * d % 0x1_0000_0000_0000_0000 == x,
{
    let m: int = 0x1_0000_0000_0000_0000;
    lemma_mul_mod_noop_left(x * c, d as int, m);
    assert((x * c) * d == m * (q * x) + x) by (nonlinear_arith)
        requires
            c * d == q * 0x1_0000_0000_0000_0000 + 1,
            m == 0x1_0000_0000_0000_0000,
    ;
    lemma_mod_multiples_vanish(q * x, x as int, m);
}

proof fn lemma_times_tells_apart(x: u64, y: u64, c: u64, d: u64, q: int)
    requires
        c * d == q * 0x1_0000_0000_0000_0000 + 1,
        x.wrapping_mul(c) == y.wrapping_mul(c),
    ensures
        x == y,
{
    lemma_undone(x, c, d, q);
    lemma_undone(y, c, d, q);
}

/// One step of the generator tells any two values apart.
pub proof fn law_mixing_tells_values_apart(x: u64, y: u64)
    requires
        splitmix(x) == splitmix(y),
    ensures
        x == y,
{
    let a = x.wrapping_add(0x9e37_79b9_7f4a_7c15);
    let b = (a ^ (a >> 30)).wrapping_mul(0xbf58_476d_1ce4_e5b9);
    let c = (b ^ (b >> 27)).wrapping_mul(0x94d0_49bb_1331_11eb);
    let e = y.wrapping_add(0x9e37_79b9_7f4a_7c15);
    let f = (e ^ (e >> 30)).wrapping_mul(0xbf58_476d_1ce4_e5b9);
    let g = (f ^ (f >> 27)).wrapping_mul(0x94d0_49bb_1331_11eb);
    assert(c == g) by (bit_vector)
        requires
            c ^ (c >> 31) == g ^ (g >> 31),
    ;
    lemma_times_tells_apart(
        b ^ (b >> 27),
        f ^ (f >> 27),
        0x94d0_49bb_1331_11eb,
        0x3196_42b2_d24d_8ec3,
        2077064247507883091,
    );
    assert(b == f) by (bit_vector)
        requires
            b ^ (b >> 27) == f ^ (f >> 27),
    ;
    lemma_times_tells_apart(
        a ^ (a >> 30),
        e ^ (e >> 30),
        0xbf58_476d_1ce4_e5b9,
        0x96de_1b17_3f11_9089,
        8125545580553827436,
    );
    assert(a == e) by (bit_vector)
        requires
            a ^ (a >> 30) == e ^ (e >> 30),
    ;
}

/// The value that a step of the generator was made from: the shifts and the
/// multiplications undone, last first.
pub open spec fn unmixed(mixed: u64) -> u64 {
    let c = mixed ^ (mixed >> 31) ^ (mixed >> 62);
    let d = c.wrapping_mul(0x3196_42b2_d24d_8ec3);
    let b = d ^ (d >> 27) ^ (d >> 54);
    let e = b.wrapping_mul(0x96de_1b17_3f11_9089);
    let a = e ^ (e >> 30) ^ (e >> 60);
    a.wrapping_sub(0x9e37_79b9_7f4a_7c15)
}

/// A step of the generator loses nothing: it can be undone.
pub proof fn law_mixing_can_be_undone(value: u64)
    ensures
        unmixed(splitmix(value)) == value,
{
    let a = value.wrapping_add(0x9e37_79b9_7f4a_7c15);
    let e = a ^ (a >> 30);
    let b = e.wrapping_mul(0xbf58_476d_1ce4_e5b9);
    let d = b ^ (b >> 27);
    let c = d.wrapping_mul(0x94d0_49bb_1331_11eb);
    let mixed = c ^ (c >> 31);
    assert(mixed ^ (mixed >> 31) ^ (mixed >> 62) == c) by (bit_vector)
        requires
            mixed == c ^ (c >> 31),
    ;
    lemma_undone(
        d,
        0x94d0_49bb_1331_11eb,
        0x3196_42b2_d24d_8ec3,
        2077064247507883091,
    );
    assert(c.wrapping_mul(0x3196_42b2_d24d_8ec3) == d);
    assert(d ^ (d >> 27) ^ (d >> 54) == b) by (bit_vector)
        requires
            d == b ^ (b >> 27),
    ;
    lemma_undone(
        e,
        0xbf58_476d_1ce4_e5b9,
        0x96de_1b17_3f11_9089,
        8125545580553827436,
    );
    assert(b.wrapping_mul(0x96de_1b17_3f11_9089) == e);
    assert(e ^ (e >> 30) ^ (e >> 60) == a) by (bit_vector)
        requires
            e == a ^ (a >> 30),
    ;
}

/// The four words of a node's seed, undone, give back the simulation's seed and the
/// node, each mixed into the other in another way.
pub proof fn law_seed_words_hold_seed_and_node(root: u64, id: NodeId)
    ensures
        ({
            let seed = node_seed(root, id);
            let word = |i: int| unmixed(spec_u64_from_le_bytes(seed.subrange(8 * i, 8 * i + 8)));
            &&& word(0) == root ^ ((id << 17u64) | (id >> 47u64))
            &&& word(1) == ((root << 23u64) | (root >> 41u64)) ^ id
            &&& word(2) == root ^ ((id >> 11u64) | (id << 53u64)) ^ 0x9e37_79b9_7f4a_7c15
            &&& word(3) == ((root >> 29u64) | (root << 35u64)) ^ id ^ 0xd1b5_4a32_d192_ed03
        }),
{
    lemma_auto_spec_u64_to_from_le_bytes();
    let seed = node_seed(root, id);
    let a = root ^ rotated_left(id, 17);
    let b = rotated_left(root, 23) ^ id;
    let c = root ^ rotated_right(id, 11) ^ 0x9e37_79b9_7f4a_7c15;
    let d = rotated_right(root, 29) ^ id ^ 0xd1b5_4a32_d192_ed03;
    assert(seed.subrange(0, 8) =~= spec_u64_to_le_bytes(splitmix(a)));
    assert(seed.subrange(8, 16) =~= spec_u64_to_le_bytes(splitmix(b)));
    assert(seed.subrange(16, 24) =~= spec_u64_to_le_bytes(splitmix(c)));
    assert(seed.subrange(24, 32) =~= spec_u64_to_le_bytes(splitmix(d)));
    law_mixing_can_be_undone(a);
    law_mixing_can_be_undone(b);
    law_mixing_can_be_undone(c);
    law_mixing_can_be_undone(d);
}

/// Two nodes of a simulation draw from different streams, and so does one node in
/// simulations with different seeds.
pub proof fn law_nodes_draw_from_streams_of_their_own(
    root: u64,
    other_root: u64,
    id: NodeId,
    other_id: NodeId,
)
    ensures
        id != other_id ==> node_seed(root, id) != node_seed(root, other_id),
        root != other_root ==> node_seed(root, id) != node_seed(other_root, id),
        node_seed(root, id).len() == 32,
{
    lemma_auto_spec_u64_to_from_le_bytes();
    let first = splitmix(root ^ rotated_left(id, 17));
    let second = splitmix(root ^ rotated_left(other_id, 17));
    let third = splitmix(other_root ^ rotated_left(id, 17));
    assert(node_seed(root, id).take(8) =~= spec_u64_to_le_bytes(first));
    assert(node_seed(root, other_id).take(8) =~= spec_u64_to_le_bytes(second));
    assert(node_seed(other_root, id).take(8) =~= spec_u64_to_le_bytes(third));
    if node_seed(root, id) == node_seed(root, other_id) {
        assert(first == second);
        law_mixing_tells_values_apart(root ^ rotated_left(id, 17), root ^ rotated_left(other_id, 17));
        let a = rotated_left(id, 17);
        let b = rotated_left(other_id, 17);
        assert(a == b) by (bit_vector)
            requires
                root ^ a == root ^ b,
        ;
        assert(id == other_id) by (bit_vector)
            requires
                (id << 17u64) | (id >> 47u64) == (other_id << 17u64) | (other_id >> 47u64),
        ;
    }
    if node_seed(root, id) == node_seed(other_root, id) {
        assert(first == third);
        law_mixing_tells_values_apart(root ^ rotated_left(id, 17), other_root ^ rotated_left(id, 17));
        let a = rotated_left(id, 17);
        assert(root == other_root) by (bit_vector)
            requires
                root ^ a == other_root ^ a,
        ;
    }
}

} // verus!
