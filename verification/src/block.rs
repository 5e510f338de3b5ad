//! Fixed-width blocks of bytes and their exclusive-or.

use vstd::prelude::*;

verus! {

/// Width of every block, in bytes.
pub const BLOCK_BYTES: usize = 1024;

/// Exclusive-or of two byte strings, position by position, over the length of
/// the first.
pub open spec fn xor_bytes(a: Seq<u8>, b: Seq<u8>) -> Seq<u8> {
    Seq::new(a.len(), |i: int| a[i] ^ b[i])
}

/// The block of `BLOCK_BYTES` zero bytes.
pub open spec fn zero_bytes() -> Seq<u8> {
    Seq::new(BLOCK_BYTES as nat, |i: int| 0u8)
}

/// A byte vector of width `BLOCK_BYTES`: the unit that packets combine.
#[derive(Debug, Hash)]
pub struct Block {
    pub data: [u8; BLOCK_BYTES],
}

impl View for Block {
    type V = Seq<u8>;

    open spec fn view(&self) -> Seq<u8> {
        self.data@
    }
}

impl Block {
    /// The zero block, the identity of exclusive-or.
    pub fn new() -> (block: Block)
        ensures
            block@ == zero_bytes(),
    {
        let block = Block { data: [0u8; BLOCK_BYTES] };
        assert(block@ =~= zero_bytes());
        block
    }

    /// The block that holds exactly the given bytes.
    pub fn from_data(data: [u8; BLOCK_BYTES]) -> (block: Block)
        ensures
            block@ == data@,
            block.data == data,
    {
        Block { data }
    }

    /// The bytes of the block.
    pub fn data(&self) -> (bytes: &[u8])
        ensures
            bytes@ == self@,
    {
        self.data.as_slice()
    }

    /// Replaces the block by its exclusive-or with `rhs`.
    pub fn xor_assign(&mut self, rhs: &Block)
        ensures
            final(self)@ == xor_bytes(old(self)@, rhs@),
    {
        let mut i: usize = 0;
        while i < BLOCK_BYTES
            invariant
                i <= BLOCK_BYTES,
                forall|j: int| 0 <= j < i ==> self.data@[j] == old(self).data@[j] ^ rhs.data@[j],
                forall|j: int| i <= j < BLOCK_BYTES ==> self.data@[j] == old(self).data@[j],
            decreases BLOCK_BYTES - i,
        {
            let byte: u8 = self.data[i] ^ rhs.data[i];
            self.data[i] = byte;
            i += 1;
        }
        assert(self@ =~= xor_bytes(old(self)@, rhs@));
    }
}

/// Exclusive-or with the zero block changes nothing, and every block is its
/// own inverse.
pub proof fn lemma_xor_identity(b: Block)
    ensures
        xor_bytes(b@, zero_bytes()) == b@,
        xor_bytes(zero_bytes(), b@) == b@,
        xor_bytes(b@, b@) == zero_bytes(),
{
    lemma_xor_zero(b@);
}

/// The zero block is a two-sided identity of exclusive-or on byte strings of
/// block width, and each such string cancels itself.
pub proof fn lemma_xor_zero(b: Seq<u8>)
    requires
        b.len() == BLOCK_BYTES,
    ensures
        xor_bytes(b, zero_bytes()) == b,
        xor_bytes(zero_bytes(), b) == b,
        xor_bytes(b, b) == zero_bytes(),
{
    assert forall|i: int| 0 <= i < BLOCK_BYTES implies #[trigger] (b[i] ^ 0u8) == b[i] && (0u8
        ^ b[i]) == b[i] && (b[i] ^ b[i]) == 0u8 by {
        let x = b[i];
        assert(x ^ 0u8 == x && 0u8 ^ x == x && x ^ x == 0u8) by (bit_vector);
    }
    assert(xor_bytes(b, zero_bytes()) =~= b);
    assert(xor_bytes(zero_bytes(), b) =~= b);
    assert(xor_bytes(b, b) =~= zero_bytes());
}

/// Exclusive-or is associative.
pub proof fn lemma_xor_assoc(a: Seq<u8>, b: Seq<u8>, c: Seq<u8>)
    requires
        a.len() == b.len(),
        a.len() == c.len(),
    ensures
        xor_bytes(xor_bytes(a, b), c) == xor_bytes(a, xor_bytes(b, c)),
{
    assert forall|i: int| 0 <= i < a.len() implies #[trigger] ((a[i] ^ b[i]) ^ c[i]) == (a[i] ^ (
    b[i] ^ c[i])) by {
        let x = a[i];
        let y = b[i];
        let z = c[i];
        assert((x ^ y) ^ z == x ^ (y ^ z)) by (bit_vector);
    }
    assert(xor_bytes(xor_bytes(a, b), c) =~= xor_bytes(a, xor_bytes(b, c)));
}

/// Exclusive-or is commutative.
pub proof fn lemma_xor_comm(a: Seq<u8>, b: Seq<u8>)
    requires
        a.len() == b.len(),
    ensures
        xor_bytes(a, b) == xor_bytes(b, a),
{
    assert forall|i: int| 0 <= i < a.len() implies #[trigger] (a[i] ^ b[i]) == (b[i] ^ a[i]) by {
        let x = a[i];
        let y = b[i];
        assert(x ^ y == y ^ x) by (bit_vector);
    }
    assert(xor_bytes(a, b) =~= xor_bytes(b, a));
}

/// A string that is combined into both sides of an exclusive-or cancels.
pub proof fn lemma_xor_cancel(a: Seq<u8>, b: Seq<u8>, x: Seq<u8>)
    requires
        a.len() == b.len(),
        a.len() == x.len(),
    ensures
        xor_bytes(xor_bytes(a, x), xor_bytes(b, x)) == xor_bytes(a, b),
{
    assert forall|i: int| 0 <= i < a.len() implies #[trigger] ((a[i] ^ x[i]) ^ (b[i] ^ x[i])) == (
    a[i] ^ b[i]) by {
        let p = a[i];
        let q = b[i];
        let r = x[i];
        assert((p ^ r) ^ (q ^ r) == p ^ q) by (bit_vector);
    }
    assert(xor_bytes(xor_bytes(a, x), xor_bytes(b, x)) =~= xor_bytes(a, b));
}

/// The last two operands of a chain of exclusive-ors can change places.
pub proof fn lemma_xor_swap(a: Seq<u8>, b: Seq<u8>, x: Seq<u8>)
    requires
        a.len() == b.len(),
        a.len() == x.len(),
    ensures
        xor_bytes(xor_bytes(a, x), b) == xor_bytes(xor_bytes(a, b), x),
{
    assert forall|i: int| 0 <= i < a.len() implies #[trigger] ((a[i] ^ x[i]) ^ b[i]) == ((a[i]
        ^ b[i]) ^ x[i]) by {
        let p = a[i];
        let q = b[i];
        let r = x[i];
        assert((p ^ r) ^ q == (p ^ q) ^ r) by (bit_vector);
    }
    assert(xor_bytes(xor_bytes(a, x), b) =~= xor_bytes(xor_bytes(a, b), x));
}

impl Clone for Block {
    fn clone(&self) -> (block: Block)
        ensures
            block == *self,
    {
        Block { data: self.data }
    }
}

impl PartialEq for Block {
    fn eq(&self, other: &Block) -> (equal: bool) {
        let mut i: usize = 0;
        while i < BLOCK_BYTES
            invariant
                i <= BLOCK_BYTES,
                forall|j: int| 0 <= j < i ==> self.data@[j] == other.data@[j],
            decreases BLOCK_BYTES - i,
        {
            if self.data[i] != other.data[i] {
                return false;
            }
            i += 1;
        }
        assert(self@ =~= other@);
        true
    }
}

impl vstd::std_specs::cmp::PartialEqSpecImpl for Block {
    open spec fn obeys_eq_spec() -> bool {
        true
    }

    open spec fn eq_spec(&self, other: &Block) -> bool {
        self@ == other@
    }
}

impl Eq for Block {

}

impl<'a> core::ops::BitXorAssign<&'a Block> for Block {
    fn bitxor_assign(&mut self, rhs: &'a Block)
        ensures
            final(self)@ == xor_bytes(old(self)@, rhs@),
    {
        self.xor_assign(rhs);
    }
}

impl<'a> core::ops::BitXor<&'a Block> for Block {
    type Output = Block;

    fn bitxor(self, rhs: &'a Block) -> (block: Block)
        ensures
            block@ == xor_bytes(self@, rhs@),
    {
        let mut result = self;
        result.xor_assign(rhs);
        proof {
            let chosen = choose|block: Block| block@ == xor_bytes(self@, rhs@);
            assert(chosen.data =~= result.data);
        }
        result
    }
}

impl<'a> vstd::std_specs::ops::BitXorSpecImpl<&'a Block> for Block {
    open spec fn obeys_bitxor_spec() -> bool {
        true
    }

    open spec fn bitxor_req(self, rhs: &'a Block) -> bool {
        true
    }

    open spec fn bitxor_spec(self, rhs: &'a Block) -> Block {
        choose|block: Block| block@ == xor_bytes(self@, rhs@)
    }
}

} // verus!
