use vstd::prelude::*;

verus! {

/// Length in bytes of each half of a key pair.
pub const KEY_LENGTH: usize = 32;

/// Number of leading public-key bytes that make up the comparable value.
pub const VALUE_BYTES: usize = 16;

/// The value of a byte sequence read as a big-endian unsigned integer.
pub open spec fn be_value(s: Seq<u8>) -> nat
    decreases s.len(),
{
    if s.len() == 0 {
        0
    } else {
        be_value(s.drop_last()) * 256 + s.last() as nat
    }
}

/// `256` raised to the power `n`.
pub open spec fn pow256(n: nat) -> nat
    decreases n,
{
    if n == 0 {
        1
    } else {
        256 * pow256((n - 1) as nat)
    }
}

/// The ordering value of a public key: its first sixteen bytes, big-endian.
pub open spec fn public_value(public: Seq<u8>) -> nat {
    be_value(public.take(VALUE_BYTES as int))
}

/// A key pair as two byte sequences: public half, then secret half.
pub struct KeyPair {
    pub public: Vec<u8>,
    pub secret: Vec<u8>,
}

/// The mathematical content of a [`KeyPair`].
pub ghost struct KeyPairModel {
    pub public: Seq<u8>,
    pub secret: Seq<u8>,
}

impl View for KeyPair {
    type V = KeyPairModel;

    open spec fn view(&self) -> KeyPairModel {
        KeyPairModel { public: self.public@, secret: self.secret@ }
    }
}

impl KeyPairModel {
    /// Both halves have the fixed key length.
    pub open spec fn wf(self) -> bool {
        self.public.len() == KEY_LENGTH && self.secret.len() == KEY_LENGTH
    }

    /// The comparable value of this pair's public half.
    pub open spec fn value(self) -> nat {
        public_value(self.public)
    }
}

proof fn lemma_be_value_bound(s: Seq<u8>)
    ensures
        be_value(s) < pow256(s.len()),
    decreases s.len(),
{
    if s.len() > 0 {
        lemma_be_value_bound(s.drop_last());
        let p = pow256((s.len() - 1) as nat);
        let v = be_value(s.drop_last());
        let b = s.last() as nat;
        assert(v * 256 + b < p * 256) by (nonlinear_arith)
            requires
                v < p,
                b < 256,
        ;
    }
}

/// Reads the first `VALUE_BYTES` bytes of `public` as a big-endian integer.
pub fn be_prefix_value(public: &[u8]) -> (r: u128)
    requires
        public@.len() >= VALUE_BYTES,
    ensures
        r as nat == public_value(public@),
{
    let mut acc: u128 = 0;
    let mut i: usize = 0;
    while i < VALUE_BYTES
        invariant
            i <= VALUE_BYTES,
            public@.len() >= VALUE_BYTES,
            acc as nat == be_value(public@.take(i as int)),
        decreases VALUE_BYTES - i,
    {
        let ghost prefix = public@.take(i as int + 1);
        proof {
            assert(prefix.drop_last() =~= public@.take(i as int));
            lemma_be_value_bound(prefix);
            lemma_pow256_16();
            assert(pow256(prefix.len()) <= pow256(16)) by {
                lemma_pow256_mono(prefix.len(), 16);
            }
        }
        acc = acc * 256 + public[i] as u128;
        i = i + 1;
    }
    acc
}

/// Relies on ed25519_dalek::Keypair::generate, fed by rand's thread-local
/// generator: a fresh random pair, each half given as its 32 bytes.
#[verifier::external_body]
pub(crate) fn generate_keypair() -> (r: KeyPair)
    ensures
        r@.wf(),
{
    let pair = ed25519_dalek::Keypair::generate(&mut rand::thread_rng());
    KeyPair { public: pair.public.to_bytes().to_vec(), secret: pair.secret.to_bytes().to_vec() }
}

/// The comparable value of a key pair: the first sixteen bytes of its public
/// half, big-endian.
pub fn public_key_to_u128(keypair: &KeyPair) -> (r: u128)
    requires
        keypair@.wf(),
    ensures
        r as nat == keypair@.value(),
{
    be_prefix_value(keypair.public.as_slice())
}

/// The comparable value of a well-formed pair fits in 128 bits.
pub proof fn lemma_value_fits(kp: KeyPairModel)
    requires
        kp.wf(),
    ensures
        kp.value() <= u128::MAX,
{
    lemma_be_value_bound(kp.public.take(VALUE_BYTES as int));
    lemma_pow256_16();
}

proof fn lemma_pow256_16()
    ensures
        pow256(16) == 0x1_0000_0000_0000_0000_0000_0000_0000_0000,
{
    reveal_with_fuel(pow256, 17);
}

proof fn lemma_pow256_mono(a: nat, b: nat)
    requires
        a <= b,
    ensures
        pow256(a) <= pow256(b),
    decreases b,
{
    if a < b {
        lemma_pow256_mono(a, (b - 1) as nat);
    }
}

} // verus!
