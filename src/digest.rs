use sha2::Digest;
use vstd::prelude::*;

verus! {

/// The SHA-256 hash of a byte sequence.
pub uninterp spec fn sha256_of(data: Seq<u8>) -> Seq<u8>;

/// The running state of `sha2::Sha256`, kept opaque: the crate's hasher is a
/// type alias over generic wrappers that cannot be declared field by field.
#[verifier::external_body]
pub struct Sha256State {
    inner: sha2::Sha256,
}

/// The bytes a hasher state has absorbed since it was created.
pub uninterp spec fn absorbed(h: Sha256State) -> Seq<u8>;

/// Relies on `sha2::Sha256::new` (via `Digest::new`): a fresh hasher has absorbed nothing.
#[verifier::external_body]
fn sha256_new() -> (r: Sha256State)
    ensures
        absorbed(r) == Seq::<u8>::empty(),
{
    Sha256State { inner: sha2::Sha256::new() }
}

/// Relies on `Digest::update` for `sha2::Sha256`: the block is appended to the input.
#[verifier::external_body]
fn sha256_update(h: &mut Sha256State, block: &[u8])
    ensures
        absorbed(*final(h)) == absorbed(*old(h)) + block@,
{
    h.inner.update(block);
}

/// Relies on `Digest::finalize` for `sha2::Sha256`: the 32-byte hash of all absorbed input.
#[verifier::external_body]
fn sha256_finalize(h: Sha256State) -> (r: Vec<u8>)
    ensures
        r@ == sha256_of(absorbed(h)),
        r@.len() == 32,
{
    h.inner.finalize().to_vec()
}

/// Relies on `String::push`: the character is appended at the end.
pub assume_specification[ String::push ](s: &mut String, ch: char)
    ensures
        final(s)@ == old(s)@.push(ch),
;

/// The lowercase hexadecimal digit for a value below 16.
pub open spec fn hex_digit(v: u8) -> char
    recommends
        v < 16,
{
    if v < 10 {
        ((v + 48) as u8) as char
    } else {
        ((v + 87) as u8) as char
    }
}

/// Two lowercase hexadecimal digits per byte, high nibble first.
pub open spec fn hex_of(bytes: Seq<u8>) -> Seq<char>
    decreases bytes.len(),
{
    if bytes.len() == 0 {
        Seq::empty()
    } else {
        hex_of(bytes.drop_last()) + seq![
            hex_digit(bytes.last() / 16),
            hex_digit(bytes.last() % 16),
        ]
    }
}

fn digit_char(v: u8) -> (c: char)
    requires
        v < 16,
    ensures
        c == hex_digit(v),
{
    if v < 10 {
        (v + 48) as char
    } else {
        (v + 87) as char
    }
}

/// Lowercase hexadecimal text of a byte sequence.
pub fn to_hex(bytes: &[u8]) -> (r: String)
    ensures
        r@ == hex_of(bytes@),
{
    let mut r = String::new();
    let mut i: usize = 0;
    while i < bytes.len()
        invariant
            i <= bytes@.len(),
            r@ == hex_of(bytes@.subrange(0, i as int)),
        decreases bytes@.len() - i,
    {
        let b = bytes[i];
        r.push(digit_char(b / 16));
        r.push(digit_char(b % 16));
        proof {
            let p = bytes@.subrange(0, i + 1);
            assert(p.drop_last() =~= bytes@.subrange(0, i as int));
        }
        i = i + 1;
    }
    assert(bytes@.subrange(0, i as int) =~= bytes@);
    r
}

/// An incremental SHA-256 computation fed block by block.
pub struct Hasher {
    state: Sha256State,
}

impl View for Hasher {
    type V = Seq<u8>;

    /// The bytes fed so far.
    closed spec fn view(&self) -> Seq<u8> {
        absorbed(self.state)
    }
}

impl Hasher {
    /// A hasher that has been fed nothing.
    pub fn new() -> (r: Hasher)
        ensures
            r@ == Seq::<u8>::empty(),
    {
        Hasher { state: sha256_new() }
    }

    /// Feeds one block; the digest will cover it after everything fed before.
    pub fn update(&mut self, block: &[u8])
        ensures
            final(self)@ == old(self)@ + block@,
    {
        sha256_update(&mut self.state, block);
    }

    /// The lowercase hexadecimal SHA-256 digest of everything fed.
    pub fn finish(self) -> (r: String)
        ensures
            r@ == hex_of(sha256_of(self@)),
            r@.len() == 64,
    {
        let bytes = sha256_finalize(self.state);
        let r = to_hex(bytes.as_slice());
        proof {
            lemma_hex_len(bytes@);
        }
        r
    }
}

/// Every byte gives two digits.
pub proof fn lemma_hex_len(bytes: Seq<u8>)
    ensures
        hex_of(bytes).len() == 2 * bytes.len(),
    decreases bytes.len(),
{
    if bytes.len() > 0 {
        lemma_hex_len(bytes.drop_last());
    }
}

/// Size of the blocks in which `digest_bytes` feeds its input.
pub const BLOCK_SIZE: usize = 8192;

/// The lowercase hexadecimal SHA-256 digest of `data`, fed in blocks of
/// `BLOCK_SIZE` bytes.
pub fn digest_bytes(data: &[u8]) -> (r: String)
    ensures
        r@ == hex_of(sha256_of(data@)),
        r@.len() == 64,
{
    let mut h = Hasher::new();
    let mut pos: usize = 0;
    while pos < data.len()
        invariant
            pos <= data@.len(),
            h@ == data@.subrange(0, pos as int),
        decreases data@.len() - pos,
    {
        let end: usize = if data.len() - pos > BLOCK_SIZE {
            pos + BLOCK_SIZE
        } else {
            data.len()
        };
        let block = vstd::slice::slice_subrange(data, pos, end);
        h.update(block);
        assert(h@ =~= data@.subrange(0, end as int));
        pos = end;
    }
    assert(data@.subrange(0, pos as int) =~= data@);
    h.finish()
}

/// The digest depends on the content alone: equal contents, however they
/// were read or split into blocks, give equal digests.
pub proof fn lemma_digest_deterministic(a: Seq<u8>, b: Seq<u8>)
    requires
        a == b,
    ensures
        hex_of(sha256_of(a)) == hex_of(sha256_of(b)),
{
}

} // verus!
