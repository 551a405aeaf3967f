//! The exact hash of a file: SHA-256 over its bytes, read piece by piece, written in hexadecimal.

use sha2::Digest;
use vstd::prelude::*;

verus! {

/// A running SHA-256 computation of the crate `sha2`. Verus cannot take the crate's own type, whose
/// generic bounds name traits that it does not know, so the state is held here unseen.
#[verifier::external_body]
pub struct Sha256State {
    inner: sha2::Sha256,
}

/// The bytes that a running computation has been given so far.
pub uninterp spec fn absorbed(state: Sha256State) -> Seq<u8>;

/// The SHA-256 digest of a byte string.
pub uninterp spec fn sha256(bytes: Seq<u8>) -> Seq<u8>;

/// `Sha256::new` of the crate `sha2`: a computation that has been given nothing.
#[verifier::external_body]
fn sha256_new() -> (state: Sha256State)
    ensures
        absorbed(state) == Seq::<u8>::empty(),
{
    Sha256State { inner: sha2::Sha256::new() }
}

/// `Sha256::update` of the crate `sha2`: the bytes are added behind those given before.
#[verifier::external_body]
fn sha256_update(state: &mut Sha256State, bytes: &[u8])
    ensures
        absorbed(*final(state)) == absorbed(*old(state)) + bytes@,
{
    state.inner.update(bytes);
}

/// `Sha256::finalize` of the crate `sha2`: the digest of all the bytes given, 32 bytes long.
#[verifier::external_body]
fn sha256_finalize(state: Sha256State) -> (digest: Vec<u8>)
    ensures
        digest@ == sha256(absorbed(state)),
        digest@.len() == 32,
{
    state.inner.finalize().to_vec()
}

/// The hexadecimal digit for a number below sixteen, in lower case.
pub open spec fn hex_digit(d: nat) -> char {
    if d < 10 {
        (48 + d) as char
    } else {
        (87 + d) as char
    }
}

/// A byte string in lower-case hexadecimal, two digits for each byte.
pub open spec fn hex(bytes: Seq<u8>) -> Seq<char>
    decreases bytes.len(),
{
    if bytes.len() == 0 {
        Seq::empty()
    } else {
        hex(bytes.drop_last()) + seq![
            hex_digit((bytes.last() / 16) as nat),
            hex_digit((bytes.last() % 16) as nat),
        ]
    }
}

fn hex_digit_of(d: u8) -> (c: char)
    requires
        d < 16,
    ensures
        c == hex_digit(d as nat),
{
    match d {
        0 => '0',
        1 => '1',
        2 => '2',
        3 => '3',
        4 => '4',
        5 => '5',
        6 => '6',
        7 => '7',
        8 => '8',
        9 => '9',
        10 => 'a',
        11 => 'b',
        12 => 'c',
        13 => 'd',
        14 => 'e',
        _ => 'f',
    }
}

/// A byte string in lower-case hexadecimal.
pub fn to_hex(bytes: &[u8]) -> (text: String)
    ensures
        text@ == hex(bytes@),
{
    let mut text = String::new();
    let mut i: usize = 0;
    assert(bytes@.take(0) =~= Seq::<u8>::empty());
    while i < bytes.len()
        invariant
            i <= bytes@.len(),
            text@ == hex(bytes@.take(i as int)),
        decreases bytes@.len() - i,
    {
        let b = bytes[i];
        assert(bytes@.take(i + 1).drop_last() =~= bytes@.take(i as int));
        text.push(hex_digit_of(b / 16));
        text.push(hex_digit_of(b % 16));
        assert(text@ =~= hex(bytes@.take(i + 1)));
        i += 1;
    }
    assert(bytes@.take(bytes@.len() as int) =~= bytes@);
    text
}

proof fn lemma_hex_pair(x: u8, y: u8)
    requires
        hex_digit((x / 16) as nat) == hex_digit((y / 16) as nat),
        hex_digit((x % 16) as nat) == hex_digit((y % 16) as nat),
    ensures
        x == y,
{
    assert(forall|d: nat| d < 10 ==> (#[trigger] hex_digit(d) as u32) == 48 + d);
    assert(forall|d: nat| 10 <= d < 16 ==> (#[trigger] hex_digit(d) as u32) == 87 + d);
}

proof fn lemma_hex_len(bytes: Seq<u8>)
    ensures
        hex(bytes).len() == 2 * bytes.len(),
    decreases bytes.len(),
{
    if bytes.len() > 0 {
        lemma_hex_len(bytes.drop_last());
    }
}

/// Different byte strings are written differently in hexadecimal, so files are grouped by their
/// digests themselves.
pub proof fn law_hex_injective(a: Seq<u8>, b: Seq<u8>)
    requires
        hex(a) == hex(b),
    ensures
        a == b,
    decreases a.len(),
{
    lemma_hex_len(a);
    lemma_hex_len(b);
    if a.len() > 0 {
        let n = hex(a).len();
        lemma_hex_len(a.drop_last());
        lemma_hex_len(b.drop_last());
        assert(hex(a)[n - 1] == hex_digit((a.last() % 16) as nat));
        assert(hex(b)[n - 1] == hex_digit((b.last() % 16) as nat));
        assert(hex(a)[n - 2] == hex_digit((a.last() / 16) as nat));
        assert(hex(b)[n - 2] == hex_digit((b.last() / 16) as nat));
        lemma_hex_pair(a.last(), b.last());
        assert(hex(a.drop_last()) =~= hex(a).take(n - 2));
        assert(hex(b.drop_last()) =~= hex(b).take(n - 2));
        law_hex_injective(a.drop_last(), b.drop_last());
        assert(a =~= a.drop_last().push(a.last()));
        assert(b =~= b.drop_last().push(b.last()));
    } else {
        assert(a =~= b);
    }
}

/// The hash of a file whose bytes come in pieces. The view is what has been read so far.
pub struct FileHasher {
    state: Sha256State,
}

impl View for FileHasher {
    type V = Seq<u8>;

    closed spec fn view(&self) -> Seq<u8> {
        absorbed(self.state)
    }
}

impl FileHasher {
    /// Before the first piece.
    pub fn new() -> (hasher: Self)
        ensures
            hasher@ == Seq::<u8>::empty(),
    {
        FileHasher { state: sha256_new() }
    }

    /// Takes the next piece. An empty piece is the end of the file: the answer says whether there
    /// is more to read.
    pub fn absorb(&mut self, piece: &[u8]) -> (more: bool)
        ensures
            final(self)@ == old(self)@ + piece@,
            more == (piece@.len() > 0),
    {
        if piece.len() == 0 {
            assert(old(self)@ + piece@ =~= old(self)@);
            return false;
        }
        sha256_update(&mut self.state, piece);
        true
    }

    /// The digest of everything read, in hexadecimal.
    pub fn finish(self) -> (text: String)
        ensures
            text@ == hex(sha256(self@)),
            text@.len() == 64,
    {
        let digest = sha256_finalize(self.state);
        proof {
            lemma_hex_len(digest@);
        }
        to_hex(digest.as_slice())
    }
}

/// What a hexadecimal digit in lower case stands for.
pub open spec fn digit_value(c: char) -> int {
    if '0' <= c <= '9' {
        c as int - '0' as int
    } else {
        c as int - 'a' as int + 10
    }
}

/// Every byte is written as two digits of `0` to `9` and `a` to `f`, the higher one first.
pub proof fn law_hex_writes_every_byte(bytes: Seq<u8>, i: int)
    requires
        0 <= i < bytes.len(),
    ensures
        hex(bytes).len() == 2 * bytes.len(),
        '0' <= hex(bytes)[2 * i] <= '9' || 'a' <= hex(bytes)[2 * i] <= 'f',
        '0' <= hex(bytes)[2 * i + 1] <= '9' || 'a' <= hex(bytes)[2 * i + 1] <= 'f',
        digit_value(hex(bytes)[2 * i]) * 16 + digit_value(hex(bytes)[2 * i + 1]) == bytes[i],
    decreases bytes.len(),
{
    lemma_hex_len(bytes);
    lemma_hex_len(bytes.drop_last());
    if i < bytes.len() - 1 {
        law_hex_writes_every_byte(bytes.drop_last(), i);
        assert(hex(bytes)[2 * i] == hex(bytes.drop_last())[2 * i]);
        assert(hex(bytes)[2 * i + 1] == hex(bytes.drop_last())[2 * i + 1]);
    } else {
        assert(forall|d: nat| d < 10 ==> (#[trigger] hex_digit(d) as u32) == 48 + d);
        assert(forall|d: nat| 10 <= d < 16 ==> (#[trigger] hex_digit(d) as u32) == 87 + d);
        let b = bytes.last();
        assert(hex(bytes)[2 * i] == hex_digit((b / 16) as nat));
        assert(hex(bytes)[2 * i + 1] == hex_digit((b % 16) as nat));
        assert(b == bytes[i]);
    }
}

} // verus!
