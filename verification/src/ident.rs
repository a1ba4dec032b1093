//! Page identity: a 32-byte content digest of a page's exact original text,
//! with a lowercase hexadecimal rendering used for intra-document anchors.

use vstd::prelude::*;
use vstd::string::StringExecFns;

verus! {

/// The SHA-256 digest of a byte sequence.
pub uninterp spec fn sha256_of(data: Seq<u8>) -> Seq<u8>;

/// Relies on sha2's `Sha256`: a pure function of the input bytes with a
/// 32-byte digest.
#[verifier::external_body]
fn sha256(data: &[u8]) -> (r: Vec<u8>)
    ensures
        r@ == sha256_of(data@),
        r@.len() == 32,
{
    let digest = <sha2::Sha256 as sha2::Digest>::digest(data);
    digest.to_vec()
}

/// The identity of a page with raw content `data`: its digest.
pub open spec fn page_id_of(data: Seq<u8>) -> Seq<u8> {
    sha256_of(data)
}

/// The identity of a page given as text: the digest of its UTF-8 bytes.
pub open spec fn content_id(s: Seq<char>) -> Seq<u8> {
    page_id_of(vstd::utf8::encode_utf8(s))
}

/// The lowercase hex digit of a nibble.
pub open spec fn hex_digit(n: u8) -> char {
    match n {
        0u8 => '0',
        1u8 => '1',
        2u8 => '2',
        3u8 => '3',
        4u8 => '4',
        5u8 => '5',
        6u8 => '6',
        7u8 => '7',
        8u8 => '8',
        9u8 => '9',
        10u8 => 'a',
        11u8 => 'b',
        12u8 => 'c',
        13u8 => 'd',
        14u8 => 'e',
        _ => 'f',
    }
}

/// The lowercase hex text of a byte sequence: two digits per byte.
pub open spec fn hex_of(bytes: Seq<u8>) -> Seq<char> {
    Seq::new(
        bytes.len() * 2,
        |i: int|
            if i % 2 == 0 {
                hex_digit(bytes[i / 2] / 16)
            } else {
                hex_digit(bytes[i / 2] % 16)
            },
    )
}

fn hex_digit_str(n: u8) -> (r: &'static str)
    requires
        n < 16,
    ensures
        r@ =~= seq![hex_digit(n)],
{
    proof {
        reveal_strlit("0");
        reveal_strlit("1");
        reveal_strlit("2");
        reveal_strlit("3");
        reveal_strlit("4");
        reveal_strlit("5");
        reveal_strlit("6");
        reveal_strlit("7");
        reveal_strlit("8");
        reveal_strlit("9");
        reveal_strlit("a");
        reveal_strlit("b");
        reveal_strlit("c");
        reveal_strlit("d");
        reveal_strlit("e");
        reveal_strlit("f");
    }
    match n {
        0u8 => "0",
        1u8 => "1",
        2u8 => "2",
        3u8 => "3",
        4u8 => "4",
        5u8 => "5",
        6u8 => "6",
        7u8 => "7",
        8u8 => "8",
        9u8 => "9",
        10u8 => "a",
        11u8 => "b",
        12u8 => "c",
        13u8 => "d",
        14u8 => "e",
        _ => "f",
    }
}

/// Lowercase hex rendering of a byte slice.
pub fn bytes_to_hex(bytes: &Vec<u8>) -> (r: String)
    ensures
        r@ == hex_of(bytes@),
{
    let mut out = String::new();
    let mut k: usize = 0;
    while k < bytes.len()
        invariant
            k <= bytes@.len(),
            out@ == hex_of(bytes@.take(k as int)),
        decreases bytes@.len() - k,
    {
        let b = bytes[k];
        out.append(hex_digit_str(b / 16));
        out.append(hex_digit_str(b % 16));
        proof {
            assert(out@ =~= hex_of(bytes@.take(k + 1)));
        }
        k += 1;
    }
    proof {
        assert(bytes@.take(bytes@.len() as int) =~= bytes@);
    }
    out
}

/// A unique page identifier.
///
/// Derived from the original content of the page, before any rewriting. It
/// is used as the anchor for a page's section and ensures a page reached
/// through different links and relative paths is included only once.
#[derive(Debug, Clone)]
pub struct PageId {
    digest: Vec<u8>,
}

impl View for PageId {
    type V = Seq<u8>;

    closed spec fn view(&self) -> Seq<u8> {
        self.digest@
    }
}

impl PageId {
    /// A well-formed identity holds a full 32-byte digest.
    pub open spec fn wf(&self) -> bool {
        self@.len() == 32
    }

    /// Derive the page id from the original content of the page.
    pub fn from_content(s: &str) -> (r: PageId)
        ensures
            r@ == content_id(s@),
            r.wf(),
    {
        PageId { digest: sha256(s.as_bytes()) }
    }

    /// Derive the page id from the original raw bytes of the page.
    pub fn from_bytes(data: &[u8]) -> (r: PageId)
        ensures
            r@ == page_id_of(data@),
            r.wf(),
    {
        PageId { digest: sha256(data) }
    }

    /// An identity from raw digest bytes.
    pub fn from_digest(digest: Vec<u8>) -> (r: PageId)
        ensures
            r@ == digest@,
    {
        PageId { digest }
    }

    /// The digests are equal.
    pub fn eq_id(&self, other: &PageId) -> (r: bool)
        ensures
            r == (self@ == other@),
    {
        let n = self.digest.len();
        if n != other.digest.len() {
            return false;
        }
        let mut i: usize = 0;
        while i < n
            invariant
                i <= n,
                n == self@.len(),
                n == other@.len(),
                forall|j: int| 0 <= j < i ==> self@[j] == other@[j],
            decreases n - i,
        {
            if self.digest[i] != other.digest[i] {
                return false;
            }
            i += 1;
        }
        proof {
            assert(self@ =~= other@);
        }
        true
    }

    /// An identical copy.
    pub fn duplicate(&self) -> (r: PageId)
        ensures
            r@ == self@,
    {
        let mut digest: Vec<u8> = Vec::new();
        let mut i: usize = 0;
        while i < self.digest.len()
            invariant
                i <= self@.len(),
                digest@ == self@.take(i as int),
            decreases self@.len() - i,
        {
            digest.push(self.digest[i]);
            proof {
                assert(digest@ =~= self@.take(i + 1));
            }
            i += 1;
        }
        proof {
            assert(self@.take(self@.len() as int) =~= self@);
        }
        PageId { digest }
    }

    /// The lowercase hexadecimal text of the digest.
    pub fn to_hex(&self) -> (r: String)
        ensures
            r@ == hex_of(self@),
    {
        bytes_to_hex(&self.digest)
    }
}

/// The identity is deterministic: equal source text gives an equal digest,
/// on every call.
pub proof fn lemma_page_id_deterministic(s1: Seq<u8>, s2: Seq<u8>)
    requires
        s1 == s2,
    ensures
        page_id_of(s1) == page_id_of(s2),
{
}

} // verus!
