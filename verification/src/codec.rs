//! Data-URL encoding: `data:<media>[;charset=<cs>];base64,<payload>` with the
//! standard base64 alphabet and no padding, and the payload decoder that
//! recovers the original bytes from such a URL.

use vstd::prelude::*;
use vstd::string::StrSliceExecFns;
use vstd::string::StringExecFns;
use crate::strutil::{
    trim_spec, eq_icase, str_trim, str_eq_icase,
};

verus! {

/// The base64 text (standard alphabet, unpadded) of a byte sequence.
pub uninterp spec fn base64_of(data: Seq<u8>) -> Seq<char>;

/// A character of the standard base64 alphabet.
pub open spec fn is_base64_char(c: char) -> bool {
    let n = c as int;
    (65 <= n && n <= 90) || (97 <= n && n <= 122) || (48 <= n && n <= 57) || n == 43 || n == 47
}

/// Relies on base64's `STANDARD_NO_PAD` engine: encoding is a pure function
/// of the input bytes, uses only the standard alphabet (no '=' padding), and
/// encodes the empty input as the empty string.
#[verifier::external_body]
fn base64_encode(data: &[u8]) -> (r: String)
    ensures
        r@ == base64_of(data@),
        forall|i: int| 0 <= i < r@.len() ==> is_base64_char(#[trigger] r@[i]),
        data@.len() == 0 ==> r@.len() == 0,
{
    base64::Engine::encode(&base64::engine::general_purpose::STANDARD_NO_PAD, data)
}

/// Relies on base64's `STANDARD_NO_PAD` engine: decoding inverts encoding, so
/// a string that is the encoding of some bytes decodes to exactly those bytes.
#[verifier::external_body]
fn base64_decode(s: &str) -> (r: Result<Vec<u8>, ()>)
    ensures
        forall|b: Seq<u8>| s@ == base64_of(b) ==> r is Ok && r->Ok_0@ == b,
{
    match base64::Engine::decode(&base64::engine::general_purpose::STANDARD_NO_PAD, s) {
        Ok(v) => Ok(v),
        Err(_) => Err(()),
    }
}

/// The charset segment of a data URL: empty when the trimmed charset is empty
/// or is `US-ASCII` in any case (the implicit default).
pub open spec fn charset_segment(cs: Seq<char>) -> Seq<char> {
    let t = trim_spec(cs);
    if t.len() > 0 && !eq_icase(t, "US-ASCII"@) {
        ";charset="@ + t
    } else {
        Seq::empty()
    }
}

/// The full text of a data URL.
pub open spec fn data_url_spec(media_type: Seq<char>, cs: Seq<char>, data: Seq<u8>) -> Seq<char> {
    "data:"@ + media_type + charset_segment(cs) + ";base64,"@ + base64_of(data)
}

/// Create a data url with the given charset.
pub fn create_data_url(media_type: &str, charset: &str, data: &[u8]) -> (r: String)
    ensures
        r@ == data_url_spec(media_type@, charset@, data@),
        data@.len() == 0 ==> base64_of(data@) == Seq::<char>::empty(),
{
    let t = str_trim(charset);
    let mut out: String = "data:".to_owned();
    out.append(media_type);
    if t.as_str().unicode_len() > 0 && !str_eq_icase(t.as_str(), "US-ASCII") {
        out.append(";charset=");
        out.append(t.as_str());
    }
    out.append(";base64,");
    let enc = base64_encode(data);
    out.append(enc.as_str());
    proof {
        assert(out@ =~= data_url_spec(media_type@, charset@, data@));
        if data@.len() == 0 {
            assert(base64_of(data@) =~= Seq::<char>::empty());
        }
    }
    out
}

/// No ',' occurs in `s`.
pub open spec fn comma_free(s: Seq<char>) -> bool {
    forall|i: int| 0 <= i < s.len() ==> s[i] != ','
}

/// Index of the first ',' in `s`.
pub open spec fn find_comma(s: Seq<char>) -> Option<int>
    decreases s.len(),
{
    if s.len() == 0 {
        None
    } else if s[0] == ',' {
        Some(0int)
    } else {
        match find_comma(s.drop_first()) {
            Some(j) => Some(j + 1),
            None => None,
        }
    }
}

proof fn lemma_find_comma_at(s: Seq<char>, k: int)
    requires
        0 <= k < s.len(),
        s[k] == ',',
        forall|j: int| 0 <= j < k ==> s[j] != ',',
    ensures
        find_comma(s) == Some(k),
    decreases k,
{
    if k > 0 {
        lemma_find_comma_at(s.drop_first(), k - 1);
    }
}

/// Recover the bytes embedded in a data URL built by [`create_data_url`]:
/// everything after the first ',' is the unpadded base64 payload.
pub fn decode_data_url(url: &str) -> (r: Option<Vec<u8>>)
    ensures
        forall|mt: Seq<char>, cs: Seq<char>, data: Seq<u8>|
            #![trigger data_url_spec(mt, cs, data)]
            comma_free(mt) && comma_free(trim_spec(cs)) && url@ == data_url_spec(mt, cs, data)
                ==> r is Some && r->0@ == data,
{
    let n = url.unicode_len();
    let mut k: usize = 0;
    while k < n
        invariant
            k <= n,
            n == url@.len(),
            forall|j: int| 0 <= j < k ==> url@[j] != ',',
        ensures
            k <= n,
            n == url@.len(),
            forall|j: int| 0 <= j < k ==> url@[j] != ',',
            k == n || url@[k as int] == ',',
        decreases n - k,
    {
        if url.get_char(k) == ',' {
            break ;
        }
        k += 1;
    }
    if k == n {
        proof {
            assert forall|mt: Seq<char>, cs: Seq<char>, data: Seq<u8>|
                !(comma_free(mt) && comma_free(trim_spec(cs)) && url@ == data_url_spec(
                    mt,
                    cs,
                    data,
                )) by {
                if url@ == data_url_spec(mt, cs, data) {
                    reveal_strlit("data:");
                    reveal_strlit(";base64,");
                    let head = "data:"@ + mt + charset_segment(cs);
                    assert(url@[head.len() as int + 7] == ";base64,"@[7]);
                }
            }
        }
        return None;
    }
    let payload = url.substring_char(k + 1, n);
    let decoded = base64_decode(payload);
    proof {
        assert forall|mt: Seq<char>, cs: Seq<char>, data: Seq<u8>|
            comma_free(mt) && comma_free(trim_spec(cs)) && url@ == data_url_spec(mt, cs, data)
                implies payload@ == base64_of(data) by {
            reveal_strlit("data:");
            reveal_strlit(";base64,");
            reveal_strlit(";charset=");
            let seg = charset_segment(cs);
            let head = "data:"@ + mt + seg;
            let plen = head.len() + 8;
            assert forall|j: int| 0 <= j < plen - 1 implies url@[j] != ',' by {
                if j < 5 {
                    assert(url@[j] == "data:"@[j]);
                } else if j < 5 + mt.len() {
                    assert(url@[j] == mt[j - 5]);
                } else if j < head.len() {
                    let sj = j - 5 - mt.len();
                    assert(seg.len() > 0);
                    assert(seg == ";charset="@ + trim_spec(cs));
                    assert(url@[j] == seg[sj]);
                    if sj < 9 {
                        assert(seg[sj] == ";charset="@[sj]);
                    } else {
                        assert(seg[sj] == trim_spec(cs)[sj - 9]);
                    }
                } else {
                    assert(url@[j] == ";base64,"@[j - head.len()]);
                }
            }
            assert(url@[plen as int - 1] == ";base64,"@[7]);
            lemma_find_comma_at(url@, plen as int - 1);
            lemma_find_comma_at(url@, k as int);
            assert(k as int == plen as int - 1);
            assert(payload@ =~= base64_of(data));
        }
    }
    match decoded {
        Ok(v) => Some(v),
        Err(_) => None,
    }
}

} // verus!
