//! From the bytes that a read left in the buffers to the text to print.

use vstd::prelude::*;
use vstd::string::StringExecFns;
use vstd::string::StringSliceAdditionalSpecFns;
use vstd::utf8::{
    decode_utf8, decode_utf8_encode_utf8, encode_utf8, encode_utf8_decode_utf8,
    encode_utf8_valid_utf8, is_ascii_chars, is_ascii_chars_encode_utf8, length_of_first_scalar,
    pop_first_scalar, valid_first_scalar, valid_utf8,
};

use crate::error::Error;
use crate::request::{flat, lemma_flat_push, zeros};

verus! {

/// The error of `core::str::from_utf8`. Nothing is read from it.
#[verifier::external_type_specification]
#[verifier::external_body]
pub struct ExUtf8Error(core::str::Utf8Error);

/// `core::str::from_utf8` accepts exactly the byte strings that are valid
/// UTF-8, and the string slice that it returns for one is made of the same
/// bytes.
pub assume_specification[ core::str::from_utf8 ](v: &[u8]) -> (r: Result<
    &str,
    core::str::Utf8Error,
>)
    ensures
        r is Ok <==> valid_utf8(v@),
        r matches Ok(s) ==> s.spec_bytes() == v@,
;

/// The line printed for buffers that hold `bytes`: the text that the bytes
/// encode, then a newline.
pub open spec fn line_of(bytes: Seq<u8>) -> Seq<char> {
    decode_utf8(bytes) + seq!['\n']
}

/// `n` NUL characters: what `n` bytes of zero padding decode to.
pub open spec fn nuls(n: nat) -> Seq<char> {
    Seq::new(n, |i: int| '\0')
}

/// Encoding one text after another gives the bytes of the first, then those
/// of the second.
pub proof fn lemma_encode_concat(first: Seq<char>, second: Seq<char>)
    ensures
        encode_utf8(first + second) == encode_utf8(first) + encode_utf8(second),
    decreases first.len(),
{
    if first.len() == 0 {
        assert(first + second =~= second);
        assert(encode_utf8(first) + encode_utf8(second) =~= encode_utf8(second));
    } else {
        lemma_encode_concat(first.drop_first(), second);
        assert((first + second).drop_first() =~= first.drop_first() + second);
        assert(encode_utf8(first + second) =~= encode_utf8(first) + encode_utf8(second));
    }
}

/// Zero bytes are the encoding of as many NUL characters.
pub proof fn lemma_zeros_encode_nuls(n: nat)
    ensures
        encode_utf8(nuls(n)) == zeros(n),
{
    assert(is_ascii_chars(nuls(n)));
    is_ascii_chars_encode_utf8(nuls(n));
    assert(encode_utf8(nuls(n)) =~= zeros(n));
}

/// Valid UTF-8 followed by zero padding is valid UTF-8, and decodes to the
/// text followed by one NUL character for each byte of padding.
pub proof fn lemma_decode_padded(content: Seq<u8>, padding: nat)
    requires
        valid_utf8(content),
    ensures
        valid_utf8(content + zeros(padding)),
        decode_utf8(content + zeros(padding)) == decode_utf8(content) + nuls(padding),
{
    let text = decode_utf8(content);
    decode_utf8_encode_utf8(content);
    lemma_zeros_encode_nuls(padding);
    lemma_encode_concat(text, nuls(padding));
    encode_utf8_valid_utf8(text + nuls(padding));
    encode_utf8_decode_utf8(text + nuls(padding));
}

/// Zero padding hides no broken encoding: bytes that are valid UTF-8 with
/// the padding behind them are valid UTF-8 without it.
pub proof fn lemma_padded_valid(content: Seq<u8>, padding: nat)
    requires
        valid_utf8(content + zeros(padding)),
    ensures
        valid_utf8(content),
    decreases content.len(),
{
    if content.len() != 0 {
        let padded = content + zeros(padding);
        assert(valid_first_scalar(padded) && valid_utf8(pop_first_scalar(padded)));
        let width = length_of_first_scalar(padded);
        assert(forall|i: int| 0 <= i < content.len() ==> padded[i] == content[i]);
        assert(forall|i: int| content.len() <= i < padded.len() ==> padded[i] == 0u8);
        assert(1 <= width <= content.len());
        assert(valid_first_scalar(content));
        assert(pop_first_scalar(padded) =~= pop_first_scalar(content) + zeros(padding));
        lemma_padded_valid(pop_first_scalar(content), padding);
    }
}

/// Copies the buffers into one byte string, first buffer first.
pub fn flatten(bufs: &Vec<[u8; 512]>) -> (bytes: Vec<u8>)
    ensures
        bytes@ == flat(bufs@),
{
    let mut bytes: Vec<u8> = Vec::new();
    assert(flat(bufs@.take(0)) =~= Seq::<u8>::empty()) by {
        assert(bufs@.take(0).map_values(|b: [u8; 512]| b@) =~= Seq::<Seq<u8>>::empty());
    }
    for done in 0..bufs.len()
        invariant
            bytes@ == flat(bufs@.take(done as int)),
    {
        let ghost before = bytes@;
        bytes.extend_from_slice(bufs[done].as_slice());
        proof {
            lemma_flat_push(bufs@.take(done as int), bufs@[done as int]);
            assert(bufs@.take(done as int).push(bufs@[done as int]) =~= bufs@.take(done + 1));
            assert(bytes@ =~= before + bufs@[done as int]@);
        }
    }
    assert(bufs@.take(bufs@.len() as int) =~= bufs@);
    bytes
}

/// Decodes what a read left in `bufs` as UTF-8, padding included, and ends
/// it with a newline. Bytes that are not valid UTF-8 are a decoding error.
pub fn render(bufs: &Vec<[u8; 512]>) -> (r: Result<String, Error>)
    ensures
        match r {
            Ok(text) => valid_utf8(flat(bufs@)) && text@ == line_of(flat(bufs@)),
            Err(e) => !valid_utf8(flat(bufs@)) && e == Error::Decoding,
        },
{
    let bytes = flatten(bufs);
    match core::str::from_utf8(bytes.as_slice()) {
        Ok(decoded) => {
            let mut text = String::from_str(decoded);
            proof {
                encode_utf8_decode_utf8(decoded@);
                reveal_strlit("\n");
                assert("\n"@ =~= seq!['\n']);
            }
            text.append("\n");
            Ok(text)
        },
        Err(_) => Err(Error::Decoding),
    }
}

} // verus!
