//! Text for the caller: byte strings of the document as `String`s.
use vstd::prelude::*;
use vstd::string::StringExecFns;
use vstd::utf8::{
    decode_utf8, decode_utf8_encode_utf8, encode_utf8, encode_utf8_decode_utf8,
    encode_utf8_valid_utf8, valid_utf8,
};
use crate::nametree::{files_view, EmbeddedFile, FileView};

verus! {

/// The text that bytes which are not valid UTF-8 decode to, where every
/// malformed sequence gives the replacement character U+FFFD.
pub uninterp spec fn utf8_lossy(bytes: Seq<u8>) -> Seq<char>;

/// The text of bytes: valid UTF-8 is the text it encodes; other bytes are
/// decoded with replacement characters.
pub open spec fn lossy_text(bytes: Seq<u8>) -> Seq<char> {
    if valid_utf8(bytes) {
        decode_utf8(bytes)
    } else {
        utf8_lossy(bytes)
    }
}

/// Calls `String::from_utf8_lossy` of std and takes the result as an owned
/// `String`. The contract claims what the documentation of that function
/// says: bytes that are valid UTF-8 come back as the string they encode; for
/// other bytes the contract only names the text that comes back. Nothing is
/// proved of the decoding.
#[verifier::external_body]
pub(crate) fn decode_lossy(bytes: &[u8]) -> (text: String)
    ensures
        valid_utf8(bytes@) ==> text@ == decode_utf8(bytes@),
        !valid_utf8(bytes@) ==> text@ == utf8_lossy(bytes@),
        text@ == lossy_text(bytes@),
{
    String::from_utf8_lossy(bytes).into_owned()
}

/// Text that is encoded as UTF-8 and decoded comes back as it was.
pub proof fn lemma_text_round_trip(text: Seq<char>)
    ensures
        lossy_text(encode_utf8(text)) == text,
{
    encode_utf8_valid_utf8(text);
    encode_utf8_decode_utf8(text);
}

/// Bytes that are valid UTF-8 are kept as they are stored: their text
/// encodes to the same bytes.
pub proof fn lemma_valid_bytes_are_kept(bytes: Seq<u8>)
    requires
        valid_utf8(bytes),
    ensures
        encode_utf8(lossy_text(bytes)) == bytes,
{
    decode_utf8_encode_utf8(bytes);
}

/// The texts of a list of strings.
pub open spec fn strings_view(v: Vec<String>) -> Seq<Seq<char>> {
    Seq::new(v@.len(), |i: int| v@[i]@)
}

/// The texts of an optional list of strings.
pub open spec fn opt_strings_view(v: Option<Vec<String>>) -> Option<Seq<Seq<char>>> {
    match v {
        Some(list) => Some(strings_view(list)),
        None => None,
    }
}

/// The file names of a list of embedded files, as text.
pub open spec fn names_text(files: Seq<FileView>) -> Seq<Seq<char>> {
    Seq::new(files.len(), |i: int| lossy_text(files[i].filename))
}

/// The texts joined into one, with `sep` between each two.
pub open spec fn joined(names: Seq<Seq<char>>, sep: Seq<char>) -> Seq<char>
    decreases names.len(),
{
    if names.len() == 0 {
        Seq::empty()
    } else if names.len() == 1 {
        names[0]
    } else {
        joined(names.drop_last(), sep) + sep + names.last()
    }
}

/// The file names of the embedded files, in their order.
pub fn listing(files: &Vec<EmbeddedFile>) -> (r: Vec<String>)
    ensures
        strings_view(r) == names_text(files_view(*files)),
{
    let mut out: Vec<String> = Vec::new();
    let mut i: usize = 0;
    while i < files.len()
        invariant
            i <= files.len(),
            out.len() == i,
            forall|k: int| 0 <= k < i ==> out@[k]@ == lossy_text(files@[k].filename@),
        decreases files.len() - i,
    {
        out.push(decode_lossy(files[i].filename.as_slice()));
        i += 1;
    }
    assert(strings_view(out) =~= names_text(files_view(*files)));
    out
}

/// Joins the strings into one, with `sep` between each two.
pub fn join(names: &Vec<String>, sep: &str) -> (r: String)
    ensures
        r@ == joined(strings_view(*names), sep@),
{
    let mut out = String::new();
    let mut i: usize = 0;
    let ghost all = strings_view(*names);
    while i < names.len()
        invariant
            i <= names.len(),
            all == strings_view(*names),
            out@ == joined(all.take(i as int), sep@),
        decreases names.len() - i,
    {
        let ghost before = out@;
        if i > 0 {
            out.append(sep);
        }
        out.append(names[i].as_str());
        proof {
            let next = all.take(i + 1);
            assert(next.drop_last() =~= all.take(i as int));
            assert(next.last() == names@[i as int]@);
            if i == 0 {
                assert(out@ =~= next[0]);
            } else {
                assert(out@ =~= before + sep@ + next.last());
            }
        }
        i += 1;
    }
    assert(all.take(names.len() as int) =~= all);
    out
}

} // verus!
