use vstd::prelude::*;

use vstd::string::{StrSliceExecFns, StringExecFns, StringSliceAdditionalSpecFns};
use vstd::utf8::{encode_utf8, is_char_boundary};

verus! {

/// One chat message as it travels between clients: a type tag and the
/// optional room, sender, body and timestamp fields.
#[derive(Clone, Debug, PartialEq, Eq)]
pub struct Message {
    pub msg_type: String,
    pub room: Option<String>,
    pub user: Option<String>,
    pub text: Option<String>,
    pub ts: Option<i64>,
}

/// Bring `text` to exactly `size` bytes: cut it to its first `size` bytes
/// when it is at least that long (the cut must fall on a character
/// boundary), pad it with trailing spaces otherwise.
pub fn pad_to_size(text: &str, size: usize) -> (r: String)
    requires
        text.len() >= size ==> is_char_boundary(text.spec_bytes(), size as int),
    ensures
        text.len() >= size ==> encode_utf8(r@) == text.spec_bytes().subrange(0, size as int),
        text.len() < size ==> r@ == text@ + Seq::new((size - text.len()) as nat, |q: int| ' '),
{
    let text_len = text.len();
    if text_len >= size {
        let pieces = text.split_at(size);
        return pieces.0.to_owned();
    }
    let mut padded = text.to_owned();
    let pad = size - text_len;
    let mut i: usize = 0;
    proof {
        assert(padded@ =~= text@ + Seq::new(0nat, |q: int| ' '));
    }
    while i < pad
        invariant
            0 <= i <= pad,
            padded@ == text@ + Seq::new(i as nat, |q: int| ' '),
        decreases pad - i,
    {
        padded.append(" ");
        proof {
            reveal_strlit(" ");
            assert(padded@ =~= text@ + Seq::new((i + 1) as nat, |q: int| ' '));
        }
        i += 1;
    }
    padded
}

} // verus!
