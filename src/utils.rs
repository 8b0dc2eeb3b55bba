use crate::config::FileConfig;
use crate::row::push_char;
use vstd::prelude::*;

verus! {

/// `k` spaces.
pub open spec fn spaces(k: int) -> Seq<char> {
    Seq::new(k as nat, |i: int| ' ')
}

/// The number of bytes of the UTF-8 encoding of `s`.
pub open spec fn byte_len(s: Seq<char>) -> int {
    vstd::utf8::encode_utf8(s).len() as int
}

/// `src` centred in a field `len` bytes long: the padding is split in two,
/// the odd space going to the right.
pub open spec fn centered(src: Seq<char>, bytes: int, len: int) -> Seq<char> {
    let left = (len - bytes) / 2;
    spaces(left) + src + spaces(len - bytes - left)
}

fn push_spaces(s: &mut String, k: usize)
    ensures
        final(s)@ == old(s)@ + spaces(k as int),
{
    let mut i: usize = 0;
    while i < k
        invariant
            i <= k,
            s@ == old(s)@ + spaces(i as int),
        decreases k - i,
    {
        push_char(s, ' ');
        i += 1;
        assert(s@ =~= old(s)@ + spaces(i as int));
    }
}

/// Pads `src` with spaces on both sides to `len` bytes.
pub fn pad_center_str(src: &str, len: usize) -> (r: String)
    requires
        byte_len(src@) <= len,
    ensures
        r@ == centered(src@, byte_len(src@), len as int),
{
    let bytes = src.len();
    let left = (len - bytes) / 2;
    let mut res = String::new();
    push_spaces(&mut res, left);
    res.append(src);
    push_spaces(&mut res, len - bytes - left);
    assert(res@ =~= centered(src@, byte_len(src@), len as int));
    res
}

/// Pads `src` with spaces on both sides to `len` bytes.
pub fn pad_center(src: String, len: usize) -> (r: String)
    requires
        byte_len(src@) <= len,
    ensures
        r@ == centered(src@, byte_len(src@), len as int),
{
    pad_center_str(src.as_str(), len)
}

/// The number of columns that `c` takes on a terminal; `None` for a control
/// character.
pub uninterp spec fn char_columns(c: char) -> Option<usize>;

/// Relies on `UnicodeWidthChar::width`: the width depends on the character alone.
#[verifier::external_body]
fn width_of_char(c: char) -> (w: Option<usize>)
    ensures
        w == char_columns(c),
{
    unicode_width::UnicodeWidthChar::width(c)
}

/// The number of columns that `chr` takes, a tab taking as many as the bytes
/// of `file_config.tab_str`.
pub fn char_width(chr: char, file_config: &FileConfig) -> (w: Option<usize>)
    ensures
        w == if chr == '\t' {
            Some(byte_len(file_config.tab_str@) as usize)
        } else {
            char_columns(chr)
        },
{
    if chr != '\t' {
        width_of_char(chr)
    } else {
        Some(file_config.tab_str.as_str().len())
    }
}

} // verus!
