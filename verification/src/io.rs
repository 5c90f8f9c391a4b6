//! The part of a file's contents that a reading keeps.
use vstd::prelude::*;
use vstd::utf8::*;
use crate::text::lemma_encode_concat;

verus! {

/// Where the kept part of `bytes` ends: `end` bytes before the final byte,
/// which is the file's closing newline.
pub open spec fn window_stop(bytes: Seq<u8>, end: int) -> int {
    bytes.len() - 1 - end
}

/// `start` and `end` mark out a part of `bytes` that begins and ends on
/// character boundaries.
pub open spec fn window_fits(bytes: Seq<u8>, start: int, end: int) -> bool {
    &&& start + end + 1 <= bytes.len()
    &&& is_char_boundary(bytes, start)
    &&& is_char_boundary(bytes, window_stop(bytes, end))
}

/// Whether `read` can keep the part of `contents` that `start` and `end` mark out.
pub fn window_fits_in(contents: &str, start: usize, end: usize) -> (ok: bool)
    ensures
        ok == window_fits(encode_utf8(contents@), start as int, end as int),
{
    let n = contents.as_bytes().len();
    if n == 0 || start > n - 1 || end > n - 1 - start {
        return false;
    }
    contents.is_char_boundary(start) && contents.is_char_boundary(n - 1 - end)
}

/// The text that a reading of a file gives: where the file could be read,
/// its contents less the first `start` bytes and the last `end + 1` bytes;
/// where it could not, `"0"`.
pub fn read(contents: Option<&str>, start: usize, end: usize) -> (text: String)
    requires
        contents matches Some(c) ==> window_fits(encode_utf8(c@), start as int, end as int),
    ensures
        contents is None ==> text@ == seq!['0'],
        contents matches Some(c) ==> encode_utf8(text@) == encode_utf8(c@).subrange(
            start as int,
            window_stop(encode_utf8(c@), end as int),
        ),
{
    match contents {
        None => {
            let zero = "0";
            proof {
                reveal_strlit("0");
            }
            zero.to_owned()
        },
        Some(c) => {
            let ghost bytes = encode_utf8(c@);
            let n = c.as_bytes().len();
            let stop = n - 1 - end;
            proof {
                encode_utf8_valid_utf8(c@);
            }
            let (head, _) = c.split_at(stop);
            proof {
                valid_utf8_split(bytes, stop as int);
                let hb = encode_utf8(head@);
                assert(hb =~= bytes.subrange(0, stop as int));
                if start < stop {
                    is_char_boundary_iff_not_is_continuation_byte(bytes, start as int);
                    is_char_boundary_iff_not_is_continuation_byte(hb, start as int);
                } else {
                    is_char_boundary_start_end_of_seq(hb);
                }
            }
            let (_, mid) = head.split_at(start);
            proof {
                assert(encode_utf8(mid@) =~= bytes.subrange(start as int, stop as int));
            }
            mid.to_owned()
        },
    }
}

/// `text` less one final newline, where it ends in one.
pub fn strip_newline(text: &str) -> (line: &str)
    ensures
        line@ == if text@.len() > 0 && text@.last() == '\n' { text@.drop_last() } else { text@ },
{
    let ghost bytes = encode_utf8(text@);
    let n = text.as_bytes().len();
    if n > 0 && text.as_bytes()[n - 1] == 10u8 {
        proof {
            encode_utf8_valid_utf8(text@);
            is_char_boundary_iff_not_is_continuation_byte(bytes, n - 1);
            assert(!is_continuation_byte(10u8)) by (bit_vector);
        }
        let (head, tail) = text.split_at(n - 1);
        proof {
            assert(encode_utf8(tail@) =~= seq![10u8]);
            assert(encode_utf8(head@) =~= bytes.drop_last());
            lemma_encode_concat(head@, tail@);
            assert(encode_utf8(text@) == encode_utf8(head@ + tail@));
            encode_utf8_decode_utf8(text@);
            encode_utf8_decode_utf8(head@ + tail@);
            encode_utf8_decode_utf8(tail@);
            let nl = seq!['\n'];
            assert(is_ascii_chars(nl));
            is_ascii_chars_encode_utf8(nl);
            assert(encode_utf8(nl) =~= seq![10u8]);
            encode_utf8_decode_utf8(nl);
            assert(tail@ == nl);
            assert(text@ =~= head@ + nl);
        }
        head
    } else {
        proof {
            if text@.len() > 0 && text@.last() == '\n' {
                let nl = seq!['\n'];
                lemma_encode_concat(text@.drop_last(), nl);
                assert(text@ =~= text@.drop_last() + nl);
                assert(is_ascii_chars(nl));
                is_ascii_chars_encode_utf8(nl);
                assert(encode_utf8(nl) =~= seq![10u8]);
                assert(bytes.last() == 10u8);
            }
        }
        text
    }
}

} // verus!
