//! How traces are written down.

use vstd::prelude::*;

use crate::sim::trace::{canonical_text, hex_digit, hex_text, pretty_text, EventView};

verus! {

/// What was traced in two parts is written down as the two parts, one behind the
/// other: a line for each event, in order.
pub proof fn law_transcript_goes_on(a: Seq<EventView>, b: Seq<EventView>)
    ensures
        canonical_text(a + b) == canonical_text(a) + canonical_text(b),
        pretty_text(a + b) == pretty_text(a) + pretty_text(b),
        a.len() == 1 ==> canonical_text(a) == a[0].canonical() && pretty_text(a) == a[0].pretty(),
    decreases b.len(),
{
    if b.len() == 0 {
        assert(a + b =~= a);
        assert(canonical_text(a) + canonical_text(b) =~= canonical_text(a));
        assert(pretty_text(a) + pretty_text(b) =~= pretty_text(a));
    } else {
        law_transcript_goes_on(a, b.drop_last());
        assert((a + b).drop_last() =~= a + b.drop_last());
        assert(canonical_text(a + b) =~= canonical_text(a) + canonical_text(b));
        assert(pretty_text(a + b) =~= pretty_text(a) + pretty_text(b));
    }
    if a.len() == 1 {
        assert(a.drop_last() =~= Seq::empty());
        assert(canonical_text(a.drop_last()) =~= Seq::empty());
        assert(pretty_text(a.drop_last()) =~= Seq::empty());
        assert(canonical_text(a) =~= a[0].canonical());
        assert(pretty_text(a) =~= a[0].pretty());
    }
}

/// The value of a lower-case hexadecimal digit.
pub open spec fn hex_value(c: char) -> int {
    if '0' <= c && c <= '9' {
        c as int - '0' as int
    } else if 'a' <= c && c <= 'f' {
        c as int - 'a' as int + 10
    } else {
        -1
    }
}

/// Bytes are written as two digits each, the higher one first.
pub proof fn law_bytes_are_written_as_two_digits(bytes: Seq<u8>, i: int)
    requires
        0 <= i < bytes.len(),
    ensures
        hex_text(bytes).len() == 2 * bytes.len(),
        0 <= hex_value(hex_text(bytes)[2 * i]) < 16,
        0 <= hex_value(hex_text(bytes)[2 * i + 1]) < 16,
        16 * hex_value(hex_text(bytes)[2 * i]) + hex_value(hex_text(bytes)[2 * i + 1]) == bytes[i],
    decreases bytes.len(),
{
    let fewer = bytes.drop_last();
    let last = bytes.last();
    lemma_hex_len(bytes);
    lemma_hex_len(fewer);
    lemma_hex_digit(last / 16);
    lemma_hex_digit(last % 16);
    if i < fewer.len() {
        law_bytes_are_written_as_two_digits(fewer, i);
    }
}

proof fn lemma_hex_len(bytes: Seq<u8>)
    ensures
        hex_text(bytes).len() == 2 * bytes.len(),
    decreases bytes.len(),
{
    if bytes.len() > 0 {
        lemma_hex_len(bytes.drop_last());
    }
}

proof fn lemma_hex_digit(d: u8)
    requires
        d < 16,
    ensures
        hex_value(hex_digit(d)) == d,
{
}

} // verus!
