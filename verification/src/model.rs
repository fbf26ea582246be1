//! Mathematical model of the LZ77 token format and of the compression and
//! decompression algorithms, together with the laws proved about them.
//!
//! A token is exactly three bytes: a 12-bit back-reference distance, a 4-bit
//! match length, and one literal byte.  `spec_compress` and `spec_decompress`
//! describe the two directions of the codec over `Seq<u8>`; the round-trip
//! lemmas at the end of this file relate them.
use vstd::prelude::*;

verus! {

/// Largest back-reference distance the 12-bit token field can carry.
pub const MAX_DISTANCE: usize = 4095;

/// Largest match length the 4-bit token field can carry.
pub const MAX_LENGTH: usize = 15;

/// First token byte: the low 8 bits of the distance.
pub open spec fn token_byte0(distance: usize) -> u8 {
    (distance & 0x0000_00FF) as u8
}

/// Second token byte: the high 4 bits of the distance in the low nibble,
/// the match length in the high nibble.
pub open spec fn token_byte1(distance: usize, length: usize) -> u8 {
    ((distance & 0x0000_0F00) >> 8) as u8 | ((length & 0x0000_000F) << 4) as u8
}

/// The three bytes of one encoded token.
pub open spec fn token_bytes(distance: usize, length: usize, literal: u8) -> Seq<u8> {
    seq![token_byte0(distance), token_byte1(distance, length), literal]
}

/// Distance read back from the first two bytes of a token.
pub open spec fn token_distance(b0: u8, b1: u8) -> usize {
    b0 as usize | ((b1 as usize & 0x0F) << 8)
}

/// Match length read back from the second byte of a token.
pub open spec fn token_length(b1: u8) -> usize {
    (b1 >> 4) as usize
}

/// Decoding the two header bytes of a token recovers the distance and length
/// that were encoded, as long as both fit their fields.
pub proof fn lemma_token_fields_inverse(distance: usize, length: usize)
    requires
        distance <= MAX_DISTANCE,
        length <= MAX_LENGTH,
    ensures
        token_distance(token_byte0(distance), token_byte1(distance, length)) == distance,
        token_length(token_byte1(distance, length)) == length,
{
    assert(((distance & 0x0000_00FF) as u8) as usize
        | (((((distance & 0x0000_0F00) >> 8) as u8 | ((length & 0x0000_000F) << 4) as u8) as usize
            & 0x0F) << 8) == distance) by (bit_vector)
        requires
            distance <= 4095usize,
    ;
    assert(((((distance & 0x0000_0F00) >> 8) as u8 | ((length & 0x0000_000F) << 4) as u8) >> 4)
        as usize == length) by (bit_vector)
        requires
            length <= 15usize,
    ;
}

/// The `len`-byte window of `search` that begins at `start` equals the first
/// `len` bytes of `ahead`.
pub open spec fn match_at(search: Seq<u8>, ahead: Seq<u8>, start: int, len: int) -> bool {
    &&& 0 <= start
    &&& 0 <= len
    &&& start + len <= search.len()
    &&& len <= ahead.len()
    &&& search.subrange(start, start + len) == ahead.subrange(0, len)
}

/// Largest `start <= from` at which a `len`-byte match begins, or -1 if there
/// is none: the rightmost occurrence, which is the one nearest the cursor.
pub open spec fn rightmost_match_start(search: Seq<u8>, ahead: Seq<u8>, len: int, from: int) -> int
    decreases from + 1
{
    if from < 0 {
        -1
    } else if match_at(search, ahead, from, len) {
        from
    } else {
        rightmost_match_start(search, ahead, len, from - 1)
    }
}

/// The (distance, length) pair found when candidate lengths are tried from
/// `len` downward: the first length with a match wins, and within that length
/// the rightmost occurrence.  (0, 0) means no match at all.
pub open spec fn best_match_upto(search: Seq<u8>, ahead: Seq<u8>, len: int) -> (nat, nat)
    decreases len
{
    if len <= 0 {
        (0, 0)
    } else {
        let start = rightmost_match_start(search, ahead, len, search.len() - len);
        if start >= 0 {
            ((search.len() - start) as nat, len as nat)
        } else {
            best_match_upto(search, ahead, len - 1)
        }
    }
}

/// The longest, most recent match of a prefix of `ahead` inside `search`.
pub open spec fn best_match(search: Seq<u8>, ahead: Seq<u8>) -> (nat, nat) {
    best_match_upto(search, ahead, ahead.len() as int)
}

/// What `rightmost_match_start` returns: a genuine match position, to the
/// right of which no other match of the same length begins.
pub proof fn lemma_rightmost_match_start(search: Seq<u8>, ahead: Seq<u8>, len: int, from: int)
    ensures
        ({
            let start = rightmost_match_start(search, ahead, len, from);
            &&& start == -1 || (0 <= start <= from && match_at(search, ahead, start, len))
            &&& forall|t: int| start < t <= from ==> !match_at(search, ahead, t, len)
        }),
    decreases from + 1,
{
    if from >= 0 && !match_at(search, ahead, from, len) {
        lemma_rightmost_match_start(search, ahead, len, from - 1);
    }
}

/// What `best_match_upto` returns: either (0, 0) and no match of any length
/// up to `len` exists, or a rightmost match of maximal length whose distance
/// is at least that length and at most the history size.
pub proof fn lemma_best_match_upto(search: Seq<u8>, ahead: Seq<u8>, len: int)
    ensures
        ({
            let (d, l) = best_match_upto(search, ahead, len);
            &&& l == 0 ==> d == 0 && (forall|t: int, l2: int|
                1 <= l2 <= len ==> !match_at(search, ahead, t, l2))
            &&& l > 0 ==> {
                &&& l <= len
                &&& l <= d <= search.len()
                &&& match_at(search, ahead, search.len() - d, l as int)
                &&& forall|t: int, l2: int|
                    l < l2 <= len ==> !match_at(search, ahead, t, l2)
                &&& forall|t: int|
                    search.len() - d < t ==> !match_at(search, ahead, t, l as int)
            }
        }),
    decreases len,
{
    if len > 0 {
        let start = rightmost_match_start(search, ahead, len, search.len() - len);
        lemma_rightmost_match_start(search, ahead, len, search.len() - len);
        if start >= 0 {
            assert forall|t: int| search.len() - (search.len() - start) < t
                implies !match_at(search, ahead, t, len) by {
                if t + len <= search.len() {
                    assert(t <= search.len() - len);
                }
            }
        } else {
            lemma_best_match_upto(search, ahead, len - 1);
            assert forall|t: int, l2: int| 1 <= l2 <= len && l2 == len
                implies !match_at(search, ahead, t, l2) by {
                if t + len <= search.len() {
                    assert(t <= search.len() - len);
                }
            }
        }
    }
}

/// Facts about `best_match` that the compressor and the round-trip proof use.
pub proof fn lemma_best_match(search: Seq<u8>, ahead: Seq<u8>)
    ensures
        ({
            let (d, l) = best_match(search, ahead);
            &&& l <= ahead.len()
            &&& l == 0 ==> d == 0
            &&& l > 0 ==> l <= d <= search.len()
                && match_at(search, ahead, search.len() - d, l as int)
        }),
{
    lemma_best_match_upto(search, ahead, ahead.len() as int);
    let (d, l) = best_match(search, ahead);
    if l > 0 {
        assert(match_at(search, ahead, search.len() - d, l as int));
    }
}

/// An empty history window never yields a match, whatever lies ahead.
pub proof fn lemma_best_match_empty_search(ahead: Seq<u8>)
    ensures
        best_match(Seq::<u8>::empty(), ahead) == (0nat, 0nat),
{
    lemma_best_match(Seq::<u8>::empty(), ahead);
    let (d, l) = best_match(Seq::<u8>::empty(), ahead);
    assert(l == 0 && d == 0);
}

/// Append `count` bytes to `buf`, one at a time, each read `start + k` from
/// the front of the *growing* buffer.  When the distance is smaller than the
/// count, bytes appended earlier in the same replay are read again, which is
/// what reproduces runs from a short history.
pub open spec fn replay_bytes(buf: Seq<u8>, start: int, count: int) -> Seq<u8>
    decreases count
{
    if count <= 0 {
        buf
    } else {
        let prev = replay_bytes(buf, start, count - 1);
        prev.push(prev[start + count - 1])
    }
}

pub proof fn lemma_replay_bytes_len(buf: Seq<u8>, start: int, count: int)
    requires
        count >= 0,
    ensures
        replay_bytes(buf, start, count).len() == buf.len() + count,
    decreases count,
{
    if count > 0 {
        lemma_replay_bytes_len(buf, start, count - 1);
    }
}

/// When the copied range lies entirely inside the buffer as it stood before
/// the replay, the replay is a plain slice copy.
pub proof fn lemma_replay_bytes_disjoint(buf: Seq<u8>, start: int, count: int)
    requires
        0 <= start,
        0 <= count,
        start + count <= buf.len(),
    ensures
        replay_bytes(buf, start, count) == buf + buf.subrange(start, start + count),
    decreases count,
{
    if count == 0 {
        assert(replay_bytes(buf, start, 0) =~= buf + buf.subrange(start, start));
    } else {
        lemma_replay_bytes_disjoint(buf, start, count - 1);
        lemma_replay_bytes_len(buf, start, count - 1);
        assert(replay_bytes(buf, start, count)
            =~= buf + buf.subrange(start, start + count));
    }
}

/// The effect of one three-byte token on the growing output buffer: the
/// back-reference copy (skipped for the no-match token and for a distance
/// that reaches before the start of the buffer), then the literal byte.
pub open spec fn apply_token(buf: Seq<u8>, b0: u8, b1: u8, b2: u8) -> Seq<u8> {
    let distance = token_distance(b0, b1) as int;
    let length = token_length(b1) as int;
    let copied = if distance == 0 && length == 0 {
        buf
    } else {
        let start = if buf.len() >= distance { buf.len() - distance } else { 0 };
        if start < buf.len() {
            replay_bytes(buf, start, length)
        } else {
            buf
        }
    };
    copied.push(b2)
}

/// Decode a whole token stream, three bytes per token, onto `buf`.
pub open spec fn decode_stream(buf: Seq<u8>, stream: Seq<u8>) -> Seq<u8>
    decreases stream.len()
{
    if stream.len() < 3 {
        buf
    } else {
        decode_stream(apply_token(buf, stream[0], stream[1], stream[2]), stream.skip(3))
    }
}

/// The decompressed form of a token stream: decode every token into an empty
/// buffer, then drop a trailing zero byte, the end-of-stream sentinel.
pub open spec fn spec_decompress(stream: Seq<u8>) -> Seq<u8> {
    let buf = decode_stream(Seq::<u8>::empty(), stream);
    if buf.len() > 0 && buf.last() == 0 {
        buf.drop_last()
    } else {
        buf
    }
}

/// The token stream the compressor emits from cursor position `i` on.  Each
/// step finds the best match of the lookahead window in the history window,
/// emits one token, and advances past the match and the literal.
pub open spec fn spec_compress_from(data: Seq<u8>, dict: int, look: int, i: int) -> Seq<u8>
    decreases data.len() - i
{
    if i < 0 || i >= data.len() {
        Seq::<u8>::empty()
    } else {
        let hist_start = if i > dict { i - dict } else { 0 };
        let ahead_end = if i + look < data.len() { i + look } else { data.len() as int };
        let m = best_match(data.subrange(hist_start, i), data.subrange(i, ahead_end));
        let literal: u8 = if i + m.1 >= data.len() { 0u8 } else { data[i + m.1] };
        let next = if i + m.1 + 1 < data.len() { i + m.1 + 1 } else { data.len() as int };
        token_bytes(m.0 as usize, m.1 as usize, literal)
            + spec_compress_from(data, dict, look, next)
    }
}

/// The whole compressed stream of `data`, under the two window bounds.
pub open spec fn spec_compress(data: Seq<u8>, dict: int, look: int) -> Seq<u8> {
    spec_compress_from(data, dict, look, 0)
}

/// A compressed stream is a whole number of three-byte tokens.
pub proof fn lemma_compress_from_len(data: Seq<u8>, dict: int, look: int, i: int)
    requires
        0 <= i,
    ensures
        spec_compress_from(data, dict, look, i).len() % 3 == 0,
    decreases data.len() - i,
{
    if i < data.len() {
        let hist_start = if i > dict { i - dict } else { 0 };
        let ahead_end = if i + look < data.len() { i + look } else { data.len() as int };
        let m = best_match(data.subrange(hist_start, i), data.subrange(i, ahead_end));
        let next = if i + m.1 + 1 < data.len() { i + m.1 + 1 } else { data.len() as int };
        lemma_compress_from_len(data, dict, look, next);
    }
}

/// Decoding the tokens emitted from cursor `i` onward, onto a buffer that
/// already holds the first `i` bytes of `data`, rebuilds `data` exactly --
/// except that when the last match consumes the input, the zero sentinel
/// literal lands in the buffer too.
#[verifier::rlimit(100)]
pub proof fn lemma_decode_compress_from(data: Seq<u8>, dict: int, look: int, i: int)
    requires
        0 <= i <= data.len(),
        0 <= dict <= MAX_DISTANCE as int,
        0 <= look <= MAX_LENGTH as int,
    ensures
        decode_stream(data.subrange(0, i), spec_compress_from(data, dict, look, i)) == data
            || decode_stream(data.subrange(0, i), spec_compress_from(data, dict, look, i))
                == data.push(0),
    decreases data.len() - i,
{
    let buf = data.subrange(0, i);
    if i == data.len() {
        assert(buf =~= data);
    } else {
        let hist_start = if i > dict { i - dict } else { 0 };
        let ahead_end = if i + look < data.len() { i + look } else { data.len() as int };
        let hist = data.subrange(hist_start, i);
        let ahead = data.subrange(i, ahead_end);
        lemma_best_match(hist, ahead);
        let m = best_match(hist, ahead);
        let d = m.0 as int;
        let l = m.1 as int;
        let literal: u8 = if i + l >= data.len() { 0u8 } else { data[i + l] };
        let next = if i + l + 1 < data.len() { i + l + 1 } else { data.len() as int };
        let token = token_bytes(m.0 as usize, m.1 as usize, literal);
        let rest = spec_compress_from(data, dict, look, next);
        assert(spec_compress_from(data, dict, look, i) == token + rest);

        assert(l <= ahead.len() && ahead.len() <= look);
        assert(d <= hist.len() && hist.len() <= dict) by {
            if l == 0 {
                assert(d == 0);
            }
        }
        lemma_token_fields_inverse(m.0 as usize, m.1 as usize);
        let b0 = token_byte0(m.0 as usize);
        let b1 = token_byte1(m.0 as usize, m.1 as usize);
        assert(token[0] == b0 && token[1] == b1 && token[2] == literal);
        assert(token_distance(b0, b1) == d && token_length(b1) == l);

        let stepped = apply_token(buf, b0, b1, literal);
        if l == 0 {
            assert(stepped == buf.push(literal));
        } else {
            // The match lies wholly inside the history window, so the copy
            // reads only bytes that were already in the buffer.
            assert(l <= d && d <= i);
            let start = i - d;
            assert(stepped == replay_bytes(buf, start, l).push(literal));
            lemma_replay_bytes_disjoint(buf, start, l);
            assert(match_at(hist, ahead, hist.len() - d, l));
            assert forall|j: int| 0 <= j < i + l implies (buf + buf.subrange(start, start + l))[j]
                == #[trigger] data.subrange(0, i + l)[j] by {
                if j >= i {
                    assert(hist.subrange(hist.len() - d, hist.len() - d + l)[j - i]
                        == ahead.subrange(0, l)[j - i]);
                }
            }
            assert(buf + buf.subrange(start, start + l) =~= data.subrange(0, i + l));
        }
        // In either case the buffer now holds data[..i + l] plus the literal.
        if i + l >= data.len() {
            assert(i + l == data.len());
            assert(rest =~= Seq::<u8>::empty());
            assert(decode_stream(stepped, rest) == stepped);
            assert(stepped =~= data.push(0u8));
        } else {
            assert(stepped =~= data.subrange(0, next));
            lemma_decode_compress_from(data, dict, look, next);
        }
        // One unfolding of decode_stream over the leading token.
        assert((token + rest).skip(3) =~= rest);
        assert(decode_stream(buf, token + rest) == decode_stream(stepped, rest));
    }
}

/// Decompressing the compressed form of any byte sequence that does not end
/// in a zero byte gives that sequence back exactly, under any window bounds
/// that fit the 12-bit and 4-bit token fields.
pub proof fn lemma_compress_then_decompress(data: Seq<u8>, dict: int, look: int)
    requires
        0 <= dict <= MAX_DISTANCE as int,
        0 <= look <= MAX_LENGTH as int,
        data.len() == 0 || data[data.len() - 1] != 0,
    ensures
        spec_decompress(spec_compress(data, dict, look)) == data,
{
    lemma_decode_compress_from(data, dict, look, 0);
    assert(data.subrange(0, 0) =~= Seq::<u8>::empty());
    let out = decode_stream(Seq::<u8>::empty(), spec_compress(data, dict, look));
    if out == data.push(0u8) {
        assert(out.last() == 0);
        assert(out.drop_last() =~= data);
    }
}

/// When the input does end in a zero byte, that byte is indistinguishable
/// from the end-of-stream sentinel: the round trip returns either the input
/// itself or the input with its final zero dropped, never anything else.
pub proof fn lemma_round_trip_zero_tail(data: Seq<u8>, dict: int, look: int)
    requires
        0 <= dict <= MAX_DISTANCE as int,
        0 <= look <= MAX_LENGTH as int,
        data.len() > 0,
        data[data.len() - 1] == 0,
    ensures
        spec_decompress(spec_compress(data, dict, look)) == data
            || spec_decompress(spec_compress(data, dict, look)) == data.drop_last(),
{
    lemma_decode_compress_from(data, dict, look, 0);
    assert(data.subrange(0, 0) =~= Seq::<u8>::empty());
    let out = decode_stream(Seq::<u8>::empty(), spec_compress(data, dict, look));
    if out == data.push(0u8) {
        assert(out.last() == 0);
        assert(out.drop_last() =~= data);
    } else {
        assert(out.last() == 0);
        assert(spec_decompress(spec_compress(data, dict, look)) == data.drop_last());
    }
}

/// Compressing nothing yields nothing, and so does decompressing nothing,
/// whatever the window bounds.
pub proof fn lemma_empty_round_trip(dict: int, look: int)
    ensures
        spec_compress(Seq::<u8>::empty(), dict, look) == Seq::<u8>::empty(),
        spec_decompress(Seq::<u8>::empty()) == Seq::<u8>::empty(),
{
}

} // verus!
