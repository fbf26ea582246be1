//! The LZ77 compressor: configuration, the fixed three-byte token codec, and
//! the compression and decompression loops.
use vstd::prelude::*;

use crate::model::{token_bytes, token_distance, token_length, replay_bytes, apply_token};
use crate::model::{best_match, lemma_best_match, spec_compress_from, spec_compress};
use crate::model::lemma_compress_from_len;
use crate::model::{decode_stream, spec_decompress};
use crate::{find_longest_match, LZ};
use vstd::slice::slice_subrange;

verus! {

/// Why a compressed stream was rejected before decoding.
#[derive(Debug, Clone, Copy, PartialEq, Eq, Structural)]
pub enum DecompressError {
    /// The stream's byte length is not a multiple of the three-byte token
    /// size, so it cannot be split into whole tokens.
    MalformedStream,
}

/// Window configuration for the LZ77 compressor: how far back the match
/// search may reach and how far ahead it may look.
#[derive(Debug)]
pub struct LZ77 {
    /// Largest number of already-seen bytes searched for a match.
    max_dictionary_size: usize,
    /// Largest number of upcoming bytes a match may cover.
    lookahead_buffer_size: usize,
}

impl LZ77 {
    /// The configured history-window bound.
    pub closed spec fn spec_max_dictionary_size(&self) -> usize {
        self.max_dictionary_size
    }

    /// The configured lookahead-window bound.
    pub closed spec fn spec_lookahead_buffer_size(&self) -> usize {
        self.lookahead_buffer_size
    }

    /// A compressor with the defaults the token format is sized for:
    /// a 4095-byte dictionary (12 bits) and a 15-byte lookahead (4 bits).
    pub fn new() -> (r: Self)
        ensures
            r.spec_max_dictionary_size() == 4095,
            r.spec_lookahead_buffer_size() == 15,
    {
        LZ77 { max_dictionary_size: 4095, lookahead_buffer_size: 15 }
    }

    /// The current history-window bound.
    pub fn get_max_dictionary_size(&self) -> (r: usize)
        ensures
            r == self.spec_max_dictionary_size(),
    {
        self.max_dictionary_size
    }

    /// Replace the history-window bound.
    pub fn set_max_dictionary_size(&mut self, new_size: usize)
        ensures
            final(self).spec_max_dictionary_size() == new_size,
            final(self).spec_lookahead_buffer_size()
                == old(self).spec_lookahead_buffer_size(),
    {
        self.max_dictionary_size = new_size;
    }

    /// The current lookahead-window bound.
    pub fn get_lookahead_buffer_size(&self) -> (r: usize)
        ensures
            r == self.spec_lookahead_buffer_size(),
    {
        self.lookahead_buffer_size
    }

    /// Replace the lookahead-window bound.
    pub fn set_lookahead_buffer_size(&mut self, new_size: usize)
        ensures
            final(self).spec_lookahead_buffer_size() == new_size,
            final(self).spec_max_dictionary_size()
                == old(self).spec_max_dictionary_size(),
    {
        self.lookahead_buffer_size = new_size;
    }

    /// Append one three-byte token to `compressed_data`.  A distance above
    /// 4095 or a length above 15 loses its high bits here, so the compressor
    /// must bound its windows to the field widths itself.
    pub fn encode(
        compressed_data: &mut Vec<u8>,
        position: usize,
        length: usize,
        next_character: u8,
    )
        ensures
            final(compressed_data)@
                == old(compressed_data)@ + token_bytes(position, length, next_character),
    {
        proof {
            assert((position & 0x0000_00FF) < 256) by (bit_vector);
            assert(((position & 0x0000_0F00) >> 8) < 256) by (bit_vector);
            assert(((length & 0x0000_000F) << 4) < 256) by (bit_vector);
        }
        compressed_data.push((position & 0x0000_00FF) as u8);
        compressed_data
            .push(((position & 0x0000_0F00) >> 8) as u8 | ((length & 0x0000_000F) << 4) as u8);
        compressed_data.push(next_character);
        proof {
            assert(compressed_data@
                =~= old(compressed_data)@ + token_bytes(position, length, next_character));
        }
    }

    /// Replay one three-byte token onto `buffer`.  A back-reference is copied
    /// one byte at a time, so a distance smaller than the length reproduces a
    /// repeating run; a distance reaching before the start of the buffer is
    /// tolerated by skipping the copy and keeping only the literal byte.
    pub fn decode(buffer: &mut Vec<u8>, chunk: &[u8])
        requires
            chunk@.len() == 3,
        ensures
            final(buffer)@ == apply_token(old(buffer)@, chunk@[0], chunk@[1], chunk@[2]),
    {
        let position: usize = chunk[0] as usize | ((chunk[1] as usize & 0x0F) << 8);
        let length: usize = (chunk[1] >> 4) as usize;
        proof {
            assert(position == token_distance(chunk@[0], chunk@[1]));
            assert(length == token_length(chunk@[1]));
        }
        if !(position == 0 && length == 0) {
            let buffer_length: usize = buffer.len();
            let start: usize = if buffer_length >= position {
                buffer_length - position
            } else {
                0
            };
            if start < buffer_length {
                let ghost buf0 = buffer@;
                let offset: usize = buffer_length - start;
                let mut k: usize = 0;
                while k < length
                    invariant
                        k <= length,
                        start < buf0.len(),
                        offset == buf0.len() - start,
                        buffer@ == replay_bytes(buf0, start as int, k as int),
                        buffer@.len() == buf0.len() + k,
                    decreases length - k,
                {
                    let source: usize = buffer.len() - offset;
                    let b: u8 = buffer[source];
                    buffer.push(b);
                    k += 1;
                }
            }
        }
        buffer.push(chunk[2]);
    }

    /// Slide a cursor across `raw_data`; at each position find the longest
    /// match of the lookahead window in the history window, emit one token
    /// for it and the byte that follows, and step past both.  A match that
    /// reaches the end of the input gets the literal 0, the end-of-stream
    /// sentinel that decompression strips again.
    pub fn compress(
        raw_data: &[u8],
        max_dictionary_size: usize,
        lookahead_buffer_size: usize,
    ) -> (compressed: Vec<u8>)
        ensures
            compressed@ == spec_compress(
                raw_data@,
                max_dictionary_size as int,
                lookahead_buffer_size as int,
            ),
            compressed@.len() % 3 == 0,
    {
        proof {
            lemma_compress_from_len(raw_data@, max_dictionary_size as int,
                lookahead_buffer_size as int, 0);
        }
        let raw_data_length: usize = raw_data.len();
        let mut compressed_data: Vec<u8> = Vec::new();
        let mut i: usize = 0;
        while i < raw_data_length
            invariant
                i <= raw_data_length,
                raw_data_length == raw_data@.len(),
                spec_compress(raw_data@, max_dictionary_size as int,
                    lookahead_buffer_size as int)
                    == compressed_data@ + spec_compress_from(raw_data@,
                        max_dictionary_size as int, lookahead_buffer_size as int, i as int),
            decreases raw_data_length - i,
        {
            let search_buffer_index: usize = if i > max_dictionary_size {
                i - max_dictionary_size
            } else {
                0
            };
            let ahead_buffer_index: usize = if lookahead_buffer_size < raw_data_length - i {
                i + lookahead_buffer_size
            } else {
                raw_data_length
            };
            let search = slice_subrange(raw_data, search_buffer_index, i);
            let ahead = slice_subrange(raw_data, i, ahead_buffer_index);
            let (cursor, length): (usize, usize) = find_longest_match(search, ahead);
            proof {
                lemma_best_match(search@, ahead@);
            }
            let matched_end: usize = i + length;
            let next_character: u8 = if matched_end >= raw_data_length {
                0u8
            } else {
                raw_data[matched_end]
            };
            let ghost stream_before = compressed_data@;
            LZ77::encode(&mut compressed_data, cursor, length, next_character);
            proof {
                let data = raw_data@;
                let dict = max_dictionary_size as int;
                let look = lookahead_buffer_size as int;
                let m = best_match(data.subrange(search_buffer_index as int, i as int),
                    data.subrange(i as int, ahead_buffer_index as int));
                assert(cursor == m.0 && length == m.1);
                let next = if i + m.1 + 1 < data.len() {
                    i + m.1 + 1
                } else {
                    data.len() as int
                };
                assert(spec_compress_from(data, dict, look, i as int)
                    == token_bytes(m.0 as usize, m.1 as usize, next_character)
                        + spec_compress_from(data, dict, look, next));
                assert(stream_before + spec_compress_from(data, dict, look, i as int)
                    =~= compressed_data@ + spec_compress_from(data, dict, look, next));
            }
            if matched_end >= raw_data_length {
                i = raw_data_length;
            } else {
                i = matched_end + 1;
            }
        }
        proof {
            assert(spec_compress_from(raw_data@, max_dictionary_size as int,
                lookahead_buffer_size as int, i as int) =~= Seq::<u8>::empty());
            assert(compressed_data@ + Seq::<u8>::empty() =~= compressed_data@);
        }
        compressed_data
    }

    /// Replay a stream of whole three-byte tokens onto a fresh buffer, then
    /// strip the trailing zero sentinel, if any, that `compress` wrote.
    pub fn decompress(compressed_data: &[u8]) -> (raw: Vec<u8>)
        requires
            compressed_data@.len() % 3 == 0,
        ensures
            raw@ == spec_decompress(compressed_data@),
    {
        let compressed_data_length: usize = compressed_data.len();
        let mut raw_data: Vec<u8> = Vec::new();
        let mut i: usize = 0;
        proof {
            assert(compressed_data@.skip(0) =~= compressed_data@);
        }
        while i < compressed_data_length
            invariant
                i <= compressed_data_length,
                i % 3 == 0,
                compressed_data_length == compressed_data@.len(),
                compressed_data@.len() % 3 == 0,
                decode_stream(raw_data@, compressed_data@.skip(i as int))
                    == decode_stream(Seq::<u8>::empty(), compressed_data@),
            decreases compressed_data_length - i,
        {
            let ghost remaining = compressed_data@.skip(i as int);
            let chunk = slice_subrange(compressed_data, i, i + 3);
            LZ77::decode(&mut raw_data, chunk);
            proof {
                assert(remaining[0] == compressed_data@[i as int]);
                assert(remaining[1] == compressed_data@[i as int + 1]);
                assert(remaining[2] == compressed_data@[i as int + 2]);
                assert(remaining.skip(3) =~= compressed_data@.skip(i as int + 3));
            }
            i = i + 3;
        }
        proof {
            assert(compressed_data@.skip(i as int) =~= Seq::<u8>::empty());
        }
        if raw_data.len() > 0 && raw_data[raw_data.len() - 1] == 0 {
            raw_data.truncate(raw_data.len() - 1);
            proof {
                assert(raw_data@
                    =~= decode_stream(Seq::<u8>::empty(), compressed_data@).drop_last());
            }
        }
        raw_data
    }

    /// Decompress after checking that the stream splits into whole tokens;
    /// a misaligned stream is rejected instead of being read out of bounds.
    pub fn try_decompress(compressed_data: &[u8]) -> (r: Result<Vec<u8>, DecompressError>)
        ensures
            compressed_data@.len() % 3 == 0
                ==> (r matches Ok(raw) && raw@ == spec_decompress(compressed_data@)),
            compressed_data@.len() % 3 != 0
                ==> r == Err::<Vec<u8>, DecompressError>(DecompressError::MalformedStream),
    {
        if compressed_data.len() % 3 == 0 {
            Ok(LZ77::decompress(compressed_data))
        } else {
            Err(DecompressError::MalformedStream)
        }
    }
}

impl Clone for LZ77 {
    /// A duplicate with the same two window bounds.
    fn clone(&self) -> (r: Self)
        ensures
            r == *self,
    {
        LZ77 {
            max_dictionary_size: self.get_max_dictionary_size(),
            lookahead_buffer_size: self.get_lookahead_buffer_size(),
        }
    }
}

impl LZ for LZ77 {
    /// Compress with the configured window bounds.
    fn compress(&self, raw_data: &[u8]) -> (compressed: Vec<u8>)
        ensures
            compressed@ == spec_compress(
                raw_data@,
                self.spec_max_dictionary_size() as int,
                self.spec_lookahead_buffer_size() as int,
            ),
            compressed@.len() % 3 == 0,
    {
        LZ77::compress(
            raw_data,
            self.get_max_dictionary_size(),
            self.get_lookahead_buffer_size(),
        )
    }

    /// Decompress a stream of whole three-byte tokens.
    fn decompress(&self, compressed_data: &[u8]) -> (raw: Vec<u8>)
        ensures
            raw@ == spec_decompress(compressed_data@),
    {
        LZ77::decompress(compressed_data)
    }
}

} // verus!
